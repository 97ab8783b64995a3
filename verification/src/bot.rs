//! A heuristic value of a position for a playing bot: chains of shrinking
//! multiples of three that start in the corners, and the number of moves
//! left.
use vstd::prelude::*;
use crate::board::Board;
use crate::state::State;

verus! {

/// The better of the current pick and neighbour `v` of cell `c`: `v` wins
/// when it exists, is a multiple of three, is at most the number on `c`
/// and is larger than the pick (so the first of equal numbers stays).
pub open spec fn pick_step(b: Seq<u32>, c: int, pick: (u32, int), exists: bool, v: int) -> (
    u32,
    int,
) {
    if exists && b[v] > pick.0 && b[v] <= b[c] && b[v] % 3 == 0 {
        (b[v], v)
    } else {
        pick
    }
}

/// The largest multiple of three, at most the number on `c`, among its
/// neighbours left, right, up and down (in that order on ties), with its
/// cell; `(0, 0)` when there is none.
pub open spec fn best_chain_neighbour(b: Seq<u32>, c: int) -> (u32, int) {
    let x = c % 5;
    let y = c / 5;
    let p0 = pick_step(b, c, (0u32, 0int), x != 0, c - 1);
    let p1 = pick_step(b, c, p0, x != 4, c + 1);
    let p2 = pick_step(b, c, p1, y != 0, c - 5);
    pick_step(b, c, p2, y != 4, c + 5)
}

/// The value of a chain from cell `c`: its number, plus the value of the
/// chain from the best smaller neighbour, or twice its number when the best
/// neighbour holds the same number.
pub open spec fn tile_value(b: Seq<u32>, c: int) -> int
    decreases b[c],
{
    let (largest, index) = best_chain_neighbour(b, c);
    if 0 <= c < 25 && b.len() == 25 && largest != 0 {
        if largest != b[c] {
            b[c] + tile_value(b, index)
        } else {
            b[c] * 2
        }
    } else {
        b[c] as int
    }
}

/// The chain value of a corner that holds a multiple of three, else 0.
pub open spec fn corner_value(b: Seq<u32>, c: int) -> int {
    if b[c] % 3 == 0 {
        tile_value(b, c)
    } else {
        0
    }
}

/// The chain values of the four corners, added.
pub open spec fn corner_sum(b: Seq<u32>) -> int {
    corner_value(b, 0) + corner_value(b, 4) + corner_value(b, 20) + corner_value(b, 24)
}

/// The value of a chain is at least the number it starts from.
pub proof fn lemma_tile_value_at_least(b: Seq<u32>, c: int)
    ensures
        tile_value(b, c) >= b[c],
    decreases b[c],
{
    let (largest, index) = best_chain_neighbour(b, c);
    if 0 <= c < 25 && b.len() == 25 && largest != 0 && largest != b[c] {
        lemma_tile_value_at_least(b, index);
    }
}

/// A cell the chain from `c` may go on to: next to `c` (left, right, up or
/// down) and holding a nonzero multiple of three no larger than the number
/// on `c`.
pub open spec fn chain_candidate(b: Seq<u32>, c: int, v: int) -> bool {
    &&& crate::board::adjacent(c, v)
    &&& b[v] % 3 == 0
    &&& 0 < b[v] <= b[c]
}

/// Where neighbour `v` of `c` comes in the order the chain tries them:
/// left, right, up, down.
pub open spec fn try_rank(c: int, v: int) -> int {
    if v == c - 1 {
        0
    } else if v == c + 1 {
        1
    } else if v == c - 5 {
        2
    } else {
        3
    }
}

/// The pick among the neighbours of `c` is a largest candidate, the first
/// of them in the order tried, and there is none exactly when no neighbour
/// is a candidate.
proof fn lemma_best_chain_neighbour(b: Seq<u32>, c: int)
    requires
        b.len() == 25,
        0 <= c < 25,
    ensures
        best_chain_neighbour(b, c).0 == 0 <==> !exists|v: int| chain_candidate(b, c, v),
        best_chain_neighbour(b, c).0 != 0 ==> {
            let (largest, index) = best_chain_neighbour(b, c);
            &&& chain_candidate(b, c, index)
            &&& b[index] == largest
            &&& forall|u: int| #[trigger] chain_candidate(b, c, u) ==> b[u] <= largest
            &&& forall|u: int|
                #[trigger] chain_candidate(b, c, u) && b[u] == largest ==> try_rank(c, index)
                    <= try_rank(c, u)
        },
{
    let (largest, index) = best_chain_neighbour(b, c);
    assert forall|u: int| #[trigger] chain_candidate(b, c, u) implies b[u] <= largest && largest != 0 by {
        assert(u == c - 1 || u == c + 1 || u == c - 5 || u == c + 5);
    }
    if largest != 0 {
        assert(index == c - 1 || index == c + 1 || index == c - 5 || index == c + 5);
        assert(chain_candidate(b, c, index));
        assert forall|u: int| #[trigger] chain_candidate(b, c, u) && b[u] == largest implies try_rank(
            c,
            index,
        ) <= try_rank(c, u) by {
            assert(u == c - 1 || u == c + 1 || u == c - 5 || u == c + 5);
        }
    }
}

/// The value of a chain, by the candidates next to its start `c`: the number
/// on `c` when there is none; twice that number when a candidate holds the
/// same number; else the number plus the value of the chain from the
/// candidate holding the largest number, when exactly one does.
pub proof fn lemma_chain_value(b: Seq<u32>, c: int, v: int)
    requires
        b.len() == 25,
        0 <= c < 25,
    ensures
        (forall|u: int| !chain_candidate(b, c, u)) ==> tile_value(b, c) == b[c],
        chain_candidate(b, c, v) && b[v] == b[c] ==> tile_value(b, c) == 2 * b[c],
        chain_candidate(b, c, v) && b[v] < b[c] && (forall|u: int|
            #[trigger] chain_candidate(b, c, u) && u != v ==> b[u] < b[v]) ==> tile_value(b, c)
            == b[c] + tile_value(b, v),
{
    lemma_best_chain_neighbour(b, c);
    let (largest, index) = best_chain_neighbour(b, c);
    if chain_candidate(b, c, v) {
        assert(b[v] <= largest);
        if b[v] < b[c] && (forall|u: int| #[trigger] chain_candidate(b, c, u) && u != v ==> b[u] < b[v]) {
            if index != v {
                assert(chain_candidate(b, c, index));
            }
        }
    }
}

/// Among candidates of equal largest number below the number on `c`, the
/// chain goes on to the first in the order left, right, up, down.
pub proof fn lemma_chain_value_ties(b: Seq<u32>, c: int, v: int)
    requires
        b.len() == 25,
        0 <= c < 25,
        chain_candidate(b, c, v),
        b[v] < b[c],
        forall|u: int| #[trigger] chain_candidate(b, c, u) ==> b[u] <= b[v],
        forall|u: int|
            #[trigger] chain_candidate(b, c, u) && b[u] == b[v] && u != v ==> try_rank(c, v) < try_rank(
                c,
                u,
            ),
    ensures
        tile_value(b, c) == b[c] + tile_value(b, v),
{
    lemma_best_chain_neighbour(b, c);
    let (largest, index) = best_chain_neighbour(b, c);
    assert(b[v] <= largest);
    assert(chain_candidate(b, c, index));
    if index != v {
        assert(b[index] <= b[v]);
        assert(try_rank(c, index) <= try_rank(c, v));
    }
}

/// Considers neighbour `v` of `c` for the chain pick.
fn pick_neighbour(board: &Board, c: usize, exists: bool, v: usize, pick: (u32, usize)) -> (res: (
    u32,
    usize,
))
    requires
        c < 25,
        exists ==> v < 25,
    ensures
        (res.0, res.1 as int) == pick_step(board@, c as int, (pick.0, pick.1 as int), exists, v as int),
{
    if exists && board[v] > pick.0 && board[v] <= board[c] && board[v] % 3 == 0 {
        (board[v], v)
    } else {
        pick
    }
}

/// The value of the chain from cell `c`, or `None` when it exceeds 32 bits.
pub fn checked_value_tile(board: &Board, c: usize) -> (res: Option<u32>)
    requires
        c < 25,
    ensures
        res is Some <==> tile_value(board@, c as int) <= u32::MAX,
        res matches Some(v) ==> v == tile_value(board@, c as int),
    decreases board@[c as int],
{
    let x = c % 5;
    let y = c / 5;
    let p0 = pick_neighbour(board, c, x != 0, if x != 0 { c - 1 } else { 0 }, (0, 0));
    let p1 = pick_neighbour(board, c, x != 4, c + 1, p0);
    let p2 = pick_neighbour(board, c, y != 0, if y != 0 { c - 5 } else { 0 }, p1);
    let p3 = pick_neighbour(board, c, y != 4, if y != 4 { c + 5 } else { 0 }, p2);
    let largest = p3.0;
    let index = p3.1;
    assert((largest, index as int) == best_chain_neighbour(board@, c as int));
    if largest != 0 {
        if largest != board[c] {
            proof {
                lemma_tile_value_at_least(board@, index as int);
            }
            match checked_value_tile(board, index) {
                None => None,
                Some(rest) => {
                    if board[c] as u64 + rest as u64 <= 0xffff_ffffu64 {
                        Some(board[c] + rest)
                    } else {
                        None
                    }
                },
            }
        } else if board[c] as u64 * 2 <= 0xffff_ffffu64 {
            Some(board[c] * 2)
        } else {
            None
        }
    } else {
        Some(board[c])
    }
}

/// The value of the chain from cell `c`.
pub fn value_tile(board: &Board, c: usize) -> (res: u32)
    requires
        c < 25,
        tile_value(board@, c as int) <= u32::MAX,
    ensures
        res == tile_value(board@, c as int),
{
    match checked_value_tile(board, c) {
        Some(v) => v,
        None => {
            proof {
                assert(false);
            }
            0
        },
    }
}

/// The bot's value of a position, or `None` when it exceeds 32 bits.
pub fn checked_state_value(state: &State, num_actions: usize) -> (res: Option<u32>)
    ensures
        res is Some <==> (corner_sum(state.board@) <= u32::MAX && corner_sum(state.board@)
            * num_actions + state.score <= u32::MAX),
        res matches Some(v) ==> v == corner_sum(state.board@) * num_actions + state.score,
{
    let ghost b = state.board@;
    proof {
        lemma_tile_value_at_least(b, 0);
        lemma_tile_value_at_least(b, 4);
        lemma_tile_value_at_least(b, 20);
        lemma_tile_value_at_least(b, 24);
    }
    let mut sum: u64 = 0;
    let corners: [usize; 4] = [0, 4, 20, 24];
    let mut k: usize = 0;
    while k < 4
        invariant
            k <= 4,
            corners@ == seq![0usize, 4, 20, 24],
            sum <= 0xffff_ffffu64,
            sum == (if k > 0 { corner_value(b, 0) } else { 0 }) + (if k > 1 { corner_value(b, 4) } else { 0 })
                + (if k > 2 { corner_value(b, 20) } else { 0 }) + (if k > 3 { corner_value(b, 24) } else { 0 }),
            b == state.board@,
            tile_value(b, 0) >= b[0] && tile_value(b, 4) >= b[4],
            tile_value(b, 20) >= b[20] && tile_value(b, 24) >= b[24],
        decreases 4 - k,
    {
        let c = corners[k];
        if state.board[c] % 3 == 0 {
            match checked_value_tile(&state.board, c) {
                None => {
                    return None;
                },
                Some(v) => {
                    if sum + v as u64 > 0xffff_ffffu64 {
                        return None;
                    }
                    sum = sum + v as u64;
                },
            }
        }
        k = k + 1;
    }
    assert(sum == corner_sum(b));
    let wide_sum = sum as u128;
    let wide_count = num_actions as u128;
    assert(wide_sum * wide_count <= 0xffff_ffffu128 * 0xffff_ffff_ffff_ffffu128) by (nonlinear_arith)
        requires
            wide_sum <= 0xffff_ffffu128,
            wide_count <= 0xffff_ffff_ffff_ffffu128,
    ;
    let total: u128 = wide_sum * wide_count;
    if total + state.score as u128 > 0xffff_ffffu128 {
        return None;
    }
    Some(state_value(state, num_actions))
}

/// The bot's value of a position: the corner chain values times the number
/// of moves available, plus the score.
pub fn state_value(state: &State, num_actions: usize) -> (res: u32)
    requires
        corner_sum(state.board@) <= u32::MAX,
        corner_sum(state.board@) * num_actions + state.score <= u32::MAX,
    ensures
        res == corner_sum(state.board@) * num_actions + state.score,
{
    let ghost b = state.board@;
    proof {
        lemma_tile_value_at_least(b, 0);
        lemma_tile_value_at_least(b, 4);
        lemma_tile_value_at_least(b, 20);
        lemma_tile_value_at_least(b, 24);
        assert(0 <= corner_sum(b));
        if corner_sum(b) > 0 {
            vstd::arithmetic::mul::lemma_mul_inequality(1, corner_sum(b), num_actions as int);
        }
    }
    let mut sum: u32 = 0;
    if state.board[0] % 3 == 0 {
        sum = sum + value_tile(&state.board, 0);
    }
    if state.board[4] % 3 == 0 {
        sum = sum + value_tile(&state.board, 4);
    }
    if state.board[20] % 3 == 0 {
        sum = sum + value_tile(&state.board, 20);
    }
    if state.board[24] % 3 == 0 {
        sum = sum + value_tile(&state.board, 24);
    }
    assert(sum == corner_sum(b));
    if sum == 0 {
        assert(corner_sum(b) * num_actions == 0) by (nonlinear_arith)
            requires
                corner_sum(b) == 0,
        ;
        state.score
    } else {
        proof {
            vstd::arithmetic::mul::lemma_mul_inequality(1, sum as int, num_actions as int);
        }
        sum * (num_actions as u32) + state.score
    }
}

} // verus!
