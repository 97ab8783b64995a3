//! A game played on this machine, with its own source of tile numbers.
use vstd::prelude::*;
use crate::random::{Random, draw_chain, is_draw_run, lemma_chain_witness};
use crate::state::{State, fill, lemma_fill_is_refill, merge_fits, merged_board, refills};
use crate::board::is_move;

verus! {

/// A local game: the state and the generator that refills cells.
#[derive(Clone)]
pub struct Local<R: Random> {
    pub random: R,
    pub state: State,
}

/// Joining `action` may need a refilled last cell to be added to the score:
/// that happens only when the last cell is also among the refilled ones.
pub open spec fn move_fits(s: State, action: Seq<usize>) -> bool {
    &&& merge_fits(s.board@, s.score, action)
    &&& action.drop_last().contains(action.last()) ==> s.score + 3 <= u32::MAX
}

/// `after` is what making move `action` on `before` gives: the last cell
/// becomes its number times the move's length, the other cells of the move
/// are refilled, in order, with numbers the generator draws (each 1, 2 or
/// 3), and the score grows by what the last cell then holds.
pub open spec fn moved<R: Random>(before: Local<R>, action: Seq<usize>, after: Local<R>) -> bool {
    &&& exists|draws: Seq<u32>|
        {
            &&& draws.len() == action.len() - 1
            &&& forall|k: int| 0 <= k < draws.len() ==> 1 <= #[trigger] draws[k] <= 3
            &&& draw_chain(before.generator(), draws, after.generator())
            &&& after.game().board@ == fill(
                merged_board(before.game().board@, action),
                action.drop_last(),
                draws,
            )
        }
    &&& after.game().score == before.game().score + after.game().board@[action.last() as int]
}

impl<R: Random> Local<R> {
    /// The generator in its current state.
    pub open spec fn generator(&self) -> R {
        self.random
    }

    /// The game's state.
    pub open spec fn game(&self) -> State {
        self.state
    }

    /// The generator can draw.
    pub open spec fn wf(&self) -> bool {
        self.generator().ready()
    }

    /// Starts a game: score 0 and a board of 25 draws from `random`.
    pub fn new(random: R) -> (res: Self)
        requires
            random.ready(),
        ensures
            res.wf(),
            res.game().score == 0,
            forall|i: int| 0 <= i < 25 ==> 1 <= #[trigger] res.game().board@[i] <= 3,
            draw_chain(random, res.game().board@, res.generator()),
    {
        let mut random = random;
        let ghost start = random;
        let board = random.new_board();
        proof {
            let states = choose|states: Seq<R>|
                {
                    &&& states.len() == 26
                    &&& states[0] == start
                    &&& states[25] == random
                    &&& forall|k: int|
                        0 <= k < 25 ==> (#[trigger] states[k]).draws(states[k + 1], board@[k])
                };
            lemma_chain_witness(start, board@, random, states);
        }
        Self { state: State { score: 0, board }, random }
    }

    /// Whether move `action` keeps the numbers and the score within 32 bits.
    pub fn fits(&self, action: &[usize]) -> (res: bool)
        requires
            action@.len() >= 1,
            forall|k: int| 0 <= k < action@.len() ==> #[trigger] action@[k] < 25,
        ensures
            res == move_fits(self.game(), action@),
    {
        let n = action.len();
        if n as u64 > 0xffff_ffffu64 {
            return false;
        }
        let last = action[n - 1];
        assert(action@[n - 1] < 25);
        let number = self.state.board[last] as u64;
        let length = n as u64;
        assert(number * length <= 0xffff_ffffu64 * 0xffff_ffffu64) by (nonlinear_arith)
            requires
                number <= 0xffff_ffffu64,
                length <= 0xffff_ffffu64,
        ;
        let product: u64 = number * length;
        if product > 0xffff_ffffu64 {
            return false;
        }
        if self.state.score as u64 + product > 0xffff_ffffu64 {
            return false;
        }
        assert(action@.drop_last() =~= action@.take(n - 1));
        if crate::board::contains_before(action, n - 1, last) {
            return self.state.score as u64 + 3 <= 0xffff_ffffu64;
        }
        true
    }

    /// Makes move `action`: its last cell becomes its number times the
    /// move's length, the other cells of the move are refilled with fresh
    /// draws, in order, and the score grows by what the last cell then
    /// holds.
    pub fn make_move(&mut self, action: &[usize])
        requires
            old(self).wf(),
            action@.len() >= 1,
            forall|k: int| 0 <= k < action@.len() ==> #[trigger] action@[k] < 25,
            move_fits(old(self).game(), action@),
        ensures
            final(self).wf(),
            moved(*old(self), action@, *final(self)),
    {
        let ghost start_board = self.state.board@;
        let ghost start_random = self.random;
        let n = action.len();
        let last = action[n - 1];
        assert(action@[action@.len() - 1] < 25);
        proof {
            vstd::arithmetic::mul::lemma_mul_upper_bound(
                self.state.board@[last as int] as int,
                self.state.board@[last as int] as int,
                n as int,
                n as int,
            );
        }
        self.state.board[last] = self.state.board[last] * (n as u32);
        assert(self.state.board@ =~= merged_board(start_board, action@));
        let ghost merged = self.state.board@;
        let ghost wild = action@.drop_last();
        let ghost mut draws: Seq<u32> = Seq::empty();
        let ghost mut states: Seq<R> = seq![self.random];
        let mut k: usize = 0;
        while k < n - 1
            invariant
                n == action@.len(),
                n >= 1,
                k <= n - 1,
                last == action@.last(),
                wild == action@.drop_last(),
                forall|j: int| 0 <= j < action@.len() ==> #[trigger] action@[j] < 25,
                self.random.ready(),
                draws.len() == k,
                forall|j: int| 0 <= j < k ==> 1 <= #[trigger] draws[j] <= 3,
                is_draw_run(start_random, draws, self.random, states),
                self.state.board@ == fill_prefix(merged, wild, draws),
                self.state.score == old(self).state.score,
                move_fits(old(self).state, action@),
                merged[last as int] == start_board[last as int] * n,
                self.state.board@[last as int] == merged[last as int] || (wild.take(k as int).contains(
                    last,
                ) && 1 <= self.state.board@[last as int] <= 3),
            decreases n - 1 - k,
        {
            let tile = action[k];
            let ghost old_draws = draws;
            let ghost old_states = states;
            let value = self.random.new_num();
            proof {
                states = states.push(self.random);
                draws = draws.push(value);
                assert(draws.drop_last() =~= old_draws);
                lemma_fill_prefix_step(merged, wild, draws);
                assert(wild.take(k + 1) =~= wild.take(k as int).push(tile));
                assert(wild[k as int] == tile);
                assert forall|j: int| 0 <= j < draws.len() implies (#[trigger] states[j]).draws(
                    states[j + 1],
                    draws[j],
                ) by {
                    if j < k {
                        assert(states[j] == old_states[j]);
                        assert(states[j + 1] == old_states[j + 1]);
                    }
                }
            }
            self.state.board[tile] = value;
            assert(self.state.board@ =~= fill_prefix(merged, wild, draws));
            proof {
                if tile == last {
                    assert(wild.take(k + 1)[k as int] == last);
                } else if wild.take(k as int).contains(last) {
                    let m = choose|m: int| 0 <= m < k && wild.take(k as int)[m] == last;
                    assert(wild.take(k + 1)[m] == last);
                }
            }
            k = k + 1;
        }
        proof {
            assert(wild.take(k as int) =~= wild);
            lemma_fill_prefix_is_fill(merged, wild, draws);
            lemma_chain_witness(start_random, draws, self.random, states);
        }
        self.state.score = self.state.score + self.state.board[last];
        assert(draws.len() == action@.len() - 1);
        assert(draw_chain(start_random, draws, self.random));
        assert(self.state.board@ == fill(
            merged_board(start_board, action@),
            action@.drop_last(),
            draws,
        ));
        assert({
            &&& draws.len() == action@.len() - 1
            &&& forall|k: int| 0 <= k < draws.len() ==> 1 <= #[trigger] draws[k] <= 3
            &&& draw_chain(old(self).generator(), draws, self.generator())
            &&& self.game().board@ == fill(
                merged_board(old(self).game().board@, action@),
                action@.drop_last(),
                draws,
            )
        });
    }
}

/// The board `b` with the first `v.len()` cells of `w` set to `v`'s entries,
/// in order.
pub open spec fn fill_prefix(b: Seq<u32>, w: Seq<usize>, v: Seq<u32>) -> Seq<u32>
    decreases v.len(),
{
    if v.len() == 0 {
        b
    } else {
        fill_prefix(b, w, v.drop_last()).update(w[v.len() - 1] as int, v.last())
    }
}

/// One more entry of `v` sets one more cell.
proof fn lemma_fill_prefix_step(b: Seq<u32>, w: Seq<usize>, v: Seq<u32>)
    requires
        v.len() >= 1,
    ensures
        fill_prefix(b, w, v) == fill_prefix(b, w, v.drop_last()).update(
            w[v.len() - 1] as int,
            v.last(),
        ),
{
}

/// Setting the cells of `w` in order from the front is `fill`.
proof fn lemma_fill_prefix_is_fill(b: Seq<u32>, w: Seq<usize>, v: Seq<u32>)
    requires
        v.len() == w.len(),
    ensures
        fill_prefix(b, w, v) == fill(b, w, v),
    decreases v.len(),
{
    if v.len() > 0 {
        let b1 = b.update(w[0] as int, v[0]);
        lemma_fill_prefix_is_fill(b1, w.drop_first(), v.drop_first());
        lemma_fill_prefix_shift(b, w, v);
    }
}

/// Setting the first cell and then the rest is setting them all.
proof fn lemma_fill_prefix_shift(b: Seq<u32>, w: Seq<usize>, v: Seq<u32>)
    requires
        1 <= v.len() <= w.len(),
    ensures
        fill_prefix(b, w, v) == fill_prefix(
            b.update(w[0] as int, v[0]),
            w.drop_first(),
            v.drop_first(),
        ),
    decreases v.len(),
{
    let b1 = b.update(w[0] as int, v[0]);
    if v.len() > 1 {
        lemma_fill_prefix_shift(b, w, v.drop_last());
        assert(v.drop_last().drop_first() =~= v.drop_first().drop_last());
        assert(w.drop_first()[v.drop_first().len() - 1] == w[v.len() - 1]);
        assert(v.drop_first().last() == v.last());
        assert(fill_prefix(b1, w.drop_first(), v.drop_first()) == fill_prefix(
            b1,
            w.drop_first(),
            v.drop_first().drop_last(),
        ).update(w.drop_first()[v.drop_first().len() - 1] as int, v.drop_first().last()));
    } else {
        assert(v.drop_first().len() == 0);
        assert(v.drop_last().len() == 0);
        assert(fill_prefix(b, w, v.drop_last()) == b);
        assert(fill_prefix(b1, w.drop_first(), v.drop_first()) == b1);
    }
}

/// Refilling cells other than `c` leaves cell `c` as it was.
proof fn lemma_fill_keeps(b: Seq<u32>, w: Seq<usize>, v: Seq<u32>, c: int)
    requires
        0 <= c < b.len(),
        forall|k: int| 0 <= k < w.len() ==> (#[trigger] w[k]) < b.len() && w[k] != c,
    ensures
        fill(b, w, v)[c] == b[c],
        fill(b, w, v).len() == b.len(),
    decreases w.len(),
{
    if w.len() > 0 && v.len() > 0 {
        let rest = w.drop_first();
        assert forall|k: int| 0 <= k < rest.len() implies (#[trigger] rest[k]) < b.len() && rest[k] != c by {
            assert(rest[k] == w[k + 1]);
        }
        assert(w[0] != c);
        lemma_fill_keeps(b.update(w[0] as int, v[0]), rest, v.drop_first(), c);
    }
}

/// A legal move made on a local game leaves it in one of the states that
/// `State::next_states` lists for that move: the same board and the same
/// score.
pub proof fn lemma_local_move_is_next_state<R: Random>(
    before: Local<R>,
    action: Seq<usize>,
    after: Local<R>,
)
    requires
        before.game().board@.len() == 25,
        is_move(before.game().board@, action),
        moved(before, action, after),
    ensures
        exists|k: int|
            0 <= k < refills(merged_board(before.game().board@, action), action.drop_last()).len()
                && #[trigger] refills(
                merged_board(before.game().board@, action),
                action.drop_last(),
            )[k] == after.game().board@,
        after.game().score == before.game().score + merged_board(before.game().board@, action)[action.last() as int],
{
    let merged = merged_board(before.game().board@, action);
    let wild = action.drop_last();
    let draws = choose|draws: Seq<u32>|
        {
            &&& draws.len() == action.len() - 1
            &&& forall|k: int| 0 <= k < draws.len() ==> 1 <= #[trigger] draws[k] <= 3
            &&& draw_chain(before.generator(), draws, after.generator())
            &&& after.game().board@ == fill(merged, wild, draws)
        };
    lemma_fill_is_refill(merged, wild, draws);
    let all = refills(merged, wild);
    let k = choose|k: int| 0 <= k < all.len() && all[k] == fill(merged, wild, draws);
    assert(all[k] == after.game().board@);
    let last = action.last();
    assert(last < 25) by {
        assert(action[action.len() - 1] < 25);
    }
    assert forall|j: int| 0 <= j < wild.len() implies (#[trigger] wild[j]) < merged.len() && wild[j]
        != last by {
        assert(wild[j] == action[j]);
        assert(action[j] < 25);
        assert(action[action.len() - 1] == last);
    }
    lemma_fill_keeps(merged, wild, draws, last as int);
}

} // verus!
