//! The state of a game: the board and the score, the moves it allows, and
//! the states a move can lead to.
use vstd::prelude::*;
use crate::board::{
    Board, board_table, contains_before, contains_cell, distance, is_move, lemma_lists_are_table,
    lemma_path_is_move, neighbour_lists, table_view, views,
};
pub use crate::board::neighbours;
use crate::paths::{
    extensions, extensions_via, is_path, lemma_paths_from, lemma_room_left, lemma_step_is_path,
    paths_from, step_paths, valid_table,
};

verus! {

/// Why a move is refused.
#[derive(PartialEq, Eq, Structural, Debug, Clone, Copy)]
pub enum ActionValidation {
    TooShort,
    OutOfBoard,
    ValueConflict,
    NotNextToEachOther,
    AlreadyGotten,
}

/// A game position: the numbers on the board and the score so far.
#[derive(Clone)]
pub struct State {
    pub board: Board,
    pub score: u32,
}

/// The complaint about cell `k` (from the second cell on) of a move, if
/// any: off the board, a different number than the first cell, a cell
/// already used, or not next to the cell before.
pub open spec fn tile_complaint(b: Seq<u32>, a: Seq<usize>, k: int) -> Option<ActionValidation> {
    if a[k] >= 25 {
        Some(ActionValidation::OutOfBoard)
    } else if b[a[k] as int] != b[a[0] as int] {
        Some(ActionValidation::ValueConflict)
    } else if a.take(k).contains(a[k]) {
        Some(ActionValidation::AlreadyGotten)
    } else if distance(a[k - 1] as int, a[k] as int) != 1 {
        Some(ActionValidation::NotNextToEachOther)
    } else {
        None
    }
}

/// The first complaint about cells `k..` of a move, or `Ok` when there is
/// none.
pub open spec fn first_complaint(b: Seq<u32>, a: Seq<usize>, k: int) -> Result<
    (),
    ActionValidation,
>
    decreases a.len() - k,
{
    if k >= a.len() {
        Ok(())
    } else {
        match tile_complaint(b, a, k) {
            Some(e) => Err(e),
            None => first_complaint(b, a, k + 1),
        }
    }
}

/// The verdict on a move: too short below two cells, off the board when the
/// first cell is, else the first complaint about a later cell.
pub open spec fn validation(b: Seq<u32>, a: Seq<usize>) -> Result<(), ActionValidation> {
    if a.len() < 2 {
        Err(ActionValidation::TooShort)
    } else if a[0] >= 25 {
        Err(ActionValidation::OutOfBoard)
    } else {
        first_complaint(b, a, 1)
    }
}

/// No two cells side by side hold the same number.
pub open spec fn no_equal_pair(b: Seq<u32>) -> bool {
    forall|i: int|
        0 <= i < 25 ==> !(i % 5 < 4 && #[trigger] b[i] == b[i + 1]) && !(i / 5 < 4 && b[i] == b[i
            + 5])
}

/// The board `b` with each cell of `w`, in turn, set to `v`'s entry.
pub open spec fn fill(b: Seq<u32>, w: Seq<usize>, v: Seq<u32>) -> Seq<u32>
    decreases w.len(),
{
    if w.len() == 0 || v.len() == 0 {
        b
    } else {
        fill(b.update(w[0] as int, v[0]), w.drop_first(), v.drop_first())
    }
}

/// The boards reachable from `b` by refilling the cells `w` with 1, 2 or 3
/// each, enumerated with the first cell varying slowest.
pub open spec fn refills(b: Seq<u32>, w: Seq<usize>) -> Seq<Seq<u32>>
    decreases w.len(),
{
    if w.len() == 0 {
        seq![b]
    } else {
        refills(b.update(w[0] as int, 1), w.drop_first()) + refills(
            b.update(w[0] as int, 2),
            w.drop_first(),
        ) + refills(b.update(w[0] as int, 3), w.drop_first())
    }
}

/// The board after joining move `a`: its last cell times the move's length.
pub open spec fn merged_board(b: Seq<u32>, a: Seq<usize>) -> Seq<u32> {
    b.update(a.last() as int, (b[a.last() as int] * a.len()) as u32)
}

/// Whether the product and sum that joining move `a` computes fit a `u32`.
pub open spec fn merge_fits(b: Seq<u32>, score: u32, a: Seq<usize>) -> bool {
    &&& a.len() <= u32::MAX
    &&& b[a.last() as int] * a.len() <= u32::MAX
    &&& score + b[a.last() as int] * a.len() <= u32::MAX
}

/// The depth-first search of `State::actions`: every path below `action`,
/// then `action` itself.
fn collect_paths(moves: &mut Vec<Vec<usize>>, neighbours_of: &[Vec<usize>; 25], action: Vec<usize>)
    requires
        valid_table(table_view(*neighbours_of)),
        is_path(table_view(*neighbours_of), action@),
    ensures
        views(final(moves)@) == views(old(moves)@) + extensions(
            table_view(*neighbours_of),
            action@,
        ).push(action@),
    decreases 25 - action@.len(),
{
    let ghost t = table_view(*neighbours_of);
    let ghost start = views(moves@);
    let last = action[action.len() - 1];
    assert(action@[action@.len() - 1] < 25);
    let candidates = &neighbours_of[last];
    assert(candidates@ == t[last as int]);
    let mut j: usize = 0;
    while j < candidates.len()
        invariant
            t == table_view(*neighbours_of),
            valid_table(t),
            is_path(t, action@),
            last == action@.last(),
            candidates@ == t[last as int],
            j <= candidates@.len(),
            views(moves@) == start + extensions_via(t, action@, candidates@.take(j as int)),
        decreases candidates@.len() - j,
    {
        let neighbour = candidates[j];
        assert(candidates@.take(j + 1).drop_last() =~= candidates@.take(j as int));
        assert(t[last as int].contains(neighbour)) by {
            assert(t[last as int][j as int] == neighbour);
        }
        if !contains_cell(action.as_slice(), neighbour) {
            proof {
                lemma_room_left(action@, neighbour);
                lemma_step_is_path(t, action@, neighbour);
            }
            let mut branch = action.clone();
            assert(branch@ =~= action@);
            branch.push(neighbour);
            let ghost before = views(moves@);
            collect_paths(moves, neighbours_of, branch);
            assert(views(moves@) =~= before + step_paths(t, action@, neighbour));
        } else {
            assert(step_paths(t, action@, neighbour) =~= Seq::<Seq<usize>>::empty());
            assert(extensions_via(t, action@, candidates@.take(j + 1)) =~= extensions_via(
                t,
                action@,
                candidates@.take(j as int),
            ));
        }
        j = j + 1;
    }
    assert(candidates@.take(j as int) =~= candidates@);
    proof {
        if action@.len() >= 25 {
            lemma_via_empty_when_full(t, action@, candidates@);
        }
    }
    let ghost mid = views(moves@);
    moves.push(action);
    assert(views(moves@) =~= mid.push(action@));
}

/// A path that fills the board has nothing below it.
proof fn lemma_via_empty_when_full(t: Seq<Seq<usize>>, a: Seq<usize>, nb: Seq<usize>)
    requires
        a.len() >= 25,
    ensures
        extensions_via(t, a, nb) == Seq::<Seq<usize>>::empty(),
{
}

impl State {
    /// Every path of equal, adjacent cells, single cells included: for each
    /// start cell in turn, its longer paths in search order and then the
    /// cell alone.
    pub fn actions(&self) -> (res: Vec<Vec<usize>>)
        ensures
            views(res@) == paths_from(board_table(self.board@), 25),
            forall|q: Seq<usize>|
                #![trigger views(res@).contains(q)]
                views(res@).contains(q) <==> (is_move(self.board@, q) || (q.len() == 1 && q[0]
                    < 25)),
            views(res@).no_duplicates(),
    {
        let neighbours_of = self.get_neighbours();
        let ghost t = table_view(neighbours_of);
        proof {
            crate::board::lemma_board_table_valid(self.board@);
        }
        let mut moves: Vec<Vec<usize>> = Vec::new();
        let mut i: usize = 0;
        while i < 25
            invariant
                i <= 25,
                t == table_view(neighbours_of),
                t == board_table(self.board@),
                valid_table(t),
                views(moves@) == paths_from(t, i as int),
            decreases 25 - i,
        {
            let start = vec![i];
            assert(start@ =~= seq![i]);
            proof {
                crate::paths::lemma_single_is_path(t, i);
            }
            collect_paths(&mut moves, &neighbours_of, start);
            i = i + 1;
        }
        proof {
            assert forall|q: Seq<usize>| #![trigger views(moves@).contains(q)]
                views(moves@).contains(q) <==> (is_move(self.board@, q) || (q.len() == 1
                    && q[0] < 25)) by {
                lemma_paths_from(t, 25, q);
                lemma_path_is_move(self.board@, q);
                if q.len() == 1 && q[0] < 25 {
                    crate::paths::lemma_single_is_path(t, q[0]);
                    assert(q =~= seq![q[0]]);
                }
            }
            crate::board::lemma_board_table_distinct(self.board@);
            crate::paths::lemma_paths_from_distinct(t, 25);
        }
        moves
    }

    /// Checks a move: two or more cells, all on the board, all holding the
    /// first cell's number, none twice, each next to the one before.
    pub fn validate_action(&self, action: &[usize]) -> (res: Result<(), ActionValidation>)
        ensures
            res == validation(self.board@, action@),
            res is Ok <==> is_move(self.board@, action@),
    {
        if action.len() < 2 {
            return Err(ActionValidation::TooShort);
        }
        if action[0] >= 25 {
            return Err(ActionValidation::OutOfBoard);
        }
        let action_value = self.board[action[0]];
        let mut k: usize = 1;
        while k < action.len()
            invariant
                2 <= action@.len(),
                1 <= k <= action@.len(),
                action@[0] < 25,
                action_value == self.board@[action@[0] as int],
                first_complaint(self.board@, action@, 1) == first_complaint(
                    self.board@,
                    action@,
                    k as int,
                ),
                forall|j: int| 1 <= j < k ==> tile_complaint(self.board@, action@, j) is None,
            decreases action@.len() - k,
        {
            let tile = action[k];
            if tile >= 25 {
                return Err(ActionValidation::OutOfBoard);
            }
            if self.board[tile] != action_value {
                return Err(ActionValidation::ValueConflict);
            }
            if contains_before(action, k, tile) {
                return Err(ActionValidation::AlreadyGotten);
            }
            let prev = action[k - 1];
            let x = tile % 5;
            let y = tile / 5;
            let prev_x = prev % 5;
            let prev_y = prev / 5;
            let dx = if prev_x > x {
                prev_x - x
            } else {
                x - prev_x
            };
            let dy = if prev_y > y {
                prev_y - y
            } else {
                y - prev_y
            };
            if dx + dy != 1 {
                return Err(ActionValidation::NotNextToEachOther);
            }
            k = k + 1;
        }
        proof {
            lemma_validation_is_move(self.board@, action@);
        }
        Ok(())
    }

    /// The equal neighbours of each cell.
    pub fn get_neighbours(&self) -> (res: [Vec<usize>; 25])
        ensures
            table_view(res) == board_table(self.board@),
    {
        let res = neighbour_lists(&self.board);
        proof {
            lemma_lists_are_table(self.board, res);
        }
        res
    }

    /// Whether no move is left: no two cells side by side hold the same
    /// number.
    pub fn is_game_over(&self) -> (res: bool)
        ensures
            res == no_equal_pair(self.board@),
            res <==> !exists|p: Seq<usize>| is_move(self.board@, p),
    {
        stuck(&self.board)
    }

    /// Takes the board that follows a move whose last cell is `last`: the
    /// board is replaced and the number now in `last` is added to the score.
    pub fn take_board(&mut self, board: Board, last: usize)
        requires
            last < 25,
            old(self).score + board[last as int] <= u32::MAX,
        ensures
            final(self).board == board,
            final(self).score == old(self).score + board[last as int],
    {
        self.board = board;
        self.score = self.score + self.board[last];
    }

    /// Every state that move `action` can lead to: the last cell becomes its
    /// number times the move's length, the score grows by that, and the
    /// other cells of the move are refilled with 1, 2 or 3 in every way,
    /// the first refilled cell varying slowest.
    pub fn next_states(&self, action: &Vec<usize>) -> (res: Vec<State>)
        requires
            action@.len() >= 1,
            forall|k: int| 0 <= k < action@.len() ==> #[trigger] action@[k] < 25,
            merge_fits(self.board@, self.score, action@),
        ensures
            res@.len() == refills(
                merged_board(self.board@, action@),
                action@.drop_last(),
            ).len(),
            forall|k: int|
                0 <= k < res@.len() ==> (#[trigger] res@[k]).board@ == refills(
                    merged_board(self.board@, action@),
                    action@.drop_last(),
                )[k] && res@[k].score == self.score + merged_board(
                    self.board@,
                    action@,
                )[action@.last() as int],
    {
        let mut new_state = State { board: self.board, score: self.score };
        let last_index = action[action.len() - 1];
        assert(action@[action@.len() - 1] < 25);
        proof {
            vstd::arithmetic::mul::lemma_mul_upper_bound(
                self.board@[last_index as int] as int,
                self.board@[last_index as int] as int,
                action@.len() as int,
                action@.len() as int,
            );
        }
        new_state.board[last_index] = new_state.board[last_index] * (action.len() as u32);
        new_state.score = new_state.score + new_state.board[last_index];
        assert(new_state.board@ =~= merged_board(self.board@, action@));
        let ghost score = new_state.score;
        let res = other_states(new_state, action.as_slice(), 0, action.len() - 1);
        assert(action@.subrange(0, action@.len() - 1) =~= action@.drop_last());
        res
    }
}

/// The states reached from `state` by refilling the cells
/// `wildcards[from..to]` with 1, 2 or 3 each.
fn other_states(state: State, wildcards: &[usize], from: usize, to: usize) -> (res: Vec<State>)
    requires
        from <= to <= wildcards@.len(),
        forall|k: int| 0 <= k < wildcards@.len() ==> #[trigger] wildcards@[k] < 25,
    ensures
        res@.len() == refills(state.board@, wildcards@.subrange(from as int, to as int)).len(),
        forall|k: int|
            0 <= k < res@.len() ==> (#[trigger] res@[k]).board@ == refills(
                state.board@,
                wildcards@.subrange(from as int, to as int),
            )[k] && res@[k].score == state.score,
    decreases to - from,
{
    let ghost w = wildcards@.subrange(from as int, to as int);
    if from == to {
        assert(w.len() == 0);
        let mut res: Vec<State> = Vec::new();
        res.push(state);
        return res;
    }
    let cell = wildcards[from];
    assert(w.drop_first() =~= wildcards@.subrange(from + 1, to as int));
    let mut one = State { board: state.board, score: state.score };
    one.board[cell] = 1;
    let mut result = other_states(one, wildcards, from + 1, to);
    let mut two = State { board: state.board, score: state.score };
    two.board[cell] = 2;
    let mut second = other_states(two, wildcards, from + 1, to);
    let ghost first_part = result@;
    let ghost second_part = second@;
    result.append(&mut second);
    let mut three = State { board: state.board, score: state.score };
    three.board[cell] = 3;
    let mut third = other_states(three, wildcards, from + 1, to);
    let ghost third_part = third@;
    result.append(&mut third);
    proof {
        let r1 = refills(state.board@.update(cell as int, 1), w.drop_first());
        let r2 = refills(state.board@.update(cell as int, 2), w.drop_first());
        let r3 = refills(state.board@.update(cell as int, 3), w.drop_first());
        assert(one.board@ =~= state.board@.update(cell as int, 1));
        assert(two.board@ =~= state.board@.update(cell as int, 2));
        assert(three.board@ =~= state.board@.update(cell as int, 3));
        assert(refills(state.board@, w) == r1 + r2 + r3);
        assert(result@ =~= first_part + second_part + third_part);
        assert forall|k: int| 0 <= k < result@.len() implies (#[trigger] result@[k]).board@ == (r1
            + r2 + r3)[k] && result@[k].score == state.score by {
            if k < r1.len() {
                assert(result@[k] == first_part[k]);
            } else if k < r1.len() + r2.len() {
                assert(result@[k] == second_part[k - r1.len()]);
            } else {
                assert(result@[k] == third_part[k - r1.len() - r2.len()]);
            }
        }
    }
    result
}

/// Whether no two cells side by side on `board` hold the same number.
pub fn stuck(board: &Board) -> (res: bool)
    ensures
        res == no_equal_pair(board@),
        res <==> !exists|p: Seq<usize>| is_move(board@, p),
{
    let mut i: usize = 0;
    while i < 25
        invariant
            i <= 25,
            forall|j: int|
                0 <= j < i ==> !(j % 5 < 4 && #[trigger] board@[j] == board@[j + 1]) && !(j / 5 < 4
                    && board@[j] == board@[j + 5]),
        decreases 25 - i,
    {
        let value = board[i];
        let x = i % 5;
        let y = i / 5;
        if x < 4 && board[i + 1] == value {
            proof {
                lemma_pair_is_move(board@, i as int, i as int + 1);
            }
            return false;
        }
        if y < 4 && board[i + 5] == value {
            proof {
                lemma_pair_is_move(board@, i as int, i as int + 5);
            }
            return false;
        }
        i = i + 1;
    }
    proof {
        lemma_no_pair_no_move(board@);
    }
    true
}

/// Two equal cells side by side form a move.
proof fn lemma_pair_is_move(b: Seq<u32>, i: int, j: int)
    requires
        b.len() == 25,
        0 <= i < 25,
        (j == i + 1 && i % 5 < 4) || (j == i + 5 && i / 5 < 4),
        b[i] == b[j],
    ensures
        exists|p: Seq<usize>| is_move(b, p),
{
    let p = seq![i as usize, j as usize];
    assert(is_move(b, p));
}

/// Without two equal cells side by side there is no move.
proof fn lemma_no_pair_no_move(b: Seq<u32>)
    requires
        b.len() == 25,
        no_equal_pair(b),
    ensures
        !exists|p: Seq<usize>| is_move(b, p),
{
    if exists|p: Seq<usize>| is_move(b, p) {
        let p = choose|p: Seq<usize>| is_move(b, p);
        let i = p[0] as int;
        let j = p[1] as int;
        assert(crate::board::adjacent(i, j));
        assert(b[j] == b[i]);
        if j == i + 1 || j == i + 5 {
            assert(b[i] == b[i + 1] || b[i] == b[i + 5]);
        } else {
            assert(b[j] == b[j + 1] || b[j] == b[j + 5]);
        }
    }
}

/// Cell `j` of move `a` passes: on the board, holding the first cell's
/// number, and (after the first) not used before and next to the cell
/// before it.
pub open spec fn step_fits(b: Seq<u32>, a: Seq<usize>, j: int) -> bool {
    &&& a[j] < 25
    &&& b[a[j] as int] == b[a[0] as int]
    &&& j > 0 ==> !a.take(j).contains(a[j]) && distance(a[j - 1] as int, a[j] as int) == 1
}

/// Why cell `k` of move `a` fails, checking in turn: off the board, a
/// different number, used before, not next to the cell before.
pub open spec fn failure_of(b: Seq<u32>, a: Seq<usize>, k: int) -> ActionValidation {
    if a[k] >= 25 {
        ActionValidation::OutOfBoard
    } else if b[a[k] as int] != b[a[0] as int] {
        ActionValidation::ValueConflict
    } else if a.take(k).contains(a[k]) {
        ActionValidation::AlreadyGotten
    } else {
        ActionValidation::NotNextToEachOther
    }
}

/// A refused move says why: too short exactly below two cells; otherwise
/// the first cell that fails, every cell before it passing.
pub proof fn lemma_validation_names_first_failure(b: Seq<u32>, a: Seq<usize>)
    ensures
        validation(b, a) == Err::<(), ActionValidation>(ActionValidation::TooShort) <==> a.len() < 2,
        a.len() >= 2 && validation(b, a) is Err ==> exists|k: int|
            0 <= k < a.len() && (forall|j: int| 0 <= j < k ==> #[trigger] step_fits(b, a, j))
                && !step_fits(b, a, k) && validation(b, a) == Err::<(), ActionValidation>(
                failure_of(b, a, k),
            ),
{
    if a.len() >= 2 {
        if a[0] >= 25 {
            assert(!step_fits(b, a, 0));
        } else {
            lemma_failure_from(b, a, 1);
            assert(step_fits(b, a, 0));
            if validation(b, a) is Err {
                let k = choose|k: int|
                    1 <= k < a.len() && (forall|j: int| 1 <= j < k ==> #[trigger] step_fits(b, a, j))
                        && !step_fits(b, a, k) && first_complaint(b, a, 1) == Err::<(), ActionValidation>(
                        failure_of(b, a, k),
                    );
                assert forall|j: int| 0 <= j < k implies #[trigger] step_fits(b, a, j) by {
                    if j > 0 {
                        assert(step_fits(b, a, j));
                    }
                }
            }
        }
    }
}

/// The first complaint from cell `k` on names the first of those cells that
/// fails.
proof fn lemma_failure_from(b: Seq<u32>, a: Seq<usize>, k: int)
    requires
        1 <= k <= a.len(),
        a[0] < 25,
    ensures
        first_complaint(b, a, k) is Err ==> exists|k2: int|
            k <= k2 < a.len() && (forall|j: int| k <= j < k2 ==> #[trigger] step_fits(b, a, j))
                && !step_fits(b, a, k2) && first_complaint(b, a, k) == Err::<(), ActionValidation>(
                failure_of(b, a, k2),
            ),
    decreases a.len() - k,
{
    if k < a.len() {
        lemma_failure_from(b, a, k + 1);
        if tile_complaint(b, a, k) is Some {
            assert(!step_fits(b, a, k));
            assert(forall|j: int| k <= j < k ==> #[trigger] step_fits(b, a, j));
        }
        if tile_complaint(b, a, k) is None && first_complaint(b, a, k + 1) is Err {
            assert(step_fits(b, a, k));
            let k2 = choose|k2: int|
                k + 1 <= k2 < a.len() && (forall|j: int| k + 1 <= j < k2 ==> #[trigger] step_fits(b, a, j))
                    && !step_fits(b, a, k2) && first_complaint(b, a, k + 1) == Err::<(), ActionValidation>(
                    failure_of(b, a, k2),
                );
            assert forall|j: int| k <= j < k2 implies #[trigger] step_fits(b, a, j) by {
                if j > k {
                    assert(step_fits(b, a, j));
                }
            }
        }
    }
}

/// A move passes validation exactly when it is a move of the board.
pub proof fn lemma_validation_is_move(b: Seq<u32>, a: Seq<usize>)
    requires
        b.len() == 25,
    ensures
        validation(b, a) is Ok <==> is_move(b, a),
{
    if a.len() >= 2 && a[0] < 25 {
        lemma_first_complaint(b, a, 1);
    }
}

/// There is no complaint from cell `k` on exactly when no cell from `k` on
/// draws one.
proof fn lemma_first_complaint(b: Seq<u32>, a: Seq<usize>, k: int)
    requires
        b.len() == 25,
        1 <= k <= a.len(),
        a.len() >= 2,
        a[0] < 25,
        forall|j: int| 1 <= j < k ==> tile_complaint(b, a, j) is None,
    ensures
        first_complaint(b, a, k) is Ok <==> is_move(b, a),
    decreases a.len() - k,
{
    if k < a.len() {
        if tile_complaint(b, a, k) is None {
            lemma_first_complaint(b, a, k + 1);
        } else {
            assert(!is_move(b, a)) by {
                if is_move(b, a) {
                    let j = k - 1;
                    assert(a[j] < 25);
                    assert(crate::board::adjacent(a[j] as int, a[j + 1] as int));
                    if a.take(k).contains(a[k]) {
                        let m = choose|m: int| 0 <= m < k && a.take(k)[m] == a[k];
                        assert(a[m] == a[k]);
                    }
                }
            }
        }
    } else {
        assert forall|j: int| 0 <= j < a.len() implies #[trigger] a[j] < 25 by {
            if j > 0 {
                assert(tile_complaint(b, a, j) is None);
            }
        }
        assert forall|j: int| 0 <= j < a.len() - 1 implies crate::board::adjacent(
            #[trigger] a[j] as int,
            a[j + 1] as int,
        ) by {
            assert(tile_complaint(b, a, j + 1) is None);
        }
        assert forall|j: int| 0 <= j < a.len() implies b[#[trigger] a[j] as int] == b[a[0] as int] by {
            if j > 0 {
                assert(tile_complaint(b, a, j) is None);
            }
        }
        assert(a.no_duplicates()) by {
            assert forall|i: int, j: int| 0 <= i < a.len() && 0 <= j < a.len() && i != j implies a[i]
                != a[j] by {
                if i < j {
                    assert(tile_complaint(b, a, j) is None);
                    assert(a.take(j)[i] == a[i]);
                } else {
                    assert(tile_complaint(b, a, i) is None);
                    assert(a.take(i)[j] == a[j]);
                }
            }
        }
    }
}

/// There are three refills for each refilled cell.
pub proof fn lemma_refills_count(b: Seq<u32>, w: Seq<usize>)
    ensures
        refills(b, w).len() == vstd::arithmetic::power::pow(3, w.len()),
    decreases w.len(),
{
    reveal(vstd::arithmetic::power::pow);
    if w.len() > 0 {
        lemma_refills_count(b.update(w[0] as int, 1), w.drop_first());
        lemma_refills_count(b.update(w[0] as int, 2), w.drop_first());
        lemma_refills_count(b.update(w[0] as int, 3), w.drop_first());
    }
}

/// Refilling the cells `w` with numbers from 1 to 3 gives one of the
/// listed refills.
pub proof fn lemma_fill_is_refill(b: Seq<u32>, w: Seq<usize>, v: Seq<u32>)
    requires
        v.len() == w.len(),
        forall|k: int| 0 <= k < v.len() ==> 1 <= #[trigger] v[k] <= 3,
    ensures
        refills(b, w).contains(fill(b, w, v)),
    decreases w.len(),
{
    if w.len() == 0 {
        assert(refills(b, w)[0] == b);
    } else {
        let rest = w.drop_first();
        let tail = v.drop_first();
        assert forall|k: int| 0 <= k < tail.len() implies 1 <= #[trigger] tail[k] <= 3 by {
            assert(tail[k] == v[k + 1]);
        }
        let one = refills(b.update(w[0] as int, 1), rest);
        let two = refills(b.update(w[0] as int, 2), rest);
        let three = refills(b.update(w[0] as int, 3), rest);
        let x = fill(b, w, v);
        lemma_fill_is_refill(b.update(w[0] as int, v[0]), rest, tail);
        let all = one + two + three;
        assert(all == refills(b, w));
        if v[0] == 1 {
            let i = choose|i: int| 0 <= i < one.len() && one[i] == x;
            assert(all[i] == x);
        } else if v[0] == 2 {
            let i = choose|i: int| 0 <= i < two.len() && two[i] == x;
            assert(all[one.len() + i] == x);
        } else {
            let i = choose|i: int| 0 <= i < three.len() && three[i] == x;
            assert(all[one.len() + two.len() + i] == x);
        }
    }
}

/// The board a move leads to, whatever numbers refill its cells, is among
/// the boards `next_states` lists for that move, and there are three to
/// the power of the number of refilled cells of them.
pub proof fn lemma_move_outcome_listed(b: Seq<u32>, action: Seq<usize>, draws: Seq<u32>)
    requires
        action.len() >= 1,
        draws.len() == action.len() - 1,
        forall|k: int| 0 <= k < draws.len() ==> 1 <= #[trigger] draws[k] <= 3,
    ensures
        refills(merged_board(b, action), action.drop_last()).contains(
            fill(merged_board(b, action), action.drop_last(), draws),
        ),
        refills(merged_board(b, action), action.drop_last()).len() == vstd::arithmetic::power::pow(
            3,
            (action.len() - 1) as nat,
        ),
{
    lemma_fill_is_refill(merged_board(b, action), action.drop_last(), draws);
    lemma_refills_count(merged_board(b, action), action.drop_last());
}

/// Every path of two or more cells that `State::actions` lists passes
/// `State::validate_action`.
pub proof fn lemma_listed_paths_validate(b: Seq<u32>, q: Seq<usize>)
    requires
        b.len() == 25,
        paths_from(board_table(b), 25).contains(q),
        q.len() >= 2,
    ensures
        validation(b, q) is Ok,
{
    crate::board::lemma_board_table_valid(b);
    lemma_paths_from(board_table(b), 25, q);
    lemma_path_is_move(b, q);
    lemma_validation_is_move(b, q);
}

/// The listing from start cells `0..k` has at least `k` entries, exactly
/// `k` when no start cell has a longer path.
proof fn lemma_paths_from_len(t: Seq<Seq<usize>>, k: int)
    requires
        valid_table(t),
        0 <= k <= 25,
    ensures
        paths_from(t, k).len() >= k,
        paths_from(t, k).len() == k <==> forall|i: int|
            0 <= i < k ==> #[trigger] extensions(t, seq![i as usize]).len() == 0,
    decreases k,
{
    if k > 0 {
        lemma_paths_from_len(t, k - 1);
        let ext = extensions(t, seq![(k - 1) as usize]);
        assert(paths_from(t, k).len() == paths_from(t, k - 1).len() + ext.len() + 1);
        if paths_from(t, k).len() == k {
            assert forall|i: int| 0 <= i < k implies #[trigger] extensions(t, seq![i as usize]).len()
                == 0 by {
                if i < k - 1 {
                }
            }
        }
    }
}

/// The game is over exactly when `State::actions` lists the 25 single
/// cells and nothing else, and exactly when no action passes
/// `State::validate_action`.
pub proof fn lemma_game_over_listing(b: Seq<u32>)
    requires
        b.len() == 25,
    ensures
        no_equal_pair(b) <==> paths_from(board_table(b), 25).len() == 25,
        no_equal_pair(b) <==> forall|a: Seq<usize>| #[trigger] validation(b, a) is Err,
{
    let t = board_table(b);
    crate::board::lemma_board_table_valid(b);
    lemma_paths_from_len(t, 25);
    if no_equal_pair(b) {
        lemma_no_pair_no_move(b);
        assert forall|i: int| 0 <= i < 25 implies #[trigger] extensions(t, seq![i as usize]).len()
            == 0 by {
            let ext = extensions(t, seq![i as usize]);
            if ext.len() > 0 {
                crate::paths::lemma_single_is_path(t, i as usize);
                let q = ext[0];
                assert(ext.contains(q));
                crate::paths::lemma_extensions_sound(t, seq![i as usize], q);
                lemma_path_is_move(b, q);
            }
        }
        assert forall|a: Seq<usize>| #[trigger] validation(b, a) is Err by {
            lemma_validation_is_move(b, a);
        }
    } else {
        let i = choose|i: int|
            !(0 <= i < 25 ==> !(i % 5 < 4 && #[trigger] b[i] == b[i + 1]) && !(i / 5 < 4 && b[i]
                == b[i + 5]));
        if i % 5 < 4 && b[i] == b[i + 1] {
            lemma_pair_is_move(b, i, i + 1);
        } else {
            lemma_pair_is_move(b, i, i + 5);
        }
        let p = choose|p: Seq<usize>| is_move(b, p);
        lemma_path_is_move(b, p);
        lemma_validation_is_move(b, p);
        let start = seq![p[0]];
        crate::paths::lemma_single_is_path(t, p[0]);
        assert(crate::paths::strictly_extends(p, start));
        crate::paths::lemma_extensions_complete(t, start, p);
        assert(extensions(t, seq![p[0] as int as usize]).len() > 0);
    }
}

} // verus!
