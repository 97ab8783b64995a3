//! The first form of the game state: moves of two or more cells, and a
//! validation that checks lengths, cells and numbers only.
use vstd::prelude::*;
use crate::action::Action;
use crate::board::{
    Board, board_table, contains_cell, is_move, lemma_board_table_valid, lemma_lists_are_table,
    lemma_path_is_move, neighbour_lists, table_view, views,
};
use crate::paths::{
    extensions, extensions_via, is_path, lemma_moves_from, lemma_room_left, lemma_single_is_path,
    lemma_step_is_path, moves_from, step_paths, valid_table,
};
use crate::state::{no_equal_pair, stuck};

verus! {

/// Why a move is refused.
#[derive(PartialEq, Eq, Structural, Debug, Clone, Copy)]
pub enum ActionValidation {
    TooShort,
    OutOfBoard,
    ValueConflict,
}

/// A game position: the numbers on the board and the score so far.
#[derive(Clone, Copy)]
pub struct State {
    pub board: Board,
    pub score: u32,
}

/// The complaint about cell `k` (from the second cell on) of a move, if
/// any: off the board, or a different number than the first cell.
pub open spec fn tile_complaint(b: Seq<u32>, a: Seq<usize>, k: int) -> Option<ActionValidation> {
    if a[k] >= 25 {
        Some(ActionValidation::OutOfBoard)
    } else if b[a[k] as int] != b[a[0] as int] {
        Some(ActionValidation::ValueConflict)
    } else {
        None
    }
}

/// The first complaint about cells `k..` of a move, or `Ok` when there is
/// none.
pub open spec fn first_complaint(b: Seq<u32>, a: Seq<usize>, k: int) -> Result<
    (),
    ActionValidation,
>
    decreases a.len() - k,
{
    if k >= a.len() {
        Ok(())
    } else {
        match tile_complaint(b, a, k) {
            Some(e) => Err(e),
            None => first_complaint(b, a, k + 1),
        }
    }
}

/// The verdict on a move: too short below two cells, off the board when the
/// first cell is, else the first complaint about a later cell.
pub open spec fn validation(b: Seq<u32>, a: Seq<usize>) -> Result<(), ActionValidation> {
    if a.len() < 2 {
        Err(ActionValidation::TooShort)
    } else if a[0] >= 25 {
        Err(ActionValidation::OutOfBoard)
    } else {
        first_complaint(b, a, 1)
    }
}

/// Something a move can be made on.
pub trait Gridentify {
    fn make_move(&mut self, action: Action);
}

impl State {
    /// Every move of two or more equal, adjacent cells: for each start cell
    /// in turn, in depth-first order, each longer path right after the
    /// paths that continue it.
    pub fn valid_moves(&self) -> (res: Vec<Action>)
        ensures
            views(res@) == moves_from(board_table(self.board@), 25),
            forall|q: Seq<usize>| #![trigger views(res@).contains(q)]
                views(res@).contains(q) <==> is_move(self.board@, q),
            views(res@).no_duplicates(),
    {
        let neighbours_of = self.get_neighbours();
        let ghost t = table_view(neighbours_of);
        proof {
            lemma_board_table_valid(self.board@);
        }
        let mut moves: Vec<Action> = Vec::new();
        let mut i: usize = 0;
        while i < 25
            invariant
                i <= 25,
                t == table_view(neighbours_of),
                t == board_table(self.board@),
                valid_table(t),
                views(moves@) == moves_from(t, i as int),
            decreases 25 - i,
        {
            let start = vec![i];
            assert(start@ =~= seq![i]);
            proof {
                lemma_single_is_path(t, i);
            }
            let ghost before = views(moves@);
            Self::find_extensions(&mut moves, &neighbours_of, &start);
            i = i + 1;
        }
        proof {
            assert forall|q: Seq<usize>| #![trigger views(moves@).contains(q)]
                views(moves@).contains(q) <==> is_move(self.board@, q) by {
                lemma_moves_from(t, 25, q);
                lemma_path_is_move(self.board@, q);
            }
            crate::board::lemma_board_table_distinct(self.board@);
            crate::paths::lemma_moves_from_distinct(t, 25);
        }
        moves
    }

    /// Appends every path below `action` in depth-first order, each longer
    /// path right after the paths that continue it.
    fn find_extensions(moves: &mut Vec<Action>, neighbours_of: &[Vec<usize>; 25], action: &Action)
        requires
            valid_table(table_view(*neighbours_of)),
            is_path(table_view(*neighbours_of), action@),
        ensures
            views(final(moves)@) == views(old(moves)@) + extensions(
                table_view(*neighbours_of),
                action@,
            ),
        decreases 25 - action@.len(),
    {
        let ghost t = table_view(*neighbours_of);
        let ghost start = views(moves@);
        let last = action[action.len() - 1];
        assert(action@[action@.len() - 1] < 25);
        let candidates = &neighbours_of[last];
        assert(candidates@ == t[last as int]);
        let mut j: usize = 0;
        while j < candidates.len()
            invariant
                t == table_view(*neighbours_of),
                valid_table(t),
                is_path(t, action@),
                last == action@.last(),
                candidates@ == t[last as int],
                j <= candidates@.len(),
                views(moves@) == start + extensions_via(t, action@, candidates@.take(j as int)),
            decreases candidates@.len() - j,
        {
            let neighbour = candidates[j];
            assert(candidates@.take(j + 1).drop_last() =~= candidates@.take(j as int));
            assert(t[last as int].contains(neighbour)) by {
                assert(t[last as int][j as int] == neighbour);
            }
            if !contains_cell(action.as_slice(), neighbour) {
                proof {
                    lemma_room_left(action@, neighbour);
                    lemma_step_is_path(t, action@, neighbour);
                }
                let mut branch = action.clone();
                assert(branch@ =~= action@);
                branch.push(neighbour);
                let ghost before = views(moves@);
                Self::find_extensions(moves, neighbours_of, &branch);
                let ghost mid = views(moves@);
                moves.push(branch);
                assert(views(moves@) =~= mid.push(branch@));
                assert(views(moves@) =~= before + step_paths(t, action@, neighbour));
            } else {
                assert(step_paths(t, action@, neighbour) =~= Seq::<Seq<usize>>::empty());
                assert(extensions_via(t, action@, candidates@.take(j + 1)) =~= extensions_via(
                    t,
                    action@,
                    candidates@.take(j as int),
                ));
            }
            j = j + 1;
        }
        assert(candidates@.take(j as int) =~= candidates@);
    }

    /// Checks a move: two or more cells, all on the board, all holding the
    /// first cell's number.
    pub fn validate_move(&self, action: &Action) -> (res: Result<(), ActionValidation>)
        ensures
            res == validation(self.board@, action@),
            res is Ok <==> (action@.len() >= 2 && forall|k: int|
                0 <= k < action@.len() ==> #[trigger] action@[k] < 25 && self.board@[action@[k] as int]
                    == self.board@[action@[0] as int]),
    {
        proof {
            lemma_validate_checks_every_cell(self.board@, action@);
        }
        if action.len() < 2 {
            return Err(ActionValidation::TooShort);
        }
        if action[0] >= 25 {
            return Err(ActionValidation::OutOfBoard);
        }
        let action_value = self.board[action[0]];
        let mut k: usize = 1;
        while k < action.len()
            invariant
                2 <= action@.len(),
                1 <= k <= action@.len(),
                action@[0] < 25,
                action_value == self.board@[action@[0] as int],
                first_complaint(self.board@, action@, 1) == first_complaint(
                    self.board@,
                    action@,
                    k as int,
                ),
            decreases action@.len() - k,
        {
            let tile = action[k];
            if tile >= 25 {
                return Err(ActionValidation::OutOfBoard);
            }
            if self.board[tile] != action_value {
                return Err(ActionValidation::ValueConflict);
            }
            k = k + 1;
        }
        Ok(())
    }

    /// The equal neighbours of each cell.
    pub fn get_neighbours(&self) -> (res: [Vec<usize>; 25])
        ensures
            table_view(res) == board_table(self.board@),
    {
        let res = neighbour_lists(&self.board);
        proof {
            lemma_lists_are_table(self.board, res);
        }
        res
    }

    /// Whether no move is left: no two cells side by side hold the same
    /// number.
    pub fn is_game_over(&self) -> (res: bool)
        ensures
            res == no_equal_pair(self.board@),
            res <==> !exists|p: Seq<usize>| is_move(self.board@, p),
    {
        stuck(&self.board)
    }
}

/// A move draws no complaint from cell `k` on.
proof fn lemma_move_no_complaint(b: Seq<u32>, a: Seq<usize>, k: int)
    requires
        is_move(b, a),
        1 <= k,
    ensures
        first_complaint(b, a, k) == Ok::<(), ActionValidation>(()),
    decreases a.len() - k,
{
    if k < a.len() {
        assert(a[k] < 25);
        assert(b[a[k] as int] == b[a[0] as int]);
        lemma_move_no_complaint(b, a, k + 1);
    }
}

/// A move passes `State::validate_move` exactly when it has two or more
/// cells, each on the board and holding the number of the first cell.
pub proof fn lemma_validate_checks_every_cell(b: Seq<u32>, a: Seq<usize>)
    ensures
        validation(b, a) is Ok <==> (a.len() >= 2 && forall|k: int|
            0 <= k < a.len() ==> #[trigger] a[k] < 25 && b[a[k] as int] == b[a[0] as int]),
{
    if a.len() >= 2 && a[0] < 25 {
        lemma_complaints_from(b, a, 1);
    }
}

/// From cell `k` on, a move draws no complaint exactly when each of those
/// cells is on the board and holds the first cell's number.
proof fn lemma_complaints_from(b: Seq<u32>, a: Seq<usize>, k: int)
    requires
        1 <= k <= a.len(),
        a[0] < 25,
    ensures
        first_complaint(b, a, k) is Ok <==> forall|j: int|
            k <= j < a.len() ==> #[trigger] a[j] < 25 && b[a[j] as int] == b[a[0] as int],
    decreases a.len() - k,
{
    if k < a.len() {
        lemma_complaints_from(b, a, k + 1);
        if first_complaint(b, a, k + 1) is Ok && tile_complaint(b, a, k) is None {
            assert forall|j: int| k <= j < a.len() implies #[trigger] a[j] < 25 && b[a[j] as int]
                == b[a[0] as int] by {
                if j > k {
                }
            }
        }
    }
}

/// Cell `j` of move `a` is on the board and holds the number of the first
/// cell.
pub open spec fn cell_fits(b: Seq<u32>, a: Seq<usize>, j: int) -> bool {
    a[j] < 25 && b[a[j] as int] == b[a[0] as int]
}

/// A refused move says why: too short exactly below two cells; otherwise
/// the first cell that fails does, every cell before it passing: off the
/// board gives `OutOfBoard`, a different number `ValueConflict`.
pub proof fn lemma_validate_names_first_failure(b: Seq<u32>, a: Seq<usize>)
    ensures
        validation(b, a) == Err::<(), ActionValidation>(ActionValidation::TooShort) <==> a.len() < 2,
        a.len() >= 2 && validation(b, a) is Err ==> exists|k: int|
            0 <= k < a.len() && (forall|j: int| 0 <= j < k ==> #[trigger] cell_fits(b, a, j)) && !cell_fits(
                b,
                a,
                k,
            ) && validation(b, a) == Err::<(), ActionValidation>(
                if a[k] >= 25 {
                    ActionValidation::OutOfBoard
                } else {
                    ActionValidation::ValueConflict
                },
            ),
{
    if a.len() >= 2 {
        if a[0] >= 25 {
            assert(!cell_fits(b, a, 0));
        } else {
            lemma_first_failure_from(b, a, 1);
            assert(cell_fits(b, a, 0));
            if validation(b, a) is Err {
                let k = choose|k: int|
                    1 <= k < a.len() && (forall|j: int| 1 <= j < k ==> #[trigger] cell_fits(b, a, j))
                        && !cell_fits(b, a, k) && first_complaint(b, a, 1) == Err::<(), ActionValidation>(
                        if a[k] >= 25 {
                            ActionValidation::OutOfBoard
                        } else {
                            ActionValidation::ValueConflict
                        },
                    );
                assert forall|j: int| 0 <= j < k implies #[trigger] cell_fits(b, a, j) by {
                    if j > 0 {
                        assert(cell_fits(b, a, j));
                    }
                }
            }
        }
    }
}

/// The first complaint from cell `k` on names the first of those cells that
/// fails.
proof fn lemma_first_failure_from(b: Seq<u32>, a: Seq<usize>, k: int)
    requires
        1 <= k <= a.len(),
        a[0] < 25,
    ensures
        first_complaint(b, a, k) is Err ==> exists|k2: int|
            k <= k2 < a.len() && (forall|j: int| k <= j < k2 ==> #[trigger] cell_fits(b, a, j))
                && !cell_fits(b, a, k2) && first_complaint(b, a, k) == Err::<(), ActionValidation>(
                if a[k2] >= 25 {
                    ActionValidation::OutOfBoard
                } else {
                    ActionValidation::ValueConflict
                },
            ),
    decreases a.len() - k,
{
    if k < a.len() {
        lemma_first_failure_from(b, a, k + 1);
        if tile_complaint(b, a, k) is Some {
            assert(!cell_fits(b, a, k));
            assert(forall|j: int| k <= j < k ==> #[trigger] cell_fits(b, a, j));
        }
        if tile_complaint(b, a, k) is None && first_complaint(b, a, k + 1) is Err {
            assert(cell_fits(b, a, k));
            let k2 = choose|k2: int|
                k + 1 <= k2 < a.len() && (forall|j: int| k + 1 <= j < k2 ==> #[trigger] cell_fits(b, a, j))
                    && !cell_fits(b, a, k2) && first_complaint(b, a, k + 1) == Err::<(), ActionValidation>(
                    if a[k2] >= 25 {
                        ActionValidation::OutOfBoard
                    } else {
                        ActionValidation::ValueConflict
                    },
                );
            assert forall|j: int| k <= j < k2 implies #[trigger] cell_fits(b, a, j) by {
                if j > k {
                    assert(cell_fits(b, a, j));
                }
            }
        }
    }
}

/// Every move that `State::valid_moves` lists passes `State::validate_move`.
pub proof fn lemma_listed_moves_validate(b: Seq<u32>, q: Seq<usize>)
    requires
        b.len() == 25,
        moves_from(board_table(b), 25).contains(q),
    ensures
        validation(b, q) is Ok,
{
    lemma_board_table_valid(b);
    lemma_moves_from(board_table(b), 25, q);
    lemma_path_is_move(b, q);
    lemma_move_no_complaint(b, q, 1);
}

/// The game is over exactly when `State::valid_moves` lists nothing.
pub proof fn lemma_no_moves_when_over(b: Seq<u32>)
    requires
        b.len() == 25,
    ensures
        no_equal_pair(b) <==> moves_from(board_table(b), 25).len() == 0,
{
    let t = board_table(b);
    lemma_board_table_valid(b);
    crate::state::lemma_game_over_listing(b);
    if no_equal_pair(b) {
        if moves_from(t, 25).len() > 0 {
            let q = moves_from(t, 25)[0];
            assert(moves_from(t, 25).contains(q));
            lemma_moves_from(t, 25, q);
            lemma_path_is_move(b, q);
            crate::state::lemma_validation_is_move(b, q);
            assert(crate::state::validation(b, q) is Err);
        }
    } else {
        let a = choose|a: Seq<usize>| !(#[trigger] crate::state::validation(b, a) is Err);
        crate::state::lemma_validation_is_move(b, a);
        lemma_path_is_move(b, a);
        lemma_moves_from(t, 25, a);
        assert(moves_from(t, 25).contains(a));
    }
}

} // verus!
