//! Geometry of the 5x5 board: cells, their neighbours and paths through them.
use vstd::prelude::*;
use crate::paths::{is_path, lists_distinct, valid_table};

verus! {

/// Number of cells on the board.
pub const CELLS: usize = 25;

/// Width (and height) of the board.
pub const WIDTH: usize = 5;

/// `seq![v]` when `c` holds, the empty sequence otherwise.
pub open spec fn when(c: bool, v: usize) -> Seq<usize> {
    if c {
        seq![v]
    } else {
        Seq::empty()
    }
}

/// The grid neighbours of cell `i`, in the order right, down, left, up.
pub open spec fn spec_neighbours(i: int) -> Seq<usize> {
    when(i % 5 < 4, (i + 1) as usize) + when(i / 5 < 4, (i + 5) as usize) + when(
        i % 5 > 0,
        (i - 1) as usize,
    ) + when(i / 5 > 0, (i - 5) as usize)
}

/// Lists the grid neighbours of `index`: right, down, left, up, as far as
/// they exist on a 5x5 board.
pub fn neighbours(index: usize) -> (res: Vec<usize>)
    requires
        index < usize::MAX,
    ensures
        res@ == spec_neighbours(index as int),
{
    let mut neighbours: Vec<usize> = Vec::new();
    let x: usize = index % 5;
    let y: usize = index / 5;
    if x < 4 {
        neighbours.push(index + 1);
    }
    if y < 4 {
        neighbours.push(index + 5);
    }
    if x > 0 {
        neighbours.push(index - 1);
    }
    if y > 0 {
        neighbours.push(index - 5);
    }
    assert(neighbours@ =~= spec_neighbours(index as int));
    neighbours
}

/// The numbers on the 25 cells, row by row.
pub type Board = [u32; 25];

/// The neighbours of cell `i` that hold the same number, in the order
/// right, down, left, up.
pub open spec fn same_neighbours(b: Seq<u32>, i: int) -> Seq<usize> {
    when(i % 5 < 4 && b[i + 1] == b[i], (i + 1) as usize) + when(
        i / 5 < 4 && b[i + 5] == b[i],
        (i + 5) as usize,
    ) + when(i % 5 > 0 && b[i - 1] == b[i], (i - 1) as usize) + when(
        i / 5 > 0 && b[i - 5] == b[i],
        (i - 5) as usize,
    )
}

/// The neighbour table of a board: for each cell, its equal neighbours.
pub open spec fn board_table(b: Seq<u32>) -> Seq<Seq<usize>> {
    Seq::new(25, |i: int| same_neighbours(b, i))
}

/// Column and row distance between two cells, added.
pub open spec fn distance(i: int, j: int) -> int {
    let dx = if i % 5 > j % 5 {
        i % 5 - j % 5
    } else {
        j % 5 - i % 5
    };
    let dy = if i / 5 > j / 5 {
        i / 5 - j / 5
    } else {
        j / 5 - i / 5
    };
    dx + dy
}

/// Two cells of the board that share a side.
pub open spec fn adjacent(i: int, j: int) -> bool {
    0 <= i < 25 && 0 <= j < 25 && distance(i, j) == 1
}

/// A move on board `b`: two or more cells, none twice, each next to the one
/// before it, all holding the same number.
pub open spec fn is_move(b: Seq<u32>, p: Seq<usize>) -> bool {
    &&& p.len() >= 2
    &&& p.no_duplicates()
    &&& forall|k: int| 0 <= k < p.len() ==> #[trigger] p[k] < 25
    &&& forall|k: int| 0 <= k < p.len() - 1 ==> adjacent(#[trigger] p[k] as int, p[k + 1] as int)
    &&& forall|k: int| 0 <= k < p.len() ==> b[#[trigger] p[k] as int] == b[p[0] as int]
}

/// The grid neighbours of a cell are the cells next to it.
pub proof fn lemma_neighbours_adjacent(i: int, j: usize)
    requires
        0 <= i < 25,
    ensures
        spec_neighbours(i).contains(j) <==> adjacent(i, j as int),
{
    let s = spec_neighbours(i);
    if s.contains(j) {
        let k = choose|k: int| 0 <= k < s.len() && s[k] == j;
        assert(adjacent(i, j as int));
    }
    if adjacent(i, j as int) {
        if j as int == i + 1 {
            assert(s[0] == j);
        } else if j as int == i + 5 {
            let k = if i % 5 < 4 { 1int } else { 0int };
            assert(s[k] == j);
        } else if j as int == i - 1 {
            let k = (if i % 5 < 4 { 1int } else { 0int }) + (if i / 5 < 4 { 1int } else { 0int });
            assert(s[k] == j);
        } else {
            assert(j as int == i - 5);
            let k = (if i % 5 < 4 { 1int } else { 0int }) + (if i / 5 < 4 { 1int } else { 0int })
                + (if i % 5 > 0 { 1int } else { 0int });
            assert(s[k] == j);
        }
    }
}

/// The equal neighbours of a cell are the adjacent cells holding the same
/// number.
pub proof fn lemma_same_neighbours(b: Seq<u32>, i: int, j: usize)
    requires
        b.len() == 25,
        0 <= i < 25,
    ensures
        same_neighbours(b, i).contains(j) <==> (adjacent(i, j as int) && b[j as int] == b[i]),
{
    let s = same_neighbours(b, i);
    let c0 = i % 5 < 4 && b[i + 1] == b[i];
    let c1 = i / 5 < 4 && b[i + 5] == b[i];
    let c2 = i % 5 > 0 && b[i - 1] == b[i];
    if s.contains(j) {
        let k = choose|k: int| 0 <= k < s.len() && s[k] == j;
        assert(adjacent(i, j as int) && b[j as int] == b[i]);
    }
    if adjacent(i, j as int) && b[j as int] == b[i] {
        if j as int == i + 1 {
            assert(s[0] == j);
        } else if j as int == i + 5 {
            let k = if c0 { 1int } else { 0int };
            assert(s[k] == j);
        } else if j as int == i - 1 {
            let k = (if c0 { 1int } else { 0int }) + (if c1 { 1int } else { 0int });
            assert(s[k] == j);
        } else {
            assert(j as int == i - 5);
            let k = (if c0 { 1int } else { 0int }) + (if c1 { 1int } else { 0int }) + (if c2 {
                1int
            } else {
                0int
            });
            assert(s[k] == j);
        }
    }
}

/// No cell is listed twice among the equal neighbours of a cell.
pub proof fn lemma_board_table_distinct(b: Seq<u32>)
    requires
        b.len() == 25,
    ensures
        lists_distinct(board_table(b)),
{
    let t = board_table(b);
    assert forall|i: int| 0 <= i < 25 implies #[trigger] t[i].no_duplicates() by {
        let w0 = when(i % 5 < 4 && b[i + 1] == b[i], (i + 1) as usize);
        let w1 = when(i / 5 < 4 && b[i + 5] == b[i], (i + 5) as usize);
        let w2 = when(i % 5 > 0 && b[i - 1] == b[i], (i - 1) as usize);
        let w3 = when(i / 5 > 0 && b[i - 5] == b[i], (i - 5) as usize);
        vstd::seq_lib::lemma_no_dup_in_concat(w0, w1);
        vstd::seq_lib::lemma_no_dup_in_concat(w0 + w1, w2);
        vstd::seq_lib::lemma_no_dup_in_concat(w0 + w1 + w2, w3);
    }
}

/// The neighbour table of a board only names cells of the board.
pub proof fn lemma_board_table_valid(b: Seq<u32>)
    requires
        b.len() == 25,
    ensures
        valid_table(board_table(b)),
{
    let t = board_table(b);
    assert forall|i: int, k: int| 0 <= i < 25 && 0 <= k < t[i].len() implies #[trigger] t[i][k]
        < 25 by {
        lemma_same_neighbours(b, i, t[i][k]);
        assert(t[i].contains(t[i][k]));
    }
}

/// The paths of two or more cells of a board's neighbour table are its
/// moves.
pub proof fn lemma_path_is_move(b: Seq<u32>, p: Seq<usize>)
    requires
        b.len() == 25,
    ensures
        (is_path(board_table(b), p) && p.len() >= 2) <==> is_move(b, p),
{
    let t = board_table(b);
    if is_path(t, p) && p.len() >= 2 {
        assert forall|k: int| 0 <= k < p.len() - 1 implies adjacent(
            #[trigger] p[k] as int,
            p[k + 1] as int,
        ) && b[p[k + 1] as int] == b[p[k] as int] by {
            assert(p[k] < 25);
            assert(t[p[k] as int].contains(p[k + 1]));
            lemma_same_neighbours(b, p[k] as int, p[k + 1]);
        }
        assert forall|k: int| 0 <= k < p.len() implies b[#[trigger] p[k] as int] == b[p[0] as int] by {
            lemma_equal_chain(b, p, k);
        }
    }
    if is_move(b, p) {
        assert forall|k: int| 0 <= k < p.len() - 1 implies #[trigger] t[p[k] as int].contains(
            p[k + 1],
        ) by {
            assert(adjacent(p[k] as int, p[k + 1] as int));
            assert(b[p[k] as int] == b[p[0] as int]);
            assert(b[p[k + 1] as int] == b[p[0] as int]);
            lemma_same_neighbours(b, p[k] as int, p[k + 1]);
        }
    }
}

/// Along a chain of equal steps, every cell holds the first cell's number.
proof fn lemma_equal_chain(b: Seq<u32>, p: Seq<usize>, k: int)
    requires
        0 <= k < p.len(),
        forall|j: int|
            0 <= j < p.len() - 1 ==> b[p[j + 1] as int] == b[#[trigger] p[j] as int],
    ensures
        b[p[k] as int] == b[p[0] as int],
    decreases k,
{
    if k > 0 {
        lemma_equal_chain(b, p, k - 1);
        let j = k - 1;
        assert(b[p[j + 1] as int] == b[p[j] as int]);
    }
}

/// The views of a list of cell lists.
pub open spec fn views(s: Seq<Vec<usize>>) -> Seq<Seq<usize>> {
    s.map_values(|v: Vec<usize>| v@)
}

/// The view of a table of 25 cell lists.
pub open spec fn table_view(t: [Vec<usize>; 25]) -> Seq<Seq<usize>> {
    Seq::new(25, |i: int| t@[i]@)
}

/// Whether `cells` holds `n`.
pub fn contains_cell(cells: &[usize], n: usize) -> (res: bool)
    ensures
        res == cells@.contains(n),
{
    let res = contains_before(cells, cells.len(), n);
    assert(cells@.take(cells@.len() as int) =~= cells@);
    res
}

/// Whether the first `upto` entries of `cells` hold `n`.
pub fn contains_before(cells: &[usize], upto: usize, n: usize) -> (res: bool)
    requires
        upto <= cells@.len(),
    ensures
        res == cells@.take(upto as int).contains(n),
{
    let mut k: usize = 0;
    while k < upto
        invariant
            upto <= cells@.len(),
            k <= upto,
            forall|j: int| 0 <= j < k ==> cells@[j] != n,
        decreases upto - k,
    {
        if cells[k] == n {
            assert(cells@.take(upto as int)[k as int] == n);
            return true;
        }
        k = k + 1;
    }
    false
}

/// The neighbours of cell `i` that hold the same number as it, in the order
/// right, down, left, up.
pub fn equal_neighbours(board: &Board, i: usize) -> (res: Vec<usize>)
    requires
        i < 25,
    ensures
        res@ == same_neighbours(board@, i as int),
{
    let value = board[i];
    let mut res: Vec<usize> = Vec::new();
    let x: usize = i % 5;
    let y: usize = i / 5;
    if x < 4 && board[i + 1] == value {
        res.push(i + 1);
    }
    if y < 4 && board[i + 5] == value {
        res.push(i + 5);
    }
    if x > 0 && board[i - 1] == value {
        res.push(i - 1);
    }
    if y > 0 && board[i - 5] == value {
        res.push(i - 5);
    }
    assert(res@ =~= same_neighbours(board@, i as int));
    res
}

/// Builds the 25 lists of equal neighbours of a board with
/// `array_init::array_init`, which calls its closure once for each index,
/// in order, and places each result at its index. Claimed: list `i` of the
/// result is `equal_neighbours(board, i)`, as that function's contract
/// states it.
#[verifier::external_body]
pub(crate) fn neighbour_lists(board: &Board) -> (res: [Vec<usize>; 25])
    ensures
        forall|i: int| 0 <= i < 25 ==> (#[trigger] res@[i])@ == same_neighbours(board@, i),
{
    array_init::array_init(|i| equal_neighbours(board, i))
}

/// The table built by `neighbour_lists` is the board's neighbour table.
pub proof fn lemma_lists_are_table(board: Board, t: [Vec<usize>; 25])
    requires
        forall|i: int| 0 <= i < 25 ==> (#[trigger] t@[i])@ == same_neighbours(board@, i),
    ensures
        table_view(t) == board_table(board@),
        valid_table(table_view(t)),
{
    assert(table_view(t) =~= board_table(board@));
    lemma_board_table_valid(board@);
}

} // verus!
