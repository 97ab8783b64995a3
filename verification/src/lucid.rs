//! A look-ahead player that reasons about groups of up to four connected
//! cells rather than about whole boards.
//!
//! A group of cells is a mask (see `cells`). The action data maps every
//! group that a path of one to four cells covers to the cells such a path
//! can end on.
use vstd::prelude::*;
use std::collections::HashMap;
use vstd::std_specs::iter::IteratorSpec;
use crate::board::{board_table, contains_cell, is_move, lemma_path_is_move, neighbours, spec_neighbours, views};
use crate::cells::{
    cell_count, cells_of, comes_before, group_before, has_cell, lemma_add_cell, lemma_path_mask,
    mask_of, path_mask,
};
use crate::state::State;
use crate::memo::{Listing, Memo};
use crate::valuation::{
    action_valued, children_valued, groups_valued, joins_into, lemma_child_step, max_of,
    step_values, valued, ChildStep, Table,
};
use crate::paths::{is_path, lemma_paths_from, paths_from, valid_table};
use crate::marks::refill_marked;
use crate::weigh::{by_value, sort_by_score, weigh, weighed};

verus! {

broadcast use vstd::std_specs::hash::group_hash_axioms;

/// For each group of cells that a path of one to four cells covers, the
/// cells such a path can end on.
pub type ActionData = HashMap<u32, u32>;

/// Building the action data.
pub trait CreateActions: Sized {
    fn create() -> Self;
}

/// The neighbour table of the bare grid: every grid neighbour.
pub open spec fn grid_table() -> Seq<Seq<usize>> {
    Seq::new(25, |i: int| spec_neighbours(i))
}

/// A path of one to four cells over the bare grid.
pub open spec fn short_path(p: Seq<usize>) -> bool {
    is_path(grid_table(), p) && p.len() <= 4
}

/// All paths of one to four cells over the bare grid.
pub open spec fn short_paths() -> Set<Seq<usize>> {
    Set::new(|p: Seq<usize>| short_path(p))
}

/// `q` starts with `a`.
pub open spec fn prefix_of(a: Seq<usize>, q: Seq<usize>) -> bool {
    &&& a.len() <= q.len()
    &&& forall|k: int| 0 <= k < a.len() ==> #[trigger] q[k] == a[k]
}

/// The short paths that start with `a`.
pub open spec fn subtree(a: Seq<usize>) -> Set<Seq<usize>> {
    Set::new(|q: Seq<usize>| short_path(q) && prefix_of(a, q))
}

/// The short paths that start with `a` followed by one of the cells `nbs`
/// that is not on `a`.
pub open spec fn below(a: Seq<usize>, nbs: Seq<usize>) -> Set<Seq<usize>> {
    Set::new(
        |q: Seq<usize>|
            exists|k: int|
                0 <= k < nbs.len() && !a.contains(nbs[k]) && #[trigger] subtree(
                    a.push(nbs[k]),
                ).contains(q),
    )
}

/// Map `d` records the paths `ps`: its keys are their masks, and the value
/// of a key holds the last cells of the paths with that mask.
pub open spec fn records(d: Map<u32, u32>, ps: Set<Seq<usize>>) -> bool {
    &&& forall|m: u32|
        #[trigger] d.contains_key(m) <==> exists|p: Seq<usize>| #[trigger]
            ps.contains(p) && path_mask(p) == m
    &&& forall|m: u32, c: u32|
        d.contains_key(m) ==> (#[trigger] has_cell(d[m], c) <==> exists|p: Seq<usize>| #[trigger]
            ps.contains(p) && path_mask(p) == m && p.last() == c as usize)
}

/// The keys of the action data are exactly the groups that paths of one to
/// four cells cover.
pub open spec fn paths_keyed(d: Map<u32, u32>) -> bool {
    forall|m: u32|
        #[trigger] d.contains_key(m) <==> exists|p: Seq<usize>| #[trigger]
            short_paths().contains(p) && path_mask(p) == m
}

/// Every group of a position is a key of the action data.
pub open spec fn keys_in_data(groups: Map<u32, GroupValue>, d: Map<u32, u32>) -> bool {
    forall|k: u32| #[trigger] groups.contains_key(k) ==> d.contains_key(k)
}

/// Every end the action data gives for a group is the last cell of a path
/// of one to four cells that covers exactly that group.
pub open spec fn ends_reachable(d: Map<u32, u32>) -> bool {
    forall|m: u32, c: u32|
        d.contains_key(m) && #[trigger] has_cell(d[m], c) ==> exists|p: Seq<usize>| #[trigger]
            short_paths().contains(p) && path_mask(p) == m && p.last() == c as usize
}

/// Every path of two to four cells covers a key of the action data that
/// gives at least one end.
pub open spec fn joins_listed(d: Map<u32, u32>) -> bool {
    forall|p: Seq<usize>| #[trigger]
        short_paths().contains(p) && p.len() >= 2 ==> d.contains_key(path_mask(p)) && d[path_mask(p)]
            != 0
}

/// Action data that records the short paths lists every join, and the
/// ends it gives are reachable.
pub proof fn lemma_records_usable(d: Map<u32, u32>)
    requires
        records(d, short_paths()),
    ensures
        paths_keyed(d),
        ends_reachable(d),
        joins_listed(d),
{
    assert forall|p: Seq<usize>| #[trigger]
        short_paths().contains(p) && p.len() >= 2 implies d.contains_key(path_mask(p))
        && d[path_mask(p)] != 0 by {
        let m = path_mask(p);
        assert(d.contains_key(m));
        assert(has_cell(d[m], p.last() as u32));
        crate::cells::lemma_empty(p.last() as u32);
    }
}

/// The bare grid's table names cells of the board only.
pub proof fn lemma_grid_table_valid()
    ensures
        valid_table(grid_table()),
{
    let t = grid_table();
    assert forall|i: int, k: int| 0 <= i < 25 && 0 <= k < t[i].len() implies #[trigger] t[i][k]
        < 25 by {
        let x = t[i][k];
        assert(spec_neighbours(i).contains(x));
        crate::board::lemma_neighbours_adjacent(i, x);
    }
}

/// The short paths below a path split into the path itself and those below
/// its next cells.
proof fn lemma_subtree_split(a: Seq<usize>)
    requires
        short_path(a),
    ensures
        a.len() == 4 ==> subtree(a) == set![a],
        a.len() < 4 ==> subtree(a) == below(a, spec_neighbours(a.last() as int)).insert(a),
{
    let nbs = spec_neighbours(a.last() as int);
    let t = grid_table();
    assert forall|q: Seq<usize>| subtree(a).contains(q) implies q == a || (a.len() < 4 && below(
        a,
        nbs,
    ).contains(q)) by {
        if q.len() == a.len() {
            assert(q =~= a);
        } else {
            let n = q[a.len() as int];
            let j = a.len() - 1;
            assert(q[j] == a[j]);
            assert(t[q[j] as int].contains(q[j + 1]));
            let k = choose|k: int| 0 <= k < nbs.len() && nbs[k] == n;
            assert(!a.contains(n)) by {
                if a.contains(n) {
                    let m = choose|m: int| 0 <= m < a.len() && a[m] == n;
                    assert(q[m] == a[m]);
                }
            }
            assert(prefix_of(a.push(n), q));
            assert(subtree(a.push(nbs[k])).contains(q));
        }
    }
    assert forall|q: Seq<usize>| below(a, nbs).contains(q) implies subtree(a).contains(q) by {
        let k = choose|k: int|
            0 <= k < nbs.len() && !a.contains(nbs[k]) && #[trigger] subtree(a.push(nbs[k])).contains(
                q,
            );
        assert forall|m: int| 0 <= m < a.len() implies #[trigger] q[m] == a[m] by {
            assert(q[m] == a.push(nbs[k])[m]);
        }
    }
    assert(subtree(a).contains(a));
    if a.len() == 4 {
        assert(subtree(a) =~= set![a]);
    } else {
        assert(subtree(a) =~= below(a, nbs).insert(a));
    }
}

/// Recording one more path.
proof fn lemma_record(d: Map<u32, u32>, ps: Set<Seq<usize>>, a: Seq<usize>)
    requires
        records(d, ps),
        a.len() >= 1,
        a.last() < 25,
    ensures
        records(
            d.insert(
                path_mask(a),
                (if d.contains_key(path_mask(a)) {
                    d[path_mask(a)]
                } else {
                    0u32
                }) | (1u32 << (a.last() as u32)),
            ),
            ps.insert(a),
        ),
{
    let key = path_mask(a);
    let prev_ends = if d.contains_key(key) {
        d[key]
    } else {
        0u32
    };
    let d2 = d.insert(key, prev_ends | (1u32 << (a.last() as u32)));
    let ps2 = ps.insert(a);
    assert forall|m: u32| #[trigger] d2.contains_key(m) <==> exists|p: Seq<usize>| #[trigger]
        ps2.contains(p) && path_mask(p) == m by {
        if d.contains_key(m) {
            let p = choose|p: Seq<usize>| #[trigger] ps.contains(p) && path_mask(p) == m;
            assert(ps2.contains(p));
        }
        if m == key {
            assert(ps2.contains(a));
        }
    }
    assert forall|m: u32, c: u32| d2.contains_key(m) implies (#[trigger] has_cell(d2[m], c)
        <==> exists|p: Seq<usize>| #[trigger]
        ps2.contains(p) && path_mask(p) == m && p.last() == c as usize) by {
        if m == key {
            lemma_add_cell(prev_ends, a.last() as u32, c);
            if d.contains_key(m) {
                if has_cell(d[m], c) {
                    let p = choose|p: Seq<usize>| #[trigger]
                        ps.contains(p) && path_mask(p) == m && p.last() == c as usize;
                    assert(ps2.contains(p));
                }
            } else {
                crate::cells::lemma_empty(c);
            }
            if c as usize == a.last() {
                assert(ps2.contains(a));
            }
            if exists|p: Seq<usize>| #[trigger]
                ps2.contains(p) && path_mask(p) == m && p.last() == c as usize {
                let p = choose|p: Seq<usize>| #[trigger]
                    ps2.contains(p) && path_mask(p) == m && p.last() == c as usize;
                if p != a {
                    assert(ps.contains(p));
                }
            }
        } else {
            if exists|p: Seq<usize>| #[trigger]
                ps2.contains(p) && path_mask(p) == m && p.last() == c as usize {
                let p = choose|p: Seq<usize>| #[trigger]
                    ps2.contains(p) && path_mask(p) == m && p.last() == c as usize;
                assert(ps.contains(p));
            }
            if has_cell(d[m], c) {
                let p = choose|p: Seq<usize>| #[trigger]
                    ps.contains(p) && path_mask(p) == m && p.last() == c as usize;
                assert(ps2.contains(p));
            }
        }
    }
}

/// Records every short path below `action`, `action` included.
fn find_ends(data: &mut ActionData, action: Vec<usize>, Ghost(done): Ghost<Set<Seq<usize>>>)
    requires
        short_path(action@),
        records(old(data)@, done),
    ensures
        records(final(data)@, done.union(subtree(action@))),
    decreases 4 - action@.len(),
{
    let ghost a = action@;
    let last = action[action.len() - 1];
    assert(a[a.len() - 1] < 25);
    let local = neighbours(last);
    let ghost nbs = local@;
    proof {
        lemma_grid_table_valid();
        lemma_subtree_split(a);
    }
    if action.len() < 4 {
        let mut j: usize = 0;
        assert(below(a, nbs.take(0)) =~= Set::<Seq<usize>>::empty());
        assert(done.union(below(a, nbs.take(0))) =~= done);
        while j < local.len()
            invariant
                a == action@,
                short_path(a),
                a.len() < 4,
                last == a.last(),
                nbs == local@,
                nbs == spec_neighbours(last as int),
                j <= nbs.len(),
                records(data@, done.union(below(a, nbs.take(j as int)))),
            decreases nbs.len() - j,
        {
            let neighbour = local[j];
            let ghost current = done.union(below(a, nbs.take(j as int)));
            if !contains_cell(action.as_slice(), neighbour) {
                proof {
                    lemma_grid_table_valid();
                    assert(grid_table()[last as int] == nbs);
                    assert(grid_table()[last as int].contains(neighbour)) by {
                        assert(nbs[j as int] == neighbour);
                    }
                    crate::paths::lemma_step_is_path(grid_table(), a, neighbour);
                }
                let mut branch = action.clone();
                assert(branch@ =~= a);
                branch.push(neighbour);
                find_ends(data, branch, Ghost(current));
                assert(current.union(subtree(a.push(neighbour))) =~= done.union(
                    below(a, nbs.take(j + 1)),
                )) by {
                    assert forall|q: Seq<usize>| #[trigger]
                        below(a, nbs.take(j + 1)).contains(q) implies below(
                        a,
                        nbs.take(j as int),
                    ).contains(q) || subtree(a.push(neighbour)).contains(q) by {
                        let k = choose|k: int|
                            0 <= k < nbs.take(j + 1).len() && !a.contains(nbs.take(j + 1)[k])
                                && #[trigger] subtree(a.push(nbs.take(j + 1)[k])).contains(q);
                        if k < j {
                            assert(nbs.take(j as int)[k] == nbs.take(j + 1)[k]);
                        }
                    }
                    assert forall|q: Seq<usize>| #[trigger]
                        below(a, nbs.take(j as int)).contains(q) implies below(
                        a,
                        nbs.take(j + 1),
                    ).contains(q) by {
                        let k = choose|k: int|
                            0 <= k < nbs.take(j as int).len() && !a.contains(
                                nbs.take(j as int)[k],
                            ) && #[trigger] subtree(a.push(nbs.take(j as int)[k])).contains(q);
                        assert(nbs.take(j as int)[k] == nbs.take(j + 1)[k]);
                    }
                    assert forall|q: Seq<usize>| #[trigger]
                        subtree(a.push(neighbour)).contains(q) implies below(
                        a,
                        nbs.take(j + 1),
                    ).contains(q) by {
                        assert(nbs.take(j + 1)[j as int] == neighbour);
                    }
                }
            } else {
                assert(below(a, nbs.take(j as int)) =~= below(a, nbs.take(j + 1))) by {
                    assert forall|q: Seq<usize>| #[trigger]
                        below(a, nbs.take(j + 1)).contains(q) implies below(
                        a,
                        nbs.take(j as int),
                    ).contains(q) by {
                        let k = choose|k: int|
                            0 <= k < nbs.take(j + 1).len() && !a.contains(nbs.take(j + 1)[k])
                                && #[trigger] subtree(a.push(nbs.take(j + 1)[k])).contains(q);
                        assert(k != j);
                        assert(nbs.take(j as int)[k] == nbs.take(j + 1)[k]);
                    }
                    assert forall|q: Seq<usize>| #[trigger]
                        below(a, nbs.take(j as int)).contains(q) implies below(
                        a,
                        nbs.take(j + 1),
                    ).contains(q) by {
                        let k = choose|k: int|
                            0 <= k < nbs.take(j as int).len() && !a.contains(
                                nbs.take(j as int)[k],
                            ) && #[trigger] subtree(a.push(nbs.take(j as int)[k])).contains(q);
                        assert(nbs.take(j as int)[k] == nbs.take(j + 1)[k]);
                    }
                }
            }
            j = j + 1;
        }
        assert(nbs.take(j as int) =~= nbs);
    } else {
        assert(below(a, Seq::<usize>::empty()) =~= Set::<Seq<usize>>::empty());
        assert(nbs.take(0) =~= Seq::<usize>::empty());
    }
    let ghost reached = if a.len() < 4 {
        done.union(below(a, nbs))
    } else {
        done
    };
    assert(records(data@, reached)) by {
        if a.len() >= 4 {
            assert(done.union(below(a, nbs.take(0))) =~= done);
        }
    }
    let key = crate::cells::mask_of(action.as_slice());
    let ghost before = data@;
    let old_ends: u32 = match data.get(&key) {
        Some(ends) => *ends,
        None => 0,
    };
    assert(old_ends == (if before.contains_key(key) {
        before[key]
    } else {
        0u32
    }));
    data.insert(key, old_ends | (1u32 << (last as u32)));
    proof {
        lemma_record(before, reached, a);
    }
    assert(reached.insert(a) =~= done.union(subtree(a)));
}

/// The short paths that start on a cell below `i`.
pub open spec fn started_below(i: int) -> Set<Seq<usize>> {
    Set::new(|q: Seq<usize>| short_path(q) && q[0] < i)
}

impl CreateActions for ActionData {
    /// Walks every path of one to four grid cells from every cell and
    /// records, for the group each covers, the cell it ends on.
    fn create() -> (res: Self)
        ensures
            records(res@, short_paths()),
    {
        let mut data: ActionData = HashMap::new();
        assert(records(data@, started_below(0))) by {
            assert(started_below(0) =~= Set::<Seq<usize>>::empty());
        }
        let mut i: usize = 0;
        while i < 25
            invariant
                i <= 25,
                records(data@, started_below(i as int)),
            decreases 25 - i,
        {
            let start = vec![i];
            assert(start@ =~= seq![i]);
            proof {
                crate::paths::lemma_single_is_path(grid_table(), i);
            }
            find_ends(&mut data, start, Ghost(started_below(i as int)));
            assert(started_below(i as int).union(subtree(seq![i])) =~= started_below(i + 1)) by {
                assert forall|q: Seq<usize>| #[trigger]
                    started_below(i + 1).contains(q) implies started_below(i as int).union(
                    subtree(seq![i]),
                ).contains(q) by {
                    if q[0] == i {
                        assert(prefix_of(seq![i], q));
                    }
                }
            }
            i = i + 1;
        }
        assert(started_below(25) =~= short_paths());
        data
    }
}

/// What is known of a group of cells: `Some((v, w))` when all its cells can
/// hold `v`, `w` telling whether one of them is a refilled cell whose number
/// is not known yet; `None` for a refilled cell on its own.
pub type GroupValue = Option<(u32, bool)>;

/// A position as the look-ahead player sees it: the groups of cells that
/// could still be joined, the score, the action data and how many moves deep
/// the position lies.
pub struct LucidState<'a> {
    pub actions: HashMap<u32, Option<(u32, bool)>>,
    pub score: u32,
    pub data: &'a ActionData,
    pub depth: u32,
}

/// The groups of a board: for each path of one to four equal, adjacent
/// cells, its mask maps to the number on its cells, with no refilled cell.
pub open spec fn board_groups(b: Seq<u32>, m: Map<u32, GroupValue>) -> bool {
    &&& forall|k: u32|
        #[trigger] m.contains_key(k) <==> exists|p: Seq<usize>|
            is_path(board_table(b), p) && p.len() <= 4 && #[trigger] path_mask(p) == k
    &&& forall|p: Seq<usize>|
        is_path(board_table(b), p) && p.len() <= 4 ==> m[#[trigger] path_mask(p)] == Some(
            (b[p[0] as int], false),
        )
}

/// The groups of a look-ahead position fit the action data: every group of
/// two or more cells is a key of the data and has a known number, and a
/// refilled cell on its own is a cell.
pub open spec fn groups_fit(groups: Map<u32, GroupValue>, data: Map<u32, u32>) -> bool {
    forall|k: u32|
        #[trigger] groups.contains_key(k) ==> (cell_count(k) > 1 ==> data.contains_key(k)
            && groups[k] is Some) && (groups[k] is None ==> k != 0)
}

/// A board path holds the number of its first cell on every cell.
pub(crate) proof fn lemma_board_path_equal(b: Seq<u32>, p: Seq<usize>, c: usize)
    requires
        b.len() == 25,
        is_path(board_table(b), p),
        p.contains(c),
    ensures
        b[c as int] == b[p[0] as int],
{
    let k = choose|k: int| 0 <= k < p.len() && p[k] == c;
    if p.len() >= 2 {
        lemma_path_is_move(b, p);
        assert(b[p[k] as int] == b[p[0] as int]);
    }
}

/// Two board paths with the same mask start on equal numbers.
proof fn lemma_same_group_same_number(b: Seq<u32>, p: Seq<usize>, q: Seq<usize>)
    requires
        b.len() == 25,
        is_path(board_table(b), p),
        is_path(board_table(b), q),
        path_mask(p) == path_mask(q),
    ensures
        b[p[0] as int] == b[q[0] as int],
{
    assert(q[0] < 25);
    lemma_path_mask(q, q[0] as u32);
    lemma_path_mask(p, q[0] as u32);
    assert(q.contains(q[0]));
    lemma_board_path_equal(b, p, q[0]);
}

/// A path of a board's table is a path of the bare grid.
proof fn lemma_board_path_is_grid_path(b: Seq<u32>, p: Seq<usize>)
    requires
        b.len() == 25,
        is_path(board_table(b), p),
    ensures
        is_path(grid_table(), p),
{
    assert forall|k: int| 0 <= k < p.len() - 1 implies #[trigger] grid_table()[p[k] as int].contains(
        p[k + 1],
    ) by {
        assert(board_table(b)[p[k] as int].contains(p[k + 1]));
        crate::board::lemma_same_neighbours(b, p[k] as int, p[k + 1]);
        crate::board::lemma_neighbours_adjacent(p[k] as int, p[k + 1]);
    }
}

/// `s` lists map `m`: strictly increasing keys, each with its value, and
/// every key of `m` listed.
pub open spec fn is_listing(m: Map<u32, GroupValue>, s: Seq<(u32, GroupValue)>) -> bool {
    &&& forall|i: int, j: int| 0 <= i < j < s.len() ==> #[trigger] group_before(s[i].0, s[j].0)
    &&& forall|i: int| 0 <= i < s.len() ==> m.contains_key(#[trigger] s[i].0) && m[s[i].0] == s[i].1
    &&& forall|k: u32| #[trigger] m.contains_key(k) ==> exists|i: int| 0 <= i < s.len() && s[i].0 == k
}

/// A map has at most one listing.
pub proof fn lemma_listing_unique(
    m: Map<u32, GroupValue>,
    s1: Seq<(u32, GroupValue)>,
    s2: Seq<(u32, GroupValue)>,
)
    requires
        is_listing(m, s1),
        is_listing(m, s2),
    ensures
        s1 == s2,
    decreases s1.len(),
{
    if s1.len() == 0 {
        if s2.len() > 0 {
            assert(m.contains_key(s2[0].0));
        }
        assert(s1 =~= s2);
    } else {
        assert(m.contains_key(s1[0].0));
        let j = choose|j: int| 0 <= j < s2.len() && s2[j].0 == s1[0].0;
        if j > 0 {
            assert(m.contains_key(s2[0].0));
            let i = choose|i: int| 0 <= i < s1.len() && s1[i].0 == s2[0].0;
            assert(group_before(s2[0].0, s2[j].0));
            if i > 0 {
                assert(group_before(s1[0].0, s1[i].0));
                crate::cells::lemma_before_trans(s1[0].0, s1[i].0, s1[0].0);
                crate::cells::lemma_before_irreflexive(s1[0].0);
            } else {
                crate::cells::lemma_before_irreflexive(s2[0].0);
            }
        }
        let k0 = s1[0].0;
        let m2 = m.remove(k0);
        let t1 = s1.drop_first();
        let t2 = s2.drop_first();
        assert forall|i: int| 0 <= i < t1.len() implies m2.contains_key(#[trigger] t1[i].0)
            && m2[t1[i].0] == t1[i].1 by {
            assert(t1[i] == s1[i + 1]);
            assert(group_before(s1[0].0, s1[i + 1].0));
            crate::cells::lemma_before_irreflexive(s1[0].0);
        }
        assert forall|i: int| 0 <= i < t2.len() implies m2.contains_key(#[trigger] t2[i].0)
            && m2[t2[i].0] == t2[i].1 by {
            assert(t2[i] == s2[i + 1]);
            assert(group_before(s2[0].0, s2[i + 1].0));
            crate::cells::lemma_before_irreflexive(s2[0].0);
        }
        assert forall|k: u32| #[trigger] m2.contains_key(k) implies exists|i: int|
            0 <= i < t1.len() && t1[i].0 == k by {
            let i = choose|i: int| 0 <= i < s1.len() && s1[i].0 == k;
            assert(t1[i - 1].0 == k);
        }
        assert forall|k: u32| #[trigger] m2.contains_key(k) implies exists|i: int|
            0 <= i < t2.len() && t2[i].0 == k by {
            let i = choose|i: int| 0 <= i < s2.len() && s2[i].0 == k;
            assert(t2[i - 1].0 == k);
        }
        assert forall|a: int, b: int| 0 <= a < b < t1.len() implies #[trigger] group_before(
            t1[a].0,
            t1[b].0,
        ) by {
            assert(group_before(s1[a + 1].0, s1[b + 1].0));
        }
        assert forall|a: int, b: int| 0 <= a < b < t2.len() implies #[trigger] group_before(
            t2[a].0,
            t2[b].0,
        ) by {
            assert(group_before(s2[a + 1].0, s2[b + 1].0));
        }
        lemma_listing_unique(m2, t1, t2);
        assert(s1[0] == s2[0]);
        assert(s1 =~= seq![s1[0]] + t1);
        assert(s2 =~= seq![s2[0]] + t2);
    }
}

/// A listing determines its map.
pub proof fn lemma_listing_determines_map(
    m1: Map<u32, GroupValue>,
    m2: Map<u32, GroupValue>,
    s: Seq<(u32, GroupValue)>,
)
    requires
        is_listing(m1, s),
        is_listing(m2, s),
    ensures
        m1 == m2,
{
    assert forall|k: u32| m1.contains_key(k) <==> m2.contains_key(k) by {
        if m1.contains_key(k) {
            let i = choose|i: int| 0 <= i < s.len() && s[i].0 == k;
        }
        if m2.contains_key(k) {
            let i = choose|i: int| 0 <= i < s.len() && s[i].0 == k;
        }
    }
    assert forall|k: u32| m1.contains_key(k) implies m1[k] == m2[k] by {
        let i = choose|i: int| 0 <= i < s.len() && s[i].0 == k;
    }
    assert(m1 =~= m2);
}

/// Puts `item` into `list`, ordered by `group_before`, at its place.
fn insert_sorted(list: &mut Vec<(u32, GroupValue)>, item: (u32, GroupValue))
    requires
        forall|i: int, j: int| 0 <= i < j < old(list)@.len() ==> #[trigger] group_before(
            old(list)@[i].0,
            old(list)@[j].0,
        ),
        forall|i: int| 0 <= i < old(list)@.len() ==> #[trigger] old(list)@[i].0 != item.0,
    ensures
        forall|i: int, j: int| 0 <= i < j < final(list)@.len() ==> #[trigger] group_before(
            final(list)@[i].0,
            final(list)@[j].0,
        ),
        final(list)@.to_set() == old(list)@.to_set().insert(item),
        final(list)@.len() == old(list)@.len() + 1,
{
    let mut pos: usize = 0;
    while pos < list.len() && comes_before(list[pos].0, item.0)
        invariant
            pos <= list@.len(),
            forall|i: int| 0 <= i < pos ==> #[trigger] group_before(list@[i].0, item.0),
        decreases list@.len() - pos,
    {
        pos = pos + 1;
    }
    let ghost before = list@;
    proof {
        if pos < before.len() {
            assert(before[pos as int].0 != item.0);
            crate::cells::lemma_before_total(before[pos as int].0, item.0);
            assert(group_before(item.0, before[pos as int].0));
        }
    }
    list.insert(pos, item);
    assert(list@ =~= before.insert(pos as int, item));
    assert forall|i: int, j: int| 0 <= i < j < list@.len() implies #[trigger] group_before(
        list@[i].0,
        list@[j].0,
    ) by {
        if j < pos {
            assert(list@[i] == before[i] && list@[j] == before[j]);
        } else if j == pos {
            assert(list@[i] == before[i]);
        } else if i == pos {
            assert(list@[j] == before[j - 1]);
            if j - 1 > pos {
                assert(group_before(before[pos as int].0, before[j - 1].0));
                crate::cells::lemma_before_trans(item.0, before[pos as int].0, before[j - 1].0);
            }
        } else if i < pos {
            assert(list@[i] == before[i] && list@[j] == before[j - 1]);
            assert(group_before(before[i].0, before[j - 1].0));
        } else {
            assert(list@[i] == before[i - 1] && list@[j] == before[j - 1]);
            assert(group_before(before[i - 1].0, before[j - 1].0));
        }
    }
    assert(list@.to_set() =~= before.to_set().insert(item)) by {
        assert forall|x: (u32, GroupValue)| #[trigger] list@.to_set().contains(x) implies before.to_set().insert(item).contains(x) by {
            let i = choose|i: int| 0 <= i < list@.len() && list@[i] == x;
            if i < pos {
                assert(before[i] == x);
            } else if i > pos {
                assert(before[i - 1] == x);
            }
        }
        assert forall|x: (u32, GroupValue)| #[trigger] before.to_set().insert(item).contains(x) implies list@.to_set().contains(x) by {
            if x == item {
                assert(list@[pos as int] == x);
            } else {
                let i = choose|i: int| 0 <= i < before.len() && before[i] == x;
                if i < pos {
                    assert(list@[i] == x);
                } else {
                    assert(list@[i + 1] == x);
                }
            }
        }
    }
}

impl<'a> LucidState<'a> {
    /// The look-ahead view of a game state: every path of one to four
    /// equal, adjacent cells becomes a group holding their number.
    #[verifier::rlimit(30)]
    pub fn create(state: &State, data: &'a ActionData) -> (res: Self)
        ensures
            res.score == state.score,
            res.depth == 0,
            res.data == data,
            board_groups(state.board@, res.actions@),
            joins_listed(data@) ==> groups_fit(res.actions@, data@),
            paths_keyed(data@) ==> keys_in_data(res.actions@, data@),
            refill_marked(res.actions@),
    {
        let moves = state.actions();
        let ghost b = state.board@;
        let ghost t = board_table(b);
        let ghost mv = views(moves@);
        let mut actions: HashMap<u32, Option<(u32, bool)>> = HashMap::new();
        let mut k: usize = 0;
        while k < moves.len()
            invariant
                k <= moves@.len(),
                mv == views(moves@),
                b == state.board@,
                t == board_table(b),
                forall|q: Seq<usize>| #![trigger mv.contains(q)]
                    mv.contains(q) <==> (is_move(b, q) || (q.len() == 1 && q[0] < 25)),
                forall|key: u32|
                    #[trigger] actions@.contains_key(key) <==> exists|j: int|
                        0 <= j < k && mv[j].len() <= 4 && #[trigger] path_mask(mv[j]) == key,
                forall|j: int|
                    0 <= j < k && mv[j].len() <= 4 ==> actions@[#[trigger] path_mask(mv[j])]
                        == Some((b[mv[j][0] as int], false)),
            decreases moves@.len() - k,
        {
            let action = &moves[k];
            let ghost p = mv[k as int];
            assert(action@ == p);
            assert(mv.contains(p));
            proof {
                crate::board::lemma_board_table_valid(b);
                if p.len() >= 2 {
                    lemma_path_is_move(b, p);
                } else {
                    crate::paths::lemma_single_is_path(t, p[0]);
                    assert(p =~= seq![p[0]]);
                }
                assert(is_path(t, p));
            }
            let value = Some((state.board[action[0]], false));
            if action.len() <= 4 {
                let key = mask_of(action.as_slice());
                actions.insert(key, value);
                proof {
                    assert forall|j: int|
                        0 <= j < k + 1 && mv[j].len() <= 4 implies actions@[#[trigger] path_mask(
                            mv[j],
                        )] == Some((b[mv[j][0] as int], false)) by {
                        if path_mask(mv[j]) == key && j != k {
                            assert(mv.contains(mv[j]));
                            if mv[j].len() >= 2 {
                                lemma_path_is_move(b, mv[j]);
                            } else {
                                crate::paths::lemma_single_is_path(t, mv[j][0]);
                                assert(mv[j] =~= seq![mv[j][0]]);
                            }
                            lemma_same_group_same_number(b, mv[j], p);
                        }
                    }
                }
            }
            k = k + 1;
        }
        proof {
            crate::board::lemma_board_table_valid(b);
            assert forall|key: u32| #[trigger] actions@.contains_key(key) <==> exists|p: Seq<usize>|
                is_path(t, p) && p.len() <= 4 && #[trigger] path_mask(p) == key by {
                if actions@.contains_key(key) {
                    let j = choose|j: int|
                        0 <= j < k && mv[j].len() <= 4 && #[trigger] path_mask(mv[j]) == key;
                    assert(mv.contains(mv[j]));
                    if mv[j].len() >= 2 {
                        lemma_path_is_move(b, mv[j]);
                    } else {
                        crate::paths::lemma_single_is_path(t, mv[j][0]);
                        assert(mv[j] =~= seq![mv[j][0]]);
                    }
                }
                if exists|p: Seq<usize>| is_path(t, p) && p.len() <= 4 && #[trigger] path_mask(p)
                    == key {
                    let p = choose|p: Seq<usize>|
                        is_path(t, p) && p.len() <= 4 && #[trigger] path_mask(p) == key;
                    lemma_in_moves(b, p, mv);
                    let j = choose|j: int| 0 <= j < mv.len() && mv[j] == p;
                    assert(path_mask(mv[j]) == key);
                }
            }
            assert forall|p: Seq<usize>|
                is_path(t, p) && p.len() <= 4 implies actions@[#[trigger] path_mask(p)] == Some(
                (b[p[0] as int], false),
            ) by {
                lemma_in_moves(b, p, mv);
                let j = choose|j: int| 0 <= j < mv.len() && mv[j] == p;
                assert(mv[j].len() <= 4);
            }
            if joins_listed(data@) {
                assert forall|key: u32| #[trigger] actions@.contains_key(key) implies (cell_count(key)
                    > 1 ==> data@.contains_key(key) && actions@[key] is Some) && (actions@[key] is None
                    ==> key != 0) by {
                    let p = choose|p: Seq<usize>|
                        is_path(t, p) && p.len() <= 4 && #[trigger] path_mask(p) == key;
                    lemma_board_path_is_grid_path(b, p);
                    assert(short_paths().contains(p));
                    if p.len() == 1 {
                        crate::choice::lemma_single_path_count(p);
                    }
                }
            }
            if paths_keyed(data@) {
                assert forall|key: u32| #[trigger] actions@.contains_key(key) implies data@.contains_key(key) by {
                    let p = choose|p: Seq<usize>|
                        is_path(t, p) && p.len() <= 4 && #[trigger] path_mask(p) == key;
                    lemma_board_path_is_grid_path(b, p);
                    assert(short_paths().contains(p));
                }
            }
            assert forall|key: u32| #[trigger] actions@.contains_key(key) implies (actions@[key] matches Some((_, f)) && !f) && key != 0 by {
                let p = choose|p: Seq<usize>|
                    is_path(t, p) && p.len() <= 4 && #[trigger] path_mask(p) == key;
                lemma_path_mask(p, p[0] as u32);
                assert(p.contains(p[0]));
                crate::cells::lemma_empty(p[0] as u32);
            }
            assert forall|key: u32| #[trigger] actions@.contains_key(key) implies crate::marks::marked(
                key,
                actions@[key],
                crate::marks::refilled_cells(actions@),
            ) by {
                assert forall|c: u32| !crate::marks::refilled_cells(actions@).contains(c) by {
                    if actions@.contains_key(1u32 << c) {
                        assert(actions@[1u32 << c] is Some);
                    }
                }
            }
        }
        LucidState { actions, score: state.score, data, depth: 0 }
    }

    /// The groups, listed in the order of their cell lists.
    pub fn create_key(&self) -> (res: Vec<(u32, Option<(u32, bool)>)>)
        ensures
            is_listing(self.actions@, res@),
    {
        let mut entries: Vec<(u32, Option<(u32, bool)>)> = Vec::new();
        for (k, v) in it: self.actions.iter()
            invariant
                entries@.len() == it.index(),
                forall|j: int|
                    0 <= j < it.index() ==> entries@[j] == (*it.seq()[j].0, *it.seq()[j].1),
        {
            entries.push((*k, *v));
        }
        let ghost r = vstd::std_specs::hash::spec_hash_map_iter(&self.actions).remaining();
        assert(entries@ =~= r.unref());
        let ghost m = self.actions@;
        assert(entries@.to_set() == m.kv_pairs());
        assert(entries@.no_duplicates());
        let mut sorted: Vec<(u32, Option<(u32, bool)>)> = Vec::new();
        let mut i: usize = 0;
        while i < entries.len()
            invariant
                i <= entries@.len(),
                entries@.to_set() == m.kv_pairs(),
                entries@.no_duplicates(),
                forall|a: int, b: int| 0 <= a < b < sorted@.len() ==> #[trigger] group_before(
                    sorted@[a].0,
                    sorted@[b].0,
                ),
                sorted@.to_set() == entries@.take(i as int).to_set(),
            decreases entries@.len() - i,
        {
            let item = entries[i];
            proof {
                assert(entries@.to_set().contains(item));
                assert(m.kv_pairs().contains(item));
                assert forall|a: int| 0 <= a < sorted@.len() implies #[trigger] sorted@[a].0
                    != item.0 by {
                    assert(sorted@.to_set().contains(sorted@[a]));
                    let c = choose|c: int| 0 <= c < i && entries@.take(i as int)[c] == sorted@[a];
                    assert(entries@[c] == sorted@[a]);
                    assert(entries@.to_set().contains(entries@[c]));
                    if sorted@[a].0 == item.0 {
                        assert(m.kv_pairs().contains(entries@[c]));
                        assert(entries@[c] == item);
                    }
                }
            }
            insert_sorted(&mut sorted, item);
            assert(entries@.take(i + 1) =~= entries@.take(i as int).push(item));
            proof {
                entries@.take(i as int).lemma_push_to_set_commute(item);
            }
            i = i + 1;
        }
        assert(entries@.take(i as int) =~= entries@);
        proof {
            assert forall|a: int| 0 <= a < sorted@.len() implies m.contains_key(
                #[trigger] sorted@[a].0,
            ) && m[sorted@[a].0] == sorted@[a].1 by {
                assert(sorted@.to_set().contains(sorted@[a]));
                assert(m.kv_pairs().contains(sorted@[a]));
            }
            assert forall|key: u32| #[trigger] m.contains_key(key) implies exists|a: int|
                0 <= a < sorted@.len() && sorted@[a].0 == key by {
                assert(m.kv_pairs().contains((key, m[key])));
                assert(sorted@.to_set().contains((key, m[key])));
            }
        }
        sorted
    }
}

/// Every path of a board of one to four cells is among its listed paths.
proof fn lemma_in_moves(b: Seq<u32>, p: Seq<usize>, mv: Seq<Seq<usize>>)
    requires
        b.len() == 25,
        is_path(board_table(b), p),
        forall|q: Seq<usize>| #![trigger mv.contains(q)]
            mv.contains(q) <==> (is_move(b, q) || (q.len() == 1 && q[0] < 25)),
    ensures
        mv.contains(p),
{
    if p.len() >= 2 {
        lemma_path_is_move(b, p);
    }
    assert(mv.contains(p));
}

/// Two positions have the same key exactly when they have the same groups.
pub proof fn lemma_key_determines_groups(
    a: Map<u32, GroupValue>,
    b: Map<u32, GroupValue>,
    ka: Seq<(u32, GroupValue)>,
    kb: Seq<(u32, GroupValue)>,
)
    requires
        is_listing(a, ka),
        is_listing(b, kb),
    ensures
        ka == kb <==> a == b,
{
    if ka == kb {
        lemma_listing_determines_map(a, b, ka);
    }
    if a == b {
        lemma_listing_unique(a, ka, kb);
    }
}

/// Every cell of `k` is `index` or a cell of some group of `groups`.
pub open spec fn covers_from(k: u32, index: usize, groups: Map<u32, GroupValue>) -> bool {
    forall|c: u32|
        #[trigger] has_cell(k, c) ==> c == index as u32 || exists|g: u32|
            groups.contains_key(g) && #[trigger] has_cell(g, c)
}

/// What every group that `set_tile` adds or changes satisfies: it holds the
/// cell, its other cells come from the groups before, and it is the cell
/// alone or a key of the action data with a known number.
pub open spec fn tile_group(
    k: u32,
    v: GroupValue,
    index: usize,
    groups: Map<u32, GroupValue>,
    data: Map<u32, u32>,
) -> bool {
    &&& has_cell(k, index as u32)
    &&& covers_from(k, index, groups)
    &&& k == 1u32 << (index as u32) || (data.contains_key(k) && v is Some)
}

/// No group holds cell `index`, and no group is empty.
pub open spec fn cell_free(groups: Map<u32, GroupValue>, index: usize) -> bool {
    &&& !groups.contains_key(0)
    &&& forall|g: u32| #[trigger] groups.contains_key(g) ==> !has_cell(g, index as u32)
}

/// Copies every entry of `source` into `target`, replacing what is there.
fn merge_into(target: &mut HashMap<u32, GroupValue>, source: &HashMap<u32, GroupValue>)
    ensures
        final(target)@ == old(target)@.union_prefer_right(source@),
{
    let ghost start = target@;
    for (k, v) in it: source.iter()
        invariant
            it.seq() == vstd::std_specs::hash::spec_hash_map_iter(source).remaining(),
            it.seq().no_duplicates(),
            forall|key: u32|
                #[trigger] target@.contains_key(key) <==> (start.contains_key(key) || exists|j: int|
                    0 <= j < it.index() && *it.seq()[j].0 == key),
            forall|j: int|
                0 <= j < it.index() ==> target@[*it.seq()[j].0] == source@[*it.seq()[j].0],
            forall|key: u32|
                #![trigger target@[key]]
                start.contains_key(key) && !(exists|j: int|
                    0 <= j < it.index() && *it.seq()[j].0 == key) ==> target@[key] == start[key],
    {
        proof {
            broadcast use vstd::std_specs::hash::axiom_spec_hash_map_iter;
        }
        target.insert(*k, *v);
        proof {
            let r = it.seq();
            assert(r.no_duplicates());
            assert forall|j: int| 0 <= j < it.index() + 1 implies target@[*r[j].0] == source@[*r[j].0] by {
                if j < it.index() {
                    if *r[j].0 == *k {
                        assert(r[j] == r[it.index()]);
                    }
                }
            }
        }
    }
    proof {
        broadcast use vstd::std_specs::hash::axiom_spec_hash_map_iter;
        let r = vstd::std_specs::hash::spec_hash_map_iter(source).remaining();
        assert forall|key: u32| source@.contains_key(key) implies exists|j: int|
            0 <= j < r.len() && *r[j].0 == key by {
            assert(r.contains((&key, &source@[key])));
        }
        assert(target@ =~= start.union_prefer_right(source@));
    }
}

/// Whether two groups side by side can join, and what is known of the
/// joined group: equal numbers join when at most one refilled cell is among
/// them; a refilled cell joins a group of 1, 2 or 3 without one.
pub open spec fn joined(value: GroupValue, local_value: GroupValue) -> Option<GroupValue> {
    match (value, local_value) {
        (Some((v, a)), Some((w, b))) => if v == w && !(a && b) {
            Some(Some((v, a || b)))
        } else {
            None
        },
        (Some((v, a)), None) => if (v == 1 || v == 2 || v == 3) && !a {
            Some(Some((v, true)))
        } else {
            None
        },
        (None, Some((w, b))) => if (w == 1 || w == 2 || w == 3) && !b {
            Some(Some((w, true)))
        } else {
            None
        },
        (None, None) => None,
    }
}

/// Joins two group values, as `joined` states.
fn join(value: GroupValue, local_value: GroupValue) -> (res: Option<GroupValue>)
    ensures
        res == joined(value, local_value),
{
    if let Some((v, a)) = value {
        if let Some((w, b)) = local_value {
            if v == w && !(a && b) {
                Some(Some((v, a || b)))
            } else {
                None
            }
        } else {
            if (v == 1 || v == 2 || v == 3) && !a {
                Some(Some((v, true)))
            } else {
                None
            }
        }
    } else if let Some((w, b)) = local_value {
        if (w == 1 || w == 2 || w == 3) && !b {
            Some(Some((w, true)))
        } else {
            None
        }
    } else {
        None
    }
}

/// The groups that one existing group (`covered`, of value `gv`) forms with
/// the groups of `order`, taken in turn: each union that is a key of the
/// action data and whose values join, with the joined value (a later union
/// replaces an earlier equal one).
pub open spec fn join_round(
    covered: u32,
    gv: GroupValue,
    order: Seq<(u32, GroupValue)>,
    data: Map<u32, u32>,
) -> Map<u32, GroupValue>
    decreases order.len(),
{
    if order.len() == 0 {
        Map::empty()
    } else {
        let prev = join_round(covered, gv, order.drop_last(), data);
        let union = covered | order.last().0;
        match joined(gv, order.last().1) {
            Some(j) => if data.contains_key(union) {
                prev.insert(union, j)
            } else {
                prev
            },
            None => prev,
        }
    }
}

/// The groups a refilled or joined cell forms: starting from `start` (the
/// cell alone), each group of `order` in turn adds its round of unions with
/// the groups formed so far, those taken in the order `inner` gives for
/// that round.
pub open spec fn grown(
    order: Seq<(u32, GroupValue)>,
    inner: Seq<Seq<(u32, GroupValue)>>,
    start: Map<u32, GroupValue>,
    data: Map<u32, u32>,
) -> Map<u32, GroupValue>
    decreases order.len(),
{
    if order.len() == 0 || inner.len() == 0 {
        start
    } else {
        grown(order.drop_last(), inner.drop_last(), start, data).union_prefer_right(
            join_round(order.last().0, order.last().1, inner.last(), data),
        )
    }
}

/// Round `i` of `grown` walks the groups formed before it, each once.
pub open spec fn rounds_walk_all(
    order: Seq<(u32, GroupValue)>,
    inner: Seq<Seq<(u32, GroupValue)>>,
    start: Map<u32, GroupValue>,
    data: Map<u32, u32>,
) -> bool {
    &&& inner.len() == order.len()
    &&& forall|i: int|
        0 <= i < order.len() ==> is_ordering(
            grown(order.take(i), inner.take(i), start, data),
            #[trigger] inner[i],
        )
}

/// Cell `index` alone, holding `value`.
pub open spec fn cell_alone(index: usize, value: GroupValue) -> Map<u32, GroupValue> {
    Map::empty().insert(1u32 << (index as u32), value)
}

/// `result` is what putting `value` on cell `index` makes of the groups
/// `groups`, for some order of walking them: the groups stay, and the
/// groups the cell forms are added, replacing equal ones.
pub open spec fn tile_step(
    groups: Map<u32, GroupValue>,
    index: usize,
    value: GroupValue,
    data: Map<u32, u32>,
    result: Map<u32, GroupValue>,
) -> bool {
    exists|order: Seq<(u32, GroupValue)>, inner: Seq<Seq<(u32, GroupValue)>>|
        #![trigger grown(order, inner, cell_alone(index, value), data)]
        {
            &&& is_ordering(groups, order)
            &&& rounds_walk_all(order, inner, cell_alone(index, value), data)
            &&& result == groups.union_prefer_right(
                grown(order, inner, cell_alone(index, value), data),
            )
        }
}

/// Whether two groups join, and what the joined group is, does not depend
/// on which of them is the existing group and which the one the cell formed.
pub proof fn lemma_joined_symmetric(a: GroupValue, b: GroupValue)
    ensures
        joined(a, b) == joined(b, a),
{
}

/// A group of unknown number (a refilled cell) joins every group whose number
/// is 1, 2 or 3 and that holds no refilled cell, whichever of the two is the
/// existing one, and the result is that number with the flag set.
pub proof fn lemma_refilled_joins_small(n: u32)
    requires
        1 <= n <= 3,
    ensures
        joined(None, Some((n, false))) == Some(Some((n, true))),
        joined(Some((n, false)), None) == Some(Some((n, true))),
{
}

/// Which groups join: two groups of different numbers never do, nor two
/// refilled cells; two groups of one number do unless both hold a refilled
/// cell, and the joined group holds one when either does; a refilled cell
/// joins exactly the groups of 1, 2 or 3 that hold no refilled cell.
pub proof fn lemma_joined_cases(v: u32, a: bool, w: u32, b: bool)
    ensures
        v != w ==> joined(Some((v, a)), Some((w, b))) is None,
        joined(None, None) is None,
        joined(Some((v, a)), Some((v, b))) == if a && b {
            None
        } else {
            Some(Some((v, a || b)))
        },
        joined(None, Some((w, b))) is Some <==> (1 <= w <= 3 && !b),
        joined(None, Some((w, b))) is Some ==> joined(None, Some((w, b))) == Some(Some((w, true))),
{
}

/// A joined value is a known number.
proof fn lemma_joined_some(value: GroupValue, local_value: GroupValue)
    ensures
        joined(value, local_value) matches Some(j) ==> j is Some,
{
}

impl<'a> LucidState<'a> {
    /// Puts `value` on cell `index` and adds every group the cell now
    /// completes: the cell joins the existing groups one after another, each
    /// time with the cell alone and with every group it formed so far, when
    /// the union is a key of the action data and the values join.
    #[verifier::rlimit(30)]
    fn set_tile(&mut self, index: usize, value: GroupValue)
        requires
            index < 32,
        ensures
            final(self).score == old(self).score,
            final(self).depth == old(self).depth,
            final(self).data == old(self).data,
            forall|k: u32| #[trigger] old(self).actions@.contains_key(k) ==> final(self).actions@.contains_key(k),
            forall|k: u32|
                #![trigger final(self).actions@[k]]
                old(self).actions@.contains_key(k) && !has_cell(k, index as u32)
                    ==> final(self).actions@[k] == old(self).actions@[k],
            forall|k: u32|
                #[trigger] final(self).actions@.contains_key(k) && !(old(self).actions@.contains_key(k)
                    && final(self).actions@[k] == old(self).actions@[k]) ==> tile_group(
                    k,
                    final(self).actions@[k],
                    index,
                    old(self).actions@,
                    old(self).data@,
                ),
            cell_free(old(self).actions@, index) ==> final(self).actions@.contains_key(
                1u32 << (index as u32),
            ) && final(self).actions@[1u32 << (index as u32)] == value,
            tile_step(old(self).actions@, index, value, old(self).data@, final(self).actions@),
            cell_free(old(self).actions@, index) ==> forall|g: u32|
                #[trigger] old(self).actions@.contains_key(g) && old(self).data@.contains_key(
                    g | (1u32 << (index as u32)),
                ) && joined(old(self).actions@[g], value) is Some ==> final(self).actions@.contains_key(
                    g | (1u32 << (index as u32)),
                ),
    {
        let ghost groups = self.actions@;
        let ghost d = self.data@;
        let ghost start = cell_alone(index, value);
        let ghost all = vstd::std_specs::hash::spec_hash_map_iter(&self.actions).remaining().unref();
        let ghost mut rounds: Seq<Seq<(u32, GroupValue)>> = Seq::empty();
        let single: u32 = 1u32 << (index as u32);
        let ghost free = cell_free(groups, index);
        proof {
            crate::cells::lemma_single(index as u32, index as u32);
            assert forall|c: u32| #[trigger] has_cell(single, c) implies c == index as u32 by {
                crate::cells::lemma_single(index as u32, c);
            }
        }
        let mut local_actions: HashMap<u32, GroupValue> = HashMap::new();
        local_actions.insert(single, value);
        assert(local_actions@ =~= start);
        assert(all.take(0) =~= Seq::<(u32, GroupValue)>::empty());
        for (covered, value_ref) in it: self.actions.iter()
            invariant
                it.seq() == vstd::std_specs::hash::spec_hash_map_iter(&self.actions).remaining(),
                all == it.seq().unref(),
                start == cell_alone(index, value),
                rounds.len() == it.index(),
                local_actions@ == grown(all.take(it.index()), rounds, start, d),
                rounds_walk_all(all.take(it.index()), rounds, start, d),
                groups == self.actions@,
                d == self.data@,
                free == cell_free(groups, index),
                single == 1u32 << (index as u32),
                has_cell(single, index as u32),
                forall|c: u32| #[trigger] has_cell(single, c) ==> c == index as u32,
                local_actions@.contains_key(single),
                free ==> local_actions@[single] == value,
                forall|k: u32|
                    #[trigger] local_actions@.contains_key(k) ==> tile_group(
                        k,
                        local_actions@[k],
                        index,
                        groups,
                        d,
                    ),
        {
            let covered = *covered;
            let group_value = *value_ref;
            proof {
                broadcast use vstd::std_specs::hash::axiom_spec_hash_map_iter;
                assert(it.seq().contains(it.seq()[it.index()]));
            }
            assert(groups.contains_key(covered));
            let ghost i = it.index();
            assert(all[i] == (covered, group_value));
            let ghost formed = local_actions@;
            let ghost walk = vstd::std_specs::hash::spec_hash_map_iter(&local_actions).remaining().unref();
            let mut joins: HashMap<u32, GroupValue> = HashMap::new();
            let ghost mut seen_walk: Seq<(u32, GroupValue)> = Seq::empty();
            assert(walk.take(0) =~= Seq::<(u32, GroupValue)>::empty());
            for (local_covered, local_value_ref) in jt: local_actions.iter()
                invariant
                    jt.seq() == vstd::std_specs::hash::spec_hash_map_iter(&local_actions).remaining(),
                    walk == jt.seq().unref(),
                    formed == local_actions@,
                    seen_walk == walk.take(jt.index()),
                    joins@ == join_round(covered, group_value, seen_walk, d),
                    groups == self.actions@,
                    d == self.data@,
                    groups.contains_key(covered),
                    free == cell_free(groups, index),
                    single == 1u32 << (index as u32),
                    forall|c: u32| #[trigger] has_cell(single, c) ==> c == index as u32,
                    forall|k: u32|
                        #[trigger] local_actions@.contains_key(k) ==> tile_group(
                            k,
                            local_actions@[k],
                            index,
                            groups,
                            d,
                        ),
                    forall|k: u32|
                        #[trigger] joins@.contains_key(k) ==> tile_group(
                            k,
                            joins@[k],
                            index,
                            groups,
                            d,
                        ) && joins@[k] is Some,
                    free ==> !joins@.contains_key(single),
            {
                let local_covered = *local_covered;
                let local_value = *local_value_ref;
                proof {
                    broadcast use vstd::std_specs::hash::axiom_spec_hash_map_iter;
                    assert(jt.seq().contains(jt.seq()[jt.index()]));
                }
                assert(local_actions@.contains_key(local_covered));
                let ghost j_at = jt.index();
                assert(walk[j_at] == (local_covered, local_value));
                assert(walk.take(j_at + 1).drop_last() =~= walk.take(j_at));
                let new_covered = covered | local_covered;
                if self.data.contains_key(&new_covered) {
                    if let Some(j) = join(group_value, local_value) {
                        proof {
                            lemma_joined_some(group_value, local_value);
                            assert(tile_group(local_covered, local_actions@[local_covered], index, groups, d));
                            crate::cells::lemma_union(covered, local_covered, index as u32);
                            assert forall|c: u32| #[trigger] has_cell(new_covered, c) implies c == index as u32
                                || exists|g: u32| groups.contains_key(g) && #[trigger] has_cell(g, c) by {
                                crate::cells::lemma_union(covered, local_covered, c);
                                if has_cell(local_covered, c) {
                                    assert(covers_from(local_covered, index, groups));
                                }
                            }
                            if free {
                                assert(new_covered != single) by {
                                    assert(covered != 0);
                                    crate::cells::lemma_nonzero_has_cell(covered);
                                    let c = choose|c: u32| has_cell(covered, c);
                                    assert(!has_cell(covered, index as u32));
                                    crate::cells::lemma_union(covered, local_covered, c);
                                }
                            }
                        }
                        joins.insert(new_covered, j);
                    }
                }
                proof {
                    let prev = seen_walk;
                    seen_walk = seen_walk.push((local_covered, local_value));
                    assert(seen_walk.drop_last() =~= prev);
                    assert(seen_walk.last() == (local_covered, local_value));
                    assert(seen_walk == walk.take(jt.index() + 1));
                }
            }
            let ghost before_merge = local_actions@;
            proof {
                broadcast use vstd::std_specs::hash::axiom_spec_hash_map_iter;
                assert(walk.take(walk.len() as int) =~= walk);
                assert(seen_walk == walk);
                assert(walk.to_set() == formed.kv_pairs());
                assert(is_ordering(formed, walk));
            }
            merge_into(&mut local_actions, &joins);
            proof {
                let prefix = all.take(i);
                let longer = all.take(i + 1);
                assert(longer.drop_last() =~= prefix);
                assert(rounds.push(seen_walk).drop_last() =~= rounds);
                assert(local_actions@ == grown(longer, rounds.push(seen_walk), start, d));
                assert forall|k: int| 0 <= k < longer.len() implies is_ordering(
                    grown(longer.take(k), rounds.push(seen_walk).take(k), start, d),
                    #[trigger] rounds.push(seen_walk)[k],
                ) by {
                    assert(longer.take(k) =~= prefix.take(k));
                    assert(rounds.push(seen_walk).take(k) =~= rounds.take(k));
                    if k == i {
                        assert(prefix.take(k) =~= prefix);
                        assert(rounds.take(k) =~= rounds);
                    }
                }
                rounds = rounds.push(seen_walk);
            }
            proof {
                assert forall|k: u32| #[trigger] local_actions@.contains_key(k) implies tile_group(
                    k,
                    local_actions@[k],
                    index,
                    groups,
                    d,
                ) by {
                    if joins@.contains_key(k) {
                    } else {
                        assert(before_merge.contains_key(k));
                    }
                }
            }
        }
        let ghost local = local_actions@;
        proof {
            broadcast use vstd::std_specs::hash::axiom_spec_hash_map_iter;
            assert(all.take(all.len() as int) =~= all);
            assert(all.to_set() == groups.kv_pairs());
            assert(is_ordering(groups, all));
        }
        merge_into(&mut self.actions, &local_actions);
        proof {
            assert(grown(all, rounds, start, d) == local);
            assert forall|k: u32| #[trigger] groups.contains_key(k) && !has_cell(k, index as u32) implies !local.contains_key(k) by {
                if local.contains_key(k) {
                    assert(tile_group(k, local[k], index, groups, d));
                }
            }
            assert(tile_step(groups, index, value, d, self.actions@));
            if free {
                assert forall|g: u32|
                    #[trigger] groups.contains_key(g) && d.contains_key(g | (1u32 << (index as u32)))
                        && joined(groups[g], value) is Some implies self.actions@.contains_key(
                    g | (1u32 << (index as u32)),
                ) by {
                    crate::marks::lemma_tile_step_joins(groups, index, value, d, self.actions@, g);
                }
            }
        }
    }
}

/// The groups that share no cell with `covered`.
pub open spec fn untouched(groups: Map<u32, GroupValue>, covered: u32) -> Map<u32, GroupValue> {
    groups.restrict(Set::new(|k: u32| k & covered == 0))
}

/// The cells below `n` of `covered` other than `end`, in increasing order.
pub open spec fn refill_cells(covered: u32, end: usize, n: nat) -> Seq<usize>
    decreases n,
{
    if n == 0 {
        Seq::empty()
    } else {
        let c = (n - 1) as nat;
        refill_cells(covered, end, c) + if has_cell(covered, c as u32) && c != end {
            seq![c as usize]
        } else {
            Seq::empty()
        }
    }
}

/// `result` is what refilling the cells `cells`, in turn, with numbers not
/// known yet makes of the groups `groups`.
pub open spec fn refilled(
    groups: Map<u32, GroupValue>,
    cells: Seq<usize>,
    data: Map<u32, u32>,
    result: Map<u32, GroupValue>,
) -> bool
    decreases cells.len(),
{
    if cells.len() == 0 {
        result == groups
    } else {
        exists|mid: Map<u32, GroupValue>|
            #![trigger tile_step(mid, cells.last(), None, data, result)]
            refilled(groups, cells.drop_last(), data, mid) && tile_step(
                mid,
                cells.last(),
                None,
                data,
                result,
            )
    }
}

/// Refilling one more cell of `covered` extends the refill.
proof fn lemma_refilled_step(
    start: Map<u32, GroupValue>,
    covered: u32,
    end: usize,
    index: usize,
    before: Map<u32, GroupValue>,
    after: Map<u32, GroupValue>,
    data: Map<u32, u32>,
)
    requires
        index < 32,
        index != end,
        has_cell(covered, index as u32),
        refilled(start, refill_cells(covered, end, index as nat), data, before),
        tile_step(before, index, None, data, after),
    ensures
        refilled(start, refill_cells(covered, end, (index + 1) as nat), data, after),
{
    let cells = refill_cells(covered, end, index as nat);
    let cells_next = refill_cells(covered, end, (index + 1) as nat);
    assert(cells_next =~= cells.push(index));
    assert(cells_next.drop_last() =~= cells);
    assert(tile_step(before, cells_next.last(), None, data, after));
}

/// A cell that is not refilled leaves the refill as it is.
proof fn lemma_refilled_skip(
    start: Map<u32, GroupValue>,
    covered: u32,
    end: usize,
    index: usize,
    groups: Map<u32, GroupValue>,
    data: Map<u32, u32>,
)
    requires
        index < 32,
        !(index != end && has_cell(covered, index as u32)),
        refilled(start, refill_cells(covered, end, index as nat), data, groups),
    ensures
        refilled(start, refill_cells(covered, end, (index + 1) as nat), data, groups),
{
    assert(refill_cells(covered, end, (index + 1) as nat) =~= refill_cells(covered, end, index as nat));
}

/// The score after joining the group `covered` of number `value`: the
/// group's size times its number is added, wrapping at 2^32.
pub open spec fn joined_score(score: u32, covered: u32, value: u32) -> u32 {
    vstd::wrapping::u32_specs::wrapping_add(
        score,
        vstd::wrapping::u32_specs::wrapping_mul(cell_count(covered) as u32, value),
    )
}

/// What a group of the position after a join satisfies: it is a group from
/// before that shares no cell with the joined group (with its old value),
/// or it holds a cell of the join or its end cell and is that cell alone or a
/// key of the action data with a known number.
pub open spec fn after_join_group(
    k: u32,
    v: GroupValue,
    covered: u32,
    end: usize,
    groups: Map<u32, GroupValue>,
    data: Map<u32, u32>,
) -> bool {
    ||| groups.contains_key(k) && k & covered == 0 && v == groups[k]
    ||| exists|c: u32|
        (has_cell(covered, c) || c == end as u32) && #[trigger] has_cell(k, c) && (k == 1u32 << c || (
        data.contains_key(k) && v is Some))
}

impl<'a> LucidState<'a> {
    /// The position after joining the group `covered` of number `value` into
    /// cell `end`: the score grows by the group's size times its number (wrapping
    /// at 2^32), the groups that share a cell with it go, `end` gets the new
    /// number and the other cells of the group, in increasing order, become
    /// refilled cells of unknown number; one move deeper.
    #[verifier::rlimit(90)]
    pub fn next(&self, covered: u32, value: u32, end: usize) -> (res: LucidState<'a>)
        requires
            end < 32,
            self.depth < u32::MAX,
        ensures
            res.data == self.data,
            res.depth == self.depth + 1,
            res.score == joined_score(self.score, covered, value),
            forall|k: u32|
                #![trigger self.actions@[k]]
                self.actions@.contains_key(k) && k & covered == 0 && !has_cell(k, end as u32)
                    ==> res.actions@.contains_key(k) && res.actions@[k] == self.actions@[k],
            forall|k: u32|
                #[trigger] res.actions@.contains_key(k) ==> after_join_group(
                    k,
                    res.actions@[k],
                    covered,
                    end,
                    self.actions@,
                    self.data@,
                ),
            exists|joined_end: Map<u32, GroupValue>|
                #![trigger refilled(joined_end, refill_cells(covered, end, 32), self.data@, res.actions@)]
                {
                    &&& tile_step(
                        untouched(self.actions@, covered),
                        end,
                        Some(
                            (
                                vstd::wrapping::u32_specs::wrapping_mul(cell_count(covered) as u32, value),
                                false,
                            ),
                        ),
                        self.data@,
                        joined_end,
                    )
                    &&& refilled(joined_end, refill_cells(covered, end, 32), self.data@, res.actions@)
                },
            !self.actions@.contains_key(0) && has_cell(covered, end as u32) ==> {
                &&& res.actions@.contains_key(1u32 << (end as u32))
                &&& res.actions@[1u32 << (end as u32)] == Some(
                    (vstd::wrapping::u32_specs::wrapping_mul(cell_count(covered) as u32, value), false),
                )
                &&& forall|c: u32|
                    #![trigger has_cell(covered, c)]
                    has_cell(covered, c) && c != end as u32 ==> res.actions@.contains_key(1u32 << c)
                        && res.actions@[1u32 << c] is None
            },
            refill_marked(self.actions@) && has_cell(covered, end as u32) ==> refill_marked(
                res.actions@,
            ),
            keys_in_data(self.actions@, self.data@) && paths_keyed(self.data@)
                && self.actions@.contains_key(covered) && has_cell(covered, end as u32)
                ==> keys_in_data(res.actions@, self.data@),
            !self.actions@.contains_key(0) && has_cell(covered, end as u32) && 1
                <= vstd::wrapping::u32_specs::wrapping_mul(cell_count(covered) as u32, value) <= 3
                ==> forall|c: u32|
                #![trigger has_cell(covered, c)]
                has_cell(covered, c) && c != end as u32 && self.data@.contains_key(
                    (1u32 << (end as u32)) | (1u32 << c),
                ) ==> res.actions@.contains_key((1u32 << (end as u32)) | (1u32 << c)),
    {
        let ghost groups = self.actions@;
        let ghost d = self.data@;
        let count = crate::cells::count_cells(covered);
        let new_value = count.wrapping_mul(value);
        let mut kept: HashMap<u32, GroupValue> = HashMap::new();
        for (k, v) in it: self.actions.iter()
            invariant
                it.seq() == vstd::std_specs::hash::spec_hash_map_iter(&self.actions).remaining(),
                groups == self.actions@,
                forall|key: u32|
                    #[trigger] kept@.contains_key(key) ==> groups.contains_key(key) && key & covered
                        == 0 && kept@[key] == groups[key],
                forall|j: int|
                    0 <= j < it.index() && *it.seq()[j].0 & covered == 0 ==> #[trigger] kept@.contains_key(
                        *it.seq()[j].0,
                    ),
        {
            proof {
                broadcast use vstd::std_specs::hash::axiom_spec_hash_map_iter;
                assert(it.seq().contains(it.seq()[it.index()]));
            }
            if *k & covered == 0 {
                kept.insert(*k, *v);
            }
        }
        proof {
            broadcast use vstd::std_specs::hash::axiom_spec_hash_map_iter;
            let r = vstd::std_specs::hash::spec_hash_map_iter(&self.actions).remaining();
            assert forall|key: u32| #[trigger] groups.contains_key(key) && key & covered == 0 implies kept@.contains_key(key) by {
                assert(r.contains((&key, &groups[key])));
                let j = choose|j: int| 0 <= j < r.len() && r[j] == (&key, &groups[key]);
                assert(*r[j].0 == key);
            }
        }
        let mut new_state = LucidState {
            actions: kept,
            score: self.score.wrapping_add(new_value),
            data: self.data,
            depth: self.depth,
        };
        let ghost free_start = !groups.contains_key(0) && has_cell(covered, end as u32);
        proof {
            crate::cells::lemma_disjoint(0, covered);
            if free_start {
                assert forall|g: u32| #[trigger] new_state.actions@.contains_key(g) implies !has_cell(g, end as u32) by {
                    crate::cells::lemma_disjoint(g, covered);
                }
            }
        }
        let ghost kept_map = new_state.actions@;
        assert(kept_map =~= untouched(groups, covered));
        new_state.set_tile(end, Some((new_value, false)));
        let ghost joined_end = new_state.actions@;
        assert(refill_cells(covered, end, 0) =~= Seq::<usize>::empty());
        proof {
            let after = new_state.actions@;
            assert forall|k: u32| #[trigger] after.contains_key(k) implies after_join_group(
                k,
                after[k],
                covered,
                end,
                groups,
                d,
            ) by {
                if kept_map.contains_key(k) && after[k] == kept_map[k] {
                } else {
                    assert(tile_group(k, after[k], end, kept_map, d));
                }
            }
            if free_start {
                assert(!after.contains_key(0)) by {
                    if after.contains_key(0) {
                        assert(tile_group(0, after[0], end, kept_map, d));
                        crate::cells::lemma_empty(end as u32);
                    }
                }
                assert forall|c: u32, k: u32|
                    has_cell(covered, c) && c != end as u32 && after.contains_key(k) implies !has_cell(k, c) by {
                    if kept_map.contains_key(k) && after[k] == kept_map[k] {
                        crate::cells::lemma_disjoint(k, covered);
                    } else {
                        assert(tile_group(k, after[k], end, kept_map, d));
                        if has_cell(k, c) {
                            assert(covers_from(k, end, kept_map));
                            let g = choose|g: u32| kept_map.contains_key(g) && #[trigger] has_cell(g, c);
                            crate::cells::lemma_disjoint(g, covered);
                        }
                    }
                }
            }
        }
        let mut index: usize = 0;
        while index < 32
            invariant
                index <= 32,
                end < 32,
                groups == self.actions@,
                d == self.data@,
                new_state.data == self.data,
                new_state.depth == self.depth,
                new_state.score == self.score.wrapping_add(new_value),
                new_value == vstd::wrapping::u32_specs::wrapping_mul(count, value),
                free_start == (!groups.contains_key(0) && has_cell(covered, end as u32)),
                tile_step(
                    untouched(groups, covered),
                    end,
                    Some((new_value, false)),
                    d,
                    joined_end,
                ),
                refilled(joined_end, refill_cells(covered, end, index as nat), d, new_state.actions@),
                forall|k: u32|
                    groups.contains_key(k) && k & covered == 0 && !has_cell(k, end as u32)
                        ==> #[trigger] new_state.actions@.contains_key(k) && new_state.actions@[k] == groups[k],
                forall|k: u32|
                    #[trigger] new_state.actions@.contains_key(k) ==> after_join_group(
                        k,
                        new_state.actions@[k],
                        covered,
                        end,
                        groups,
                        d,
                    ),
                free_start ==> {
                    &&& !new_state.actions@.contains_key(0)
                    &&& new_state.actions@.contains_key(1u32 << (end as u32))
                    &&& new_state.actions@[1u32 << (end as u32)] == Some((new_value, false))
                    &&& forall|c: u32|
                        #![trigger has_cell(covered, c)]
                        has_cell(covered, c) && c != end as u32 && c < index ==> new_state.actions@.contains_key(1u32 << c)
                            && new_state.actions@[1u32 << c] is None
                    &&& forall|c: u32, k: u32|
                        #![trigger has_cell(covered, c), new_state.actions@.contains_key(k)]
                        has_cell(covered, c) && c != end as u32 && c >= index
                            && new_state.actions@.contains_key(k) ==> !has_cell(k, c)
                    &&& 1 <= new_value <= 3 ==> forall|c: u32|
                        #![trigger has_cell(covered, c)]
                        has_cell(covered, c) && c != end as u32 && c < index && d.contains_key(
                            (1u32 << (end as u32)) | (1u32 << c),
                        ) ==> new_state.actions@.contains_key((1u32 << (end as u32)) | (1u32 << c))
                },
            decreases 32 - index,
        {
            if index != end && crate::cells::holds_cell(covered, index) {
                let ghost before = new_state.actions@;
                let ghost c0 = index as u32;
                assert forall|k: u32|
                    groups.contains_key(k) && k & covered == 0 && !has_cell(k, end as u32)
                        implies #[trigger] before.contains_key(k) && before[k] == groups[k] by {
                    assert(new_state.actions@.contains_key(k));
                }

                proof {
                    if free_start {
                        assert(cell_free(before, index));
                    }
                }
                new_state.set_tile(index, None);
                proof {
                    let after = new_state.actions@;
                    lemma_refilled_step(joined_end, covered, end, index, before, after, d);
                    assert forall|k: u32|
                        groups.contains_key(k) && k & covered == 0 && !has_cell(k, end as u32)
                            implies #[trigger] after.contains_key(k) && after[k] == groups[k] by {
                        crate::cells::lemma_disjoint(k, covered);
                        assert(has_cell(covered, c0));
                        assert(!has_cell(k, c0));
                        assert(before.contains_key(k));
                        assert(after.contains_key(k));
                        assert(after[k] == before[k]);
                    }
                    assert forall|k: u32| #[trigger] after.contains_key(k) implies after_join_group(
                        k,
                        after[k],
                        covered,
                        end,
                        groups,
                        d,
                    ) by {
                        if before.contains_key(k) && after[k] == before[k] {
                        } else {
                            assert(tile_group(k, after[k], index, before, d));
                        }
                    }
                    if free_start {
                        crate::cells::lemma_single(end as u32, c0);
                        assert(after.contains_key(1u32 << (end as u32)));
                        assert(after[1u32 << (end as u32)] == Some((new_value, false)));
                        assert(!after.contains_key(0)) by {
                            if after.contains_key(0) {
                                assert(tile_group(0, after[0], index, before, d));
                                crate::cells::lemma_empty(c0);
                            }
                        }
                        assert forall|c: u32|
                            #![trigger has_cell(covered, c)]
                            has_cell(covered, c) && c != end as u32 && c < index + 1
                                implies after.contains_key(1u32 << c) && after[1u32 << c] is None by {
                            if c < index {
                                crate::cells::lemma_single(c, c0);
                                assert(before.contains_key(1u32 << c));
                            }
                        }
                        if 1 <= new_value <= 3 {
                            assert(before.contains_key(1u32 << (end as u32)));
                            assert(joined(before[1u32 << (end as u32)], None) is Some);
                            assert forall|c: u32|
                                #![trigger has_cell(covered, c)]
                                has_cell(covered, c) && c != end as u32 && c < index + 1 && d.contains_key(
                                    (1u32 << (end as u32)) | (1u32 << c),
                                ) implies after.contains_key((1u32 << (end as u32)) | (1u32 << c)) by {
                                if c < index {
                                    assert(before.contains_key((1u32 << (end as u32)) | (1u32 << c)));
                                } else {
                                    assert(c == c0);
                                }
                            }
                        }
                        assert forall|c: u32, k: u32|
                            #![trigger has_cell(covered, c), after.contains_key(k)]
                            has_cell(covered, c) && c != end as u32 && c >= index + 1
                                && after.contains_key(k) implies !has_cell(k, c) by {
                            if before.contains_key(k) && after[k] == before[k] {
                            } else {
                                assert(tile_group(k, after[k], index, before, d));
                                if has_cell(k, c) {
                                    assert(covers_from(k, index, before));
                                    let g = choose|g: u32| before.contains_key(g) && #[trigger] has_cell(g, c);
                                }
                            }
                        }
                    }
                }
            }
            else {
                proof {
                    lemma_refilled_skip(joined_end, covered, end, index, new_state.actions@, d);
                }
            }
            index = index + 1;
        }
        new_state.depth = new_state.depth + 1;
        assert(count == cell_count(covered));
        proof {
            if keys_in_data(groups, d) && paths_keyed(d) && groups.contains_key(covered) && has_cell(
                covered,
                end as u32,
            ) {
                lemma_join_keeps_keys(groups, new_state.actions@, covered, end, d);
            }
            if refill_marked(groups) && has_cell(covered, end as u32) {
                crate::marks::lemma_join_keeps_marks(
                    groups,
                    covered,
                    end,
                    new_value,
                    d,
                    joined_end,
                    new_state.actions@,
                );
            }
        }
        new_state
    }
}

/// The joins a position weighs, for the groups in the order `order`: each
/// group of two or more cells with a known number, with the value `vals`
/// gives at its place, the group and its number.
pub open spec fn joins_of(order: Seq<(u32, GroupValue)>, vals: Seq<u32>) -> Seq<(u32, u32, u32)>
    decreases order.len(),
{
    if order.len() == 0 || vals.len() == 0 {
        Seq::empty()
    } else {
        let prev = joins_of(order.drop_last(), vals.drop_last());
        let (k, v) = order.last();
        if cell_count(k) > 1 {
            match v {
                Some((n, _)) => prev.push((vals.last(), k, n)),
                None => prev,
            }
        } else {
            prev
        }
    }
}

/// The refilled cells of a position, for the groups in the order `order`:
/// each group of at most one cell of unknown number gives its cell, which
/// may hold 1, 2 or 3.
pub open spec fn wildcards_of(order: Seq<(u32, GroupValue)>) -> Seq<(usize, u32)>
    decreases order.len(),
{
    if order.len() == 0 {
        Seq::empty()
    } else {
        let prev = wildcards_of(order.drop_last());
        let (k, v) = order.last();
        if cell_count(k) <= 1 && v is None {
            prev.push((crate::cells::lowest(k), 0b1110u32))
        } else {
            prev
        }
    }
}

/// `s` lists the entries of map `m` in some order, each once.
pub open spec fn is_ordering(m: Map<u32, GroupValue>, s: Seq<(u32, GroupValue)>) -> bool {
    s.to_set() == m.kv_pairs() && s.no_duplicates()
}

/// The score plus, for each entry of `s` whose group has a known number and
/// no refilled cell, the group's size times its number; wrapping at 2^32.
pub open spec fn leaf_sum(s: Seq<(u32, GroupValue)>, score: u32) -> u32
    decreases s.len(),
{
    if s.len() == 0 {
        score
    } else {
        let t = leaf_sum(s.drop_last(), score);
        match s.last().1 {
            Some((v, false)) => vstd::wrapping::u32_specs::wrapping_add(
                t,
                vstd::wrapping::u32_specs::wrapping_mul(cell_count(s.last().0) as u32, v),
            ),
            _ => t,
        }
    }
}

/// Joining keeps a position's groups fitting the action data: every group
/// of two or more cells stays a key of the data with a known number.
pub proof fn lemma_join_keeps_fit(
    groups: Map<u32, GroupValue>,
    after: Map<u32, GroupValue>,
    covered: u32,
    end: usize,
    data: Map<u32, u32>,
)
    requires
        groups_fit(groups, data),
        forall|k: u32|
            #[trigger] after.contains_key(k) ==> after_join_group(
                k,
                after[k],
                covered,
                end,
                groups,
                data,
            ),
    ensures
        groups_fit(after, data),
{
    assert forall|k: u32| #[trigger] after.contains_key(k) implies (cell_count(k) > 1
        ==> data.contains_key(k) && after[k] is Some) && (after[k] is None ==> k != 0) by {
        assert(after_join_group(k, after[k], covered, end, groups, data));
        if groups.contains_key(k) && k & covered == 0 && after[k] == groups[k] {
        } else {
            let c = choose|c: u32|
                (has_cell(covered, c) || c == end as u32) && #[trigger] has_cell(k, c) && (k == 1u32
                    << c || (data.contains_key(k) && after[k] is Some));
            crate::cells::lemma_empty(c);
            if k == 1u32 << c {
                assert(c < 32);
                crate::cells::lemma_single_count(c);
            }
        }
    }
}

/// A join keeps every group a key of the action data: the groups that stay
/// were keys, the cells of the joined group come back as one-cell groups,
/// which paths of one cell cover, and every other new group is a key.
pub proof fn lemma_join_keeps_keys(
    groups: Map<u32, GroupValue>,
    after: Map<u32, GroupValue>,
    covered: u32,
    end: usize,
    data: Map<u32, u32>,
)
    requires
        keys_in_data(groups, data),
        paths_keyed(data),
        groups.contains_key(covered),
        has_cell(covered, end as u32),
        forall|k: u32|
            #[trigger] after.contains_key(k) ==> after_join_group(
                k,
                after[k],
                covered,
                end,
                groups,
                data,
            ),
    ensures
        keys_in_data(after, data),
{
    let p = choose|p: Seq<usize>| #[trigger] short_paths().contains(p) && path_mask(p) == covered;
    assert forall|k: u32| #[trigger] after.contains_key(k) implies data.contains_key(k) by {
        assert(after_join_group(k, after[k], covered, end, groups, data));
        if !(groups.contains_key(k) && k & covered == 0 && after[k] == groups[k]) {
            let c = choose|c: u32|
                (has_cell(covered, c) || c == end as u32) && #[trigger] has_cell(k, c) && (k == 1u32
                    << c || (data.contains_key(k) && after[k] is Some));
            if k == 1u32 << c && !data.contains_key(k) {
                assert(has_cell(covered, c));
                lemma_path_mask(p, c);
                let j = choose|j: int| 0 <= j < p.len() && p[j] == c as usize;
                assert(p[j] < 25);
                let q = seq![c as usize];
                crate::paths::lemma_single_is_path(grid_table(), c as usize);
                assert(q.drop_last().len() == 0);
                assert(path_mask(q.drop_last()) == 0u32);
                assert(q.last() as u32 == c);
                assert(path_mask(q) == 0u32 | (1u32 << c));
                assert(0u32 | (1u32 << c) == 1u32 << c) by (bit_vector);
                assert(short_paths().contains(q));
            }
        }
    }
}

impl<'a> LucidState<'a> {
    /// The best value reachable by joining group `covered` of number
    /// `value`, over every cell the join can end on, in increasing order.
    #[verifier::rlimit(30)]
    fn action_value(&self, covered: u32, value: u32, store: &mut Memo) -> (res: u32)
        requires
            old(store).wf(),
            groups_fit(self.actions@, self.data@),
            self.data@.contains_key(covered),
            self.depth <= 3,
        ensures
            final(store).wf(),
            action_valued(
                self.actions@,
                self.score,
                self.depth as nat,
                self.data@,
                covered,
                value,
                old(store)@,
                final(store)@,
                res,
            ),
        decreases 4 - self.depth, 0int,
    {
        let ghost groups = self.actions@;
        let ghost d = self.data@;
        let ghost depth = self.depth as nat;
        let ends: u32 = match self.data.get(&covered) {
            Some(e) => *e,
            None => 0,
        };
        let mut max_value: u32 = 0;
        let mut end: usize = 0;
        let ghost mut steps: Seq<ChildStep> = Seq::empty();
        assert(cells_of(ends, 0) =~= Seq::<usize>::empty());
        assert(step_values(steps) =~= Seq::<u32>::empty());
        while end < 32
            invariant
                end <= 32,
                groups == self.actions@,
                d == self.data@,
                depth == self.depth as nat,
                ends == d[covered],
                groups_fit(self.actions@, self.data@),
                self.depth <= 3,
                store.wf(),
                children_valued(
                    groups,
                    self.score,
                    depth,
                    d,
                    covered,
                    value,
                    cells_of(ends, end as nat),
                    old(store)@,
                    store@,
                    steps,
                ),
                max_value == max_of(step_values(steps)),
            decreases 32 - end,
        {
            if crate::cells::holds_cell(ends, end) {
                let child = self.next(covered, value, end);
                proof {
                    lemma_join_keeps_fit(self.actions@, child.actions@, covered, end, self.data@);
                    assert(joins_into(
                        groups,
                        self.score,
                        depth,
                        d,
                        covered,
                        value,
                        end,
                        child.actions@,
                        child.score,
                        child.depth as nat,
                    ));
                }
                let ghost before = store@;
                let v = child.state_value(store);
                proof {
                    lemma_child_step(
                        groups,
                        self.score,
                        depth,
                        d,
                        covered,
                        value,
                        cells_of(ends, end as nat),
                        old(store)@,
                        before,
                        store@,
                        steps,
                        end,
                        child.actions@,
                        child.score,
                        v,
                    );
                    steps = steps.push((child.actions@, child.score, v, before));
                    assert(cells_of(ends, (end + 1) as nat) =~= cells_of(ends, end as nat).push(end));
                }
                if v > max_value {
                    max_value = v;
                }
            } else {
                assert(cells_of(ends, (end + 1) as nat) =~= cells_of(ends, end as nat));
            }
            end = end + 1;
        }
        proof {
            assert(children_valued(
                groups,
                self.score,
                depth,
                d,
                covered,
                value,
                cells_of(d[covered], 32),
                old(store)@,
                store@,
                steps,
            ));
        }
        max_value
    }

    /// The value of this position. Four moves deep, the score plus each
    /// known group's size times its number. Above that, the value stored for
    /// this position's groups if there is one; else the values of joining
    /// each group of two or more cells, best first, weighed by how many
    /// numbers of the refilled cells allow them, over the number of ways the
    /// refilled cells can be filled; the result is stored. The groups are
    /// walked in the order of the hash map, and the value may depend on it
    /// (see `valued`).
    #[verifier::rlimit(30)]
    pub(crate) fn state_value(&self, store: &mut Memo) -> (res: u32)
        requires
            old(store).wf(),
            groups_fit(self.actions@, self.data@),
        ensures
            final(store).wf(),
            valued(
                self.actions@,
                self.score,
                self.depth as nat,
                self.data@,
                old(store)@,
                final(store)@,
                res,
            ),
        decreases 4 - self.depth, 1int,
    {
        if self.depth > 3 {
            let mut total = self.score;
            let ghost mut seen: Seq<(u32, GroupValue)> = Seq::empty();
            for (covered, value) in it: self.actions.iter()
                invariant
                    it.seq() == vstd::std_specs::hash::spec_hash_map_iter(&self.actions).remaining(),
                    seen == it.seq().take(it.index()).unref(),
                    total == leaf_sum(seen, self.score),
            {
                let ghost entry = (*covered, *value);
                if let Some((v, false)) = *value {
                    let count = crate::cells::count_cells(*covered);
                    total = total.wrapping_add(count.wrapping_mul(v));
                }
                proof {
                    let prev = seen;
                    seen = seen.push(entry);
                    assert(seen.drop_last() == prev);
                    assert(it.seq().take(it.index() + 1).unref() =~= seen);
                }
            }
            proof {
                broadcast use vstd::std_specs::hash::axiom_spec_hash_map_iter;
                let r = vstd::std_specs::hash::spec_hash_map_iter(&self.actions).remaining();
                assert(r.take(r.len() as int) =~= r);
                assert(is_ordering(self.actions@, seen));
                assert(leaf_sum(seen, self.score) == total);
            }
            return total;
        }
        let ghost groups = self.actions@;
        let ghost d = self.data@;
        let ghost depth = self.depth as nat;
        let key: Listing = self.create_key();
        if let Some(v) = store.get(&key) {
            assert(is_listing(groups, key@));
            return v;
        }
        let ghost start = store@;
        let mut value_actions: Vec<(u32, u32, u32)> = Vec::new();
        let mut wildcards: Vec<(usize, u32)> = Vec::new();
        let ghost mut seen: Seq<(u32, GroupValue)> = Seq::empty();
        let ghost mut vals: Seq<u32> = Seq::empty();
        let ghost mut tables: Seq<Table> = Seq::empty();
        for (covered, value) in it: self.actions.iter()
            invariant
                it.seq() == vstd::std_specs::hash::spec_hash_map_iter(&self.actions).remaining(),
                seen == it.seq().take(it.index()).unref(),
                vals.len() == seen.len(),
                value_actions@ == joins_of(seen, vals),
                wildcards@ == wildcards_of(seen),
                groups == self.actions@,
                d == self.data@,
                depth == self.depth as nat,
                groups_fit(self.actions@, self.data@),
                self.depth <= 3,
                store.wf(),
                start == old(store)@,
                groups_valued(groups, self.score, depth, d, seen, vals, start, store@, tables),
                is_listing(self.actions@, key@),
                forall|w: int| 0 <= w < wildcards@.len() ==> #[trigger] wildcards@[w].0 < 32,
        {
            let covered = *covered;
            let value = *value;
            proof {
                broadcast use vstd::std_specs::hash::axiom_spec_hash_map_iter;
                assert(it.seq().contains(it.seq()[it.index()]));
                assert(self.actions@.contains_key(covered));
            }
            let ghost before = store@;
            let ghost mut weight: u32 = 0;
            if crate::cells::count_cells(covered) > 1 {
                if let Some((number, _)) = value {
                    let score = self.action_value(covered, number, store);
                    proof {
                        weight = score;
                    }
                    value_actions.push((score, covered, number));
                }
            } else if value.is_none() {
                let cell = crate::cells::lowest_cell(covered);
                wildcards.push((cell, 0b1110u32));
            }
            proof {
                let prev_seen = seen;
                let prev_vals = vals;
                let prev_tables = tables;
                seen = seen.push((covered, value));
                vals = vals.push(weight);
                tables = tables.push(before);
                assert(seen.drop_last() =~= prev_seen);
                assert(vals.drop_last() =~= prev_vals);
                assert(tables.drop_last() =~= prev_tables);
                assert(it.seq().take(it.index() + 1).unref() =~= seen);
                assert(groups_valued(groups, self.score, depth, d, seen, vals, start, store@, tables));
            }
        }
        proof {
            broadcast use vstd::std_specs::hash::axiom_spec_hash_map_iter;
            let r = vstd::std_specs::hash::spec_hash_map_iter(&self.actions).remaining();
            assert(r.take(r.len() as int) =~= r);
            assert(is_ordering(self.actions@, seen));
        }
        let ghost joins = value_actions@;
        let ghost cells = wildcards@;
        let value_actions = sort_by_score(value_actions);
        let result = weigh(&value_actions, wildcards, self.score);
        let ghost mid = store@;
        store.insert(key, result);
        proof {
            let k = key@;
            assert(groups_valued(groups, self.score, depth, d, seen, vals, start, mid, tables));
            assert(is_listing(groups, k));
            assert(!start.contains_key(k));
            assert(result == weighed(by_value(joins_of(seen, vals)), wildcards_of(seen), self.score));
            assert(store@ == mid.insert(k, result));
            assert(tables.len() == seen.len());
        }
        result
    }
}

/// The groups of a board are exactly the paths of at most four cells that
/// `State::actions` lists, each holding the number on every one of its
/// cells, and none refilled.
pub proof fn lemma_groups_are_listed_paths(b: Seq<u32>, groups: Map<u32, GroupValue>)
    requires
        b.len() == 25,
        board_groups(b, groups),
    ensures
        forall|k: u32|
            #[trigger] groups.contains_key(k) <==> exists|q: Seq<usize>|
                paths_from(board_table(b), 25).contains(q) && q.len() <= 4 && #[trigger] path_mask(q) == k,
        forall|k: u32, c: u32|
            groups.contains_key(k) && #[trigger] has_cell(k, c) ==> groups[k] == Some(
                (b[c as int], false),
            ),
{
    let t = board_table(b);
    crate::board::lemma_board_table_valid(b);
    assert forall|k: u32| #[trigger] groups.contains_key(k) <==> exists|q: Seq<usize>|
        paths_from(t, 25).contains(q) && q.len() <= 4 && #[trigger] path_mask(q) == k by {
        if groups.contains_key(k) {
            let q = choose|q: Seq<usize>| is_path(t, q) && q.len() <= 4 && #[trigger] path_mask(q) == k;
            lemma_paths_from(t, 25, q);
            assert(paths_from(t, 25).contains(q));
        }
        if exists|q: Seq<usize>| paths_from(t, 25).contains(q) && q.len() <= 4 && #[trigger] path_mask(q) == k {
            let q = choose|q: Seq<usize>| paths_from(t, 25).contains(q) && q.len() <= 4 && #[trigger] path_mask(q) == k;
            lemma_paths_from(t, 25, q);
        }
    }
    assert forall|k: u32, c: u32| groups.contains_key(k) && #[trigger] has_cell(k, c) implies groups[k]
        == Some((b[c as int], false)) by {
        let q = choose|q: Seq<usize>| is_path(t, q) && q.len() <= 4 && #[trigger] path_mask(q) == k;
        assert(groups[path_mask(q)] == Some((b[q[0] as int], false)));
        lemma_path_mask(q, c);
        assert(c < 32);
        assert(q.contains(c as usize));
        lemma_board_path_equal(b, q, c as usize);
    }
}

/// What an entry adds to a leaf sum, before wrapping.
pub open spec fn leaf_term(e: (u32, GroupValue)) -> int {
    match e.1 {
        Some((v, false)) => vstd::wrapping::u32_specs::wrapping_mul(cell_count(e.0) as u32, v) as int,
        _ => 0,
    }
}

/// The terms of the entries of `s`, added without wrapping.
pub open spec fn leaf_total(s: Seq<(u32, GroupValue)>) -> int
    decreases s.len(),
{
    if s.len() == 0 {
        0
    } else {
        leaf_total(s.drop_last()) + leaf_term(s.last())
    }
}

/// A leaf sum is the score plus the terms, wrapped once at the end.
proof fn lemma_leaf_sum_total(s: Seq<(u32, GroupValue)>, score: u32)
    ensures
        leaf_sum(s, score) as int == (score + leaf_total(s)) % 0x1_0000_0000,
        leaf_total(s) >= 0,
    decreases s.len(),
{
    if s.len() > 0 {
        lemma_leaf_sum_total(s.drop_last(), score);
        let prev = leaf_sum(s.drop_last(), score) as int;
        let a = score + leaf_total(s.drop_last());
        let t = leaf_term(s.last());
        assert(0 <= t < 0x1_0000_0000);
        vstd::arithmetic::div_mod::lemma_add_mod_noop(a, t, 0x1_0000_0000);
        vstd::arithmetic::div_mod::lemma_small_mod(t as nat, 0x1_0000_0000);
        vstd::arithmetic::div_mod::lemma_mod_twice(a, 0x1_0000_0000);
        assert(prev == a % 0x1_0000_0000);
        vstd::arithmetic::div_mod::lemma_add_mod_noop(prev, t, 0x1_0000_0000);
        vstd::arithmetic::div_mod::lemma_small_mod(prev as nat, 0x1_0000_0000);
        assert((prev + t) % 0x1_0000_0000 == (a + t) % 0x1_0000_0000);
    }
}

/// Taking out one entry takes out its term.
proof fn lemma_leaf_total_remove(s: Seq<(u32, GroupValue)>, j: int)
    requires
        0 <= j < s.len(),
    ensures
        leaf_total(s) == leaf_total(s.remove(j)) + leaf_term(s[j]),
    decreases s.len(),
{
    if j == s.len() - 1 {
        assert(s.remove(j) =~= s.drop_last());
    } else {
        lemma_leaf_total_remove(s.drop_last(), j);
        assert(s.remove(j).drop_last() =~= s.drop_last().remove(j));
        assert(s.remove(j).last() == s.last());
    }
}

/// Two orders of the same entries, each once, have the same total.
proof fn lemma_leaf_total_orders(s1: Seq<(u32, GroupValue)>, s2: Seq<(u32, GroupValue)>)
    requires
        s1.no_duplicates(),
        s2.no_duplicates(),
        s1.to_set() == s2.to_set(),
    ensures
        leaf_total(s1) == leaf_total(s2),
    decreases s1.len(),
{
    if s1.len() == 0 {
        if s2.len() > 0 {
            assert(s2.to_set().contains(s2[0]));
        }
    } else {
        let x = s1.last();
        assert(s1.to_set().contains(x));
        let j = choose|j: int| 0 <= j < s2.len() && s2[j] == x;
        let t1 = s1.drop_last();
        let t2 = s2.remove(j);
        assert(t2.no_duplicates()) by {
            assert forall|a: int, b: int| 0 <= a < b < t2.len() implies t2[a] != t2[b] by {
                let ia = if a < j { a } else { a + 1 };
                let ib = if b < j { b } else { b + 1 };
                assert(t2[a] == s2[ia] && t2[b] == s2[ib]);
            }
        }
        assert(t1.to_set() =~= t2.to_set()) by {
            assert forall|y: (u32, GroupValue)| t1.to_set().contains(y) implies t2.to_set().contains(y) by {
                let a = choose|a: int| 0 <= a < t1.len() && t1[a] == y;
                assert(s1[a] == y);
                assert(y != x);
                assert(s1.to_set().contains(y));
                let b = choose|b: int| 0 <= b < s2.len() && s2[b] == y;
                assert(b != j);
                if b < j {
                    assert(t2[b] == y);
                } else {
                    assert(t2[b - 1] == y);
                }
            }
            assert forall|y: (u32, GroupValue)| t2.to_set().contains(y) implies t1.to_set().contains(y) by {
                let b = choose|b: int| 0 <= b < t2.len() && t2[b] == y;
                let ib = if b < j { b } else { b + 1 };
                assert(s2[ib] == y);
                assert(ib != j);
                assert(y != x);
                assert(s2.to_set().contains(y));
                let a = choose|a: int| 0 <= a < s1.len() && s1[a] == y;
                assert(a != s1.len() - 1);
                assert(t1[a] == y);
            }
        }
        lemma_leaf_total_orders(t1, t2);
        lemma_leaf_total_remove(s2, j);
    }
}

/// The leaf value of a position does not depend on the order its groups are
/// walked in.
pub proof fn lemma_leaf_sum_orders(
    m: Map<u32, GroupValue>,
    s1: Seq<(u32, GroupValue)>,
    s2: Seq<(u32, GroupValue)>,
    score: u32,
)
    requires
        is_ordering(m, s1),
        is_ordering(m, s2),
    ensures
        leaf_sum(s1, score) == leaf_sum(s2, score),
{
    lemma_leaf_total_orders(s1, s2);
    lemma_leaf_sum_total(s1, score);
    lemma_leaf_sum_total(s2, score);
}

} // verus!
