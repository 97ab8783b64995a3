//! What the refilled flag of a look-ahead group means, and the proof that
//! building a position and joining a group keep that meaning.
//!
//! A refilled cell is one whose number is not known yet: the group of that
//! cell alone holds no number. A group with a number carries a flag, set
//! exactly when one of its cells is refilled; no group holds two refilled
//! cells.
use vstd::prelude::*;
use crate::cells::{has_cell, lemma_disjoint, lemma_empty, lemma_nonzero_has_cell, lemma_single, lemma_union};
use crate::lucid::{
    cell_alone, grown, is_ordering, join_round, joined, refill_cells, refilled, rounds_walk_all,
    tile_step, untouched, GroupValue,
};

verus! {

/// Cell `c` is refilled: the group of that cell alone holds no number.
pub open spec fn refilled_cell(groups: Map<u32, GroupValue>, c: u32) -> bool {
    groups.contains_key(1u32 << c) && groups[1u32 << c] is None
}

/// The refilled cells of a position.
pub open spec fn refilled_cells(groups: Map<u32, GroupValue>) -> Set<u32> {
    Set::new(|c: u32| c < 32 && refilled_cell(groups, c))
}

/// What the value `v` of group `k` says, with `r` the refilled cells: a
/// group without a number is a refilled cell alone; a group with a number
/// has its flag set exactly when it holds a refilled cell, and holds at
/// most one.
pub open spec fn marked(k: u32, v: GroupValue, r: Set<u32>) -> bool {
    match v {
        None => exists|c: u32| c < 32 && k == 1u32 << c && #[trigger] r.contains(c),
        Some((_, f)) => {
            &&& (f <==> exists|c: u32| #[trigger] has_cell(k, c) && r.contains(c))
            &&& forall|c: u32, d: u32|
                #[trigger] has_cell(k, c) && #[trigger] has_cell(k, d) && r.contains(c) && r.contains(
                    d,
                ) ==> c == d
        },
    }
}

/// The flags of a position tell its refilled cells, and no group is empty.
pub open spec fn refill_marked(groups: Map<u32, GroupValue>) -> bool {
    &&& !groups.contains_key(0)
    &&& forall|k: u32| #[trigger]
        groups.contains_key(k) ==> marked(k, groups[k], refilled_cells(groups))
}

/// Every cell of every group lies in `s`.
pub open spec fn within(groups: Map<u32, GroupValue>, s: Set<u32>) -> bool {
    forall|k: u32, c: u32| #[trigger] groups.contains_key(k) && #[trigger] has_cell(k, c) ==> s.contains(c)
}

/// A group that the cell `index` forms: it holds the cell, and its other
/// cells lie in `s`.
pub open spec fn holds_new_cell(k: u32, index: u32, s: Set<u32>) -> bool {
    &&& has_cell(k, index)
    &&& forall|c: u32| #[trigger] has_cell(k, c) ==> c == index || s.contains(c)
}

/// A group of the position before the cell `index` is set: not empty,
/// without the cell, and with its cells in `s`.
pub open spec fn holds_old_cells(k: u32, index: u32, s: Set<u32>) -> bool {
    &&& k != 0
    &&& !has_cell(k, index)
    &&& forall|c: u32| #[trigger] has_cell(k, c) ==> s.contains(c)
}

/// A marking only depends on what it says of the group's own cells.
proof fn lemma_marked_local(k: u32, v: GroupValue, r1: Set<u32>, r2: Set<u32>)
    requires
        marked(k, v, r1),
        forall|c: u32| #[trigger] has_cell(k, c) ==> (r1.contains(c) == r2.contains(c)),
    ensures
        marked(k, v, r2),
{
    match v {
        None => {
            let c = choose|c: u32| c < 32 && k == 1u32 << c && #[trigger] r1.contains(c);
            lemma_single(c, c);
            assert(has_cell(k, c));
            assert(r2.contains(c));
        },
        Some((_, f)) => {
            if f {
                let c = choose|c: u32| #[trigger] has_cell(k, c) && r1.contains(c);
                assert(has_cell(k, c) && r2.contains(c));
            }
        },
    }
}

/// Two groups that join give a group whose value is marked too.
proof fn lemma_join_marked(a: u32, av: GroupValue, b: u32, bv: GroupValue, r: Set<u32>)
    requires
        marked(a, av, r),
        marked(b, bv, r),
        joined(av, bv) is Some,
    ensures
        marked(a | b, joined(av, bv).unwrap(), r),
{
    let u = a | b;
    assert forall|c: u32| #[trigger] has_cell(u, c) == (has_cell(a, c) || has_cell(b, c)) by {
        lemma_union(a, b, c);
    }
    match (av, bv) {
        (Some((v, x)), Some((w, y))) => {
            if x {
                let c = choose|c: u32| #[trigger] has_cell(a, c) && r.contains(c);
                assert(has_cell(u, c));
            }
            if y {
                let c = choose|c: u32| #[trigger] has_cell(b, c) && r.contains(c);
                assert(has_cell(u, c));
            }
        },
        (Some((v, x)), None) => {
            let c0 = choose|c: u32| c < 32 && b == 1u32 << c && #[trigger] r.contains(c);
            assert forall|d: u32| #[trigger] has_cell(b, d) == (d == c0) by {
                lemma_single(c0, d);
            }
            assert(has_cell(u, c0));
        },
        (None, Some((w, y))) => {
            let c0 = choose|c: u32| c < 32 && a == 1u32 << c && #[trigger] r.contains(c);
            assert forall|d: u32| #[trigger] has_cell(a, d) == (d == c0) by {
                lemma_single(c0, d);
            }
            assert(has_cell(u, c0));
        },
        (None, None) => {},
    }
}

/// Every group one round of joins adds is marked and is formed by the cell.
proof fn lemma_join_round_marked(
    covered: u32,
    gv: GroupValue,
    inner: Seq<(u32, GroupValue)>,
    data: Map<u32, u32>,
    r: Set<u32>,
    s: Set<u32>,
    index: u32,
)
    requires
        index < 32,
        marked(covered, gv, r),
        holds_old_cells(covered, index, s),
        forall|j: int|
            0 <= j < inner.len() ==> marked(inner[j].0, inner[j].1, r) && holds_new_cell(
                #[trigger] inner[j].0,
                index,
                s,
            ),
    ensures
        forall|k: u32| #[trigger]
            join_round(covered, gv, inner, data).contains_key(k) ==> {
                &&& marked(k, join_round(covered, gv, inner, data)[k], r)
                &&& holds_new_cell(k, index, s)
                &&& k != 1u32 << index
            },
    decreases inner.len(),
{
    if inner.len() > 0 {
        let rest = inner.drop_last();
        assert forall|j: int| 0 <= j < rest.len() implies marked(rest[j].0, rest[j].1, r)
            && holds_new_cell(#[trigger] rest[j].0, index, s) by {
            assert(rest[j] == inner[j]);
            assert(holds_new_cell(inner[j].0, index, s));
        }
        lemma_join_round_marked(covered, gv, rest, data, r, s, index);
        let (lk, lv) = inner.last();
        assert(holds_new_cell(inner[inner.len() - 1].0, index, s));
        let u = covered | lk;
        if joined(gv, lv) is Some && data.contains_key(u) {
            lemma_join_marked(covered, gv, lk, lv, r);
            lemma_nonzero_has_cell(covered);
            let c0 = choose|c: u32| #[trigger] has_cell(covered, c);
            lemma_union(covered, lk, c0);
            lemma_union(covered, lk, index);
            lemma_single(index, c0);
            assert forall|c: u32| #[trigger] has_cell(u, c) implies c == index || s.contains(c) by {
                lemma_union(covered, lk, c);
            }
            assert(has_cell(u, index));
            assert(u != 1u32 << index) by {
                assert(has_cell(u, c0));
            }
            let prev = join_round(covered, gv, rest, data);
            assert(join_round(covered, gv, inner, data) == prev.insert(u, joined(gv, lv).unwrap()));
        } else {
            assert(join_round(covered, gv, inner, data) == join_round(covered, gv, rest, data));
        }
    }
}

/// Every group that growing from the cell alone forms is marked and is
/// formed by the cell, and the cell alone keeps its value.
proof fn lemma_grown_marked(
    order: Seq<(u32, GroupValue)>,
    inner: Seq<Seq<(u32, GroupValue)>>,
    start: Map<u32, GroupValue>,
    data: Map<u32, u32>,
    r: Set<u32>,
    s: Set<u32>,
    index: u32,
)
    requires
        index < 32,
        forall|j: int|
            0 <= j < order.len() ==> marked(order[j].0, order[j].1, r) && holds_old_cells(
                #[trigger] order[j].0,
                index,
                s,
            ),
        forall|k: u32| #[trigger]
            start.contains_key(k) ==> marked(k, start[k], r) && holds_new_cell(k, index, s),
        start.contains_key(1u32 << index),
        rounds_walk_all(order, inner, start, data),
    ensures
        forall|k: u32| #[trigger]
            grown(order, inner, start, data).contains_key(k) ==> marked(
                k,
                grown(order, inner, start, data)[k],
                r,
            ) && holds_new_cell(k, index, s),
        grown(order, inner, start, data).contains_key(1u32 << index),
        grown(order, inner, start, data)[1u32 << index] == start[1u32 << index],
    decreases order.len(),
{
    if order.len() > 0 && inner.len() > 0 {
        let n = order.len() - 1;
        let o2 = order.drop_last();
        let i2 = inner.drop_last();
        assert forall|j: int| 0 <= j < o2.len() implies marked(o2[j].0, o2[j].1, r)
            && holds_old_cells(#[trigger] o2[j].0, index, s) by {
            assert(o2[j] == order[j]);
            assert(holds_old_cells(order[j].0, index, s));
        }
        assert forall|i: int| 0 <= i < o2.len() implies is_ordering(
            grown(o2.take(i), i2.take(i), start, data),
            #[trigger] i2[i],
        ) by {
            assert(o2.take(i) =~= order.take(i));
            assert(i2.take(i) =~= inner.take(i));
            assert(i2[i] == inner[i]);
        }
        lemma_grown_marked(o2, i2, start, data, r, s, index);
        let before = grown(o2, i2, start, data);
        assert(order.take(n) =~= o2);
        assert(inner.take(n) =~= i2);
        let walk = inner[n];
        assert(is_ordering(before, walk));
        assert forall|j: int| 0 <= j < walk.len() implies marked(walk[j].0, walk[j].1, r)
            && holds_new_cell(#[trigger] walk[j].0, index, s) by {
            assert(walk.contains(walk[j]));
            assert(walk.to_set().contains(walk[j]));
            assert(before.kv_pairs().contains(walk[j]));
        }
        assert(holds_old_cells(order[n].0, index, s));
        lemma_join_round_marked(order[n].0, order[n].1, walk, data, r, s, index);
    }
}

/// Setting cell `index` to `value` (no number, or a number without the
/// flag) on a position whose flags tell its refilled cells, where the cell
/// is in no group, gives a position whose flags tell its refilled cells,
/// with the new groups' cells among the old ones and the cell.
pub proof fn lemma_tile_step_marked(
    groups: Map<u32, GroupValue>,
    index: usize,
    value: GroupValue,
    data: Map<u32, u32>,
    result: Map<u32, GroupValue>,
    s: Set<u32>,
)
    requires
        refill_marked(groups),
        within(groups, s),
        index < 32,
        !s.contains(index as u32),
        value matches Some((_, f)) ==> !f,
        tile_step(groups, index, value, data, result),
    ensures
        refill_marked(result),
        within(result, s.insert(index as u32)),
{
    let i = index as u32;
    let single = 1u32 << i;
    let start = cell_alone(index, value);
    let r = Set::new(
        |c: u32|
            c < 32 && (if c == i {
                value is None
            } else {
                refilled_cell(groups, c)
            }),
    );
    let (order, inner) = choose|order: Seq<(u32, GroupValue)>, inner: Seq<Seq<(u32, GroupValue)>>|
        {
            &&& is_ordering(groups, order)
            &&& rounds_walk_all(order, inner, cell_alone(index, value), data)
            &&& result == groups.union_prefer_right(
                grown(order, inner, cell_alone(index, value), data),
            )
        };
    assert forall|k: u32| #[trigger] groups.contains_key(k) implies marked(k, groups[k], r)
        && holds_old_cells(k, i, s) by {
        assert forall|c: u32| #[trigger] has_cell(k, c) implies (refilled_cells(groups).contains(c)
            == r.contains(c)) by {
            assert(s.contains(c));
        }
        lemma_marked_local(k, groups[k], refilled_cells(groups), r);
        if has_cell(k, i) {
            assert(s.contains(i));
        }
    }
    assert forall|j: int| 0 <= j < order.len() implies marked(order[j].0, order[j].1, r)
        && holds_old_cells(#[trigger] order[j].0, i, s) by {
        assert(order.contains(order[j]));
        assert(order.to_set().contains(order[j]));
        assert(groups.kv_pairs().contains(order[j]));
        assert(groups.contains_key(order[j].0));
    }
    assert forall|c: u32| #[trigger] has_cell(single, c) == (c == i) by {
        lemma_single(i, c);
    }
    assert forall|k: u32| #[trigger] start.contains_key(k) implies marked(k, start[k], r)
        && holds_new_cell(k, i, s) by {
        assert(k == single);
        match value {
            None => {
                assert(r.contains(i));
            },
            Some(_) => {},
        }
    }
    lemma_grown_marked(order, inner, start, data, r, s, i);
    let g = grown(order, inner, start, data);
    assert(refilled_cells(result) =~= r) by {
        assert forall|c: u32| c < 32 implies (refilled_cell(result, c) == r.contains(c)) by {
            if c != i {
                lemma_single(c, i);
                if g.contains_key(1u32 << c) {
                    assert(holds_new_cell(1u32 << c, i, s));
                }
            }
        }
    }
    assert forall|k: u32| #[trigger] result.contains_key(k) implies marked(
        k,
        result[k],
        refilled_cells(result),
    ) by {
        if g.contains_key(k) {
            assert(marked(k, g[k], r));
        } else {
            assert(marked(k, groups[k], r));
        }
    }
    assert(!result.contains_key(0)) by {
        if g.contains_key(0) {
            assert(holds_new_cell(0, i, s));
            lemma_empty(i);
        }
    }
    assert forall|k: u32, c: u32| #[trigger] result.contains_key(k) && #[trigger] has_cell(k, c)
        implies s.insert(i).contains(c) by {
        if g.contains_key(k) {
            assert(holds_new_cell(k, i, s));
        } else {
            assert(groups.contains_key(k));
        }
    }
}

/// Refilling the cells `cells` in turn, none of them in a group, keeps the
/// flags telling the refilled cells.
pub proof fn lemma_refilled_marked(
    groups: Map<u32, GroupValue>,
    cells: Seq<usize>,
    data: Map<u32, u32>,
    result: Map<u32, GroupValue>,
    s: Set<u32>,
)
    requires
        refill_marked(groups),
        within(groups, s),
        cells.no_duplicates(),
        forall|j: int| 0 <= j < cells.len() ==> #[trigger] cells[j] < 32 && !s.contains(cells[j] as u32),
        refilled(groups, cells, data, result),
    ensures
        refill_marked(result),
        within(result, s + Set::new(|c: u32| cells.contains(c as usize))),
    decreases cells.len(),
{
    if cells.len() == 0 {
        assert forall|k: u32, c: u32| #[trigger] result.contains_key(k) && #[trigger] has_cell(k, c)
            implies (s + Set::new(|c: u32| cells.contains(c as usize))).contains(c) by {
            assert(s.contains(c));
        }
    } else {
        let front = cells.drop_last();
        let last = cells.last();
        let mid = choose|mid: Map<u32, GroupValue>|
            #![trigger tile_step(mid, cells.last(), None, data, result)]
            refilled(groups, front, data, mid) && tile_step(mid, cells.last(), None, data, result);
        assert forall|j: int| 0 <= j < front.len() implies #[trigger] front[j] < 32 && !s.contains(
            front[j] as u32,
        ) by {
            assert(front[j] == cells[j]);
        }
        lemma_refilled_marked(groups, front, data, mid, s);
        let s1 = s + Set::new(|c: u32| front.contains(c as usize));
        assert(cells[cells.len() - 1] < 32);
        assert(!s1.contains(last as u32)) by {
            if front.contains(last) {
                let j = choose|j: int| 0 <= j < front.len() && front[j] == last;
                assert(cells[j] == cells[cells.len() - 1]);
            }
        }
        lemma_tile_step_marked(mid, last, None, data, result, s1);
        assert forall|k: u32, c: u32| #[trigger] result.contains_key(k) && #[trigger] has_cell(k, c)
            implies (s + Set::new(|c: u32| cells.contains(c as usize))).contains(c) by {
            assert(s1.insert(last as u32).contains(c));
            if c == last as u32 {
                assert(cells[cells.len() - 1] == c as usize);
                assert(cells.contains(c as usize));
            } else if !s.contains(c) {
                let j = choose|j: int| 0 <= j < front.len() && front[j] == c as usize;
                assert(cells[j] == c as usize);
            }
        }
    }
}

/// The cells a join refills are cells of the joined group other than its
/// end, each once.
proof fn lemma_refill_cells(covered: u32, end: usize, n: nat)
    requires
        n <= 32,
    ensures
        refill_cells(covered, end, n).no_duplicates(),
        forall|j: int|
            0 <= j < refill_cells(covered, end, n).len() ==> {
                let c = #[trigger] refill_cells(covered, end, n)[j];
                &&& c < n
                &&& has_cell(covered, c as u32)
                &&& c != end
            },
    decreases n,
{
    if n > 0 {
        let m = (n - 1) as nat;
        lemma_refill_cells(covered, end, m);
        let front = refill_cells(covered, end, m);
        if has_cell(covered, m as u32) && m != end {
            vstd::seq_lib::lemma_no_dup_in_concat(front, seq![m as usize]);
            assert forall|j: int| 0 <= j < front.len() implies front[j] != m as usize by {
                assert(front[j] < m);
            }
        } else {
            assert(refill_cells(covered, end, n) =~= front);
        }
    }
}

/// The groups that share no cell with a joined group keep their flags
/// telling the refilled cells, and hold only cells outside it.
proof fn lemma_untouched_marked(groups: Map<u32, GroupValue>, covered: u32)
    requires
        refill_marked(groups),
    ensures
        refill_marked(untouched(groups, covered)),
        within(untouched(groups, covered), Set::new(|c: u32| !has_cell(covered, c))),
{
    let kept = untouched(groups, covered);
    assert forall|k: u32| #[trigger] kept.contains_key(k) implies marked(
        k,
        kept[k],
        refilled_cells(kept),
    ) by {
        lemma_disjoint(k, covered);
        assert forall|c: u32| #[trigger] has_cell(k, c) implies (refilled_cells(groups).contains(c)
            == refilled_cells(kept).contains(c)) by {
            assert(!has_cell(covered, c));
            lemma_disjoint(1u32 << c, covered);
            assert forall|x: u32| !(#[trigger] has_cell(1u32 << c, x) && has_cell(covered, x)) by {
                lemma_single(c, x);
            }
        }
        lemma_marked_local(k, groups[k], refilled_cells(groups), refilled_cells(kept));
    }
    assert forall|k: u32, c: u32| #[trigger] kept.contains_key(k) && #[trigger] has_cell(k, c)
        implies Set::new(|c: u32| !has_cell(covered, c)).contains(c) by {
        lemma_disjoint(k, covered);
    }
}

/// Joining a group keeps the flags telling the refilled cells: when they
/// tell them before the join and the end cell is a cell of the group, they
/// tell them after it (after the groups that share a cell with the group
/// go, the end cell gets its new number and the other cells are refilled).
pub proof fn lemma_join_keeps_marks(
    groups: Map<u32, GroupValue>,
    covered: u32,
    end: usize,
    new_value: u32,
    data: Map<u32, u32>,
    joined_end: Map<u32, GroupValue>,
    result: Map<u32, GroupValue>,
)
    requires
        refill_marked(groups),
        end < 32,
        has_cell(covered, end as u32),
        tile_step(untouched(groups, covered), end, Some((new_value, false)), data, joined_end),
        refilled(joined_end, refill_cells(covered, end, 32), data, result),
    ensures
        refill_marked(result),
{
    let s0 = Set::new(|c: u32| !has_cell(covered, c));
    lemma_untouched_marked(groups, covered);
    lemma_tile_step_marked(untouched(groups, covered), end, Some((new_value, false)), data, joined_end, s0);
    let s1 = s0.insert(end as u32);
    let cells = refill_cells(covered, end, 32);
    lemma_refill_cells(covered, end, 32);
    assert forall|j: int| 0 <= j < cells.len() implies #[trigger] cells[j] < 32 && !s1.contains(
        cells[j] as u32,
    ) by {
        assert(has_cell(covered, cells[j] as u32));
    }
    lemma_refilled_marked(joined_end, cells, data, result, s1);
}

/// A round of joins forms the union of its group with every group it walks
/// that the values let join and the action data knows.
proof fn lemma_join_round_has(
    covered: u32,
    gv: GroupValue,
    inner: Seq<(u32, GroupValue)>,
    data: Map<u32, u32>,
    lk: u32,
    lv: GroupValue,
)
    requires
        inner.contains((lk, lv)),
        data.contains_key(covered | lk),
        joined(gv, lv) is Some,
    ensures
        join_round(covered, gv, inner, data).contains_key(covered | lk),
    decreases inner.len(),
{
    if inner.last() != (lk, lv) {
        let i = choose|i: int| 0 <= i < inner.len() && inner[i] == (lk, lv);
        assert(inner.drop_last()[i] == (lk, lv));
        lemma_join_round_has(covered, gv, inner.drop_last(), data, lk, lv);
    }
}

/// Every group a round of joins forms is the union of its group with a
/// group it walks.
proof fn lemma_join_round_keys(
    covered: u32,
    gv: GroupValue,
    inner: Seq<(u32, GroupValue)>,
    data: Map<u32, u32>,
    k: u32,
)
    requires
        join_round(covered, gv, inner, data).contains_key(k),
    ensures
        exists|j: int| 0 <= j < inner.len() && k == covered | #[trigger] inner[j].0,
    decreases inner.len(),
{
    let rest = inner.drop_last();
    if join_round(covered, gv, rest, data).contains_key(k) && k != covered | inner.last().0 {
        lemma_join_round_keys(covered, gv, rest, data, k);
        let j = choose|j: int| 0 <= j < rest.len() && k == covered | #[trigger] rest[j].0;
        assert(rest[j] == inner[j]);
    } else {
        assert(k == covered | inner[inner.len() - 1].0);
    }
}

/// The groups formed in the first rounds are still there after all of them.
proof fn lemma_grown_keeps(
    order: Seq<(u32, GroupValue)>,
    inner: Seq<Seq<(u32, GroupValue)>>,
    start: Map<u32, GroupValue>,
    data: Map<u32, u32>,
    i: int,
    k: u32,
)
    requires
        0 <= i <= order.len(),
        inner.len() == order.len(),
        grown(order.take(i), inner.take(i), start, data).contains_key(k),
    ensures
        grown(order, inner, start, data).contains_key(k),
    decreases order.len(),
{
    if i == order.len() {
        assert(order.take(i) =~= order);
        assert(inner.take(i) =~= inner);
    } else {
        assert(order.drop_last().take(i) =~= order.take(i));
        assert(inner.drop_last().take(i) =~= inner.take(i));
        lemma_grown_keeps(order.drop_last(), inner.drop_last(), start, data, i, k);
    }
}

/// The cell alone keeps its value while it grows, when no walked group is
/// empty or holds the cell.
proof fn lemma_grown_keeps_cell(
    order: Seq<(u32, GroupValue)>,
    inner: Seq<Seq<(u32, GroupValue)>>,
    start: Map<u32, GroupValue>,
    data: Map<u32, u32>,
    index: u32,
)
    requires
        index < 32,
        start.contains_key(1u32 << index),
        forall|j: int|
            0 <= j < order.len() ==> #[trigger] order[j].0 != 0 && !has_cell(order[j].0, index),
    ensures
        grown(order, inner, start, data).contains_key(1u32 << index),
        grown(order, inner, start, data)[1u32 << index] == start[1u32 << index],
    decreases order.len(),
{
    if order.len() > 0 && inner.len() > 0 {
        let o2 = order.drop_last();
        assert forall|j: int| 0 <= j < o2.len() implies #[trigger] o2[j].0 != 0 && !has_cell(
            o2[j].0,
            index,
        ) by {
            assert(o2[j] == order[j]);
        }
        lemma_grown_keeps_cell(o2, inner.drop_last(), start, data, index);
        let n = order.len() - 1;
        let covered = order[n].0;
        assert(covered != 0 && !has_cell(covered, index));
        let single = 1u32 << index;
        if join_round(covered, order[n].1, inner.last(), data).contains_key(single) {
            lemma_join_round_keys(covered, order[n].1, inner.last(), data, single);
            let j = choose|j: int| 0 <= j < inner.last().len() && single == covered | #[trigger] inner.last()[j].0;
            lemma_nonzero_has_cell(covered);
            let c0 = choose|c: u32| #[trigger] has_cell(covered, c);
            lemma_union(covered, inner.last()[j].0, c0);
            lemma_single(index, c0);
        }
    }
}

/// Setting a cell that is in no group forms a group with every group that
/// can join it: when the values join and the action data knows the union,
/// the union is a group afterwards.
pub proof fn lemma_tile_step_joins(
    groups: Map<u32, GroupValue>,
    index: usize,
    value: GroupValue,
    data: Map<u32, u32>,
    result: Map<u32, GroupValue>,
    g: u32,
)
    requires
        index < 32,
        !groups.contains_key(0),
        forall|k: u32| #[trigger] groups.contains_key(k) ==> !has_cell(k, index as u32),
        tile_step(groups, index, value, data, result),
        groups.contains_key(g),
        data.contains_key(g | (1u32 << (index as u32))),
        joined(groups[g], value) is Some,
    ensures
        result.contains_key(g | (1u32 << (index as u32))),
{
    let i = index as u32;
    let single = 1u32 << i;
    let start = cell_alone(index, value);
    let (order, inner) = choose|order: Seq<(u32, GroupValue)>, inner: Seq<Seq<(u32, GroupValue)>>|
        {
            &&& is_ordering(groups, order)
            &&& rounds_walk_all(order, inner, cell_alone(index, value), data)
            &&& result == groups.union_prefer_right(
                grown(order, inner, cell_alone(index, value), data),
            )
        };
    assert(groups.kv_pairs().contains((g, groups[g])));
    assert(order.to_set().contains((g, groups[g])));
    let r = choose|r: int| 0 <= r < order.len() && order[r] == (g, groups[g]);
    assert forall|j: int| 0 <= j < order.len() implies #[trigger] order[j].0 != 0 && !has_cell(
        order[j].0,
        i,
    ) by {
        assert(order.contains(order[j]));
        assert(order.to_set().contains(order[j]));
        assert(groups.kv_pairs().contains(order[j]));
    }
    let o_r = order.take(r);
    let i_r = inner.take(r);
    assert forall|j: int| 0 <= j < o_r.len() implies #[trigger] o_r[j].0 != 0 && !has_cell(o_r[j].0, i) by {
        assert(o_r[j] == order[j]);
    }
    lemma_grown_keeps_cell(o_r, i_r, start, data, i);
    let formed = grown(o_r, i_r, start, data);
    assert(formed.contains_key(single) && formed[single] == value);
    let walk = inner[r];
    assert(is_ordering(formed, walk));
    assert(formed.kv_pairs().contains((single, value)));
    assert(walk.to_set().contains((single, value)));
    lemma_join_round_has(g, groups[g], walk, data, single, value);
    let o_next = order.take(r + 1);
    let i_next = inner.take(r + 1);
    assert(o_next.drop_last() =~= o_r);
    assert(i_next.drop_last() =~= i_r);
    assert(o_next.last() == (g, groups[g]));
    assert(i_next.last() == walk);
    assert(grown(o_next, i_next, start, data).contains_key(g | single));
    lemma_grown_keeps(order, inner, start, data, r + 1, g | single);
}

} // verus!
