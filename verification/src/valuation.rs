//! What the look-ahead player's values are.
//!
//! The value of a position depends on the table of values already known
//! when it is asked for (a position whose groups are listed in the table
//! takes the stored value, whatever its score and depth), and asking for it
//! fills the table further. So values are stated as relations between a
//! position, the table before, the table after and the value; the order in
//! which hash maps are walked is left open, as an ordering that exists.
use vstd::prelude::*;
use crate::cells::{cell_count, cells_of, group_before, has_cell};
use crate::lucid::{
    is_listing, is_ordering, joined_score, joins_of, leaf_sum, lemma_leaf_sum_orders, lemma_listing_unique, refill_cells, refilled, tile_step,
    untouched, wildcards_of, GroupValue,
};
use crate::weigh::{by_value, weighed};

verus! {

/// Known position values, by the listing of a position's groups.
pub type Table = Map<Seq<(u32, GroupValue)>, u32>;

/// Joining group `covered` of number `value` into cell `end` turns the
/// position (`groups`, `score`, `depth`) into (`after`, `after_score`,
/// `after_depth`): what `LucidState::next` states.
pub open spec fn joins_into(
    groups: Map<u32, GroupValue>,
    score: u32,
    depth: nat,
    data: Map<u32, u32>,
    covered: u32,
    value: u32,
    end: usize,
    after: Map<u32, GroupValue>,
    after_score: u32,
    after_depth: nat,
) -> bool {
    &&& after_score == joined_score(score, covered, value)
    &&& after_depth == depth + 1
    &&& exists|joined_end: Map<u32, GroupValue>|
        #![trigger refilled(joined_end, refill_cells(covered, end, 32), data, after)]
        {
            &&& tile_step(
                untouched(groups, covered),
                end,
                Some(
                    (
                        vstd::wrapping::u32_specs::wrapping_mul(cell_count(covered) as u32, value),
                        false,
                    ),
                ),
                data,
                joined_end,
            )
            &&& refilled(joined_end, refill_cells(covered, end, 32), data, after)
        }
}

/// The largest of `vals`, or 0.
pub open spec fn max_of(vals: Seq<u32>) -> u32
    decreases vals.len(),
{
    if vals.len() == 0 {
        0
    } else {
        let m = max_of(vals.drop_last());
        if vals.last() > m {
            vals.last()
        } else {
            m
        }
    }
}

/// One step of a walk that values the children of a position: the child
/// reached by joining into `end`, its score and its value, with the table
/// as it was before valuing it.
pub type ChildStep = (Map<u32, GroupValue>, u32, u32, Table);

/// `steps` values, in turn, the children reached by joining group `covered`
/// of number `value` into each cell of `ends`, starting from table
/// `before` and ending with table `after`.
pub open spec fn children_valued(
    groups: Map<u32, GroupValue>,
    score: u32,
    depth: nat,
    data: Map<u32, u32>,
    covered: u32,
    value: u32,
    ends: Seq<usize>,
    before: Table,
    after: Table,
    steps: Seq<ChildStep>,
) -> bool
    decreases 4 - depth, 0int, ends.len(),
{
    if depth > 3 {
        false
    } else if ends.len() == 0 {
        steps.len() == 0 && after == before
    } else {
        let step = steps.last();
        &&& steps.len() == ends.len()
        &&& children_valued(
            groups,
            score,
            depth,
            data,
            covered,
            value,
            ends.drop_last(),
            before,
            step.3,
            steps.drop_last(),
        )
        &&& joins_into(groups, score, depth, data, covered, value, ends.last(), step.0, step.1, depth + 1)
        &&& valued(step.0, step.1, depth + 1, data, step.3, after, step.2)
    }
}

/// The values the steps found.
pub open spec fn step_values(steps: Seq<ChildStep>) -> Seq<u32> {
    steps.map_values(|s: ChildStep| s.2)
}

/// The value of joining group `covered` of number `value`: the best value
/// of the children, over the cells the join can end on in increasing
/// order, with the table filled as it goes.
pub open spec fn action_valued(
    groups: Map<u32, GroupValue>,
    score: u32,
    depth: nat,
    data: Map<u32, u32>,
    covered: u32,
    value: u32,
    before: Table,
    after: Table,
    res: u32,
) -> bool
    decreases 4 - depth, 1int, 0nat,
{
    if depth > 3 {
        false
    } else {
        exists|steps: Seq<ChildStep>|
            #![trigger step_values(steps)]
            {
                &&& children_valued(
                    groups,
                    score,
                    depth,
                    data,
                    covered,
                    value,
                    cells_of(data[covered], 32),
                    before,
                    after,
                    steps,
                )
                &&& res == max_of(step_values(steps))
            }
    }
}

/// `tables` walks the groups of `order` in turn from table `before`: a
/// group of two or more cells with a known number is valued (its value in
/// `vals`) and fills the table; other groups leave it.
pub open spec fn groups_valued(
    groups: Map<u32, GroupValue>,
    score: u32,
    depth: nat,
    data: Map<u32, u32>,
    order: Seq<(u32, GroupValue)>,
    vals: Seq<u32>,
    before: Table,
    after: Table,
    tables: Seq<Table>,
) -> bool
    decreases 4 - depth, 2int, order.len(),
{
    if depth > 3 {
        false
    } else if order.len() == 0 {
        vals.len() == 0 && tables.len() == 0 && after == before
    } else {
        let (k, v) = order.last();
        &&& vals.len() == order.len()
        &&& tables.len() == order.len()
        &&& groups_valued(
            groups,
            score,
            depth,
            data,
            order.drop_last(),
            vals.drop_last(),
            before,
            tables.last(),
            tables.drop_last(),
        )
        &&& if cell_count(k) > 1 && v is Some {
            action_valued(
                groups,
                score,
                depth,
                data,
                k,
                v->Some_0.0,
                tables.last(),
                after,
                vals.last(),
            )
        } else {
            after == tables.last()
        }
    }
}

/// The value of the position (`groups`, `score`, `depth`), asked for with
/// table `before`, which leaves table `after`: four moves deep, the score
/// plus each known group's size times its number; above that, the stored
/// value of the position's listing if there is one, else the weighing of
/// its joins (valued in turn, best first) against its refilled cells,
/// which is then stored.
///
/// The groups are walked in some order, which the relation leaves open:
/// a value may depend on it. The table is keyed by the listing of the groups
/// alone, so a value stored for one position is given back for every later
/// position with the same groups, whatever its score and depth, and which of
/// them is valued first depends on the order of the walk; the groups a
/// refilled cell forms, and joins of equal value, are taken in that order
/// as well. Only four moves deep is the value the same for every order (see
/// `lemma_leaf_sum_orders`).
pub open spec fn valued(
    groups: Map<u32, GroupValue>,
    score: u32,
    depth: nat,
    data: Map<u32, u32>,
    before: Table,
    after: Table,
    res: u32,
) -> bool
    decreases 4 - depth, 3int, 0nat,
{
    if depth > 3 {
        &&& after == before
        &&& exists|s: Seq<(u32, GroupValue)>|
            #![trigger leaf_sum(s, score)]
            is_ordering(groups, s) && res == leaf_sum(s, score)
    } else {
        exists|key: Seq<(u32, GroupValue)>|
            #![trigger is_listing(groups, key)]
            is_listing(groups, key) && if before.contains_key(key) {
                after == before && res == before[key]
            } else {
                exists|order: Seq<(u32, GroupValue)>, vals: Seq<u32>, tables: Seq<Table>, mid: Table|
                    #![trigger joins_of(order, vals), tables.len(), mid.insert(key, res)]
                    {
                        &&& is_ordering(groups, order)
                        &&& groups_valued(groups, score, depth, data, order, vals, before, mid, tables)
                        &&& res == weighed(by_value(joins_of(order, vals)), wildcards_of(order), score)
                        &&& after == mid.insert(key, res)
                    }
            }
    }
}

/// The joins of group `covered` of number `value` into each cell of `ends`.
pub open spec fn ends_pairs(covered: u32, value: u32, ends: Seq<usize>) -> Seq<(u32, u32, usize)>
    decreases ends.len(),
{
    if ends.len() == 0 {
        Seq::empty()
    } else {
        ends_pairs(covered, value, ends.drop_last()).push((covered, value, ends.last()))
    }
}

/// The joins a position offers, for its groups listed in `key`: for each
/// group of two or more cells in turn (its number, or 0 when it has none),
/// each cell the action data lets the join end on, in increasing order.
pub open spec fn pairs_of(key: Seq<(u32, GroupValue)>, data: Map<u32, u32>) -> Seq<(u32, u32, usize)>
    decreases key.len(),
{
    if key.len() == 0 {
        Seq::empty()
    } else {
        let (k, v) = key.last();
        let number = match v {
            Some((n, _)) => n,
            None => 0,
        };
        pairs_of(key.drop_last(), data) + if cell_count(k) > 1 {
            ends_pairs(k, number, cells_of(data[k], 32))
        } else {
            Seq::empty()
        }
    }
}

/// The number of a group value, 0 when it is not known.
pub open spec fn number_of(v: GroupValue) -> u32 {
    match v {
        Some((n, _)) => n,
        None => 0,
    }
}

/// Joining a group into each of the cells `ends` is among its joins.
proof fn lemma_ends_pairs_contain(covered: u32, value: u32, ends: Seq<usize>, e: usize)
    requires
        ends.contains(e),
    ensures
        ends_pairs(covered, value, ends).contains((covered, value, e)),
    decreases ends.len(),
{
    let s = ends_pairs(covered, value, ends);
    if ends.last() == e {
        assert(s[s.len() - 1] == (covered, value, e));
    } else {
        let i = choose|i: int| 0 <= i < ends.len() && ends[i] == e;
        assert(ends.drop_last()[i] == e);
        lemma_ends_pairs_contain(covered, value, ends.drop_last(), e);
        let prev = ends_pairs(covered, value, ends.drop_last());
        let j = choose|j: int| 0 <= j < prev.len() && prev[j] == (covered, value, e);
        assert(s[j] == (covered, value, e));
    }
}

/// The joins of a group into the cells `ends` are those cells in turn.
proof fn lemma_ends_pairs_exact(covered: u32, value: u32, ends: Seq<usize>)
    ensures
        ends_pairs(covered, value, ends).len() == ends.len(),
        forall|i: int|
            0 <= i < ends.len() ==> #[trigger] ends_pairs(covered, value, ends)[i] == (
                covered,
                value,
                ends[i],
            ),
    decreases ends.len(),
{
    if ends.len() > 0 {
        lemma_ends_pairs_exact(covered, value, ends.drop_last());
    }
}

/// The joins a position offers are only joins of its listed groups of two
/// or more cells (with their number, 0 when unknown) into cells the action
/// data lets them end on, each once, in the order of the groups' listing
/// and, within a group, by increasing end cell.
pub proof fn lemma_pairs_of_sound(key: Seq<(u32, GroupValue)>, data: Map<u32, u32>)
    requires
        forall|i: int, j: int| 0 <= i < j < key.len() ==> #[trigger] group_before(key[i].0, key[j].0),
    ensures
        forall|i: int|
            #![trigger pairs_of(key, data)[i]]
            0 <= i < pairs_of(key, data).len() ==> exists|j: int|
                #![trigger key[j]]
                0 <= j < key.len() && pairs_of(key, data)[i].0 == key[j].0 && cell_count(key[j].0) > 1
                    && pairs_of(key, data)[i].1 == number_of(key[j].1) && pairs_of(key, data)[i].2 < 32
                    && has_cell(data[key[j].0], pairs_of(key, data)[i].2 as u32),
        forall|i: int, i2: int|
            #![trigger pairs_of(key, data)[i], pairs_of(key, data)[i2]]
            0 <= i < i2 < pairs_of(key, data).len() ==> group_before(
                pairs_of(key, data)[i].0,
                pairs_of(key, data)[i2].0,
            ) || (pairs_of(key, data)[i].0 == pairs_of(key, data)[i2].0 && pairs_of(key, data)[i].2
                < pairs_of(key, data)[i2].2),
    decreases key.len(),
{
    if key.len() > 0 {
        let v = key.drop_last();
        let last = key.len() - 1;
        assert forall|i: int, j: int| 0 <= i < j < v.len() implies #[trigger] group_before(v[i].0, v[j].0) by {
            assert(v[i] == key[i] && v[j] == key[j]);
        }
        lemma_pairs_of_sound(v, data);
        let (k, gv) = key.last();
        let front = pairs_of(v, data);
        let ends = cells_of(data[k], 32);
        let here = if cell_count(k) > 1 {
            ends_pairs(k, number_of(gv), ends)
        } else {
            Seq::empty()
        };
        let all = pairs_of(key, data);
        assert(all == front + here);
        lemma_ends_pairs_exact(k, number_of(gv), ends);
        crate::cells::lemma_cells_of_increasing(data[k], 32);
        assert forall|i: int| #![trigger all[i]] 0 <= i < all.len() implies exists|j: int|
            #![trigger key[j]]
            0 <= j < key.len() && all[i].0 == key[j].0 && cell_count(key[j].0) > 1 && all[i].1
                == number_of(key[j].1) && all[i].2 < 32 && has_cell(data[key[j].0], all[i].2 as u32) by {
            if i < front.len() {
                assert(all[i] == front[i]);
                let j = choose|j: int|
                    #![trigger v[j]]
                    0 <= j < v.len() && front[i].0 == v[j].0 && cell_count(v[j].0) > 1 && front[i].1
                        == number_of(v[j].1) && front[i].2 < 32 && has_cell(data[v[j].0], front[i].2 as u32);
                assert(v[j] == key[j]);
            } else {
                let x = i - front.len();
                assert(all[i] == here[x]);
                assert(ends.contains(ends[x]));
                crate::cells::lemma_cells_of_contains(data[k], 32, ends[x]);
                assert(key[last] == (k, gv));
            }
        }
        assert forall|i: int, i2: int| #![trigger all[i], all[i2]] 0 <= i < i2 < all.len() implies group_before(
            all[i].0,
            all[i2].0,
        ) || (all[i].0 == all[i2].0 && all[i].2 < all[i2].2) by {
            if i2 < front.len() {
                assert(all[i] == front[i] && all[i2] == front[i2]);
            } else if i < front.len() {
                assert(all[i] == front[i]);
                let j = choose|j: int|
                    #![trigger v[j]]
                    0 <= j < v.len() && front[i].0 == v[j].0 && cell_count(v[j].0) > 1 && front[i].1
                        == number_of(v[j].1) && front[i].2 < 32 && has_cell(data[v[j].0], front[i].2 as u32);
                assert(v[j] == key[j]);
                assert(group_before(key[j].0, key[last].0));
                assert(all[i2] == here[i2 - front.len()]);
            } else {
                assert(all[i] == here[i - front.len()] && all[i2] == here[i2 - front.len()]);
            }
        }
    }
}

/// The joins a position offers include every join of a listed group of two
/// or more cells (with its number, 0 when unknown) into every cell the
/// action data lets it end on.
pub proof fn lemma_pairs_of_complete(key: Seq<(u32, GroupValue)>, data: Map<u32, u32>, j: int, e: usize)
    requires
        0 <= j < key.len(),
        cell_count(key[j].0) > 1,
        e < 32,
        has_cell(data[key[j].0], e as u32),
    ensures
        pairs_of(key, data).contains((key[j].0, number_of(key[j].1), e)),
    decreases key.len(),
{
    let (k, v) = key.last();
    let front = pairs_of(key.drop_last(), data);
    let here = if cell_count(k) > 1 {
        ends_pairs(k, number_of(v), cells_of(data[k], 32))
    } else {
        Seq::empty()
    };
    assert(pairs_of(key, data) == front + here);
    let x = (key[j].0, number_of(key[j].1), e);
    if j == key.len() - 1 {
        crate::cells::lemma_cells_of_contains(data[k], 32, e);
        lemma_ends_pairs_contain(k, number_of(v), cells_of(data[k], 32), e);
        let i = choose|i: int| 0 <= i < here.len() && here[i] == x;
        assert((front + here)[front.len() + i] == x);
    } else {
        assert(key.drop_last()[j] == key[j]);
        lemma_pairs_of_complete(key.drop_last(), data, j, e);
        let i = choose|i: int| 0 <= i < front.len() && front[i] == x;
        assert((front + here)[i] == x);
    }
}

/// `steps` values, in turn, the children reached by the joins `pairs`,
/// starting from table `before` and ending with table `after`.
pub open spec fn picks_valued(
    groups: Map<u32, GroupValue>,
    score: u32,
    depth: nat,
    data: Map<u32, u32>,
    pairs: Seq<(u32, u32, usize)>,
    before: Table,
    after: Table,
    steps: Seq<ChildStep>,
) -> bool
    decreases pairs.len(),
{
    if pairs.len() == 0 {
        steps.len() == 0 && after == before
    } else {
        let step = steps.last();
        let (covered, value, end) = pairs.last();
        &&& steps.len() == pairs.len()
        &&& picks_valued(groups, score, depth, data, pairs.drop_last(), before, step.3, steps.drop_last())
        &&& joins_into(groups, score, depth, data, covered, value, end, step.0, step.1, depth + 1)
        &&& valued(step.0, step.1, depth + 1, data, step.3, after, step.2)
    }
}

/// The place of the first of the greatest of `vals`.
pub open spec fn best_index(vals: Seq<u32>) -> int
    decreases vals.len(),
{
    if vals.len() <= 1 {
        0
    } else {
        let b = best_index(vals.drop_last());
        if vals.last() > vals[b] {
            vals.len() - 1
        } else {
            b
        }
    }
}

/// The first of the greatest lies within the values.
pub proof fn lemma_best_index(vals: Seq<u32>)
    requires
        vals.len() >= 1,
    ensures
        0 <= best_index(vals) < vals.len(),
        forall|i: int| 0 <= i < vals.len() ==> #[trigger] vals[i] <= vals[best_index(vals)],
        forall|i: int| 0 <= i < best_index(vals) ==> #[trigger] vals[i] < vals[best_index(vals)],
    decreases vals.len(),
{
    if vals.len() > 1 {
        let prev = vals.drop_last();
        lemma_best_index(prev);
        assert forall|i: int| 0 <= i < prev.len() implies #[trigger] vals[i] == prev[i] by {}
    }
}

/// Valuing one more join extends the walk over the joins.
pub proof fn lemma_pick_step(
    groups: Map<u32, GroupValue>,
    score: u32,
    depth: nat,
    data: Map<u32, u32>,
    pairs: Seq<(u32, u32, usize)>,
    start: Table,
    before: Table,
    after: Table,
    steps: Seq<ChildStep>,
    pair: (u32, u32, usize),
    child: Map<u32, GroupValue>,
    child_score: u32,
    value: u32,
)
    requires
        picks_valued(groups, score, depth, data, pairs, start, before, steps),
        joins_into(groups, score, depth, data, pair.0, pair.1, pair.2, child, child_score, depth + 1),
        valued(child, child_score, depth + 1, data, before, after, value),
    ensures
        picks_valued(
            groups,
            score,
            depth,
            data,
            pairs.push(pair),
            start,
            after,
            steps.push((child, child_score, value, before)),
        ),
        step_values(steps.push((child, child_score, value, before))) == step_values(steps).push(value),
        steps.len() == pairs.len(),
{
    let longer = steps.push((child, child_score, value, before));
    assert(longer.drop_last() =~= steps);
    assert(pairs.push(pair).drop_last() =~= pairs);
    assert(step_values(longer) =~= step_values(steps).push(value));
}

/// Where the first of the greatest lies once one more value comes.
pub proof fn lemma_best_index_push(vals: Seq<u32>, v: u32)
    ensures
        vals.len() == 0 ==> best_index(vals.push(v)) == 0,
        vals.len() > 0 && v > vals[best_index(vals)] ==> best_index(vals.push(v)) == vals.len(),
        vals.len() > 0 && !(v > vals[best_index(vals)]) ==> best_index(vals.push(v)) == best_index(vals),
        vals.len() > 0 ==> 0 <= best_index(vals) < vals.len(),
{
    assert(vals.push(v).drop_last() =~= vals);
    if vals.len() > 0 {
        lemma_best_index(vals);
    }
}

/// Joining into one more cell extends the list of joins.
pub proof fn lemma_ends_pairs_push(covered: u32, value: u32, ends: Seq<usize>, end: usize)
    ensures
        ends_pairs(covered, value, ends.push(end)) == ends_pairs(covered, value, ends).push(
            (covered, value, end),
        ),
        ends_pairs(covered, value, ends).len() == ends.len(),
    decreases ends.len(),
{
    assert(ends.push(end).drop_last() =~= ends);
    if ends.len() > 0 {
        lemma_ends_pairs_push(covered, value, ends.drop_last(), ends.last());
    }
}

/// Valuing the child of one more end cell extends the walk over the ends.
#[verifier::rlimit(30)]
pub proof fn lemma_child_step(
    groups: Map<u32, GroupValue>,
    score: u32,
    depth: nat,
    data: Map<u32, u32>,
    covered: u32,
    value: u32,
    ends: Seq<usize>,
    start: Table,
    before: Table,
    after: Table,
    steps: Seq<ChildStep>,
    end: usize,
    child: Map<u32, GroupValue>,
    child_score: u32,
    child_value: u32,
)
    requires
        depth <= 3,
        children_valued(groups, score, depth, data, covered, value, ends, start, before, steps),
        joins_into(groups, score, depth, data, covered, value, end, child, child_score, depth + 1),
        valued(child, child_score, depth + 1, data, before, after, child_value),
    ensures
        children_valued(
            groups,
            score,
            depth,
            data,
            covered,
            value,
            ends.push(end),
            start,
            after,
            steps.push((child, child_score, child_value, before)),
        ),
        max_of(step_values(steps.push((child, child_score, child_value, before)))) == if child_value
            > max_of(step_values(steps)) {
            child_value
        } else {
            max_of(step_values(steps))
        },
{
    let longer = steps.push((child, child_score, child_value, before));
    assert(longer.drop_last() =~= steps);
    assert(ends.push(end).drop_last() =~= ends);
    assert(step_values(longer) =~= step_values(steps).push(child_value));
    assert(step_values(longer).drop_last() =~= step_values(steps));
}

/// Asking for a position's value a second time, with the table the first
/// asking left, gives the same value and leaves the table as it is.
pub proof fn lemma_value_again(
    groups: Map<u32, GroupValue>,
    score: u32,
    depth: nat,
    data: Map<u32, u32>,
    first: Table,
    after_first: Table,
    value: u32,
    after_second: Table,
    again: u32,
)
    requires
        valued(groups, score, depth, data, first, after_first, value),
        valued(groups, score, depth, data, after_first, after_second, again),
    ensures
        again == value,
        after_second == after_first,
{
    if depth > 3 {
        let s1 = choose|s: Seq<(u32, GroupValue)>| is_ordering(groups, s) && value == leaf_sum(s, score);
        let s2 = choose|s: Seq<(u32, GroupValue)>| is_ordering(groups, s) && again == leaf_sum(s, score);
        lemma_leaf_sum_orders(groups, s1, s2, score);
    } else {
        let k1 = choose|key: Seq<(u32, GroupValue)>|
            is_listing(groups, key) && if first.contains_key(key) {
                after_first == first && value == first[key]
            } else {
                exists|order: Seq<(u32, GroupValue)>, vals: Seq<u32>, tables: Seq<Table>, mid: Table|
                    #![trigger joins_of(order, vals), tables.len(), mid.insert(key, value)]
                    {
                        &&& is_ordering(groups, order)
                        &&& groups_valued(groups, score, depth, data, order, vals, first, mid, tables)
                        &&& value == weighed(by_value(joins_of(order, vals)), wildcards_of(order), score)
                        &&& after_first == mid.insert(key, value)
                    }
            };
        let k2 = choose|key: Seq<(u32, GroupValue)>|
            is_listing(groups, key) && if after_first.contains_key(key) {
                after_second == after_first && again == after_first[key]
            } else {
                exists|order: Seq<(u32, GroupValue)>, vals: Seq<u32>, tables: Seq<Table>, mid: Table|
                    #![trigger joins_of(order, vals), tables.len(), mid.insert(key, again)]
                    {
                        &&& is_ordering(groups, order)
                        &&& groups_valued(groups, score, depth, data, order, vals, after_first, mid, tables)
                        &&& again == weighed(by_value(joins_of(order, vals)), wildcards_of(order), score)
                        &&& after_second == mid.insert(key, again)
                    }
            };
        lemma_listing_unique(groups, k1, k2);
        if !first.contains_key(k1) {
            let (order, vals, tables, mid) = choose|order: Seq<(u32, GroupValue)>, vals: Seq<u32>, tables: Seq<Table>, mid: Table|
                #![trigger joins_of(order, vals), tables.len(), mid.insert(k1, value)]
                {
                    &&& is_ordering(groups, order)
                    &&& groups_valued(groups, score, depth, data, order, vals, first, mid, tables)
                    &&& value == weighed(by_value(joins_of(order, vals)), wildcards_of(order), score)
                    &&& after_first == mid.insert(k1, value)
                };
            assert(after_first.contains_key(k1) && after_first[k1] == value);
        }
    }
}

} // verus!
