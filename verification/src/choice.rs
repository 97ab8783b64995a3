//! Choosing the move the look-ahead player makes: the join of best value,
//! written out as a path over the cells of the chosen group.
use vstd::prelude::*;
use crate::board::{board_table, contains_cell, is_move, neighbours, spec_neighbours};
use crate::cells::{cell_count, count_cells, has_cell, holds_cell, lemma_path_mask, mask_of, path_mask};
use crate::paths::is_path;
use crate::lucid::{
    board_groups, ends_reachable, grid_table, groups_fit, is_listing, joins_listed,
    lemma_records_usable, prefix_of, records, short_path, short_paths, ActionData, CreateActions,
    GroupValue, LucidState,
};
use crate::state::State;
use crate::memo::Memo;
use crate::cells::cells_of;
use crate::valuation::{
    best_index, ends_pairs, joins_into, lemma_best_index, lemma_best_index_push,
    lemma_ends_pairs_push, lemma_pairs_of_complete, lemma_pick_step, number_of, pairs_of,
    picks_valued, step_values, ChildStep, Table,
};

verus! {

/// `p` is a grid path that starts with `a` and covers exactly the cells of
/// `covered`.
pub open spec fn completes(covered: u32, a: Seq<usize>, p: Seq<usize>) -> bool {
    &&& is_path(grid_table(), p)
    &&& prefix_of(a, p)
    &&& path_mask(p) == covered
}

/// The direction of a step between side-by-side cells: 0 right, 1 down,
/// 2 left, 3 up.
pub open spec fn direction(from: usize, to: usize) -> int {
    if to == from + 1 {
        0
    } else if to == from + 5 {
        1
    } else if to + 1 == from {
        2
    } else {
        3
    }
}

/// Where paths `p` and `q` part, after their first `n` cells, `p` steps in
/// an earlier direction (right, down, left, up) than `q`.
pub open spec fn turns_first(p: Seq<usize>, q: Seq<usize>, n: int) -> bool {
    exists|j: int|
        #![trigger p[j], q[j]]
        1 <= j && n <= j && j < p.len() && j < q.len() && (forall|k: int| 0 <= k < j ==> p[k] == q[k])
            && direction(p[j - 1], p[j]) < direction(q[j - 1], q[j])
}

/// `p` is the first path that continues `a` through exactly the cells of
/// `covered`, trying the next cells right, down, left, up at each step.
pub open spec fn first_completion(covered: u32, a: Seq<usize>, p: Seq<usize>) -> bool {
    &&& completes(covered, a, p)
    &&& forall|q: Seq<usize>|
        #![trigger completes(covered, a, q)]
        completes(covered, a, q) && q != p ==> turns_first(p, q, a.len() as int)
}

/// The grid neighbours of a cell come in the order of their directions.
proof fn lemma_neighbour_directions(i: usize)
    requires
        i < 25,
    ensures
        forall|k1: int, k2: int|
            0 <= k1 < k2 < spec_neighbours(i as int).len() ==> direction(
                i,
                #[trigger] spec_neighbours(i as int)[k1],
            ) < direction(i, #[trigger] spec_neighbours(i as int)[k2]),
{
    let s = spec_neighbours(i as int);
    let a = crate::board::when(i % 5 < 4, (i + 1) as usize);
    let b = crate::board::when(i / 5 < 4, (i + 5) as usize);
    let c = crate::board::when(i % 5 > 0, (i - 1) as usize);
    let d = crate::board::when(i / 5 > 0, (i - 5) as usize);
    assert(s == a + b + c + d);
    assert forall|k: int| 0 <= k < s.len() implies direction(i, #[trigger] s[k]) == (if k < a.len() {
        0int
    } else if k < a.len() + b.len() {
        1int
    } else if k < a.len() + b.len() + c.len() {
        2int
    } else {
        3int
    }) by {
        if k < a.len() {
            assert(s[k] == a[k]);
        } else if k < a.len() + b.len() {
            assert(s[k] == b[k - a.len()]);
        } else if k < a.len() + b.len() + c.len() {
            assert(s[k] == c[k - a.len() - b.len()]);
        } else {
            assert(s[k] == d[k - a.len() - b.len() - c.len()]);
        }
    }
}

/// A path that already covers `covered` is its only completion.
proof fn lemma_only_completion(covered: u32, a: Seq<usize>, q: Seq<usize>)
    requires
        is_path(grid_table(), a),
        path_mask(a) == covered,
        completes(covered, a, q),
    ensures
        q == a,
{
    if q.len() == a.len() {
        assert(q =~= a);
    } else {
        let n = q[a.len() as int];
        lemma_path_mask(q, n as u32);
        lemma_path_mask(a, n as u32);
        assert(q.contains(n));
        let m = choose|m: int| 0 <= m < a.len() && a[m] == n;
        assert(q[m] == n);
    }
}

/// A completion of `a` that steps to another next cell than the first
/// completion found through next cell `nbs[idx]` parts from it in a later
/// direction, when no earlier next cell led to a completion.
proof fn lemma_first_alternative(
    covered: u32,
    a: Seq<usize>,
    nbs: Seq<usize>,
    idx: int,
    p: Seq<usize>,
    q: Seq<usize>,
)
    requires
        is_path(grid_table(), a),
        a.len() >= 1,
        path_mask(a) != covered,
        nbs == spec_neighbours(a.last() as int),
        0 <= idx < nbs.len(),
        forall|k: int, r: Seq<usize>|
            #![trigger completes(covered, a.push(nbs[k]), r)]
            0 <= k < idx && has_cell(covered, nbs[k] as u32) && !a.contains(nbs[k])
                ==> !completes(covered, a.push(nbs[k]), r),
        first_completion(covered, a.push(nbs[idx]), p),
        forall|k1: int, k2: int|
            0 <= k1 < k2 < nbs.len() ==> direction(a.last(), #[trigger] nbs[k1]) < direction(
                a.last(),
                #[trigger] nbs[k2],
            ),
        completes(covered, a, q),
        q != p,
    ensures
        turns_first(p, q, a.len() as int),
{
    let len = a.len() as int;
    let last = a.last();
    let n = nbs[idx];
    if q.len() == len {
        assert(q =~= a);
    }
    assert(q.len() > len);
    let m = q[len];
    assert(q[len - 1] == last);
    let before_last = len - 1;
    assert(grid_table()[q[before_last] as int].contains(q[before_last + 1]));
    assert(last < 25);
    assert(spec_neighbours(last as int).contains(m));
    let k = choose|k: int| 0 <= k < nbs.len() && nbs[k] == m;
    lemma_path_mask(q, m as u32);
    assert(q.contains(m));
    if a.contains(m) {
        let j = choose|j: int| 0 <= j < a.len() && a[j] == m;
        assert(q[j] == m);
    }
    assert(prefix_of(a.push(m), q)) by {
        assert forall|j: int| 0 <= j < a.push(m).len() implies #[trigger] q[j] == a.push(m)[j] by {}
    }
    assert(completes(covered, a.push(nbs[k]), q));
    assert(p[len] == n) by {
        assert(p[len] == a.push(n)[len]);
    }
    assert(p[len - 1] == last) by {
        assert(p[len - 1] == a.push(n)[len - 1]);
    }
    if k == idx {
        assert(completes(covered, a.push(nbs[idx]), q));
        assert(turns_first(p, q, len + 1));
    } else {
        assert(k > idx);
        assert(forall|i: int| 0 <= i < len ==> p[i] == q[i]) by {
            assert forall|i: int| 0 <= i < len implies p[i] == q[i] by {
                assert(p[i] == a.push(n)[i]);
            }
        }
        assert(direction(last, nbs[idx]) < direction(last, nbs[k]));
    }
}

/// Continues the grid path `action` through the cells of `covered`, trying
/// the next cells right, down, left, up, until every cell of `covered` is on
/// it; `None` when no such path continues `action`.
pub fn find_action(covered: u32, action: Vec<usize>) -> (res: Option<Vec<usize>>)
    requires
        is_path(grid_table(), action@),
        forall|k: int| 0 <= k < action@.len() ==> has_cell(covered, #[trigger] action@[k] as u32),
    ensures
        match res {
            Some(p) => first_completion(covered, action@, p@),
            None => forall|p: Seq<usize>| !completes(covered, action@, p),
        },
    decreases 25 - action@.len(),
{
    if mask_of(action.as_slice()) == covered {
        proof {
            assert(prefix_of(action@, action@));
            assert forall|q: Seq<usize>| completes(covered, action@, q) && q != action@ implies turns_first(
                action@,
                q,
                action@.len() as int,
            ) by {
                lemma_only_completion(covered, action@, q);
            }
        }
        return Some(action);
    }
    let last = action[action.len() - 1];
    let nbs = neighbours(last);
    let ghost a = action@;
    let mut idx: usize = 0;
    while idx < nbs.len()
        invariant
            a == action@,
            is_path(grid_table(), a),
            a.len() >= 1,
            last == a.last(),
            path_mask(a) != covered,
            nbs@ == spec_neighbours(last as int),
            idx <= nbs@.len(),
            forall|k: int| 0 <= k < a.len() ==> has_cell(covered, #[trigger] a[k] as u32),
            forall|k: int, p: Seq<usize>|
                #![trigger completes(covered, a.push(nbs@[k]), p)]
                0 <= k < idx && has_cell(covered, nbs@[k] as u32) && !a.contains(nbs@[k])
                    ==> !completes(covered, a.push(nbs@[k]), p),
        decreases nbs@.len() - idx,
    {
        let n = nbs[idx];
        proof {
            assert(spec_neighbours(last as int).contains(n));
            crate::board::lemma_neighbours_adjacent(last as int, n);
        }
        if holds_cell(covered, n) && !contains_cell(action.as_slice(), n) {
            let mut longer = action.clone();
            longer.push(n);
            proof {
                assert(longer@ == a.push(n));
                crate::paths::lemma_room_left(a, n);
                assert(grid_table()[last as int] == spec_neighbours(last as int));
                assert(is_path(grid_table(), a.push(n))) by {
                    assert forall|k: int| 0 <= k < a.push(n).len() - 1 implies #[trigger] grid_table()[a.push(n)[k] as int].contains(a.push(n)[k + 1]) by {
                        if k == a.len() - 1 {
                            assert(a.push(n)[k] == last);
                        }
                    }
                }
            }
            let res = find_action(covered, longer);
            if res.is_some() {
                proof {
                    let p = res->0@;
                    assert(prefix_of(a, p)) by {
                        assert forall|k: int| 0 <= k < a.len() implies #[trigger] p[k] == a[k] by {
                            assert(p[k] == a.push(n)[k]);
                        }
                    }
                    lemma_neighbour_directions(last);
                    assert forall|q: Seq<usize>| completes(covered, a, q) && q != p implies turns_first(
                        p,
                        q,
                        a.len() as int,
                    ) by {
                        lemma_first_alternative(covered, a, nbs@, idx as int, p, q);
                    }
                }
                return res;
            }
        }
        idx = idx + 1;
    }
    proof {
        assert forall|p: Seq<usize>| !completes(covered, a, p) by {
            if completes(covered, a, p) {
                if p.len() == a.len() {
                    assert(p =~= a);
                } else {
                    let n = p[a.len() as int];
                    assert(p[a.len() - 1] == last);
                    let j = a.len() - 1;
                    assert(grid_table()[p[j] as int].contains(p[j + 1]));
                    assert(spec_neighbours(last as int).contains(n));
                    let k = choose|k: int| 0 <= k < nbs@.len() && nbs@[k] == n;
                    lemma_path_mask(p, n as u32);
                    assert(p.contains(n));
                    if a.contains(n) {
                        let j = choose|j: int| 0 <= j < a.len() && a[j] == n;
                        assert(p[j] == n);
                    }
                    assert(prefix_of(a.push(n), p)) by {
                        assert forall|j: int| 0 <= j < a.push(n).len() implies #[trigger] p[j] == a.push(n)[j] by {
                        }
                    }
                    assert(completes(covered, a.push(nbs@[k]), p));
                }
            }
        }
    }
    None
}

/// The cells of `p` in reverse order.
pub fn reversed(p: &Vec<usize>) -> (res: Vec<usize>)
    ensures
        res@ == p@.reverse(),
{
    let mut res: Vec<usize> = Vec::new();
    let mut k: usize = p.len();
    while k > 0
        invariant
            k <= p@.len(),
            res@.len() == p@.len() - k,
            forall|j: int| 0 <= j < res@.len() ==> #[trigger] res@[j] == p@[p@.len() - 1 - j],
        decreases k,
    {
        k = k - 1;
        res.push(p[k]);
    }
    assert(res@ =~= p@.reverse());
    res
}

/// Two grid cells are neighbours either way round.
proof fn lemma_neighbours_symmetric(i: usize, j: usize)
    requires
        i < 25,
        j < 25,
        grid_table()[i as int].contains(j),
    ensures
        grid_table()[j as int].contains(i),
{
    crate::board::lemma_neighbours_adjacent(i as int, j);
    crate::board::lemma_neighbours_adjacent(j as int, i);
}

/// A grid path walked backwards is a grid path over the same cells.
pub proof fn lemma_reverse_path(p: Seq<usize>)
    requires
        is_path(grid_table(), p),
    ensures
        is_path(grid_table(), p.reverse()),
        path_mask(p.reverse()) == path_mask(p),
        p.reverse().len() == p.len(),
        p.reverse()[0] == p.last(),
        p.reverse().last() == p[0],
{
    let r = p.reverse();
    let n = p.len() as int;
    assert(r.len() == n);
    assert forall|k: int| 0 <= k < n implies #[trigger] r[k] == p[n - 1 - k] by {}
    assert forall|a: int, b: int| 0 <= a < b < n implies r[a] != r[b] by {
        assert(r[a] == p[n - 1 - a]);
        assert(r[b] == p[n - 1 - b]);
    }
    assert(r.no_duplicates());
    assert forall|k: int| 0 <= k < n implies #[trigger] r[k] < 25 by {
        assert(r[k] == p[n - 1 - k]);
    }
    assert forall|k: int| 0 <= k < r.len() - 1 implies #[trigger] grid_table()[r[k] as int].contains(r[k + 1]) by {
        let j = n - 2 - k;
        assert(grid_table()[p[j] as int].contains(p[j + 1]));
        assert(r[k] == p[j + 1]);
        assert(r[k + 1] == p[j]);
        lemma_neighbours_symmetric(p[j], p[j + 1]);
    }
    assert forall|i: u32| #[trigger] has_cell(path_mask(r), i) == has_cell(path_mask(p), i) by {
        lemma_path_mask(p, i);
        lemma_path_mask(r, i);
        if p.contains(i as usize) {
            let k = choose|k: int| 0 <= k < n && p[k] == i as usize;
            assert(r[n - 1 - k] == i as usize);
        }
        if r.contains(i as usize) {
            let k = choose|k: int| 0 <= k < n && r[k] == i as usize;
            assert(p[n - 1 - k] == i as usize);
        }
    }
    crate::cells::lemma_same_cells(path_mask(r), path_mask(p));
}

/// A path of one cell covers one cell.
pub(crate) proof fn lemma_single_path_count(p: Seq<usize>)
    requires
        p.len() == 1,
        p[0] < 25,
    ensures
        cell_count(path_mask(p)) == 1,
{
    assert(p.drop_last().len() == 0);
    assert(path_mask(p.drop_last()) == 0u32);
    assert(p.last() == p[0]);
    assert(path_mask(p) == 0u32 | (1u32 << (p[0] as u32)));
    assert(0u32 | (1u32 << (p[0] as u32)) == 1u32 << (p[0] as u32)) by (bit_vector);
    crate::cells::lemma_single_count(p[0] as u32);
}

/// `path` is the look-ahead player's choice on the position (`groups`,
/// `score`, `depth`): with the table of values starting empty, the joins
/// the position offers are valued in turn, and `path`, walked backwards, is
/// the first path (trying right, down, left, up) from the cell the first
/// join of greatest value joins into through the cells of its group: no
/// join is worth more, and every join before it is worth less; the joins
/// valued are those of every group of two or more cells into every cell the
/// action data lets it end on.
pub open spec fn best_choice(
    groups: Map<u32, GroupValue>,
    score: u32,
    depth: nat,
    data: Map<u32, u32>,
    path: Seq<usize>,
) -> bool {
    exists|key: Seq<(u32, GroupValue)>, after: Table, steps: Seq<ChildStep>|
        #![trigger picks_valued(groups, score, depth, data, pairs_of(key, data), Map::empty(), after, steps)]
        {
            let pairs = pairs_of(key, data);
            let best = best_index(step_values(steps));
            &&& is_listing(groups, key)
            &&& picks_valued(groups, score, depth, data, pairs, Map::empty(), after, steps)
            &&& pairs.len() > 0
            &&& forall|i: int|
                0 <= i < steps.len() ==> #[trigger] step_values(steps)[i] <= step_values(steps)[best]
            &&& forall|i: int| 0 <= i < best ==> #[trigger] step_values(steps)[i] < step_values(steps)[best]
            &&& forall|k: u32, e: u32|
                #[trigger] groups.contains_key(k) && cell_count(k) > 1 && #[trigger] has_cell(data[k], e)
                    ==> pairs.contains((k, number_of(groups[k]), e as usize))
            &&& path_mask(path) == pairs[best].0
            &&& path.last() == pairs[best].2
            &&& first_completion(pairs[best].0, seq![pairs[best].2], path.reverse())
        }
}

impl<'a> LucidState<'a> {
    /// The joins this position offers: for each group of two or more cells,
    /// in the order of the groups' listing, each cell the action data lets
    /// the join end on, in increasing order; with the group's number.
    #[verifier::rlimit(30)]
    fn join_pairs(&self, key: &Vec<(u32, GroupValue)>) -> (res: Vec<(u32, u32, usize)>)
        requires
            is_listing(self.actions@, key@),
            groups_fit(self.actions@, self.data@),
        ensures
            res@ == pairs_of(key@, self.data@),
            forall|j: int|
                0 <= j < res@.len() ==> {
                    let (c, n, e) = #[trigger] res@[j];
                    &&& self.actions@.contains_key(c)
                    &&& cell_count(c) > 1
                    &&& self.data@.contains_key(c)
                    &&& has_cell(self.data@[c], e as u32)
                    &&& e < 32
                },
            (exists|k: u32| #[trigger] self.actions@.contains_key(k) && cell_count(k) > 1
                && self.data@[k] != 0) ==> res@.len() > 0,
    {
        let ghost d = self.data@;
        let mut pairs: Vec<(u32, u32, usize)> = Vec::new();
        let mut i: usize = 0;
        assert(key@.take(0) =~= Seq::<(u32, GroupValue)>::empty());
        while i < key.len()
            invariant
                i <= key@.len(),
                d == self.data@,
                is_listing(self.actions@, key@),
                groups_fit(self.actions@, self.data@),
                pairs@ == pairs_of(key@.take(i as int), d),
                forall|j: int|
                    0 <= j < pairs@.len() ==> {
                        let (c, n, e) = #[trigger] pairs@[j];
                        &&& self.actions@.contains_key(c)
                        &&& cell_count(c) > 1
                        &&& self.data@.contains_key(c)
                        &&& has_cell(self.data@[c], e as u32)
                        &&& e < 32
                    },
                (exists|j: int| 0 <= j < i && #[trigger] cell_count(key@[j].0) > 1 && d[key@[j].0] != 0)
                    ==> pairs@.len() > 0,
            decreases key@.len() - i,
        {
            let (covered, value) = key[i];
            assert(self.actions@.contains_key(key@[i as int].0));
            let ghost before_group = pairs@;
            proof {
                assert(key@.take(i + 1).drop_last() =~= key@.take(i as int));
                assert(key@.take(i + 1).last() == (covered, value));
            }
            if count_cells(covered) > 1 {
                let number: u32 = match value {
                    Some((n, _)) => n,
                    None => 0,
                };
                let ends: u32 = match self.data.get(&covered) {
                    Some(e) => *e,
                    None => 0,
                };
                proof {
                    assert(cells_of(ends, 0) =~= Seq::<usize>::empty());
                    assert(pairs@ =~= before_group + ends_pairs(covered, number, cells_of(ends, 0)));
                }
                let mut end: usize = 0;
                while end < 32
                    invariant
                        end <= 32,
                        d == self.data@,
                        self.actions@.contains_key(covered),
                        cell_count(covered) > 1,
                        self.data@.contains_key(covered),
                        ends == self.data@[covered],
                        pairs@ == before_group + ends_pairs(covered, number, cells_of(ends, end as nat)),
                        forall|j: int|
                            0 <= j < pairs@.len() ==> {
                                let (c, n, e) = #[trigger] pairs@[j];
                                &&& self.actions@.contains_key(c)
                                &&& cell_count(c) > 1
                                &&& self.data@.contains_key(c)
                                &&& has_cell(self.data@[c], e as u32)
                                &&& e < 32
                            },
                        (exists|c: u32| c < end && #[trigger] has_cell(ends, c)) ==> pairs@.len() > before_group.len(),
                        pairs@.len() >= before_group.len(),
                    decreases 32 - end,
                {
                    proof {
                        lemma_ends_pairs_push(covered, number, cells_of(ends, end as nat), end);
                    }
                    if holds_cell(ends, end) {
                        pairs.push((covered, number, end));
                        assert(cells_of(ends, (end + 1) as nat) =~= cells_of(ends, end as nat).push(end));
                    } else {
                        assert(cells_of(ends, (end + 1) as nat) =~= cells_of(ends, end as nat));
                    }
                    end = end + 1;
                }
                proof {
                    if ends != 0 {
                        crate::cells::lemma_nonzero_has_cell(ends);
                        let c = choose|c: u32| #[trigger] has_cell(ends, c);
                        assert(c < 32);
                    }
                }
            } else {
                assert(pairs@ =~= before_group + Seq::<(u32, u32, usize)>::empty());
            }
            i = i + 1;
        }
        proof {
            assert(key@.take(i as int) =~= key@);
            if exists|k: u32| #[trigger] self.actions@.contains_key(k) && cell_count(k) > 1
                && self.data@[k] != 0 {
                let k = choose|k: u32| #[trigger] self.actions@.contains_key(k) && cell_count(k) > 1
                    && self.data@[k] != 0;
                let j = choose|j: int| 0 <= j < key@.len() && key@[j].0 == k;
                assert(cell_count(key@[j].0) > 1 && d[key@[j].0] != 0);
            }
        }
        pairs
    }

    /// The move of best value: for each group of two or more cells (in the
    /// order of the groups' listing) and each cell the group can be joined into, the
    /// value of the position after that join; the first of greatest value
    /// wins, written as a path through the group's cells that ends on the
    /// cell joined into.
    #[verifier::rlimit(30)]
    pub fn best_action(&self) -> (res: Vec<usize>)
        requires
            groups_fit(self.actions@, self.data@),
            ends_reachable(self.data@),
            self.depth < u32::MAX,
            exists|k: u32| #[trigger] self.actions@.contains_key(k) && cell_count(k) > 1
                && self.data@[k] != 0,
        ensures
            is_path(grid_table(), res@),
            res@.len() >= 2,
            self.actions@.contains_key(path_mask(res@)),
            has_cell(self.data@[path_mask(res@)], res@.last() as u32),
            best_choice(self.actions@, self.score, self.depth as nat, self.data@, res@),
    {
        let ghost groups = self.actions@;
        let ghost d = self.data@;
        let ghost depth = self.depth as nat;
        let key = self.create_key();
        let pairs = self.join_pairs(&key);
        let mut store = Memo::new();
        let mut best: Option<(u32, u32, usize)> = None;
        let ghost mut steps: Seq<ChildStep> = Seq::empty();
        let mut j: usize = 0;
        assert(pairs@.take(0) =~= Seq::<(u32, u32, usize)>::empty());
        while j < pairs.len()
            invariant
                j <= pairs@.len(),
                groups == self.actions@,
                d == self.data@,
                depth == self.depth as nat,
                groups_fit(self.actions@, self.data@),
                self.depth < u32::MAX,
                store.wf(),
                forall|x: int|
                    0 <= x < pairs@.len() ==> {
                        let (c, n, e) = #[trigger] pairs@[x];
                        &&& self.actions@.contains_key(c)
                        &&& cell_count(c) > 1
                        &&& self.data@.contains_key(c)
                        &&& has_cell(self.data@[c], e as u32)
                        &&& e < 32
                    },
                picks_valued(groups, self.score, depth, d, pairs@.take(j as int), Map::empty(), store@, steps),
                steps.len() == j,
                best is None <==> j == 0,
                best matches Some((v, c, e)) ==> {
                    let b = best_index(step_values(steps));
                    &&& v == step_values(steps)[b]
                    &&& c == pairs@[b].0
                    &&& e == pairs@[b].2
                },
            decreases pairs@.len() - j,
        {
            let (covered, number, end) = pairs[j];
            let child = self.next(covered, number, end);
            proof {
                crate::lucid::lemma_join_keeps_fit(
                    self.actions@,
                    child.actions@,
                    covered,
                    end,
                    self.data@,
                );
                assert(joins_into(
                    groups,
                    self.score,
                    depth,
                    d,
                    covered,
                    number,
                    end,
                    child.actions@,
                    child.score,
                    child.depth as nat,
                ));
            }
            let ghost before_table = store@;
            let v = child.state_value(&mut store);
            let ghost prev_steps = steps;
            proof {
                assert(pairs@.take(j + 1) =~= pairs@.take(j as int).push((covered, number, end)));
                lemma_pick_step(
                    groups,
                    self.score,
                    depth,
                    d,
                    pairs@.take(j as int),
                    Map::empty(),
                    before_table,
                    store@,
                    prev_steps,
                    (covered, number, end),
                    child.actions@,
                    child.score,
                    v,
                );
                lemma_best_index_push(step_values(prev_steps), v);
                steps = steps.push((child.actions@, child.score, v, before_table));
            }
            let better = match best {
                None => true,
                Some((b, _, _)) => v > b,
            };
            if better {
                best = Some((v, covered, end));
            }
            proof {
                if prev_steps.len() > 0 {
                    let b0 = best_index(step_values(prev_steps));
                    assert(step_values(steps)[b0] == step_values(prev_steps)[b0]);
                }
            }
            j = j + 1;
        }
        proof {
            assert(pairs@.take(j as int) =~= pairs@);
            assert(pairs@.len() > 0);
            lemma_best_index(step_values(steps));
            let b = best_index(step_values(steps));
            assert(0 <= b < pairs@.len());
            let chosen = pairs@[b];
            assert(self.actions@.contains_key(chosen.0));
        }
        let (covered, end) = match best {
            Some((_, c, e)) => (c, e),
            None => (0, 0),
        };
        assert(self.data@.contains_key(covered) && has_cell(self.data@[covered], end as u32));
        assert(end < 32);
        let ghost p = choose|p: Seq<usize>|
            #[trigger] short_paths().contains(p) && path_mask(p) == covered && p.last() == end as usize;
        proof {
            assert(short_path(p));
            assert(p.last() < 25);
            lemma_path_mask(p, end as u32);
            assert(p.contains(p.last()));
            crate::paths::lemma_single_is_path(grid_table(), end);
        }
        let start = vec![end];
        proof {
            assert(start@ =~= seq![end]);
            lemma_reverse_path(p);
            let q = p.reverse();
            assert(prefix_of(start@, q));
            assert(completes(covered, start@, q));
        }
        match find_action(covered, start) {
            Some(path) => {
                let res = reversed(&path);
                proof {
                    lemma_reverse_path(path@);
                    assert(path@.reverse().last() == path@[0]);
                    if path@.len() == 1 {
                        lemma_single_path_count(path@);
                    }
                    lemma_best_index(step_values(steps));
                    assert forall|k: u32, e: u32|
                        #[trigger] self.actions@.contains_key(k) && cell_count(k) > 1
                            && #[trigger] has_cell(self.data@[k], e) implies pairs_of(
                        key@,
                        self.data@,
                    ).contains((k, number_of(self.actions@[k]), e as usize)) by {
                        let j = choose|j: int| 0 <= j < key@.len() && key@[j].0 == k;
                        lemma_pairs_of_complete(key@, self.data@, j, e as usize);
                    }
                    assert(picks_valued(
                        self.actions@,
                        self.score,
                        self.depth as nat,
                        self.data@,
                        pairs_of(key@, self.data@),
                        Map::empty(),
                        store@,
                        steps,
                    ));
                    assert(res@.reverse() =~= path@);
                }
                res
            },
            None => {
                proof {
                    assert(false);
                }
                Vec::new()
            },
        }
    }
}

/// The move the look-ahead player picks on the view of a board is a legal
/// move of that board: a grid path of two or more cells whose mask is one
/// of the board's groups.
pub proof fn lemma_group_path_is_move(b: Seq<u32>, groups: Map<u32, Option<(u32, bool)>>, r: Seq<usize>)
    requires
        b.len() == 25,
        board_groups(b, groups),
        is_path(grid_table(), r),
        r.len() >= 2,
        groups.contains_key(path_mask(r)),
    ensures
        is_move(b, r),
{
    let k = path_mask(r);
    let p = choose|p: Seq<usize>| is_path(board_table(b), p) && p.len() <= 4 && #[trigger] path_mask(p) == k;
    assert forall|j: int| 0 <= j < r.len() implies b[#[trigger] r[j] as int] == b[p[0] as int] by {
        lemma_path_mask(r, r[j] as u32);
        lemma_path_mask(p, r[j] as u32);
        assert(r.contains(r[j]));
        crate::lucid::lemma_board_path_equal(b, p, r[j]);
    }
    assert forall|j: int| 0 <= j < r.len() - 1 implies crate::board::adjacent(#[trigger] r[j] as int, r[j + 1] as int) by {
        assert(grid_table()[r[j] as int].contains(r[j + 1]));
        crate::board::lemma_neighbours_adjacent(r[j] as int, r[j + 1]);
    }
    assert(b[r[0] as int] == b[p[0] as int]);
}

/// While a board has a move, its look-ahead view has a group of two or more
/// cells to join, into at least one cell when the action data lists every
/// join.
pub proof fn lemma_open_board_has_group(
    b: Seq<u32>,
    groups: Map<u32, Option<(u32, bool)>>,
    data: Map<u32, u32>,
)
    requires
        b.len() == 25,
        board_groups(b, groups),
        joins_listed(data),
        exists|p: Seq<usize>| is_move(b, p),
    ensures
        exists|k: u32| #[trigger] groups.contains_key(k) && cell_count(k) > 1 && data[k] != 0,
{
    let p = choose|p: Seq<usize>| is_move(b, p);
    let q = seq![p[0], p[1]];
    assert(p[0] != p[1]);
    assert(crate::board::adjacent(p[0] as int, p[1] as int));
    crate::board::lemma_same_neighbours(b, p[0] as int, p[1]);
    assert(board_table(b)[p[0] as int].contains(p[1]));
    assert(is_path(board_table(b), q));
    let k = path_mask(q);
    assert(groups.contains_key(k));
    lemma_path_mask(q, p[0] as u32);
    lemma_path_mask(q, p[1] as u32);
    assert(q.contains(p[0]) && q.contains(p[1]));
    crate::cells::lemma_two_cells(k, p[0] as u32, p[1] as u32);
    crate::board::lemma_neighbours_adjacent(p[0] as int, p[1]);
    assert(grid_table()[p[0] as int].contains(p[1]));
    assert(is_path(grid_table(), q));
    assert(short_paths().contains(q));
}

/// The move the look-ahead player makes on `state`, as the bot plays it:
/// none once no move is left; otherwise the best action of the view of the
/// state, which is a move of the state. The action data must list every
/// join of two to four cells and give only ends that a path through the
/// group reaches, as `ActionData::create` builds it.
pub fn choose_move(state: &State, data: &ActionData) -> (res: Option<Vec<usize>>)
    requires
        joins_listed(data@),
        ends_reachable(data@),
    ensures
        res is None <==> !exists|p: Seq<usize>| is_move(state.board@, p),
        res matches Some(a) ==> is_move(state.board@, a@),
        res matches Some(a) ==> exists|groups: Map<u32, GroupValue>|
            #[trigger] board_groups(state.board@, groups) && best_choice(
                groups,
                state.score,
                0,
                data@,
                a@,
            ),
{
    if state.is_game_over() {
        return None;
    }
    let lucid = LucidState::create(state, data);
    proof {
        lemma_open_board_has_group(state.board@, lucid.actions@, data@);
    }
    let action = lucid.best_action();
    proof {
        lemma_group_path_is_move(state.board@, lucid.actions@, action@);
    }
    Some(action)
}

/// The look-ahead player together with the action data it needs, which it
/// builds itself with `ActionData::create`, so that the data records every
/// path of one to four cells.
pub struct Planner {
    data: ActionData,
}

impl Planner {
    /// The action data the player uses.
    pub closed spec fn table(&self) -> Map<u32, u32> {
        self.data@
    }

    /// The action data the player uses.
    pub fn data(&self) -> (res: &ActionData)
        ensures
            res@ == self.table(),
    {
        &self.data
    }

    /// The data records every path of one to four cells.
    #[verifier::type_invariant]
    spec fn records_short_paths(self) -> bool {
        records(self.data@, short_paths())
    }

    /// Builds the action data of every path of one to four cells.
    pub fn new() -> (res: Self)
        ensures
            records(res.table(), short_paths()),
    {
        let data = ActionData::create();
        Planner { data }
    }

    /// The move the look-ahead player makes on `state`: none once no move
    /// is left; otherwise the best action of the view of the state, which
    /// is a move of the state.
    pub fn pick_move(&self, state: &State) -> (res: Option<Vec<usize>>)
        ensures
            res is None <==> !exists|p: Seq<usize>| is_move(state.board@, p),
            res matches Some(a) ==> is_move(state.board@, a@),
            res matches Some(a) ==> exists|groups: Map<u32, GroupValue>|
                #[trigger] board_groups(state.board@, groups) && best_choice(
                    groups,
                    state.score,
                    0,
                    self.table(),
                    a@,
                ),
    {
        proof {
            use_type_invariant(self);
            lemma_records_usable(self.data@);
        }
        choose_move(state, &self.data)
    }
}

} // verus!
