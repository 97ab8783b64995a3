//! Paths through a neighbour table, and the depth-first enumeration of them
//! that move generation performs.
//!
//! A neighbour table lists, for each of the 25 cells, the cells a path may
//! step to next. The enumeration is stated once here, for any table, and the
//! board-specific facts (which table a board gives) live in `board`.
use vstd::prelude::*;

verus! {

/// Every list of the table names a cell of the board, and there are 25 lists.
pub open spec fn valid_table(t: Seq<Seq<usize>>) -> bool {
    &&& t.len() == 25
    &&& forall|i: int, k: int| 0 <= i < 25 && 0 <= k < t[i].len() ==> #[trigger] t[i][k] < 25
}

/// `p` is a path of `t`: nonempty, on the board, no cell twice, and each
/// step goes to a cell listed for the one before it.
pub open spec fn is_path(t: Seq<Seq<usize>>, p: Seq<usize>) -> bool {
    &&& p.len() >= 1
    &&& p.no_duplicates()
    &&& forall|k: int| 0 <= k < p.len() ==> #[trigger] p[k] < 25
    &&& forall|k: int| 0 <= k < p.len() - 1 ==> #[trigger] t[p[k] as int].contains(p[k + 1])
}

/// `q` continues `a` by at least one more cell.
pub open spec fn strictly_extends(q: Seq<usize>, a: Seq<usize>) -> bool {
    &&& a.len() < q.len()
    &&& forall|k: int| 0 <= k < a.len() ==> #[trigger] q[k] == a[k]
}

/// The paths found below `a`, in the order the depth-first search emits
/// them: for each listed next cell not yet on `a`, first everything below
/// the longer path, then the longer path itself.
pub open spec fn extensions(t: Seq<Seq<usize>>, a: Seq<usize>) -> Seq<Seq<usize>>
    decreases 25 - a.len(), t[a.last() as int].len() + 1,
{
    if a.len() == 0 || a.len() >= 25 {
        Seq::empty()
    } else {
        extensions_via(t, a, t[a.last() as int])
    }
}

/// The part of `extensions(t, a)` contributed by the candidate cells `nb`.
pub open spec fn extensions_via(t: Seq<Seq<usize>>, a: Seq<usize>, nb: Seq<usize>) -> Seq<
    Seq<usize>,
>
    decreases 25 - a.len(), nb.len(),
{
    if nb.len() == 0 || a.len() >= 25 {
        Seq::empty()
    } else {
        extensions_via(t, a, nb.drop_last()) + step_paths(t, a, nb.last())
    }
}

/// What stepping from `a` to `n` contributes: nothing when `n` is already
/// on `a`, else every path below `a + [n]` followed by `a + [n]` itself.
pub open spec fn step_paths(t: Seq<Seq<usize>>, a: Seq<usize>, n: usize) -> Seq<Seq<usize>>
    decreases 25 - a.len(), 0nat,
{
    if a.contains(n) || a.len() >= 25 {
        Seq::empty()
    } else {
        extensions(t, a.push(n)).push(a.push(n))
    }
}

/// The moves of length two or more, from start cells `0..k` in turn.
pub open spec fn moves_from(t: Seq<Seq<usize>>, k: int) -> Seq<Seq<usize>>
    decreases k,
{
    if k <= 0 {
        Seq::empty()
    } else {
        moves_from(t, k - 1) + extensions(t, seq![(k - 1) as usize])
    }
}

/// The paths of any length, from start cells `0..k` in turn; each start cell
/// contributes its longer paths and then the single cell itself.
pub open spec fn paths_from(t: Seq<Seq<usize>>, k: int) -> Seq<Seq<usize>>
    decreases k,
{
    if k <= 0 {
        Seq::empty()
    } else {
        paths_from(t, k - 1) + extensions(t, seq![(k - 1) as usize]).push(seq![(k - 1) as usize])
    }
}

/// A sequence without duplicates of cells below 25, missing a cell below 25,
/// is shorter than 25.
pub proof fn lemma_room_left(a: Seq<usize>, n: usize)
    requires
        a.no_duplicates(),
        forall|k: int| 0 <= k < a.len() ==> #[trigger] a[k] < 25,
        n < 25,
        !a.contains(n),
    ensures
        a.len() < 25,
{
    broadcast use vstd::set_lib::range_set_properties;

    let full = Set::<usize>::range(0, 25);
    assert(full.len() == 25);
    let rest = full.remove(n);
    assert(full.contains(n));
    assert(rest.len() == 24);
    a.unique_seq_to_set();
    assert forall|x: usize| a.to_set().contains(x) implies rest.contains(x) by {
        let k = choose|k: int| 0 <= k < a.len() && a[k] == x;
        assert(a[k] < 25);
    }
    vstd::set_lib::lemma_len_subset(a.to_set(), rest);
}

/// Membership in a concatenation.
pub proof fn lemma_contains_concat(s1: Seq<Seq<usize>>, s2: Seq<Seq<usize>>, x: Seq<usize>)
    ensures
        (s1 + s2).contains(x) <==> (s1.contains(x) || s2.contains(x)),
{
    if s1.contains(x) {
        let i = choose|i: int| 0 <= i < s1.len() && s1[i] == x;
        assert((s1 + s2)[i] == x);
    }
    if s2.contains(x) {
        let i = choose|i: int| 0 <= i < s2.len() && s2[i] == x;
        assert((s1 + s2)[s1.len() + i] == x);
    }
    if (s1 + s2).contains(x) {
        let i = choose|i: int| 0 <= i < (s1 + s2).len() && (s1 + s2)[i] == x;
        if i < s1.len() {
            assert(s1[i] == x);
        } else {
            assert(s2[i - s1.len()] == x);
        }
    }
}

/// Membership after a push.
pub proof fn lemma_contains_push(s: Seq<Seq<usize>>, y: Seq<usize>, x: Seq<usize>)
    ensures
        s.push(y).contains(x) <==> (s.contains(x) || x == y),
{
    if s.contains(x) {
        let i = choose|i: int| 0 <= i < s.len() && s[i] == x;
        assert(s.push(y)[i] == x);
    }
    if x == y {
        assert(s.push(y)[s.len() as int] == x);
    }
    if s.push(y).contains(x) {
        let i = choose|i: int| 0 <= i < s.push(y).len() && s.push(y)[i] == x;
        if i < s.len() {
            assert(s[i] == x);
        }
    }
}

/// Stepping from a path to a listed cell that is not on it gives a path.
pub proof fn lemma_step_is_path(t: Seq<Seq<usize>>, a: Seq<usize>, n: usize)
    requires
        valid_table(t),
        is_path(t, a),
        t[a.last() as int].contains(n),
        !a.contains(n),
    ensures
        is_path(t, a.push(n)),
{
    let k = choose|k: int| 0 <= k < t[a.last() as int].len() && t[a.last() as int][k] == n;
    assert(a[a.len() - 1] < 25);
    assert(n < 25);
    let p = a.push(n);
    assert forall|i: int, j: int| 0 <= i < p.len() && 0 <= j < p.len() && i != j implies p[i]
        != p[j] by {
        if i == a.len() {
            assert(a[j] == p[j]);
        } else if j == a.len() {
            assert(a[i] == p[i]);
        }
    }
    assert forall|i: int| 0 <= i < p.len() - 1 implies #[trigger] t[p[i] as int].contains(
        p[i + 1],
    ) by {
        if i < a.len() - 1 {
            assert(t[a[i] as int].contains(a[i + 1]));
        }
    }
}

/// Everything the search emits below a path is a path that strictly
/// extends it.
pub proof fn lemma_extensions_sound(t: Seq<Seq<usize>>, a: Seq<usize>, q: Seq<usize>)
    requires
        valid_table(t),
        is_path(t, a),
        extensions(t, a).contains(q),
    ensures
        is_path(t, q),
        strictly_extends(q, a),
    decreases 25 - a.len(), t[a.last() as int].len() + 1,
{
    if a.len() >= 25 {
    } else {
        lemma_via_sound(t, a, t[a.last() as int], q);
    }
}

/// Soundness of the part contributed by a list of candidates, each listed
/// for the last cell of the path.
pub proof fn lemma_via_sound(t: Seq<Seq<usize>>, a: Seq<usize>, nb: Seq<usize>, q: Seq<usize>)
    requires
        valid_table(t),
        is_path(t, a),
        a.len() < 25,
        forall|k: int| 0 <= k < nb.len() ==> t[a.last() as int].contains(#[trigger] nb[k]),
        extensions_via(t, a, nb).contains(q),
    ensures
        is_path(t, q),
        strictly_extends(q, a),
    decreases 25 - a.len(), nb.len(),
{
    if nb.len() == 0 {
    } else {
        let n = nb.last();
        let front = extensions_via(t, a, nb.drop_last());
        let here = step_paths(t, a, n);
        lemma_contains_concat(front, here, q);
        if front.contains(q) {
            assert forall|k: int| 0 <= k < nb.drop_last().len() implies t[a.last() as int].contains(
                #[trigger] nb.drop_last()[k],
            ) by {
                assert(nb.drop_last()[k] == nb[k]);
            }
            lemma_via_sound(t, a, nb.drop_last(), q);
        } else {
            assert(t[a.last() as int].contains(nb[nb.len() - 1]));
            assert(!a.contains(n));
            let b = a.push(n);
            lemma_step_is_path(t, a, n);
            lemma_contains_push(extensions(t, b), b, q);
            if q == b {
            } else {
                lemma_extensions_sound(t, b, q);
                assert forall|k: int| 0 <= k < a.len() implies #[trigger] q[k] == a[k] by {
                    assert(q[k] == b[k]);
                }
            }
        }
    }
}

/// Every path that strictly extends a path is emitted by the search below it.
pub proof fn lemma_extensions_complete(t: Seq<Seq<usize>>, a: Seq<usize>, q: Seq<usize>)
    requires
        valid_table(t),
        is_path(t, a),
        is_path(t, q),
        strictly_extends(q, a),
    ensures
        extensions(t, a).contains(q),
    decreases 25 - a.len(), t[a.last() as int].len() + 1,
{
    let n = q[a.len() as int];
    let last = a.len() - 1;
    assert(q[last] == a[last]);
    assert(t[q[last] as int].contains(q[last + 1]));
    assert(n < 25);
    assert(!a.contains(n)) by {
        if a.contains(n) {
            let k = choose|k: int| 0 <= k < a.len() && a[k] == n;
            assert(q[k] == a[k]);
        }
    }
    lemma_room_left(a, n);
    lemma_via_complete(t, a, t[a.last() as int], q);
}

/// Completeness of the part contributed by a list of candidates that holds
/// the next cell of `q`.
pub proof fn lemma_via_complete(t: Seq<Seq<usize>>, a: Seq<usize>, nb: Seq<usize>, q: Seq<usize>)
    requires
        valid_table(t),
        is_path(t, a),
        is_path(t, q),
        strictly_extends(q, a),
        a.len() < 25,
        nb.contains(q[a.len() as int]),
    ensures
        extensions_via(t, a, nb).contains(q),
    decreases 25 - a.len(), nb.len(),
{
    let n = q[a.len() as int];
    let front = extensions_via(t, a, nb.drop_last());
    let here = step_paths(t, a, nb.last());
    lemma_contains_concat(front, here, q);
    if nb.last() == n {
        assert(!a.contains(n)) by {
            if a.contains(n) {
                let k = choose|k: int| 0 <= k < a.len() && a[k] == n;
                assert(q[k] == a[k]);
            }
        }
        let b = a.push(n);
        lemma_contains_push(extensions(t, b), b, q);
        if q.len() == b.len() {
            assert(q =~= b);
        } else {
            let last = a.len() - 1;
            assert(q[last] == a[last]);
            assert(t[q[last] as int].contains(q[last + 1]));
            lemma_step_is_path(t, a, n);
            lemma_extensions_complete(t, b, q);
        }
    } else {
        let k = choose|k: int| 0 <= k < nb.len() && nb[k] == n;
        assert(nb.drop_last()[k] == n);
        lemma_via_complete(t, a, nb.drop_last(), q);
    }
}

/// A single cell is a path.
pub proof fn lemma_single_is_path(t: Seq<Seq<usize>>, i: usize)
    requires
        i < 25,
    ensures
        is_path(t, seq![i]),
{
}

/// The search from start cells `0..k` emits exactly the paths of two or
/// more cells that begin below `k`.
pub proof fn lemma_moves_from(t: Seq<Seq<usize>>, k: int, q: Seq<usize>)
    requires
        valid_table(t),
        0 <= k <= 25,
    ensures
        moves_from(t, k).contains(q) <==> (is_path(t, q) && q.len() >= 2 && q[0] < k),
    decreases k,
{
    if k > 0 {
        let start = seq![(k - 1) as usize];
        lemma_moves_from(t, k - 1, q);
        lemma_contains_concat(moves_from(t, k - 1), extensions(t, start), q);
        lemma_single_is_path(t, (k - 1) as usize);
        if extensions(t, start).contains(q) {
            lemma_extensions_sound(t, start, q);
        }
        if is_path(t, q) && q.len() >= 2 && q[0] == k - 1 {
            lemma_extensions_complete(t, start, q);
        }
    }
}

/// The search that also emits single cells, from start cells `0..k`, emits
/// exactly the paths that begin below `k`.
pub proof fn lemma_paths_from(t: Seq<Seq<usize>>, k: int, q: Seq<usize>)
    requires
        valid_table(t),
        0 <= k <= 25,
    ensures
        paths_from(t, k).contains(q) <==> (is_path(t, q) && q[0] < k),
    decreases k,
{
    if k > 0 {
        let start = seq![(k - 1) as usize];
        lemma_paths_from(t, k - 1, q);
        lemma_contains_push(extensions(t, start), start, q);
        lemma_contains_concat(paths_from(t, k - 1), extensions(t, start).push(start), q);
        lemma_single_is_path(t, (k - 1) as usize);
        if extensions(t, start).contains(q) {
            lemma_extensions_sound(t, start, q);
        }
        if is_path(t, q) && q[0] == k - 1 {
            if q.len() >= 2 {
                lemma_extensions_complete(t, start, q);
            } else {
                assert(q =~= start);
            }
        }
    }
}

/// No list of the table names a cell twice.
pub open spec fn lists_distinct(t: Seq<Seq<usize>>) -> bool {
    forall|i: int| 0 <= i < 25 ==> #[trigger] t[i].no_duplicates()
}

/// A path emitted for the candidates `nb` takes its next cell after `a` from
/// `nb`.
pub proof fn lemma_via_next_cell(t: Seq<Seq<usize>>, a: Seq<usize>, nb: Seq<usize>, q: Seq<usize>)
    requires
        valid_table(t),
        is_path(t, a),
        a.len() < 25,
        forall|k: int| 0 <= k < nb.len() ==> t[a.last() as int].contains(#[trigger] nb[k]),
        extensions_via(t, a, nb).contains(q),
    ensures
        nb.contains(q[a.len() as int]),
    decreases nb.len(),
{
    let n = nb.last();
    let front = extensions_via(t, a, nb.drop_last());
    let here = step_paths(t, a, n);
    lemma_contains_concat(front, here, q);
    if front.contains(q) {
        assert forall|k: int| 0 <= k < nb.drop_last().len() implies t[a.last() as int].contains(
            #[trigger] nb.drop_last()[k],
        ) by {
            assert(nb.drop_last()[k] == nb[k]);
        }
        lemma_via_next_cell(t, a, nb.drop_last(), q);
        let k = choose|k: int|
            0 <= k < nb.drop_last().len() && nb.drop_last()[k] == q[a.len() as int];
        assert(nb[k] == q[a.len() as int]);
    } else {
        assert(t[a.last() as int].contains(nb[nb.len() - 1]));
        let b = a.push(n);
        lemma_step_is_path(t, a, n);
        lemma_contains_push(extensions(t, b), b, q);
        if q != b {
            lemma_extensions_sound(t, b, q);
            assert(q[a.len() as int] == b[a.len() as int]);
        }
        assert(nb[nb.len() - 1] == q[a.len() as int]);
    }
}

/// The search below a path emits no path twice.
pub proof fn lemma_extensions_distinct(t: Seq<Seq<usize>>, a: Seq<usize>)
    requires
        valid_table(t),
        lists_distinct(t),
        is_path(t, a),
    ensures
        extensions(t, a).no_duplicates(),
    decreases 25 - a.len(), t[a.last() as int].len() + 1,
{
    if a.len() < 25 {
        assert(a[a.len() - 1] < 25);
        lemma_via_distinct(t, a, t[a.last() as int]);
    }
}

/// The part contributed by distinct candidates emits no path twice.
pub proof fn lemma_via_distinct(t: Seq<Seq<usize>>, a: Seq<usize>, nb: Seq<usize>)
    requires
        valid_table(t),
        lists_distinct(t),
        is_path(t, a),
        a.len() < 25,
        nb.no_duplicates(),
        forall|k: int| 0 <= k < nb.len() ==> t[a.last() as int].contains(#[trigger] nb[k]),
    ensures
        extensions_via(t, a, nb).no_duplicates(),
    decreases 25 - a.len(), nb.len(),
{
    if nb.len() > 0 {
        let n = nb.last();
        let rest = nb.drop_last();
        let front = extensions_via(t, a, rest);
        let here = step_paths(t, a, n);
        assert forall|k: int| 0 <= k < rest.len() implies t[a.last() as int].contains(
            #[trigger] rest[k],
        ) by {
            assert(rest[k] == nb[k]);
        }
        lemma_via_distinct(t, a, rest);
        if !a.contains(n) {
            assert(t[a.last() as int].contains(nb[nb.len() - 1]));
            let b = a.push(n);
            lemma_step_is_path(t, a, n);
            lemma_extensions_distinct(t, b);
            assert forall|i: int, j: int|
                0 <= i < extensions(t, b).len() && 0 <= j < seq![b].len() implies extensions(
                t,
                b,
            )[i] != seq![b][j] by {
                let x = extensions(t, b)[i];
                assert(extensions(t, b).contains(x));
                lemma_extensions_sound(t, b, x);
            }
            vstd::seq_lib::lemma_no_dup_in_concat(extensions(t, b), seq![b]);
            assert(extensions(t, b) + seq![b] =~= here);
            assert forall|i: int, j: int| 0 <= i < front.len() && 0 <= j < here.len() implies front[i]
                != here[j] by {
                let x = front[i];
                let y = here[j];
                assert(front.contains(x));
                assert(here.contains(y));
                lemma_via_next_cell(t, a, rest, x);
                lemma_contains_push(extensions(t, b), b, y);
                if y != b {
                    lemma_extensions_sound(t, b, y);
                    assert(y[a.len() as int] == b[a.len() as int]);
                }
                assert(y[a.len() as int] == n);
                if x == y {
                    let k = choose|k: int| 0 <= k < rest.len() && rest[k] == x[a.len() as int];
                    assert(nb[k] == nb[nb.len() - 1]);
                }
            }
            vstd::seq_lib::lemma_no_dup_in_concat(front, here);
        } else {
            assert(front + here =~= front);
        }
    }
}

/// The search for moves from start cells `0..k` emits no move twice.
pub proof fn lemma_moves_from_distinct(t: Seq<Seq<usize>>, k: int)
    requires
        valid_table(t),
        lists_distinct(t),
        0 <= k <= 25,
    ensures
        moves_from(t, k).no_duplicates(),
    decreases k,
{
    if k > 0 {
        let start = seq![(k - 1) as usize];
        let front = moves_from(t, k - 1);
        let here = extensions(t, start);
        lemma_moves_from_distinct(t, k - 1);
        lemma_single_is_path(t, (k - 1) as usize);
        lemma_extensions_distinct(t, start);
        assert forall|i: int, j: int| 0 <= i < front.len() && 0 <= j < here.len() implies front[i]
            != here[j] by {
            assert(front.contains(front[i]));
            assert(here.contains(here[j]));
            lemma_moves_from(t, k - 1, front[i]);
            lemma_extensions_sound(t, start, here[j]);
            assert(here[j][0] == start[0]);
        }
        vstd::seq_lib::lemma_no_dup_in_concat(front, here);
    }
}

/// The search that also emits single cells, from start cells `0..k`, emits
/// no path twice.
pub proof fn lemma_paths_from_distinct(t: Seq<Seq<usize>>, k: int)
    requires
        valid_table(t),
        lists_distinct(t),
        0 <= k <= 25,
    ensures
        paths_from(t, k).no_duplicates(),
    decreases k,
{
    if k > 0 {
        let start = seq![(k - 1) as usize];
        let front = paths_from(t, k - 1);
        let here = extensions(t, start).push(start);
        lemma_paths_from_distinct(t, k - 1);
        lemma_single_is_path(t, (k - 1) as usize);
        lemma_extensions_distinct(t, start);
        assert forall|i: int, j: int|
            0 <= i < extensions(t, start).len() && 0 <= j < seq![start].len() implies extensions(
            t,
            start,
        )[i] != seq![start][j] by {
            let x = extensions(t, start)[i];
            assert(extensions(t, start).contains(x));
            lemma_extensions_sound(t, start, x);
        }
        vstd::seq_lib::lemma_no_dup_in_concat(extensions(t, start), seq![start]);
        assert(extensions(t, start) + seq![start] =~= here);
        assert forall|i: int, j: int| 0 <= i < front.len() && 0 <= j < here.len() implies front[i]
            != here[j] by {
            let y = here[j];
            assert(front.contains(front[i]));
            assert(here.contains(y));
            lemma_paths_from(t, k - 1, front[i]);
            lemma_contains_push(extensions(t, start), start, y);
            if y != start {
                lemma_extensions_sound(t, start, y);
            }
            assert(y[0] == start[0]);
        }
        vstd::seq_lib::lemma_no_dup_in_concat(front, here);
    }
}

} // verus!
