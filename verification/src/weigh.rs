//! How the look-ahead player weighs the joins of a position against the
//! refilled cells whose numbers are not known yet.
//!
//! A join is `(value, group, number)`; a refilled cell is `(cell, numbers)`,
//! `numbers` being the mask of the numbers 1, 2 and 3 it may still hold.
//! Joins are taken best first; a join that covers refilled cells counts
//! only for the numbers they may still hold (and uses those up), a join that
//! covers none counts for every way of filling them, and it ends the count.
use vstd::prelude::*;
use crate::cells::{cell_count, count_cells, has_cell, holds_cell};

verus! {

/// What one join does to the refilled cells `w`: its weight (the ways of
/// filling the cells it does not cover, or 0 when a covered cell cannot
/// hold its number), whether it covers none of them, and the cells with the
/// numbers it used up removed.
pub open spec fn pass(covered: u32, number: u32, w: Seq<(usize, u32)>) -> (u32, bool, Seq<(usize, u32)>)
    decreases w.len(),
{
    if w.len() == 0 {
        (1u32, true, Seq::empty())
    } else {
        let (p, none, rest) = pass(covered, number, w.drop_last());
        let (cell, numbers) = w.last();
        if has_cell(covered, cell as u32) {
            if number < 32 && has_cell(numbers, number) {
                (p, false, rest.push((cell, numbers & !(1u32 << number))))
            } else {
                (0u32, false, rest.push((cell, numbers)))
            }
        } else {
            (
                vstd::wrapping::u32_specs::wrapping_mul(p, cell_count(numbers) as u32),
                none,
                rest.push((cell, numbers)),
            )
        }
    }
}

/// The joins of `l` weighed in turn against the refilled cells `w`: the
/// weighted total (wrapping at 2^32), whether the count ended on a join
/// that covers no refilled cell, and the refilled cells as left.
pub open spec fn run_joins(l: Seq<(u32, u32, u32)>, w: Seq<(usize, u32)>) -> (u32, bool, Seq<(usize, u32)>)
    decreases l.len(),
{
    if l.len() == 0 {
        (0u32, false, w)
    } else {
        let (total, ended, left) = run_joins(l.drop_last(), w);
        if ended {
            (total, ended, left)
        } else {
            let (value, covered, number) = l.last();
            let (p, none, after) = pass(covered, number, left);
            (
                vstd::wrapping::u32_specs::wrapping_add(
                    total,
                    vstd::wrapping::u32_specs::wrapping_mul(p, value),
                ),
                none,
                after,
            )
        }
    }
}

/// The ways of filling the refilled cells `w`, wrapping at 2^32.
pub open spec fn ways(w: Seq<(usize, u32)>) -> u32
    decreases w.len(),
{
    if w.len() == 0 {
        1u32
    } else {
        vstd::wrapping::u32_specs::wrapping_mul(ways(w.drop_last()), cell_count(w.last().1) as u32)
    }
}

/// Three to the power `n`, wrapping at 2^32.
pub open spec fn pow3(n: nat) -> u32
    decreases n,
{
    if n == 0 {
        1u32
    } else {
        vstd::wrapping::u32_specs::wrapping_mul(pow3((n - 1) as nat), 3)
    }
}

/// The value of a position from its joins `l` (best first), its refilled
/// cells `w` and its score: the weighted total, plus the score for every
/// way of filling left when no join ended the count, over the number of
/// ways of filling the refilled cells.
pub open spec fn weighed(l: Seq<(u32, u32, u32)>, w: Seq<(usize, u32)>, score: u32) -> u32 {
    let (total, ended, left) = run_joins(l, w);
    let all = if ended {
        total
    } else {
        vstd::wrapping::u32_specs::wrapping_add(
            total,
            vstd::wrapping::u32_specs::wrapping_mul(ways(left), score),
        )
    };
    all / pow3(w.len())
}

/// Where `x` goes in `s` to keep it ordered best first after the entries
/// as good as it: the first entry of lower value.
pub open spec fn first_below(s: Seq<(u32, u32, u32)>, x: u32) -> int
    decreases s.len(),
{
    if s.len() == 0 {
        0
    } else if s[0].0 < x {
        0
    } else {
        1 + first_below(s.drop_first(), x)
    }
}

/// `s` ordered by decreasing value, entries of equal value in their order
/// in `s`.
pub open spec fn by_value(s: Seq<(u32, u32, u32)>) -> Seq<(u32, u32, u32)>
    decreases s.len(),
{
    if s.len() == 0 {
        Seq::empty()
    } else {
        let r = by_value(s.drop_last());
        r.insert(first_below(r, s.last().0), s.last())
    }
}

/// Three to the power of anything is odd.
proof fn lemma_pow3_odd(n: nat)
    ensures
        pow3(n) % 2 == 1,
    decreases n,
{
    if n > 0 {
        lemma_pow3_odd((n - 1) as nat);
        let d = pow3((n - 1) as nat);
        assert((d as nat * 3) % 4294967296 % 2 == 1) by (nonlinear_arith)
            requires
                d % 2 == 1,
        ;
    }
}

/// Three to the power `n`, wrapping at 2^32.
pub fn power_of_three(n: usize) -> (res: u32)
    ensures
        res == pow3(n as nat),
        res % 2 == 1,
{
    let mut d: u32 = 1;
    let mut k: usize = 0;
    while k < n
        invariant
            k <= n,
            d == pow3(k as nat),
        decreases n - k,
    {
        d = d.wrapping_mul(3);
        k = k + 1;
    }
    proof {
        lemma_pow3_odd(n as nat);
    }
    d
}

/// The entries before `pos` are as good as `x`, and the one at `pos` (if
/// any) is worse: `pos` is where `x` goes.
proof fn lemma_first_below(s: Seq<(u32, u32, u32)>, x: u32, pos: int)
    requires
        0 <= pos <= s.len(),
        forall|i: int| 0 <= i < pos ==> #[trigger] s[i].0 >= x,
        pos < s.len() ==> s[pos].0 < x,
    ensures
        first_below(s, x) == pos,
    decreases pos,
{
    if pos > 0 {
        let t = s.drop_first();
        assert forall|i: int| 0 <= i < pos - 1 implies #[trigger] t[i].0 >= x by {
            assert(t[i] == s[i + 1]);
        }
        if pos - 1 < t.len() {
            assert(t[pos - 1] == s[pos]);
        }
        lemma_first_below(t, x, pos - 1);
    }
}

/// Orders entries by decreasing value; entries of equal value keep their
/// order.
pub fn sort_by_score(list: Vec<(u32, u32, u32)>) -> (res: Vec<(u32, u32, u32)>)
    ensures
        res@ == by_value(list@),
        res@.len() == list@.len(),
        forall|i: int, j: int| 0 <= i < j < res@.len() ==> #[trigger] res@[i].0 >= #[trigger] res@[j].0,
{
    let mut sorted: Vec<(u32, u32, u32)> = Vec::new();
    let mut k: usize = 0;
    assert(list@.take(0) =~= Seq::<(u32, u32, u32)>::empty());
    while k < list.len()
        invariant
            k <= list@.len(),
            sorted@.len() == k,
            sorted@ == by_value(list@.take(k as int)),
            forall|i: int, j: int| 0 <= i < j < sorted@.len() ==> #[trigger] sorted@[i].0
                >= #[trigger] sorted@[j].0,
        decreases list@.len() - k,
    {
        let item = list[k];
        let mut pos: usize = 0;
        while pos < sorted.len() && sorted[pos].0 >= item.0
            invariant
                pos <= sorted@.len(),
                forall|i: int| 0 <= i < pos ==> #[trigger] sorted@[i].0 >= item.0,
            decreases sorted@.len() - pos,
        {
            pos = pos + 1;
        }
        let ghost before = sorted@;
        proof {
            lemma_first_below(before, item.0, pos as int);
            assert(list@.take(k + 1).drop_last() =~= list@.take(k as int));
            assert(list@.take(k + 1).last() == item);
        }
        sorted.insert(pos, item);
        assert(sorted@ =~= before.insert(pos as int, item));
        assert forall|i: int, j: int| 0 <= i < j < sorted@.len() implies #[trigger] sorted@[i].0
            >= #[trigger] sorted@[j].0 by {
            if j < pos {
                assert(sorted@[i] == before[i] && sorted@[j] == before[j]);
            } else if j == pos {
                assert(sorted@[i] == before[i]);
            } else if i == pos {
                assert(sorted@[j] == before[j - 1]);
                if pos < before.len() {
                    assert(before[pos as int].0 < item.0);
                    if j - 1 > pos {
                        assert(before[pos as int].0 >= before[j - 1].0);
                    }
                }
            } else if i < pos {
                assert(sorted@[i] == before[i] && sorted@[j] == before[j - 1]);
            } else {
                assert(sorted@[i] == before[i - 1] && sorted@[j] == before[j - 1]);
            }
        }
        k = k + 1;
    }
    assert(list@.take(k as int) =~= list@);
    sorted
}

/// Once the count has ended, on a join that covers no refilled cell, later
/// joins change nothing.
pub proof fn lemma_run_ended(l: Seq<(u32, u32, u32)>, w: Seq<(usize, u32)>, i: int)
    requires
        0 <= i <= l.len(),
        run_joins(l.take(i), w).1,
    ensures
        run_joins(l, w) == run_joins(l.take(i), w),
    decreases l.len() - i,
{
    if i < l.len() {
        assert(l.take(i + 1).drop_last() =~= l.take(i));
        lemma_run_ended(l, w, i + 1);
    } else {
        assert(l.take(i) =~= l);
    }
}

/// Weighs the joins `joins` (best first) against the refilled cells
/// `wildcards` and adds the score as `weighed` states.
pub fn weigh(joins: &Vec<(u32, u32, u32)>, wildcards: Vec<(usize, u32)>, score: u32) -> (res: u32)
    requires
        forall|w: int| 0 <= w < wildcards@.len() ==> #[trigger] wildcards@[w].0 < 32,
    ensures
        res == weighed(joins@, wildcards@, score),
{
    let ghost w0 = wildcards@;
    let ghost l = joins@;
    let n = wildcards.len();
    let mut wildcards = wildcards;
    let mut total: u32 = 0;
    let mut done = false;
    let mut i: usize = 0;
    assert(l.take(0) =~= Seq::<(u32, u32, u32)>::empty());
    while i < joins.len() && !done
        invariant
            l == joins@,
            i <= l.len(),
            (total, done, wildcards@) == run_joins(l.take(i as int), w0),
            wildcards@.len() == w0.len(),
            forall|w: int| 0 <= w < wildcards@.len() ==> #[trigger] wildcards@[w].0 < 32,
        decreases l.len() - i,
    {
        let (value, covered, number) = joins[i];
        let ghost ws = wildcards@;
        let mut p: u32 = 1;
        let mut none = true;
        let mut j: usize = 0;
        assert(ws.take(0) =~= Seq::<(usize, u32)>::empty());
        assert(ws.skip(0) =~= ws);
        while j < wildcards.len()
            invariant
                j <= ws.len(),
                wildcards@.len() == ws.len(),
                forall|w: int| 0 <= w < ws.len() ==> #[trigger] ws[w].0 < 32,
                forall|w: int| 0 <= w < wildcards@.len() ==> #[trigger] wildcards@[w].0 == ws[w].0,
                p == pass(covered, number, ws.take(j as int)).0,
                none == pass(covered, number, ws.take(j as int)).1,
                wildcards@ == pass(covered, number, ws.take(j as int)).2 + ws.skip(j as int),
            decreases ws.len() - j,
        {
            let (cell, numbers) = wildcards[j];
            let ghost prefix = ws.take(j as int);
            let ghost done_part = pass(covered, number, prefix).2;
            proof {
                lemma_pass_len(covered, number, prefix);
                assert(ws.take(j + 1).drop_last() =~= prefix);
                assert(ws.take(j + 1).last() == ws[j as int]);
                assert(wildcards@[j as int] == ws.skip(j as int)[0]);
                assert(ws[j as int] == (cell, numbers));
            }
            if holds_cell(covered, cell) {
                none = false;
                if number < 32 && holds_cell(numbers, number as usize) {
                    wildcards.set(j, (cell, numbers & !(1u32 << number)));
                } else {
                    p = 0;
                }
            } else {
                p = p.wrapping_mul(count_cells(numbers));
            }
            proof {
                let next = pass(covered, number, ws.take(j + 1)).2;
                assert(wildcards@ =~= next + ws.skip(j + 1)) by {
                    assert forall|x: int| 0 <= x < wildcards@.len() implies wildcards@[x] == (next
                        + ws.skip(j + 1))[x] by {
                        if x < j {
                            assert(next[x] == done_part[x]);
                        }
                    }
                }
            }
            j = j + 1;
        }
        proof {
            assert(ws.take(j as int) =~= ws);
            assert(ws.skip(j as int) =~= Seq::<(usize, u32)>::empty());
            assert(wildcards@ =~= pass(covered, number, ws).2);
            assert(l.take(i + 1).drop_last() =~= l.take(i as int));
            assert(l.take(i + 1).last() == (value, covered, number));
            lemma_pass_len(covered, number, ws);
        }
        total = total.wrapping_add(p.wrapping_mul(value));
        done = none;
        i = i + 1;
    }
    proof {
        if done {
            lemma_run_ended(l, w0, i as int);
        } else {
            assert(l.take(i as int) =~= l);
        }
    }
    if !done {
        let ghost left = wildcards@;
        let mut p: u32 = 1;
        let mut j: usize = 0;
        assert(left.take(0) =~= Seq::<(usize, u32)>::empty());
        while j < wildcards.len()
            invariant
                left == wildcards@,
                j <= left.len(),
                p == ways(left.take(j as int)),
            decreases left.len() - j,
        {
            assert(left.take(j + 1).drop_last() =~= left.take(j as int));
            p = p.wrapping_mul(count_cells(wildcards[j].1));
            j = j + 1;
        }
        assert(left.take(j as int) =~= left);
        total = total.wrapping_add(p.wrapping_mul(score));
    }
    let divisor = power_of_three(n);
    total / divisor
}

/// A join's pass keeps the number of refilled cells.
proof fn lemma_pass_len(covered: u32, number: u32, w: Seq<(usize, u32)>)
    ensures
        pass(covered, number, w).2.len() == w.len(),
        forall|x: int| 0 <= x < w.len() ==> #[trigger] pass(covered, number, w).2[x].0 == w[x].0,
    decreases w.len(),
{
    if w.len() > 0 {
        lemma_pass_len(covered, number, w.drop_last());
    }
}

/// The ways of filling the refilled cells of `w` that `covered` does not
/// cover: the product of how many numbers each of them may hold.
pub open spec fn spare(covered: u32, w: Seq<(usize, u32)>) -> nat
    decreases w.len(),
{
    if w.len() == 0 {
        1
    } else {
        spare(covered, w.drop_last()) * spare_factor(covered, w.last())
    }
}

/// How many numbers refilled cell `e` may hold, or 1 when `covered` covers
/// it.
pub open spec fn spare_factor(covered: u32, e: (usize, u32)) -> nat {
    if has_cell(covered, e.0 as u32) {
        1nat
    } else {
        cell_count(e.1)
    }
}

/// Some refilled cell of `w` that `covered` covers cannot hold `number`.
pub open spec fn blocked(covered: u32, number: u32, w: Seq<(usize, u32)>) -> bool {
    exists|i: int|
        #![trigger w[i]]
        0 <= i < w.len() && has_cell(covered, w[i].0 as u32) && !(number < 32 && has_cell(
            w[i].1,
            number,
        ))
}

/// `covered` covers some refilled cell of `w`.
pub open spec fn covers_any(covered: u32, w: Seq<(usize, u32)>) -> bool {
    exists|i: int| #![trigger w[i]] 0 <= i < w.len() && has_cell(covered, w[i].0 as u32)
}

/// What a join of group `covered` that needs `number` leaves of the refilled
/// cell `e`: the number used up when the join covers the cell and the cell
/// may hold it; the cell as it was otherwise.
pub open spec fn used(covered: u32, number: u32, e: (usize, u32)) -> (usize, u32) {
    if has_cell(covered, e.0 as u32) && number < 32 && has_cell(e.1, number) {
        (e.0, e.1 & !(1u32 << number))
    } else {
        e
    }
}

/// A join against the refilled cells: it counts for no filling when a cell
/// it covers cannot hold its number, and otherwise for every way of filling
/// the cells it does not cover, wherever they are listed (the product of
/// their counts, wrapping at 2^32); it ends the count exactly when it covers
/// no refilled cell; and it uses up its number on each cell it covers.
#[verifier::rlimit(40)]
pub proof fn lemma_pass_counts(covered: u32, number: u32, w: Seq<(usize, u32)>)
    ensures
        pass(covered, number, w).0 == if blocked(covered, number, w) {
            0u32
        } else {
            (spare(covered, w) % 0x1_0000_0000) as u32
        },
        pass(covered, number, w).1 == !covers_any(covered, w),
        pass(covered, number, w).2.len() == w.len(),
        forall|i: int|
            0 <= i < w.len() ==> #[trigger] pass(covered, number, w).2[i] == used(covered, number, w[i]),
    decreases w.len(),
{
    if w.len() > 0 {
        let v = w.drop_last();
        let e = w.last();
        let n = w.len() - 1;
        lemma_pass_counts(covered, number, v);
        assert(w[n] == e);
        assert forall|i: int| 0 <= i < v.len() implies #[trigger] v[i] == w[i] by {}
        let here = has_cell(covered, e.0 as u32) && !(number < 32 && has_cell(e.1, number));
        assert(blocked(covered, number, w) == (blocked(covered, number, v) || here)) by {
            if blocked(covered, number, w) && !here {
                let i = choose|i: int|
                    #![trigger w[i]]
                    0 <= i < w.len() && has_cell(covered, w[i].0 as u32) && !(number < 32
                        && has_cell(w[i].1, number));
                assert(v[i] == w[i]);
            }
            if blocked(covered, number, v) {
                let i = choose|i: int|
                    #![trigger v[i]]
                    0 <= i < v.len() && has_cell(covered, v[i].0 as u32) && !(number < 32
                        && has_cell(v[i].1, number));
                assert(v[i] == w[i]);
            }
        }
        assert(covers_any(covered, w) == (covers_any(covered, v) || has_cell(covered, e.0 as u32))) by {
            if covers_any(covered, w) && !has_cell(covered, e.0 as u32) {
                let i = choose|i: int| #![trigger w[i]] 0 <= i < w.len() && has_cell(covered, w[i].0 as u32);
                assert(v[i] == w[i]);
            }
            if covers_any(covered, v) {
                let i = choose|i: int| #![trigger v[i]] 0 <= i < v.len() && has_cell(covered, v[i].0 as u32);
                assert(v[i] == w[i]);
            }
        }
        crate::cells::lemma_count_bound(e.1);
        let m: int = 0x1_0000_0000;
        let sv = spare(covered, v);
        assert(spare(covered, w) == sv * spare_factor(covered, e));
        if !has_cell(covered, e.0 as u32) && !blocked(covered, number, v) {
            let cnt = cell_count(e.1);
            vstd::arithmetic::div_mod::lemma_mul_mod_noop_left(sv as int, cnt as int, m);
            assert(((sv % 0x1_0000_0000nat) as u32) as int == (sv as int) % m);
            assert(pass(covered, number, v).0 as int == (sv as int) % m);
            assert((cnt as u32) as int == cnt);
            assert(pass(covered, number, w).0 == vstd::wrapping::u32_specs::wrapping_mul(
                pass(covered, number, v).0,
                cnt as u32,
            ));
            assert(spare(covered, w) == sv * cnt);
        }
        if has_cell(covered, e.0 as u32) {
            if number < 32 && has_cell(e.1, number) {
                assert(pass(covered, number, w).0 == pass(covered, number, v).0);
                assert(blocked(covered, number, w) == blocked(covered, number, v));
                assert(spare_factor(covered, e) == 1);
                assert(sv * spare_factor(covered, e) == sv) by (nonlinear_arith)
                    requires
                        spare_factor(covered, e) == 1,
                ;
                assert(spare(covered, w) == sv);
            } else {
                assert(blocked(covered, number, w));
                assert(pass(covered, number, w).0 == 0);
            }
        }
        if !has_cell(covered, e.0 as u32) && blocked(covered, number, v) {
            assert(pass(covered, number, v).0 == 0);
            assert(pass(covered, number, w).0 == vstd::wrapping::u32_specs::wrapping_mul(
                0u32,
                cell_count(e.1) as u32,
            ));
        }
    }
}

/// `w` with its entries at `i` and `i + 1` exchanged.
pub open spec fn swapped(w: Seq<(usize, u32)>, i: int) -> Seq<(usize, u32)> {
    w.update(i, w[i + 1]).update(i + 1, w[i])
}

/// The count of the cells a join does not cover does not depend on the
/// order in which the cells are listed.
proof fn lemma_spare_swap(covered: u32, w: Seq<(usize, u32)>, i: int)
    requires
        0 <= i && i + 1 < w.len(),
    ensures
        spare(covered, swapped(w, i)) == spare(covered, w),
    decreases w.len(),
{
    let s = swapped(w, i);
    if i + 2 == w.len() {
        let v = w.drop_last().drop_last();
        assert(s.drop_last().drop_last() =~= v);
        assert(s.last() == w[i] && s.drop_last().last() == w[i + 1]);
        assert(w.drop_last().last() == w[i]);
        let a = spare(covered, v);
        let x = spare_factor(covered, w[i]);
        let y = spare_factor(covered, w[i + 1]);
        assert(spare(covered, w.drop_last()) == a * x);
        assert(spare(covered, w) == spare(covered, w.drop_last()) * y);
        assert(spare(covered, s.drop_last()) == a * y);
        assert(spare(covered, s) == spare(covered, s.drop_last()) * x);
        assert(a * x * y == a * y * x) by (nonlinear_arith);
    } else {
        lemma_spare_swap(covered, w.drop_last(), i);
        assert(s.drop_last() =~= swapped(w.drop_last(), i));
        assert(s.last() == w.last());
    }
}

/// Listing two refilled cells the other way round changes nothing of what
/// a join weighs: the same weight, the same end of the count, and the same
/// cells left, listed the other way round.
proof fn lemma_pass_swap(covered: u32, number: u32, w: Seq<(usize, u32)>, i: int)
    requires
        0 <= i && i + 1 < w.len(),
    ensures
        pass(covered, number, swapped(w, i)).0 == pass(covered, number, w).0,
        pass(covered, number, swapped(w, i)).1 == pass(covered, number, w).1,
        pass(covered, number, swapped(w, i)).2 == swapped(pass(covered, number, w).2, i),
{
    let s = swapped(w, i);
    lemma_pass_counts(covered, number, w);
    lemma_pass_counts(covered, number, s);
    lemma_spare_swap(covered, w, i);
    let at = |j: int| if j == i {
        i + 1
    } else if j == i + 1 {
        i
    } else {
        j
    };
    assert forall|j: int| 0 <= j < w.len() implies #[trigger] s[j] == w[at(j)] by {}
    assert(blocked(covered, number, s) == blocked(covered, number, w)) by {
        if blocked(covered, number, w) {
            let j = choose|j: int|
                #![trigger w[j]]
                0 <= j < w.len() && has_cell(covered, w[j].0 as u32) && !(number < 32 && has_cell(
                    w[j].1,
                    number,
                ));
            assert(s[at(j)] == w[j]);
        }
        if blocked(covered, number, s) {
            let j = choose|j: int|
                #![trigger s[j]]
                0 <= j < s.len() && has_cell(covered, s[j].0 as u32) && !(number < 32 && has_cell(
                    s[j].1,
                    number,
                ));
            assert(s[j] == w[at(j)]);
        }
    }
    assert(covers_any(covered, s) == covers_any(covered, w)) by {
        if covers_any(covered, w) {
            let j = choose|j: int| #![trigger w[j]] 0 <= j < w.len() && has_cell(covered, w[j].0 as u32);
            assert(s[at(j)] == w[j]);
        }
        if covers_any(covered, s) {
            let j = choose|j: int| #![trigger s[j]] 0 <= j < s.len() && has_cell(covered, s[j].0 as u32);
            assert(s[j] == w[at(j)]);
        }
    }
    assert(pass(covered, number, s).2 =~= swapped(pass(covered, number, w).2, i));
}

/// The ways of filling the refilled cells, as a product of their counts.
proof fn lemma_ways_spare(w: Seq<(usize, u32)>)
    ensures
        ways(w) == (spare(0u32, w) % 0x1_0000_0000) as u32,
    decreases w.len(),
{
    if w.len() > 0 {
        lemma_ways_spare(w.drop_last());
        crate::cells::lemma_empty(w.last().0 as u32);
        crate::cells::lemma_count_bound(w.last().1);
        let sv = spare(0u32, w.drop_last());
        vstd::arithmetic::div_mod::lemma_mul_mod_noop_left(
            sv as int,
            cell_count(w.last().1) as int,
            0x1_0000_0000,
        );
    }
}

/// Weighing joins against refilled cells listed the other way round keeps
/// the total and the end of the count, and leaves the same cells listed the
/// other way round.
proof fn lemma_run_swap(l: Seq<(u32, u32, u32)>, w: Seq<(usize, u32)>, i: int)
    requires
        0 <= i && i + 1 < w.len(),
    ensures
        run_joins(l, swapped(w, i)).0 == run_joins(l, w).0,
        run_joins(l, swapped(w, i)).1 == run_joins(l, w).1,
        run_joins(l, swapped(w, i)).2 == swapped(run_joins(l, w).2, i),
        run_joins(l, w).2.len() == w.len(),
    decreases l.len(),
{
    if l.len() > 0 {
        lemma_run_swap(l.drop_last(), w, i);
        let left = run_joins(l.drop_last(), w).2;
        let (value, covered, number) = l.last();
        lemma_pass_swap(covered, number, left, i);
        lemma_pass_len(covered, number, left);
    }
}

/// The weighed value of a position does not depend on the order in which
/// its refilled cells are listed: exchanging two neighbouring entries (and so
/// any reordering, step by step) gives the same value.
pub proof fn lemma_weighed_cell_order(l: Seq<(u32, u32, u32)>, w: Seq<(usize, u32)>, score: u32, i: int)
    requires
        0 <= i && i + 1 < w.len(),
    ensures
        weighed(l, swapped(w, i), score) == weighed(l, w, score),
{
    lemma_run_swap(l, w, i);
    let left = run_joins(l, w).2;
    lemma_ways_spare(left);
    lemma_ways_spare(swapped(left, i));
    lemma_spare_swap(0u32, left, i);
}

/// Without refilled cells a position is worth its best join (the first of
/// the joins, best first), or its score when it has none.
pub proof fn lemma_weighed_without_refills(l: Seq<(u32, u32, u32)>, w: Seq<(usize, u32)>, score: u32)
    requires
        w.len() == 0,
    ensures
        weighed(l, w, score) == if l.len() > 0 {
            l[0].0
        } else {
            score
        },
{
    assert(pow3(0) == 1);
    if l.len() > 0 {
        let first = l.take(1);
        assert(first.drop_last() =~= l.take(0));
        assert(l.take(0) =~= Seq::<(u32, u32, u32)>::empty());
        assert(first.last() == l[0]);
        let (value, covered, number) = l[0];
        assert(pass(covered, number, w) == (1u32, true, Seq::<(usize, u32)>::empty()));
        assert(vstd::wrapping::u32_specs::wrapping_mul(1u32, value) == value);
        assert(vstd::wrapping::u32_specs::wrapping_add(0u32, value) == value);
        assert(first.drop_last() =~= Seq::<(u32, u32, u32)>::empty());
        assert(run_joins(first.drop_last(), w) == (0u32, false, w));
        assert(w =~= Seq::<(usize, u32)>::empty());
        assert(run_joins(first, w) == (value, true, w));
        lemma_run_ended(l, w, 1);
    } else {
        assert(ways(w) == 1);
        assert(vstd::wrapping::u32_specs::wrapping_mul(1u32, score) == score);
        assert(vstd::wrapping::u32_specs::wrapping_add(0u32, score) == score);
    }
}

/// A refilled cell that may hold 1, 2 or 3 has three ways to be filled.
proof fn lemma_three_numbers()
    ensures
        cell_count(0b1110u32) == 3,
{
    assert forall|c: u32| has_cell(0b1110u32, c) <==> (c == 1 || c == 2 || c == 3) by {
        assert(has_cell(0b1110u32, c) <==> (c == 1 || c == 2 || c == 3)) by (bit_vector);
    }
    assert(Set::new(|c: u32| has_cell(0b1110u32, c)) =~= set![1u32, 2u32, 3u32]);
}

/// Refilled cells that may each hold 1, 2 or 3 can be filled in three to
/// the power of their number of ways.
proof fn lemma_full_ways(w: Seq<(usize, u32)>)
    requires
        forall|i: int| 0 <= i < w.len() ==> #[trigger] w[i].1 == 0b1110u32,
    ensures
        ways(w) == pow3(w.len()),
    decreases w.len(),
{
    if w.len() > 0 {
        assert(w.last() == w[w.len() - 1]);
        assert forall|i: int| 0 <= i < w.drop_last().len() implies #[trigger] w.drop_last()[i].1 == 0b1110u32 by {
            assert(w.drop_last()[i] == w[i]);
        }
        lemma_full_ways(w.drop_last());
        lemma_three_numbers();
    }
}

/// While every refilled cell may still hold 1, 2 or 3: a position whose best
/// join covers none of them is worth that join, and a position without
/// joins is worth its score (when the count fits 32 bits).
pub proof fn lemma_weighed_full_cells(l: Seq<(u32, u32, u32)>, w: Seq<(usize, u32)>, score: u32)
    requires
        forall|i: int| 0 <= i < w.len() ==> #[trigger] w[i].1 == 0b1110u32,
    ensures
        l.len() > 0 && !covers_any(l[0].1, w) && pow3(w.len()) * l[0].0 <= u32::MAX ==> weighed(
            l,
            w,
            score,
        ) == l[0].0,
        l.len() == 0 && pow3(w.len()) * score <= u32::MAX ==> weighed(l, w, score) == score,
{
    lemma_full_ways(w);
    lemma_pow3_odd(w.len());
    let d = pow3(w.len());
    if l.len() > 0 && !covers_any(l[0].1, w) && d * l[0].0 <= u32::MAX {
        let first = l.take(1);
        let (value, covered, number) = l[0];
        assert(first.drop_last() =~= Seq::<(u32, u32, u32)>::empty());
        assert(run_joins(first.drop_last(), w) == (0u32, false, w));
        assert(first.last() == l[0]);
        lemma_pass_counts(covered, number, w);
        lemma_ways_spare(w);
        assert(!blocked(covered, number, w));
        assert(spare(covered, w) == spare(0u32, w)) by {
            lemma_spare_uncovered(covered, w);
        }
        assert(pass(covered, number, w).0 == d);
        assert(pass(covered, number, w).1);
        assert(vstd::wrapping::u32_specs::wrapping_mul(d, value) == d * value) by {
            vstd::arithmetic::div_mod::lemma_small_mod((d * value) as nat, 0x1_0000_0000);
        }
        assert(run_joins(first, w).0 == d * value);
        assert(run_joins(first, w).1);
        lemma_run_ended(l, w, 1);
        assert((d * value) / (d as int) == value) by (nonlinear_arith)
            requires
                d > 0,
        ;
    }
    if l.len() == 0 && d * score <= u32::MAX {
        assert(vstd::wrapping::u32_specs::wrapping_mul(d, score) == d * score) by {
            vstd::arithmetic::div_mod::lemma_small_mod((d * score) as nat, 0x1_0000_0000);
        }
        assert((d * score) / (d as int) == score) by (nonlinear_arith)
            requires
                d > 0,
        ;
    }
}

/// A group that covers none of the refilled cells leaves all of them to be
/// filled.
proof fn lemma_spare_uncovered(covered: u32, w: Seq<(usize, u32)>)
    requires
        !covers_any(covered, w),
    ensures
        spare(covered, w) == spare(0u32, w),
    decreases w.len(),
{
    if w.len() > 0 {
        let v = w.drop_last();
        assert(!covers_any(covered, v)) by {
            if covers_any(covered, v) {
                let i = choose|i: int| #![trigger v[i]] 0 <= i < v.len() && has_cell(covered, v[i].0 as u32);
                assert(v[i] == w[i]);
            }
        }
        lemma_spare_uncovered(covered, v);
        assert(w[w.len() - 1] == w.last());
        crate::cells::lemma_empty(w.last().0 as u32);
    }
}

} // verus!
