//! Sets of cells as 32-bit masks: bit `c` stands for cell `c`.
use vstd::prelude::*;

verus! {

/// Whether mask `m` holds cell `c`.
pub open spec fn has_cell(m: u32, c: u32) -> bool {
    c < 32 && (m >> c) & 1u32 == 1u32
}

/// The mask of the cells of `p`.
pub open spec fn path_mask(p: Seq<usize>) -> u32
    decreases p.len(),
{
    if p.len() == 0 {
        0u32
    } else {
        path_mask(p.drop_last()) | (1u32 << (p.last() as u32))
    }
}

/// The number of cells a mask holds.
pub open spec fn cell_count(m: u32) -> nat {
    Set::new(|c: u32| has_cell(m, c)).len()
}

/// Adding a cell to a mask.
pub proof fn lemma_add_cell(a: u32, c: u32, i: u32)
    requires
        c < 32,
    ensures
        has_cell(a | (1u32 << c), i) == (has_cell(a, i) || i == c),
{
    assert(c < 32 ==> (has_cell(a | (1u32 << c), i) == (has_cell(a, i) || i == c)))
        by (bit_vector);
}

/// The union of two masks.
pub proof fn lemma_union(a: u32, b: u32, i: u32)
    ensures
        has_cell(a | b, i) == (has_cell(a, i) || has_cell(b, i)),
{
    assert(has_cell(a | b, i) == (has_cell(a, i) || has_cell(b, i))) by (bit_vector);
}

/// Two masks without common cells.
pub proof fn lemma_disjoint(a: u32, b: u32)
    ensures
        (a & b == 0) == (forall|i: u32| !(#[trigger] has_cell(a, i) && has_cell(b, i))),
{
    if a & b == 0 {
        assert forall|i: u32| !(#[trigger] has_cell(a, i) && has_cell(b, i)) by {
            assert(a & b == 0 ==> !(has_cell(a, i) && has_cell(b, i))) by (bit_vector);
        }
    } else {
        assert(exists|i: u32| #[trigger] has_cell(a, i) && has_cell(b, i)) by {
            lemma_common_cell(a, b);
        }
    }
}

/// Masks with a common bit share a cell.
proof fn lemma_common_cell(a: u32, b: u32)
    requires
        a & b != 0,
    ensures
        exists|i: u32| #[trigger] has_cell(a, i) && has_cell(b, i),
{
    let x = a & b;
    lemma_nonzero_has_cell(x);
    let i = choose|i: u32| has_cell(x, i);
    assert(has_cell(a & b, i) ==> has_cell(a, i) && has_cell(b, i)) by (bit_vector);
}

/// A nonzero mask holds a cell.
pub proof fn lemma_nonzero_has_cell(x: u32)
    requires
        x != 0,
    ensures
        exists|i: u32| #[trigger] has_cell(x, i),
{
    if forall|i: u32| !#[trigger] has_cell(x, i) {
        assert(!has_cell(x, 0) && !has_cell(x, 1) && !has_cell(x, 2) && !has_cell(x, 3)
            && !has_cell(x, 4) && !has_cell(x, 5) && !has_cell(x, 6) && !has_cell(x, 7));
        assert(!has_cell(x, 8) && !has_cell(x, 9) && !has_cell(x, 10) && !has_cell(x, 11)
            && !has_cell(x, 12) && !has_cell(x, 13) && !has_cell(x, 14) && !has_cell(x, 15));
        assert(!has_cell(x, 16) && !has_cell(x, 17) && !has_cell(x, 18) && !has_cell(x, 19)
            && !has_cell(x, 20) && !has_cell(x, 21) && !has_cell(x, 22) && !has_cell(x, 23));
        assert(!has_cell(x, 24) && !has_cell(x, 25) && !has_cell(x, 26) && !has_cell(x, 27)
            && !has_cell(x, 28) && !has_cell(x, 29) && !has_cell(x, 30) && !has_cell(x, 31));
        assert((!has_cell(x, 0) && !has_cell(x, 1) && !has_cell(x, 2) && !has_cell(x, 3)
            && !has_cell(x, 4) && !has_cell(x, 5) && !has_cell(x, 6) && !has_cell(x, 7)
            && !has_cell(x, 8) && !has_cell(x, 9) && !has_cell(x, 10) && !has_cell(x, 11)
            && !has_cell(x, 12) && !has_cell(x, 13) && !has_cell(x, 14) && !has_cell(x, 15)
            && !has_cell(x, 16) && !has_cell(x, 17) && !has_cell(x, 18) && !has_cell(x, 19)
            && !has_cell(x, 20) && !has_cell(x, 21) && !has_cell(x, 22) && !has_cell(x, 23)
            && !has_cell(x, 24) && !has_cell(x, 25) && !has_cell(x, 26) && !has_cell(x, 27)
            && !has_cell(x, 28) && !has_cell(x, 29) && !has_cell(x, 30) && !has_cell(x, 31))
            ==> x == 0) by (bit_vector);
    }
}

/// Masks that hold the same cells are equal.
pub proof fn lemma_same_cells(a: u32, b: u32)
    requires
        forall|i: u32| #[trigger] has_cell(a, i) == has_cell(b, i),
    ensures
        a == b,
{
    let x = a ^ b;
    if x != 0 {
        lemma_nonzero_has_cell(x);
        let i = choose|i: u32| has_cell(x, i);
        assert(has_cell(a, i) == has_cell(b, i));
        assert(has_cell(a ^ b, i) ==> has_cell(a, i) != has_cell(b, i)) by (bit_vector);
    }
    assert(a ^ b == 0 ==> a == b) by (bit_vector);
}

/// The empty mask holds no cell.
pub proof fn lemma_empty(i: u32)
    ensures
        !has_cell(0u32, i),
{
    assert(!has_cell(0u32, i)) by (bit_vector);
}

/// The mask of a path on the board holds exactly the path's cells.
pub proof fn lemma_path_mask(p: Seq<usize>, i: u32)
    requires
        forall|k: int| 0 <= k < p.len() ==> #[trigger] p[k] < 25,
    ensures
        has_cell(path_mask(p), i) == p.contains(i as usize),
    decreases p.len(),
{
    if p.len() == 0 {
        lemma_empty(i);
    } else {
        let q = p.drop_last();
        assert forall|k: int| 0 <= k < q.len() implies #[trigger] q[k] < 25 by {
            assert(q[k] == p[k]);
        }
        lemma_path_mask(q, i);
        assert(p[p.len() - 1] < 25);
        lemma_add_cell(path_mask(q), p.last() as u32, i);
        if q.contains(i as usize) {
            let k = choose|k: int| 0 <= k < q.len() && q[k] == i as usize;
            assert(p[k] == i as usize);
        }
        if p.contains(i as usize) {
            let k = choose|k: int| 0 <= k < p.len() && p[k] == i as usize;
            if k < p.len() - 1 {
                assert(q[k] == i as usize);
            }
        }
    }
}

/// Computes the mask of the cells of `cells`.
pub fn mask_of(cells: &[usize]) -> (res: u32)
    requires
        forall|k: int| 0 <= k < cells@.len() ==> #[trigger] cells@[k] < 25,
    ensures
        res == path_mask(cells@),
{
    let mut mask: u32 = 0;
    let mut k: usize = 0;
    while k < cells.len()
        invariant
            k <= cells@.len(),
            forall|j: int| 0 <= j < cells@.len() ==> #[trigger] cells@[j] < 25,
            mask == path_mask(cells@.take(k as int)),
        decreases cells@.len() - k,
    {
        assert(cells@.take(k + 1).drop_last() =~= cells@.take(k as int));
        assert(cells@[k as int] < 25);
        mask = mask | (1u32 << (cells[k] as u32));
        k = k + 1;
    }
    assert(cells@.take(k as int) =~= cells@);
    mask
}

/// Whether mask `m` holds cell `c`.
pub fn holds_cell(m: u32, c: usize) -> (res: bool)
    requires
        c < 32,
    ensures
        res == has_cell(m, c as u32),
{
    (m >> (c as u32)) & 1 == 1
}

/// Counts the cells of a mask.
pub fn count_cells(m: u32) -> (res: u32)
    ensures
        res == cell_count(m),
        res <= 32,
{
    let mut count: u32 = 0;
    let mut c: u32 = 0;
    let ghost mut seen: Set<u32> = Set::empty();
    while c < 32
        invariant
            c <= 32,
            seen == Set::new(|i: u32| i < c && has_cell(m, i)),
            seen.finite(),
            count == seen.len(),
            count <= c,
        decreases 32 - c,
    {
        let ghost before = seen;
        if (m >> c) & 1 == 1 {
            proof {
                seen = seen.insert(c);
                assert(!before.contains(c));
            }
            count = count + 1;
        }
        assert(seen =~= Set::new(|i: u32| i < c + 1 && has_cell(m, i)));
        c = c + 1;
    }
    assert(seen =~= Set::new(|i: u32| has_cell(m, i)));
    count
}

/// A mask holds at most 32 cells.
pub proof fn lemma_count_bound(m: u32)
    ensures
        cell_count(m) <= 32,
{
    broadcast use vstd::set_lib::range_set_properties;

    let full = Set::<u32>::range(0, 32);
    assert(full.len() == 32);
    let cells = Set::new(|c: u32| has_cell(m, c));
    assert(cells.subset_of(full));
    vstd::set_lib::lemma_len_subset(cells, full);
}

/// The mask of a single cell holds that cell only.
pub proof fn lemma_single(i: u32, c: u32)
    requires
        i < 32,
    ensures
        has_cell(1u32 << i, c) == (c == i),
{
    assert(i < 32 ==> (has_cell(1u32 << i, c) == (c == i))) by (bit_vector);
}

/// A single cell's mask holds one cell.
pub proof fn lemma_single_count(c: u32)
    requires
        c < 32,
    ensures
        cell_count(1u32 << c) == 1,
{
    assert(Set::new(|x: u32| has_cell(1u32 << c, x)) =~= set![c]) by {
        assert forall|x: u32| Set::new(|x: u32| has_cell(1u32 << c, x)).contains(x) <==> set![c].contains(x) by {
            lemma_single(c, x);
        }
    }
}

/// `c` is the lowest cell mask `m` holds.
pub open spec fn is_lowest(m: u32, c: usize) -> bool {
    c < 32 && has_cell(m, c as u32) && forall|d: u32| d < c ==> !#[trigger] has_cell(m, d)
}

/// The lowest cell a mask holds.
pub open spec fn lowest(m: u32) -> usize {
    choose|c: usize| #[trigger] is_lowest(m, c)
}

/// The lowest cell of a nonempty mask.
pub fn lowest_cell(m: u32) -> (res: usize)
    requires
        m != 0,
    ensures
        res < 32,
        has_cell(m, res as u32),
        forall|c: u32| c < res ==> !#[trigger] has_cell(m, c),
        res == lowest(m),
{
    proof {
        lemma_nonzero_has_cell(m);
    }
    let mut c: usize = 0;
    while c < 32
        invariant
            c <= 32,
            exists|i: u32| #[trigger] has_cell(m, i),
            forall|i: u32| i < c ==> !#[trigger] has_cell(m, i),
        decreases 32 - c,
    {
        if holds_cell(m, c) {
            proof {
                let l = lowest(m);
                assert(is_lowest(m, c));
                if l < c {
                    assert(has_cell(m, l as u32));
                } else if l > c {
                    assert(!has_cell(m, c as u32));
                }
            }
            return c;
        }
        c = c + 1;
    }
    proof {
        let i = choose|i: u32| #[trigger] has_cell(m, i);
        assert(i < 32);
    }
    0
}

/// The cells below `k` that a mask holds form a finite set.
proof fn lemma_cells_below_finite(m: u32, k: u32)
    ensures
        Set::new(|c: u32| c < k && has_cell(m, c)).finite(),
    decreases k,
{
    let s = Set::new(|c: u32| c < k && has_cell(m, c));
    if k == 0 {
        assert(s =~= Set::<u32>::empty());
    } else {
        let j = (k - 1) as u32;
        lemma_cells_below_finite(m, j);
        let t = Set::new(|c: u32| c < j && has_cell(m, c));
        assert(s =~= t.insert(j) || s =~= t) by {
            if has_cell(m, j) {
                assert(s =~= t.insert(j));
            } else {
                assert(s =~= t);
            }
        }
    }
}

/// A mask holding two different cells holds at least two.
pub proof fn lemma_two_cells(m: u32, a: u32, b: u32)
    requires
        has_cell(m, a),
        has_cell(m, b),
        a != b,
    ensures
        cell_count(m) >= 2,
{
    let s = Set::new(|c: u32| has_cell(m, c));
    lemma_cells_below_finite(m, 32);
    assert(s =~= Set::new(|c: u32| c < 32 && has_cell(m, c)));
    let pair = Set::<u32>::empty().insert(a).insert(b);
    assert(pair.len() == 2);
    vstd::set_lib::lemma_len_subset(pair, s);
}

/// The cells below `n` that mask `m` holds, in increasing order.
pub open spec fn cells_of(m: u32, n: nat) -> Seq<usize>
    decreases n,
{
    if n == 0 {
        Seq::empty()
    } else {
        let c = (n - 1) as nat;
        cells_of(m, c) + if has_cell(m, c as u32) {
            seq![c as usize]
        } else {
            Seq::empty()
        }
    }
}

/// `s` comes before `t` in dictionary order: at the first place where they
/// differ `s` holds the smaller cell, or `s` is a proper start of `t`.
pub open spec fn lex_less(s: Seq<usize>, t: Seq<usize>) -> bool
    decreases s.len(),
{
    if s.len() == 0 {
        t.len() > 0
    } else if t.len() == 0 {
        false
    } else if s[0] < t[0] {
        true
    } else if s[0] > t[0] {
        false
    } else {
        lex_less(s.drop_first(), t.drop_first())
    }
}

/// Group `a` comes before group `b`: their cells, listed in increasing
/// order, compare in dictionary order.
pub open spec fn group_before(a: u32, b: u32) -> bool {
    lex_less(cells_of(a, 32), cells_of(b, 32))
}

/// The cells `cells_of` lists lie below `n` and come in increasing order.
pub proof fn lemma_cells_of_increasing(m: u32, n: nat)
    requires
        n <= 32,
    ensures
        forall|i: int| 0 <= i < cells_of(m, n).len() ==> #[trigger] cells_of(m, n)[i] < n,
        forall|i: int, j: int|
            0 <= i < j < cells_of(m, n).len() ==> #[trigger] cells_of(m, n)[i] < #[trigger] cells_of(
                m,
                n,
            )[j],
    decreases n,
{
    if n > 0 {
        let k = (n - 1) as nat;
        lemma_cells_of_increasing(m, k);
        let front = cells_of(m, k);
        let tail = if has_cell(m, k as u32) {
            seq![k as usize]
        } else {
            Seq::<usize>::empty()
        };
        let all = cells_of(m, n);
        assert(all == front + tail);
        assert forall|i: int| 0 <= i < all.len() implies #[trigger] all[i] < n && (i < front.len()
            ==> all[i] == front[i]) by {
            if i < front.len() {
                assert(all[i] == front[i]);
            } else {
                assert(all[i] == tail[i - front.len()]);
            }
        }
        assert forall|i: int, j: int| 0 <= i < j < all.len() implies #[trigger] all[i] < #[trigger] all[j] by {
            assert(all[i] < n && all[j] < n);
            if j < front.len() {
                assert(all[i] == front[i] && all[j] == front[j]);
                assert(front[i] < front[j]);
            } else {
                assert(tail.len() <= 1);
                assert(i < front.len());
                assert(all[i] == front[i]);
                assert(front[i] < k);
                assert(all[j] == tail[j - front.len()]);
                assert(tail[j - front.len()] == k as usize);
            }
        }
    }
}

/// Nothing comes before itself.
pub proof fn lemma_lex_irreflexive(s: Seq<usize>)
    ensures
        !lex_less(s, s),
    decreases s.len(),
{
    if s.len() > 0 {
        lemma_lex_irreflexive(s.drop_first());
    }
}

/// Dictionary order is transitive.
pub proof fn lemma_lex_trans(s: Seq<usize>, t: Seq<usize>, u: Seq<usize>)
    requires
        lex_less(s, t),
        lex_less(t, u),
    ensures
        lex_less(s, u),
    decreases s.len(),
{
    if s.len() > 0 && t.len() > 0 && u.len() > 0 && s[0] == t[0] && t[0] == u[0] {
        lemma_lex_trans(s.drop_first(), t.drop_first(), u.drop_first());
    }
}

/// Of two different lists, one comes before the other.
pub proof fn lemma_lex_total(s: Seq<usize>, t: Seq<usize>)
    requires
        s != t,
    ensures
        lex_less(s, t) || lex_less(t, s),
    decreases s.len(),
{
    if s.len() == 0 {
        if t.len() == 0 {
            assert(s =~= t);
        }
    } else if t.len() > 0 && s[0] == t[0] {
        if s.drop_first() == t.drop_first() {
            assert(s =~= seq![s[0]] + s.drop_first());
            assert(t =~= seq![t[0]] + t.drop_first());
        }
        lemma_lex_total(s.drop_first(), t.drop_first());
    }
}

/// The listed cells of a mask are the cells it holds.
pub proof fn lemma_cells_of_contains(m: u32, n: nat, c: usize)
    requires
        n <= 32,
    ensures
        cells_of(m, n).contains(c) <==> (c < n && has_cell(m, c as u32)),
    decreases n,
{
    if n > 0 {
        let k = (n - 1) as nat;
        lemma_cells_of_contains(m, k, c);
        let tail = if has_cell(m, k as u32) {
            seq![k as usize]
        } else {
            Seq::<usize>::empty()
        };
        let s = cells_of(m, k) + tail;
        assert(cells_of(m, n) == s);
        if s.contains(c) {
            let i = choose|i: int| 0 <= i < s.len() && s[i] == c;
            if i >= cells_of(m, k).len() {
                assert(tail[i - cells_of(m, k).len()] == c);
            } else {
                assert(cells_of(m, k)[i] == c);
            }
        }
        if c < n && has_cell(m, c as u32) {
            if c == k {
                assert(s[cells_of(m, k).len() as int] == c);
            } else {
                let i = choose|i: int| 0 <= i < cells_of(m, k).len() && cells_of(m, k)[i] == c;
                assert(s[i] == c);
            }
        }
    }
}

/// No group comes before itself.
pub proof fn lemma_before_irreflexive(a: u32)
    ensures
        !group_before(a, a),
{
    lemma_lex_irreflexive(cells_of(a, 32));
}

/// The group order is transitive.
pub proof fn lemma_before_trans(a: u32, b: u32, c: u32)
    requires
        group_before(a, b),
        group_before(b, c),
    ensures
        group_before(a, c),
{
    lemma_lex_trans(cells_of(a, 32), cells_of(b, 32), cells_of(c, 32));
}

/// Of two different groups, one comes before the other.
pub proof fn lemma_before_total(a: u32, b: u32)
    requires
        a != b,
    ensures
        group_before(a, b) || group_before(b, a),
{
    if cells_of(a, 32) == cells_of(b, 32) {
        assert forall|c: u32| #[trigger] has_cell(a, c) == has_cell(b, c) by {
            if c < 32 {
                lemma_cells_of_contains(a, 32, c as usize);
                lemma_cells_of_contains(b, 32, c as usize);
            }
        }
        lemma_same_cells(a, b);
    }
    lemma_lex_total(cells_of(a, 32), cells_of(b, 32));
}

/// Lists the cells of a mask in increasing order.
pub fn cell_list(m: u32) -> (res: Vec<usize>)
    ensures
        res@ == cells_of(m, 32),
{
    let mut res: Vec<usize> = Vec::new();
    let mut c: usize = 0;
    assert(res@ =~= cells_of(m, 0));
    while c < 32
        invariant
            c <= 32,
            res@ == cells_of(m, c as nat),
        decreases 32 - c,
    {
        if holds_cell(m, c) {
            res.push(c);
            assert(res@ =~= cells_of(m, (c + 1) as nat));
        } else {
            assert(res@ =~= cells_of(m, (c + 1) as nat));
        }
        c = c + 1;
    }
    res
}

/// Whether list `s` comes before list `t` in dictionary order.
pub fn lex_before(s: &Vec<usize>, t: &Vec<usize>) -> (res: bool)
    ensures
        res == lex_less(s@, t@),
{
    let mut i: usize = 0;
    assert(s@.skip(0) =~= s@);
    assert(t@.skip(0) =~= t@);
    while i < s.len() && i < t.len()
        invariant
            i <= s@.len(),
            i <= t@.len(),
            lex_less(s@, t@) == lex_less(s@.skip(i as int), t@.skip(i as int)),
        decreases s@.len() - i,
    {
        assert(s@.skip(i as int)[0] == s@[i as int]);
        assert(t@.skip(i as int)[0] == t@[i as int]);
        if s[i] < t[i] {
            return true;
        }
        if s[i] > t[i] {
            return false;
        }
        assert(s@.skip(i as int).drop_first() =~= s@.skip(i + 1));
        assert(t@.skip(i as int).drop_first() =~= t@.skip(i + 1));
        i = i + 1;
    }
    i == s.len() && i < t.len()
}

/// Whether group `a` comes before group `b`.
pub fn comes_before(a: u32, b: u32) -> (res: bool)
    ensures
        res == group_before(a, b),
{
    let s = cell_list(a);
    let t = cell_list(b);
    lex_before(&s, &t)
}

} // verus!
