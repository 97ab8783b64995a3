//! A table of position values keyed by the listing of a position's groups,
//! so that a position met twice in a search is valued once.
//!
//! Keys are spread over buckets by a fingerprint; each bucket holds its keys
//! with their values, each key once.
use vstd::prelude::*;
use std::collections::HashMap;

verus! {

broadcast use vstd::std_specs::hash::group_hash_axioms;

/// A listing of groups: masks with what is known of each.
pub type Listing = Vec<(u32, Option<(u32, bool)>)>;

/// The value of one entry, folded into a fingerprint.
pub open spec fn entry_code(e: (u32, Option<(u32, bool)>)) -> u64 {
    match e.1 {
        None => e.0 as u64,
        Some((v, w)) => vstd::wrapping::u64_specs::wrapping_add(
            vstd::wrapping::u64_specs::wrapping_mul(e.0 as u64, 1_000_003),
            vstd::wrapping::u64_specs::wrapping_add(
                vstd::wrapping::u64_specs::wrapping_mul(v as u64, 7919),
                if w {
                    2
                } else {
                    1
                },
            ),
        ),
    }
}

/// The fingerprint of a listing.
pub open spec fn fingerprint(s: Seq<(u32, Option<(u32, bool)>)>) -> u64
    decreases s.len(),
{
    if s.len() == 0 {
        0x9e37_79b9_7f4a_7c15
    } else {
        vstd::wrapping::u64_specs::wrapping_add(
            vstd::wrapping::u64_specs::wrapping_mul(fingerprint(s.drop_last()), 31),
            entry_code(s.last()),
        )
    }
}

/// Computes the fingerprint of a listing.
fn fingerprint_of(key: &Listing) -> (res: u64)
    ensures
        res == fingerprint(key@),
{
    let mut h: u64 = 0x9e37_79b9_7f4a_7c15;
    let mut k: usize = 0;
    while k < key.len()
        invariant
            k <= key@.len(),
            h == fingerprint(key@.take(k as int)),
        decreases key@.len() - k,
    {
        let e = key[k];
        let code: u64 = match e.1 {
            None => e.0 as u64,
            Some((v, w)) => (e.0 as u64).wrapping_mul(1_000_003).wrapping_add(
                (v as u64).wrapping_mul(7919).wrapping_add(
                    if w {
                        2
                    } else {
                        1
                    },
                ),
            ),
        };
        assert(key@.take(k + 1).drop_last() =~= key@.take(k as int));
        h = h.wrapping_mul(31).wrapping_add(code);
        k = k + 1;
    }
    assert(key@.take(k as int) =~= key@);
    h
}

/// Whether two listings are the same.
fn same_listing(a: &Listing, b: &Listing) -> (res: bool)
    ensures
        res == (a@ == b@),
{
    if a.len() != b.len() {
        return false;
    }
    let mut k: usize = 0;
    while k < a.len()
        invariant
            a@.len() == b@.len(),
            k <= a@.len(),
            forall|j: int| 0 <= j < k ==> a@[j] == b@[j],
        decreases a@.len() - k,
    {
        let x = a[k];
        let y = b[k];
        let same_value = match (x.1, y.1) {
            (None, None) => true,
            (Some((v, w)), Some((v2, w2))) => v == v2 && w == w2,
            _ => false,
        };
        if x.0 != y.0 || !same_value {
            return false;
        }
        k = k + 1;
    }
    assert(a@ =~= b@);
    true
}

/// Each entry of a bucket has fingerprint `h`, and no key occurs twice.
pub open spec fn bucket_ok(h: u64, b: Seq<(Listing, u32)>) -> bool {
    &&& forall|i: int| 0 <= i < b.len() ==> fingerprint((#[trigger] b[i]).0@) == h
    &&& forall|i: int, j: int| 0 <= i < j < b.len() ==> (#[trigger] b[i]).0@ != (#[trigger] b[j]).0@
}

/// Whether `key` occurs in a bucket.
pub open spec fn in_bucket(b: Seq<(Listing, u32)>, key: Seq<(u32, Option<(u32, bool)>)>) -> bool {
    exists|i: int| 0 <= i < b.len() && (#[trigger] b[i]).0@ == key
}

/// The value stored with `key` in a bucket.
pub open spec fn bucket_value(b: Seq<(Listing, u32)>, key: Seq<(u32, Option<(u32, bool)>)>) -> u32 {
    b[choose|i: int| 0 <= i < b.len() && (#[trigger] b[i]).0@ == key].1
}

/// The bucket stored under `h`, empty where there is none.
pub open spec fn bucket_at(m: Map<u64, Vec<(Listing, u32)>>, h: u64) -> Seq<(Listing, u32)> {
    if m.contains_key(h) {
        m[h]@
    } else {
        Seq::empty()
    }
}

/// Every bucket of the table is well formed.
pub open spec fn table_ok(m: Map<u64, Vec<(Listing, u32)>>) -> bool {
    forall|h: u64| #[trigger] m.contains_key(h) ==> bucket_ok(h, m[h]@)
}

/// Whether the table holds `key`.
pub open spec fn table_has(m: Map<u64, Vec<(Listing, u32)>>, key: Seq<(u32, Option<(u32, bool)>)>) -> bool {
    in_bucket(bucket_at(m, fingerprint(key)), key)
}

/// The value the table holds for `key`.
pub open spec fn table_value(m: Map<u64, Vec<(Listing, u32)>>, key: Seq<(u32, Option<(u32, bool)>)>) -> u32 {
    bucket_value(bucket_at(m, fingerprint(key)), key)
}

/// In a bucket without repeated keys, the value of a key is that of any entry holding it.
proof fn lemma_bucket_value(h: u64, b: Seq<(Listing, u32)>, i: int)
    requires
        bucket_ok(h, b),
        0 <= i < b.len(),
    ensures
        in_bucket(b, b[i].0@),
        bucket_value(b, b[i].0@) == b[i].1,
{
    let key = b[i].0@;
    assert(b[i].0@ == key);
    let c = choose|c: int| 0 <= c < b.len() && (#[trigger] b[c]).0@ == key;
    if c != i {
        if c < i {
            assert(b[c].0@ != b[i].0@);
        } else {
            assert(b[i].0@ != b[c].0@);
        }
    }
}

/// Overwriting the entry of `kv` in a bucket changes only the value of `kv`.
proof fn lemma_bucket_replace(
    h: u64,
    before: Seq<(Listing, u32)>,
    after: Seq<(Listing, u32)>,
    i: int,
    kv: Seq<(u32, Option<(u32, bool)>)>,
    v: u32,
)
    requires
        bucket_ok(h, before),
        0 <= i < before.len(),
        before[i].0@ == kv,
        after.len() == before.len(),
        after[i].0@ == kv,
        after[i].1 == v,
        forall|j: int| 0 <= j < before.len() && j != i ==> after[j] == before[j],
    ensures
        bucket_ok(h, after),
        in_bucket(after, kv),
        bucket_value(after, kv) == v,
        forall|key: Seq<(u32, Option<(u32, bool)>)>|
            key != kv ==> (in_bucket(after, key) == in_bucket(before, key) && (in_bucket(before, key)
                ==> bucket_value(after, key) == bucket_value(before, key))),
{
    assert forall|x: int| 0 <= x < after.len() implies (#[trigger] after[x]).0@ == before[x].0@ by {
        if x != i {
            assert(after[x] == before[x]);
        }
    }
    assert(bucket_ok(h, after));
    lemma_bucket_value(h, after, i);
    assert forall|key: Seq<(u32, Option<(u32, bool)>)>|
        key != kv implies (in_bucket(after, key) == in_bucket(before, key) && (in_bucket(before, key)
            ==> bucket_value(after, key) == bucket_value(before, key))) by {
        if in_bucket(after, key) {
            let x = choose|x: int| 0 <= x < after.len() && (#[trigger] after[x]).0@ == key;
            assert(before[x].0@ == key);
        }
        if in_bucket(before, key) {
            let x = choose|x: int| 0 <= x < before.len() && (#[trigger] before[x]).0@ == key;
            assert(x != i);
            assert(after[x] == before[x]);
            lemma_bucket_value(h, before, x);
            lemma_bucket_value(h, after, x);
        }
    }
}

/// Appending an entry for a new key `kv` changes only the value of `kv`.
proof fn lemma_bucket_push(
    h: u64,
    before: Seq<(Listing, u32)>,
    entry: (Listing, u32),
    kv: Seq<(u32, Option<(u32, bool)>)>,
)
    requires
        bucket_ok(h, before),
        !in_bucket(before, kv),
        entry.0@ == kv,
        fingerprint(kv) == h,
    ensures
        bucket_ok(h, before.push(entry)),
        in_bucket(before.push(entry), kv),
        bucket_value(before.push(entry), kv) == entry.1,
        forall|key: Seq<(u32, Option<(u32, bool)>)>|
            key != kv ==> (in_bucket(before.push(entry), key) == in_bucket(before, key) && (in_bucket(
                before,
                key,
            ) ==> bucket_value(before.push(entry), key) == bucket_value(before, key))),
{
    let after = before.push(entry);
    let n = before.len() as int;
    assert forall|x: int| 0 <= x < n implies (#[trigger] after[x]) == before[x] by {}
    assert forall|x: int| 0 <= x < n implies (#[trigger] before[x]).0@ != kv by {
        if before[x].0@ == kv {
            assert(in_bucket(before, kv));
        }
    }
    assert forall|x: int, y: int|
        0 <= x < y < after.len() implies (#[trigger] after[x]).0@ != (#[trigger] after[y]).0@ by {
        assert(after[x] == before[x]);
        if y < n {
            assert(after[y] == before[y]);
        }
    }
    assert(after[n].0@ == kv);
    assert(bucket_ok(h, after));
    lemma_bucket_value(h, after, n);
    assert forall|key: Seq<(u32, Option<(u32, bool)>)>|
        key != kv implies (in_bucket(after, key) == in_bucket(before, key) && (in_bucket(before, key)
            ==> bucket_value(after, key) == bucket_value(before, key))) by {
        if in_bucket(after, key) {
            let x = choose|x: int| 0 <= x < after.len() && (#[trigger] after[x]).0@ == key;
            assert(x < n);
            assert(before[x].0@ == key);
        }
        if in_bucket(before, key) {
            let x = choose|x: int| 0 <= x < before.len() && (#[trigger] before[x]).0@ == key;
            assert(after[x] == before[x]);
            lemma_bucket_value(h, before, x);
            lemma_bucket_value(h, after, x);
        }
    }
}

/// Storing a new bucket under the fingerprint of `kv` changes the table only at `kv`,
/// when the bucket itself changed only at `kv`.
proof fn lemma_table_store(
    m: Map<u64, Vec<(Listing, u32)>>,
    nm: Map<u64, Vec<(Listing, u32)>>,
    h: u64,
    kv: Seq<(u32, Option<(u32, bool)>)>,
    v: u32,
)
    requires
        table_ok(m),
        fingerprint(kv) == h,
        nm.contains_key(h),
        forall|g: u64| g != h ==> (#[trigger] nm.contains_key(g)) == m.contains_key(g),
        forall|g: u64| g != h && #[trigger] m.contains_key(g) ==> nm[g] == m[g],
        bucket_ok(h, nm[h]@),
        in_bucket(nm[h]@, kv),
        bucket_value(nm[h]@, kv) == v,
        forall|key: Seq<(u32, Option<(u32, bool)>)>|
            key != kv ==> (in_bucket(nm[h]@, key) == in_bucket(bucket_at(m, h), key) && (in_bucket(
                bucket_at(m, h),
                key,
            ) ==> bucket_value(nm[h]@, key) == bucket_value(bucket_at(m, h), key))),
    ensures
        table_ok(nm),
        table_has(nm, kv),
        table_value(nm, kv) == v,
        forall|key: Seq<(u32, Option<(u32, bool)>)>|
            #![trigger table_has(nm, key)]
            key != kv ==> (table_has(nm, key) == table_has(m, key) && (table_has(m, key)
                ==> table_value(nm, key) == table_value(m, key))),
{
    assert forall|g: u64| #[trigger] nm.contains_key(g) implies bucket_ok(g, nm[g]@) by {
        if g != h {
            assert(m.contains_key(g));
        }
    }
    assert forall|key: Seq<(u32, Option<(u32, bool)>)>|
        #![trigger table_has(nm, key)]
        key != kv implies (table_has(nm, key) == table_has(m, key) && (table_has(m, key)
            ==> table_value(nm, key) == table_value(m, key))) by {
        let g = fingerprint(key);
        if g != h {
            assert(bucket_at(nm, g) == bucket_at(m, g));
        }
    }
}

/// Position values by listing.
pub struct Memo {
    buckets: HashMap<u64, Vec<(Listing, u32)>>,
}

impl View for Memo {
    type V = Map<Seq<(u32, Option<(u32, bool)>)>, u32>;

    /// The stored values, by listing.
    closed spec fn view(&self) -> Self::V {
        Map::new(|k: Seq<(u32, Option<(u32, bool)>)>| self.has(k), |k: Seq<(u32, Option<(u32, bool)>)>| self.value_of(k))
    }
}

impl Memo {
    /// Each bucket holds keys of its fingerprint, each key once.
    pub closed spec fn wf(&self) -> bool {
        table_ok(self.buckets@)
    }

    /// Whether `key` has a value.
    pub closed spec fn has(&self, key: Seq<(u32, Option<(u32, bool)>)>) -> bool {
        table_has(self.buckets@, key)
    }

    /// The value stored for `key`.
    pub closed spec fn value_of(&self, key: Seq<(u32, Option<(u32, bool)>)>) -> u32 {
        table_value(self.buckets@, key)
    }

    /// An empty table.
    pub fn new() -> (res: Self)
        ensures
            res.wf(),
            res@ == Map::<Seq<(u32, Option<(u32, bool)>)>, u32>::empty(),
    {
        let res = Memo { buckets: HashMap::new() };
        assert(res@ =~= Map::<Seq<(u32, Option<(u32, bool)>)>, u32>::empty());
        res
    }

    /// The value stored for `key`, if any.
    pub fn get(&self, key: &Listing) -> (res: Option<u32>)
        requires
            self.wf(),
        ensures
            res == (if self@.contains_key(key@) {
                Some(self@[key@])
            } else {
                None
            }),
    {
        let h = fingerprint_of(key);
        match self.buckets.get(&h) {
            None => None,
            Some(bucket) => {
                let ghost b = bucket@;
                assert(bucket_at(self.buckets@, h) == b);
                assert(bucket_ok(h, b));
                let mut i: usize = 0;
                while i < bucket.len()
                    invariant
                        b == bucket@,
                        bucket_ok(h, b),
                        h == fingerprint(key@),
                        bucket_at(self.buckets@, h) == b,
                        i <= b.len(),
                        forall|j: int| 0 <= j < i ==> (#[trigger] b[j]).0@ != key@,
                    decreases b.len() - i,
                {
                    if same_listing(&bucket[i].0, key) {
                        proof {
                            lemma_bucket_value(h, b, i as int);
                        }
                        return Some(bucket[i].1);
                    }
                    i = i + 1;
                }
                None
            },
        }
    }

    /// Stores `value` for `key`, replacing what was stored for it.
    pub fn insert(&mut self, key: Listing, value: u32)
        requires
            old(self).wf(),
        ensures
            final(self).wf(),
            final(self)@ == old(self)@.insert(key@, value),
    {
        let ghost before = self@;
        let ghost kv = key@;
        self.store(key, value);
        assert(self@ =~= before.insert(kv, value));
    }

    /// Stores `value` for `key`, bucket by bucket.
    fn store(&mut self, key: Listing, value: u32)
        requires
            old(self).wf(),
        ensures
            final(self).wf(),
            final(self).has(key@),
            final(self).value_of(key@) == value,
            forall|k: Seq<(u32, Option<(u32, bool)>)>|
                #![trigger final(self).has(k)]
                k != key@ ==> (final(self).has(k) == old(self).has(k) && (old(self).has(k)
                    ==> final(self).value_of(k) == old(self).value_of(k))),
    {
        let h = fingerprint_of(&key);
        let ghost kv = key@;
        let ghost m = self.buckets@;
        let mut bucket: Vec<(Listing, u32)> = match self.buckets.remove(&h) {
            Some(b) => b,
            None => Vec::new(),
        };
        let ghost before = bucket@;
        assert(before == bucket_at(m, h));
        assert(bucket_ok(h, before));
        let mut i: usize = 0;
        while i < bucket.len()
            invariant
                bucket@ == before,
                kv == key@,
                i <= before.len(),
                forall|j: int| 0 <= j < i ==> (#[trigger] before[j]).0@ != kv,
            ensures
                i <= before.len(),
                i < before.len() ==> before[i as int].0@ == kv,
                forall|j: int| 0 <= j < i ==> (#[trigger] before[j]).0@ != kv,
            decreases before.len() - i,
        {
            if same_listing(&bucket[i].0, &key) {
                break;
            }
            i = i + 1;
        }
        if i < bucket.len() {
            let ghost at = i as int;
            bucket.set(i, (key, value));
            proof {
                lemma_bucket_replace(h, before, bucket@, at, kv, value);
            }
        } else {
            proof {
                assert(!in_bucket(before, kv));
            }
            let ghost entry = (key, value);
            bucket.push((key, value));
            proof {
                lemma_bucket_push(h, before, entry, kv);
            }
        }
        self.buckets.insert(h, bucket);
        proof {
            lemma_table_store(m, self.buckets@, h, kv, value);
        }
    }
}

} // verus!
