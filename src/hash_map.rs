//! A map from strings to strings, in buckets chosen by the length of a key's
//! debug form, that doubles its buckets when they hold more than two entries
//! each on average.
use vstd::prelude::*;

verus! {

/// The length of the debug form (quoted and escaped) of a string.
pub uninterp spec fn debug_len_of(s: Seq<char>) -> nat;

/// Relies on `format!("{:?}", key)`: the length of the debug form of the key,
/// which depends on its characters alone.
#[verifier::external_body]
fn debug_len(key: &String) -> (r: usize)
    ensures
        r == debug_len_of(key@),
{
    format!("{:?}", key).len()
}

/// One entry: a key and its value.
pub type Entry = (String, String);

/// A map with separate chaining.
pub struct HashMap {
    buckets: Vec<Vec<Entry>>,
    size: usize,
}

/// The bucket that holds key `k` among `n` buckets.
pub open spec fn slot(k: Seq<char>, n: nat) -> int {
    (debug_len_of(k) % n) as int
}

/// The value of the first entry of `b` with key `k`.
pub open spec fn find(b: Seq<Entry>, k: Seq<char>) -> Option<Seq<char>>
    decreases b.len(),
{
    if b.len() == 0 {
        None
    } else if b.last().0@ == k {
        Some(b.last().1@)
    } else {
        find(b.drop_last(), k)
    }
}

/// The value of key `k` in the buckets `bs`.
pub open spec fn lookup(bs: Seq<Vec<Entry>>, k: Seq<char>) -> Option<Seq<char>> {
    if bs.len() == 0 {
        None
    } else {
        find(bs[slot(k, bs.len())]@, k)
    }
}

/// The number of entries in the buckets.
pub open spec fn entry_count(bs: Seq<Vec<Entry>>) -> nat
    decreases bs.len(),
{
    if bs.len() == 0 {
        0
    } else {
        entry_count(bs.drop_last()) + bs.last()@.len()
    }
}

/// Every entry sits in the bucket of its key, and no bucket holds a key twice.
pub open spec fn placed(bs: Seq<Vec<Entry>>) -> bool {
    &&& forall|b: int, i: int|
        0 <= b < bs.len() && 0 <= i < bs[b]@.len() ==> slot((#[trigger] bs[b]@[i]).0@, bs.len()) == b
    &&& forall|b: int, i: int, j: int|
        0 <= b < bs.len() && 0 <= i < bs[b]@.len() && 0 <= j < bs[b]@.len() && i != j
            ==> (#[trigger] bs[b]@[i]).0@ != (#[trigger] bs[b]@[j]).0@
}

proof fn lemma_find_absent(b: Seq<Entry>, k: Seq<char>)
    requires
        forall|i: int| 0 <= i < b.len() ==> (#[trigger] b[i]).0@ != k,
    ensures
        find(b, k) is None,
    decreases b.len(),
{
    if b.len() > 0 {
        lemma_find_absent(b.drop_last(), k);
    }
}

proof fn lemma_find_at(b: Seq<Entry>, k: Seq<char>, i: int)
    requires
        0 <= i < b.len(),
        b[i].0@ == k,
        forall|x: int, y: int|
            0 <= x < b.len() && 0 <= y < b.len() && x != y ==> (#[trigger] b[x]).0@ != (#[trigger] b[y]).0@,
    ensures
        find(b, k) == Some(b[i].1@),
    decreases b.len(),
{
    if i < b.len() - 1 {
        assert(b.last().0@ != k);
        lemma_find_at(b.drop_last(), k, i);
    }
}

proof fn lemma_entry_count_update(bs: Seq<Vec<Entry>>, b: int, v: Vec<Entry>)
    requires
        0 <= b < bs.len(),
    ensures
        entry_count(bs.update(b, v)) + bs[b]@.len() == entry_count(bs) + v@.len(),
    decreases bs.len(),
{
    if b < bs.len() - 1 {
        lemma_entry_count_update(bs.drop_last(), b, v);
        assert(bs.update(b, v).drop_last() =~= bs.drop_last().update(b, v));
    } else {
        assert(bs.update(b, v).drop_last() =~= bs.drop_last());
    }
}

/// `n` empty buckets.
fn empty_buckets(n: usize) -> (r: Vec<Vec<Entry>>)
    ensures
        r@.len() == n,
        forall|b: int| 0 <= b < n ==> (#[trigger] r@[b])@.len() == 0,
        entry_count(r@) == 0,
{
    let mut r: Vec<Vec<Entry>> = Vec::new();
    let mut i: usize = 0;
    while i < n
        invariant
            0 <= i <= n,
            r@.len() == i,
            forall|b: int| 0 <= b < i ==> (#[trigger] r@[b])@.len() == 0,
            entry_count(r@) == 0,
        decreases n - i,
    {
        let ghost before = r@;
        r.push(Vec::new());
        proof {
            assert(r@.drop_last() =~= before);
        }
        i = i + 1;
    }
    r
}

/// The index of the entry of `bucket` with key `key`.
fn position_in(bucket: &Vec<Entry>, key: &String) -> (r: Option<usize>)
    ensures
        r is Some ==> r->Some_0 < bucket@.len() && bucket@[r->Some_0 as int].0@ == key@,
        r is None ==> forall|j: int| 0 <= j < bucket@.len() ==> (#[trigger] bucket@[j]).0@ != key@,
{
    let mut i: usize = 0;
    while i < bucket.len()
        invariant
            0 <= i <= bucket@.len(),
            forall|j: int| 0 <= j < i ==> (#[trigger] bucket@[j]).0@ != key@,
        decreases bucket@.len() - i,
    {
        if bucket[i].0 == *key {
            return Some(i);
        }
        i = i + 1;
    }
    None
}

proof fn lemma_find_update(b: Seq<Entry>, i: int, e: Entry)
    requires
        0 <= i < b.len(),
        b[i].0@ == e.0@,
    ensures
        forall|k: Seq<char>| k != e.0@ ==> #[trigger] find(b.update(i, e), k) == find(b, k),
    decreases b.len(),
{
    assert forall|k: Seq<char>| k != e.0@ implies #[trigger] find(b.update(i, e), k) == find(b, k) by {
        if i < b.len() - 1 {
            lemma_find_update(b.drop_last(), i, e);
            assert(b.update(i, e).drop_last() =~= b.drop_last().update(i, e));
            assert(b.update(i, e).last() == b.last());
            assert(find(b.drop_last().update(i, e), k) == find(b.drop_last(), k));
        } else {
            assert(b.update(i, e).drop_last() =~= b.drop_last());
            assert(b.update(i, e).last() == e);
        }
    }
}

proof fn lemma_find_remove(b: Seq<Entry>, i: int)
    requires
        0 <= i < b.len(),
    ensures
        forall|k: Seq<char>| k != b[i].0@ ==> #[trigger] find(b.remove(i), k) == find(b, k),
    decreases b.len(),
{
    assert forall|k: Seq<char>| k != b[i].0@ implies #[trigger] find(b.remove(i), k) == find(b, k) by {
        if i < b.len() - 1 {
            lemma_find_remove(b.drop_last(), i);
            assert(b.remove(i).drop_last() =~= b.drop_last().remove(i));
            assert(b.remove(i).last() == b.last());
            assert(b.drop_last()[i] == b[i]);
            assert(find(b.drop_last().remove(i), k) == find(b.drop_last(), k));
        } else {
            assert(b.remove(i) =~= b.drop_last());
        }
    }
}

proof fn lemma_entry_count_prefix(bs: Seq<Vec<Entry>>, b: int)
    requires
        0 <= b < bs.len(),
    ensures
        entry_count(bs.take(b)) + bs[b]@.len() <= entry_count(bs),
    decreases bs.len(),
{
    if b < bs.len() - 1 {
        lemma_entry_count_prefix(bs.drop_last(), b);
        assert(bs.drop_last().take(b) =~= bs.take(b));
    } else {
        assert(bs.drop_last() =~= bs.take(b));
    }
}

proof fn lemma_entry_count_bounds(bs: Seq<Vec<Entry>>, b: int)
    requires
        0 <= b < bs.len(),
    ensures
        bs[b]@.len() <= entry_count(bs),
{
    lemma_entry_count_prefix(bs, b);
}

impl HashMap {
    pub closed spec fn wf(&self) -> bool {
        &&& self.buckets@.len() > 0
        &&& placed(self.buckets@)
        &&& self.size == entry_count(self.buckets@)
    }

    /// The value stored for key `k`.
    pub closed spec fn value_of(&self, k: Seq<char>) -> Option<Seq<char>> {
        lookup(self.buckets@, k)
    }

    /// The number of keys.
    pub closed spec fn len(&self) -> nat {
        self.size as nat
    }

    /// An empty map with sixteen buckets.
    pub fn new() -> (r: Self)
        ensures
            r.wf(),
            r.len() == 0,
            forall|k: Seq<char>| r.value_of(k) is None,
    {
        let r = HashMap { buckets: empty_buckets(16), size: 0 };
        proof {
            assert forall|k: Seq<char>| r.value_of(k) is None by {
                lemma_find_absent(r.buckets@[slot(k, 16)]@, k);
            }
        }
        r
    }

    /// The bucket index of `key`.
    fn hash(&self, key: &String) -> (r: usize)
        requires
            self.buckets@.len() > 0,
        ensures
            r == slot(key@, self.buckets@.len()),
    {
        debug_len(key) % self.buckets.len()
    }

    /// Sets the value of `key` without growing the buckets.
    fn insert_entry(&mut self, key: String, value: String) -> (added: bool)
        requires
            old(self).wf(),
            old(self).size < usize::MAX,
        ensures
            final(self).wf(),
            final(self).buckets@.len() == old(self).buckets@.len(),
            added == (old(self).value_of(key@) is None),
            final(self).size == old(self).size + if added { 1int } else { 0int },
            final(self).value_of(key@) == Some(value@),
            forall|k: Seq<char>| k != key@ ==> #[trigger] final(self).value_of(k) == old(self).value_of(k),
    {
        let ghost bs = self.buckets@;
        let ghost kv = key@;
        let ghost vv = value@;
        let idx = self.hash(&key);
        let mut bucket = self.buckets.remove(idx);
        let ghost b0 = bucket@;
        let added = match position_in(&bucket, &key) {
            Some(i) => {
                proof {
                    lemma_find_at(b0, kv, i as int);
                }
                bucket.set(i, (key, value));
                proof {
                    lemma_find_update(b0, i as int, bucket@[i as int]);
                    assert(b0 == bs[idx as int]@);
                    let b = bucket@;
                    assert forall|x: int, y: int|
                        0 <= x < b.len() && 0 <= y < b.len() && x != y implies (#[trigger] b[x]).0@
                        != (#[trigger] b[y]).0@ by {
                        assert(b[x].0@ == b0[x].0@);
                        assert(b[y].0@ == b0[y].0@);
                    }
                    lemma_find_at(b, kv, i as int);
                }
                false
            },
            None => {
                proof {
                    lemma_find_absent(b0, kv);
                }
                bucket.push((key, value));
                proof {
                    assert(bucket@.drop_last() =~= b0);
                    assert(bucket@.last().0@ == kv && bucket@.last().1@ == vv);
                    assert(find(bucket@, kv) == Some(vv));
                }
                true
            },
        };
        let ghost b1 = bucket@;
        self.buckets.insert(idx, bucket);
        proof {
            let n = bs.len();
            assert(self.buckets@ =~= bs.update(idx as int, self.buckets@[idx as int]));
            assert(self.buckets@[idx as int]@ == b1);
            lemma_entry_count_update(bs, idx as int, self.buckets@[idx as int]);
            let nb = self.buckets@;
            assert forall|b: int, i: int| 0 <= b < nb.len() && 0 <= i < nb[b]@.len() implies slot(
                (#[trigger] nb[b]@[i]).0@,
                nb.len(),
            ) == b by {
                if b == idx {
                    if i < b0.len() {
                        assert(b1[i].0@ == b0[i].0@);
                    }
                }
            }
            assert forall|b: int, i: int, j: int|
                0 <= b < nb.len() && 0 <= i < nb[b]@.len() && 0 <= j < nb[b]@.len() && i != j implies (
                #[trigger] nb[b]@[i]).0@ != (#[trigger] nb[b]@[j]).0@ by {
                if b == idx {
                    if i < b0.len() {
                        assert(b1[i].0@ == b0[i].0@);
                    }
                    if j < b0.len() {
                        assert(b1[j].0@ == b0[j].0@);
                    }
                }
            }
            assert forall|k: Seq<char>| k != kv implies #[trigger] lookup(nb, k) == lookup(bs, k) by {
                if slot(k, n) == idx {
                    if added {
                        assert(b1.drop_last() == b0);
                    }
                }
            }
        }
        if added {
            self.size = self.size + 1;
        }
        added
    }

    /// Spreads the entries over twice as many buckets.
    fn resize(&mut self)
        requires
            old(self).wf(),
            old(self).buckets@.len() * 2 <= usize::MAX,
        ensures
            final(self).wf(),
            final(self).size == old(self).size,
            final(self).buckets@.len() == old(self).buckets@.len() * 2,
            forall|k: Seq<char>| #[trigger] final(self).value_of(k) == old(self).value_of(k),
    {
        let n = self.buckets.len();
        let mut old_buckets = empty_buckets(n * 2);
        core::mem::swap(&mut self.buckets, &mut old_buckets);
        self.size = 0;
        let ghost ob = old_buckets@;
        proof {
            assert forall|k: Seq<char>| #[trigger] self.value_of(k) is None by {
                lemma_find_absent(self.buckets@[slot(k, (n * 2) as nat)]@, k);
            }
        }
        let mut b: usize = 0;
        while b < n
            invariant
                0 <= b <= n,
                old_buckets@ == ob,
                ob.len() == n,
                placed(ob),
                self.wf(),
                self.buckets@.len() == n * 2,
                self.size == entry_count(ob.take(b as int)),
                entry_count(ob) == old(self).size,
                forall|k: Seq<char>| #[trigger] self.value_of(k) == if slot(k, n as nat) < b {
                    find(ob[slot(k, n as nat)]@, k)
                } else {
                    None
                },
            decreases n - b,
        {
            let mut i: usize = 0;
            proof {
                lemma_entry_count_prefix(ob, b as int);
                assert(ob[b as int]@.take(0) =~= Seq::<Entry>::empty());
            }
            while i < old_buckets[b].len()
                invariant
                    0 <= b < n,
                    0 <= i <= ob[b as int]@.len(),
                    old_buckets@ == ob,
                    ob.len() == n,
                    placed(ob),
                    self.wf(),
                    self.buckets@.len() == n * 2,
                    self.size == entry_count(ob.take(b as int)) + i,
                    entry_count(ob.take(b as int)) + ob[b as int]@.len() <= old(self).size,
                    forall|k: Seq<char>| #[trigger] self.value_of(k) == if slot(k, n as nat) < b {
                        find(ob[slot(k, n as nat)]@, k)
                    } else if slot(k, n as nat) == b {
                        find(ob[b as int]@.take(i as int), k)
                    } else {
                        None
                    },
                decreases ob[b as int]@.len() - i,
            {
                let key = old_buckets[b][i].0.clone();
                let value = old_buckets[b][i].1.clone();
                let ghost bb = ob[b as int]@;
                proof {
                    assert(slot(key@, n as nat) == b);
                    assert forall|j: int| 0 <= j < i implies (#[trigger] bb.take(i as int)[j]).0@ != key@ by {
                        assert(bb.take(i as int)[j] == bb[j]);
                    }
                    lemma_find_absent(bb.take(i as int), key@);
                    assert(bb.take(i + 1).drop_last() =~= bb.take(i as int));
                    assert(bb.take(i + 1).last() == bb[i as int]);
                }
                self.insert_entry(key, value);
                i = i + 1;
            }
            proof {
                assert(ob[b as int]@.take(i as int) =~= ob[b as int]@);
                assert(ob.take(b + 1).drop_last() =~= ob.take(b as int));
            }
            b = b + 1;
        }
        proof {
            assert(ob.take(n as int) =~= ob);
        }
    }

    /// Sets the value of `key`; a new key may make the buckets grow.
    pub fn insert(&mut self, key: String, value: String)
        requires
            old(self).wf(),
            old(self).len() < usize::MAX,
        ensures
            final(self).wf(),
            final(self).value_of(key@) == Some(value@),
            forall|k: Seq<char>| k != key@ ==> #[trigger] final(self).value_of(k) == old(self).value_of(k),
            final(self).len() == old(self).len() + if old(self).value_of(key@) is None { 1int } else { 0int },
    {
        let added = self.insert_entry(key, value);
        if added && self.buckets.len() <= usize::MAX / 2 && self.size > self.buckets.len() * 2 {
            self.resize();
        }
    }

    /// The value stored for `key`.
    pub fn get(&self, key: &String) -> (r: Option<&String>)
        requires
            self.wf(),
        ensures
            r is Some <==> self.value_of(key@) is Some,
            r is Some ==> Some(r->Some_0@) == self.value_of(key@),
    {
        let idx = self.hash(key);
        let bucket = &self.buckets[idx];
        match position_in(bucket, key) {
            Some(i) => {
                proof {
                    lemma_find_at(bucket@, key@, i as int);
                }
                Some(&bucket[i].1)
            },
            None => {
                proof {
                    lemma_find_absent(bucket@, key@);
                }
                None
            },
        }
    }

    /// Takes `key` out, returning its value.
    pub fn remove(&mut self, key: &String) -> (r: Option<String>)
        requires
            old(self).wf(),
        ensures
            final(self).wf(),
            r is Some <==> old(self).value_of(key@) is Some,
            r is Some ==> Some(r->Some_0@) == old(self).value_of(key@),
            final(self).value_of(key@) is None,
            forall|k: Seq<char>| k != key@ ==> #[trigger] final(self).value_of(k) == old(self).value_of(k),
            final(self).len() == old(self).len() - if r is Some { 1int } else { 0int },
    {
        let ghost bs = self.buckets@;
        let idx = self.hash(key);
        let mut bucket = self.buckets.remove(idx);
        let ghost b0 = bucket@;
        let pos = position_in(&bucket, key);
        let r = match pos {
            Some(i) => {
                proof {
                    lemma_find_at(b0, key@, i as int);
                }
                let (_, v) = bucket.remove(i);
                Some(v)
            },
            None => {
                proof {
                    lemma_find_absent(b0, key@);
                }
                None
            },
        };
        let ghost b1 = bucket@;
        self.buckets.insert(idx, bucket);
        proof {
            let n = bs.len();
            assert(self.buckets@ =~= bs.update(idx as int, self.buckets@[idx as int]));
            lemma_entry_count_update(bs, idx as int, self.buckets@[idx as int]);
            lemma_entry_count_bounds(bs, idx as int);
            let nb = self.buckets@;
            let src = |x: int| if pos is Some && x >= pos->Some_0 { x + 1 } else { x };
            assert forall|x: int| 0 <= x < b1.len() implies #[trigger] b1[x] == b0[src(x)] by {
            }
            assert forall|b: int, i: int| 0 <= b < nb.len() && 0 <= i < nb[b]@.len() implies slot(
                (#[trigger] nb[b]@[i]).0@,
                nb.len(),
            ) == b by {
                if b == idx {
                    assert(b1[i] == b0[src(i)]);
                }
            }
            assert forall|b: int, i: int, j: int|
                0 <= b < nb.len() && 0 <= i < nb[b]@.len() && 0 <= j < nb[b]@.len() && i != j implies (
                #[trigger] nb[b]@[i]).0@ != (#[trigger] nb[b]@[j]).0@ by {
                if b == idx {
                    assert(b1[i] == b0[src(i)]);
                    assert(b1[j] == b0[src(j)]);
                }
            }
            match pos {
                Some(i) => {
                    lemma_find_remove(b0, i as int);
                    assert forall|x: int| 0 <= x < b1.len() implies (#[trigger] b1[x]).0@ != key@ by {
                        assert(b1[x] == b0[src(x)]);
                    }
                    lemma_find_absent(b1, key@);
                },
                None => {},
            }
        }
        if r.is_some() {
            self.size = self.size - 1;
        }
        r
    }

    /// Whether `key` has a value.
    pub fn contains(&self, key: &String) -> (r: bool)
        requires
            self.wf(),
        ensures
            r == self.value_of(key@) is Some,
    {
        self.get(key).is_some()
    }

    /// Every key once, bucket by bucket.
    pub fn keys(&self) -> (r: Vec<&String>)
        requires
            self.wf(),
        ensures
            r@.len() == self.len(),
            forall|i: int| 0 <= i < r@.len() ==> #[trigger] self.value_of(r@[i]@) is Some,
    {
        let ghost bs = self.buckets@;
        let mut keys: Vec<&String> = Vec::new();
        let mut b: usize = 0;
        while b < self.buckets.len()
            invariant
                0 <= b <= bs.len(),
                bs == self.buckets@,
                self.wf(),
                keys@.len() == entry_count(bs.take(b as int)),
                forall|x: int| 0 <= x < keys@.len() ==> #[trigger] lookup(bs, keys@[x]@) is Some,
            decreases bs.len() - b,
        {
            let bucket = &self.buckets[b];
            let mut i: usize = 0;
            while i < bucket.len()
                invariant
                    0 <= b < bs.len(),
                    0 <= i <= bucket@.len(),
                    bs == self.buckets@,
                    *bucket == bs[b as int],
                    self.wf(),
                    keys@.len() == entry_count(bs.take(b as int)) + i,
                    forall|x: int| 0 <= x < keys@.len() ==> #[trigger] lookup(bs, keys@[x]@) is Some,
                decreases bucket@.len() - i,
            {
                proof {
                    let k = bucket@[i as int].0@;
                    assert(slot(k, bs.len()) == b);
                    lemma_find_at(bucket@, k, i as int);
                }
                keys.push(&bucket[i].0);
                i = i + 1;
            }
            proof {
                assert(bs.take(b + 1).drop_last() =~= bs.take(b as int));
            }
            b = b + 1;
        }
        proof {
            assert(bs.take(bs.len() as int) =~= bs);
        }
        keys
    }

    /// The number of keys.
    pub fn size(&self) -> (r: usize)
        ensures
            r == self.len(),
    {
        self.size
    }
}

} // verus!
