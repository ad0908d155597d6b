//! A hash table with chained buckets, for the flow table and the per-service counters.

use vstd::prelude::*;

verus! {

/// What a table's keys offer: a hash, and a test for equality.
pub trait TableKey: Copy {
    /// The key's hash.
    spec fn hashed(&self) -> u64;

    /// The key's hash.
    fn hash_code(&self) -> (h: u64)
        ensures
            h == self.hashed(),
    ;

    /// Whether two keys are equal.
    fn same(&self, other: &Self) -> (r: bool)
        ensures
            r == (*self == *other),
    ;
}

/// A map from keys to values.
#[verifier::reject_recursive_types(K)]
pub struct Table<K: TableKey, V> {
    buckets: Vec<Vec<(K, V)>>,
    count: usize,
    contents: Ghost<Map<K, V>>,
}

/// The buckets of a new table.
const FIRST_BUCKETS: usize = 16;

/// The most buckets a table grows to.
const MAX_BUCKETS: usize = 0x4000_0000;

impl<K: TableKey, V> View for Table<K, V> {
    type V = Map<K, V>;

    closed spec fn view(&self) -> Map<K, V> {
        self.contents@
    }
}

/// The bucket of a key, of `n`.
spec fn bucket_index<K: TableKey>(k: K, n: nat) -> int {
    (k.hashed() as nat % n) as int
}

/// Some entry of the bucket has the key.
spec fn has_key<K: TableKey, V>(bucket: Seq<(K, V)>, k: K) -> bool {
    exists|j: int| 0 <= j < bucket.len() && (#[trigger] bucket[j]).0 == k
}

/// The buckets hold exactly the entries of `m`, each in its key's bucket, each once.
spec fn holds<K: TableKey, V>(buckets: Seq<Vec<(K, V)>>, m: Map<K, V>) -> bool {
    &&& buckets.len() > 0
    &&& forall|i: int, j: int|
        #![trigger buckets[i]@[j]]
        0 <= i < buckets.len() && 0 <= j < buckets[i]@.len() ==> {
            &&& m.contains_key(buckets[i]@[j].0)
            &&& m[buckets[i]@[j].0] == buckets[i]@[j].1
            &&& bucket_index(buckets[i]@[j].0, buckets.len()) == i
        }
    &&& forall|i: int, j: int, l: int|
        #![trigger buckets[i]@[j], buckets[i]@[l]]
        0 <= i < buckets.len() && 0 <= j < l < buckets[i]@.len() ==> buckets[i]@[j].0
            != buckets[i]@[l].0
    &&& forall|k: K| #[trigger]
        m.contains_key(k) ==> has_key(buckets[bucket_index(k, buckets.len())]@, k)
}

proof fn lemma_bucket_index<K: TableKey>(k: K, n: nat)
    requires
        n > 0,
    ensures
        0 <= bucket_index(k, n) < n,
{
}

impl<K: TableKey, V> Table<K, V> {
    /// The table's invariant.
    pub closed spec fn wf(self) -> bool {
        &&& holds(self.buckets@, self.contents@)
        &&& self.contents@.dom().finite()
        &&& self.count == self.contents@.dom().len()
    }

    /// A well-formed table's contents are finite.
    pub proof fn lemma_finite(self)
        requires
            self.wf(),
        ensures
            self@.dom().finite(),
            self@.dom().len() <= usize::MAX,
    {
    }

    /// An empty table.
    pub fn new() -> (t: Table<K, V>)
        ensures
            t.wf(),
            t@ == Map::<K, V>::empty(),
    {
        Table {
            buckets: empty_buckets(FIRST_BUCKETS),
            count: 0,
            contents: Ghost(Map::empty()),
        }
    }

    /// The number of entries.
    pub fn len(&self) -> (n: usize)
        requires
            self.wf(),
        ensures
            n == self@.dom().len(),
    {
        self.count
    }

    /// The position of a key's entry in its bucket.
    fn locate(&self, k: &K) -> (r: (usize, Option<usize>))
        requires
            self.wf(),
        ensures
            r.0 == bucket_index(*k, self.buckets@.len()),
            r.0 < self.buckets@.len(),
            match r.1 {
                Some(j) => {
                    &&& j < self.buckets@[r.0 as int]@.len()
                    &&& self.buckets@[r.0 as int]@[j as int].0 == *k
                    &&& self@.contains_key(*k)
                    &&& self@[*k] == self.buckets@[r.0 as int]@[j as int].1
                },
                None => !self@.contains_key(*k),
            },
    {
        let i: usize = (k.hash_code() % self.buckets.len() as u64) as usize;
        let mut j: usize = 0;
        while j < self.buckets[i].len()
            invariant
                self.wf(),
                i == bucket_index(*k, self.buckets@.len()),
                i < self.buckets@.len(),
                j <= self.buckets@[i as int]@.len(),
                forall|l: int|
                    0 <= l < j ==> (#[trigger] self.buckets@[i as int]@[l]).0 != *k,
            decreases self.buckets@[i as int]@.len() - j,
        {
            if self.buckets[i][j].0.same(k) {
                return (i, Some(j));
            }
            j = j + 1;
        }
        (i, None)
    }

    /// The value under a key.
    pub fn get(&self, k: &K) -> (r: Option<&V>)
        requires
            self.wf(),
        ensures
            match r {
                Some(v) => self@.contains_key(*k) && *v == self@[*k],
                None => !self@.contains_key(*k),
            },
    {
        let (i, found) = self.locate(k);
        match found {
            Some(j) => Some(&self.buckets[i][j].1),
            None => None,
        }
    }

    /// Puts a value under a key, in place of what was there.
    pub fn insert(&mut self, k: K, v: V)
        requires
            old(self).wf(),
            old(self)@.contains_key(k) || old(self)@.dom().len() < usize::MAX,
        ensures
            final(self).wf(),
            final(self)@ == old(self)@.insert(k, v),
    {
        let (i, found) = self.locate(&k);
        match found {
            Some(j) => {
                let ghost before = self.buckets@;
                self.buckets[i][j] = (k, v);
                proof {
                    let after = self.buckets@;
                    let m = self.contents@.insert(k, v);
                    assert(after[i as int]@ =~= before[i as int]@.update(j as int, (k, v)));
                    assert(forall|p: int|
                        0 <= p < before.len() && p != i ==> #[trigger] after[p] == before[p]);
                    assert forall|q: K| #[trigger] m.contains_key(q) implies has_key(
                        after[bucket_index(q, after.len())]@,
                        q,
                    ) by {
                        lemma_bucket_index(q, after.len());
                        let b = bucket_index(q, after.len());
                        assert(self.contents@.contains_key(q));
                        let l = choose|l: int|
                            0 <= l < before[b]@.len() && (#[trigger] before[b]@[l]).0 == q;
                        assert(after[b]@[l].0 == q);
                    }
                    assert(m.dom() =~= self.contents@.dom());
                    assert(holds(after, m));
                }
                self.contents = Ghost(self.contents@.insert(k, v));
            },
            None => {
                if self.count >= self.buckets.len() && self.buckets.len() <= MAX_BUCKETS {
                    self.grow();
                }
                let i: usize = (k.hash_code() % self.buckets.len() as u64) as usize;
                let ghost before = self.buckets@;
                self.buckets[i].push((k, v));
                self.count = self.count + 1;
                proof {
                    let after = self.buckets@;
                    let m = self.contents@.insert(k, v);
                    assert(after[i as int]@ =~= before[i as int]@.push((k, v)));
                    assert(forall|p: int|
                        0 <= p < before.len() && p != i ==> #[trigger] after[p] == before[p]);
                    assert forall|q: K| #[trigger] m.contains_key(q) implies has_key(
                        after[bucket_index(q, after.len())]@,
                        q,
                    ) by {
                        lemma_bucket_index(q, after.len());
                        let b = bucket_index(q, after.len());
                        if q == k {
                            assert(after[b]@[before[b]@.len() as int].0 == q);
                        } else {
                            assert(self.contents@.contains_key(q));
                            let l = choose|l: int|
                                0 <= l < before[b]@.len() && (#[trigger] before[b]@[l]).0 == q;
                            assert(after[b]@[l].0 == q);
                        }
                    }
                    assert(m.dom() =~= self.contents@.dom().insert(k));
                    assert(holds(after, m));
                }
                self.contents = Ghost(self.contents@.insert(k, v));
            },
        }
    }

    /// Spreads the entries over twice as many buckets.
    fn grow(&mut self)
        requires
            old(self).wf(),
            old(self).buckets@.len() <= MAX_BUCKETS,
        ensures
            final(self).wf(),
            final(self)@ == old(self)@,
            final(self).count == old(self).count,
            final(self).buckets@.len() == 2 * old(self).buckets@.len(),
    {
        let n: usize = self.buckets.len() * 2;
        let mut wider: Vec<Vec<(K, V)>> = empty_buckets(n);
        let ghost m = self.contents@;
        let ghost whole = self.buckets@;
        let ghost mut moved: Map<K, V> = Map::empty();
        let mut rest: Vec<Vec<(K, V)>> = Vec::new();
        std::mem::swap(&mut rest, &mut self.buckets);
        while rest.len() > 0
            invariant
                holds(whole, m),
                rest@.len() <= whole.len(),
                rest@ =~= whole.take(rest@.len() as int),
                wider@.len() == n,
                holds(wider@, moved),
                moved.submap_of(m),
                forall|k: K| #[trigger]
                    m.contains_key(k) ==> (moved.contains_key(k) <==> bucket_index(k, whole.len())
                        >= rest@.len()),
            decreases rest@.len(),
        {
            let ghost before = rest@;
            let mut bucket: Vec<(K, V)> = match rest.pop() {
                Some(b) => b,
                None => Vec::new(),
            };
            let ghost at = rest@.len() as int;
            let ghost full = bucket@;
            assert(full == whole[at]@);
            assert(rest@ =~= whole.take(at));
            while bucket.len() > 0
                invariant
                    holds(whole, m),
                    0 <= at < whole.len(),
                    full == whole[at]@,
                    bucket@.len() <= full.len(),
                    bucket@ =~= full.take(bucket@.len() as int),
                    wider@.len() == n,
                    holds(wider@, moved),
                    moved.submap_of(m),
                    forall|k: K| #[trigger]
                        m.contains_key(k) ==> (moved.contains_key(k) <==> (bucket_index(
                            k,
                            whole.len(),
                        ) > at || exists|j: int|
                            bucket@.len() <= j < full.len() && (#[trigger] full[j]).0 == k)),
                decreases bucket@.len(),
            {
                let ghost upto = bucket@.len();
                if let Some((k, v)) = bucket.pop() {
                    let i: usize = (k.hash_code() % wider.len() as u64) as usize;
                    let ghost was = wider@;
                    let ghost old_moved = moved;
                    proof {
                        assert(full[upto - 1] == (k, v));
                        assert(whole[at]@[upto - 1].0 == k);
                        assert(m.contains_key(k) && m[k] == v);
                        assert(bucket_index(k, whole.len()) == at);
                        if moved.contains_key(k) {
                            let j = choose|j: int|
                                upto <= j < full.len() && (#[trigger] full[j]).0 == k;
                            assert(whole[at]@[upto - 1].0 != whole[at]@[j].0);
                        }
                        assert(!moved.contains_key(k));
                    }
                    wider[i].push((k, v));
                    proof {
                        moved = moved.insert(k, v);
                        let after = wider@;
                        assert(after[i as int]@ =~= was[i as int]@.push((k, v)));
                        assert(forall|p: int|
                            0 <= p < was.len() && p != i ==> #[trigger] after[p] == was[p]);
                        assert forall|q: K| #[trigger] moved.contains_key(q) implies has_key(
                            after[bucket_index(q, after.len())]@,
                            q,
                        ) by {
                            lemma_bucket_index(q, after.len());
                            let b = bucket_index(q, after.len());
                            if q == k {
                                assert(after[b]@[was[b]@.len() as int].0 == q);
                            } else {
                                assert(old_moved.contains_key(q));
                                let l = choose|l: int|
                                    0 <= l < was[b]@.len() && (#[trigger] was[b]@[l]).0 == q;
                                assert(after[b]@[l].0 == q);
                            }
                        }
                        assert(holds(after, moved));
                        assert forall|q: K| #[trigger] m.contains_key(q) implies (
                        moved.contains_key(q) <==> (bucket_index(q, whole.len()) > at || exists|
                            j: int,
                        |
                            bucket@.len() <= j < full.len() && (#[trigger] full[j]).0 == q)) by {
                            if q == k {
                                assert(full[upto - 1].0 == q);
                            } else {
                                assert(old_moved.contains_key(q) == moved.contains_key(q));
                            }
                        }
                    }
                }
            }
            proof {
                assert forall|k: K| #[trigger] m.contains_key(k) implies (moved.contains_key(k)
                    <==> bucket_index(k, whole.len()) >= rest@.len()) by {
                    if bucket_index(k, whole.len()) == at {
                        assert(has_key(whole[at]@, k));
                    } else if moved.contains_key(k) && bucket_index(k, whole.len()) < at {
                        let j = choose|j: int|
                            0 <= j < full.len() && (#[trigger] full[j]).0 == k;
                        assert(whole[at]@[j].0 == k);
                    }
                }
            }
        }
        proof {
            assert forall|k: K| #[trigger] m.contains_key(k) implies moved.contains_key(k) by {
                lemma_bucket_index(k, whole.len());
            }
            assert(moved =~= m);
        }
        self.buckets = wider;
    }

    /// Takes a key's entry out.
    pub fn remove(&mut self, k: &K) -> (r: Option<V>)
        requires
            old(self).wf(),
        ensures
            final(self).wf(),
            final(self)@ == old(self)@.remove(*k),
            match r {
                Some(v) => old(self)@.contains_key(*k) && v == old(self)@[*k],
                None => !old(self)@.contains_key(*k),
            },
    {
        let (i, found) = self.locate(k);
        match found {
            Some(j) => {
                let ghost before = self.buckets@;
                let entry = self.buckets[i].swap_remove(j);
                proof {
                    let after = self.buckets@;
                    let m = self.contents@.remove(*k);
                    let last = before[i as int]@.len() - 1;
                    assert(after[i as int]@ =~= before[i as int]@.update(
                        j as int,
                        before[i as int]@[last],
                    ).drop_last());
                    assert(forall|p: int|
                        0 <= p < before.len() && p != i ==> #[trigger] after[p] == before[p]);
                    assert forall|p: int, q: int|
                        #![trigger after[p]@[q]]
                        0 <= p < after.len() && 0 <= q < after[p]@.len() implies ({
                        &&& m.contains_key(after[p]@[q].0)
                        &&& m[after[p]@[q].0] == after[p]@[q].1
                        &&& bucket_index(after[p]@[q].0, after.len()) == p
                    }) by {
                        if p == i {
                            let from = if q == j {
                                last
                            } else {
                                q
                            };
                            assert(after[p]@[q] == before[p]@[from]);
                            if from < j {
                                assert(before[p]@[from].0 != before[p]@[j as int].0);
                            } else {
                                assert(before[p]@[j as int].0 != before[p]@[from].0);
                            }
                        } else {
                            assert(after[p]@[q] == before[p]@[q]);
                        }
                    }
                    assert forall|q: K| #[trigger] m.contains_key(q) implies has_key(
                        after[bucket_index(q, after.len())]@,
                        q,
                    ) by {
                        lemma_bucket_index(q, after.len());
                        let b = bucket_index(q, after.len());
                        assert(self.contents@.contains_key(q));
                        let l = choose|l: int|
                            0 <= l < before[b]@.len() && (#[trigger] before[b]@[l]).0 == q;
                        if b == i && l == last {
                            assert(after[b]@[j as int].0 == q);
                        } else {
                            assert(after[b]@[l].0 == q);
                        }
                    }
                    assert(m.dom() =~= self.contents@.dom().remove(*k));
                    assert(holds(after, m));
                }
                self.count = self.count - 1;
                self.contents = Ghost(self.contents@.remove(*k));
                Some(entry.1)
            },
            None => {
                assert(self.contents@.remove(*k) =~= self.contents@);
                None
            },
        }
    }

    /// All keys, each once, in no particular order.
    pub fn keys(&self) -> (keys: Vec<K>)
        requires
            self.wf(),
        ensures
            keys@.no_duplicates(),
            keys@.to_set() == self@.dom(),
    {
        let mut keys: Vec<K> = Vec::new();
        let mut i: usize = 0;
        while i < self.buckets.len()
            invariant
                self.wf(),
                i <= self.buckets@.len(),
                keys@.no_duplicates(),
                forall|k: K| #[trigger]
                    keys@.contains(k) <==> self@.contains_key(k) && bucket_index(
                        k,
                        self.buckets@.len(),
                    ) < i,
            decreases self.buckets@.len() - i,
        {
            let mut j: usize = 0;
            while j < self.buckets[i].len()
                invariant
                    self.wf(),
                    i < self.buckets@.len(),
                    j <= self.buckets@[i as int]@.len(),
                    keys@.no_duplicates(),
                    forall|k: K| #[trigger]
                        keys@.contains(k) <==> self@.contains_key(k) && (bucket_index(
                            k,
                            self.buckets@.len(),
                        ) < i || exists|l: int|
                            0 <= l < j && (#[trigger] self.buckets@[i as int]@[l]).0 == k),
                decreases self.buckets@[i as int]@.len() - j,
            {
                let k = self.buckets[i][j].0;
                let ghost before = keys@;
                proof {
                    assert(self.buckets@[i as int]@[j as int].0 == k);
                    if before.contains(k) {
                        let l = choose|l: int|
                            0 <= l < j && (#[trigger] self.buckets@[i as int]@[l]).0 == k;
                        assert(self.buckets@[i as int]@[l].0 != self.buckets@[i as int]@[
                            j as int
                        ].0);
                    }
                }
                keys.push(k);
                proof {
                    let bucket = self.buckets@[i as int]@;
                    assert forall|q: K| #[trigger]
                        keys@.contains(q) <==> self@.contains_key(q) && (bucket_index(
                            q,
                            self.buckets@.len(),
                        ) < i || exists|l: int| 0 <= l < j + 1 && (#[trigger] bucket[l]).0 == q) by {
                        if q == k {
                            assert(keys@[keys@.len() - 1] == q);
                            assert(bucket[j as int].0 == q);
                        } else {
                            if keys@.contains(q) {
                                let p = choose|p: int| 0 <= p < keys@.len() && keys@[p] == q;
                                assert(before[p] == q);
                                assert(before.contains(q));
                            }
                            if before.contains(q) {
                                let p = choose|p: int| 0 <= p < before.len() && before[p] == q;
                                assert(keys@[p] == q);
                            }
                        }
                    }
                }
                j = j + 1;
            }
            proof {
                let bucket = self.buckets@[i as int]@;
                assert forall|k: K| #[trigger]
                    keys@.contains(k) <==> self@.contains_key(k) && bucket_index(
                        k,
                        self.buckets@.len(),
                    ) < i + 1 by {
                    if self@.contains_key(k) && bucket_index(k, self.buckets@.len()) == i {
                        assert(has_key(bucket, k));
                    }
                }
            }
            i = i + 1;
        }
        proof {
            assert forall|k: K| keys@.contains(k) == self@.contains_key(k) by {
                lemma_bucket_index(k, self.buckets@.len());
            }
            assert(keys@.to_set() =~= self@.dom());
        }
        keys
    }
}

/// A number of empty buckets.
fn empty_buckets<K: TableKey, V>(n: usize) -> (v: Vec<Vec<(K, V)>>)
    requires
        n > 0,
    ensures
        v@.len() == n,
        holds(v@, Map::empty()),
{
    let mut v: Vec<Vec<(K, V)>> = Vec::new();
    let mut i: usize = 0;
    while i < n
        invariant
            i <= n,
            v@.len() == i,
            forall|j: int| 0 <= j < i ==> (#[trigger] v@[j])@.len() == 0,
        decreases n - i,
    {
        v.push(Vec::new());
        i = i + 1;
    }
    v
}

} // verus!
