use vstd::prelude::*;

use crate::element::Element;
use crate::hash::MapKey;

verus! {

broadcast use vstd::set::group_set_axioms;

/// Intra-shard bucket index of a hash, in a table of `cap` buckets: the
/// hash's low bits, taken by reduction modulo the bucket count.
pub open spec fn spec_bucket_index(hash: u64, cap: int) -> int
    recommends
        cap >= 1,
{
    (hash as int) % cap
}

/// Whether some element of bucket `b` stores the abstract key `kv`.
pub open spec fn bucket_has_key<K: MapKey, V>(b: Seq<Element<K, V>>, kv: K::V) -> bool {
    exists|j: int| 0 <= j < b.len() && b[j].key@ == kv
}

/// An element agrees with the abstract contents `c` and stored hashes `h`,
/// and sits in the bucket (`i` of `cap`) that its hash selects.
pub open spec fn elem_props<K: MapKey, V>(
    e: Element<K, V>,
    c: Map<K::V, V>,
    h: Map<K::V, u64>,
    i: int,
    cap: int,
) -> bool {
    &&& c.contains_key(e.key@)
    &&& c[e.key@] == e.value
    &&& h.contains_key(e.key@)
    &&& h[e.key@] == e.hash
    &&& spec_bucket_index(e.hash, cap) == i
}

/// Every element of every bucket of `bs` satisfies `elem_props`.
pub open spec fn seq_elems_ok<K: MapKey, V>(
    bs: Seq<Vec<Element<K, V>>>,
    c: Map<K::V, V>,
    h: Map<K::V, u64>,
) -> bool {
    forall|i: int, j: int|
        #![trigger bs[i]@[j]]
        0 <= i < bs.len() && 0 <= j < bs[i]@.len() ==> elem_props(bs[i]@[j], c, h, i, bs.len() as int)
}

/// No bucket of `bs` stores two elements with equal keys.
pub open spec fn seq_no_dup<K: MapKey, V>(bs: Seq<Vec<Element<K, V>>>) -> bool {
    forall|i: int, j1: int, j2: int|
        #![trigger bs[i]@[j1], bs[i]@[j2]]
        0 <= i < bs.len() && 0 <= j1 < j2 < bs[i]@.len() ==> bs[i]@[j1].key@ != bs[i]@[j2].key@
}

/// One shard: an independent chained hash table.  It owns its bucket
/// storage, counts its live elements, and grows itself when an insert
/// pushes the load factor over the threshold.
pub struct Table<K: MapKey, V> {
    buckets: Vec<Vec<Element<K, V>>>,
    count: usize,
    contents: Ghost<Map<K::V, V>>,
    hashes: Ghost<Map<K::V, u64>>,
}

impl<K: MapKey, V> View for Table<K, V> {
    type V = Map<K::V, V>;

    closed spec fn view(&self) -> Map<K::V, V> {
        self.contents@
    }
}

impl<K: MapKey, V> Table<K, V> {
    /// The hash each present key was stored under.
    pub closed spec fn spec_hashes(self) -> Map<K::V, u64> {
        self.hashes@
    }

    pub open spec fn hash_of(self, kv: K::V) -> u64 {
        self.spec_hashes()[kv]
    }

    /// Number of buckets currently allocated.
    pub closed spec fn spec_capacity(self) -> int {
        self.buckets@.len() as int
    }

    /// The load factor stays below the growth threshold of three
    /// quarters right after any insert, as long as a doubled bucket
    /// count still fits the machine.
    pub open spec fn load_ok(self) -> bool {
        4 * self@.dom().len() <= 3 * self.spec_capacity() || self.spec_capacity() > usize::MAX as int
            / 2
    }

    /// Well-formedness: the bucket storage and the abstract maps agree.
    pub closed spec fn wf(self) -> bool {
        let bs = self.buckets@;
        let cap = bs.len() as int;
        &&& cap >= 4
        &&& self.contents@.dom().finite()
        &&& self.count as int == self.contents@.dom().len()
        &&& self.hashes@.dom() == self.contents@.dom()
        &&& seq_elems_ok(bs, self.contents@, self.hashes@)
        &&& forall|kv: K::V| #[trigger]
            self.contents@.contains_key(kv) ==> bucket_has_key(
                bs[spec_bucket_index(self.hashes@[kv], cap)]@,
                kv,
            )
        &&& seq_no_dup(bs)
    }

    /// A well-formed table stores finitely many keys, and records a hash
    /// for exactly the keys it stores.
    pub proof fn lemma_wf_finite(self)
        requires
            self.wf(),
        ensures
            self@.dom().finite(),
            self.spec_hashes().dom() == self@.dom(),
    {
    }

    /// A fresh, empty table with at least `capacity` buckets.
    pub fn new(capacity: usize) -> (t: Self)
        ensures
            t.wf(),
            t.load_ok(),
            t@ == Map::<K::V, V>::empty(),
            t.spec_hashes() == Map::<K::V, u64>::empty(),
            t.spec_capacity() >= capacity,
            t.spec_capacity() >= 4,
    {
        let cap = if capacity < 4 {
            4
        } else {
            capacity
        };
        let mut buckets: Vec<Vec<Element<K, V>>> = Vec::new();
        while buckets.len() < cap
            invariant
                forall|i: int| 0 <= i < buckets@.len() ==> #[trigger] buckets@[i]@.len() == 0,
            decreases cap - buckets.len(),
        {
            buckets.push(Vec::new());
        }
        let t = Table {
            buckets,
            count: 0,
            contents: Ghost(Map::empty()),
            hashes: Ghost(Map::empty()),
        };
        proof {
            assert(t.contents@.dom() =~= Set::<K::V>::empty());
            assert(t.hashes@.dom() =~= t.contents@.dom());
        }
        t
    }

    /// Number of live elements.
    pub fn len(&self) -> (n: usize)
        requires
            self.wf(),
        ensures
            n as int == self@.dom().len(),
    {
        self.count
    }

    /// Scan a bucket for an element storing an equal key.
    fn find_in_bucket(bucket: &Vec<Element<K, V>>, key: &K) -> (r: Option<usize>)
        ensures
            match r {
                Some(j) => j < bucket@.len() && bucket@[j as int].key@ == key@,
                None => forall|jj: int| 0 <= jj < bucket@.len() ==> bucket@[jj].key@ != key@,
            },
    {
        let n = bucket.len();
        let mut j: usize = 0;
        while j < n
            invariant
                n == bucket@.len(),
                j <= n,
                forall|jj: int| 0 <= jj < j ==> bucket@[jj].key@ != key@,
            decreases n - j,
        {
            if bucket[j].key.key_eq(key) {
                return Some(j);
            }
            j = j + 1;
        }
        None
    }

    /// Look the key up under its hash.  Returns the stored cell when the
    /// key is present, and nothing exactly when it is absent.
    pub fn get<'a>(&'a self, key: &K, hash: u64) -> (r: Option<&'a Element<K, V>>)
        requires
            self.wf(),
            self@.contains_key(key@) ==> self.hash_of(key@) == hash,
        ensures
            match r {
                Some(e) => self@.contains_key(key@) && e.key@ == key@ && e.value == self@[key@]
                    && e.hash == hash,
                None => !self@.contains_key(key@),
            },
    {
        let cap = self.buckets.len();
        let b = (hash % (cap as u64)) as usize;
        let bucket = &self.buckets[b];
        match Self::find_in_bucket(bucket, key) {
            Some(j) => {
                proof {
                    assert(elem_props(
                        self.buckets@[b as int]@[j as int],
                        self.contents@,
                        self.hashes@,
                        b as int,
                        cap as int,
                    ));
                }
                Some(&bucket[j])
            },
            None => {
                proof {
                    if self@.contains_key(key@) {
                        let bi = spec_bucket_index(self.hashes@[key@], cap as int);
                        assert(bucket_has_key(self.buckets@[bi]@, key@));
                        let jj = choose|jj: int|
                            0 <= jj < self.buckets@[bi]@.len() && self.buckets@[bi]@[jj].key@
                                == key@;
                        assert(self.buckets@[bi]@[jj].key@ == key@);
                        assert(false);
                    }
                }
                None
            },
        }
    }

    /// Insert the key under its hash, overwriting the cell of an equal
    /// key if one is stored: the replacement is published as a whole cell
    /// and the superseded cell is retired.  Live elements occupy distinct
    /// memory, so fewer than `usize::MAX` of them can exist: the bound in
    /// the precondition records that machine limit.
    pub fn insert(&mut self, key: K, hash: u64, value: V)
        requires
            old(self).wf(),
            old(self).load_ok(),
            old(self)@.contains_key(key@) ==> old(self).hash_of(key@) == hash,
            old(self)@.dom().len() < usize::MAX,
        ensures
            final(self).wf(),
            final(self).load_ok(),
            final(self)@ == old(self)@.insert(key@, value),
            final(self).spec_hashes() == old(self).spec_hashes().insert(key@, hash),
    {
        let ghost kv = key@;
        let cap = self.buckets.len();
        let b = (hash % (cap as u64)) as usize;
        let found = Self::find_in_bucket(&self.buckets[b], &key);
        match found {
            Some(at) => {
                proof {
                    assert(elem_props(
                        self.buckets@[b as int]@[at as int],
                        self.contents@,
                        self.hashes@,
                        b as int,
                        cap as int,
                    ));
                }
                self.buckets[b][at] = Element { key, hash, value };
                self.contents = Ghost(self.contents@.insert(kv, value));
                self.hashes = Ghost(self.hashes@.insert(kv, hash));
                proof {
                    self.lemma_wf_restored(*old(self), kv, hash, value, b as int, at as int);
                }
            },
            None => {
                proof {
                    if self.contents@.contains_key(kv) {
                        let bi = spec_bucket_index(self.hashes@[kv], cap as int);
                        assert(bucket_has_key(self.buckets@[bi]@, kv));
                        let jj = choose|jj: int|
                            0 <= jj < self.buckets@[bi]@.len() && self.buckets@[bi]@[jj].key@ == kv;
                        assert(self.buckets@[bi]@[jj].key@ == kv);
                        assert(false);
                    }
                }
                self.buckets[b].push(Element { key, hash, value });
                self.count = self.count + 1;
                self.contents = Ghost(self.contents@.insert(kv, value));
                self.hashes = Ghost(self.hashes@.insert(kv, hash));
                proof {
                    self.lemma_wf_after_push(*old(self), kv, hash, value, b as int);
                }
            },
        }
        // Load-factor check: grow once live elements reach three quarters
        // of the bucket count, while a doubled bucket count still fits.
        let cap_now = self.buckets.len();
        if (self.count as u128) * 4 > (cap_now as u128) * 3 && cap_now <= usize::MAX / 2 {
            self.grow();
        }
    }

    /// Double the bucket array: allocate the replacement in full, re-home
    /// every live element by its stored hash, then publish the new array
    /// as current.  No element is lost or duplicated, and no value is
    /// copied: each cell is relocated.  Growth runs under the shard's
    /// exclusive borrow, so no reader still references the superseded
    /// array and it is reclaimed at once.
    fn grow(&mut self)
        requires
            old(self).wf(),
            old(self).spec_capacity() * 2 <= usize::MAX,
        ensures
            final(self).wf(),
            final(self)@ == old(self)@,
            final(self).spec_hashes() == old(self).spec_hashes(),
            final(self).spec_capacity() == old(self).spec_capacity() * 2,
    {
        let oldcap = self.buckets.len();
        let newcap = oldcap * 2;
        let mut nb: Vec<Vec<Element<K, V>>> = Vec::new();
        while nb.len() < newcap
            invariant
                nb@.len() <= newcap,
                forall|i: int| 0 <= i < nb@.len() ==> #[trigger] nb@[i]@.len() == 0,
            decreases newcap - nb.len(),
        {
            nb.push(Vec::new());
        }
        let ghost c = self.contents@;
        let ghost h = self.hashes@;
        let ghost oc = oldcap as int;
        let ghost nc = newcap as int;
        let mut i: usize = 0;
        while i < oldcap
            invariant
                i <= oldcap,
                oldcap == self.buckets@.len(),
                newcap == nb@.len(),
                newcap == oldcap * 2,
                oldcap >= 1,
                oc == oldcap as int,
                nc == newcap as int,
                self.contents@ == c,
                self.hashes@ == h,
                self.count == old(self).count,
                c == old(self).contents@,
                h == old(self).hashes@,
                seq_elems_ok(self.buckets@, c, h),
                seq_elems_ok(nb@, c, h),
                seq_no_dup(self.buckets@),
                seq_no_dup(nb@),
                forall|i2: int| 0 <= i2 < i ==> #[trigger] self.buckets@[i2]@.len() == 0,
                forall|kv: K::V| #[trigger]
                    c.contains_key(kv) ==> bucket_has_key(
                        self.buckets@[spec_bucket_index(h[kv], oc)]@,
                        kv,
                    ) || bucket_has_key(nb@[spec_bucket_index(h[kv], nc)]@, kv),
                forall|kv: K::V| #[trigger]
                    c.contains_key(kv) ==> !(bucket_has_key(
                        self.buckets@[spec_bucket_index(h[kv], oc)]@,
                        kv,
                    ) && bucket_has_key(nb@[spec_bucket_index(h[kv], nc)]@, kv)),
            decreases oldcap - i,
        {
            while self.buckets[i].len() > 0
                invariant
                    i < oldcap,
                    oldcap == self.buckets@.len(),
                    newcap == nb@.len(),
                    newcap == oldcap * 2,
                    oldcap >= 1,
                    oc == oldcap as int,
                    nc == newcap as int,
                    self.contents@ == c,
                    self.hashes@ == h,
                    self.count == old(self).count,
                    seq_elems_ok(self.buckets@, c, h),
                    seq_elems_ok(nb@, c, h),
                    seq_no_dup(self.buckets@),
                    seq_no_dup(nb@),
                    forall|i2: int| 0 <= i2 < i ==> #[trigger] self.buckets@[i2]@.len() == 0,
                    forall|kv: K::V| #[trigger]
                        c.contains_key(kv) ==> bucket_has_key(
                            self.buckets@[spec_bucket_index(h[kv], oc)]@,
                            kv,
                        ) || bucket_has_key(nb@[spec_bucket_index(h[kv], nc)]@, kv),
                    forall|kv: K::V| #[trigger]
                        c.contains_key(kv) ==> !(bucket_has_key(
                            self.buckets@[spec_bucket_index(h[kv], oc)]@,
                            kv,
                        ) && bucket_has_key(nb@[spec_bucket_index(h[kv], nc)]@, kv)),
                decreases self.buckets@[i as int]@.len(),
            {
                let ghost bs0 = self.buckets@;
                let ghost nb0 = nb@;
                let popped = self.buckets[i].pop();
                match popped {
                    Some(e) => {
                        proof {
                            assert(self.buckets@[i as int]@ =~= bs0[i as int]@.drop_last());
                            assert(e == bs0[i as int]@[bs0[i as int]@.len() - 1]);
                            assert(elem_props(e, c, h, i as int, oc));
                        }
                        let nbi = (e.hash % (newcap as u64)) as usize;
                        proof {
                            assert(nbi as int == spec_bucket_index(h[e.key@], nc));
                            assert(bucket_has_key(bs0[spec_bucket_index(h[e.key@], oc)]@, e.key@));
                            assert(!bucket_has_key(nb0[nbi as int]@, e.key@));
                        }
                        nb[nbi].push(e);
                        proof {
                            self::Table::<K, V>::lemma_grow_step(
                                bs0,
                                self.buckets@,
                                nb0,
                                nb@,
                                c,
                                h,
                                i as int,
                                nbi as int,
                                e,
                            );
                        }
                    },
                    None => {
                        proof {
                            assert(false);
                        }
                    },
                }
            }
            i = i + 1;
        }
        let ghost drained = self.buckets@;
        self.buckets = nb;
        proof {
            assert forall|kv: K::V| #[trigger]
                self.contents@.contains_key(kv) implies bucket_has_key(
                self.buckets@[spec_bucket_index(self.hashes@[kv], nc)]@,
                kv,
            ) by {
                let bi = spec_bucket_index(h[kv], oc);
                assert(0 <= bi < oc);
                assert(drained[bi]@.len() == 0);
                assert(!bucket_has_key(drained[bi]@, kv));
            }
        }
    }

    /// One migration step of `grow` preserves the migration invariants:
    /// the popped element reappears, exactly once, in its new bucket.
    proof fn lemma_grow_step(
        bs0: Seq<Vec<Element<K, V>>>,
        bs1: Seq<Vec<Element<K, V>>>,
        nb0: Seq<Vec<Element<K, V>>>,
        nb1: Seq<Vec<Element<K, V>>>,
        c: Map<K::V, V>,
        h: Map<K::V, u64>,
        i: int,
        nbi: int,
        e: Element<K, V>,
    )
        requires
            seq_elems_ok(bs0, c, h),
            seq_elems_ok(nb0, c, h),
            seq_no_dup(bs0),
            seq_no_dup(nb0),
            nb0.len() >= 1,
            bs0.len() >= 1,
            0 <= i < bs0.len(),
            bs0[i]@.len() > 0,
            e == bs0[i]@[bs0[i]@.len() - 1],
            0 <= nbi < nb0.len(),
            nbi == spec_bucket_index(e.hash, nb0.len() as int),
            !bucket_has_key(nb0[nbi]@, e.key@),
            bs1.len() == bs0.len(),
            forall|i2: int| 0 <= i2 < bs0.len() && i2 != i ==> bs1[i2] == bs0[i2],
            bs1[i]@ == bs0[i]@.drop_last(),
            nb1.len() == nb0.len(),
            forall|i2: int| 0 <= i2 < nb0.len() && i2 != nbi ==> nb1[i2] == nb0[i2],
            nb1[nbi]@ == nb0[nbi]@.push(e),
            forall|kv: K::V| #[trigger]
                c.contains_key(kv) ==> bucket_has_key(
                    bs0[spec_bucket_index(h[kv], bs0.len() as int)]@,
                    kv,
                ) || bucket_has_key(nb0[spec_bucket_index(h[kv], nb0.len() as int)]@, kv),
            forall|kv: K::V| #[trigger]
                c.contains_key(kv) ==> !(bucket_has_key(
                    bs0[spec_bucket_index(h[kv], bs0.len() as int)]@,
                    kv,
                ) && bucket_has_key(nb0[spec_bucket_index(h[kv], nb0.len() as int)]@, kv)),
        ensures
            seq_elems_ok(bs1, c, h),
            seq_elems_ok(nb1, c, h),
            seq_no_dup(bs1),
            seq_no_dup(nb1),
            forall|kv: K::V| #[trigger]
                c.contains_key(kv) ==> bucket_has_key(
                    bs1[spec_bucket_index(h[kv], bs1.len() as int)]@,
                    kv,
                ) || bucket_has_key(nb1[spec_bucket_index(h[kv], nb1.len() as int)]@, kv),
            forall|kv: K::V| #[trigger]
                c.contains_key(kv) ==> !(bucket_has_key(
                    bs1[spec_bucket_index(h[kv], bs1.len() as int)]@,
                    kv,
                ) && bucket_has_key(nb1[spec_bucket_index(h[kv], nb1.len() as int)]@, kv)),
    {
        let oc = bs0.len() as int;
        let nc = nb0.len() as int;
        assert(elem_props(e, c, h, i, oc));
        assert forall|i2: int, j: int|
            #![trigger bs1[i2]@[j]]
            0 <= i2 < oc && 0 <= j < bs1[i2]@.len() implies elem_props(bs1[i2]@[j], c, h, i2, oc)
        by {
            assert(bs1[i2]@[j] == bs0[i2]@[j]);
            assert(elem_props(bs0[i2]@[j], c, h, i2, oc));
        }
        assert forall|i2: int, j: int|
            #![trigger nb1[i2]@[j]]
            0 <= i2 < nc && 0 <= j < nb1[i2]@.len() implies elem_props(nb1[i2]@[j], c, h, i2, nc)
        by {
            if i2 == nbi && j == nb1[i2]@.len() - 1 {
                assert(nb1[i2]@[j] == e);
            } else {
                assert(nb1[i2]@[j] == nb0[i2]@[j]);
                assert(elem_props(nb0[i2]@[j], c, h, i2, nc));
            }
        }
        assert forall|i2: int, j1: int, j2: int|
            #![trigger bs1[i2]@[j1], bs1[i2]@[j2]]
            0 <= i2 < oc && 0 <= j1 < j2 < bs1[i2]@.len() implies bs1[i2]@[j1].key@
            != bs1[i2]@[j2].key@ by {
            assert(bs1[i2]@[j1] == bs0[i2]@[j1]);
            assert(bs1[i2]@[j2] == bs0[i2]@[j2]);
        }
        assert forall|i2: int, j1: int, j2: int|
            #![trigger nb1[i2]@[j1], nb1[i2]@[j2]]
            0 <= i2 < nc && 0 <= j1 < j2 < nb1[i2]@.len() implies nb1[i2]@[j1].key@
            != nb1[i2]@[j2].key@ by {
            if i2 == nbi && j2 == nb1[i2]@.len() - 1 {
                assert(nb1[i2]@[j2] == e);
                assert(nb1[i2]@[j1] == nb0[i2]@[j1]);
                if nb0[i2]@[j1].key@ == e.key@ {
                    assert(bucket_has_key(nb0[nbi]@, e.key@));
                    assert(false);
                }
            } else {
                assert(nb1[i2]@[j1] == nb0[i2]@[j1]);
                assert(nb1[i2]@[j2] == nb0[i2]@[j2]);
            }
        }
        assert forall|kv: K::V| #[trigger] c.contains_key(kv) implies bucket_has_key(
            bs1[spec_bucket_index(h[kv], oc)]@,
            kv,
        ) || bucket_has_key(nb1[spec_bucket_index(h[kv], nc)]@, kv) by {
            let biold = spec_bucket_index(h[kv], oc);
            let binew = spec_bucket_index(h[kv], nc);
            assert(0 <= biold < oc);
            assert(0 <= binew < nc);
            if kv == e.key@ {
                assert(nb1[nbi]@[nb1[nbi]@.len() - 1] == e);
                assert(binew == nbi);
                assert(bucket_has_key(nb1[binew]@, kv));
            } else {
                if bucket_has_key(nb0[binew]@, kv) {
                    let jj = choose|jj: int| 0 <= jj < nb0[binew]@.len() && nb0[binew]@[jj].key@ == kv;
                    assert(nb1[binew]@[jj].key@ == kv);
                    assert(bucket_has_key(nb1[binew]@, kv));
                } else {
                    assert(bucket_has_key(bs0[biold]@, kv));
                    let jj = choose|jj: int| 0 <= jj < bs0[biold]@.len() && bs0[biold]@[jj].key@ == kv;
                    if biold == i && jj == bs0[i]@.len() - 1 {
                        assert(bs0[biold]@[jj] == e);
                        assert(false);
                    }
                    assert(bs1[biold]@[jj].key@ == kv);
                    assert(bucket_has_key(bs1[biold]@, kv));
                }
            }
        }
        assert forall|kv: K::V| #[trigger] c.contains_key(kv) implies !(bucket_has_key(
            bs1[spec_bucket_index(h[kv], oc)]@,
            kv,
        ) && bucket_has_key(nb1[spec_bucket_index(h[kv], nc)]@, kv)) by {
            let biold = spec_bucket_index(h[kv], oc);
            let binew = spec_bucket_index(h[kv], nc);
            assert(0 <= biold < oc);
            assert(0 <= binew < nc);
            if bucket_has_key(bs1[biold]@, kv) && bucket_has_key(nb1[binew]@, kv) {
                let jo = choose|jo: int| 0 <= jo < bs1[biold]@.len() && bs1[biold]@[jo].key@ == kv;
                assert(bs0[biold]@[jo].key@ == kv);
                assert(bucket_has_key(bs0[biold]@, kv));
                if kv == e.key@ {
                    assert(elem_props(bs1[biold]@[jo], c, h, biold, oc));
                    assert(biold == i);
                    assert(bs0[i]@[jo].key@ == bs0[i]@[bs0[i]@.len() - 1].key@);
                    assert(jo < bs0[i]@.len() - 1);
                    assert(false);
                } else {
                    let jn = choose|jn: int|
                        0 <= jn < nb1[binew]@.len() && nb1[binew]@[jn].key@ == kv;
                    if binew == nbi && jn == nb1[binew]@.len() - 1 {
                        assert(nb1[binew]@[jn] == e);
                        assert(false);
                    }
                    assert(nb0[binew]@[jn].key@ == kv);
                    assert(bucket_has_key(nb0[binew]@, kv));
                    assert(false);
                }
            }
        }
    }

    /// Overwriting the matching cell in place keeps the table well-formed.
    proof fn lemma_wf_restored(self, prev: Self, kv: K::V, hash: u64, value: V, b: int, at: int)
        requires
            prev.wf(),
            0 <= b < prev.buckets@.len(),
            0 <= at < prev.buckets@[b]@.len(),
            prev.buckets@[b]@[at].key@ == kv,
            prev@.contains_key(kv),
            prev.hash_of(kv) == hash,
            b == spec_bucket_index(hash, prev.buckets@.len() as int),
            self.buckets@.len() == prev.buckets@.len(),
            forall|i: int| 0 <= i < self.buckets@.len() && i != b ==> self.buckets@[i] == prev.buckets@[i],
            self.buckets@[b]@.len() == prev.buckets@[b]@.len(),
            forall|j: int| 0 <= j < self.buckets@[b]@.len() && j != at ==> self.buckets@[b]@[j]
                == prev.buckets@[b]@[j],
            self.buckets@[b]@[at].key@ == kv,
            self.buckets@[b]@[at].hash == hash,
            self.buckets@[b]@[at].value == value,
            self.contents@ == prev.contents@.insert(kv, value),
            self.hashes@ == prev.hashes@.insert(kv, hash),
            self.count == prev.count,
        ensures
            self.wf(),
    {
        let bs = self.buckets@;
        let cap = bs.len() as int;
        assert(self.contents@.dom() =~= prev.contents@.dom());
        assert(self.hashes@.dom() =~= self.contents@.dom());
        assert forall|i: int, j: int|
            #![trigger bs[i]@[j]]
            0 <= i < cap && 0 <= j < bs[i]@.len() implies elem_props(
            bs[i]@[j],
            self.contents@,
            self.hashes@,
            i,
            cap,
        ) by {
            if i == b && j == at {
            } else {
                let e = prev.buckets@[i]@[j];
                assert(elem_props(e, prev.contents@, prev.hashes@, i, cap));
                if e.key@ == kv {
                    assert(spec_bucket_index(e.hash, cap) == b);
                    assert(i == b);
                    assert(prev.buckets@[b]@[at].key@ == prev.buckets@[b]@[j].key@);
                    assert(false);
                }
            }
        }
        assert forall|kv2: K::V| #[trigger]
            self.contents@.contains_key(kv2) implies bucket_has_key(
            bs[spec_bucket_index(self.hashes@[kv2], cap)]@,
            kv2,
        ) by {
            if kv2 == kv {
                assert(bs[b]@[at].key@ == kv);
            } else {
                let bi = spec_bucket_index(prev.hashes@[kv2], cap);
                assert(bucket_has_key(prev.buckets@[bi]@, kv2));
                let jj = choose|jj: int|
                    0 <= jj < prev.buckets@[bi]@.len() && prev.buckets@[bi]@[jj].key@ == kv2;
                assert(bs[bi]@[jj].key@ == kv2);
            }
        }
        assert forall|i: int, j1: int, j2: int|
            #![trigger bs[i]@[j1], bs[i]@[j2]]
            0 <= i < cap && 0 <= j1 < j2 < bs[i]@.len() implies bs[i]@[j1].key@ != bs[i]@[j2].key@
        by {
            assert(prev.buckets@[i]@[j1].key@ != prev.buckets@[i]@[j2].key@);
            if i == b && j1 == at {
                assert(bs[i]@[j1].key@ == prev.buckets@[i]@[j1].key@);
            }
            if i == b && j2 == at {
                assert(bs[i]@[j2].key@ == prev.buckets@[i]@[j2].key@);
            }
        }
    }

    /// Publishing a brand-new key at the end of its bucket keeps the
    /// table well-formed.
    proof fn lemma_wf_after_push(self, prev: Self, kv: K::V, hash: u64, value: V, b: int)
        requires
            prev.wf(),
            !prev@.contains_key(kv),
            prev@.dom().len() < usize::MAX,
            0 <= b < prev.buckets@.len(),
            b == spec_bucket_index(hash, prev.buckets@.len() as int),
            self.buckets@.len() == prev.buckets@.len(),
            forall|i: int| 0 <= i < self.buckets@.len() && i != b ==> self.buckets@[i] == prev.buckets@[i],
            self.buckets@[b]@ == prev.buckets@[b]@.push(self.buckets@[b]@.last()),
            self.buckets@[b]@.last().key@ == kv,
            self.buckets@[b]@.last().hash == hash,
            self.buckets@[b]@.last().value == value,
            self.contents@ == prev.contents@.insert(kv, value),
            self.hashes@ == prev.hashes@.insert(kv, hash),
            self.count == prev.count + 1,
        ensures
            self.wf(),
    {
        let bs = self.buckets@;
        let cap = bs.len() as int;
        assert(self.contents@.dom() =~= prev.contents@.dom().insert(kv));
        assert(self.hashes@.dom() =~= self.contents@.dom());
        assert(self.contents@.dom().len() == prev.contents@.dom().len() + 1);
        assert forall|i: int, j: int|
            #![trigger bs[i]@[j]]
            0 <= i < cap && 0 <= j < bs[i]@.len() implies elem_props(
            bs[i]@[j],
            self.contents@,
            self.hashes@,
            i,
            cap,
        ) by {
            if i == b && j == bs[b]@.len() - 1 {
            } else {
                let e = prev.buckets@[i]@[j];
                assert(elem_props(e, prev.contents@, prev.hashes@, i, cap));
                assert(e.key@ != kv);
            }
        }
        assert forall|kv2: K::V| #[trigger]
            self.contents@.contains_key(kv2) implies bucket_has_key(
            bs[spec_bucket_index(self.hashes@[kv2], cap)]@,
            kv2,
        ) by {
            if kv2 == kv {
                assert(bs[b]@[bs[b]@.len() - 1].key@ == kv);
            } else {
                let bi = spec_bucket_index(prev.hashes@[kv2], cap);
                assert(bucket_has_key(prev.buckets@[bi]@, kv2));
                let jj = choose|jj: int|
                    0 <= jj < prev.buckets@[bi]@.len() && prev.buckets@[bi]@[jj].key@ == kv2;
                assert(bs[bi]@[jj].key@ == kv2);
            }
        }
        assert forall|i: int, j1: int, j2: int|
            #![trigger bs[i]@[j1], bs[i]@[j2]]
            0 <= i < cap && 0 <= j1 < j2 < bs[i]@.len() implies bs[i]@[j1].key@ != bs[i]@[j2].key@
        by {
            if i == b && j2 == bs[b]@.len() - 1 {
                let e = prev.buckets@[i]@[j1];
                assert(elem_props(e, prev.contents@, prev.hashes@, i, cap));
                assert(e.key@ != kv);
            } else {
                assert(prev.buckets@[i]@[j1].key@ != prev.buckets@[i]@[j2].key@);
            }
        }
    }
}

} // verus!
