pub mod element;
pub mod epoch;
pub mod hash;
pub mod table;

use vstd::prelude::*;

use crate::element::ElementReadGuard;
use crate::epoch::{epoch_defer_flush, epoch_pin};
use crate::hash::{DefaultHashBuilder, HashBuilder, MapKey};
use crate::table::Table;

verus! {

/// Number of independent shards a map is split across.  Kept a power of
/// two so that shard selection is a pure shift of the hash's high bits.
pub const TABLES_PER_MAP: usize = 2;

/// Shard index of a 64-bit hash: its high bits, after the shift computed
/// by `make_shift`.
pub open spec fn spec_hash2idx(hash: u64, shift: usize) -> int {
    (hash >> (shift as u64)) as int
}

/// Bit shift such that `hash >> shift` ranges over `[0, TABLES_PER_MAP)`.
pub fn make_shift(tables: usize) -> (s: usize)
    requires
        tables == TABLES_PER_MAP,
    ensures
        s == 63usize,
{
    64 - 1
}

/// Map a hash to a shard index using the high bits.
pub fn hash2idx(hash: u64, shift: usize) -> (i: usize)
    requires
        shift == 63usize,
    ensures
        i == spec_hash2idx(hash, shift),
        i < TABLES_PER_MAP,
{
    proof {
        assert((hash >> 63u64) < 2) by (bit_vector);
    }
    (hash >> 63) as usize
}

/// What a lookup yields, as a function of a map's abstract contents.
pub open spec fn spec_get<KV, VV>(m: Map<KV, VV>, kv: KV) -> Option<VV> {
    if m.contains_key(kv) {
        Some(m[kv])
    } else {
        None
    }
}

/// A concurrent-style associative container: a fixed array of
/// independent shard tables plus the hash builder they share.  Every
/// operation routes to exactly one shard by the high bits of the key's
/// hash, so single-key operations never involve the other shard.
pub struct DashMap<K: MapKey, V, S: HashBuilder<K> = DefaultHashBuilder> {
    tables: Vec<Table<K, V>>,
    hash_builder: S,
    h2i_shift: usize,
}

impl<K: MapKey, V, S: HashBuilder<K>> View for DashMap<K, V, S> {
    type V = Map<K::V, V>;

    closed spec fn view(&self) -> Map<K::V, V> {
        self.tables@[0]@.union_prefer_right(self.tables@[1]@)
    }
}

impl<K: MapKey, V, S: HashBuilder<K>> DashMap<K, V, S> {
    /// The hash builder this map was built with: it governs routing and
    /// intra-shard hashing for the map's whole lifetime.
    pub closed spec fn spec_hash_builder(self) -> S {
        self.hash_builder
    }

    /// Shard a key routes to: the high bits of its hash.
    pub open spec fn route(self, kv: K::V) -> int {
        spec_hash2idx(self.spec_hash_builder().spec_hash(kv), 63)
    }

    /// Abstract contents of one shard.
    pub closed spec fn shard_view(self, i: int) -> Map<K::V, V> {
        self.tables@[i]@
    }

    /// Bucket count of one shard.
    pub closed spec fn shard_capacity(self, i: int) -> int {
        self.tables@[i].spec_capacity()
    }

    /// Well-formedness: both shards are well-formed, every key sits in
    /// the shard its hash routes it to under the hash it was stored
    /// with, and the total count fits the machine.
    pub closed spec fn wf(self) -> bool {
        &&& self.tables@.len() == TABLES_PER_MAP
        &&& self.h2i_shift == 63
        &&& forall|i: int|
            0 <= i < self.tables@.len() ==> (#[trigger] self.tables@[i]).wf()
                && self.tables@[i].load_ok()
        &&& forall|i: int, kv: K::V|
            0 <= i < self.tables@.len() && (#[trigger] self.tables@[i]@.contains_key(kv)) ==> {
                &&& spec_hash2idx(self.hash_builder.spec_hash(kv), 63) == i
                &&& self.tables@[i].hash_of(kv) == self.hash_builder.spec_hash(kv)
            }
        &&& self.tables@[0]@.dom().len() + self.tables@[1]@.dom().len() <= usize::MAX
    }

    /// The two shards store disjoint key sets.
    proof fn lemma_shards_disjoint(self)
        requires
            self.wf(),
        ensures
            self.tables@[0]@.dom().disjoint(self.tables@[1]@.dom()),
            self@.dom() == self.tables@[0]@.dom() + self.tables@[1]@.dom(),
            self@.dom().len() == self.tables@[0]@.dom().len() + self.tables@[1]@.dom().len(),
            self@.dom().finite(),
    {
        self.tables@[0].lemma_wf_finite();
        self.tables@[1].lemma_wf_finite();
        assert forall|kv: K::V| !(self.tables@[0]@.contains_key(kv)
            && self.tables@[1]@.contains_key(kv)) by {
            if self.tables@[0]@.contains_key(kv) && self.tables@[1]@.contains_key(kv) {
                assert(self.route(kv) == 0 && self.route(kv) == 1);
            }
        }
        assert(self@.dom() =~= self.tables@[0]@.dom() + self.tables@[1]@.dom());
        vstd::set_lib::lemma_set_disjoint_lens(self.tables@[0]@.dom(), self.tables@[1]@.dom());
    }

    /// Build a map from a capacity hint and a hash builder: the capacity
    /// is spread evenly over the shards, with a floor that keeps tiny
    /// hints usable.
    pub fn with_capacity_and_hasher(capacity: usize, hash_builder: S) -> (m: Self)
        ensures
            m.wf(),
            m@ == Map::<K::V, V>::empty(),
            m.spec_hash_builder() == hash_builder,
            forall|i: int|
                0 <= i < TABLES_PER_MAP ==> #[trigger] m.shard_capacity(i) >= capacity as int
                    / TABLES_PER_MAP as int && m.shard_capacity(i) >= 4,
    {
        let floor = 4 * TABLES_PER_MAP;
        let wanted = if capacity < floor {
            floor
        } else {
            capacity
        };
        let capacity_per_table = wanted / TABLES_PER_MAP;
        let h2i_shift = make_shift(TABLES_PER_MAP);
        let mut tables: Vec<Table<K, V>> = Vec::new();
        tables.push(Table::new(capacity_per_table));
        tables.push(Table::new(capacity_per_table));
        let m = DashMap { tables, hash_builder, h2i_shift };
        proof {
            assert(m@ =~= Map::<K::V, V>::empty());
            assert(m.tables@[0]@.dom() =~= Set::<K::V>::empty());
            assert(m.tables@[1]@.dom() =~= Set::<K::V>::empty());
        }
        m
    }

    /// Build an empty map that uses exactly the given hash builder, for
    /// shard routing and intra-shard hashing alike, for its whole
    /// lifetime.
    pub fn with_hasher(hash_builder: S) -> (m: Self)
        ensures
            m.wf(),
            m@ == Map::<K::V, V>::empty(),
            m.spec_hash_builder() == hash_builder,
            forall|kv: K::V| #[trigger]
                m.route(kv) == spec_hash2idx(hash_builder.spec_hash(kv), 63),
    {
        Self::with_capacity_and_hasher(0, hash_builder)
    }

    /// Hash the key once and hand back its target shard together with
    /// the hash.
    fn yield_table<'a>(&'a self, key: &K) -> (r: (&'a Table<K, V>, u64))
        requires
            self.wf(),
        ensures
            r.1 == self.hash_builder.spec_hash(key@),
            *r.0 == self.tables@[spec_hash2idx(r.1, 63)],
    {
        let hash = self.hash_builder.hash(key);
        let idx = hash2idx(hash, self.h2i_shift);
        (&self.tables[idx], hash)
    }

    /// Number of live elements across all shards.
    pub fn len(&self) -> (n: usize)
        requires
            self.wf(),
        ensures
            n as int == self@.dom().len(),
    {
        proof {
            self.lemma_shards_disjoint();
        }
        let n0 = self.tables[0].len();
        let n1 = self.tables[1].len();
        n0 + n1
    }

    /// Insert the key/value pair, overwriting the value stored under an
    /// equal key.  Only the shard the key routes to is touched: the
    /// other shard's contents are left exactly as they were.  Live
    /// elements occupy distinct memory, so fewer than `usize::MAX` of
    /// them can exist: the bound in the precondition records that
    /// machine limit.
    pub fn insert(&mut self, key: K, value: V)
        requires
            old(self).wf(),
            old(self)@.dom().len() < usize::MAX,
        ensures
            final(self).wf(),
            final(self)@ == old(self)@.insert(key@, value),
            final(self).spec_hash_builder() == old(self).spec_hash_builder(),
            forall|i: int|
                0 <= i < TABLES_PER_MAP && i != old(self).route(key@)
                    ==> #[trigger] final(self).shard_view(i) == old(self).shard_view(i),
    {
        proof {
            self.lemma_shards_disjoint();
        }
        let ghost kv = key@;
        let hash = self.hash_builder.hash(&key);
        let idx = hash2idx(hash, self.h2i_shift);
        proof {
            if self.tables@[idx as int]@.contains_key(kv) {
                assert(self.tables@[idx as int].hash_of(kv) == hash);
            }
            vstd::set_lib::lemma_len_subset(
                self.tables@[idx as int]@.dom(),
                self@.dom(),
            );
        }
        self.tables[idx].insert(key, hash, value);
        proof {
            let prev = *old(self);
            assert forall|i: int, kv2: K::V|
                0 <= i < self.tables@.len() && (#[trigger] self.tables@[i]@.contains_key(kv2))
                    implies {
                    &&& spec_hash2idx(self.hash_builder.spec_hash(kv2), 63) == i
                    &&& self.tables@[i].hash_of(kv2) == self.hash_builder.spec_hash(kv2)
                } by {
                if i == idx as int {
                    if kv2 == kv {
                    } else {
                        assert(prev.tables@[i]@.contains_key(kv2));
                    }
                } else {
                    assert(prev.tables@[i]@.contains_key(kv2));
                }
            }
            assert(self@ =~= prev@.insert(kv, value));
            if prev.tables@[idx as int]@.contains_key(kv) {
                assert(self.tables@[idx as int]@.dom() =~= prev.tables@[idx as int]@.dom());
            } else {
                assert(self.tables@[idx as int]@.dom() =~= prev.tables@[idx as int]@.dom().insert(
                    kv,
                ));
            }
            prev.lemma_shards_disjoint();
        }
    }

    /// Look the key up.  Yields a read guard onto the stored value when
    /// the key is present — pinning the reader's epoch for the guard's
    /// lifetime — and nothing exactly when it is absent.
    pub fn get<'a>(&'a self, key: &K) -> (r: Option<ElementReadGuard<'a, K, V>>)
        requires
            self.wf(),
        ensures
            match r {
                Some(g) => self@.contains_key(key@) && g.value_spec() == self@[key@]
                    && g.key_spec()@ == key@,
                None => !self@.contains_key(key@),
            },
            r is Some <==> spec_get(self@, key@) is Some,
    {
        let (table, hash) = self.yield_table(key);
        let ghost idx = spec_hash2idx(hash, 63);
        proof {
            assert((hash >> 63u64) < 2) by (bit_vector);
            if table@.contains_key(key@) {
                assert(table.hash_of(key@) == hash);
            }
        }
        let pin = epoch_pin();
        let found = table.get(key, hash);
        proof {
            let other: int = if idx == 0 {
                1
            } else {
                0
            };
            if self.tables@[other]@.contains_key(key@) {
                assert(self.route(key@) == other);
                assert(false);
            }
        }
        match found {
            Some(e) => Some(ElementReadGuard::wrap(e, pin)),
            None => None,
        }
    }

    /// Run `work` under one amortized epoch pin and hand its result back
    /// unchanged; deferred cleanups queued inside the block are flushed
    /// once every thread pinned at that moment has unpinned.
    pub fn batch<T, F: FnOnce(&Self) -> T>(&self, work: F) -> (r: T)
        requires
            call_requires(work, (self,)),
        ensures
            call_ensures(work, (self,), r),
    {
        let guard = epoch_pin();
        let r = work(self);
        epoch_defer_flush(&guard);
        r
    }
}

impl<K: MapKey, V> DashMap<K, V, DefaultHashBuilder> {
    /// An empty map with the default hash builder.
    pub fn new() -> (m: Self)
        ensures
            m.wf(),
            m@ == Map::<K::V, V>::empty(),
    {
        Self::with_hasher(DefaultHashBuilder)
    }

    /// An empty map sized for about `capacity` elements: the hint is
    /// spread evenly over the shards, with a floor that keeps tiny hints
    /// usable.
    pub fn with_capacity(capacity: usize) -> (m: Self)
        ensures
            m.wf(),
            m@ == Map::<K::V, V>::empty(),
            forall|i: int|
                0 <= i < TABLES_PER_MAP ==> #[trigger] m.shard_capacity(i) >= capacity as int
                    / TABLES_PER_MAP as int && m.shard_capacity(i) >= 4,
    {
        Self::with_capacity_and_hasher(capacity, DefaultHashBuilder)
    }
}

/// Last-writer-wins under sequential use: after an insert of `v` under
/// `kv` — which `insert` ensures makes the contents `m.insert(kv, v)` —
/// a lookup of `kv` finds exactly `v`.
pub proof fn lemma_last_writer_wins<KV, VV>(m: Map<KV, VV>, kv: KV, v: VV)
    ensures
        spec_get(m.insert(kv, v), kv) == Some(v),
{
}

/// No lost updates: an insert under one key leaves every other key's
/// value exactly as it was, whether or not the insert made its shard
/// grow.
pub proof fn lemma_insert_preserves_others<KV, VV>(m: Map<KV, VV>, kv: KV, v: VV, other: KV)
    requires
        other != kv,
    ensures
        spec_get(m.insert(kv, v), other) == spec_get(m, other),
{
}

/// Inserts under distinct keys commute: any interleaving of writes to
/// disjoint keys leaves the same contents, so each key ends at its own
/// last written value.
pub proof fn lemma_disjoint_inserts_commute<KV, VV>(m: Map<KV, VV>, k1: KV, v1: VV, k2: KV, v2: VV)
    requires
        k1 != k2,
    ensures
        m.insert(k1, v1).insert(k2, v2) == m.insert(k2, v2).insert(k1, v1),
{
    assert(m.insert(k1, v1).insert(k2, v2) =~= m.insert(k2, v2).insert(k1, v1));
}

/// Lookups are idempotent: `get`'s outcome is a function of the map's
/// abstract contents alone, and `get` takes the map by shared reference,
/// so repeated lookups with no intervening write agree.
pub proof fn lemma_get_deterministic<KV, VV>(m1: Map<KV, VV>, m2: Map<KV, VV>, kv: KV)
    requires
        m1 == m2,
    ensures
        spec_get(m1, kv) == spec_get(m2, kv),
{
}

} // verus!
