use vstd::prelude::*;

verus! {

/// FNV-1a offset basis.
pub const FNV_OFFSET: u64 = 0xcbf29ce484222325;

/// FNV-1a prime.
pub const FNV_PRIME: u64 = 0x100000001b3;

/// Odd multiplier used to spread integer keys over the whole hash range.
pub const GOLDEN_GAMMA: u64 = 0x9e3779b97f4a7c15;

/// A key the map can store.  Exec equality must agree with equality of the
/// key's abstract value, and the key yields a 64-bit hash that is a pure
/// function of that abstract value, so that equal keys always hash alike.
pub trait MapKey: View + Sized {
    /// The key's hash, as a function of its abstract value alone.
    spec fn spec_key_hash(v: Self::V) -> u64;

    fn key_hash(&self) -> (h: u64)
        ensures
            h == Self::spec_key_hash(self@),
    ;

    fn key_eq(&self, other: &Self) -> (eq: bool)
        ensures
            eq == (self@ == other@),
    ;
}

/// The pluggable hashing capability shared by all shards of one map: it
/// yields a 64-bit hash deterministically, as a function of the key's
/// abstract value, so equal keys route and probe identically for the
/// map's whole lifetime.
pub trait HashBuilder<K: View>: Sized {
    spec fn spec_hash(&self, v: K::V) -> u64;

    fn hash(&self, key: &K) -> (h: u64)
        ensures
            h == self.spec_hash(key@),
    ;
}

/// The default hash builder: defers to the key's own hash.
pub struct DefaultHashBuilder;

impl<K: MapKey> HashBuilder<K> for DefaultHashBuilder {
    open spec fn spec_hash(&self, v: K::V) -> u64 {
        K::spec_key_hash(v)
    }

    fn hash(&self, key: &K) -> (h: u64) {
        key.key_hash()
    }
}

/// One FNV-1a round: fold a character into the running hash.
pub open spec fn spec_fnv_step(h: u64, c: char) -> u64 {
    vstd::wrapping::u64_specs::wrapping_mul(h ^ (c as u64), FNV_PRIME)
}

/// FNV-1a over a character sequence.
pub open spec fn spec_fnv_hash(s: Seq<char>) -> u64
    decreases s.len(),
{
    if s.len() == 0 {
        FNV_OFFSET
    } else {
        spec_fnv_step(spec_fnv_hash(s.drop_last()), s.last())
    }
}

/// FNV-1a hash of a string, character by character.
pub fn fnv_hash_str(s: &str) -> (h: u64)
    ensures
        h == spec_fnv_hash(s@),
{
    let n = s.unicode_len();
    let mut h: u64 = FNV_OFFSET;
    let mut i: usize = 0;
    while i < n
        invariant
            n == s@.len(),
            i <= n,
            h == spec_fnv_hash(s@.take(i as int)),
        decreases n - i,
    {
        let c = s.get_char(i);
        h = (h ^ (c as u64)).wrapping_mul(FNV_PRIME);
        i = i + 1;
        proof {
            assert(s@.take(i as int).drop_last() =~= s@.take(i as int - 1));
            assert(s@.take(i as int).last() == s@[i as int - 1]);
        }
    }
    proof {
        assert(s@.take(n as int) =~= s@);
    }
    h
}

impl MapKey for String {
    open spec fn spec_key_hash(v: Seq<char>) -> u64 {
        spec_fnv_hash(v)
    }

    fn key_hash(&self) -> (h: u64) {
        fnv_hash_str(self.as_str())
    }

    fn key_eq(&self, other: &Self) -> (eq: bool) {
        *self == *other
    }
}

impl MapKey for u64 {
    open spec fn spec_key_hash(v: u64) -> u64 {
        vstd::wrapping::u64_specs::wrapping_mul(v, GOLDEN_GAMMA)
    }

    fn key_hash(&self) -> (h: u64) {
        self.wrapping_mul(GOLDEN_GAMMA)
    }

    fn key_eq(&self, other: &Self) -> (eq: bool) {
        *self == *other
    }
}

} // verus!
