use vstd::prelude::*;

verus! {

/// A stored key/hash/value cell.  Once published to readers a cell is
/// never mutated in place: an overwrite publishes a replacement cell and
/// retires this one.
pub struct Element<K, V> {
    pub key: K,
    pub hash: u64,
    pub value: V,
}

/// Reader-side handle to one element's value.  Holding it keeps the
/// reading thread's epoch pinned, so the referenced cell stays live for
/// the guard's whole lifetime; dropping the guard releases the pin.
pub struct ElementReadGuard<'a, K, V> {
    pub(crate) elem: &'a Element<K, V>,
    pub(crate) pin: crossbeam_epoch::Guard,
}

impl<'a, K, V> ElementReadGuard<'a, K, V> {
    /// The guarded value, as an abstract value.
    pub closed spec fn value_spec(&self) -> V {
        self.elem.value
    }

    /// The abstract key the guarded cell was stored under.
    pub closed spec fn key_spec(&self) -> K {
        self.elem.key
    }

    /// Wrap a cell reference together with the epoch pin that keeps it
    /// live.
    pub(crate) fn wrap(elem: &'a Element<K, V>, pin: crossbeam_epoch::Guard) -> (g: Self)
        ensures
            g.value_spec() == elem.value,
            g.key_spec() == elem.key,
    {
        ElementReadGuard { elem, pin }
    }

    /// Read-only access to the guarded value.
    pub fn value(&self) -> (v: &V)
        ensures
            *v == self.value_spec(),
    {
        &self.elem.value
    }
}

} // verus!
