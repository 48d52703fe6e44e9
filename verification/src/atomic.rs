//! Copies between private bytes and those of a shared memory, byte by byte.
use vstd::prelude::*;

verus! {

/// A region of shared memory: the bytes that it has.
pub struct AtomicMem<'slice> {
    pub inner: &'slice [u8],
}

/// Private bytes, to copy to and from shared ones of the same number.
pub trait Slice {
    /// The bytes.
    spec fn bytes(&self) -> Seq<u8>;

    /// Read all of `atomics`.
    fn copy_from_relaxed(&mut self, atomics: &[u8])
        requires
            old(self).bytes().len() == atomics@.len(),
        ensures
            final(self).bytes() == atomics@,
    ;

    /// Write all of `atomics`.
    fn copy_to_relaxed(&self, atomics: &mut [u8])
        requires
            self.bytes().len() == old(atomics)@.len(),
        ensures
            final(atomics)@ == self.bytes(),
    ;
}

impl Slice for [u8] {
    open spec fn bytes(&self) -> Seq<u8> {
        self@
    }

    fn copy_from_relaxed(&mut self, atomics: &[u8]) {
        let mut i: usize = 0;
        while i < atomics.len()
            invariant
                i <= atomics@.len() == self@.len(),
                forall|j: int| 0 <= j < i ==> self@[j] == atomics@[j],
            decreases atomics@.len() - i,
        {
            self[i] = atomics[i];
            i = i + 1;
        }
        assert(self@ =~= atomics@);
    }

    fn copy_to_relaxed(&self, atomics: &mut [u8]) {
        let mut i: usize = 0;
        while i < self.len()
            invariant
                i <= atomics@.len() == self@.len(),
                forall|j: int| 0 <= j < i ==> atomics@[j] == self@[j],
            decreases self@.len() - i,
        {
            atomics[i] = self[i];
            i = i + 1;
        }
        assert(atomics@ =~= self@);
    }
}

impl<'slice> From<&'slice [u8]> for AtomicMem<'slice> {
    fn from(inner: &'slice [u8]) -> AtomicMem<'slice> {
        AtomicMem { inner }
    }
}

impl<'slice> vstd::std_specs::convert::FromSpecImpl<&'slice [u8]> for AtomicMem<'slice> {
    open spec fn obeys_from_spec() -> bool {
        true
    }

    open spec fn from_spec(inner: &'slice [u8]) -> AtomicMem<'slice> {
        AtomicMem { inner }
    }
}

impl<'slice> core::ops::Deref for AtomicMem<'slice> {
    type Target = [u8];

    fn deref(&self) -> (r: &[u8])
        ensures
            r@ == self.inner@,
    {
        self.inner
    }
}

} // verus!
