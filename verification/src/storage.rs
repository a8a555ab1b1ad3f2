use vstd::prelude::*;

verus! {

/// A fixed-length region of bytes that can be read and written in place.
pub trait ByteStorage {
    /// The bytes held by the region, in physical order.
    spec fn bytes(&self) -> Seq<u8>;

    /// The region as a shared slice.
    fn as_bytes(&self) -> (s: &[u8])
        ensures
            s@ == self.bytes(),
    ;

    /// The region as an exclusive slice; writes through it land in the region.
    fn as_bytes_mut(&mut self) -> (s: &mut [u8])
        ensures
            s@ == (*old(self)).bytes(),
            (*final(self)).bytes() == final(s)@,
    ;
}

impl ByteStorage for Vec<u8> {
    open spec fn bytes(&self) -> Seq<u8> {
        self@
    }

    fn as_bytes(&self) -> (s: &[u8]) {
        self.as_slice()
    }

    fn as_bytes_mut(&mut self) -> (s: &mut [u8]) {
        self.as_mut_slice()
    }
}

impl<const N: usize> ByteStorage for [u8; N] {
    open spec fn bytes(&self) -> Seq<u8> {
        self@
    }

    fn as_bytes(&self) -> (s: &[u8]) {
        self.as_slice()
    }

    fn as_bytes_mut(&mut self) -> (s: &mut [u8]) {
        self
    }
}

impl ByteStorage for [u8] {
    open spec fn bytes(&self) -> Seq<u8> {
        self@
    }

    fn as_bytes(&self) -> (s: &[u8]) {
        self
    }

    fn as_bytes_mut(&mut self) -> (s: &mut [u8]) {
        self
    }
}

impl<'a, T: ByteStorage + ?Sized> ByteStorage for &'a mut T {
    open spec fn bytes(&self) -> Seq<u8> {
        (**self).bytes()
    }

    fn as_bytes(&self) -> (s: &[u8]) {
        (**self).as_bytes()
    }

    fn as_bytes_mut(&mut self) -> (s: &mut [u8]) {
        (**self).as_bytes_mut()
    }
}

} // verus!
