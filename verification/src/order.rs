//! What the ordered collections ask of their keys and values.

use crate::bytes;
use vstd::prelude::*;
use vstd::utf8::*;

verus! {

/// A key that is ordered by a byte string.
pub trait OrderedKey: Sized {
    /// The byte string that places the key.
    spec fn rank(&self) -> Seq<u8>;

    fn rank_bytes(&self) -> (b: &[u8])
        ensures
            b@ == self.rank(),
    ;

    /// A key at the same place.
    fn same_place(&self) -> (r: Self)
        ensures
            r.rank() == self.rank(),
    ;
}

impl OrderedKey for String {
    open spec fn rank(&self) -> Seq<u8> {
        encode_utf8(self@)
    }

    fn rank_bytes(&self) -> (b: &[u8]) {
        self.as_str().as_bytes()
    }

    fn same_place(&self) -> (r: Self) {
        self.clone()
    }
}

impl OrderedKey for Vec<u8> {
    open spec fn rank(&self) -> Seq<u8> {
        self@
    }

    fn rank_bytes(&self) -> (b: &[u8]) {
        self.as_slice()
    }

    fn same_place(&self) -> (r: Self) {
        bytes::copy_of(self.as_slice())
    }
}

/// A value that can be copied without changing what it stands for.
pub trait Datum: View + Sized {
    /// The invariant that every value in use keeps.
    spec fn valid(&self) -> bool;

    fn duplicate(&self) -> (r: Self)
        ensures
            r@ == self@,
            self.valid() ==> r.valid(),
    ;
}

impl Datum for () {
    open spec fn valid(&self) -> bool {
        true
    }

    fn duplicate(&self) -> (r: Self) {
        ()
    }
}

impl Datum for String {
    open spec fn valid(&self) -> bool {
        true
    }

    fn duplicate(&self) -> (r: Self) {
        self.clone()
    }
}

impl Datum for Vec<u8> {
    open spec fn valid(&self) -> bool {
        true
    }

    fn duplicate(&self) -> (r: Self) {
        bytes::copy_of(self.as_slice())
    }
}

} // verus!
