use vstd::prelude::*;

verus! {

broadcast use vstd::array::group_array_axioms;

/// Number of bytes in one digest slot.
pub const DIGEST_BYTES: usize = 32;

/// A fixed-size 32-byte hash value.  The arena treats it as an opaque blob:
/// it is copied and compared byte for byte, and no internal structure is
/// interpreted.
#[derive(Clone, Copy, Debug)]
pub struct Digest {
    pub bytes: [u8; 32],
}

impl View for Digest {
    type V = Seq<u8>;

    open spec fn view(&self) -> Seq<u8> {
        self.bytes@
    }
}

impl DeepView for Digest {
    type V = Seq<u8>;

    open spec fn deep_view(&self) -> Seq<u8> {
        self.bytes@
    }
}

impl Digest {
    /// Copies a 32-byte slice into a fresh digest.
    pub fn from_slice(bytes: &[u8]) -> (d: Digest)
        requires
            bytes@.len() == DIGEST_BYTES,
        ensures
            d@ == bytes@,
    {
        let mut arr: [u8; 32] = [0u8; 32];
        for i in 0..32
            invariant
                bytes@.len() == 32,
                arr@.len() == 32,
                forall|j: int| 0 <= j < i ==> arr@[j] == bytes@[j],
        {
            arr[i] = bytes[i];
        }
        let d = Digest { bytes: arr };
        proof {
            assert(d@ =~= bytes@);
        }
        d
    }

    /// The digest's bytes, in order.
    pub fn as_slice(&self) -> (s: &[u8])
        ensures
            s@ == self@,
    {
        self.bytes.as_slice()
    }

    /// Byte-for-byte equality of two digests.
    pub fn eq_bytes(&self, other: &Digest) -> (r: bool)
        ensures
            r == (self@ == other@),
    {
        let mut i: usize = 0;
        while i < 32
            invariant
                0 <= i <= 32,
                forall|j: int| 0 <= j < i ==> self@[j] == other@[j],
            decreases 32 - i,
        {
            if self.bytes[i] != other.bytes[i] {
                return false;
            }
            i += 1;
        }
        proof {
            assert(self@ =~= other@);
        }
        true
    }
}

impl PartialEq for Digest {
    fn eq(&self, other: &Digest) -> (r: bool) {
        self.eq_bytes(other)
    }
}

impl vstd::std_specs::cmp::PartialEqSpecImpl for Digest {
    open spec fn obeys_eq_spec() -> bool {
        true
    }

    open spec fn eq_spec(&self, other: &Digest) -> bool {
        self@ == other@
    }
}

} // verus!
