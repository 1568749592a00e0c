use vstd::prelude::*;

use memmap::MmapMut;

verus! {

/// Verus-facing declaration of memmap's anonymous mapping handle.  The value
/// is opaque; its byte contents are exposed only through `mmap_bytes` and the
/// trusted accessors below.
#[verifier::external_type_specification]
#[verifier::external_body]
pub struct ExMmapMut(MmapMut);

/// The bytes a mapping currently holds, in address order.
pub uninterp spec fn mmap_bytes(m: MmapMut) -> Seq<u8>;

/// Relies on memmap's MmapOptions::new / MmapOptions::len / map_anon: an
/// anonymous, zero-initialized private mapping of exactly the requested
/// length, or `None` when the operating system refuses the mapping.
#[verifier::external_body]
pub(crate) fn mmap_alloc(len: usize) -> (r: Option<MmapMut>)
    requires
        len > 0,
    ensures
        r matches Some(m) ==> mmap_bytes(m).len() == len && (forall|i: int|
            0 <= i < len ==> mmap_bytes(m)[i] == 0),
{
    memmap::MmapOptions::new().len(len).map_anon().ok()
}

/// Relies on MmapMut's Deref to `[u8]`: the slice covers the whole mapping,
/// so its length is the mapping's byte count.
#[verifier::external_body]
pub(crate) fn mmap_len(m: &MmapMut) -> (r: usize)
    ensures
        r == mmap_bytes(*m).len(),
{
    m.len()
}

/// Relies on MmapMut's Deref to `[u8]`: copies the byte range out of the
/// mapping.
#[verifier::external_body]
pub(crate) fn mmap_read(m: &MmapMut, start: usize, end: usize) -> (r: Vec<u8>)
    requires
        start <= end,
        end <= mmap_bytes(*m).len(),
    ensures
        r@ == mmap_bytes(*m).subrange(start as int, end as int),
{
    m[start..end].to_vec()
}

/// Relies on MmapMut's DerefMut to `[u8]`: overwrites the byte range in
/// place and leaves every other byte and the mapping's length unchanged.
#[verifier::external_body]
pub(crate) fn mmap_write(m: &mut MmapMut, start: usize, data: &[u8])
    requires
        start + data@.len() <= mmap_bytes(*old(m)).len(),
    ensures
        mmap_bytes(*final(m)).len() == mmap_bytes(*old(m)).len(),
        forall|i: int|
            start <= i < start + data@.len() ==> mmap_bytes(*final(m))[i] == data@[i - start],
        forall|i: int|
            0 <= i < mmap_bytes(*old(m)).len() && !(start <= i < start + data@.len())
                ==> mmap_bytes(*final(m))[i] == mmap_bytes(*old(m))[i],
{
    m[start..start + data.len()].copy_from_slice(data);
}

/// Relies on slice::copy_within through MmapMut's DerefMut: an overlap-safe
/// in-place shift of the byte range `[src_start, src_end)` to begin at
/// `dest`, leaving bytes outside the destination window unchanged.
#[verifier::external_body]
pub(crate) fn mmap_shift(m: &mut MmapMut, src_start: usize, src_end: usize, dest: usize)
    requires
        src_start <= src_end,
        src_end <= mmap_bytes(*old(m)).len(),
        dest + (src_end - src_start) <= mmap_bytes(*old(m)).len(),
    ensures
        mmap_bytes(*final(m)).len() == mmap_bytes(*old(m)).len(),
        forall|i: int|
            dest <= i < dest + (src_end - src_start) ==> mmap_bytes(*final(m))[i] == mmap_bytes(
                *old(m),
            )[src_start + (i - dest)],
        forall|i: int|
            0 <= i < mmap_bytes(*old(m)).len() && !(dest <= i < dest + (src_end - src_start))
                ==> mmap_bytes(*final(m))[i] == mmap_bytes(*old(m))[i],
{
    m.copy_within(src_start..src_end, dest);
}

} // verus!
