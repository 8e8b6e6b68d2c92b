//! Trusted boundary around the memory-mapped byte region.
//!
//! A page's storage is a `memmap2::MmapMut`: a fixed-length mutable byte
//! region backed by a file mapping (or an anonymous mapping). Verus sees the
//! region as an opaque value; `region_bytes` names the byte sequence it holds,
//! and the wrappers below state how reading and writing single bytes relate
//! to that sequence.
//!
//! The contracts describe a region reached through this one handle. The
//! engine assumes single-writer access to a page, so the layer that maps the
//! files must not hand out a second live mapping of the same page region.

use vstd::prelude::*;

verus! {

#[verifier::external_type_specification]
#[verifier::external_body]
pub struct ExMmapMut(memmap2::MmapMut);

/// The bytes currently held by the mapped region.
pub uninterp spec fn region_bytes(m: memmap2::MmapMut) -> Seq<u8>;

/// Relies on memmap2::MmapMut's Deref to `[u8]`: the region is a byte slice
/// whose length is the mapped length.
#[verifier::external_body]
pub(crate) fn region_len(m: &memmap2::MmapMut) -> (r: usize)
    ensures
        r == region_bytes(*m).len(),
{
    m.len()
}

/// Relies on memmap2::MmapMut's Deref to `[u8]`: indexing reads the byte at
/// the given position of the mapped region.
#[verifier::external_body]
pub(crate) fn region_read_u8(m: &memmap2::MmapMut, offset: usize) -> (r: u8)
    requires
        offset < region_bytes(*m).len(),
    ensures
        r == region_bytes(*m)[offset as int],
{
    m[offset]
}

/// Relies on memmap2::MmapMut's DerefMut to `[u8]`: indexed assignment
/// replaces the byte at the given position and nothing else.
#[verifier::external_body]
pub(crate) fn region_write_u8(m: &mut memmap2::MmapMut, offset: usize, value: u8)
    requires
        offset < region_bytes(*old(m)).len(),
    ensures
        region_bytes(*final(m)) == region_bytes(*old(m)).update(offset as int, value),
{
    m[offset] = value;
}

} // verus!
