//! The inner (branch) page skeleton: it shares the slotted-page protocol with
//! the leaf page under its own header constant and table start, reserving the
//! byte at 17 for the last-child pointer. Separator insertion and traversal
//! belong to the tree-assembly layer, which manages more than one page and is
//! out of scope here.

use crate::layout::{agree_outside, directory_wf, head_of, header_of, tail_of};
use crate::page::{common_init, open_checks_pass, spec_valid_common_data, valid_common_data, Page};
use crate::MiniBaseError;
use vstd::prelude::*;

verus! {

/// Header byte identifying an initialized inner page.
pub const INNER_HEADER: u8 = 0b1000_0001;

/// Fixed offset where an inner page's slot directory starts; the bytes at 17
/// hold the last-child pointer.
pub const INNER_SORTED_TABLE: usize = 21;

/// A structurally sound inner page.
pub open spec fn inner_wf(s: Seq<u8>) -> bool {
    &&& directory_wf(s, INNER_SORTED_TABLE as int)
    &&& header_of(s) == INNER_HEADER
}

/// A branch page mapping separator keys to child page offsets.
pub struct InnerPage {
    page: Page,
}

impl View for InnerPage {
    type V = Seq<u8>;

    closed spec fn view(&self) -> Seq<u8> {
        self.page@
    }
}

impl InnerPage {
    pub open spec fn wf(&self) -> bool {
        inner_wf(self@)
    }

    /// Initializes a fresh inner page over a mapped region.
    pub fn new(region: memmap2::MmapMut, length: u32) -> (r: InnerPage)
        requires
            crate::region::region_bytes(region).len() == length,
            length >= 21,
        ensures
            r.wf(),
            r@.len() == length,
            head_of(r@) == INNER_SORTED_TABLE,
            tail_of(r@) == length,
            agree_outside(r@, crate::region::region_bytes(region), 0, 17),
    {
        let mut page = Page::new(region);
        common_init(&mut page, INNER_SORTED_TABLE, length, INNER_HEADER);
        InnerPage { page }
    }

    /// Reopens an inner page over an existing mapped region, validating the
    /// header and offset fields; a violation yields the structural error and
    /// no page.
    pub fn from(region: memmap2::MmapMut, length: u32) -> (r: Result<InnerPage, MiniBaseError>)
        requires
            crate::region::region_bytes(region).len() == length,
            length >= 17,
        ensures
            r is Ok <==> open_checks_pass(
                crate::region::region_bytes(region),
                length as int,
                INNER_HEADER,
                INNER_SORTED_TABLE as int,
            ),
            r matches Ok(p) ==> p@ == crate::region::region_bytes(region),
            r matches Err(e) ==> Some(e) == spec_valid_common_data(
                crate::region::region_bytes(region),
                length as int,
                INNER_HEADER,
                INNER_SORTED_TABLE as int,
            ),
    {
        let page = Page::new(region);
        match valid_common_data(&page, length, INNER_HEADER, INNER_SORTED_TABLE) {
            None => Ok(InnerPage { page }),
            Some(error) => Err(error),
        }
    }

    /// Releases the page, handing back its mapped region unchanged.
    pub fn into_region(self) -> (r: memmap2::MmapMut)
        ensures
            crate::region::region_bytes(r) == self@,
    {
        self.page.into_region()
    }

    pub fn get_sorted_table_offset(&self) -> (r: usize)
        ensures
            r == INNER_SORTED_TABLE,
    {
        INNER_SORTED_TABLE
    }
}

} // verus!
