//! The byte accessor and the slotted-page protocol shared by all page kinds:
//! typed reads and writes at arbitrary offsets of a mapped region, the header
//! fields, bump allocation of the slot directory and the record heap, the
//! materialized slot directory, and binary search over it.

use crate::layout::{
    agree_outside, capacity_of, directory_wf, free_space_of, head_of, header_of, key_bytes_at,
    key_len_at, key_readable, le32_at, lemma_eq_from_prefix, lemma_le32_frame,
    lemma_lex_lt_asymmetric, lemma_lex_lt_from_diff, lemma_lex_lt_from_prefix,
    lemma_lex_lt_irreflexive, lemma_lex_lt_trans, lex_lt, num_slots, offsets_wf, slot_at, tail_of,
    CAPACITY_POS, DATA_HEAD_POS, DATA_TAIL_POS, HEADER_POS,
};
use crate::region::{region_bytes, region_len, region_read_u8, region_write_u8};
use crate::MiniBaseError;
use vstd::bytes::*;
use vstd::prelude::*;

verus! {

/// A fixed-length mutable byte region holding one page.
pub struct Page {
    region: memmap2::MmapMut,
}

impl View for Page {
    type V = Seq<u8>;

    closed spec fn view(&self) -> Seq<u8> {
        region_bytes(self.region)
    }
}

/// Outcome of comparing a stored key with a probe key.
#[derive(Clone, Copy, Debug, PartialEq, Eq, Structural)]
pub enum KeyOrder {
    Less,
    Equal,
    Greater,
}

impl Page {
    /// Wraps an already-mapped region as a raw page; no byte is touched.
    pub fn new(region: memmap2::MmapMut) -> (r: Page)
        ensures
            r@ == region_bytes(region),
    {
        Page { region }
    }

    /// Releases the page, handing back its mapped region unchanged.
    pub fn into_region(self) -> (r: memmap2::MmapMut)
        ensures
            region_bytes(r) == self@,
    {
        self.region
    }

    pub fn len(&self) -> (r: usize)
        ensures
            r == self@.len(),
    {
        region_len(&self.region)
    }

    pub fn read_u8(&self, offset: usize) -> (r: u8)
        requires
            offset < self@.len(),
        ensures
            r == self@[offset as int],
    {
        region_read_u8(&self.region, offset)
    }

    pub fn write_u8(&mut self, offset: usize, value: u8)
        requires
            offset < old(self)@.len(),
        ensures
            final(self)@ == old(self)@.update(offset as int, value),
    {
        region_write_u8(&mut self.region, offset, value)
    }

    pub fn read_u32(&self, offset: usize) -> (r: u32)
        requires
            offset + 4 <= self@.len(),
            self@.len() <= u32::MAX,
        ensures
            r == le32_at(self@, offset as int),
    {
        let mut buf: Vec<u8> = Vec::new();
        buf.push(self.read_u8(offset));
        buf.push(self.read_u8(offset + 1));
        buf.push(self.read_u8(offset + 2));
        buf.push(self.read_u8(offset + 3));
        proof {
            assert(buf@ =~= self@.subrange(offset as int, offset as int + 4));
        }
        u32_from_le_bytes(buf.as_slice())
    }

    pub fn write_u32(&mut self, offset: usize, value: u32)
        requires
            offset + 4 <= old(self)@.len(),
            old(self)@.len() <= u32::MAX,
        ensures
            final(self)@.len() == old(self)@.len(),
            agree_outside(final(self)@, old(self)@, offset as int, offset as int + 4),
            final(self)@.subrange(offset as int, offset as int + 4) == spec_u32_to_le_bytes(value),
            le32_at(final(self)@, offset as int) == value,
    {
        let bytes = u32_to_le_bytes(value);
        self.write_u8(offset, bytes[0]);
        self.write_u8(offset + 1, bytes[1]);
        self.write_u8(offset + 2, bytes[2]);
        self.write_u8(offset + 3, bytes[3]);
        proof {
            lemma_auto_spec_u32_to_from_le_bytes();
            assert(self@.subrange(offset as int, offset as int + 4) =~= spec_u32_to_le_bytes(
                value,
            ));
        }
    }

    pub fn read_bytes(&self, offset: usize, length: usize) -> (r: Vec<u8>)
        requires
            offset + length <= self@.len(),
            self@.len() <= u32::MAX,
        ensures
            r@ == self@.subrange(offset as int, offset as int + length as int),
    {
        let mut r: Vec<u8> = Vec::new();
        let mut i: usize = 0;
        while i < length
            invariant
                i <= length,
                offset + length <= self@.len(),
                self@.len() <= u32::MAX,
                r@ =~= self@.subrange(offset as int, offset as int + i as int),
            decreases length - i,
        {
            r.push(self.read_u8(offset + i));
            i = i + 1;
        }
        proof {
            assert(r@ =~= self@.subrange(offset as int, offset as int + length as int));
        }
        r
    }

    pub fn write_bytes(&mut self, offset: usize, value: &[u8])
        requires
            offset + value@.len() <= old(self)@.len(),
            old(self)@.len() <= u32::MAX,
        ensures
            final(self)@.len() == old(self)@.len(),
            agree_outside(final(self)@, old(self)@, offset as int, offset as int + value@.len()),
            final(self)@.subrange(offset as int, offset as int + value@.len()) == value@,
    {
        let length = value.len();
        let mut i: usize = 0;
        while i < length
            invariant
                i <= length,
                length == value@.len(),
                offset + length <= old(self)@.len(),
                old(self)@.len() <= u32::MAX,
                self@.len() == old(self)@.len(),
                agree_outside(self@, old(self)@, offset as int, offset as int + i as int),
                self@.subrange(offset as int, offset as int + i as int) =~= value@.subrange(
                    0,
                    i as int,
                ),
            decreases length - i,
        {
            self.write_u8(offset + i, value[i]);
            i = i + 1;
        }
        proof {
            assert(self@.subrange(offset as int, offset as int + value@.len()) =~= value@);
        }
    }

    pub fn get_header(&self) -> (r: u8)
        requires
            17 <= self@.len() <= u32::MAX,
        ensures
            r == header_of(self@),
    {
        self.read_u8(HEADER_POS)
    }

    pub fn update_header(&mut self, value: u8)
        requires
            17 <= old(self)@.len() <= u32::MAX,
        ensures
            final(self)@ == old(self)@.update(HEADER_POS as int, value),
    {
        self.write_u8(HEADER_POS, value)
    }

    pub fn get_capacity(&self) -> (r: u32)
        requires
            17 <= self@.len() <= u32::MAX,
        ensures
            r == capacity_of(self@),
    {
        self.read_u32(CAPACITY_POS)
    }

    pub fn update_capacity(&mut self, value: u32)
        requires
            17 <= old(self)@.len() <= u32::MAX,
        ensures
            final(self)@.len() == old(self)@.len(),
            agree_outside(final(self)@, old(self)@, CAPACITY_POS as int, CAPACITY_POS as int + 4),
            capacity_of(final(self)@) == value,
            header_of(final(self)@) == header_of(old(self)@),
            head_of(final(self)@) == head_of(old(self)@),
            tail_of(final(self)@) == tail_of(old(self)@),
    {
        self.write_u32(CAPACITY_POS, value);
        proof {
            lemma_le32_frame(self@, old(self)@, 1, 5, DATA_HEAD_POS as int);
            lemma_le32_frame(self@, old(self)@, 1, 5, DATA_TAIL_POS as int);
        }
    }

    pub fn get_data_head_offset(&self) -> (r: usize)
        requires
            17 <= self@.len() <= u32::MAX,
        ensures
            r == head_of(self@) as usize,
    {
        self.read_u32(DATA_HEAD_POS) as usize
    }

    pub fn update_data_head_offset(&mut self, value: u32)
        requires
            17 <= old(self)@.len() <= u32::MAX,
        ensures
            final(self)@.len() == old(self)@.len(),
            agree_outside(final(self)@, old(self)@, DATA_HEAD_POS as int, DATA_HEAD_POS as int + 4),
            head_of(final(self)@) == value,
            header_of(final(self)@) == header_of(old(self)@),
            capacity_of(final(self)@) == capacity_of(old(self)@),
            tail_of(final(self)@) == tail_of(old(self)@),
    {
        self.write_u32(DATA_HEAD_POS, value);
        proof {
            lemma_le32_frame(self@, old(self)@, 9, 13, CAPACITY_POS as int);
            lemma_le32_frame(self@, old(self)@, 9, 13, DATA_TAIL_POS as int);
        }
    }

    pub fn get_data_tail_offset(&self) -> (r: usize)
        requires
            17 <= self@.len() <= u32::MAX,
        ensures
            r == tail_of(self@) as usize,
    {
        self.read_u32(DATA_TAIL_POS) as usize
    }

    pub fn update_data_tail_offset(&mut self, value: u32)
        requires
            17 <= old(self)@.len() <= u32::MAX,
        ensures
            final(self)@.len() == old(self)@.len(),
            agree_outside(final(self)@, old(self)@, DATA_TAIL_POS as int, DATA_TAIL_POS as int + 4),
            tail_of(final(self)@) == value,
            header_of(final(self)@) == header_of(old(self)@),
            capacity_of(final(self)@) == capacity_of(old(self)@),
            head_of(final(self)@) == head_of(old(self)@),
    {
        self.write_u32(DATA_TAIL_POS, value);
        proof {
            lemma_le32_frame(self@, old(self)@, 13, 17, CAPACITY_POS as int);
            lemma_le32_frame(self@, old(self)@, 13, 17, DATA_HEAD_POS as int);
        }
    }

    /// Unclaimed bytes between the slot directory and the record heap.
    pub fn get_free_space(&self) -> (r: u32)
        requires
            17 <= self@.len() <= u32::MAX,
            head_of(self@) <= tail_of(self@),
        ensures
            r == free_space_of(self@),
    {
        let head = self.get_data_head_offset();
        let tail = self.get_data_tail_offset();
        (tail - head) as u32
    }

    /// Bump-allocates `size` bytes for the slot directory at the current data
    /// head; fails without touching the page when the directory would run
    /// into the heap.
    pub fn allocate_space_head(&mut self, size: usize) -> (r: Option<usize>)
        requires
            17 <= old(self)@.len() <= u32::MAX,
            head_of(old(self)@) <= tail_of(old(self)@),
            tail_of(old(self)@) as int <= old(self)@.len(),
        ensures
            final(self)@.len() == old(self)@.len(),
            r is None <==> head_of(old(self)@) + size > tail_of(old(self)@),
            r is None ==> final(self)@ == old(self)@,
            r is Some ==> {
                &&& r->0 == head_of(old(self)@) as usize
                &&& agree_outside(
                    final(self)@,
                    old(self)@,
                    DATA_HEAD_POS as int,
                    DATA_HEAD_POS as int + 4,
                )
                &&& head_of(final(self)@) == head_of(old(self)@) + size
                &&& header_of(final(self)@) == header_of(old(self)@)
                &&& capacity_of(final(self)@) == capacity_of(old(self)@)
                &&& tail_of(final(self)@) == tail_of(old(self)@)
            },
    {
        let data_head_offset = self.get_data_head_offset();
        let data_tail_offset = self.get_data_tail_offset();
        if size > data_tail_offset - data_head_offset {
            return None;
        }
        let new_data_head_offset = data_head_offset + size;
        self.update_data_head_offset(new_data_head_offset as u32);
        Some(data_head_offset)
    }

    /// Bump-allocates `size` bytes for the record heap by moving the data
    /// tail downward; fails without touching the page when the heap would run
    /// into the directory.
    pub fn allocate_space_tail(&mut self, size: usize) -> (r: Option<usize>)
        requires
            17 <= old(self)@.len() <= u32::MAX,
            head_of(old(self)@) <= tail_of(old(self)@),
            tail_of(old(self)@) as int <= old(self)@.len(),
        ensures
            final(self)@.len() == old(self)@.len(),
            r is None <==> tail_of(old(self)@) - size < head_of(old(self)@),
            r is None ==> final(self)@ == old(self)@,
            r is Some ==> {
                &&& r->0 == tail_of(old(self)@) - size
                &&& agree_outside(
                    final(self)@,
                    old(self)@,
                    DATA_TAIL_POS as int,
                    DATA_TAIL_POS as int + 4,
                )
                &&& tail_of(final(self)@) == tail_of(old(self)@) - size
                &&& header_of(final(self)@) == header_of(old(self)@)
                &&& capacity_of(final(self)@) == capacity_of(old(self)@)
                &&& head_of(final(self)@) == head_of(old(self)@)
            },
    {
        let data_head_offset = self.get_data_head_offset();
        let data_tail_offset = self.get_data_tail_offset();
        if size > data_tail_offset - data_head_offset {
            return None;
        }
        let new_data_tail_offset = data_tail_offset - size;
        self.update_data_tail_offset(new_data_tail_offset as u32);
        Some(new_data_tail_offset)
    }

    /// Materializes the slot directory: one heap offset per directory slot,
    /// in stored order.
    pub fn get_sorted_table(&self, table_start: usize) -> (r: Vec<usize>)
        requires
            offsets_wf(self@, table_start as int),
        ensures
            r@.len() == num_slots(self@, table_start as int),
            forall|i: int|
                0 <= i < r@.len() ==> #[trigger] r@[i] as int == slot_at(
                    self@,
                    table_start as int,
                    i,
                ),
    {
        let data_head_offset = self.get_data_head_offset();
        let sorted_table_length = (data_head_offset - table_start) / 4;
        let mut result: Vec<usize> = Vec::new();
        let mut i: usize = 0;
        while i < sorted_table_length
            invariant
                i <= sorted_table_length,
                offsets_wf(self@, table_start as int),
                sorted_table_length == (head_of(self@) as int - table_start) / 4,
                result@.len() == i,
                forall|j: int|
                    0 <= j < i ==> #[trigger] result@[j] as int == slot_at(
                        self@,
                        table_start as int,
                        j,
                    ),
            decreases sorted_table_length - i,
        {
            proof {
                assert(4 * (i as int) + 4 <= 4 * ((head_of(self@) as int - table_start as int)
                    / 4));
                assert(4 * ((head_of(self@) as int - table_start as int) / 4) <= head_of(self@)
                    as int - table_start as int);
            }
            let key_offset = self.read_u32(table_start + 4 * i);
            result.push(key_offset as usize);
            i = i + 1;
        }
        result
    }

    /// Compares the key stored in the key record at `key_offset` with `key`,
    /// byte-for-byte in unsigned lexicographic order.
    pub fn compare_key_at(&self, key_offset: usize, key: &[u8]) -> (r: KeyOrder)
        requires
            key_readable(self@, key_offset as int),
            self@.len() <= u32::MAX,
        ensures
            r == KeyOrder::Less <==> lex_lt(key_bytes_at(self@, key_offset as int), key@),
            r == KeyOrder::Greater <==> lex_lt(key@, key_bytes_at(self@, key_offset as int)),
            r == KeyOrder::Equal <==> key_bytes_at(self@, key_offset as int) == key@,
    {
        let ghost stored = key_bytes_at(self@, key_offset as int);
        let key_size = self.read_u32(key_offset) as usize;
        let shorter = if key_size < key.len() {
            key_size
        } else {
            key.len()
        };
        let mut j: usize = 0;
        while j < shorter
            invariant
                j <= shorter,
                shorter <= key_size,
                self@.len() <= u32::MAX,
                shorter <= key@.len(),
                key_readable(self@, key_offset as int),
                key_size == key_len_at(self@, key_offset as int),
                shorter == if key_size < key@.len() {
                    key_size as int
                } else {
                    key@.len() as int
                },
                stored == key_bytes_at(self@, key_offset as int),
                stored.subrange(0, j as int) =~= key@.subrange(0, j as int),
            decreases shorter - j,
        {
            let a = self.read_u8(key_offset + 4 + j);
            let b = key[j];
            proof {
                assert(stored[j as int] == self@[key_offset as int + 4 + j as int]);
            }
            if a < b {
                proof {
                    lemma_lex_lt_from_diff(stored, key@, j as int);
                    lemma_lex_lt_asymmetric(stored, key@);
                }
                return KeyOrder::Less;
            }
            if a > b {
                proof {
                    lemma_lex_lt_from_diff(key@, stored, j as int);
                    lemma_lex_lt_asymmetric(key@, stored);
                }
                return KeyOrder::Greater;
            }
            proof {
                assert(stored.subrange(0, j as int + 1) =~= key@.subrange(0, j as int + 1));
            }
            j = j + 1;
        }
        if key_size < key.len() {
            proof {
                assert(stored == key@.subrange(0, stored.len() as int));
                lemma_lex_lt_from_prefix(stored, key@);
                lemma_lex_lt_asymmetric(stored, key@);
            }
            KeyOrder::Less
        } else if key_size > key.len() {
            proof {
                assert(key@ == stored.subrange(0, key@.len() as int));
                lemma_lex_lt_from_prefix(key@, stored);
                lemma_lex_lt_asymmetric(key@, stored);
            }
            KeyOrder::Greater
        } else {
            proof {
                lemma_eq_from_prefix(stored, key@);
                lemma_lex_lt_irreflexive(stored);
            }
            KeyOrder::Equal
        }
    }

    /// Binary search over a materialized slot directory whose keys are
    /// strictly ascending. On success returns the matching slot index; on
    /// failure, the insertion point that preserves the sort order.
    pub fn binary_search(&self, key: &[u8], sorted_table: &Vec<usize>) -> (r: (bool, usize))
        requires
            self@.len() <= u32::MAX,
            forall|i: int|
                0 <= i < sorted_table@.len() ==> key_readable(
                    self@,
                    #[trigger] sorted_table@[i] as int,
                ),
            forall|i: int, j: int|
                0 <= i < j < sorted_table@.len() ==> lex_lt(
                    key_bytes_at(self@, #[trigger] sorted_table@[i] as int),
                    key_bytes_at(self@, #[trigger] sorted_table@[j] as int),
                ),
        ensures
            r.0 <==> exists|i: int|
                0 <= i < sorted_table@.len() && key_bytes_at(
                    self@,
                    #[trigger] sorted_table@[i] as int,
                ) == key@,
            r.0 ==> r.1 < sorted_table@.len() && key_bytes_at(self@, sorted_table@[r.1 as int] as int)
                == key@,
            !r.0 ==> {
                &&& r.1 <= sorted_table@.len()
                &&& forall|i: int|
                    0 <= i < r.1 ==> lex_lt(
                        key_bytes_at(self@, #[trigger] sorted_table@[i] as int),
                        key@,
                    )
                &&& forall|i: int|
                    r.1 <= i < sorted_table@.len() ==> lex_lt(
                        key@,
                        key_bytes_at(self@, #[trigger] sorted_table@[i] as int),
                    )
            },
    {
        let mut lo: usize = 0;
        let mut hi: usize = sorted_table.len();
        while lo < hi
            invariant
                lo <= hi <= sorted_table@.len(),
                self@.len() <= u32::MAX,
                forall|i: int|
                    0 <= i < sorted_table@.len() ==> key_readable(
                        self@,
                        #[trigger] sorted_table@[i] as int,
                    ),
                forall|i: int, j: int|
                    0 <= i < j < sorted_table@.len() ==> lex_lt(
                        key_bytes_at(self@, #[trigger] sorted_table@[i] as int),
                        key_bytes_at(self@, #[trigger] sorted_table@[j] as int),
                    ),
                forall|i: int|
                    0 <= i < lo ==> lex_lt(
                        key_bytes_at(self@, #[trigger] sorted_table@[i] as int),
                        key@,
                    ),
                forall|i: int|
                    hi <= i < sorted_table@.len() ==> lex_lt(
                        key@,
                        key_bytes_at(self@, #[trigger] sorted_table@[i] as int),
                    ),
            decreases hi - lo,
        {
            let mid = lo + (hi - lo) / 2;
            let key_offset = sorted_table[mid];
            match self.compare_key_at(key_offset, key) {
                KeyOrder::Equal => {
                    return (true, mid);
                },
                KeyOrder::Less => {
                    proof {
                        assert forall|i: int| 0 <= i < mid + 1 implies lex_lt(
                            key_bytes_at(self@, #[trigger] sorted_table@[i] as int),
                            key@,
                        ) by {
                            if i < mid {
                                lemma_lex_lt_trans(
                                    key_bytes_at(self@, sorted_table@[i] as int),
                                    key_bytes_at(self@, sorted_table@[mid as int] as int),
                                    key@,
                                );
                            }
                        }
                    }
                    lo = mid + 1;
                },
                KeyOrder::Greater => {
                    proof {
                        assert forall|i: int| mid <= i < sorted_table@.len() implies lex_lt(
                            key@,
                            key_bytes_at(self@, #[trigger] sorted_table@[i] as int),
                        ) by {
                            if i > mid {
                                lemma_lex_lt_trans(
                                    key@,
                                    key_bytes_at(self@, sorted_table@[mid as int] as int),
                                    key_bytes_at(self@, sorted_table@[i] as int),
                                );
                            }
                        }
                    }
                    hi = mid;
                },
            }
        }
        proof {
            assert forall|i: int| 0 <= i < sorted_table@.len() implies key_bytes_at(
                self@,
                #[trigger] sorted_table@[i] as int,
            ) != key@ by {
                if i < lo {
                    lemma_lex_lt_asymmetric(key_bytes_at(self@, sorted_table@[i] as int), key@);
                } else {
                    lemma_lex_lt_asymmetric(key@, key_bytes_at(self@, sorted_table@[i] as int));
                }
            }
        }
        (false, lo)
    }
}

/// Writes the fixed header of a freshly created page: capacity, an empty slot
/// directory, a heap starting at the page's end, and the page kind's header
/// byte.
pub fn common_init(page: &mut Page, table_start: usize, length: u32, header: u8)
    requires
        old(page)@.len() == length,
        17 <= table_start <= length,
    ensures
        final(page)@.len() == old(page)@.len(),
        agree_outside(final(page)@, old(page)@, 0, 17),
        header_of(final(page)@) == header,
        capacity_of(final(page)@) == length,
        head_of(final(page)@) == table_start,
        tail_of(final(page)@) == length,
        num_slots(final(page)@, table_start as int) == 0,
        directory_wf(final(page)@, table_start as int),
{
    page.update_capacity(length);
    page.update_data_head_offset(table_start as u32);
    page.update_data_tail_offset(length);
    let ghost s3 = page@;
    page.update_header(header);
    proof {
        assert(agree_outside(page@, s3, 0, 1));
        lemma_le32_frame(page@, s3, 0, 1, CAPACITY_POS as int);
        lemma_le32_frame(page@, s3, 0, 1, DATA_HEAD_POS as int);
        lemma_le32_frame(page@, s3, 0, 1, DATA_TAIL_POS as int);
        assert(agree_outside(page@, old(page)@, 0, 17));
        assert(num_slots(page@, table_start as int) == 0);
    }
}

/// Validates a reopened page's header and offset fields against the page
/// kind's expectations; reports the first violated field.
pub fn valid_common_data(page: &Page, length: u32, expect_header: u8, table_start: usize) -> (r:
    Option<MiniBaseError>)
    requires
        17 <= page@.len() <= u32::MAX,
        table_start >= 17,
    ensures
        r is None <==> open_checks_pass(page@, length as int, expect_header, table_start as int),
        r == spec_valid_common_data(page@, length as int, expect_header, table_start as int),
{
    let header = page.get_header();
    if header != expect_header {
        return Some(MiniBaseError::HeaderInvalid);
    }
    let capacity = page.get_capacity();
    if capacity != length {
        return Some(MiniBaseError::CapacityInvalid);
    }
    let data_head_offset = page.get_data_head_offset();
    if data_head_offset < table_start {
        return Some(MiniBaseError::DataHeadOffsetInvalid);
    }
    let data_tail_offset = page.get_data_tail_offset();
    if data_tail_offset < data_head_offset || data_tail_offset > length as usize {
        return Some(MiniBaseError::DataTailOffsetInvalid);
    }
    None
}

/// The open-time validation of a reopened page: expected header byte, a
/// capacity field equal to the mapped length, and ordered offset fields.
pub open spec fn open_checks_pass(
    s: Seq<u8>,
    length: int,
    expect_header: u8,
    table_start: int,
) -> bool {
    &&& header_of(s) == expect_header
    &&& capacity_of(s) == length
    &&& head_of(s) as int >= table_start
    &&& head_of(s) <= tail_of(s)
    &&& tail_of(s) as int <= length
}

/// The exact outcome of open-time validation, first violated field first.
pub open spec fn spec_valid_common_data(
    s: Seq<u8>,
    length: int,
    expect_header: u8,
    table_start: int,
) -> Option<MiniBaseError> {
    if header_of(s) != expect_header {
        Some(MiniBaseError::HeaderInvalid)
    } else if capacity_of(s) != length {
        Some(MiniBaseError::CapacityInvalid)
    } else if (head_of(s) as int) < table_start {
        Some(MiniBaseError::DataHeadOffsetInvalid)
    } else if tail_of(s) < head_of(s) || (tail_of(s) as int) > length {
        Some(MiniBaseError::DataTailOffsetInvalid)
    } else {
        None
    }
}

} // verus!
