//! The leaf page: key/value records behind a sorted slot directory, with
//! point lookup, insert-or-update, and tombstone deletion, all by in-place
//! byte manipulation of the mapped region.

use crate::layout::{
    agree_outside, agree_outside3, capacity_of, deleted_at, directory_wf, free_space_of, head_of,
    header_of, key_bytes_at, key_len_at, key_readable, key_span_end, le32_at, lemma_le32_frame,
    lemma_le32_frame3, lemma_record_frame, lemma_record_frame3, lemma_subrange_frame,
    lemma_subrange_frame3, lex_lt, num_slots, offsets_wf, record_wf, records_disjoint, slot_at,
    span_disjoint, tail_of, tombstone_pos, val_span_end, value_bytes_at, value_len_at,
    value_ptr_at, value_ptr_pos, DATA_HEAD_POS, DATA_TAIL_POS,
};
use crate::layout::lemma_lex_lt_asymmetric;
use crate::model::{
    delete_effect, entries_sorted, has_key, insert_effect, insert_position, key_index,
    lemma_insert_position_props, lemma_key_index_unique, lemma_position_from_partition, spec_get,
    Entry,
};
use crate::page::{common_init, open_checks_pass, spec_valid_common_data, valid_common_data, Page};
use crate::MiniBaseError;
use vstd::prelude::*;

verus! {

/// Header byte identifying an initialized leaf page.
pub const LEAF_HEADER: u8 = 0b1000_0000;

/// Fixed offset where a leaf page's slot directory starts; the bytes at
/// 17 and 21 are the previous- and next-leaf links.
pub const LEAF_SORTED_TABLE: usize = 25;

/// The entry denoted by the key record at heap offset `o`.
pub open spec fn entry_at(s: Seq<u8>, o: int) -> Entry {
    Entry {
        key: key_bytes_at(s, o),
        deleted: deleted_at(s, o),
        value: value_bytes_at(s, value_ptr_at(s, o)),
    }
}

/// The entries of a leaf page, in slot-directory order.
pub open spec fn leaf_entries(s: Seq<u8>) -> Seq<Entry> {
    Seq::new(num_slots(s, LEAF_SORTED_TABLE as int) as nat, |i: int| entry_at(s, slot_at(s, LEAF_SORTED_TABLE as int, i)))
}

/// A structurally sound leaf page.
pub open spec fn leaf_wf(s: Seq<u8>) -> bool {
    &&& directory_wf(s, LEAF_SORTED_TABLE as int)
    &&& header_of(s) == LEAF_HEADER
}

/// The materialized slot directory `t` equals the directory stored in `s`.
pub open spec fn table_matches(s: Seq<u8>, t: Seq<usize>) -> bool {
    &&& t.len() == num_slots(s, LEAF_SORTED_TABLE as int)
    &&& forall|i: int| 0 <= i < t.len() ==> #[trigger] t[i] as int == slot_at(s, LEAF_SORTED_TABLE as int, i)
}

/// A structurally sound directory denotes a sorted entry sequence.
pub proof fn lemma_leaf_entries_sorted(s: Seq<u8>)
    requires
        directory_wf(s, LEAF_SORTED_TABLE as int),
    ensures
        entries_sorted(leaf_entries(s)),
        leaf_entries(s).len() == num_slots(s, LEAF_SORTED_TABLE as int),
{
    let es = leaf_entries(s);
    assert forall|i: int, j: int| 0 <= i < j < es.len() implies lex_lt(
        #[trigger] es[i].key,
        #[trigger] es[j].key,
    ) by {
        assert(es[i] == entry_at(s, slot_at(s, LEAF_SORTED_TABLE as int, i)));
        assert(es[j] == entry_at(s, slot_at(s, LEAF_SORTED_TABLE as int, j)));
    }
}

/// A matching table satisfies what binary search asks of it.
pub proof fn lemma_table_searchable(s: Seq<u8>, t: Seq<usize>)
    requires
        directory_wf(s, LEAF_SORTED_TABLE as int),
        table_matches(s, t),
    ensures
        forall|i: int| 0 <= i < t.len() ==> key_readable(s, #[trigger] t[i] as int),
        forall|i: int, j: int|
            0 <= i < j < t.len() ==> lex_lt(
                key_bytes_at(s, #[trigger] t[i] as int),
                key_bytes_at(s, #[trigger] t[j] as int),
            ),
{
    assert forall|i: int| 0 <= i < t.len() implies key_readable(s, #[trigger] t[i] as int) by {
        assert(record_wf(s, tail_of(s) as int, slot_at(s, LEAF_SORTED_TABLE as int, i)));
    }
    assert forall|i: int, j: int| 0 <= i < j < t.len() implies lex_lt(
        key_bytes_at(s, #[trigger] t[i] as int),
        key_bytes_at(s, #[trigger] t[j] as int),
    ) by {
        assert(t[i] as int == slot_at(s, LEAF_SORTED_TABLE as int, i));
        assert(t[j] as int == slot_at(s, LEAF_SORTED_TABLE as int, j));
    }
}

/// A page holding key-to-value records in sorted slot order.
pub struct LeafPage {
    page: Page,
}

impl View for LeafPage {
    type V = Seq<u8>;

    closed spec fn view(&self) -> Seq<u8> {
        self.page@
    }
}

impl LeafPage {
    pub open spec fn wf(&self) -> bool {
        leaf_wf(self@)
    }

    pub open spec fn entries(&self) -> Seq<Entry> {
        leaf_entries(self@)
    }

    /// Initializes a fresh leaf page over a mapped region: header byte,
    /// capacity, an empty slot directory, and a heap starting at the end.
    pub fn new(region: memmap2::MmapMut, length: u32) -> (r: LeafPage)
        requires
            crate::region::region_bytes(region).len() == length,
            length >= 25,
        ensures
            r.wf(),
            r@.len() == length,
            r.entries() == Seq::<Entry>::empty(),
            head_of(r@) == LEAF_SORTED_TABLE,
            tail_of(r@) == length,
            agree_outside(r@, crate::region::region_bytes(region), 0, 17),
    {
        let mut page = Page::new(region);
        common_init(&mut page, LEAF_SORTED_TABLE, length, LEAF_HEADER);
        proof {
            assert(leaf_entries(page@) =~= Seq::<Entry>::empty());
        }
        LeafPage { page }
    }

    /// Reopens a leaf page over an existing mapped region, validating the
    /// header and offset fields; a violation yields the structural error and
    /// no page.
    pub fn from(region: memmap2::MmapMut, length: u32) -> (r: Result<LeafPage, MiniBaseError>)
        requires
            crate::region::region_bytes(region).len() == length,
            length >= 17,
        ensures
            r is Ok <==> open_checks_pass(
                crate::region::region_bytes(region),
                length as int,
                LEAF_HEADER,
                LEAF_SORTED_TABLE as int,
            ),
            r matches Ok(p) ==> p@ == crate::region::region_bytes(region),
            r matches Err(e) ==> Some(e) == spec_valid_common_data(
                crate::region::region_bytes(region),
                length as int,
                LEAF_HEADER,
                LEAF_SORTED_TABLE as int,
            ),
    {
        let page = Page::new(region);
        match valid_common_data(&page, length, LEAF_HEADER, LEAF_SORTED_TABLE) {
            None => Ok(LeafPage { page }),
            Some(error) => Err(error),
        }
    }

    /// Releases the page, handing back its mapped region unchanged.
    pub fn into_region(self) -> (r: memmap2::MmapMut)
        ensures
            crate::region::region_bytes(r) == self@,
    {
        self.page.into_region()
    }

    pub fn len(&self) -> (r: usize)
        ensures
            r == self@.len(),
    {
        self.page.len()
    }

    pub fn read_u8(&self, offset: usize) -> (r: u8)
        requires
            offset < self@.len(),
        ensures
            r == self@[offset as int],
    {
        self.page.read_u8(offset)
    }

    pub fn write_u8(&mut self, offset: usize, value: u8)
        requires
            offset < old(self)@.len(),
        ensures
            final(self)@ == old(self)@.update(offset as int, value),
    {
        self.page.write_u8(offset, value)
    }

    pub fn read_u32(&self, offset: usize) -> (r: u32)
        requires
            offset + 4 <= self@.len(),
            self@.len() <= u32::MAX,
        ensures
            r == le32_at(self@, offset as int),
    {
        self.page.read_u32(offset)
    }

    pub fn write_u32(&mut self, offset: usize, value: u32)
        requires
            offset + 4 <= old(self)@.len(),
            old(self)@.len() <= u32::MAX,
        ensures
            final(self)@.len() == old(self)@.len(),
            agree_outside(final(self)@, old(self)@, offset as int, offset as int + 4),
            le32_at(final(self)@, offset as int) == value,
    {
        self.page.write_u32(offset, value)
    }

    pub fn read_bytes(&self, offset: usize, length: usize) -> (r: Vec<u8>)
        requires
            offset + length <= self@.len(),
            self@.len() <= u32::MAX,
        ensures
            r@ == self@.subrange(offset as int, offset as int + length as int),
    {
        self.page.read_bytes(offset, length)
    }

    pub fn write_bytes(&mut self, offset: usize, value: &[u8])
        requires
            offset + value@.len() <= old(self)@.len(),
            old(self)@.len() <= u32::MAX,
        ensures
            final(self)@.len() == old(self)@.len(),
            agree_outside(final(self)@, old(self)@, offset as int, offset as int + value@.len()),
            final(self)@.subrange(offset as int, offset as int + value@.len()) == value@,
    {
        self.page.write_bytes(offset, value)
    }

    pub fn get_sorted_table_offset(&self) -> (r: usize)
        ensures
            r == LEAF_SORTED_TABLE,
    {
        LEAF_SORTED_TABLE
    }

    pub fn get_free_space(&self) -> (r: u32)
        requires
            17 <= self@.len() <= u32::MAX,
            head_of(self@) <= tail_of(self@),
        ensures
            r == free_space_of(self@),
    {
        self.page.get_free_space()
    }

    pub fn get_data_head_offset(&self) -> (r: usize)
        requires
            17 <= self@.len() <= u32::MAX,
        ensures
            r == head_of(self@) as usize,
    {
        self.page.get_data_head_offset()
    }

    pub fn get_data_tail_offset(&self) -> (r: usize)
        requires
            17 <= self@.len() <= u32::MAX,
        ensures
            r == tail_of(self@) as usize,
    {
        self.page.get_data_tail_offset()
    }

    /// The slot directory, one heap offset per live-or-tombstoned key.
    pub fn get_sorted_table(&self) -> (r: Vec<usize>)
        requires
            offsets_wf(self@, LEAF_SORTED_TABLE as int),
        ensures
            table_matches(self@, r@),
    {
        self.page.get_sorted_table(LEAF_SORTED_TABLE)
    }

    /// Reads the tombstone flag and the value bytes of the key record at
    /// `key_offset`.
    fn get_value_by_key_offset(&self, key_offset: usize) -> (r: (bool, Vec<u8>))
        requires
            self@.len() <= u32::MAX,
            record_wf(self@, tail_of(self@) as int, key_offset as int),
            tail_of(self@) >= 0,
        ensures
            r.0 == deleted_at(self@, key_offset as int),
            r.1@ == value_bytes_at(self@, value_ptr_at(self@, key_offset as int)),
    {
        let key_size = self.page.read_u32(key_offset) as usize;
        let deleted = self.page.read_u8(self.get_value_deleted_position(key_offset, key_size))
            == 1;
        let value_offset = self.page.read_u32(
            self.get_value_offset_position(key_offset, key_size),
        ) as usize;
        let value_size = self.page.read_u32(value_offset) as usize;
        let value = self.page.read_bytes(value_offset + 4, value_size);
        (deleted, value)
    }

    /// Looks the key up; yields the stored value unless the key is absent or
    /// tombstoned.
    pub fn get_value(&self, key: &[u8]) -> (r: Option<Vec<u8>>)
        requires
            self.wf(),
        ensures
            r is Some <==> spec_get(self.entries(), key@) is Some,
            r matches Some(v) ==> spec_get(self.entries(), key@) == Some(v@),
    {
        let ghost s = self@;
        let ghost es = self.entries();
        let sorted_table = self.get_sorted_table();
        proof {
            lemma_leaf_entries_sorted(s);
            lemma_table_searchable(s, sorted_table@);
        }
        let search = self.page.binary_search(key, &sorted_table);
        let exist = search.0;
        let index = search.1;
        if !exist {
            proof {
                assert(!has_key(es, key@)) by {
                    assert forall|i: int| 0 <= i < es.len() implies es[i].key != key@ by {
                        assert(es[i] == entry_at(s, slot_at(s, LEAF_SORTED_TABLE as int, i)));
                        assert(key_bytes_at(s, sorted_table@[i] as int) != key@);
                    }
                }
            }
            return None;
        }
        let key_offset = sorted_table[index];
        proof {
            assert(es[index as int] == entry_at(s, slot_at(s, LEAF_SORTED_TABLE as int, index as int)));
            assert(es[index as int].key == key@);
            lemma_key_index_unique(es, key@, index as int);
            assert(record_wf(s, tail_of(s) as int, key_offset as int));
        }
        match self.get_value_by_key_offset(key_offset) {
            (false, value) => Some(value),
            (true, _) => None,
        }
    }

    /// Sets or clears the tombstone flag of the key record at `key_offset`.
    fn update_value_delete(&mut self, key_offset: usize, deleted: bool)
        requires
            old(self)@.len() <= u32::MAX,
            record_wf(old(self)@, tail_of(old(self)@) as int, key_offset as int),
            tail_of(old(self)@) >= 0,
        ensures
            final(self)@ == old(self)@.update(
                tombstone_pos(old(self)@, key_offset as int),
                if deleted {
                    1u8
                } else {
                    0u8
                },
            ),
    {
        let flag: u8 = if deleted {
            1
        } else {
            0
        };
        let key_size = self.page.read_u32(key_offset) as usize;
        let position = self.get_value_deleted_position(key_offset, key_size);
        self.page.write_u8(position, flag)
    }

    /// Tombstones the key's record; fails only when the key was never
    /// inserted. The slot and all heap bytes stay in place.
    pub fn delete_value(&mut self, key: &[u8]) -> (r: bool)
        requires
            old(self).wf(),
        ensures
            final(self).wf(),
            final(self)@.len() == old(self)@.len(),
            r == has_key(old(self).entries(), key@),
            leaf_entries(final(self)@) == delete_effect(old(self).entries(), key@),
            !r ==> final(self)@ == old(self)@,
            head_of(final(self)@) == head_of(old(self)@),
            tail_of(final(self)@) == tail_of(old(self)@),
            r ==> final(self)@ == old(self)@.update(
                tombstone_pos(
                    old(self)@,
                    slot_at(
                        old(self)@,
                        LEAF_SORTED_TABLE as int,
                        key_index(old(self).entries(), key@),
                    ),
                ),
                1u8,
            ),
    {
        let ghost s = self@;
        let ghost es = self.entries();
        let sorted_table = self.get_sorted_table();
        proof {
            lemma_leaf_entries_sorted(s);
            lemma_table_searchable(s, sorted_table@);
        }
        let search = self.page.binary_search(key, &sorted_table);
        let exist = search.0;
        let index = search.1;
        if !exist {
            proof {
                assert(!has_key(es, key@)) by {
                    assert forall|i: int| 0 <= i < es.len() implies es[i].key != key@ by {
                        assert(es[i] == entry_at(s, slot_at(s, LEAF_SORTED_TABLE as int, i)));
                        assert(key_bytes_at(s, sorted_table@[i] as int) != key@);
                    }
                }
            }
            return false;
        }
        let key_offset = sorted_table[index];
        proof {
            assert(es[index as int] == entry_at(s, slot_at(s, LEAF_SORTED_TABLE as int, index as int)));
            assert(es[index as int].key == key@);
            lemma_key_index_unique(es, key@, index as int);
            assert(record_wf(s, tail_of(s) as int, key_offset as int));
        }
        self.update_value_delete(key_offset, true);
        proof {
            lemma_tombstone_update(s, index as int, 1);
            assert(leaf_entries(self@) == delete_effect(es, key@)) by {
                assert(leaf_entries(self@) =~= es.update(
                    index as int,
                    (Entry {
                        key: es[index as int].key,
                        deleted: true,
                        value: es[index as int].value,
                    }),
                ));
            }
        }
        true
    }

    fn get_value_required_space(&self, value: &[u8]) -> (r: usize)
        requires
            value@.len() + 4 <= usize::MAX,
        ensures
            r == 4 + value@.len(),
    {
        4 + value.len()
    }

    fn get_key_required_space(&self, key: &[u8]) -> (r: usize)
        requires
            key@.len() + 9 <= usize::MAX,
        ensures
            r == 4 + key@.len() + 1 + 4,
    {
        4 + key.len() + 1 + 4
    }

    fn get_value_offset_position(&self, key_offset: usize, key_size: usize) -> (r: usize)
        requires
            key_offset + key_size + 5 <= usize::MAX,
        ensures
            r == key_offset + 4 + key_size + 1,
    {
        key_offset + 4 + key_size + 1
    }

    fn get_value_deleted_position(&self, key_offset: usize, key_size: usize) -> (r: usize)
        requires
            key_offset + key_size + 4 <= usize::MAX,
        ensures
            r == key_offset + 4 + key_size,
    {
        key_offset + 4 + key_size
    }

    /// Replaces the value under the existing key in slot `index`, reviving a
    /// tombstoned record; when the stored bytes already equal the new value
    /// no heap space is consumed. Fails, leaving the page untouched, when the
    /// heap lacks room for a fresh value record.
    #[verifier::rlimit(60)]
    fn override_value(
        &mut self,
        sorted_table: &Vec<usize>,
        index: usize,
        key: &[u8],
        value: &[u8],
    ) -> (r: bool)
        requires
            old(self).wf(),
            table_matches(old(self)@, sorted_table@),
            index < sorted_table@.len(),
            key_bytes_at(old(self)@, sorted_table@[index as int] as int) == key@,
        ensures
            final(self).wf(),
            final(self)@.len() == old(self)@.len(),
            r <==> (leaf_entries(old(self)@)[index as int].value == value@ || free_space_of(
                old(self)@,
            ) >= value@.len() + 4),
            r ==> leaf_entries(final(self)@) == insert_effect(
                leaf_entries(old(self)@),
                key@,
                value@,
            ),
            !r ==> final(self)@ == old(self)@,
            head_of(final(self)@) == head_of(old(self)@),
            tail_of(final(self)@) <= tail_of(old(self)@),
            leaf_entries(old(self)@)[index as int].value == value@ ==> tail_of(final(self)@)
                == tail_of(old(self)@),
            spec_get(leaf_entries(old(self)@), key@) == Some(value@) ==> final(self)@ == old(
                self,
            )@,
            r && leaf_entries(old(self)@)[index as int].value != value@ ==> ({
                let o = slot_at(old(self)@, LEAF_SORTED_TABLE as int, index as int);
                let t0 = tail_of(old(self)@) as int;
                let t1 = tail_of(final(self)@) as int;
                &&& t1 == t0 - (value@.len() + 4)
                &&& agree_outside3(
                    final(self)@,
                    old(self)@,
                    13,
                    17,
                    t1,
                    t0,
                    tombstone_pos(old(self)@, o),
                    key_span_end(old(self)@, o),
                )
                &&& value_ptr_at(final(self)@, o) == t1
                &&& !deleted_at(final(self)@, o)
                &&& value_len_at(final(self)@, t1) == value@.len()
                &&& value_bytes_at(final(self)@, t1) == value@
            }),
    {
        let ghost s0 = self@;
        let ghost es = leaf_entries(s0);
        let ghost ts = LEAF_SORTED_TABLE as int;
        let ghost idx = index as int;
        let key_offset = sorted_table[index];
        let ghost o = key_offset as int;
        let ghost klen = key_len_at(s0, o);
        proof {
            lemma_leaf_entries_sorted(s0);
            assert(o == slot_at(s0, ts, idx));
            assert(record_wf(s0, tail_of(s0) as int, o));
            assert(es[idx] == entry_at(s0, slot_at(s0, ts, idx)));
            lemma_key_index_unique(es, key@, idx);
            assert(klen == key@.len()) by {
                assert(key_bytes_at(s0, o).len() == klen);
            }
        }
        let (deleted, old_value) = self.get_value_by_key_offset(key_offset);
        if bytes_eq(old_value.as_slice(), value) {
            if deleted {
                self.update_value_delete(key_offset, false);
                proof {
                    lemma_tombstone_update(s0, idx, 0);
                    assert(leaf_entries(self@) == insert_effect(es, key@, value@)) by {
                        assert(leaf_entries(self@) =~= es.update(
                            idx,
                            (Entry { key: key@, deleted: false, value: value@ }),
                        ));
                    }
                }
            } else {
                proof {
                    assert(es[idx] =~= (Entry { key: key@, deleted: false, value: value@ }));
                    assert(leaf_entries(self@) == insert_effect(es, key@, value@)) by {
                        assert(es.update(idx, es[idx]) =~= es);
                    }
                }
            }
            return true;
        }
        let free_space = self.get_free_space() as usize;
        if free_space < 4 || free_space - 4 < value.len() {
            return false;
        }
        if deleted {
            self.update_value_delete(key_offset, false);
            proof {
                lemma_tombstone_update(s0, idx, 0);
            }
        }
        let ghost s1 = self@;
        proof {
            assert(directory_wf(s1, ts));
            assert(header_of(s1) == LEAF_HEADER);
            assert(s1.len() == s0.len() && head_of(s1) == head_of(s0) && tail_of(s1) == tail_of(s0)
                && capacity_of(s1) == capacity_of(s0));
            assert(forall|i: int|
                0 <= i < num_slots(s1, ts) ==> #[trigger] slot_at(s1, ts, i) == slot_at(
                    s0,
                    ts,
                    i,
                ));
            assert(key_len_at(s1, o) == klen && key_bytes_at(s1, o) == key@ && !deleted_at(s1, o)
                && value_ptr_at(s1, o) == value_ptr_at(s0, o));
            assert(leaf_entries(s1) == es.update(
                idx,
                (Entry { key: key@, deleted: false, value: es[idx].value }),
            )) by {
                if !deleted_at(s0, o) {
                    assert(es[idx] =~= (Entry {
                        key: key@,
                        deleted: false,
                        value: es[idx].value,
                    }));
                    assert(leaf_entries(s1) =~= es.update(idx, es[idx]));
                }
            }
        }
        let ghost n = num_slots(s1, ts);
        let ghost tail0 = tail_of(s1) as int;
        let value_len = value.len();
        let alloc = self.page.allocate_space_tail(self.get_value_required_space(value));
        proof {
            assert(alloc is Some);
        }
        let new_value_offset = match alloc {
            Some(offset) => offset,
            None => 0,
        };
        let ghost s2 = self@;
        let ghost vo = new_value_offset as int;
        self.page.write_u32(new_value_offset, value_len as u32);
        let ghost s3 = self@;
        self.page.write_bytes(new_value_offset + 4, value);
        let ghost s4 = self@;
        let value_position = self.get_value_offset_position(key_offset, key.len());
        self.page.write_u32(value_position, new_value_offset as u32);
        proof {
            let s5 = self@;
            let vpp = value_position as int;
            let vlen = value@.len() as int;
            assert(vpp == value_ptr_pos(s1, o));
            assert(agree_outside3(s5, s1, 13, 17, vo, tail0, vpp, vpp + 4));
            // header and offset fields
            assert(s5[0] == s1[0]);
            lemma_le32_frame3(s5, s1, 13, 17, vo, tail0, vpp, vpp + 4, 1);
            lemma_le32_frame3(s5, s1, 13, 17, vo, tail0, vpp, vpp + 4, DATA_HEAD_POS as int);
            assert(tail_of(s5) == vo) by {
                lemma_le32_frame(s3, s2, vo, vo + 4, DATA_TAIL_POS as int);
                lemma_le32_frame(s4, s3, vo + 4, vo + 4 + vlen, DATA_TAIL_POS as int);
                lemma_le32_frame(s5, s4, vpp, vpp + 4, DATA_TAIL_POS as int);
            }
            // the slot table is untouched
            assert forall|i: int| 0 <= i < n implies #[trigger] slot_at(s5, ts, i) == slot_at(
                s1,
                ts,
                i,
            ) by {
                assert(4 * i + 4 <= 4 * n);
                lemma_le32_frame3(s5, s1, 13, 17, vo, tail0, vpp, vpp + 4, ts + 4 * i);
            }
            assert(num_slots(s5, ts) == n);
            // the key record keeps its key and flag; its pointer now names the
            // fresh value record
            lemma_le32_frame3(s5, s1, 13, 17, vo, tail0, vpp, vpp + 4, o);
            assert(key_len_at(s5, o) == klen);
            lemma_subrange_frame3(s5, s1, 13, 17, vo, tail0, vpp, vpp + 4, o + 4, o + 4 + klen);
            assert(key_bytes_at(s5, o) == key@);
            assert(s5[tombstone_pos(s1, o)] == s1[tombstone_pos(s1, o)]);
            assert(!deleted_at(s5, o));
            assert(value_ptr_at(s5, o) == vo);
            // the fresh value record holds the new value
            assert(value_len_at(s5, vo) == vlen) by {
                lemma_le32_frame(s4, s3, vo + 4, vo + 4 + vlen, vo);
                lemma_le32_frame(s5, s4, vpp, vpp + 4, vo);
            }
            assert(value_bytes_at(s5, vo) == value@) by {
                lemma_subrange_frame(s5, s4, vpp, vpp + 4, vo + 4, vo + 4 + vlen);
            }
            assert(entry_at(s5, o) =~= (Entry { key: key@, deleted: false, value: value@ }));
            assert(o == slot_at(s1, ts, idx));
            // every other record is untouched
            assert forall|j: int| 0 <= j < n && j != idx implies {
                let oj = slot_at(s1, ts, j);
                &&& key_len_at(s5, #[trigger] slot_at(s1, ts, j)) == key_len_at(s1, oj)
                &&& key_bytes_at(s5, oj) == key_bytes_at(s1, oj)
                &&& deleted_at(s5, oj) == deleted_at(s1, oj)
                &&& value_ptr_at(s5, oj) == value_ptr_at(s1, oj)
                &&& value_len_at(s5, value_ptr_at(s1, oj)) == value_len_at(
                    s1,
                    value_ptr_at(s1, oj),
                )
                &&& entry_at(s5, oj) == entry_at(s1, oj)
            } by {
                let oj = slot_at(s1, ts, j);
                assert(records_disjoint(s1, oj, o));
                assert(record_wf(s1, tail0, oj));
                lemma_record_frame3(s5, s1, 13, 17, vo, tail0, vpp, vpp + 4, oj);
            }
            // structure is intact with the heap extended to the new tail
            assert(offsets_wf(s5, ts));
            assert forall|i: int| 0 <= i < num_slots(s5, ts) implies record_wf(
                s5,
                tail_of(s5) as int,
                #[trigger] slot_at(s5, ts, i),
            ) by {
                let oi = slot_at(s1, ts, i);
                assert(slot_at(s5, ts, i) == oi);
                assert(record_wf(s1, tail0, oi));
                if i != idx {
                    assert(key_len_at(s5, slot_at(s1, ts, i)) == key_len_at(s1, oi));
                }
            }
            assert forall|i: int, j: int|
                0 <= i < num_slots(s5, ts) && 0 <= j < num_slots(s5, ts) && i != j implies records_disjoint(
                s5,
                #[trigger] slot_at(s5, ts, i),
                #[trigger] slot_at(s5, ts, j),
            ) by {
                let oi = slot_at(s1, ts, i);
                let oj = slot_at(s1, ts, j);
                assert(slot_at(s5, ts, i) == oi && slot_at(s5, ts, j) == oj);
                assert(records_disjoint(s1, oi, oj));
                assert(record_wf(s1, tail0, oi));
                assert(record_wf(s1, tail0, oj));
                if i != idx {
                    assert(key_len_at(s5, slot_at(s1, ts, i)) == key_len_at(s1, oi));
                }
                if j != idx {
                    assert(key_len_at(s5, slot_at(s1, ts, j)) == key_len_at(s1, oj));
                }
            }
            assert forall|i: int, j: int| 0 <= i < j < num_slots(s5, ts) implies lex_lt(
                key_bytes_at(s5, #[trigger] slot_at(s5, ts, i)),
                key_bytes_at(s5, #[trigger] slot_at(s5, ts, j)),
            ) by {
                let oi = slot_at(s1, ts, i);
                let oj = slot_at(s1, ts, j);
                assert(slot_at(s5, ts, i) == oi && slot_at(s5, ts, j) == oj);
                if i != idx {
                    assert(key_len_at(s5, slot_at(s1, ts, i)) == key_len_at(s1, oi));
                }
                if j != idx {
                    assert(key_len_at(s5, slot_at(s1, ts, j)) == key_len_at(s1, oj));
                }
                assert(key_bytes_at(s5, oi) == key_bytes_at(s1, oi));
                assert(key_bytes_at(s5, oj) == key_bytes_at(s1, oj));
                assert(lex_lt(key_bytes_at(s1, oi), key_bytes_at(s1, oj)));
            }
            assert(agree_outside3(
                s5,
                s0,
                13,
                17,
                vo,
                tail0,
                tombstone_pos(s0, o),
                key_span_end(s0, o),
            )) by {
                assert(tombstone_pos(s0, o) == o + 4 + klen);
                assert(key_span_end(s0, o) == o + 9 + klen);
                assert forall|x: int|
                    0 <= x < s0.len() && !(13 <= x < 17) && !(vo <= x < tail0) && !(o + 4 + klen
                        <= x < o + 9 + klen) implies s5[x] == s0[x] by {
                    assert(s1[x] == s0[x]);
                    assert(s5[x] == s1[x]);
                }
            }
            assert(leaf_entries(s5) =~= es.update(
                idx,
                (Entry { key: key@, deleted: false, value: value@ }),
            )) by {
                assert forall|j: int| 0 <= j < n && j != idx implies leaf_entries(s5)[j]
                    == es[j] by {
                    let oj = slot_at(s1, ts, j);
                    assert(leaf_entries(s5)[j] == entry_at(s5, slot_at(s5, ts, j)));
                    assert(key_len_at(s5, slot_at(s1, ts, j)) == key_len_at(s1, oj));
                    assert(leaf_entries(s1)[j] == entry_at(s1, slot_at(s1, ts, j)));
                    assert(es[j] == leaf_entries(s1)[j]);
                }
                assert(leaf_entries(s5)[idx] == entry_at(s5, o));
            }
            assert(leaf_entries(s5) == insert_effect(es, key@, value@));
        }
        true
    }

    /// Inserts the pair, or overrides the value under an already-present key
    /// (reviving it if tombstoned). Returns `false`, leaving every byte of
    /// the page as it was, exactly when the page lacks the free space the
    /// operation needs: a fresh value record for an override with new bytes,
    /// or key record, value record and directory slot for a new key.
    pub fn insert_key_value(&mut self, key: &[u8], value: &[u8]) -> (r: bool)
        requires
            old(self).wf(),
        ensures
            final(self).wf(),
            final(self)@.len() == old(self)@.len(),
            r <==> ({
                let es = old(self).entries();
                if has_key(es, key@) {
                    es[key_index(es, key@)].value == value@ || free_space_of(old(self)@)
                        >= value@.len() + 4
                } else {
                    free_space_of(old(self)@) >= 17 + key@.len() + value@.len()
                }
            }),
            r ==> leaf_entries(final(self)@) == insert_effect(old(self).entries(), key@, value@),
            !r ==> final(self)@ == old(self)@,
            spec_get(old(self).entries(), key@) == Some(value@) ==> final(self)@ == old(self)@,
            head_of(final(self)@) >= head_of(old(self)@),
            tail_of(final(self)@) <= tail_of(old(self)@),
    {
        let ghost s0 = self@;
        let ghost es = self.entries();
        let ghost ts = LEAF_SORTED_TABLE as int;
        let sorted_table = self.get_sorted_table();
        proof {
            lemma_leaf_entries_sorted(s0);
            lemma_table_searchable(s0, sorted_table@);
        }
        let search = self.page.binary_search(key, &sorted_table);
        let exist = search.0;
        let index = search.1;
        if exist {
            proof {
                assert(es[index as int] == entry_at(s0, slot_at(s0, ts, index as int)));
                assert(es[index as int].key == key@);
                lemma_key_index_unique(es, key@, index as int);
            }
            self.override_value(&sorted_table, index, key, value)
        } else {
            proof {
                assert(!has_key(es, key@)) by {
                    assert forall|i: int| 0 <= i < es.len() implies es[i].key != key@ by {
                        assert(es[i] == entry_at(s0, slot_at(s0, ts, i)));
                        assert(key_bytes_at(s0, sorted_table@[i] as int) != key@);
                    }
                }
            }
            insert_value(self, &sorted_table, index, key, value)
        }
    }
}

/// A page the engine wrote reopens intact: a byte sequence that is a
/// structurally sound leaf page passes the open-time validation, so `from`
/// accepts it with every byte as written, and every later lookup reads those
/// same bytes.
pub proof fn lemma_reopen_validates(s: Seq<u8>, length: int)
    requires
        leaf_wf(s),
        s.len() == length,
    ensures
        open_checks_pass(s, length, LEAF_HEADER, LEAF_SORTED_TABLE as int),
{
}

/// Writes a fresh key/value record pair and a directory slot for a key not
/// yet on the page, shifting the trailing slots right to keep the directory's
/// keys ascending. Fails, leaving the page untouched, when the heap and
/// directory lack room for the new records and slot.
#[verifier::rlimit(100)]
#[verifier::spinoff_prover]
fn insert_value(
    leaf: &mut LeafPage,
    sorted_table: &Vec<usize>,
    index: usize,
    key: &[u8],
    value: &[u8],
) -> (r: bool)
    requires
        old(leaf).wf(),
        table_matches(old(leaf)@, sorted_table@),
        index <= sorted_table@.len(),
        forall|i: int|
            0 <= i < index ==> lex_lt(
                key_bytes_at(old(leaf)@, #[trigger] sorted_table@[i] as int),
                key@,
            ),
        forall|i: int|
            index <= i < sorted_table@.len() ==> lex_lt(
                key@,
                key_bytes_at(old(leaf)@, #[trigger] sorted_table@[i] as int),
            ),
    ensures
        final(leaf).wf(),
        final(leaf)@.len() == old(leaf)@.len(),
        r <==> free_space_of(old(leaf)@) >= 17 + key@.len() + value@.len(),
        r ==> leaf_entries(final(leaf)@) == insert_effect(leaf_entries(old(leaf)@), key@, value@),
        !r ==> final(leaf)@ == old(leaf)@,
        head_of(final(leaf)@) >= head_of(old(leaf)@),
        tail_of(final(leaf)@) <= tail_of(old(leaf)@),
        r ==> ({
            let ts = LEAF_SORTED_TABLE as int;
            let n = leaf_entries(old(leaf)@).len() as int;
            let h0 = head_of(old(leaf)@) as int;
            let t0 = tail_of(old(leaf)@) as int;
            let ko = tail_of(final(leaf)@) as int;
            let vo = ko + 9 + key@.len();
            &&& head_of(final(leaf)@) == h0 + 4
            &&& ko == t0 - 13 - key@.len() - value@.len()
            &&& agree_outside3(
                final(leaf)@,
                old(leaf)@,
                9,
                17,
                ts + 4 * (index as int),
                h0 + 4,
                ko,
                t0,
            )
            &&& slot_at(final(leaf)@, ts, index as int) == ko
            &&& forall|i: int|
                0 <= i < index ==> #[trigger] slot_at(final(leaf)@, ts, i) == slot_at(
                    old(leaf)@,
                    ts,
                    i,
                )
            &&& forall|i: int|
                index < i <= n ==> #[trigger] slot_at(final(leaf)@, ts, i) == slot_at(
                    old(leaf)@,
                    ts,
                    i - 1,
                )
            &&& key_len_at(final(leaf)@, ko) == key@.len()
            &&& key_bytes_at(final(leaf)@, ko) == key@
            &&& final(leaf)@[tombstone_pos(final(leaf)@, ko)] == 0
            &&& value_ptr_at(final(leaf)@, ko) == vo
            &&& value_len_at(final(leaf)@, vo) == value@.len()
            &&& value_bytes_at(final(leaf)@, vo) == value@
        }),
{
    let ghost s0 = leaf@;
    let ghost es = leaf_entries(s0);
    let ghost ts = LEAF_SORTED_TABLE as int;
    let ghost n = num_slots(s0, ts);
    let ghost head0 = head_of(s0) as int;
    let ghost tail0 = tail_of(s0) as int;
    proof {
        lemma_leaf_entries_sorted(s0);
        assert(4 * n == head0 - ts);
        assert(!has_key(es, key@)) by {
            assert forall|i: int| 0 <= i < es.len() implies es[i].key != key@ by {
                assert(es[i] == entry_at(s0, slot_at(s0, ts, i)));
                assert(sorted_table@[i] as int == slot_at(s0, ts, i));
                if i < index {
                    lemma_lex_lt_asymmetric(key_bytes_at(s0, sorted_table@[i] as int), key@);
                } else {
                    lemma_lex_lt_asymmetric(key@, key_bytes_at(s0, sorted_table@[i] as int));
                }
            }
        }
        assert(insert_position(es, key@) == index) by {
            assert forall|i: int| 0 <= i < index implies lex_lt(#[trigger] es[i].key, key@) by {
                assert(es[i] == entry_at(s0, slot_at(s0, ts, i)));
                assert(sorted_table@[i] as int == slot_at(s0, ts, i));
            }
            assert forall|i: int| index <= i < es.len() implies lex_lt(key@, #[trigger] es[i].key) by {
                assert(es[i] == entry_at(s0, slot_at(s0, ts, i)));
                assert(sorted_table@[i] as int == slot_at(s0, ts, i));
            }
            lemma_position_from_partition(es, key@, index as int);
        }
    }
    let key_len = key.len();
    let value_len = value.len();
    let free_space = leaf.page.get_free_space() as usize;
    if free_space < 17 || free_space - 17 < key_len || free_space - 17 - key_len < value_len {
        return false;
    }
    // the value record, below the old tail
    let alloc_value = leaf.page.allocate_space_tail(leaf.get_value_required_space(value));
    proof {
        assert(alloc_value is Some);
    }
    let new_value_offset = match alloc_value {
        Some(offset) => offset,
        None => 0,
    };
    let ghost vo = new_value_offset as int;
    let ghost s_a = leaf@;
    leaf.page.write_u32(new_value_offset, value_len as u32);
    let ghost s_b = leaf@;
    leaf.page.write_bytes(new_value_offset + 4, value);
    let ghost s_c = leaf@;
    proof {
        let v = value@.len() as int;
        lemma_le32_frame(s_b, s_a, vo, vo + 4, DATA_HEAD_POS as int);
        lemma_le32_frame(s_b, s_a, vo, vo + 4, DATA_TAIL_POS as int);
        lemma_le32_frame(s_c, s_b, vo + 4, vo + 4 + v, DATA_HEAD_POS as int);
        lemma_le32_frame(s_c, s_b, vo + 4, vo + 4 + v, DATA_TAIL_POS as int);
        assert(head_of(s_c) == head0 && tail_of(s_c) == vo);
    }
    // the key record, below the value record
    let alloc_key = leaf.page.allocate_space_tail(leaf.get_key_required_space(key));
    proof {
        assert(alloc_key is Some);
    }
    let new_key_offset = match alloc_key {
        Some(offset) => offset,
        None => 0,
    };
    let ghost ko = new_key_offset as int;
    let ghost tail2 = ko;
    let ghost s_d = leaf@;
    leaf.page.write_u32(new_key_offset, key_len as u32);
    let ghost s_e = leaf@;
    leaf.page.write_bytes(new_key_offset + 4, key);
    let ghost s_f = leaf@;
    leaf.page.write_u8(new_key_offset + 4 + key_len, 0);
    let ghost s_g = leaf@;
    let value_position = leaf.get_value_offset_position(new_key_offset, key_len);
    leaf.page.write_u32(value_position, new_value_offset as u32);
    let ghost s_r = leaf@;
    proof {
        let k = key@.len() as int;
        let v = value@.len() as int;
        assert(vo == tail0 - 4 - v);
        assert(ko == vo - 9 - k);
        assert(agree_outside(s_g, s_f, ko + 4 + k, ko + 5 + k));
        // nothing below the new records moved
        assert(agree_outside3(s_r, s0, 13, 17, tail2, tail0, 0, 0)) by {
            assert forall|x: int|
                0 <= x < s0.len() && !(13 <= x < 17) && !(tail2 <= x < tail0) implies s_r[x]
                == s0[x] by {
                assert(s_a[x] == s0[x]);
                assert(s_b[x] == s_a[x]);
                assert(s_c[x] == s_b[x]);
                assert(s_d[x] == s_c[x]);
                assert(s_e[x] == s_d[x]);
                assert(s_f[x] == s_e[x]);
                assert(s_g[x] == s_f[x]);
                assert(s_r[x] == s_g[x]);
            }
        }
        // header and offset fields
        assert(s_r[0] == s0[0]);
        lemma_le32_frame3(s_r, s0, 13, 17, tail2, tail0, 0, 0, 1);
        lemma_le32_frame3(s_r, s0, 13, 17, tail2, tail0, 0, 0, DATA_HEAD_POS as int);
        assert(head_of(s_r) == head0 && capacity_of(s_r) == capacity_of(s0) && header_of(s_r)
            == header_of(s0));
        assert(tail_of(s_r) == tail2) by {
            lemma_le32_frame(s_e, s_d, ko, ko + 4, DATA_TAIL_POS as int);
            lemma_subrange_frame(s_f, s_e, ko + 4, ko + 4 + k, 13, 17);
            lemma_subrange_frame(s_g, s_f, ko + 4 + k, ko + 5 + k, 13, 17);
            lemma_le32_frame(s_r, s_g, ko + 5 + k, ko + 9 + k, DATA_TAIL_POS as int);
        }
        // the untouched slot table
        assert forall|i: int| 0 <= i < n implies #[trigger] slot_at(s_r, ts, i) == slot_at(
            s0,
            ts,
            i,
        ) by {
            assert(4 * i + 4 <= 4 * n);
            lemma_le32_frame3(s_r, s0, 13, 17, tail2, tail0, 0, 0, ts + 4 * i);
        }
        // the fresh key record
        assert(key_len_at(s_r, ko) == k) by {
            lemma_le32_frame(s_f, s_e, ko + 4, ko + 4 + k, ko);
            lemma_le32_frame(s_g, s_f, ko + 4 + k, ko + 5 + k, ko);
            lemma_le32_frame(s_r, s_g, ko + 5 + k, ko + 9 + k, ko);
        }
        assert(key_bytes_at(s_r, ko) == key@) by {
            lemma_subrange_frame(s_g, s_f, ko + 4 + k, ko + 5 + k, ko + 4, ko + 4 + k);
            lemma_subrange_frame(s_r, s_g, ko + 5 + k, ko + 9 + k, ko + 4, ko + 4 + k);
        }
        assert(!deleted_at(s_r, ko)) by {
            assert(s_g[ko + 4 + k] == 0);
            assert(s_r[ko + 4 + k] == 0);
        }
        assert(value_ptr_at(s_r, ko) == vo) by {
            assert(value_ptr_pos(s_r, ko) == ko + 5 + k);
        }
        // the fresh value record
        assert(agree_outside3(s_r, s_c, 13, 17, ko, vo, 0, 0)) by {
            assert forall|x: int|
                0 <= x < s0.len() && !(13 <= x < 17) && !(ko <= x < vo) implies s_r[x]
                == s_c[x] by {
                assert(s_d[x] == s_c[x]);
                assert(s_e[x] == s_d[x]);
                assert(s_f[x] == s_e[x]);
                assert(s_g[x] == s_f[x]);
                assert(s_r[x] == s_g[x]);
            }
        }
        assert(value_len_at(s_r, vo) == v) by {
            lemma_le32_frame(s_c, s_b, vo + 4, vo + 4 + v, vo);
            lemma_le32_frame3(s_r, s_c, 13, 17, ko, vo, 0, 0, vo);
        }
        assert(value_bytes_at(s_r, vo) == value@) by {
            lemma_subrange_frame3(s_r, s_c, 13, 17, ko, vo, 0, 0, vo + 4, vo + 4 + v);
        }
        assert(entry_at(s_r, ko) =~= (Entry { key: key@, deleted: false, value: value@ }));
    }
    // the new directory slot
    let alloc_slot = leaf.page.allocate_space_head(4);
    proof {
        assert(alloc_slot is Some);
    }
    let new_key_index_offset = match alloc_slot {
        Some(offset) => offset,
        None => 0,
    };
    let ghost s_h = leaf@;
    if index == sorted_table.len() {
        leaf.page.write_u32(new_key_index_offset, new_key_offset as u32);
        proof {
            let sz = leaf@;
            let mo = ts + 4 * (index as int);
            assert(mo == head0);
            assert(agree_outside3(sz, s_r, 9, 13, mo, head0 + 4, 0, 0)) by {
                assert forall|x: int|
                    0 <= x < s0.len() && !(9 <= x < 13) && !(mo <= x < head0 + 4) implies sz[x]
                    == s_r[x] by {
                    assert(s_h[x] == s_r[x]);
                    assert(sz[x] == s_h[x]);
                }
            }
            assert(head_of(sz) == head0 + 4) by {
                lemma_le32_frame(sz, s_h, head0, head0 + 4, DATA_HEAD_POS as int);
            }
            assert(tail_of(sz) == tail_of(s_r) && capacity_of(sz) == capacity_of(s_r) && sz[0]
                == s_r[0]) by {
                lemma_le32_frame(s_h, s_r, 9, 13, DATA_TAIL_POS as int);
                lemma_le32_frame(s_h, s_r, 9, 13, 1);
                lemma_le32_frame(sz, s_h, head0, head0 + 4, DATA_TAIL_POS as int);
                lemma_le32_frame(sz, s_h, head0, head0 + 4, 1);
            }
            assert forall|i: int| 0 <= i < index implies #[trigger] slot_at(sz, ts, i) == slot_at(
                s0,
                ts,
                i,
            ) by {
                assert(4 * i + 4 <= 4 * (index as int));
                lemma_le32_frame(s_h, s_r, 9, 13, ts + 4 * i);
                lemma_le32_frame(sz, s_h, head0, head0 + 4, ts + 4 * i);
                assert(slot_at(s_r, ts, i) == slot_at(s0, ts, i));
            }
            assert(slot_at(sz, ts, index as int) == ko);
        }
    } else {
        let move_offset = LEAF_SORTED_TABLE + 4 * index;
        proof {
            assert(4 * (index as int) + 4 <= 4 * n);
        }
        let bytes_to_move = leaf.page.read_bytes(
            move_offset,
            (sorted_table.len() - index) * 4,
        );
        let ghost mo = move_offset as int;
        let ghost block_len = 4 * (n - index as int);
        proof {
            assert(bytes_to_move@ == s_h.subrange(mo, mo + block_len));
            assert(s_h.subrange(mo, mo + block_len) == s0.subrange(mo, mo + block_len)) by {
                lemma_subrange_frame(s_h, s_r, 9, 13, mo, mo + block_len);
                lemma_subrange_frame3(s_r, s0, 13, 17, tail2, tail0, 0, 0, mo, mo + block_len);
            }
        }
        leaf.page.write_bytes(move_offset + 4, bytes_to_move.as_slice());
        let ghost s_j = leaf@;
        leaf.page.write_u32(move_offset, new_key_offset as u32);
        proof {
            let sz = leaf@;
            assert(agree_outside3(sz, s_r, 9, 13, mo, head0 + 4, 0, 0)) by {
                assert(mo + 4 + block_len == head0 + 4);
                assert forall|x: int|
                    0 <= x < s0.len() && !(9 <= x < 13) && !(mo <= x < head0 + 4) implies sz[x]
                    == s_r[x] by {
                    assert(s_h[x] == s_r[x]);
                    assert(s_j[x] == s_h[x]);
                    assert(sz[x] == s_j[x]);
                }
            }
            assert(head_of(sz) == head0 + 4) by {
                lemma_le32_frame(s_j, s_h, mo + 4, mo + 4 + block_len, DATA_HEAD_POS as int);
                lemma_le32_frame(sz, s_j, mo, mo + 4, DATA_HEAD_POS as int);
            }
            assert(tail_of(sz) == tail_of(s_r) && capacity_of(sz) == capacity_of(s_r) && sz[0]
                == s_r[0]) by {
                lemma_le32_frame(s_h, s_r, 9, 13, DATA_TAIL_POS as int);
                lemma_le32_frame(s_h, s_r, 9, 13, 1);
                lemma_le32_frame(s_j, s_h, mo + 4, mo + 4 + block_len, DATA_TAIL_POS as int);
                lemma_le32_frame(s_j, s_h, mo + 4, mo + 4 + block_len, 1);
                lemma_le32_frame(sz, s_j, mo, mo + 4, DATA_TAIL_POS as int);
                lemma_le32_frame(sz, s_j, mo, mo + 4, 1);
            }
            assert forall|i: int| 0 <= i < index implies #[trigger] slot_at(sz, ts, i) == slot_at(
                s0,
                ts,
                i,
            ) by {
                assert(4 * i + 4 <= 4 * (index as int));
                lemma_le32_frame(s_h, s_r, 9, 13, ts + 4 * i);
                lemma_le32_frame(s_j, s_h, mo + 4, mo + 4 + block_len, ts + 4 * i);
                lemma_le32_frame(sz, s_j, mo, mo + 4, ts + 4 * i);
                assert(slot_at(s_r, ts, i) == slot_at(s0, ts, i));
            }
            assert(slot_at(sz, ts, index as int) == ko);
            assert forall|i: int| index < i <= n implies #[trigger] slot_at(sz, ts, i) == slot_at(
                s0,
                ts,
                i - 1,
            ) by {
                let p = ts + 4 * i;
                assert(mo + 4 <= p && p + 4 <= mo + 4 + block_len);
                assert(mo + 4 + block_len == head0 + 4 <= tail2 <= s0.len());
                assert(s_j.len() == s0.len());
                assert forall|x: int| 0 <= x < 4 implies #[trigger] s_j[p + x] == s0[p - 4
                    + x] by {
                    assert(s_j[p + x] == s_j.subrange(mo + 4, mo + 4 + block_len)[p + x - (mo
                        + 4)]);
                    assert(bytes_to_move@[p + x - (mo + 4)] == s0.subrange(mo, mo + block_len)[p
                        + x - (mo + 4)]);
                }
                assert forall|q: int| 0 <= q < 4 implies #[trigger] s_j.subrange(p, p + 4)[q]
                    == s0.subrange(p - 4, p)[q] by {
                    assert(s_j.subrange(p, p + 4)[q] == s_j[p + q]);
                    assert(s0.subrange(p - 4, p)[q] == s0[p - 4 + q]);
                }
                assert(s_j.subrange(p, p + 4) =~= s0.subrange(p - 4, p));
                lemma_subrange_frame(sz, s_j, mo, mo + 4, p, p + 4);
                assert(sz.subrange(p, p + 4) == s0.subrange(p - 4, p));
            }
        }
    }
    proof {
        let sz = leaf@;
        let k = key@.len() as int;
        let v = value@.len() as int;
        let mo = ts + 4 * (index as int);
        assert(head_of(sz) == head0 + 4 && tail_of(sz) == tail2 && capacity_of(sz)
            == capacity_of(s0) && header_of(sz) == header_of(s0) && sz.len() == s0.len());
        assert(num_slots(sz, ts) == n + 1);
        assert(agree_outside3(sz, s0, 9, 17, mo, head0 + 4, tail2, tail0)) by {
            assert(agree_outside3(sz, s_r, 9, 13, mo, head0 + 4, 0, 0));
            assert(agree_outside3(s_r, s0, 13, 17, tail2, tail0, 0, 0));
            assert forall|x: int|
                0 <= x < s0.len() && !(9 <= x < 17) && !(mo <= x < head0 + 4) && !(tail2 <= x
                    < tail0) implies sz[x] == s0[x] by {
                assert(s_r[x] == s0[x]);
                assert(sz[x] == s_r[x]);
            }
        }
        // the fresh records kept their bytes across the directory writes
        assert(key_len_at(sz, ko) == k && key_bytes_at(sz, ko) == key@ && !deleted_at(sz, ko)
            && value_ptr_at(sz, ko) == vo && value_len_at(sz, vo) == v && value_bytes_at(sz, vo)
            == value@) by {
            lemma_record_frame3(sz, s_r, 9, 13, mo, head0 + 4, 0, 0, ko);
        }
        assert(entry_at(sz, ko) =~= (Entry { key: key@, deleted: false, value: value@ }));
        assert(sz[ko + 4 + k] == 0);
        assert(tombstone_pos(sz, ko) == ko + 4 + k);
        // the old records kept theirs across everything
        assert forall|j: int| 0 <= j < n implies {
            let oj = slot_at(s0, ts, j);
            &&& key_len_at(sz, #[trigger] slot_at(s0, ts, j)) == key_len_at(s0, oj)
            &&& key_bytes_at(sz, oj) == key_bytes_at(s0, oj)
            &&& deleted_at(sz, oj) == deleted_at(s0, oj)
            &&& value_ptr_at(sz, oj) == value_ptr_at(s0, oj)
            &&& value_len_at(sz, value_ptr_at(s0, oj)) == value_len_at(s0, value_ptr_at(s0, oj))
            &&& entry_at(sz, oj) == entry_at(s0, oj)
        } by {
            let oj = slot_at(s0, ts, j);
            assert(record_wf(s0, tail0, oj));
            lemma_record_frame3(sz, s0, 9, 17, mo, head0 + 4, tail2, tail0, oj);
        }
        // structure is intact
        assert(offsets_wf(sz, ts));
        assert((head_of(sz) as int - ts) % 4 == 0);
        assert forall|i: int| 0 <= i < num_slots(sz, ts) implies record_wf(
            sz,
            tail_of(sz) as int,
            #[trigger] slot_at(sz, ts, i),
        ) by {
            if i < index {
                assert(slot_at(sz, ts, i) == slot_at(s0, ts, i));
                assert(key_len_at(sz, slot_at(s0, ts, i)) == key_len_at(s0, slot_at(s0, ts, i)));
                assert(record_wf(s0, tail0, slot_at(s0, ts, i)));
            } else if i == index {
                assert(slot_at(sz, ts, i) == ko);
            } else {
                assert(slot_at(sz, ts, i) == slot_at(s0, ts, i - 1));
                assert(key_len_at(sz, slot_at(s0, ts, i - 1)) == key_len_at(
                    s0,
                    slot_at(s0, ts, i - 1),
                ));
                assert(record_wf(s0, tail0, slot_at(s0, ts, i - 1)));
            }
        }
        assert forall|i: int, j: int|
            0 <= i < num_slots(sz, ts) && 0 <= j < num_slots(sz, ts) && i != j implies records_disjoint(
            sz,
            #[trigger] slot_at(sz, ts, i),
            #[trigger] slot_at(sz, ts, j),
        ) by {
            let oi0 = if i < index {
                slot_at(s0, ts, i)
            } else if i == index {
                ko
            } else {
                slot_at(s0, ts, i - 1)
            };
            let oj0 = if j < index {
                slot_at(s0, ts, j)
            } else if j == index {
                ko
            } else {
                slot_at(s0, ts, j - 1)
            };
            assert(slot_at(sz, ts, i) == oi0 && slot_at(sz, ts, j) == oj0);
            if i != index {
                let i0 = if i < index {
                    i
                } else {
                    i - 1
                };
                assert(key_len_at(sz, slot_at(s0, ts, i0)) == key_len_at(s0, slot_at(s0, ts, i0)));
                assert(record_wf(s0, tail0, slot_at(s0, ts, i0)));
            }
            if j != index {
                let j0 = if j < index {
                    j
                } else {
                    j - 1
                };
                assert(key_len_at(sz, slot_at(s0, ts, j0)) == key_len_at(s0, slot_at(s0, ts, j0)));
                assert(record_wf(s0, tail0, slot_at(s0, ts, j0)));
            }
            if i != index && j != index {
                let i0 = if i < index {
                    i
                } else {
                    i - 1
                };
                let j0 = if j < index {
                    j
                } else {
                    j - 1
                };
                assert(records_disjoint(s0, slot_at(s0, ts, i0), slot_at(s0, ts, j0)));
            }
        }
        assert forall|i: int, j: int| 0 <= i < j < num_slots(sz, ts) implies lex_lt(
            key_bytes_at(sz, #[trigger] slot_at(sz, ts, i)),
            key_bytes_at(sz, #[trigger] slot_at(sz, ts, j)),
        ) by {
            if i < index {
                assert(slot_at(sz, ts, i) == slot_at(s0, ts, i));
                assert(key_bytes_at(sz, slot_at(s0, ts, i)) == key_bytes_at(s0, slot_at(s0, ts, i)));
                assert(sorted_table@[i] as int == slot_at(s0, ts, i));
            } else if i == index {
                assert(key_bytes_at(sz, slot_at(sz, ts, i)) == key@);
            } else {
                assert(slot_at(sz, ts, i) == slot_at(s0, ts, i - 1));
                assert(key_bytes_at(sz, slot_at(s0, ts, i - 1)) == key_bytes_at(
                    s0,
                    slot_at(s0, ts, i - 1),
                ));
                assert(sorted_table@[i - 1] as int == slot_at(s0, ts, i - 1));
            }
            if j < index {
                assert(slot_at(sz, ts, j) == slot_at(s0, ts, j));
                assert(key_bytes_at(sz, slot_at(s0, ts, j)) == key_bytes_at(s0, slot_at(s0, ts, j)));
                assert(sorted_table@[j] as int == slot_at(s0, ts, j));
            } else if j == index {
                assert(key_bytes_at(sz, slot_at(sz, ts, j)) == key@);
            } else {
                assert(slot_at(sz, ts, j) == slot_at(s0, ts, j - 1));
                assert(key_bytes_at(sz, slot_at(s0, ts, j - 1)) == key_bytes_at(
                    s0,
                    slot_at(s0, ts, j - 1),
                ));
                assert(sorted_table@[j - 1] as int == slot_at(s0, ts, j - 1));
            }
        }
        // the entries are the old ones with the new pair at its sorted slot
        let e = Entry { key: key@, deleted: false, value: value@ };
        es.insert_ensures(index as int, e);
        assert(leaf_entries(sz) =~= es.insert(index as int, e)) by {
            assert forall|x: int| 0 <= x < n + 1 implies leaf_entries(sz)[x] == es.insert(
                index as int,
                e,
            )[x] by {
                assert(leaf_entries(sz)[x] == entry_at(sz, slot_at(sz, ts, x)));
                if x < index {
                    assert(es[x] == entry_at(s0, slot_at(s0, ts, x)));
                    assert(es.insert(index as int, e)[x] == es[x]);
                } else if x > index {
                    assert(es[x - 1] == entry_at(s0, slot_at(s0, ts, x - 1)));
                    assert(es.insert(index as int, e)[(x - 1) + 1] == es[x - 1]);
                } else {
                    assert(es.insert(index as int, e)[x] == e);
                }
            }
        }
        assert(leaf_entries(sz) == insert_effect(es, key@, value@));
    }
    true
}

/// Byte-for-byte equality of two byte slices.
fn bytes_eq(a: &[u8], b: &[u8]) -> (r: bool)
    ensures
        r == (a@ == b@),
{
    if a.len() != b.len() {
        proof {
            assert(a@ != b@) by {
                assert(a@.len() != b@.len());
            }
        }
        return false;
    }
    let mut i: usize = 0;
    while i < a.len()
        invariant
            i <= a@.len(),
            a@.len() == b@.len(),
            forall|j: int| 0 <= j < i ==> a@[j] == b@[j],
        decreases a@.len() - i,
    {
        if a[i] != b[i] {
            return false;
        }
        i = i + 1;
    }
    proof {
        assert(a@ =~= b@);
    }
    true
}

/// Flipping the tombstone byte of slot `idx` rewrites exactly that entry's
/// flag: every field of every other entry, every key and value, the header
/// and offset fields, and the whole directory structure stay as they were.
pub proof fn lemma_tombstone_update(s: Seq<u8>, idx: int, flag: u8)
    requires
        directory_wf(s, LEAF_SORTED_TABLE as int),
        0 <= idx < num_slots(s, LEAF_SORTED_TABLE as int),
    ensures
        ({
            let o = slot_at(s, LEAF_SORTED_TABLE as int, idx);
            let s2 = s.update(tombstone_pos(s, o), flag);
            &&& directory_wf(s2, LEAF_SORTED_TABLE as int)
            &&& header_of(s2) == header_of(s)
            &&& capacity_of(s2) == capacity_of(s)
            &&& head_of(s2) == head_of(s)
            &&& tail_of(s2) == tail_of(s)
            &&& forall|i: int|
                0 <= i < num_slots(s, LEAF_SORTED_TABLE as int) ==> #[trigger] slot_at(
                    s2,
                    LEAF_SORTED_TABLE as int,
                    i,
                ) == slot_at(s, LEAF_SORTED_TABLE as int, i)
            &&& key_len_at(s2, o) == key_len_at(s, o)
            &&& key_bytes_at(s2, o) == key_bytes_at(s, o)
            &&& deleted_at(s2, o) == (flag == 1)
            &&& value_ptr_at(s2, o) == value_ptr_at(s, o)
            &&& leaf_entries(s2) == leaf_entries(s).update(
                idx,
                (Entry {
                    key: key_bytes_at(s, o),
                    deleted: flag == 1,
                    value: value_bytes_at(s, value_ptr_at(s, o)),
                }),
            )
        }),
{
    let ts = LEAF_SORTED_TABLE as int;
    let o = slot_at(s, ts, idx);
    let k = key_len_at(s, o);
    let d = tombstone_pos(s, o);
    let s2 = s.update(d, flag);
    assert(record_wf(s, tail_of(s) as int, o));
    assert(o + 4 <= d < key_span_end(s, o));
    assert(agree_outside(s2, s, d, d + 1));
    // header and offset fields lie below the heap
    lemma_le32_frame(s2, s, d, d + 1, 1);
    lemma_le32_frame(s2, s, d, d + 1, DATA_HEAD_POS as int);
    lemma_le32_frame(s2, s, d, d + 1, DATA_TAIL_POS as int);
    // the slot table lies below the heap
    assert forall|i: int| 0 <= i < num_slots(s, ts) implies slot_at(s2, ts, i) == slot_at(
        s,
        ts,
        i,
    ) by {
        assert(4 * i + 4 <= 4 * num_slots(s, ts));
        lemma_le32_frame(s2, s, d, d + 1, ts + 4 * i);
    }
    // the record at idx keeps everything but its flag
    lemma_le32_frame(s2, s, d, d + 1, o);
    assert(key_len_at(s2, o) == k);
    lemma_subrange_frame(s2, s, d, d + 1, o + 4, o + 4 + k);
    assert(key_bytes_at(s2, o) == key_bytes_at(s, o));
    assert(deleted_at(s2, o) == (flag == 1));
    lemma_le32_frame(s2, s, d, d + 1, value_ptr_pos(s, o));
    let v = value_ptr_at(s, o);
    assert(value_ptr_at(s2, o) == v);
    lemma_le32_frame(s2, s, d, d + 1, v);
    lemma_subrange_frame(s2, s, d, d + 1, v + 4, v + 4 + value_len_at(s, v));
    assert(value_bytes_at(s2, v) == value_bytes_at(s, v));
    // every other record is untouched
    assert forall|j: int|
        0 <= j < num_slots(s, ts) && j != idx implies entry_at(s2, slot_at(s, ts, j)) == entry_at(
        s,
        slot_at(s, ts, j),
    ) && record_wf(s2, tail_of(s) as int, slot_at(s, ts, j)) by {
        let oj = slot_at(s, ts, j);
        assert(records_disjoint(s, oj, o));
        assert(record_wf(s, tail_of(s) as int, oj));
        lemma_record_frame(s2, s, d, d + 1, oj);
    }
    assert(record_wf(s2, tail_of(s) as int, o));
    assert forall|i: int, j: int|
        0 <= i < num_slots(s2, ts) && 0 <= j < num_slots(s2, ts) && i != j implies records_disjoint(
        s2,
        #[trigger] slot_at(s2, ts, i),
        #[trigger] slot_at(s2, ts, j),
    ) by {
        let oi = slot_at(s, ts, i);
        let oj = slot_at(s, ts, j);
        assert(records_disjoint(s, oi, oj));
        if i != idx {
            lemma_record_frame(s2, s, d, d + 1, oi);
        }
        if j != idx {
            lemma_record_frame(s2, s, d, d + 1, oj);
        }
    }
    assert forall|i: int, j: int| 0 <= i < j < num_slots(s2, ts) implies lex_lt(
        key_bytes_at(s2, #[trigger] slot_at(s2, ts, i)),
        key_bytes_at(s2, #[trigger] slot_at(s2, ts, j)),
    ) by {
        let oi = slot_at(s, ts, i);
        let oj = slot_at(s, ts, j);
        if i != idx {
            lemma_record_frame(s2, s, d, d + 1, oi);
        }
        if j != idx {
            lemma_record_frame(s2, s, d, d + 1, oj);
        }
    }
    assert(leaf_entries(s2) =~= leaf_entries(s).update(
        idx,
        (Entry { key: key_bytes_at(s, o), deleted: flag == 1, value: value_bytes_at(s, v) }),
    ));
}

} // verus!
