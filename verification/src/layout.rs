//! The binary page layout, as specification functions over the page's bytes.
//!
//! All integer fields are 32-bit little-endian. The fixed header is
//! `[header:1][capacity:4][parent:4][data_head_offset:4][data_tail_offset:4]`;
//! the slot directory grows upward from a page-kind-specific table start, and
//! key/value records grow downward from the page's end.

use vstd::bytes::*;
use vstd::prelude::*;

verus! {

pub const HEADER_POS: usize = 0;

pub const CAPACITY_POS: usize = 1;

pub const PARENT_POS: usize = 5;

pub const DATA_HEAD_POS: usize = 9;

pub const DATA_TAIL_POS: usize = 13;

/// The 32-bit little-endian integer stored at byte offset `off`.
pub open spec fn le32_at(s: Seq<u8>, off: int) -> u32 {
    spec_u32_from_le_bytes(s.subrange(off, off + 4))
}

pub open spec fn header_of(s: Seq<u8>) -> u8 {
    s[HEADER_POS as int]
}

pub open spec fn capacity_of(s: Seq<u8>) -> u32 {
    le32_at(s, CAPACITY_POS as int)
}

pub open spec fn head_of(s: Seq<u8>) -> u32 {
    le32_at(s, DATA_HEAD_POS as int)
}

pub open spec fn tail_of(s: Seq<u8>) -> u32 {
    le32_at(s, DATA_TAIL_POS as int)
}

/// Bytes still unclaimed between the slot directory and the record heap.
pub open spec fn free_space_of(s: Seq<u8>) -> int {
    tail_of(s) - head_of(s)
}

/// The header and offset fields are mutually consistent: the capacity field
/// matches the region length and the directory and heap bounds are ordered.
pub open spec fn offsets_wf(s: Seq<u8>, table_start: int) -> bool {
    &&& 17 <= table_start <= s.len()
    &&& s.len() <= u32::MAX
    &&& capacity_of(s) == s.len()
    &&& table_start <= head_of(s) as int
    &&& head_of(s) <= tail_of(s)
    &&& tail_of(s) as int <= s.len()
}

/// Number of entries in the slot directory.
pub open spec fn num_slots(s: Seq<u8>, table_start: int) -> int {
    (head_of(s) as int - table_start) / 4
}

/// The heap offset stored in directory slot `i`.
pub open spec fn slot_at(s: Seq<u8>, table_start: int, i: int) -> int {
    le32_at(s, table_start + 4 * i) as int
}

/// `s2` may differ from `s1` only inside the half-open byte range `[lo, hi)`.
pub open spec fn agree_outside(s2: Seq<u8>, s1: Seq<u8>, lo: int, hi: int) -> bool {
    &&& s2.len() == s1.len()
    &&& forall|i: int| 0 <= i < s1.len() && !(lo <= i < hi) ==> s2[i] == s1[i]
}

pub proof fn lemma_subrange_frame(s2: Seq<u8>, s1: Seq<u8>, lo: int, hi: int, a: int, b: int)
    requires
        agree_outside(s2, s1, lo, hi),
        0 <= a <= b <= s1.len(),
        b <= lo || hi <= a,
    ensures
        s2.subrange(a, b) == s1.subrange(a, b),
{
    assert(s2.subrange(a, b) =~= s1.subrange(a, b));
}

pub proof fn lemma_le32_frame(s2: Seq<u8>, s1: Seq<u8>, lo: int, hi: int, off: int)
    requires
        agree_outside(s2, s1, lo, hi),
        0 <= off,
        off + 4 <= s1.len(),
        off + 4 <= lo || hi <= off,
    ensures
        le32_at(s2, off) == le32_at(s1, off),
{
    lemma_subrange_frame(s2, s1, lo, hi, off, off + 4);
}

/// `s2` may differ from `s1` only inside one of three half-open byte ranges.
pub open spec fn agree_outside3(
    s2: Seq<u8>,
    s1: Seq<u8>,
    a1: int,
    b1: int,
    a2: int,
    b2: int,
    a3: int,
    b3: int,
) -> bool {
    &&& s2.len() == s1.len()
    &&& forall|i: int|
        0 <= i < s1.len() && !(a1 <= i < b1) && !(a2 <= i < b2) && !(a3 <= i < b3) ==> s2[i]
            == s1[i]
}

pub proof fn lemma_subrange_frame3(
    s2: Seq<u8>,
    s1: Seq<u8>,
    a1: int,
    b1: int,
    a2: int,
    b2: int,
    a3: int,
    b3: int,
    x: int,
    y: int,
)
    requires
        agree_outside3(s2, s1, a1, b1, a2, b2, a3, b3),
        0 <= x <= y <= s1.len(),
        span_disjoint(x, y, a1, b1),
        span_disjoint(x, y, a2, b2),
        span_disjoint(x, y, a3, b3),
    ensures
        s2.subrange(x, y) == s1.subrange(x, y),
{
    assert(s2.subrange(x, y) =~= s1.subrange(x, y));
}

pub proof fn lemma_le32_frame3(
    s2: Seq<u8>,
    s1: Seq<u8>,
    a1: int,
    b1: int,
    a2: int,
    b2: int,
    a3: int,
    b3: int,
    off: int,
)
    requires
        agree_outside3(s2, s1, a1, b1, a2, b2, a3, b3),
        0 <= off,
        off + 4 <= s1.len(),
        span_disjoint(off, off + 4, a1, b1),
        span_disjoint(off, off + 4, a2, b2),
        span_disjoint(off, off + 4, a3, b3),
    ensures
        le32_at(s2, off) == le32_at(s1, off),
{
    lemma_subrange_frame3(s2, s1, a1, b1, a2, b2, a3, b3, off, off + 4);
}

/// Byte-lexicographic order on byte sequences: a proper prefix sorts before
/// its extension, otherwise the first differing byte decides.
pub open spec fn lex_lt(a: Seq<u8>, b: Seq<u8>) -> bool
    decreases a.len(),
{
    if b.len() == 0 {
        false
    } else if a.len() == 0 {
        true
    } else if a[0] < b[0] {
        true
    } else if a[0] > b[0] {
        false
    } else {
        lex_lt(a.drop_first(), b.drop_first())
    }
}

pub proof fn lemma_lex_lt_asymmetric(a: Seq<u8>, b: Seq<u8>)
    requires
        lex_lt(a, b),
    ensures
        !lex_lt(b, a),
        a != b,
    decreases a.len(),
{
    if b.len() == 0 {
    } else if a.len() == 0 {
    } else if a[0] < b[0] {
    } else if a[0] > b[0] {
    } else {
        lemma_lex_lt_asymmetric(a.drop_first(), b.drop_first());
        assert(a != b) by {
            assert(a.drop_first() != b.drop_first());
        }
    }
}

pub proof fn lemma_lex_lt_irreflexive(a: Seq<u8>)
    ensures
        !lex_lt(a, a),
    decreases a.len(),
{
    if a.len() > 0 {
        lemma_lex_lt_irreflexive(a.drop_first());
    }
}

pub proof fn lemma_lex_lt_trans(a: Seq<u8>, b: Seq<u8>, c: Seq<u8>)
    requires
        lex_lt(a, b),
        lex_lt(b, c),
    ensures
        lex_lt(a, c),
    decreases a.len(),
{
    if a.len() == 0 {
        if c.len() == 0 {
            assert(!lex_lt(b, c));
        }
    } else if b.len() == 0 {
    } else if c.len() == 0 {
    } else {
        if a[0] == b[0] && b[0] == c[0] {
            lemma_lex_lt_trans(a.drop_first(), b.drop_first(), c.drop_first());
        }
    }
}

pub proof fn lemma_lex_lt_total(a: Seq<u8>, b: Seq<u8>)
    requires
        !lex_lt(a, b),
        !lex_lt(b, a),
    ensures
        a == b,
    decreases a.len(),
{
    if b.len() == 0 {
        assert(a.len() == 0);
        assert(a =~= b);
    } else if a.len() == 0 {
    } else {
        lemma_lex_lt_total(a.drop_first(), b.drop_first());
        assert(a =~= b) by {
            assert(a[0] == b[0]);
            assert(a.drop_first().len() == a.len() - 1);
            assert(b.drop_first().len() == b.len() - 1);
            assert(a.len() == b.len());
            assert forall|i: int| 0 < i < a.len() implies a[i] == b[i] by {
                assert(a[i] == a.drop_first()[i - 1]);
                assert(b[i] == b.drop_first()[i - 1]);
            }
        }
    }
}

/// If two sequences agree on a common prefix and then differ, the one with
/// the smaller byte at the first difference is lexicographically smaller.
pub proof fn lemma_lex_lt_from_diff(a: Seq<u8>, b: Seq<u8>, j: int)
    requires
        0 <= j < a.len(),
        j < b.len(),
        a.subrange(0, j) == b.subrange(0, j),
        a[j] < b[j],
    ensures
        lex_lt(a, b),
    decreases j,
{
    if j == 0 {
    } else {
        assert(a[0] == b[0]) by {
            assert(a.subrange(0, j)[0] == a[0]);
            assert(b.subrange(0, j)[0] == b[0]);
        }
        assert(a.drop_first().subrange(0, j - 1) == b.drop_first().subrange(0, j - 1)) by {
            assert(a.drop_first().subrange(0, j - 1) =~= a.subrange(0, j).drop_first());
            assert(b.drop_first().subrange(0, j - 1) =~= b.subrange(0, j).drop_first());
        }
        lemma_lex_lt_from_diff(a.drop_first(), b.drop_first(), j - 1);
    }
}

/// A proper prefix is lexicographically smaller than its extension.
pub proof fn lemma_lex_lt_from_prefix(a: Seq<u8>, b: Seq<u8>)
    requires
        a.len() < b.len(),
        a == b.subrange(0, a.len() as int),
    ensures
        lex_lt(a, b),
    decreases a.len(),
{
    if a.len() == 0 {
    } else {
        assert(a[0] == b[0]) by {
            assert(b.subrange(0, a.len() as int)[0] == b[0]);
        }
        assert(a.drop_first() == b.drop_first().subrange(0, a.len() - 1)) by {
            assert(b.drop_first().subrange(0, a.len() - 1) =~= b.subrange(
                0,
                a.len() as int,
            ).drop_first());
        }
        lemma_lex_lt_from_prefix(a.drop_first(), b.drop_first());
    }
}

/// Length of the key stored in the key record at heap offset `o`.
pub open spec fn key_len_at(s: Seq<u8>, o: int) -> int {
    le32_at(s, o) as int
}

/// The key bytes of the key record at heap offset `o`.
pub open spec fn key_bytes_at(s: Seq<u8>, o: int) -> Seq<u8> {
    s.subrange(o + 4, o + 4 + key_len_at(s, o))
}

/// Position of the tombstone byte of the key record at heap offset `o`.
pub open spec fn tombstone_pos(s: Seq<u8>, o: int) -> int {
    o + 4 + key_len_at(s, o)
}

/// Whether the key record at heap offset `o` is tombstoned.
pub open spec fn deleted_at(s: Seq<u8>, o: int) -> bool {
    s[tombstone_pos(s, o)] == 1
}

/// Position of the value-pointer field of the key record at heap offset `o`.
pub open spec fn value_ptr_pos(s: Seq<u8>, o: int) -> int {
    o + 5 + key_len_at(s, o)
}

/// Heap offset of the value record that the key record at `o` points to.
pub open spec fn value_ptr_at(s: Seq<u8>, o: int) -> int {
    le32_at(s, value_ptr_pos(s, o)) as int
}

/// Length of the value stored in the value record at heap offset `v`.
pub open spec fn value_len_at(s: Seq<u8>, v: int) -> int {
    le32_at(s, v) as int
}

/// The value bytes of the value record at heap offset `v`.
pub open spec fn value_bytes_at(s: Seq<u8>, v: int) -> Seq<u8> {
    s.subrange(v + 4, v + 4 + value_len_at(s, v))
}

/// One past the last byte of the key record at `o`:
/// `[key_len:4][key_bytes][deleted:1][value_offset:4]`.
pub open spec fn key_span_end(s: Seq<u8>, o: int) -> int {
    o + 9 + key_len_at(s, o)
}

/// One past the last byte of the value record at `v`: `[value_len:4][value_bytes]`.
pub open spec fn val_span_end(s: Seq<u8>, v: int) -> int {
    v + 4 + value_len_at(s, v)
}

/// The key record at `o` can be parsed without leaving the page.
pub open spec fn key_readable(s: Seq<u8>, o: int) -> bool {
    &&& 0 <= o
    &&& o + 4 <= s.len()
    &&& o + 4 + key_len_at(s, o) <= s.len()
}

pub open spec fn span_disjoint(a1: int, b1: int, a2: int, b2: int) -> bool {
    b1 <= a2 || b2 <= a1
}

/// The key record at `o` and the value record it points to lie entirely in
/// the heap region `[t, s.len())` and do not overlap each other.
pub open spec fn record_wf(s: Seq<u8>, t: int, o: int) -> bool {
    let v = value_ptr_at(s, o);
    &&& t <= o
    &&& o + 4 <= s.len()
    &&& key_span_end(s, o) <= s.len()
    &&& t <= v
    &&& v + 4 <= s.len()
    &&& val_span_end(s, v) <= s.len()
    &&& span_disjoint(o, key_span_end(s, o), v, val_span_end(s, v))
}

/// The key and value records rooted at `o1` and those rooted at `o2` share no byte.
pub open spec fn records_disjoint(s: Seq<u8>, o1: int, o2: int) -> bool {
    let v1 = value_ptr_at(s, o1);
    let v2 = value_ptr_at(s, o2);
    &&& span_disjoint(o1, key_span_end(s, o1), o2, key_span_end(s, o2))
    &&& span_disjoint(o1, key_span_end(s, o1), v2, val_span_end(s, v2))
    &&& span_disjoint(v1, val_span_end(s, v1), o2, key_span_end(s, o2))
    &&& span_disjoint(v1, val_span_end(s, v1), v2, val_span_end(s, v2))
}

/// Full structural well-formedness of a page's slot directory: consistent
/// offsets, a whole number of slots, every referenced record inside the heap,
/// no two records overlapping, and keys strictly ascending.
pub open spec fn directory_wf(s: Seq<u8>, table_start: int) -> bool {
    &&& offsets_wf(s, table_start)
    &&& (head_of(s) as int - table_start) % 4 == 0
    &&& forall|i: int|
        0 <= i < num_slots(s, table_start) ==> record_wf(
            s,
            tail_of(s) as int,
            #[trigger] slot_at(s, table_start, i),
        )
    &&& forall|i: int, j: int|
        0 <= i < num_slots(s, table_start) && 0 <= j < num_slots(s, table_start) && i != j
            ==> records_disjoint(
            s,
            #[trigger] slot_at(s, table_start, i),
            #[trigger] slot_at(s, table_start, j),
        )
    &&& forall|i: int, j: int|
        0 <= i < j < num_slots(s, table_start) ==> lex_lt(
            key_bytes_at(s, #[trigger] slot_at(s, table_start, i)),
            key_bytes_at(s, #[trigger] slot_at(s, table_start, j)),
        )
}

/// Bytes untouched outside `[lo, hi)` leave a record's parse unchanged,
/// provided the record's spans avoid `[lo, hi)`.
pub proof fn lemma_record_frame(s2: Seq<u8>, s1: Seq<u8>, lo: int, hi: int, o: int)
    requires
        agree_outside(s2, s1, lo, hi),
        0 <= o,
        key_span_end(s1, o) <= s1.len(),
        value_ptr_at(s1, o) >= 0,
        val_span_end(s1, value_ptr_at(s1, o)) <= s1.len(),
        span_disjoint(o, key_span_end(s1, o), lo, hi),
        span_disjoint(value_ptr_at(s1, o), val_span_end(s1, value_ptr_at(s1, o)), lo, hi),
    ensures
        key_len_at(s2, o) == key_len_at(s1, o),
        key_bytes_at(s2, o) == key_bytes_at(s1, o),
        deleted_at(s2, o) == deleted_at(s1, o),
        value_ptr_at(s2, o) == value_ptr_at(s1, o),
        value_len_at(s2, value_ptr_at(s1, o)) == value_len_at(s1, value_ptr_at(s1, o)),
        value_bytes_at(s2, value_ptr_at(s1, o)) == value_bytes_at(s1, value_ptr_at(s1, o)),
{
    let k = key_len_at(s1, o);
    let v = value_ptr_at(s1, o);
    lemma_le32_frame(s2, s1, lo, hi, o);
    lemma_subrange_frame(s2, s1, lo, hi, o + 4, o + 4 + k);
    assert(s2[tombstone_pos(s1, o)] == s1[tombstone_pos(s1, o)]);
    lemma_le32_frame(s2, s1, lo, hi, value_ptr_pos(s1, o));
    lemma_le32_frame(s2, s1, lo, hi, v);
    lemma_subrange_frame(s2, s1, lo, hi, v + 4, v + 4 + value_len_at(s1, v));
}

/// Bytes untouched outside three ranges leave a record's parse unchanged,
/// provided the record's spans avoid all three.
pub proof fn lemma_record_frame3(
    s2: Seq<u8>,
    s1: Seq<u8>,
    a1: int,
    b1: int,
    a2: int,
    b2: int,
    a3: int,
    b3: int,
    o: int,
)
    requires
        agree_outside3(s2, s1, a1, b1, a2, b2, a3, b3),
        0 <= o,
        key_span_end(s1, o) <= s1.len(),
        value_ptr_at(s1, o) >= 0,
        val_span_end(s1, value_ptr_at(s1, o)) <= s1.len(),
        span_disjoint(o, key_span_end(s1, o), a1, b1),
        span_disjoint(o, key_span_end(s1, o), a2, b2),
        span_disjoint(o, key_span_end(s1, o), a3, b3),
        span_disjoint(value_ptr_at(s1, o), val_span_end(s1, value_ptr_at(s1, o)), a1, b1),
        span_disjoint(value_ptr_at(s1, o), val_span_end(s1, value_ptr_at(s1, o)), a2, b2),
        span_disjoint(value_ptr_at(s1, o), val_span_end(s1, value_ptr_at(s1, o)), a3, b3),
    ensures
        key_len_at(s2, o) == key_len_at(s1, o),
        key_bytes_at(s2, o) == key_bytes_at(s1, o),
        deleted_at(s2, o) == deleted_at(s1, o),
        value_ptr_at(s2, o) == value_ptr_at(s1, o),
        value_len_at(s2, value_ptr_at(s1, o)) == value_len_at(s1, value_ptr_at(s1, o)),
        value_bytes_at(s2, value_ptr_at(s1, o)) == value_bytes_at(s1, value_ptr_at(s1, o)),
{
    let k = key_len_at(s1, o);
    let v = value_ptr_at(s1, o);
    lemma_le32_frame3(s2, s1, a1, b1, a2, b2, a3, b3, o);
    lemma_subrange_frame3(s2, s1, a1, b1, a2, b2, a3, b3, o + 4, o + 4 + k);
    assert(s2[tombstone_pos(s1, o)] == s1[tombstone_pos(s1, o)]);
    lemma_le32_frame3(s2, s1, a1, b1, a2, b2, a3, b3, value_ptr_pos(s1, o));
    lemma_le32_frame3(s2, s1, a1, b1, a2, b2, a3, b3, v);
    lemma_subrange_frame3(s2, s1, a1, b1, a2, b2, a3, b3, v + 4, v + 4 + value_len_at(s1, v));
}

pub proof fn lemma_eq_from_prefix(a: Seq<u8>, b: Seq<u8>)
    requires
        a.len() == b.len(),
        a.subrange(0, a.len() as int) == b.subrange(0, b.len() as int),
    ensures
        a == b,
{
    assert(a =~= b) by {
        assert(forall|i: int|
            0 <= i < a.len() ==> a[i] == a.subrange(0, a.len() as int)[i] && b[i] == b.subrange(
                0,
                b.len() as int,
            )[i]);
    }
}

} // verus!
