//! The mathematical model of a leaf page's contents: the sequence of
//! key/tombstone/value entries that the slot directory denotes, the lookup it
//! supports, and the effect of insert-or-update and tombstone deletion.
//!
//! The laws proved here hold for every page state the engine can produce:
//! a lookup after an insert returns the inserted value; re-inserting a stored
//! pair changes nothing; an insert under an existing key replaces its value;
//! a tombstoned key reads as absent until the next insert brings it back.

use crate::layout::{
    lemma_lex_lt_asymmetric, lemma_lex_lt_irreflexive, lemma_lex_lt_trans, lex_lt,
};
use vstd::prelude::*;

verus! {

/// One live-or-tombstoned record of a leaf page.
#[verifier::ext_equal]
pub struct Entry {
    pub key: Seq<u8>,
    pub deleted: bool,
    pub value: Seq<u8>,
}

/// Keys strictly ascending in byte-lexicographic order.
pub open spec fn entries_sorted(es: Seq<Entry>) -> bool {
    forall|i: int, j: int|
        0 <= i < j < es.len() ==> lex_lt(#[trigger] es[i].key, #[trigger] es[j].key)
}

pub open spec fn has_key(es: Seq<Entry>, k: Seq<u8>) -> bool {
    exists|i: int| 0 <= i < es.len() && es[i].key == k
}

/// The slot holding `k`; meaningful only when `has_key` holds and keys are distinct.
pub open spec fn key_index(es: Seq<Entry>, k: Seq<u8>) -> int {
    choose|i: int| 0 <= i < es.len() && es[i].key == k
}

/// What a point lookup returns: the value stored under the key, unless the
/// key is absent or its record is tombstoned.
pub open spec fn spec_get(es: Seq<Entry>, k: Seq<u8>) -> Option<Seq<u8>> {
    if has_key(es, k) {
        if es[key_index(es, k)].deleted {
            None
        } else {
            Some(es[key_index(es, k)].value)
        }
    } else {
        None
    }
}

/// With strictly ascending keys, the slot of a present key is unique.
pub proof fn lemma_key_index_unique(es: Seq<Entry>, k: Seq<u8>, i: int)
    requires
        entries_sorted(es),
        0 <= i < es.len(),
        es[i].key == k,
    ensures
        has_key(es, k),
        key_index(es, k) == i,
{
    assert(has_key(es, k));
    let j = key_index(es, k);
    if i < j {
        lemma_lex_lt_irreflexive(k);
    }
    if j < i {
        lemma_lex_lt_irreflexive(k);
    }
}

/// The slot a new key would occupy: the number of keys smaller than it.
pub open spec fn insert_position(es: Seq<Entry>, k: Seq<u8>) -> int
    decreases es.len(),
{
    if es.len() == 0 {
        0
    } else if lex_lt(es[0].key, k) {
        1 + insert_position(es.drop_first(), k)
    } else {
        0
    }
}

pub proof fn lemma_insert_position_props(es: Seq<Entry>, k: Seq<u8>)
    requires
        entries_sorted(es),
    ensures
        0 <= insert_position(es, k) <= es.len(),
        forall|i: int| 0 <= i < insert_position(es, k) ==> lex_lt(#[trigger] es[i].key, k),
        forall|i: int|
            insert_position(es, k) <= i < es.len() ==> !lex_lt(#[trigger] es[i].key, k),
    decreases es.len(),
{
    if es.len() == 0 {
    } else {
        let rest = es.drop_first();
        assert(entries_sorted(rest)) by {
            assert(forall|i: int, j: int|
                0 <= i < j < rest.len() ==> rest[i] == es[i + 1] && rest[j] == es[j + 1]);
        }
        lemma_insert_position_props(rest, k);
        let ip = insert_position(es, k);
        if lex_lt(es[0].key, k) {
            assert forall|i: int| 0 <= i < ip implies lex_lt(#[trigger] es[i].key, k) by {
                if i > 0 {
                    assert(es[i] == rest[i - 1]);
                }
            }
            assert forall|i: int| ip <= i < es.len() implies !lex_lt(#[trigger] es[i].key, k) by {
                assert(es[i] == rest[i - 1]);
            }
        } else {
            assert forall|i: int| 0 <= i < es.len() implies !lex_lt(#[trigger] es[i].key, k) by {
                if i > 0 {
                    if lex_lt(es[i].key, k) {
                        lemma_lex_lt_trans(es[0].key, es[i].key, k);
                    }
                }
            }
        }
    }
}

/// A partition of the keys around `k` pins the insert position down.
pub proof fn lemma_position_from_partition(es: Seq<Entry>, k: Seq<u8>, p: int)
    requires
        entries_sorted(es),
        0 <= p <= es.len(),
        forall|i: int| 0 <= i < p ==> lex_lt(#[trigger] es[i].key, k),
        forall|i: int| p <= i < es.len() ==> lex_lt(k, #[trigger] es[i].key),
    ensures
        p == insert_position(es, k),
{
    lemma_insert_position_props(es, k);
    let ip = insert_position(es, k);
    if ip < p {
        assert(lex_lt(es[ip].key, k));
        assert(!lex_lt(es[ip].key, k));
    }
    if p < ip {
        assert(lex_lt(es[p].key, k));
        assert(lex_lt(k, es[p].key));
        lemma_lex_lt_asymmetric(es[p].key, k);
    }
}

/// The effect of `insert_or_update` on the page's entries when it succeeds:
/// an existing record (tombstoned or not) is revived under the new value, an
/// absent key gets a fresh record at its sorted position.
pub open spec fn insert_effect(es: Seq<Entry>, k: Seq<u8>, v: Seq<u8>) -> Seq<Entry> {
    if has_key(es, k) {
        es.update(key_index(es, k), Entry { key: k, deleted: false, value: v })
    } else {
        es.insert(insert_position(es, k), Entry { key: k, deleted: false, value: v })
    }
}

/// The effect of `delete` on the page's entries: the record, if any, is
/// tombstoned in place; nothing is removed.
pub open spec fn delete_effect(es: Seq<Entry>, k: Seq<u8>) -> Seq<Entry> {
    if has_key(es, k) {
        let i = key_index(es, k);
        es.update(i, Entry { key: es[i].key, deleted: true, value: es[i].value })
    } else {
        es
    }
}

/// Sort order is kept: an insert leaves the directory's keys strictly
/// ascending in byte-lexicographic order.
pub proof fn lemma_insert_effect_sorted(es: Seq<Entry>, k: Seq<u8>, v: Seq<u8>)
    requires
        entries_sorted(es),
    ensures
        entries_sorted(insert_effect(es, k, v)),
{
    let es2 = insert_effect(es, k, v);
    if has_key(es, k) {
        let x = key_index(es, k);
        assert(forall|i: int| 0 <= i < es.len() ==> #[trigger] es2[i].key == es[i].key);
    } else {
        let ip = insert_position(es, k);
        lemma_insert_position_props(es, k);
        es.insert_ensures(ip, Entry { key: k, deleted: false, value: v });
        assert forall|i: int, j: int| 0 <= i < j < es2.len() implies lex_lt(
            #[trigger] es2[i].key,
            #[trigger] es2[j].key,
        ) by {
            if i < ip && j == ip {
                assert(es2[i] == es[i]);
            } else if i == ip && j > ip {
                assert(es2[j] == es[j - 1]);
                assert(!lex_lt(es[j - 1].key, k));
                assert(!(es[j - 1].key == k)) by {
                    if es[j - 1].key == k {
                        assert(has_key(es, k));
                    }
                }
                lemma_lex_lt_total_keys(k, es[j - 1].key);
            } else if i < ip && j > ip {
                assert(es2[i] == es[i]);
                assert(es2[j] == es[j - 1]);
            } else if j < ip {
                assert(es2[i] == es[i]);
                assert(es2[j] == es[j]);
            } else if i > ip {
                assert(es2[i] == es[i - 1]);
                assert(es2[j] == es[j - 1]);
            }
        }
    }
}

proof fn lemma_lex_lt_total_keys(a: Seq<u8>, b: Seq<u8>)
    requires
        !lex_lt(b, a),
        a != b,
    ensures
        lex_lt(a, b),
{
    if !lex_lt(a, b) {
        crate::layout::lemma_lex_lt_total(a, b);
    }
}

/// Tombstoning keeps the keys, hence the sort order.
pub proof fn lemma_delete_effect_sorted(es: Seq<Entry>, k: Seq<u8>)
    requires
        entries_sorted(es),
    ensures
        entries_sorted(delete_effect(es, k)),
        delete_effect(es, k).len() == es.len(),
        forall|i: int|
            0 <= i < es.len() ==> #[trigger] delete_effect(es, k)[i].key == es[i].key,
{
    let es2 = delete_effect(es, k);
    assert(forall|i: int| 0 <= i < es.len() ==> #[trigger] es2[i].key == es[i].key);
}

/// Round trip: once `insert_or_update(k, v)` has taken effect, a lookup of
/// `k` returns exactly `v`.
pub proof fn lemma_round_trip(es: Seq<Entry>, k: Seq<u8>, v: Seq<u8>)
    requires
        entries_sorted(es),
    ensures
        spec_get(insert_effect(es, k, v), k) == Some(v),
        entries_sorted(insert_effect(es, k, v)),
{
    lemma_insert_effect_sorted(es, k, v);
    let es2 = insert_effect(es, k, v);
    if has_key(es, k) {
        let x = key_index(es, k);
        assert(0 <= x < es.len() && es[x].key == k);
        assert(es2[x].key == k);
        lemma_key_index_unique(es2, k, x);
    } else {
        let ip = insert_position(es, k);
        lemma_insert_position_props(es, k);
        es.insert_ensures(ip, Entry { key: k, deleted: false, value: v });
        assert(es2[ip].key == k);
        lemma_key_index_unique(es2, k, ip);
    }
}

/// Override idempotence: inserting a pair that the page already holds, live,
/// leaves the entries exactly as they were.
pub proof fn lemma_override_idempotent(es: Seq<Entry>, k: Seq<u8>, v: Seq<u8>)
    requires
        entries_sorted(es),
        spec_get(es, k) == Some(v),
    ensures
        insert_effect(es, k, v) == es,
{
    let i = key_index(es, k);
    assert(es[i] =~= Entry { key: k, deleted: false, value: v });
    assert(insert_effect(es, k, v) =~= es);
}

/// Override replaces: inserting `v1` then `v2` under one key leaves `v2` as
/// the value read back.
pub proof fn lemma_override_replaces(es: Seq<Entry>, k: Seq<u8>, v1: Seq<u8>, v2: Seq<u8>)
    requires
        entries_sorted(es),
    ensures
        spec_get(insert_effect(insert_effect(es, k, v1), k, v2), k) == Some(v2),
{
    lemma_round_trip(es, k, v1);
    lemma_round_trip(insert_effect(es, k, v1), k, v2);
}

/// Tombstone: after an insert of `k` a delete makes `k` read as absent, and
/// a further insert of `v2` revives it with `v2`.
pub proof fn lemma_tombstone(es: Seq<Entry>, k: Seq<u8>, v: Seq<u8>, v2: Seq<u8>)
    requires
        entries_sorted(es),
    ensures
        spec_get(delete_effect(insert_effect(es, k, v), k), k) == None::<Seq<u8>>,
        spec_get(insert_effect(delete_effect(insert_effect(es, k, v), k), k, v2), k) == Some(v2),
{
    lemma_round_trip(es, k, v);
    let es1 = insert_effect(es, k, v);
    let i = key_index(es1, k);
    let es2 = delete_effect(es1, k);
    lemma_delete_effect_sorted(es1, k);
    assert(es2[i].key == k);
    lemma_key_index_unique(es2, k, i);
    assert(es2[i].deleted);
    lemma_round_trip(es2, k, v2);
}

} // verus!
