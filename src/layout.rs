use vstd::bytes::*;
use vstd::prelude::*;

use crate::record::{decode_spec, encode_spec, fits, lemma_decode_encode, PasteModel, MAX_RECORD_LEN};

verus! {

// The byte store is split into three regions, fixed once and for all so that
// a store reattaches to the same bytes after a restart:
//   [0, 4)    the magic tag that marks a store;
//   [4, 12)   the id counter, a little-endian u64;
//   [12, ..)  the records, one slot of `SLOT_LEN` bytes per minted id, slot k
//             holding the record with id k.
// A slot is a tag byte (0 for no record), the record's length as a
// little-endian u16, and the encoded record padded with zeros to
// `MAX_RECORD_LEN` bytes.

/// Where the counter region starts.
pub const COUNTER_OFFSET: usize = 4;

/// Where the records region starts.
pub const RECORDS_OFFSET: usize = 12;

/// Bytes taken by one slot of the records region.
pub const SLOT_LEN: usize = 1027;

/// Where a record starts inside its slot.
pub const SLOT_BODY: usize = 3;

/// The tag that a store begins with.
pub open spec fn magic() -> Seq<u8> {
    seq![0x50u8, 0x41u8, 0x53u8, 0x54u8]
}

/// What the lookup of one id finds.
pub ghost enum SlotState {
    /// No record: never created, or deleted.
    Empty,
    /// A record is marked present but its bytes do not decode.
    Corrupt,
    Full(PasteModel),
}

/// The value of the id counter.
pub open spec fn counter_of(b: Seq<u8>) -> u64 {
    spec_u64_from_le_bytes(b.subrange(COUNTER_OFFSET as int, RECORDS_OFFSET as int))
}

/// Where the slot of id `k` starts.
pub open spec fn slot_start(k: int) -> int {
    RECORDS_OFFSET + k * SLOT_LEN
}

/// The bytes hold a store: the magic tag, then the counter, then exactly one
/// slot for each id below the counter.
pub open spec fn well_formed(b: Seq<u8>) -> bool {
    &&& b.len() >= RECORDS_OFFSET
    &&& b.subrange(0, COUNTER_OFFSET as int) == magic()
    &&& b.len() == slot_start(counter_of(b) as int)
}

/// A store can mint one more id and hold its slot.
pub open spec fn has_room(b: Seq<u8>) -> bool {
    counter_of(b) < u64::MAX && slot_start(counter_of(b) + 1) <= usize::MAX
}

/// The bytes of the slot of id `k`.
pub open spec fn slot_bytes(b: Seq<u8>, k: int) -> Seq<u8> {
    b.subrange(slot_start(k), slot_start(k) + SLOT_LEN)
}

/// The length of the record that a slot holds.
pub open spec fn slot_record_len(s: Seq<u8>) -> int {
    spec_u16_from_le_bytes(s.subrange(1, SLOT_BODY as int)) as int
}

/// What one slot, read as the slot of id `k`, holds.
pub open spec fn slot_state_of(s: Seq<u8>, k: u64) -> SlotState {
    if s[0] == 0 {
        SlotState::Empty
    } else if slot_record_len(s) > MAX_RECORD_LEN {
        SlotState::Corrupt
    } else {
        match decode_spec(s.subrange(SLOT_BODY as int, SLOT_BODY + slot_record_len(s))) {
            Some(p) => if p.id == k {
                SlotState::Full(p)
            } else {
                SlotState::Corrupt
            },
            None => SlotState::Corrupt,
        }
    }
}

/// What a lookup of id `k` finds in the bytes of a store.
pub open spec fn lookup(b: Seq<u8>, k: u64) -> SlotState {
    if k < counter_of(b) {
        slot_state_of(slot_bytes(b, k as int), k)
    } else {
        SlotState::Empty
    }
}

/// The slot that holds an encoded record.
pub open spec fn encode_slot(rec: Seq<u8>) -> Seq<u8> {
    seq![1u8] + spec_u16_to_le_bytes(rec.len() as u16) + rec + Seq::new(
        (MAX_RECORD_LEN - rec.len()) as nat,
        |i: int| 0u8,
    )
}

/// The bytes with the counter set to `v`.
pub open spec fn set_counter(b: Seq<u8>, v: u64) -> Seq<u8> {
    b.subrange(0, COUNTER_OFFSET as int) + spec_u64_to_le_bytes(v) + b.subrange(
        RECORDS_OFFSET as int,
        b.len() as int,
    )
}

/// The bytes with slot `k` replaced by `s`.
pub open spec fn put_slot(b: Seq<u8>, k: int, s: Seq<u8>) -> Seq<u8> {
    b.subrange(0, slot_start(k)) + s + b.subrange(slot_start(k) + SLOT_LEN, b.len() as int)
}

/// The bytes after a record is added under the next id.
pub open spec fn after_create(b: Seq<u8>, p: PasteModel) -> Seq<u8> {
    set_counter(b, (counter_of(b) + 1) as u64) + encode_slot(encode_spec(p))
}

/// The bytes after the record of id `k` is replaced by `p`.
pub open spec fn after_update(b: Seq<u8>, k: u64, p: PasteModel) -> Seq<u8> {
    put_slot(b, k as int, encode_slot(encode_spec(p)))
}

/// The bytes after the record of id `k` is removed.
pub open spec fn after_delete(b: Seq<u8>, k: u64) -> Seq<u8> {
    b.update(slot_start(k as int), 0u8)
}

pub proof fn lemma_slot_order(j: int, k: int)
    requires
        0 <= j < k,
    ensures
        slot_start(j) + SLOT_LEN <= slot_start(k),
{
    assert(j * SLOT_LEN + SLOT_LEN <= k * SLOT_LEN) by (nonlinear_arith)
        requires
            0 <= j < k,
    ;
}

pub proof fn lemma_slot_start_nonneg(k: int)
    requires
        0 <= k,
    ensures
        slot_start(k) >= RECORDS_OFFSET,
{
    assert(k * SLOT_LEN >= 0) by (nonlinear_arith)
        requires
            0 <= k,
    ;
}

/// An encoded record that fits reads back from its slot as that record.
pub proof fn lemma_encode_slot(p: PasteModel)
    requires
        fits(p),
    ensures
        encode_slot(encode_spec(p)).len() == SLOT_LEN,
        slot_state_of(encode_slot(encode_spec(p)), p.id) == SlotState::Full(p),
{
    lemma_decode_encode(p);
    lemma_auto_spec_u16_to_from_le_bytes();
    let rec = encode_spec(p);
    let s = encode_slot(rec);
    assert(s.subrange(1, SLOT_BODY as int) =~= spec_u16_to_le_bytes(rec.len() as u16));
    assert(s.subrange(SLOT_BODY as int, SLOT_BODY + rec.len()) =~= rec);
}

/// Writing a slot that stands wholly in the records region changes no other
/// slot and leaves the header as it is.
proof fn lemma_put_slot(b: Seq<u8>, k: int, s: Seq<u8>)
    requires
        well_formed(b),
        0 <= k < counter_of(b),
        s.len() == SLOT_LEN,
    ensures
        put_slot(b, k, s).len() == b.len(),
        put_slot(b, k, s).subrange(0, RECORDS_OFFSET as int) == b.subrange(0, RECORDS_OFFSET as int),
        slot_bytes(put_slot(b, k, s), k) == s,
        forall|j: int|
            0 <= j < counter_of(b) && j != k ==> #[trigger] slot_bytes(put_slot(b, k, s), j)
                == slot_bytes(b, j),
{
    let n = put_slot(b, k, s);
    lemma_slot_start_nonneg(k);
    lemma_slot_order(k, counter_of(b) as int);
    assert(n.subrange(0, RECORDS_OFFSET as int) =~= b.subrange(0, RECORDS_OFFSET as int));
    assert(slot_bytes(n, k) =~= s);
    assert forall|j: int| 0 <= j < counter_of(b) && j != k implies #[trigger] slot_bytes(n, j)
        == slot_bytes(b, j) by {
        lemma_slot_start_nonneg(j);
        if j < k {
            lemma_slot_order(j, k);
        } else {
            lemma_slot_order(k, j);
            lemma_slot_order(j, counter_of(b) as int);
        }
        assert(slot_bytes(n, j) =~= slot_bytes(b, j));
    }
}

/// The header of a store is unchanged wherever its first bytes are.
proof fn lemma_same_header(b: Seq<u8>, n: Seq<u8>)
    requires
        n.len() >= RECORDS_OFFSET,
        b.len() >= RECORDS_OFFSET,
        n.subrange(0, RECORDS_OFFSET as int) == b.subrange(0, RECORDS_OFFSET as int),
    ensures
        n.subrange(0, COUNTER_OFFSET as int) == b.subrange(0, COUNTER_OFFSET as int),
        counter_of(n) == counter_of(b),
{
    assert(n.subrange(0, COUNTER_OFFSET as int) =~= n.subrange(0, RECORDS_OFFSET as int).subrange(
        0,
        COUNTER_OFFSET as int,
    ));
    assert(b.subrange(0, COUNTER_OFFSET as int) =~= b.subrange(0, RECORDS_OFFSET as int).subrange(
        0,
        COUNTER_OFFSET as int,
    ));
    assert(n.subrange(COUNTER_OFFSET as int, RECORDS_OFFSET as int) =~= n.subrange(
        0,
        RECORDS_OFFSET as int,
    ).subrange(COUNTER_OFFSET as int, RECORDS_OFFSET as int));
    assert(b.subrange(COUNTER_OFFSET as int, RECORDS_OFFSET as int) =~= b.subrange(
        0,
        RECORDS_OFFSET as int,
    ).subrange(COUNTER_OFFSET as int, RECORDS_OFFSET as int));
}

/// Replacing a record keeps the store well formed, changes the lookup of
/// that id alone, and keeps the counter.
pub proof fn lemma_after_update(b: Seq<u8>, k: u64, p: PasteModel)
    requires
        well_formed(b),
        k < counter_of(b),
        fits(p),
        p.id == k,
    ensures
        well_formed(after_update(b, k, p)),
        counter_of(after_update(b, k, p)) == counter_of(b),
        lookup(after_update(b, k, p), k) == SlotState::Full(p),
        forall|j: u64| j != k ==> #[trigger] lookup(after_update(b, k, p), j) == lookup(b, j),
{
    lemma_encode_slot(p);
    let s = encode_slot(encode_spec(p));
    lemma_put_slot(b, k as int, s);
    lemma_same_header(b, after_update(b, k, p));
    assert forall|j: u64| j != k implies #[trigger] lookup(after_update(b, k, p), j) == lookup(
        b,
        j,
    ) by {
        if j < counter_of(b) {
            assert(slot_bytes(put_slot(b, k as int, s), j as int) == slot_bytes(b, j as int));
        }
    }
}

/// Removing a record keeps the store well formed, empties that id alone, and
/// keeps the counter.
pub proof fn lemma_after_delete(b: Seq<u8>, k: u64)
    requires
        well_formed(b),
        k < counter_of(b),
    ensures
        well_formed(after_delete(b, k)),
        counter_of(after_delete(b, k)) == counter_of(b),
        lookup(after_delete(b, k), k) == SlotState::Empty,
        forall|j: u64| j != k ==> #[trigger] lookup(after_delete(b, k), j) == lookup(b, j),
{
    let s = slot_bytes(b, k as int).update(0, 0u8);
    lemma_slot_start_nonneg(k as int);
    lemma_slot_order(k as int, counter_of(b) as int);
    assert(after_delete(b, k) =~= put_slot(b, k as int, s));
    lemma_put_slot(b, k as int, s);
    lemma_same_header(b, after_delete(b, k));
    assert forall|j: u64| j != k implies #[trigger] lookup(after_delete(b, k), j) == lookup(b, j) by {
        if j < counter_of(b) {
            assert(slot_bytes(put_slot(b, k as int, s), j as int) == slot_bytes(b, j as int));
        }
    }
}

/// Adding a record under the next id keeps the store well formed, bumps the
/// counter by one, and leaves every other id as it was.
pub proof fn lemma_after_create(b: Seq<u8>, p: PasteModel)
    requires
        well_formed(b),
        has_room(b),
        fits(p),
        p.id == counter_of(b),
    ensures
        well_formed(after_create(b, p)),
        counter_of(after_create(b, p)) == counter_of(b) + 1,
        lookup(after_create(b, p), p.id) == SlotState::Full(p),
        forall|j: u64| j != p.id ==> #[trigger] lookup(after_create(b, p), j) == lookup(b, j),
{
    lemma_auto_spec_u64_to_from_le_bytes();
    lemma_encode_slot(p);
    let c = counter_of(b);
    let s = encode_slot(encode_spec(p));
    let m = set_counter(b, (c + 1) as u64);
    let n = after_create(b, p);
    assert(m.len() == b.len());
    assert(n.subrange(COUNTER_OFFSET as int, RECORDS_OFFSET as int) =~= spec_u64_to_le_bytes(
        (c + 1) as u64,
    ));
    assert(n.subrange(0, COUNTER_OFFSET as int) =~= b.subrange(0, COUNTER_OFFSET as int));
    assert(slot_start(c + 1) == slot_start(c as int) + SLOT_LEN);
    assert(slot_bytes(n, c as int) =~= s);
    assert forall|j: u64| j != p.id implies #[trigger] lookup(n, j) == lookup(b, j) by {
        if j < c {
            lemma_slot_start_nonneg(j as int);
            lemma_slot_order(j as int, c as int);
            assert(slot_bytes(n, j as int) =~= slot_bytes(b, j as int));
        }
    }
}

/// A freshly made store: the magic tag and a counter of zero.
pub open spec fn empty_store() -> Seq<u8> {
    magic() + spec_u64_to_le_bytes(0)
}

pub proof fn lemma_empty_store()
    ensures
        well_formed(empty_store()),
        counter_of(empty_store()) == 0,
        forall|k: u64| #[trigger] lookup(empty_store(), k) == SlotState::Empty,
{
    lemma_auto_spec_u64_to_from_le_bytes();
    let b = empty_store();
    assert(b.subrange(0, COUNTER_OFFSET as int) =~= magic());
    assert(b.subrange(COUNTER_OFFSET as int, RECORDS_OFFSET as int) =~= spec_u64_to_le_bytes(0));
}

} // verus!
