use vstd::prelude::*;

use crate::layout::{
    after_create, after_delete, after_update, counter_of, has_room, lemma_after_create,
    lemma_after_delete, lemma_after_update, lookup, slot_start, well_formed, SlotState, SLOT_LEN,
};
use crate::record::{content_fits, PasteModel};

verus! {

/// A record created with content that fits is found again under the id it
/// was given, with that content and stamp; the bytes still hold a store, so
/// a store reattached to them after a restart finds the same record.
pub proof fn lemma_create_then_get(b: Seq<u8>, content: Seq<char>, now: u64)
    requires
        well_formed(b),
        has_room(b),
        content_fits(content),
    ensures
        ({
            let p = PasteModel { id: counter_of(b), content, timestamp: now };
            &&& well_formed(after_create(b, p))
            &&& lookup(after_create(b, p), counter_of(b)) == SlotState::Full(p)
        }),
{
    lemma_after_create(b, PasteModel { id: counter_of(b), content, timestamp: now });
}

/// The id that a create hands out was free, and two creates in a row hand
/// out strictly increasing ids.
pub proof fn lemma_ids_strictly_increase(b: Seq<u8>, c1: Seq<char>, t1: u64, c2: Seq<char>, t2: u64)
    requires
        well_formed(b),
        has_room(b),
        content_fits(c1),
        has_room(after_create(b, PasteModel { id: counter_of(b), content: c1, timestamp: t1 })),
    ensures
        ({
            let p = PasteModel { id: counter_of(b), content: c1, timestamp: t1 };
            let b1 = after_create(b, p);
            let q = PasteModel { id: counter_of(b1), content: c2, timestamp: t2 };
            &&& lookup(b, p.id) == SlotState::Empty
            &&& lookup(b1, q.id) == SlotState::Empty
            &&& p.id < q.id
        }),
{
    lemma_after_create(b, PasteModel { id: counter_of(b), content: c1, timestamp: t1 });
}

/// An id at or past the counter was never handed out and holds no record.
pub proof fn lemma_never_created(b: Seq<u8>, k: u64)
    requires
        well_formed(b),
        k >= counter_of(b),
    ensures
        lookup(b, k) == SlotState::Empty,
{
}

/// An update keeps the id, stores the new content, and never moves the
/// stamp backwards.
pub proof fn lemma_update_then_get(b: Seq<u8>, k: u64, q: PasteModel, content: Seq<char>, now: u64)
    requires
        well_formed(b),
        lookup(b, k) == SlotState::Full(q),
        content_fits(content),
    ensures
        ({
            let p = PasteModel {
                id: k,
                content,
                timestamp: if now >= q.timestamp {
                    now
                } else {
                    q.timestamp
                },
            };
            &&& well_formed(after_update(b, k, p))
            &&& lookup(after_update(b, k, p), k) == SlotState::Full(p)
            &&& p.timestamp >= q.timestamp
            &&& q.id == k
        }),
{
    let p = PasteModel {
        id: k,
        content,
        timestamp: if now >= q.timestamp {
            now
        } else {
            q.timestamp
        },
    };
    lemma_after_update(b, k, p);
}

/// After a delete the id holds no record, and the counter is already past
/// it, so no later create hands it out again.
pub proof fn lemma_delete_then_get(b: Seq<u8>, k: u64, q: PasteModel)
    requires
        well_formed(b),
        lookup(b, k) == SlotState::Full(q),
    ensures
        well_formed(after_delete(b, k)),
        lookup(after_delete(b, k), k) == SlotState::Empty,
        counter_of(after_delete(b, k)) > k,
{
    lemma_after_delete(b, k);
}

/// The bytes after records with the contents `cs` are created one after
/// another, the i-th stamped `ts[i]`.
pub open spec fn created_in_turn(b: Seq<u8>, cs: Seq<Seq<char>>, ts: Seq<u64>) -> Seq<u8>
    decreases cs.len(),
{
    if cs.len() == 0 {
        b
    } else {
        let prev = created_in_turn(b, cs.drop_last(), ts.drop_last());
        after_create(
            prev,
            PasteModel { id: counter_of(prev), content: cs.last(), timestamp: ts[cs.len() - 1] },
        )
    }
}

/// Creating records one after another hands the i-th of them the id
/// `counter + i`: the ids are pairwise distinct and strictly increasing, and
/// every record is found under its id afterwards, none lost.
pub proof fn lemma_creates_in_turn(b: Seq<u8>, cs: Seq<Seq<char>>, ts: Seq<u64>)
    requires
        well_formed(b),
        ts.len() == cs.len(),
        forall|i: int| 0 <= i < cs.len() ==> content_fits(#[trigger] cs[i]),
        counter_of(b) + cs.len() < u64::MAX,
        slot_start(counter_of(b) + cs.len()) <= usize::MAX,
    ensures
        well_formed(created_in_turn(b, cs, ts)),
        counter_of(created_in_turn(b, cs, ts)) == counter_of(b) + cs.len(),
        forall|i: int|
            0 <= i < cs.len() ==> #[trigger] lookup(
                created_in_turn(b, cs, ts),
                (counter_of(b) + i) as u64,
            ) == SlotState::Full(
                PasteModel { id: (counter_of(b) + i) as u64, content: cs[i], timestamp: ts[i] },
            ),
    decreases cs.len(),
{
    if cs.len() > 0 {
        let n = (cs.len() - 1) as int;
        let cs0 = cs.drop_last();
        let ts0 = ts.drop_last();
        assert forall|i: int| 0 <= i < cs0.len() implies content_fits(#[trigger] cs0[i]) by {
            assert(cs0[i] == cs[i]);
        }
        assert(slot_start(counter_of(b) + n + 1) <= usize::MAX);
        assert(slot_start(counter_of(b) + n + 1) == slot_start(counter_of(b) + n) + SLOT_LEN);
        lemma_creates_in_turn(b, cs0, ts0);
        let prev = created_in_turn(b, cs0, ts0);
        let p = PasteModel { id: counter_of(prev), content: cs.last(), timestamp: ts[n] };
        assert(content_fits(cs[n]));
        lemma_after_create(prev, p);
        assert forall|i: int| 0 <= i < cs.len() implies #[trigger] lookup(
            created_in_turn(b, cs, ts),
            (counter_of(b) + i) as u64,
        ) == SlotState::Full(
            PasteModel { id: (counter_of(b) + i) as u64, content: cs[i], timestamp: ts[i] },
        ) by {
            if i < n {
                assert(cs0[i] == cs[i]);
                assert(ts0[i] == ts[i]);
                assert(lookup(prev, (counter_of(b) + i) as u64) == SlotState::Full(
                    PasteModel { id: (counter_of(b) + i) as u64, content: cs0[i], timestamp: ts0[i] },
                ));
            }
        }
    }
}

} // verus!
