//! What holds of the entity tables over several operations, stated over the
//! models that the operations' contracts use.

use vstd::prelude::*;
use crate::model::{appointment_from, AppointmentPayload, AppointmentView};
use crate::table::{is_listing, lemma_listing_len, Entities, Record};

verus! {

/// A create hands out an identity that no earlier create handed out, live or
/// deleted (every earlier one is below the table's next identity), and a read
/// right after it finds the record it stored.
pub proof fn law_create_then_read<R: Record>(before: Entities<R>, after: Entities<R>, x: R::V)
    requires
        before.wf(),
        R::key(x) == before.next_id(),
        after.records() == before.records().insert(R::key(x), x),
        after.next_id() == before.next_id() + 1,
    ensures
        forall|k: u64| #[trigger] before.records().contains_key(k) ==> k < R::key(x),
        !before.records().contains_key(R::key(x)),
        after.records().contains_key(R::key(x)) && after.records()[R::key(x)] == x,
        R::key(x) < after.next_id(),
{
    before.lemma_keys_below_next();
}

/// An update keeps the identity and the creation time of the appointment it
/// replaces, records the time of the update, and a read after it finds every
/// field of the payload.
pub proof fn law_update_keeps_identity(
    before: Map<u64, AppointmentView>,
    after: Map<u64, AppointmentView>,
    id: u64,
    payload: AppointmentPayload,
    now: u64,
)
    requires
        before.contains_key(id),
        after == before.insert(id, appointment_from(id, &payload, before[id].created_at, Some(now))),
    ensures
        after.contains_key(id),
        after[id].id == id,
        after[id].created_at == before[id].created_at,
        after[id].updated_at == Some(now),
        after[id].client_id == payload.client_id,
        after[id].service_id == payload.service_id,
        after[id].date == payload.date@,
        after[id].time == payload.time@,
        after[id].status == payload.status@,
{
}

/// After a delete the identity reads as absent, and a second delete of it
/// finds nothing.
pub proof fn law_delete_twice<V>(before: Map<u64, V>, id: u64)
    ensures
        !before.remove(id).contains_key(id),
        before.remove(id).remove(id) == before.remove(id),
{
    assert(before.remove(id).remove(id) =~= before.remove(id));
}

/// One operation on an entity table, as its contract describes it.
pub enum Step<V> {
    /// A successful create of the given record.
    Create(V),
    /// A delete of the given identity.
    Delete(u64),
}

/// The records and the next identity after running `steps` on an empty
/// table whose counter starts at 0.
pub open spec fn replay<V>(steps: Seq<Step<V>>) -> (Map<u64, V>, nat)
    decreases steps.len(),
{
    if steps.len() == 0 {
        (Map::empty(), 0)
    } else {
        let (m, n) = replay(steps.drop_last());
        match steps.last() {
            Step::Create(v) => (m.insert(n as u64, v), n + 1),
            Step::Delete(id) => (m.remove(id), n),
        }
    }
}

/// How many creates `steps` holds.
pub open spec fn creates<V>(steps: Seq<Step<V>>) -> nat
    decreases steps.len(),
{
    if steps.len() == 0 {
        0
    } else {
        creates(steps.drop_last()) + if steps.last() is Create {
            1nat
        } else {
            0nat
        }
    }
}

/// How many deletes of `steps` found their record.
pub open spec fn deletes<V>(steps: Seq<Step<V>>) -> nat
    decreases steps.len(),
{
    if steps.len() == 0 {
        0
    } else {
        deletes(steps.drop_last()) + match steps.last() {
            Step::Delete(id) => if replay(steps.drop_last()).0.contains_key(id) {
                1nat
            } else {
                0nat
            },
            Step::Create(_) => 0nat,
        }
    }
}

proof fn lemma_replay_next<V>(steps: Seq<Step<V>>)
    ensures
        replay(steps).1 == creates(steps),
    decreases steps.len(),
{
    if steps.len() > 0 {
        lemma_replay_next(steps.drop_last());
    }
}

proof fn lemma_replay<V>(steps: Seq<Step<V>>)
    requires
        creates(steps) < 0x1_0000_0000_0000_0000,
    ensures
        replay(steps).0.dom().finite(),
        replay(steps).1 == creates(steps),
        forall|k: u64| #[trigger] replay(steps).0.contains_key(k) ==> k < replay(steps).1,
        replay(steps).0.dom().len() + deletes(steps) == creates(steps),
    decreases steps.len(),
{
    if steps.len() > 0 {
        lemma_replay(steps.drop_last());
    }
}

/// `after` is what a successful create of `v` or a delete, as `step` says,
/// leaves of the table `before`, by the contracts of `create_*` and
/// `delete_*_by_id`.
pub open spec fn follows<R: Record>(before: Entities<R>, after: Entities<R>, step: Step<R::V>) -> bool {
    match step {
        Step::Create(v) => R::key(v) == before.next_id() && after.records() == before.records().insert(
            before.next_id(),
            v,
        ) && after.next_id() == before.next_id() + 1,
        Step::Delete(id) => after.records() == before.records().remove(id) && after.next_id()
            == before.next_id(),
    }
}

/// A table that starts empty with its counter at 0 and goes through `steps`
/// holds the records, and hands out the identity, that `replay` gives.
pub proof fn law_states_follow_replay<R: Record>(states: Seq<Entities<R>>, steps: Seq<Step<R::V>>)
    requires
        states.len() == steps.len() + 1,
        states[0].records() == Map::<u64, R::V>::empty(),
        states[0].next_id() == 0,
        forall|i: int| 0 <= i < steps.len() ==> follows(states[i], states[i + 1], #[trigger] steps[i]),
    ensures
        states.last().records() == replay(steps).0,
        states.last().next_id() == replay(steps).1,
    decreases steps.len(),
{
    if steps.len() > 0 {
        let s0 = states.drop_last();
        let t0 = steps.drop_last();
        assert forall|i: int| 0 <= i < t0.len() implies follows(s0[i], s0[i + 1], #[trigger] t0[i]) by {
            assert(follows(states[i], states[i + 1], steps[i]));
        }
        law_states_follow_replay(s0, t0);
        assert(follows(states[steps.len() - 1], states[steps.len() as int], steps[steps.len() - 1]));
    }
}

/// After N creates and M deletes that found their record, starting from an
/// empty table, the table holds N - M records, and its listing (what
/// `get_all_*` returns) has N - M entries by ascending identity.
pub proof fn law_list_after_steps<R: Record>(
    states: Seq<Entities<R>>,
    steps: Seq<Step<R::V>>,
    listing: Seq<R::V>,
)
    requires
        states.len() == steps.len() + 1,
        states[0].records() == Map::<u64, R::V>::empty(),
        states[0].next_id() == 0,
        forall|i: int| 0 <= i < steps.len() ==> follows(states[i], states[i + 1], #[trigger] steps[i]),
        is_listing::<R>(states.last().records(), listing),
    ensures
        deletes(steps) <= creates(steps),
        listing.len() == creates(steps) - deletes(steps),
        forall|i: int, j: int| 0 <= i < j < listing.len() ==> R::key(listing[i]) < R::key(listing[j]),
{
    law_states_follow_replay(states, steps);
    lemma_replay_next(steps);
    lemma_replay(steps);
    lemma_listing_len::<R>(replay(steps).0, listing);
}

} // verus!
