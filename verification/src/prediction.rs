//! Histories of local input and their replay over confirmed state.
use crate::interpolation::Interpolate;
use crate::interpolation::Snapshot;
use crate::interpolation::SnapshotBuffer;
use crate::NetworkOwner;
use std::collections::vec_deque::Iter;
use std::collections::VecDeque;
use vstd::prelude::*;
use vstd::std_specs::iter::IteratorSpec;

verus! {

/// How an input event changes a replicated value.
///
/// `apply_event_spec` is the transition as a function of the state, the event,
/// the frame time in microseconds and the context; an implementation promises
/// that `apply_event` computes exactly that, so that the same inputs replayed
/// give the same state. Verus holds verified implementations to the promise; of
/// others it is taken on trust.
pub trait Predict<E, T>: Interpolate {
    /// The state that follows `self` once `event` has acted for `delta_time`.
    spec fn apply_event_spec(self, event: E, delta_time: u64, context: T) -> Self;

    fn apply_event(&mut self, event: &E, delta_time: u64, context: &T)
        ensures
            *final(self) == old(self).apply_event_spec(*event, delta_time, *context),
    ;
}

/// One local input, with the confirmed tick at which it was issued and the
/// frame time, in microseconds, for which it acts.
pub struct EventSnapshot<T> {
    pub value: T,
    pub tick: u32,
    pub delta_time: u64,
}

/// The local inputs of one stream that the server may not have seen yet, in
/// the order in which they were issued.
pub struct PredictedEventHistory<T>(pub VecDeque<EventSnapshot<T>>);

impl<T> View for PredictedEventHistory<T> {
    type V = Seq<EventSnapshot<T>>;

    open spec fn view(&self) -> Seq<EventSnapshot<T>> {
        self.0@
    }
}

/// No event is followed by one of an earlier tick.
pub open spec fn ticks_ordered<T>(events: Seq<EventSnapshot<T>>) -> bool {
    forall|i: int, j: int| 0 <= i <= j < events.len() ==> events[i].tick <= events[j].tick
}

/// The number of events at the head of `events` that are older than `tick`.
pub open spec fn stale_len<T>(events: Seq<EventSnapshot<T>>, tick: u32) -> nat
    decreases events.len(),
{
    if events.len() == 0 || events[0].tick >= tick {
        0
    } else {
        1 + stale_len(events.drop_first(), tick)
    }
}

/// `events` without the events at its head that are older than `tick`.
pub open spec fn drop_stale<T>(events: Seq<EventSnapshot<T>>, tick: u32) -> Seq<EventSnapshot<T>> {
    events.skip(stale_len(events, tick) as int)
}

/// The test that an event is not older than `tick`.
pub open spec fn is_pending<T>(tick: u32) -> spec_fn(EventSnapshot<T>) -> bool {
    |event: EventSnapshot<T>| event.tick >= tick
}

/// The events of `events` that are not older than `tick`, in their order.
pub open spec fn pending<T>(events: Seq<EventSnapshot<T>>, tick: u32) -> Seq<EventSnapshot<T>> {
    events.filter(is_pending(tick))
}

/// The stale head is a prefix, all of it older than `tick`, and what follows
/// it does not start with an older event.
pub proof fn lemma_stale_len<T>(events: Seq<EventSnapshot<T>>, tick: u32)
    ensures
        stale_len(events, tick) <= events.len(),
        forall|i: int| 0 <= i < stale_len(events, tick) ==> events[i].tick < tick,
        stale_len(events, tick) < events.len() ==> events[stale_len(events, tick) as int].tick
            >= tick,
    decreases events.len(),
{
    if events.len() == 0 || events[0].tick >= tick {
    } else {
        let rest = events.drop_first();
        lemma_stale_len(rest, tick);
        assert forall|i: int| 0 <= i < stale_len(events, tick) implies events[i].tick < tick by {
            if i > 0 {
                assert(events[i] == rest[i - 1]);
            }
        }
        if stale_len(events, tick) < events.len() {
            assert(events[stale_len(events, tick) as int] == rest[stale_len(rest, tick) as int]);
        }
    }
}

/// A prefix of older events that ends the sequence or is followed by an event
/// that is not older is the stale head.
pub proof fn lemma_stale_len_is<T>(events: Seq<EventSnapshot<T>>, tick: u32, n: nat)
    requires
        n <= events.len(),
        forall|i: int| 0 <= i < n ==> events[i].tick < tick,
        n < events.len() ==> events[n as int].tick >= tick,
    ensures
        stale_len(events, tick) == n,
{
    lemma_stale_len(events, tick);
    let m = stale_len(events, tick);
    if m < n {
        assert(events[m as int].tick < tick);
    } else if n < m {
        assert(events[n as int].tick < tick);
    }
}

proof fn lemma_filter_none<T>(events: Seq<EventSnapshot<T>>, tick: u32)
    requires
        forall|i: int| 0 <= i < events.len() ==> events[i].tick < tick,
    ensures
        pending(events, tick) == Seq::<EventSnapshot<T>>::empty(),
    decreases events.len(),
{
    reveal(Seq::filter);
    if events.len() > 0 {
        lemma_filter_none(events.drop_last(), tick);
    }
}

proof fn lemma_filter_all<T>(events: Seq<EventSnapshot<T>>, tick: u32)
    requires
        forall|i: int| 0 <= i < events.len() ==> events[i].tick >= tick,
    ensures
        pending(events, tick) == events,
    decreases events.len(),
{
    reveal(Seq::filter);
    if events.len() > 0 {
        lemma_filter_all(events.drop_last(), tick);
        assert(events.drop_last().push(events.last()) == events);
    }
}

/// Trimming a history at a tick that all its events are older than leaves
/// nothing, whatever order its events are in.
pub proof fn lemma_remove_stale_clears<T>(events: Seq<EventSnapshot<T>>, tick: u32)
    requires
        forall|i: int| 0 <= i < events.len() ==> events[i].tick < tick,
    ensures
        drop_stale(events, tick) == Seq::<EventSnapshot<T>>::empty(),
{
    lemma_stale_len_is(events, tick, events.len());
}

/// Trimming an ordered history at `tick` leaves exactly the events that are
/// not older than `tick`, in their order.
pub proof fn lemma_remove_stale_keeps_pending<T>(events: Seq<EventSnapshot<T>>, tick: u32)
    requires
        ticks_ordered(events),
    ensures
        drop_stale(events, tick) == pending(events, tick),
        forall|i: int|
            0 <= i < drop_stale(events, tick).len() ==> (#[trigger] drop_stale(
                events,
                tick,
            )[i]).tick >= tick,
        ticks_ordered(drop_stale(events, tick)),
{
    lemma_stale_len(events, tick);
    let n = stale_len(events, tick) as int;
    let head = events.take(n);
    let tail = events.skip(n);
    assert(events == head + tail);
    assert forall|i: int| 0 <= i < tail.len() implies tail[i].tick >= tick by {
        assert(events[n].tick <= events[n + i].tick);
    }
    lemma_filter_none(head, tick);
    lemma_filter_all(tail, tick);
    Seq::filter_distributes_over_add(head, tail, is_pending(tick));
    assert(Seq::<EventSnapshot<T>>::empty() + tail == tail);
}

/// A history that was trimmed at `tick` stays as it is when it is trimmed
/// again at `tick` or at an earlier tick, whatever order its events are in.
pub proof fn lemma_remove_stale_idempotent<T>(
    events: Seq<EventSnapshot<T>>,
    tick: u32,
    again: u32,
)
    requires
        again <= tick,
    ensures
        drop_stale(drop_stale(events, tick), again) == drop_stale(events, tick),
{
    lemma_stale_len(events, tick);
    let trimmed = drop_stale(events, tick);
    lemma_stale_len_is(trimmed, again, 0);
    assert(trimmed.skip(0) == trimmed);
}

impl<T> PredictedEventHistory<T> {
    /// A history without events.
    pub fn new() -> (history: PredictedEventHistory<T>)
        ensures
            history@ == Seq::<EventSnapshot<T>>::empty(),
    {
        PredictedEventHistory(VecDeque::new())
    }

    /// Appends an input issued at `tick` that acts for `delta_time`
    /// microseconds. The history stays ordered as long as no tick is smaller
    /// than the one before it.
    pub fn insert(&mut self, value: T, tick: u32, delta_time: u64) -> (history: &mut Self)
        ensures
            history@ == old(self)@.push((EventSnapshot { value, tick, delta_time })),
            *final(self) == *final(history),
            ticks_ordered(old(self)@) && (old(self)@.len() == 0 || old(self)@.last().tick <= tick)
                ==> ticks_ordered(history@),
    {
        self.0.push_back(EventSnapshot { value, tick, delta_time });
        self
    }

    /// Drops the events at the head that are older than
    /// `latest_server_snapshot_tick`; where every event is older, none is left.
    pub fn remove_stale(&mut self, latest_server_snapshot_tick: u32) -> (history: &mut Self)
        ensures
            history@ == drop_stale(old(self)@, latest_server_snapshot_tick),
            *final(self) == *final(history),
            ticks_ordered(old(self)@) ==> history@ == pending(
                old(self)@,
                latest_server_snapshot_tick,
            ) && ticks_ordered(history@),
    {
        let ghost before = self.0@;
        let ghost mut dropped: nat = 0;
        while self.0.len() > 0 && self.0[0].tick < latest_server_snapshot_tick
            invariant
                dropped <= before.len(),
                self.0@ == before.skip(dropped as int),
                forall|i: int| 0 <= i < dropped ==> before[i].tick < latest_server_snapshot_tick,
            decreases self.0@.len(),
        {
            let _ = self.0.pop_front();
            proof {
                dropped = dropped + 1;
            }
        }
        proof {
            lemma_stale_len_is(before, latest_server_snapshot_tick, dropped);
            if ticks_ordered(before) {
                lemma_remove_stale_keeps_pending(before, latest_server_snapshot_tick);
            }
        }
        self
    }

    /// Drops the stale events as `remove_stale` does and hands out the ones
    /// that are left, oldest first: the inputs to replay.
    pub fn predict(&mut self, latest_server_snapshot_tick: u32) -> (events: Iter<
        '_,
        EventSnapshot<T>,
    >)
        ensures
            final(self)@ == drop_stale(old(self)@, latest_server_snapshot_tick),
            ticks_ordered(old(self)@) ==> final(self)@ == pending(
                old(self)@,
                latest_server_snapshot_tick,
            ) && ticks_ordered(final(self)@),
            events.remaining() == final(self)@.as_ref(),
            events.decrease() is Some,
            events.initial_value_relation(&events),
    {
        self.remove_stale(latest_server_snapshot_tick);
        let events = self.0.iter();
        proof {
            vstd::std_specs::vecdeque::axiom_spec_iter(&self.0);
        }
        events
    }
}

/// The state reached from `state` when `events` act on it one after another.
pub open spec fn replay_spec<E, T, C: Predict<E, T>>(
    state: C,
    events: Seq<EventSnapshot<E>>,
    context: T,
) -> C
    decreases events.len(),
{
    if events.len() == 0 {
        state
    } else {
        replay_spec(state, events.drop_last(), context).apply_event_spec(
            events.last().value,
            events.last().delta_time,
            context,
        )
    }
}

/// Replaying the same events over the same state in the same context gives
/// the same state.
pub proof fn lemma_replay_deterministic<E, T, C: Predict<E, T>>(
    first_state: C,
    first_events: Seq<EventSnapshot<E>>,
    first_context: T,
    second_state: C,
    second_events: Seq<EventSnapshot<E>>,
    second_context: T,
)
    requires
        first_state == second_state,
        first_events =~= second_events,
        first_context == second_context,
    ensures
        replay_spec(first_state, first_events, first_context) == replay_spec(
            second_state,
            second_events,
            second_context,
        ),
{
}

/// Replaying two runs of events in a row is replaying the second run over
/// the state that the first run leads to.
pub proof fn lemma_replay_concat<E, T, C: Predict<E, T>>(
    state: C,
    earlier: Seq<EventSnapshot<E>>,
    later: Seq<EventSnapshot<E>>,
    context: T,
)
    ensures
        replay_spec(state, earlier + later, context) == replay_spec(
            replay_spec(state, earlier, context),
            later,
            context,
        ),
    decreases later.len(),
{
    if later.len() == 0 {
        assert(earlier + later == earlier);
    } else {
        lemma_replay_concat(state, earlier, later.drop_last(), context);
        assert((earlier + later).drop_last() == earlier + later.drop_last());
        assert((earlier + later).last() == later.last());
    }
}

/// Where the server confirms what the client predicted, reconciliation
/// changes nothing: if the newly confirmed state is the replay of the inputs up
/// to `tick` over the state confirmed before, replaying the inputs that are
/// left over the new state gives the state that was predicted from the old one.
pub proof fn lemma_reconcile_agrees<E, T, C: Predict<E, T>>(
    confirmed_before: C,
    confirmed_now: C,
    events: Seq<EventSnapshot<E>>,
    tick: u32,
    context: T,
)
    requires
        confirmed_now == replay_spec(
            confirmed_before,
            events.take(stale_len(events, tick) as int),
            context,
        ),
    ensures
        replay_spec(confirmed_now, drop_stale(events, tick), context) == replay_spec(
            confirmed_before,
            events,
            context,
        ),
{
    lemma_stale_len(events, tick);
    let n = stale_len(events, tick) as int;
    lemma_replay_concat(confirmed_before, events.take(n), events.skip(n), context);
    assert(events.take(n) + events.skip(n) == events);
}

/// Drops the events of `event_history` that are older than
/// `latest_server_snapshot_tick` and applies the ones that are left to `state`,
/// oldest first.
pub fn replay<E, T, C: Predict<E, T>>(
    state: &mut C,
    event_history: &mut PredictedEventHistory<E>,
    latest_server_snapshot_tick: u32,
    context: &T,
)
    ensures
        final(event_history)@ == drop_stale(old(event_history)@, latest_server_snapshot_tick),
        *final(state) == replay_spec(*old(state), final(event_history)@, *context),
{
    let ghost all = drop_stale(event_history@, latest_server_snapshot_tick);
    let events = event_history.predict(latest_server_snapshot_tick);
    for event in it: events
        invariant
            it.seq().unref() == all,
            *state == replay_spec(*old(state), all.take(it.index()), *context),
    {
        state.apply_event(&event.value, event.delta_time, context);
        proof {
            assert(all.take(it.index() + 1).drop_last() == all.take(it.index()));
        }
    }
    proof {
        assert(all.take(all.len() as int) == all);
    }
}

/// Whether `corrected` is a state that reconciliation may show for an entity
/// whose confirmed history is `snapshots`, whose shown state was `shown` and
/// whose unconfirmed inputs are `events`: the replay of `events` over a copy of
/// the newest confirmed value, or over `shown` while nothing is confirmed.
pub open spec fn reconcile_spec<E, T, C: Predict<E, T> + Clone>(
    snapshots: Seq<Snapshot<C>>,
    shown: C,
    events: Seq<EventSnapshot<E>>,
    context: T,
    corrected: C,
) -> bool {
    if snapshots.len() == 0 {
        corrected == replay_spec(shown, events, context)
    } else {
        exists|base: C| #[trigger]
            cloned(snapshots.last().value, base) && corrected == replay_spec(base, events, context)
    }
}

/// Recomputes the state to show for a predicted entity: the inputs that the
/// newest confirmed snapshot already reflects leave `event_history`, and the
/// ones that are left are replayed over a copy of that snapshot. The result
/// replaces `component`; the snapshot itself is not touched. While nothing is
/// confirmed, the whole history is replayed over `component` as it stands.
pub fn reconcile<E, T, C: Predict<E, T> + Clone>(
    component: &mut C,
    snapshot_buffer: &SnapshotBuffer<C>,
    event_history: &mut PredictedEventHistory<E>,
    context: &T,
)
    ensures
        final(event_history)@ == drop_stale(old(event_history)@, crate::interpolation::latest_tick_spec(snapshot_buffer@)),
        reconcile_spec(
            snapshot_buffer@,
            *old(component),
            final(event_history)@,
            *context,
            *final(component),
        ),
{
    let confirmed_tick = snapshot_buffer.latest_snapshot_tick();
    match snapshot_buffer.latest() {
        Some(snapshot) => {
            let mut corrected = snapshot.value.clone();
            let ghost base = corrected;
            replay(&mut corrected, event_history, confirmed_tick, context);
            *component = corrected;
            proof {
                assert(cloned(snapshot_buffer@.last().value, base));
            }
        },
        None => {
            replay(component, event_history, confirmed_tick, context);
        },
    }
}

/// The two ways in which the local session treats a replicated entity.
#[derive(Clone, Copy, Debug, PartialEq, Eq, Structural)]
pub enum Role {
    /// The local session controls the entity and computes its state ahead of
    /// the server.
    Predicted,
    /// Another session controls the entity; its state is blended between
    /// confirmed snapshots.
    Interpolated,
}

/// An entity that may need a role, with the role it holds so far.
#[derive(Clone, Copy, Debug, PartialEq, Eq, Structural)]
pub struct RoleCandidate {
    pub entity: u64,
    pub role: Option<Role>,
}

/// The decision to give `entity` the role `role`.
#[derive(Clone, Copy, Debug, PartialEq, Eq, Structural)]
pub struct RoleAssignment {
    pub entity: u64,
    pub role: Role,
}

/// The role of `entity` when `target` is the entity that the local session
/// controls.
pub open spec fn role_for(entity: u64, target: u64) -> Role {
    if entity == target {
        Role::Predicted
    } else {
        Role::Interpolated
    }
}

/// The role that a candidate holds once it has been classified: the one it
/// held before, if any, and else the one that control decides.
pub open spec fn classify_spec(candidate: RoleCandidate, target: u64) -> Role {
    match candidate.role {
        Some(role) => role,
        None => role_for(candidate.entity, target),
    }
}

/// The assignments that classification makes for `candidates`: one for each
/// candidate without a role, in the candidates' order.
pub open spec fn assignments_spec(candidates: Seq<RoleCandidate>, target: u64) -> Seq<
    RoleAssignment,
>
    decreases candidates.len(),
{
    if candidates.len() == 0 {
        Seq::empty()
    } else {
        let earlier = assignments_spec(candidates.drop_last(), target);
        let candidate = candidates.last();
        if candidate.role is None {
            earlier.push(
                RoleAssignment {
                    entity: candidate.entity,
                    role: role_for(candidate.entity, target),
                },
            )
        } else {
            earlier
        }
    }
}

/// Classification leaves every candidate with exactly one role. A candidate
/// without a role is given one, the one that control decides; no entity is
/// given both roles; a candidate with a role keeps it and is given nothing, so
/// that there are as many assignments as candidates without a role.
pub proof fn lemma_roles_exclusive(candidates: Seq<RoleCandidate>, target: u64)
    ensures
        ({
            let assignments = assignments_spec(candidates, target);
            &&& forall|i: int|
                0 <= i < candidates.len() && (#[trigger] candidates[i]).role is None ==> exists|
                    k: int,
                |
                    0 <= k < assignments.len() && (#[trigger] assignments[k]) == (RoleAssignment {
                        entity: candidates[i].entity,
                        role: classify_spec(candidates[i], target),
                    })
            &&& forall|k: int|
                0 <= k < assignments.len() ==> (#[trigger] assignments[k]).role == role_for(
                    assignments[k].entity,
                    target,
                )
            &&& forall|k: int, l: int|
                0 <= k < assignments.len() && 0 <= l < assignments.len() && (
                #[trigger] assignments[k]).entity == (#[trigger] assignments[l]).entity
                    ==> assignments[k].role == assignments[l].role
            &&& forall|i: int|
                0 <= i < candidates.len() && (#[trigger] candidates[i]).role is Some
                    ==> classify_spec(candidates[i], target) == candidates[i].role->0
            &&& assignments.len() == candidates.filter(
                |candidate: RoleCandidate| candidate.role is None,
            ).len()
        }),
    decreases candidates.len(),
{
    reveal(Seq::filter);
    let all = assignments_spec(candidates, target);
    if candidates.len() > 0 {
        let rest = candidates.drop_last();
        let earlier = assignments_spec(rest, target);
        lemma_roles_exclusive(rest, target);
        assert forall|i: int|
            0 <= i < candidates.len() && (#[trigger] candidates[i]).role is None implies exists|
            k: int,
        |
            0 <= k < all.len() && (#[trigger] all[k]) == (RoleAssignment {
                entity: candidates[i].entity,
                role: classify_spec(candidates[i], target),
            }) by {
            if i < rest.len() {
                assert(rest[i] == candidates[i]);
                let k = choose|k: int|
                    0 <= k < earlier.len() && (#[trigger] earlier[k]) == (RoleAssignment {
                        entity: rest[i].entity,
                        role: classify_spec(rest[i], target),
                    });
                assert(all[k] == earlier[k]);
            } else {
                assert(all[all.len() - 1] == (RoleAssignment {
                    entity: candidates[i].entity,
                    role: classify_spec(candidates[i], target),
                }));
            }
        }
        assert forall|k: int| 0 <= k < all.len() implies (#[trigger] all[k]).role == role_for(
            all[k].entity,
            target,
        ) by {
            if k < earlier.len() {
                assert(all[k] == earlier[k]);
            }
        }
    }
}

impl Role {
    /// The role of a candidate after classification. A role, once held, stays.
    pub fn classify(candidate: RoleCandidate, target: u64) -> (role: Role)
        ensures
            role == classify_spec(candidate, target),
    {
        match candidate.role {
            Some(role) => role,
            None => if candidate.entity == target {
                Role::Predicted
            } else {
                Role::Interpolated
            },
        }
    }
}

/// Decides the roles when `target` has been marked as the entity that its
/// owner predicts: each of `owners` that holds no role yet becomes predicted
/// if it is `target` and interpolated if it is not. Candidates that hold a role
/// keep it and get no assignment.
pub fn owner_prediction_init_system(target: u64, owners: &Vec<RoleCandidate>) -> (assignments: Vec<
    RoleAssignment,
>)
    ensures
        assignments@ == assignments_spec(owners@, target),
{
    let mut assignments: Vec<RoleAssignment> = Vec::new();
    let mut i: usize = 0;
    while i < owners.len()
        invariant
            i <= owners@.len(),
            assignments@ == assignments_spec(owners@.take(i as int), target),
        decreases owners@.len() - i,
    {
        proof {
            assert(owners@.take(i as int + 1).drop_last() == owners@.take(i as int));
        }
        let candidate = owners[i];
        if candidate.role.is_none() {
            assignments.push(
                RoleAssignment { entity: candidate.entity, role: Role::classify(candidate, target) },
            );
        }
        i += 1;
    }
    proof {
        assert(owners@.take(i as int) == owners@);
    }
    assignments
}

/// Lets `delta` microseconds pass for the snapshot buffers of the predicted
/// entities.
pub fn predicted_snapshot_system<'a, T>(buffers: &mut Vec<&'a mut SnapshotBuffer<T>>, delta: u64)
    ensures
        final(buffers)@.len() == old(buffers)@.len(),
        forall|i: int|
            0 <= i < old(buffers)@.len() ==> ({
                &&& *final(#[trigger] final(buffers)@[i]) == *final(old(buffers)@[i])
                &&& final(buffers)@[i]@ == old(buffers)@[i]@
                &&& final(buffers)@[i].tick_rate() == old(buffers)@[i].tick_rate()
                &&& final(buffers)@[i].elapsed() == crate::interpolation::advanced_spec(old(buffers)@[i].elapsed(), delta)
            }),
{
    let mut i: usize = 0;
    while i < buffers.len()
        invariant
            i <= buffers@.len(),
            buffers@.len() == old(buffers)@.len(),
            forall|j: int|
                0 <= j < old(buffers)@.len() ==> ({
                    &&& *final(#[trigger] buffers@[j]) == *final(old(buffers)@[j])
                    &&& buffers@[j]@ == old(buffers)@[j]@
                    &&& buffers@[j].tick_rate() == old(buffers)@[j].tick_rate()
                }),
            forall|j: int|
                0 <= j < i ==> #[trigger] buffers@[j].elapsed() == crate::interpolation::advanced_spec(
                    old(buffers)@[j].elapsed(),
                    delta,
                ),
            forall|j: int|
                i <= j < old(buffers)@.len() ==> #[trigger] buffers@[j].elapsed() == old(
                    buffers,
                )@[j].elapsed(),
        decreases buffers@.len() - i,
    {
        buffers[i].advance(delta);
        i += 1;
    }
}

/// Why an input event changed nothing.
#[derive(Clone, Copy, Debug, PartialEq, Eq, Structural)]
pub enum PredictionError {
    /// No entity is under the control of the client that the event came from.
    NoControlledEntity,
}

/// An entity of the authoritative simulation as an input event sees it.
pub struct ServerSubject<'a, T, C> {
    /// Who controls the entity.
    pub owner: NetworkOwner,
    /// The true state that events act on.
    pub component: &'a mut C,
    /// What the transition reads besides the event.
    pub context: &'a T,
}

/// The number of `subjects` that `client_entity` controls.
pub open spec fn controlled_count<T, C>(subjects: Seq<ServerSubject<T, C>>, client_entity: u64) -> nat
    decreases subjects.len(),
{
    if subjects.len() == 0 {
        0
    } else {
        controlled_count(subjects.drop_last(), client_entity) + if subjects.last().owner.0
            == client_entity {
            1nat
        } else {
            0nat
        }
    }
}

/// The state of a subject once an event of `client_entity` has been
/// delivered: the event has acted on it once if the client controls it, and
/// not at all otherwise.
pub open spec fn server_update_spec<E, T, C: Predict<E, T>>(
    owner: NetworkOwner,
    state: C,
    client_entity: u64,
    event: E,
    delta_time: u64,
    context: T,
) -> C {
    if owner.0 == client_entity {
        state.apply_event_spec(event, delta_time, context)
    } else {
        state
    }
}

/// Delivers an input event of the client `client_entity` to the authoritative
/// state: the event acts once, for `delta_time` microseconds, on every subject
/// that the client controls, and the others stay as they are. Returns the
/// number of subjects changed, or `NoControlledEntity` where the client
/// controls none.
pub fn server_update_system<'a, E, T, C: Predict<E, T>>(
    client_entity: u64,
    event: &E,
    delta_time: u64,
    subjects: &mut Vec<ServerSubject<'a, T, C>>,
) -> (outcome: Result<usize, PredictionError>)
    ensures
        final(subjects)@.len() == old(subjects)@.len(),
        forall|i: int|
            0 <= i < old(subjects)@.len() ==> ({
                &&& (#[trigger] final(subjects)@[i]).owner == old(subjects)@[i].owner
                &&& final(subjects)@[i].context == old(subjects)@[i].context
                &&& *final(final(subjects)@[i].component) == *final(old(subjects)@[i].component)
                &&& *final(subjects)@[i].component == server_update_spec(
                    old(subjects)@[i].owner,
                    *old(subjects)@[i].component,
                    client_entity,
                    *event,
                    delta_time,
                    *old(subjects)@[i].context,
                )
            }),
        controlled_count(old(subjects)@, client_entity) == 0 <==> outcome == Err::<
            usize,
            PredictionError,
        >(PredictionError::NoControlledEntity),
        outcome matches Ok(updated) ==> updated == controlled_count(old(subjects)@, client_entity),
{
    let mut updated: usize = 0;
    let mut i: usize = 0;
    while i < subjects.len()
        invariant
            i <= subjects@.len(),
            subjects@.len() == old(subjects)@.len(),
            updated == controlled_count(old(subjects)@.take(i as int), client_entity),
            updated <= i,
            forall|j: int|
                0 <= j < old(subjects)@.len() ==> ({
                    &&& (#[trigger] subjects@[j]).owner == old(subjects)@[j].owner
                    &&& subjects@[j].context == old(subjects)@[j].context
                    &&& *final(subjects@[j].component) == *final(old(subjects)@[j].component)
                }),
            forall|j: int|
                0 <= j < i ==> *(#[trigger] subjects@[j]).component == server_update_spec(
                    old(subjects)@[j].owner,
                    *old(subjects)@[j].component,
                    client_entity,
                    *event,
                    delta_time,
                    *old(subjects)@[j].context,
                ),
            forall|j: int|
                i <= j < old(subjects)@.len() ==> *(#[trigger] subjects@[j]).component == *old(
                    subjects,
                )@[j].component,
        decreases subjects@.len() - i,
    {
        proof {
            assert(old(subjects)@.take(i as int + 1).drop_last() == old(subjects)@.take(i as int));
        }
        if subjects[i].owner.0 == client_entity {
            let subject = &mut subjects[i];
            subject.component.apply_event(event, delta_time, subject.context);
            updated = updated + 1;
        }
        i += 1;
    }
    proof {
        assert(old(subjects)@.take(i as int) == old(subjects)@);
    }
    if updated == 0 {
        Err(PredictionError::NoControlledEntity)
    } else {
        Ok(updated)
    }
}

/// A predicted entity as a local input event sees it.
pub struct PredictedSubject<'a, E, T, C> {
    /// The state that is shown for the entity.
    pub component: &'a mut C,
    /// The confirmed history of that state.
    pub snapshot_buffer: &'a SnapshotBuffer<C>,
    /// The newest server tick that the entity is known to reflect.
    pub confirmed_tick: u32,
    /// What the transition reads besides the event.
    pub context: &'a T,
    /// The inputs of the entity that the server may not have seen yet.
    pub event_history: &'a mut PredictedEventHistory<E>,
}

/// Whether a predicted entity that showed `shown` and held the inputs
/// `events` may show `corrected` and hold `kept` after the local input `event`:
/// a copy of the event, tagged with `confirmed_tick` and `delta_time`, joins the
/// history, the inputs older than the newest confirmed snapshot leave it, and
/// `corrected` is the reconciled state for what is left.
pub open spec fn predicted_update_spec<E: Clone, T, C: Predict<E, T> + Clone>(
    event: E,
    delta_time: u64,
    confirmed_tick: u32,
    snapshots: Seq<Snapshot<C>>,
    context: T,
    shown: C,
    events: Seq<EventSnapshot<E>>,
    corrected: C,
    kept: Seq<EventSnapshot<E>>,
) -> bool {
    exists|recorded: E| #[trigger]
        cloned(event, recorded) && kept == drop_stale(
            events.push(EventSnapshot { value: recorded, tick: confirmed_tick, delta_time }),
            crate::interpolation::latest_tick_spec(snapshots),
        ) && reconcile_spec(snapshots, shown, kept, context, corrected)
}

/// Feeds a local input event to the entities that the local session
/// predicts. For each of `subjects`, in turn: the event is recorded in the
/// entity's history with the entity's confirmed tick and `delta_time`
/// microseconds, and the entity's state is reconciled as `reconcile` does.
/// Returns the number of entities updated, or `NoControlledEntity` where there
/// is none to update.
pub fn predicted_update_system<'a, E: Clone, T, C: Predict<E, T> + Clone>(
    event: &E,
    delta_time: u64,
    subjects: &mut Vec<PredictedSubject<'a, E, T, C>>,
) -> (outcome: Result<usize, PredictionError>)
    ensures
        final(subjects)@.len() == old(subjects)@.len(),
        forall|i: int|
            0 <= i < old(subjects)@.len() ==> ({
                &&& (#[trigger] final(subjects)@[i]).snapshot_buffer == old(
                    subjects,
                )@[i].snapshot_buffer
                &&& final(subjects)@[i].confirmed_tick == old(subjects)@[i].confirmed_tick
                &&& final(subjects)@[i].context == old(subjects)@[i].context
                &&& *final(final(subjects)@[i].component) == *final(old(subjects)@[i].component)
                &&& *final(final(subjects)@[i].event_history) == *final(old(subjects)@[i].event_history)
                &&& predicted_update_spec(
                    *event,
                    delta_time,
                    old(subjects)@[i].confirmed_tick,
                    old(subjects)@[i].snapshot_buffer@,
                    *old(subjects)@[i].context,
                    *old(subjects)@[i].component,
                    old(subjects)@[i].event_history@,
                    *final(subjects)@[i].component,
                    final(subjects)@[i].event_history@,
                )
            }),
        old(subjects)@.len() == 0 <==> outcome == Err::<usize, PredictionError>(
            PredictionError::NoControlledEntity,
        ),
        outcome matches Ok(updated) ==> updated == old(subjects)@.len(),
{
    let mut i: usize = 0;
    while i < subjects.len()
        invariant
            i <= subjects@.len(),
            subjects@.len() == old(subjects)@.len(),
            forall|j: int|
                0 <= j < old(subjects)@.len() ==> ({
                    &&& (#[trigger] subjects@[j]).snapshot_buffer == old(
                        subjects,
                    )@[j].snapshot_buffer
                    &&& subjects@[j].confirmed_tick == old(subjects)@[j].confirmed_tick
                    &&& subjects@[j].context == old(subjects)@[j].context
                    &&& *final(subjects@[j].component) == *final(old(subjects)@[j].component)
                    &&& *final(subjects@[j].event_history) == *final(old(subjects)@[j].event_history)
                }),
            forall|j: int|
                0 <= j < i ==> predicted_update_spec(
                    *event,
                    delta_time,
                    old(subjects)@[j].confirmed_tick,
                    old(subjects)@[j].snapshot_buffer@,
                    *old(subjects)@[j].context,
                    *old(subjects)@[j].component,
                    old(subjects)@[j].event_history@,
                    *(#[trigger] subjects@[j]).component,
                    subjects@[j].event_history@,
                ),
            forall|j: int|
                i <= j < old(subjects)@.len() ==> ({
                    &&& *(#[trigger] subjects@[j]).component == *old(subjects)@[j].component
                    &&& *subjects@[j].event_history == *old(subjects)@[j].event_history
                }),
        decreases subjects@.len() - i,
    {
        let subject = &mut subjects[i];
        let recorded = event.clone();
        subject.event_history.insert(recorded, subject.confirmed_tick, delta_time);
        reconcile(
            subject.component,
            subject.snapshot_buffer,
            subject.event_history,
            subject.context,
        );
        proof {
            assert(cloned(*event, recorded));
        }
        i += 1;
    }
    if i == 0 {
        Err(PredictionError::NoControlledEntity)
    } else {
        Ok(i)
    }
}

} // verus!
