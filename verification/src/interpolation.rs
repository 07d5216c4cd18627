//! Buffers of confirmed snapshots and the blending of the two newest of them.
use std::collections::VecDeque;
use vstd::prelude::*;

verus! {

/// The number of parts that make up a whole step between two snapshots.
pub const BLEND_SCALE: u32 = 1_000_000;

/// What a blend factor is for `elapsed` microseconds since the newest snapshot
/// when the server runs at most `max_tick_rate` ticks per second: the elapsed
/// share of one tick interval, in millionths, and never more than the whole.
pub open spec fn blend_parts(elapsed: u64, max_tick_rate: u16) -> int {
    if elapsed * max_tick_rate <= BLEND_SCALE {
        elapsed * max_tick_rate
    } else {
        BLEND_SCALE as int
    }
}

/// The value that lies `parts` millionths of the way from `start` to `end`,
/// rounded toward `start`.
pub open spec fn lerp_spec(start: int, end: int, parts: int) -> int {
    if start <= end {
        start + ((end - start) * parts) / (BLEND_SCALE as int)
    } else {
        start - ((start - end) * parts) / (BLEND_SCALE as int)
    }
}

/// The number of millionths that `parts` stands for once it is clamped to the
/// whole step.
pub open spec fn clamp_parts(parts: int) -> int {
    if parts < 0 {
        0
    } else if parts <= BLEND_SCALE {
        parts
    } else {
        BLEND_SCALE as int
    }
}

/// How far a blend has moved from the older snapshot toward the newer one,
/// in millionths between 0 (the older) and `BLEND_SCALE` (the newer).
#[derive(Clone, Copy, Debug)]
pub struct BlendFactor {
    parts: u32,
}

impl BlendFactor {
    /// The factor in millionths.
    pub closed spec fn parts(self) -> int {
        self.parts as int
    }

    /// The factor of `parts` millionths, clamped to the whole step.
    pub closed spec fn from_parts(parts: int) -> BlendFactor {
        BlendFactor { parts: clamp_parts(parts) as u32 }
    }

    #[verifier::type_invariant]
    pub closed spec fn well_formed(self) -> bool {
        self.parts <= BLEND_SCALE
    }

    /// `from_parts` yields a factor within the whole step that holds the
    /// clamped number.
    pub proof fn lemma_from_parts(parts: int)
        ensures
            Self::from_parts(parts).well_formed(),
            Self::from_parts(parts).parts() == clamp_parts(parts),
            0 <= Self::from_parts(parts).parts() <= BLEND_SCALE,
    {
    }

    /// The factor of `parts` millionths, clamped to the whole step.
    pub fn new(parts: u32) -> (factor: BlendFactor)
        ensures
            factor == Self::from_parts(parts as int),
    {
        if parts <= BLEND_SCALE {
            BlendFactor { parts }
        } else {
            BlendFactor { parts: BLEND_SCALE }
        }
    }

    /// The factor reached `elapsed` microseconds after the newest snapshot, when
    /// one tick lasts the `max_tick_rate`-th part of a second.
    pub fn from_elapsed(elapsed: u64, max_tick_rate: u16) -> (factor: BlendFactor)
        ensures
            factor == Self::from_parts(blend_parts(elapsed, max_tick_rate)),
    {
        assert(elapsed * max_tick_rate <= 0xffff_ffff_ffff_ffff * 0xffff) by (nonlinear_arith)
            requires
                0 <= elapsed <= 0xffff_ffff_ffff_ffff,
                0 <= max_tick_rate <= 0xffff,
        ;
        let scaled: u128 = (elapsed as u128) * (max_tick_rate as u128);
        if scaled <= BLEND_SCALE as u128 {
            BlendFactor { parts: scaled as u32 }
        } else {
            BlendFactor { parts: BLEND_SCALE }
        }
    }

    /// The factor in millionths, at most `BLEND_SCALE`.
    pub fn parts_per_million(&self) -> (parts: u32)
        ensures
            parts == self.parts(),
            parts <= BLEND_SCALE,
    {
        proof {
            use_type_invariant(self);
        }
        self.parts
    }
}

/// The blended value cannot leave the interval between its two ends.
pub proof fn lemma_lerp_between(start: int, end: int, parts: int)
    requires
        0 <= parts <= BLEND_SCALE,
    ensures
        start <= end ==> start <= lerp_spec(start, end, parts) <= end,
        end <= start ==> end <= lerp_spec(start, end, parts) <= start,
        lerp_spec(start, end, 0) == start,
        lerp_spec(start, end, BLEND_SCALE as int) == end,
{
    let scale = BLEND_SCALE as int;
    let span = if start <= end { end - start } else { start - end };
    assert(0 <= span * parts <= span * scale) by (nonlinear_arith)
        requires
            0 <= span,
            0 <= parts <= scale,
    ;
    assert(0 <= (span * parts) / scale <= span) by (nonlinear_arith)
        requires
            0 <= span * parts <= span * scale,
            scale > 0,
    ;
    assert((span * scale) / scale == span) by (nonlinear_arith)
        requires
            scale > 0,
    ;
    assert(span * 0 == 0) by (nonlinear_arith);
}

/// Blends two scalars: `parts` millionths of the way from `start` to `end`.
pub fn lerp(start: i64, end: i64, t: BlendFactor) -> (blended: i64)
    ensures
        blended == lerp_spec(start as int, end as int, t.parts()),
{
    proof {
        use_type_invariant(&t);
        lemma_lerp_between(start as int, end as int, t.parts());
    }
    let parts: i128 = t.parts as i128;
    let scale: i128 = BLEND_SCALE as i128;
    if start <= end {
        let span: i128 = end as i128 - start as i128;
        assert(0 <= span * parts <= 0x1_0000_0000_0000_0000 * 1_000_000) by (nonlinear_arith)
            requires
                0 <= span <= 0x1_0000_0000_0000_0000,
                0 <= parts <= 1_000_000,
        ;
        let moved: i128 = (span * parts) / scale;
        (start as i128 + moved) as i64
    } else {
        let span: i128 = start as i128 - end as i128;
        assert(0 <= span * parts <= 0x1_0000_0000_0000_0000 * 1_000_000) by (nonlinear_arith)
            requires
                0 <= span <= 0x1_0000_0000_0000_0000,
                0 <= parts <= 1_000_000,
        ;
        let moved: i128 = (span * parts) / scale;
        (start as i128 - moved) as i64
    }
}

/// A value that can be blended with another of its kind.
///
/// `interpolate_spec` says what the blend is; an implementation promises that
/// `interpolate` computes exactly that. Verus holds verified implementations to
/// the promise; of others it is taken on trust.
pub trait Interpolate: Sized {
    /// The value `t` of the way from `self` to `other`.
    spec fn interpolate_spec(&self, other: &Self, t: BlendFactor) -> Self;

    /// Blends `self`, the older value, with `other`, the newer one.
    fn interpolate(&self, other: &Self, t: BlendFactor) -> (blended: Self)
        ensures
            blended == self.interpolate_spec(other, t),
    ;
}

impl Interpolate for i64 {
    open spec fn interpolate_spec(&self, other: &Self, t: BlendFactor) -> Self {
        lerp_spec(*self as int, *other as int, t.parts()) as i64
    }

    fn interpolate(&self, other: &Self, t: BlendFactor) -> (blended: Self) {
        lerp(*self, *other, t)
    }
}

/// The tick that a buffer reports while it holds no snapshot.
pub const NO_SNAPSHOT_TICK: u32 = 0;

/// A confirmed value together with the tick at which the server held it.
pub struct Snapshot<T> {
    pub value: T,
    pub tick: u32,
}

impl<T> Snapshot<T> {
    pub fn new(value: T, tick: u32) -> (snapshot: Snapshot<T>)
        ensures
            snapshot == (Snapshot { value, tick }),
    {
        Snapshot { value, tick }
    }
}

/// Every snapshot is older than all that follow it.
pub open spec fn ticks_increasing<T>(snapshots: Seq<Snapshot<T>>) -> bool {
    forall|i: int, j: int| 0 <= i < j < snapshots.len() ==> snapshots[i].tick < snapshots[j].tick
}

/// The number of snapshots that a buffer keeps for a server of at most
/// `max_tick_rate` ticks per second: one second's worth, and never fewer than
/// the two that a blend needs.
pub open spec fn capacity_for(max_tick_rate: u16) -> nat {
    if max_tick_rate < 2 {
        2
    } else {
        max_tick_rate as nat
    }
}

/// Whether a snapshot of `tick` is newer than all that `snapshots` holds.
pub open spec fn accepts<T>(snapshots: Seq<Snapshot<T>>, tick: u32) -> bool {
    snapshots.len() == 0 || snapshots.last().tick < tick
}

/// The newest `capacity` entries of `snapshots`, in their order.
pub open spec fn keep_newest<T>(snapshots: Seq<Snapshot<T>>, capacity: nat) -> Seq<Snapshot<T>> {
    if snapshots.len() <= capacity {
        snapshots
    } else {
        snapshots.skip(snapshots.len() - capacity)
    }
}

/// What a buffer of `capacity` holds after `snapshot` arrives: the snapshot is
/// appended and the oldest entries beyond the capacity leave, unless its tick
/// is not newer than the newest one held, in which case nothing changes.
pub open spec fn insert_spec<T>(
    snapshots: Seq<Snapshot<T>>,
    capacity: nat,
    snapshot: Snapshot<T>,
) -> Seq<Snapshot<T>> {
    if accepts(snapshots, snapshot.tick) {
        keep_newest(snapshots.push(snapshot), capacity)
    } else {
        snapshots
    }
}

/// What a buffer of `capacity` holds after the snapshots of `incoming` have
/// arrived one after another.
pub open spec fn insert_all_spec<T>(
    snapshots: Seq<Snapshot<T>>,
    capacity: nat,
    incoming: Seq<Snapshot<T>>,
) -> Seq<Snapshot<T>>
    decreases incoming.len(),
{
    if incoming.len() == 0 {
        snapshots
    } else {
        insert_spec(
            insert_all_spec(snapshots, capacity, incoming.drop_last()),
            capacity,
            incoming.last(),
        )
    }
}

/// A snapshot whose tick is not newer than the newest one held changes
/// nothing.
pub proof fn lemma_insert_stale_is_noop<T>(
    snapshots: Seq<Snapshot<T>>,
    capacity: nat,
    snapshot: Snapshot<T>,
)
    requires
        snapshots.len() > 0,
        snapshot.tick <= snapshots.last().tick,
    ensures
        insert_spec(snapshots, capacity, snapshot) == snapshots,
{
}

/// An insertion keeps the snapshots in the order of their ticks and within
/// the capacity, and a buffer is never empty after one.
pub proof fn lemma_insert_keeps_order<T>(
    snapshots: Seq<Snapshot<T>>,
    capacity: nat,
    snapshot: Snapshot<T>,
)
    requires
        ticks_increasing(snapshots),
        snapshots.len() <= capacity,
        capacity > 0,
    ensures
        ticks_increasing(insert_spec(snapshots, capacity, snapshot)),
        0 < insert_spec(snapshots, capacity, snapshot).len() <= capacity,
{
    if accepts(snapshots, snapshot.tick) {
        let pushed = snapshots.push(snapshot);
        assert(ticks_increasing(pushed));
    }
}

/// Snapshots that arrive with increasing ticks, all newer than what the
/// buffer holds, are kept in the order of their arrival, which is the order of
/// their ticks: the buffer then holds the newest `capacity` of the old and the
/// new snapshots together, and all the new ones if they fit an empty buffer.
pub proof fn lemma_inserts_in_tick_order<T>(
    snapshots: Seq<Snapshot<T>>,
    capacity: nat,
    incoming: Seq<Snapshot<T>>,
)
    requires
        ticks_increasing(snapshots),
        ticks_increasing(incoming),
        snapshots.len() > 0 && incoming.len() > 0 ==> snapshots.last().tick < incoming[0].tick,
        snapshots.len() <= capacity,
        capacity > 0,
    ensures
        insert_all_spec(snapshots, capacity, incoming) == keep_newest(
            snapshots + incoming,
            capacity,
        ),
        ticks_increasing(insert_all_spec(snapshots, capacity, incoming)),
        snapshots.len() == 0 && incoming.len() <= capacity ==> insert_all_spec(
            snapshots,
            capacity,
            incoming,
        ) == incoming,
    decreases incoming.len(),
{
    let together = snapshots + incoming;
    assert(ticks_increasing(together)) by {
        assert forall|i: int, j: int| 0 <= i < j < together.len() implies together[i].tick
            < together[j].tick by {
            if i < snapshots.len() && j >= snapshots.len() {
                assert(snapshots[i].tick <= snapshots.last().tick);
                assert(incoming[0].tick <= incoming[j - snapshots.len()].tick);
            }
        }
    }
    if incoming.len() == 0 {
        assert(together == snapshots);
    } else {
        let earlier = incoming.drop_last();
        let newest = incoming.last();
        lemma_inserts_in_tick_order(snapshots, capacity, earlier);
        let held = keep_newest(snapshots + earlier, capacity);
        assert((snapshots + earlier).push(newest) == together);
        assert(accepts(held, newest.tick)) by {
            if held.len() > 0 {
                assert(held.last() == together[together.len() - 2]);
            }
        }
        assert(keep_newest(held.push(newest), capacity) == keep_newest(together, capacity));
    }
    assert(ticks_increasing(keep_newest(together, capacity)));
    if snapshots.len() == 0 {
        assert(together == incoming);
    }
}

/// The tick of the newest snapshot, or `NO_SNAPSHOT_TICK` where there is none.
pub open spec fn latest_tick_spec<T>(snapshots: Seq<Snapshot<T>>) -> u32 {
    if snapshots.len() == 0 {
        NO_SNAPSHOT_TICK
    } else {
        snapshots.last().tick
    }
}

/// Whether `value` is what `snapshots` shows `elapsed` microseconds after the
/// newest of them arrived, for a server of at most `max_tick_rate` ticks per
/// second: `default` without a snapshot, a copy of the only snapshot, or else
/// the blend of the two newest.
pub open spec fn interpolates<T: Interpolate + Clone>(
    snapshots: Seq<Snapshot<T>>,
    max_tick_rate: u16,
    elapsed: u64,
    default: T,
    value: T,
) -> bool {
    if snapshots.len() == 0 {
        value == default
    } else if snapshots.len() == 1 {
        cloned(snapshots[0].value, value)
    } else {
        value == snapshots[snapshots.len() - 2].value.interpolate_spec(
            &snapshots[snapshots.len() - 1].value,
            BlendFactor::from_parts(blend_parts(elapsed, max_tick_rate)),
        )
    }
}

/// The clock of a buffer after `delta` more microseconds; it stops at its
/// largest value.
pub open spec fn advanced_spec(elapsed: u64, delta: u64) -> u64 {
    if elapsed + delta <= u64::MAX {
        (elapsed + delta) as u64
    } else {
        u64::MAX
    }
}

/// The confirmed history of one replicated attribute of one entity, oldest
/// first, with the time that has passed since the newest entry arrived.
pub struct SnapshotBuffer<T> {
    buffer: VecDeque<Snapshot<T>>,
    max_tick_rate: u16,
    time_since_last_snapshot: u64,
}

impl<T> View for SnapshotBuffer<T> {
    type V = Seq<Snapshot<T>>;

    closed spec fn view(&self) -> Seq<Snapshot<T>> {
        self.buffer@
    }
}

impl<T> SnapshotBuffer<T> {
    /// The tick rate that the buffer was made for.
    pub closed spec fn tick_rate(&self) -> u16 {
        self.max_tick_rate
    }

    /// Microseconds since the newest snapshot arrived.
    pub closed spec fn elapsed(&self) -> u64 {
        self.time_since_last_snapshot
    }

    /// The most snapshots that the buffer keeps.
    pub open spec fn capacity(&self) -> nat {
        capacity_for(self.tick_rate())
    }

    #[verifier::type_invariant]
    pub closed spec fn well_formed(&self) -> bool {
        &&& self.buffer@.len() <= capacity_for(self.max_tick_rate)
        &&& ticks_increasing(self.buffer@)
    }

    /// What well-formedness means for the view.
    pub proof fn lemma_well_formed(&self)
        requires
            self.well_formed(),
        ensures
            self@.len() <= self.capacity(),
            ticks_increasing(self@),
    {
    }

    /// An empty buffer for a server of at most `max_tick_rate` ticks per second.
    pub fn new(max_tick_rate: u16) -> (buffer: SnapshotBuffer<T>)
        ensures
            buffer@ == Seq::<Snapshot<T>>::empty(),
            buffer.tick_rate() == max_tick_rate,
            buffer.elapsed() == 0,
    {
        SnapshotBuffer { buffer: VecDeque::new(), max_tick_rate, time_since_last_snapshot: 0 }
    }

    /// The number of snapshots held.
    pub fn len(&self) -> (len: usize)
        ensures
            len == self@.len(),
            len <= self.capacity(),
            ticks_increasing(self@),
    {
        proof {
            use_type_invariant(self);
            self.lemma_well_formed();
        }
        self.buffer.len()
    }

    /// The snapshot at `index`, counted from the oldest.
    pub fn get(&self, index: usize) -> (snapshot: Option<&Snapshot<T>>)
        ensures
            index < self@.len() ==> snapshot == Some(&self@[index as int]),
            index >= self@.len() ==> snapshot is None,
    {
        if index < self.buffer.len() {
            Some(&self.buffer[index])
        } else {
            None
        }
    }

    /// The newest snapshot, if there is one.
    pub fn latest(&self) -> (snapshot: Option<&Snapshot<T>>)
        ensures
            self@.len() == 0 ==> snapshot is None,
            self@.len() > 0 ==> snapshot == Some(&self@.last()),
    {
        let len = self.buffer.len();
        if len == 0 {
            None
        } else {
            Some(&self.buffer[len - 1])
        }
    }

    /// Records a confirmed value. A snapshot whose tick is not newer than the
    /// newest one held is dropped and leaves the buffer as it was; an accepted
    /// one restarts the clock.
    pub fn insert(&mut self, value: T, tick: u32)
        ensures
            final(self)@ == insert_spec(
                old(self)@,
                old(self).capacity(),
                (Snapshot { value, tick }),
            ),
            final(self).tick_rate() == old(self).tick_rate(),
            final(self).elapsed() == (if accepts(old(self)@, tick) {
                0
            } else {
                old(self).elapsed()
            }),
            ticks_increasing(final(self)@),
            0 < final(self)@.len() <= final(self).capacity(),
    {
        proof {
            use_type_invariant(&*self);
        }
        let len = self.buffer.len();
        if len > 0 && self.buffer[len - 1].tick >= tick {
            return ;
        }
        let capacity: usize = if self.max_tick_rate < 2 {
            2
        } else {
            self.max_tick_rate as usize
        };
        let ghost before = self.buffer@;
        let mut buffer: VecDeque<Snapshot<T>> = VecDeque::new();
        std::mem::swap(&mut self.buffer, &mut buffer);
        if len >= capacity {
            let _ = buffer.pop_front();
        }
        buffer.push_back(Snapshot { value, tick });
        proof {
            let pushed = before.push(Snapshot { value, tick });
            assert(ticks_increasing(pushed));
            assert(buffer@ =~= keep_newest(pushed, capacity as nat));
        }
        self.buffer = buffer;
        self.time_since_last_snapshot = 0;
    }

    /// The tick of the newest snapshot, or `NO_SNAPSHOT_TICK` while the buffer
    /// is empty.
    pub fn latest_snapshot_tick(&self) -> (tick: u32)
        ensures
            tick == latest_tick_spec(self@),
    {
        let len = self.buffer.len();
        if len == 0 {
            NO_SNAPSHOT_TICK
        } else {
            self.buffer[len - 1].tick
        }
    }

    /// The newest confirmed value, or `default` while the buffer is empty.
    pub fn latest_snapshot(&self, default: T) -> (value: T) where T: Clone
        ensures
            self@.len() == 0 ==> value == default,
            self@.len() > 0 ==> cloned(self@.last().value, value),
    {
        let len = self.buffer.len();
        if len == 0 {
            default
        } else {
            self.buffer[len - 1].value.clone()
        }
    }

    /// The value to show `elapsed` microseconds after the newest snapshot
    /// arrived: the two newest snapshots blended by the elapsed share of one
    /// tick interval. A single snapshot is returned as it is, and `default`
    /// while the buffer is empty.
    pub fn interpolate(&self, elapsed: u64, default: T) -> (value: T) where T: Interpolate + Clone
        ensures
            interpolates(self@, self.tick_rate(), elapsed, default, value),
    {
        let len = self.buffer.len();
        if len == 0 {
            default
        } else if len == 1 {
            self.buffer[0].value.clone()
        } else {
            let t = BlendFactor::from_elapsed(elapsed, self.max_tick_rate);
            self.buffer[len - 2].value.interpolate(&self.buffer[len - 1].value, t)
        }
    }

    /// Microseconds since the newest snapshot arrived.
    pub fn age(&self) -> (age: u64)
        ensures
            age == self.elapsed(),
    {
        self.time_since_last_snapshot
    }

    /// Lets `delta` more microseconds pass; the clock stops at its largest value.
    pub fn advance(&mut self, delta: u64)
        ensures
            final(self)@ == old(self)@,
            final(self).tick_rate() == old(self).tick_rate(),
            final(self).elapsed() == advanced_spec(old(self).elapsed(), delta),
    {
        proof {
            use_type_invariant(&*self);
        }
        let room: u64 = u64::MAX - self.time_since_last_snapshot;
        if delta <= room {
            self.time_since_last_snapshot = self.time_since_last_snapshot + delta;
        } else {
            self.time_since_last_snapshot = u64::MAX;
        }
    }
}

/// An interpolated entity as a frame sees it.
pub struct InterpolatedSubject<'a, T> {
    /// The state that is shown for the entity.
    pub component: &'a mut T,
    /// The confirmed history of that state.
    pub snapshot_buffer: &'a mut SnapshotBuffer<T>,
}

/// Whether an interpolated entity that showed `shown` may show `blended`
/// when its confirmed history is `snapshots` and `elapsed` microseconds have
/// passed since the newest snapshot: the value that the history shows at that
/// moment, with a copy of `shown` to fall back on.
pub open spec fn interpolation_step_spec<T: Interpolate + Clone>(
    snapshots: Seq<Snapshot<T>>,
    max_tick_rate: u16,
    elapsed: u64,
    shown: T,
    blended: T,
) -> bool {
    exists|fallback: T| #[trigger]
        cloned(shown, fallback) && interpolates(
            snapshots,
            max_tick_rate,
            elapsed,
            fallback,
            blended,
        )
}

/// Shows, for each of the interpolated `subjects`, the value that its
/// snapshot buffer gives for the time that has passed since its newest
/// snapshot, and then lets `delta` more microseconds pass for the buffer.
pub fn snapshot_interpolation_system<'a, T: Interpolate + Clone>(
    subjects: &mut Vec<InterpolatedSubject<'a, T>>,
    delta: u64,
)
    ensures
        final(subjects)@.len() == old(subjects)@.len(),
        forall|i: int|
            0 <= i < old(subjects)@.len() ==> ({
                &&& *final((#[trigger] final(subjects)@[i]).component) == *final(old(subjects)@[i].component)
                &&& *final(final(subjects)@[i].snapshot_buffer) == *final(old(subjects)@[i].snapshot_buffer)
                &&& final(subjects)@[i].snapshot_buffer@ == old(subjects)@[i].snapshot_buffer@
                &&& final(subjects)@[i].snapshot_buffer.tick_rate() == old(
                    subjects,
                )@[i].snapshot_buffer.tick_rate()
                &&& final(subjects)@[i].snapshot_buffer.elapsed() == advanced_spec(
                    old(subjects)@[i].snapshot_buffer.elapsed(),
                    delta,
                )
                &&& interpolation_step_spec(
                    old(subjects)@[i].snapshot_buffer@,
                    old(subjects)@[i].snapshot_buffer.tick_rate(),
                    old(subjects)@[i].snapshot_buffer.elapsed(),
                    *old(subjects)@[i].component,
                    *final(subjects)@[i].component,
                )
            }),
{
    let mut i: usize = 0;
    while i < subjects.len()
        invariant
            i <= subjects@.len(),
            subjects@.len() == old(subjects)@.len(),
            forall|j: int|
                0 <= j < old(subjects)@.len() ==> ({
                    &&& *final((#[trigger] subjects@[j]).component) == *final(old(subjects)@[j].component)
                    &&& *final(subjects@[j].snapshot_buffer) == *final(old(subjects)@[j].snapshot_buffer)
                    &&& subjects@[j].snapshot_buffer@ == old(subjects)@[j].snapshot_buffer@
                    &&& subjects@[j].snapshot_buffer.tick_rate() == old(
                        subjects,
                    )@[j].snapshot_buffer.tick_rate()
                }),
            forall|j: int|
                0 <= j < i ==> ({
                    &&& (#[trigger] subjects@[j]).snapshot_buffer.elapsed() == advanced_spec(
                        old(subjects)@[j].snapshot_buffer.elapsed(),
                        delta,
                    )
                    &&& interpolation_step_spec(
                        old(subjects)@[j].snapshot_buffer@,
                        old(subjects)@[j].snapshot_buffer.tick_rate(),
                        old(subjects)@[j].snapshot_buffer.elapsed(),
                        *old(subjects)@[j].component,
                        *subjects@[j].component,
                    )
                }),
            forall|j: int|
                i <= j < old(subjects)@.len() ==> ({
                    &&& *(#[trigger] subjects@[j]).component == *old(subjects)@[j].component
                    &&& subjects@[j].snapshot_buffer.elapsed() == old(
                        subjects,
                    )@[j].snapshot_buffer.elapsed()
                }),
        decreases subjects@.len() - i,
    {
        let subject = &mut subjects[i];
        let fallback = subject.component.clone();
        let ghost shown = *subject.component;
        let blended = subject.snapshot_buffer.interpolate(subject.snapshot_buffer.age(), fallback);
        *subject.component = blended;
        subject.snapshot_buffer.advance(delta);
        proof {
            assert(cloned(shown, fallback));
        }
        i += 1;
    }
}

} // verus!
