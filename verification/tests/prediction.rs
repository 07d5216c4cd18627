use bevy_replicon_snap::interpolation::lerp;
use bevy_replicon_snap::interpolation::BlendFactor;
use bevy_replicon_snap::interpolation::Interpolate;
use bevy_replicon_snap::interpolation::SnapshotBuffer;
use bevy_replicon_snap::prediction::predicted_snapshot_system;
use bevy_replicon_snap::prediction::predicted_update_system;
use bevy_replicon_snap::prediction::reconcile;
use bevy_replicon_snap::prediction::replay;
use bevy_replicon_snap::prediction::server_update_system;
use bevy_replicon_snap::prediction::Predict;
use bevy_replicon_snap::prediction::PredictedEventHistory;
use bevy_replicon_snap::prediction::PredictedSubject;
use bevy_replicon_snap::prediction::PredictionError;
use bevy_replicon_snap::prediction::ServerSubject;
use bevy_replicon_snap::NetworkOwner;

/// A position on a line, in thousandths of a unit.
#[derive(Clone, Debug, PartialEq)]
struct Position(i64);

/// A step along the line: -1, 0 or 1.
#[derive(Clone, Debug, PartialEq)]
struct Move(i64);

/// Units per second.
struct Speed(i64);

impl Interpolate for Position {
    fn interpolate_spec(&self, other: &Self, t: BlendFactor) -> Self {
        Position(lerp(self.0, other.0, t))
    }

    fn interpolate(&self, other: &Self, t: BlendFactor) -> Self {
        self.interpolate_spec(other, t)
    }
}

impl Predict<Move, Speed> for Position {
    fn apply_event_spec(self, event: Move, delta_time: u64, context: Speed) -> Self {
        Position(self.0 + event.0 * context.0 * delta_time as i64 / 1000)
    }

    fn apply_event(&mut self, event: &Move, delta_time: u64, context: &Speed) {
        self.0 += event.0 * context.0 * delta_time as i64 / 1000;
    }
}

/// A log of the events that acted on it: order and multiplicity show.
#[derive(Clone, Debug, PartialEq)]
struct Log(Vec<(char, u64)>);

impl Interpolate for Log {
    fn interpolate_spec(&self, other: &Self, _t: BlendFactor) -> Self {
        other.clone()
    }

    fn interpolate(&self, other: &Self, t: BlendFactor) -> Self {
        self.interpolate_spec(other, t)
    }
}

impl Predict<char, ()> for Log {
    fn apply_event_spec(mut self, event: char, delta_time: u64, _context: ()) -> Self {
        self.0.push((event, delta_time));
        self
    }

    fn apply_event(&mut self, event: &char, delta_time: u64, _context: &()) {
        self.0.push((*event, delta_time));
    }
}

fn log(entries: &[(char, u64)]) -> Log {
    Log(entries.to_vec())
}

fn ticks_of<E>(history: &PredictedEventHistory<E>) -> Vec<u32> {
    history.0.iter().map(|event| event.tick).collect()
}

#[test]
fn replay_applies_the_unconfirmed_events_in_order() {
    let mut history = PredictedEventHistory::new();
    history.insert('a', 10, 1).insert('b', 11, 2).insert('c', 12, 3);
    let mut state = log(&[]);
    replay(&mut state, &mut history, 11, &());
    assert_eq!(state, log(&[('b', 2), ('c', 3)]));
    assert_eq!(ticks_of(&history), vec![11, 12]);
}

#[test]
fn replay_of_an_empty_history_leaves_the_state() {
    let mut history: PredictedEventHistory<char> = PredictedEventHistory::new();
    let mut state = log(&[('x', 9)]);
    replay(&mut state, &mut history, 0, &());
    assert_eq!(state, log(&[('x', 9)]));
}

#[test]
fn replay_of_the_same_events_gives_the_same_state() {
    let mut first_history = PredictedEventHistory::new();
    let mut second_history = PredictedEventHistory::new();
    for (tick, step) in [(10u32, 1i64), (11, -1), (12, 1), (12, 1)] {
        first_history.insert(Move(step), tick, 16_000);
        second_history.insert(Move(step), tick, 16_000);
    }
    let mut first = Position(500);
    let mut second = Position(500);
    replay(&mut first, &mut first_history, 11, &Speed(200));
    replay(&mut second, &mut second_history, 11, &Speed(200));
    assert_eq!(first, second);
    // Three events are left: -1, 1, 1, each worth 200 * 16 000 / 1000.
    assert_eq!(first, Position(500 + 3_200));
}

#[test]
fn replay_in_two_runs_equals_replay_in_one() {
    let events = [('a', 1u32), ('b', 2), ('c', 3), ('d', 4)];
    let mut whole = PredictedEventHistory::new();
    let mut head = PredictedEventHistory::new();
    let mut tail = PredictedEventHistory::new();
    for (index, (name, tick)) in events.iter().enumerate() {
        whole.insert(*name, *tick, 7);
        if index < 2 {
            head.insert(*name, *tick, 7);
        } else {
            tail.insert(*name, *tick, 7);
        }
    }
    let mut at_once = log(&[]);
    replay(&mut at_once, &mut whole, 0, &());
    let mut in_steps = log(&[]);
    replay(&mut in_steps, &mut head, 0, &());
    replay(&mut in_steps, &mut tail, 0, &());
    assert_eq!(at_once, in_steps);
}

#[test]
fn reconcile_replays_pending_input_over_the_confirmed_snapshot() {
    // Inputs at ticks 10, 11 and 12, 16 ms each; the server has confirmed
    // tick 11 with the position 1000.
    let mut history = PredictedEventHistory::new();
    history.insert(Move(1), 10, 16_000).insert(Move(1), 11, 16_000).insert(Move(1), 12, 16_000);
    let mut buffer: SnapshotBuffer<Position> = SnapshotBuffer::new(30);
    buffer.insert(Position(1000), 11);
    let mut shown = Position(-5);
    reconcile(&mut shown, &buffer, &mut history, &Speed(200));
    // The inputs of ticks 11 and 12 are left, each worth 200 * 16 000 / 1000.
    assert_eq!(ticks_of(&history), vec![11, 12]);
    assert_eq!(shown, Position(1000 + 2 * 3_200));
    assert_eq!(buffer.latest_snapshot(Position(0)), Position(1000));
    assert_eq!(buffer.len(), 1);
}

#[test]
fn reconcile_applies_each_pending_event_once() {
    let mut history = PredictedEventHistory::new();
    history.insert('a', 10, 16_000).insert('b', 11, 16_000).insert('c', 12, 16_000);
    let mut buffer: SnapshotBuffer<Log> = SnapshotBuffer::new(30);
    buffer.insert(log(&[('s', 0)]), 12);
    let mut shown = log(&[('o', 1), ('l', 2), ('d', 3)]);
    reconcile(&mut shown, &buffer, &mut history, &());
    assert_eq!(shown, log(&[('s', 0), ('c', 16_000)]));
    reconcile(&mut shown, &buffer, &mut history, &());
    assert_eq!(shown, log(&[('s', 0), ('c', 16_000)]));
}

#[test]
fn reconcile_shows_the_snapshot_when_all_input_is_confirmed() {
    let mut history = PredictedEventHistory::new();
    history.insert('a', 10, 1).insert('b', 11, 1);
    let mut buffer: SnapshotBuffer<Log> = SnapshotBuffer::new(30);
    buffer.insert(log(&[('s', 0)]), 10);
    buffer.insert(log(&[('t', 0)]), 20);
    let mut shown = log(&[('x', 1)]);
    reconcile(&mut shown, &buffer, &mut history, &());
    assert_eq!(shown, log(&[('t', 0)]));
    assert_eq!(history.0.len(), 0);
}

#[test]
fn reconcile_without_a_snapshot_replays_over_the_shown_state() {
    let mut history = PredictedEventHistory::new();
    history.insert('a', 0, 1).insert('b', 3, 2);
    let buffer: SnapshotBuffer<Log> = SnapshotBuffer::new(30);
    let mut shown = log(&[('x', 9)]);
    reconcile(&mut shown, &buffer, &mut history, &());
    assert_eq!(shown, log(&[('x', 9), ('a', 1), ('b', 2)]));
    assert_eq!(ticks_of(&history), vec![0, 3]);
}

#[test]
fn predicted_update_records_the_event_and_reconciles() {
    let mut buffer: SnapshotBuffer<Position> = SnapshotBuffer::new(30);
    buffer.insert(Position(1000), 11);
    let mut history = PredictedEventHistory::new();
    history.insert(Move(1), 10, 16_000).insert(Move(1), 11, 16_000);
    let mut shown = Position(0);
    let speed = Speed(200);
    let mut subjects = vec![PredictedSubject {
        component: &mut shown,
        snapshot_buffer: &buffer,
        confirmed_tick: 12,
        context: &speed,
        event_history: &mut history,
    }];
    let outcome = predicted_update_system(&Move(-1), 20_000, &mut subjects);
    assert_eq!(outcome, Ok(1));
    drop(subjects);
    assert_eq!(ticks_of(&history), vec![11, 12]);
    assert_eq!(history.0[1].value, Move(-1));
    assert_eq!(history.0[1].delta_time, 20_000);
    // 1000 + 200 * 16 000 / 1000 - 200 * 20 000 / 1000
    assert_eq!(shown, Position(1000 + 3_200 - 4_000));
    assert_eq!(buffer.latest_snapshot(Position(0)), Position(1000));
}

#[test]
fn predicted_update_treats_every_entity_by_its_own_history() {
    let mut first_buffer: SnapshotBuffer<Log> = SnapshotBuffer::new(30);
    first_buffer.insert(log(&[('f', 0)]), 5);
    let second_buffer: SnapshotBuffer<Log> = SnapshotBuffer::new(30);
    let mut first_history = PredictedEventHistory::new();
    first_history.insert('a', 4, 1).insert('b', 5, 2);
    let mut second_history = PredictedEventHistory::new();
    let mut first = log(&[]);
    let mut second = log(&[('y', 7)]);
    let mut subjects = vec![
        PredictedSubject {
            component: &mut first,
            snapshot_buffer: &first_buffer,
            confirmed_tick: 6,
            context: &(),
            event_history: &mut first_history,
        },
        PredictedSubject {
            component: &mut second,
            snapshot_buffer: &second_buffer,
            confirmed_tick: 0,
            context: &(),
            event_history: &mut second_history,
        },
    ];
    let outcome = predicted_update_system(&'e', 3, &mut subjects);
    assert_eq!(outcome, Ok(2));
    drop(subjects);
    assert_eq!(first, log(&[('f', 0), ('b', 2), ('e', 3)]));
    assert_eq!(ticks_of(&first_history), vec![5, 6]);
    assert_eq!(second, log(&[('y', 7), ('e', 3)]));
    assert_eq!(ticks_of(&second_history), vec![0]);
}

#[test]
fn predicted_update_without_entities_reports_it() {
    let mut subjects: Vec<PredictedSubject<char, (), Log>> = Vec::new();
    let outcome = predicted_update_system(&'e', 3, &mut subjects);
    assert_eq!(outcome, Err(PredictionError::NoControlledEntity));
}

#[test]
fn server_update_applies_the_event_once_to_the_owned_entity() {
    let mut mine = log(&[]);
    let mut theirs = log(&[('t', 1)]);
    let mut subjects = vec![
        ServerSubject { owner: NetworkOwner(7), component: &mut theirs, context: &() },
        ServerSubject { owner: NetworkOwner(8), component: &mut mine, context: &() },
    ];
    let outcome = server_update_system(8, &'e', 16_000, &mut subjects);
    assert_eq!(outcome, Ok(1));
    drop(subjects);
    assert_eq!(mine, log(&[('e', 16_000)]));
    assert_eq!(theirs, log(&[('t', 1)]));
}

#[test]
fn server_update_reaches_every_entity_of_the_client() {
    let mut first = Position(0);
    let mut second = Position(100);
    let mut other = Position(200);
    let speed = Speed(200);
    let mut subjects = vec![
        ServerSubject { owner: NetworkOwner(1), component: &mut first, context: &speed },
        ServerSubject { owner: NetworkOwner(2), component: &mut other, context: &speed },
        ServerSubject { owner: NetworkOwner(1), component: &mut second, context: &speed },
    ];
    let outcome = server_update_system(1, &Move(1), 10_000, &mut subjects);
    assert_eq!(outcome, Ok(2));
    drop(subjects);
    assert_eq!(first, Position(2_000));
    assert_eq!(second, Position(2_100));
    assert_eq!(other, Position(200));
}

#[test]
fn server_update_without_a_controlled_entity_reports_it() {
    let mut theirs = log(&[('t', 1)]);
    let mut subjects =
        vec![ServerSubject { owner: NetworkOwner(7), component: &mut theirs, context: &() }];
    let outcome = server_update_system(8, &'e', 16_000, &mut subjects);
    assert_eq!(outcome, Err(PredictionError::NoControlledEntity));
    drop(subjects);
    assert_eq!(theirs, log(&[('t', 1)]));
    let mut none: Vec<ServerSubject<(), Log>> = Vec::new();
    assert_eq!(
        server_update_system(8, &'e', 16_000, &mut none),
        Err(PredictionError::NoControlledEntity)
    );
}

#[test]
fn predicted_snapshot_system_advances_every_clock() {
    let mut first: SnapshotBuffer<i64> = SnapshotBuffer::new(30);
    let mut second: SnapshotBuffer<i64> = SnapshotBuffer::new(30);
    second.insert(5, 1);
    second.advance(u64::MAX - 10);
    let mut buffers = vec![&mut first, &mut second];
    predicted_snapshot_system(&mut buffers, 16_000);
    predicted_snapshot_system(&mut buffers, 1_000);
    drop(buffers);
    assert_eq!(first.age(), 17_000);
    assert_eq!(second.age(), u64::MAX);
    assert_eq!(second.len(), 1);
    assert_eq!(second.latest_snapshot(0), 5);
}
