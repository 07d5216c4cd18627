//! Client-side prediction and snapshot interpolation for a simulation whose
//! authority is a server: per-entity buffers of confirmed state, per-entity
//! histories of local input, replay of unconfirmed input over the last confirmed
//! state, and the choice between predicting an entity and interpolating it.
//!
//! Time is measured in whole microseconds, ticks are unsigned integers and
//! entities are the bits of their identifiers, so every result is a function of
//! its inputs alone.
use crate::interpolation::Snapshot;
use crate::interpolation::SnapshotBuffer;
use vstd::prelude::*;

pub mod interpolation;
pub mod prediction;

verus! {

/// Settings of the snapshot engine.
#[derive(Clone, Copy, Debug, PartialEq, Eq, Structural)]
pub struct SnapshotInterpolationPlugin {
    /// The largest number of ticks that the server simulates in one second.
    pub max_tick_rate: u16,
}

impl SnapshotInterpolationPlugin {
    /// An empty snapshot buffer for an attribute of an entity that a server
    /// with these settings replicates.
    pub fn snapshot_buffer<T>(&self) -> (buffer: SnapshotBuffer<T>)
        ensures
            buffer@ == Seq::<Snapshot<T>>::empty(),
            buffer.tick_rate() == self.max_tick_rate,
            buffer.elapsed() == 0,
    {
        SnapshotBuffer::new(self.max_tick_rate)
    }
}

/// The entity that stands for the client in control of the entity that
/// carries this tag, as the bits of its identifier.
#[derive(Clone, Copy, Debug, PartialEq, Eq, Structural)]
pub struct NetworkOwner(pub u64);

/// The identifier that the transport gave a client.
#[derive(Clone, Copy, Debug, PartialEq, Eq, Structural)]
pub struct ClientNetId(pub u64);

/// The two stages of a frame in which the engine works.
#[derive(Clone, Copy, Debug, PartialEq, Eq, Hash, Structural)]
pub enum InterpolationSet {
    /// Newly replicated entities get their roles and their buffers, and newly
    /// confirmed state is recorded. Runs once the frame's updates from the
    /// server have been received.
    Init,
    /// The shown state of interpolated entities is computed and the clocks of
    /// the buffers advance.
    Interpolate,
}

impl InterpolationSet {
    /// The stage that has to be over before this one starts, if the engine
    /// has one: interpolation reads what initialisation has written.
    pub open spec fn follows_spec(self) -> Option<InterpolationSet> {
        match self {
            InterpolationSet::Init => None,
            InterpolationSet::Interpolate => Some(InterpolationSet::Init),
        }
    }

    /// The stage that has to be over before this one starts.
    pub fn follows(self) -> (earlier: Option<InterpolationSet>)
        ensures
            earlier == self.follows_spec(),
    {
        match self {
            InterpolationSet::Init => None,
            InterpolationSet::Interpolate => Some(InterpolationSet::Init),
        }
    }
}

} // verus!
