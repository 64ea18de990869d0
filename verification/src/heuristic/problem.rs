use vstd::prelude::*;
use crate::heuristic::interval::TimeValue;

verus! {

/// Index of a track, or one of the two markers below.
pub type TrackRef = i32;

/// Index of a train, or `SENTINEL_TRAIN`.
pub type TrainRef = i32;

/// Index of a visit of a train.
pub type VisitRef = u32;

/// The track of a train that has not entered the network yet.
pub const SENTINEL_TRACK: TrackRef = -1;

/// The track of a train that has left the network.
pub const TRAIN_FINISHED: TrackRef = -2;

/// No train.
pub const SENTINEL_TRAIN: TrainRef = -1;

/// A network of tracks and the trains that run through it.
pub struct Problem {
    pub trains: Vec<Train>,
    pub tracks: Vec<Track>,
}

/// A track section with its neighbours and its minimum travel time.
pub struct Track {
    pub prevs: Vec<TrackRef>,
    pub nexts: Vec<TrackRef>,
    pub travel_time: TimeValue,
}

/// A train: when it appears and what it must visit.
pub struct Train {
    pub appears_at: TimeValue,
    pub visits: Vec<Visit>,
}

/// A visit of a train at one of some alternative resources.
pub struct Visit {
    pub resource_alternatives: Vec<TrackRef>,
    pub earliest_out: TimeValue,
    pub measure_delay: Option<i32>,
    pub slack: u32,
}

/// For each train, the times at which it passes its visits.
pub type Schedule = Vec<Vec<TimeValue>>;

/// The track network can be walked: every successor names a track of the
/// network, and every track index fits in a `TrackRef`.
pub open spec fn network_wf(p: &Problem) -> bool {
    &&& p.tracks.len() <= i32::MAX
    &&& forall|i: int, j: int|
        0 <= i < p.tracks.len() && 0 <= j < p.tracks[i].nexts.len() ==> 0 <= #[trigger] p.tracks[i].nexts[j]
            < p.tracks.len()
}

/// The minimum travel time of a track (zero for the two markers).
pub open spec fn travel_of(p: &Problem, r: int) -> int {
    if 0 <= r < p.tracks.len() {
        p.tracks[r].travel_time as int
    } else {
        0
    }
}

} // verus!
