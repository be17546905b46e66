//! The presence tracker: takes snapshots in, one after the other, and turns
//! the sightings of each device into presence intervals.

use crate::model::{Event, Interval, SnapshotView, Span, TrackerState};
use crate::types::{
    interval_views, network_views, record_views, Network, PresenceInterval, PresenceRecord,
    Snapshot,
};
use vstd::hash_map::StringHashMap;
use vstd::prelude::*;

verus! {

/// Why a snapshot was turned away.
#[derive(Debug, Clone, Copy, PartialEq, Eq)]
pub enum TrackerError {
    /// The silence threshold was zero.
    ThresholdNotPositive,
    /// The snapshot is older than one already taken in.
    TimestampRegressed,
}

/// What becomes of a snapshot: it is taken in where the state accepts it,
/// and turned away for its threshold first, for its timestamp second.
pub open spec fn verdict(state: TrackerState, snapshot: SnapshotView, threshold: nat) -> Result<
    (),
    TrackerError,
> {
    if threshold == 0 {
        Err(TrackerError::ThresholdNotPositive)
    } else if snapshot.timestamp < state.clock {
        Err(TrackerError::TimestampRegressed)
    } else {
        Ok(())
    }
}

/// The open span of one device.
#[derive(Clone, Copy)]
struct OpenSpan {
    start: u64,
    last: u64,
}

/// A presence tracker.
///
/// It holds the time of the latest snapshot, the open span of every device
/// that has one, the latest record of every device seen, and the intervals
/// closed so far. `TrackerState` is what it stands for, and every function
/// here says what it does in terms of that state.
pub struct Tracker {
    clock: u64,
    order: Vec<String>,
    open: StringHashMap<OpenSpan>,
    latest: StringHashMap<Network>,
    closed: Vec<PresenceInterval>,
}

impl View for Tracker {
    type V = TrackerState;

    closed spec fn view(&self) -> TrackerState {
        TrackerState {
            clock: self.clock as nat,
            order: Seq::new(self.order@.len(), |i: int| self.order@[i]@),
            open: Map::new(
                |d: Seq<char>| self.open@.contains_key(d),
                |d: Seq<char>|
                    Span { start: self.open@[d].start as nat, last: self.open@[d].last as nat },
            ),
            latest: Map::new(
                |d: Seq<char>| self.latest@.contains_key(d),
                |d: Seq<char>| self.latest@[d]@,
            ),
            closed: interval_views(self.closed@),
        }
    }
}

impl Tracker {
    /// Whether the tracker's state meets the invariant of the model.
    pub open spec fn wf(&self) -> bool {
        self@.inv()
    }

    /// A tracker that has seen nothing, with its clock at zero.
    pub fn new() -> (tracker: Tracker)
        ensures
            tracker.wf(),
            tracker@ == TrackerState::empty(),
    {
        let tracker = Tracker {
            clock: 0,
            order: Vec::new(),
            open: StringHashMap::new(),
            latest: StringHashMap::new(),
            closed: Vec::new(),
        };
        assert(tracker@ =~= TrackerState::empty());
        tracker
    }

    /// Takes in one sighting at the time of the clock.
    fn observe(&mut self, network: &Network, threshold: u64)
        requires
            old(self).wf(),
        ensures
            final(self).wf(),
            final(self)@ == old(self)@.observe(network@, old(self)@.clock, threshold as nat),
    {
        let t = self.clock;
        let found: Option<OpenSpan> = match self.open.get(network.mac.as_str()) {
            Some(span) => Some(*span),
            None => None,
        };
        match found {
            None => {
                self.order.push(network.mac.clone());
                self.open.insert(network.mac.clone(), OpenSpan { start: t, last: t });
            },
            Some(span) => {
                assert(old(self)@.open.contains_key(network.mac@));
                assert(old(self)@.open[network.mac@].last == span.last);
                if t - span.last > threshold {
                    self.closed.push(
                        PresenceInterval {
                            device: network.mac.clone(),
                            start: span.start,
                            end: span.last,
                        },
                    );
                    self.open.insert(network.mac.clone(), OpenSpan { start: t, last: t });
                } else {
                    self.open.insert(network.mac.clone(), OpenSpan { start: span.start, last: t });
                }
            },
        }
        self.latest.insert(network.mac.clone(), network.clone());
        proof {
            assert(self@ =~= old(self)@.observe(network@, old(self)@.clock, threshold as nat));
            old(self)@.lemma_observe_inv(network@, threshold as nat);
        }
    }

    /// Takes in one snapshot.
    ///
    /// A zero threshold and a snapshot older than the tracker's clock are
    /// turned away, in this order, and the tracker stays as it was. Otherwise
    /// the clock moves to the snapshot's timestamp and every network of the
    /// snapshot is observed at that time, in the order of the snapshot.
    /// Devices that the snapshot does not hold are left as they were.
    pub fn ingest(&mut self, snapshot: &Snapshot, threshold: u64) -> (outcome: Result<
        (),
        TrackerError,
    >)
        requires
            old(self).wf(),
        ensures
            final(self).wf(),
            outcome == verdict(old(self)@, snapshot@, threshold as nat),
            final(self)@ == old(self)@.apply(
                Event::Snapshot { snapshot: snapshot@, threshold: threshold as nat },
            ),
    {
        if threshold == 0 {
            return Err(TrackerError::ThresholdNotPositive);
        }
        if snapshot.timestamp < self.clock {
            return Err(TrackerError::TimestampRegressed);
        }
        let t = snapshot.timestamp;
        self.clock = t;
        proof {
            old(self)@.lemma_at_inv(t as nat);
            assert(self@ =~= old(self)@.at(t as nat));
        }
        let ghost start = self@;
        let ghost seen = snapshot@.networks;
        let n = snapshot.networks.len();
        let mut i: usize = 0;
        while i < n
            invariant
                i <= n,
                n == snapshot.networks.len(),
                seen == network_views(snapshot.networks@),
                self@.clock == t,
                self.wf(),
                self@ == start.observe_all(seen.take(i as int), t as nat, threshold as nat),
            decreases n - i,
        {
            proof {
                assert(seen.take(i + 1).drop_last() =~= seen.take(i as int));
                assert(seen.take(i + 1).last() == snapshot.networks[i as int]@);
            }
            self.observe(&snapshot.networks[i], threshold);
            i += 1;
        }
        assert(seen.take(n as int) =~= seen);
        Ok(())
    }

    /// The closed intervals, each with the latest record of its device.
    pub fn report(&self) -> (records: Vec<PresenceRecord>)
        requires
            self.wf(),
        ensures
            records@.len() == self@.closed.len(),
            record_views(records@) == self@.report(),
            forall|i: int|
                0 <= i < records@.len() ==> (#[trigger] records@[i]).interval.start
                    <= records@[i].interval.end,
    {
        let mut records: Vec<PresenceRecord> = Vec::new();
        let n = self.closed.len();
        let mut i: usize = 0;
        while i < n
            invariant
                i <= n,
                n == self.closed.len(),
                self.wf(),
                record_views(records@) == self@.report().take(i as int),
            decreases n - i,
        {
            let interval = self.closed[i].clone();
            assert(self@.closed[i as int] == interval@);
            assert(self@.latest.contains_key(interval.device@));
            match self.latest.get(interval.device.as_str()) {
                // Every closed interval's device has a record.
                Some(network) => {
                    let ghost before = record_views(records@);
                    records.push(PresenceRecord { interval, network: network.clone() });
                    assert(record_views(records@) =~= before.push(self@.report()[i as int]));
                    assert(self@.report().take(i + 1) =~= before.push(self@.report()[i as int]));
                },
                None => {},
            }
            i += 1;
        }
        assert(self@.report().take(n as int) =~= self@.report());
        assert forall|i: int| 0 <= i < records@.len() implies (
        #[trigger] records@[i]).interval.start <= records@[i].interval.end by {
            assert(record_views(records@)[i].interval == self@.closed[i]);
        }
        records
    }

    /// Closes every open span and hands out the report.
    ///
    /// Each open span closes to an interval from its start to the device's
    /// last sighting; the time of the call, `now`, does not enter into it.
    /// The new intervals follow the ones closed before, in the order in which
    /// their devices were first seen since the last call. A second call with
    /// nothing taken in between finds no open span, adds nothing and hands
    /// out the same report.
    #[allow(unused_variables)]
    pub fn finalize(&mut self, now: u64) -> (records: Vec<PresenceRecord>)
        requires
            old(self).wf(),
        ensures
            final(self).wf(),
            final(self)@ == old(self)@.apply(Event::Close),
            records@.len() == old(self)@.closed.len() + old(self)@.order.len(),
            record_views(records@) == old(self)@.finalize().report(),
            forall|i: int|
                0 <= i < records@.len() ==> (#[trigger] records@[i]).interval.start
                    <= records@[i].interval.end,
    {
        let n = self.order.len();
        let mut i: usize = 0;
        while i < n
            invariant
                i <= n,
                n == self.order.len(),
                old(self).wf(),
                self.order == old(self).order,
                self.open == old(self).open,
                self.latest == old(self).latest,
                self.clock == old(self).clock,
                interval_views(self.closed@) == old(self)@.closed + old(self)@.trailing().take(
                    i as int,
                ),
            decreases n - i,
        {
            assert(old(self)@.order[i as int] == self.order[i as int]@);
            assert(old(self)@.order.contains(old(self)@.order[i as int]));
            assert(old(self)@.open.contains_key(self.order[i as int]@));
            match self.open.get(self.order[i].as_str()) {
                // Every listed device has an open span.
                Some(span) => {
                    let ghost before = interval_views(self.closed@);
                    let interval = PresenceInterval {
                        device: self.order[i].clone(),
                        start: span.start,
                        end: span.last,
                    };
                    assert(interval@ == old(self)@.trailing()[i as int]);
                    self.closed.push(interval);
                    assert(interval_views(self.closed@) =~= before.push(
                        old(self)@.trailing()[i as int],
                    ));
                    assert(old(self)@.trailing().take(i + 1) =~= old(self)@.trailing().take(
                        i as int,
                    ).push(old(self)@.trailing()[i as int]));
                },
                None => {},
            }
            i += 1;
        }
        assert(old(self)@.trailing().take(n as int) =~= old(self)@.trailing());
        self.order = Vec::new();
        self.open.clear();
        proof {
            assert(self@ =~= old(self)@.finalize());
            old(self)@.lemma_finalize_inv();
        }
        self.report()
    }

    /// The timestamp of the latest snapshot taken in; zero before the first.
    pub fn clock(&self) -> (t: u64)
        ensures
            t == self@.clock,
    {
        self.clock
    }

    /// The open span of `device` as its start and its last sighting, if the
    /// device has one.
    pub fn open_span(&self, device: &str) -> (span: Option<(u64, u64)>)
        ensures
            span.is_some() == self@.open.contains_key(device@),
            span.is_some() ==> span.unwrap().0 == self@.open[device@].start && span.unwrap().1
                == self@.open[device@].last,
    {
        match self.open.get(device) {
            Some(span) => Some((span.start, span.last)),
            None => None,
        }
    }

    /// The latest record of `device`, if it was ever seen.
    pub fn latest(&self, device: &str) -> (network: Option<Network>)
        ensures
            network.is_some() == self@.latest.contains_key(device@),
            network.is_some() ==> network.unwrap()@ == self@.latest[device@],
    {
        match self.latest.get(device) {
            Some(network) => Some(network.clone()),
            None => None,
        }
    }

    /// The closed intervals of `device`, oldest closure first.
    pub fn intervals_of(&self, device: &str) -> (intervals: Vec<PresenceInterval>)
        ensures
            interval_views(intervals@) == self@.intervals_of(device@),
    {
        let ghost pick = |c: Interval| c.device == device@;
        let wanted = device.to_string();
        let mut intervals: Vec<PresenceInterval> = Vec::new();
        let n = self.closed.len();
        let mut i: usize = 0;
        proof {
            reveal(Seq::filter);
            assert(self@.closed.take(0) =~= Seq::<Interval>::empty());
        }
        while i < n
            invariant
                i <= n,
                n == self.closed.len(),
                pick == |c: Interval| c.device == device@,
                wanted@ == device@,
                interval_views(intervals@) == self@.closed.take(i as int).filter(pick),
            decreases n - i,
        {
            let ghost before = interval_views(intervals@);
            proof {
                reveal(Seq::filter);
                assert(self@.closed.take(i + 1).drop_last() =~= self@.closed.take(i as int));
                assert(self@.closed.take(i + 1).last() == self.closed[i as int]@);
            }
            if self.closed[i].device == wanted {
                intervals.push(self.closed[i].clone());
                assert(interval_views(intervals@) =~= before.push(self.closed[i as int]@));
            }
            i += 1;
        }
        assert(self@.closed.take(n as int) =~= self@.closed);
        intervals
    }

    /// The intervals closed so far, oldest closure first.
    pub fn closed_intervals(&self) -> (intervals: Vec<PresenceInterval>)
        requires
            self.wf(),
        ensures
            intervals@.len() == self@.closed.len(),
            interval_views(intervals@) == self@.closed,
            forall|i: int|
                0 <= i < intervals@.len() ==> (#[trigger] intervals@[i]).start <= intervals@[i].end,
    {
        let mut intervals: Vec<PresenceInterval> = Vec::new();
        let n = self.closed.len();
        let mut i: usize = 0;
        while i < n
            invariant
                i <= n,
                n == self.closed.len(),
                interval_views(intervals@) == self@.closed.take(i as int),
            decreases n - i,
        {
            let ghost before = interval_views(intervals@);
            intervals.push(self.closed[i].clone());
            assert(interval_views(intervals@) =~= before.push(self@.closed[i as int]));
            assert(self@.closed.take(i + 1) =~= before.push(self@.closed[i as int]));
            i += 1;
        }
        assert(self@.closed.take(n as int) =~= self@.closed);
        assert forall|i: int| 0 <= i < intervals@.len() implies (#[trigger] intervals@[i]).start
            <= intervals@[i].end by {
            assert(interval_views(intervals@)[i] == self@.closed[i]);
        }
        intervals
    }
}

} // verus!
