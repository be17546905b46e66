//! The mathematical model of the presence tracker.
//!
//! A tracker is a clock, the spans that are still open (one per device at
//! most), the latest record seen of each device, and the intervals closed so
//! far in the order in which they were closed. Times are whole seconds.

use vstd::prelude::*;

verus! {

/// What one scan reports of one network. The tracker reads `mac`, the device
/// identifier, and carries the rest along unread.
pub struct NetworkView {
    pub mac: Seq<char>,
    pub ssid: Seq<char>,
    pub channel: Seq<char>,
    pub signal_level: Seq<char>,
    pub security: Seq<char>,
}

/// The networks seen by one scan, taken at `timestamp`.
pub struct SnapshotView {
    pub timestamp: nat,
    pub networks: Seq<NetworkView>,
}

/// A span of presence that is still open: the device was first seen at
/// `start` and most recently at `last`, with no silence longer than the
/// threshold in between.
pub struct Span {
    pub start: nat,
    pub last: nat,
}

/// A closed presence interval of one device.
pub struct Interval {
    pub device: Seq<char>,
    pub start: nat,
    pub end: nat,
}

/// A closed presence interval together with the latest record of its device.
pub struct RecordView {
    pub interval: Interval,
    pub network: NetworkView,
}

/// What can be asked of a tracker: to take a snapshot in under some silence
/// threshold, or to close the open spans.
pub enum Event {
    Snapshot { snapshot: SnapshotView, threshold: nat },
    Close,
}

/// The snapshot without the networks of any device but `device`.
pub open spec fn only(snapshot: SnapshotView, device: Seq<char>) -> SnapshotView {
    SnapshotView {
        timestamp: snapshot.timestamp,
        networks: snapshot.networks.filter(|n: NetworkView| n.mac == device),
    }
}

/// The event as it concerns `device` alone.
pub open spec fn event_of(event: Event, device: Seq<char>) -> Event {
    match event {
        Event::Snapshot { snapshot, threshold } => Event::Snapshot {
            snapshot: only(snapshot, device),
            threshold,
        },
        Event::Close => Event::Close,
    }
}

/// The events as they concern `device` alone: every snapshot is kept, with
/// its timestamp, but holds the networks of `device` only.
pub open spec fn events_of(events: Seq<Event>, device: Seq<char>) -> Seq<Event> {
    Seq::new(events.len(), |i: int| event_of(events[i], device))
}

/// The state of a tracker.
#[verifier::ext_equal]
pub struct TrackerState {
    /// The timestamp of the latest snapshot taken in.
    pub clock: nat,
    /// The devices with an open span, in the order in which they were first
    /// seen since the spans were last closed.
    pub order: Seq<Seq<char>>,
    /// The open span of each such device.
    pub open: Map<Seq<char>, Span>,
    /// The latest record of every device seen so far.
    pub latest: Map<Seq<char>, NetworkView>,
    /// The closed intervals, oldest closure first.
    pub closed: Seq<Interval>,
}

impl TrackerState {
    /// The state of a tracker that has seen nothing.
    pub open spec fn empty() -> TrackerState {
        TrackerState {
            clock: 0,
            order: Seq::empty(),
            open: Map::empty(),
            latest: Map::empty(),
            closed: Seq::empty(),
        }
    }

    /// The state with its clock moved to `t`.
    pub open spec fn at(self, t: nat) -> TrackerState {
        TrackerState { clock: t, ..self }
    }

    /// The state after one sighting of `net.mac` at time `t`.
    ///
    /// A device without an open span opens one at `t`. A device whose last
    /// sighting lies more than `threshold` seconds back has its span closed as
    /// it stood, from its start to that last sighting, and opens a new one at
    /// `t`. Otherwise the open span is extended to `t`. In each case the
    /// record replaces the one kept for the device.
    pub open spec fn observe(self, net: NetworkView, t: nat, threshold: nat) -> TrackerState {
        let d = net.mac;
        let fresh = Span { start: t, last: t };
        if !self.open.contains_key(d) {
            TrackerState {
                order: self.order.push(d),
                open: self.open.insert(d, fresh),
                latest: self.latest.insert(d, net),
                ..self
            }
        } else if t - self.open[d].last > threshold {
            TrackerState {
                open: self.open.insert(d, fresh),
                latest: self.latest.insert(d, net),
                closed: self.closed.push(
                    Interval { device: d, start: self.open[d].start, end: self.open[d].last },
                ),
                ..self
            }
        } else {
            TrackerState {
                open: self.open.insert(d, Span { start: self.open[d].start, last: t }),
                latest: self.latest.insert(d, net),
                ..self
            }
        }
    }

    /// The state after the sightings `networks`, all at time `t`, taken in
    /// from the first to the last.
    pub open spec fn observe_all(self, networks: Seq<NetworkView>, t: nat, threshold: nat)
        -> TrackerState
        decreases networks.len(),
    {
        if networks.len() == 0 {
            self
        } else {
            self.observe_all(networks.drop_last(), t, threshold).observe(
                networks.last(),
                t,
                threshold,
            )
        }
    }

    /// The state after a whole snapshot: the clock moves to the snapshot's
    /// timestamp and each of its networks is observed in turn.
    pub open spec fn ingest(self, snapshot: SnapshotView, threshold: nat) -> TrackerState {
        self.at(snapshot.timestamp).observe_all(snapshot.networks, snapshot.timestamp, threshold)
    }

    /// Whether a snapshot is taken in: the threshold is positive and the
    /// snapshot is not older than the clock.
    pub open spec fn accepts(self, snapshot: SnapshotView, threshold: nat) -> bool {
        threshold > 0 && self.clock <= snapshot.timestamp
    }

    /// The interval that the open span of the `i`-th device of `order` closes
    /// to.
    pub open spec fn trailing_at(self, i: int) -> Interval {
        let d = self.order[i];
        Interval { device: d, start: self.open[d].start, end: self.open[d].last }
    }

    /// The intervals that the open spans close to, in the order of `order`.
    /// Each ends at the device's last sighting.
    pub open spec fn trailing(self) -> Seq<Interval> {
        Seq::new(self.order.len(), |i: int| self.trailing_at(i))
    }

    /// The state after every open span has been closed.
    pub open spec fn finalize(self) -> TrackerState {
        TrackerState {
            order: Seq::empty(),
            open: Map::empty(),
            closed: self.closed + self.trailing(),
            ..self
        }
    }

    /// The closed intervals, each with the latest record of its device.
    pub open spec fn report(self) -> Seq<RecordView> {
        Seq::new(
            self.closed.len(),
            |i: int|
                RecordView {
                    interval: self.closed[i],
                    network: self.latest[self.closed[i].device],
                },
        )
    }

    /// The state after one event. A snapshot that is not accepted leaves the
    /// state as it is.
    pub open spec fn apply(self, event: Event) -> TrackerState {
        match event {
            Event::Snapshot { snapshot, threshold } => if self.accepts(snapshot, threshold) {
                self.ingest(snapshot, threshold)
            } else {
                self
            },
            Event::Close => self.finalize(),
        }
    }

    /// The state that a new tracker reaches through `events`.
    pub open spec fn run(events: Seq<Event>) -> TrackerState
        decreases events.len(),
    {
        if events.len() == 0 {
            TrackerState::empty()
        } else {
            TrackerState::run(events.drop_last()).apply(events.last())
        }
    }

    /// Whether two states hold the same of `device`: the same clock, the same
    /// open span or none, the same record or none, the same closed intervals.
    pub open spec fn same_on(self, other: TrackerState, device: Seq<char>) -> bool {
        &&& self.clock == other.clock
        &&& self.open.contains_key(device) == other.open.contains_key(device)
        &&& self.open.contains_key(device) ==> self.open[device] == other.open[device]
        &&& self.latest.contains_key(device) == other.latest.contains_key(device)
        &&& self.latest.contains_key(device) ==> self.latest[device] == other.latest[device]
        &&& self.intervals_of(device) == other.intervals_of(device)
    }

    /// The closed intervals of one device, oldest closure first.
    pub open spec fn intervals_of(self, device: Seq<char>) -> Seq<Interval> {
        self.closed.filter(|c: Interval| c.device == device)
    }

    /// Whether the state holds nothing of `device`: no open span, no record,
    /// no closed interval.
    pub open spec fn unaware_of(self, device: Seq<char>) -> bool {
        &&& !self.open.contains_key(device)
        &&& !self.latest.contains_key(device)
        &&& forall|i: int| 0 <= i < self.closed.len() ==> (#[trigger] self.closed[i]).device != device
    }

    /// The open spans are listed once each in `order`.
    pub open spec fn order_matches_open(self) -> bool {
        &&& self.order.no_duplicates()
        &&& forall|d: Seq<char>| #[trigger] self.open.contains_key(d) <==> self.order.contains(d)
    }

    /// Every open span starts no later than its last sighting, which is no
    /// later than the clock, and its device has a record.
    pub open spec fn spans_in_time(self) -> bool {
        forall|d: Seq<char>| #[trigger]
            self.open.contains_key(d) ==> {
                &&& self.open[d].start <= self.open[d].last <= self.clock
                &&& self.latest.contains_key(d)
            }
    }

    /// Every closed interval starts no later than it ends, ends no later than
    /// the clock, and its device has a record.
    pub open spec fn intervals_in_time(self) -> bool {
        forall|i: int|
            0 <= i < self.closed.len() ==> {
                &&& (#[trigger] self.closed[i]).start <= self.closed[i].end <= self.clock
                &&& self.latest.contains_key(self.closed[i].device)
            }
    }

    /// No closed interval of a device reaches past the start of its open span.
    pub open spec fn closed_before_open(self) -> bool {
        forall|i: int|
            0 <= i < self.closed.len() && self.open.contains_key((#[trigger] self.closed[i]).device)
                ==> self.closed[i].end <= self.open[self.closed[i].device].start
    }

    /// Two closed intervals of one device do not overlap, and the one closed
    /// first lies first in time.
    pub open spec fn closed_in_sequence(self) -> bool {
        forall|i: int, j: int|
            0 <= i < j < self.closed.len() && (#[trigger] self.closed[i]).device == (
            #[trigger] self.closed[j]).device ==> self.closed[i].end <= self.closed[j].start
    }

    /// The invariant of a tracker's state.
    pub open spec fn inv(self) -> bool {
        &&& self.order_matches_open()
        &&& self.spans_in_time()
        &&& self.intervals_in_time()
        &&& self.closed_before_open()
        &&& self.closed_in_sequence()
    }

    /// Every closed interval belongs to a device whose span is open, and ends
    /// more than `gap` seconds before that span starts; and of two closed
    /// intervals of one device, the one closed first ends more than `gap`
    /// seconds before the other starts. This holds for as long as spans are
    /// closed by silence alone, under thresholds of `gap` seconds or more.
    pub open spec fn apart(self, gap: nat) -> bool {
        &&& forall|i: int|
            0 <= i < self.closed.len() ==> {
                &&& self.open.contains_key((#[trigger] self.closed[i]).device)
                &&& self.closed[i].end + gap < self.open[self.closed[i].device].start
            }
        &&& forall|i: int, j: int|
            0 <= i < j < self.closed.len() && (#[trigger] self.closed[i]).device == (
            #[trigger] self.closed[j]).device ==> self.closed[i].end + gap
                < self.closed[j].start
    }

    /// Moving the clock forward keeps the invariant.
    pub proof fn lemma_at_inv(self, t: nat)
        requires
            self.inv(),
            self.clock <= t,
        ensures
            self.at(t).inv(),
    {
    }

    /// One sighting at the time of the clock keeps the invariant.
    pub proof fn lemma_observe_inv(self, net: NetworkView, threshold: nat)
        requires
            self.inv(),
        ensures
            self.observe(net, self.clock, threshold).inv(),
            self.observe(net, self.clock, threshold).clock == self.clock,
    {
        let t = self.clock;
        let d = net.mac;
        let next = self.observe(net, t, threshold);
        if !self.open.contains_key(d) {
            assert(next.order.no_duplicates());
            assert forall|e: Seq<char>| #[trigger] next.open.contains_key(e) <==> next.order.contains(
                e,
            ) by {
                if e == d {
                    assert(next.order[self.order.len() as int] == d);
                } else if self.open.contains_key(e) {
                    let k = choose|k: int| 0 <= k < self.order.len() && self.order[k] == e;
                    assert(next.order[k] == e);
                }
            }
        } else {
            assert(self.order.contains(d));
        }
        assert(next.closed_in_sequence());
    }

    /// Any number of sightings at the time of the clock keep the invariant.
    pub proof fn lemma_observe_all_inv(self, networks: Seq<NetworkView>, threshold: nat)
        requires
            self.inv(),
        ensures
            self.observe_all(networks, self.clock, threshold).inv(),
            self.observe_all(networks, self.clock, threshold).clock == self.clock,
        decreases networks.len(),
    {
        if networks.len() > 0 {
            self.lemma_observe_all_inv(networks.drop_last(), threshold);
            self.observe_all(networks.drop_last(), self.clock, threshold).lemma_observe_inv(
                networks.last(),
                threshold,
            );
        }
    }

    /// A snapshot that is not older than the clock keeps the invariant.
    pub proof fn lemma_ingest_inv(self, snapshot: SnapshotView, threshold: nat)
        requires
            self.inv(),
            self.clock <= snapshot.timestamp,
        ensures
            self.ingest(snapshot, threshold).inv(),
            self.ingest(snapshot, threshold).clock == snapshot.timestamp,
    {
        self.lemma_at_inv(snapshot.timestamp);
        self.at(snapshot.timestamp).lemma_observe_all_inv(snapshot.networks, threshold);
    }

    /// One event keeps the invariant.
    pub proof fn lemma_apply_inv(self, event: Event)
        requires
            self.inv(),
        ensures
            self.apply(event).inv(),
    {
        match event {
            Event::Snapshot { snapshot, threshold } => {
                if self.accepts(snapshot, threshold) {
                    self.lemma_ingest_inv(snapshot, threshold);
                }
            },
            Event::Close => {
                self.lemma_finalize_inv();
            },
        }
    }

    /// Every state that a new tracker can reach meets the invariant.
    pub proof fn lemma_run_inv(events: Seq<Event>)
        ensures
            TrackerState::run(events).inv(),
        decreases events.len(),
    {
        if events.len() > 0 {
            TrackerState::lemma_run_inv(events.drop_last());
            TrackerState::run(events.drop_last()).lemma_apply_inv(events.last());
        }
    }

    /// Closing the open spans keeps the invariant.
    pub proof fn lemma_finalize_inv(self)
        requires
            self.inv(),
        ensures
            self.finalize().inv(),
    {
        let next = self.finalize();
        let n = self.closed.len() as int;
        assert forall|k: int| 0 <= k < self.order.len() implies self.open.contains_key(
            #[trigger] self.order[k],
        ) by {
            assert(self.order.contains(self.order[k]));
        }
        assert forall|i: int| 0 <= i < next.closed.len() implies {
            &&& (#[trigger] next.closed[i]).start <= next.closed[i].end <= next.clock
            &&& next.latest.contains_key(next.closed[i].device)
        } by {
            if i >= n {
                assert(next.closed[i] == self.trailing_at(i - n));
                assert(self.open.contains_key(self.order[i - n]));
            } else {
                assert(next.closed[i] == self.closed[i]);
            }
        }
        assert forall|i: int, j: int|
            0 <= i < j < next.closed.len() && (#[trigger] next.closed[i]).device == (
            #[trigger] next.closed[j]).device implies next.closed[i].end
            <= next.closed[j].start by {
            if j < n {
                assert(next.closed[i] == self.closed[i]);
                assert(next.closed[j] == self.closed[j]);
            } else if i < n {
                assert(next.closed[i] == self.closed[i]);
                assert(next.closed[j] == self.trailing_at(j - n));
                assert(self.open.contains_key(self.order[j - n]));
            } else {
                assert(next.closed[i] == self.trailing_at(i - n));
                assert(next.closed[j] == self.trailing_at(j - n));
                assert(self.order[i - n] != self.order[j - n]);
            }
        }
    }
}

} // verus!
