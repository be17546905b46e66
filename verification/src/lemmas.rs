//! What holds of every tracker, proved over the model.

use crate::model::{
    event_of, events_of, only, Event, Interval, NetworkView, SnapshotView, Span, TrackerState,
};
use vstd::prelude::*;

verus! {

/// A snapshot that holds the one network `net`, taken at `t`.
pub open spec fn lone(net: NetworkView, t: nat) -> SnapshotView {
    SnapshotView { timestamp: t, networks: seq![net] }
}

/// Taking in a snapshot of one network is one observation at its timestamp.
pub proof fn lemma_ingest_lone(s: TrackerState, net: NetworkView, t: nat, threshold: nat)
    ensures
        s.ingest(lone(net, t), threshold) == s.at(t).observe(net, t, threshold),
{
    let nets = seq![net];
    assert(nets.drop_last() =~= Seq::<NetworkView>::empty());
    assert(nets.last() == net);
    assert(s.at(t).observe_all(nets.drop_last(), t, threshold) == s.at(t));
}

/// A silence of exactly the threshold does not end a span; one second more
/// does.
///
/// Let a device without an open span be seen at `t0`. If it is next seen at
/// `t0 + threshold`, no interval is closed and its span runs from `t0` to
/// that sighting. If it is next seen at `t0 + threshold + 1` instead, exactly
/// one interval is closed, from `t0` to `t0`, and a new span opens at the
/// sighting.
pub proof fn lemma_threshold_boundary(
    s: TrackerState,
    first: NetworkView,
    again: NetworkView,
    t0: nat,
    threshold: nat,
)
    requires
        first.mac == again.mac,
        !s.open.contains_key(first.mac),
    ensures
        ({
            let d = first.mac;
            let seen = s.ingest(lone(first, t0), threshold);
            let at_limit = seen.ingest(lone(again, t0 + threshold), threshold);
            let past_limit = seen.ingest(lone(again, t0 + threshold + 1), threshold);
            &&& seen.closed == s.closed
            &&& seen.open.contains_key(d) && seen.open[d] == Span { start: t0, last: t0 }
            &&& at_limit.closed == s.closed
            &&& at_limit.open.contains_key(d) && at_limit.open[d] == Span {
                start: t0,
                last: t0 + threshold,
            }
            &&& past_limit.closed == s.closed.push(Interval { device: d, start: t0, end: t0 })
            &&& past_limit.open.contains_key(d) && past_limit.open[d] == Span {
                start: t0 + threshold + 1,
                last: t0 + threshold + 1,
            }
        }),
{
    let seen = s.ingest(lone(first, t0), threshold);
    lemma_ingest_lone(s, first, t0, threshold);
    lemma_ingest_lone(seen, again, t0 + threshold, threshold);
    lemma_ingest_lone(seen, again, t0 + threshold + 1, threshold);
}

/// In every state that a tracker can reach, each closed interval ends no
/// earlier than it starts, and so does each record of the report.
pub proof fn lemma_intervals_end_after_start(events: Seq<Event>)
    ensures
        forall|i: int|
            0 <= i < TrackerState::run(events).closed.len() ==> (
            #[trigger] TrackerState::run(events).closed[i]).start <= TrackerState::run(
                events,
            ).closed[i].end,
        forall|i: int|
            0 <= i < TrackerState::run(events).report().len() ==> (
            #[trigger] TrackerState::run(events).report()[i]).interval.start <= TrackerState::run(
                events,
            ).report()[i].interval.end,
{
    TrackerState::lemma_run_inv(events);
    let s = TrackerState::run(events);
    assert forall|i: int| 0 <= i < s.report().len() implies (#[trigger] s.report()[i]).interval.start
        <= s.report()[i].interval.end by {
        assert(s.report()[i].interval == s.closed[i]);
    }
}

/// In every state that a tracker can reach, the closed intervals of one
/// device lie one after the other: of two of them, the one closed first ends
/// no later than the other starts, so they share at most that one instant,
/// and they are in the order of their starts.
pub proof fn lemma_intervals_in_sequence(events: Seq<Event>, i: int, j: int)
    requires
        0 <= i < j < TrackerState::run(events).closed.len(),
        TrackerState::run(events).closed[i].device == TrackerState::run(events).closed[j].device,
    ensures
        TrackerState::run(events).closed[i].end <= TrackerState::run(events).closed[j].start,
        TrackerState::run(events).closed[i].start <= TrackerState::run(events).closed[j].start,
{
    TrackerState::lemma_run_inv(events);
}

/// Closing twice is closing once: the second close in a row finds no open
/// span, adds no interval and gives the same report.
pub proof fn lemma_finalize_idempotent(s: TrackerState)
    ensures
        s.finalize().finalize() == s.finalize(),
        s.finalize().finalize().closed == s.finalize().closed,
        s.finalize().finalize().report() == s.finalize().report(),
{
    let once = s.finalize();
    assert(once.trailing() =~= Seq::<Interval>::empty());
    assert(once.closed + once.trailing() =~= once.closed);
    assert(once.finalize() =~= once);
}

/// A snapshot that does not hold a device leaves a state that knows nothing
/// of the device knowing nothing of it.
pub proof fn lemma_observe_all_unaware(
    s: TrackerState,
    networks: Seq<NetworkView>,
    t: nat,
    threshold: nat,
    device: Seq<char>,
)
    requires
        s.unaware_of(device),
        forall|i: int| 0 <= i < networks.len() ==> (#[trigger] networks[i]).mac != device,
    ensures
        s.observe_all(networks, t, threshold).unaware_of(device),
    decreases networks.len(),
{
    if networks.len() > 0 {
        let rest = networks.drop_last();
        assert forall|i: int| 0 <= i < rest.len() implies (#[trigger] rest[i]).mac != device by {
            assert(rest[i] == networks[i]);
        }
        lemma_observe_all_unaware(s, rest, t, threshold, device);
        assert(networks.last() == networks[networks.len() - 1]);
    }
}

/// Whether an event holds no sighting of `device`.
pub open spec fn silent_on(event: Event, device: Seq<char>) -> bool {
    match event {
        Event::Snapshot { snapshot, threshold } => forall|i: int|
            0 <= i < snapshot.networks.len() ==> (#[trigger] snapshot.networks[i]).mac != device,
        Event::Close => true,
    }
}

/// A device that no snapshot ever held has no interval: the tracker holds no
/// open span, no record and no closed interval of it, and the report holds
/// no record of it.
pub proof fn lemma_unseen_device_has_no_interval(events: Seq<Event>, device: Seq<char>)
    requires
        forall|k: int| 0 <= k < events.len() ==> silent_on(#[trigger] events[k], device),
    ensures
        TrackerState::run(events).unaware_of(device),
        TrackerState::run(events).intervals_of(device) == Seq::<Interval>::empty(),
        forall|i: int|
            0 <= i < TrackerState::run(events).report().len() ==> (
            #[trigger] TrackerState::run(events).report()[i]).interval.device != device,
    decreases events.len(),
{
    let s = TrackerState::run(events);
    if events.len() > 0 {
        let before = TrackerState::run(events.drop_last());
        assert forall|k: int| 0 <= k < events.drop_last().len() implies silent_on(
            #[trigger] events.drop_last()[k],
            device,
        ) by {
            assert(events.drop_last()[k] == events[k]);
        }
        lemma_unseen_device_has_no_interval(events.drop_last(), device);
        TrackerState::lemma_run_inv(events.drop_last());
        assert(silent_on(events[events.len() - 1], device));
        match events.last() {
            Event::Snapshot { snapshot, threshold } => {
                if before.accepts(snapshot, threshold) {
                    lemma_observe_all_unaware(
                        before.at(snapshot.timestamp),
                        snapshot.networks,
                        snapshot.timestamp,
                        threshold,
                        device,
                    );
                }
            },
            Event::Close => {
                let after = before.finalize();
                assert forall|i: int| 0 <= i < after.closed.len() implies (
                #[trigger] after.closed[i]).device != device by {
                    let n = before.closed.len() as int;
                    if i >= n {
                        assert(after.closed[i] == before.trailing_at(i - n));
                        assert(before.order.contains(before.order[i - n]));
                    } else {
                        assert(after.closed[i] == before.closed[i]);
                    }
                }
            },
        }
    }
    assert(s.unaware_of(device));
    s.closed.lemma_all_neg_filter_empty(|c: Interval| c.device == device);
    assert forall|i: int| 0 <= i < s.report().len() implies (
    #[trigger] s.report()[i]).interval.device != device by {
        assert(s.report()[i].interval == s.closed[i]);
    }
}

/// A sighting of one device changes nothing that the state holds of another.
pub proof fn lemma_observe_other(
    s: TrackerState,
    net: NetworkView,
    t: nat,
    threshold: nat,
    device: Seq<char>,
)
    requires
        net.mac != device,
    ensures
        s.observe(net, t, threshold).same_on(s, device),
{
    let next = s.observe(net, t, threshold);
    if next.closed.len() > s.closed.len() {
        reveal(Seq::filter);
        assert(next.closed.drop_last() =~= s.closed);
    }
}

/// What a sighting of a device makes of a state depends only on what the
/// state holds of that device.
pub proof fn lemma_observe_local(
    s1: TrackerState,
    s2: TrackerState,
    net: NetworkView,
    t: nat,
    threshold: nat,
)
    requires
        s1.same_on(s2, net.mac),
    ensures
        s1.observe(net, t, threshold).same_on(s2.observe(net, t, threshold), net.mac),
{
    let n1 = s1.observe(net, t, threshold);
    let n2 = s2.observe(net, t, threshold);
    if n1.closed.len() > s1.closed.len() {
        reveal(Seq::filter);
        assert(n1.closed.drop_last() =~= s1.closed);
        assert(n2.closed.drop_last() =~= s2.closed);
    }
}

/// Observing a run of sightings and observing only those of one device make
/// the same of that device.
pub proof fn lemma_observe_all_isolated(
    s1: TrackerState,
    s2: TrackerState,
    networks: Seq<NetworkView>,
    t: nat,
    threshold: nat,
    device: Seq<char>,
)
    requires
        s1.same_on(s2, device),
    ensures
        s1.observe_all(networks, t, threshold).same_on(
            s2.observe_all(networks.filter(|n: NetworkView| n.mac == device), t, threshold),
            device,
        ),
    decreases networks.len(),
{
    let pick = |n: NetworkView| n.mac == device;
    reveal(Seq::filter);
    if networks.len() > 0 {
        let rest = networks.drop_last();
        lemma_observe_all_isolated(s1, s2, rest, t, threshold, device);
        let m1 = s1.observe_all(rest, t, threshold);
        let m2 = s2.observe_all(rest.filter(pick), t, threshold);
        if networks.last().mac == device {
            assert(networks.filter(pick) == rest.filter(pick).push(networks.last()));
            assert(networks.filter(pick).drop_last() =~= rest.filter(pick));
            lemma_observe_local(m1, m2, networks.last(), t, threshold);
        } else {
            lemma_observe_other(m1, networks.last(), t, threshold, device);
        }
    }
}

/// Of the intervals that the first `n` open spans close to, those of `device`
/// are the one that its own span closes to, if that span is among them.
pub proof fn lemma_trailing_of(s: TrackerState, device: Seq<char>, n: int)
    requires
        s.order_matches_open(),
        0 <= n <= s.order.len(),
    ensures
        s.trailing().take(n).filter(|c: Interval| c.device == device) == if s.order.take(
            n,
        ).contains(device) {
            seq![
                Interval {
                    device: device,
                    start: s.open[device].start,
                    end: s.open[device].last,
                },
            ]
        } else {
            Seq::<Interval>::empty()
        },
    decreases n,
{
    let pick = |c: Interval| c.device == device;
    reveal(Seq::filter);
    if n > 0 {
        lemma_trailing_of(s, device, n - 1);
        let shorter = s.trailing().take(n - 1);
        let longer = s.trailing().take(n);
        let fewer = s.order.take(n - 1);
        let more = s.order.take(n);
        assert(longer.drop_last() =~= shorter);
        assert(longer.last() == s.trailing_at(n - 1));
        if s.order[n - 1] == device {
            assert(more[n - 1] == device);
            if fewer.contains(device) {
                let k = choose|k: int| 0 <= k < fewer.len() && fewer[k] == device;
                assert(s.order[k] == s.order[n - 1]);
            }
            assert(longer.filter(pick) =~= seq![s.trailing_at(n - 1)]);
        } else {
            if more.contains(device) {
                let k = choose|k: int| 0 <= k < more.len() && more[k] == device;
                assert(fewer[k] == device);
            }
            if fewer.contains(device) {
                let k = choose|k: int| 0 <= k < fewer.len() && fewer[k] == device;
                assert(more[k] == device);
            }
        }
    } else {
        assert(s.trailing().take(0) =~= Seq::<Interval>::empty());
    }
}

/// Closing the open spans of two states that hold the same of a device
/// leaves them holding the same of it.
pub proof fn lemma_finalize_isolated(s1: TrackerState, s2: TrackerState, device: Seq<char>)
    requires
        s1.order_matches_open(),
        s2.order_matches_open(),
        s1.same_on(s2, device),
    ensures
        s1.finalize().same_on(s2.finalize(), device),
{
    let pick = |c: Interval| c.device == device;
    lemma_trailing_of(s1, device, s1.order.len() as int);
    lemma_trailing_of(s2, device, s2.order.len() as int);
    assert(s1.trailing().take(s1.order.len() as int) =~= s1.trailing());
    assert(s2.trailing().take(s2.order.len() as int) =~= s2.trailing());
    assert(s1.order.take(s1.order.len() as int) =~= s1.order);
    assert(s2.order.take(s2.order.len() as int) =~= s2.order);
    Seq::filter_distributes_over_add(s1.closed, s1.trailing(), pick);
    Seq::filter_distributes_over_add(s2.closed, s2.trailing(), pick);
}

/// Devices do not touch each other: what a tracker holds of a device after
/// any events is what it would hold had no other device ever been seen. The
/// spans, records and intervals of one device are never merged with, cut by
/// or moved by the sightings of another.
pub proof fn lemma_devices_isolated(events: Seq<Event>, device: Seq<char>)
    ensures
        TrackerState::run(events).same_on(TrackerState::run(events_of(events, device)), device),
    decreases events.len(),
{
    if events.len() > 0 {
        let rest = events.drop_last();
        lemma_devices_isolated(rest, device);
        assert(events_of(events, device).drop_last() =~= events_of(rest, device));
        assert(events_of(events, device).last() == event_of(events.last(), device));
        let s1 = TrackerState::run(rest);
        let s2 = TrackerState::run(events_of(rest, device));
        TrackerState::lemma_run_inv(rest);
        TrackerState::lemma_run_inv(events_of(rest, device));
        match events.last() {
            Event::Snapshot { snapshot, threshold } => {
                if s1.accepts(snapshot, threshold) {
                    assert(s1.at(snapshot.timestamp).same_on(s2.at(snapshot.timestamp), device));
                    lemma_observe_all_isolated(
                        s1.at(snapshot.timestamp),
                        s2.at(snapshot.timestamp),
                        snapshot.networks,
                        snapshot.timestamp,
                        threshold,
                        device,
                    );
                }
            },
            Event::Close => {
                lemma_finalize_isolated(s1, s2, device);
            },
        }
    }
}

/// A snapshot that does not hold a device moves the clock and leaves what
/// the state holds of the device as it was.
pub proof fn lemma_absent_device_untouched(
    s: TrackerState,
    snapshot: SnapshotView,
    threshold: nat,
    device: Seq<char>,
)
    requires
        forall|i: int| 0 <= i < snapshot.networks.len() ==> (#[trigger] snapshot.networks[i]).mac
            != device,
    ensures
        s.ingest(snapshot, threshold).same_on(s.at(snapshot.timestamp), device),
{
    let t = snapshot.timestamp;
    let pick = |n: NetworkView| n.mac == device;
    snapshot.networks.lemma_all_neg_filter_empty(pick);
    assert(snapshot.networks.filter(pick) =~= Seq::<NetworkView>::empty());
    lemma_observe_all_isolated(s.at(t), s.at(t), snapshot.networks, t, threshold, device);
}

/// Whether every event is a snapshot taken under a threshold of `gap`
/// seconds or more.
pub open spec fn all_snapshots(events: Seq<Event>, gap: nat) -> bool {
    forall|k: int|
        0 <= k < events.len() ==> (#[trigger] events[k] matches Event::Snapshot { threshold, .. }
            && threshold >= gap)
}

/// One sighting at the time of the clock keeps closed intervals apart.
pub proof fn lemma_observe_apart(s: TrackerState, net: NetworkView, threshold: nat, gap: nat)
    requires
        s.inv(),
        s.apart(gap),
        threshold >= gap,
    ensures
        s.observe(net, s.clock, threshold).apart(gap),
{
    let next = s.observe(net, s.clock, threshold);
    assert forall|i: int| 0 <= i < next.closed.len() implies {
        &&& next.open.contains_key((#[trigger] next.closed[i]).device)
        &&& next.closed[i].end + gap < next.open[next.closed[i].device].start
    } by {
        if i < s.closed.len() {
            assert(next.closed[i] == s.closed[i]);
        }
    }
    assert forall|i: int, j: int|
        0 <= i < j < next.closed.len() && (#[trigger] next.closed[i]).device == (
        #[trigger] next.closed[j]).device implies next.closed[i].end + gap
        < next.closed[j].start by {
        assert(next.closed[i] == s.closed[i]);
        if j < s.closed.len() {
            assert(next.closed[j] == s.closed[j]);
        }
    }
}

/// Any number of sightings at the time of the clock keep closed intervals
/// apart.
pub proof fn lemma_observe_all_apart(
    s: TrackerState,
    networks: Seq<NetworkView>,
    threshold: nat,
    gap: nat,
)
    requires
        s.inv(),
        s.apart(gap),
        threshold >= gap,
    ensures
        s.observe_all(networks, s.clock, threshold).apart(gap),
    decreases networks.len(),
{
    if networks.len() > 0 {
        lemma_observe_all_apart(s, networks.drop_last(), threshold, gap);
        s.lemma_observe_all_inv(networks.drop_last(), threshold);
        lemma_observe_apart(
            s.observe_all(networks.drop_last(), s.clock, threshold),
            networks.last(),
            threshold,
            gap,
        );
    }
}

/// A tracker that was only ever handed snapshots, under thresholds of `gap`
/// seconds or more, keeps its closed intervals apart.
pub proof fn lemma_snapshots_apart(events: Seq<Event>, gap: nat)
    requires
        all_snapshots(events, gap),
    ensures
        TrackerState::run(events).apart(gap),
    decreases events.len(),
{
    if events.len() > 0 {
        let rest = events.drop_last();
        assert forall|k: int| 0 <= k < rest.len() implies (#[trigger] rest[k] matches Event::Snapshot {
            threshold,
            ..
        } && threshold >= gap) by {
            assert(rest[k] == events[k]);
        }
        lemma_snapshots_apart(rest, gap);
        TrackerState::lemma_run_inv(rest);
        let before = TrackerState::run(rest);
        assert(events[events.len() - 1] matches Event::Snapshot { threshold, .. } && threshold
            >= gap);
        match events.last() {
            Event::Snapshot { snapshot, threshold } => {
                if before.accepts(snapshot, threshold) {
                    before.lemma_at_inv(snapshot.timestamp);
                    lemma_observe_all_apart(
                        before.at(snapshot.timestamp),
                        snapshot.networks,
                        threshold,
                        gap,
                    );
                }
            },
            Event::Close => {},
        }
    }
}

/// Over a run of snapshots that is closed at its end, the intervals of one
/// device do not overlap and do not touch: of two of them, the one closed
/// first ends strictly before the other starts. More than that, each
/// interval is as long as it can be: where every snapshot was taken under a
/// threshold of `gap` seconds or more, the silence between two intervals of
/// one device is longer than `gap` seconds.
pub proof fn lemma_intervals_apart(events: Seq<Event>, gap: nat, i: int, j: int)
    requires
        all_snapshots(events, gap),
        0 <= i < j < TrackerState::run(events).finalize().closed.len(),
        TrackerState::run(events).finalize().closed[i].device == TrackerState::run(
            events,
        ).finalize().closed[j].device,
    ensures
        TrackerState::run(events).finalize().closed[i].end + gap < TrackerState::run(
            events,
        ).finalize().closed[j].start,
{
    lemma_snapshots_apart(events, gap);
    TrackerState::lemma_run_inv(events);
    let s = TrackerState::run(events);
    let n = s.closed.len() as int;
    let after = s.finalize();
    if j < n {
        assert(after.closed[i] == s.closed[i]);
        assert(after.closed[j] == s.closed[j]);
    } else if i < n {
        assert(after.closed[i] == s.closed[i]);
        assert(after.closed[j] == s.trailing_at(j - n));
    } else {
        assert(after.closed[i] == s.trailing_at(i - n));
        assert(after.closed[j] == s.trailing_at(j - n));
        assert(s.order[i - n] != s.order[j - n]);
    }
}

/// A device that stands twice in one snapshot is seen once: the second
/// sighting at the same time changes nothing but the record kept.
pub proof fn lemma_repeated_sighting(
    s: TrackerState,
    first: NetworkView,
    second: NetworkView,
    t: nat,
    threshold: nat,
)
    requires
        first.mac == second.mac,
    ensures
        s.observe(first, t, threshold).observe(second, t, threshold) == s.observe(
            second,
            t,
            threshold,
        ),
{
    assert(s.observe(first, t, threshold).observe(second, t, threshold) =~= s.observe(
        second,
        t,
        threshold,
    ));
}

} // verus!
