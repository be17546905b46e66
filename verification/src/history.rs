//! The intervals of a device, held against the record of its sightings.
//!
//! Over a run of snapshots taken under one threshold and closed at its end,
//! the intervals of a device are what its sightings call for: each starts and
//! ends at a sighting, no sighting inside it is followed by a silence longer
//! than the threshold, and every sighting lies in one of them.

use crate::lemmas::{all_snapshots, lemma_observe_all_apart, lemma_snapshots_apart};
use crate::model::{Event, NetworkView, TrackerState};
use vstd::prelude::*;

verus! {

/// The times at which the networks, all seen at `t`, sight `device`: `t`
/// once for each of them that is of the device.
pub open spec fn sightings_in(networks: Seq<NetworkView>, t: nat, device: Seq<char>) -> Seq<nat>
    decreases networks.len(),
{
    if networks.len() == 0 {
        Seq::empty()
    } else {
        let before = sightings_in(networks.drop_last(), t, device);
        if networks.last().mac == device {
            before.push(t)
        } else {
            before
        }
    }
}

/// The times at which a new tracker that goes through `events` sights
/// `device`, in the order of the sightings. Snapshots that are turned away
/// sight nothing.
pub open spec fn sightings(events: Seq<Event>, device: Seq<char>) -> Seq<nat>
    decreases events.len(),
{
    if events.len() == 0 {
        Seq::empty()
    } else {
        let before = sightings(events.drop_last(), device);
        match events.last() {
            Event::Snapshot { snapshot, threshold } => if TrackerState::run(
                events.drop_last(),
            ).accepts(snapshot, threshold) {
                before + sightings_in(snapshot.networks, snapshot.timestamp, device)
            } else {
                before
            },
            Event::Close => before,
        }
    }
}

/// Whether every event is a snapshot taken under the threshold `th`.
pub open spec fn steady(events: Seq<Event>, th: nat) -> bool {
    forall|k: int|
        0 <= k < events.len() ==> (#[trigger] events[k] matches Event::Snapshot { threshold, .. }
            && threshold == th)
}

/// Whether the sighting at `x` is followed, within `th` seconds and no later
/// than `to`, by a later sighting.
pub open spec fn followed(log: Seq<nat>, x: nat, th: nat, to: nat) -> bool {
    exists|m: int| 0 <= m < log.len() && x < #[trigger] log[m] && log[m] <= x + th && log[m] <= to
}

/// Whether the span from `from` to `to` starts at a sighting, ends at a
/// sighting, and holds no sighting before its end that is not followed by
/// another within `th` seconds.
pub open spec fn spanned(log: Seq<nat>, from: nat, to: nat, th: nat) -> bool {
    &&& log.contains(from)
    &&& log.contains(to)
    &&& forall|k: int|
        0 <= k < log.len() && from <= #[trigger] log[k] && log[k] < to ==> followed(
            log,
            log[k],
            th,
            to,
        )
}

/// Whether the time `x` lies in the open span of `device` or in one of its
/// closed intervals.
pub open spec fn covered(s: TrackerState, device: Seq<char>, x: nat) -> bool {
    ||| s.open.contains_key(device) && s.open[device].start <= x <= s.open[device].last
    ||| exists|i: int|
        0 <= i < s.closed.len() && (#[trigger] s.closed[i]).device == device && s.closed[i].start
            <= x <= s.closed[i].end
}

/// Whether what the state holds of `device` is what the sightings `log` call
/// for under the threshold `th`.
pub open spec fn faithful(s: TrackerState, log: Seq<nat>, device: Seq<char>, th: nat) -> bool {
    &&& forall|k: int| 0 <= k < log.len() ==> #[trigger] log[k] <= s.clock
    &&& s.open.contains_key(device) <==> log.len() > 0
    &&& s.open.contains_key(device) ==> {
        &&& spanned(log, s.open[device].start, s.open[device].last, th)
        &&& forall|k: int| 0 <= k < log.len() ==> #[trigger] log[k] <= s.open[device].last
    }
    &&& forall|i: int|
        0 <= i < s.closed.len() && (#[trigger] s.closed[i]).device == device ==> spanned(
            log,
            s.closed[i].start,
            s.closed[i].end,
            th,
        )
    &&& forall|k: int| 0 <= k < log.len() ==> covered(s, device, #[trigger] log[k])
}

/// A span that the sightings call for is still called for after a sighting
/// that is not earlier than its end.
pub proof fn lemma_spanned_grows(log: Seq<nat>, from: nat, to: nat, th: nat, t: nat)
    requires
        spanned(log, from, to, th),
        to <= t,
    ensures
        spanned(log.push(t), from, to, th),
{
    let longer = log.push(t);
    let a = choose|a: int| 0 <= a < log.len() && log[a] == from;
    assert(longer[a] == from);
    let b = choose|b: int| 0 <= b < log.len() && log[b] == to;
    assert(longer[b] == to);
    assert forall|k: int|
        0 <= k < longer.len() && from <= #[trigger] longer[k] && longer[k] < to implies followed(
        longer,
        longer[k],
        th,
        to,
    ) by {
        assert(longer[k] == log[k]);
        let m = choose|m: int|
            0 <= m < log.len() && log[k] < #[trigger] log[m] && log[m] <= log[k] + th && log[m]
                <= to;
        assert(longer[m] == log[m]);
    }
}

/// One sighting of the device at the time of the clock is one more entry in
/// the record of its sightings.
pub proof fn lemma_observe_faithful(s: TrackerState, net: NetworkView, log: Seq<nat>, th: nat)
    requires
        s.inv(),
        s.apart(0),
        faithful(s, log, net.mac, th),
    ensures
        faithful(s.observe(net, s.clock, th), log.push(s.clock), net.mac, th),
{
    let d = net.mac;
    let t = s.clock;
    let next = s.observe(net, t, th);
    let longer = log.push(t);
    let last = log.len() as int;
    assert(longer[last] == t);
    assert forall|k: int| 0 <= k < longer.len() implies #[trigger] longer[k] <= next.clock by {
        if k < last {
            assert(longer[k] == log[k]);
        }
    }
    assert forall|i: int|
        0 <= i < s.closed.len() && (#[trigger] s.closed[i]).device == d implies spanned(
        longer,
        s.closed[i].start,
        s.closed[i].end,
        th,
    ) by {
        lemma_spanned_grows(log, s.closed[i].start, s.closed[i].end, th, t);
    }
    if !s.open.contains_key(d) {
        assert(longer =~= seq![t]);
        assert(spanned(longer, t, t, th));
        assert(covered(next, d, longer[0]));
    } else {
        let from = s.open[d].start;
        let to = s.open[d].last;
        lemma_spanned_grows(log, from, to, th, t);
        if t - to > th {
            let n = s.closed.len() as int;
            assert(next.closed[n].device == d);
            assert(spanned(longer, t, t, th));
            assert forall|i: int|
                0 <= i < next.closed.len() && (#[trigger] next.closed[i]).device == d implies spanned(
                longer,
                next.closed[i].start,
                next.closed[i].end,
                th,
            ) by {
                if i < n {
                    assert(next.closed[i] == s.closed[i]);
                }
            }
            assert forall|k: int| 0 <= k < longer.len() implies covered(
                next,
                d,
                #[trigger] longer[k],
            ) by {
                if k < last {
                    assert(longer[k] == log[k]);
                    assert(covered(s, d, log[k]));
                    if from <= log[k] <= to {
                        assert(next.closed[n].start <= longer[k] <= next.closed[n].end);
                    } else {
                        let i = choose|i: int|
                            0 <= i < s.closed.len() && (#[trigger] s.closed[i]).device == d
                                && s.closed[i].start <= log[k] <= s.closed[i].end;
                        assert(next.closed[i] == s.closed[i]);
                    }
                }
            }
        } else {
            assert(next.closed == s.closed);
            assert forall|k: int|
                0 <= k < longer.len() && from <= #[trigger] longer[k] && longer[k]
                    < t implies followed(longer, longer[k], th, t) by {
                assert(longer[k] == log[k]);
                if log[k] < to {
                    let m = choose|m: int|
                        0 <= m < log.len() && log[k] < #[trigger] log[m] && log[m] <= log[k] + th
                            && log[m] <= to;
                    assert(longer[m] == log[m]);
                } else {
                    assert(longer[last] == t);
                }
            }
            assert(spanned(longer, from, t, th));
            assert forall|k: int| 0 <= k < longer.len() implies covered(
                next,
                d,
                #[trigger] longer[k],
            ) by {
                if k < last {
                    assert(longer[k] == log[k]);
                    assert(covered(s, d, log[k]));
                    if !(from <= log[k] <= to) {
                        let i = choose|i: int|
                            0 <= i < s.closed.len() && (#[trigger] s.closed[i]).device == d
                                && s.closed[i].start <= log[k] <= s.closed[i].end;
                        assert(next.closed[i] == s.closed[i]);
                    }
                }
            }
        }
    }
}

/// A sighting of another device adds nothing to the record of this one.
pub proof fn lemma_observe_other_faithful(
    s: TrackerState,
    net: NetworkView,
    log: Seq<nat>,
    device: Seq<char>,
    th: nat,
)
    requires
        faithful(s, log, device, th),
        net.mac != device,
    ensures
        faithful(s.observe(net, s.clock, th), log, device, th),
{
    let next = s.observe(net, s.clock, th);
    assert forall|i: int|
        0 <= i < next.closed.len() && (#[trigger] next.closed[i]).device == device implies spanned(
        log,
        next.closed[i].start,
        next.closed[i].end,
        th,
    ) by {
        assert(i < s.closed.len());
        assert(next.closed[i] == s.closed[i]);
    }
    assert forall|k: int| 0 <= k < log.len() implies covered(next, device, #[trigger] log[k]) by {
        assert(covered(s, device, log[k]));
        if !(s.open.contains_key(device) && s.open[device].start <= log[k]
            <= s.open[device].last) {
            let i = choose|i: int|
                0 <= i < s.closed.len() && (#[trigger] s.closed[i]).device == device
                    && s.closed[i].start <= log[k] <= s.closed[i].end;
            assert(next.closed[i] == s.closed[i]);
        }
    }
}

/// The networks of one snapshot add their sightings of the device to its
/// record.
pub proof fn lemma_observe_all_faithful(
    s: TrackerState,
    networks: Seq<NetworkView>,
    log: Seq<nat>,
    device: Seq<char>,
    th: nat,
)
    requires
        s.inv(),
        s.apart(0),
        faithful(s, log, device, th),
    ensures
        faithful(
            s.observe_all(networks, s.clock, th),
            log + sightings_in(networks, s.clock, device),
            device,
            th,
        ),
    decreases networks.len(),
{
    if networks.len() == 0 {
        assert(log + sightings_in(networks, s.clock, device) =~= log);
    } else {
        let rest = networks.drop_last();
        let mid = s.observe_all(rest, s.clock, th);
        let seen = sightings_in(rest, s.clock, device);
        lemma_observe_all_faithful(s, rest, log, device, th);
        s.lemma_observe_all_inv(rest, th);
        lemma_observe_all_apart(s, rest, th, 0);
        if networks.last().mac == device {
            lemma_observe_faithful(mid, networks.last(), log + seen, th);
            assert((log + seen).push(s.clock) =~= log + seen.push(s.clock));
        } else {
            lemma_observe_other_faithful(mid, networks.last(), log + seen, device, th);
        }
    }
}

/// Through any run of snapshots under one threshold, what the tracker holds
/// of a device is what the sightings of the device call for.
pub proof fn lemma_run_faithful(events: Seq<Event>, device: Seq<char>, th: nat)
    requires
        steady(events, th),
    ensures
        faithful(TrackerState::run(events), sightings(events, device), device, th),
    decreases events.len(),
{
    if events.len() > 0 {
        let rest = events.drop_last();
        assert forall|k: int| 0 <= k < rest.len() implies (#[trigger] rest[k] matches Event::Snapshot {
            threshold,
            ..
        } && threshold == th) by {
            assert(rest[k] == events[k]);
        }
        lemma_run_faithful(rest, device, th);
        TrackerState::lemma_run_inv(rest);
        assert(all_snapshots(rest, 0));
        lemma_snapshots_apart(rest, 0);
        let before = TrackerState::run(rest);
        let log = sightings(rest, device);
        assert(events[events.len() - 1] matches Event::Snapshot { threshold, .. } && threshold
            == th);
        match events.last() {
            Event::Snapshot { snapshot, threshold } => {
                if before.accepts(snapshot, threshold) {
                    let moved = before.at(snapshot.timestamp);
                    before.lemma_at_inv(snapshot.timestamp);
                    assert forall|k: int| 0 <= k < log.len() implies covered(
                        moved,
                        device,
                        #[trigger] log[k],
                    ) by {
                        assert(covered(before, device, log[k]));
                        if !(before.open.contains_key(device) && before.open[device].start
                            <= log[k] <= before.open[device].last) {
                            let i = choose|i: int|
                                0 <= i < before.closed.len() && (
                                #[trigger] before.closed[i]).device == device
                                    && before.closed[i].start <= log[k] <= before.closed[i].end;
                            assert(moved.closed[i] == before.closed[i]);
                        }
                    }
                    lemma_observe_all_faithful(moved, snapshot.networks, log, device, th);
                }
            },
            Event::Close => {},
        }
    }
}

/// The intervals of a device are what its sightings call for.
///
/// Let a new tracker take in snapshots under the threshold `th`, and then
/// close. Each interval of `device` starts at one of its sightings and ends
/// at one, and every sighting in it but the last is followed by another
/// within `th` seconds. And every sighting of the device lies in one of its
/// intervals.
pub proof fn lemma_intervals_follow_sightings(events: Seq<Event>, device: Seq<char>, th: nat)
    requires
        steady(events, th),
    ensures
        forall|i: int|
            0 <= i < TrackerState::run(events).finalize().closed.len() && (
            #[trigger] TrackerState::run(events).finalize().closed[i]).device == device ==> spanned(
                sightings(events, device),
                TrackerState::run(events).finalize().closed[i].start,
                TrackerState::run(events).finalize().closed[i].end,
                th,
            ),
        forall|k: int|
            0 <= k < sightings(events, device).len() ==> covered(
                TrackerState::run(events).finalize(),
                device,
                #[trigger] sightings(events, device)[k],
            ),
{
    lemma_run_faithful(events, device, th);
    TrackerState::lemma_run_inv(events);
    let s = TrackerState::run(events);
    let after = s.finalize();
    let log = sightings(events, device);
    let n = s.closed.len() as int;
    assert forall|i: int|
        0 <= i < after.closed.len() && (#[trigger] after.closed[i]).device == device implies spanned(
        log,
        after.closed[i].start,
        after.closed[i].end,
        th,
    ) by {
        if i < n {
            assert(after.closed[i] == s.closed[i]);
        } else {
            assert(after.closed[i] == s.trailing_at(i - n));
            assert(s.order.contains(s.order[i - n]));
        }
    }
    assert forall|k: int| 0 <= k < log.len() implies covered(after, device, #[trigger] log[k]) by {
        assert(covered(s, device, log[k]));
        if s.open.contains_key(device) && s.open[device].start <= log[k] <= s.open[device].last {
            let p = choose|p: int| 0 <= p < s.order.len() && s.order[p] == device;
            assert(after.closed[n + p] == s.trailing_at(p));
        } else {
            let i = choose|i: int|
                0 <= i < s.closed.len() && (#[trigger] s.closed[i]).device == device
                    && s.closed[i].start <= log[k] <= s.closed[i].end;
            assert(after.closed[i] == s.closed[i]);
        }
    }
}

} // verus!
