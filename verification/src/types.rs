//! The values that pass between a scan, the tracker and the report.

use crate::model::{Interval, NetworkView, RecordView, SnapshotView};
use vstd::prelude::*;

verus! {

/// One network as a scan reports it. `mac` identifies the device; the other
/// fields are carried along as they came.
#[derive(Debug, PartialEq, Eq)]
pub struct Network {
    pub mac: String,
    pub ssid: String,
    pub channel: String,
    pub signal_level: String,
    pub security: String,
}

impl View for Network {
    type V = NetworkView;

    open spec fn view(&self) -> NetworkView {
        NetworkView {
            mac: self.mac@,
            ssid: self.ssid@,
            channel: self.channel@,
            signal_level: self.signal_level@,
            security: self.security@,
        }
    }
}

impl Clone for Network {
    fn clone(&self) -> (copy: Self)
        ensures
            copy == *self,
    {
        Network {
            mac: self.mac.clone(),
            ssid: self.ssid.clone(),
            channel: self.channel.clone(),
            signal_level: self.signal_level.clone(),
            security: self.security.clone(),
        }
    }
}

/// The networks that one scan saw, with the time of the scan in seconds.
#[derive(Debug, PartialEq, Eq)]
pub struct Snapshot {
    pub timestamp: u64,
    pub networks: Vec<Network>,
}

/// The views of a sequence of networks, in the same order.
pub open spec fn network_views(networks: Seq<Network>) -> Seq<NetworkView> {
    Seq::new(networks.len(), |i: int| networks[i]@)
}

impl View for Snapshot {
    type V = SnapshotView;

    open spec fn view(&self) -> SnapshotView {
        SnapshotView {
            timestamp: self.timestamp as nat,
            networks: network_views(self.networks@),
        }
    }
}

/// A span of time over which a device was present: seen at `start`, seen for
/// the last time at `end`, and never silent for longer than the threshold in
/// between.
#[derive(Debug, PartialEq, Eq)]
pub struct PresenceInterval {
    pub device: String,
    pub start: u64,
    pub end: u64,
}

impl View for PresenceInterval {
    type V = Interval;

    open spec fn view(&self) -> Interval {
        Interval { device: self.device@, start: self.start as nat, end: self.end as nat }
    }
}

impl Clone for PresenceInterval {
    fn clone(&self) -> (copy: Self)
        ensures
            copy == *self,
    {
        PresenceInterval { device: self.device.clone(), start: self.start, end: self.end }
    }
}

impl PresenceInterval {
    /// The length of the interval in seconds, where it is well formed; a
    /// malformed interval, whose end lies before its start, has none.
    pub fn duration(&self) -> (seconds: Option<u64>)
        ensures
            self.start <= self.end ==> seconds == Some((self.end - self.start) as u64),
            self.start > self.end ==> seconds.is_none(),
    {
        if self.start <= self.end {
            Some(self.end - self.start)
        } else {
            None
        }
    }
}

/// The views of a sequence of intervals, in the same order.
pub open spec fn interval_views(intervals: Seq<PresenceInterval>) -> Seq<Interval> {
    Seq::new(intervals.len(), |i: int| intervals[i]@)
}

/// A presence interval with the latest record of its device.
#[derive(Debug, PartialEq, Eq)]
pub struct PresenceRecord {
    pub interval: PresenceInterval,
    pub network: Network,
}

impl View for PresenceRecord {
    type V = RecordView;

    open spec fn view(&self) -> RecordView {
        RecordView { interval: self.interval@, network: self.network@ }
    }
}

impl Clone for PresenceRecord {
    fn clone(&self) -> (copy: Self)
        ensures
            copy == *self,
    {
        PresenceRecord { interval: self.interval.clone(), network: self.network.clone() }
    }
}

/// The views of a sequence of records, in the same order.
pub open spec fn record_views(records: Seq<PresenceRecord>) -> Seq<RecordView> {
    Seq::new(records.len(), |i: int| records[i]@)
}

} // verus!
