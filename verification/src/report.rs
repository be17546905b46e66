//! The report: one entry per network or device, ready to be written out.

use crate::model::{NetworkView, RecordView};
use crate::oui::{get_manufacturer, manufacturer_of, vendor_key, OuiTable};
use crate::text::{
    decimal, format_decimal, format_span, joined, sanitize_string, sanitized, span_text,
};
use crate::types::{record_views, Network, PresenceRecord};
use vstd::prelude::*;

verus! {

/// One entry of the report.
#[derive(Debug, PartialEq, Eq)]
pub struct WifiData {
    pub ssid: String,
    pub mac: String,
    pub manufacturer: String,
    pub network_security: String,
    pub channel: String,
    pub wifi_durations: String,
}

/// An entry of the report as texts.
pub struct WifiDataView {
    pub ssid: Seq<char>,
    pub mac: Seq<char>,
    pub manufacturer: Seq<char>,
    pub network_security: Seq<char>,
    pub channel: Seq<char>,
    pub wifi_durations: Seq<char>,
}

impl View for WifiData {
    type V = WifiDataView;

    open spec fn view(&self) -> WifiDataView {
        WifiDataView {
            ssid: self.ssid@,
            mac: self.mac@,
            manufacturer: self.manufacturer@,
            network_security: self.network_security@,
            channel: self.channel@,
            wifi_durations: self.wifi_durations@,
        }
    }
}

/// The views of a sequence of entries, in the same order.
pub open spec fn entry_views(entries: Seq<WifiData>) -> Seq<WifiDataView> {
    Seq::new(entries.len(), |i: int| entries[i]@)
}

/// How the report names the security of a network: `Open` where the scan
/// gave no security at all, `Secured` otherwise.
pub open spec fn security_label(security: Seq<char>) -> Seq<char> {
    if security.len() == 0 {
        seq!['O', 'p', 'e', 'n']
    } else {
        seq!['S', 'e', 'c', 'u', 'r', 'e', 'd']
    }
}

/// The entry of the device `mac`, last seen as `net`, with its durations.
/// The name of the network and that of the manufacturer are cleaned of quote
/// marks.
pub open spec fn entry_of(
    mac: Seq<char>,
    net: NetworkView,
    table: Map<Seq<char>, Seq<char>>,
    durations: Seq<char>,
) -> WifiDataView {
    WifiDataView {
        ssid: sanitized(net.ssid),
        mac: mac,
        manufacturer: sanitized(manufacturer_of(table, vendor_key(mac))),
        network_security: security_label(net.security),
        channel: net.channel,
        wifi_durations: durations,
    }
}

/// Names the security of a network for the report.
pub fn classify_security(security: &str) -> (label: String)
    ensures
        label@ == security_label(security@),
{
    proof {
        reveal_strlit("Open");
        reveal_strlit("Secured");
    }
    if security.is_empty() {
        let label = "Open".to_string();
        assert(label@ =~= security_label(security@));
        label
    } else {
        let label = "Secured".to_string();
        assert(label@ =~= security_label(security@));
        label
    }
}

/// Builds the entry of one device.
fn make_entry(mac: &String, network: &Network, oui_data: &OuiTable, durations: String) -> (entry:
    WifiData)
    ensures
        entry@ == entry_of(mac@, network@, oui_data@, durations@),
{
    let manufacturer = get_manufacturer(mac.as_str(), oui_data).unwrap();
    WifiData {
        ssid: sanitize_string(network.ssid.as_str()),
        mac: mac.clone(),
        manufacturer: sanitize_string(manufacturer.as_str()),
        network_security: classify_security(network.security.as_str()),
        channel: network.channel.clone(),
        wifi_durations: durations,
    }
}

/// The entries of one scan: one per network, in the order of the scan, each
/// without durations.
pub fn convert_to_wifi_data(networks: &Vec<Network>, oui_data: &OuiTable) -> (entries: Vec<
    WifiData,
>)
    ensures
        entries@.len() == networks@.len(),
        forall|i: int|
            0 <= i < networks@.len() ==> (#[trigger] entries@[i])@ == entry_of(
                networks@[i].mac@,
                networks@[i]@,
                oui_data@,
                Seq::empty(),
            ),
{
    let mut entries: Vec<WifiData> = Vec::new();
    let n = networks.len();
    let mut i: usize = 0;
    while i < n
        invariant
            i <= n,
            n == networks.len(),
            entries@.len() == i,
            forall|k: int|
                0 <= k < i ==> (#[trigger] entries@[k])@ == entry_of(
                    networks@[k].mac@,
                    networks@[k]@,
                    oui_data@,
                    Seq::empty(),
                ),
        decreases n - i,
    {
        let entry = make_entry(&networks[i].mac, &networks[i], oui_data, String::new());
        entries.push(entry);
        i += 1;
    }
    entries
}

/// Whether the `i`-th record is the first of its device.
pub open spec fn is_first(records: Seq<RecordView>, i: int) -> bool {
    forall|j: int| 0 <= j < i ==> (#[trigger] records[j]).interval.device != records[i].interval.device
}

/// The texts of the intervals of `device` among the records, in their order.
pub open spec fn span_texts(records: Seq<RecordView>, device: Seq<char>) -> Seq<Seq<char>>
    decreases records.len(),
{
    if records.len() == 0 {
        Seq::empty()
    } else {
        let before = span_texts(records.drop_last(), device);
        let last = records.last().interval;
        if last.device == device {
            before.push(span_text(last.start, last.end))
        } else {
            before
        }
    }
}

/// The durations of `device`: the texts of its intervals with a comma
/// between each two.
pub open spec fn durations_of(records: Seq<RecordView>, device: Seq<char>) -> Seq<char> {
    joined(span_texts(records, device))
}

/// The entries that the first `n` records give rise to: one for each device
/// at the first of its records, with the durations of all of its intervals.
pub open spec fn results(records: Seq<RecordView>, table: Map<Seq<char>, Seq<char>>, n: nat)
    -> Seq<WifiDataView>
    decreases n,
{
    if n == 0 {
        Seq::empty()
    } else {
        let before = results(records, table, (n - 1) as nat);
        let record = records[n - 1];
        if is_first(records, n - 1) {
            before.push(
                entry_of(
                    record.interval.device,
                    record.network,
                    table,
                    durations_of(records, record.interval.device),
                ),
            )
        } else {
            before
        }
    }
}

/// Whether no record before the `i`-th is of the same device.
fn first_of_device(records: &Vec<PresenceRecord>, i: usize) -> (first: bool)
    requires
        i < records.len(),
    ensures
        first == is_first(record_views(records@), i as int),
{
    let mut j: usize = 0;
    while j < i
        invariant
            j <= i,
            i < records.len(),
            forall|k: int|
                0 <= k < j ==> (#[trigger] record_views(records@)[k]).interval.device
                    != records[i as int].interval.device@,
        decreases i - j,
    {
        if records[j].interval.device == records[i].interval.device {
            assert(record_views(records@)[j as int].interval.device == record_views(
                records@,
            )[i as int].interval.device);
            return false;
        }
        j += 1;
    }
    true
}

/// Writes the durations of one device.
fn durations_for(records: &Vec<PresenceRecord>, device: &String) -> (text: String)
    ensures
        text@ == durations_of(record_views(records@), device@),
{
    let ghost all = record_views(records@);
    let mut text = String::new();
    let mut any = false;
    let n = records.len();
    let mut k: usize = 0;
    while k < n
        invariant
            k <= n,
            n == records.len(),
            all == record_views(records@),
            any == (span_texts(all.take(k as int), device@).len() > 0),
            text@ == joined(span_texts(all.take(k as int), device@)),
        decreases n - k,
    {
        let ghost before = span_texts(all.take(k as int), device@);
        assert(all.take(k + 1).drop_last() =~= all.take(k as int));
        assert(all.take(k + 1).last() == records[k as int]@);
        if records[k].interval.device == *device {
            let piece = format_span(records[k].interval.start, records[k].interval.end);
            assert(before.push(piece@).drop_last() =~= before);
            if any {
                text.push(',');
            }
            text.append(piece.as_str());
            assert(text@ =~= joined(before.push(piece@)));
            any = true;
        }
        k += 1;
    }
    assert(all.take(n as int) =~= all);
    text
}

/// The entries of a run: one per device, in the order in which the devices
/// first occur among the records, each with all the intervals of its device
/// as `from-to` pairs with a comma between each two.
pub fn generate_results(records: &Vec<PresenceRecord>, oui_data: &OuiTable) -> (entries: Vec<
    WifiData,
>)
    ensures
        entry_views(entries@) == results(record_views(records@), oui_data@, records@.len()),
{
    let ghost all = record_views(records@);
    let mut entries: Vec<WifiData> = Vec::new();
    let n = records.len();
    let mut i: usize = 0;
    while i < n
        invariant
            i <= n,
            n == records.len(),
            all == record_views(records@),
            entry_views(entries@) == results(all, oui_data@, i as nat),
        decreases n - i,
    {
        if first_of_device(records, i) {
            let ghost before = entry_views(entries@);
            let durations = durations_for(records, &records[i].interval.device);
            let entry = make_entry(
                &records[i].interval.device,
                &records[i].network,
                oui_data,
                durations,
            );
            entries.push(entry);
            assert(entry_views(entries@) =~= before.push(entry@));
        }
        i += 1;
    }
    entries
}

/// The keys under which the entries of a report are filed: the numerals of
/// one, two and so on, one for each entry.
pub fn entry_keys(count: usize) -> (keys: Vec<String>)
    ensures
        keys@.len() == count,
        forall|i: int| 0 <= i < count ==> (#[trigger] keys@[i])@ == decimal((i + 1) as nat),
{
    let mut keys: Vec<String> = Vec::new();
    let mut i: usize = 0;
    while i < count
        invariant
            i <= count,
            keys@.len() == i,
            forall|k: int| 0 <= k < i ==> (#[trigger] keys@[k])@ == decimal((k + 1) as nat),
        decreases count - i,
    {
        keys.push(format_decimal((i + 1) as u64));
        i += 1;
    }
    keys
}

} // verus!
