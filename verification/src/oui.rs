//! The vendor table: from the leading three bytes of a hardware address, in
//! upper-case hexadecimal, to the name of the manufacturer.

use crate::text::{leading_fields, mac_prefix, to_upper, uppercase_of};
use vstd::hash_map::StringHashMap;
use vstd::prelude::*;

verus! {

/// The name given for an address whose prefix the table does not hold.
pub open spec fn unknown() -> Seq<char> {
    seq!['U', 'n', 'k', 'n', 'o', 'w', 'n']
}

/// The manufacturer that a table gives for a key.
pub open spec fn manufacturer_of(table: Map<Seq<char>, Seq<char>>, key: Seq<char>) -> Seq<char> {
    if table.contains_key(key) {
        table[key]
    } else {
        unknown()
    }
}

/// The key under which an address is looked up: its first three
/// colon-separated fields, run together and in upper case.
pub open spec fn vendor_key(mac: Seq<char>) -> Seq<char> {
    uppercase_of(leading_fields(mac, 3))
}

/// The table after one more row. A row of fewer than three fields is passed
/// over; of any other, the second field in upper case is the key and the
/// third the manufacturer, in place of what the key had before.
pub open spec fn with_row(table: Map<Seq<char>, Seq<char>>, row: Seq<Seq<char>>) -> Map<
    Seq<char>,
    Seq<char>,
> {
    if row.len() >= 3 {
        table.insert(uppercase_of(row[1]), row[2])
    } else {
        table
    }
}

/// The table that the rows make, taken in from the first to the last.
pub open spec fn table_of(rows: Seq<Seq<Seq<char>>>) -> Map<Seq<char>, Seq<char>>
    decreases rows.len(),
{
    if rows.len() == 0 {
        Map::empty()
    } else {
        with_row(table_of(rows.drop_last()), rows.last())
    }
}

/// The fields of one row as texts.
pub open spec fn row_view(row: Vec<String>) -> Seq<Seq<char>> {
    Seq::new(row@.len(), |i: int| row@[i]@)
}

/// The rows as sequences of texts.
pub open spec fn rows_view(rows: Seq<Vec<String>>) -> Seq<Seq<Seq<char>>> {
    Seq::new(rows.len(), |i: int| row_view(rows[i]))
}

/// A vendor table.
pub struct OuiTable {
    entries: StringHashMap<String>,
}

impl View for OuiTable {
    type V = Map<Seq<char>, Seq<char>>;

    closed spec fn view(&self) -> Map<Seq<char>, Seq<char>> {
        Map::new(
            |k: Seq<char>| self.entries@.contains_key(k),
            |k: Seq<char>| self.entries@[k]@,
        )
    }
}

impl OuiTable {
    /// A table without entries.
    pub fn new() -> (table: OuiTable)
        ensures
            table@ == Map::<Seq<char>, Seq<char>>::empty(),
    {
        let table = OuiTable { entries: StringHashMap::new() };
        assert(table@ =~= Map::<Seq<char>, Seq<char>>::empty());
        table
    }

    /// Sets the manufacturer of `key`, in place of what it had before.
    pub fn insert(&mut self, key: String, manufacturer: String)
        ensures
            final(self)@ == old(self)@.insert(key@, manufacturer@),
    {
        self.entries.insert(key, manufacturer);
        assert(self@ =~= old(self)@.insert(key@, manufacturer@));
    }

    /// The manufacturer of `key`, if the table holds the key.
    pub fn get(&self, key: &str) -> (manufacturer: Option<String>)
        ensures
            manufacturer.is_some() == self@.contains_key(key@),
            manufacturer.is_some() ==> manufacturer.unwrap()@ == self@[key@],
    {
        match self.entries.get(key) {
            Some(name) => Some(name.clone()),
            None => None,
        }
    }

    /// The manufacturer of `key`, or `Unknown` where the table does not hold
    /// the key.
    pub fn manufacturer(&self, key: &str) -> (name: String)
        ensures
            name@ == manufacturer_of(self@, key@),
    {
        match self.entries.get(key) {
            Some(name) => name.clone(),
            None => {
                proof {
                    reveal_strlit("Unknown");
                }
                let name = "Unknown".to_string();
                assert(name@ =~= unknown());
                name
            },
        }
    }

    /// Takes one row in: see `with_row`.
    pub fn add_row(&mut self, row: &Vec<String>)
        ensures
            final(self)@ == with_row(old(self)@, row_view(*row)),
    {
        if row.len() >= 3 {
            let key = to_upper(row[1].as_str());
            self.insert(key, row[2].clone());
        }
    }
}

/// Builds the vendor table from the rows of the vendor list, the header row
/// left out. Later rows win over earlier ones with the same key.
pub fn oui_from_records(records: &Vec<Vec<String>>) -> (table: OuiTable)
    ensures
        table@ == table_of(rows_view(records@)),
{
    let mut table = OuiTable::new();
    let ghost rows = rows_view(records@);
    let n = records.len();
    let mut i: usize = 0;
    while i < n
        invariant
            i <= n,
            n == records.len(),
            rows == rows_view(records@),
            table@ == table_of(rows.take(i as int)),
        decreases n - i,
    {
        assert(rows.take(i + 1).drop_last() =~= rows.take(i as int));
        assert(rows.take(i + 1).last() == row_view(records[i as int]));
        table.add_row(&records[i]);
        i += 1;
    }
    assert(rows.take(n as int) =~= rows);
    table
}

/// The manufacturer of the device with the hardware address `mac`: the
/// table's entry for the address's vendor key, or `Unknown`. There is always
/// an answer.
pub fn get_manufacturer(mac: &str, oui_data: &OuiTable) -> (manufacturer: Option<String>)
    ensures
        manufacturer.is_some(),
        manufacturer.unwrap()@ == manufacturer_of(oui_data@, vendor_key(mac@)),
{
    let prefix = mac_prefix(mac);
    let key = to_upper(prefix.as_str());
    Some(oui_data.manufacturer(key.as_str()))
}

} // verus!
