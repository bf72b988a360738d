//! The record type of the reader path: a raw record decoded from one
//! segment, step by step, as a forward-only reader consumes the file.

use vstd::prelude::*;

use crate::codec::{parse_one, parse_record};
use crate::entry::{Entry, EntryView};

verus! {

/// One record as read back from a segment file.
pub struct StorageEntry {
    key: Vec<u8>,
    value: Option<Vec<u8>>,
    timestamp: u128,
    deleted: bool,
}

impl View for StorageEntry {
    type V = EntryView;

    closed spec fn view(&self) -> EntryView {
        EntryView {
            key: self.key@,
            value: match self.value {
                Some(v) => Some(v@),
                None => None,
            },
            timestamp: self.timestamp,
            deleted: self.deleted,
        }
    }
}

impl StorageEntry {
    /// Reads the record that starts at `start`: the record and the offset
    /// just past it, or `None` when the data ends before the record does.
    pub fn read_record(data: &[u8], start: usize) -> (r: Option<(StorageEntry, usize)>)
        requires
            start <= data@.len(),
        ensures
            ({
                let parsed = parse_one(data@.skip(start as int));
                &&& (r is Some <==> parsed is Some)
                &&& r is Some ==> {
                    &&& r.unwrap().0@ == parsed.unwrap().0
                    &&& r.unwrap().1 == start + parsed.unwrap().1
                    &&& r.unwrap().1 <= data@.len()
                }
            }),
    {
        match parse_record(data, start) {
            None => None,
            Some((e, end)) => {
                let Entry { key, value, timestamp, deleted } = e;
                Some((StorageEntry { key, value, timestamp, deleted }, end))
            },
        }
    }

    /// The record as the general `Entry` type.
    pub fn into_entry(self) -> (r: Entry)
        ensures
            r@ == self@,
    {
        let StorageEntry { key, value, timestamp, deleted } = self;
        Entry { key, value, timestamp, deleted }
    }
}

} // verus!
