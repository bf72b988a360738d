//! The log record: one put or one tombstone for a single key.

use vstd::prelude::*;

verus! {

/// Mathematical model of a record.
pub ghost struct EntryView {
    pub key: Seq<u8>,
    pub value: Option<Seq<u8>>,
    pub timestamp: u128,
    pub deleted: bool,
}

impl EntryView {
    /// A record carries a value exactly when it is not a tombstone.
    pub open spec fn wf(self) -> bool {
        self.value is Some <==> !self.deleted
    }

    /// The bytes of the value, or the empty sequence for a tombstone.
    pub open spec fn value_bytes(self) -> Seq<u8> {
        match self.value {
            Some(v) => v,
            None => Seq::empty(),
        }
    }

    /// The in-memory charge of a record: key bytes, value bytes, plus a
    /// fixed 17 bytes (16 for the timestamp, 1 for the tombstone flag).
    pub open spec fn charge(self) -> int {
        self.key.len() + self.value_bytes().len() + 17int
    }
}

/// One log entry: a key, the value written for it (absent on a tombstone),
/// the write's wall-clock timestamp in microseconds, and the tombstone flag.
#[derive(Debug)]
pub struct Entry {
    pub key: Vec<u8>,
    pub value: Option<Vec<u8>>,
    pub timestamp: u128,
    pub deleted: bool,
}

impl View for Entry {
    type V = EntryView;

    open spec fn view(&self) -> EntryView {
        EntryView {
            key: self.key@,
            value: match self.value {
                Some(v) => Some(v@),
                None => None,
            },
            timestamp: self.timestamp,
            deleted: self.deleted,
        }
    }
}

impl Entry {
    /// An exact copy of the record.
    pub fn duplicate(&self) -> (r: Entry)
        ensures
            r@ == self@,
    {
        Entry {
            key: clone_bytes(&self.key),
            value: match &self.value {
                Some(v) => Some(clone_bytes(v)),
                None => None,
            },
            timestamp: self.timestamp,
            deleted: self.deleted,
        }
    }
}

/// An exact copy of a byte vector.
pub fn clone_bytes(v: &Vec<u8>) -> (r: Vec<u8>)
    ensures
        r@ == v@,
{
    let mut r: Vec<u8> = Vec::new();
    let mut i: usize = 0;
    while i < v.len()
        invariant
            i <= v.len(),
            r@ == v@.take(i as int),
        decreases v.len() - i,
    {
        r.push(v[i]);
        i = i + 1;
        proof {
            assert(v@.take(i as int) == v@.take(i as int - 1).push(v@[i as int - 1]));
        }
    }
    proof {
        assert(v@.take(v@.len() as int) == v@);
    }
    r
}

/// The views of a sequence of records.
pub open spec fn views_of(s: Seq<Entry>) -> Seq<EntryView> {
    s.map_values(|e: Entry| e@)
}

} // verus!
