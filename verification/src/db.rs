//! The engine: ties the record codec and the memtable to one active segment.
//!
//! The engine state is the memtable plus the bytes of the active segment —
//! the records appended since the engine was opened.  Reading and writing
//! the segment files themselves is the embedding process's part; every
//! transition here states exactly which bytes go to the log and how the
//! index changes, and the invariant ties the two together: folding the
//! active segment's records rebuilds exactly the current index.

use vstd::prelude::*;

use crate::codec::{
    bytes_equal, canonical_segment, encode_record, encode_tombstone, entry_bytes, extend_bytes,
    lemma_canonical_concat, lemma_canonical_empty, lemma_canonical_push, lemma_parse_records_wf,
    lemma_parse_segment_bytes, lemma_segment_bytes_push, parse_one, parse_records, parse_segment,
    record_bytes, seg_wf, segment_bytes,
};
use crate::entry::{views_of, Entry, EntryView};
use crate::memtable::{
    last_index_of_key, lemma_last_write_wins, lemma_map_of_contains, lemma_map_of_push,
    lemma_size_sum_concat, lemma_size_sum_nonneg, lemma_size_sum_push, lemma_size_sum_take_le,
    lemma_sorted_map_determines, map_of, size_sum, sorted_keys, MemTable,
};

verus! {

/// The views of a sequence of byte vectors.
pub open spec fn seg_views(s: Seq<Vec<u8>>) -> Seq<Seq<u8>> {
    s.map_values(|v: Vec<u8>| v@)
}

/// All records of a sequence of segments, each parsed, in segment order.
pub open spec fn all_records(segs: Seq<Seq<u8>>) -> Seq<EntryView>
    decreases segs.len(),
{
    if segs.len() == 0 {
        Seq::empty()
    } else {
        all_records(segs.drop_last()) + parse_records(segs.last())
    }
}

/// The index that recovery over `segs`, in order, arrives at: the
/// last-write-wins fold of every record of every segment.
pub open spec fn recover_map(segs: Seq<Seq<u8>>) -> Map<Seq<u8>, EntryView> {
    map_of(all_records(segs))
}

/// No record is a tombstone.
pub open spec fn all_live(es: Seq<EntryView>) -> bool {
    forall|i: int| 0 <= i < es.len() ==> !(#[trigger] es[i]).deleted
}

/// Recovery from a single segment folds exactly that segment's records.
pub proof fn lemma_recover_single(data: Seq<u8>)
    ensures
        recover_map(seq![data]) == map_of(parse_records(data)),
{
    let segs = seq![data];
    assert(segs.drop_last() =~= Seq::<Seq<u8>>::empty());
    assert(segs.last() == data);
    assert(all_records(Seq::<Seq<u8>>::empty()) == Seq::<EntryView>::empty());
    assert(all_records(segs) == all_records(segs.drop_last()) + parse_records(segs.last()));
    assert(Seq::<EntryView>::empty() + parse_records(data) =~= parse_records(data));
}

/// The records of a prefix of the segments never charge more than the whole.
pub proof fn lemma_all_records_take_le(segs: Seq<Seq<u8>>, m: int)
    requires
        0 <= m <= segs.len(),
    ensures
        size_sum(all_records(segs.take(m))) <= size_sum(all_records(segs)),
    decreases segs.len() - m,
{
    if m == segs.len() {
        assert(segs.take(m) =~= segs);
    } else {
        assert(segs.take(m + 1).drop_last() =~= segs.take(m));
        assert(segs.take(m + 1).last() == segs[m]);
        lemma_size_sum_concat(all_records(segs.take(m)), parse_records(segs[m]));
        lemma_size_sum_nonneg(parse_records(segs[m]));
        lemma_all_records_take_le(segs, m + 1);
    }
}

/// A parsed record never charges more than the bytes it was read from: the
/// whole parse charges at most the segment's length.
pub proof fn lemma_charge_le_bytes(data: Seq<u8>)
    ensures
        size_sum(parse_records(data)) <= data.len(),
    decreases data.len(),
{
    match parse_one(data) {
        None => {},
        Some((e, n)) => {
            lemma_charge_le_bytes(data.skip(n));
            let rest = parse_records(data.skip(n));
            assert(parse_records(data) == seq![e] + rest);
            lemma_size_sum_concat(seq![e], rest);
            assert(seq![e].drop_last() =~= Seq::<EntryView>::empty());
            assert(seq![e].last() == e);
            assert(size_sum(Seq::<EntryView>::empty()) == 0);
            assert(size_sum(seq![e]) == e.charge());
            assert(e.charge() <= n);
        },
    }
}

/// The summed length of the segments.
pub open spec fn bytes_total(segs: Seq<Seq<u8>>) -> int
    decreases segs.len(),
{
    if segs.len() == 0 {
        0
    } else {
        bytes_total(segs.drop_last()) + segs.last().len()
    }
}

/// A prefix of the segments never sums longer than the whole.
pub proof fn lemma_bytes_total_take_le(segs: Seq<Seq<u8>>, m: int)
    requires
        0 <= m <= segs.len(),
    ensures
        bytes_total(segs.take(m)) <= bytes_total(segs),
    decreases segs.len() - m,
{
    if m == segs.len() {
        assert(segs.take(m) =~= segs);
    } else {
        assert(segs.take(m + 1).drop_last() =~= segs.take(m));
        assert(segs.take(m + 1).last() == segs[m]);
        lemma_bytes_total_take_le(segs, m + 1);
    }
}

/// Decides whether `data` is a whole number of canonically encoded live
/// records: the form a snapshot import accepts.
pub fn is_live_canonical(data: &[u8]) -> (r: bool)
    ensures
        r == (canonical_segment(data@) && all_live(parse_records(data@))),
{
    let records = parse_segment(data);
    let ghost rs = parse_records(data@);
    let mut reencoded: Vec<u8> = Vec::new();
    let mut live = true;
    let mut i: usize = 0;
    proof {
        lemma_parse_records_wf(data@);
        assert(rs.take(0) =~= Seq::<EntryView>::empty());
        assert(segment_bytes(Seq::<EntryView>::empty()) == Seq::<u8>::empty());
    }
    while i < records.len()
        invariant
            i <= records@.len(),
            rs == views_of(records@),
            rs.len() == records@.len(),
            seg_wf(rs),
            reencoded@ == segment_bytes(rs.take(i as int)),
            live == all_live(rs.take(i as int)),
        decreases records@.len() - i,
    {
        let e = &records[i];
        let ghost ev = rs[i as int];
        proof {
            assert(ev == records@[i as int]@);
            assert(ev.wf());
            assert(rs.take(i + 1) =~= rs.take(i as int).push(ev));
            lemma_segment_bytes_push(rs.take(i as int), ev);
            assert(forall|j: int|
                0 <= j < i ==> rs.take(i + 1)[j] == rs.take(i as int)[j]);
            assert(rs.take(i + 1)[i as int] == ev);
        }
        if e.deleted {
            live = false;
            let rec = encode_tombstone(e.key.as_slice(), e.timestamp);
            extend_bytes(&mut reencoded, rec.as_slice());
            proof {
                assert(ev.value_bytes() =~= Seq::<u8>::empty());
                assert(entry_bytes(ev) == record_bytes(
                    e.key@,
                    Seq::<u8>::empty(),
                    true,
                    e.timestamp,
                ));
                assert(!all_live(rs.take(i + 1)));
            }
        } else {
            match &e.value {
                Some(v) => {
                    let rec = encode_record(e.key.as_slice(), v.as_slice(), false, e.timestamp);
                    extend_bytes(&mut reencoded, rec.as_slice());
                    proof {
                        assert(ev.value_bytes() == v@);
                        assert(entry_bytes(ev) == record_bytes(e.key@, v@, false, e.timestamp));
                    }
                },
                None => {
                    proof {
                        assert(false);
                    }
                },
            }
            proof {
                assert(all_live(rs.take(i + 1)) == all_live(rs.take(i as int))) by {
                    if all_live(rs.take(i as int)) {
                        assert forall|j: int|
                            0 <= j < rs.take(i + 1).len() implies !(#[trigger] rs.take(
                            i + 1,
                        )[j]).deleted by {
                            if j < i {
                                assert(rs.take(i as int)[j] == rs.take(i + 1)[j]);
                            }
                        }
                    } else {
                        let j = choose|j: int|
                            0 <= j < rs.take(i as int).len() && (#[trigger] rs.take(
                                i as int,
                            )[j]).deleted;
                        assert(rs.take(i + 1)[j].deleted);
                    }
                }
            }
        }
        i = i + 1;
    }
    proof {
        assert(rs.take(rs.len() as int) =~= rs);
    }
    let same = bytes_equal(reencoded.as_slice(), data);
    same && live
}

/// All the segments' records together charge at most the segments' summed
/// length.
pub proof fn lemma_all_records_le_bytes(segs: Seq<Seq<u8>>)
    ensures
        size_sum(all_records(segs)) <= bytes_total(segs),
    decreases segs.len(),
{
    if segs.len() > 0 {
        lemma_all_records_le_bytes(segs.drop_last());
        lemma_charge_le_bytes(segs.last());
        lemma_size_sum_concat(all_records(segs.drop_last()), parse_records(segs.last()));
    }
}

/// The snapshot blob of a memtable state: the canonical encodings of the
/// live entries, in order; tombstones contribute nothing.
pub open spec fn snapshot_bytes(es: Seq<EntryView>) -> Seq<u8>
    decreases es.len(),
{
    if es.len() == 0 {
        Seq::empty()
    } else {
        snapshot_bytes(es.drop_last()) + if es.last().deleted {
            Seq::<u8>::empty()
        } else {
            entry_bytes(es.last())
        }
    }
}

/// The live records among `es`, in order.
pub open spec fn live_records(es: Seq<EntryView>) -> Seq<EntryView>
    decreases es.len(),
{
    if es.len() == 0 {
        Seq::empty()
    } else {
        live_records(es.drop_last()) + if es.last().deleted {
            Seq::<EntryView>::empty()
        } else {
            seq![es.last()]
        }
    }
}

/// The snapshot blob is the canonical segment of the live records.
pub proof fn lemma_live_records(es: Seq<EntryView>)
    requires
        seg_wf(es),
    ensures
        seg_wf(live_records(es)),
        all_live(live_records(es)),
        segment_bytes(live_records(es)) == snapshot_bytes(es),
    decreases es.len(),
{
    if es.len() == 0 {
        assert(live_records(es) == Seq::<EntryView>::empty());
        assert(segment_bytes(Seq::<EntryView>::empty()) == Seq::<u8>::empty());
    } else {
        assert(seg_wf(es.drop_last())) by {
            assert(forall|j: int| 0 <= j < es.drop_last().len() ==> es.drop_last()[j] == es[j]);
        }
        lemma_live_records(es.drop_last());
        let front = live_records(es.drop_last());
        let last = es.last();
        assert(last == es[es.len() - 1]);
        if last.deleted {
            assert(live_records(es) =~= front);
            assert(snapshot_bytes(es) =~= segment_bytes(front));
        } else {
            assert(live_records(es) =~= front.push(last));
            lemma_segment_bytes_push(front, last);
            assert(seg_wf(front.push(last))) by {
                assert(forall|j: int|
                    0 <= j < front.len() ==> front.push(last)[j] == front[j]);
                assert(front.push(last)[front.len() as int] == last);
            }
            assert(all_live(front.push(last))) by {
                assert(forall|j: int|
                    0 <= j < front.len() ==> front.push(last)[j] == front[j]);
                assert(front.push(last)[front.len() as int] == last);
            }
            assert(segment_bytes(front.push(last)) == snapshot_bytes(es));
        }
    }
}

/// The storage engine: the in-memory index and the bytes of the active
/// segment.
pub struct Db {
    mem_table: MemTable,
    active: Vec<u8>,
}

impl Db {
    /// The bytes appended to the active segment since open.
    pub closed spec fn active_bytes(&self) -> Seq<u8> {
        self.active@
    }

    /// The memtable's entries, in key order.
    pub closed spec fn mem(&self) -> Seq<EntryView> {
        self.mem_table@
    }

    /// The index: each key maps to the latest record written for it.
    pub open spec fn kv_map(&self) -> Map<Seq<u8>, EntryView> {
        map_of(self.mem())
    }

    /// The memtable's size counter.
    pub closed spec fn mem_size(&self) -> int {
        self.mem_table.spec_size()
    }

    /// The engine invariant: the memtable is well formed, the active segment
    /// is a canonical concatenation of records, and folding those records
    /// rebuilds exactly the index.
    pub closed spec fn inv(&self) -> bool {
        &&& self.mem_table.wf()
        &&& canonical_segment(self.active@)
        &&& map_of(parse_records(self.active@)) == self.mem_table.kv_map()
    }

    /// What the invariant gives a caller.
    pub proof fn lemma_inv(&self)
        requires
            self.inv(),
        ensures
            canonical_segment(self.active_bytes()),
            map_of(parse_records(self.active_bytes())) == self.kv_map(),
            sorted_keys(self.mem()),
            seg_wf(self.mem()),
            self.mem_size() == size_sum(self.mem()),
    {
        self.mem_table.lemma_size_accounting();
    }

    /// Last write wins at the engine: for each key the index holds exactly
    /// the last record of the active segment's log that carries it, and no
    /// key the log never wrote.  Each `set` and `delete` appends exactly its
    /// record to that log, so a read after any sequence of writes sees the
    /// latest write of its key.
    pub proof fn lemma_index_reflects_last_write(&self, k: Seq<u8>)
        requires
            self.inv(),
        ensures
            ({
                let log = parse_records(self.active_bytes());
                &&& (self.kv_map().contains_key(k) <==> exists|i: int|
                    0 <= i < log.len() && (#[trigger] log[i]).key == k)
                &&& self.kv_map().contains_key(k) ==> {
                    let i = last_index_of_key(log, k);
                    &&& 0 <= i < log.len()
                    &&& log[i].key == k
                    &&& self.kv_map()[k] == log[i]
                    &&& forall|j: int| i < j < log.len() ==> (#[trigger] log[j]).key != k
                }
            }),
    {
        lemma_last_write_wins(parse_records(self.active_bytes()), k);
    }

    /// Round-trip durability: recovering from the engine's active segment
    /// alone rebuilds exactly the engine's current index — every live value
    /// and every tombstone.
    pub proof fn lemma_durability(&self)
        requires
            self.inv(),
        ensures
            recover_map(seq![self.active_bytes()]) == self.kv_map(),
    {
        lemma_recover_single(self.active_bytes());
    }

    /// A fresh engine over an empty segment.
    pub fn new() -> (r: Db)
        ensures
            r.inv(),
            r.kv_map() == Map::<Seq<u8>, EntryView>::empty(),
            r.mem() == Seq::<EntryView>::empty(),
            r.active_bytes() == Seq::<u8>::empty(),
            r.mem_size() == 0,
    {
        let r = Db { mem_table: MemTable::new(), active: Vec::new() };
        proof {
            lemma_canonical_empty();
            assert(r.active@ =~= Seq::<u8>::empty());
        }
        r
    }

    /// Opens over the prior segments' bytes, handed in filename (creation)
    /// order: folds every record of every segment, in order, into a fresh
    /// index — live records as puts, tombstones as deletes, tombstones for
    /// absent keys retained — then rewrites the merged state, tombstones
    /// included, as the new active segment.  This is the compaction: the
    /// caller afterwards writes the active segment to a new file and deletes
    /// the prior ones.
    pub fn init_from_existing(segments: &Vec<Vec<u8>>) -> (r: Db)
        requires
            size_sum(all_records(seg_views(segments@))) <= usize::MAX,
        ensures
            r.inv(),
            r.kv_map() == recover_map(seg_views(segments@)),
            parse_records(r.active_bytes()) == r.mem(),
    {
        let ghost sv = seg_views(segments@);
        let mut mem_table = MemTable::new();
        let mut si: usize = 0;
        proof {
            assert(sv.take(0) =~= Seq::<Seq<u8>>::empty());
            assert(all_records(sv.take(0)) == Seq::<EntryView>::empty());
        }
        while si < segments.len()
            invariant
                si <= segments@.len(),
                sv == seg_views(segments@),
                sv.len() == segments@.len(),
                size_sum(all_records(sv)) <= usize::MAX,
                mem_table.wf(),
                mem_table.kv_map() == map_of(all_records(sv.take(si as int))),
                mem_table.spec_size() <= size_sum(all_records(sv.take(si as int))),
            decreases segments@.len() - si,
        {
            let data = parse_segment(segments[si].as_slice());
            let ghost recs = parse_records(sv[si as int]);
            proof {
                assert(segments@[si as int]@ == sv[si as int]);
                assert(views_of(data@) == recs);
                lemma_parse_records_wf(sv[si as int]);
                assert(sv.take(si + 1).drop_last() =~= sv.take(si as int));
                assert(sv.take(si + 1).last() == sv[si as int]);
                assert(all_records(sv.take(si + 1)) == all_records(sv.take(si as int)) + recs);
                assert(recs.take(0) =~= Seq::<EntryView>::empty());
                assert(all_records(sv.take(si as int)) + recs.take(0) =~= all_records(
                    sv.take(si as int),
                ));
            }
            let mut j: usize = 0;
            while j < data.len()
                invariant
                    j <= data@.len(),
                    recs == views_of(data@),
                    recs.len() == data@.len(),
                    seg_wf(recs),
                    0 <= si < sv.len(),
                    size_sum(all_records(sv)) <= usize::MAX,
                    all_records(sv.take(si as int + 1)) == all_records(sv.take(si as int)) + recs,
                    mem_table.wf(),
                    mem_table.kv_map() == map_of(
                        all_records(sv.take(si as int)) + recs.take(j as int),
                    ),
                    mem_table.spec_size() <= size_sum(
                        all_records(sv.take(si as int)) + recs.take(j as int),
                    ),
                decreases data@.len() - j,
            {
                let e = &data[j];
                let ghost rv = recs[j as int];
                let ghost base = all_records(sv.take(si as int)) + recs.take(j as int);
                proof {
                    assert(rv == data@[j as int]@);
                    assert(rv.wf());
                    assert(recs.take(j + 1) =~= recs.take(j as int).push(rv));
                    assert((all_records(sv.take(si as int)) + recs.take(j + 1)) =~= base.push(rv));
                    lemma_map_of_push(base, rv);
                    lemma_size_sum_push(base, rv);
                    lemma_size_sum_take_le(recs, j + 1);
                    lemma_size_sum_concat(all_records(sv.take(si as int)), recs.take(j + 1));
                    lemma_size_sum_concat(all_records(sv.take(si as int)), recs.take(j as int));
                    lemma_size_sum_concat(all_records(sv.take(si as int)), recs);
                    lemma_all_records_take_le(sv, si as int + 1);
                    assert(size_sum(base.push(rv)) <= size_sum(all_records(sv)));
                }
                if e.deleted {
                    mem_table.delete(e.key.as_slice(), e.timestamp);
                    proof {
                        assert(EntryView {
                            key: e.key@,
                            value: None,
                            timestamp: e.timestamp,
                            deleted: true,
                        } == rv);
                    }
                } else {
                    match &e.value {
                        Some(v) => {
                            mem_table.set_or_insert(e.key.as_slice(), v.as_slice(), e.timestamp);
                            proof {
                                assert(EntryView {
                                    key: e.key@,
                                    value: Some(v@),
                                    timestamp: e.timestamp,
                                    deleted: false,
                                } == rv);
                            }
                        },
                        None => {
                            proof {
                                assert(false);
                            }
                        },
                    }
                }
                j = j + 1;
            }
            proof {
                assert(recs.take(recs.len() as int) =~= recs);
            }
            si = si + 1;
        }
        proof {
            assert(sv.take(sv.len() as int) =~= sv);
        }
        let entries = mem_table.get_all();
        let ghost mes = mem_table@;
        let mut active: Vec<u8> = Vec::new();
        proof {
            mem_table.lemma_size_accounting();
            assert(mes.take(0) =~= Seq::<EntryView>::empty());
            assert(segment_bytes(Seq::<EntryView>::empty()) == Seq::<u8>::empty());
        }
        let mut i: usize = 0;
        while i < entries.len()
            invariant
                i <= entries@.len(),
                mes == views_of(entries@),
                mes.len() == entries@.len(),
                seg_wf(mes),
                active@ == segment_bytes(mes.take(i as int)),
            decreases entries@.len() - i,
        {
            let e = &entries[i];
            let ghost ev = mes[i as int];
            proof {
                assert(ev == entries@[i as int]@);
                assert(ev.wf());
                assert(mes.take(i + 1) =~= mes.take(i as int).push(ev));
                lemma_segment_bytes_push(mes.take(i as int), ev);
            }
            if e.deleted {
                let rec = encode_tombstone(e.key.as_slice(), e.timestamp);
                extend_bytes(&mut active, rec.as_slice());
                proof {
                    assert(ev.value_bytes() =~= Seq::<u8>::empty());
                    assert(entry_bytes(ev) == record_bytes(
                        e.key@,
                        Seq::<u8>::empty(),
                        true,
                        e.timestamp,
                    ));
                }
            } else {
                match &e.value {
                    Some(v) => {
                        let rec = encode_record(e.key.as_slice(), v.as_slice(), false, e.timestamp);
                        extend_bytes(&mut active, rec.as_slice());
                        proof {
                            assert(ev.value_bytes() == v@);
                            assert(entry_bytes(ev) == record_bytes(e.key@, v@, false, e.timestamp));
                        }
                    },
                    None => {
                        proof {
                            assert(false);
                        }
                    },
                }
            }
            i = i + 1;
        }
        proof {
            assert(mes.take(mes.len() as int) =~= mes);
            lemma_parse_segment_bytes(mes);
        }
        Db { mem_table, active }
    }

    /// Writes a live record: appends it to the active segment's bytes and
    /// updates the index at its key.
    pub fn set(&mut self, key: &[u8], value: &[u8], timestamp: u128)
        requires
            old(self).inv(),
            old(self).mem_size() + key@.len() + value@.len() + 17 <= usize::MAX,
        ensures
            final(self).inv(),
            final(self).kv_map() == old(self).kv_map().insert(
                key@,
                EntryView { key: key@, value: Some(value@), timestamp, deleted: false },
            ),
            final(self).active_bytes() == old(self).active_bytes() + record_bytes(
                key@,
                value@,
                false,
                timestamp,
            ),
            final(self).mem_size() <= old(self).mem_size() + key@.len() + value@.len() + 17,
    {
        let klen = key.len();
        let vlen = value.len();
        let rec = encode_record(key, value, false, timestamp);
        extend_bytes(&mut self.active, rec.as_slice());
        self.mem_table.set_or_insert(key, value, timestamp);
        proof {
            let ev = EntryView { key: key@, value: Some(value@), timestamp, deleted: false };
            assert(ev.key.len() == klen && ev.value_bytes() == value@ && value@.len() == vlen);
            assert(ev.key.len() <= u64::MAX && ev.value_bytes().len() <= u64::MAX);
            assert(entry_bytes(ev) == record_bytes(key@, value@, false, timestamp));
            lemma_canonical_push(old(self).active@, ev);
            lemma_map_of_push(parse_records(old(self).active@), ev);
        }
    }

    /// Writes a tombstone: appends it to the active segment's bytes and
    /// stores it in the index at its key.  Deleting an absent key still
    /// writes and stores the tombstone.
    pub fn delete(&mut self, key: &[u8], timestamp: u128)
        requires
            old(self).inv(),
            old(self).mem_size() + key@.len() + 17 <= usize::MAX,
        ensures
            final(self).inv(),
            final(self).kv_map() == old(self).kv_map().insert(
                key@,
                EntryView { key: key@, value: None, timestamp, deleted: true },
            ),
            final(self).active_bytes() == old(self).active_bytes() + record_bytes(
                key@,
                Seq::<u8>::empty(),
                true,
                timestamp,
            ),
            final(self).mem_size() <= old(self).mem_size() + key@.len() + 17,
    {
        let klen = key.len();
        let rec = encode_tombstone(key, timestamp);
        extend_bytes(&mut self.active, rec.as_slice());
        self.mem_table.delete(key, timestamp);
        proof {
            let ev = EntryView { key: key@, value: None, timestamp, deleted: true };
            assert(ev.key.len() == klen);
            assert(ev.key.len() <= u64::MAX);
            assert(ev.value_bytes() =~= Seq::<u8>::empty());
            assert(entry_bytes(ev) == record_bytes(key@, Seq::<u8>::empty(), true, timestamp));
            lemma_canonical_push(old(self).active@, ev);
            lemma_map_of_push(parse_records(old(self).active@), ev);
        }
    }

    /// The stored record for `key` — live or tombstone — if any key was ever
    /// written.  A tombstone is a present record with `deleted` set, distinct
    /// from "never seen".
    pub fn get(&mut self, key: &[u8]) -> (r: Option<Entry>)
        requires
            old(self).inv(),
        ensures
            *final(self) == *old(self),
            match r {
                Some(e) => old(self).kv_map().contains_key(key@) && e@ == old(self).kv_map()[key@],
                None => !old(self).kv_map().contains_key(key@),
            },
    {
        match self.mem_table.get(key) {
            Some(res) => Some(res.duplicate()),
            None => None,
        }
    }

    /// Exports the live entries of the index, in key order, as one blob of
    /// canonically encoded records.  Tombstones are not exported.
    pub fn get_snapshot(&mut self) -> (r: Vec<u8>)
        requires
            old(self).inv(),
        ensures
            *final(self) == *old(self),
            r@ == snapshot_bytes(old(self).mem()),
            r@ == segment_bytes(live_records(old(self).mem())),
            parse_records(r@) == live_records(old(self).mem()),
            canonical_segment(r@),
            all_live(parse_records(r@)),
    {
        proof {
            self.lemma_inv();
        }
        let entries = self.mem_table.get_all();
        let ghost mes = self.mem();
        let mut snapshot: Vec<u8> = Vec::new();
        proof {
            assert(mes.take(0) =~= Seq::<EntryView>::empty());
            assert(snapshot_bytes(Seq::<EntryView>::empty()) == Seq::<u8>::empty());
        }
        let mut i: usize = 0;
        while i < entries.len()
            invariant
                i <= entries@.len(),
                mes == views_of(entries@),
                mes.len() == entries@.len(),
                seg_wf(mes),
                snapshot@ == snapshot_bytes(mes.take(i as int)),
            decreases entries@.len() - i,
        {
            let e = &entries[i];
            let ghost ev = mes[i as int];
            proof {
                assert(ev == entries@[i as int]@);
                assert(ev.wf());
                assert(mes.take(i + 1).drop_last() =~= mes.take(i as int));
                assert(mes.take(i + 1).last() == ev);
            }
            if !e.deleted {
                match &e.value {
                    Some(v) => {
                        let rec = encode_record(e.key.as_slice(), v.as_slice(), false, e.timestamp);
                        extend_bytes(&mut snapshot, rec.as_slice());
                        proof {
                            assert(ev.value_bytes() == v@);
                            assert(entry_bytes(ev) == record_bytes(e.key@, v@, false, e.timestamp));
                        }
                    },
                    None => {
                        proof {
                            assert(false);
                        }
                    },
                }
            } else {
                proof {
                    assert(snapshot_bytes(mes.take(i + 1)) =~= snapshot_bytes(mes.take(i as int)));
                }
            }
            i = i + 1;
        }
        proof {
            assert(mes.take(mes.len() as int) =~= mes);
            lemma_live_records(mes);
            lemma_parse_segment_bytes(live_records(mes));
        }
        snapshot
    }

    /// Imports a snapshot blob: appends it verbatim to the active segment's
    /// bytes, then re-reads the whole active segment and folds every record
    /// into the index as a put.  The blob must be a canonical concatenation
    /// of live records — a snapshot export is — and the active segment must
    /// hold no tombstones, as on a freshly opened empty engine.
    pub fn set_snapshot(&mut self, raw_data: Vec<u8>)
        requires
            old(self).inv(),
            canonical_segment(raw_data@),
            all_live(parse_records(old(self).active_bytes())),
            all_live(parse_records(raw_data@)),
            old(self).mem_size() + size_sum(
                parse_records(old(self).active_bytes()) + parse_records(raw_data@),
            ) <= usize::MAX,
        ensures
            final(self).inv(),
            final(self).active_bytes() == old(self).active_bytes() + raw_data@,
            final(self).kv_map() == recover_map(seq![old(self).active_bytes() + raw_data@]),
    {
        proof {
            lemma_canonical_concat(old(self).active@, raw_data@);
        }
        extend_bytes(&mut self.active, raw_data.as_slice());
        let ghost rs = parse_records(self.active@);
        let ghost base_map = map_of(parse_records(old(self).active@));
        let data = parse_segment(self.active.as_slice());
        proof {
            lemma_parse_records_wf(self.active@);
            assert(rs == parse_records(old(self).active@) + parse_records(raw_data@));
            assert(all_live(rs)) by {
                assert(forall|k: int|
                    0 <= k < parse_records(old(self).active@).len() ==> rs[k] == parse_records(
                        old(self).active@,
                    )[k]);
                assert(forall|k: int|
                    parse_records(old(self).active@).len() <= k < rs.len() ==> rs[k]
                        == parse_records(raw_data@)[k - parse_records(old(self).active@).len()]);
            }
            assert(rs.take(0) =~= Seq::<EntryView>::empty());
            assert(map_of(Seq::<EntryView>::empty()) == Map::<Seq<u8>, EntryView>::empty());
            assert(base_map.union_prefer_right(Map::<Seq<u8>, EntryView>::empty()) =~= base_map);
        }
        let mut j: usize = 0;
        while j < data.len()
            invariant
                j <= data@.len(),
                rs == views_of(data@),
                rs.len() == data@.len(),
                seg_wf(rs),
                all_live(rs),
                old(self).mem_size() + size_sum(rs) <= usize::MAX,
                self.active@ == old(self).active@ + raw_data@,
                self.mem_table.wf(),
                self.mem_table.kv_map() == base_map.union_prefer_right(
                    map_of(rs.take(j as int)),
                ),
                self.mem_table.spec_size() <= old(self).mem_size() + size_sum(rs.take(j as int)),
            decreases data@.len() - j,
        {
            let e = &data[j];
            let ghost rv = rs[j as int];
            proof {
                assert(rv == data@[j as int]@);
                assert(rv.wf());
                assert(!rv.deleted);
                assert(rs.take(j + 1) =~= rs.take(j as int).push(rv));
                lemma_map_of_push(rs.take(j as int), rv);
                lemma_size_sum_push(rs.take(j as int), rv);
                lemma_size_sum_take_le(rs, j + 1);
            }
            match &e.value {
                Some(v) => {
                    self.mem_table.set_or_insert(e.key.as_slice(), v.as_slice(), e.timestamp);
                    proof {
                        assert(EntryView {
                            key: e.key@,
                            value: Some(v@),
                            timestamp: e.timestamp,
                            deleted: false,
                        } == rv);
                        assert(base_map.union_prefer_right(map_of(rs.take(j as int))).insert(
                            rv.key,
                            rv,
                        ) =~= base_map.union_prefer_right(
                            map_of(rs.take(j as int)).insert(rv.key, rv),
                        ));
                    }
                },
                None => {
                    proof {
                        assert(false);
                    }
                },
            }
            j = j + 1;
        }
        proof {
            assert(rs.take(rs.len() as int) =~= rs);
            assert(base_map.union_prefer_right(map_of(rs)) =~= map_of(rs)) by {
                assert forall|k: Seq<u8>| #[trigger]
                    base_map.contains_key(k) implies map_of(rs).contains_key(k) by {
                    lemma_map_of_contains(parse_records(old(self).active@), k);
                    let i = choose|i: int|
                        0 <= i < parse_records(old(self).active@).len() && (#[trigger] parse_records(
                            old(self).active@,
                        )[i]).key == k;
                    assert(rs[i].key == k);
                    lemma_map_of_contains(rs, k);
                }
            }
            lemma_recover_single(self.active@);
        }
    }

    /// Opens over the prior segments' bytes after checking that the merged
    /// state's charge fits the size counter, which holds whenever the
    /// segments' summed length does.  `None` reports that it does not.
    pub fn try_init_from_existing(segments: &Vec<Vec<u8>>) -> (r: Option<Db>)
        ensures
            match r {
                Some(db) => {
                    &&& db.inv()
                    &&& db.kv_map() == recover_map(seg_views(segments@))
                    &&& parse_records(db.active_bytes()) == db.mem()
                },
                None => bytes_total(seg_views(segments@)) > usize::MAX,
            },
    {
        let ghost sv = seg_views(segments@);
        let mut total: usize = 0;
        let mut i: usize = 0;
        proof {
            assert(sv.take(0) =~= Seq::<Seq<u8>>::empty());
        }
        while i < segments.len()
            invariant
                i <= segments@.len(),
                sv == seg_views(segments@),
                sv.len() == segments@.len(),
                total as int == bytes_total(sv.take(i as int)),
            decreases segments@.len() - i,
        {
            proof {
                assert(sv.take(i + 1).drop_last() =~= sv.take(i as int));
                assert(sv.take(i + 1).last() == sv[i as int]);
                assert(segments@[i as int]@ == sv[i as int]);
            }
            let len = segments[i].len();
            if len > usize::MAX - total {
                proof {
                    lemma_bytes_total_take_le(sv, i + 1);
                }
                return None;
            }
            total = total + len;
            i = i + 1;
        }
        proof {
            assert(sv.take(sv.len() as int) =~= sv);
            lemma_all_records_le_bytes(sv);
        }
        Some(Db::init_from_existing(segments))
    }

    /// Imports a snapshot blob when it has the accepted form, and reports
    /// `false`, changing nothing, otherwise.  The blob is accepted when it
    /// is a whole number of canonically encoded live records, the active
    /// segment holds no tombstone, and the grown segment's charge still
    /// fits the size counter.
    pub fn try_set_snapshot(&mut self, raw_data: Vec<u8>) -> (r: bool)
        requires
            old(self).inv(),
        ensures
            final(self).inv(),
            r == {
                &&& canonical_segment(raw_data@)
                &&& all_live(parse_records(raw_data@))
                &&& all_live(parse_records(old(self).active_bytes()))
                &&& old(self).mem_size() + old(self).active_bytes().len() + raw_data@.len()
                    <= usize::MAX
            },
            r ==> {
                &&& final(self).active_bytes() == old(self).active_bytes() + raw_data@
                &&& final(self).kv_map() == recover_map(
                    seq![old(self).active_bytes() + raw_data@],
                )
            },
            !r ==> *final(self) == *old(self),
    {
        proof {
            self.mem_table.lemma_size_accounting();
            lemma_size_sum_nonneg(self.mem_table@);
        }
        if !is_live_canonical(raw_data.as_slice()) {
            return false;
        }
        if !is_live_canonical(self.active.as_slice()) {
            proof {
                assert(canonical_segment(self.active@));
                assert(!all_live(parse_records(self.active@)));
            }
            return false;
        }
        let active_len = self.active.len();
        if raw_data.len() > usize::MAX - active_len {
            return false;
        }
        let combined_len = active_len + raw_data.len();
        if self.mem_table.get_size() > usize::MAX - combined_len {
            return false;
        }
        proof {
            lemma_charge_le_bytes(self.active@);
            lemma_charge_le_bytes(raw_data@);
            lemma_size_sum_concat(parse_records(self.active@), parse_records(raw_data@));
        }
        self.set_snapshot(raw_data);
        true
    }

    /// Compaction idempotence: running recovery again over the single
    /// segment that a recovery has just written changes nothing — the same
    /// index, the same memtable entries, the same segment bytes.
    pub proof fn lemma_compaction_idempotent(first: &Db, second: &Db)
        requires
            first.inv(),
            second.inv(),
            parse_records(first.active_bytes()) == first.mem(),
            parse_records(second.active_bytes()) == second.mem(),
            second.kv_map() == recover_map(seq![first.active_bytes()]),
        ensures
            second.mem() == first.mem(),
            second.kv_map() == first.kv_map(),
            second.active_bytes() == first.active_bytes(),
    {
        lemma_recover_single(first.active_bytes());
        first.mem_table.lemma_size_accounting();
        second.mem_table.lemma_size_accounting();
        lemma_sorted_map_determines(second.mem(), first.mem());
    }

    /// The current value of the memtable's size counter.
    pub fn size_counter(&self) -> (r: usize)
        ensures
            r as int == self.mem_size(),
    {
        self.mem_table.get_size()
    }

    /// The bytes of the active segment.
    pub fn active_segment(&self) -> (r: &Vec<u8>)
        ensures
            r@ == self.active_bytes(),
    {
        &self.active
    }

    /// Empties the engine: clears the index and resets the active segment to
    /// no bytes.  Other segment files, if the directory holds any, are not
    /// touched.
    pub fn purge_database(&mut self)
        ensures
            final(self).inv(),
            final(self).kv_map() == Map::<Seq<u8>, EntryView>::empty(),
            final(self).mem() == Seq::<EntryView>::empty(),
            final(self).active_bytes() == Seq::<u8>::empty(),
    {
        self.mem_table.purge_mem_table();
        self.active = Vec::new();
        proof {
            lemma_canonical_empty();
            assert(self.active@ =~= Seq::<u8>::empty());
        }
    }
}

} // verus!
