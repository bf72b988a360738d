//! The record codec: the fixed binary layout of a log record, an encoder,
//! and a parser over raw segment bytes.
//!
//! Layout, little-endian throughout:
//! key size (8 B) | deleted flag (1 B) | value size (8 B) | key | value | timestamp (16 B)
//!
//! A tombstone carries no value bytes: the timestamp follows the key.
//! The parser treats any non-zero flag byte as a tombstone, and a record cut
//! short by end of input as the end of the sequence.

use vstd::bytes::*;
use vstd::prelude::*;
use vstd::slice::{slice_subrange, slice_to_vec};

use crate::entry::{Entry, EntryView};

verus! {

/// The byte written for the tombstone flag.
pub open spec fn flag_byte(deleted: bool) -> u8 {
    if deleted {
        1u8
    } else {
        0u8
    }
}

/// The bytes of one record as the segment writer emits them: the value bytes
/// and the value size are taken from `value` as given.
pub open spec fn record_bytes(key: Seq<u8>, value: Seq<u8>, deleted: bool, timestamp: u128) -> Seq<
    u8,
> {
    spec_u64_to_le_bytes(key.len() as u64) + seq![flag_byte(deleted)] + spec_u64_to_le_bytes(
        value.len() as u64,
    ) + key + value + spec_u128_to_le_bytes(timestamp)
}

/// The canonical encoding of a well-formed record: a tombstone is written
/// with value size zero and no value bytes.
pub open spec fn entry_bytes(e: EntryView) -> Seq<u8> {
    record_bytes(e.key, e.value_bytes(), e.deleted, e.timestamp)
}

/// Parses one record from the front of `data`: the record and the number of
/// bytes it occupies.  `None` when `data` ends before the record does.
pub open spec fn parse_one(data: Seq<u8>) -> Option<(EntryView, int)> {
    if data.len() < 17 {
        None
    } else {
        let key_size = spec_u64_from_le_bytes(data.subrange(0, 8)) as int;
        let deleted = data[8] != 0;
        let value_size = spec_u64_from_le_bytes(data.subrange(9, 17)) as int;
        let value_len: int = if deleted {
            0
        } else {
            value_size
        };
        let total = 33 + key_size + value_len;
        if data.len() < total {
            None
        } else {
            let key = data.subrange(17, 17 + key_size);
            let value: Option<Seq<u8>> = if deleted {
                None
            } else {
                Some(data.subrange(17 + key_size, 17 + key_size + value_size))
            };
            let timestamp = spec_u128_from_le_bytes(
                data.subrange(17 + key_size + value_len, total),
            );
            Some((EntryView { key, value, timestamp, deleted }, total))
        }
    }
}

/// All records of a segment, in order, up to the first incomplete one.
pub open spec fn parse_records(data: Seq<u8>) -> Seq<EntryView>
    decreases data.len(),
{
    match parse_one(data) {
        None => Seq::empty(),
        Some((e, n)) => seq![e] + parse_records(data.skip(n)),
    }
}

/// The concatenation of the canonical encodings of `es`.
pub open spec fn segment_bytes(es: Seq<EntryView>) -> Seq<u8>
    decreases es.len(),
{
    if es.len() == 0 {
        Seq::empty()
    } else {
        entry_bytes(es[0]) + segment_bytes(es.skip(1))
    }
}

/// Every record is well formed and its key and value fit in the 64-bit size
/// fields of the layout.
pub open spec fn seg_wf(es: Seq<EntryView>) -> bool {
    forall|i: int|
        0 <= i < es.len() ==> {
            &&& (#[trigger] es[i]).wf()
            &&& es[i].key.len() <= u64::MAX
            &&& es[i].value_bytes().len() <= u64::MAX
        }
}

/// `data` is exactly a concatenation of canonically encoded records: parsing
/// it and re-encoding what was parsed gives `data` back.
pub open spec fn canonical_segment(data: Seq<u8>) -> bool {
    segment_bytes(parse_records(data)) == data
}

/// Appends the bytes of `src` to `dst`.
pub fn extend_bytes(dst: &mut Vec<u8>, src: &[u8])
    ensures
        final(dst)@ == old(dst)@ + src@,
{
    let mut i: usize = 0;
    while i < src.len()
        invariant
            i <= src@.len(),
            dst@ == old(dst)@ + src@.take(i as int),
        decreases src@.len() - i,
    {
        let b = src[i];
        dst.push(b);
        i = i + 1;
        proof {
            assert(src@.take(i as int) == src@.take(i as int - 1).push(src@[i as int - 1]));
            assert(dst@ == old(dst)@ + src@.take(i as int));
        }
    }
    proof {
        assert(src@.take(src@.len() as int) == src@);
    }
}

/// Encodes one record exactly as the segment writer lays it out.  The value
/// bytes are written as given, also for a tombstone; the engine only ever
/// writes tombstones with an empty value.
pub fn encode_record(key: &[u8], value: &[u8], deleted: bool, timestamp: u128) -> (r: Vec<u8>)
    ensures
        r@ == record_bytes(key@, value@, deleted, timestamp),
{
    let mut r: Vec<u8> = Vec::new();
    let key_size = u64_to_le_bytes(key.len() as u64);
    extend_bytes(&mut r, key_size.as_slice());
    let flag: u8 = if deleted {
        1
    } else {
        0
    };
    r.push(flag);
    let value_size = u64_to_le_bytes(value.len() as u64);
    extend_bytes(&mut r, value_size.as_slice());
    extend_bytes(&mut r, key);
    extend_bytes(&mut r, value);
    let ts = u128_to_le_bytes(timestamp);
    extend_bytes(&mut r, ts.as_slice());
    proof {
        assert(seq![flag] =~= Seq::empty().push(flag));
        assert(r@ =~= record_bytes(key@, value@, deleted, timestamp));
    }
    r
}

/// Whether two byte strings hold the same bytes.
pub fn bytes_equal(a: &[u8], b: &[u8]) -> (r: bool)
    ensures
        r == (a@ == b@),
{
    if a.len() != b.len() {
        proof {
            assert(a@.len() != b@.len());
        }
        return false;
    }
    let mut i: usize = 0;
    while i < a.len()
        invariant
            i <= a@.len(),
            a@.len() == b@.len(),
            forall|j: int| 0 <= j < i ==> a@[j] == b@[j],
        decreases a@.len() - i,
    {
        if a[i] != b[i] {
            return false;
        }
        i = i + 1;
    }
    proof {
        assert(a@ =~= b@);
    }
    true
}

/// Parses the record that starts at `start`.  Returns the record and the
/// offset just past it, or `None` when the data ends before the record does.
pub fn parse_record(data: &[u8], start: usize) -> (r: Option<(Entry, usize)>)
    requires
        start <= data@.len(),
    ensures
        ({
            let parsed = parse_one(data@.skip(start as int));
            &&& (r is Some <==> parsed is Some)
            &&& r is Some ==> {
                &&& r.unwrap().0@ == parsed.unwrap().0
                &&& r.unwrap().1 == start + parsed.unwrap().1
                &&& r.unwrap().1 <= data@.len()
            }
        }),
{
    let ghost tail = data@.skip(start as int);
    let len = data.len();
    if len - start < 17 {
        return None;
    }
    let key_size = u64_from_le_bytes(slice_subrange(data, start, start + 8));
    proof {
        assert(data@.subrange(start as int, start as int + 8) =~= tail.subrange(0, 8));
    }
    let deleted = *vstd::slice::slice_index_get(data, start + 8) != 0;
    let value_size = u64_from_le_bytes(slice_subrange(data, start + 9, start + 17));
    proof {
        assert(data@.subrange(start as int + 9, start as int + 17) =~= tail.subrange(9, 17));
        assert(tail[8] == data@[start as int + 8]);
    }
    let value_len: u64 = if deleted {
        0
    } else {
        value_size
    };
    let after_header = start + 17;
    let remaining = (len - after_header) as u64;
    if key_size > remaining {
        return None;
    }
    let ks = key_size as usize;
    if value_len > remaining - key_size {
        return None;
    }
    let vs = value_len as usize;
    if remaining - key_size - value_len < 16 {
        return None;
    }
    let key = slice_to_vec(slice_subrange(data, after_header, after_header + ks));
    proof {
        assert(data@.subrange(after_header as int, after_header as int + ks) =~= tail.subrange(
            17,
            17 + ks,
        ));
    }
    let value: Option<Vec<u8>> = if deleted {
        None
    } else {
        let v = slice_to_vec(slice_subrange(data, after_header + ks, after_header + ks + vs));
        proof {
            assert(data@.subrange(
                after_header as int + ks,
                after_header as int + ks + vs,
            ) =~= tail.subrange(17 + ks, 17 + ks + vs));
        }
        Some(v)
    };
    let ts_off = after_header + ks + vs;
    let timestamp = u128_from_le_bytes(slice_subrange(data, ts_off, ts_off + 16));
    proof {
        assert(data@.subrange(ts_off as int, ts_off as int + 16) =~= tail.subrange(
            17 + ks + vs,
            33 + ks + vs,
        ));
    }
    Some((Entry { key, value, timestamp, deleted }, ts_off + 16))
}

/// Parses a whole segment: every complete record, in order; a truncated
/// record at the tail is dropped.
pub fn parse_segment(data: &[u8]) -> (r: Vec<Entry>)
    ensures
        crate::entry::views_of(r@) == parse_records(data@),
{
    let mut r: Vec<Entry> = Vec::new();
    let mut pos: usize = 0;
    let mut done = false;
    proof {
        assert(data@.skip(0) =~= data@);
        assert(crate::entry::views_of(r@) =~= Seq::<EntryView>::empty());
        assert(Seq::<EntryView>::empty() + parse_records(data@) =~= parse_records(data@));
    }
    while !done
        invariant
            pos <= data@.len(),
            parse_records(data@) == crate::entry::views_of(r@) + parse_records(
                data@.skip(pos as int),
            ),
            done ==> parse_one(data@.skip(pos as int)) is None,
        decreases data@.len() - pos + (if done {
            0int
        } else {
            1int
        }),
    {
        match parse_record(data, pos) {
            None => {
                done = true;
            },
            Some((e, end)) => {
                proof {
                    let tail = data@.skip(pos as int);
                    let (ev, n) = parse_one(tail).unwrap();
                    assert(tail.skip(n) =~= data@.skip(end as int));
                    assert(crate::entry::views_of(r@.push(e)) =~= crate::entry::views_of(r@)
                        + seq![ev]);
                    assert(crate::entry::views_of(r@) + (seq![ev] + parse_records(
                        data@.skip(end as int),
                    )) =~= (crate::entry::views_of(r@) + seq![ev]) + parse_records(
                        data@.skip(end as int),
                    ));
                }
                r.push(e);
                pos = end;
            },
        }
    }
    proof {
        assert(crate::entry::views_of(r@) + Seq::<EntryView>::empty() =~= crate::entry::views_of(
            r@,
        ));
    }
    r
}

/// Encodes a tombstone for `key`: flag set, value size zero, no value bytes.
pub fn encode_tombstone(key: &[u8], timestamp: u128) -> (r: Vec<u8>)
    ensures
        r@ == record_bytes(key@, Seq::empty(), true, timestamp),
{
    let empty: Vec<u8> = Vec::new();
    let r = encode_record(key, empty.as_slice(), true, timestamp);
    proof {
        assert(empty@ =~= Seq::<u8>::empty());
    }
    r
}

/// Parsing starts over exactly where a canonical record ends: one record's
/// encoding followed by anything parses as that record.
pub proof fn lemma_parse_entry_prefix(e: EntryView, rest: Seq<u8>)
    requires
        e.wf(),
        e.key.len() <= u64::MAX,
        e.value_bytes().len() <= u64::MAX,
    ensures
        parse_one(entry_bytes(e) + rest) == Some((e, entry_bytes(e).len() as int)),
{
    lemma_auto_spec_u64_to_from_le_bytes();
    lemma_auto_spec_u128_to_from_le_bytes();
    let klen = e.key.len() as int;
    let vlen = e.value_bytes().len() as int;
    let a = spec_u64_to_le_bytes(e.key.len() as u64);
    let f = seq![flag_byte(e.deleted)];
    let b = spec_u64_to_le_bytes(e.value_bytes().len() as u64);
    let t = spec_u128_to_le_bytes(e.timestamp);
    let enc = entry_bytes(e);
    assert(a.len() == 8);
    assert(b.len() == 8);
    assert(t.len() == 16);
    assert(enc == a + f + b + e.key + e.value_bytes() + t);
    assert(enc.len() == 33 + klen + vlen);
    let data = enc + rest;
    assert(data.subrange(0, 8) =~= a);
    assert(data[8] == flag_byte(e.deleted));
    assert(data.subrange(9, 17) =~= b);
    if e.deleted {
        assert(e.value is None);
        assert(vlen == 0);
    } else {
        assert(e.value == Some(e.value_bytes()));
    }
    assert(data.subrange(17, 17 + klen) =~= e.key);
    if !e.deleted {
        assert(data.subrange(17 + klen, 17 + klen + vlen) =~= e.value_bytes());
    }
    assert(data.subrange(17 + klen + vlen, 33 + klen + vlen) =~= t);
    let parsed = parse_one(data).unwrap().0;
    assert(parsed.key == e.key);
    assert(parsed.value == e.value);
    assert(parsed.timestamp == e.timestamp);
    assert(parsed.deleted == e.deleted);
    assert(parsed == e);
}

/// Record codec round trip: parsing the canonical encoding of a well-formed
/// record yields the record itself, consuming every byte.
pub proof fn lemma_codec_round_trip(e: EntryView)
    requires
        e.wf(),
        e.key.len() <= u64::MAX,
        e.value_bytes().len() <= u64::MAX,
    ensures
        parse_one(entry_bytes(e)) == Some((e, entry_bytes(e).len() as int)),
        parse_records(entry_bytes(e)) == seq![e],
{
    lemma_parse_entry_prefix(e, Seq::empty());
    assert(entry_bytes(e) + Seq::<u8>::empty() =~= entry_bytes(e));
    assert(entry_bytes(e).skip(entry_bytes(e).len() as int) =~= Seq::<u8>::empty());
    assert(parse_records(Seq::<u8>::empty()) =~= Seq::<EntryView>::empty());
    assert(seq![e] + Seq::<EntryView>::empty() =~= seq![e]);
}

/// Whatever was parsed is well formed and fits the layout's size fields.
pub proof fn lemma_parse_records_wf(data: Seq<u8>)
    ensures
        seg_wf(parse_records(data)),
    decreases data.len(),
{
    match parse_one(data) {
        None => {},
        Some((e, n)) => {
            lemma_parse_records_wf(data.skip(n));
            let rs = parse_records(data);
            assert(rs == seq![e] + parse_records(data.skip(n)));
            assert(e.wf());
            assert(e.key.len() <= u64::MAX);
            assert(e.value_bytes().len() <= u64::MAX);
            assert forall|i: int| 0 <= i < rs.len() implies {
                &&& (#[trigger] rs[i]).wf()
                &&& rs[i].key.len() <= u64::MAX
                &&& rs[i].value_bytes().len() <= u64::MAX
            } by {
                if i > 0 {
                    assert(rs[i] == parse_records(data.skip(n))[i - 1]);
                }
            }
        },
    }
}

/// A segment grows at the end: encoding one more record appends its bytes.
pub proof fn lemma_segment_bytes_push(es: Seq<EntryView>, e: EntryView)
    ensures
        segment_bytes(es.push(e)) == segment_bytes(es) + entry_bytes(e),
    decreases es.len(),
{
    if es.len() == 0 {
        assert(es.push(e)[0] == e);
        assert(es.push(e).skip(1) =~= Seq::<EntryView>::empty());
        assert(segment_bytes(es.push(e)) == entry_bytes(e) + segment_bytes(
            Seq::<EntryView>::empty(),
        ));
        assert(entry_bytes(e) + Seq::<u8>::empty() =~= entry_bytes(e));
        assert(Seq::<u8>::empty() + entry_bytes(e) =~= entry_bytes(e));
    } else {
        lemma_segment_bytes_push(es.skip(1), e);
        assert(es.push(e).skip(1) =~= es.skip(1).push(e));
        assert(es.push(e)[0] == es[0]);
        assert(entry_bytes(es[0]) + (segment_bytes(es.skip(1)) + entry_bytes(e)) =~= (entry_bytes(
            es[0],
        ) + segment_bytes(es.skip(1))) + entry_bytes(e));
    }
}

/// Parsing a concatenation of canonical records followed by `tail` yields the
/// records and then whatever `tail` parses to.
pub proof fn lemma_parse_segment_prefix(es: Seq<EntryView>, tail: Seq<u8>)
    requires
        seg_wf(es),
    ensures
        parse_records(segment_bytes(es) + tail) == es + parse_records(tail),
    decreases es.len(),
{
    if es.len() == 0 {
        assert(segment_bytes(es) + tail =~= tail);
        assert(es + parse_records(tail) =~= parse_records(tail));
    } else {
        let e = es[0];
        let restb = segment_bytes(es.skip(1)) + tail;
        lemma_parse_entry_prefix(e, restb);
        assert(segment_bytes(es) + tail =~= entry_bytes(e) + restb);
        let data = segment_bytes(es) + tail;
        let n = entry_bytes(e).len() as int;
        assert(parse_one(data) == Some((e, n)));
        assert(data.skip(n) =~= restb);
        assert(seg_wf(es.skip(1))) by {
            assert(forall|i: int|
                0 <= i < es.skip(1).len() ==> es.skip(1)[i] == es[i + 1]);
        }
        lemma_parse_segment_prefix(es.skip(1), tail);
        assert(parse_records(data) == seq![e] + (es.skip(1) + parse_records(tail)));
        assert(seq![e] + (es.skip(1) + parse_records(tail)) =~= es + parse_records(tail));
    }
}

/// Segment round trip: a concatenation of canonical records parses to exactly
/// those records, and is a canonical segment.
pub proof fn lemma_parse_segment_bytes(es: Seq<EntryView>)
    requires
        seg_wf(es),
    ensures
        parse_records(segment_bytes(es)) == es,
        canonical_segment(segment_bytes(es)),
{
    lemma_parse_segment_prefix(es, Seq::empty());
    assert(segment_bytes(es) + Seq::<u8>::empty() =~= segment_bytes(es));
    assert(parse_records(Seq::<u8>::empty()) =~= Seq::<EntryView>::empty());
    assert(es + Seq::<EntryView>::empty() =~= es);
}

/// A strict prefix of one record's encoding parses to nothing.
pub proof fn lemma_parse_one_truncated(e: EntryView, m: int)
    requires
        e.wf(),
        e.key.len() <= u64::MAX,
        e.value_bytes().len() <= u64::MAX,
        0 < m <= entry_bytes(e).len(),
    ensures
        parse_one(entry_bytes(e).take(entry_bytes(e).len() - m)) is None,
{
    lemma_auto_spec_u64_to_from_le_bytes();
    lemma_auto_spec_u128_to_from_le_bytes();
    let klen = e.key.len() as int;
    let vlen = e.value_bytes().len() as int;
    let a = spec_u64_to_le_bytes(e.key.len() as u64);
    let f = seq![flag_byte(e.deleted)];
    let b = spec_u64_to_le_bytes(e.value_bytes().len() as u64);
    let t = spec_u128_to_le_bytes(e.timestamp);
    let enc = entry_bytes(e);
    assert(a.len() == 8);
    assert(b.len() == 8);
    assert(t.len() == 16);
    assert(enc == a + f + b + e.key + e.value_bytes() + t);
    assert(enc.len() == 33 + klen + vlen);
    let p = enc.take(enc.len() - m);
    if p.len() >= 17 {
        assert(p.subrange(0, 8) =~= a);
        assert(p.subrange(9, 17) =~= b);
        assert(p[8] == flag_byte(e.deleted));
        if e.deleted {
            assert(e.value is None);
            assert(vlen == 0);
        }
        assert(p.len() < 33 + klen + vlen);
    }
}

/// Truncation tolerance: cutting `m` bytes off the end of a canonical
/// segment, with the cut landing inside the final record, loses exactly that
/// final record and nothing else.
pub proof fn lemma_truncation_tolerance(es: Seq<EntryView>, m: int)
    requires
        seg_wf(es),
        es.len() > 0,
        0 <= m < entry_bytes(es.last()).len(),
    ensures
        ({
            let data = segment_bytes(es);
            parse_records(data.take(data.len() - m)) == if m == 0 {
                es
            } else {
                es.drop_last()
            }
        }),
{
    let data = segment_bytes(es);
    let front = es.drop_last();
    let e = es.last();
    assert(es =~= front.push(e));
    lemma_segment_bytes_push(front, e);
    assert(seg_wf(front)) by {
        assert(forall|i: int| 0 <= i < front.len() ==> front[i] == es[i]);
    }
    if m == 0 {
        lemma_parse_segment_bytes(es);
        assert(data.take(data.len() as int) =~= data);
    } else {
        let partial = entry_bytes(e).take(entry_bytes(e).len() - m);
        assert(data.take(data.len() - m) =~= segment_bytes(front) + partial);
        lemma_parse_one_truncated(e, m);
        lemma_parse_segment_prefix(front, partial);
        assert(parse_records(partial) =~= Seq::<EntryView>::empty());
        assert(front + Seq::<EntryView>::empty() =~= front);
    }
}

/// Concatenating two canonical segments parses to the two record sequences
/// in order, and the concatenation is itself canonical.
pub proof fn lemma_canonical_concat(x: Seq<u8>, y: Seq<u8>)
    requires
        canonical_segment(x),
        canonical_segment(y),
    ensures
        parse_records(x + y) == parse_records(x) + parse_records(y),
        canonical_segment(x + y),
{
    lemma_parse_records_wf(x);
    lemma_parse_records_wf(y);
    let rx = parse_records(x);
    let ry = parse_records(y);
    lemma_parse_segment_prefix(rx, y);
    assert(segment_bytes(rx) + y == x + y);
    lemma_segment_bytes_concat(rx, ry);
}

/// Segment bytes distribute over concatenation of record sequences.
pub proof fn lemma_segment_bytes_concat(xs: Seq<EntryView>, ys: Seq<EntryView>)
    ensures
        segment_bytes(xs + ys) == segment_bytes(xs) + segment_bytes(ys),
    decreases xs.len(),
{
    if xs.len() == 0 {
        assert(xs + ys =~= ys);
        assert(Seq::<u8>::empty() + segment_bytes(ys) =~= segment_bytes(ys));
    } else {
        lemma_segment_bytes_concat(xs.skip(1), ys);
        assert((xs + ys).skip(1) =~= xs.skip(1) + ys);
        assert((xs + ys)[0] == xs[0]);
        assert(entry_bytes(xs[0]) + (segment_bytes(xs.skip(1)) + segment_bytes(ys)) =~= (
        entry_bytes(xs[0]) + segment_bytes(xs.skip(1))) + segment_bytes(ys));
    }
}

/// The empty byte sequence is a canonical segment with no records.
pub proof fn lemma_canonical_empty()
    ensures
        parse_records(Seq::<u8>::empty()) == Seq::<EntryView>::empty(),
        canonical_segment(Seq::<u8>::empty()),
{
    assert(parse_records(Seq::<u8>::empty()) =~= Seq::<EntryView>::empty());
}

/// Appending one canonical record to a canonical segment appends it to the
/// parse, and keeps the segment canonical.
pub proof fn lemma_canonical_push(data: Seq<u8>, e: EntryView)
    requires
        canonical_segment(data),
        e.wf(),
        e.key.len() <= u64::MAX,
        e.value_bytes().len() <= u64::MAX,
    ensures
        parse_records(data + entry_bytes(e)) == parse_records(data).push(e),
        canonical_segment(data + entry_bytes(e)),
{
    lemma_codec_round_trip(e);
    assert(canonical_segment(entry_bytes(e))) by {
        assert(seq![e].skip(1) =~= Seq::<EntryView>::empty());
        assert(segment_bytes(seq![e]) == entry_bytes(e) + segment_bytes(
            Seq::<EntryView>::empty(),
        ));
        assert(entry_bytes(e) + Seq::<u8>::empty() =~= entry_bytes(e));
    }
    lemma_canonical_concat(data, entry_bytes(e));
    assert(parse_records(data) + seq![e] =~= parse_records(data).push(e));
    assert(segment_bytes(parse_records(data).push(e)) == data + entry_bytes(e)) by {
        lemma_segment_bytes_push(parse_records(data), e);
    }
}

} // verus!
