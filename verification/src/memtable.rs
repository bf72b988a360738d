//! The memtable: an in-memory index, ordered by key, from each key to the
//! latest record seen for it (a live value or a tombstone).
//!
//! Its mathematical model is the map from key to record, `map_of`; the same
//! function folds a log of records into its last-write-wins state, so the
//! memtable's contracts and the recovery fold speak one language.

use vstd::prelude::*;
use vstd::slice::slice_to_vec;

use crate::codec::seg_wf;
use crate::entry::{views_of, Entry, EntryView};

verus! {

/// Strict lexicographic order on byte sequences: a proper prefix comes
/// first, otherwise the first differing byte decides.
pub open spec fn lex_lt(a: Seq<u8>, b: Seq<u8>) -> bool
    decreases a.len(),
{
    if b.len() == 0 {
        false
    } else if a.len() == 0 {
        true
    } else if a[0] < b[0] {
        true
    } else if a[0] > b[0] {
        false
    } else {
        lex_lt(a.skip(1), b.skip(1))
    }
}

/// Exactly one of `a < b`, `a == b`, `b < a` holds.
pub proof fn lemma_lex_trichotomy(a: Seq<u8>, b: Seq<u8>)
    ensures
        lex_lt(a, b) || a == b || lex_lt(b, a),
        lex_lt(a, b) ==> a != b && !lex_lt(b, a),
        a == b ==> !lex_lt(a, b) && !lex_lt(b, a),
    decreases a.len() + b.len(),
{
    if b.len() == 0 {
        if a.len() == 0 {
            assert(a =~= b);
        }
    } else if a.len() == 0 {
    } else if a[0] == b[0] {
        lemma_lex_trichotomy(a.skip(1), b.skip(1));
        if a.skip(1) == b.skip(1) {
            assert forall|j: int| 0 <= j < a.len() implies a[j] == b[j] by {
                if j > 0 {
                    assert(a[j] == a.skip(1)[j - 1]);
                    assert(b[j] == b.skip(1)[j - 1]);
                }
            }
            assert(a =~= b);
        }
        if a == b {
            assert(a.skip(1) =~= b.skip(1));
        }
    }
}

/// Lexicographic order is transitive.
pub proof fn lemma_lex_transitive(a: Seq<u8>, b: Seq<u8>, c: Seq<u8>)
    requires
        lex_lt(a, b),
        lex_lt(b, c),
    ensures
        lex_lt(a, c),
    decreases a.len() + b.len() + c.len(),
{
    if a.len() == 0 {
    } else {
        if a[0] == b[0] && b[0] == c[0] {
            lemma_lex_transitive(a.skip(1), b.skip(1), c.skip(1));
        }
    }
}

/// Sharing an equal prefix of length `i`, order is decided past it.
pub proof fn lemma_lex_skip_prefix(a: Seq<u8>, b: Seq<u8>, i: int)
    requires
        0 <= i <= a.len(),
        i <= b.len(),
        forall|j: int| 0 <= j < i ==> a[j] == b[j],
    ensures
        lex_lt(a, b) <==> lex_lt(a.skip(i), b.skip(i)),
    decreases i,
{
    if i == 0 {
        assert(a.skip(0) =~= a);
        assert(b.skip(0) =~= b);
    } else {
        assert(a[0] == b[0]);
        lemma_lex_skip_prefix(a.skip(1), b.skip(1), i - 1);
        assert(a.skip(1).skip(i - 1) =~= a.skip(i));
        assert(b.skip(1).skip(i - 1) =~= b.skip(i));
        assert(forall|j: int| 0 <= j < i - 1 ==> a.skip(1)[j] == b.skip(1)[j]);
    }
}

/// The outcome of a three-way key comparison.
pub enum KeyOrder {
    Less,
    Equal,
    Greater,
}

/// Compares two keys in lexicographic order.
pub fn compare_keys(a: &[u8], b: &[u8]) -> (r: KeyOrder)
    ensures
        r is Less <==> lex_lt(a@, b@),
        r is Equal <==> a@ == b@,
        r is Greater <==> lex_lt(b@, a@),
{
    let a_len = a.len();
    let b_len = b.len();
    let common = if a_len < b_len {
        a_len
    } else {
        b_len
    };
    let mut i: usize = 0;
    while i < common
        invariant
            0 <= i <= common,
            common <= a@.len(),
            common <= b@.len(),
            common == if a@.len() < b@.len() {
                a@.len()
            } else {
                b@.len()
            },
            forall|j: int| 0 <= j < i ==> a@[j] == b@[j],
        decreases common - i,
    {
        let x = a[i];
        let y = b[i];
        if x < y {
            proof {
                lemma_lex_skip_prefix(a@, b@, i as int);
                assert(a@.skip(i as int)[0] == x);
                assert(b@.skip(i as int)[0] == y);
                lemma_lex_trichotomy(a@, b@);
            }
            return KeyOrder::Less;
        }
        if x > y {
            proof {
                lemma_lex_skip_prefix(b@, a@, i as int);
                assert(b@.skip(i as int)[0] == y);
                assert(a@.skip(i as int)[0] == x);
                lemma_lex_trichotomy(a@, b@);
            }
            return KeyOrder::Greater;
        }
        i = i + 1;
    }
    if a_len == b_len {
        proof {
            assert(a@ =~= b@);
            lemma_lex_trichotomy(a@, b@);
        }
        KeyOrder::Equal
    } else if a_len < b_len {
        proof {
            lemma_lex_skip_prefix(a@, b@, common as int);
            assert(a@.skip(common as int).len() == 0);
            assert(b@.skip(common as int).len() > 0);
            lemma_lex_trichotomy(a@, b@);
        }
        KeyOrder::Less
    } else {
        proof {
            lemma_lex_skip_prefix(b@, a@, common as int);
            assert(b@.skip(common as int).len() == 0);
            assert(a@.skip(common as int).len() > 0);
            lemma_lex_trichotomy(a@, b@);
        }
        KeyOrder::Greater
    }
}

/// The last-write-wins state of a sequence of records: the map from each key
/// to the latest record for it.  Applied to a log, this is the fold that
/// recovery performs; applied to a memtable's entries, it is the index the
/// memtable holds.
pub open spec fn map_of(es: Seq<EntryView>) -> Map<Seq<u8>, EntryView>
    decreases es.len(),
{
    if es.len() == 0 {
        Map::empty()
    } else {
        map_of(es.drop_last()).insert(es.last().key, es.last())
    }
}

/// Keys are strictly increasing.
pub open spec fn sorted_keys(es: Seq<EntryView>) -> bool {
    forall|i: int, j: int|
        0 <= i < j < es.len() ==> lex_lt((#[trigger] es[i]).key, (#[trigger] es[j]).key)
}

/// No two records share a key.
pub open spec fn unique_keys(es: Seq<EntryView>) -> bool {
    forall|i: int, j: int|
        0 <= i < j < es.len() ==> (#[trigger] es[i]).key != (#[trigger] es[j]).key
}

/// Sorted records have pairwise distinct keys.
pub proof fn lemma_sorted_unique(es: Seq<EntryView>)
    requires
        sorted_keys(es),
    ensures
        unique_keys(es),
{
    assert forall|i: int, j: int|
        0 <= i < j < es.len() implies (#[trigger] es[i]).key != (#[trigger] es[j]).key by {
        lemma_lex_trichotomy(es[i].key, es[j].key);
    }
}

/// A key is in the map exactly when some record carries it.
pub proof fn lemma_map_of_contains(es: Seq<EntryView>, k: Seq<u8>)
    ensures
        map_of(es).contains_key(k) <==> exists|i: int|
            0 <= i < es.len() && (#[trigger] es[i]).key == k,
    decreases es.len(),
{
    if es.len() == 0 {
    } else {
        lemma_map_of_contains(es.drop_last(), k);
        if map_of(es).contains_key(k) {
            if es.last().key == k {
                assert(es[es.len() - 1].key == k);
            } else {
                let i = choose|i: int| 0 <= i < es.drop_last().len() && (#[trigger] es.drop_last()[i]).key == k;
                assert(es[i].key == k);
            }
        }
        if exists|i: int| 0 <= i < es.len() && (#[trigger] es[i]).key == k {
            let i = choose|i: int| 0 <= i < es.len() && (#[trigger] es[i]).key == k;
            if i < es.len() - 1 {
                assert(es.drop_last()[i].key == k);
            }
        }
    }
}

/// With unique keys, the map sends each record's key to that record.
pub proof fn lemma_map_of_index(es: Seq<EntryView>, i: int)
    requires
        unique_keys(es),
        0 <= i < es.len(),
    ensures
        map_of(es).contains_key(es[i].key),
        map_of(es)[es[i].key] == es[i],
    decreases es.len(),
{
    if i == es.len() - 1 {
    } else {
        assert(unique_keys(es.drop_last())) by {
            assert(forall|x: int, y: int|
                0 <= x < y < es.drop_last().len() ==> es.drop_last()[x] == es[x]
                    && es.drop_last()[y] == es[y]);
        }
        lemma_map_of_index(es.drop_last(), i);
        assert(es.drop_last()[i] == es[i]);
        assert(es[i].key != es.last().key);
    }
}

/// Appending one record updates the map at its key.
pub proof fn lemma_map_of_push(es: Seq<EntryView>, e: EntryView)
    ensures
        map_of(es.push(e)) == map_of(es).insert(e.key, e),
{
    assert(es.push(e).drop_last() =~= es);
    assert(es.push(e).last() == e);
}

/// Replacing the record at `i` by one with the same key updates the map at
/// that key.
pub proof fn lemma_map_of_update(es: Seq<EntryView>, i: int, e: EntryView)
    requires
        unique_keys(es),
        0 <= i < es.len(),
        e.key == es[i].key,
    ensures
        map_of(es.update(i, e)) == map_of(es).insert(e.key, e),
    decreases es.len(),
{
    let last = es.last();
    if i == es.len() - 1 {
        assert(es.update(i, e).drop_last() =~= es.drop_last());
        assert(es.update(i, e).last() == e);
        assert(map_of(es.drop_last()).insert(last.key, last).insert(e.key, e)
            =~= map_of(es.drop_last()).insert(e.key, e));
    } else {
        assert(unique_keys(es.drop_last())) by {
            assert(forall|x: int, y: int|
                0 <= x < y < es.drop_last().len() ==> es.drop_last()[x] == es[x]
                    && es.drop_last()[y] == es[y]);
        }
        assert(es.drop_last()[i] == es[i]);
        lemma_map_of_update(es.drop_last(), i, e);
        assert(es.update(i, e).drop_last() =~= es.drop_last().update(i, e));
        assert(es.update(i, e).last() == last);
        assert(e.key != last.key);
        assert(map_of(es.drop_last()).insert(e.key, e).insert(last.key, last)
            =~= map_of(es.drop_last()).insert(last.key, last).insert(e.key, e));
    }
}

/// Inserting a record with a fresh key updates the map at that key.
pub proof fn lemma_map_of_insert(es: Seq<EntryView>, i: int, e: EntryView)
    requires
        0 <= i <= es.len(),
        forall|j: int| 0 <= j < es.len() ==> (#[trigger] es[j]).key != e.key,
    ensures
        map_of(es.insert(i, e)) == map_of(es).insert(e.key, e),
    decreases es.len(),
{
    if i == es.len() {
        assert(es.insert(i, e) =~= es.push(e));
        lemma_map_of_push(es, e);
    } else {
        let last = es.last();
        assert(es.insert(i, e).drop_last() =~= es.drop_last().insert(i, e));
        assert(es.insert(i, e).last() == last);
        assert(forall|j: int|
            0 <= j < es.drop_last().len() ==> (#[trigger] es.drop_last()[j]).key == es[j].key);
        lemma_map_of_insert(es.drop_last(), i, e);
        assert(es[es.len() - 1].key != e.key);
        assert(map_of(es.drop_last()).insert(e.key, e).insert(last.key, last)
            =~= map_of(es.drop_last()).insert(last.key, last).insert(e.key, e));
    }
}

/// Dropping the last record removes its key, if keys are unique.
pub proof fn lemma_map_of_drop_last(es: Seq<EntryView>)
    requires
        unique_keys(es),
        es.len() > 0,
    ensures
        map_of(es.drop_last()) == map_of(es).remove(es.last().key),
{
    lemma_map_of_contains(es.drop_last(), es.last().key);
    assert(forall|j: int|
        0 <= j < es.drop_last().len() ==> (#[trigger] es.drop_last()[j]).key == es[j].key);
    assert(!map_of(es.drop_last()).contains_key(es.last().key));
    assert(map_of(es.drop_last()) =~= map_of(es.drop_last()).insert(es.last().key, es.last()).remove(
        es.last().key,
    ));
}

/// A sorted memtable is determined by its map: two sorted record sequences
/// with the same last-write-wins state are the same sequence.
pub proof fn lemma_sorted_map_determines(a: Seq<EntryView>, b: Seq<EntryView>)
    requires
        sorted_keys(a),
        sorted_keys(b),
        map_of(a) == map_of(b),
    ensures
        a == b,
    decreases a.len(),
{
    lemma_sorted_unique(a);
    lemma_sorted_unique(b);
    if a.len() == 0 {
        if b.len() > 0 {
            lemma_map_of_index(b, b.len() - 1);
            lemma_map_of_contains(a, b.last().key);
        }
        assert(a =~= b);
    } else if b.len() == 0 {
        lemma_map_of_index(a, a.len() - 1);
        lemma_map_of_contains(b, a.last().key);
        assert(a =~= b);
    } else {
        let ka = a.last().key;
        let kb = b.last().key;
        lemma_map_of_index(a, a.len() - 1);
        lemma_map_of_index(b, b.len() - 1);
        lemma_map_of_contains(b, ka);
        lemma_map_of_contains(a, kb);
        let ia = choose|i: int| 0 <= i < a.len() && (#[trigger] a[i]).key == kb;
        let ib = choose|i: int| 0 <= i < b.len() && (#[trigger] b[i]).key == ka;
        if ka != kb {
            assert(ia < a.len() - 1);
            assert(ib < b.len() - 1);
            assert(lex_lt(kb, ka));
            assert(lex_lt(ka, kb));
            lemma_lex_trichotomy(ka, kb);
        }
        assert(a.last() == map_of(a)[ka]);
        assert(b.last() == map_of(b)[kb]);
        assert(a.last() == b.last());
        lemma_map_of_drop_last(a);
        lemma_map_of_drop_last(b);
        assert(sorted_keys(a.drop_last())) by {
            assert(forall|j: int| 0 <= j < a.drop_last().len() ==> a.drop_last()[j] == a[j]);
        }
        assert(sorted_keys(b.drop_last())) by {
            assert(forall|j: int| 0 <= j < b.drop_last().len() ==> b.drop_last()[j] == b[j]);
        }
        lemma_sorted_map_determines(a.drop_last(), b.drop_last());
        assert forall|j: int| 0 <= j < a.len() implies a[j] == b[j] by {
            if j < a.len() - 1 {
                assert(a[j] == a.drop_last()[j]);
                assert(b[j] == b.drop_last()[j]);
            }
        }
        assert(a =~= b);
    }
}

/// The memory charge of a sequence of records.
pub open spec fn size_sum(es: Seq<EntryView>) -> int
    decreases es.len(),
{
    if es.len() == 0 {
        0
    } else {
        size_sum(es.drop_last()) + es.last().charge()
    }
}

/// The charge is never negative; each record contributes at least its own.
pub proof fn lemma_size_sum_nonneg(es: Seq<EntryView>)
    ensures
        size_sum(es) >= 0,
    decreases es.len(),
{
    if es.len() > 0 {
        lemma_size_sum_nonneg(es.drop_last());
    }
}

/// The whole charge is at least the charge of any one record.
pub proof fn lemma_size_sum_part(es: Seq<EntryView>, i: int)
    requires
        0 <= i < es.len(),
    ensures
        size_sum(es) >= es[i].charge(),
    decreases es.len(),
{
    lemma_size_sum_nonneg(es.drop_last());
    if i == es.len() - 1 {
    } else {
        lemma_size_sum_part(es.drop_last(), i);
        assert(es.drop_last()[i] == es[i]);
    }
}

/// Appending a record adds its charge.
pub proof fn lemma_size_sum_push(es: Seq<EntryView>, e: EntryView)
    ensures
        size_sum(es.push(e)) == size_sum(es) + e.charge(),
{
    assert(es.push(e).drop_last() =~= es);
}

/// Replacing the record at `i` shifts the charge by the difference.
pub proof fn lemma_size_sum_update(es: Seq<EntryView>, i: int, e: EntryView)
    requires
        0 <= i < es.len(),
    ensures
        size_sum(es.update(i, e)) == size_sum(es) - es[i].charge() + e.charge(),
    decreases es.len(),
{
    if i == es.len() - 1 {
        assert(es.update(i, e).drop_last() =~= es.drop_last());
        assert(es.update(i, e).last() == e);
    } else {
        lemma_size_sum_update(es.drop_last(), i, e);
        assert(es.update(i, e).drop_last() =~= es.drop_last().update(i, e));
        assert(es.update(i, e).last() == es.last());
        assert(es.drop_last()[i] == es[i]);
    }
}

/// Inserting a record adds its charge.
pub proof fn lemma_size_sum_insert(es: Seq<EntryView>, i: int, e: EntryView)
    requires
        0 <= i <= es.len(),
    ensures
        size_sum(es.insert(i, e)) == size_sum(es) + e.charge(),
    decreases es.len(),
{
    if i == es.len() {
        assert(es.insert(i, e) =~= es.push(e));
        lemma_size_sum_push(es, e);
    } else {
        assert(es.insert(i, e).drop_last() =~= es.drop_last().insert(i, e));
        assert(es.insert(i, e).last() == es.last());
        lemma_size_sum_insert(es.drop_last(), i, e);
    }
}

/// A prefix never charges more than the whole.
pub proof fn lemma_size_sum_take_le(es: Seq<EntryView>, j: int)
    requires
        0 <= j <= es.len(),
    ensures
        size_sum(es.take(j)) <= size_sum(es),
    decreases es.len() - j,
{
    if j == es.len() {
        assert(es.take(j) =~= es);
    } else {
        assert(es.take(j + 1).drop_last() =~= es.take(j));
        assert(es.take(j + 1).last() == es[j]);
        lemma_size_sum_take_le(es, j + 1);
    }
}

/// Charges add up over concatenation.
pub proof fn lemma_size_sum_concat(a: Seq<EntryView>, b: Seq<EntryView>)
    ensures
        size_sum(a + b) == size_sum(a) + size_sum(b),
    decreases b.len(),
{
    if b.len() == 0 {
        assert(a + b =~= a);
    } else {
        assert((a + b).drop_last() =~= a + b.drop_last());
        assert((a + b).last() == b.last());
        lemma_size_sum_concat(a, b.drop_last());
    }
}

/// The position of the last record carrying key `k`, or -1 when none does.
pub open spec fn last_index_of_key(rs: Seq<EntryView>, k: Seq<u8>) -> int
    decreases rs.len(),
{
    if rs.len() == 0 {
        -1
    } else if rs.last().key == k {
        rs.len() - 1
    } else {
        last_index_of_key(rs.drop_last(), k)
    }
}

/// Last write wins: folding a log of records gives, at each key, exactly the
/// last record of the log that carries that key; a key that no record
/// carries is absent.
pub proof fn lemma_last_write_wins(rs: Seq<EntryView>, k: Seq<u8>)
    ensures
        map_of(rs).contains_key(k) <==> exists|i: int|
            0 <= i < rs.len() && (#[trigger] rs[i]).key == k,
        map_of(rs).contains_key(k) ==> {
            let i = last_index_of_key(rs, k);
            &&& 0 <= i < rs.len()
            &&& rs[i].key == k
            &&& map_of(rs)[k] == rs[i]
            &&& forall|j: int| i < j < rs.len() ==> (#[trigger] rs[j]).key != k
        },
    decreases rs.len(),
{
    lemma_map_of_contains(rs, k);
    if rs.len() > 0 {
        lemma_last_write_wins(rs.drop_last(), k);
        if rs.last().key == k {
        } else {
            assert(forall|j: int| 0 <= j < rs.len() - 1 ==> rs.drop_last()[j] == rs[j]);
            if map_of(rs).contains_key(k) {
                assert(map_of(rs.drop_last()).contains_key(k));
                assert(map_of(rs)[k] == map_of(rs.drop_last())[k]);
            }
        }
    }
}

/// The key-ordered in-memory index.  `entities` is sorted strictly by key;
/// `size` carries the summed charge of the entries.
pub struct MemTable {
    entities: Vec<Entry>,
    size: usize,
}

impl View for MemTable {
    type V = Seq<EntryView>;

    closed spec fn view(&self) -> Seq<EntryView> {
        views_of(self.entities@)
    }
}

impl MemTable {
    /// The index the memtable represents: each key maps to its latest record.
    pub open spec fn kv_map(&self) -> Map<Seq<u8>, EntryView> {
        map_of(self@)
    }

    /// The size counter.
    pub closed spec fn spec_size(&self) -> int {
        self.size as int
    }

    /// Well-formedness: entries strictly sorted by key, every entry well
    /// formed and within the layout's size fields, and the size counter equal
    /// to the summed charge of the entries.
    pub closed spec fn wf(&self) -> bool {
        &&& sorted_keys(self@)
        &&& seg_wf(self@)
        &&& self.size as int == size_sum(self@)
    }

    /// Size accounting: on a well-formed memtable the size counter equals the
    /// summed charge of the entries, `key_len + value_len + 17` per entry,
    /// a tombstone's value counting zero.  Well-formedness also pins the
    /// order: entries are strictly sorted by key.
    pub proof fn lemma_size_accounting(&self)
        requires
            self.wf(),
        ensures
            self.spec_size() == size_sum(self@),
            sorted_keys(self@),
            seg_wf(self@),
    {
    }

    /// An empty memtable.
    pub fn new() -> (r: MemTable)
        ensures
            r.wf(),
            r@ == Seq::<EntryView>::empty(),
            r.kv_map() == Map::<Seq<u8>, EntryView>::empty(),
            r.spec_size() == 0,
    {
        let r = MemTable { entities: Vec::new(), size: 0 };
        proof {
            assert(r@ =~= Seq::<EntryView>::empty());
        }
        r
    }

    /// The current value of the size counter.
    pub fn get_size(&self) -> (r: usize)
        ensures
            r == self.spec_size(),
    {
        self.size
    }

    /// Binary search for `key`: its position, or the position where it would
    /// be inserted to keep the keys sorted.
    pub fn get_index(&self, key: &[u8]) -> (r: Result<usize, usize>)
        requires
            self.wf(),
        ensures
            match r {
                Ok(i) => 0 <= i < self@.len() && self@[i as int].key == key@,
                Err(i) => {
                    &&& 0 <= i <= self@.len()
                    &&& forall|j: int| 0 <= j < i ==> lex_lt((#[trigger] self@[j]).key, key@)
                    &&& forall|j: int|
                        i <= j < self@.len() ==> lex_lt(key@, (#[trigger] self@[j]).key)
                    &&& !self.kv_map().contains_key(key@)
                },
            },
    {
        let mut lo: usize = 0;
        let mut hi: usize = self.entities.len();
        while lo < hi
            invariant
                self.wf(),
                0 <= lo <= hi <= self@.len(),
                self@.len() == self.entities@.len(),
                forall|j: int| 0 <= j < lo ==> lex_lt((#[trigger] self@[j]).key, key@),
                forall|j: int| hi <= j < self@.len() ==> lex_lt(key@, (#[trigger] self@[j]).key),
            decreases hi - lo,
        {
            let mid = lo + (hi - lo) / 2;
            let e = &self.entities[mid];
            proof {
                assert(self@[mid as int] == self.entities@[mid as int]@);
            }
            match compare_keys(e.key.as_slice(), key) {
                KeyOrder::Equal => {
                    return Ok(mid);
                },
                KeyOrder::Less => {
                    proof {
                        assert forall|j: int| 0 <= j < mid + 1 implies lex_lt(
                            (#[trigger] self@[j]).key,
                            key@,
                        ) by {
                            if j < mid {
                                lemma_lex_transitive(self@[j].key, self@[mid as int].key, key@);
                            }
                        }
                    }
                    lo = mid + 1;
                },
                KeyOrder::Greater => {
                    proof {
                        assert forall|j: int| mid <= j < self@.len() implies lex_lt(
                            key@,
                            (#[trigger] self@[j]).key,
                        ) by {
                            if j > mid {
                                lemma_lex_transitive(key@, self@[mid as int].key, self@[j].key);
                            }
                        }
                    }
                    hi = mid;
                },
            }
        }
        proof {
            lemma_map_of_contains(self@, key@);
            assert forall|i: int| 0 <= i < self@.len() implies (#[trigger] self@[i]).key
                != key@ by {
                lemma_lex_trichotomy(self@[i].key, key@);
            }
        }
        Err(lo)
    }

    /// Writes a live record for `key`: replaces the stored record if the key
    /// is present, inserts at the sorted position otherwise, and adjusts the
    /// size counter by the difference in value lengths.
    pub fn set_or_insert(&mut self, key: &[u8], value: &[u8], timestamp: u128)
        requires
            old(self).wf(),
            old(self).spec_size() + key@.len() + value@.len() + 17 <= usize::MAX,
        ensures
            final(self).wf(),
            final(self).kv_map() == old(self).kv_map().insert(
                key@,
                EntryView { key: key@, value: Some(value@), timestamp, deleted: false },
            ),
            final(self).spec_size() <= old(self).spec_size() + key@.len() + value@.len() + 17,
    {
        let ghost ev = EntryView { key: key@, value: Some(value@), timestamp, deleted: false };
        let entry = Entry {
            key: slice_to_vec(key),
            value: Some(slice_to_vec(value)),
            timestamp,
            deleted: false,
        };
        proof {
            assert(entry@ == ev);
        }
        match self.get_index(key) {
            Ok(idx) => {
                proof {
                    lemma_size_sum_part(old(self)@, idx as int);
                    lemma_sorted_unique(old(self)@);
                    lemma_map_of_update(old(self)@, idx as int, ev);
                    lemma_size_sum_update(old(self)@, idx as int, ev);
                }
                let old_len = match &self.entities[idx].value {
                    Some(v) => v.len(),
                    None => 0,
                };
                proof {
                    assert(old(self)@[idx as int] == old(self).entities@[idx as int]@);
                    assert(old(self)@[idx as int].charge() == key@.len() + old_len + 17);
                }
                self.size = self.size - old_len + value.len();
                self.entities[idx] = entry;
                proof {
                    assert(self@ =~= old(self)@.update(idx as int, ev));
                    assert(sorted_keys(self@)) by {
                        assert(forall|j: int|
                            0 <= j < self@.len() ==> (#[trigger] self@[j]).key == old(
                                self,
                            )@[j].key);
                    }
                    assert(seg_wf(self@));
                }
            },
            Err(idx) => {
                proof {
                    assert forall|j: int|
                        0 <= j < old(self)@.len() implies (#[trigger] old(self)@[j]).key
                        != ev.key by {
                        lemma_lex_trichotomy(old(self)@[j].key, key@);
                    }
                    lemma_map_of_insert(old(self)@, idx as int, ev);
                    lemma_size_sum_insert(old(self)@, idx as int, ev);
                }
                self.size = self.size + key.len() + value.len() + 17;
                self.entities.insert(idx, entry);
                proof {
                    assert(self@ =~= old(self)@.insert(idx as int, ev));
                    assert(sorted_keys(self@)) by {
                        assert(forall|j: int|
                            0 <= j < idx ==> (#[trigger] self@[j]) == old(self)@[j]);
                        assert(forall|j: int|
                            idx < j < self@.len() ==> (#[trigger] self@[j]) == old(self)@[j - 1]);
                        assert(self@[idx as int] == ev);
                        assert forall|x: int, y: int|
                            0 <= x < y < self@.len() implies lex_lt(
                            (#[trigger] self@[x]).key,
                            (#[trigger] self@[y]).key,
                        ) by {
                            if x == idx {
                                assert(lex_lt(key@, old(self)@[y - 1].key));
                            } else if y == idx {
                                assert(lex_lt(old(self)@[x].key, key@));
                            } else if x < idx && y > idx {
                                lemma_lex_transitive(
                                    old(self)@[x].key,
                                    key@,
                                    old(self)@[y - 1].key,
                                );
                            }
                        }
                    }
                    assert(seg_wf(self@));
                }
            },
        }
    }

    /// Writes a tombstone for `key`: replaces the stored record if the key is
    /// present, inserts the tombstone at the sorted position otherwise.  A
    /// delete of an absent key leaves a tombstone.
    pub fn delete(&mut self, key: &[u8], timestamp: u128)
        requires
            old(self).wf(),
            old(self).spec_size() + key@.len() + 17 <= usize::MAX,
        ensures
            final(self).wf(),
            final(self).kv_map() == old(self).kv_map().insert(
                key@,
                EntryView { key: key@, value: None, timestamp, deleted: true },
            ),
            final(self).spec_size() <= old(self).spec_size() + key@.len() + 17,
    {
        let ghost ev = EntryView { key: key@, value: None, timestamp, deleted: true };
        let entry = Entry { key: slice_to_vec(key), value: None, timestamp, deleted: true };
        proof {
            assert(entry@ == ev);
        }
        match self.get_index(key) {
            Ok(idx) => {
                proof {
                    lemma_size_sum_part(old(self)@, idx as int);
                    lemma_sorted_unique(old(self)@);
                    lemma_map_of_update(old(self)@, idx as int, ev);
                    lemma_size_sum_update(old(self)@, idx as int, ev);
                }
                let old_len = match &self.entities[idx].value {
                    Some(v) => v.len(),
                    None => 0,
                };
                proof {
                    assert(old(self)@[idx as int] == old(self).entities@[idx as int]@);
                    assert(old(self)@[idx as int].charge() == key@.len() + old_len + 17);
                }
                self.size = self.size - old_len;
                self.entities[idx] = entry;
                proof {
                    assert(self@ =~= old(self)@.update(idx as int, ev));
                    assert(sorted_keys(self@)) by {
                        assert(forall|j: int|
                            0 <= j < self@.len() ==> (#[trigger] self@[j]).key == old(
                                self,
                            )@[j].key);
                    }
                    assert(seg_wf(self@));
                }
            },
            Err(idx) => {
                proof {
                    assert forall|j: int|
                        0 <= j < old(self)@.len() implies (#[trigger] old(self)@[j]).key
                        != ev.key by {
                        lemma_lex_trichotomy(old(self)@[j].key, key@);
                    }
                    lemma_map_of_insert(old(self)@, idx as int, ev);
                    lemma_size_sum_insert(old(self)@, idx as int, ev);
                }
                self.size = self.size + key.len() + 17;
                self.entities.insert(idx, entry);
                proof {
                    assert(self@ =~= old(self)@.insert(idx as int, ev));
                    assert(sorted_keys(self@)) by {
                        assert(forall|j: int|
                            0 <= j < idx ==> (#[trigger] self@[j]) == old(self)@[j]);
                        assert(forall|j: int|
                            idx < j < self@.len() ==> (#[trigger] self@[j]) == old(self)@[j - 1]);
                        assert(self@[idx as int] == ev);
                        assert forall|x: int, y: int|
                            0 <= x < y < self@.len() implies lex_lt(
                            (#[trigger] self@[x]).key,
                            (#[trigger] self@[y]).key,
                        ) by {
                            if x == idx {
                                assert(lex_lt(key@, old(self)@[y - 1].key));
                            } else if y == idx {
                                assert(lex_lt(old(self)@[x].key, key@));
                            } else if x < idx && y > idx {
                                lemma_lex_transitive(
                                    old(self)@[x].key,
                                    key@,
                                    old(self)@[y - 1].key,
                                );
                            }
                        }
                    }
                    assert(seg_wf(self@));
                }
            },
        }
    }

    /// The stored record for `key`, live or tombstone, if any.
    pub fn get(&self, key: &[u8]) -> (r: Option<&Entry>)
        requires
            self.wf(),
        ensures
            match r {
                Some(e) => self.kv_map().contains_key(key@) && e@ == self.kv_map()[key@],
                None => !self.kv_map().contains_key(key@),
            },
    {
        match self.get_index(key) {
            Ok(idx) => {
                proof {
                    lemma_sorted_unique(self@);
                    lemma_map_of_index(self@, idx as int);
                    assert(self@[idx as int] == self.entities@[idx as int]@);
                }
                Some(&self.entities[idx])
            },
            Err(_) => None,
        }
    }

    /// Every stored record, in key order, tombstones included.
    pub fn get_all(&self) -> (r: &Vec<Entry>)
        ensures
            views_of(r@) == self@,
    {
        &self.entities
    }

    /// Builds a memtable from an already-decoded sequence of records and
    /// recomputes the size counter.  The result is well formed when the
    /// input is key-sorted with well-formed records; the caller is
    /// responsible for that.
    pub fn init_from_file(entities: Vec<Entry>) -> (r: MemTable)
        requires
            size_sum(views_of(entities@)) <= usize::MAX,
        ensures
            r@ == views_of(entities@),
            r.spec_size() == size_sum(views_of(entities@)),
            sorted_keys(views_of(entities@)) && seg_wf(views_of(entities@)) ==> r.wf(),
    {
        let mut mem_table = MemTable { entities, size: 0 };
        mem_table.restore_size();
        mem_table
    }

    /// Recomputes the size counter from the stored entries.
    fn restore_size(&mut self)
        requires
            old(self).size == 0,
            size_sum(old(self)@) <= usize::MAX,
        ensures
            final(self).entities == old(self).entities,
            final(self).size as int == size_sum(old(self)@),
    {
        let ghost es = old(self)@;
        let mut i: usize = 0;
        proof {
            assert(es.take(0) =~= Seq::<EntryView>::empty());
        }
        while i < self.entities.len()
            invariant
                self.entities == old(self).entities,
                es == self@,
                size_sum(es) <= usize::MAX,
                i <= self.entities@.len(),
                es.len() == self.entities@.len(),
                self.size as int == size_sum(es.take(i as int)),
            decreases self.entities@.len() - i,
        {
            proof {
                assert(es.take(i + 1).drop_last() =~= es.take(i as int));
                assert(es.take(i + 1).last() == es[i as int]);
                assert(es[i as int] == self.entities@[i as int]@);
                lemma_size_sum_take_le(es, i + 1);
                lemma_size_sum_nonneg(es.take(i as int));
                assert(size_sum(es.take(i + 1)) == size_sum(es.take(i as int)) + es[i as int].charge());
                assert(size_sum(es.take(i as int)) + es[i as int].charge() <= usize::MAX);
            }
            let e = &self.entities[i];
            let charge = match &e.value {
                Some(v) => {
                    proof {
                        assert(es[i as int].charge() == e.key@.len() + v@.len() + 17);
                    }
                    e.key.len() + v.len() + 16 + 1
                },
                None => {
                    proof {
                        assert(es[i as int].charge() == e.key@.len() + 17);
                    }
                    e.key.len() + 16 + 1
                },
            };
            self.size = self.size + charge;
            i = i + 1;
        }
        proof {
            assert(es.take(es.len() as int) =~= es);
        }
    }

    /// Removes every entry and zeroes the size counter.
    pub fn purge_mem_table(&mut self)
        ensures
            final(self).wf(),
            final(self)@ == Seq::<EntryView>::empty(),
            final(self).kv_map() == Map::<Seq<u8>, EntryView>::empty(),
            final(self).spec_size() == 0,
    {
        self.entities = Vec::new();
        self.size = 0;
        proof {
            assert(self@ =~= Seq::<EntryView>::empty());
        }
    }
}

} // verus!
