//! What the pairing strategies share: records with their keys, the index
//! that maps keys to records, and the text written for each record.
use vstd::prelude::*;
use vstd::string::*;
use crate::header::{pair_key, parse_header};
use crate::text::{body_of, line_body, lemma_record_bounds, record_at, record_complete, record_end, Scan, Source};
use crate::{PairError, PartialRead};

verus! {

/// A record of an input text, named by its key and the position of its
/// header line.
pub struct Keyed {
    pub key: Seq<char>,
    pub start: int,
}

/// The records of a text from position `p` on, up to the first problem,
/// and that problem if there is one.
pub struct ScanView {
    pub recs: Seq<Keyed>,
    pub err: Option<PairError>,
}

/// Reads a text from `p` record by record, as far as records are complete
/// and their headers carry a key.
pub open spec fn scan(t: Seq<char>, p: int) -> ScanView
    decreases t.len() - p,
{
    if p < 0 || p >= t.len() {
        ScanView { recs: Seq::empty(), err: None }
    } else if !record_complete(t, p) {
        ScanView { recs: Seq::empty(), err: Some(PairError::TruncatedRecord) }
    } else {
        match pair_key(record_at(t, p).header) {
            None => ScanView { recs: Seq::empty(), err: Some(PairError::MalformedHeader) },
            Some(k) => {
                proof {
                    lemma_record_bounds(t, p);
                }
                let rest = scan(t, record_end(t, p));
                ScanView { recs: seq![Keyed { key: k, start: p }] + rest.recs, err: rest.err }
            },
        }
    }
}

/// The records of a whole text.
pub open spec fn records(t: Seq<char>) -> Seq<Keyed> {
    scan(t, 0).recs
}

/// The first problem of a whole text, if any.
pub open spec fn text_error(t: Seq<char>) -> Option<PairError> {
    scan(t, 0).err
}

/// Every record found by a scan is complete and keyed by its header.
pub proof fn lemma_scan_records(t: Seq<char>, p: int)
    requires
        0 <= p,
    ensures
        forall|i: int|
            0 <= i < scan(t, p).recs.len() ==> {
                let r = #[trigger] scan(t, p).recs[i];
                &&& record_complete(t, r.start)
                &&& pair_key(record_at(t, r.start).header) == Some(r.key)
                &&& p <= r.start
            },
    decreases t.len() - p,
{
    if 0 <= p < t.len() && record_complete(t, p) && pair_key(record_at(t, p).header) is Some {
        lemma_record_bounds(t, p);
        lemma_scan_records(t, record_end(t, p));
        let s = scan(t, p);
        assert forall|i: int| 0 <= i < s.recs.len() implies {
            let r = #[trigger] s.recs[i];
            &&& record_complete(t, r.start)
            &&& pair_key(record_at(t, r.start).header) == Some(r.key)
            &&& p <= r.start
        } by {
            if i > 0 {
                assert(s.recs[i] == scan(t, record_end(t, p)).recs[i - 1]);
            }
        }
    }
}

/// A record read from a text, with its key and position.
#[derive(Debug)]
pub struct KeyedRead {
    pub key: String,
    pub start: usize,
    pub seq: String,
    pub qscore: String,
}

impl KeyedRead {
    /// The read is the record of text `t` that `k` names.
    pub open spec fn is_record_of(&self, t: Seq<char>, k: Keyed) -> bool {
        &&& self.key@ == k.key
        &&& self.start == k.start
        &&& self.seq@ == record_at(t, k.start).seq
        &&& self.qscore@ == record_at(t, k.start).qscore
    }
}

/// Reads the next record of `src` with its key.
pub fn next_keyed(src: &mut Source) -> (r: Result<Option<KeyedRead>, PairError>)
    ensures
        final(src).text() == old(src).text(),
        ({
            let t = old(src).text();
            let s = scan(t, old(src).pos());
            &&& s.recs.len() > 0 ==> (r matches Ok(Some(kr)) && kr.is_record_of(t, s.recs[0])
                && record_complete(t, kr.start as int)
                && scan(t, final(src).pos()) == (ScanView {
                recs: s.recs.drop_first(),
                err: s.err,
            }) && final(src).pos() == record_end(t, s.recs[0].start))
            &&& s.recs.len() == 0 && s.err is Some ==> r == Err::<Option<KeyedRead>, PairError>(
                s.err->0,
            )
            &&& s.recs.len() == 0 && s.err is None ==> (r matches Ok(None) && final(src).pos()
                == old(src).pos())
        }),
{
    let ghost t = src.text();
    let ghost p = src.pos();
    let start = src.tell();
    match src.next_record() {
        Scan::Eof => Ok(None),
        Scan::Truncated => Err(PairError::TruncatedRecord),
        Scan::Complete(rd) => {
            let key = parse_header(rd.header.as_str());
            match key {
                Err(e) => Err(e),
                Ok(key) => {
                    proof {
                        lemma_record_bounds(t, p);
                        let s = scan(t, p);
                        assert(s.recs.drop_first() =~= scan(t, record_end(t, p)).recs);
                    }
                    Ok(Some(KeyedRead { key, start, seq: rd.seq, qscore: rd.qscore }))
                },
            }
        },
    }
}

// ---------------------------------------------------------------------
// The index: an association list with unique keys, kept in insertion order.
/// Keys occur at most once.
pub open spec fn unique_keys(m: Seq<Keyed>) -> bool {
    forall|i: int, j: int| 0 <= i < j < m.len() ==> m[i].key != m[j].key
}

/// Some entry of `m` has key `k`.
pub open spec fn has_key(m: Seq<Keyed>, k: Seq<char>) -> bool {
    exists|i: int| 0 <= i < m.len() && m[i].key == k
}

/// Where key `k` stands in `m`.
pub open spec fn key_index(m: Seq<Keyed>, k: Seq<char>) -> int {
    choose|i: int| 0 <= i < m.len() && m[i].key == k
}

/// Inserting a record: one with the same key is replaced in its place,
/// else the record goes at the end.
pub open spec fn upsert(m: Seq<Keyed>, r: Keyed) -> Seq<Keyed> {
    if has_key(m, r.key) {
        m.update(key_index(m, r.key), r)
    } else {
        m.push(r)
    }
}

/// The index without the entry for `k`.
pub open spec fn drop_key(m: Seq<Keyed>, k: Seq<char>) -> Seq<Keyed> {
    if has_key(m, k) {
        m.remove(key_index(m, k))
    } else {
        m
    }
}

/// With unique keys, the entry found for a key is the one that has it.
pub proof fn lemma_key_index(m: Seq<Keyed>, k: Seq<char>, i: int)
    requires
        unique_keys(m),
        0 <= i < m.len(),
        m[i].key == k,
    ensures
        has_key(m, k),
        key_index(m, k) == i,
{
    assert(has_key(m, k));
    let j = key_index(m, k);
    assert(m[j].key == k);
}

/// Inserting keeps keys unique and leaves the record under its key.
pub proof fn lemma_upsert_unique(m: Seq<Keyed>, r: Keyed)
    requires
        unique_keys(m),
    ensures
        unique_keys(upsert(m, r)),
        has_key(upsert(m, r), r.key),
        upsert(m, r)[key_index(upsert(m, r), r.key)] == r,
{
    let u = upsert(m, r);
    if has_key(m, r.key) {
        let i = key_index(m, r.key);
        assert(m[i].key == r.key);
        assert(unique_keys(u));
        lemma_key_index(u, r.key, i);
    } else {
        assert(unique_keys(u));
        lemma_key_index(u, r.key, m.len() as int);
    }
}

/// Dropping a key keeps keys unique and leaves that key absent.
pub proof fn lemma_drop_key_unique(m: Seq<Keyed>, k: Seq<char>)
    requires
        unique_keys(m),
    ensures
        unique_keys(drop_key(m, k)),
        !has_key(drop_key(m, k), k),
{
    let w = drop_key(m, k);
    if has_key(m, k) {
        let i = key_index(m, k);
        assert(m[i].key == k);
        assert forall|a: int, b: int| 0 <= a < b < w.len() implies w[a].key != w[b].key by {
            let a2 = if a < i { a } else { a + 1 };
            let b2 = if b < i { b } else { b + 1 };
            assert(w[a] == m[a2]);
            assert(w[b] == m[b2]);
        }
        if has_key(w, k) {
            let j = choose|j: int| 0 <= j < w.len() && w[j].key == k;
            let j2 = if j < i { j } else { j + 1 };
            assert(w[j] == m[j2]);
        }
    }
}

/// The index left after inserting `recs` in order, a later record
/// replacing an earlier one with its key.
pub open spec fn index_of(recs: Seq<Keyed>) -> Seq<Keyed>
    decreases recs.len(),
{
    if recs.len() == 0 {
        Seq::empty()
    } else {
        upsert(index_of(recs.drop_last()), recs.last())
    }
}

/// Every entry names a complete record of `t`.
pub open spec fn all_complete(m: Seq<Keyed>, t: Seq<char>) -> bool {
    forall|i: int| 0 <= i < m.len() ==> record_complete(t, (#[trigger] m[i]).start)
}

/// Inserting a complete record keeps every entry complete.
pub proof fn lemma_upsert_complete(m: Seq<Keyed>, r: Keyed, t: Seq<char>)
    requires
        all_complete(m, t),
        record_complete(t, r.start),
    ensures
        all_complete(upsert(m, r), t),
{
    let u = upsert(m, r);
    assert forall|i: int| 0 <= i < u.len() implies record_complete(t, (#[trigger] u[i]).start) by {
        if i < m.len() && u[i] != r {
            assert(u[i] == m[i]);
        }
    }
}

/// Dropping a key keeps every entry complete.
pub proof fn lemma_drop_key_complete(m: Seq<Keyed>, k: Seq<char>, t: Seq<char>)
    requires
        all_complete(m, t),
    ensures
        all_complete(drop_key(m, k), t),
{
    let w = drop_key(m, k);
    if has_key(m, k) {
        let ki = key_index(m, k);
        assert forall|i: int| 0 <= i < w.len() implies record_complete(t, (#[trigger] w[i]).start) by {
            if i < ki {
                assert(w[i] == m[i]);
            } else {
                assert(w[i] == m[i + 1]);
            }
        }
    }
}

/// An entry of an executable index: a key, the position of its record in
/// the text, and what the strategy keeps of the record.
#[derive(Debug)]
pub struct Entry<V> {
    pub key: String,
    pub start: usize,
    pub value: V,
}

/// The key and position that an executable entry stands for.
pub open spec fn keyed<V>(e: Entry<V>) -> Keyed {
    Keyed { key: e.key@, start: e.start as int }
}

/// The keys and positions of an executable index.
pub open spec fn model<V>(v: Seq<Entry<V>>) -> Seq<Keyed> {
    v.map_values(|e: Entry<V>| keyed(e))
}

/// Where the entry for `key` stands, if there is one.
pub fn find<V>(idx: &Vec<Entry<V>>, key: &String) -> (r: Option<usize>)
    ensures
        r matches Some(i) ==> i < idx@.len() && idx@[i as int].key@ == key@,
        r is None ==> !has_key(model(idx@), key@),
{
    let mut i: usize = 0;
    while i < idx.len()
        invariant
            i <= idx@.len(),
            forall|j: int| 0 <= j < i ==> idx@[j].key@ != key@,
        decreases idx@.len() - i,
    {
        if idx[i].key == *key {
            return Some(i);
        }
        i = i + 1;
    }
    proof {
        let m = model(idx@);
        if has_key(m, key@) {
            let j = choose|j: int| 0 <= j < m.len() && m[j].key == key@;
            assert(m[j] == keyed(idx@[j]));
        }
    }
    None
}

/// Inserts `e`, replacing the entry with the same key in its place.
pub fn insert_entry<V>(idx: &mut Vec<Entry<V>>, e: Entry<V>)
    requires
        unique_keys(model(old(idx)@)),
    ensures
        model(final(idx)@) == upsert(model(old(idx)@), keyed(e)),
        unique_keys(model(final(idx)@)),
        has_key(model(old(idx)@), e.key@) ==> final(idx)@ == old(idx)@.update(
            key_index(model(old(idx)@), e.key@),
            e,
        ),
        !has_key(model(old(idx)@), e.key@) ==> final(idx)@ == old(idx)@.push(e),
{
    let ghost m = model(idx@);
    let ghost k = keyed(e);
    proof {
        lemma_upsert_unique(m, k);
    }
    match find(idx, &e.key) {
        Some(i) => {
            proof {
                assert(m[i as int] == keyed(idx@[i as int]));
                lemma_key_index(m, e.key@, i as int);
            }
            idx.set(i, e);
            proof {
                assert(model(idx@) =~= m.update(i as int, k));
            }
        },
        None => {
            idx.push(e);
            proof {
                assert(model(idx@) =~= m.push(k));
            }
        },
    }
}

/// Removes the entry for `key` and hands it back.
pub fn take_entry<V>(idx: &mut Vec<Entry<V>>, key: &String) -> (r: Option<Entry<V>>)
    requires
        unique_keys(model(old(idx)@)),
    ensures
        model(final(idx)@) == drop_key(model(old(idx)@), key@),
        unique_keys(model(final(idx)@)),
        has_key(model(old(idx)@), key@) ==> (r matches Some(e) && e == old(idx)@[key_index(
            model(old(idx)@),
            key@,
        )] && final(idx)@ == old(idx)@.remove(key_index(model(old(idx)@), key@))),
        !has_key(model(old(idx)@), key@) ==> r is None && final(idx)@ == old(idx)@,
{
    let ghost m = model(idx@);
    proof {
        lemma_drop_key_unique(m, key@);
    }
    match find(idx, key) {
        Some(i) => {
            proof {
                assert(m[i as int] == keyed(idx@[i as int]));
                lemma_key_index(m, key@, i as int);
            }
            let e = idx.remove(i);
            proof {
                assert(model(idx@) =~= m.remove(i as int));
            }
            Some(e)
        },
        None => None,
    }
}

/// Each entry keeps the sequence and quality lines of the record of `t`
/// that it names.
pub open spec fn holds_records(v: Seq<Entry<PartialRead>>, t: Seq<char>) -> bool {
    forall|i: int|
        0 <= i < v.len() ==> (#[trigger] v[i]).value.seq@ == record_at(t, v[i].start as int).seq
            && v[i].value.qscore@ == record_at(t, v[i].start as int).qscore
}

/// Inserting an entry that keeps its record's lines keeps the index
/// faithful to the text.
pub proof fn lemma_holds_insert(
    v: Seq<Entry<PartialRead>>,
    w: Seq<Entry<PartialRead>>,
    e: Entry<PartialRead>,
    t: Seq<char>,
)
    requires
        holds_records(v, t),
        e.value.seq@ == record_at(t, e.start as int).seq,
        e.value.qscore@ == record_at(t, e.start as int).qscore,
        w == v.push(e) || exists|i: int| 0 <= i < v.len() && w == v.update(i, e),
    ensures
        holds_records(w, t),
{
    assert forall|i: int| 0 <= i < w.len() implies (#[trigger] w[i]).value.seq@ == record_at(
        t,
        w[i].start as int,
    ).seq && w[i].value.qscore@ == record_at(t, w[i].start as int).qscore by {
        if i < v.len() && w[i] != e {
            assert(w[i] == v[i]);
        }
    }
}

/// Removing an entry keeps the index faithful to the text.
pub proof fn lemma_holds_remove(v: Seq<Entry<PartialRead>>, i: int, t: Seq<char>)
    requires
        holds_records(v, t),
        0 <= i < v.len(),
    ensures
        holds_records(v.remove(i), t),
{
    let w = v.remove(i);
    assert forall|j: int| 0 <= j < w.len() implies (#[trigger] w[j]).value.seq@ == record_at(
        t,
        w[j].start as int,
    ).seq && w[j].value.qscore@ == record_at(t, w[j].start as int).qscore by {
        if j < i {
            assert(w[j] == v[j]);
        } else {
            assert(w[j] == v[j + 1]);
        }
    }
}

// ---------------------------------------------------------------------
// Output records.
/// A record to be written, from mate 1 or from mate 2.
pub struct Out {
    pub rec: Keyed,
    pub second: bool,
}

/// The end of a written header line: `.1` or `.2`, then `'\n'`.
pub open spec fn mate_marker(second: bool) -> Seq<char> {
    if second {
        seq!['.', '2', '\n']
    } else {
        seq!['.', '1', '\n']
    }
}

/// The four lines written for a record: its key with the mate number, its
/// sequence, a bare `+`, and its quality line.
pub open spec fn rendered(key: Seq<char>, second: bool, seq: Seq<char>, qscore: Seq<char>) -> Seq<
    char,
> {
    key + mate_marker(second) + line_body(seq) + seq!['\n', '+', '\n'] + line_body(qscore) + seq![
        '\n',
    ]
}

/// The text written for `o`, whose record lies in `t1` or `t2`.
pub open spec fn out_text(t1: Seq<char>, t2: Seq<char>, o: Out) -> Seq<char> {
    let t = if o.second {
        t2
    } else {
        t1
    };
    let r = record_at(t, o.rec.start);
    rendered(o.rec.key, o.second, r.seq, r.qscore)
}

/// The text written for a list of records, in order.
pub open spec fn outs_text(t1: Seq<char>, t2: Seq<char>, os: Seq<Out>) -> Seq<char>
    decreases os.len(),
{
    if os.len() == 0 {
        Seq::empty()
    } else {
        outs_text(t1, t2, os.drop_last()) + out_text(t1, t2, os.last())
    }
}

/// Writing one more record appends its text.
pub proof fn lemma_outs_push(t1: Seq<char>, t2: Seq<char>, os: Seq<Out>, o: Out)
    ensures
        outs_text(t1, t2, os.push(o)) == outs_text(t1, t2, os) + out_text(t1, t2, o),
{
    assert(os.push(o).drop_last() =~= os);
}

/// The records of `rs`, all as records of the same mate.
pub open spec fn as_mate(rs: Seq<Keyed>, second: bool) -> Seq<Out> {
    rs.map_values(|r: Keyed| Out { rec: r, second })
}

/// Appends the four lines written for a record to `out`.
pub fn write_record(out: &mut String, key: &str, second: bool, seq: &str, qscore: &str)
    ensures
        final(out)@ == old(out)@ + rendered(key@, second, seq@, qscore@),
{
    let ghost o = out@;
    out.append(key);
    if second {
        out.append(".2\n");
        proof {
            reveal_strlit(".2\n");
        }
    } else {
        out.append(".1\n");
        proof {
            reveal_strlit(".1\n");
        }
    }
    out.append(body_of(seq));
    out.append("\n+\n");
    out.append(body_of(qscore));
    out.append("\n");
    proof {
        reveal_strlit("\n+\n");
        reveal_strlit("\n");
        assert(out@ =~= o + rendered(key@, second, seq@, qscore@));
    }
}

/// The three texts that a pairing produces.
#[derive(Debug)]
pub struct Paired {
    /// Mate-1 records that found their mate, one per pair.
    pub paired1: String,
    /// Mate-2 records that found their mate, in the same order as `paired1`.
    pub paired2: String,
    /// Records of either mate that found none.
    pub singletons: String,
}

/// Which records each of the three texts holds.
pub struct PairingView {
    pub paired1: Seq<Out>,
    pub paired2: Seq<Out>,
    pub singles: Seq<Out>,
}

impl Paired {
    /// The three texts are those written for the records of `m`.
    pub open spec fn renders(&self, t1: Seq<char>, t2: Seq<char>, m: PairingView) -> bool {
        &&& self.paired1@ == outs_text(t1, t2, m.paired1)
        &&& self.paired2@ == outs_text(t1, t2, m.paired2)
        &&& self.singletons@ == outs_text(t1, t2, m.singles)
    }
}

} // verus!
