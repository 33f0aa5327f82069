//! Offset-index pairing: the index holds only the positions of mate-1
//! records, and each mate-1 record is read again from its position when it
//! is written. The texts themselves are held in memory by the caller and by
//! each `Source`, so this saves the copies of record lines that full-index
//! pairing keeps, not the memory of the input.
use vstd::prelude::*;
use crate::header::{pair_key, trim_header};
use crate::pairing::{
    all_complete, as_mate, has_key, index_of, insert_entry, key_index, keyed, lemma_outs_push,
    lemma_upsert_complete, lemma_drop_key_complete, model, next_keyed, outs_text, records, scan,
    take_entry, text_error, unique_keys, write_record, Entry, Keyed, Out, Paired,
};
use crate::store_read::{full_index, sequential_error, stream};
use crate::text::{
    lemma_record_bounds, line_end, parse_read, record_at, record_complete, record_end, Source,
};
use crate::PairError;

verus! {

/// The header lines of a text from `p` on, each named by its pairing key,
/// up to the first that has none; each is taken as the first of four lines.
pub open spec fn headers(t: Seq<char>, p: int) -> Seq<Keyed>
    decreases t.len() - p,
{
    if p < 0 || p >= t.len() {
        Seq::empty()
    } else {
        match pair_key(t.subrange(p, line_end(t, p))) {
            None => Seq::empty(),
            Some(a) => {
                proof {
                    lemma_record_bounds(t, p);
                }
                seq![Keyed { key: a, start: p }] + headers(t, record_end(t, p))
            },
        }
    }
}

/// Where reading header lines from `p` stops: at the end of the text, or
/// just past the four lines that start with a header line without a key.
pub open spec fn headers_stop(t: Seq<char>, p: int) -> int
    decreases t.len() - p,
{
    if p < 0 || p >= t.len() {
        p
    } else {
        match pair_key(t.subrange(p, line_end(t, p))) {
            None => record_end(t, p),
            Some(a) => {
                proof {
                    lemma_record_bounds(t, p);
                }
                headers_stop(t, record_end(t, p))
            },
        }
    }
}

/// On a text whose records are all complete and keyed, reading header
/// lines finds the records and stops at the end of the text.
pub proof fn lemma_headers_of_records(t: Seq<char>, p: int)
    requires
        0 <= p <= t.len(),
        scan(t, p).err is None,
    ensures
        headers(t, p) == scan(t, p).recs,
        headers_stop(t, p) == t.len(),
    decreases t.len() - p,
{
    if p < t.len() {
        lemma_record_bounds(t, p);
        lemma_headers_of_records(t, record_end(t, p));
    }
}

/// Reads the next header line and skips the three lines after it; gives
/// the header's pairing key. At the end of the text nothing is read.
pub fn get_next_header(input: &mut Source) -> (r: Option<String>)
    ensures
        final(input).text() == old(input).text(),
        ({
            let t = old(input).text();
            let p = old(input).pos();
            &&& p >= t.len() ==> r is None && final(input).pos() == p
            &&& p < t.len() ==> final(input).pos() == record_end(t, p) && match pair_key(
                t.subrange(p, line_end(t, p)),
            ) {
                Some(a) => r matches Some(s) && s@ == a,
                None => r is None,
            }
        }),
{
    let ghost t = input.text();
    if input.tell() >= input.len() {
        return None;
    }
    let start = input.read_line();
    let end = input.tell();
    proof {
        lemma_record_bounds(t, start as int);
    }
    let full_header = input.substring(start, end);
    input.read_line();
    input.read_line();
    input.read_line();
    trim_header(full_header.as_str())
}

/// Creates an index mapping the pairing key of each header line, from the
/// read position on, to the position of that line. Reading stops at the
/// end of the text, or after a header line without a key.
pub fn index_fastq(input: &mut Source) -> (r: Vec<(String, u64)>)
    ensures
        final(input).text() == old(input).text(),
        final(input).pos() == headers_stop(old(input).text(), old(input).pos()),
        old(input).pos() <= old(input).text().len() && scan(old(input).text(), old(input).pos()).err
            is None ==> final(input).pos() == old(input).text().len() && headers(
            old(input).text(),
            old(input).pos(),
        ) == scan(old(input).text(), old(input).pos()).recs,
        r@.len() == index_of(headers(old(input).text(), old(input).pos())).len(),
        forall|i: int|
            0 <= i < r@.len() ==> {
                let e = index_of(headers(old(input).text(), old(input).pos()))[i];
                (#[trigger] r@[i]).0@ == e.key && r@[i].1 == e.start
            },
{
    let ghost t = input.text();
    let ghost h0 = headers(t, input.pos());
    let ghost mut seen: Seq<Keyed> = Seq::empty();
    let mut index: Vec<Entry<()>> = Vec::new();
    proof {
        assert(h0 =~= seen + h0);
    }
    loop
        invariant_except_break
            h0 == seen + headers(t, input.pos()),
            headers_stop(t, input.pos()) == headers_stop(t, old(input).pos()),
        invariant
            t == old(input).text(),
            h0 == headers(t, old(input).pos()),
            input.text() == t,
            model(index@) == index_of(seen),
            unique_keys(model(index@)),
        ensures
            model(index@) == index_of(h0),
            input.pos() == headers_stop(t, old(input).pos()),
        decreases headers(t, input.pos()).len(),
    {
        let cur_pos = input.tell();
        let ghost rest = headers(t, cur_pos as int);
        match get_next_header(input) {
            None => {
                proof {
                    assert(seen =~= h0);
                }
                break ;
            },
            Some(header) => {
                proof {
                    lemma_record_bounds(t, cur_pos as int);
                    let r = rest[0];
                    assert(rest.drop_first() =~= headers(t, input.pos()));
                    assert(seen.push(r).drop_last() =~= seen);
                    assert(h0 =~= seen.push(r) + headers(t, input.pos()));
                    seen = seen.push(r);
                }
                insert_entry(&mut index, Entry { key: header, start: cur_pos, value: () });
            },
        }
    }
    let mut out: Vec<(String, u64)> = Vec::new();
    let mut i: usize = 0;
    while i < index.len()
        invariant
            i <= index@.len(),
            model(index@) == index_of(h0),
            h0 == headers(old(input).text(), old(input).pos()),
            input.text() == old(input).text(),
            input.pos() == headers_stop(old(input).text(), old(input).pos()),
            out@.len() == i,
            forall|j: int|
                0 <= j < i ==> (#[trigger] out@[j]).0@ == index@[j].key@ && out@[j].1
                    == index@[j].start,
        decreases index@.len() - i,
    {
        out.push((index[i].key.clone(), index[i].start as u64));
        i = i + 1;
    }
    proof {
        assert forall|j: int| 0 <= j < out@.len() implies {
            let e = index_of(h0)[j];
            (#[trigger] out@[j]).0@ == e.key && out@[j].1 == e.start
        } by {
            assert(model(index@)[j] == keyed(index@[j]));
        }
        if old(input).pos() <= old(input).text().len() && scan(old(input).text(), old(input).pos()).err
            is None {
            old(input).lemma_pos_nonneg();
            lemma_headers_of_records(old(input).text(), old(input).pos());
        }
    }
    out
}

/// Creates an index mapping the key of each record of `input`, from its
/// read position on, to the position of the record.
pub fn index_offsets(input: &mut Source) -> (r: Result<Vec<Entry<()>>, PairError>)
    ensures
        final(input).text() == old(input).text(),
        ({
            let t = old(input).text();
            let s = scan(t, old(input).pos());
            &&& s.err matches Some(e) ==> r == Err::<Vec<Entry<()>>, PairError>(e)
            &&& s.err is None ==> (r matches Ok(v) && model(v@) == index_of(s.recs)
                && unique_keys(model(v@)) && all_complete(model(v@), t))
            &&& s.err is None && old(input).pos() <= t.len() ==> final(input).pos() == t.len()
        }),
{
    let ghost t = input.text();
    let ghost s0 = scan(t, input.pos());
    let ghost mut seen: Seq<Keyed> = Seq::empty();
    let mut index: Vec<Entry<()>> = Vec::new();
    proof {
        assert(s0.recs =~= seen + s0.recs);
    }
    loop
        invariant
            t == old(input).text(),
            s0 == scan(t, old(input).pos()),
            input.text() == t,
            s0.recs == seen + scan(t, input.pos()).recs,
            s0.err == scan(t, input.pos()).err,
            old(input).pos() <= t.len() ==> input.pos() <= t.len(),
            model(index@) == index_of(seen),
            unique_keys(model(index@)),
            all_complete(model(index@), t),
        decreases scan(t, input.pos()).recs.len(),
    {
        let ghost rest = scan(t, input.pos()).recs;
        let ghost before = input.pos();
        proof {
            input.lemma_pos_nonneg();
            if before <= t.len() {
                lemma_record_bounds(t, before);
            }
        }
        match next_keyed(input) {
            Err(e) => {
                return Err(e);
            },
            Ok(None) => {
                proof {
                    assert(seen =~= s0.recs);
                }
                return Ok(index);
            },
            Ok(Some(kr)) => {
                proof {
                    let r = rest[0];
                    lemma_upsert_complete(model(index@), r, t);
                    assert(seen.push(r).drop_last() =~= seen);
                    assert(s0.recs =~= seen.push(r) + scan(t, input.pos()).recs);
                    seen = seen.push(r);
                }
                insert_entry(&mut index, Entry { key: kr.key, start: kr.start, value: () });
            },
        }
    }
}

/// Pairs two FASTQ texts with an index of mate-1 positions, and returns
/// the paired and unpaired texts: the same texts as the full-index
/// pairing, and the same failures. Every position in the index is the
/// start of a complete record, so reading a record again there cannot
/// fail.
pub fn pair_fastqs(mate1: &str, mate2: &str) -> (r: Result<Paired, PairError>)
    ensures
        sequential_error(mate1@, mate2@) matches Some(e) ==> r == Err::<Paired, PairError>(e),
        sequential_error(mate1@, mate2@) is None ==> (r matches Ok(p) && p.renders(
            mate1@,
            mate2@,
            full_index(records(mate1@), records(mate2@)),
        )),
{
    let ghost t1 = mate1@;
    let ghost t2 = mate2@;
    let mut in_read1 = Source::new(mate1);
    let mut index = match index_offsets(&mut in_read1) {
        Err(e) => {
            return Err(e);
        },
        Ok(m) => m,
    };
    let ghost idx0 = model(index@);
    let mut in_read2 = Source::new(mate2);
    let ghost s0 = scan(t2, 0);
    let ghost mut seen: Seq<Keyed> = Seq::empty();
    let mut paired1 = String::new();
    let mut paired2 = String::new();
    let mut singletons = String::new();
    proof {
        assert(s0.recs =~= seen + s0.recs);
    }
    loop
        invariant
            t1 == mate1@,
            t2 == mate2@,
            s0 == scan(t2, 0),
            in_read1.text() == t1,
            in_read2.text() == t2,
            s0.recs == seen + scan(t2, in_read2.pos()).recs,
            s0.err == scan(t2, in_read2.pos()).err,
            text_error(t1) is None,
            idx0 == index_of(records(t1)),
            model(index@) == stream(idx0, seen).idx,
            unique_keys(model(index@)),
            all_complete(model(index@), t1),
            paired1@ == outs_text(t1, t2, stream(idx0, seen).paired1),
            paired2@ == outs_text(t1, t2, stream(idx0, seen).paired2),
            singletons@ == outs_text(t1, t2, stream(idx0, seen).singles),
        ensures
            seen == records(t2),
            text_error(t2) is None,
        decreases scan(t2, in_read2.pos()).recs.len(),
    {
        let ghost rest = scan(t2, in_read2.pos()).recs;
        let ghost st = stream(idx0, seen);
        match next_keyed(&mut in_read2) {
            Err(e) => {
                return Err(e);
            },
            Ok(None) => {
                proof {
                    assert(seen =~= s0.recs);
                }
                break ;
            },
            Ok(Some(read2)) => {
                let ghost r = rest[0];
                let ghost old_index = index@;
                proof {
                    assert(seen.push(r).drop_last() =~= seen);
                    lemma_drop_key_complete(model(old_index), read2.key@, t1);
                }
                match take_entry(&mut index, &read2.key) {
                    Some(e1) => {
                        let ghost ki = key_index(model(old_index), read2.key@);
                        proof {
                            assert(model(old_index)[ki] == keyed(old_index[ki]));
                            lemma_outs_push(t1, t2, st.paired1, Out { rec: st.idx[ki], second: false });
                            lemma_outs_push(t1, t2, st.paired2, Out { rec: r, second: true });
                        }
                        write_record(&mut paired2, read2.key.as_str(), true, read2.seq.as_str(), read2.qscore.as_str());
                        in_read1.seek(e1.start);
                        if let Some(read1) = parse_read(&mut in_read1) {
                            write_record(&mut paired1, e1.key.as_str(), false, read1.seq.as_str(), read1.qscore.as_str());
                        }
                    },
                    None => {
                        proof {
                            lemma_outs_push(t1, t2, st.singles, Out { rec: r, second: true });
                        }
                        write_record(&mut singletons, read2.key.as_str(), true, read2.seq.as_str(), read2.qscore.as_str());
                    },
                }
                proof {
                    assert(s0.recs =~= seen.push(r) + scan(t2, in_read2.pos()).recs);
                    seen = seen.push(r);
                }
            },
        }
    }
    // All the remaining entries of the index are unpaired.
    let ghost st = stream(idx0, seen);
    let mut i: usize = 0;
    proof {
        assert(st.singles + as_mate(st.idx.take(0), false) =~= st.singles);
    }
    while i < index.len()
        invariant
            t1 == mate1@,
            t2 == mate2@,
            text_error(t1) is None,
            text_error(t2) is None,
            st == stream(index_of(records(t1)), records(t2)),
            in_read1.text() == t1,
            i <= index@.len(),
            model(index@) == st.idx,
            all_complete(model(index@), t1),
            singletons@ == outs_text(t1, t2, st.singles + as_mate(st.idx.take(i as int), false)),
        decreases index@.len() - i,
    {
        let ghost o = Out { rec: st.idx[i as int], second: false };
        proof {
            assert(st.idx[i as int] == keyed(index@[i as int]));
            assert(st.singles + as_mate(st.idx.take(i + 1), false) =~= (st.singles + as_mate(
                st.idx.take(i as int),
                false,
            )).push(o));
            lemma_outs_push(t1, t2, st.singles + as_mate(st.idx.take(i as int), false), o);
        }
        in_read1.seek(index[i].start);
        if let Some(read1) = parse_read(&mut in_read1) {
            write_record(&mut singletons, index[i].key.as_str(), false, read1.seq.as_str(), read1.qscore.as_str());
        }
        i = i + 1;
    }
    proof {
        assert(st.idx.take(i as int) =~= st.idx);
    }
    Ok(Paired { paired1, paired2, singletons })
}

} // verus!
