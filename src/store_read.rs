//! Full-index pairing: all of mate 1 is held in memory, keyed, and mate 2
//! is streamed against it.
use vstd::prelude::*;
use crate::pairing::{
    as_mate, has_key, holds_records, insert_entry, key_index, keyed, lemma_outs_push, model,
    next_keyed, outs_text, records, scan, take_entry, text_error, unique_keys, upsert, drop_key,
    write_record, Entry, Keyed, Out, Paired, PairingView, index_of,
};
use crate::text::{lemma_record_bounds, record_at, Source};
use crate::{PairError, PartialRead};

verus! {

/// The state after streaming mate-2 records `r2` against index `idx0`:
/// what is left of the index and what has been written.
pub struct StreamView {
    pub idx: Seq<Keyed>,
    pub paired1: Seq<Out>,
    pub paired2: Seq<Out>,
    pub singles: Seq<Out>,
}

/// Each mate-2 record takes its mate out of the index and both are
/// paired, or, with no mate there, it is written as unpaired.
pub open spec fn stream(idx0: Seq<Keyed>, r2: Seq<Keyed>) -> StreamView
    decreases r2.len(),
{
    if r2.len() == 0 {
        StreamView { idx: idx0, paired1: Seq::empty(), paired2: Seq::empty(), singles: Seq::empty() }
    } else {
        let st = stream(idx0, r2.drop_last());
        let r = r2.last();
        if has_key(st.idx, r.key) {
            StreamView {
                idx: drop_key(st.idx, r.key),
                paired1: st.paired1.push(Out { rec: st.idx[key_index(st.idx, r.key)], second: false }),
                paired2: st.paired2.push(Out { rec: r, second: true }),
                singles: st.singles,
            }
        } else {
            StreamView { singles: st.singles.push(Out { rec: r, second: true }), ..st }
        }
    }
}

/// What full-index pairing writes for mate-1 records `r1` and mate-2
/// records `r2`: pairs in mate-2 order, then mate-2 records without a
/// mate, then what is left of the index in its order.
pub open spec fn full_index(r1: Seq<Keyed>, r2: Seq<Keyed>) -> PairingView {
    let st = stream(index_of(r1), r2);
    PairingView {
        paired1: st.paired1,
        paired2: st.paired2,
        singles: st.singles + as_mate(st.idx, false),
    }
}

/// The problem that stops a pairing that reads all of mate 1 before
/// mate 2: the first of mate 1, else the first of mate 2.
pub open spec fn sequential_error(t1: Seq<char>, t2: Seq<char>) -> Option<PairError> {
    if text_error(t1) is Some {
        text_error(t1)
    } else {
        text_error(t2)
    }
}

/// Creates an index associating the key of each record of `in_read`, from
/// its read position on, with the record's sequence and quality lines.
pub fn index_read(in_read: &mut Source) -> (r: Result<Vec<Entry<PartialRead>>, PairError>)
    ensures
        final(in_read).text() == old(in_read).text(),
        ({
            let t = old(in_read).text();
            let s = scan(t, old(in_read).pos());
            &&& s.err matches Some(e) ==> r == Err::<Vec<Entry<PartialRead>>, PairError>(e)
            &&& s.err is None ==> (r matches Ok(v) && model(v@) == index_of(s.recs)
                && unique_keys(model(v@)) && holds_records(v@, t))
            &&& s.err is None && old(in_read).pos() <= t.len() ==> final(in_read).pos() == t.len()
        }),
{
    let ghost t = in_read.text();
    let ghost s0 = scan(t, in_read.pos());
    let ghost mut seen: Seq<Keyed> = Seq::empty();
    let mut map: Vec<Entry<PartialRead>> = Vec::new();
    proof {
        assert(s0.recs =~= seen + s0.recs);
    }
    loop
        invariant
            t == old(in_read).text(),
            s0 == scan(t, old(in_read).pos()),
            in_read.text() == t,
            s0.recs == seen + scan(t, in_read.pos()).recs,
            s0.err == scan(t, in_read.pos()).err,
            old(in_read).pos() <= t.len() ==> in_read.pos() <= t.len(),
            model(map@) == index_of(seen),
            unique_keys(model(map@)),
            holds_records(map@, t),
        decreases scan(t, in_read.pos()).recs.len(),
    {
        let ghost rest = scan(t, in_read.pos()).recs;
        let ghost before = in_read.pos();
        proof {
            in_read.lemma_pos_nonneg();
            if before <= t.len() {
                lemma_record_bounds(t, before);
            }
        }
        match next_keyed(in_read) {
            Err(e) => {
                return Err(e);
            },
            Ok(None) => {
                proof {
                    assert(seen =~= s0.recs);
                }
                return Ok(map);
            },
            Ok(Some(kr)) => {
                let ghost old_map = map@;
                let e = Entry { key: kr.key, start: kr.start, value: PartialRead { seq: kr.seq, qscore: kr.qscore } };
                insert_entry(&mut map, e);
                proof {
                    let r = rest[0];
                    assert(seen.push(r).drop_last() =~= seen);
                    assert(s0.recs =~= seen.push(r) + scan(t, in_read.pos()).recs);
                    seen = seen.push(r);
                    assert(holds_records(map@, t)) by {
                        assert forall|i: int| 0 <= i < map@.len() implies (#[trigger] map@[i]).value.seq@
                            == record_at(t, map@[i].start as int).seq && map@[i].value.qscore@
                            == record_at(t, map@[i].start as int).qscore by {
                            if i < old_map.len() && map@[i] != e {
                                assert(map@[i] == old_map[i]);
                            }
                        }
                    }
                }
            },
        }
    }
}

/// Pairs two FASTQ texts with a full index of mate 1, and returns the
/// paired and unpaired texts. A text that ends inside a record, or a
/// header without a key, fails the pairing (mate 1 is read first).
pub fn pair_fastqs(mate1: &str, mate2: &str) -> (r: Result<Paired, PairError>)
    ensures
        sequential_error(mate1@, mate2@) matches Some(e) ==> r == Err::<Paired, PairError>(e),
        sequential_error(mate1@, mate2@) is None ==> (r matches Ok(p) && p.renders(
            mate1@,
            mate2@,
            full_index(records(mate1@), records(mate2@)),
        )),
{
    let ghost t1 = mate1@;
    let ghost t2 = mate2@;
    let mut in_read1 = Source::new(mate1);
    let mut map = match index_read(&mut in_read1) {
        Err(e) => {
            return Err(e);
        },
        Ok(m) => m,
    };
    let ghost idx0 = model(map@);
    let mut in_read2 = Source::new(mate2);
    let ghost s0 = scan(t2, 0);
    let ghost mut seen: Seq<Keyed> = Seq::empty();
    let mut paired1 = String::new();
    let mut paired2 = String::new();
    let mut singletons = String::new();
    proof {
        assert(s0.recs =~= seen + s0.recs);
    }
    loop
        invariant
            t1 == mate1@,
            t2 == mate2@,
            s0 == scan(t2, 0),
            in_read2.text() == t2,
            s0.recs == seen + scan(t2, in_read2.pos()).recs,
            s0.err == scan(t2, in_read2.pos()).err,
            text_error(t1) is None,
            idx0 == index_of(records(t1)),
            model(map@) == stream(idx0, seen).idx,
            unique_keys(model(map@)),
            holds_records(map@, t1),
            paired1@ == outs_text(t1, t2, stream(idx0, seen).paired1),
            paired2@ == outs_text(t1, t2, stream(idx0, seen).paired2),
            singletons@ == outs_text(t1, t2, stream(idx0, seen).singles),
        ensures
            seen == records(t2),
            text_error(t2) is None,
        decreases scan(t2, in_read2.pos()).recs.len(),
    {
        let ghost rest = scan(t2, in_read2.pos()).recs;
        let ghost st = stream(idx0, seen);
        match next_keyed(&mut in_read2) {
            Err(e) => {
                return Err(e);
            },
            Ok(None) => {
                proof {
                    assert(seen =~= s0.recs);
                }
                break ;
            },
            Ok(Some(read)) => {
                let ghost r = rest[0];
                let ghost old_map = map@;
                proof {
                    assert(seen.push(r).drop_last() =~= seen);
                }
                match take_entry(&mut map, &read.key) {
                    Some(e1) => {
                        proof {
                            let ki = key_index(model(old_map), read.key@);
                            assert(model(old_map)[ki] == keyed(old_map[ki]));
                            lemma_outs_push(t1, t2, st.paired1, Out { rec: st.idx[ki], second: false });
                            lemma_outs_push(t1, t2, st.paired2, Out { rec: r, second: true });
                            assert forall|i: int| 0 <= i < map@.len() implies (#[trigger] map@[i]).value.seq@
                                == record_at(t1, map@[i].start as int).seq && map@[i].value.qscore@
                                == record_at(t1, map@[i].start as int).qscore by {
                                if i < ki {
                                    assert(map@[i] == old_map[i]);
                                } else {
                                    assert(map@[i] == old_map[i + 1]);
                                }
                            }
                        }
                        write_record(&mut paired1, e1.key.as_str(), false, e1.value.seq.as_str(), e1.value.qscore.as_str());
                        write_record(&mut paired2, read.key.as_str(), true, read.seq.as_str(), read.qscore.as_str());
                    },
                    None => {
                        proof {
                            lemma_outs_push(t1, t2, st.singles, Out { rec: r, second: true });
                        }
                        write_record(&mut singletons, read.key.as_str(), true, read.seq.as_str(), read.qscore.as_str());
                    },
                }
                proof {
                    assert(s0.recs =~= seen.push(r) + scan(t2, in_read2.pos()).recs);
                    seen = seen.push(r);
                }
            },
        }
    }
    // What is left of the index found no mate.
    let ghost st = stream(idx0, seen);
    let mut i: usize = 0;
    proof {
        assert(st.singles + as_mate(st.idx.take(0), false) =~= st.singles);
    }
    while i < map.len()
        invariant
            t1 == mate1@,
            t2 == mate2@,
            text_error(t1) is None,
            text_error(t2) is None,
            st == stream(index_of(records(t1)), records(t2)),
            i <= map@.len(),
            model(map@) == st.idx,
            holds_records(map@, t1),
            singletons@ == outs_text(t1, t2, st.singles + as_mate(st.idx.take(i as int), false)),
        decreases map@.len() - i,
    {
        let ghost o = Out { rec: st.idx[i as int], second: false };
        proof {
            assert(st.idx[i as int] == keyed(map@[i as int]));
            assert(st.singles + as_mate(st.idx.take(i + 1), false) =~= (st.singles + as_mate(
                st.idx.take(i as int),
                false,
            )).push(o));
            lemma_outs_push(t1, t2, st.singles + as_mate(st.idx.take(i as int), false), o);
        }
        write_record(&mut singletons, map[i].key.as_str(), false, map[i].value.seq.as_str(), map[i].value.qscore.as_str());
        i = i + 1;
    }
    proof {
        assert(st.idx.take(i as int) =~= st.idx);
    }
    Ok(Paired { paired1, paired2, singletons })
}

} // verus!
