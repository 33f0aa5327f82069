//! Interleaved pairing: both texts are read at once, one record of each
//! per round, and the index holds only the records still waiting for their
//! mate. The texts themselves are held in memory by the caller and by each
//! `Source`, so the saving is in the index, not in the input.
use vstd::prelude::*;
use crate::pairing::{
    as_mate, drop_key, has_key, holds_records, insert_entry, key_index, keyed, lemma_drop_key_unique,
    lemma_holds_insert, lemma_holds_remove, lemma_key_index, lemma_outs_push, lemma_upsert_unique,
    model, next_keyed, outs_text, records, scan, take_entry, find, unique_keys, upsert,
    write_record, Entry, Keyed, KeyedRead, Out, Paired, PairingView,
};
use crate::text::Source;
use crate::{PairError, PartialRead};

verus! {

/// The records waiting for their mate on each side, and the pairs written.
pub struct Pending {
    pub p1: Seq<Keyed>,
    pub p2: Seq<Keyed>,
    pub out1: Seq<Out>,
    pub out2: Seq<Out>,
}

/// A mate-1 record arrives: it waits, unless its mate is already waiting,
/// in which case both are written.
pub open spec fn step1(st: Pending, r: Keyed) -> Pending {
    let q1 = upsert(st.p1, r);
    if has_key(st.p2, r.key) {
        Pending {
            p1: drop_key(q1, r.key),
            p2: drop_key(st.p2, r.key),
            out1: st.out1.push(Out { rec: r, second: false }),
            out2: st.out2.push(Out { rec: st.p2[key_index(st.p2, r.key)], second: true }),
        }
    } else {
        Pending { p1: q1, ..st }
    }
}

/// A mate-2 record arrives, symmetrically.
pub open spec fn step2(st: Pending, r: Keyed) -> Pending {
    let q2 = upsert(st.p2, r);
    if has_key(st.p1, r.key) {
        Pending {
            p1: drop_key(st.p1, r.key),
            p2: drop_key(q2, r.key),
            out1: st.out1.push(Out { rec: st.p1[key_index(st.p1, r.key)], second: false }),
            out2: st.out2.push(Out { rec: r, second: true }),
        }
    } else {
        Pending { p2: q2, ..st }
    }
}

/// The state after `n` rounds; round `k` takes mate-1 record `k`, then
/// mate-2 record `k`, each if there is one.
pub open spec fn rounds(r1: Seq<Keyed>, r2: Seq<Keyed>, n: nat) -> Pending
    decreases n,
{
    if n == 0 {
        Pending { p1: Seq::empty(), p2: Seq::empty(), out1: Seq::empty(), out2: Seq::empty() }
    } else {
        let st = rounds(r1, r2, (n - 1) as nat);
        let a = if n - 1 < r1.len() {
            step1(st, r1[n - 1])
        } else {
            st
        };
        if n - 1 < r2.len() {
            step2(a, r2[n - 1])
        } else {
            a
        }
    }
}

/// The number of rounds: the length of the longer input.
pub open spec fn max_len(r1: Seq<Keyed>, r2: Seq<Keyed>) -> nat {
    if r1.len() >= r2.len() {
        r1.len()
    } else {
        r2.len()
    }
}

/// What interleaved pairing writes: pairs in the order they are found,
/// then the mate-1 records still waiting, then the mate-2 ones.
pub open spec fn interleaved(r1: Seq<Keyed>, r2: Seq<Keyed>) -> PairingView {
    let st = rounds(r1, r2, max_len(r1, r2));
    PairingView {
        paired1: st.out1,
        paired2: st.out2,
        singles: as_mate(st.p1, false) + as_mate(st.p2, true),
    }
}

/// The problem met first when the texts are read in alternation: mate-1
/// record `k` is read before mate-2 record `k`.
pub open spec fn interleaved_error(t1: Seq<char>, t2: Seq<char>) -> Option<PairError> {
    let s1 = scan(t1, 0);
    let s2 = scan(t2, 0);
    if s1.err is Some && (s2.err is None || s1.recs.len() <= s2.recs.len()) {
        s1.err
    } else {
        s2.err
    }
}

/// Rounds past the end of both inputs change nothing.
pub proof fn lemma_rounds_stable(r1: Seq<Keyed>, r2: Seq<Keyed>, n: nat)
    requires
        n >= max_len(r1, r2),
    ensures
        rounds(r1, r2, n) == rounds(r1, r2, max_len(r1, r2)),
    decreases n,
{
    if n > max_len(r1, r2) {
        lemma_rounds_stable(r1, r2, (n - 1) as nat);
    }
}

/// The waiting records and the written texts agree with `st`.
pub open spec fn agrees(
    st: Pending,
    map1: Seq<Entry<PartialRead>>,
    map2: Seq<Entry<PartialRead>>,
    out1: Seq<char>,
    out2: Seq<char>,
    t1: Seq<char>,
    t2: Seq<char>,
) -> bool {
    &&& model(map1) == st.p1
    &&& model(map2) == st.p2
    &&& unique_keys(st.p1)
    &&& unique_keys(st.p2)
    &&& holds_records(map1, t1)
    &&& holds_records(map2, t2)
    &&& out1 == outs_text(t1, t2, st.out1)
    &&& out2 == outs_text(t1, t2, st.out2)
}

/// A record arrives on one side (`second` tells which): it waits in `own`,
/// or, when its key waits in `other`, both are written and leave.
fn arrive(
    kr: KeyedRead,
    second: bool,
    own: &mut Vec<Entry<PartialRead>>,
    other: &mut Vec<Entry<PartialRead>>,
    out1: &mut String,
    out2: &mut String,
    Ghost(st): Ghost<Pending>,
    Ghost(r): Ghost<Keyed>,
    Ghost(t1): Ghost<Seq<char>>,
    Ghost(t2): Ghost<Seq<char>>,
)
    requires
        kr.is_record_of(if second { t2 } else { t1 }, r),
        !second ==> agrees(st, old(own)@, old(other)@, old(out1)@, old(out2)@, t1, t2),
        second ==> agrees(st, old(other)@, old(own)@, old(out1)@, old(out2)@, t1, t2),
    ensures
        !second ==> agrees(step1(st, r), final(own)@, final(other)@, final(out1)@, final(out2)@, t1, t2),
        second ==> agrees(step2(st, r), final(other)@, final(own)@, final(out1)@, final(out2)@, t1, t2),
{
    let ghost tw = if second { t2 } else { t1 };
    let ghost to = if second { t1 } else { t2 };
    let ghost mo = model(own@);
    let ghost mt = model(other@);
    let ghost v0 = own@;
    let key = kr.key.clone();
    let e = Entry { key: kr.key, start: kr.start, value: PartialRead { seq: kr.seq, qscore: kr.qscore } };
    insert_entry(own, e);
    proof {
        if has_key(mo, r.key) {
            assert(own@ == v0.update(key_index(mo, r.key), e));
        }
        lemma_holds_insert(v0, own@, e, tw);
        lemma_upsert_unique(mo, r);
    }
    match find(other, &key) {
        None => {},
        Some(j) => {
            let ghost u = model(own@);
            let ghost ow = own@;
            let ghost ot = other@;
            proof {
                assert(mt[j as int] == keyed(other@[j as int]));
                lemma_key_index(mt, r.key, j as int);
                lemma_drop_key_unique(u, r.key);
                lemma_drop_key_unique(mt, r.key);
            }
            if let Some(mine) = take_entry(own, &key) {
                if let Some(theirs) = take_entry(other, &key) {
                    proof {
                        let ku = key_index(u, r.key);
                        assert(u[ku] == keyed(ow[ku]));
                        lemma_holds_remove(ow, ku, tw);
                        lemma_holds_remove(ot, j as int, to);
                    }
                    if second {
                        proof {
                            lemma_outs_push(t1, t2, st.out1, Out { rec: mt[j as int], second: false });
                            lemma_outs_push(t1, t2, st.out2, Out { rec: r, second: true });
                        }
                        write_record(out1, theirs.key.as_str(), false, theirs.value.seq.as_str(), theirs.value.qscore.as_str());
                        write_record(out2, mine.key.as_str(), true, mine.value.seq.as_str(), mine.value.qscore.as_str());
                    } else {
                        proof {
                            lemma_outs_push(t1, t2, st.out1, Out { rec: r, second: false });
                            lemma_outs_push(t1, t2, st.out2, Out { rec: mt[j as int], second: true });
                        }
                        write_record(out1, mine.key.as_str(), false, mine.value.seq.as_str(), mine.value.qscore.as_str());
                        write_record(out2, theirs.key.as_str(), true, theirs.value.seq.as_str(), theirs.value.qscore.as_str());
                    }
                }
            }
        },
    }
}

/// Pairs two FASTQ texts by reading both at once, and returns the paired
/// and unpaired texts. Each text is read until its own end. A text that
/// ends inside a record, or a header without a key, fails the pairing;
/// the failure met first in the alternation is the one returned.
pub fn pair_fastqs(r1_text: &str, r2_text: &str) -> (r: Result<Paired, PairError>)
    ensures
        interleaved_error(r1_text@, r2_text@) matches Some(e) ==> r == Err::<Paired, PairError>(e),
        interleaved_error(r1_text@, r2_text@) is None ==> (r matches Ok(p) && p.renders(
            r1_text@,
            r2_text@,
            interleaved(records(r1_text@), records(r2_text@)),
        )),
{
    let ghost t1 = r1_text@;
    let ghost t2 = r2_text@;
    let ghost s1 = scan(t1, 0);
    let ghost s2 = scan(t2, 0);
    let mut in_read1 = Source::new(r1_text);
    let mut in_read2 = Source::new(r2_text);
    let mut map1: Vec<Entry<PartialRead>> = Vec::new();
    let mut map2: Vec<Entry<PartialRead>> = Vec::new();
    let mut paired1 = String::new();
    let mut paired2 = String::new();
    let mut read1_finished = false;
    let mut read2_finished = false;
    let ghost mut n: nat = 0;
    proof {
        assert(model(map1@) =~= Seq::<Keyed>::empty());
        assert(model(map2@) =~= Seq::<Keyed>::empty());
        assert(s1.recs.subrange(0, s1.recs.len() as int) =~= s1.recs);
        assert(s2.recs.subrange(0, s2.recs.len() as int) =~= s2.recs);
    }
    while !(read1_finished && read2_finished)
        invariant
            t1 == r1_text@,
            t2 == r2_text@,
            s1 == scan(t1, 0),
            s2 == scan(t2, 0),
            in_read1.text() == t1,
            in_read2.text() == t2,
            !read1_finished ==> n <= s1.recs.len() && scan(t1, in_read1.pos()).recs
                == s1.recs.subrange(n as int, s1.recs.len() as int) && scan(t1, in_read1.pos()).err
                == s1.err,
            read1_finished ==> s1.recs.len() < n && s1.err is None,
            !read2_finished ==> n <= s2.recs.len() && scan(t2, in_read2.pos()).recs
                == s2.recs.subrange(n as int, s2.recs.len() as int) && scan(t2, in_read2.pos()).err
                == s2.err,
            read2_finished ==> s2.recs.len() < n && s2.err is None,
            agrees(rounds(s1.recs, s2.recs, n), map1@, map2@, paired1@, paired2@, t1, t2),
        decreases (if read1_finished {
            0
        } else {
            s1.recs.len() - n + 1
        }) + (if read2_finished {
            0
        } else {
            s2.recs.len() - n + 1
        }),
    {
        let ghost st = rounds(s1.recs, s2.recs, n);
        let ghost mid = if n < s1.recs.len() {
            step1(st, s1.recs[n as int])
        } else {
            st
        };
        if !read1_finished {
            match next_keyed(&mut in_read1) {
                Err(e) => {
                    return Err(e);
                },
                Ok(None) => {
                    read1_finished = true;
                },
                Ok(Some(read1)) => {
                    proof {
                        assert(s1.recs.subrange(n as int, s1.recs.len() as int)[0] == s1.recs[n as int]);
                        assert(s1.recs.subrange(n as int, s1.recs.len() as int).drop_first()
                            =~= s1.recs.subrange(n + 1int, s1.recs.len() as int));
                    }
                    arrive(read1, false, &mut map1, &mut map2, &mut paired1, &mut paired2, Ghost(st), Ghost(s1.recs[n as int]), Ghost(t1), Ghost(t2));
                },
            }
        }
        if !read2_finished {
            match next_keyed(&mut in_read2) {
                Err(e) => {
                    return Err(e);
                },
                Ok(None) => {
                    read2_finished = true;
                },
                Ok(Some(read2)) => {
                    proof {
                        assert(s2.recs.subrange(n as int, s2.recs.len() as int)[0] == s2.recs[n as int]);
                        assert(s2.recs.subrange(n as int, s2.recs.len() as int).drop_first()
                            =~= s2.recs.subrange(n + 1int, s2.recs.len() as int));
                    }
                    arrive(read2, true, &mut map2, &mut map1, &mut paired1, &mut paired2, Ghost(mid), Ghost(s2.recs[n as int]), Ghost(t1), Ghost(t2));
                },
            }
        }
        proof {
            n = n + 1;
        }
    }
    // Write out the records still waiting.
    let ghost st = rounds(s1.recs, s2.recs, max_len(s1.recs, s2.recs));
    proof {
        lemma_rounds_stable(s1.recs, s2.recs, n);
    }
    let mut singletons = String::new();
    let mut i: usize = 0;
    proof {
        assert(as_mate(st.p1.take(0), false) =~= Seq::<Out>::empty());
    }
    while i < map1.len()
        invariant
            i <= map1@.len(),
            model(map1@) == st.p1,
            holds_records(map1@, t1),
            singletons@ == outs_text(t1, t2, as_mate(st.p1.take(i as int), false)),
        decreases map1@.len() - i,
    {
        let ghost o = Out { rec: st.p1[i as int], second: false };
        proof {
            assert(st.p1[i as int] == keyed(map1@[i as int]));
            assert(as_mate(st.p1.take(i + 1), false) =~= as_mate(st.p1.take(i as int), false).push(o));
            lemma_outs_push(t1, t2, as_mate(st.p1.take(i as int), false), o);
        }
        write_record(&mut singletons, map1[i].key.as_str(), false, map1[i].value.seq.as_str(), map1[i].value.qscore.as_str());
        i = i + 1;
    }
    let mut j: usize = 0;
    proof {
        assert(st.p1.take(i as int) =~= st.p1);
        assert(as_mate(st.p1, false) + as_mate(st.p2.take(0), true) =~= as_mate(st.p1, false));
    }
    while j < map2.len()
        invariant
            j <= map2@.len(),
            model(map2@) == st.p2,
            holds_records(map2@, t2),
            singletons@ == outs_text(t1, t2, as_mate(st.p1, false) + as_mate(st.p2.take(j as int), true)),
        decreases map2@.len() - j,
    {
        let ghost o = Out { rec: st.p2[j as int], second: true };
        proof {
            assert(st.p2[j as int] == keyed(map2@[j as int]));
            assert(as_mate(st.p1, false) + as_mate(st.p2.take(j + 1), true) =~= (as_mate(st.p1, false)
                + as_mate(st.p2.take(j as int), true)).push(o));
            lemma_outs_push(t1, t2, as_mate(st.p1, false) + as_mate(st.p2.take(j as int), true), o);
        }
        write_record(&mut singletons, map2[j].key.as_str(), true, map2[j].value.seq.as_str(), map2[j].value.qscore.as_str());
        j = j + 1;
    }
    proof {
        assert(st.p2.take(j as int) =~= st.p2);
    }
    Ok(Paired { paired1, paired2, singletons })
}

} // verus!
