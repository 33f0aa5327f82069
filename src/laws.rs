//! What holds of every pairing: pairs match, every record ends up written
//! exactly once, and the strategies agree.
use vstd::prelude::*;
use crate::pairing::{
    as_mate, drop_key, has_key, index_of, key_index, lemma_drop_key_unique, lemma_key_index,
    lemma_upsert_unique, records, text_error, unique_keys, upsert, Keyed, Out, Paired, PairingView,
};
use crate::io::Output;
use crate::pairing::{mate_marker, out_text, outs_text, rendered};
use crate::header::{first_token, is_ws, pair_key, skip_word, skip_ws};
use crate::pairing::{scan, lemma_scan_records};
use crate::text::{
    lemma_line_end, lemma_record_bounds, line_body, line_end, qual_start, record_at,
    record_complete, record_end, sep_start,
};
use crate::PairError;
use crate::iter_both::{interleaved, interleaved_error, max_len, rounds, step1, step2, Pending};
use crate::store_read::{full_index, sequential_error, stream};

verus! {

/// Some record of `os` has key `k`.
pub open spec fn out_has(os: Seq<Out>, k: Seq<char>) -> bool {
    exists|i: int| 0 <= i < os.len() && os[i].rec.key == k
}

/// No two records of `os` share a key.
pub open spec fn distinct_keys(os: Seq<Out>) -> bool {
    forall|i: int, j: int| 0 <= i < j < os.len() ==> os[i].rec.key != os[j].rec.key
}

proof fn lemma_distinct_push(os: Seq<Out>, o: Out)
    requires
        distinct_keys(os),
        !out_has(os, o.rec.key),
    ensures
        distinct_keys(os.push(o)),
{
    let n = os.push(o);
    assert forall|i: int, j: int| 0 <= i < j < n.len() implies n[i].rec.key != n[j].rec.key by {
        assert(n[i] == os[i]);
        if j < os.len() {
            assert(n[j] == os[j]);
        } else if n[i].rec.key == o.rec.key {
            assert(out_has(os, o.rec.key));
        }
    }
}

proof fn lemma_distinct_mate(m: Seq<Keyed>, second: bool)
    requires
        unique_keys(m),
    ensures
        distinct_keys(as_mate(m, second)),
{
    let a = as_mate(m, second);
    assert forall|i: int, j: int| 0 <= i < j < a.len() implies a[i].rec.key != a[j].rec.key by {
        assert(a[i].rec == m[i]);
        assert(a[j].rec == m[j]);
    }
}

proof fn lemma_distinct_concat(a: Seq<Out>, b: Seq<Out>)
    requires
        distinct_keys(a),
        distinct_keys(b),
        forall|k: Seq<char>| !(out_has(a, k) && out_has(b, k)),
    ensures
        distinct_keys(a + b),
{
    let n = a + b;
    assert forall|i: int, j: int| 0 <= i < j < n.len() implies n[i].rec.key != n[j].rec.key by {
        if j < a.len() {
            assert(n[i] == a[i] && n[j] == a[j]);
        } else if i >= a.len() {
            assert(n[i] == b[i - a.len()] && n[j] == b[j - a.len()]);
        } else {
            assert(n[i] == a[i] && n[j] == b[j - a.len()]);
            if n[i].rec.key == n[j].rec.key {
                assert(out_has(a, n[i].rec.key));
                assert(out_has(b, n[i].rec.key));
            }
        }
    }
}

/// Lists without repeated keys that have the same keys are equally long.
proof fn lemma_distinct_len(a: Seq<Out>, b: Seq<Out>)
    requires
        distinct_keys(a),
        distinct_keys(b),
        forall|k: Seq<char>| out_has(a, k) <==> out_has(b, k),
    ensures
        a.len() == b.len(),
{
    let ka = a.map_values(|o: Out| o.rec.key);
    let kb = b.map_values(|o: Out| o.rec.key);
    assert(ka.no_duplicates());
    assert(kb.no_duplicates());
    assert forall|k: Seq<char>| ka.contains(k) <==> out_has(a, k) by {
        if ka.contains(k) {
            let i = choose|i: int| 0 <= i < ka.len() && ka[i] == k;
            assert(a[i].rec.key == k);
        }
        if out_has(a, k) {
            let i = choose|i: int| 0 <= i < a.len() && a[i].rec.key == k;
            assert(ka[i] == k);
        }
    }
    assert forall|k: Seq<char>| kb.contains(k) <==> out_has(b, k) by {
        if kb.contains(k) {
            let i = choose|i: int| 0 <= i < kb.len() && kb[i] == k;
            assert(b[i].rec.key == k);
        }
        if out_has(b, k) {
            let i = choose|i: int| 0 <= i < b.len() && b[i].rec.key == k;
            assert(kb[i] == k);
        }
    }
    assert(ka.to_set() =~= kb.to_set());
    ka.unique_seq_to_set();
    kb.unique_seq_to_set();
}

proof fn lemma_has_push(m: Seq<Keyed>, r: Keyed, k: Seq<char>)
    ensures
        has_key(m.push(r), k) <==> has_key(m, k) || r.key == k,
{
    if has_key(m, k) {
        let i = choose|i: int| 0 <= i < m.len() && m[i].key == k;
        assert(m.push(r)[i] == m[i]);
    }
    if r.key == k {
        assert(m.push(r)[m.len() as int] == r);
    }
    if has_key(m.push(r), k) {
        let i = choose|i: int| 0 <= i < m.len() + 1 && m.push(r)[i].key == k;
        if i < m.len() {
            assert(m[i] == m.push(r)[i]);
        }
    }
}

proof fn lemma_out_has_push(os: Seq<Out>, o: Out, k: Seq<char>)
    ensures
        out_has(os.push(o), k) <==> out_has(os, k) || o.rec.key == k,
{
    if out_has(os, k) {
        let i = choose|i: int| 0 <= i < os.len() && os[i].rec.key == k;
        assert(os.push(o)[i] == os[i]);
    }
    if o.rec.key == k {
        assert(os.push(o)[os.len() as int] == o);
    }
    if out_has(os.push(o), k) {
        let i = choose|i: int| 0 <= i < os.len() + 1 && os.push(o)[i].rec.key == k;
        if i < os.len() {
            assert(os[i] == os.push(o)[i]);
        }
    }
}

proof fn lemma_out_has_concat(a: Seq<Out>, b: Seq<Out>, k: Seq<char>)
    ensures
        out_has(a + b, k) <==> out_has(a, k) || out_has(b, k),
{
    if out_has(a, k) {
        let i = choose|i: int| 0 <= i < a.len() && a[i].rec.key == k;
        assert((a + b)[i] == a[i]);
    }
    if out_has(b, k) {
        let i = choose|i: int| 0 <= i < b.len() && b[i].rec.key == k;
        assert((a + b)[a.len() + i] == b[i]);
    }
    if out_has(a + b, k) {
        let i = choose|i: int| 0 <= i < (a + b).len() && (a + b)[i].rec.key == k;
        if i < a.len() {
            assert(a[i] == (a + b)[i]);
        } else {
            assert(b[i - a.len()] == (a + b)[i]);
        }
    }
}

proof fn lemma_out_has_mate(m: Seq<Keyed>, second: bool, k: Seq<char>)
    ensures
        out_has(as_mate(m, second), k) <==> has_key(m, k),
        as_mate(m, second).len() == m.len(),
{
    let a = as_mate(m, second);
    if has_key(m, k) {
        let i = choose|i: int| 0 <= i < m.len() && m[i].key == k;
        assert(a[i].rec == m[i]);
    }
    if out_has(a, k) {
        let i = choose|i: int| 0 <= i < a.len() && a[i].rec.key == k;
        assert(a[i].rec == m[i]);
    }
}

/// Dropping a key from an index with unique keys removes that key only.
proof fn lemma_drop_key_has(m: Seq<Keyed>, k: Seq<char>, k2: Seq<char>)
    requires
        unique_keys(m),
    ensures
        has_key(drop_key(m, k), k2) <==> has_key(m, k2) && k2 != k,
        drop_key(m, k).len() == if has_key(m, k) {
            m.len() - 1
        } else {
            m.len() as int
        },
{
    lemma_drop_key_unique(m, k);
    if has_key(m, k) {
        let ki = key_index(m, k);
        let w = drop_key(m, k);
        if has_key(m, k2) && k2 != k {
            let i = choose|i: int| 0 <= i < m.len() && m[i].key == k2;
            assert(i != ki);
            if i < ki {
                assert(w[i] == m[i]);
            } else {
                assert(w[i - 1] == m[i]);
            }
        }
        if has_key(w, k2) {
            let j = choose|j: int| 0 <= j < w.len() && w[j].key == k2;
            if j < ki {
                assert(w[j] == m[j]);
            } else {
                assert(w[j] == m[j + 1]);
            }
        }
    }
}

/// Inserting a record whose key is new appends it.
proof fn lemma_upsert_new(m: Seq<Keyed>, r: Keyed)
    requires
        !has_key(m, r.key),
    ensures
        upsert(m, r) == m.push(r),
{
}

/// Without repeated keys, the index holds all of mate 1 in order.
pub proof fn lemma_index_of_unique(r1: Seq<Keyed>)
    requires
        unique_keys(r1),
    ensures
        index_of(r1) == r1,
    decreases r1.len(),
{
    if r1.len() > 0 {
        let d = r1.drop_last();
        assert(unique_keys(d));
        lemma_index_of_unique(d);
        if has_key(d, r1.last().key) {
            let i = choose|i: int| 0 <= i < d.len() && d[i].key == r1.last().key;
            assert(r1[i].key == r1[r1.len() - 1].key);
        }
        assert(d.push(r1.last()) =~= r1);
    }
}

/// How the keys stand after streaming the first records of mate 2 against
/// all of mate 1.
spec fn stream_inv(r1: Seq<Keyed>, seen: Seq<Keyed>, st: crate::store_read::StreamView) -> bool {
    &&& unique_keys(st.idx)
    &&& forall|k: Seq<char>| has_key(st.idx, k) <==> has_key(r1, k) && !has_key(seen, k)
    &&& forall|k: Seq<char>| out_has(st.paired1, k) <==> has_key(r1, k) && has_key(seen, k)
    &&& forall|k: Seq<char>| out_has(st.singles, k) <==> has_key(seen, k) && !has_key(r1, k)
    &&& st.paired1.len() == st.paired2.len()
    &&& forall|i: int| 0 <= i < st.paired1.len() ==> st.paired1[i].rec.key == st.paired2[i].rec.key
    &&& st.idx.len() + st.paired1.len() == r1.len()
    &&& st.paired2.len() + st.singles.len() == seen.len()
    &&& distinct_keys(st.paired1)
    &&& distinct_keys(st.singles)
}

proof fn lemma_stream_inv(r1: Seq<Keyed>, r2: Seq<Keyed>)
    requires
        unique_keys(r1),
        unique_keys(r2),
    ensures
        stream_inv(r1, r2, stream(r1, r2)),
    decreases r2.len(),
{
    if r2.len() == 0 {
        assert(forall|k: Seq<char>| !has_key(r2, k));
        assert(forall|k: Seq<char>| !out_has(Seq::<Out>::empty(), k));
    } else {
        let d = r2.drop_last();
        assert(unique_keys(d));
        lemma_stream_inv(r1, d);
        let st = stream(r1, d);
        let r = r2.last();
        assert(d.push(r) =~= r2);
        if has_key(d, r.key) {
            let i = choose|i: int| 0 <= i < d.len() && d[i].key == r.key;
            assert(r2[i].key == r2[r2.len() - 1].key);
        }
        let nst = stream(r1, r2);
        assert forall|k: Seq<char>| has_key(r2, k) <==> has_key(d, k) || r.key == k by {
            lemma_has_push(d, r, k);
        }
        if has_key(st.idx, r.key) {
            let ki = key_index(st.idx, r.key);
            let o1 = Out { rec: st.idx[ki], second: false };
            let o2 = Out { rec: r, second: true };
            assert(st.idx[ki].key == r.key);
            assert forall|k: Seq<char>| has_key(nst.idx, k) <==> has_key(r1, k) && !has_key(r2, k) by {
                lemma_drop_key_has(st.idx, r.key, k);
            }
            assert forall|k: Seq<char>| out_has(nst.paired1, k) <==> has_key(r1, k) && has_key(r2, k) by {
                lemma_out_has_push(st.paired1, o1, k);
            }
            lemma_drop_key_has(st.idx, r.key, r.key);
            lemma_drop_key_unique(st.idx, r.key);
            assert(!out_has(st.paired1, r.key));
            lemma_distinct_push(st.paired1, o1);
            assert forall|i: int| 0 <= i < nst.paired1.len() implies nst.paired1[i].rec.key
                == nst.paired2[i].rec.key by {
                if i < st.paired1.len() {
                    assert(nst.paired1[i] == st.paired1[i]);
                    assert(nst.paired2[i] == st.paired2[i]);
                }
            }
        } else {
            let o = Out { rec: r, second: true };
            assert forall|k: Seq<char>| out_has(nst.singles, k) <==> has_key(r2, k) && !has_key(r1, k) by {
                lemma_out_has_push(st.singles, o, k);
            }
            assert(!out_has(st.singles, r.key));
            lemma_distinct_push(st.singles, o);
        }
    }
}

/// Pairs match, pairs and unpaired records do not share a key, and
/// every key of either input is written (paired or not) with no record
/// lost or repeated: for full-index (and offset-index) pairing, when
/// neither input repeats a key.
pub proof fn lemma_full_index_partition(r1: Seq<Keyed>, r2: Seq<Keyed>)
    requires
        unique_keys(r1),
        unique_keys(r2),
    ensures
        ({
            let m = full_index(r1, r2);
            &&& m.paired1.len() == m.paired2.len()
            &&& forall|i: int| 0 <= i < m.paired1.len() ==> m.paired1[i].rec.key == m.paired2[i].rec.key
            &&& forall|k: Seq<char>| out_has(m.paired1, k) <==> has_key(r1, k) && has_key(r2, k)
            &&& forall|k: Seq<char>| out_has(m.paired2, k) <==> has_key(r1, k) && has_key(r2, k)
            &&& forall|k: Seq<char>| out_has(m.singles, k) <==> (has_key(r1, k) != has_key(r2, k))
            &&& m.paired1.len() + m.paired2.len() + m.singles.len() == r1.len() + r2.len()
            &&& distinct_keys(m.paired1)
            &&& distinct_keys(m.singles)
        }),
{
    lemma_index_of_unique(r1);
    lemma_stream_inv(r1, r2);
    let st = stream(r1, r2);
    let m = full_index(r1, r2);
    assert forall|k: Seq<char>| out_has(m.singles, k) <==> (has_key(r1, k) != has_key(r2, k)) by {
        lemma_out_has_concat(st.singles, as_mate(st.idx, false), k);
        lemma_out_has_mate(st.idx, false, k);
    }
    lemma_out_has_mate(st.idx, false, Seq::empty());
    lemma_distinct_mate(st.idx, false);
    assert forall|k: Seq<char>| !(out_has(st.singles, k) && out_has(as_mate(st.idx, false), k)) by {
        lemma_out_has_mate(st.idx, false, k);
        assert(out_has(st.singles, k) <==> has_key(r2, k) && !has_key(r1, k));
        assert(has_key(st.idx, k) <==> has_key(r1, k) && !has_key(r2, k));
    }
    lemma_distinct_concat(st.singles, as_mate(st.idx, false));
    assert forall|k: Seq<char>| out_has(m.paired2, k) <==> has_key(r1, k) && has_key(r2, k) by {
        if out_has(m.paired2, k) {
            let i = choose|i: int| 0 <= i < m.paired2.len() && m.paired2[i].rec.key == k;
            assert(m.paired1[i].rec.key == k);
        }
        if out_has(m.paired1, k) {
            let i = choose|i: int| 0 <= i < m.paired1.len() && m.paired1[i].rec.key == k;
            assert(m.paired2[i].rec.key == k);
        }
    }
}

/// How the keys stand in interleaved pairing once the records `a` of
/// mate 1 and `b` of mate 2 have arrived.
spec fn pending_inv(st: Pending, a: Seq<Keyed>, b: Seq<Keyed>) -> bool {
    &&& unique_keys(st.p1)
    &&& unique_keys(st.p2)
    &&& forall|k: Seq<char>| has_key(st.p1, k) <==> has_key(a, k) && !has_key(b, k)
    &&& forall|k: Seq<char>| has_key(st.p2, k) <==> has_key(b, k) && !has_key(a, k)
    &&& forall|k: Seq<char>| out_has(st.out1, k) <==> has_key(a, k) && has_key(b, k)
    &&& st.out1.len() == st.out2.len()
    &&& forall|i: int| 0 <= i < st.out1.len() ==> st.out1[i].rec.key == st.out2[i].rec.key
    &&& st.p1.len() + st.out1.len() == a.len()
    &&& st.p2.len() + st.out2.len() == b.len()
    &&& distinct_keys(st.out1)
}

proof fn lemma_step1(st: Pending, a: Seq<Keyed>, b: Seq<Keyed>, r: Keyed)
    requires
        pending_inv(st, a, b),
        !has_key(a, r.key),
    ensures
        pending_inv(step1(st, r), a.push(r), b),
{
    let a2 = a.push(r);
    let n = step1(st, r);
    lemma_upsert_new(st.p1, r);
    let q1 = st.p1.push(r);
    assert forall|k: Seq<char>| has_key(a2, k) <==> has_key(a, k) || r.key == k by {
        lemma_has_push(a, r, k);
    }
    assert forall|k: Seq<char>| has_key(q1, k) <==> has_key(st.p1, k) || r.key == k by {
        lemma_has_push(st.p1, r, k);
    }
    lemma_upsert_unique(st.p1, r);
    if has_key(st.p2, r.key) {
        let ki = key_index(st.p2, r.key);
        assert(st.p2[ki].key == r.key);
        let o1 = Out { rec: r, second: false };
        assert forall|k: Seq<char>| has_key(n.p1, k) <==> has_key(a2, k) && !has_key(b, k) by {
            lemma_drop_key_has(q1, r.key, k);
        }
        assert forall|k: Seq<char>| has_key(n.p2, k) <==> has_key(b, k) && !has_key(a2, k) by {
            lemma_drop_key_has(st.p2, r.key, k);
        }
        assert forall|k: Seq<char>| out_has(n.out1, k) <==> has_key(a2, k) && has_key(b, k) by {
            lemma_out_has_push(st.out1, o1, k);
        }
        lemma_drop_key_has(q1, r.key, r.key);
        lemma_drop_key_has(st.p2, r.key, r.key);
        lemma_drop_key_unique(q1, r.key);
        lemma_drop_key_unique(st.p2, r.key);
        assert(!out_has(st.out1, r.key));
        lemma_distinct_push(st.out1, o1);
        assert forall|i: int| 0 <= i < n.out1.len() implies n.out1[i].rec.key == n.out2[i].rec.key by {
            if i < st.out1.len() {
                assert(n.out1[i] == st.out1[i]);
                assert(n.out2[i] == st.out2[i]);
            }
        }
    }
}

proof fn lemma_step2(st: Pending, a: Seq<Keyed>, b: Seq<Keyed>, r: Keyed)
    requires
        pending_inv(st, a, b),
        !has_key(b, r.key),
    ensures
        pending_inv(step2(st, r), a, b.push(r)),
{
    let b2 = b.push(r);
    let n = step2(st, r);
    lemma_upsert_new(st.p2, r);
    let q2 = st.p2.push(r);
    assert forall|k: Seq<char>| has_key(b2, k) <==> has_key(b, k) || r.key == k by {
        lemma_has_push(b, r, k);
    }
    assert forall|k: Seq<char>| has_key(q2, k) <==> has_key(st.p2, k) || r.key == k by {
        lemma_has_push(st.p2, r, k);
    }
    lemma_upsert_unique(st.p2, r);
    if has_key(st.p1, r.key) {
        let ki = key_index(st.p1, r.key);
        assert(st.p1[ki].key == r.key);
        let o1 = Out { rec: st.p1[ki], second: false };
        assert forall|k: Seq<char>| has_key(n.p1, k) <==> has_key(a, k) && !has_key(b2, k) by {
            lemma_drop_key_has(st.p1, r.key, k);
        }
        assert forall|k: Seq<char>| has_key(n.p2, k) <==> has_key(b2, k) && !has_key(a, k) by {
            lemma_drop_key_has(q2, r.key, k);
        }
        assert forall|k: Seq<char>| out_has(n.out1, k) <==> has_key(a, k) && has_key(b2, k) by {
            lemma_out_has_push(st.out1, o1, k);
        }
        lemma_drop_key_has(q2, r.key, r.key);
        lemma_drop_key_has(st.p1, r.key, r.key);
        lemma_drop_key_unique(q2, r.key);
        lemma_drop_key_unique(st.p1, r.key);
        assert(!out_has(st.out1, r.key));
        lemma_distinct_push(st.out1, o1);
        assert forall|i: int| 0 <= i < n.out1.len() implies n.out1[i].rec.key == n.out2[i].rec.key by {
            if i < st.out1.len() {
                assert(n.out1[i] == st.out1[i]);
                assert(n.out2[i] == st.out2[i]);
            }
        }
    }
}

spec fn arrived(r: Seq<Keyed>, n: nat) -> Seq<Keyed> {
    if n <= r.len() {
        r.take(n as int)
    } else {
        r
    }
}

proof fn lemma_arrived_next(r: Seq<Keyed>, n: nat)
    requires
        unique_keys(r),
    ensures
        n < r.len() ==> arrived(r, n + 1) == arrived(r, n).push(r[n as int]) && !has_key(
            arrived(r, n),
            r[n as int].key,
        ),
        n >= r.len() ==> arrived(r, n + 1) == arrived(r, n),
{
    if n < r.len() {
        assert(r.take(n + 1int) =~= r.take(n as int).push(r[n as int]));
        if has_key(arrived(r, n), r[n as int].key) {
            let i = choose|i: int| 0 <= i < n && arrived(r, n)[i].key == r[n as int].key;
            assert(r[i].key == r[n as int].key);
        }
    }
}

proof fn lemma_rounds_inv(r1: Seq<Keyed>, r2: Seq<Keyed>, n: nat)
    requires
        unique_keys(r1),
        unique_keys(r2),
    ensures
        pending_inv(rounds(r1, r2, n), arrived(r1, n), arrived(r2, n)),
    decreases n,
{
    if n == 0 {
        assert(arrived(r1, 0) =~= Seq::<Keyed>::empty());
        assert(arrived(r2, 0) =~= Seq::<Keyed>::empty());
        assert(forall|k: Seq<char>| !has_key(Seq::<Keyed>::empty(), k));
        assert(forall|k: Seq<char>| !out_has(Seq::<Out>::empty(), k));
    } else {
        let m = (n - 1) as nat;
        lemma_rounds_inv(r1, r2, m);
        lemma_arrived_next(r1, m);
        lemma_arrived_next(r2, m);
        let st = rounds(r1, r2, m);
        if m < r1.len() {
            lemma_step1(st, arrived(r1, m), arrived(r2, m), r1[m as int]);
        }
        let mid = if m < r1.len() {
            step1(st, r1[m as int])
        } else {
            st
        };
        if m < r2.len() {
            lemma_step2(mid, arrived(r1, n), arrived(r2, m), r2[m as int]);
        }
    }
}

/// Pairs match, pairs and unpaired records do not share a key, and
/// every key of either input is written (paired or not) with no record
/// lost or repeated: for interleaved pairing, when neither input repeats
/// a key.
pub proof fn lemma_interleaved_partition(r1: Seq<Keyed>, r2: Seq<Keyed>)
    requires
        unique_keys(r1),
        unique_keys(r2),
    ensures
        ({
            let m = interleaved(r1, r2);
            &&& m.paired1.len() == m.paired2.len()
            &&& forall|i: int| 0 <= i < m.paired1.len() ==> m.paired1[i].rec.key == m.paired2[i].rec.key
            &&& forall|k: Seq<char>| out_has(m.paired1, k) <==> has_key(r1, k) && has_key(r2, k)
            &&& forall|k: Seq<char>| out_has(m.paired2, k) <==> has_key(r1, k) && has_key(r2, k)
            &&& forall|k: Seq<char>| out_has(m.singles, k) <==> (has_key(r1, k) != has_key(r2, k))
            &&& m.paired1.len() + m.paired2.len() + m.singles.len() == r1.len() + r2.len()
            &&& distinct_keys(m.paired1)
            &&& distinct_keys(m.singles)
        }),
{
    let n = max_len(r1, r2);
    lemma_rounds_inv(r1, r2, n);
    assert(arrived(r1, n) =~= r1);
    assert(arrived(r2, n) =~= r2);
    let st = rounds(r1, r2, n);
    let m = interleaved(r1, r2);
    assert forall|k: Seq<char>| out_has(m.singles, k) <==> (has_key(r1, k) != has_key(r2, k)) by {
        lemma_out_has_concat(as_mate(st.p1, false), as_mate(st.p2, true), k);
        lemma_out_has_mate(st.p1, false, k);
        lemma_out_has_mate(st.p2, true, k);
    }
    lemma_out_has_mate(st.p1, false, Seq::empty());
    lemma_out_has_mate(st.p2, true, Seq::empty());
    lemma_distinct_mate(st.p1, false);
    lemma_distinct_mate(st.p2, true);
    assert forall|k: Seq<char>| !(out_has(as_mate(st.p1, false), k) && out_has(as_mate(st.p2, true), k)) by {
        lemma_out_has_mate(st.p1, false, k);
        lemma_out_has_mate(st.p2, true, k);
        assert(has_key(st.p1, k) <==> has_key(arrived(r1, n), k) && !has_key(arrived(r2, n), k));
        assert(has_key(st.p2, k) <==> has_key(arrived(r2, n), k) && !has_key(arrived(r1, n), k));
    }
    lemma_distinct_concat(as_mate(st.p1, false), as_mate(st.p2, true));
    assert forall|k: Seq<char>| out_has(m.paired2, k) <==> has_key(r1, k) && has_key(r2, k) by {
        if out_has(m.paired2, k) {
            let i = choose|i: int| 0 <= i < m.paired2.len() && m.paired2[i].rec.key == k;
            assert(m.paired1[i].rec.key == k);
        }
        if out_has(m.paired1, k) {
            let i = choose|i: int| 0 <= i < m.paired1.len() && m.paired1[i].rec.key == k;
            assert(m.paired2[i].rec.key == k);
        }
    }
}

/// What the full-index and offset-index pairings return for texts `t1`
/// and `t2`, as their contracts state it.
pub open spec fn full_index_outcome(t1: Seq<char>, t2: Seq<char>, r: Result<Paired, PairError>) -> bool {
    match sequential_error(t1, t2) {
        Some(e) => r == Err::<Paired, PairError>(e),
        None => r matches Ok(p) && p.renders(t1, t2, full_index(records(t1), records(t2))),
    }
}

/// What the interleaved pairing returns, as its contract states it.
pub open spec fn interleaved_outcome(t1: Seq<char>, t2: Seq<char>, r: Result<Paired, PairError>) -> bool {
    match interleaved_error(t1, t2) {
        Some(e) => r == Err::<Paired, PairError>(e),
        None => r matches Ok(p) && p.renders(t1, t2, interleaved(records(t1), records(t2))),
    }
}

/// Two outcomes fail alike, or both succeed with the same three texts.
pub open spec fn same_outcome(a: Result<Paired, PairError>, b: Result<Paired, PairError>) -> bool {
    match (a, b) {
        (Err(x), Err(y)) => x == y,
        (Ok(p), Ok(q)) => p.paired1@ == q.paired1@ && p.paired2@ == q.paired2@ && p.singletons@
            == q.singletons@,
        _ => false,
    }
}

/// Full-index and offset-index pairing give the same texts on the same
/// inputs (`a` from one, `b` from the other); so does running either of
/// them twice. When every record of both inputs is complete and keyed,
/// both succeed.
pub proof fn lemma_full_and_offset_agree(
    t1: Seq<char>,
    t2: Seq<char>,
    a: Result<Paired, PairError>,
    b: Result<Paired, PairError>,
)
    requires
        full_index_outcome(t1, t2, a),
        full_index_outcome(t1, t2, b),
    ensures
        same_outcome(a, b),
        text_error(t1) is None && text_error(t2) is None ==> a is Ok && b is Ok,
{
}

/// Running interleaved pairing twice on the same inputs gives the same
/// texts. When every record of both inputs is complete and keyed, both
/// runs succeed.
pub proof fn lemma_interleaved_rerun(
    t1: Seq<char>,
    t2: Seq<char>,
    a: Result<Paired, PairError>,
    b: Result<Paired, PairError>,
)
    requires
        interleaved_outcome(t1, t2, a),
        interleaved_outcome(t1, t2, b),
    ensures
        same_outcome(a, b),
        text_error(t1) is None && text_error(t2) is None ==> a is Ok && b is Ok,
{
}

/// Interleaved pairing finds the same pairs as full-index pairing and
/// leaves the same records unpaired, when neither input repeats a key:
/// as many pairs, each pair of one found in the other, and as many
/// unpaired records, the same ones; no key repeats among the pairs or
/// among the unpaired records, so these are the same multisets. Only the
/// order of what is written may differ.
pub proof fn lemma_interleaved_same_pairs(r1: Seq<Keyed>, r2: Seq<Keyed>)
    requires
        unique_keys(r1),
        unique_keys(r2),
    ensures
        ({
            let mi = interleaved(r1, r2);
            let mf = full_index(r1, r2);
            &&& mi.paired1.len() == mf.paired1.len()
            &&& forall|i: int| 0 <= i < mf.paired1.len() ==> is_pair_of(mi, mf.paired1[i], mf.paired2[i])
            &&& forall|i: int| 0 <= i < mi.paired1.len() ==> is_pair_of(mf, mi.paired1[i], mi.paired2[i])
            &&& mi.singles.len() == mf.singles.len()
            &&& forall|o: Out| mi.singles.contains(o) <==> mf.singles.contains(o)
            &&& distinct_keys(mi.paired1) && distinct_keys(mf.paired1)
            &&& distinct_keys(mi.singles) && distinct_keys(mf.singles)
        }),
{
    let mi = interleaved(r1, r2);
    let mf = full_index(r1, r2);
    lemma_full_index_partition(r1, r2);
    lemma_interleaved_partition(r1, r2);
    lemma_full_index_from_inputs(r1, r2);
    lemma_interleaved_from_inputs(r1, r2);
    assert forall|k: Seq<char>| out_has(mi.paired1, k) <==> out_has(mf.paired1, k) by {
        assert(out_has(mi.paired1, k) <==> has_key(r1, k) && has_key(r2, k));
        assert(out_has(mf.paired1, k) <==> has_key(r1, k) && has_key(r2, k));
    }
    lemma_distinct_len(mi.paired1, mf.paired1);
    assert forall|i: int| 0 <= i < mf.paired1.len() implies is_pair_of(mi, mf.paired1[i], mf.paired2[i]) by {
        lemma_pair_found(r1, r2, mf, mi, i);
    }
    assert forall|i: int| 0 <= i < mi.paired1.len() implies is_pair_of(mf, mi.paired1[i], mi.paired2[i]) by {
        lemma_pair_found(r1, r2, mi, mf, i);
    }
    assert forall|o: Out| mi.singles.contains(o) implies mf.singles.contains(o) by {
        lemma_single_found(r1, r2, mi, mf, o);
    }
    assert forall|o: Out| mf.singles.contains(o) implies mi.singles.contains(o) by {
        lemma_single_found(r1, r2, mf, mi, o);
    }
}

/// `(o1, o2)` is one of the pairs of `m`.
pub open spec fn is_pair_of(m: PairingView, o1: Out, o2: Out) -> bool {
    exists|j: int| 0 <= j < m.paired1.len() && m.paired1[j] == o1 && m.paired2[j] == o2
}

/// What a pairing of unique-key inputs writes, as its laws give it.
spec fn pairing_facts(r1: Seq<Keyed>, r2: Seq<Keyed>, m: PairingView) -> bool {
    &&& m.paired1.len() == m.paired2.len()
    &&& forall|i: int| 0 <= i < m.paired1.len() ==> m.paired1[i].rec.key == m.paired2[i].rec.key
    &&& forall|k: Seq<char>| out_has(m.paired1, k) <==> has_key(r1, k) && has_key(r2, k)
    &&& forall|k: Seq<char>| out_has(m.singles, k) <==> (has_key(r1, k) != has_key(r2, k))
    &&& from_inputs(m.paired1, r1, r2)
    &&& from_inputs(m.paired2, r1, r2)
    &&& from_inputs(m.singles, r1, r2)
    &&& all_mate(m.paired1, false)
    &&& all_mate(m.paired2, true)
}

/// Two records of an input with unique keys that share a key are one.
proof fn lemma_same_record(r: Seq<Keyed>, x: Keyed, y: Keyed)
    requires
        unique_keys(r),
        r.contains(x),
        r.contains(y),
        x.key == y.key,
    ensures
        x == y,
{
    let i = choose|i: int| 0 <= i < r.len() && r[i] == x;
    let j = choose|j: int| 0 <= j < r.len() && r[j] == y;
    if i < j {
        assert(r[i].key != r[j].key);
    } else if j < i {
        assert(r[j].key != r[i].key);
    }
}

proof fn lemma_contains_has_key(r: Seq<Keyed>, x: Keyed)
    requires
        r.contains(x),
    ensures
        has_key(r, x.key),
{
    let i = choose|i: int| 0 <= i < r.len() && r[i] == x;
    assert(r[i].key == x.key);
}

proof fn lemma_pair_found(r1: Seq<Keyed>, r2: Seq<Keyed>, a: PairingView, b: PairingView, i: int)
    requires
        unique_keys(r1),
        unique_keys(r2),
        pairing_facts(r1, r2, a),
        pairing_facts(r1, r2, b),
        0 <= i < a.paired1.len(),
    ensures
        is_pair_of(b, a.paired1[i], a.paired2[i]),
{
    let o1 = a.paired1[i];
    let o2 = a.paired2[i];
    let k = o1.rec.key;
    assert(out_has(a.paired1, k));
    assert(has_key(r1, k) && has_key(r2, k));
    assert(out_has(b.paired1, k));
    let j = choose|j: int| 0 <= j < b.paired1.len() && b.paired1[j].rec.key == k;
    let p1 = b.paired1[j];
    let p2 = b.paired2[j];
    assert(!o1.second && !p1.second);
    assert(o2.second && p2.second);
    lemma_same_record(r1, o1.rec, p1.rec);
    lemma_same_record(r2, o2.rec, p2.rec);
    assert(o1 == p1);
    assert(o2 == p2);
}

proof fn lemma_single_found(r1: Seq<Keyed>, r2: Seq<Keyed>, a: PairingView, b: PairingView, o: Out)
    requires
        unique_keys(r1),
        unique_keys(r2),
        pairing_facts(r1, r2, a),
        pairing_facts(r1, r2, b),
        a.singles.contains(o),
    ensures
        b.singles.contains(o),
{
    let i = choose|i: int| 0 <= i < a.singles.len() && a.singles[i] == o;
    let k = o.rec.key;
    assert(out_has(a.singles, k));
    assert(has_key(r1, k) != has_key(r2, k));
    assert(out_has(b.singles, k));
    let j = choose|j: int| 0 <= j < b.singles.len() && b.singles[j].rec.key == k;
    let p = b.singles[j];
    if o.second {
        lemma_contains_has_key(r2, o.rec);
    } else {
        lemma_contains_has_key(r1, o.rec);
    }
    if p.second {
        lemma_contains_has_key(r2, p.rec);
    } else {
        lemma_contains_has_key(r1, p.rec);
    }
    if o.second {
        lemma_same_record(r2, o.rec, p.rec);
    } else {
        lemma_same_record(r1, o.rec, p.rec);
    }
    assert(p == o);
}

/// A line that starts at or before a `'\n'` ends at or before it.
proof fn lemma_line_end_le(t: Seq<char>, p: int, j: int)
    requires
        0 <= p <= j < t.len(),
        t[j] == '\n',
    ensures
        line_end(t, p) <= j + 1,
    decreases j - p,
{
    if t[p] != '\n' {
        lemma_line_end_le(t, p + 1, j);
    }
}

/// Line ends only move forward.
proof fn lemma_line_end_ge(t: Seq<char>, p: int)
    requires
        0 <= p,
    ensures
        p <= line_end(t, p),
    decreases t.len() - p,
{
    if 0 <= p < t.len() && t[p] != '\n' {
        lemma_line_end_ge(t, p + 1);
    }
}

/// A text that starts with a written record starts with a complete
/// record.
proof fn lemma_written_record_complete(r: Seq<char>, rest: Seq<char>, o: Out, t1: Seq<char>, t2: Seq<char>)
    requires
        r == out_text(t1, t2, o),
    ensures
        record_complete(r + rest, 0),
{
    let t = r + rest;
    let src = if o.second {
        t2
    } else {
        t1
    };
    let rd = crate::text::record_at(src, o.rec.start);
    let bs = crate::text::line_body(rd.seq);
    let bq = crate::text::line_body(rd.qscore);
    let key = o.rec.key;
    assert(r =~= key + mate_marker(o.second) + bs + seq!['\n', '+', '\n'] + bq + seq!['\n']);
    let a: int = key.len() + 2int;
    let b: int = a + 1 + bs.len() as int;
    let c: int = b + 2;
    assert(t[a] == '\n');
    assert(t[b] == '\n');
    assert(t[c] == '\n');
    assert(c + 1 < t.len());
    lemma_line_end_le(t, 0, a);
    let l1 = line_end(t, 0);
    lemma_line_end_ge(t, 0);
    lemma_line_end_le(t, l1, b);
    let l2 = line_end(t, l1);
    lemma_line_end_ge(t, l1);
    lemma_line_end_le(t, l2, c);
}

/// The text written for a list of records, read from its front.
proof fn lemma_outs_text_front(t1: Seq<char>, t2: Seq<char>, os: Seq<Out>)
    requires
        os.len() > 0,
    ensures
        outs_text(t1, t2, os) == out_text(t1, t2, os[0]) + outs_text(t1, t2, os.drop_first()),
    decreases os.len(),
{
    if os.len() > 1 {
        lemma_outs_text_front(t1, t2, os.drop_last());
        assert(os.drop_last().drop_first() =~= os.drop_first().drop_last());
        assert(os.drop_first().last() == os.last());
        assert(os.drop_last()[0] == os[0]);
    } else {
        assert(os.drop_last() =~= Seq::<Out>::empty());
        assert(os.drop_first() =~= Seq::<Out>::empty());
        assert(outs_text(t1, t2, os.drop_last()) == Seq::<char>::empty());
        assert(outs_text(t1, t2, os.drop_first()) == Seq::<char>::empty());
        assert(os.last() == os[0]);
        assert(outs_text(t1, t2, os) =~= out_text(t1, t2, os[0]) + Seq::<char>::empty());
    }
}

/// The text written for unpaired records is empty exactly when none was
/// written, and otherwise starts with a complete record.
pub proof fn lemma_singletons_text(t1: Seq<char>, t2: Seq<char>, os: Seq<Out>)
    ensures
        outs_text(t1, t2, os).len() == 0 <==> os.len() == 0,
        record_complete(outs_text(t1, t2, os), 0) <==> os.len() > 0,
{
    if os.len() > 0 {
        lemma_outs_text_front(t1, t2, os);
        lemma_written_record_complete(out_text(t1, t2, os[0]), outs_text(t1, t2, os.drop_first()), os[0], t1, t2);
    }
}

/// After a pairing is finalized, the singleton output is kept exactly when
/// at least one unpaired record was written.
pub proof fn lemma_finalize_keeps_written_singletons(
    t1: Seq<char>,
    t2: Seq<char>,
    m: PairingView,
    p: Paired,
    out: Output,
    singleton_path: String,
)
    requires
        p.renders(t1, t2, m),
        record_complete(p.singletons@, 0) ==> out.singleton_path == Some(singleton_path),
        !record_complete(p.singletons@, 0) ==> out.singleton_path is None,
    ensures
        out.singleton_path is Some <==> m.singles.len() > 0,
        m.singles.len() == 0 ==> p.singletons@.len() == 0,
{
    lemma_singletons_text(t1, t2, m.singles);
}

/// Reading `x + y` from inside `y` finds the same line ends, moved by `x`.
proof fn lemma_line_end_shift(x: Seq<char>, y: Seq<char>, q: int)
    requires
        0 <= q,
    ensures
        line_end(x + y, x.len() + q) == x.len() + line_end(y, q),
    decreases y.len() - q,
{
    if q < y.len() {
        assert((x + y)[x.len() + q] == y[q]);
        if y[q] != '\n' {
            lemma_line_end_shift(x, y, q + 1);
        }
    }
}

/// Scanning `x + y` from inside `y` finds the records of `y`.
proof fn lemma_scan_shift(x: Seq<char>, y: Seq<char>, p: int)
    requires
        0 <= p,
    ensures
        scan(x + y, x.len() + p).err == scan(y, p).err,
        scan(x + y, x.len() + p).recs.len() == scan(y, p).recs.len(),
        forall|i: int|
            0 <= i < scan(y, p).recs.len() ==> scan(x + y, x.len() + p).recs[i].key == scan(
                y,
                p,
            ).recs[i].key,
    decreases y.len() - p,
{
    let t = x + y;
    let q = x.len() + p;
    if p < y.len() {
        lemma_record_bounds(y, p);
        lemma_line_end_shift(x, y, p);
        lemma_line_end_shift(x, y, line_end(y, p));
        lemma_line_end_shift(x, y, sep_start(y, p));
        lemma_line_end_shift(x, y, qual_start(y, p));
        assert(record_complete(t, q) == record_complete(y, p));
        if record_complete(y, p) {
            assert(t.subrange(q, line_end(t, q)) =~= y.subrange(p, line_end(y, p)));
            assert(record_at(t, q).header == record_at(y, p).header);
            if pair_key(record_at(y, p).header) is Some {
                lemma_scan_shift(x, y, record_end(y, p));
                assert(record_end(t, q) == x.len() + record_end(y, p));
                let a = scan(t, q);
                let b = scan(y, p);
                assert forall|i: int| 0 <= i < b.recs.len() implies a.recs[i].key == b.recs[i].key by {
                    if i > 0 {
                        assert(a.recs[i] == scan(t, record_end(t, q)).recs[i - 1]);
                        assert(b.recs[i] == scan(y, record_end(y, p)).recs[i - 1]);
                    }
                }
            }
        }
    }
}

/// A line that has no `'\n'` before position `j` ends just past the
/// `'\n'` at `j`.
proof fn lemma_line_end_at(t: Seq<char>, p: int, j: int)
    requires
        0 <= p <= j < t.len(),
        t[j] == '\n',
        forall|i: int| p <= i < j ==> t[i] != '\n',
    ensures
        line_end(t, p) == j + 1,
    decreases j - p,
{
    if p < j {
        lemma_line_end_at(t, p + 1, j);
    }
}

proof fn lemma_skip_word_at(h: Seq<char>, i: int, j: int)
    requires
        0 <= i <= j <= h.len(),
        forall|m: int| i <= m < j ==> !is_ws(h[m]),
        j == h.len() || is_ws(h[j]),
    ensures
        skip_word(h, i) == j,
    decreases j - i,
{
    if i < j {
        lemma_skip_word_at(h, i + 1, j);
    }
}

proof fn lemma_skip_bounds(h: Seq<char>, i: int)
    requires
        0 <= i <= h.len(),
    ensures
        i <= skip_ws(h, i) <= h.len(),
        i <= skip_word(h, i) <= h.len(),
        forall|m: int| i <= m < skip_word(h, i) ==> !is_ws(h[m]),
    decreases h.len() - i,
{
    if i < h.len() {
        lemma_skip_bounds(h, i + 1);
    }
}

/// A key holds no whitespace.
proof fn lemma_key_has_no_ws(h: Seq<char>)
    requires
        pair_key(h) is Some,
    ensures
        forall|i: int| 0 <= i < pair_key(h)->0.len() ==> !is_ws(pair_key(h)->0[i]),
{
    lemma_skip_bounds(h, 0);
    let s = skip_ws(h, 0);
    lemma_skip_bounds(h, s);
    let k = pair_key(h)->0;
    assert forall|i: int| 0 <= i < k.len() implies !is_ws(k[i]) by {
        assert(k[i] == first_token(h)[i]);
        assert(first_token(h)[i] == h[s + i]);
    }
}

/// The sequence or quality line of a record, without its terminator,
/// holds no `'\n'`.
proof fn lemma_line_body_no_newline(t: Seq<char>, p: int)
    requires
        0 <= p <= t.len(),
    ensures
        forall|i: int|
            0 <= i < line_body(t.subrange(p, line_end(t, p))).len() ==> line_body(
                t.subrange(p, line_end(t, p)),
            )[i] != '\n',
{
    lemma_line_end(t, p);
    let l = t.subrange(p, line_end(t, p));
    let b = line_body(l);
    assert forall|i: int| 0 <= i < b.len() implies b[i] != '\n' by {
        assert(b[i] == l[i]);
        assert(l[i] == t[p + i]);
        if p + i == line_end(t, p) - 1 {
            assert(line_end(t, p) == t.len());
        }
    }
}

/// A record that can be written back: it is a complete record of its text
/// and its key holds no whitespace.
pub open spec fn writable(t1: Seq<char>, t2: Seq<char>, o: Out) -> bool {
    let t = if o.second {
        t2
    } else {
        t1
    };
    &&& record_complete(t, o.rec.start)
    &&& forall|i: int| 0 <= i < o.rec.key.len() ==> !is_ws(o.rec.key[i])
}

/// The text written for one record reads back as one complete record with
/// the same key, and is exactly that long.
proof fn lemma_written_record_reads_back(t1: Seq<char>, t2: Seq<char>, o: Out, rest: Seq<char>)
    requires
        writable(t1, t2, o),
    ensures
        ({
            let r = out_text(t1, t2, o);
            &&& record_complete(r + rest, 0)
            &&& record_end(r + rest, 0) == r.len()
            &&& pair_key(record_at(r + rest, 0).header) == Some(o.rec.key)
        }),
{
    let r = out_text(t1, t2, o);
    let t = r + rest;
    let src = if o.second {
        t2
    } else {
        t1
    };
    lemma_record_bounds(src, o.rec.start);
    let rd = record_at(src, o.rec.start);
    let bs = line_body(rd.seq);
    let bq = line_body(rd.qscore);
    lemma_line_body_no_newline(src, line_end(src, o.rec.start));
    lemma_line_body_no_newline(src, qual_start(src, o.rec.start));
    let key = o.rec.key;
    let mk = mate_marker(o.second);
    assert(r =~= key + mk + bs + seq!['\n', '+', '\n'] + bq + seq!['\n']);
    let a: int = key.len() + 2int;
    let b: int = a + 1 + bs.len() as int;
    let c: int = b + 2;
    let d: int = c + 1 + bq.len() as int;
    assert(d + 1 == r.len());
    assert forall|i: int| 0 <= i < a implies t[i] != '\n' by {
        if i < key.len() {
            assert(t[i] == key[i]);
        }
    }
    assert forall|i: int| a + 1 <= i < b implies t[i] != '\n' by {
        assert(t[i] == bs[i - a - 1]);
    }
    assert forall|i: int| c + 1 <= i < d implies t[i] != '\n' by {
        assert(t[i] == bq[i - c - 1]);
    }
    lemma_line_end_at(t, 0, a);
    lemma_line_end_at(t, a + 1, b);
    lemma_line_end_at(t, b + 1, c);
    lemma_line_end_at(t, c + 1, d);
    let h = record_at(t, 0).header;
    assert(h =~= key + mk);
    assert forall|m: int| 0 <= m < a implies !is_ws(h[m]) by {
        if m < key.len() {
            assert(h[m] == key[m]);
        }
    }
    lemma_skip_word_at(h, 0, a);
    assert(skip_ws(h, 0) == 0);
    assert(first_token(h) =~= key + mk.subrange(0, 2));
    assert(first_token(h).subrange(0, first_token(h).len() - 2) =~= key);
}

/// The texts written for records of the inputs read back as complete
/// records, as many as were written, with their keys in order.
pub proof fn lemma_written_text_reads_back(t1: Seq<char>, t2: Seq<char>, os: Seq<Out>)
    requires
        forall|i: int| 0 <= i < os.len() ==> writable(t1, t2, #[trigger] os[i]),
    ensures
        scan(outs_text(t1, t2, os), 0).err is None,
        scan(outs_text(t1, t2, os), 0).recs.len() == os.len(),
        forall|i: int|
            0 <= i < os.len() ==> #[trigger] scan(outs_text(t1, t2, os), 0).recs[i].key
                == os[i].rec.key,
    decreases os.len(),
{
    if os.len() == 0 {
        assert(outs_text(t1, t2, os) == Seq::<char>::empty());
    } else {
        lemma_outs_text_front(t1, t2, os);
        let r = out_text(t1, t2, os[0]);
        let rest_os = os.drop_first();
        let rest = outs_text(t1, t2, rest_os);
        assert forall|i: int| 0 <= i < rest_os.len() implies writable(t1, t2, #[trigger] rest_os[i]) by {
            assert(rest_os[i] == os[i + 1]);
        }
        lemma_written_text_reads_back(t1, t2, rest_os);
        lemma_written_record_reads_back(t1, t2, os[0], rest);
        lemma_scan_shift(r, rest, 0);
        let t = r + rest;
        let sc = scan(t, 0);
        assert(t.len() == r.len() + rest.len());
        assert forall|i: int| 0 <= i < os.len() implies #[trigger] sc.recs[i].key == os[i].rec.key by {
            assert(sc.recs =~= seq![Keyed { key: os[0].rec.key, start: 0 }] + scan(t, r.len() as int).recs);
            if i > 0 {
                assert(sc.recs[i] == scan(t, r.len() as int).recs[i - 1]);
                assert(scan(t, r.len() as int).recs[i - 1].key == scan(rest, 0).recs[i - 1].key);
                assert(os[i] == rest_os[i - 1]);
            }
        }
    }
}

/// Every record of `m` is one of `r`.
spec fn within(m: Seq<Keyed>, r: Seq<Keyed>) -> bool {
    forall|i: int| 0 <= i < m.len() ==> r.contains(#[trigger] m[i])
}

/// Every record of `os` is of the same mate.
spec fn all_mate(os: Seq<Out>, second: bool) -> bool {
    forall|i: int| 0 <= i < os.len() ==> (#[trigger] os[i]).second == second
}

proof fn lemma_all_mate_push(os: Seq<Out>, o: Out, second: bool)
    requires
        all_mate(os, second),
        o.second == second,
    ensures
        all_mate(os.push(o), second),
{
    assert forall|i: int| 0 <= i < os.push(o).len() implies (#[trigger] os.push(o)[i]).second == second by {
        if i < os.len() {
            assert(os.push(o)[i] == os[i]);
        }
    }
}

/// Every record of `os` is a record of the input of its mate.
spec fn from_inputs(os: Seq<Out>, r1: Seq<Keyed>, r2: Seq<Keyed>) -> bool {
    forall|i: int|
        0 <= i < os.len() ==> if (#[trigger] os[i]).second {
            r2.contains(os[i].rec)
        } else {
            r1.contains(os[i].rec)
        }
}

proof fn lemma_within_upsert(m: Seq<Keyed>, x: Keyed, r: Seq<Keyed>)
    requires
        within(m, r),
        r.contains(x),
    ensures
        within(upsert(m, x), r),
{
    let u = upsert(m, x);
    assert forall|i: int| 0 <= i < u.len() implies r.contains(#[trigger] u[i]) by {
        if i < m.len() && u[i] != x {
            assert(u[i] == m[i]);
        }
    }
}

proof fn lemma_within_drop_key(m: Seq<Keyed>, k: Seq<char>, r: Seq<Keyed>)
    requires
        within(m, r),
    ensures
        within(drop_key(m, k), r),
{
    if has_key(m, k) {
        let ki = key_index(m, k);
        let w = drop_key(m, k);
        assert forall|i: int| 0 <= i < w.len() implies r.contains(#[trigger] w[i]) by {
            if i < ki {
                assert(w[i] == m[i]);
            } else {
                assert(w[i] == m[i + 1]);
            }
        }
    }
}

proof fn lemma_contains_prefix(r: Seq<Keyed>, n: int, x: Keyed)
    requires
        0 <= n <= r.len(),
        r.take(n).contains(x),
    ensures
        r.contains(x),
{
    let i = choose|i: int| 0 <= i < r.take(n).len() && r.take(n)[i] == x;
    assert(r[i] == x);
}

proof fn lemma_index_of_within(r1: Seq<Keyed>)
    ensures
        within(index_of(r1), r1),
    decreases r1.len(),
{
    if r1.len() > 0 {
        let d = r1.drop_last();
        lemma_index_of_within(d);
        assert(d =~= r1.take(r1.len() - 1));
        assert forall|i: int| 0 <= i < index_of(d).len() implies r1.contains(#[trigger] index_of(d)[i]) by {
            lemma_contains_prefix(r1, r1.len() - 1, index_of(d)[i]);
        }
        assert(r1[r1.len() - 1] == r1.last());
        lemma_within_upsert(index_of(d), r1.last(), r1);
    }
}

proof fn lemma_from_inputs_push(os: Seq<Out>, o: Out, r1: Seq<Keyed>, r2: Seq<Keyed>)
    requires
        from_inputs(os, r1, r2),
        if o.second {
            r2.contains(o.rec)
        } else {
            r1.contains(o.rec)
        },
    ensures
        from_inputs(os.push(o), r1, r2),
{
    assert forall|i: int| 0 <= i < os.push(o).len() implies if (#[trigger] os.push(o)[i]).second {
        r2.contains(os.push(o)[i].rec)
    } else {
        r1.contains(os.push(o)[i].rec)
    } by {
        if i < os.len() {
            assert(os.push(o)[i] == os[i]);
        }
    }
}

/// What streaming writes comes from the index (mate 1) or from the
/// streamed records (mate 2).
proof fn lemma_stream_from_inputs(idx0: Seq<Keyed>, r2: Seq<Keyed>)
    ensures
        within(stream(idx0, r2).idx, idx0),
        from_inputs(stream(idx0, r2).paired1, idx0, r2),
        from_inputs(stream(idx0, r2).paired2, idx0, r2),
        from_inputs(stream(idx0, r2).singles, idx0, r2),
        all_mate(stream(idx0, r2).paired1, false),
        all_mate(stream(idx0, r2).paired2, true),
    decreases r2.len(),
{
    if r2.len() == 0 {
        assert(within(idx0, idx0)) by {
            assert forall|i: int| 0 <= i < idx0.len() implies idx0.contains(#[trigger] idx0[i]) by {}
        }
    } else {
        let d = r2.drop_last();
        lemma_stream_from_inputs(idx0, d);
        let st = stream(idx0, d);
        let r = r2.last();
        assert(d =~= r2.take(r2.len() - 1));
        assert(r2[r2.len() - 1] == r);
        assert forall|os: Seq<Out>| #[trigger] from_inputs(os, idx0, d) implies from_inputs(os, idx0, r2) by {
            assert forall|i: int| 0 <= i < os.len() implies if (#[trigger] os[i]).second {
                r2.contains(os[i].rec)
            } else {
                idx0.contains(os[i].rec)
            } by {
                if os[i].second {
                    lemma_contains_prefix(r2, r2.len() - 1, os[i].rec);
                }
            }
        }
        assert(from_inputs(st.paired1, idx0, r2));
        assert(from_inputs(st.paired2, idx0, r2));
        assert(from_inputs(st.singles, idx0, r2));
        if has_key(st.idx, r.key) {
            let ki = key_index(st.idx, r.key);
            assert(idx0.contains(st.idx[ki]));
            lemma_from_inputs_push(st.paired1, Out { rec: st.idx[ki], second: false }, idx0, r2);
            lemma_from_inputs_push(st.paired2, Out { rec: r, second: true }, idx0, r2);
            lemma_within_drop_key(st.idx, r.key, idx0);
            lemma_all_mate_push(st.paired1, Out { rec: st.idx[ki], second: false }, false);
            lemma_all_mate_push(st.paired2, Out { rec: r, second: true }, true);
        } else {
            lemma_from_inputs_push(st.singles, Out { rec: r, second: true }, idx0, r2);
        }
    }
}

proof fn lemma_from_inputs_mate(m: Seq<Keyed>, second: bool, r1: Seq<Keyed>, r2: Seq<Keyed>)
    requires
        within(m, if second {
            r2
        } else {
            r1
        }),
    ensures
        from_inputs(as_mate(m, second), r1, r2),
{
    let a = as_mate(m, second);
    assert forall|i: int| 0 <= i < a.len() implies if (#[trigger] a[i]).second {
        r2.contains(a[i].rec)
    } else {
        r1.contains(a[i].rec)
    } by {
        assert(a[i].rec == m[i]);
    }
}

proof fn lemma_from_inputs_concat(a: Seq<Out>, b: Seq<Out>, r1: Seq<Keyed>, r2: Seq<Keyed>)
    requires
        from_inputs(a, r1, r2),
        from_inputs(b, r1, r2),
    ensures
        from_inputs(a + b, r1, r2),
{
    assert forall|i: int| 0 <= i < (a + b).len() implies if (#[trigger] (a + b)[i]).second {
        r2.contains((a + b)[i].rec)
    } else {
        r1.contains((a + b)[i].rec)
    } by {
        if i < a.len() {
            assert((a + b)[i] == a[i]);
        } else {
            assert((a + b)[i] == b[i - a.len()]);
        }
    }
}

/// What full-index pairing writes are records of the inputs.
proof fn lemma_full_index_from_inputs(r1: Seq<Keyed>, r2: Seq<Keyed>)
    ensures
        from_inputs(full_index(r1, r2).paired1, r1, r2),
        from_inputs(full_index(r1, r2).paired2, r1, r2),
        from_inputs(full_index(r1, r2).singles, r1, r2),
        all_mate(full_index(r1, r2).paired1, false),
        all_mate(full_index(r1, r2).paired2, true),
{
    let idx0 = index_of(r1);
    lemma_index_of_within(r1);
    lemma_stream_from_inputs(idx0, r2);
    let st = stream(idx0, r2);
    assert forall|os: Seq<Out>| #[trigger] from_inputs(os, idx0, r2) implies from_inputs(os, r1, r2) by {
        assert forall|i: int| 0 <= i < os.len() implies if (#[trigger] os[i]).second {
            r2.contains(os[i].rec)
        } else {
            r1.contains(os[i].rec)
        } by {
            if !os[i].second {
                let j = choose|j: int| 0 <= j < idx0.len() && idx0[j] == os[i].rec;
                assert(r1.contains(idx0[j]));
            }
        }
    }
    assert forall|i: int| 0 <= i < st.idx.len() implies r1.contains(#[trigger] st.idx[i]) by {
        let j = choose|j: int| 0 <= j < idx0.len() && idx0[j] == st.idx[i];
        assert(r1.contains(idx0[j]));
    }
    lemma_from_inputs_mate(st.idx, false, r1, r2);
    lemma_from_inputs_concat(st.singles, as_mate(st.idx, false), r1, r2);
}

proof fn lemma_rounds_from_inputs(r1: Seq<Keyed>, r2: Seq<Keyed>, n: nat)
    ensures
        within(rounds(r1, r2, n).p1, r1),
        within(rounds(r1, r2, n).p2, r2),
        from_inputs(rounds(r1, r2, n).out1, r1, r2),
        from_inputs(rounds(r1, r2, n).out2, r1, r2),
        all_mate(rounds(r1, r2, n).out1, false),
        all_mate(rounds(r1, r2, n).out2, true),
    decreases n,
{
    if n > 0 {
        let m = (n - 1) as nat;
        lemma_rounds_from_inputs(r1, r2, m);
        let st = rounds(r1, r2, m);
        let mid = if m < r1.len() {
            step1(st, r1[m as int])
        } else {
            st
        };
        if m < r1.len() {
            let r = r1[m as int];
            assert(r1.contains(r));
            lemma_within_upsert(st.p1, r, r1);
            let q1 = upsert(st.p1, r);
            if has_key(st.p2, r.key) {
                let ki = key_index(st.p2, r.key);
                assert(r2.contains(st.p2[ki]));
                lemma_within_drop_key(q1, r.key, r1);
                lemma_within_drop_key(st.p2, r.key, r2);
                lemma_from_inputs_push(st.out1, Out { rec: r, second: false }, r1, r2);
                lemma_from_inputs_push(st.out2, Out { rec: st.p2[ki], second: true }, r1, r2);
                lemma_all_mate_push(st.out1, Out { rec: r, second: false }, false);
                lemma_all_mate_push(st.out2, Out { rec: st.p2[ki], second: true }, true);
            }
        }
        if m < r2.len() {
            let r = r2[m as int];
            assert(r2.contains(r));
            lemma_within_upsert(mid.p2, r, r2);
            let q2 = upsert(mid.p2, r);
            if has_key(mid.p1, r.key) {
                let ki = key_index(mid.p1, r.key);
                assert(r1.contains(mid.p1[ki]));
                lemma_within_drop_key(q2, r.key, r2);
                lemma_within_drop_key(mid.p1, r.key, r1);
                lemma_from_inputs_push(mid.out1, Out { rec: mid.p1[ki], second: false }, r1, r2);
                lemma_from_inputs_push(mid.out2, Out { rec: r, second: true }, r1, r2);
                lemma_all_mate_push(mid.out1, Out { rec: mid.p1[ki], second: false }, false);
                lemma_all_mate_push(mid.out2, Out { rec: r, second: true }, true);
            }
        }
    }
}

/// What interleaved pairing writes are records of the inputs.
proof fn lemma_interleaved_from_inputs(r1: Seq<Keyed>, r2: Seq<Keyed>)
    ensures
        from_inputs(interleaved(r1, r2).paired1, r1, r2),
        from_inputs(interleaved(r1, r2).paired2, r1, r2),
        from_inputs(interleaved(r1, r2).singles, r1, r2),
        all_mate(interleaved(r1, r2).paired1, false),
        all_mate(interleaved(r1, r2).paired2, true),
{
    let st = rounds(r1, r2, max_len(r1, r2));
    lemma_rounds_from_inputs(r1, r2, max_len(r1, r2));
    lemma_from_inputs_mate(st.p1, false, r1, r2);
    lemma_from_inputs_mate(st.p2, true, r1, r2);
    lemma_from_inputs_concat(as_mate(st.p1, false), as_mate(st.p2, true), r1, r2);
}

/// Records of the inputs can be written back.
proof fn lemma_inputs_writable(t1: Seq<char>, t2: Seq<char>, os: Seq<Out>)
    requires
        from_inputs(os, records(t1), records(t2)),
    ensures
        forall|i: int| 0 <= i < os.len() ==> writable(t1, t2, #[trigger] os[i]),
{
    lemma_scan_records(t1, 0);
    lemma_scan_records(t2, 0);
    assert forall|i: int| 0 <= i < os.len() implies writable(t1, t2, #[trigger] os[i]) by {
        if os[i].second {
            let rs = scan(t2, 0).recs;
            let j = choose|j: int| 0 <= j < rs.len() && rs[j] == os[i].rec;
            assert(record_complete(t2, rs[j].start));
            assert(pair_key(record_at(t2, rs[j].start).header) == Some(rs[j].key));
            let h = record_at(t2, rs[j].start).header;
            lemma_key_has_no_ws(h);
            assert(rs[j] == os[i].rec);
            let k = os[i].rec.key;
            assert forall|m: int| 0 <= m < k.len() implies !is_ws(k[m]) by {
                assert(k[m] == pair_key(h)->0[m]);
            }
        } else {
            let rs = scan(t1, 0).recs;
            let j = choose|j: int| 0 <= j < rs.len() && rs[j] == os[i].rec;
            assert(record_complete(t1, rs[j].start));
            assert(pair_key(record_at(t1, rs[j].start).header) == Some(rs[j].key));
            let h = record_at(t1, rs[j].start).header;
            lemma_key_has_no_ws(h);
            assert(rs[j] == os[i].rec);
            let k = os[i].rec.key;
            assert forall|m: int| 0 <= m < k.len() implies !is_ws(k[m]) by {
                assert(k[m] == pair_key(h)->0[m]);
            }
        }
    }
}

/// Each text that a pairing writes (paired or not) reads back as complete
/// four-line records, as many as it wrote, with the keys it wrote in
/// order; for every strategy.
pub proof fn lemma_outputs_read_back(t1: Seq<char>, t2: Seq<char>)
    ensures
        ({
            let mf = full_index(records(t1), records(t2));
            let mi = interleaved(records(t1), records(t2));
            &&& reads_back(t1, t2, mf.paired1)
            &&& reads_back(t1, t2, mf.paired2)
            &&& reads_back(t1, t2, mf.singles)
            &&& reads_back(t1, t2, mi.paired1)
            &&& reads_back(t1, t2, mi.paired2)
            &&& reads_back(t1, t2, mi.singles)
        }),
{
    let r1 = records(t1);
    let r2 = records(t2);
    let mf = full_index(r1, r2);
    let mi = interleaved(r1, r2);
    lemma_full_index_from_inputs(r1, r2);
    lemma_interleaved_from_inputs(r1, r2);
    lemma_inputs_writable(t1, t2, mf.paired1);
    lemma_inputs_writable(t1, t2, mf.paired2);
    lemma_inputs_writable(t1, t2, mf.singles);
    lemma_inputs_writable(t1, t2, mi.paired1);
    lemma_inputs_writable(t1, t2, mi.paired2);
    lemma_inputs_writable(t1, t2, mi.singles);
    lemma_written_text_reads_back(t1, t2, mf.paired1);
    lemma_written_text_reads_back(t1, t2, mf.paired2);
    lemma_written_text_reads_back(t1, t2, mf.singles);
    lemma_written_text_reads_back(t1, t2, mi.paired1);
    lemma_written_text_reads_back(t1, t2, mi.paired2);
    lemma_written_text_reads_back(t1, t2, mi.singles);
}

/// The text written for `os` holds complete records and nothing else,
/// one per entry of `os`, with its key.
pub open spec fn reads_back(t1: Seq<char>, t2: Seq<char>, os: Seq<Out>) -> bool {
    let sc = scan(outs_text(t1, t2, os), 0);
    &&& sc.err is None
    &&& sc.recs.len() == os.len()
    &&& forall|i: int| 0 <= i < os.len() ==> #[trigger] sc.recs[i].key == os[i].rec.key
}

} // verus!
