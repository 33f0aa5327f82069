//! In-memory character source with a read position, and the four-line
//! record layout read from it.
use vstd::prelude::*;
use vstd::string::*;
use vstd::std_specs::iter::IteratorSpec;
use crate::header::{trim, trimmed};

verus! {

/// Where the line that starts at `p` ends: just past its `'\n'`, or at the
/// end of the text when the line is not terminated. At or past the end of
/// the text nothing is read and the position stays `p`.
pub open spec fn line_end(t: Seq<char>, p: int) -> int
    decreases t.len() - p,
{
    if p < 0 || p >= t.len() {
        p
    } else if t[p] == '\n' {
        p + 1
    } else {
        line_end(t, p + 1)
    }
}

/// Where the separator line of the record at `p` starts.
pub open spec fn sep_start(t: Seq<char>, p: int) -> int {
    line_end(t, line_end(t, p))
}

/// Where the quality line of the record at `p` starts.
pub open spec fn qual_start(t: Seq<char>, p: int) -> int {
    line_end(t, sep_start(t, p))
}

/// Where reading the four lines of a record at `p` stops.
pub open spec fn record_end(t: Seq<char>, p: int) -> int {
    line_end(t, qual_start(t, p))
}

/// All four lines of a record are there: the text goes on past the
/// separator line, so a quality line starts before its end (it may hold
/// nothing but its `'\n'`).
pub open spec fn record_complete(t: Seq<char>, p: int) -> bool {
    0 <= p && qual_start(t, p) < t.len()
}

/// The lines of one record, each with its terminator; the separator is
/// left out.
pub struct RecordView {
    pub header: Seq<char>,
    pub seq: Seq<char>,
    pub qscore: Seq<char>,
}

/// The record whose header line starts at `p`.
pub open spec fn record_at(t: Seq<char>, p: int) -> RecordView {
    RecordView {
        header: t.subrange(p, line_end(t, p)),
        seq: t.subrange(line_end(t, p), sep_start(t, p)),
        qscore: t.subrange(qual_start(t, p), record_end(t, p)),
    }
}

/// A line without its trailing `'\n'`.
pub open spec fn line_body(l: Seq<char>) -> Seq<char> {
    if l.len() > 0 && l.last() == '\n' {
        l.drop_last()
    } else {
        l
    }
}

/// A line read from `p` ends after `p`, within the text, just past a
/// `'\n'` or at the end of the text, and holds no other `'\n'`.
pub proof fn lemma_line_end(t: Seq<char>, p: int)
    requires
        0 <= p,
    ensures
        p <= line_end(t, p),
        p <= t.len() ==> line_end(t, p) <= t.len(),
        p < t.len() ==> p < line_end(t, p),
        p < t.len() ==> line_end(t, p) == t.len() || t[line_end(t, p) - 1] == '\n',
        forall|i: int| p <= i < line_end(t, p) - 1 ==> t[i] != '\n',
    decreases t.len() - p,
{
    if p < t.len() && t[p] != '\n' {
        lemma_line_end(t, p + 1);
    }
}

/// Facts on the positions of the four lines of the record at `p`.
pub proof fn lemma_record_bounds(t: Seq<char>, p: int)
    requires
        0 <= p <= t.len(),
    ensures
        p <= line_end(t, p) <= sep_start(t, p) <= qual_start(t, p) <= record_end(t, p) <= t.len(),
        p < t.len() ==> p < record_end(t, p),
        record_complete(t, p) ==> qual_start(t, p) < record_end(t, p),
{
    lemma_line_end(t, p);
    lemma_line_end(t, line_end(t, p));
    lemma_line_end(t, sep_start(t, p));
    lemma_line_end(t, qual_start(t, p));
}

/// The characters of `s`, in order.
pub(crate) fn chars_of(s: &str) -> (r: Vec<char>)
    ensures
        r@ == s@,
{
    broadcast use vstd::string::axiom_spec_iter, vstd::string::next_postcondition;

    let mut it = s.chars();
    let mut v: Vec<char> = Vec::new();
    loop
        invariant
            v@ + it.remaining() == s@,
            it.decrease() is Some,
        decreases it.decrease()->0,
    {
        match it.next() {
            Some(c) => {
                proof {
                    assert(v@.push(c) + it.remaining() =~= s@);
                }
                v.push(c);
            },
            None => {
                proof {
                    assert(v@ =~= s@);
                }
                return v;
            },
        }
    }
}

/// Relies on collecting a slice's characters into a `String`: the same
/// characters in order.
#[verifier::external_body]
pub(crate) fn string_of(chars: &[char]) -> (r: String)
    ensures
        r@ == chars@,
{
    chars.iter().collect()
}

/// A string made of the characters `from..to` of `v`.
pub fn substring(v: &Vec<char>, from: usize, to: usize) -> (r: String)
    requires
        from <= to <= v@.len(),
    ensures
        r@ == v@.subrange(from as int, to as int),
{
    let mut part: Vec<char> = Vec::new();
    let mut i: usize = from;
    while i < to
        invariant
            from <= i <= to <= v@.len(),
            part@ == v@.subrange(from as int, i as int),
        decreases to - i,
    {
        part.push(v[i]);
        i = i + 1;
        proof {
            assert(part@ =~= v@.subrange(from as int, i as int));
        }
    }
    string_of(part.as_slice())
}

/// A line without its trailing `'\n'`.
pub(crate) fn body_of(s: &str) -> (r: &str)
    ensures
        r@ == line_body(s@),
{
    let n = s.unicode_len();
    if n > 0 && s.get_char(n - 1) == '\n' {
        s.substring_char(0, n - 1)
    } else {
        s
    }
}

/// A whole text held in memory, read sequentially from a position that can
/// be moved.
pub struct Source {
    text: Vec<char>,
    pos: usize,
}

/// What one attempt to read a record gives.
#[derive(Debug)]
pub enum Scan {
    /// All four lines were there.
    Complete(Read),
    /// Nothing was left to read.
    Eof,
    /// The text ended after the header line but before the quality line.
    Truncated,
}

/// One record of a FASTQ text; each field keeps its line terminator.
#[derive(Debug)]
pub struct Read {
    pub header: String,
    pub seq: String,
    pub qscore: String,
}

impl View for Read {
    type V = RecordView;

    open spec fn view(&self) -> RecordView {
        RecordView { header: self.header@, seq: self.seq@, qscore: self.qscore@ }
    }
}

impl Read {
    /// A record with three empty lines.
    pub fn new() -> (r: Read)
        ensures
            r.header@ == Seq::<char>::empty(),
            r.seq@ == Seq::<char>::empty(),
            r.qscore@ == Seq::<char>::empty(),
    {
        Read { header: String::new(), seq: String::new(), qscore: String::new() }
    }

    /// The record as four lines: its header, its sequence, a bare `+`, and
    /// its quality line; each field without whitespace at either end, and
    /// each line ended by a single `'\n'`.
    pub fn to_fastq(&self) -> (r: String)
        ensures
            r@ == trimmed(self.header@) + seq!['\n'] + trimmed(self.seq@) + seq!['\n', '+', '\n']
                + trimmed(self.qscore@) + seq!['\n'],
    {
        let mut out = String::new();
        out.append(trim(self.header.as_str()).as_str());
        out.append("\n");
        out.append(trim(self.seq.as_str()).as_str());
        out.append("\n+\n");
        out.append(trim(self.qscore.as_str()).as_str());
        out.append("\n");
        proof {
            reveal_strlit("\n");
            reveal_strlit("\n+\n");
            assert(out@ =~= trimmed(self.header@) + seq!['\n'] + trimmed(self.seq@) + seq![
                '\n',
                '+',
                '\n',
            ] + trimmed(self.qscore@) + seq!['\n']);
        }
        out
    }
}

impl Source {
    /// The whole text.
    pub closed spec fn text(&self) -> Seq<char> {
        self.text@
    }

    /// The read position, counted in characters.
    pub closed spec fn pos(&self) -> int {
        self.pos as int
    }

    /// A read position is never negative.
    pub proof fn lemma_pos_nonneg(&self)
        ensures
            0 <= self.pos(),
    {
    }

    /// A source over `s`, positioned at its start.
    pub fn new(s: &str) -> (r: Source)
        ensures
            r.text() == s@,
            r.pos() == 0,
    {
        Source { text: chars_of(s), pos: 0 }
    }

    /// The number of characters in the text.
    pub fn len(&self) -> (r: usize)
        ensures
            r == self.text().len(),
    {
        self.text.len()
    }

    /// The characters `from..to` of the text.
    pub fn substring(&self, from: usize, to: usize) -> (r: String)
        requires
            from <= to <= self.text().len(),
        ensures
            r@ == self.text().subrange(from as int, to as int),
    {
        substring(&self.text, from, to)
    }

    /// The current read position.
    pub fn tell(&self) -> (r: usize)
        ensures
            r == self.pos(),
    {
        self.pos
    }

    /// Moves the read position to `pos`.
    pub fn seek(&mut self, pos: usize)
        ensures
            final(self).text() == old(self).text(),
            final(self).pos() == pos,
    {
        self.pos = pos;
    }

    /// Reads one line, terminator included, and returns where it started.
    /// At the end of the text nothing is read.
    pub fn read_line(&mut self) -> (r: usize)
        ensures
            r == old(self).pos(),
            final(self).text() == old(self).text(),
            final(self).pos() == line_end(old(self).text(), old(self).pos()),
    {
        let start = self.pos;
        let mut i: usize = self.pos;
        while i < self.text.len() && self.text[i] != '\n'
            invariant
                start <= i,
                i <= self.text@.len() || i == start,
                line_end(self.text@, i as int) == line_end(self.text@, start as int),
            decreases self.text@.len() - i,
        {
            i = i + 1;
        }
        if i < self.text.len() {
            i = i + 1;
        }
        self.pos = i;
        start
    }

    /// Reads the four lines of the next record.
    pub fn next_record(&mut self) -> (r: Scan)
        ensures
            final(self).text() == old(self).text(),
            ({
                let t = old(self).text();
                let p = old(self).pos();
                &&& p >= t.len() ==> r is Eof && final(self).pos() == p
                &&& record_complete(t, p) ==> (r matches Scan::Complete(rd) && rd@ == record_at(t, p)
                    && final(self).pos() == record_end(t, p))
                &&& p < t.len() && !record_complete(t, p) ==> r is Truncated && final(self).pos()
                    == record_end(t, p)
            }),
    {
        let ghost t = self.text@;
        if self.pos >= self.text.len() {
            return Scan::Eof;
        }
        let p = self.pos;
        self.read_line();
        let l1 = self.pos;
        self.read_line();
        let l2 = self.pos;
        self.read_line();
        let l3 = self.pos;
        self.read_line();
        let l4 = self.pos;
        proof {
            lemma_record_bounds(t, p as int);
        }
        if l3 >= self.text.len() {
            return Scan::Truncated;
        }
        let header = substring(&self.text, p, l1);
        let seq = substring(&self.text, l1, l2);
        let qscore = substring(&self.text, l3, l4);
        Scan::Complete(Read { header, seq, qscore })
    }
}

/// Reads the next record from `input`; `None` at the end of the text and
/// also when the text ends inside a record.
pub fn parse_read(input: &mut Source) -> (r: Option<Read>)
    ensures
        final(input).text() == old(input).text(),
        ({
            let t = old(input).text();
            let p = old(input).pos();
            &&& record_complete(t, p) ==> (r matches Some(rd) && rd@ == record_at(t, p)
                && final(input).pos() == record_end(t, p))
            &&& !record_complete(t, p) ==> r is None
            &&& p >= t.len() ==> final(input).pos() == p
        }),
{
    match input.next_record() {
        Scan::Complete(rd) => Some(rd),
        _ => None,
    }
}

} // verus!
