//! The pairing key carried by a header line.
use vstd::prelude::*;
use crate::text::{chars_of, substring};
use crate::PairError;

verus! {

/// The characters that `char::is_whitespace` accepts: Unicode `White_Space`.
pub open spec fn is_ws(c: char) -> bool {
    let u = c as u32;
    (0x9 <= u && u <= 0xD) || u == 0x20 || u == 0x85 || u == 0xA0 || u == 0x1680 || (0x2000 <= u
        && u <= 0x200A) || u == 0x2028 || u == 0x2029 || u == 0x202F || u == 0x205F || u == 0x3000
}

/// Whether `c` is whitespace, as `char::is_whitespace` decides.
pub fn is_whitespace(c: char) -> (r: bool)
    ensures
        r == is_ws(c),
{
    let u = c as u32;
    (0x9 <= u && u <= 0xD) || u == 0x20 || u == 0x85 || u == 0xA0 || u == 0x1680 || (0x2000 <= u
        && u <= 0x200A) || u == 0x2028 || u == 0x2029 || u == 0x202F || u == 0x205F || u == 0x3000
}

/// The first position at or after `i` that is not whitespace.
pub open spec fn skip_ws(h: Seq<char>, i: int) -> int
    decreases h.len() - i,
{
    if i < 0 || i >= h.len() {
        i
    } else if is_ws(h[i]) {
        skip_ws(h, i + 1)
    } else {
        i
    }
}

/// The position just past the last character before `j` that is not
/// whitespace; 0 when there is none.
pub open spec fn trim_back(h: Seq<char>, j: int) -> int
    decreases j,
{
    if j <= 0 {
        0
    } else if j <= h.len() && is_ws(h[j - 1]) {
        trim_back(h, j - 1)
    } else {
        j
    }
}

/// `h` without whitespace at either end, as `str::trim` gives it.
pub open spec fn trimmed(h: Seq<char>) -> Seq<char> {
    let a = skip_ws(h, 0);
    let b = trim_back(h, h.len() as int);
    if a < b {
        h.subrange(a, b)
    } else {
        Seq::empty()
    }
}

/// `s` without whitespace at either end.
pub fn trim(s: &str) -> (r: String)
    ensures
        r@ == trimmed(s@),
{
    let h = chars_of(s);
    let mut a: usize = 0;
    while a < h.len() && is_whitespace(h[a])
        invariant
            a <= h@.len(),
            skip_ws(h@, a as int) == skip_ws(h@, 0),
        decreases h@.len() - a,
    {
        a = a + 1;
    }
    let mut b: usize = h.len();
    while b > 0 && is_whitespace(h[b - 1])
        invariant
            b <= h@.len(),
            trim_back(h@, b as int) == trim_back(h@, h@.len() as int),
        decreases b,
    {
        b = b - 1;
    }
    if a < b {
        substring(&h, a, b)
    } else {
        String::new()
    }
}

/// The first position at or after `i` that is whitespace, or the end.
pub open spec fn skip_word(h: Seq<char>, i: int) -> int
    decreases h.len() - i,
{
    if i < 0 || i >= h.len() {
        i
    } else if is_ws(h[i]) {
        i
    } else {
        skip_word(h, i + 1)
    }
}

/// The first whitespace-delimited token of `h`; empty when there is none.
pub open spec fn first_token(h: Seq<char>) -> Seq<char> {
    h.subrange(skip_ws(h, 0), skip_word(h, skip_ws(h, 0)))
}

/// The pairing key of a header: its first token without the last two
/// characters (the mate marker). None when that token is shorter than two
/// characters or missing.
pub open spec fn pair_key(h: Seq<char>) -> Option<Seq<char>> {
    let tok = first_token(h);
    if tok.len() < 2 {
        None
    } else {
        Some(tok.subrange(0, tok.len() - 2))
    }
}

/// Key extraction on characters.
fn key_of_chars(h: &Vec<char>) -> (r: Result<String, PairError>)
    ensures
        match pair_key(h@) {
            Some(k) => r matches Ok(s) && s@ == k,
            None => r matches Err(e) && e is MalformedHeader,
        },
{
    let mut s: usize = 0;
    while s < h.len() && is_whitespace(h[s])
        invariant
            s <= h@.len(),
            skip_ws(h@, s as int) == skip_ws(h@, 0),
        decreases h@.len() - s,
    {
        s = s + 1;
    }
    let mut e: usize = s;
    while e < h.len() && !is_whitespace(h[e])
        invariant
            s <= e <= h@.len(),
            skip_word(h@, e as int) == skip_word(h@, s as int),
        decreases h@.len() - e,
    {
        e = e + 1;
    }
    if e - s < 2 {
        return Err(PairError::MalformedHeader);
    }
    proof {
        assert(h@.subrange(s as int, e as int).subrange(0, (e - s) - 2) =~= h@.subrange(
            s as int,
            e - 2,
        ));
    }
    Ok(substring(h, s, e - 2))
}

/// Parses a header and returns its pairing key: the first
/// whitespace-delimited token without its last two characters.
pub fn parse_header(header: &str) -> (r: Result<String, PairError>)
    ensures
        match pair_key(header@) {
            Some(k) => r matches Ok(s) && s@ == k,
            None => r matches Err(e) && e is MalformedHeader,
        },
{
    let h = chars_of(header);
    key_of_chars(&h)
}

/// The pairing key of a header line, or nothing when it has none: the
/// same key as `parse_header` gives.
pub fn trim_header(full_header: &str) -> (r: Option<String>)
    ensures
        match pair_key(full_header@) {
            Some(k) => r matches Some(s) && s@ == k,
            None => r is None,
        },
{
    match parse_header(full_header) {
        Ok(k) => Some(k),
        Err(_) => None,
    }
}

} // verus!
