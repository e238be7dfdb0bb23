//! The host-table line grammar: `<address> <name>` with optional surrounding white space.

use vstd::prelude::*;
use crate::address::{address_ok, is_address};

verus! {

/// The Unicode `White_Space` characters (the class of `\s` and of `char::is_whitespace`).
pub open spec fn is_space(c: char) -> bool {
    ||| '\u{9}' <= c <= '\u{d}'
    ||| c == ' '
    ||| c == '\u{85}'
    ||| c == '\u{a0}'
    ||| c == '\u{1680}'
    ||| '\u{2000}' <= c <= '\u{200a}'
    ||| c == '\u{2028}'
    ||| c == '\u{2029}'
    ||| c == '\u{202f}'
    ||| c == '\u{205f}'
    ||| c == '\u{3000}'
}

/// ASCII letters and digits.
pub open spec fn is_alnum(c: char) -> bool {
    ||| 'a' <= c <= 'z'
    ||| 'A' <= c <= 'Z'
    ||| '0' <= c <= '9'
}

pub fn space(c: char) -> (r: bool)
    ensures
        r == is_space(c),
{
    ('\u{9}' <= c && c <= '\u{d}') || c == ' ' || c == '\u{85}' || c == '\u{a0}' || c == '\u{1680}'
        || ('\u{2000}' <= c && c <= '\u{200a}') || c == '\u{2028}' || c == '\u{2029}'
        || c == '\u{202f}' || c == '\u{205f}' || c == '\u{3000}'
}

pub fn alnum(c: char) -> (r: bool)
    ensures
        r == is_alnum(c),
{
    ('a' <= c && c <= 'z') || ('A' <= c && c <= 'Z') || ('0' <= c && c <= '9')
}


pub open spec fn is_name_char(c: char) -> bool {
    is_alnum(c) || c == '-' || c == '.'
}

/// The number of characters since the last `.` (or the start) before position `i`:
/// the length of the label that ends at `i`.
pub open spec fn label_run(s: Seq<char>, i: int) -> nat
    decreases i,
{
    if i <= 0 || i > s.len() || s[i - 1] == '.' {
        0
    } else {
        1 + label_run(s, i - 1)
    }
}

/// A DNS name: labels joined by `.`, each label 1 to 63 characters of letters, digits
/// and `-` that begins and ends with a letter or digit.
pub open spec fn is_name(s: Seq<char>) -> bool {
    &&& s.len() > 0
    &&& is_alnum(s[0])
    &&& is_alnum(s[s.len() - 1])
    &&& forall|i: int| 0 <= i < s.len() ==> #[trigger] is_name_char(s[i])
    &&& forall|i: int|
        0 < i < s.len() - 1 && #[trigger] s[i] == '.' ==> is_alnum(s[i - 1]) && is_alnum(s[i + 1])
    &&& forall|i: int| 0 <= i <= s.len() ==> #[trigger] label_run(s, i) <= 63
}

/// The first position at or after `i` that is not white space (or the end).
pub open spec fn space_end(s: Seq<char>, i: int) -> int
    decreases s.len() - i,
{
    if i < 0 || i >= s.len() || !is_space(s[i]) {
        i
    } else {
        space_end(s, i + 1)
    }
}

/// The first position at or after `i` that is white space (or the end).
pub open spec fn token_end(s: Seq<char>, i: int) -> int
    decreases s.len() - i,
{
    if i < 0 || i >= s.len() || is_space(s[i]) {
        i
    } else {
        token_end(s, i + 1)
    }
}

/// A host line `^\s*<address>\s+<name>\s*$`, read as `Some((name, address))`;
/// `None` for any other line.
pub open spec fn parse_line(s: Seq<char>) -> Option<(Seq<char>, Seq<char>)> {
    let a0 = space_end(s, 0);
    let a1 = token_end(s, a0);
    let n0 = space_end(s, a1);
    let n1 = token_end(s, n0);
    if a1 < n0 && space_end(s, n1) == s.len() && is_address(s.subrange(a0, a1)) && is_name(
        s.subrange(n0, n1),
    ) {
        Some((s.subrange(n0, n1), s.subrange(a0, a1)))
    } else {
        None
    }
}


/// Relies on `String::push`: the character is appended at the end.
#[verifier::external_body]
fn push_char(s: &mut String, c: char)
    ensures
        final(s)@ == old(s)@.push(c),
{
    s.push(c)
}

/// The characters of `s`, in order.
pub fn chars_of(s: &str) -> (r: Vec<char>)
    ensures
        r@ == s@,
{
    let mut r: Vec<char> = Vec::new();
    for c in it: s.chars()
        invariant
            r@ == it.seq().take(it.index() as int),
            it.seq() == s@,
    {
        r.push(c);
    }
    r
}

/// A `String` holding the characters `cs`.
pub fn string_of(cs: &Vec<char>) -> (r: String)
    ensures
        r@ == cs@,
{
    let mut r = String::new();
    let mut i: usize = 0;
    while i < cs.len()
        invariant
            i <= cs.len(),
            r@ == cs@.take(i as int),
        decreases cs.len() - i,
    {
        push_char(&mut r, cs[i]);
        i += 1;
        assert(r@ =~= cs@.take(i as int));
    }
    assert(r@ =~= cs@);
    r
}


/// The characters of `s` from `lo` up to `hi`.
pub(crate) fn slice(s: &Vec<char>, lo: usize, hi: usize) -> (r: Vec<char>)
    requires
        lo <= hi <= s.len(),
    ensures
        r@ == s@.subrange(lo as int, hi as int),
{
    let mut r: Vec<char> = Vec::new();
    let mut i: usize = lo;
    while i < hi
        invariant
            lo <= i <= hi <= s.len(),
            r@ == s@.subrange(lo as int, i as int),
        decreases hi - i,
    {
        r.push(s[i]);
        i += 1;
        assert(r@ =~= s@.subrange(lo as int, i as int));
    }
    r
}

fn skip_spaces(s: &Vec<char>, i: usize) -> (r: usize)
    requires
        i <= s.len(),
    ensures
        r == space_end(s@, i as int),
        i <= r <= s.len(),
{
    let mut j: usize = i;
    while j < s.len() && space(s[j])
        invariant
            i <= j <= s.len(),
            space_end(s@, i as int) == space_end(s@, j as int),
        decreases s.len() - j,
    {
        j += 1;
    }
    j
}

fn skip_token(s: &Vec<char>, i: usize) -> (r: usize)
    requires
        i <= s.len(),
    ensures
        r == token_end(s@, i as int),
        i <= r <= s.len(),
{
    let mut j: usize = i;
    while j < s.len() && !space(s[j])
        invariant
            i <= j <= s.len(),
            token_end(s@, i as int) == token_end(s@, j as int),
        decreases s.len() - j,
    {
        j += 1;
    }
    j
}

pub fn name_ok(s: &Vec<char>) -> (r: bool)
    ensures
        r == is_name(s@),
{
    let n = s.len();
    if n == 0 || !alnum(s[0]) || !alnum(s[n - 1]) {
        return false;
    }
    let mut run: usize = 0;
    let mut i: usize = 0;
    assert(label_run(s@, 0) == 0);
    while i < n
        invariant
            n == s.len(),
            n > 0,
            is_alnum(s@[0]),
            is_alnum(s@[n - 1]),
            i <= n,
            run == label_run(s@, i as int),
            forall|k: int| 0 <= k < i ==> #[trigger] is_name_char(s@[k]),
            forall|k: int|
                0 < k < i && k < n - 1 && #[trigger] s@[k] == '.' ==> is_alnum(s@[k - 1])
                    && is_alnum(s@[k + 1]),
            forall|k: int| 0 <= k <= i ==> #[trigger] label_run(s@, k) <= 63,
        decreases n - i,
    {
        let c = s[i];
        if !(alnum(c) || c == '-' || c == '.') {
            assert(!is_name_char(s@[i as int]));
            return false;
        }
        assert(label_run(s@, i + 1) == if c == '.' { 0 } else { 1 + label_run(s@, i as int) });
        if c == '.' {
            if 0 < i && i + 1 < n && !(alnum(s[i - 1]) && alnum(s[i + 1])) {
                return false;
            }
            run = 0;
        } else {
            if run >= 63 {
                return false;
            }
            run += 1;
        }
        i += 1;
    }
    true
}

/// Reads one host line: `Some((name, address))` when it has the form `<address> <name>`.
pub fn match_line(s: &Vec<char>) -> (r: Option<(String, String)>)
    ensures
        match r {
            Some(p) => parse_line(s@) == Some((p.0@, p.1@)),
            None => parse_line(s@) is None,
        },
{
    let a0 = skip_spaces(s, 0);
    let a1 = skip_token(s, a0);
    let n0 = skip_spaces(s, a1);
    let n1 = skip_token(s, n0);
    let e = skip_spaces(s, n1);
    if a1 < n0 && e == s.len() {
        let address = slice(s, a0, a1);
        let name = slice(s, n0, n1);
        if address_ok(&address) && name_ok(&name) {
            return Some((string_of(&name), string_of(&address)));
        }
    }
    None
}

} // verus!
