//! Address literals of host lines: IPv4 dotted quads and IPv6 colon-hexadecimal forms.

use vstd::prelude::*;
use crate::grammar::slice;

verus! {

pub open spec fn is_digit(c: char) -> bool {
    '0' <= c <= '9'
}

pub open spec fn is_hex_digit(c: char) -> bool {
    is_digit(c) || 'a' <= c <= 'f' || 'A' <= c <= 'F'
}

/// Characters that an address literal may hold: hexadecimal digits, `.` and `:`.
pub open spec fn is_address_char(c: char) -> bool {
    is_hex_digit(c) || c == '.' || c == ':'
}

/// The text cut at each `sep`; `split(s, sep).len()` is one more than the number of `sep`.
pub open spec fn split(s: Seq<char>, sep: char) -> Seq<Seq<char>>
    decreases s.len(),
{
    if s.len() == 0 {
        seq![Seq::<char>::empty()]
    } else {
        let init = split(s.drop_last(), sep);
        if s.last() == sep {
            init.push(Seq::<char>::empty())
        } else {
            init.update(init.len() - 1, init.last().push(s.last()))
        }
    }
}

pub open spec fn digit_value(c: char) -> nat {
    ((c as u32) - ('0' as u32)) as nat
}

/// The value of a run of decimal digits.
pub open spec fn decimal_value(g: Seq<char>) -> nat
    decreases g.len(),
{
    if g.len() == 0 {
        0
    } else {
        decimal_value(g.drop_last()) * 10 + digit_value(g.last())
    }
}

/// A decimal octet: 0 to 255, written without leading zeros.
pub open spec fn is_octet(g: Seq<char>) -> bool {
    &&& 1 <= g.len() <= 3
    &&& forall|i: int| 0 <= i < g.len() ==> #[trigger] is_digit(g[i])
    &&& (g.len() == 1 || g[0] != '0')
    &&& decimal_value(g) <= 255
}

/// An IPv4 literal: four octets joined by `.`.
pub open spec fn is_ipv4(s: Seq<char>) -> bool {
    let ps = split(s, '.');
    &&& ps.len() == 4
    &&& forall|i: int| 0 <= i < 4 ==> #[trigger] is_octet(ps[i])
}

/// A 16-bit group of an IPv6 literal: one to four hexadecimal digits.
pub open spec fn is_group(g: Seq<char>) -> bool {
    &&& 1 <= g.len() <= 4
    &&& forall|i: int| 0 <= i < g.len() ==> #[trigger] is_hex_digit(g[i])
}

/// How many 16-bit groups a run `g:g:...:g` stands for, where (with `tail`) the last
/// piece may be an IPv4 literal, worth two groups. The empty run stands for none;
/// `None` when the run is malformed.
pub open spec fn group_count(x: Seq<char>, tail: bool) -> Option<nat> {
    let ps = split(x, ':');
    if x.len() == 0 {
        Some(0)
    } else if forall|i: int| 0 <= i < ps.len() - 1 ==> #[trigger] is_group(ps[i]) {
        if is_group(ps.last()) {
            Some(ps.len())
        } else if tail && is_ipv4(ps.last()) {
            Some(ps.len() + 1)
        } else {
            None
        }
    } else {
        None
    }
}

/// The first position at or after `i` where `::` starts (or the length of `s`).
pub open spec fn double_colon_from(s: Seq<char>, i: int) -> int
    decreases s.len() - i,
{
    if i < 0 || i + 1 >= s.len() {
        s.len() as int
    } else if s[i] == ':' && s[i + 1] == ':' {
        i
    } else {
        double_colon_from(s, i + 1)
    }
}

/// An IPv6 literal: eight groups, or fewer around one `::` that stands for the missing
/// ones (at least one); the last two groups may be written as an IPv4 literal.
pub open spec fn is_ipv6(s: Seq<char>) -> bool {
    let d = double_colon_from(s, 0);
    if d >= s.len() {
        group_count(s, true) == Some(8nat)
    } else {
        let l = group_count(s.subrange(0, d), false);
        let r = group_count(s.subrange(d + 2, s.len() as int), true);
        l is Some && r is Some && l->0 + r->0 <= 7
    }
}

/// The address of a host line: an IPv4 or IPv6 literal.
pub open spec fn is_address(s: Seq<char>) -> bool {
    &&& s.len() > 0
    &&& forall|i: int| 0 <= i < s.len() ==> #[trigger] is_address_char(s[i])
    &&& (is_ipv4(s) || is_ipv6(s))
}

pub open spec fn views(v: Seq<Vec<char>>) -> Seq<Seq<char>> {
    v.map_values(|p: Vec<char>| p@)
}

/// The pieces of `s` between the occurrences of `sep`.
fn split_chars(s: &Vec<char>, sep: char) -> (r: Vec<Vec<char>>)
    ensures
        views(r@) == split(s@, sep),
        r.len() >= 1,
{
    let mut done: Vec<Vec<char>> = Vec::new();
    let mut cur: Vec<char> = Vec::new();
    let mut i: usize = 0;
    assert(s@.take(0) =~= Seq::<char>::empty());
    assert(views(done@).push(cur@) =~= seq![Seq::<char>::empty()]);
    while i < s.len()
        invariant
            i <= s.len(),
            split(s@.take(i as int), sep) == views(done@).push(cur@),
        decreases s.len() - i,
    {
        let c = s[i];
        assert(s@.take(i + 1).drop_last() =~= s@.take(i as int));
        assert(s@.take(i + 1).last() == c);
        if c == sep {
            let ghost before = views(done@).push(cur@);
            done.push(cur);
            cur = Vec::new();
            assert(views(done@).push(cur@) =~= before.push(Seq::<char>::empty()));
        } else {
            let ghost before = views(done@).push(cur@);
            cur.push(c);
            assert(views(done@).push(cur@) =~= before.update(before.len() - 1, before.last().push(c)));
        }
        i += 1;
    }
    assert(s@.take(i as int) =~= s@);
    let ghost before = views(done@).push(cur@);
    done.push(cur);
    assert(views(done@) =~= before);
    done
}

fn digit(c: char) -> (r: bool)
    ensures
        r == is_digit(c),
{
    '0' <= c && c <= '9'
}

fn hex_digit(c: char) -> (r: bool)
    ensures
        r == is_hex_digit(c),
{
    ('0' <= c && c <= '9') || ('a' <= c && c <= 'f') || ('A' <= c && c <= 'F')
}

fn octet_ok(g: &Vec<char>) -> (r: bool)
    ensures
        r == is_octet(g@),
{
    if g.len() == 0 || g.len() > 3 || (g.len() > 1 && g[0] == '0') {
        return false;
    }
    let mut v: u32 = 0;
    let mut i: usize = 0;
    assert(g@.take(0) =~= Seq::<char>::empty());
    while i < g.len()
        invariant
            i <= g.len() <= 3,
            v == decimal_value(g@.take(i as int)),
            v < (if i == 0 { 1int } else if i == 1 { 10 } else if i == 2 { 100 } else { 1000 }),
            forall|k: int| 0 <= k < i ==> #[trigger] is_digit(g@[k]),
        decreases g.len() - i,
    {
        let c = g[i];
        if !digit(c) {
            return false;
        }
        assert(g@.take(i + 1).drop_last() =~= g@.take(i as int));
        assert(g@.take(i + 1).last() == c);
        v = v * 10 + (c as u32 - '0' as u32);
        i += 1;
    }
    assert(g@.take(i as int) =~= g@);
    v <= 255
}

fn ipv4_ok(s: &Vec<char>) -> (r: bool)
    ensures
        r == is_ipv4(s@),
{
    let ps = split_chars(s, '.');
    if ps.len() != 4 {
        return false;
    }
    let mut i: usize = 0;
    while i < 4
        invariant
            i <= 4,
            ps.len() == 4,
            views(ps@) == split(s@, '.'),
            forall|k: int| 0 <= k < i ==> #[trigger] is_octet(split(s@, '.')[k]),
        decreases 4 - i,
    {
        assert(ps@[i as int]@ == split(s@, '.')[i as int]);
        if !octet_ok(&ps[i]) {
            return false;
        }
        i += 1;
    }
    true
}

fn group_ok(g: &Vec<char>) -> (r: bool)
    ensures
        r == is_group(g@),
{
    if g.len() == 0 || g.len() > 4 {
        return false;
    }
    let mut i: usize = 0;
    while i < g.len()
        invariant
            i <= g.len(),
            forall|k: int| 0 <= k < i ==> #[trigger] is_hex_digit(g@[k]),
        decreases g.len() - i,
    {
        if !hex_digit(g[i]) {
            return false;
        }
        i += 1;
    }
    true
}

/// The group count of a run, where it is at most eight.
fn groups_in(x: &Vec<char>, tail: bool) -> (r: Option<usize>)
    ensures
        match r {
            Some(n) => group_count(x@, tail) == Some(n as nat) && n <= 8,
            None => group_count(x@, tail) is None || group_count(x@, tail)->0 > 8,
        },
{
    if x.len() == 0 {
        return Some(0);
    }
    let ps = split_chars(x, ':');
    let ghost sp = split(x@, ':');
    if ps.len() > 8 {
        return None;
    }
    let last = ps.len() - 1;
    let mut i: usize = 0;
    while i < last
        invariant
            i <= last,
            last == ps.len() - 1,
            x.len() > 0,
            sp == split(x@, ':'),
            views(ps@) == sp,
            forall|k: int| 0 <= k < i ==> #[trigger] is_group(sp[k]),
        decreases last - i,
    {
        assert(ps@[i as int]@ == sp[i as int]);
        if !group_ok(&ps[i]) {
            assert(!is_group(sp[i as int]));
            assert(!(forall|k: int| 0 <= k < sp.len() - 1 ==> #[trigger] is_group(sp[k])));
            return None;
        }
        i += 1;
    }
    assert(ps@[last as int]@ == sp.last());
    if group_ok(&ps[last]) {
        Some(ps.len())
    } else if tail && ipv4_ok(&ps[last]) {
        if ps.len() < 8 {
            Some(ps.len() + 1)
        } else {
            None
        }
    } else {
        None
    }
}

fn find_double_colon(s: &Vec<char>) -> (r: usize)
    ensures
        r == double_colon_from(s@, 0),
{
    if s.len() < 2 {
        return s.len();
    }
    let mut i: usize = 0;
    while i < s.len() - 1
        invariant
            s.len() >= 2,
            double_colon_from(s@, 0) == double_colon_from(s@, i as int),
        decreases s.len() - i,
    {
        if s[i] == ':' && s[i + 1] == ':' {
            return i;
        }
        i += 1;
    }
    s.len()
}

fn ipv6_ok(s: &Vec<char>) -> (r: bool)
    ensures
        r == is_ipv6(s@),
{
    let d = find_double_colon(s);
    if d >= s.len() {
        match groups_in(s, true) {
            Some(n) => n == 8,
            None => false,
        }
    } else {
        proof {
            assert(d + 1 < s.len()) by {
                assert(double_colon_from(s@, 0) < s.len() ==> double_colon_from(s@, 0) + 1 < s.len()) by {
                    lemma_double_colon_inside(s@, 0);
                }
            }
        }
        let left = slice(s, 0, d);
        let right = slice(s, d + 2, s.len());
        match (groups_in(&left, false), groups_in(&right, true)) {
            (Some(l), Some(r)) => l <= 7 && r <= 7 - l,
            _ => false,
        }
    }
}

proof fn lemma_double_colon_inside(s: Seq<char>, i: int)
    requires
        0 <= i,
    ensures
        double_colon_from(s, i) < s.len() ==> double_colon_from(s, i) + 1 < s.len(),
    decreases s.len() - i,
{
    if i + 1 < s.len() && !(s[i] == ':' && s[i + 1] == ':') {
        lemma_double_colon_inside(s, i + 1);
    }
}

/// Whether `s` is an IPv4 or IPv6 literal.
pub fn address_ok(s: &Vec<char>) -> (r: bool)
    ensures
        r == is_address(s@),
{
    if s.len() == 0 {
        return false;
    }
    let mut i: usize = 0;
    while i < s.len()
        invariant
            i <= s.len(),
            forall|k: int| 0 <= k < i ==> #[trigger] is_address_char(s@[k]),
        decreases s.len() - i,
    {
        let c = s[i];
        if !(hex_digit(c) || c == '.' || c == ':') {
            assert(!is_address_char(s@[i as int]));
            return false;
        }
        i += 1;
    }
    ipv4_ok(s) || ipv6_ok(s)
}

} // verus!
