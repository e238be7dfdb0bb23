//! The host-table text format: one `<address> <name>` line per pair.

use vstd::prelude::*;
use crate::address::{is_address, is_address_char};
use crate::grammar::{
    chars_of, is_name, is_name_char, is_space, match_line, parse_line, space_end, token_end,
};
use crate::hosts::{lemma_table_of_push, table_of, HostTable, PairSeq, TableMap};

verus! {

/// The text cut at each `\n`; the last piece is what follows the last `\n`.
pub open spec fn lines_of(s: Seq<char>) -> Seq<Seq<char>>
    decreases s.len(),
{
    if s.len() == 0 {
        seq![Seq::<char>::empty()]
    } else {
        let init = lines_of(s.drop_last());
        if s.last() == '\n' {
            init.push(Seq::<char>::empty())
        } else {
            init.update(init.len() - 1, init.last().push(s.last()))
        }
    }
}

/// The pairs `(name, address)` of the lines that are host lines, in order.
pub open spec fn host_pairs(lines: Seq<Seq<char>>) -> PairSeq
    decreases lines.len(),
{
    if lines.len() == 0 {
        Seq::empty()
    } else {
        let r = host_pairs(lines.drop_last());
        match parse_line(lines.last()) {
            Some(p) => r.push(p),
            None => r,
        }
    }
}

/// The table that a host text describes: other lines are skipped.
pub open spec fn parse_text(s: Seq<char>) -> TableMap {
    table_of(host_pairs(lines_of(s)))
}

/// The line `<address> <name>` of a pair, without its end of line.
pub open spec fn line_of(p: (Seq<char>, Seq<char>)) -> Seq<char> {
    p.1 + seq![' '] + p.0
}

/// One line `<address> <name>\n` for each pair, in order.
pub open spec fn host_text(ps: PairSeq) -> Seq<char>
    decreases ps.len(),
{
    if ps.len() == 0 {
        Seq::empty()
    } else {
        host_text(ps.drop_last()) + line_of(ps.last()) + seq!['\n']
    }
}

/// Every pair has a well-formed address and name.
pub open spec fn pairs_valid(ps: PairSeq) -> bool {
    forall|i: int| 0 <= i < ps.len() ==> is_address((#[trigger] ps[i]).1) && is_name(ps[i].0)
}

proof fn lemma_lines_nonempty(s: Seq<char>)
    ensures
        lines_of(s).len() >= 1,
    decreases s.len(),
{
    if s.len() > 0 {
        lemma_lines_nonempty(s.drop_last());
    }
}

/// Characters other than `\n` extend the last line.
proof fn lemma_lines_append(s: Seq<char>, t: Seq<char>)
    requires
        !t.contains('\n'),
    ensures
        lines_of(s + t) == lines_of(s).update(
            lines_of(s).len() - 1,
            lines_of(s).last() + t,
        ),
    decreases t.len(),
{
    lemma_lines_nonempty(s);
    if t.len() == 0 {
        assert(s + t =~= s);
        assert(lines_of(s).last() + t =~= lines_of(s).last());
        assert(lines_of(s).update(lines_of(s).len() - 1, lines_of(s).last()) =~= lines_of(s));
    } else {
        let t0 = t.drop_last();
        assert(!t0.contains('\n')) by {
            if t0.contains('\n') {
                let k = choose|k: int| 0 <= k < t0.len() && t0[k] == '\n';
                assert(t[k] == '\n');
            }
        }
        lemma_lines_append(s, t0);
        assert((s + t).drop_last() =~= s + t0);
        assert((s + t).last() == t.last());
        assert(t.last() != '\n') by {
            assert(t[t.len() - 1] == t.last());
        }
        lemma_lines_nonempty(s + t0);
        let l = lines_of(s);
        let l0 = lines_of(s + t0);
        assert(l0.len() == l.len());
        assert(l0.last() == l.last() + t0);
        assert(lines_of(s + t) == l0.update(l0.len() - 1, l0.last().push(t.last())));
        assert(l0.last().push(t.last()) =~= l.last() + t);
        assert(lines_of(s + t) =~= l.update(l.len() - 1, l.last() + t));
    }
}

proof fn lemma_lines_newline(s: Seq<char>)
    ensures
        lines_of(s + seq!['\n']) == lines_of(s).push(Seq::<char>::empty()),
{
    assert((s + seq!['\n']).drop_last() =~= s);
}

proof fn lemma_space_not_line_char(c: char)
    ensures
        is_address_char(c) ==> !is_space(c) && c != '\n',
        is_name_char(c) ==> !is_space(c) && c != '\n',
{
}

proof fn lemma_token_end(s: Seq<char>, i: int, j: int)
    requires
        0 <= i <= j <= s.len(),
        forall|k: int| i <= k < j ==> !is_space(#[trigger] s[k]),
        j == s.len() || is_space(s[j]),
    ensures
        token_end(s, i) == j,
    decreases j - i,
{
    if i < j {
        lemma_token_end(s, i + 1, j);
    }
}

/// A pair's own line reads back as that pair.
proof fn lemma_parse_own_line(p: (Seq<char>, Seq<char>))
    requires
        is_address(p.1),
        is_name(p.0),
    ensures
        parse_line(line_of(p)) == Some(p),
        !line_of(p).contains('\n'),
{
    let a = p.1;
    let n = p.0;
    let s = line_of(p);
    let la = a.len() as int;
    assert forall|k: int| 0 <= k < la implies !is_space(#[trigger] s[k]) && s[k] != '\n' by {
        assert(s[k] == a[k]);
        assert(is_address_char(a[k]));
        lemma_space_not_line_char(a[k]);
    }
    assert forall|k: int| la + 1 <= k < s.len() implies !is_space(#[trigger] s[k]) && s[k] != '\n' by {
        assert(s[k] == n[k - la - 1]);
        assert(is_name_char(n[k - la - 1]));
        lemma_space_not_line_char(n[k - la - 1]);
    }
    assert(s[la] == ' ');
    assert(is_space(s[la]));
    assert(space_end(s, 0) == 0);
    lemma_token_end(s, 0, la);
    assert(space_end(s, la + 1) == la + 1);
    assert(space_end(s, la) == la + 1);
    lemma_token_end(s, la + 1, s.len() as int);
    assert(space_end(s, s.len() as int) == s.len());
    assert(s.subrange(0, la) =~= a);
    assert(s.subrange(la + 1, s.len() as int) =~= n);
    assert(!s.contains('\n')) by {
        if s.contains('\n') {
            let k = choose|k: int| 0 <= k < s.len() && s[k] == '\n';
            if k != la {
                assert(s[k] != '\n');
            }
        }
    }
}

proof fn lemma_lines_of_host_text(ps: PairSeq)
    requires
        pairs_valid(ps),
    ensures
        lines_of(host_text(ps)) == ps.map_values(|p: (Seq<char>, Seq<char>)| line_of(p)).push(
            Seq::<char>::empty(),
        ),
    decreases ps.len(),
{
    let f = |p: (Seq<char>, Seq<char>)| line_of(p);
    if ps.len() == 0 {
        assert(ps.map_values(f).push(Seq::<char>::empty()) =~= seq![Seq::<char>::empty()]);
    } else {
        let init = ps.drop_last();
        assert(pairs_valid(init)) by {
            assert forall|i: int| 0 <= i < init.len() implies is_address((#[trigger] init[i]).1)
                && is_name(init[i].0) by {
                assert(init[i] == ps[i]);
            }
        }
        lemma_lines_of_host_text(init);
        let p = ps.last();
        assert(p == ps[ps.len() - 1]);
        lemma_parse_own_line(p);
        let h = host_text(init);
        let lp = line_of(p);
        let li = init.map_values(f);
        lemma_lines_append(h, lp);
        assert(lines_of(h) == li.push(Seq::<char>::empty()));
        assert(Seq::<char>::empty() + lp =~= lp);
        assert(lines_of(h + lp) =~= li.push(lp));
        lemma_lines_newline(h + lp);
        assert(ps.drop_last() == init);
        assert(host_text(ps) == h + lp + seq!['\n']);
        assert(ps.map_values(f) =~= li.push(lp));
    }
}

proof fn lemma_host_pairs_of_lines(ps: PairSeq)
    requires
        pairs_valid(ps),
    ensures
        host_pairs(ps.map_values(|p: (Seq<char>, Seq<char>)| line_of(p))) == ps,
    decreases ps.len(),
{
    let f = |p: (Seq<char>, Seq<char>)| line_of(p);
    if ps.len() > 0 {
        let init = ps.drop_last();
        assert(pairs_valid(init)) by {
            assert forall|i: int| 0 <= i < init.len() implies is_address((#[trigger] init[i]).1)
                && is_name(init[i].0) by {
                assert(init[i] == ps[i]);
            }
        }
        lemma_host_pairs_of_lines(init);
        assert(ps.map_values(f).drop_last() =~= init.map_values(f));
        assert(ps.last() == ps[ps.len() - 1]);
        lemma_parse_own_line(ps.last());
        assert(init.push(ps.last()) =~= ps);
    } else {
        assert(ps.map_values(f) =~= Seq::<Seq<char>>::empty());
    }
}

/// Serialising a table and parsing the text back gives the same table, when every
/// name and address is well-formed.
proof fn lemma_round_trip(ps: PairSeq)
    requires
        pairs_valid(ps),
    ensures
        parse_text(host_text(ps)) == table_of(ps),
{
    let f = |p: (Seq<char>, Seq<char>)| line_of(p);
    lemma_lines_of_host_text(ps);
    lemma_host_pairs_of_lines(ps);
    let ls = ps.map_values(f);
    assert(ls.push(Seq::<char>::empty()).drop_last() =~= ls);
    assert(parse_line(Seq::<char>::empty()) is None);
}


/// Every name of the table is a well-formed name, every address a well-formed address.
pub open spec fn table_valid(m: TableMap) -> bool {
    forall|n: Seq<char>|
        #[trigger] m.contains_key(n) ==> is_name(n) && forall|a: Seq<char>|
            #[trigger] m[n].contains(a) ==> is_address(a)
}

/// Formatting a table and parsing the text gives back the same table, for a table
/// whose names and addresses are well-formed.
pub proof fn lemma_parse_format(t: HostTable)
    requires
        table_valid(t@),
    ensures
        parse_text(host_text(t.model())) == t@,
{
    let ps = t.model();
    assert forall|i: int| 0 <= i < ps.len() implies is_address((#[trigger] ps[i]).1) && is_name(
        ps[i].0,
    ) by {
        crate::hosts::lemma_table_of_contains(ps, ps[i].0, ps[i].1);
        assert(ps.contains(ps[i]));
    }
    lemma_round_trip(ps);
}

/// Two tables with the same contents give the same text, however they were built: the
/// lines come sorted by name, then by address.
pub proof fn lemma_format_depends_on_contents(t1: HostTable, t2: HostTable)
    requires
        t1.wf(),
        t2.wf(),
        t1@ == t2@,
    ensures
        host_text(t1.model()) == host_text(t2.model()),
{
    crate::hosts::lemma_same_contents_same_pairs(t1, t2);
}

/// A line that is not a host line adds nothing: text that ends a line (or is empty),
/// followed by such a line, describes the same table as the text alone.
pub proof fn lemma_malformed_line_skipped(text: Seq<char>, line: Seq<char>)
    requires
        text.len() == 0 || text.last() == '\n',
        !line.contains('\n'),
        parse_line(line) is None,
    ensures
        parse_text(text + line) == parse_text(text),
        parse_text(text + line + seq!['\n']) == parse_text(text),
{
    let l = lines_of(text);
    lemma_lines_nonempty(text);
    if text.len() > 0 {
        assert(text.drop_last() + seq!['\n'] =~= text);
        lemma_lines_newline(text.drop_last());
    }
    assert(l.last() == Seq::<char>::empty());
    lemma_lines_append(text, line);
    assert(Seq::<char>::empty() + line =~= line);
    let m = lines_of(text + line);
    assert(m.drop_last() =~= l.drop_last());
    assert(m.last() == line);
    assert(parse_line(Seq::<char>::empty()) is None);
    assert(host_pairs(m) == host_pairs(l.drop_last()));
    assert(host_pairs(l) == host_pairs(l.drop_last()));
    lemma_lines_newline(text + line);
    assert(lines_of(text + line + seq!['\n']).drop_last() =~= m);
}

/// Adds the pair of `line`, if it is a host line, to `t`.
fn take_line(t: &mut HostTable, line: &Vec<char>, Ghost(done): Ghost<Seq<Seq<char>>>)
    requires
        old(t).wf(),
        old(t)@ == table_of(host_pairs(done)),
    ensures
        final(t).wf(),
        final(t)@ == table_of(host_pairs(done.push(line@))),
{
    assert(done.push(line@).drop_last() =~= done);
    match match_line(line) {
        Some(p) => {
            proof {
                lemma_table_of_push(host_pairs(done), p.0@, p.1@);
            }
            t.insert(&p.0, &p.1);
        },
        None => {},
    }
}

/// Reads a host text: each `<address> <name>` line adds the address to the name;
/// other lines are skipped.
pub fn parse_hosts(text: &str) -> (t: HostTable)
    ensures
        t.wf(),
        t@ == parse_text(text@),
{
    let cs = chars_of(text);
    let mut t = HostTable::new();
    let mut line: Vec<char> = Vec::new();
    let ghost mut done: Seq<Seq<char>> = Seq::empty();
    let mut i: usize = 0;
    assert(cs@.take(0) =~= Seq::<char>::empty());
    assert(host_pairs(done) =~= Seq::<(Seq<char>, Seq<char>)>::empty());
    while i < cs.len()
        invariant
            i <= cs.len(),
            t.wf(),
            lines_of(cs@.take(i as int)) == done.push(line@),
            t@ == table_of(host_pairs(done)),
        decreases cs.len() - i,
    {
        let c = cs[i];
        assert(cs@.take(i + 1).drop_last() =~= cs@.take(i as int));
        assert(cs@.take(i + 1).last() == c);
        if c == '\n' {
            take_line(&mut t, &line, Ghost(done));
            proof {
                done = done.push(line@);
            }
            line = Vec::new();
            assert(lines_of(cs@.take(i + 1)) =~= done.push(line@));
        } else {
            line.push(c);
            assert(lines_of(cs@.take(i + 1)) =~= done.push(line@));
        }
        i += 1;
    }
    assert(cs@.take(i as int) =~= cs@);
    take_line(&mut t, &line, Ghost(done));
    t
}

/// The text of a table: `<address> <name>\n` for each pair, in the table's order.
pub fn format_records(records: &HostTable) -> (r: String)
    ensures
        r@ == host_text(records.model()),
{
    let ps = records.pairs();
    let ghost model = records.model();
    let mut r = String::new();
    let mut i: usize = 0;
    assert(model.take(0) =~= Seq::<(Seq<char>, Seq<char>)>::empty());
    while i < ps.len()
        invariant
            i <= ps.len(),
            crate::hosts::pairs_model(ps@) == model,
            r@ == host_text(model.take(i as int)),
        decreases ps.len() - i,
    {
        let ghost before = r@;
        r.append(ps[i].1.as_str());
        r.append(" ");
        r.append(ps[i].0.as_str());
        r.append("\n");
        assert(model.take(i + 1).drop_last() =~= model.take(i as int));
        assert(model.take(i + 1).last() == model[i as int]);
        assert(model[i as int] == (ps@[i as int].0@, ps@[i as int].1@));
        proof {
            reveal_strlit(" ");
            reveal_strlit("\n");
        }
        assert(" "@ =~= seq![' ']);
        assert("\n"@ =~= seq!['\n']);
        assert(host_text(model.take(i + 1)) == host_text(model.take(i as int)) + line_of(model[i as int])
            + seq!['\n']);
        assert(r@ =~= before + line_of(model[i as int]) + seq!['\n']);
        i += 1;
    }
    assert(model.take(i as int) =~= model);
    r
}


/// A line of white space only.
pub open spec fn is_blank(line: Seq<char>) -> bool {
    forall|i: int| 0 <= i < line.len() ==> is_space(#[trigger] line[i])
}

/// The lines that are neither host lines nor blank, in order: what a parse skips.
pub open spec fn skipped(lines: Seq<Seq<char>>) -> Seq<Seq<char>>
    decreases lines.len(),
{
    if lines.len() == 0 {
        Seq::empty()
    } else {
        let r = skipped(lines.drop_last());
        if parse_line(lines.last()) is None && !is_blank(lines.last()) {
            r.push(lines.last())
        } else {
            r
        }
    }
}

fn blank(line: &Vec<char>) -> (r: bool)
    ensures
        r == is_blank(line@),
{
    let mut i: usize = 0;
    while i < line.len()
        invariant
            i <= line.len(),
            forall|k: int| 0 <= k < i ==> is_space(#[trigger] line@[k]),
        decreases line.len() - i,
    {
        if !crate::grammar::space(line[i]) {
            return false;
        }
        i += 1;
    }
    true
}

fn note_line(out: &mut Vec<String>, line: &Vec<char>, Ghost(done): Ghost<Seq<Seq<char>>>)
    requires
        old(out)@.map_values(|s: String| s@) == skipped(done),
    ensures
        final(out)@.map_values(|s: String| s@) == skipped(done.push(line@)),
{
    assert(done.push(line@).drop_last() =~= done);
    if match_line(line).is_none() && !blank(line) {
        let ghost before = out@;
        out.push(crate::grammar::string_of(line));
        assert(out@.map_values(|s: String| s@) =~= before.map_values(|s: String| s@).push(line@));
    }
}

/// The lines of a host text that a parse skips: neither `<address> <name>` nor blank.
pub fn skipped_lines(text: &str) -> (r: Vec<String>)
    ensures
        r@.map_values(|s: String| s@) == skipped(lines_of(text@)),
{
    let cs = chars_of(text);
    let mut out: Vec<String> = Vec::new();
    let mut line: Vec<char> = Vec::new();
    let ghost mut done: Seq<Seq<char>> = Seq::empty();
    let mut i: usize = 0;
    assert(cs@.take(0) =~= Seq::<char>::empty());
    assert(out@.map_values(|s: String| s@) =~= skipped(done));
    while i < cs.len()
        invariant
            i <= cs.len(),
            lines_of(cs@.take(i as int)) == done.push(line@),
            out@.map_values(|s: String| s@) == skipped(done),
        decreases cs.len() - i,
    {
        let c = cs[i];
        assert(cs@.take(i + 1).drop_last() =~= cs@.take(i as int));
        assert(cs@.take(i + 1).last() == c);
        if c == '\n' {
            note_line(&mut out, &line, Ghost(done));
            proof {
                done = done.push(line@);
            }
            line = Vec::new();
            assert(lines_of(cs@.take(i + 1)) =~= done.push(line@));
        } else {
            line.push(c);
            assert(lines_of(cs@.take(i + 1)) =~= done.push(line@));
        }
        i += 1;
    }
    assert(cs@.take(i as int) =~= cs@);
    note_line(&mut out, &line, Ghost(done));
    out
}

} // verus!
