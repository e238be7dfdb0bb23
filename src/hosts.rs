//! The host table: each name with its non-empty set of addresses.

use vstd::prelude::*;
use crate::grammar::chars_of;

verus! {

/// What a host table holds: each name with its set of addresses.
pub type TableMap = Map<Seq<char>, Set<Seq<char>>>;

/// `(name, address)` pairs, as values.
pub type PairSeq = Seq<(Seq<char>, Seq<char>)>;

pub open spec fn pairs_model(v: Seq<(String, String)>) -> PairSeq {
    v.map_values(|p: (String, String)| (p.0@, p.1@))
}

/// The table that a sequence of `(name, address)` pairs describes.
pub open spec fn table_of(ps: PairSeq) -> TableMap {
    Map::new(
        |n: Seq<char>| exists|i: int| 0 <= i < ps.len() && (#[trigger] ps[i]).0 == n,
        |n: Seq<char>| Set::new(|a: Seq<char>| ps.contains((n, a))),
    )
}

/// No name is kept with an empty set of addresses.
pub open spec fn is_pruned(m: TableMap) -> bool {
    forall|n: Seq<char>| #[trigger] m.contains_key(n) ==> m[n] != Set::<Seq<char>>::empty()
}

/// `m` without the names whose address set is empty.
pub open spec fn prune(m: TableMap) -> TableMap {
    Map::new(|n: Seq<char>| m.contains_key(n) && m[n] != Set::<Seq<char>>::empty(), |n: Seq<char>| m[n])
}

/// The values of a list of strings.
pub open spec fn strings_view(v: Seq<String>) -> Seq<Seq<char>> {
    v.map_values(|s: String| s@)
}

/// The addresses that a list of strings names.
pub open spec fn targets_set(v: Seq<String>) -> Set<Seq<char>> {
    Set::new(|a: Seq<char>| exists|i: int| 0 <= i < v.len() && (#[trigger] v[i])@ == a)
}

/// Adds the addresses `ts` to name `n`, creating the entry if it is absent.
pub open spec fn union_targets(m: TableMap, n: Seq<char>, ts: Set<Seq<char>>) -> TableMap {
    if m.contains_key(n) {
        m.insert(n, m[n].union(ts))
    } else {
        m.insert(n, ts)
    }
}

/// The addresses of `ts`, in order, that name `n` already held (in `m`, or earlier in
/// `ts`) when they came to be added.
pub open spec fn already_held(m: TableMap, n: Seq<char>, ts: Seq<String>) -> Seq<Seq<char>>
    decreases ts.len(),
{
    if ts.len() == 0 {
        Seq::empty()
    } else {
        let prev = already_held(m, n, ts.drop_last());
        let t = ts.last()@;
        if (m.contains_key(n) && m[n].contains(t)) || targets_set(ts.drop_last()).contains(t) {
            prev.push(t)
        } else {
            prev
        }
    }
}

/// Takes the addresses `ts` away from name `n`, if it is present.
pub open spec fn minus_targets(m: TableMap, n: Seq<char>, ts: Set<Seq<char>>) -> TableMap {
    if m.contains_key(n) {
        m.insert(n, m[n].difference(ts))
    } else {
        m
    }
}

pub proof fn lemma_table_of_pruned(ps: PairSeq)
    ensures
        is_pruned(table_of(ps)),
        prune(table_of(ps)) == table_of(ps),
{
    let m = table_of(ps);
    assert forall|n: Seq<char>| #[trigger] m.contains_key(n) implies m[n] != Set::<Seq<char>>::empty() by {
        let i = choose|i: int| 0 <= i < ps.len() && (#[trigger] ps[i]).0 == n;
        assert(ps.contains(ps[i]));
        assert(m[n].contains(ps[i].1));
    }
    assert(prune(m) =~= m);
}

pub proof fn lemma_table_of_contains(ps: PairSeq, n: Seq<char>, a: Seq<char>)
    ensures
        ps.contains((n, a)) <==> (table_of(ps).contains_key(n) && table_of(ps)[n].contains(a)),
{
    if ps.contains((n, a)) {
        let i = choose|i: int| 0 <= i < ps.len() && ps[i] == (n, a);
        assert(ps[i].0 == n);
    }
}

pub proof fn lemma_table_of_push(ps: PairSeq, n: Seq<char>, a: Seq<char>)
    ensures
        table_of(ps.push((n, a))) == union_targets(table_of(ps), n, set![a]),
{
    let qs = ps.push((n, a));
    let l = table_of(qs);
    let r = union_targets(table_of(ps), n, set![a]);
    assert(qs[ps.len() as int] == (n, a));
    assert forall|k: Seq<char>| l.contains_key(k) <==> r.contains_key(k) by {
        if l.contains_key(k) && k != n {
            let i = choose|i: int| 0 <= i < qs.len() && (#[trigger] qs[i]).0 == k;
            assert(ps[i].0 == k);
        }
        if r.contains_key(k) && k != n {
            let i = choose|i: int| 0 <= i < ps.len() && (#[trigger] ps[i]).0 == k;
            assert(qs[i].0 == k);
        }
    }
    assert forall|k: Seq<char>| #[trigger] l.contains_key(k) implies l[k] =~= r[k] by {
        assert forall|b: Seq<char>| l[k].contains(b) <==> r[k].contains(b) by {
            if qs.contains((k, b)) {
                let i = choose|i: int| 0 <= i < qs.len() && qs[i] == (k, b);
                if i < ps.len() {
                    assert(ps[i] == (k, b));
                }
            }
            if ps.contains((k, b)) {
                let i = choose|i: int| 0 <= i < ps.len() && ps[i] == (k, b);
                assert(qs[i] == (k, b));
            }
        }
    }
    assert(l =~= r);
}

proof fn lemma_union_step(m: TableMap, n: Seq<char>, s: Set<Seq<char>>, t: Seq<char>)
    requires
        is_pruned(m),
    ensures
        union_targets(prune(union_targets(m, n, s)), n, set![t]) == prune(union_targets(m, n, s.insert(t))),
{
    let x = prune(union_targets(m, n, s));
    let l = union_targets(x, n, set![t]);
    let r = prune(union_targets(m, n, s.insert(t)));
    let u = union_targets(m, n, s.insert(t));
    assert(u[n].contains(t));
    assert(u[n] != Set::<Seq<char>>::empty());
    assert forall|k: Seq<char>| l.contains_key(k) <==> r.contains_key(k) by {
        if k != n && m.contains_key(k) {
            assert(m[k] != Set::<Seq<char>>::empty());
        }
    }
    assert forall|k: Seq<char>| #[trigger] l.contains_key(k) implies l[k] =~= r[k] by {
        if k == n {
            if x.contains_key(n) {
                assert(l[k] =~= x[n].union(set![t]));
            } else {
                let v = union_targets(m, n, s)[n];
                assert(v =~= Set::<Seq<char>>::empty());
                assert(l[k] =~= set![t]);
            }
        }
    }
    assert(l =~= r);
}

/// Two pair sequences with the same members describe the same table.
proof fn lemma_same_members(ps: PairSeq, qs: PairSeq)
    requires
        forall|k: int| 0 <= k < ps.len() ==> qs.contains(#[trigger] ps[k]),
        forall|k: int| 0 <= k < qs.len() ==> ps.contains(#[trigger] qs[k]),
    ensures
        table_of(ps) == table_of(qs),
{
    assert forall|p: (Seq<char>, Seq<char>)| ps.contains(p) <==> qs.contains(p) by {
        if ps.contains(p) {
            let k = choose|k: int| 0 <= k < ps.len() && ps[k] == p;
            assert(qs.contains(ps[k]));
        }
        if qs.contains(p) {
            let k = choose|k: int| 0 <= k < qs.len() && qs[k] == p;
            assert(ps.contains(qs[k]));
        }
    }
    let l = table_of(ps);
    let r = table_of(qs);
    assert forall|n: Seq<char>| l.contains_key(n) <==> r.contains_key(n) by {
        if l.contains_key(n) {
            let k = choose|k: int| 0 <= k < ps.len() && (#[trigger] ps[k]).0 == n;
            assert(ps.contains(ps[k]));
            let j = choose|j: int| 0 <= j < qs.len() && qs[j] == ps[k];
            assert(qs[j].0 == n);
        }
        if r.contains_key(n) {
            let k = choose|k: int| 0 <= k < qs.len() && (#[trigger] qs[k]).0 == n;
            assert(qs.contains(qs[k]));
            let j = choose|j: int| 0 <= j < ps.len() && ps[j] == qs[k];
            assert(ps[j].0 == n);
        }
    }
    assert forall|n: Seq<char>| #[trigger] l.contains_key(n) implies l[n] =~= r[n] by {
        assert forall|a: Seq<char>| l[n].contains(a) <==> r[n].contains(a) by {
            assert(ps.contains((n, a)) <==> qs.contains((n, a)));
        }
    }
    assert(l =~= r);
}

/// The lexicographic order of texts, by character.
pub open spec fn text_lt(a: Seq<char>, b: Seq<char>) -> bool
    decreases a.len(),
{
    if a.len() == 0 {
        b.len() > 0
    } else if b.len() == 0 {
        false
    } else if a[0] != b[0] {
        a[0] < b[0]
    } else {
        text_lt(a.drop_first(), b.drop_first())
    }
}

/// Pairs ordered by name, then by address.
pub open spec fn pair_lt(p: (Seq<char>, Seq<char>), q: (Seq<char>, Seq<char>)) -> bool {
    text_lt(p.0, q.0) || (p.0 == q.0 && text_lt(p.1, q.1))
}

/// Strictly increasing by name, then by address.
pub open spec fn is_sorted(ps: PairSeq) -> bool {
    forall|i: int, j: int| 0 <= i < j < ps.len() ==> pair_lt(#[trigger] ps[i], #[trigger] ps[j])
}

proof fn lemma_text_lt_irreflexive(a: Seq<char>)
    ensures
        !text_lt(a, a),
    decreases a.len(),
{
    if a.len() > 0 {
        lemma_text_lt_irreflexive(a.drop_first());
    }
}

proof fn lemma_text_lt_transitive(a: Seq<char>, b: Seq<char>, c: Seq<char>)
    requires
        text_lt(a, b),
        text_lt(b, c),
    ensures
        text_lt(a, c),
    decreases a.len(),
{
    if a.len() > 0 && b.len() > 0 && c.len() > 0 && a[0] == b[0] && b[0] == c[0] {
        lemma_text_lt_transitive(a.drop_first(), b.drop_first(), c.drop_first());
    }
}

proof fn lemma_text_lt_total(a: Seq<char>, b: Seq<char>)
    requires
        a != b,
    ensures
        text_lt(a, b) || text_lt(b, a),
    decreases a.len(),
{
    if a.len() == 0 && b.len() == 0 {
        assert(a =~= b);
    } else if a.len() > 0 && b.len() > 0 && a[0] == b[0] {
        assert(a.drop_first() != b.drop_first()) by {
            if a.drop_first() == b.drop_first() {
                assert(a =~= seq![a[0]] + a.drop_first());
                assert(b =~= seq![b[0]] + b.drop_first());
            }
        }
        lemma_text_lt_total(a.drop_first(), b.drop_first());
    }
}

proof fn lemma_pair_lt_irreflexive(p: (Seq<char>, Seq<char>))
    ensures
        !pair_lt(p, p),
{
    lemma_text_lt_irreflexive(p.0);
    lemma_text_lt_irreflexive(p.1);
}

proof fn lemma_pair_lt_transitive(p: (Seq<char>, Seq<char>), q: (Seq<char>, Seq<char>), r: (Seq<char>, Seq<char>))
    requires
        pair_lt(p, q),
        pair_lt(q, r),
    ensures
        pair_lt(p, r),
{
    if text_lt(p.0, q.0) && text_lt(q.0, r.0) {
        lemma_text_lt_transitive(p.0, q.0, r.0);
    } else if text_lt(p.1, q.1) && text_lt(q.1, r.1) {
        lemma_text_lt_transitive(p.1, q.1, r.1);
    }
}

proof fn lemma_pair_lt_total(p: (Seq<char>, Seq<char>), q: (Seq<char>, Seq<char>))
    requires
        p != q,
    ensures
        pair_lt(p, q) || pair_lt(q, p),
{
    if p.0 != q.0 {
        lemma_text_lt_total(p.0, q.0);
    } else {
        lemma_text_lt_total(p.1, q.1);
    }
}

/// Two sorted pair sequences with the same members are the same sequence.
proof fn lemma_sorted_unique(ps: PairSeq, qs: PairSeq)
    requires
        is_sorted(ps),
        is_sorted(qs),
        forall|p: (Seq<char>, Seq<char>)| ps.contains(p) <==> qs.contains(p),
    ensures
        ps == qs,
    decreases ps.len(),
{
    if ps.len() == 0 {
        if qs.len() > 0 {
            assert(qs.contains(qs[0]));
        }
        assert(ps =~= qs);
    } else {
        assert(ps.contains(ps[0]));
        let j = choose|j: int| 0 <= j < qs.len() && qs[j] == ps[0];
        assert(qs.contains(qs[0]));
        let i = choose|i: int| 0 <= i < ps.len() && ps[i] == qs[0];
        if j > 0 {
            assert(pair_lt(qs[0], qs[j]));
            if i > 0 {
                assert(pair_lt(ps[0], ps[i]));
                lemma_pair_lt_transitive(qs[0], ps[0], qs[0]);
            }
            lemma_pair_lt_irreflexive(qs[0]);
        }
        let ps1 = ps.drop_first();
        let qs1 = qs.drop_first();
        assert forall|p: (Seq<char>, Seq<char>)| ps1.contains(p) <==> qs1.contains(p) by {
            if ps1.contains(p) {
                let k = choose|k: int| 0 <= k < ps1.len() && ps1[k] == p;
                assert(ps[k + 1] == p);
                assert(pair_lt(ps[0], ps[k + 1]));
                lemma_pair_lt_irreflexive(p);
                assert(ps.contains(p));
                let m = choose|m: int| 0 <= m < qs.len() && qs[m] == p;
                assert(m != 0);
                assert(qs1[m - 1] == p);
            }
            if qs1.contains(p) {
                let k = choose|k: int| 0 <= k < qs1.len() && qs1[k] == p;
                assert(qs[k + 1] == p);
                assert(pair_lt(qs[0], qs[k + 1]));
                lemma_pair_lt_irreflexive(p);
                assert(qs.contains(p));
                let m = choose|m: int| 0 <= m < ps.len() && ps[m] == p;
                assert(m != 0);
                assert(ps1[m - 1] == p);
            }
        }
        assert(is_sorted(ps1)) by {
            assert forall|a: int, b: int| 0 <= a < b < ps1.len() implies pair_lt(#[trigger] ps1[a], #[trigger] ps1[b]) by {
                assert(ps1[a] == ps[a + 1] && ps1[b] == ps[b + 1]);
            }
        }
        assert(is_sorted(qs1)) by {
            assert forall|a: int, b: int| 0 <= a < b < qs1.len() implies pair_lt(#[trigger] qs1[a], #[trigger] qs1[b]) by {
                assert(qs1[a] == qs[a + 1] && qs1[b] == qs[b + 1]);
            }
        }
        lemma_sorted_unique(ps1, qs1);
        assert(ps =~= seq![ps[0]] + ps1);
        assert(qs =~= seq![qs[0]] + qs1);
    }
}

fn text_less(a: &Vec<char>, b: &Vec<char>) -> (r: bool)
    ensures
        r == text_lt(a@, b@),
{
    let mut i: usize = 0;
    assert(a@.skip(0) =~= a@ && b@.skip(0) =~= b@);
    while i < a.len() && i < b.len()
        invariant
            i <= a.len(),
            i <= b.len(),
            text_lt(a@, b@) == text_lt(a@.skip(i as int), b@.skip(i as int)),
        decreases a.len() - i,
    {
        if a[i] != b[i] {
            assert(a@.skip(i as int)[0] == a[i as int] && b@.skip(i as int)[0] == b[i as int]);
            return a[i] < b[i];
        }
        assert(a@.skip(i as int).drop_first() =~= a@.skip(i + 1));
        assert(b@.skip(i as int).drop_first() =~= b@.skip(i + 1));
        i += 1;
    }
    i == a.len() && i < b.len()
}

fn pair_less(p: &(String, String), q: &(String, String)) -> (r: bool)
    ensures
        r == pair_lt((p.0@, p.1@), (q.0@, q.1@)),
{
    if text_less(&chars_of(p.0.as_str()), &chars_of(q.0.as_str())) {
        return true;
    }
    if p.0 == q.0 {
        text_less(&chars_of(p.1.as_str()), &chars_of(q.1.as_str()))
    } else {
        false
    }
}

proof fn lemma_insert_sorted(ps: PairSeq, k: int, p: (Seq<char>, Seq<char>))
    requires
        0 <= k <= ps.len(),
        is_sorted(ps),
        forall|j: int| 0 <= j < k ==> pair_lt(#[trigger] ps[j], p),
        forall|j: int| k <= j < ps.len() ==> pair_lt(p, #[trigger] ps[j]),
    ensures
        is_sorted(ps.insert(k, p)),
        ps.insert(k, p).no_duplicates(),
        table_of(ps.insert(k, p)) == union_targets(table_of(ps), p.0, set![p.1]),
{
    let qs = ps.insert(k, p);
    assert forall|i: int, j: int| 0 <= i < j < qs.len() implies pair_lt(#[trigger] qs[i], #[trigger] qs[j]) by {
        if j < k {
            assert(qs[i] == ps[i] && qs[j] == ps[j]);
        } else if j == k {
            assert(qs[i] == ps[i]);
        } else if i < k {
            assert(qs[i] == ps[i] && qs[j] == ps[j - 1]);
        } else if i == k {
            assert(qs[j] == ps[j - 1]);
        } else {
            assert(qs[i] == ps[i - 1] && qs[j] == ps[j - 1]);
        }
    }
    assert forall|i: int, j: int| 0 <= i < qs.len() && 0 <= j < qs.len() && i != j implies qs[i] != qs[j] by {
        if i < j {
            assert(pair_lt(qs[i], qs[j]));
            lemma_pair_lt_irreflexive(qs[i]);
        } else {
            assert(pair_lt(qs[j], qs[i]));
            lemma_pair_lt_irreflexive(qs[j]);
        }
    }
    let rs = ps.push(p);
    assert forall|i: int| 0 <= i < qs.len() implies rs.contains(#[trigger] qs[i]) by {
        if i < k {
            assert(rs[i] == qs[i]);
        } else if i == k {
            assert(rs[ps.len() as int] == qs[i]);
        } else {
            assert(rs[i - 1] == qs[i]);
        }
    }
    assert forall|i: int| 0 <= i < rs.len() implies qs.contains(#[trigger] rs[i]) by {
        if i < k {
            assert(qs[i] == rs[i]);
        } else if i == ps.len() {
            assert(qs[k] == rs[i]);
        } else {
            assert(qs[i + 1] == rs[i]);
        }
    }
    lemma_same_members(qs, rs);
    lemma_table_of_push(ps, p.0, p.1);
}

/// A host table. Its pairs `(name, address)` are kept in increasing order, by name
/// and then address, so a table's text depends on its contents alone.
pub struct HostTable {
    pairs: Vec<(String, String)>,
}

impl HostTable {
    /// The table's pairs, in the order in which they were added.
    pub closed spec fn model(&self) -> PairSeq {
        pairs_model(self.pairs@)
    }

    pub open spec fn wf(&self) -> bool {
        &&& self.model().no_duplicates()
        &&& is_sorted(self.model())
    }

    /// The empty table.
    pub fn new() -> (t: HostTable)
        ensures
            t.wf(),
            t.model() == Seq::<(Seq<char>, Seq<char>)>::empty(),
            t@ == Map::<Seq<char>, Set<Seq<char>>>::empty(),
    {
        let t = HostTable { pairs: Vec::new() };
        assert(t.model() =~= Seq::<(Seq<char>, Seq<char>)>::empty());
        assert(t@ =~= Map::<Seq<char>, Set<Seq<char>>>::empty());
        t
    }

    /// The table's pairs `(name, address)`.
    pub fn pairs(&self) -> (r: &Vec<(String, String)>)
        ensures
            pairs_model(r@) == self.model(),
    {
        &self.pairs
    }

    /// Whether `n` is listed with address `a`.
    pub fn contains(&self, n: &String, a: &String) -> (r: bool)
        ensures
            r == (self@.contains_key(n@) && self@[n@].contains(a@)),
    {
        proof {
            lemma_table_of_contains(self.model(), n@, a@);
        }
        let mut i: usize = 0;
        while i < self.pairs.len()
            invariant
                i <= self.pairs.len(),
                forall|k: int| 0 <= k < i ==> self.model()[k] != (n@, a@),
            decreases self.pairs.len() - i,
        {
            if self.pairs[i].0 == *n && self.pairs[i].1 == *a {
                assert(self.model()[i as int] == (n@, a@));
                return true;
            }
            i += 1;
        }
        false
    }

    /// Whether `n` is in the table.
    pub fn contains_name(&self, n: &String) -> (r: bool)
        ensures
            r == self@.contains_key(n@),
    {
        let mut i: usize = 0;
        while i < self.pairs.len()
            invariant
                i <= self.pairs.len(),
                forall|k: int| 0 <= k < i ==> (#[trigger] self.model()[k]).0 != n@,
            decreases self.pairs.len() - i,
        {
            if self.pairs[i].0 == *n {
                assert(self.model()[i as int].0 == n@);
                return true;
            }
            i += 1;
        }
        false
    }

    /// Adds address `a` to name `n`; `false` when it was there already.
    pub fn insert(&mut self, n: &String, a: &String) -> (added: bool)
        requires
            old(self).wf(),
        ensures
            final(self).wf(),
            final(self)@ == union_targets(old(self)@, n@, set![a@]),
            added == !(old(self)@.contains_key(n@) && old(self)@[n@].contains(a@)),
    {
        if self.contains(n, a) {
            assert(self@[n@].insert(a@) =~= self@[n@]);
            assert(self@[n@].union(set![a@]) =~= self@[n@]);
            assert(self@.insert(n@, self@[n@]) =~= self@);
            return false;
        }
        proof {
            lemma_table_of_contains(self.model(), n@, a@);
        }
        let ghost before = self.model();
        let ghost key = (n@, a@);
        let p = (n.clone(), a.clone());
        let mut k: usize = 0;
        while k < self.pairs.len() && pair_less(&self.pairs[k], &p)
            invariant
                k <= self.pairs.len(),
                self.model() == before,
                (p.0@, p.1@) == key,
                forall|j: int| 0 <= j < k ==> pair_lt(#[trigger] before[j], key),
            decreases self.pairs.len() - k,
        {
            assert(before[k as int] == (self.pairs@[k as int].0@, self.pairs@[k as int].1@));
            k += 1;
        }
        proof {
            assert(!before.contains(key));
            assert forall|j: int| k <= j < before.len() implies pair_lt(key, #[trigger] before[j]) by {
                assert(before[k as int] == (self.pairs@[k as int].0@, self.pairs@[k as int].1@));
                assert(before[k as int] != key) by {
                    assert(before.contains(before[k as int]));
                }
                lemma_pair_lt_total(before[k as int], key);
                if j > k {
                    assert(pair_lt(before[k as int], before[j]));
                    lemma_pair_lt_transitive(key, before[k as int], before[j]);
                }
            }
            lemma_insert_sorted(before, k as int, key);
        }
        self.pairs.insert(k, p);
        assert(self.model() =~= before.insert(k as int, key));
        true
    }

    /// Adds the addresses `ts` to name `n`, creating the name if it is absent; with no
    /// address the name is not created.
    pub fn insert_targets(&mut self, n: &String, ts: &Vec<String>) -> (held: Vec<String>)
        requires
            old(self).wf(),
        ensures
            final(self).wf(),
            final(self)@ == prune(union_targets(old(self)@, n@, targets_set(ts@))),
            strings_view(held@) == already_held(old(self)@, n@, ts@),
    {
        let mut held: Vec<String> = Vec::new();
        let ghost m = self@;
        proof {
            lemma_table_of_pruned(self.model());
            assert(targets_set(ts@.take(0)) =~= Set::<Seq<char>>::empty());
            let u = union_targets(m, n@, Set::<Seq<char>>::empty());
            if m.contains_key(n@) {
                assert(m[n@].union(Set::<Seq<char>>::empty()) =~= m[n@]);
                assert(u =~= m);
            }
            assert(prune(u) =~= m);
        }
        let mut i: usize = 0;
        while i < ts.len()
            invariant
                i <= ts.len(),
                is_pruned(m),
                self.wf(),
                self@ == prune(union_targets(m, n@, targets_set(ts@.take(i as int)))),
                strings_view(held@) == already_held(m, n@, ts@.take(i as int)),
            decreases ts.len() - i,
        {
            let ghost before = self@;
            let ghost sv = strings_view(held@);
            proof {
                lemma_union_step(m, n@, targets_set(ts@.take(i as int)), ts@[i as int]@);
                assert(targets_set(ts@.take(i as int)).insert(ts@[i as int]@) =~= targets_set(
                    ts@.take(i + 1),
                )) by {
                    assert forall|a: Seq<char>| #[trigger]
                        targets_set(ts@.take(i + 1)).contains(a) implies targets_set(
                        ts@.take(i as int),
                    ).insert(ts@[i as int]@).contains(a) by {
                        let k = choose|k: int| 0 <= k < i + 1 && (#[trigger] ts@.take(i + 1)[k])@ == a;
                        if k < i {
                            assert(ts@.take(i as int)[k] == ts@.take(i + 1)[k]);
                        }
                    }
                    assert forall|a: Seq<char>| #[trigger]
                        targets_set(ts@.take(i as int)).contains(a) implies targets_set(
                        ts@.take(i + 1),
                    ).contains(a) by {
                        let k = choose|k: int| 0 <= k < i && (#[trigger] ts@.take(i as int)[k])@ == a;
                        assert(ts@.take(i as int)[k] == ts@.take(i + 1)[k]);
                    }
                    assert(ts@.take(i + 1)[i as int] == ts@[i as int]);
                }
            }
            let added = self.insert(n, &ts[i]);
            proof {
                let t = ts@[i as int]@;
                let st = targets_set(ts@.take(i as int));
                let u = union_targets(m, n@, st);
                assert(ts@.take(i + 1).drop_last() =~= ts@.take(i as int));
                assert(ts@.take(i + 1).last() == ts@[i as int]);
                if (m.contains_key(n@) && m[n@].contains(t)) || st.contains(t) {
                    assert(u[n@].contains(t));
                    assert(u[n@] != Set::<Seq<char>>::empty());
                    assert(before.contains_key(n@) && before[n@].contains(t));
                }
                if before.contains_key(n@) && before[n@].contains(t) {
                    assert(u[n@].contains(t));
                }
            }
            if !added {
                held.push(ts[i].clone());
                assert(strings_view(held@) =~= sv.push(ts@[i as int]@));
            }
            i += 1;
        }
        assert(ts@.take(ts.len() as int) =~= ts@);
        held
    }

    /// A table with the same pairs, in the same order.
    pub fn copy(&self) -> (r: HostTable)
        ensures
            r.model() == self.model(),
            r@ == self@,
    {
        let mut pairs: Vec<(String, String)> = Vec::new();
        let mut i: usize = 0;
        while i < self.pairs.len()
            invariant
                i <= self.pairs.len(),
                pairs_model(pairs@) == self.model().take(i as int),
            decreases self.pairs.len() - i,
        {
            let ghost before = pairs@;
            let name = self.pairs[i].0.clone();
            let address = self.pairs[i].1.clone();
            pairs.push((name, address));
            assert(pairs_model(pairs@) =~= pairs_model(before).push(self.model()[i as int]));
            i += 1;
            assert(pairs_model(pairs@) =~= self.model().take(i as int));
        }
        assert(self.model().take(i as int) =~= self.model());
        HostTable { pairs }
    }

    /// Whether the two tables hold the same names with the same addresses.
    pub fn same_as(&self, other: &HostTable) -> (r: bool)
        ensures
            r == (self@ == other@),
    {
        let mut i: usize = 0;
        while i < self.pairs.len()
            invariant
                i <= self.pairs.len(),
                forall|k: int| 0 <= k < i ==> other.model().contains(#[trigger] self.model()[k]),
            decreases self.pairs.len() - i,
        {
            if !other.contains(&self.pairs[i].0, &self.pairs[i].1) {
                proof {
                    let p = self.model()[i as int];
                    lemma_table_of_contains(other.model(), p.0, p.1);
                    lemma_table_of_contains(self.model(), p.0, p.1);
                    assert(self.model().contains(p));
                }
                return false;
            }
            proof {
                let p = self.model()[i as int];
                lemma_table_of_contains(other.model(), p.0, p.1);
            }
            i += 1;
        }
        let mut j: usize = 0;
        while j < other.pairs.len()
            invariant
                i == self.pairs.len(),
                j <= other.pairs.len(),
                forall|k: int| 0 <= k < i ==> other.model().contains(#[trigger] self.model()[k]),
                forall|k: int| 0 <= k < j ==> self.model().contains(#[trigger] other.model()[k]),
            decreases other.pairs.len() - j,
        {
            if !self.contains(&other.pairs[j].0, &other.pairs[j].1) {
                proof {
                    let p = other.model()[j as int];
                    lemma_table_of_contains(other.model(), p.0, p.1);
                    lemma_table_of_contains(self.model(), p.0, p.1);
                    assert(other.model().contains(p));
                }
                return false;
            }
            proof {
                let p = other.model()[j as int];
                lemma_table_of_contains(self.model(), p.0, p.1);
            }
            j += 1;
        }
        proof {
            lemma_same_members(self.model(), other.model());
        }
        true
    }

    /// The addresses of name `n`, in the table's order; none for an absent name.
    pub fn addresses_of(&self, n: &String) -> (r: Vec<String>)
        requires
            self.wf(),
        ensures
            strings_view(r@).no_duplicates(),
            targets_set(r@) == (if self@.contains_key(n@) {
                self@[n@]
            } else {
                Set::<Seq<char>>::empty()
            }),
            r@.len() > 0 <==> self@.contains_key(n@),
    {
        let ghost ps = self.model();
        let mut r: Vec<String> = Vec::new();
        let mut i: usize = 0;
        while i < self.pairs.len()
            invariant
                i <= self.pairs.len(),
                ps == self.model(),
                ps.no_duplicates(),
                strings_view(r@).no_duplicates(),
                forall|a: Seq<char>|
                    #[trigger] targets_set(r@).contains(a) <==> exists|k: int|
                        0 <= k < i && ps[k] == (n@, a),
                r@.len() > 0 <==> exists|k: int| 0 <= k < i && (#[trigger] ps[k]).0 == n@,
            decreases self.pairs.len() - i,
        {
            if self.pairs[i].0 == *n {
                let ghost before = r@;
                let a = self.pairs[i].1.clone();
                assert(!targets_set(before).contains(a@)) by {
                    if targets_set(before).contains(a@) {
                        let k = choose|k: int| 0 <= k < i && ps[k] == (n@, a@);
                        assert(ps[k] == ps[i as int]);
                    }
                }
                assert(!strings_view(before).contains(a@)) by {
                    if strings_view(before).contains(a@) {
                        let j = choose|j: int| 0 <= j < before.len() && strings_view(before)[j] == a@;
                        assert(before[j]@ == a@);
                    }
                }
                r.push(a);
                assert(strings_view(r@) =~= strings_view(before).push(a@));
                assert(ps[i as int] == (n@, r@[before.len() as int]@));
                assert forall|b: Seq<char>|
                    #[trigger] targets_set(r@).contains(b) <==> exists|k: int|
                        0 <= k < i + 1 && ps[k] == (n@, b) by {
                    if targets_set(r@).contains(b) {
                        let j = choose|j: int| 0 <= j < r@.len() && (#[trigger] r@[j])@ == b;
                        if j < before.len() {
                            assert(before[j] == r@[j]);
                            assert(targets_set(before).contains(b));
                        }
                    }
                    if exists|k: int| 0 <= k < i + 1 && ps[k] == (n@, b) {
                        let k = choose|k: int| 0 <= k < i + 1 && ps[k] == (n@, b);
                        if k < i {
                            assert(targets_set(before).contains(b));
                            let j = choose|j: int| 0 <= j < before.len() && (#[trigger] before[j])@ == b;
                            assert(r@[j] == before[j]);
                        } else {
                            assert(r@[before.len() as int]@ == b);
                        }
                    }
                }
            } else {
                assert forall|b: Seq<char>|
                    #[trigger] targets_set(r@).contains(b) <==> exists|k: int|
                        0 <= k < i + 1 && ps[k] == (n@, b) by {
                    if exists|k: int| 0 <= k < i + 1 && ps[k] == (n@, b) {
                        let k = choose|k: int| 0 <= k < i + 1 && ps[k] == (n@, b);
                        assert(k < i);
                    }
                }
            }
            i += 1;
        }
        proof {
            let m = self@;
            let e = if m.contains_key(n@) { m[n@] } else { Set::<Seq<char>>::empty() };
            assert forall|a: Seq<char>| targets_set(r@).contains(a) <==> e.contains(a) by {
                if targets_set(r@).contains(a) {
                    let k = choose|k: int| 0 <= k < i && ps[k] == (n@, a);
                    assert(ps[k].0 == n@);
                    assert(ps.contains((n@, a)));
                }
                if e.contains(a) {
                    assert(ps.contains((n@, a)));
                    let k = choose|k: int| 0 <= k < ps.len() && ps[k] == (n@, a);
                }
            }
            assert(targets_set(r@) =~= e);
        }
        r
    }

    /// Whether a pair goes when dropping name `n` (`all`) or its addresses `ts`.
    spec fn dropped(p: (Seq<char>, Seq<char>), n: Seq<char>, ts: Set<Seq<char>>, all: bool) -> bool {
        p.0 == n && (all || ts.contains(p.1))
    }

    fn listed(ts: &Vec<String>, a: &String) -> (r: bool)
        ensures
            r == targets_set(ts@).contains(a@),
    {
        let mut i: usize = 0;
        while i < ts.len()
            invariant
                i <= ts.len(),
                forall|k: int| 0 <= k < i ==> (#[trigger] ts@[k])@ != a@,
            decreases ts.len() - i,
        {
            if ts[i] == *a {
                return true;
            }
            i += 1;
        }
        false
    }

    /// Keeps the pairs that `dropped` does not select, in order.
    fn drop_pairs(&mut self, n: &String, ts: &Vec<String>, all: bool)
        requires
            old(self).wf(),
        ensures
            final(self).wf(),
            forall|p: (Seq<char>, Seq<char>)|
                #[trigger] final(self).model().contains(p) <==> old(self).model().contains(p)
                    && !Self::dropped(p, n@, targets_set(ts@), all),
    {
        let ghost old_m = self.model();
        let mut kept: Vec<(String, String)> = Vec::new();
        let mut i: usize = 0;
        while i < self.pairs.len()
            invariant
                i <= self.pairs.len(),
                self.model() == old_m,
                old_m.no_duplicates(),
                is_sorted(old_m),
                pairs_model(kept@).no_duplicates(),
                is_sorted(pairs_model(kept@)),
                forall|j: int|
                    0 <= j < kept.len() ==> exists|k: int|
                        0 <= k < i && (#[trigger] pairs_model(kept@)[j]) == old_m[k],
                forall|p: (Seq<char>, Seq<char>)|
                    #[trigger] pairs_model(kept@).contains(p) <==> (exists|k: int|
                        0 <= k < i && old_m[k] == p) && !Self::dropped(p, n@, targets_set(ts@), all),
            decreases self.pairs.len() - i,
        {
            let ghost p = old_m[i as int];
            assert(p == (self.pairs@[i as int].0@, self.pairs@[i as int].1@));
            let go = self.pairs[i].0 == *n && (all || Self::listed(ts, &self.pairs[i].1));
            if !go {
                let ghost before = pairs_model(kept@);
                assert(!before.contains(p)) by {
                    if before.contains(p) {
                        let j = choose|j: int| 0 <= j < before.len() && before[j] == p;
                        let k = choose|k: int| 0 <= k < i && (#[trigger] pairs_model(kept@)[j]) == old_m[k];
                        assert(old_m[k] == old_m[i as int]);
                    }
                }
                kept.push((self.pairs[i].0.clone(), self.pairs[i].1.clone()));
                assert(pairs_model(kept@) =~= before.push(p));
                assert forall|a: int, b: int| 0 <= a < b < pairs_model(kept@).len() implies pair_lt(
                    #[trigger] pairs_model(kept@)[a],
                    #[trigger] pairs_model(kept@)[b],
                ) by {
                    if b == before.len() {
                        assert(pairs_model(kept@)[a] == before[a]);
                        let k = choose|k: int| 0 <= k < i && (#[trigger] pairs_model(kept@)[a]) == old_m[k];
                        assert(pair_lt(old_m[k], old_m[i as int]));
                    } else {
                        assert(pairs_model(kept@)[a] == before[a] && pairs_model(kept@)[b] == before[b]);
                    }
                }
                assert forall|q: (Seq<char>, Seq<char>)|
                    #[trigger] pairs_model(kept@).contains(q) <==> (exists|k: int|
                        0 <= k < i + 1 && old_m[k] == q) && !Self::dropped(q, n@, targets_set(ts@), all) by {
                    if pairs_model(kept@).contains(q) && q != p {
                        let j = choose|j: int| 0 <= j < kept.len() && pairs_model(kept@)[j] == q;
                        assert(before[j] == q);
                        assert(before.contains(q));
                    }
                    if q == p {
                        assert(pairs_model(kept@)[before.len() as int] == q);
                        assert(old_m[i as int] == q);
                        assert(!Self::dropped(q, n@, targets_set(ts@), all));
                    }
                    if (exists|k: int| 0 <= k < i + 1 && old_m[k] == q) && q != p
                        && !Self::dropped(q, n@, targets_set(ts@), all) {
                        let k = choose|k: int| 0 <= k < i + 1 && old_m[k] == q;
                        assert(k < i);
                        assert(before.contains(q));
                        let j = choose|j: int| 0 <= j < before.len() && before[j] == q;
                        assert(pairs_model(kept@)[j] == q);
                    }
                }
            } else {
                assert(Self::dropped(p, n@, targets_set(ts@), all));
                assert forall|q: (Seq<char>, Seq<char>)|
                    #[trigger] pairs_model(kept@).contains(q) <==> (exists|k: int|
                        0 <= k < i + 1 && old_m[k] == q) && !Self::dropped(q, n@, targets_set(ts@), all) by {
                    if q == p {
                        assert(!pairs_model(kept@).contains(q));
                    }
                    if (exists|k: int| 0 <= k < i + 1 && old_m[k] == q) && q != p {
                        let k = choose|k: int| 0 <= k < i + 1 && old_m[k] == q;
                        assert(k < i);
                    }
                }
            }
            i += 1;
        }
        self.pairs = kept;
        assert forall|p: (Seq<char>, Seq<char>)|
            #[trigger] self.model().contains(p) <==> old_m.contains(p)
                && !Self::dropped(p, n@, targets_set(ts@), all) by {
            if old_m.contains(p) {
                let k = choose|k: int| 0 <= k < old_m.len() && old_m[k] == p;
            }
        }
    }

    /// Removes name `n` with all its addresses.
    pub fn remove_name(&mut self, n: &String)
        requires
            old(self).wf(),
        ensures
            final(self).wf(),
            final(self)@ == old(self)@.remove(n@),
    {
        let ghost old_m = self.model();
        let none: Vec<String> = Vec::new();
        self.drop_pairs(n, &none, true);
        proof {
            let l = self@;
            let r = table_of(old_m).remove(n@);
            assert forall|k: Seq<char>| l.contains_key(k) <==> r.contains_key(k) by {
                if l.contains_key(k) {
                    let i = choose|i: int| 0 <= i < self.model().len() && (#[trigger] self.model()[i]).0 == k;
                    assert(self.model().contains(self.model()[i]));
                    let j = choose|j: int| 0 <= j < old_m.len() && old_m[j] == self.model()[i];
                    assert(old_m[j].0 == k);
                }
                if r.contains_key(k) {
                    let i = choose|i: int| 0 <= i < old_m.len() && (#[trigger] old_m[i]).0 == k;
                    assert(old_m.contains(old_m[i]));
                    assert(self.model().contains(old_m[i]));
                    let j = choose|j: int| 0 <= j < self.model().len() && self.model()[j] == old_m[i];
                    assert(self.model()[j].0 == k);
                }
            }
            assert forall|k: Seq<char>| #[trigger] l.contains_key(k) implies l[k] =~= r[k] by {
                assert forall|b: Seq<char>| l[k].contains(b) <==> r[k].contains(b) by {
                    assert(self.model().contains((k, b)) <==> old_m.contains((k, b)));
                }
            }
            assert(l =~= r);
        }
    }

    /// Takes the addresses `ts` away from name `n`; a name left with none goes.
    pub fn remove_targets(&mut self, n: &String, ts: &Vec<String>)
        requires
            old(self).wf(),
        ensures
            final(self).wf(),
            final(self)@ == prune(minus_targets(old(self)@, n@, targets_set(ts@))),
    {
        let ghost old_m = self.model();
        self.drop_pairs(n, ts, false);
        proof {
            let ghost tset = targets_set(ts@);
            let l = self@;
            let r = prune(minus_targets(table_of(old_m), n@, tset));
            assert forall|k: Seq<char>, b: Seq<char>|
                #![trigger self.model().contains((k, b))]
                #![trigger r[k].contains(b)]
                self.model().contains((k, b)) <==> (r.contains_key(k) && r[k].contains(b)) by {
                lemma_table_of_contains(old_m, k, b);
                let mt = minus_targets(table_of(old_m), n@, tset);
                if old_m.contains((k, b)) && !Self::dropped((k, b), n@, tset, false) {
                    assert(mt.contains_key(k));
                    assert(mt[k].contains(b));
                    assert(mt[k] != Set::<Seq<char>>::empty());
                    assert(r.contains_key(k));
                }
                if r.contains_key(k) && r[k].contains(b) {
                    assert(mt[k].contains(b));
                    assert(old_m.contains((k, b)));
                }
            }
            assert forall|k: Seq<char>| l.contains_key(k) <==> r.contains_key(k) by {
                if l.contains_key(k) {
                    let i = choose|i: int| 0 <= i < self.model().len() && (#[trigger] self.model()[i]).0 == k;
                    let b = self.model()[i].1;
                    assert(self.model()[i] == (k, b));
                    assert(self.model().contains((k, b)));
                    assert(self.model().contains((k, b)) <==> (r.contains_key(k) && r[k].contains(b)));
                }
                if r.contains_key(k) {
                    assert(exists|b: Seq<char>| r[k].contains(b)) by {
                        if !(exists|b: Seq<char>| r[k].contains(b)) {
                            assert(r[k] =~= Set::<Seq<char>>::empty());
                        }
                    }
                    let b = choose|b: Seq<char>| r[k].contains(b);
                    assert(self.model().contains((k, b)));
                    let j = choose|j: int| 0 <= j < self.model().len() && self.model()[j] == (k, b);
                    assert(self.model()[j].0 == k);
                }
            }
            assert forall|k: Seq<char>| #[trigger] l.contains_key(k) implies l[k] =~= r[k] by {
                assert forall|b: Seq<char>| l[k].contains(b) <==> r[k].contains(b) by {
                    assert(self.model().contains((k, b)) <==> (r.contains_key(k) && r[k].contains(b)));
                }
            }
            assert(l =~= r);
        }
    }
}

/// Two well-formed tables with the same contents hold the same pairs in the same order.
pub proof fn lemma_same_contents_same_pairs(t1: HostTable, t2: HostTable)
    requires
        t1.wf(),
        t2.wf(),
        t1@ == t2@,
    ensures
        t1.model() == t2.model(),
{
    assert forall|p: (Seq<char>, Seq<char>)| t1.model().contains(p) <==> t2.model().contains(p) by {
        lemma_table_of_contains(t1.model(), p.0, p.1);
        lemma_table_of_contains(t2.model(), p.0, p.1);
    }
    lemma_sorted_unique(t1.model(), t2.model());
}

impl View for HostTable {
    type V = TableMap;

    open spec fn view(&self) -> TableMap {
        table_of(self.model())
    }
}

} // verus!
