//! DNS endpoints, change-sets, and the reconciliation of a change-set with a host table.

use vstd::prelude::*;
use crate::hosts::{
    already_held, is_pruned, lemma_table_of_pruned, minus_targets, prune, strings_view, targets_set,
    union_targets, HostTable,
    TableMap,
};
use std::collections::HashMap;

verus! {

/// The kind of a DNS record. The host table does not tell kinds apart.
#[derive(Clone, Copy, Debug, PartialEq, Eq, Structural)]
pub enum RecordType {
    A,
    AAAA,
    CNAME,
    TXT,
    SRV,
    NS,
    PTR,
    MX,
    NAPTR,
}

#[derive(Clone, Debug)]
pub struct ProviderSpecificProperty {
    pub name: String,
    pub value: String,
}

pub type TTL = i64;

pub type ProviderSpecific = Vec<ProviderSpecificProperty>;

pub type Targets = Vec<String>;

pub type Labels = HashMap<String, String>;

/// One DNS record.
#[derive(Clone, Debug)]
pub struct Endpoint {
    /// The host name of the record.
    pub dns_name: String,
    /// The addresses the record points to.
    pub targets: Targets,
    pub record_type: RecordType,
    /// Tells apart records of one name and kind under different routing policies.
    pub set_identifier: Option<String>,
    pub record_t_t_l: Option<TTL>,
    pub labels: Option<Labels>,
    pub provider_specific: Option<ProviderSpecific>,
}

pub type Records = Vec<Endpoint>;

/// A change-set. `update_old[i]` is replaced by `update_new[i]`.
#[derive(Clone, Debug)]
pub struct Changes {
    pub create: Option<Records>,
    pub update_old: Option<Records>,
    pub update_new: Option<Records>,
    pub delete: Option<Records>,
}

/// The endpoints of an optional list; none when it is absent.
pub open spec fn endpoints(o: Option<Records>) -> Seq<Endpoint> {
    match o {
        Some(v) => v@,
        None => Seq::empty(),
    }
}

/// The addresses an endpoint names.
pub open spec fn targets_of(e: Endpoint) -> Set<Seq<char>> {
    targets_set(e.targets@)
}

/// Step 1: each created endpoint's addresses join those of its name.
pub open spec fn apply_creates(m: TableMap, eps: Seq<Endpoint>) -> TableMap
    decreases eps.len(),
{
    if eps.len() == 0 {
        m
    } else {
        union_targets(apply_creates(m, eps.drop_last()), eps.last().dns_name@, targets_of(eps.last()))
    }
}

/// Step 2: each deleted endpoint's name goes, whatever addresses it lists.
pub open spec fn apply_deletes(m: TableMap, eps: Seq<Endpoint>) -> TableMap
    decreases eps.len(),
{
    if eps.len() == 0 {
        m
    } else {
        apply_deletes(m, eps.drop_last()).remove(eps.last().dns_name@)
    }
}

/// One update pair: the old addresses go and the new ones come, for a name that is
/// present; an absent name is created with the new addresses; a pair whose two names
/// differ changes nothing.
pub open spec fn replace_targets(m: TableMap, old: Endpoint, new: Endpoint) -> TableMap {
    let n = old.dns_name@;
    if n != new.dns_name@ {
        m
    } else if m.contains_key(n) {
        m.insert(n, m[n].difference(targets_of(old)).union(targets_of(new)))
    } else {
        m.insert(n, targets_of(new))
    }
}

/// Step 3: the first `k` update pairs, in order.
pub open spec fn apply_updates(m: TableMap, olds: Seq<Endpoint>, news: Seq<Endpoint>, k: nat) -> TableMap
    decreases k,
{
    if k == 0 {
        m
    } else {
        replace_targets(apply_updates(m, olds, news, (k - 1) as nat), olds[k - 1], news[k - 1])
    }
}

/// How many update pairs a change-set holds: the shorter list decides.
pub open spec fn pair_count(c: Changes) -> nat {
    let o = endpoints(c.update_old).len();
    let n = endpoints(c.update_new).len();
    if o < n {
        o
    } else {
        n
    }
}

/// The table after a change-set: creates, then deletes, then update pairs; names left
/// with no address go.
pub open spec fn reconciled(m: TableMap, c: Changes) -> TableMap {
    let created = apply_creates(m, endpoints(c.create));
    let deleted = apply_deletes(created, endpoints(c.delete));
    prune(apply_updates(deleted, endpoints(c.update_old), endpoints(c.update_new), pair_count(c)))
}

proof fn lemma_prune_union(x: TableMap, n: Seq<char>, s: Set<Seq<char>>)
    ensures
        prune(union_targets(prune(x), n, s)) == prune(union_targets(x, n, s)),
{
    let l = prune(union_targets(prune(x), n, s));
    let r = prune(union_targets(x, n, s));
    if x.contains_key(n) && x[n] == Set::<Seq<char>>::empty() {
        assert(x[n].union(s) =~= s);
    }
    assert(l =~= r);
}

proof fn lemma_prune_remove(x: TableMap, n: Seq<char>)
    ensures
        prune(x).remove(n) == prune(x.remove(n)),
{
    assert(prune(x).remove(n) =~= prune(x.remove(n)));
}

proof fn lemma_prune_replace(x: TableMap, o: Endpoint, w: Endpoint)
    ensures
        prune(replace_targets(prune(x), o, w)) == prune(replace_targets(x, o, w)),
{
    let n = o.dns_name@;
    let l = prune(replace_targets(prune(x), o, w));
    let r = prune(replace_targets(x, o, w));
    if x.contains_key(n) && x[n] == Set::<Seq<char>>::empty() {
        assert(x[n].difference(targets_of(o)).union(targets_of(w)) =~= targets_of(w));
    }
    assert(l =~= r);
}

proof fn lemma_pruned_fixed(m: TableMap)
    requires
        is_pruned(m),
    ensures
        prune(m) == m,
{
    assert(prune(m) =~= m);
}

/// A change-set whose lists are all absent or empty.
pub open spec fn is_empty_change_set(c: Changes) -> bool {
    &&& endpoints(c.create).len() == 0
    &&& endpoints(c.delete).len() == 0
    &&& endpoints(c.update_old).len() == 0
    &&& endpoints(c.update_new).len() == 0
}

/// An empty change-set leaves the table as it is and reports nothing; `reconcile` then
/// reports no change, so nothing is saved.
pub proof fn lemma_empty_change_set(t: HostTable, c: Changes)
    requires
        is_empty_change_set(c),
    ensures
        reconciled(t@, c) == t@,
        anomalies_of(t@, c) == Seq::<AnomalyView>::empty(),
{
    lemma_table_of_pruned(t.model());
    lemma_pruned_fixed(t@);
    assert(anomalies_of(t@, c) =~= Seq::<AnomalyView>::empty());
}

/// No name is left with an empty set of addresses after a change-set.
pub proof fn lemma_reconciled_pruned(m: TableMap, c: Changes)
    ensures
        is_pruned(reconciled(m, c)),
{
}

/// A single create joins its addresses to those already held by its name.
pub proof fn lemma_create_unions(m: TableMap, c: Changes, e: Endpoint)
    requires
        is_pruned(m),
        endpoints(c.create) == seq![e],
        endpoints(c.delete).len() == 0,
        pair_count(c) == 0,
    ensures
        reconciled(m, c) == prune(union_targets(m, e.dns_name@, targets_of(e))),
        m.contains_key(e.dns_name@) ==> reconciled(m, c)[e.dns_name@] == m[e.dns_name@].union(
            targets_of(e),
        ),
{
    assert(seq![e].drop_last() =~= Seq::<Endpoint>::empty());
    let u = union_targets(m, e.dns_name@, targets_of(e));
    assert(apply_creates(m, Seq::<Endpoint>::empty()) == m);
    assert(apply_creates(m, seq![e]) == u);
    assert(apply_deletes(u, endpoints(c.delete)) == u);
    assert(apply_updates(u, endpoints(c.update_old), endpoints(c.update_new), 0) == u);
    assert(reconciled(m, c) == prune(u));
    if m.contains_key(e.dns_name@) {
        let x = m[e.dns_name@];
        assert(x != Set::<Seq<char>>::empty());
        assert(exists|a: Seq<char>| x.contains(a)) by {
            if !(exists|a: Seq<char>| x.contains(a)) {
                assert(x =~= Set::<Seq<char>>::empty());
            }
        }
        let a = choose|a: Seq<char>| x.contains(a);
        assert(u[e.dns_name@].contains(a));
    }
}

/// A single delete removes its name with all its addresses, whatever addresses the
/// deleted endpoint lists.
pub proof fn lemma_delete_removes_name(m: TableMap, c: Changes, e: Endpoint)
    requires
        is_pruned(m),
        endpoints(c.create).len() == 0,
        endpoints(c.delete) == seq![e],
        pair_count(c) == 0,
    ensures
        reconciled(m, c) == m.remove(e.dns_name@),
{
    assert(seq![e].drop_last() =~= Seq::<Endpoint>::empty());
    let r = m.remove(e.dns_name@);
    assert(apply_creates(m, endpoints(c.create)) == m);
    assert(apply_deletes(m, Seq::<Endpoint>::empty()) == m);
    assert(apply_deletes(m, seq![e]) == r);
    assert(apply_updates(r, endpoints(c.update_old), endpoints(c.update_new), 0) == r);
    assert(prune(r) =~= r);
}

/// A single update pair on a present name takes away only the old pair's addresses and
/// adds the new pair's; the other addresses of the name stay.
pub proof fn lemma_update_partial(m: TableMap, c: Changes, o: Endpoint, w: Endpoint)
    requires
        is_pruned(m),
        endpoints(c.create).len() == 0,
        endpoints(c.delete).len() == 0,
        endpoints(c.update_old) == seq![o],
        endpoints(c.update_new) == seq![w],
        o.dns_name@ == w.dns_name@,
        m.contains_key(o.dns_name@),
    ensures
        reconciled(m, c) == prune(
            m.insert(o.dns_name@, m[o.dns_name@].difference(targets_of(o)).union(targets_of(w))),
        ),
{
    assert(pair_count(c) == 1);
    assert(apply_creates(m, endpoints(c.create)) == m);
    assert(apply_deletes(m, endpoints(c.delete)) == m);
    assert(apply_updates(m, seq![o], seq![w], 0) == m);
    assert(apply_updates(m, seq![o], seq![w], 1) == replace_targets(m, o, w));
}

/// An update pair that takes away every address of a name and adds none leaves the
/// name absent, not present with an empty set.
pub proof fn lemma_emptied_name_removed(m: TableMap, c: Changes, o: Endpoint, w: Endpoint)
    requires
        is_pruned(m),
        endpoints(c.create).len() == 0,
        endpoints(c.delete).len() == 0,
        endpoints(c.update_old) == seq![o],
        endpoints(c.update_new) == seq![w],
        o.dns_name@ == w.dns_name@,
        m.contains_key(o.dns_name@),
        m[o.dns_name@].subset_of(targets_of(o)),
        targets_of(w) == Set::<Seq<char>>::empty(),
    ensures
        !reconciled(m, c).contains_key(o.dns_name@),
{
    lemma_update_partial(m, c, o, w);
    assert(m[o.dns_name@].difference(targets_of(o)).union(targets_of(w)) =~= Set::<Seq<char>>::empty());
}

/// A departure from the protocol met while applying a change-set; it is tolerated, and
/// reported so that it can be logged.
#[derive(Clone, Debug)]
pub enum Anomaly {
    /// A deleted name that the table did not hold.
    DeleteAbsent { name: String },
    /// An update pair whose two names differ; it is skipped.
    NameMismatch { old_name: String, new_name: String },
    /// An updated name that the table did not hold; it is created.
    UpdateAbsent { name: String },
    /// An address that an update adds to a name that already holds it.
    AddressPresent { name: String, address: String },
    /// Update entries beyond the shorter of the two lists; they are not applied.
    Unpaired { count: usize },
}

pub enum AnomalyView {
    DeleteAbsent { name: Seq<char> },
    NameMismatch { old_name: Seq<char>, new_name: Seq<char> },
    UpdateAbsent { name: Seq<char> },
    AddressPresent { name: Seq<char>, address: Seq<char> },
    Unpaired { count: nat },
}

impl View for Anomaly {
    type V = AnomalyView;

    open spec fn view(&self) -> AnomalyView {
        match self {
            Anomaly::DeleteAbsent { name } => AnomalyView::DeleteAbsent { name: name@ },
            Anomaly::NameMismatch { old_name, new_name } => AnomalyView::NameMismatch {
                old_name: old_name@,
                new_name: new_name@,
            },
            Anomaly::UpdateAbsent { name } => AnomalyView::UpdateAbsent { name: name@ },
            Anomaly::AddressPresent { name, address } => AnomalyView::AddressPresent {
                name: name@,
                address: address@,
            },
            Anomaly::Unpaired { count } => AnomalyView::Unpaired { count: *count as nat },
        }
    }
}

pub open spec fn anomaly_views(v: Seq<Anomaly>) -> Seq<AnomalyView> {
    v.map_values(|a: Anomaly| a@)
}

/// The deletes, in order, of names absent when their turn came.
pub open spec fn delete_anomalies(m: TableMap, eps: Seq<Endpoint>) -> Seq<AnomalyView>
    decreases eps.len(),
{
    if eps.len() == 0 {
        Seq::empty()
    } else {
        let prev = delete_anomalies(m, eps.drop_last());
        let n = eps.last().dns_name@;
        if prune(apply_deletes(m, eps.drop_last())).contains_key(n) {
            prev
        } else {
            prev.push(AnomalyView::DeleteAbsent { name: n })
        }
    }
}

/// An address-present report for each of `held`, for name `n`.
pub open spec fn present_anomalies(n: Seq<char>, held: Seq<Seq<char>>) -> Seq<AnomalyView> {
    held.map_values(|a: Seq<char>| AnomalyView::AddressPresent { name: n, address: a })
}

/// What one update pair reports, against the table `s` it applies to.
pub open spec fn pair_anomalies(s: TableMap, o: Endpoint, w: Endpoint) -> Seq<AnomalyView> {
    let n = o.dns_name@;
    if n != w.dns_name@ {
        seq![AnomalyView::NameMismatch { old_name: n, new_name: w.dns_name@ }]
    } else if !s.contains_key(n) {
        seq![AnomalyView::UpdateAbsent { name: n }]
    } else {
        present_anomalies(n, already_held(prune(minus_targets(s, n, targets_of(o))), n, w.targets@))
    }
}

/// What the first `k` update pairs report, in order.
pub open spec fn update_anomalies(m: TableMap, olds: Seq<Endpoint>, news: Seq<Endpoint>, k: nat) -> Seq<AnomalyView>
    decreases k,
{
    if k == 0 {
        Seq::empty()
    } else {
        let j = (k - 1) as nat;
        update_anomalies(m, olds, news, j) + pair_anomalies(
            prune(apply_updates(m, olds, news, j)),
            olds[j as int],
            news[j as int],
        )
    }
}

/// How many update entries have no partner.
pub open spec fn unpaired_count(c: Changes) -> nat {
    let o = endpoints(c.update_old).len();
    let n = endpoints(c.update_new).len();
    if o < n {
        (n - o) as nat
    } else {
        (o - n) as nat
    }
}

/// Everything a change-set reports against table `m`: absent deletes, then what each
/// update pair reports, then the count of unpaired update entries (when there are any).
pub open spec fn anomalies_of(m: TableMap, c: Changes) -> Seq<AnomalyView> {
    let created = apply_creates(m, endpoints(c.create));
    let deleted = apply_deletes(created, endpoints(c.delete));
    let tail = if unpaired_count(c) > 0 {
        seq![AnomalyView::Unpaired { count: unpaired_count(c) }]
    } else {
        Seq::empty()
    };
    delete_anomalies(created, endpoints(c.delete)) + update_anomalies(
        deleted,
        endpoints(c.update_old),
        endpoints(c.update_new),
        pair_count(c),
    ) + tail
}

/// The outcome of a reconciliation: the next table, and whether it differs from the
/// table it started from.
pub struct Reconciliation {
    pub table: HostTable,
    pub changed: bool,
    /// What the change-set did that the protocol does not expect, in order.
    pub anomalies: Vec<Anomaly>,
}

impl Reconciliation {
    /// Whether the store must be written: only for a change, and never in a dry run.
    pub fn needs_save(&self, dry_run: bool) -> (r: bool)
        ensures
            r == (self.changed && !dry_run),
    {
        self.changed && !dry_run
    }
}

/// Applies the change-set to a copy of `current`.
pub fn reconcile(current: &HostTable, changes: &Changes) -> (r: Reconciliation)
    requires
        current.wf(),
    ensures
        r.table.wf(),
        r.table@ == reconciled(current@, *changes),
        r.changed == (r.table@ != current@),
        anomaly_views(r.anomalies@) == anomalies_of(current@, *changes),
{
    let mut anomalies: Vec<Anomaly> = Vec::new();
    let ghost m = current@;
    proof {
        lemma_table_of_pruned(current.model());
        lemma_pruned_fixed(m);
    }
    let mut t = current.copy();
    let ghost creates = endpoints(changes.create);
    if let Some(records) = &changes.create {
        let mut i: usize = 0;
        assert(records@.take(0) =~= Seq::<Endpoint>::empty());
        while i < records.len()
            invariant
                i <= records.len(),
                t.wf(),
                t@ == prune(apply_creates(m, records@.take(i as int))),
            decreases records.len() - i,
        {
            let e = &records[i];
            proof {
                lemma_prune_union(apply_creates(m, records@.take(i as int)), e.dns_name@, targets_of(*e));
                assert(records@.take(i + 1).drop_last() =~= records@.take(i as int));
            }
            t.insert_targets(&e.dns_name, &e.targets);
            i += 1;
        }
        assert(records@.take(i as int) =~= records@);
    }
    let ghost created = apply_creates(m, creates);
    assert(t@ == prune(created));
    let ghost deletes = endpoints(changes.delete);
    if let Some(records) = &changes.delete {
        let mut i: usize = 0;
        assert(records@.take(0) =~= Seq::<Endpoint>::empty());
        while i < records.len()
            invariant
                i <= records.len(),
                t.wf(),
                t@ == prune(apply_deletes(created, records@.take(i as int))),
                anomaly_views(anomalies@) == delete_anomalies(created, records@.take(i as int)),
            decreases records.len() - i,
        {
            let e = &records[i];
            let ghost av = anomaly_views(anomalies@);
            if !t.contains_name(&e.dns_name) {
                anomalies.push(Anomaly::DeleteAbsent { name: e.dns_name.clone() });
                assert(anomaly_views(anomalies@) =~= av.push(AnomalyView::DeleteAbsent { name: e.dns_name@ }));
            }
            proof {
                lemma_prune_remove(apply_deletes(created, records@.take(i as int)), e.dns_name@);
                assert(records@.take(i + 1).drop_last() =~= records@.take(i as int));
            }
            t.remove_name(&e.dns_name);
            i += 1;
        }
        assert(records@.take(i as int) =~= records@);
    }
    let ghost deleted = apply_deletes(created, deletes);
    assert(t@ == prune(deleted));
    assert(anomaly_views(anomalies@) == delete_anomalies(created, deletes));
    let ghost base = anomaly_views(anomalies@);
    if let (Some(olds), Some(news)) = (&changes.update_old, &changes.update_new) {
        let count = if olds.len() < news.len() { olds.len() } else { news.len() };
        let mut i: usize = 0;
        while i < count
            invariant
                i <= count,
                count <= olds.len(),
                count <= news.len(),
                t.wf(),
                t@ == prune(apply_updates(deleted, olds@, news@, i as nat)),
                anomaly_views(anomalies@) == base + update_anomalies(deleted, olds@, news@, i as nat),
            decreases count - i,
        {
            let o = &olds[i];
            let w = &news[i];
            let ghost pre = anomaly_views(anomalies@);
            assert(update_anomalies(deleted, olds@, news@, (i + 1) as nat) == update_anomalies(deleted, olds@, news@, i as nat) + pair_anomalies(t@, *o, *w));
            let ghost x = apply_updates(deleted, olds@, news@, i as nat);
            let ghost tb = t@;
            proof {
                lemma_prune_replace(x, *o, *w);
                lemma_table_of_pruned(t.model());
                assert(apply_updates(deleted, olds@, news@, (i + 1) as nat) == replace_targets(x, olds@[i as int], news@[i as int]));
            }
            if o.dns_name == w.dns_name {
                if t.contains_name(&o.dns_name) {
                    t.remove_targets(&o.dns_name, &o.targets);
                    proof {
                        let n = o.dns_name@;
                        lemma_prune_union(minus_targets(tb, n, targets_of(*o)), n, targets_of(*w));
                        assert(union_targets(minus_targets(tb, n, targets_of(*o)), n, targets_of(*w)) =~= replace_targets(tb, *o, *w));
                    }
                    let held = t.insert_targets(&o.dns_name, &w.targets);
                    let ghost hv = strings_view(held@);
                    let mut j: usize = 0;
                    assert(present_anomalies(o.dns_name@, hv.take(0)) =~= Seq::<AnomalyView>::empty());
                    assert(pre + present_anomalies(o.dns_name@, hv.take(0)) =~= pre);
                    while j < held.len()
                        invariant
                            j <= held.len(),
                            hv == strings_view(held@),
                            anomaly_views(anomalies@) == pre + present_anomalies(o.dns_name@, hv.take(j as int)),
                        decreases held.len() - j,
                    {
                        let ghost av = anomaly_views(anomalies@);
                        let name = o.dns_name.clone();
                        let address = held[j].clone();
                        assert(hv[j as int] == held@[j as int]@);
                        anomalies.push(Anomaly::AddressPresent { name, address });
                        let ghost item = AnomalyView::AddressPresent { name: o.dns_name@, address: hv[j as int] };
                        assert(present_anomalies(o.dns_name@, hv.take(j + 1)) =~= present_anomalies(o.dns_name@, hv.take(j as int)).push(item));
                        assert(anomaly_views(anomalies@) =~= av.push(item));
                        j += 1;
                    }
                    assert(hv.take(j as int) =~= hv);
                } else {
                    anomalies.push(Anomaly::UpdateAbsent { name: w.dns_name.clone() });
                    assert(anomaly_views(anomalies@) =~= pre + pair_anomalies(tb, *o, *w));
                    t.insert_targets(&w.dns_name, &w.targets);
                }
            } else {
                anomalies.push(Anomaly::NameMismatch { old_name: o.dns_name.clone(), new_name: w.dns_name.clone() });
                assert(anomaly_views(anomalies@) =~= pre + pair_anomalies(tb, *o, *w));
                proof {
                    lemma_pruned_fixed(t@);
                }
            }
            i += 1;
        }
    }
    assert(anomaly_views(anomalies@) == base + update_anomalies(
        deleted,
        endpoints(changes.update_old),
        endpoints(changes.update_new),
        pair_count(*changes),
    ));
    let olds_len: usize = match &changes.update_old {
        Some(v) => v.len(),
        None => 0,
    };
    let news_len: usize = match &changes.update_new {
        Some(v) => v.len(),
        None => 0,
    };
    let unpaired = if olds_len < news_len { news_len - olds_len } else { olds_len - news_len };
    let ghost mid = anomaly_views(anomalies@);
    if unpaired > 0 {
        anomalies.push(Anomaly::Unpaired { count: unpaired });
        assert(anomaly_views(anomalies@) =~= mid.push(AnomalyView::Unpaired { count: unpaired as nat }));
    }
    assert(anomaly_views(anomalies@) =~= anomalies_of(current@, *changes));
    let changed = !t.same_as(current);
    Reconciliation { table: t, changed, anomalies }
}


/// A record of kind A with no metadata.
pub open spec fn is_plain(e: Endpoint) -> bool {
    &&& e.record_type == RecordType::A
    &&& e.set_identifier is None
    &&& e.record_t_t_l is None
    &&& e.labels is None
    &&& e.provider_specific is None
}

/// Lists the table as records: one A record per name, holding its addresses.
pub fn to_endpoints(t: &HostTable) -> (r: Records)
    requires
        t.wf(),
    ensures
        forall|k: int|
            0 <= k < r.len() ==> t@.contains_key((#[trigger] r@[k]).dns_name@) && targets_of(r@[k])
                == t@[r@[k].dns_name@] && is_plain(r@[k]) && strings_view(r@[k].targets@).no_duplicates(),
        forall|n: Seq<char>|
            #[trigger] t@.contains_key(n) ==> exists|k: int| 0 <= k < r.len() && r@[k].dns_name@ == n,
        forall|j: int, k: int|
            0 <= j < k < r.len() ==> (#[trigger] r@[j]).dns_name@ != (#[trigger] r@[k]).dns_name@,
{
    let ps = t.pairs();
    let ghost model = t.model();
    let mut r: Records = Vec::new();
    let mut i: usize = 0;
    while i < ps.len()
        invariant
            i <= ps.len(),
            crate::hosts::pairs_model(ps@) == model,
            model == t.model(),
            t.wf(),
            forall|k: int|
                0 <= k < r.len() ==> t@.contains_key((#[trigger] r@[k]).dns_name@) && targets_of(
                    r@[k],
                ) == t@[r@[k].dns_name@] && is_plain(r@[k]) && strings_view(r@[k].targets@).no_duplicates(),
            forall|j: int|
                0 <= j < i ==> exists|k: int| 0 <= k < r.len() && r@[k].dns_name@ == (#[trigger] model[j]).0,
            forall|j: int, k: int|
                0 <= j < k < r.len() ==> (#[trigger] r@[j]).dns_name@ != (#[trigger] r@[k]).dns_name@,
        decreases ps.len() - i,
    {
        let name = &ps[i].0;
        assert(model[i as int].0 == name@);
        let mut seen = false;
        let mut k: usize = 0;
        while k < r.len()
            invariant
                k <= r.len(),
                seen ==> exists|q: int| 0 <= q < r.len() && r@[q].dns_name@ == name@,
                !seen ==> forall|q: int| 0 <= q < k ==> (#[trigger] r@[q]).dns_name@ != name@,
            decreases r.len() - k,
        {
            if r[k].dns_name == *name {
                seen = true;
            }
            k += 1;
        }
        if !seen {
            proof {
                crate::hosts::lemma_table_of_contains(model, model[i as int].0, model[i as int].1);
                assert(model.contains(model[i as int]));
            }
            let targets = t.addresses_of(name);
            let e = Endpoint {
                dns_name: name.clone(),
                targets,
                record_type: RecordType::A,
                set_identifier: None,
                record_t_t_l: None,
                labels: None,
                provider_specific: None,
            };
            let ghost before = r@;
            r.push(e);
            assert forall|j: int| 0 <= j < i + 1 implies exists|q: int|
                0 <= q < r.len() && r@[q].dns_name@ == (#[trigger] model[j]).0 by {
                if j < i {
                    let q = choose|q: int| 0 <= q < before.len() && before[q].dns_name@ == model[j].0;
                    assert(r@[q] == before[q]);
                } else {
                    assert(r@[before.len() as int].dns_name@ == model[j].0);
                }
            }
        }
        i += 1;
    }
    proof {
        assert forall|n: Seq<char>| #[trigger] t@.contains_key(n) implies exists|k: int|
            0 <= k < r.len() && r@[k].dns_name@ == n by {
            let j = choose|j: int| 0 <= j < model.len() && (#[trigger] model[j]).0 == n;
        }
    }
    r
}

/// The endpoint without the metadata that the host table cannot keep: set identifier,
/// TTL, labels and provider-specific properties.
pub open spec fn stripped(e: Endpoint) -> Endpoint {
    Endpoint {
        set_identifier: None,
        record_t_t_l: None,
        labels: None,
        provider_specific: None,
        ..e
    }
}

/// Strips each endpoint of the metadata this provider does not support.
pub fn adjust_endpoints(records: Records) -> (r: Records)
    ensures
        r.len() == records.len(),
        forall|i: int| 0 <= i < r.len() ==> #[trigger] r@[i] == stripped(records@[i]),
{
    let ghost input = records@;
    let mut r: Records = Vec::new();
    for e in it: records.into_iter()
        invariant
            it.seq() == input,
            r.len() == it.index(),
            forall|i: int| 0 <= i < r.len() ==> #[trigger] r@[i] == stripped(input[i]),
    {
        r.push(Endpoint {
            dns_name: e.dns_name,
            targets: e.targets,
            record_type: e.record_type,
            set_identifier: None,
            record_t_t_l: None,
            labels: None,
            provider_specific: None,
        });
    }
    r
}

} // verus!
