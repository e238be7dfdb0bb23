//! The provider's configuration, fixed at start-up.

use vstd::prelude::*;

verus! {

/// Which domains the provider serves.
pub struct DomainFilter {
    /// Domain suffixes to match.
    pub filters: Vec<String>,
    /// Domain suffixes not to match.
    pub exclude: Vec<String>,
    /// A regular expression for the domains to match; empty when unused.
    pub regex: String,
    /// A regular expression for the matched domains to leave out; empty when unused.
    pub regex_exclusion: String,
}

pub struct Config {
    /// Compute changes but never write the store.
    pub dry_run: bool,
    pub debug: bool,
    /// The name of the object that holds the host table.
    pub host_configmap_name: String,
    pub host_configmap_namespace: Option<String>,
    /// The key, inside that object, of the host text.
    pub host_configmap_key: String,
    pub listen_addr: String,
    pub health_listen_addr: String,
    pub domain_filter: DomainFilter,
}

fn copy_strings(v: &Vec<String>) -> (r: Vec<String>)
    ensures
        r@ == v@,
{
    let mut r: Vec<String> = Vec::new();
    let mut i: usize = 0;
    while i < v.len()
        invariant
            i <= v.len(),
            r@ == v@.take(i as int),
        decreases v.len() - i,
    {
        r.push(v[i].clone());
        i += 1;
        assert(r@ =~= v@.take(i as int));
    }
    assert(v@.take(i as int) =~= v@);
    r
}

impl DomainFilter {
    /// The same filters, exclusions and expressions.
    pub open spec fn same_as(self, other: DomainFilter) -> bool {
        &&& self.filters@ == other.filters@
        &&& self.exclude@ == other.exclude@
        &&& self.regex == other.regex
        &&& self.regex_exclusion == other.regex_exclusion
    }

    /// A copy of the four fields.
    pub fn snapshot(&self) -> (r: DomainFilter)
        ensures
            r.same_as(*self),
    {
        DomainFilter {
            filters: copy_strings(&self.filters),
            exclude: copy_strings(&self.exclude),
            regex: self.regex.clone(),
            regex_exclusion: self.regex_exclusion.clone(),
        }
    }
}

impl Config {
    /// The configured domain filter, as a value of its own.
    pub fn domain_filter(&self) -> (r: DomainFilter)
        ensures
            r.same_as(self.domain_filter),
    {
        self.domain_filter.snapshot()
    }
}

} // verus!
