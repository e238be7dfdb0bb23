//! The decisions of the host-table store: what a read yields, and which write to make.

use vstd::prelude::*;
use crate::codec::{format_records, host_text, parse_hosts, parse_text};
use crate::hosts::HostTable;

verus! {

/// The table that a read of the store yields: `None` stands for a missing file,
/// object or key, which is an empty table and no error.
pub fn table_from_store(content: Option<String>) -> (t: HostTable)
    ensures
        t.wf(),
        match content {
            Some(s) => t@ == parse_text(s@),
            None => t@ == Map::<Seq<char>, Set<Seq<char>>>::empty(),
        },
{
    match content {
        Some(s) => parse_hosts(s.as_str()),
        None => HostTable::new(),
    }
}

/// Whether an object named `name` is among the listed object names.
pub fn object_exists(names: &Vec<Option<String>>, name: &String) -> (r: bool)
    ensures
        r == exists|i: int|
            0 <= i < names.len() && (#[trigger] names@[i]) is Some && names@[i]->0@ == name@,
{
    let mut i: usize = 0;
    while i < names.len()
        invariant
            i <= names.len(),
            forall|k: int|
                0 <= k < i ==> !((#[trigger] names@[k]) is Some && names@[k]->0@ == name@),
        decreases names.len() - i,
    {
        match &names[i] {
            Some(n) => {
                if *n == *name {
                    return true;
                }
            },
            None => {},
        }
        i += 1;
    }
    false
}

/// A write of the host text under one key of the remote object.
pub enum StoreWrite {
    /// Create the object with this key.
    Create { key: String, content: String },
    /// Replace this key of the existing object, leaving its other keys.
    Patch { key: String, content: String },
}

/// The write that saves `table` under `key`: a patch when the object exists, a
/// creation otherwise.
pub fn plan_write(exists: bool, key: &String, table: &HostTable) -> (w: StoreWrite)
    ensures
        exists ==> (w matches StoreWrite::Patch { key: k, content: c } && k == *key && c@ == host_text(
            table.model(),
        )),
        !exists ==> (w matches StoreWrite::Create { key: k, content: c } && k == *key && c@
            == host_text(table.model())),
{
    let content = format_records(table);
    if exists {
        StoreWrite::Patch { key: key.clone(), content }
    } else {
        StoreWrite::Create { key: key.clone(), content }
    }
}

} // verus!
