//! The journal of what a generation installed. It is a record and a short
//! cut; what the resolver shows is the truth for every deletion.

use vstd::prelude::*;

use super::is_ours;
use crate::text;

verus! {

/// Version of the journal's form.
pub const SCHEMA: u8 = 1;

/// One installed rule: its namespace, and the id it is deleted by.
#[derive(Debug)]
pub struct JournalEntry {
    pub namespace: String,
    pub guid: String,
}

/// The journal.
#[derive(Debug)]
pub struct Journal {
    pub schema: u8,
    pub generation: String,
    pub installed: Vec<JournalEntry>,
}

impl Journal {
    /// The journal of a generation that installed nothing.
    pub fn new(generation: String) -> (r: Journal)
        ensures
            r.schema == SCHEMA,
            r.generation == generation,
            r.installed@.len() == 0,
    {
        Journal { schema: SCHEMA, generation, installed: Vec::new() }
    }
}

/// A journal as read; one of another form is ignored.
pub fn accept(j: Option<Journal>) -> (r: Option<Journal>)
    ensures
        r == match j {
            Some(x) => if x.schema == SCHEMA {
                Some(x)
            } else {
                None
            },
            None => None,
        },
{
    match j {
        Some(x) => if x.schema == SCHEMA {
            Some(x)
        } else {
            None
        },
        None => None,
    }
}

/// The namespaces that a journal lists.
pub fn owned_namespaces(j: &Journal) -> (r: Vec<String>)
    ensures
        text::strs(r@) == j.installed@.map_values(|e: JournalEntry| e.namespace@),
{
    let mut out: Vec<String> = Vec::new();
    let ghost want = j.installed@.map_values(|e: JournalEntry| e.namespace@);
    let mut i: usize = 0;
    while i < j.installed.len()
        invariant
            i <= j.installed@.len(),
            want == j.installed@.map_values(|e: JournalEntry| e.namespace@),
            text::strs(out@) == want.subrange(0, i as int),
        decreases j.installed@.len() - i,
    {
        let n = j.installed[i].namespace.clone();
        let ghost nv = n@;
        let ghost before = out@;
        out.push(n);
        assert(text::strs(out@) =~= text::strs(before).push(nv));
        i += 1;
        assert(text::strs(out@) =~= want.subrange(0, i as int));
    }
    assert(want.subrange(0, i as int) =~= want);
    out
}

/// Whether a rule's comment carries the tag: asked before every deletion,
/// whatever the journal says.
pub fn rule_is_ours(comment: &str) -> (r: bool)
    ensures
        r == text::has_prefix(comment@, super::TAG_PREFIX@),
{
    is_ours(comment)
}

} // verus!
