//! What a reconciliation run reports: how many resources it created, deleted and updated.
use vstd::prelude::*;

verus! {

/// The kind of a change, whatever the resource.
#[derive(Clone, Copy, Debug, PartialEq, Eq, Structural)]
pub enum OpKind {
    Create,
    Delete,
    Update,
}

/// Counts of the changes of one run that the platform carried out.
#[derive(Clone, Copy, Debug, PartialEq, Eq, Structural)]
pub struct RunSummary {
    pub created: u64,
    pub deleted: u64,
    pub updated: u64,
}

/// Number of the first `n` changes that are of kind `k` and succeeded.
pub open spec fn count_done(kinds: Seq<OpKind>, done: Seq<bool>, k: OpKind, n: int) -> int
    decreases n,
{
    if n <= 0 {
        0
    } else {
        count_done(kinds, done, k, n - 1) + if kinds[n - 1] == k && done[n - 1] {
            1int
        } else {
            0int
        }
    }
}

/// Counts, per kind, the changes that succeeded; `done[i]` tells whether change `i`,
/// of kind `kinds[i]`, was carried out.
pub fn summarize(kinds: &Vec<OpKind>, done: &Vec<bool>) -> (r: RunSummary)
    requires
        kinds@.len() == done@.len(),
    ensures
        r.created == count_done(kinds@, done@, OpKind::Create, kinds@.len() as int),
        r.deleted == count_done(kinds@, done@, OpKind::Delete, kinds@.len() as int),
        r.updated == count_done(kinds@, done@, OpKind::Update, kinds@.len() as int),
{
    let mut r = RunSummary { created: 0, deleted: 0, updated: 0 };
    let mut i: usize = 0;
    while i < kinds.len()
        invariant
            kinds@.len() == done@.len(),
            i <= kinds@.len(),
            r.created + r.deleted + r.updated <= i,
            r.created == count_done(kinds@, done@, OpKind::Create, i as int),
            r.deleted == count_done(kinds@, done@, OpKind::Delete, i as int),
            r.updated == count_done(kinds@, done@, OpKind::Update, i as int),
        decreases kinds@.len() - i,
    {
        if done[i] {
            match kinds[i] {
                OpKind::Create => {
                    r.created = r.created + 1;
                },
                OpKind::Delete => {
                    r.deleted = r.deleted + 1;
                },
                OpKind::Update => {
                    r.updated = r.updated + 1;
                },
            }
        }
        i = i + 1;
    }
    r
}

} // verus!
