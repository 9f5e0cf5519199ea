//! Requests and the train resolver: the snapshot of open requests a
//! reconciliation pass works against, the merged-predicate, and the mapping
//! from graph answers to train membership and base target.

use vstd::prelude::*;
use crate::bytes::{bytes_eq, copy_range, has_prefix};

verus! {

/// A code-review request as the reconciler sees it: one per head branch,
/// fetched once per pass.
pub struct Request {
    /// The numeric id other requests refer to as `#<id>`.
    pub id: u64,
    /// The head branch name.
    pub head: Vec<u8>,
    /// The base target branch name recorded at the host.
    pub base: Vec<u8>,
    /// The request title.
    pub title: Vec<u8>,
    /// The request state as the host reports it, e.g. `MERGED` or `CLOSED`.
    pub state: Vec<u8>,
    /// The request description text.
    pub description: Vec<u8>,
}

/// The state bytes `MERGED`.
pub open spec fn merged_state() -> Seq<u8> {
    seq![77u8, 69, 82, 71, 69, 68]
}

/// The state bytes `CLOSED`.
pub open spec fn closed_state() -> Seq<u8> {
    seq![67u8, 76, 79, 83, 69, 68]
}

/// The title prefix `[merged] ` that marks a closed request as logically
/// merged.
pub open spec fn merged_prefix() -> Seq<u8> {
    seq![91u8, 109, 101, 114, 103, 101, 100, 93, 32]
}

/// A request counts as merged when its state is `MERGED`, or when it is
/// `CLOSED` and its title carries the `[merged] ` prefix.
pub open spec fn is_merged_spec(r: Request) -> bool {
    r.state@ == merged_state() || (r.state@ == closed_state() && merged_prefix().len()
        <= r.title@.len() && r.title@.subrange(0, merged_prefix().len() as int)
        == merged_prefix())
}

/// Whether the request is merged, or closed with a title marking it merged.
pub fn is_merged(pr: &Request) -> (r: bool)
    ensures
        r == is_merged_spec(*pr),
{
    let merged: Vec<u8> = vec![77u8, 69, 82, 71, 69, 68];
    assert(merged@ =~= merged_state());
    if bytes_eq(&pr.state, &merged) {
        return true;
    }
    let closed: Vec<u8> = vec![67u8, 76, 79, 83, 69, 68];
    assert(closed@ =~= closed_state());
    if !bytes_eq(&pr.state, &closed) {
        return false;
    }
    let prefix: Vec<u8> = vec![91u8, 109, 101, 114, 103, 101, 100, 93, 32];
    assert(prefix@ =~= merged_prefix());
    has_prefix(&pr.title, &prefix)
}

/// The first request in the snapshot carrying the given id.
pub open spec fn find_by_id(snap: Seq<Request>, id: u64) -> Option<Request>
    decreases snap.len(),
{
    if snap.len() == 0 {
        None
    } else if snap[0].id == id {
        Some(snap[0])
    } else {
        find_by_id(snap.skip(1), id)
    }
}

/// The first request in the snapshot whose head is the given branch.
pub open spec fn find_by_head(snap: Seq<Request>, head: Seq<u8>) -> Option<Request>
    decreases snap.len(),
{
    if snap.len() == 0 {
        None
    } else if snap[0].head@ == head {
        Some(snap[0])
    } else {
        find_by_head(snap.skip(1), head)
    }
}

/// An id is independently confirmed merged when the snapshot holds a request
/// with that id and the merged-predicate accepts it.
pub open spec fn id_merged(snap: Seq<Request>, id: u64) -> bool {
    match find_by_id(snap, id) {
        Some(r) => is_merged_spec(r),
        None => false,
    }
}

/// The set of ids the snapshot confirms merged.
pub open spec fn merged_ids(snap: Seq<Request>) -> Set<u64> {
    Set::new(|id: u64| id_merged(snap, id))
}

/// Is `id` confirmed merged by the snapshot?
pub fn lookup_merged(snap: &Vec<Request>, id: u64) -> (r: bool)
    ensures
        r == merged_ids(snap@).contains(id),
{
    let mut i: usize = 0;
    assert(snap@.skip(0) =~= snap@);
    while i < snap.len()
        invariant
            i <= snap.len(),
            find_by_id(snap@, id) == find_by_id(snap@.skip(i as int), id),
        decreases snap.len() - i,
    {
        assert(snap@.skip(i as int)[0] == snap@[i as int]);
        if snap[i].id == id {
            let m = is_merged(&snap[i]);
            assert(find_by_id(snap@.skip(i as int), id) == Some(snap@[i as int]));
            return m;
        }
        assert(snap@.skip(i as int).skip(1) =~= snap@.skip(i + 1));
        i += 1;
    }
    assert(snap@.skip(snap@.len() as int).len() == 0);
    false
}

/// Index of the first snapshot entry whose head is the given branch.
pub fn find_request(snap: &Vec<Request>, head: &Vec<u8>) -> (r: Option<usize>)
    ensures
        match r {
            Some(j) => j < snap@.len() && find_by_head(snap@, head@) == Some(snap@[j as int]),
            None => find_by_head(snap@, head@) is None,
        },
{
    let mut i: usize = 0;
    assert(snap@.skip(0) =~= snap@);
    while i < snap.len()
        invariant
            i <= snap.len(),
            find_by_head(snap@, head@) == find_by_head(snap@.skip(i as int), head@),
        decreases snap.len() - i,
    {
        assert(snap@.skip(i as int)[0] == snap@[i as int]);
        if bytes_eq(&snap[i].head, head) {
            assert(find_by_head(snap@.skip(i as int), head@) == Some(snap@[i as int]));
            return Some(i);
        }
        assert(snap@.skip(i as int).skip(1) =~= snap@.skip(i + 1));
        i += 1;
    }
    assert(snap@.skip(snap@.len() as int).len() == 0);
    None
}

/// The ordered request ids of the membership: for each branch in commit
/// order, the id of its open request, branches without one contributing
/// nothing.
pub open spec fn members_spec(branches: Seq<Vec<u8>>, snap: Seq<Request>) -> Seq<u64>
    decreases branches.len(),
{
    if branches.len() == 0 {
        Seq::empty()
    } else {
        (match find_by_head(snap, branches[0]@) {
            Some(r) => seq![r.id],
            None => Seq::empty(),
        }) + members_spec(branches.skip(1), snap)
    }
}

/// The membership ids of a branch's train, in the commit order the graph
/// returned the branches in.
pub fn member_ids(branches: &Vec<Vec<u8>>, snap: &Vec<Request>) -> (ids: Vec<u64>)
    ensures
        ids@ == members_spec(branches@, snap@),
{
    let mut out: Vec<u64> = Vec::new();
    let mut i: usize = 0;
    assert(branches@.skip(0) =~= branches@);
    assert(out@ + members_spec(branches@, snap@) =~= members_spec(branches@, snap@));
    while i < branches.len()
        invariant
            i <= branches.len(),
            out@ + members_spec(branches@.skip(i as int), snap@)
                == members_spec(branches@, snap@),
        decreases branches.len() - i,
    {
        let ghost pre = out@;
        assert(branches@.skip(i as int)[0] == branches@[i as int]);
        match find_request(snap, &branches[i]) {
            Some(j) => {
                out.push(snap[j].id);
            },
            None => {},
        }
        proof {
            assert(branches@.skip(i as int).skip(1) =~= branches@.skip(i + 1));
            assert(out@ + members_spec(branches@.skip(i + 1), snap@)
                =~= pre + members_spec(branches@.skip(i as int), snap@));
        }
        i += 1;
    }
    proof {
        assert(branches@.skip(branches@.len() as int).len() == 0);
        assert(out@ + members_spec(branches@.skip(branches@.len() as int), snap@) =~= out@);
    }
    out
}

/// The base target: the most distant remaining ancestor, or the trunk when
/// none is left.
pub open spec fn resolve_base_spec(ancestors: Seq<Vec<u8>>, trunk: Seq<u8>) -> Seq<u8> {
    if ancestors.len() > 0 {
        ancestors.last()@
    } else {
        trunk
    }
}

/// The base target for a branch, from the ordered ancestors the graph still
/// reports (nearest first): the last one, or the trunk when none is left.
pub fn resolve_base(ancestors: &Vec<Vec<u8>>, trunk: &Vec<u8>) -> (r: Vec<u8>)
    ensures
        r@ == resolve_base_spec(ancestors@, trunk@),
{
    if ancestors.len() > 0 {
        let a = &ancestors[ancestors.len() - 1];
        copy_range(a, 0, a.len())
    } else {
        copy_range(trunk, 0, trunk.len())
    }
}

} // verus!
