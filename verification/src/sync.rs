//! Decisions of the wait command: which branch to watch, which commit the
//! host currently knows, and when the poll may stop. The polling loop, its
//! back-off and the host queries live in the driving binary; these
//! functions decide from the plain values it hands over.

use vstd::prelude::*;
use crate::bytes::{bytes_eq, copy_range};

verus! {

/// The detached-head pseudo-name `HEAD`.
pub open spec fn head_name() -> Seq<u8> {
    seq![72u8, 69, 65, 68]
}

/// The branch to watch: the given name, unless it is the detached-head
/// pseudo-name, in which case there is none.
pub fn branch_from_head(name: &Vec<u8>) -> (r: Option<Vec<u8>>)
    ensures
        (r is None) <==> name@ == head_name(),
        r matches Some(v) ==> v@ == name@,
{
    let head: Vec<u8> = vec![72u8, 69, 65, 68];
    assert(head@ =~= head_name());
    if bytes_eq(name, &head) {
        None
    } else {
        let v = copy_range(name, 0, name.len());
        assert(name@.subrange(0, name@.len() as int) =~= name@);
        Some(v)
    }
}

/// The commit the host currently tracks for a request: the last of its
/// commit list, if it has any.
pub fn latest_commit_oid(commits: &Vec<Vec<u8>>) -> (r: Option<Vec<u8>>)
    ensures
        match r {
            Some(v) => commits@.len() > 0 && v@ == commits@.last()@,
            None => commits@.len() == 0,
        },
{
    if commits.len() == 0 {
        return None;
    }
    let last = &commits[commits.len() - 1];
    let v = copy_range(last, 0, last.len());
    assert(last@.subrange(0, last@.len() as int) =~= last@);
    Some(v)
}

/// The poll may stop exactly when the host's latest tracked commit equals
/// the local branch tip; an unknown latest commit keeps it polling.
pub fn is_synced(current: &Vec<u8>, latest: &Option<Vec<u8>>) -> (r: bool)
    ensures
        r == match latest {
            Some(l) => l@ == current@,
            None => false,
        },
{
    match latest {
        Some(l) => bytes_eq(l, current),
        None => false,
    }
}

} // verus!
