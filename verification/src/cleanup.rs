//! The cleanup selector: parsing the graph service's branch listing,
//! building the revset queries it is asked, the merged-gate on candidate
//! branches, and the choice of the prune root.

use vstd::prelude::*;
use crate::bytes::{copy_range, push_all};

verus! {

/// One step of splitting: the lines finished so far after position `i`,
/// with `cur` the unfinished line read so far; empty lines are dropped.
pub open spec fn lines_from(s: Seq<u8>, i: int, cur: Seq<u8>) -> Seq<Seq<u8>>
    decreases s.len() - i,
{
    if i < 0 || i >= s.len() {
        if cur.len() == 0 {
            Seq::empty()
        } else {
            seq![cur]
        }
    } else if s[i] == 10 {
        (if cur.len() == 0 {
            Seq::empty()
        } else {
            seq![cur]
        }) + lines_from(s, i + 1, Seq::empty())
    } else {
        lines_from(s, i + 1, cur.push(s[i]))
    }
}

/// The non-empty lines of `s`, in order.
pub open spec fn lines_spec(s: Seq<u8>) -> Seq<Seq<u8>> {
    lines_from(s, 0, Seq::empty())
}

/// The branch names in the graph service's output: one per line, empty
/// lines dropped, order kept.
pub fn parse_git_branchless_branches(out: &Vec<u8>) -> (r: Vec<Vec<u8>>)
    ensures
        r@.len() == lines_spec(out@).len(),
        forall|j: int| 0 <= j < r@.len() ==> #[trigger] r@[j]@ == lines_spec(out@)[j],
{
    let mut r: Vec<Vec<u8>> = Vec::new();
    let mut cur: Vec<u8> = Vec::new();
    let ghost mut done: Seq<Seq<u8>> = Seq::empty();
    let mut i: usize = 0;
    assert(done + lines_from(out@, 0, cur@) =~= lines_spec(out@));
    while i < out.len()
        invariant
            i <= out.len(),
            done.len() == r@.len(),
            forall|j: int| 0 <= j < r@.len() ==> #[trigger] r@[j]@ == done[j],
            done + lines_from(out@, i as int, cur@) == lines_spec(out@),
        decreases out.len() - i,
    {
        let ghost pre_cur = cur@;
        let c = out[i];
        if c == 10 {
            if cur.len() > 0 {
                proof {
                    done = done.push(cur@);
                }
                r.push(cur);
                cur = Vec::new();
            }
        } else {
            cur.push(c);
        }
        proof {
            if out@[i as int] == 10 {
                assert(cur@ =~= Seq::<u8>::empty());
                assert(lines_from(out@, i as int, pre_cur)
                    == (if pre_cur.len() == 0 {
                        Seq::<Seq<u8>>::empty()
                    } else {
                        seq![pre_cur]
                    }) + lines_from(out@, i + 1, cur@));
            } else {
                assert(cur@ =~= pre_cur.push(out@[i as int]));
                assert(lines_from(out@, i as int, pre_cur)
                    == lines_from(out@, i + 1, cur@));
            }
            assert(done + lines_from(out@, i + 1, cur@) =~= lines_spec(out@));
        }
        i += 1;
    }
    if cur.len() > 0 {
        proof {
            done = done.push(cur@);
        }
        r.push(cur);
    }
    assert(done =~= lines_spec(out@));
    r
}

/// The prune root: the first of the diverging ancestors, the most
/// ancestral commit no longer reachable from the trunk.
pub fn select_prune_root(diverging: &Vec<Vec<u8>>) -> (r: Option<Vec<u8>>)
    ensures
        match r {
            Some(v) => diverging@.len() > 0 && v@ == diverging@[0]@,
            None => diverging@.len() == 0,
        },
{
    if diverging.len() == 0 {
        return None;
    }
    let first = &diverging[0];
    let v = copy_range(first, 0, first.len());
    assert(first@.subrange(0, first@.len() as int) =~= first@);
    Some(v)
}

/// The revset naming the stack roots no longer connected to the trunk:
/// `draft() - descendants(main())`.
pub open spec fn leftover_revset_spec() -> Seq<u8> {
    seq![100u8, 114, 97, 102, 116, 40, 41, 32, 45, 32, 100, 101, 115, 99, 101, 110, 100, 97, 110, 116, 115, 40, 109, 97, 105, 110, 40, 41, 41]
}

/// The revset `draft() - descendants(main())` as a buffer.
pub fn leftover_revset() -> (v: Vec<u8>)
    ensures
        v@ == leftover_revset_spec(),
{
    let v: Vec<u8> = vec![100u8, 114, 97, 102, 116, 40, 41, 32, 45, 32, 100, 101, 115, 99, 101, 110, 100, 97, 110, 116, 115, 40, 109, 97, 105, 110, 40, 41, 41];
    assert(v@ =~= leftover_revset_spec());
    v
}

/// The revset naming what diverges: `ancestors(<branch>) - ancestors(main())`.
pub open spec fn diverging_revset_spec(branch: Seq<u8>) -> Seq<u8> {
    seq![97u8, 110, 99, 101, 115, 116, 111, 114, 115, 40] + branch + seq![41u8, 32, 45, 32, 97, 110, 99, 101, 115, 116, 111, 114, 115, 40, 109, 97, 105, 110, 40, 41, 41]
}

/// The revset `ancestors(<branch>) - ancestors(main())` as a buffer.
pub fn diverging_revset(branch: &Vec<u8>) -> (v: Vec<u8>)
    ensures
        v@ == diverging_revset_spec(branch@),
{
    let mut v: Vec<u8> = vec![97u8, 110, 99, 101, 115, 116, 111, 114, 115, 40];
    push_all(&mut v, branch);
    let tail: Vec<u8> = vec![41u8, 32, 45, 32, 97, 110, 99, 101, 115, 116, 111, 114, 115, 40, 109, 97, 105, 110, 40, 41, 41];
    push_all(&mut v, &tail);
    assert(v@ =~= diverging_revset_spec(branch@));
    v
}

/// The revset naming a branch's stack: `stack(<branch>)`.
pub open spec fn stack_revset_spec(branch: Seq<u8>) -> Seq<u8> {
    seq![115u8, 116, 97, 99, 107, 40] + branch + seq![41u8]
}

/// The revset `stack(<branch>)` as a buffer.
pub fn stack_revset(branch: &Vec<u8>) -> (v: Vec<u8>)
    ensures
        v@ == stack_revset_spec(branch@),
{
    let mut v: Vec<u8> = vec![115u8, 116, 97, 99, 107, 40];
    push_all(&mut v, branch);
    v.push(41);
    assert(v@ =~= stack_revset_spec(branch@));
    v
}

} // verus!
