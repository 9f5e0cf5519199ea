//! The reconciler: diff the train recorded in a request's description
//! against the current membership, carry forward merged-but-detached
//! entries, and decide whether the description and base target must be
//! rewritten.

use vstd::prelude::*;
use crate::bytes::bytes_eq;
use crate::codec::{
    count_byte, count_id, extract, extract_spec, lemma_count_pin_body, lemma_extract_upsert,
    lemma_parse_render, lemma_render_no_close, lemma_upsert_idempotent, parse_ids,
    parse_ids_spec, render_body, render_train, upsert, upsert_spec,
};
use crate::requests::{merged_ids, Request};

verus! {

/// An id from the old annotation is carried forward when it left the
/// membership and its request is independently confirmed merged.
pub open spec fn is_carried(id: u64, members: Seq<u64>, merged: Set<u64>) -> bool {
    !members.contains(id) && merged.contains(id)
}

/// The carried-forward entries: the old ids that `is_carried` keeps, in
/// their old order.
pub open spec fn carried_spec(old_ids: Seq<u64>, members: Seq<u64>, merged: Set<u64>) -> Seq<u64>
    decreases old_ids.len(),
{
    if old_ids.len() == 0 {
        Seq::empty()
    } else {
        (if is_carried(old_ids[0], members, merged) {
            seq![old_ids[0]]
        } else {
            Seq::empty()
        }) + carried_spec(old_ids.skip(1), members, merged)
    }
}

/// The ordered ids of the old annotation, empty when the description holds
/// none.
pub open spec fn old_ids_of(desc: Seq<u8>) -> Seq<u64> {
    match extract_spec(desc) {
        Some(b) => parse_ids_spec(b),
        None => Seq::empty(),
    }
}

/// The new train: carried-forward entries first, then the live membership,
/// each in its own order.
pub open spec fn combined_spec(desc: Seq<u8>, members: Seq<u64>, merged: Set<u64>) -> Seq<u64> {
    carried_spec(old_ids_of(desc), members, merged) + members
}

/// The description a reconciliation pass writes for this branch.
pub open spec fn new_desc_spec(desc: Seq<u8>, members: Seq<u64>, merged: Set<u64>, own: u64)
    -> Seq<u8> {
    upsert_spec(desc, render_body(combined_spec(desc, members, merged), own))
}

/// Does the id list contain `x`?
pub fn contains_id(ids: &Vec<u64>, x: u64) -> (r: bool)
    ensures
        r == ids@.contains(x),
{
    let mut i: usize = 0;
    while i < ids.len()
        invariant
            i <= ids.len(),
            forall|k: int| 0 <= k < i ==> ids@[k] != x,
        decreases ids.len() - i,
    {
        if ids[i] == x {
            return true;
        }
        i += 1;
    }
    false
}

/// The carried-forward entries of the old annotation, given the current
/// membership and the snapshot's merged ids.
pub fn filter_carried(old_ids: &Vec<u64>, members: &Vec<u64>, snap: &Vec<Request>)
    -> (out: Vec<u64>)
    ensures
        out@ == carried_spec(old_ids@, members@, merged_ids(snap@)),
{
    let ghost merged = merged_ids(snap@);
    let mut out: Vec<u64> = Vec::new();
    let mut i: usize = 0;
    assert(old_ids@.skip(0) =~= old_ids@);
    assert(out@ + carried_spec(old_ids@, members@, merged)
        =~= carried_spec(old_ids@, members@, merged));
    while i < old_ids.len()
        invariant
            i <= old_ids.len(),
            out@ + carried_spec(old_ids@.skip(i as int), members@, merged_ids(snap@))
                == carried_spec(old_ids@, members@, merged_ids(snap@)),
        decreases old_ids.len() - i,
    {
        let ghost pre = out@;
        assert(old_ids@.skip(i as int)[0] == old_ids@[i as int]);
        let id = old_ids[i];
        if !contains_id(members, id) && crate::requests::lookup_merged(snap, id) {
            out.push(id);
        }
        proof {
            assert(old_ids@.skip(i as int).skip(1) =~= old_ids@.skip(i + 1));
            assert(out@ + carried_spec(old_ids@.skip(i + 1), members@, merged_ids(snap@))
                =~= pre + carried_spec(old_ids@.skip(i as int), members@, merged_ids(snap@)));
        }
        i += 1;
    }
    proof {
        assert(old_ids@.skip(old_ids@.len() as int).len() == 0);
        assert(out@ + carried_spec(old_ids@.skip(old_ids@.len() as int), members@,
            merged_ids(snap@)) =~= out@);
    }
    out
}

/// What a reconciliation pass decides for one branch: leave it alone, or
/// rewrite its description and base target.
pub enum Decision {
    Skip,
    Update { description: Vec<u8>, base: Vec<u8> },
}

/// The reconciliation decision for one branch: compute the new train from
/// the membership ids and the snapshot, render it into the description, and
/// skip exactly when neither the description nor the base target would
/// change.
pub fn reconcile(req: &Request, members: &Vec<u64>, snap: &Vec<Request>, new_base: &Vec<u8>)
    -> (r: Decision)
    ensures
        (r is Skip) <==> (new_desc_spec(req.description@, members@, merged_ids(snap@), req.id)
            == req.description@ && new_base@ == req.base@),
        r matches Decision::Update { description, base } ==> description@
            == new_desc_spec(req.description@, members@, merged_ids(snap@), req.id)
            && base@ == new_base@,
{
    let old_ids = match extract(&req.description) {
        Some(body) => parse_ids(&body),
        None => Vec::new(),
    };
    assert(old_ids@ == old_ids_of(req.description@));
    let carried = filter_carried(&old_ids, members, snap);
    let mut combined = carried;
    let mut i: usize = 0;
    while i < members.len()
        invariant
            i <= members.len(),
            combined@ == carried_spec(old_ids@, members@, merged_ids(snap@))
                + members@.subrange(0, i as int),
        decreases members.len() - i,
    {
        combined.push(members[i]);
        assert(combined@ =~= carried_spec(old_ids@, members@, merged_ids(snap@))
            + members@.subrange(0, i + 1));
        i += 1;
    }
    assert(members@.subrange(0, members@.len() as int) =~= members@);
    assert(combined@ == combined_spec(req.description@, members@, merged_ids(snap@)));
    let body = render_train(&combined, req.id);
    let new_desc = upsert(&req.description, &body);
    if bytes_eq(&new_desc, &req.description) && bytes_eq(new_base, &req.base) {
        Decision::Skip
    } else {
        Decision::Update { description: new_desc, base: copy_base(new_base) }
    }
}

/// A fresh copy of a branch name.
fn copy_base(b: &Vec<u8>) -> (r: Vec<u8>)
    ensures
        r@ == b@,
{
    let r = crate::bytes::copy_range(b, 0, b.len());
    assert(b@.subrange(0, b@.len() as int) =~= b@);
    r
}

/// Carrying distributes over concatenation of the old id list.
proof fn lemma_carried_concat(a: Seq<u64>, b: Seq<u64>, members: Seq<u64>, merged: Set<u64>)
    ensures
        carried_spec(a + b, members, merged)
            == carried_spec(a, members, merged) + carried_spec(b, members, merged),
    decreases a.len(),
{
    if a.len() == 0 {
        assert(a + b =~= b);
        assert(carried_spec(a, members, merged) + carried_spec(b, members, merged)
            =~= carried_spec(b, members, merged));
    } else {
        assert((a + b).skip(1) =~= a.skip(1) + b);
        assert((a + b)[0] == a[0]);
        lemma_carried_concat(a.skip(1), b, members, merged);
        assert(carried_spec(a + b, members, merged)
            =~= carried_spec(a, members, merged) + carried_spec(b, members, merged));
    }
}

/// Every carried entry satisfies the carry-predicate and comes from the old
/// list, and every old entry satisfying the predicate is carried.
proof fn lemma_carried_elems(s: Seq<u64>, members: Seq<u64>, merged: Set<u64>)
    ensures
        forall|j: int| 0 <= j < carried_spec(s, members, merged).len()
            ==> is_carried(#[trigger] carried_spec(s, members, merged)[j], members, merged)
                && s.contains(carried_spec(s, members, merged)[j]),
        forall|i: int| 0 <= i < s.len() && is_carried(#[trigger] s[i], members, merged)
            ==> carried_spec(s, members, merged).contains(s[i]),
    decreases s.len(),
{
    if s.len() == 0 {
    } else {
        lemma_carried_elems(s.skip(1), members, merged);
        let c = carried_spec(s, members, merged);
        let rest = carried_spec(s.skip(1), members, merged);
        let head: Seq<u64> = if is_carried(s[0], members, merged) {
            seq![s[0]]
        } else {
            Seq::empty()
        };
        assert(c == head + rest);
        assert forall|j: int| 0 <= j < c.len() implies is_carried(
            #[trigger] c[j],
            members,
            merged,
        ) && s.contains(c[j]) by {
            if j < head.len() {
                assert(c[j] == s[0]);
                assert(s.contains(s[0]));
            } else {
                assert(c[j] == rest[j - head.len()]);
                let x = rest[j - head.len()];
                assert(s.skip(1).contains(x));
                let k = choose|k: int| 0 <= k < s.skip(1).len() && s.skip(1)[k] == x;
                assert(s[k + 1] == x);
                assert(s.contains(x));
            }
        }
        assert forall|i: int| 0 <= i < s.len() && is_carried(#[trigger] s[i], members, merged)
            implies c.contains(s[i]) by {
            if i == 0 {
                assert(c[0] == s[0]);
            } else {
                assert(s.skip(1)[i - 1] == s[i]);
                assert(rest.contains(s[i]));
                let k = choose|k: int| 0 <= k < rest.len() && rest[k] == s[i];
                assert(c[head.len() + k] == s[i]);
            }
        }
    }
}

/// Carrying a list whose entries all satisfy the predicate keeps it whole.
proof fn lemma_carried_all(s: Seq<u64>, members: Seq<u64>, merged: Set<u64>)
    requires
        forall|j: int| 0 <= j < s.len() ==> is_carried(#[trigger] s[j], members, merged),
    ensures
        carried_spec(s, members, merged) == s,
    decreases s.len(),
{
    if s.len() == 0 {
    } else {
        assert forall|j: int| 0 <= j < s.skip(1).len() implies is_carried(
            #[trigger] s.skip(1)[j],
            members,
            merged,
        ) by {
            assert(s.skip(1)[j] == s[j + 1]);
        }
        lemma_carried_all(s.skip(1), members, merged);
        assert(carried_spec(s, members, merged) =~= s);
    }
}

/// Carrying a list none of whose entries satisfies the predicate drops it
/// entirely.
proof fn lemma_carried_none(s: Seq<u64>, members: Seq<u64>, merged: Set<u64>)
    requires
        forall|j: int| 0 <= j < s.len() ==> !is_carried(#[trigger] s[j], members, merged),
    ensures
        carried_spec(s, members, merged) == Seq::<u64>::empty(),
    decreases s.len(),
{
    if s.len() == 0 {
    } else {
        assert forall|j: int| 0 <= j < s.skip(1).len() implies !is_carried(
            #[trigger] s.skip(1)[j],
            members,
            merged,
        ) by {
            assert(s.skip(1)[j] == s[j + 1]);
        }
        lemma_carried_none(s.skip(1), members, merged);
        assert(carried_spec(s, members, merged) =~= Seq::<u64>::empty());
    }
}

/// Reconciliation is idempotent: writing the reconciled description and
/// reconciling again, with the membership and the merged ids unchanged,
/// reproduces that description exactly — so a second pass skips every
/// branch.
pub proof fn lemma_reconcile_idempotent(desc: Seq<u8>, members: Seq<u64>, merged: Set<u64>, own: u64)
    ensures
        new_desc_spec(new_desc_spec(desc, members, merged, own), members, merged, own)
            == new_desc_spec(desc, members, merged, own),
{
    let carried1 = carried_spec(old_ids_of(desc), members, merged);
    let c1 = combined_spec(desc, members, merged);
    let body = render_body(c1, own);
    let d1 = upsert_spec(desc, body);
    lemma_render_no_close(c1, own);
    lemma_extract_upsert(desc, body);
    lemma_parse_render(c1, own);
    assert(old_ids_of(d1) == c1);
    lemma_carried_concat(carried1, members, members, merged);
    lemma_carried_elems(old_ids_of(desc), members, merged);
    lemma_carried_all(carried1, members, merged);
    assert forall|j: int| 0 <= j < members.len() implies !is_carried(
        #[trigger] members[j],
        members,
        merged,
    ) by {
        assert(members.contains(members[j]));
    }
    lemma_carried_none(members, members, merged);
    assert(carried_spec(c1, members, merged) =~= carried1);
    assert(combined_spec(d1, members, merged) == c1);
    lemma_upsert_idempotent(desc, body);
}

/// The merged-carry law: an id of the old annotation that left the
/// membership stands in the new train exactly when its request is
/// independently confirmed merged, and an id that is neither live nor
/// merged disappears without trace.
pub proof fn lemma_merged_carry(desc: Seq<u8>, members: Seq<u64>, merged: Set<u64>)
    ensures
        forall|id: u64| old_ids_of(desc).contains(id) && !members.contains(id)
            ==> (#[trigger] combined_spec(desc, members, merged).contains(id)
                <==> merged.contains(id)),
        forall|id: u64| !members.contains(id) && !merged.contains(id)
            ==> !(#[trigger] combined_spec(desc, members, merged).contains(id)),
{
    let old = old_ids_of(desc);
    let car = carried_spec(old, members, merged);
    let c = combined_spec(desc, members, merged);
    lemma_carried_elems(old, members, merged);
    assert forall|id: u64| !members.contains(id)
        && #[trigger] c.contains(id) implies car.contains(id) by {
        let k = choose|k: int| 0 <= k < c.len() && c[k] == id;
        if k < car.len() {
            assert(c[k] == car[k]);
            assert(car.contains(car[k]));
        } else {
            assert(c[k] == members[k - car.len()]);
            assert(members.contains(members[k - car.len()]));
        }
    }
    assert forall|id: u64| #[trigger] car.contains(id) implies merged.contains(id) by {
        let k = choose|k: int| 0 <= k < car.len() && car[k] == id;
        assert(is_carried(car[k], members, merged));
    }
    assert forall|id: u64| old.contains(id) && !members.contains(id) && merged.contains(id)
        implies #[trigger] c.contains(id) by {
        let k = choose|k: int| 0 <= k < old.len() && old[k] == id;
        assert(is_carried(old[k], members, merged));
        assert(car.contains(id));
        let j = choose|j: int| 0 <= j < car.len() && car[j] == id;
        assert(c[j] == id);
    }
}

/// An id list without `x` counts zero occurrences of it.
proof fn lemma_count_id_zero(s: Seq<u64>, x: u64)
    requires
        forall|j: int| 0 <= j < s.len() ==> s[j] != x,
    ensures
        count_id(s, x) == 0,
    decreases s.len(),
{
    if s.len() == 0 {
    } else {
        assert forall|j: int| 0 <= j < s.skip(1).len() implies s.skip(1)[j] != x by {
            assert(s.skip(1)[j] == s[j + 1]);
        }
        lemma_count_id_zero(s.skip(1), x);
    }
}

/// An id that occurs, and only at one index, is counted exactly once.
proof fn lemma_count_id_unique(s: Seq<u64>, x: u64)
    requires
        s.contains(x),
        forall|i: int, j: int| 0 <= i < s.len() && 0 <= j < s.len() && s[i] == x && s[j] == x
            ==> i == j,
    ensures
        count_id(s, x) == 1,
    decreases s.len(),
{
    if s[0] == x {
        assert forall|j: int| 0 <= j < s.skip(1).len() implies s.skip(1)[j] != x by {
            assert(s.skip(1)[j] == s[j + 1]);
        }
        lemma_count_id_zero(s.skip(1), x);
    } else {
        let k = choose|k: int| 0 <= k < s.len() && s[k] == x;
        assert(s.skip(1)[k - 1] == s[k]);
        assert(s.skip(1).contains(x));
        assert forall|i: int, j: int| 0 <= i < s.skip(1).len() && 0 <= j < s.skip(1).len()
            && s.skip(1)[i] == x && s.skip(1)[j] == x implies i == j by {
            assert(s.skip(1)[i] == s[i + 1]);
            assert(s.skip(1)[j] == s[j + 1]);
        }
        lemma_count_id_unique(s.skip(1), x);
    }
}

/// The pin law: when the branch's own id stands exactly once in the live
/// membership, it stands exactly once in the rendered train, and the
/// rendered body carries the pin glyph exactly once — on that entry, since
/// `render_entry` pins exactly the entries equal to the own id.
pub proof fn lemma_pin_unique(desc: Seq<u8>, members: Seq<u64>, merged: Set<u64>, own: u64)
    requires
        members.contains(own),
        forall|i: int, j: int| 0 <= i < members.len() && 0 <= j < members.len()
            && members[i] == own && members[j] == own ==> i == j,
    ensures
        combined_spec(desc, members, merged).contains(own),
        forall|i: int, j: int| 0 <= i < combined_spec(desc, members, merged).len()
            && 0 <= j < combined_spec(desc, members, merged).len()
            && combined_spec(desc, members, merged)[i] == own
            && combined_spec(desc, members, merged)[j] == own ==> i == j,
        count_byte(render_body(combined_spec(desc, members, merged), own), 240) == 1,
{
    let old = old_ids_of(desc);
    let car = carried_spec(old, members, merged);
    let c = combined_spec(desc, members, merged);
    lemma_carried_elems(old, members, merged);
    let m = choose|m: int| 0 <= m < members.len() && members[m] == own;
    assert(c[car.len() + m] == own);
    assert(c.contains(c[car.len() + m]));
    assert forall|i: int| 0 <= i < c.len() && c[i] == own implies i >= car.len() by {
        if i < car.len() {
            assert(c[i] == car[i]);
            assert(is_carried(car[i], members, merged));
        }
    }
    assert forall|i: int, j: int| 0 <= i < c.len() && 0 <= j < c.len() && c[i] == own
        && c[j] == own implies i == j by {
        assert(c[i] == members[i - car.len()]);
        assert(c[j] == members[j - car.len()]);
    }
    lemma_count_id_unique(c, own);
    lemma_count_pin_body(c, own);
}

/// The ordering law: the rendered train is the carried-forward entries
/// followed by the live membership in commit order, and every entry of the
/// carried block satisfies the carry-predicate.
pub proof fn lemma_train_order(desc: Seq<u8>, members: Seq<u64>, merged: Set<u64>)
    ensures
        combined_spec(desc, members, merged).len()
            == carried_spec(old_ids_of(desc), members, merged).len() + members.len(),
        combined_spec(desc, members, merged).subrange(
            0,
            carried_spec(old_ids_of(desc), members, merged).len() as int,
        ) == carried_spec(old_ids_of(desc), members, merged),
        combined_spec(desc, members, merged).subrange(
            carried_spec(old_ids_of(desc), members, merged).len() as int,
            combined_spec(desc, members, merged).len() as int,
        ) == members,
        forall|k: int| 0 <= k < carried_spec(old_ids_of(desc), members, merged).len()
            ==> is_carried(
                #[trigger] carried_spec(old_ids_of(desc), members, merged)[k],
                members,
                merged,
            ),
{
    let old = old_ids_of(desc);
    let car = carried_spec(old, members, merged);
    let c = combined_spec(desc, members, merged);
    lemma_carried_elems(old, members, merged);
    assert(c.subrange(0, car.len() as int) =~= car);
    assert(c.subrange(car.len() as int, c.len() as int) =~= members);
}
} // verus!
