//! Byte-sequence primitives: equality, prefix tests, concatenation and
//! first-occurrence substring search, each specified against `Seq<u8>`.

use vstd::prelude::*;

verus! {

/// The pattern `p` occurs in `t` starting at position `i`.
pub open spec fn matches_at(t: Seq<u8>, p: Seq<u8>, i: int) -> bool {
    0 <= i && i + p.len() <= t.len() && t.subrange(i, i + p.len() as int) == p
}

/// Position of the first occurrence of `p` in `t` at or after `i`,
/// or `None` when there is none.
pub open spec fn find_spec(t: Seq<u8>, p: Seq<u8>, i: int) -> Option<int>
    decreases t.len() - i,
{
    if i < 0 || p.len() < 1 || i + p.len() > t.len() {
        None
    } else if t.subrange(i, i + p.len() as int) == p {
        Some(i)
    } else {
        find_spec(t, p, i + 1)
    }
}

/// What `find_spec` returns is the first match: a found position matches,
/// nothing before it does, and `None` means nothing matches at all.
pub proof fn lemma_find_characterize(t: Seq<u8>, p: Seq<u8>, i: int)
    requires
        0 <= i,
        p.len() >= 1,
    ensures
        match find_spec(t, p, i) {
            Some(j) => {
                &&& i <= j
                &&& matches_at(t, p, j)
                &&& forall|k: int| i <= k < j ==> !matches_at(t, p, k)
            },
            None => forall|k: int| i <= k ==> !matches_at(t, p, k),
        },
    decreases t.len() - i,
{
    if i + p.len() > t.len() {
        assert(forall|k: int| i <= k ==> !matches_at(t, p, k));
    } else if t.subrange(i, i + p.len() as int) == p {
    } else {
        lemma_find_characterize(t, p, i + 1);
        assert(!matches_at(t, p, i));
    }
}

/// A position that matches, with no match before it, is what `find_spec` finds.
pub proof fn lemma_find_unique(t: Seq<u8>, p: Seq<u8>, i: int, j: int)
    requires
        0 <= i <= j,
        p.len() >= 1,
        matches_at(t, p, j),
        forall|k: int| i <= k < j ==> !matches_at(t, p, k),
    ensures
        find_spec(t, p, i) == Some(j),
    decreases j - i,
{
    if i == j {
    } else {
        assert(!matches_at(t, p, i));
        lemma_find_unique(t, p, i + 1, j);
    }
}

/// When nothing at or after `i` matches, `find_spec` returns `None`.
pub proof fn lemma_find_none(t: Seq<u8>, p: Seq<u8>, i: int)
    requires
        0 <= i,
        p.len() >= 1,
        forall|k: int| i <= k ==> !matches_at(t, p, k),
    ensures
        find_spec(t, p, i) is None,
    decreases t.len() - i,
{
    if i + p.len() > t.len() {
    } else {
        assert(!matches_at(t, p, i));
        lemma_find_none(t, p, i + 1);
    }
}

/// Does `p` occur in `t` starting exactly at `i`?
pub fn match_at(t: &Vec<u8>, p: &Vec<u8>, i: usize) -> (r: bool)
    requires
        i + p.len() <= t.len(),
    ensures
        r == matches_at(t@, p@, i as int),
{
    let mut j: usize = 0;
    while j < p.len()
        invariant
            0 <= j <= p.len(),
            i + p.len() <= t.len(),
            forall|k: int| 0 <= k < j ==> t@[i + k] == p@[k],
        decreases p.len() - j,
    {
        if t[i + j] != p[j] {
            assert(t@.subrange(i as int, i + p@.len() as int)[j as int] != p@[j as int]);
            return false;
        }
        j += 1;
    }
    assert(t@.subrange(i as int, i + p@.len() as int) =~= p@);
    true
}

/// First occurrence of `p` in `t`, scanning from the front.
pub fn find_first(t: &Vec<u8>, p: &Vec<u8>) -> (r: Option<usize>)
    requires
        p.len() >= 1,
    ensures
        match r {
            Some(j) => find_spec(t@, p@, 0) == Some(j as int),
            None => find_spec(t@, p@, 0) is None,
        },
{
    find_from(t, p, 0)
}

/// First occurrence of `p` in `t` at or after position `start`.
pub fn find_from(t: &Vec<u8>, p: &Vec<u8>, start: usize) -> (r: Option<usize>)
    requires
        p.len() >= 1,
    ensures
        match r {
            Some(j) => find_spec(t@, p@, start as int) == Some(j as int),
            None => find_spec(t@, p@, start as int) is None,
        },
{
    if p.len() > t.len() || start > t.len() - p.len() {
        return None;
    }
    let mut i: usize = start;
    while i <= t.len() - p.len()
        invariant
            start <= i,
            p.len() >= 1,
            p.len() <= t.len(),
            find_spec(t@, p@, start as int) == find_spec(t@, p@, i as int),
        decreases t.len() - i,
    {
        if match_at(t, p, i) {
            return Some(i);
        }
        assert(find_spec(t@, p@, i as int) == find_spec(t@, p@, i + 1));
        i += 1;
    }
    None
}

/// Byte-for-byte equality of two buffers.
pub fn bytes_eq(a: &Vec<u8>, b: &Vec<u8>) -> (r: bool)
    ensures
        r == (a@ == b@),
{
    if a.len() != b.len() {
        assert(a@ != b@);
        return false;
    }
    let mut j: usize = 0;
    while j < a.len()
        invariant
            0 <= j <= a.len(),
            a.len() == b.len(),
            forall|k: int| 0 <= k < j ==> a@[k] == b@[k],
        decreases a.len() - j,
    {
        if a[j] != b[j] {
            return false;
        }
        j += 1;
    }
    assert(a@ =~= b@);
    true
}

/// Does `a` begin with `p`?
pub fn has_prefix(a: &Vec<u8>, p: &Vec<u8>) -> (r: bool)
    ensures
        r == (p.len() <= a.len() && a@.subrange(0, p.len() as int) == p@),
{
    if p.len() > a.len() {
        return false;
    }
    match_at(a, p, 0)
}

/// Append all of `src` onto `dst`.
pub fn push_all(dst: &mut Vec<u8>, src: &Vec<u8>)
    ensures
        final(dst)@ == old(dst)@ + src@,
{
    let mut j: usize = 0;
    while j < src.len()
        invariant
            0 <= j <= src.len(),
            dst@ == old(dst)@ + src@.subrange(0, j as int),
        decreases src.len() - j,
    {
        dst.push(src[j]);
        assert(old(dst)@ + src@.subrange(0, j as int) + seq![src@[j as int]]
            =~= old(dst)@ + src@.subrange(0, j + 1));
        j += 1;
    }
    assert(old(dst)@ + src@.subrange(0, src@.len() as int) =~= old(dst)@ + src@);
}

/// A fresh copy of `src[from..to]`.
pub fn copy_range(src: &Vec<u8>, from: usize, to: usize) -> (v: Vec<u8>)
    requires
        from <= to <= src.len(),
    ensures
        v@ == src@.subrange(from as int, to as int),
{
    let mut v: Vec<u8> = Vec::new();
    let mut j: usize = from;
    while j < to
        invariant
            from <= j <= to <= src.len(),
            v@ == src@.subrange(from as int, j as int),
        decreases to - j,
    {
        v.push(src[j]);
        assert(src@.subrange(from as int, j as int) + seq![src@[j as int]]
            =~= src@.subrange(from as int, j + 1));
        j += 1;
    }
    v
}

} // verus!
