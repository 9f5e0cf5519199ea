//! The annotation codec: the delimited train-of-record region embedded in a
//! request description. `extract` returns the body of the region, `upsert`
//! replaces the region (or appends one), `parse_ids` reads the `#<digits>`
//! references out of a body, and `render_train` produces a fresh body from an
//! ordered id list.

use vstd::prelude::*;
use crate::bytes::{
    copy_range, find_from, find_spec, lemma_find_characterize, lemma_find_unique, matches_at,
    push_all,
};

verus! {

/// The opening marker of the train region: `<!-- train:begin -->`.
#[verifier::opaque]
pub open spec fn open_bytes() -> Seq<u8> {
    seq![60u8, 33, 45, 45, 32, 116, 114, 97, 105, 110, 58, 98, 101, 103, 105, 110, 32, 45, 45, 62]
}

/// The closing marker of the train region: `<!-- train:end -->`.
#[verifier::opaque]
pub open spec fn close_bytes() -> Seq<u8> {
    seq![60u8, 33, 45, 45, 32, 116, 114, 97, 105, 110, 58, 101, 110, 100, 32, 45, 45, 62]
}

/// The shape of the markers, as every proof here uses them: both are
/// non-empty, the opening marker holds no newline, and the byte `>` ends the
/// closing marker and occurs nowhere else in it.
pub proof fn lemma_marker_facts()
    ensures
        open_bytes().len() == 20,
        close_bytes().len() == 18,
        forall|j: int| 0 <= j < open_bytes().len() ==> open_bytes()[j] != 10,
        close_bytes()[close_bytes().len() - 1] == 62,
        forall|j: int| 0 <= j < close_bytes().len() - 1 ==> close_bytes()[j] != 62,
{
    reveal(open_bytes);
    reveal(close_bytes);
    assert forall|j: int| 0 <= j < open_bytes().len() implies open_bytes()[j] != 10 by {
        reveal(open_bytes);
    }
    assert forall|j: int| 0 <= j < close_bytes().len() - 1 implies close_bytes()[j] != 62 by {
        reveal(close_bytes);
    }
}

/// The opening marker as a buffer.
pub fn open_marker() -> (v: Vec<u8>)
    ensures
        v@ == open_bytes(),
{
    let v: Vec<u8> = vec![
        60u8, 33, 45, 45, 32, 116, 114, 97, 105, 110, 58, 98, 101, 103, 105, 110, 32, 45, 45, 62,
    ];
    proof {
        reveal(open_bytes);
        assert(v@ =~= open_bytes());
    }
    v
}

/// The closing marker as a buffer.
pub fn close_marker() -> (v: Vec<u8>)
    ensures
        v@ == close_bytes(),
{
    let v: Vec<u8> = vec![
        60u8, 33, 45, 45, 32, 116, 114, 97, 105, 110, 58, 101, 110, 100, 32, 45, 45, 62,
    ];
    proof {
        reveal(close_bytes);
        assert(v@ =~= close_bytes());
    }
    v
}

/// The closing marker occurs somewhere in `s`.
pub open spec fn contains_close(s: Seq<u8>) -> bool {
    exists|k: int| matches_at(s, close_bytes(), k)
}

/// The byte `>` ends the closing marker and occurs nowhere else in it, so two
/// occurrences of the closing marker can never overlap.
proof fn lemma_close_no_overlap(t: Seq<u8>, q: int)
    requires
        matches_at(t, close_bytes(), q),
    ensures
        forall|k: int|
            q - close_bytes().len() < k < q ==> !matches_at(t, close_bytes(), k),
{
    let c = close_bytes();
    let l = c.len() as int;
    lemma_marker_facts();
    assert forall|k: int| q - l < k < q implies !matches_at(t, c, k) by {
        if matches_at(t, c, k) {
            let s = q - k;
            // From the occurrence at k, the byte at k + l - 1 is the final `>`.
            assert(t.subrange(k, k + l)[l - 1] == c[l - 1]);
            // From the occurrence at q, the same byte is an interior marker byte.
            assert(t.subrange(q, q + l)[l - 1 - s] == c[l - 1 - s]);
            assert(t[k + l - 1] == c[l - 1]);
            assert(t[q + (l - 1 - s)] == c[l - 1 - s]);
            assert(c[l - 1] == 62);
            assert(c[l - 1 - s] != 62);
        }
    }
}

/// Everything between the end of the first opening marker and the first
/// closing marker after it; `None` when either marker is missing.
pub open spec fn extract_spec(d: Seq<u8>) -> Option<Seq<u8>> {
    match find_spec(d, open_bytes(), 0) {
        Some(o) => match find_spec(d, close_bytes(), o + open_bytes().len()) {
            Some(c) => Some(d.subrange(o + open_bytes().len(), c)),
            None => None,
        },
        None => None,
    }
}

/// What stands before the rewritten region: the text before the first opening
/// marker, or the whole description followed by a blank line when no opening
/// marker exists.
pub open spec fn upsert_prefix(d: Seq<u8>) -> Seq<u8> {
    match find_spec(d, open_bytes(), 0) {
        Some(o) => d.subrange(0, o),
        None => d + seq![10u8, 10u8],
    }
}

/// What stands after the rewritten region: the text after the first closing
/// marker that follows the first opening marker, or nothing.
pub open spec fn upsert_tail(d: Seq<u8>) -> Seq<u8> {
    match find_spec(d, open_bytes(), 0) {
        Some(o) => match find_spec(d, close_bytes(), o + open_bytes().len()) {
            Some(c) => d.subrange(c + close_bytes().len(), d.len() as int),
            None => Seq::empty(),
        },
        None => Seq::empty(),
    }
}

/// The description after the region is replaced by a fresh one with body `b`.
pub open spec fn upsert_spec(d: Seq<u8>, b: Seq<u8>) -> Seq<u8> {
    upsert_prefix(d) + open_bytes() + b + close_bytes() + upsert_tail(d)
}

/// The body of the embedded train region, if the description holds one.
pub fn extract(d: &Vec<u8>) -> (r: Option<Vec<u8>>)
    ensures
        match r {
            Some(v) => extract_spec(d@) == Some(v@),
            None => extract_spec(d@) is None,
        },
{
    let open = open_marker();
    let close = close_marker();
    proof {
        lemma_marker_facts();
    }
    match find_from(d, &open, 0) {
        None => None,
        Some(o) => {
            proof {
                lemma_find_characterize(d@, open_bytes(), 0);
                assert(matches_at(d@, open_bytes(), o as int));
                assert(o + open.len() <= d.len());
            }
            match find_from(d, &close, o + open.len()) {
                None => None,
                Some(c) => {
                    proof {
                        lemma_find_characterize(d@, close_bytes(), o + open.len());
                        assert(matches_at(d@, close_bytes(), c as int));
                    }
                    Some(copy_range(d, o + open.len(), c))
                },
            }
        },
    }
}

/// The description with its train region replaced by one holding `body`;
/// when no opening marker exists the fresh region is appended after a blank
/// line, and a dangling opening marker is rewritten through to the end of
/// the description.
pub fn upsert(d: &Vec<u8>, body: &Vec<u8>) -> (r: Vec<u8>)
    ensures
        r@ == upsert_spec(d@, body@),
{
    let open = open_marker();
    let close = close_marker();
    proof {
        lemma_marker_facts();
    }
    let mut out: Vec<u8>;
    match find_from(d, &open, 0) {
        None => {
            out = copy_range(d, 0, d.len());
            out.push(10);
            out.push(10);
            assert(out@ =~= upsert_prefix(d@));
        },
        Some(o) => {
            proof {
                lemma_find_characterize(d@, open_bytes(), 0);
            }
            out = copy_range(d, 0, o);
            assert(out@ =~= upsert_prefix(d@));
        },
    }
    push_all(&mut out, &open);
    push_all(&mut out, body);
    push_all(&mut out, &close);
    match find_from(d, &open, 0) {
        None => {
            assert(out@ =~= upsert_spec(d@, body@));
        },
        Some(o) => {
            proof {
                lemma_find_characterize(d@, open_bytes(), 0);
                assert(matches_at(d@, open_bytes(), o as int));
                assert(o + open.len() <= d.len());
            }
            match find_from(d, &close, o + open.len()) {
                None => {
                    assert(out@ =~= upsert_spec(d@, body@));
                },
                Some(c) => {
                    proof {
                        lemma_find_characterize(d@, close_bytes(), o + open.len());
                        assert(matches_at(d@, close_bytes(), c as int));
                        assert(c + close.len() <= d.len());
                    }
                    let tail = copy_range(d, c + close.len(), d.len());
                    push_all(&mut out, &tail);
                    assert(out@ =~= upsert_spec(d@, body@));
                },
            }
        },
    }
    out
}

/// No opening marker occurs in the prefix that `upsert` keeps, whichever way
/// that prefix arises.
proof fn lemma_prefix_no_open(d: Seq<u8>)
    ensures
        forall|k: int| !matches_at(upsert_prefix(d), open_bytes(), k),
{
    let op = open_bytes();
    let p = upsert_prefix(d);
    lemma_marker_facts();
    lemma_find_characterize(d, op, 0);
    match find_spec(d, op, 0) {
        Some(o) => {
            assert forall|k: int| !matches_at(p, op, k) by {
                if matches_at(p, op, k) {
                    // The occurrence lies wholly inside d before o.
                    assert(d.subrange(k, k + op.len()) =~= p.subrange(k, k + op.len()));
                    assert(matches_at(d, op, k));
                    assert(k + op.len() <= o);
                }
            }
        },
        None => {
            assert forall|k: int| !matches_at(p, op, k) by {
                if matches_at(p, op, k) {
                    if k + op.len() <= d.len() {
                        assert(d.subrange(k, k + op.len()) =~= p.subrange(k, k + op.len()));
                        assert(matches_at(d, op, k));
                    } else {
                        // The occurrence would cover the appended newline.
                        assert(k <= d.len() < k + op.len());
                        assert(p.subrange(k, k + op.len())[d.len() - k] == p[d.len() as int]);
                        assert(p[d.len() as int] == 10);
                        assert(op[d.len() - k] != 10);
                    }
                }
            }
        },
    }
}

/// The first opening marker in the result of `upsert` ends the kept prefix.
#[verifier::rlimit(100)]
proof fn lemma_upsert_open_pos(d: Seq<u8>, b: Seq<u8>)
    ensures
        find_spec(upsert_spec(d, b), open_bytes(), 0)
            == Some(upsert_prefix(d).len() as int),
{
    let op = open_bytes();
    let p = upsert_prefix(d);
    let u = upsert_spec(d, b);
    let po = p.len() as int;
    lemma_marker_facts();
    lemma_prefix_no_open(d);
    lemma_find_characterize(d, op, 0);
    // The opening marker occurs right after the prefix.
    assert(u.subrange(po, po + op.len()) =~= op);
    assert(matches_at(u, op, po));
    // ... and nowhere earlier.
    assert forall|k: int| 0 <= k < po implies !matches_at(u, op, k) by {
        if matches_at(u, op, k) {
            if k + op.len() <= po {
                assert(p.subrange(k, k + op.len()) =~= u.subrange(k, k + op.len()));
                assert(matches_at(p, op, k));
            } else {
                match find_spec(d, op, 0) {
                    Some(o) => {
                        // u and d agree on the first o + |op| bytes.
                        assert(matches_at(d, op, o));
                        assert forall|i: int| 0 <= i < o + op.len() implies u[i] == d[i] by {
                            if i < o {
                                assert(u[i] == p[i]);
                            } else {
                                assert(u[i] == op[i - o]);
                                assert(d.subrange(o, o + op.len())[i - o] == op[i - o]);
                            }
                        }
                        assert(u.subrange(k, k + op.len()) =~= d.subrange(k, k + op.len()));
                        assert(matches_at(d, op, k));
                    },
                    None => {
                        // The candidate would cover the final appended newline.
                        assert(k <= po - 1 < k + op.len());
                        assert(p[po - 1] == 10);
                        assert(u[po - 1] == p[po - 1]);
                        assert(u.subrange(k, k + op.len())[po - 1 - k] == u[po - 1]);
                        assert(op[po - 1 - k] != 10);
                    },
                }
            }
        }
    }
    lemma_find_unique(u, op, 0, po);
}

/// The first closing marker after the opening one in the result of `upsert`
/// ends the new body.
#[verifier::rlimit(100)]
proof fn lemma_upsert_close_pos(d: Seq<u8>, b: Seq<u8>)
    requires
        !contains_close(b),
    ensures
        find_spec(
            upsert_spec(d, b),
            close_bytes(),
            (upsert_prefix(d).len() + open_bytes().len()) as int,
        ) == Some((upsert_prefix(d).len() + open_bytes().len() + b.len()) as int),
{
    let op = open_bytes();
    let cl = close_bytes();
    let p = upsert_prefix(d);
    let u = upsert_spec(d, b);
    let po = p.len() as int;
    let q = po + op.len() + b.len();
    lemma_marker_facts();
    // The closing marker occurs right after the new body.
    assert(u.subrange(q, q + cl.len()) =~= cl);
    assert(matches_at(u, cl, q));
    // ... and nowhere between the opening marker and there.
    assert forall|k: int| po + op.len() <= k < q implies !matches_at(u, cl, k) by {
        if matches_at(u, cl, k) {
            if k + cl.len() <= q {
                let kb = k - (po + op.len());
                assert(b.subrange(kb, kb + cl.len()) =~= u.subrange(k, k + cl.len()));
                assert(matches_at(b, cl, kb));
            } else {
                lemma_close_no_overlap(u, q);
            }
        }
    }
    lemma_find_unique(u, cl, po + op.len(), q);
}

/// Where the markers of the freshly written region stand in the result of
/// `upsert`.
proof fn lemma_upsert_structure(d: Seq<u8>, b: Seq<u8>)
    requires
        !contains_close(b),
    ensures
        find_spec(upsert_spec(d, b), open_bytes(), 0)
            == Some(upsert_prefix(d).len() as int),
        find_spec(
            upsert_spec(d, b),
            close_bytes(),
            (upsert_prefix(d).len() + open_bytes().len()) as int,
        ) == Some((upsert_prefix(d).len() + open_bytes().len() + b.len()) as int),
{
    lemma_upsert_open_pos(d, b);
    lemma_upsert_close_pos(d, b);
}

/// Extracting after upserting recovers the body exactly, for any description
/// and any body free of the closing marker.
pub proof fn lemma_extract_upsert(d: Seq<u8>, b: Seq<u8>)
    requires
        !contains_close(b),
    ensures
        extract_spec(upsert_spec(d, b)) == Some(b),
{
    let op = open_bytes();
    let cl = close_bytes();
    let p = upsert_prefix(d);
    let u = upsert_spec(d, b);
    let po = p.len() as int;
    lemma_upsert_structure(d, b);
    assert(u.subrange(po + op.len(), po + op.len() + b.len()) =~= b);
}

/// Upserting the same body twice changes nothing after the first time, for
/// any description and any body free of the closing marker.
pub proof fn lemma_upsert_idempotent(d: Seq<u8>, b: Seq<u8>)
    requires
        !contains_close(b),
    ensures
        upsert_spec(upsert_spec(d, b), b) == upsert_spec(d, b),
{
    let op = open_bytes();
    let cl = close_bytes();
    let p = upsert_prefix(d);
    let t = upsert_tail(d);
    let u = upsert_spec(d, b);
    let po = p.len() as int;
    let q = po + op.len() + b.len();
    lemma_upsert_structure(d, b);
    assert(upsert_prefix(u) =~= p);
    assert(upsert_tail(u) =~= t);
    assert(upsert_spec(u, b) =~= u);
}

/// State of the reference scanner: between tokens, just past a `#`, or
/// inside the digits of a reference with the value read so far.
pub enum ScanState {
    Outside,
    AfterHash,
    InNumber(nat),
}

/// ASCII decimal digit.
pub open spec fn is_digit(b: u8) -> bool {
    48 <= b <= 57
}

/// A finished number becomes a reference only when it fits the id type.
pub open spec fn emit_val(v: nat) -> Seq<u64> {
    if v <= u64::MAX {
        seq![v as u64]
    } else {
        Seq::empty()
    }
}

/// The scanner state that belongs to the executable scanner's registers.
pub open spec fn scan_state_of(mode: u8, v: nat) -> ScanState {
    if mode == 0 {
        ScanState::Outside
    } else if mode == 1 {
        ScanState::AfterHash
    } else {
        ScanState::InNumber(v)
    }
}

/// All `#<digits>` references at or after position `i`, given the scanner
/// state, in order of appearance.
pub open spec fn scan_ids(d: Seq<u8>, i: int, st: ScanState) -> Seq<u64>
    decreases d.len() - i,
{
    if i < 0 || i >= d.len() {
        match st {
            ScanState::InNumber(v) => emit_val(v),
            _ => Seq::empty(),
        }
    } else {
        let c = d[i];
        match st {
            ScanState::Outside => scan_ids(
                d,
                i + 1,
                if c == 35 {
                    ScanState::AfterHash
                } else {
                    ScanState::Outside
                },
            ),
            ScanState::AfterHash => if is_digit(c) {
                scan_ids(d, i + 1, ScanState::InNumber((c - 48) as nat))
            } else if c == 35 {
                scan_ids(d, i + 1, ScanState::AfterHash)
            } else {
                scan_ids(d, i + 1, ScanState::Outside)
            },
            ScanState::InNumber(v) => if is_digit(c) {
                scan_ids(d, i + 1, ScanState::InNumber((v * 10 + (c - 48)) as nat))
            } else {
                emit_val(v) + scan_ids(
                    d,
                    i + 1,
                    if c == 35 {
                        ScanState::AfterHash
                    } else {
                        ScanState::Outside
                    },
                )
            },
        }
    }
}

/// Every `#<digits>` reference in `d`, in order of appearance, duplicates
/// kept; a run of digits too large for the id type yields nothing.
pub open spec fn parse_ids_spec(d: Seq<u8>) -> Seq<u64> {
    scan_ids(d, 0, ScanState::Outside)
}

/// The ordered reference tokens of a body, exactly as `parse_ids_spec` reads
/// them.
pub fn parse_ids(d: &Vec<u8>) -> (ids: Vec<u64>)
    ensures
        ids@ == parse_ids_spec(d@),
{
    let mut out: Vec<u64> = Vec::new();
    let mut i: usize = 0;
    let mut mode: u8 = 0;
    let mut acc: u64 = 0;
    let mut over: bool = false;
    let ghost mut gv: nat = 0nat;
    while i < d.len()
        invariant
            i <= d.len(),
            mode <= 2,
            mode == 2 ==> ((over <==> gv > u64::MAX) && (!over ==> acc == gv)),
            out@ + scan_ids(d@, i as int, scan_state_of(mode, gv)) == parse_ids_spec(d@),
        decreases d.len() - i,
    {
        let c = d[i];
        let ghost st = scan_state_of(mode, gv);
        if mode == 0 {
            if c == 35 {
                mode = 1;
            }
        } else if mode == 1 {
            if 48 <= c && c <= 57 {
                mode = 2;
                acc = (c - 48) as u64;
                over = false;
                proof {
                    gv = (c - 48) as nat;
                }
            } else if c == 35 {
            } else {
                mode = 0;
            }
        } else {
            if 48 <= c && c <= 57 {
                let dig = c - 48;
                proof {
                    let m = u64::MAX as int;
                    let dd = dig as int;
                    assert(10 * ((m - dd) / 10) + (m - dd) % 10 == m - dd);
                }
                if over {
                } else if acc > (u64::MAX - dig as u64) / 10 {
                    over = true;
                } else {
                    acc = acc * 10 + dig as u64;
                }
                proof {
                    gv = (gv * 10 + (c - 48)) as nat;
                }
            } else {
                if !over {
                    out.push(acc);
                    proof {
                        assert(emit_val(gv) =~= seq![acc]);
                    }
                }
                if c == 35 {
                    mode = 1;
                } else {
                    mode = 0;
                }
                proof {
                    gv = 0nat;
                    if over {
                        assert(emit_val(st->InNumber_0) =~= Seq::<u64>::empty());
                    }
                }
            }
        }
        proof {
            assert(scan_ids(d@, i as int, st)
                == (match st {
                    ScanState::InNumber(v) => if !is_digit(d@[i as int]) {
                        emit_val(v)
                    } else {
                        Seq::<u64>::empty()
                    },
                    _ => Seq::<u64>::empty(),
                }) + scan_ids(d@, i + 1, scan_state_of(mode, gv))) by {
                assert(Seq::<u64>::empty() + scan_ids(d@, i + 1, scan_state_of(mode, gv))
                    =~= scan_ids(d@, i + 1, scan_state_of(mode, gv)));
            }
            assert(out@ + scan_ids(d@, i + 1, scan_state_of(mode, gv)) =~= parse_ids_spec(d@));
        }
        i += 1;
    }
    if mode == 2 && !over {
        out.push(acc);
        proof {
            assert(emit_val(gv) =~= seq![acc]);
        }
    }
    proof {
        assert(out@ =~= parse_ids_spec(d@));
    }
    out
}
/// The pin glyph marking the branch's own entry, with its leading space
/// (the bytes of " \u{1F4CC}").
pub open spec fn pin_bytes() -> Seq<u8> {
    seq![32u8, 240, 159, 147, 140]
}

/// The heading that opens every rendered body: a blank, `### Train`, a blank.
pub open spec fn heading_bytes() -> Seq<u8> {
    seq![10u8, 35, 35, 35, 32, 84, 114, 97, 105, 110, 10]
}

/// The decimal digits of `n`, most significant first.
pub open spec fn dec_digits(n: nat) -> Seq<u8>
    decreases n,
{
    if n < 10 {
        seq![(48 + n) as u8]
    } else {
        dec_digits(n / 10).push((48 + n % 10) as u8)
    }
}

/// One bulleted line: `- #<id>`, the pin glyph when the entry is the
/// branch's own request, and a newline.
pub open spec fn render_entry(id: u64, own: u64) -> Seq<u8> {
    seq![45u8, 32, 35] + dec_digits(id as nat) + (if id == own {
        pin_bytes()
    } else {
        Seq::empty()
    }) + seq![10u8]
}

/// The bulleted lines of all entries, in order.
pub open spec fn render_entries(ids: Seq<u64>, own: u64) -> Seq<u8>
    decreases ids.len(),
{
    if ids.len() == 0 {
        Seq::empty()
    } else {
        render_entry(ids[0], own) + render_entries(ids.skip(1), own)
    }
}

/// A freshly rendered region body: the heading followed by the entries.
pub open spec fn render_body(ids: Seq<u64>, own: u64) -> Seq<u8> {
    heading_bytes() + render_entries(ids, own)
}

/// The decimal digits of `n`, most significant first.
pub fn u64_to_dec(n: u64) -> (v: Vec<u8>)
    ensures
        v@ == dec_digits(n as nat),
    decreases n,
{
    if n < 10 {
        let mut v: Vec<u8> = Vec::new();
        v.push(48 + n as u8);
        assert(v@ =~= dec_digits(n as nat));
        v
    } else {
        let mut v = u64_to_dec(n / 10);
        v.push(48 + (n % 10) as u8);
        assert(v@ =~= dec_digits(n as nat));
        v
    }
}

/// Appending one id renders as the old lines followed by the new line.
proof fn lemma_entries_push(ids: Seq<u64>, x: u64, own: u64)
    ensures
        render_entries(ids.push(x), own) == render_entries(ids, own) + render_entry(x, own),
    decreases ids.len(),
{
    if ids.len() == 0 {
        assert(ids.push(x).skip(1) =~= Seq::<u64>::empty());
        assert(ids.push(x)[0] == x);
        assert(render_entries(Seq::<u64>::empty(), own) == Seq::<u8>::empty());
        assert(render_entries(ids.push(x), own)
            == render_entry(x, own) + render_entries(Seq::<u64>::empty(), own));
        assert(render_entries(ids.push(x), own) =~= render_entries(ids, own) + render_entry(x, own));
    } else {
        lemma_entries_push(ids.skip(1), x, own);
        assert(ids.push(x).skip(1) =~= ids.skip(1).push(x));
        assert(ids.push(x)[0] == ids[0]);
        assert(render_entries(ids.push(x), own)
            =~= render_entries(ids, own) + render_entry(x, own));
    }
}

/// A freshly rendered body for `ids`, pinning the entry that equals `own`.
pub fn render_train(ids: &Vec<u64>, own: u64) -> (v: Vec<u8>)
    ensures
        v@ == render_body(ids@, own),
{
    let mut v: Vec<u8> = vec![10u8, 35, 35, 35, 32, 84, 114, 97, 105, 110, 10];
    assert(v@ =~= heading_bytes());
    assert(render_entries(ids@.take(0), own) =~= Seq::<u8>::empty());
    let mut i: usize = 0;
    while i < ids.len()
        invariant
            i <= ids.len(),
            v@ == heading_bytes() + render_entries(ids@.take(i as int), own),
        decreases ids.len() - i,
    {
        let id = ids[i];
        let ghost pre = v@;
        v.push(45);
        v.push(32);
        v.push(35);
        let dd = u64_to_dec(id);
        push_all(&mut v, &dd);
        if id == own {
            v.push(32);
            v.push(240);
            v.push(159);
            v.push(147);
            v.push(140);
        }
        v.push(10);
        proof {
            assert(v@ =~= pre + render_entry(id, own));
            lemma_entries_push(ids@.take(i as int), id, own);
            assert(ids@.take(i as int).push(id) =~= ids@.take(i + 1));
            assert(v@ =~= heading_bytes() + render_entries(ids@.take(i + 1), own));
        }
        i += 1;
    }
    proof {
        assert(ids@.take(ids@.len() as int) =~= ids@);
    }
    v
}
/// The value a digit run extends an already-read value `w` to, reading
/// left to right.
pub open spec fn extend_val(w: nat, s: Seq<u8>) -> nat
    decreases s.len(),
{
    if s.len() == 0 {
        w
    } else {
        extend_val((w * 10 + (s[0] - 48)) as nat, s.skip(1))
    }
}

/// Reading digits extends values one run after the other.
proof fn lemma_extend_val_concat(w: nat, a: Seq<u8>, b: Seq<u8>)
    ensures
        extend_val(w, a + b) == extend_val(extend_val(w, a), b),
    decreases a.len(),
{
    if a.len() == 0 {
        assert(a + b =~= b);
    } else {
        assert((a + b).skip(1) =~= a.skip(1) + b);
        assert((a + b)[0] == a[0]);
        lemma_extend_val_concat((w * 10 + (a[0] - 48)) as nat, a.skip(1), b);
    }
}

/// The decimal rendering of `n` is non-empty, all digits, and reads back
/// as `n`.
proof fn lemma_dec_digits(n: nat)
    ensures
        dec_digits(n).len() >= 1,
        forall|j: int| 0 <= j < dec_digits(n).len() ==> is_digit(#[trigger] dec_digits(n)[j]),
        extend_val(0, dec_digits(n)) == n,
    decreases n,
{
    if n < 10 {
        assert(extend_val(0, dec_digits(n))
            == extend_val((0 * 10 + (dec_digits(n)[0] - 48)) as nat, dec_digits(n).skip(1)));
        assert(dec_digits(n).skip(1) =~= Seq::<u8>::empty());
    } else {
        lemma_dec_digits(n / 10);
        let d = dec_digits(n / 10);
        let last = (48 + n % 10) as u8;
        assert(dec_digits(n) =~= d + seq![last]);
        lemma_extend_val_concat(0, d, seq![last]);
        assert(extend_val(n / 10, seq![last])
            == extend_val(((n / 10) * 10 + (seq![last][0] - 48)) as nat, seq![last].skip(1)));
        assert(seq![last].skip(1) =~= Seq::<u8>::empty());
        assert((n / 10) * 10 + n % 10 == n);
        assert forall|j: int| 0 <= j < dec_digits(n).len() implies is_digit(
            #[trigger] dec_digits(n)[j],
        ) by {
            if j < d.len() {
                assert(dec_digits(n)[j] == d[j]);
            } else {
                assert(dec_digits(n)[j] == last);
            }
        }
    }
}

/// Scanning a run of digits folds them all into the value being read.
proof fn lemma_scan_digit_run(d: Seq<u8>, i: int, s: Seq<u8>, w: nat)
    requires
        matches_at(d, s, i),
        forall|j: int| 0 <= j < s.len() ==> is_digit(#[trigger] s[j]),
    ensures
        scan_ids(d, i, ScanState::InNumber(w))
            == scan_ids(d, i + s.len(), ScanState::InNumber(extend_val(w, s))),
    decreases s.len(),
{
    if s.len() == 0 {
    } else {
        assert(d.subrange(i, i + s.len())[0] == s[0]);
        assert(d[i] == s[0]);
        assert(is_digit(d[i]));
        let w1 = (w * 10 + (d[i] - 48)) as nat;
        assert(scan_ids(d, i, ScanState::InNumber(w))
            == scan_ids(d, i + 1, ScanState::InNumber(w1)));
        assert(d.subrange(i + 1, i + s.len()) =~= s.skip(1));
        assert(matches_at(d, s.skip(1), i + 1));
        lemma_scan_digit_run(d, i + 1, s.skip(1), w1);
        assert(extend_val(w, s) == extend_val(w1, s.skip(1)));
    }
}

/// Scanning across one rendered entry emits exactly that entry's id.
proof fn lemma_scan_entry(d: Seq<u8>, i: int, id: u64, own: u64)
    requires
        matches_at(d, render_entry(id, own), i),
    ensures
        scan_ids(d, i, ScanState::Outside)
            == seq![id] + scan_ids(d, i + render_entry(id, own).len(), ScanState::Outside),
{
    let e = render_entry(id, own);
    let dd = dec_digits(id as nat);
    let ld = dd.len() as int;
    lemma_dec_digits(id as nat);
    assert forall|k: int| 0 <= k < e.len() implies d[i + k] == e[k] by {
        assert(d.subrange(i, i + e.len())[k] == e[k]);
    }
    // The three lead bytes walk the scanner to just past the `#`.
    assert(e[0] == 45);
    assert(e[1] == 32);
    assert(e[2] == 35);
    assert(scan_ids(d, i, ScanState::Outside) == scan_ids(d, i + 1, ScanState::Outside));
    assert(scan_ids(d, i + 1, ScanState::Outside) == scan_ids(d, i + 2, ScanState::Outside));
    assert(scan_ids(d, i + 2, ScanState::Outside) == scan_ids(d, i + 3, ScanState::AfterHash));
    // The first digit starts the number, the rest of the run extends it.
    assert(e[3] == dd[0]);
    assert(is_digit(d[i + 3]));
    assert(scan_ids(d, i + 3, ScanState::AfterHash)
        == scan_ids(d, i + 4, ScanState::InNumber((d[i + 3] - 48) as nat)));
    let w1 = (dd[0] - 48) as nat;
    assert(d.subrange(i + 4, i + 3 + ld) =~= dd.skip(1)) by {
        assert forall|k: int| 0 <= k < ld - 1 implies d.subrange(i + 4, i + 3 + ld)[k]
            == dd.skip(1)[k] by {
            assert(e[3 + (k + 1)] == dd[k + 1]);
        }
    }
    assert(matches_at(d, dd.skip(1), i + 4));
    lemma_scan_digit_run(d, i + 4, dd.skip(1), w1);
    assert(extend_val(0, dd) == extend_val((0 * 10 + (dd[0] - 48)) as nat, dd.skip(1)));
    assert(extend_val(w1, dd.skip(1)) == id as nat);
    assert(scan_ids(d, i + 4, ScanState::InNumber(w1))
        == scan_ids(d, i + 4 + dd.skip(1).len(), ScanState::InNumber(extend_val(w1, dd.skip(1)))));
    assert(scan_ids(d, i + 4, ScanState::InNumber(w1))
        == scan_ids(d, i + 3 + ld, ScanState::InNumber(id as nat)));
    assert(emit_val(id as nat) =~= seq![id]);
    if id == own {
        // A space, the four glyph bytes, then the newline.
        assert(e[3 + ld] == 32);
        assert(e[3 + ld + 1] == 240);
        assert(e[3 + ld + 2] == 159);
        assert(e[3 + ld + 3] == 147);
        assert(e[3 + ld + 4] == 140);
        assert(e[3 + ld + 5] == 10);
        assert(e.len() == 3 + ld + 6);
        assert(scan_ids(d, i + 3 + ld, ScanState::InNumber(id as nat))
            == emit_val(id as nat) + scan_ids(d, i + 3 + ld + 1, ScanState::Outside));
        assert(scan_ids(d, i + 3 + ld + 1, ScanState::Outside)
            == scan_ids(d, i + 3 + ld + 2, ScanState::Outside));
        assert(scan_ids(d, i + 3 + ld + 2, ScanState::Outside)
            == scan_ids(d, i + 3 + ld + 3, ScanState::Outside));
        assert(scan_ids(d, i + 3 + ld + 3, ScanState::Outside)
            == scan_ids(d, i + 3 + ld + 4, ScanState::Outside));
        assert(scan_ids(d, i + 3 + ld + 4, ScanState::Outside)
            == scan_ids(d, i + 3 + ld + 5, ScanState::Outside));
        assert(scan_ids(d, i + 3 + ld + 5, ScanState::Outside)
            == scan_ids(d, i + 3 + ld + 6, ScanState::Outside));
        assert(scan_ids(d, i, ScanState::Outside)
            =~= seq![id] + scan_ids(d, i + e.len(), ScanState::Outside));
    } else {
        assert(e[3 + ld] == 10);
        assert(e.len() == 3 + ld + 1);
        assert(scan_ids(d, i + 3 + ld, ScanState::InNumber(id as nat))
            == emit_val(id as nat) + scan_ids(d, i + 3 + ld + 1, ScanState::Outside));
        assert(scan_ids(d, i, ScanState::Outside)
            =~= seq![id] + scan_ids(d, i + e.len(), ScanState::Outside));
    }
}

/// Scanning across all rendered entries emits exactly the id list.
proof fn lemma_scan_entries(d: Seq<u8>, i: int, ids: Seq<u64>, own: u64)
    requires
        matches_at(d, render_entries(ids, own), i),
    ensures
        scan_ids(d, i, ScanState::Outside)
            == ids + scan_ids(d, i + render_entries(ids, own).len(), ScanState::Outside),
    decreases ids.len(),
{
    let es = render_entries(ids, own);
    if ids.len() == 0 {
        assert(ids + scan_ids(d, i, ScanState::Outside) =~= scan_ids(d, i, ScanState::Outside));
    } else {
        let e = render_entry(ids[0], own);
        let rest = render_entries(ids.skip(1), own);
        assert(es =~= e + rest);
        assert(d.subrange(i, i + e.len()) =~= es.subrange(0, e.len() as int)) by {
            assert forall|k: int| 0 <= k < e.len() implies d.subrange(i, i + e.len())[k]
                == es.subrange(0, e.len() as int)[k] by {
                assert(d.subrange(i, i + es.len())[k] == es[k]);
            }
        }
        assert(es.subrange(0, e.len() as int) =~= e);
        assert(matches_at(d, e, i));
        lemma_scan_entry(d, i, ids[0], own);
        assert(d.subrange(i + e.len(), i + es.len()) =~= rest) by {
            assert forall|k: int| 0 <= k < rest.len() implies d.subrange(
                i + e.len(),
                i + es.len(),
            )[k] == rest[k] by {
                assert(d.subrange(i, i + es.len())[e.len() + k] == es[e.len() + k]);
            }
        }
        assert(matches_at(d, rest, i + e.len()));
        lemma_scan_entries(d, i + e.len(), ids.skip(1), own);
        assert(scan_ids(d, i, ScanState::Outside)
            =~= ids + scan_ids(d, i + es.len(), ScanState::Outside));
    }
}

/// Parsing a freshly rendered body recovers the id list exactly.
pub proof fn lemma_parse_render(ids: Seq<u64>, own: u64)
    ensures
        parse_ids_spec(render_body(ids, own)) == ids,
{
    let b = render_body(ids, own);
    let h = heading_bytes();
    let es = render_entries(ids, own);
    assert forall|k: int| 0 <= k < h.len() implies b[k] == h[k] by {}
    // The scanner walks through the heading without emitting anything.
    assert(scan_ids(b, 0, ScanState::Outside) == scan_ids(b, 1, ScanState::Outside));
    assert(scan_ids(b, 1, ScanState::Outside) == scan_ids(b, 2, ScanState::AfterHash));
    assert(scan_ids(b, 2, ScanState::AfterHash) == scan_ids(b, 3, ScanState::AfterHash));
    assert(scan_ids(b, 3, ScanState::AfterHash) == scan_ids(b, 4, ScanState::AfterHash));
    assert(scan_ids(b, 4, ScanState::AfterHash) == scan_ids(b, 5, ScanState::Outside));
    assert(scan_ids(b, 5, ScanState::Outside) == scan_ids(b, 6, ScanState::Outside));
    assert(scan_ids(b, 6, ScanState::Outside) == scan_ids(b, 7, ScanState::Outside));
    assert(scan_ids(b, 7, ScanState::Outside) == scan_ids(b, 8, ScanState::Outside));
    assert(scan_ids(b, 8, ScanState::Outside) == scan_ids(b, 9, ScanState::Outside));
    assert(scan_ids(b, 9, ScanState::Outside) == scan_ids(b, 10, ScanState::Outside));
    assert(scan_ids(b, 10, ScanState::Outside) == scan_ids(b, 11, ScanState::Outside));
    assert(b.subrange(11, b.len() as int) =~= es);
    assert(matches_at(b, es, 11));
    lemma_scan_entries(b, 11, ids, own);
    assert(scan_ids(b, (11 + es.len()) as int, ScanState::Outside) =~= Seq::<u64>::empty());
    assert(parse_ids_spec(b) =~= ids);
}

/// No byte of a rendered body opens an HTML comment, so neither marker can
/// occur in it.
proof fn lemma_entries_no_marker_byte(ids: Seq<u64>, own: u64)
    ensures
        forall|j: int|
            0 <= j < render_entries(ids, own).len()
                ==> #[trigger] render_entries(ids, own)[j] != 60,
    decreases ids.len(),
{
    if ids.len() == 0 {
    } else {
        let e = render_entry(ids[0], own);
        let rest = render_entries(ids.skip(1), own);
        lemma_entries_no_marker_byte(ids.skip(1), own);
        lemma_dec_digits(ids[0] as nat);
        assert forall|j: int| 0 <= j < render_entries(ids, own).len() implies #[trigger]
            render_entries(ids, own)[j] != 60 by {
            if j < e.len() {
                assert(render_entries(ids, own)[j] == e[j]);
                let dd = dec_digits(ids[0] as nat);
                if 3 <= j < 3 + dd.len() {
                    assert(e[j] == dd[j - 3]);
                    assert(is_digit(dd[j - 3]));
                }
            } else {
                assert(render_entries(ids, own)[j] == rest[j - e.len()]);
            }
        }
    }
}

/// A rendered body never contains the closing marker, so it can stand as an
/// `upsert` body unchanged.
pub proof fn lemma_render_no_close(ids: Seq<u64>, own: u64)
    ensures
        !contains_close(render_body(ids, own)),
{
    let b = render_body(ids, own);
    lemma_entries_no_marker_byte(ids, own);
    lemma_marker_facts();
    assert forall|k: int| !matches_at(b, close_bytes(), k) by {
        if matches_at(b, close_bytes(), k) {
            assert(b.subrange(k, k + close_bytes().len())[0] == close_bytes()[0]);
            assert(b[k] == close_bytes()[0]);
            assert(close_bytes()[0] == 60) by {
                reveal(close_bytes);
            }
            if k < heading_bytes().len() {
                assert(b[k] == heading_bytes()[k]);
            } else {
                assert(b[k] == render_entries(ids, own)[k - heading_bytes().len()]);
            }
        }
    }
}
/// How often the byte `b` occurs in `s`.
pub open spec fn count_byte(s: Seq<u8>, b: u8) -> nat
    decreases s.len(),
{
    if s.len() == 0 {
        0
    } else {
        (if s[0] == b {
            1nat
        } else {
            0nat
        }) + count_byte(s.skip(1), b)
    }
}

/// How often the id `x` occurs in `ids`.
pub open spec fn count_id(ids: Seq<u64>, x: u64) -> nat
    decreases ids.len(),
{
    if ids.len() == 0 {
        0
    } else {
        (if ids[0] == x {
            1nat
        } else {
            0nat
        }) + count_id(ids.skip(1), x)
    }
}

/// Counting distributes over concatenation.
proof fn lemma_count_byte_concat(a: Seq<u8>, b: Seq<u8>, x: u8)
    ensures
        count_byte(a + b, x) == count_byte(a, x) + count_byte(b, x),
    decreases a.len(),
{
    if a.len() == 0 {
        assert(a + b =~= b);
    } else {
        assert((a + b).skip(1) =~= a.skip(1) + b);
        assert((a + b)[0] == a[0]);
        lemma_count_byte_concat(a.skip(1), b, x);
    }
}

/// A sequence without the byte counts zero.
proof fn lemma_count_byte_zero(s: Seq<u8>, x: u8)
    requires
        forall|j: int| 0 <= j < s.len() ==> s[j] != x,
    ensures
        count_byte(s, x) == 0,
    decreases s.len(),
{
    if s.len() == 0 {
    } else {
        assert forall|j: int| 0 <= j < s.skip(1).len() implies s.skip(1)[j] != x by {
            assert(s.skip(1)[j] == s[j + 1]);
        }
        lemma_count_byte_zero(s.skip(1), x);
    }
}

/// The first byte of the pin glyph occurs in a rendered entry exactly when
/// the entry is pinned, and then exactly once.
proof fn lemma_count_pin_entry(id: u64, own: u64)
    ensures
        count_byte(render_entry(id, own), 240) == if id == own {
            1nat
        } else {
            0nat
        },
{
    let lead = seq![45u8, 32, 35];
    let dd = dec_digits(id as nat);
    let tail = seq![10u8];
    lemma_dec_digits(id as nat);
    lemma_count_byte_zero(lead, 240);
    assert forall|j: int| 0 <= j < dd.len() implies dd[j] != 240 by {
        assert(is_digit(dd[j]));
    }
    lemma_count_byte_zero(dd, 240);
    lemma_count_byte_zero(tail, 240);
    if id == own {
        let pin = pin_bytes();
        assert(count_byte(pin.skip(2), 240) == 0) by {
            lemma_count_byte_zero(pin.skip(2), 240);
        }
        assert(pin.skip(1).skip(1) =~= pin.skip(2));
        assert(pin.skip(1)[0] == 240);
        assert(count_byte(pin.skip(1), 240) == 1);
        assert(pin[0] == 32);
        assert(count_byte(pin, 240) == 1);
        lemma_count_byte_concat(lead, dd, 240);
        lemma_count_byte_concat(lead + dd, pin, 240);
        lemma_count_byte_concat(lead + dd + pin, tail, 240);
        assert(render_entry(id, own) == lead + dd + pin + tail);
    } else {
        lemma_count_byte_concat(lead, dd, 240);
        lemma_count_byte_concat(lead + dd, Seq::empty(), 240);
        lemma_count_byte_concat(lead + dd + Seq::empty(), tail, 240);
        assert(render_entry(id, own) == lead + dd + Seq::empty() + tail);
        assert(count_byte(Seq::empty(), 240) == 0);
    }
}

/// The rendered lines carry as many pin glyphs as the id list carries the
/// own id.
proof fn lemma_count_pin_entries(ids: Seq<u64>, own: u64)
    ensures
        count_byte(render_entries(ids, own), 240) == count_id(ids, own),
    decreases ids.len(),
{
    if ids.len() == 0 {
    } else {
        lemma_count_pin_entry(ids[0], own);
        lemma_count_pin_entries(ids.skip(1), own);
        lemma_count_byte_concat(
            render_entry(ids[0], own),
            render_entries(ids.skip(1), own),
            240,
        );
    }
}

/// A rendered body carries exactly one pin glyph for each occurrence of the
/// own id in the train, and no others.
pub proof fn lemma_count_pin_body(ids: Seq<u64>, own: u64)
    ensures
        count_byte(render_body(ids, own), 240) == count_id(ids, own),
{
    lemma_count_byte_zero(heading_bytes(), 240);
    lemma_count_pin_entries(ids, own);
    lemma_count_byte_concat(heading_bytes(), render_entries(ids, own), 240);
}
} // verus!
