//! Patch normalization ahead of fingerprinting: hunk headers and index lines
//! lose the line numbers and blob ids they carry, so that a patch moved to
//! other line offsets normalizes to the same text.
use vstd::prelude::*;
use crate::text::{is_line_end, lemma_line_end_unique, line_end};

verus! {

pub const NEWLINE: u8 = 10;

pub open spec fn starts_with_bytes(l: Seq<u8>, p: Seq<u8>) -> bool {
    p.len() <= l.len() && l.subrange(0, p.len() as int) == p
}

/// The bytes `@@`, which open a hunk header.
pub open spec fn hunk_marker() -> Seq<u8> {
    seq![64u8, 64u8]
}

/// The bytes `index`, which open a file-index line.
pub open spec fn index_marker() -> Seq<u8> {
    seq![105u8, 110u8, 100u8, 101u8, 120u8]
}

/// A hunk header becomes the bare marker `@@`; an index line becomes empty;
/// any other line stays.
pub open spec fn normalize_line(l: Seq<u8>) -> Seq<u8> {
    if starts_with_bytes(l, hunk_marker()) {
        hunk_marker()
    } else if starts_with_bytes(l, index_marker()) {
        Seq::empty()
    } else {
        l
    }
}

/// `s` with each of its lines normalized and its line breaks kept.
pub open spec fn normalized(s: Seq<u8>) -> Seq<u8>
    decreases s.len(),
{
    let k = line_end(s, NEWLINE);
    if 0 <= k < s.len() {
        normalize_line(s.subrange(0, k)) + seq![NEWLINE] + normalized(s.subrange(k + 1, s.len() as int))
    } else {
        normalize_line(s)
    }
}

fn starts_with_at(s: &Vec<u8>, start: usize, end: usize, p: &[u8]) -> (r: bool)
    requires
        start <= end <= s@.len(),
    ensures
        r == starts_with_bytes(s@.subrange(start as int, end as int), p@),
{
    let ghost l = s@.subrange(start as int, end as int);
    if p.len() > end - start {
        return false;
    }
    let mut i: usize = 0;
    while i < p.len()
        invariant
            p@.len() <= end - start,
            start <= end <= s@.len(),
            i <= p@.len(),
            l == s@.subrange(start as int, end as int),
            forall|j: int| 0 <= j < i ==> l[j] == p@[j],
        decreases p@.len() - i,
    {
        if s[start + i] != p[i] {
            assert(l.subrange(0, p@.len() as int)[i as int] != p@[i as int]);
            return false;
        }
        i = i + 1;
    }
    assert(l.subrange(0, p@.len() as int) =~= p@);
    true
}

/// Appends the normalized line `s[start..end]` to `out`.
fn push_normalized_line(out: &mut Vec<u8>, s: &Vec<u8>, start: usize, end: usize)
    requires
        start <= end <= s@.len(),
    ensures
        final(out)@ == old(out)@ + normalize_line(s@.subrange(start as int, end as int)),
{
    let hunk: [u8; 2] = [64u8, 64u8];
    let index: [u8; 5] = [105u8, 110u8, 100u8, 101u8, 120u8];
    assert(hunk@ =~= hunk_marker());
    assert(index@ =~= index_marker());
    let ghost o = out@;
    if starts_with_at(s, start, end, hunk.as_slice()) {
        out.push(64u8);
        out.push(64u8);
        assert(out@ =~= o + hunk_marker());
    } else if starts_with_at(s, start, end, index.as_slice()) {
        assert(out@ =~= o + Seq::<u8>::empty());
    } else {
        let mut i: usize = start;
        while i < end
            invariant
                start <= i <= end <= s@.len(),
                out@ == o + s@.subrange(start as int, i as int),
            decreases end - i,
        {
            out.push(s[i]);
            i = i + 1;
            assert(out@ =~= o + s@.subrange(start as int, i as int));
        }
    }
}

/// The patch `patch` with every hunk header reduced to `@@` and every index
/// line emptied, line breaks kept.
pub fn normalize_patch(patch: &Vec<u8>) -> (r: Vec<u8>)
    ensures
        r@ == normalized(patch@),
{
    let n = patch.len();
    let mut out: Vec<u8> = Vec::new();
    let mut start: usize = 0;
    assert(patch@.subrange(0, n as int) =~= patch@);
    loop
        invariant
            n == patch@.len(),
            start <= n,
            out@ + normalized(patch@.subrange(start as int, n as int)) == normalized(patch@),
        decreases n - start,
    {
        let ghost rest = patch@.subrange(start as int, n as int);
        let mut k: usize = start;
        while k < n && patch[k] != NEWLINE
            invariant
                start <= k <= n,
                n == patch@.len(),
                forall|j: int| start <= j < k ==> patch@[j] != NEWLINE,
            decreases n - k,
        {
            k = k + 1;
        }
        proof {
            assert(is_line_end(rest, NEWLINE, k - start));
            lemma_line_end_unique(rest, NEWLINE, k - start);
            assert(rest.subrange(0, k - start) =~= patch@.subrange(start as int, k as int));
        }
        let ghost o = out@;
        push_normalized_line(&mut out, patch, start, k);
        if k == n {
            assert(rest =~= patch@.subrange(start as int, k as int));
            assert(normalized(rest) == normalize_line(rest));
            assert(out@ =~= o + normalized(rest));
            assert(patch@.subrange(n as int, n as int) =~= Seq::<u8>::empty());
            return out;
        }
        out.push(NEWLINE);
        proof {
            assert(rest.subrange(k - start + 1, rest.len() as int) =~= patch@.subrange(k + 1, n as int));
            assert(out@ + normalized(patch@.subrange(k + 1, n as int)) =~= o + normalized(rest));
        }
        start = k + 1;
    }
}

/// The lines `ls` joined by line breaks.
pub open spec fn join_lines(ls: Seq<Seq<u8>>) -> Seq<u8>
    decreases ls.len(),
{
    if ls.len() == 0 {
        Seq::empty()
    } else if ls.len() == 1 {
        ls[0]
    } else {
        ls[0] + seq![NEWLINE] + join_lines(ls.drop_first())
    }
}

pub open spec fn no_line_break(l: Seq<u8>) -> bool {
    forall|j: int| 0 <= j < l.len() ==> l[j] != NEWLINE
}

/// Normalizing a text normalizes each of its lines.
pub proof fn lemma_normalized_lines(ls: Seq<Seq<u8>>)
    requires
        ls.len() >= 1,
        forall|i: int| 0 <= i < ls.len() ==> no_line_break(#[trigger] ls[i]),
    ensures
        normalized(join_lines(ls)) == join_lines(ls.map_values(|l: Seq<u8>| normalize_line(l))),
    decreases ls.len(),
{
    let s = join_lines(ls);
    let m = ls.map_values(|l: Seq<u8>| normalize_line(l));
    let k = ls[0].len() as int;
    if ls.len() == 1 {
        assert(no_line_break(ls[0]));
        assert(is_line_end(s, NEWLINE, k));
        lemma_line_end_unique(s, NEWLINE, k);
    } else {
        let tail = ls.drop_first();
        assert forall|i: int| 0 <= i < tail.len() implies no_line_break(#[trigger] tail[i]) by {
            assert(tail[i] == ls[i + 1]);
        }
        lemma_normalized_lines(tail);
        assert(no_line_break(ls[0]));
        assert(is_line_end(s, NEWLINE, k));
        lemma_line_end_unique(s, NEWLINE, k);
        assert(s.subrange(0, k) =~= ls[0]);
        assert(s.subrange(k + 1, s.len() as int) =~= join_lines(tail));
        assert(m.drop_first() =~= tail.map_values(|l: Seq<u8>| normalize_line(l)));
    }
}

/// Two patches whose lines agree except where both have a hunk header, or
/// both an index line, normalize to the same text: line offsets and blob
/// ids do not reach the fingerprint.
pub proof fn lemma_line_offsets_ignored(a: Seq<Seq<u8>>, b: Seq<Seq<u8>>)
    requires
        a.len() == b.len(),
        a.len() >= 1,
        forall|i: int| 0 <= i < a.len() ==> no_line_break(#[trigger] a[i]),
        forall|i: int| 0 <= i < b.len() ==> no_line_break(#[trigger] b[i]),
        forall|i: int|
            0 <= i < a.len() ==> #[trigger] a[i] == b[i] || (starts_with_bytes(a[i], hunk_marker())
                && starts_with_bytes(b[i], hunk_marker())) || (!starts_with_bytes(a[i], hunk_marker())
                && !starts_with_bytes(b[i], hunk_marker()) && starts_with_bytes(a[i], index_marker())
                && starts_with_bytes(b[i], index_marker())),
    ensures
        normalized(join_lines(a)) == normalized(join_lines(b)),
{
    lemma_normalized_lines(a);
    lemma_normalized_lines(b);
    assert(a.map_values(|l: Seq<u8>| normalize_line(l)) =~= b.map_values(|l: Seq<u8>| normalize_line(l)));
}

/// Fingerprints are wanted only in variant mode, and only for a group of
/// more than one commit.
pub fn needs_fingerprint(variants: bool, group_size: usize) -> (r: bool)
    ensures
        r == (variants && group_size > 1),
{
    variants && group_size > 1
}

} // verus!
