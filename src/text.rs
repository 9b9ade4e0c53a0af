//! Plain text helpers: substring tests and line splitting.
use vstd::prelude::*;
use vstd::string::*;

verus! {

/// `needle` occurs somewhere in `hay`.
pub open spec fn is_substring(hay: Seq<char>, needle: Seq<char>) -> bool {
    exists|i: int|
        0 <= i && i + needle.len() <= hay.len() && #[trigger] hay.subrange(i, i + needle.len())
            == needle
}

/// `k` is where the first line of `s` ends: the first separator, or the end.
pub open spec fn is_line_end<A>(s: Seq<A>, sep: A, k: int) -> bool {
    &&& 0 <= k <= s.len()
    &&& forall|j: int| 0 <= j < k ==> s[j] != sep
    &&& (k == s.len() || s[k] == sep)
}

/// The end of the first line of `s`.
pub open spec fn line_end<A>(s: Seq<A>, sep: A) -> int {
    choose|k: int| is_line_end(s, sep, k)
}

/// The first line of `s` without its terminator, as `str::lines` gives it:
/// none for an empty text, and a `\r` dropped only before a `\n`.
pub open spec fn first_line_spec(s: Seq<char>) -> Option<Seq<char>> {
    if s.len() == 0 {
        None
    } else {
        let k = line_end(s, '\n');
        let line = s.subrange(0, k);
        if k < s.len() && k > 0 && line.last() == '\r' {
            Some(line.drop_last())
        } else {
            Some(line)
        }
    }
}

/// What follows the first line of `s` and its `\n`.
pub open spec fn after_first_line(s: Seq<char>) -> Seq<char> {
    let k = line_end(s, '\n');
    if k < s.len() {
        s.subrange(k + 1, s.len() as int)
    } else {
        Seq::empty()
    }
}

pub open spec fn opt_view(o: Option<String>) -> Option<Seq<char>> {
    match o {
        Some(s) => Some(s@),
        None => None,
    }
}

pub proof fn lemma_line_end_unique<A>(s: Seq<A>, sep: A, k: int)
    requires
        is_line_end(s, sep, k),
    ensures
        line_end(s, sep) == k,
{
    let c = line_end(s, sep);
    assert(is_line_end(s, sep, c));
    if c < k {
        assert(s[c] != sep);
    } else if k < c {
        assert(s[k] != sep);
    }
}

/// Relies on `str::contains` with a `&str` pattern: true exactly when `needle`
/// occurs in `hay`.
#[verifier::external_body]
pub(crate) fn str_contains(hay: &str, needle: &str) -> (r: bool)
    ensures
        r == is_substring(hay@, needle@),
{
    hay.contains(needle)
}

/// Finds the end of the first line of `s`.
fn find_line_end(s: &str) -> (k: usize)
    ensures
        is_line_end(s@, '\n', k as int),
        line_end(s@, '\n') == k as int,
{
    let n = s.unicode_len();
    let mut i: usize = 0;
    while i < n
        invariant
            n == s@.len(),
            i <= n,
            forall|j: int| 0 <= j < i ==> s@[j] != '\n',
        decreases n - i,
    {
        if s.get_char(i) == '\n' {
            proof { lemma_line_end_unique(s@, '\n', i as int); }
            return i;
        }
        i = i + 1;
    }
    proof { lemma_line_end_unique(s@, '\n', i as int); }
    i
}

/// The first line of `s`, as the first item of `s.lines()`.
pub fn first_line(s: &str) -> (r: Option<String>)
    ensures
        opt_view(r) == first_line_spec(s@),
{
    let n = s.unicode_len();
    if n == 0 {
        return None;
    }
    let k = find_line_end(s);
    if k < n && k > 0 && s.get_char(k - 1) == '\r' {
        let line = s.substring_char(0, k - 1);
        proof {
            assert(line@ =~= s@.subrange(0, k as int).drop_last());
        }
        Some(String::from_str(line))
    } else {
        Some(String::from_str(s.substring_char(0, k)))
    }
}

/// The text after the first line of `s`.
pub fn rest_after_first_line(s: &str) -> (r: String)
    ensures
        r@ == after_first_line(s@),
{
    let n = s.unicode_len();
    let k = find_line_end(s);
    if k < n {
        String::from_str(s.substring_char(k + 1, n))
    } else {
        String::from_str(s.substring_char(n, n))
    }
}

} // verus!
