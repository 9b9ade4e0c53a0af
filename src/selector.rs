//! Branch selectors and their resolution into tracked branches.
use vstd::prelude::*;
use vstd::string::*;
use crate::text::{
    after_first_line, first_line, first_line_spec, is_substring, opt_view, rest_after_first_line,
    str_contains,
};
use crate::RunError;

verus! {

/// What a selector tests.
#[derive(Debug)]
pub enum SelectorKind {
    /// A glob tested against remote-tracking branch short names.
    Pattern(String),
    /// A `tool:argument` directive handed to the trigger program.
    Trigger(String),
}

/// One parsed selector.
#[derive(Debug)]
pub struct BranchSelector {
    pub kind: SelectorKind,
    pub show_if_empty: bool,
    pub priority: usize,
}

/// A branch that resolution produced.
#[derive(Debug)]
pub struct TrackedBranch {
    /// The branch's short name.
    pub name: String,
    /// The revision expression that names its head.
    pub revision: String,
    pub priority: usize,
    pub show_if_empty: bool,
}

/// The abstract content of a selector: whether it is a trigger, its text
/// without the negation marker, the marker, and its priority.
pub struct SelectorView {
    pub is_trigger: bool,
    pub body: Seq<char>,
    pub show_if_empty: bool,
    pub priority: int,
}

pub struct TrackedView {
    pub name: Seq<char>,
    pub revision: Seq<char>,
    pub priority: int,
    pub show_if_empty: bool,
}

impl BranchSelector {
    pub open spec fn view(&self) -> SelectorView {
        SelectorView {
            is_trigger: self.kind is Trigger,
            body: match self.kind {
                SelectorKind::Pattern(p) => p@,
                SelectorKind::Trigger(t) => t@,
            },
            show_if_empty: self.show_if_empty,
            priority: self.priority as int,
        }
    }
}

impl TrackedBranch {
    pub open spec fn view(&self) -> TrackedView {
        TrackedView {
            name: self.name@,
            revision: self.revision@,
            priority: self.priority as int,
            show_if_empty: self.show_if_empty,
        }
    }
}

/// The selector that the text `spec` at position `priority` stands for: a
/// leading `!` asks to show the branch even when empty, and a `:` in the
/// rest makes it a trigger directive.
pub open spec fn selector_spec(spec: Seq<char>, priority: int) -> SelectorView {
    let show = spec.len() > 0 && spec[0] == '!';
    let body = if show { spec.drop_first() } else { spec };
    SelectorView {
        is_trigger: is_substring(body, seq![':']),
        body,
        show_if_empty: show,
        priority,
    }
}

/// Whether the glob library accepts `pattern` and can build its matcher.
pub uninterp spec fn glob_valid(pattern: Seq<char>) -> bool;

/// Whether the glob `pattern` matches `name`.
pub uninterp spec fn glob_match(pattern: Seq<char>, name: Seq<char>) -> bool;

/// The text of `REMOTE_REF_PATTERN`.
pub open spec fn remote_ref_pattern() -> Seq<char> {
    seq!['^', 'r', 'e', 'f', 's', '/', 'r', 'e', 'm', 'o', 't', 'e', 's', '/', 'o', 'r', 'i', 'g', 'i', 'n', '/', '(', '.', '+', ')', '$']
}

/// The prefix of remote-tracking references.
pub open spec fn remote_prefix() -> Seq<char> {
    seq!['r', 'e', 'f', 's', '/', 'r', 'e', 'm', 'o', 't', 'e', 's', '/', 'o', 'r', 'i', 'g', 'i', 'n', '/']
}

/// The short name of a remote-tracking reference: what follows the prefix,
/// when that is not empty and holds no line break.
pub open spec fn remote_short_name(refname: Seq<char>) -> Option<Seq<char>> {
    let n = remote_prefix().len();
    if refname.len() > n && refname.subrange(0, n as int) == remote_prefix() && forall|j: int|
        n <= j < refname.len() ==> refname[j] != '\n' {
        Some(refname.subrange(n as int, refname.len() as int))
    } else {
        None
    }
}

/// Relies on `globset::Glob::new` and `globset::GlobSetBuilder::build`: the
/// result is `Ok` exactly when the pattern parses and its matcher can be
/// built, which depends on the pattern alone.
#[verifier::external_body]
fn check_glob(pattern: &str) -> (r: Result<(), globset::Error>)
    ensures
        r is Ok <==> glob_valid(pattern@),
{
    let glob = globset::Glob::new(pattern)?;
    let mut builder = globset::GlobSetBuilder::new();
    builder.add(glob);
    builder.build().map(|_| ())
}

/// Relies on `globset::GlobSet::is_match`, on the set that
/// `GlobSetBuilder::build` makes of the one pattern; building it returns an
/// error rather than panicking, and cannot fail on a pattern that
/// `check_glob` accepted.
#[verifier::external_body]
fn glob_is_match(pattern: &str, name: &str) -> (r: bool)
    requires
        glob_valid(pattern@),
    ensures
        r == glob_match(pattern@, name@),
{
    let glob = match globset::Glob::new(pattern) {
        Ok(g) => g,
        Err(_) => return false,
    };
    let mut builder = globset::GlobSetBuilder::new();
    builder.add(glob);
    match builder.build() {
        Ok(set) => set.is_match(name),
        Err(_) => false,
    }
}

/// Relies on `regex::Regex::new` and `Regex::captures`, on the one pattern
/// `^refs/remotes/origin/(.+)$`: it is anchored at both ends, and `.` matches
/// any character but a line break, so the first group is the non-empty,
/// break-free rest after the prefix.
#[verifier::external_body]
fn regex_first_group(pattern: &str, text: &str) -> (r: Option<String>)
    requires
        pattern@ == remote_ref_pattern(),
    ensures
        opt_view(r) == remote_short_name(text@),
{
    match regex::Regex::new(pattern) {
        Ok(re) => re.captures(text).and_then(|c| c.get(1)).map(|m| m.as_str().to_string()),
        Err(_) => None,
    }
}

/// The pattern that picks remote-tracking references and captures their short name.
pub const REMOTE_REF_PATTERN: &'static str = "^refs/remotes/origin/(.+)$";

/// Parses the selector text `spec` found at position `priority`.
pub fn parse_selector(spec: &str, priority: usize) -> (r: BranchSelector)
    ensures
        r@ == selector_spec(spec@, priority as int),
{
    let n = spec.unicode_len();
    let show = n > 0 && spec.get_char(0) == '!';
    let body: &str = if show {
        spec.substring_char(1, n)
    } else {
        spec
    };
    proof {
        if show {
            assert(body@ =~= spec@.drop_first());
        }
    }
    let is_trigger = str_contains(body, ":");
    proof {
        reveal_strlit(":");
        assert(":"@ =~= seq![':']);
    }
    let text = String::from_str(body);
    let kind = if is_trigger {
        SelectorKind::Trigger(text)
    } else {
        SelectorKind::Pattern(text)
    };
    BranchSelector { kind, show_if_empty: show, priority }
}

/// Every glob selector holds a pattern that the glob library accepts.
pub open spec fn selectors_valid(sels: Seq<BranchSelector>) -> bool {
    forall|i: int| 0 <= i < sels.len() && !sels[i]@.is_trigger ==> glob_valid(#[trigger] sels[i]@.body)
}

/// Parses each selector text, its position being its priority. Fails when a
/// glob selector is not a valid pattern.
pub fn parse_selectors(specs: &Vec<String>) -> (r: Result<Vec<BranchSelector>, RunError>)
    ensures
        r is Err <==> exists|i: int|
            0 <= i < specs@.len() && !(#[trigger] selector_spec(specs@[i]@, i)).is_trigger
                && !glob_valid(selector_spec(specs@[i]@, i).body),
        r is Err ==> r->Err_0 is GlobSet,
        r matches Ok(v) ==> v@.len() == specs@.len() && selectors_valid(v@) && forall|i: int|
            0 <= i < specs@.len() ==> (#[trigger] v@[i])@ == selector_spec(specs@[i]@, i),
{
    let mut out: Vec<BranchSelector> = Vec::new();
    let mut i: usize = 0;
    while i < specs.len()
        invariant
            i <= specs@.len(),
            out@.len() == i,
            selectors_valid(out@),
            forall|j: int| 0 <= j < i ==> (#[trigger] out@[j])@ == selector_spec(specs@[j]@, j),
        decreases specs@.len() - i,
    {
        let sel = parse_selector(specs[i].as_str(), i);
        if let SelectorKind::Pattern(p) = &sel.kind {
            match check_glob(p.as_str()) {
                Ok(()) => {},
                Err(e) => {
                    assert(!(selector_spec(specs@[i as int]@, i as int)).is_trigger);
                    return Err(RunError::GlobSet(e));
                },
            }
        }
        let ghost prev = out@;
        out.push(sel);
        i = i + 1;
        proof {
            assert forall|j: int| 0 <= j < i && !out@[j]@.is_trigger implies glob_valid(#[trigger] out@[j]@.body) by {
                if j < i - 1 {
                    assert(out@[j] == prev[j]);
                }
            }
        }
    }
    proof {
        assert forall|j: int| 0 <= j < specs@.len() && !(#[trigger] selector_spec(specs@[j]@, j)).is_trigger
            implies glob_valid(selector_spec(specs@[j]@, j).body) by {
            assert(out@[j]@ == selector_spec(specs@[j]@, j));
        }
    }
    Ok(out)
}

/// Whether `sel` is a glob selector whose pattern matches `name`.
pub open spec fn pattern_matches(sel: SelectorView, name: Seq<char>) -> bool {
    !sel.is_trigger && glob_match(sel.body, name)
}

/// The position of the first selector that matches `name`; later selectors
/// are never consulted.
pub open spec fn first_match(sels: Seq<SelectorView>, name: Seq<char>) -> Option<int>
    decreases sels.len(),
{
    if sels.len() == 0 {
        None
    } else {
        match first_match(sels.drop_last(), name) {
            Some(i) => Some(i),
            None => if pattern_matches(sels.last(), name) {
                Some(sels.len() - 1)
            } else {
                None
            },
        }
    }
}

pub open spec fn views(sels: Seq<BranchSelector>) -> Seq<SelectorView> {
    sels.map_values(|s: BranchSelector| s@)
}

/// First match wins: the selector chosen matches, and none before it does.
pub proof fn lemma_first_match_wins(sels: Seq<SelectorView>, name: Seq<char>)
    ensures
        match first_match(sels, name) {
            Some(i) => 0 <= i < sels.len() && pattern_matches(sels[i], name) && forall|j: int|
                0 <= j < i ==> !pattern_matches(#[trigger] sels[j], name),
            None => forall|j: int| 0 <= j < sels.len() ==> !pattern_matches(#[trigger] sels[j], name),
        },
    decreases sels.len(),
{
    if sels.len() > 0 {
        lemma_first_match_wins(sels.drop_last(), name);
        assert forall|j: int| 0 <= j < sels.len() - 1 implies #[trigger] sels[j] == sels.drop_last()[j] by {}
    }
}

/// The first selector that matches the branch short name `name`.
pub fn first_matching_selector(sels: &Vec<BranchSelector>, name: &str) -> (r: Option<usize>)
    requires
        selectors_valid(sels@),
    ensures
        match r {
            Some(i) => first_match(views(sels@), name@) == Some(i as int),
            None => first_match(views(sels@), name@) is None,
        },
{
    let mut i: usize = 0;
    while i < sels.len()
        invariant
            i <= sels@.len(),
            selectors_valid(sels@),
            first_match(views(sels@).subrange(0, i as int), name@) is None,
        decreases sels@.len() - i,
    {
        let ghost pre = views(sels@).subrange(0, i as int);
        let ghost next = views(sels@).subrange(0, i + 1);
        assert(next.drop_last() =~= pre);
        let hit = match &sels[i].kind {
            SelectorKind::Pattern(p) => {
                assert(!sels@[i as int]@.is_trigger);
                assert(glob_valid(sels@[i as int]@.body));
                glob_is_match(p.as_str(), name)
            },
            SelectorKind::Trigger(_) => false,
        };
        if hit {
            assert(views(sels@) =~= next + views(sels@).subrange(i + 1, sels@.len() as int));
            proof { lemma_first_match_prefix(views(sels@), name@, i + 1); }
            return Some(i);
        }
        i = i + 1;
    }
    assert(views(sels@).subrange(0, i as int) =~= views(sels@));
    None
}

/// A match within a prefix is the match of the whole sequence.
proof fn lemma_first_match_prefix(sels: Seq<SelectorView>, name: Seq<char>, k: int)
    requires
        0 <= k <= sels.len(),
        first_match(sels.subrange(0, k), name) is Some,
    ensures
        first_match(sels, name) == first_match(sels.subrange(0, k), name),
    decreases sels.len() - k,
{
    if k < sels.len() {
        let next = sels.subrange(0, k + 1);
        assert(next.drop_last() =~= sels.subrange(0, k));
        lemma_first_match_prefix(sels, name, k + 1);
    } else {
        assert(sels.subrange(0, k) =~= sels);
    }
}

/// The tracked branch that the reference `refname` yields, if any: its short
/// name is what follows the remote prefix, and the first selector that matches
/// the short name gives its priority and marker.
pub open spec fn tracked_for_ref(
    sels: Seq<SelectorView>,
    refname: Seq<char>,
) -> Option<TrackedView> {
    match remote_short_name(refname) {
        None => None,
        Some(short) => match first_match(sels, short) {
            None => None,
            Some(i) => Some(
                TrackedView {
                    name: short,
                    revision: refname,
                    priority: sels[i].priority,
                    show_if_empty: sels[i].show_if_empty,
                },
            ),
        },
    }
}

/// The tracked branches that `refs` yield, in the order of `refs`.
pub open spec fn glob_branches(
    sels: Seq<SelectorView>,
    refs: Seq<Seq<char>>,
) -> Seq<TrackedView>
    decreases refs.len(),
{
    if refs.len() == 0 {
        Seq::empty()
    } else {
        let prev = glob_branches(sels, refs.drop_last());
        match tracked_for_ref(sels, refs.last()) {
            Some(t) => prev.push(t),
            None => prev,
        }
    }
}

pub open spec fn tracked_views(ts: Seq<TrackedBranch>) -> Seq<TrackedView> {
    ts.map_values(|t: TrackedBranch| t@)
}

pub open spec fn string_views(ss: Seq<String>) -> Seq<Seq<char>> {
    ss.map_values(|s: String| s@)
}

/// Resolves reference names against the glob selectors. A reference whose name
/// is no remote-tracking reference, or whose short name no selector matches, is
/// dropped.
pub fn resolve_glob_branches(
    sels: &Vec<BranchSelector>,
    refs: &Vec<String>,
) -> (r: Vec<TrackedBranch>)
    requires
        selectors_valid(sels@),
    ensures
        tracked_views(r@) == glob_branches(views(sels@), string_views(refs@)),
{
    let mut out: Vec<TrackedBranch> = Vec::new();
    let mut i: usize = 0;
    while i < refs.len()
        invariant
            i <= refs@.len(),
            selectors_valid(sels@),
            tracked_views(out@) == glob_branches(
                views(sels@),
                string_views(refs@).subrange(0, i as int),
            ),
        decreases refs@.len() - i,
    {
        let ghost sv = string_views(refs@);
        assert(sv.subrange(0, i + 1).drop_last() =~= sv.subrange(0, i as int));
        assert(sv.subrange(0, i + 1).last() == refs@[i as int]@);
        let refname = &refs[i];
        proof {
            reveal_strlit("^refs/remotes/origin/(.+)$");
            assert(REMOTE_REF_PATTERN@ =~= remote_ref_pattern());
        }
        match regex_first_group(REMOTE_REF_PATTERN, refname.as_str()) {
            None => {},
            Some(short) => match first_matching_selector(sels, short.as_str()) {
                None => {},
                Some(k) => {
                    proof { lemma_first_match_wins(views(sels@), short@); }
                    let t = TrackedBranch {
                        name: short,
                        revision: refname.clone(),
                        priority: sels[k].priority,
                        show_if_empty: sels[k].show_if_empty,
                    };
                    let ghost prev = out@;
                    out.push(t);
                    assert(tracked_views(out@) =~= tracked_views(prev).push(t@));
                },
            },
        }
        i = i + 1;
    }
    assert(string_views(refs@).subrange(0, i as int) =~= string_views(refs@));
    out
}

/// The branch that a trigger program's output names: its first line is the
/// name, its second the revision. Output with fewer than two lines names none.
pub open spec fn trigger_branch(sel: SelectorView, output: Seq<char>) -> Option<TrackedView> {
    match (first_line_spec(output), first_line_spec(after_first_line(output))) {
        (Some(name), Some(revision)) => Some(
            TrackedView {
                name,
                revision,
                priority: sel.priority,
                show_if_empty: sel.show_if_empty,
            },
        ),
        _ => None,
    }
}

/// Reads the tracked branch out of what the trigger program printed for `sel`.
pub fn branch_from_trigger_output(sel: &BranchSelector, output: &str) -> (r: Option<TrackedBranch>)
    ensures
        match r {
            Some(t) => trigger_branch(sel@, output@) == Some(t@),
            None => trigger_branch(sel@, output@) is None,
        },
{
    let name = first_line(output);
    let rest = rest_after_first_line(output);
    let revision = first_line(rest.as_str());
    match (name, revision) {
        (Some(name), Some(revision)) => Some(
            TrackedBranch {
                name,
                revision,
                priority: sel.priority,
                show_if_empty: sel.show_if_empty,
            },
        ),
        _ => None,
    }
}

/// Parses the selector texts and resolves the reference names `refs` against
/// the glob selectors among them. Fails when a glob selector is not a valid
/// pattern.
pub fn resolve_branches(
    specs: &Vec<String>,
    refs: &Vec<String>,
) -> (r: Result<(Vec<BranchSelector>, Vec<TrackedBranch>), RunError>)
    ensures
        r is Err <==> exists|i: int|
            0 <= i < specs@.len() && !(#[trigger] selector_spec(specs@[i]@, i)).is_trigger
                && !glob_valid(selector_spec(specs@[i]@, i).body),
        r is Err ==> r->Err_0 is GlobSet,
        r matches Ok((sels, ts)) ==> {
            &&& sels@.len() == specs@.len()
            &&& forall|i: int| 0 <= i < specs@.len() ==> (#[trigger] sels@[i])@ == selector_spec(specs@[i]@, i)
            &&& tracked_views(ts@) == glob_branches(views(sels@), string_views(refs@))
        },
{
    let sels = parse_selectors(specs)?;
    let ts = resolve_glob_branches(&sels, refs);
    Ok((sels, ts))
}

} // verus!
