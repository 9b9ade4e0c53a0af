use git_contains::columns::{
    column_color, column_order, group_branches, orient, palette, str_less,
};
use git_contains::fingerprint::{needs_fingerprint, normalize_patch};
use git_contains::grouping::{
    author_matches, summary_matches, group_commits, time_order, ChangeGroup, CommitMeta};
use git_contains::membership::{is_older_than, BranchRegistry, Membership};
use git_contains::selector::{
    branch_from_trigger_output, parse_selector, parse_selectors, resolve_branches, SelectorKind,
    TrackedBranch,
};
use git_contains::text::{first_line, rest_after_first_line};
use git_contains::RunError;

fn strings(v: &[&str]) -> Vec<String> {
    v.iter().map(|s| s.to_string()).collect()
}

fn meta(parents: usize, name: &str, email: &str, time: i64, message: &str) -> CommitMeta {
    CommitMeta {
        parent_count: parents,
        author_name: Some(name.to_string()),
        author_email: Some(email.to_string()),
        time,
        offset: 0,
        message: message.to_string(),
    }
}

fn branch(name: &str, priority: usize, show_if_empty: bool) -> TrackedBranch {
    TrackedBranch {
        name: name.to_string(),
        revision: format!("refs/remotes/origin/{}", name),
        priority,
        show_if_empty,
    }
}

#[test]
fn selector_negation_and_trigger() {
    let s = parse_selector("!hotfix/*", 3);
    assert!(s.show_if_empty);
    assert_eq!(s.priority, 3);
    assert!(matches!(s.kind, SelectorKind::Pattern(ref p) if p == "hotfix/*"));
    let t = parse_selector("tool:arg", 0);
    assert!(!t.show_if_empty);
    assert!(matches!(t.kind, SelectorKind::Trigger(ref p) if p == "tool:arg"));
    let u = parse_selector("!tool:arg", 1);
    assert!(u.show_if_empty);
    assert!(matches!(u.kind, SelectorKind::Trigger(ref p) if p == "tool:arg"));
}

#[test]
fn selectors_resolve_first_match_wins() {
    let specs = strings(&["release/*", "!hotfix/*", "release/1.*"]);
    let refs = strings(&[
        "refs/remotes/origin/release/1.0",
        "refs/remotes/origin/hotfix/9",
        "refs/heads/main",
        "refs/remotes/origin/feature/x",
        "refs/remotes/upstream/release/2.0",
        "refs/remotes/origin/",
        "xrefs/remotes/origin/release/3.0",
    ]);
    let (sels, ts) = resolve_branches(&specs, &refs).unwrap();
    assert_eq!(sels.len(), 3);
    assert_eq!(ts.len(), 2);
    assert_eq!(ts[0].name, "release/1.0");
    assert_eq!(ts[0].revision, "refs/remotes/origin/release/1.0");
    assert_eq!(ts[0].priority, 0);
    assert!(!ts[0].show_if_empty);
    assert_eq!(ts[1].name, "hotfix/9");
    assert_eq!(ts[1].priority, 1);
    assert!(ts[1].show_if_empty);
}

#[test]
fn hotfix_shown_without_commits() {
    let specs = strings(&["release/*", "!hotfix/*"]);
    let refs = strings(&["refs/remotes/origin/release/1.0", "refs/remotes/origin/hotfix/9"]);
    let (_, ts) = resolve_branches(&specs, &refs).unwrap();
    let mut reg = BranchRegistry::new();
    for t in ts {
        reg.register(t);
    }
    let mem = Membership::new();
    let groups: Vec<ChangeGroup> = Vec::new();
    let cols = column_order(&reg, &mem, &groups);
    assert_eq!(cols, vec![1]);
    assert_eq!(reg.branches[1].name, "hotfix/9");
}

#[test]
fn invalid_glob_fails_resolution() {
    let specs = strings(&["release/*", "a[", "tool:x"]);
    let r = parse_selectors(&specs);
    assert!(matches!(r, Err(RunError::GlobSet(_))));
    let r2 = resolve_branches(&specs, &Vec::new());
    assert!(matches!(r2, Err(RunError::GlobSet(_))));
    let ok = parse_selectors(&strings(&["a[b]", "x:["])).unwrap();
    assert_eq!(ok.len(), 2);
}

#[test]
fn first_line_like_lines() {
    assert_eq!(first_line(""), None);
    assert_eq!(first_line("abc"), Some("abc".to_string()));
    assert_eq!(first_line("abc\r\ndef"), Some("abc".to_string()));
    assert_eq!(first_line("abc\r"), Some("abc\r".to_string()));
    assert_eq!(first_line("\nx"), Some("".to_string()));
    assert_eq!(rest_after_first_line("a\nb\nc"), "b\nc");
    assert_eq!(rest_after_first_line("a"), "");
}

#[test]
fn trigger_output_needs_two_lines() {
    let sel = parse_selector("!tool:arg", 4);
    let t = branch_from_trigger_output(&sel, "stable\nabc123\nextra\n").unwrap();
    assert_eq!(t.name, "stable");
    assert_eq!(t.revision, "abc123");
    assert_eq!(t.priority, 4);
    assert!(t.show_if_empty);
    assert!(branch_from_trigger_output(&sel, "stable\n").is_none());
    assert!(branch_from_trigger_output(&sel, "").is_none());
    let u = branch_from_trigger_output(&sel, "a\r\nb").unwrap();
    assert_eq!(u.name, "a");
    assert_eq!(u.revision, "b");
}

#[test]
fn author_filter_cases() {
    let some = |s: &str| Some(s.to_string());
    assert!(author_matches(&some("Jane Doe"), &some("jd@y.org"), &some("Jane")));
    assert!(author_matches(&some("J"), &some("jane@x.com"), &some("jane@x")));
    assert!(!author_matches(&some("J"), &some("j@y.com"), &some("Jane")));
    assert!(!author_matches(&some("jane doe"), &None, &some("Jane")));
    assert!(author_matches(&None, &None, &None));
    assert!(!author_matches(&None, &None, &some("x")));
}

#[test]
fn age_window() {
    assert!(is_older_than(0, 100, 99));
    assert!(!is_older_than(0, 100, 100));
    assert!(!is_older_than(200, 100, 0));
}

#[test]
fn membership_union_bookkeeping() {
    let mut m = Membership::new();
    m.add(&"c1".to_string(), 0);
    m.add(&"c2".to_string(), 0);
    m.add(&"c1".to_string(), 1);
    m.add(&"c1".to_string(), 1);
    assert_eq!(m.entries.len(), 2);
    assert_eq!(m.entries[0].id, "c1");
    assert_eq!(m.entries[0].branches, vec![0, 1]);
    assert_eq!(m.entries[1].branches, vec![0]);
}

#[test]
fn stale_branch_records_nothing() {
    let mut m = Membership::new();
    let walk = strings(&["a", "b"]);
    m.record_branch(0, 0, 1000, 10, &walk);
    assert!(m.entries.is_empty());
    m.record_branch(1, 995, 1000, 10, &walk);
    assert_eq!(m.entries.len(), 2);
    assert_eq!(m.entries[1].branches, vec![1]);
}

#[test]
fn grouping_skips_merges_and_groups_by_summary() {
    let metas = vec![
        meta(1, "Jane Doe", "jane@x.com", 100, "Fix bug\n\nbody"),
        meta(2, "Jane Doe", "jane@x.com", 110, "Merge branch"),
        meta(1, "Jane Doe", "jane@x.com", 90, "Fix bug"),
        meta(1, "Bob", "bob@x.com", 120, "Other"),
        meta(0, "Jane Doe", "jane@x.com", 5, "Too old"),
        meta(1, "Jane Doe", "jane@x.com", 130, ""),
        meta(1, "Jane Doe", "jane@x.com", 140, "Second"),
    ];
    let groups = group_commits(&metas, &Some("Jane".to_string()), 200, 150);
    assert_eq!(groups.len(), 2);
    assert_eq!(groups[0].summary, "Fix bug");
    assert_eq!(groups[0].time, 100);
    assert_eq!(groups[0].members, vec![0, 2]);
    assert_eq!(groups[1].summary, "Second");
    assert_eq!(groups[1].members, vec![6]);
    let all = group_commits(&metas, &None, 200, 1000);
    assert_eq!(all.len(), 4);
    assert!(all.iter().all(|g| g.members.iter().all(|&e| metas[e].parent_count <= 1)));
}

#[test]
fn rows_sorted_by_time_stably() {
    let g = |t: i64, s: &str| ChangeGroup { time: t, offset: 0, summary: s.to_string(), members: vec![0] };
    let groups = vec![g(5, "c"), g(3, "b"), g(5, "a"), g(1, "d")];
    assert_eq!(time_order(&groups), vec![3, 1, 2, 0]);
    let mut h = vec![g(5, "a"), g(5, "b")];
    h[0].offset = 60;
    assert_eq!(time_order(&h), vec![1, 0]);
}

#[test]
fn columns_by_priority_then_name() {
    let mut reg = BranchRegistry::new();
    reg.register(branch("zeta", 0, false));
    reg.register(branch("alpha", 1, false));
    reg.register(branch("beta", 0, false));
    reg.register(branch("idle", 2, false));
    reg.register(branch("shown", 3, true));
    assert_eq!(reg.register(branch("beta", 0, false)), 2);
    let mut m = Membership::new();
    m.add(&"c1".to_string(), 0);
    m.add(&"c1".to_string(), 1);
    m.add(&"c2".to_string(), 2);
    m.add(&"c3".to_string(), 3);
    let groups = vec![ChangeGroup { time: 1, offset: 0, summary: "x".to_string(), members: vec![0, 1] }];
    assert_eq!(column_order(&reg, &m, &groups), vec![2, 0, 1, 4]);
}

#[test]
fn palette_and_colors() {
    let p = palette();
    assert_eq!(p.len(), 27);
    assert_eq!(p[0], (100, 100, 100));
    assert_eq!(p[1], (100, 100, 177));
    assert_eq!(p[5], (100, 177, 255));
    assert_eq!(p[26], (255, 255, 255));
    assert_eq!(column_color(27), (100, 100, 100));
    assert_eq!(column_color(28), p[1]);
}

#[test]
fn reverse_twice_restores_order() {
    let v = vec![3, 1, 4, 1, 5];
    let r = orient(&v, true);
    assert_eq!(r, vec![5, 1, 4, 1, 3]);
    assert_eq!(orient(&r, true), v);
    assert_eq!(orient(&v, false), v);
}

#[test]
fn code_point_order() {
    assert!(str_less("abc", "abd"));
    assert!(str_less("ab", "abc"));
    assert!(!str_less("abc", "abc"));
    assert!(!str_less("b", "abc"));
    assert!(str_less("Z", "a"));
}

#[test]
fn offsets_do_not_change_normalized_patch() {
    let a = b"diff --git a/f b/f\nindex 123..456 100644\n@@ -1,3 +1,4 @@ fn x\n+line\n".to_vec();
    let b = b"diff --git a/f b/f\nindex 999..abc 100644\n@@ -10,3 +10,4 @@ fn y\n+line\n".to_vec();
    let c = b"diff --git a/f b/f\nindex 123..456 100644\n@@ -1,3 +1,4 @@ fn x\n+other\n".to_vec();
    let na = normalize_patch(&a);
    assert_eq!(na, b"diff --git a/f b/f\n\n@@\n+line\n".to_vec());
    assert_eq!(na, normalize_patch(&b));
    assert_ne!(na, normalize_patch(&c));
    assert_eq!(normalize_patch(&b"@@ x".to_vec()), b"@@".to_vec());
    assert_eq!(normalize_patch(&Vec::new()), Vec::<u8>::new());
}

#[test]
fn fingerprint_only_for_variant_groups() {
    assert!(needs_fingerprint(true, 2));
    assert!(!needs_fingerprint(true, 1));
    assert!(!needs_fingerprint(false, 3));
}

#[test]
fn search_filters_summaries() {
    let s = "Fix the parser".to_string();
    assert!(summary_matches(&s, &None));
    assert!(summary_matches(&s, &Some("parser".to_string())));
    assert!(!summary_matches(&s, &Some("Parser".to_string())));
}

#[test]
fn membership_sorted_by_commit_id() {
    let mut m = Membership::new();
    m.add(&"c3".to_string(), 0);
    m.add(&"a1".to_string(), 0);
    m.add(&"b2".to_string(), 1);
    m.add(&"a1".to_string(), 1);
    let s = m.sorted_by_id();
    let ids: Vec<&str> = s.entries.iter().map(|e| e.id.as_str()).collect();
    assert_eq!(ids, vec!["a1", "b2", "c3"]);
    assert_eq!(s.entries[0].branches, vec![0, 1]);
    assert_eq!(s.entries[1].branches, vec![1]);
}

#[test]
fn stale_branch_not_a_column_unless_marked() {
    let mut reg = BranchRegistry::new();
    reg.register(branch("live", 0, false));
    reg.register(branch("stale", 1, false));
    reg.register(branch("stale_marked", 2, true));
    let mut m = Membership::new();
    let walk = strings(&["c1"]);
    m.record_branch(0, 990, 1000, 100, &walk);
    m.record_branch(1, 0, 1000, 100, &walk);
    m.record_branch(2, 0, 1000, 100, &walk);
    assert_eq!(m.entries[0].branches, vec![0]);
    let metas = vec![meta(1, "A", "a@x", 990, "Change")];
    let groups = group_commits(&metas, &None, 1000, 100);
    assert_eq!(column_order(&reg, &m, &groups), vec![0, 2]);
}

#[test]
fn deeply_nested_glob_is_an_error() {
    let pattern = format!("{}a{}", "{".repeat(300), "}".repeat(300));
    let specs = vec![pattern];
    assert!(matches!(parse_selectors(&specs), Err(RunError::GlobSet(_))));
    let refs = strings(&["refs/remotes/origin/a"]);
    assert!(matches!(resolve_branches(&specs, &refs), Err(RunError::GlobSet(_))));
}

#[test]
fn group_row_marks_union_of_members() {
    let mut m = Membership::new();
    m.add(&"c1".to_string(), 0);
    m.add(&"c1".to_string(), 2);
    m.add(&"c2".to_string(), 2);
    m.add(&"c2".to_string(), 1);
    m.add(&"c3".to_string(), 3);
    let groups = vec![
        ChangeGroup { time: 1, offset: 0, summary: "x".to_string(), members: vec![0, 1] },
        ChangeGroup { time: 2, offset: 0, summary: "y".to_string(), members: vec![2] },
    ];
    assert_eq!(group_branches(&m, &groups, 0), vec![0, 2, 1]);
    assert_eq!(group_branches(&m, &groups, 1), vec![3]);
}
