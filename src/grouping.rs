//! Grouping of commits into logical changes by the first line of their description.
use vstd::prelude::*;
use vstd::set_lib::{lemma_int_range, lemma_subset_equality, set_int_range};
use crate::columns::{
    lemma_seq_less_asym, lemma_seq_less_total, lemma_seq_less_trans, seq_less, str_less,
};
use crate::membership::{is_older_than, older_than};
use crate::text::{first_line, first_line_spec, is_substring, str_contains};

verus! {

/// What the grouping needs to know of one commit of the membership record.
#[derive(Debug)]
pub struct CommitMeta {
    pub parent_count: usize,
    /// The author's name, where it is valid UTF-8.
    pub author_name: Option<String>,
    /// The author's email, where it is valid UTF-8.
    pub author_email: Option<String>,
    /// The committer's time, in seconds since the epoch.
    pub time: i64,
    /// The committer's time zone offset, in minutes.
    pub offset: i32,
    pub message: String,
}

pub struct MetaView {
    pub parent_count: int,
    pub author_name: Option<Seq<char>>,
    pub author_email: Option<Seq<char>>,
    pub time: int,
    pub offset: int,
    pub message: Seq<char>,
}

/// Commits that share the first line of their description.
#[derive(Debug)]
pub struct ChangeGroup {
    /// The time of the first commit of the group that was processed.
    pub time: i64,
    /// The time zone offset of that commit, in minutes.
    pub offset: i32,
    /// The shared first line.
    pub summary: String,
    /// Positions of the group's commits in the membership record, in the
    /// order processed.
    pub members: Vec<usize>,
}

pub struct GroupView {
    pub time: int,
    pub offset: int,
    pub summary: Seq<char>,
    pub members: Seq<int>,
}

pub open spec fn sview(o: Option<String>) -> Option<Seq<char>> {
    match o {
        Some(s) => Some(s@),
        None => None,
    }
}

impl CommitMeta {
    pub open spec fn view(&self) -> MetaView {
        MetaView {
            parent_count: self.parent_count as int,
            author_name: sview(self.author_name),
            author_email: sview(self.author_email),
            time: self.time as int,
            offset: self.offset as int,
            message: self.message@,
        }
    }
}

impl ChangeGroup {
    pub open spec fn view(&self) -> GroupView {
        GroupView {
            time: self.time as int,
            offset: self.offset as int,
            summary: self.summary@,
            members: self.members@.map_values(|m: usize| m as int),
        }
    }
}

pub open spec fn meta_views(ms: Seq<CommitMeta>) -> Seq<MetaView> {
    ms.map_values(|m: CommitMeta| m@)
}

pub open spec fn group_views(gs: Seq<ChangeGroup>) -> Seq<GroupView> {
    gs.map_values(|g: ChangeGroup| g@)
}

/// No filter, or the filter occurs in the author's name or email.
pub open spec fn author_matches_spec(
    name: Option<Seq<char>>,
    email: Option<Seq<char>>,
    filter: Option<Seq<char>>,
) -> bool {
    match filter {
        None => true,
        Some(f) => (name matches Some(n) && is_substring(n, f)) || (email matches Some(e)
            && is_substring(e, f)),
    }
}

/// Whether an author with this name and email passes the author filter.
pub fn author_matches(
    name: &Option<String>,
    email: &Option<String>,
    filter: &Option<String>,
) -> (r: bool)
    ensures
        r == author_matches_spec(sview(*name), sview(*email), sview(*filter)),
{
    match filter {
        None => true,
        Some(f) => {
            let by_name = match name {
                Some(n) => str_contains(n.as_str(), f.as_str()),
                None => false,
            };
            let by_email = match email {
                Some(e) => str_contains(e.as_str(), f.as_str()),
                None => false,
            };
            by_name || by_email
        },
    }
}

/// A commit takes part in grouping: it is no merge, its author passes the
/// filter, and it lies within the age window.
pub open spec fn qualifies(m: MetaView, filter: Option<Seq<char>>, now: int, max_age: int) -> bool {
    &&& m.parent_count <= 1
    &&& author_matches_spec(m.author_name, m.author_email, filter)
    &&& !older_than(m.time, now, max_age)
}

pub open spec fn has_summary(gs: Seq<GroupView>, key: Seq<char>) -> bool {
    exists|g: int| 0 <= g < gs.len() && (#[trigger] gs[g]).summary == key
}

/// The groups after commit `e`, described by `m`, is processed.
pub open spec fn group_step(
    gs: Seq<GroupView>,
    e: int,
    m: MetaView,
    filter: Option<Seq<char>>,
    now: int,
    max_age: int,
) -> Seq<GroupView> {
    if !qualifies(m, filter, now, max_age) {
        gs
    } else {
        match first_line_spec(m.message) {
            None => gs,
            Some(key) => if has_summary(gs, key) {
                let g = choose|g: int| 0 <= g < gs.len() && (#[trigger] gs[g]).summary == key;
                gs.update(g, GroupView { members: gs[g].members.push(e), ..gs[g] })
            } else {
                gs.push(GroupView { time: m.time, offset: m.offset, summary: key, members: seq![e] })
            },
        }
    }
}

/// The groups that the commits `ms` form, processed in order.
pub open spec fn grouped(
    ms: Seq<MetaView>,
    filter: Option<Seq<char>>,
    now: int,
    max_age: int,
) -> Seq<GroupView>
    decreases ms.len(),
{
    if ms.len() == 0 {
        Seq::empty()
    } else {
        group_step(
            grouped(ms.drop_last(), filter, now, max_age),
            ms.len() - 1,
            ms.last(),
            filter,
            now,
            max_age,
        )
    }
}

pub open spec fn summaries_distinct(gs: Seq<GroupView>) -> bool {
    forall|a: int, b: int|
        0 <= a < b < gs.len() ==> (#[trigger] gs[a]).summary != (#[trigger] gs[b]).summary
}

/// Groups `metas`, the commits of the membership record in its order, under
/// the author filter and the age window that ends at `now`.
pub fn group_commits(
    metas: &Vec<CommitMeta>,
    filter: &Option<String>,
    now: i64,
    max_age: u64,
) -> (r: Vec<ChangeGroup>)
    ensures
        group_views(r@) == grouped(meta_views(metas@), sview(*filter), now as int, max_age as int),
        summaries_distinct(group_views(r@)),
{
    let ghost f = sview(*filter);
    let ghost mv = meta_views(metas@);
    let mut out: Vec<ChangeGroup> = Vec::new();
    let mut e: usize = 0;
    while e < metas.len()
        invariant
            e <= metas@.len(),
            f == sview(*filter),
            mv == meta_views(metas@),
            summaries_distinct(group_views(out@)),
            group_views(out@) == grouped(mv.subrange(0, e as int), f, now as int, max_age as int),
        decreases metas@.len() - e,
    {
        let ghost gv = group_views(out@);
        assert(mv.subrange(0, e + 1).drop_last() =~= mv.subrange(0, e as int));
        assert(mv.subrange(0, e + 1).last() == metas@[e as int]@);
        let meta = &metas[e];
        let ok = meta.parent_count <= 1 && author_matches(&meta.author_name, &meta.author_email, filter)
            && !is_older_than(meta.time, now, max_age);
        assert(ok == qualifies(metas@[e as int]@, f, now as int, max_age as int));
        if ok {
            match first_line(meta.message.as_str()) {
                None => {},
                Some(key) => {
                    let mut g: usize = 0;
                    let mut found = false;
                    while g < out.len()
                        invariant_except_break
                            !found,
                        invariant
                            g <= out@.len(),
                            gv == group_views(out@),
                            forall|j: int| 0 <= j < g ==> (#[trigger] gv[j]).summary != key@,
                        ensures
                            found ==> g < out@.len() && gv[g as int].summary == key@,
                            !found ==> g == out@.len(),
                        decreases out@.len() - g,
                    {
                        if out[g].summary == key {
                            found = true;
                            break;
                        }
                        g = g + 1;
                    }
                    if found {
                        proof {
                            assert(gv[g as int].summary == key@);
                            assert(has_summary(gv, key@));
                            let c = choose|c: int| 0 <= c < gv.len() && (#[trigger] gv[c]).summary == key@;
                            assert(c == g as int);
                        }
                        let mut grp = out.remove(g);
                        grp.members.push(e);
                        out.insert(g, grp);
                        let ghost ng = GroupView { members: gv[g as int].members.push(e as int), ..gv[g as int] };
                        assert(grp@.members =~= ng.members);
                        assert(group_views(out@) =~= gv.update(g as int, ng));
                        assert forall|a: int, b: int| 0 <= a < b < out@.len() implies
                            (#[trigger] group_views(out@)[a]).summary != (#[trigger] group_views(out@)[b]).summary by {
                            assert(group_views(out@)[a].summary == gv[a].summary);
                            assert(group_views(out@)[b].summary == gv[b].summary);
                        }
                    } else {
                        assert(!has_summary(gv, key@));
                        let mut members: Vec<usize> = Vec::new();
                        members.push(e);
                        let grp = ChangeGroup { time: meta.time, offset: meta.offset, summary: key, members };
                        out.push(grp);
                        assert(grp@.members =~= seq![e as int]);
                        assert(group_views(out@) =~= gv.push(grp@));
                        assert forall|a: int, b: int| 0 <= a < b < out@.len() implies
                            (#[trigger] group_views(out@)[a]).summary != (#[trigger] group_views(out@)[b]).summary by {
                            assert(group_views(out@)[a].summary == gv[a].summary);
                            if b < gv.len() {
                                assert(group_views(out@)[b].summary == gv[b].summary);
                            } else {
                                assert(group_views(out@)[b].summary == key@);
                            }
                        }
                    }
                },
            }
        }
        e = e + 1;
    }
    assert(mv.subrange(0, e as int) =~= mv);
    out
}

/// Every commit in a group qualifies: in particular no merge commit, one
/// with more than one parent, is ever grouped.
pub proof fn lemma_groups_hold_no_merges(
    ms: Seq<MetaView>,
    filter: Option<Seq<char>>,
    now: int,
    max_age: int,
)
    ensures
        forall|g: int, k: int|
            0 <= g < grouped(ms, filter, now, max_age).len() && 0 <= k < grouped(
                ms,
                filter,
                now,
                max_age,
            )[g].members.len() ==> {
                let e = #[trigger] grouped(ms, filter, now, max_age)[g].members[k];
                &&& 0 <= e < ms.len()
                &&& ms[e].parent_count <= 1
                &&& qualifies(ms[e], filter, now, max_age)
            },
    decreases ms.len(),
{
    if ms.len() > 0 {
        let pm = ms.drop_last();
        lemma_groups_hold_no_merges(pm, filter, now, max_age);
        let prev = grouped(pm, filter, now, max_age);
        let cur = grouped(ms, filter, now, max_age);
        let e = ms.len() - 1;
        assert forall|g: int, k: int| 0 <= g < cur.len() && 0 <= k < cur[g].members.len() implies {
            let x = #[trigger] cur[g].members[k];
            &&& 0 <= x < ms.len()
            &&& ms[x].parent_count <= 1
            &&& qualifies(ms[x], filter, now, max_age)
        } by {
            let x = cur[g].members[k];
            if g < prev.len() && k < prev[g].members.len() && cur[g].members[k] == prev[g].members[k] {
                assert(pm[x] == ms[x]);
            } else {
                assert(x == e);
            }
        }
    }
}

/// Group `a` comes before group `b`: by time, then by time zone offset,
/// then by summary in code-point order.
pub open spec fn comes_before(gs: Seq<GroupView>, a: int, b: int) -> bool {
    gs[a].time < gs[b].time || (gs[a].time == gs[b].time && (gs[a].offset < gs[b].offset || (
    gs[a].offset == gs[b].offset && seq_less(gs[a].summary, gs[b].summary))))
}

proof fn lemma_comes_before_asym(gs: Seq<GroupView>, a: int, b: int)
    ensures
        comes_before(gs, a, b) ==> !comes_before(gs, b, a),
{
    lemma_seq_less_asym(gs[a].summary, gs[b].summary);
}

proof fn lemma_comes_before_trans(gs: Seq<GroupView>, a: int, b: int, c: int)
    requires
        comes_before(gs, a, b),
        comes_before(gs, b, c),
    ensures
        comes_before(gs, a, c),
{
    if gs[a].time == gs[b].time && gs[b].time == gs[c].time && gs[a].offset == gs[b].offset
        && gs[b].offset == gs[c].offset {
        lemma_seq_less_trans(gs[a].summary, gs[b].summary, gs[c].summary);
    }
}

proof fn lemma_comes_before_total(gs: Seq<GroupView>, a: int, b: int)
    requires
        0 <= a < gs.len(),
        0 <= b < gs.len(),
        a != b,
        summaries_distinct(gs),
    ensures
        comes_before(gs, a, b) || comes_before(gs, b, a),
{
    if a < b {
        assert(gs[a].summary != gs[b].summary);
    } else {
        assert(gs[b].summary != gs[a].summary);
    }
    lemma_seq_less_total(gs[a].summary, gs[b].summary);
}

/// `order` lists each position of `gs` once, sorted by time, then offset,
/// then summary.
pub open spec fn is_time_order(gs: Seq<GroupView>, order: Seq<usize>) -> bool {
    &&& order.len() == gs.len()
    &&& forall|p: int| 0 <= p < order.len() ==> (#[trigger] order[p]) < gs.len()
    &&& order.no_duplicates()
    &&& forall|p: int, q: int|
        0 <= p < q < order.len() ==> comes_before(gs, #[trigger] order[p] as int, #[trigger] order[q] as int)
}

/// Whether group `a` comes before group `b`.
fn group_before(a: &ChangeGroup, b: &ChangeGroup) -> (r: bool)
    ensures
        r == (a.time < b.time || (a.time == b.time && (a.offset < b.offset || (a.offset == b.offset
            && seq_less(a.summary@, b.summary@))))),
{
    a.time < b.time || (a.time == b.time && (a.offset < b.offset || (a.offset == b.offset && str_less(
        a.summary.as_str(),
        b.summary.as_str(),
    ))))
}

/// The positions of `groups` in ascending order of time, then offset, then
/// summary.
pub fn time_order(groups: &Vec<ChangeGroup>) -> (r: Vec<usize>)
    requires
        summaries_distinct(group_views(groups@)),
    ensures
        is_time_order(group_views(groups@), r@),
{
    let ghost gs = group_views(groups@);
    let mut out: Vec<usize> = Vec::new();
    let mut i: usize = 0;
    while i < groups.len()
        invariant
            i <= groups@.len(),
            gs == group_views(groups@),
            summaries_distinct(gs),
            out@.len() == i,
            forall|p: int| 0 <= p < out@.len() ==> (#[trigger] out@[p]) < i,
            out@.no_duplicates(),
            forall|p: int, q: int|
                0 <= p < q < out@.len() ==> comes_before(gs, #[trigger] out@[p] as int, #[trigger] out@[q] as int),
        decreases groups@.len() - i,
    {
        let mut k: usize = 0;
        while k < out.len()
            invariant_except_break
                true,
            invariant
                k <= out@.len(),
                i < groups@.len(),
                gs == group_views(groups@),
                summaries_distinct(gs),
                forall|p: int| 0 <= p < out@.len() ==> (#[trigger] out@[p]) < i,
                forall|p: int| 0 <= p < k ==> comes_before(gs, #[trigger] out@[p] as int, i as int),
            ensures
                k <= out@.len(),
                forall|p: int| 0 <= p < k ==> comes_before(gs, #[trigger] out@[p] as int, i as int),
                k < out@.len() ==> comes_before(gs, i as int, out@[k as int] as int),
            decreases out@.len() - k,
        {
            let y = out[k];
            let before = group_before(&groups[i], &groups[y]);
            assert(before == comes_before(gs, i as int, y as int));
            if before {
                break;
            }
            proof {
                assert(out@[k as int] < i);
                lemma_comes_before_total(gs, i as int, y as int);
            }
            k = k + 1;
        }
        let ghost o = out@;
        out.insert(k, i);
        assert(out@ =~= o.insert(k as int, i));
        proof {
            assert forall|p: int| 0 <= p < out@.len() implies (#[trigger] out@[p]) < i + 1 by {
                if p < k { assert(out@[p] == o[p]); } else if p > k { assert(out@[p] == o[p - 1]); }
            }
            assert forall|x: int, y: int| 0 <= x < out@.len() && 0 <= y < out@.len() && x != y
                implies out@[x] != out@[y] by {
                if x != k as int && y != k as int {
                    let xo = if x < k { x } else { x - 1 };
                    let yo = if y < k { y } else { y - 1 };
                    assert(out@[x] == o[xo]);
                    assert(out@[y] == o[yo]);
                } else if x == k as int {
                    let yo = if y < k { y } else { y - 1 };
                    assert(out@[y] == o[yo]);
                } else {
                    let xo = if x < k { x } else { x - 1 };
                    assert(out@[x] == o[xo]);
                }
            }
            assert forall|p: int, q: int| 0 <= p < q < out@.len() implies
                comes_before(gs, #[trigger] out@[p] as int, #[trigger] out@[q] as int) by {
                if q < k {
                    assert(out@[p] == o[p] && out@[q] == o[q]);
                } else if q == k {
                    assert(out@[p] == o[p]);
                } else if p < k {
                    assert(out@[p] == o[p] && out@[q] == o[q - 1]);
                } else if p == k {
                    assert(out@[q] == o[q - 1]);
                    if q - 1 > k {
                        assert(comes_before(gs, o[k as int] as int, o[q - 1] as int));
                        lemma_comes_before_trans(gs, i as int, o[k as int] as int, o[q - 1] as int);
                    }
                } else {
                    assert(out@[p] == o[p - 1] && out@[q] == o[q - 1]);
                }
            }
        }
        i = i + 1;
    }
    out
}

/// A list of `n` distinct positions below `n` holds every position below `n`.
pub proof fn lemma_covers_range(o: Seq<usize>, n: int)
    requires
        o.len() == n,
        o.no_duplicates(),
        forall|p: int| 0 <= p < o.len() ==> (#[trigger] o[p]) < n,
    ensures
        forall|x: usize| x < n ==> o.contains(x),
{
    let oi = o.map_values(|x: usize| x as int);
    assert forall|i: int, j: int| 0 <= i < oi.len() && 0 <= j < oi.len() && i != j implies oi[i] != oi[j] by {
        assert(o[i] != o[j]);
    }
    assert(oi.no_duplicates());
    oi.unique_seq_to_set();
    lemma_int_range(0, n);
    assert forall|v: int| oi.to_set().contains(v) implies set_int_range(0, n).contains(v) by {
        let i = choose|i: int| 0 <= i < oi.len() && oi[i] == v;
        assert(o[i] < n);
    }
    lemma_subset_equality(oi.to_set(), set_int_range(0, n));
    assert forall|x: usize| x < n implies o.contains(x) by {
        assert(set_int_range(0, n).contains(x as int));
        assert(oi.to_set().contains(x as int));
        let i = choose|i: int| 0 <= i < oi.len() && oi[i] == x as int;
        assert(o[i] == x);
    }
}

/// The row order is determined by the groups alone: any two orders that
/// meet `is_time_order` are the same, so two runs on the same commits give
/// the same groups in the same order.
pub proof fn lemma_time_order_unique(gs: Seq<GroupView>, a: Seq<usize>, b: Seq<usize>)
    requires
        summaries_distinct(gs),
        is_time_order(gs, a),
        is_time_order(gs, b),
    ensures
        a == b,
{
    lemma_covers_range(a, gs.len() as int);
    lemma_covers_range(b, gs.len() as int);
    assert forall|x: usize| a.contains(x) <==> b.contains(x) by {
        if a.contains(x) {
            let i = choose|i: int| 0 <= i < a.len() && a[i] == x;
        }
        if b.contains(x) {
            let i = choose|i: int| 0 <= i < b.len() && b[i] == x;
        }
    }
    let lt = |x: usize, y: usize| comes_before(gs, x as int, y as int);
    assert forall|x: usize, y: usize| #[trigger] lt(x, y) implies !lt(y, x) by {
        lemma_comes_before_asym(gs, x as int, y as int);
    }
    lemma_sorted_same_items(lt, a, b);
}

/// Whether a group with this summary is shown under the text search `search`:
/// no search, or the search text occurs in the summary.
pub fn summary_matches(summary: &String, search: &Option<String>) -> (r: bool)
    ensures
        r == match sview(*search) {
            None => true,
            Some(q) => is_substring(summary@, q),
        },
{
    match search {
        None => true,
        Some(q) => str_contains(summary.as_str(), q.as_str()),
    }
}

/// Two lists with the same distinct items, both sorted by the asymmetric
/// relation `lt`, are equal.
pub proof fn lemma_sorted_same_items(lt: spec_fn(usize, usize) -> bool, a: Seq<usize>, b: Seq<usize>)
    requires
        forall|x: usize, y: usize| #[trigger] lt(x, y) ==> !lt(y, x),
        a.no_duplicates(),
        b.no_duplicates(),
        forall|x: usize| a.contains(x) <==> b.contains(x),
        forall|p: int, q: int| 0 <= p < q < a.len() ==> lt(#[trigger] a[p], #[trigger] a[q]),
        forall|p: int, q: int| 0 <= p < q < b.len() ==> lt(#[trigger] b[p], #[trigger] b[q]),
    ensures
        a == b,
    decreases a.len(),
{
    if a.len() == 0 {
        if b.len() > 0 {
            assert(b.contains(b[0]));
        }
        assert(a =~= b);
    } else {
        assert(a.contains(a[0]));
        assert(b.len() > 0);
        assert(b.contains(b[0]));
        let q = choose|q: int| 0 <= q < b.len() && b[q] == a[0];
        let p = choose|p: int| 0 <= p < a.len() && a[p] == b[0];
        if q > 0 {
            assert(lt(b[0], b[q]));
            assert(p != 0);
            assert(lt(a[0], a[p]));
            assert(false);
        }
        let a1 = a.drop_first();
        let b1 = b.drop_first();
        assert forall|x: usize| a1.contains(x) <==> b1.contains(x) by {
            if a1.contains(x) {
                let i = choose|i: int| 0 <= i < a1.len() && a1[i] == x;
                assert(a[i + 1] == x);
                assert(x != a[0]);
                assert(a.contains(x));
                let j = choose|j: int| 0 <= j < b.len() && b[j] == x;
                assert(j != 0);
                assert(b1[j - 1] == x);
            }
            if b1.contains(x) {
                let i = choose|i: int| 0 <= i < b1.len() && b1[i] == x;
                assert(b[i + 1] == x);
                assert(x != b[0]);
                assert(b.contains(x));
                let j = choose|j: int| 0 <= j < a.len() && a[j] == x;
                assert(j != 0);
                assert(a1[j - 1] == x);
            }
        }
        assert forall|p: int, q: int| 0 <= p < q < a1.len() implies lt(#[trigger] a1[p], #[trigger] a1[q]) by {
            assert(a1[p] == a[p + 1] && a1[q] == a[q + 1]);
        }
        assert forall|p: int, q: int| 0 <= p < q < b1.len() implies lt(#[trigger] b1[p], #[trigger] b1[q]) by {
            assert(b1[p] == b[p + 1] && b1[q] == b[q + 1]);
        }
        lemma_sorted_same_items(lt, a1, b1);
        assert(q == 0);
        assert(a.len() == b.len());
        assert forall|i: int| 0 <= i < a.len() implies a[i] == b[i] by {
            if i > 0 {
                assert(a[i] == a1[i - 1]);
                assert(b[i] == b1[i - 1]);
            }
        }
        assert(a =~= b);
    }
}

} // verus!
