//! Tracked branch registry and the record of which branches reach which commits.
use vstd::prelude::*;
use crate::columns::{lemma_seq_less_asym, seq_less, str_less};
use crate::selector::{TrackedBranch, TrackedView, tracked_views};

verus! {

/// The tracked branches by name; a later branch of a name replaces the earlier
/// one. Branches are referred to by their position here.
pub struct BranchRegistry {
    pub branches: Vec<TrackedBranch>,
}

impl BranchRegistry {
    pub open spec fn view(&self) -> Seq<TrackedView> {
        tracked_views(self.branches@)
    }

    /// No two branches share a name.
    pub open spec fn wf(&self) -> bool {
        forall|i: int, j: int|
            0 <= i < j < self@.len() ==> (#[trigger] self@[i]).name != (#[trigger] self@[j]).name
    }

    pub fn new() -> (r: Self)
        ensures
            r.wf(),
            r@.len() == 0,
    {
        BranchRegistry { branches: Vec::new() }
    }

    /// Registers `t`, replacing a branch of the same name; returns its position.
    pub fn register(&mut self, t: TrackedBranch) -> (r: usize)
        requires
            old(self).wf(),
        ensures
            final(self).wf(),
            ({
                let o = old(self)@;
                let n = final(self)@;
                if exists|i: int| 0 <= i < o.len() && (#[trigger] o[i]).name == t@.name {
                    r < o.len() && o[r as int].name == t@.name && n == o.update(r as int, t@)
                } else {
                    r == o.len() && n == o.push(t@)
                }
            }),
    {
        let mut i: usize = 0;
        while i < self.branches.len()
            invariant
                i <= self@.len(),
                self@ == old(self)@,
                self.branches@ == old(self).branches@,
                self.wf(),
                forall|j: int| 0 <= j < i ==> (#[trigger] self@[j]).name != t@.name,
            decreases self@.len() - i,
        {
            if self.branches[i].name == t.name {
                let ghost o = self.branches@;
                self.branches.set(i, t);
                let ghost ov = tracked_views(o);
                assert(self@ =~= ov.update(i as int, t@));
                assert(ov[i as int].name == t@.name);
                assert forall|p: int, q: int| 0 <= p < q < self@.len() implies
                    (#[trigger] self@[p]).name != (#[trigger] self@[q]).name by {
                    assert(self@[p].name == ov[p].name);
                    assert(self@[q].name == ov[q].name);
                }
                return i;
            }
            i = i + 1;
        }
        let ghost o = self.branches@;
        self.branches.push(t);
        let ghost ov = tracked_views(o);
        assert(self@ =~= ov.push(t@));
        assert forall|p: int, q: int| 0 <= p < q < self@.len() implies
            (#[trigger] self@[p]).name != (#[trigger] self@[q]).name by {
            if q < ov.len() {
                assert(self@[p] == ov[p]);
                assert(self@[q] == ov[q]);
            } else {
                assert(self@[p] == ov[p]);
            }
        }
        i
    }
}

/// The abstract record: for each commit, in the order first reached, its id
/// and the positions of the branches that reach it.
pub type MemberView = Seq<(Seq<char>, Seq<usize>)>;

/// One commit of the record.
#[derive(Debug)]
pub struct MemberEntry {
    pub id: String,
    pub branches: Vec<usize>,
}

/// Which tracked branches reach which commits.
#[derive(Debug)]
pub struct Membership {
    pub entries: Vec<MemberEntry>,
}

pub open spec fn has_id(v: MemberView, id: Seq<char>) -> bool {
    exists|i: int| 0 <= i < v.len() && (#[trigger] v[i]).0 == id
}

/// The record after branch `b` reaches commit `id`: the commit is added with
/// `b` if it is new, else `b` joins its branches if it is not among them.
pub open spec fn added(v: MemberView, id: Seq<char>, b: usize) -> MemberView {
    if has_id(v, id) {
        let i = choose|i: int| 0 <= i < v.len() && (#[trigger] v[i]).0 == id;
        if v[i].1.contains(b) {
            v
        } else {
            v.update(i, (id, v[i].1.push(b)))
        }
    } else {
        v.push((id, seq![b]))
    }
}

/// The record after branch `b` reaches each commit of `walk` in turn.
pub open spec fn recorded(v: MemberView, b: usize, walk: Seq<Seq<char>>) -> MemberView
    decreases walk.len(),
{
    if walk.len() == 0 {
        v
    } else {
        added(recorded(v, b, walk.drop_last()), walk.last(), b)
    }
}

/// `time` lies more than `max_age` seconds before `now`.
pub open spec fn older_than(time: int, now: int, max_age: int) -> bool {
    now - time > max_age
}

/// Whether a commit made at `time` is past the age window that ends at `now`.
pub fn is_older_than(time: i64, now: i64, max_age: u64) -> (r: bool)
    ensures
        r == older_than(time as int, now as int, max_age as int),
{
    (now as i128) - (time as i128) > max_age as i128
}

/// Some commit of the record is reached by branch `b`.
pub open spec fn mentions(v: MemberView, b: usize) -> bool {
    exists|i: int| 0 <= i < v.len() && (#[trigger] v[i]).1.contains(b)
}

pub open spec fn entry_views(es: Seq<MemberEntry>) -> MemberView {
    es.map_values(|e: MemberEntry| (e.id@, e.branches@))
}

impl Membership {
    pub open spec fn view(&self) -> MemberView {
        entry_views(self.entries@)
    }

    /// Commit ids are distinct, and so are the branches of each commit.
    pub open spec fn wf(&self) -> bool {
        &&& forall|i: int, j: int|
            0 <= i < j < self@.len() ==> (#[trigger] self@[i]).0 != (#[trigger] self@[j]).0
        &&& forall|i: int| 0 <= i < self@.len() ==> (#[trigger] self@[i]).1.no_duplicates()
    }

    pub fn new() -> (r: Self)
        ensures
            r.wf(),
            r@.len() == 0,
    {
        Membership { entries: Vec::new() }
    }

    /// Records that branch `b` reaches commit `id`.
    pub fn add(&mut self, id: &String, b: usize)
        requires
            old(self).wf(),
        ensures
            final(self).wf(),
            final(self)@ == added(old(self)@, id@, b),
    {
        let mut i: usize = 0;
        while i < self.entries.len()
            invariant
                i <= self@.len(),
                self.entries@ == old(self).entries@,
                self.wf(),
                forall|j: int| 0 <= j < i ==> (#[trigger] self@[j]).0 != id@,
            decreases self@.len() - i,
        {
            if self.entries[i].id == *id {
                let ghost v = self@;
                assert(has_id(v, id@));
                proof {
                    let c = choose|c: int| 0 <= c < v.len() && (#[trigger] v[c]).0 == id@;
                    assert(c == i as int);
                }
                let mut k: usize = 0;
                while k < self.entries[i].branches.len()
                    invariant
                        i < self@.len(),
                        self.entries@ == old(self).entries@,
                        self@ == v,
                        self.wf(),
                        v[i as int].0 == id@,
                        k <= v[i as int].1.len(),
                        forall|j: int| 0 <= j < k ==> v[i as int].1[j] != b,
                    decreases v[i as int].1.len() - k,
                {
                    if self.entries[i].branches[k] == b {
                        assert(v[i as int].1[k as int] == b);
                        assert(v[i as int].1.contains(b));
                        return;
                    }
                    k = k + 1;
                }
                assert(!v[i as int].1.contains(b));
                let mut e = self.entries.remove(i);
                e.branches.push(b);
                self.entries.insert(i, e);
                assert(self@ =~= v.update(i as int, (id@, v[i as int].1.push(b))));
                proof {
                    let bs = v[i as int].1.push(b);
                    assert(bs =~= self@[i as int].1);
                    assert forall|x: int, y: int| 0 <= x < bs.len() && 0 <= y < bs.len() && x != y
                        implies bs[x] != bs[y] by {
                        if x < bs.len() - 1 && y < bs.len() - 1 {
                            assert(bs[x] == v[i as int].1[x]);
                            assert(bs[y] == v[i as int].1[y]);
                        }
                    }
                    assert(bs.no_duplicates());
                    assert forall|p: int, q: int| 0 <= p < q < self@.len() implies
                        (#[trigger] self@[p]).0 != (#[trigger] self@[q]).0 by {
                        assert(self@[p].0 == v[p].0);
                        assert(self@[q].0 == v[q].0);
                    }
                }
                return;
            }
            i = i + 1;
        }
        let ghost v = self@;
        let mut bs: Vec<usize> = Vec::new();
        bs.push(b);
        let entry = MemberEntry { id: id.clone(), branches: bs };
        self.entries.push(entry);
        assert(self@ =~= v.push((id@, seq![b])));
        assert(seq![b].no_duplicates());
    }

    /// Records that branch `b` reaches each commit of `walk`.
    pub fn record_walk(&mut self, b: usize, walk: &Vec<String>)
        requires
            old(self).wf(),
        ensures
            final(self).wf(),
            final(self)@ == recorded(old(self)@, b, walk@.map_values(|s: String| s@)),
    {
        let ghost w = walk@.map_values(|s: String| s@);
        let mut i: usize = 0;
        while i < walk.len()
            invariant
                i <= walk@.len(),
                w == walk@.map_values(|s: String| s@),
                self.wf(),
                self@ == recorded(old(self)@, b, w.subrange(0, i as int)),
            decreases walk@.len() - i,
        {
            assert(w.subrange(0, i + 1).drop_last() =~= w.subrange(0, i as int));
            self.add(&walk[i], b);
            i = i + 1;
        }
        assert(w.subrange(0, i as int) =~= w);
    }

    /// Records the walk of branch `b`, unless its head, made at `head_time`,
    /// is older than `ref_max_age`: such a branch adds nothing.
    pub fn record_branch(
        &mut self,
        b: usize,
        head_time: i64,
        now: i64,
        ref_max_age: u64,
        walk: &Vec<String>,
    )
        requires
            old(self).wf(),
        ensures
            final(self).wf(),
            older_than(head_time as int, now as int, ref_max_age as int) ==> final(self)@ == old(self)@,
            !older_than(head_time as int, now as int, ref_max_age as int) ==> final(self)@
                == recorded(old(self)@, b, walk@.map_values(|s: String| s@)),
    {
        if !is_older_than(head_time, now, ref_max_age) {
            self.record_walk(b, walk);
        }
    }
}

/// Recording another branch's walk never makes branch `b` reach a commit.
pub proof fn lemma_other_walk_keeps_absent(v: MemberView, other: usize, walk: Seq<Seq<char>>, b: usize)
    requires
        other != b,
        !mentions(v, b),
    ensures
        !mentions(recorded(v, other, walk), b),
    decreases walk.len(),
{
    if walk.len() > 0 {
        lemma_other_walk_keeps_absent(v, other, walk.drop_last(), b);
        let w = recorded(v, other, walk.drop_last());
        let r = added(w, walk.last(), other);
        if mentions(r, b) {
            let i = choose|i: int| 0 <= i < r.len() && (#[trigger] r[i]).1.contains(b);
            let j = choose|j: int| 0 <= j < r[i].1.len() && r[i].1[j] == b;
            if has_id(w, walk.last()) {
                let c = choose|c: int| 0 <= c < w.len() && (#[trigger] w[c]).0 == walk.last();
                if !w[c].1.contains(b) && i == c && !w[c].1.contains(other) {
                    assert(j < w[c].1.len() ==> w[c].1[j] == b);
                    assert(!(j < w[c].1.len()));
                }
                if i != c || w[c].1.contains(other) {
                    assert(w[i].1.contains(b));
                }
            } else {
                if i < w.len() {
                    assert(w[i].1.contains(b));
                }
            }
        }
    }
}

impl Membership {
    /// The same record with its commits in ascending order of id, the order
    /// in which the commits are grouped.
    pub fn sorted_by_id(self) -> (r: Membership)
        requires
            self.wf(),
        ensures
            r.wf(),
            r@.len() == self@.len(),
            forall|x: (Seq<char>, Seq<usize>)| r@.contains(x) <==> self@.contains(x),
            forall|p: int| 0 <= p < r@.len() - 1 ==> !seq_less(#[trigger] r@[p + 1].0, r@[p].0),
    {
        let ghost src = self@;
        let mut rest = self.entries;
        let mut out: Vec<MemberEntry> = Vec::new();
        while rest.len() > 0
            invariant
                forall|x: (Seq<char>, Seq<usize>)| (entry_views(rest@).contains(x) || entry_views(out@).contains(x)) <==> src.contains(x),
                entry_views(rest@).len() + entry_views(out@).len() == src.len(),
                forall|i: int, j: int| 0 <= i < j < entry_views(out@).len() ==> (#[trigger] entry_views(out@)[i]).0 != (#[trigger] entry_views(out@)[j]).0,
                forall|i: int| 0 <= i < entry_views(out@).len() ==> (#[trigger] entry_views(out@)[i]).1.no_duplicates(),
                forall|i: int, j: int| 0 <= i < entry_views(rest@).len() && 0 <= j < entry_views(out@).len() ==> (#[trigger] entry_views(rest@)[i]).0 != (#[trigger] entry_views(out@)[j]).0,
                forall|i: int, j: int| 0 <= i < j < entry_views(rest@).len() ==> (#[trigger] entry_views(rest@)[i]).0 != (#[trigger] entry_views(rest@)[j]).0,
                forall|i: int| 0 <= i < entry_views(rest@).len() ==> (#[trigger] entry_views(rest@)[i]).1.no_duplicates(),
                forall|p: int| 0 <= p < entry_views(out@).len() - 1 ==> !seq_less(#[trigger] entry_views(out@)[p + 1].0, entry_views(out@)[p].0),
            decreases rest@.len(),
        {
            let ghost r0 = entry_views(rest@);
            let ghost o = entry_views(out@);
            let e = rest.pop().unwrap();
            let ghost ev = (e.id@, e.branches@);
            assert(r0 == entry_views(rest@).push(ev));
            let mut k: usize = 0;
            while k < out.len()
                invariant_except_break
                    true,
                invariant
                    k <= out@.len(),
                    o == entry_views(out@),
                    ev.0 == e.id@,
                    forall|p: int| 0 <= p < k ==> !seq_less(ev.0, #[trigger] o[p].0),
                ensures
                    k <= out@.len(),
                    forall|p: int| 0 <= p < k ==> !seq_less(ev.0, #[trigger] o[p].0),
                    k < out@.len() ==> seq_less(ev.0, o[k as int].0),
                decreases out@.len() - k,
            {
                assert(o[k as int].0 == out@[k as int].id@);
                if str_less(e.id.as_str(), out[k].id.as_str()) {
                    break;
                }
                k = k + 1;
            }
            out.insert(k, e);
            let ghost n = entry_views(out@);
            assert(n =~= o.insert(k as int, ev));
            proof {
                assert forall|p: int| 0 <= p < n.len() - 1 implies !seq_less(#[trigger] n[p + 1].0, n[p].0) by {
                    if p + 1 < k {
                        assert(n[p] == o[p] && n[p + 1] == o[p + 1]);
                    } else if p + 1 == k {
                        assert(n[p] == o[p]);
                    } else if p == k {
                        assert(n[p + 1] == o[p]);
                        lemma_seq_less_asym(ev.0, o[p].0);
                    } else {
                        assert(n[p] == o[p - 1] && n[p + 1] == o[p]);
                        let q = p - 1;
                        assert(!seq_less(o[q + 1].0, o[q].0));
                    }
                }
                assert forall|x: int, y: int| 0 <= x < y < n.len() implies (#[trigger] n[x]).0 != (#[trigger] n[y]).0 by {
                    let xo = if x < k { x } else { x - 1 };
                    let yo = if y < k { y } else { y - 1 };
                    if x != k as int && y != k as int {
                        assert(n[x] == o[xo] && n[y] == o[yo]);
                        assert(xo < yo);
                        assert(o[xo].0 != o[yo].0);
                    } else if x == k as int {
                        assert(n[y] == o[yo]);
                        assert(r0[r0.len() - 1] == ev);
                        assert(r0[r0.len() - 1].0 != o[yo].0);
                    } else {
                        assert(n[x] == o[xo]);
                        assert(r0[r0.len() - 1] == ev);
                        assert(r0[r0.len() - 1].0 != o[xo].0);
                    }
                }
                assert forall|x: int| 0 <= x < n.len() implies (#[trigger] n[x]).1.no_duplicates() by {
                    if x < k { assert(n[x] == o[x]); } else if x > k { assert(n[x] == o[x - 1]); } else {
                        assert(r0[r0.len() - 1] == ev);
                        assert(r0[r0.len() - 1].1.no_duplicates());
                    }
                }
                let rr = entry_views(rest@);
                assert forall|x: (Seq<char>, Seq<usize>)| (rr.contains(x) || n.contains(x)) <==> src.contains(x) by {
                    if rr.contains(x) {
                        let i = choose|i: int| 0 <= i < rr.len() && rr[i] == x;
                        assert(r0[i] == x);
                    }
                    if n.contains(x) {
                        let i = choose|i: int| 0 <= i < n.len() && n[i] == x;
                        if i < k { assert(o[i] == x); } else if i > k { assert(o[i - 1] == x); } else {
                            assert(r0[r0.len() - 1] == x);
                        }
                    }
                    if r0.contains(x) {
                        let i = choose|i: int| 0 <= i < r0.len() && r0[i] == x;
                        if i < rr.len() { assert(rr[i] == x); } else { assert(n[k as int] == x); }
                    }
                    if o.contains(x) {
                        let i = choose|i: int| 0 <= i < o.len() && o[i] == x;
                        if i < k { assert(n[i] == x); } else { assert(n[i + 1] == x); }
                    }
                }
                assert forall|i: int, j: int| 0 <= i < rr.len() && 0 <= j < n.len() implies (#[trigger] rr[i]).0 != (#[trigger] n[j]).0 by {
                    assert(rr[i] == r0[i]);
                    if j < k { assert(n[j] == o[j]); } else if j > k { assert(n[j] == o[j - 1]); } else {
                        assert(r0[r0.len() - 1] == ev);
                    }
                }
                assert forall|i: int, j: int| 0 <= i < j < rr.len() implies (#[trigger] rr[i]).0 != (#[trigger] rr[j]).0 by {
                    assert(rr[i] == r0[i] && rr[j] == r0[j]);
                }
                assert forall|i: int| 0 <= i < rr.len() implies (#[trigger] rr[i]).1.no_duplicates() by {
                    assert(rr[i] == r0[i]);
                }
            }
        }
        let r = Membership { entries: out };
        assert(entry_views(rest@).len() == 0);
        assert(r@ == entry_views(out@));
        r
    }
}

/// One branch's contribution to the record: its position, the time of its
/// head, and the commits its walk reached.
pub struct BranchStep {
    pub branch: usize,
    pub head_time: int,
    pub walk: Seq<Seq<char>>,
}

/// The record after each step in turn is recorded as `record_branch` does.
pub open spec fn recorded_steps(v: MemberView, steps: Seq<BranchStep>, now: int, ref_max_age: int) -> MemberView
    decreases steps.len(),
{
    if steps.len() == 0 {
        v
    } else {
        let prev = recorded_steps(v, steps.drop_last(), now, ref_max_age);
        let st = steps.last();
        if older_than(st.head_time, now, ref_max_age) {
            prev
        } else {
            recorded(prev, st.branch, st.walk)
        }
    }
}

/// A branch whose every step has a head older than the reference cutoff
/// reaches no commit of the record, whatever the other branches record.
pub proof fn lemma_stale_branch_absent(v: MemberView, steps: Seq<BranchStep>, now: int, ref_max_age: int, b: usize)
    requires
        !mentions(v, b),
        forall|i: int|
            0 <= i < steps.len() && (#[trigger] steps[i]).branch == b ==> older_than(steps[i].head_time, now, ref_max_age),
    ensures
        !mentions(recorded_steps(v, steps, now, ref_max_age), b),
    decreases steps.len(),
{
    if steps.len() > 0 {
        let init = steps.drop_last();
        assert forall|i: int|
            0 <= i < init.len() && (#[trigger] init[i]).branch == b implies older_than(init[i].head_time, now, ref_max_age) by {
            assert(init[i] == steps[i]);
        }
        lemma_stale_branch_absent(v, init, now, ref_max_age, b);
        let st = steps.last();
        assert(st == steps[steps.len() - 1]);
        if !older_than(st.head_time, now, ref_max_age) {
            lemma_other_walk_keeps_absent(recorded_steps(v, init, now, ref_max_age), st.branch, st.walk, b);
        }
    }
}

} // verus!
