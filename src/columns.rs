//! Which branches become columns, in what order, and in what colours.
use vstd::prelude::*;
use crate::grouping::{ChangeGroup, GroupView, group_views, lemma_sorted_same_items};
use crate::membership::{BranchRegistry, MemberView, Membership, mentions};
use crate::selector::TrackedView;

verus! {

/// Code-point lexicographic order on texts, which is the byte order of their
/// UTF-8 encodings.
pub open spec fn seq_less(a: Seq<char>, b: Seq<char>) -> bool
    decreases a.len(),
{
    if b.len() == 0 {
        false
    } else if a.len() == 0 {
        true
    } else if a[0] != b[0] {
        a[0] < b[0]
    } else {
        seq_less(a.drop_first(), b.drop_first())
    }
}

pub proof fn lemma_seq_less_asym(a: Seq<char>, b: Seq<char>)
    ensures
        seq_less(a, b) ==> !seq_less(b, a),
    decreases a.len(),
{
    if a.len() > 0 && b.len() > 0 && a[0] == b[0] {
        lemma_seq_less_asym(a.drop_first(), b.drop_first());
    }
}

/// Whether `a` sorts before `b` in code-point order.
pub fn str_less(a: &str, b: &str) -> (r: bool)
    ensures
        r == seq_less(a@, b@),
{
    let na = a.unicode_len();
    let nb = b.unicode_len();
    let mut i: usize = 0;
    assert(a@.subrange(0, na as int) =~= a@);
    assert(b@.subrange(0, nb as int) =~= b@);
    while i < na && i < nb
        invariant
            na == a@.len(),
            nb == b@.len(),
            i <= na,
            i <= nb,
            seq_less(a@, b@) == seq_less(a@.subrange(i as int, na as int), b@.subrange(i as int, nb as int)),
        decreases na - i,
    {
        let ca = a.get_char(i);
        let cb = b.get_char(i);
        let ghost sa = a@.subrange(i as int, na as int);
        let ghost sb = b@.subrange(i as int, nb as int);
        assert(sa[0] == ca && sb[0] == cb);
        if ca != cb {
            return ca < cb;
        }
        assert(sa.drop_first() =~= a@.subrange(i + 1, na as int));
        assert(sb.drop_first() =~= b@.subrange(i + 1, nb as int));
        i = i + 1;
    }
    i < nb
}

/// Branch `x` of the registry sorts before branch `y`: lower priority, or
/// equal priority and a name earlier in code-point order.
pub open spec fn key_less(reg: Seq<TrackedView>, x: int, y: int) -> bool {
    reg[x].priority < reg[y].priority || (reg[x].priority == reg[y].priority && seq_less(
        reg[x].name,
        reg[y].name,
    ))
}

/// Branch `b` reaches the `k`th commit of group `g`.
pub open spec fn reaches_member(mv: MemberView, gs: Seq<GroupView>, b: usize, g: int, k: int) -> bool {
    &&& 0 <= g < gs.len()
    &&& 0 <= k < gs[g].members.len()
    &&& 0 <= gs[g].members[k] < mv.len()
    &&& mv[gs[g].members[k]].1.contains(b)
}

/// Branch `b` reaches some commit of some group.
pub open spec fn surfaced(mv: MemberView, gs: Seq<GroupView>, b: usize) -> bool {
    exists|g: int, k: int| #[trigger] reaches_member(mv, gs, b, g, k)
}

/// Branch `b` of the registry is shown: it reaches a grouped commit, or it
/// is to be shown even when empty.
pub open spec fn is_column(reg: Seq<TrackedView>, mv: MemberView, gs: Seq<GroupView>, b: usize) -> bool {
    b < reg.len() && (surfaced(mv, gs, b) || reg[b as int].show_if_empty)
}

/// `cols` holds each shown branch once, ordered by priority, then name.
pub open spec fn is_column_order(
    reg: Seq<TrackedView>,
    mv: MemberView,
    gs: Seq<GroupView>,
    cols: Seq<usize>,
) -> bool {
    &&& cols.no_duplicates()
    &&& forall|b: usize| cols.contains(b) <==> is_column(reg, mv, gs, b)
    &&& forall|p: int| 0 <= p < cols.len() - 1 ==> !key_less(reg, #[trigger] cols[p + 1] as int, cols[p] as int)
}

/// Marks, for each branch of the registry, whether it reaches a grouped commit.
fn surfaced_branches(n: usize, mem: &Membership, groups: &Vec<ChangeGroup>) -> (r: Vec<bool>)
    ensures
        r@.len() == n,
        forall|b: usize| b < n ==> (r@[b as int] <==> surfaced(mem@, group_views(groups@), b)),
{
    let ghost mv = mem@;
    let ghost gs = group_views(groups@);
    let mut mark: Vec<bool> = Vec::new();
    let mut b: usize = 0;
    while b < n
        invariant
            b <= n,
            mark@.len() == b,
            forall|x: int| 0 <= x < b ==> !mark@[x],
        decreases n - b,
    {
        mark.push(false);
        b = b + 1;
    }
    let mut g: usize = 0;
    while g < groups.len()
        invariant
            g <= groups@.len(),
            mv == mem@,
            gs == group_views(groups@),
            mark@.len() == n,
            forall|x: usize| x < n && mark@[x as int] ==> surfaced(mv, gs, x),
            forall|x: usize, g2: int, k2: int|
                x < n && g2 < g && #[trigger] reaches_member(mv, gs, x, g2, k2) ==> mark@[x as int],
        decreases groups@.len() - g,
    {
        let members = &groups[g].members;
        let mut k: usize = 0;
        while k < members.len()
            invariant
                g < groups@.len(),
                k <= members@.len(),
                members == groups@[g as int].members,
                mv == mem@,
                gs == group_views(groups@),
                mark@.len() == n,
                forall|x: usize| x < n && mark@[x as int] ==> surfaced(mv, gs, x),
                forall|x: usize, g2: int, k2: int|
                    x < n && (g2 < g || (g2 == g && k2 < k)) && #[trigger] reaches_member(mv, gs, x, g2, k2)
                        ==> mark@[x as int],
            decreases members@.len() - k,
        {
            let e = members[k];
            assert(gs[g as int].members[k as int] == e as int);
            if e < mem.entries.len() {
                let bs = &mem.entries[e].branches;
                assert(mv[e as int].1 == bs@);
                let mut j: usize = 0;
                while j < bs.len()
                    invariant
                        g < groups@.len(),
                        k < members@.len(),
                        members == groups@[g as int].members,
                        e < mem@.len(),
                        gs[g as int].members[k as int] == e as int,
                        bs@ == mv[e as int].1,
                        j <= bs@.len(),
                        mv == mem@,
                        gs == group_views(groups@),
                        mark@.len() == n,
                        forall|x: usize| x < n && mark@[x as int] ==> surfaced(mv, gs, x),
                        forall|x: usize, g2: int, k2: int|
                            x < n && (g2 < g || (g2 == g && k2 < k)) && #[trigger] reaches_member(mv, gs, x, g2, k2)
                                ==> mark@[x as int],
                        forall|j2: int| 0 <= j2 < j && bs@[j2] < n ==> mark@[bs@[j2] as int],
                    decreases bs@.len() - j,
                {
                    let x = bs[j];
                    if x < n {
                        assert(bs@[j as int] == x);
                        assert(mv[e as int].1.contains(x));
                        assert(reaches_member(mv, gs, x, g as int, k as int));
                        mark.set(x, true);
                    }
                    j = j + 1;
                }
                assert forall|x: usize, g2: int, k2: int|
                    x < n && (g2 < g || (g2 == g && k2 < k + 1)) && #[trigger] reaches_member(mv, gs, x, g2, k2)
                        implies mark@[x as int] by {
                    if g2 == g && k2 == k {
                        let j2 = choose|j2: int| 0 <= j2 < bs@.len() && bs@[j2] == x;
                    }
                }
            } else {
                assert forall|x: usize, g2: int, k2: int|
                    x < n && (g2 < g || (g2 == g && k2 < k + 1)) && #[trigger] reaches_member(mv, gs, x, g2, k2)
                        implies mark@[x as int] by {
                }
            }
            k = k + 1;
        }
        g = g + 1;
    }
    assert forall|x: usize| x < n implies (mark@[x as int] <==> surfaced(mv, gs, x)) by {
        if surfaced(mv, gs, x) {
            let (g2, k2) = choose|g2: int, k2: int| #[trigger] reaches_member(mv, gs, x, g2, k2);
        }
    }
    mark
}

/// The branches shown as columns, as registry positions, in display order.
pub fn column_order(reg: &BranchRegistry, mem: &Membership, groups: &Vec<ChangeGroup>) -> (r: Vec<usize>)
    ensures
        is_column_order(reg@, mem@, group_views(groups@), r@),
{
    let ghost rv = reg@;
    let ghost mv = mem@;
    let ghost gs = group_views(groups@);
    let n = reg.branches.len();
    let mark = surfaced_branches(n, mem, groups);
    let mut out: Vec<usize> = Vec::new();
    let mut b: usize = 0;
    while b < n
        invariant
            b <= n,
            n == rv.len(),
            rv == reg@,
            mark@.len() == n,
            forall|x: usize| x < n ==> (mark@[x as int] <==> surfaced(mv, gs, x)),
            out@.no_duplicates(),
            forall|x: usize| out@.contains(x) <==> (x < b && is_column(rv, mv, gs, x)),
            forall|p: int| 0 <= p < out@.len() - 1 ==> !key_less(rv, #[trigger] out@[p + 1] as int, out@[p] as int),
            forall|p: int| 0 <= p < out@.len() ==> out@[p] < b,
        decreases n - b,
    {
        let shown = mark[b] || reg.branches[b].show_if_empty;
        assert(shown == is_column(rv, mv, gs, b));
        if shown {
            let mut k: usize = 0;
            while k < out.len()
                invariant_except_break
                    true,
                invariant
                    k <= out@.len(),
                    b < n,
                    n == rv.len(),
                    rv == reg@,
                    forall|p: int| 0 <= p < out@.len() ==> out@[p] < b,
                    forall|p: int| 0 <= p < k ==> !key_less(rv, b as int, #[trigger] out@[p] as int),
                ensures
                    k <= out@.len(),
                    forall|p: int| 0 <= p < k ==> !key_less(rv, b as int, #[trigger] out@[p] as int),
                    k < out@.len() ==> key_less(rv, b as int, out@[k as int] as int),
                decreases out@.len() - k,
            {
                let y = out[k];
                let pb = reg.branches[b].priority;
                let py = reg.branches[y].priority;
                let less = pb < py || (pb == py && str_less(reg.branches[b].name.as_str(), reg.branches[y].name.as_str()));
                assert(less == key_less(rv, b as int, y as int));
                if less {
                    break;
                }
                k = k + 1;
            }
            let ghost o = out@;
            out.insert(k, b);
            assert(out@ =~= o.insert(k as int, b));
            proof {
                assert forall|p: int| 0 <= p < out@.len() implies out@[p] < b + 1 by {
                    if p < k { assert(out@[p] == o[p]); } else if p > k { assert(out@[p] == o[p - 1]); }
                }
                assert forall|x: int, y: int| 0 <= x < out@.len() && 0 <= y < out@.len() && x != y
                    implies out@[x] != out@[y] by {
                    if x != k as int && y != k as int {
                        let xo = if x < k { x } else { x - 1 };
                        let yo = if y < k { y } else { y - 1 };
                        assert(out@[x] == o[xo]);
                        assert(out@[y] == o[yo]);
                    } else if x == k as int {
                        let yo = if y < k { y } else { y - 1 };
                        assert(out@[y] == o[yo]);
                    } else {
                        let xo = if x < k { x } else { x - 1 };
                        assert(out@[x] == o[xo]);
                    }
                }
                assert forall|x: usize| out@.contains(x) <==> (x < b + 1 && is_column(rv, mv, gs, x)) by {
                    if out@.contains(x) {
                        let p = choose|p: int| 0 <= p < out@.len() && out@[p] == x;
                        if p < k { assert(o.contains(x)); } else if p > k { assert(out@[p] == o[p - 1]); assert(o.contains(x)); }
                    }
                    if x < b + 1 && is_column(rv, mv, gs, x) {
                        if x < b {
                            assert(o.contains(x));
                            let p = choose|p: int| 0 <= p < o.len() && o[p] == x;
                            if p < k { assert(out@[p] == x); } else { assert(out@[p + 1] == x); }
                        } else {
                            assert(out@[k as int] == x);
                        }
                    }
                }
                assert forall|p: int| 0 <= p < out@.len() - 1 implies
                    !key_less(rv, #[trigger] out@[p + 1] as int, out@[p] as int) by {
                    if p + 1 < k {
                        assert(out@[p] == o[p] && out@[p + 1] == o[p + 1]);
                        assert(!key_less(rv, o[p + 1] as int, o[p] as int));
                    } else if p + 1 == k {
                        assert(out@[p] == o[p]);
                    } else if p == k {
                        assert(out@[p + 1] == o[p]);
                        let yb = rv[o[p] as int].name;
                        assert(key_less(rv, b as int, o[p] as int));
                        lemma_seq_less_asym(rv[b as int].name, yb);
                    } else {
                        assert(out@[p] == o[p - 1] && out@[p + 1] == o[p]);
                        let q = p - 1;
                        assert(!key_less(rv, o[q + 1] as int, o[q] as int));
                    }
                }
            }
        } else {
            assert forall|x: usize| out@.contains(x) <==> (x < b + 1 && is_column(rv, mv, gs, x)) by {
                if out@.contains(x) {
                    let p = choose|p: int| 0 <= p < out@.len() && out@[p] == x;
                }
            }
        }
        b = b + 1;
    }
    out
}

/// The number of colours in the palette.
pub const PALETTE_LEN: usize = 27;

/// The channel value of grid step `k` of 0, 1, 2: from 100 up to 255.
pub open spec fn channel(k: int) -> int {
    100 + (155 * k) / 2
}

/// Colour `i` of the palette: the grid point `(i / 9, i / 3 % 3, i % 3)`,
/// each step mapped to its channel value.
pub open spec fn palette_color(i: int) -> (u8, u8, u8) {
    (channel(i / 9) as u8, channel((i / 3) % 3) as u8, channel(i % 3) as u8)
}

fn channel_value(k: u8) -> (r: u8)
    requires
        k <= 2,
    ensures
        r as int == channel(k as int),
{
    let t: u16 = 155;
    (100 + (t * k as u16) / 2) as u8
}

/// The palette, red step outermost and blue step innermost.
pub fn palette() -> (r: Vec<(u8, u8, u8)>)
    ensures
        r@.len() == PALETTE_LEN,
        forall|i: int| 0 <= i < PALETTE_LEN ==> #[trigger] r@[i] == palette_color(i),
{
    let mut out: Vec<(u8, u8, u8)> = Vec::new();
    let mut i: usize = 0;
    while i < PALETTE_LEN
        invariant
            i <= PALETTE_LEN,
            out@.len() == i,
            forall|j: int| 0 <= j < i ==> #[trigger] out@[j] == palette_color(j),
        decreases PALETTE_LEN - i,
    {
        let c = (
            channel_value((i / 9) as u8),
            channel_value(((i / 3) % 3) as u8),
            channel_value((i % 3) as u8),
        );
        out.push(c);
        i = i + 1;
    }
    out
}

/// The colour of column `i`: the palette taken cyclically.
pub fn column_color(i: usize) -> (r: (u8, u8, u8))
    ensures
        r == palette_color(i as int % PALETTE_LEN as int),
{
    let k = i % PALETTE_LEN;
    (channel_value((k / 9) as u8), channel_value(((k / 3) % 3) as u8), channel_value((k % 3) as u8))
}

/// `s` backwards.
pub open spec fn reversed<A>(s: Seq<A>) -> Seq<A> {
    Seq::new(s.len(), |i: int| s[s.len() - 1 - i])
}

/// `s` in display orientation: as it is, or reversed.
pub open spec fn oriented<A>(s: Seq<A>, reverse: bool) -> Seq<A> {
    if reverse {
        reversed(s)
    } else {
        s
    }
}

/// Puts rows or columns in display orientation.
pub fn orient(v: &Vec<usize>, reverse: bool) -> (r: Vec<usize>)
    ensures
        r@ == oriented(v@, reverse),
{
    let mut out: Vec<usize> = Vec::new();
    let n = v.len();
    let mut i: usize = 0;
    while i < n
        invariant
            n == v@.len(),
            i <= n,
            out@.len() == i,
            forall|j: int| 0 <= j < i ==> #[trigger] out@[j] == oriented(v@, reverse)[j],
        decreases n - i,
    {
        if reverse {
            out.push(v[n - 1 - i]);
        } else {
            out.push(v[i]);
        }
        i = i + 1;
    }
    assert(out@ =~= oriented(v@, reverse));
    out
}

/// Reversing the display orientation twice restores the order,
/// for rows and columns alike.
pub proof fn lemma_orient_twice<A>(s: Seq<A>)
    ensures
        oriented(oriented(s, true), true) == s,
        oriented(s, true).len() == s.len(),
        forall|i: int| 0 <= i < s.len() ==> #[trigger] oriented(s, true)[i] == s[s.len() - 1 - i],
{
    assert(oriented(oriented(s, true), true) =~= s);
}

/// A branch that reaches no commit of the record, such as one whose head
/// was older than the reference cutoff, is a column only when it is to be
/// shown even when empty.
pub proof fn lemma_absent_branch_column(
    reg: Seq<TrackedView>,
    mv: MemberView,
    gs: Seq<GroupView>,
    b: usize,
)
    requires
        !mentions(mv, b),
    ensures
        !surfaced(mv, gs, b),
        is_column(reg, mv, gs, b) ==> reg[b as int].show_if_empty,
{
    if surfaced(mv, gs, b) {
        let (g, k) = choose|g: int, k: int| #[trigger] reaches_member(mv, gs, b, g, k);
        let e = gs[g].members[k];
        assert(mv[e].1.contains(b));
    }
}

pub proof fn lemma_seq_less_trans(a: Seq<char>, b: Seq<char>, c: Seq<char>)
    requires
        seq_less(a, b),
        seq_less(b, c),
    ensures
        seq_less(a, c),
    decreases a.len(),
{
    if a.len() > 0 && b.len() > 0 && c.len() > 0 && a[0] == b[0] && b[0] == c[0] {
        lemma_seq_less_trans(a.drop_first(), b.drop_first(), c.drop_first());
    }
}

pub proof fn lemma_seq_less_total(a: Seq<char>, b: Seq<char>)
    requires
        a != b,
    ensures
        seq_less(a, b) || seq_less(b, a),
    decreases a.len(),
{
    if a.len() > 0 && b.len() > 0 {
        if a[0] == b[0] {
            if a.drop_first() == b.drop_first() {
                assert(a =~= seq![a[0]] + a.drop_first());
                assert(b =~= seq![b[0]] + b.drop_first());
            }
            lemma_seq_less_total(a.drop_first(), b.drop_first());
        } else {
            assert(a[0] < b[0] || b[0] < a[0]);
        }
    } else if a.len() == 0 && b.len() == 0 {
        assert(a =~= b);
    }
}

pub open spec fn names_distinct(reg: Seq<TrackedView>) -> bool {
    forall|i: int, j: int| 0 <= i < j < reg.len() ==> (#[trigger] reg[i]).name != (#[trigger] reg[j]).name
}

/// A column order is sorted strictly, pair by pair.
proof fn lemma_columns_pairwise(reg: Seq<TrackedView>, mv: MemberView, gs: Seq<GroupView>, cols: Seq<usize>)
    requires
        names_distinct(reg),
        is_column_order(reg, mv, gs, cols),
    ensures
        forall|p: int, q: int| 0 <= p < q < cols.len() ==> key_less(reg, #[trigger] cols[p] as int, #[trigger] cols[q] as int),
{
    assert forall|p: int| 0 <= p < cols.len() implies (#[trigger] cols[p]) < reg.len() by {
        assert(cols.contains(cols[p]));
    }
    assert forall|p: int| 0 <= p < cols.len() - 1 implies key_less(reg, #[trigger] cols[p] as int, cols[p + 1] as int) by {
        let x = cols[p] as int;
        let y = cols[p + 1] as int;
        assert(!key_less(reg, y, x));
        assert(x != y);
        assert(cols[p] < reg.len() && cols[p + 1] < reg.len());
        if x < y { assert(reg[x].name != reg[y].name); } else { assert(reg[y].name != reg[x].name); }
        lemma_seq_less_total(reg[x].name, reg[y].name);
    }
    assert forall|p: int, q: int| 0 <= p < q < cols.len() implies key_less(reg, #[trigger] cols[p] as int, #[trigger] cols[q] as int) by {
        lemma_chain(reg, cols, p, q);
    }
}

proof fn lemma_chain(reg: Seq<TrackedView>, cols: Seq<usize>, p: int, q: int)
    requires
        0 <= p < q < cols.len(),
        forall|r: int| 0 <= r < cols.len() - 1 ==> key_less(reg, #[trigger] cols[r] as int, cols[r + 1] as int),
    ensures
        key_less(reg, cols[p] as int, cols[q] as int),
    decreases q - p,
{
    if q > p + 1 {
        lemma_chain(reg, cols, p, q - 1);
        let r = q - 1;
        assert(key_less(reg, cols[r] as int, cols[r + 1] as int));
        let (x, y, z) = (cols[p] as int, cols[q - 1] as int, cols[q] as int);
        if reg[x].priority == reg[y].priority && reg[y].priority == reg[z].priority {
            lemma_seq_less_trans(reg[x].name, reg[y].name, reg[z].name);
        }
    }
}

/// The column order is determined by the registry, the record and the
/// groups: any two orders that meet `is_column_order` are the same, and so
/// are the colours, which go by column position.
pub proof fn lemma_column_order_unique(
    reg: Seq<TrackedView>,
    mv: MemberView,
    gs: Seq<GroupView>,
    a: Seq<usize>,
    b: Seq<usize>,
)
    requires
        names_distinct(reg),
        is_column_order(reg, mv, gs, a),
        is_column_order(reg, mv, gs, b),
    ensures
        a == b,
{
    lemma_columns_pairwise(reg, mv, gs, a);
    lemma_columns_pairwise(reg, mv, gs, b);
    let lt = |x: usize, y: usize| key_less(reg, x as int, y as int);
    assert forall|x: usize, y: usize| #[trigger] lt(x, y) implies !lt(y, x) by {
        lemma_seq_less_asym(reg[x as int].name, reg[y as int].name);
    }
    lemma_sorted_same_items(lt, a, b);
}

/// Branch `b` reaches some commit of group `g`.
pub open spec fn group_reaches(mv: MemberView, gs: Seq<GroupView>, g: int, b: usize) -> bool {
    exists|k: int| #[trigger] reaches_member(mv, gs, b, g, k)
}

/// The branches that reach some commit of group `g`, each once: the marks of
/// a row that stands for the whole group.
pub fn group_branches(mem: &Membership, groups: &Vec<ChangeGroup>, g: usize) -> (r: Vec<usize>)
    requires
        g < groups@.len(),
    ensures
        r@.no_duplicates(),
        forall|b: usize| r@.contains(b) <==> group_reaches(mem@, group_views(groups@), g as int, b),
{
    let ghost mv = mem@;
    let ghost gs = group_views(groups@);
    let members = &groups[g].members;
    let mut out: Vec<usize> = Vec::new();
    let mut k: usize = 0;
    while k < members.len()
        invariant
            g < groups@.len(),
            members == groups@[g as int].members,
            k <= members@.len(),
            mv == mem@,
            gs == group_views(groups@),
            out@.no_duplicates(),
            forall|b: usize| out@.contains(b) <==> exists|k2: int| k2 < k && #[trigger] reaches_member(mv, gs, b, g as int, k2),
        decreases members@.len() - k,
    {
        let e = members[k];
        assert(gs[g as int].members[k as int] == e as int);
        if e < mem.entries.len() {
            let bs = &mem.entries[e].branches;
            assert(mv[e as int].1 == bs@);
            let mut j: usize = 0;
            while j < bs.len()
                invariant
                    g < groups@.len(),
                    k < members@.len(),
                    e < mem@.len(),
                    gs[g as int].members[k as int] == e as int,
                    bs@ == mv[e as int].1,
                    j <= bs@.len(),
                    mv == mem@,
                    gs == group_views(groups@),
                    out@.no_duplicates(),
                    forall|b: usize| out@.contains(b) <==> (
                        (exists|k2: int| k2 < k && #[trigger] reaches_member(mv, gs, b, g as int, k2))
                        || exists|j2: int| 0 <= j2 < j && bs@[j2] == b),
                decreases bs@.len() - j,
            {
                let x = bs[j];
                let mut seen = false;
                let mut p: usize = 0;
                while p < out.len()
                    invariant
                        p <= out@.len(),
                        seen == exists|q: int| 0 <= q < p && out@[q] == x,
                    decreases out@.len() - p,
                {
                    if out[p] == x {
                        seen = true;
                    }
                    p = p + 1;
                }
                let ghost o = out@;
                if !seen {
                    out.push(x);
                    proof {
                        assert forall|a: int, c: int| 0 <= a < out@.len() && 0 <= c < out@.len() && a != c
                            implies out@[a] != out@[c] by {
                            if a < o.len() && c < o.len() {
                                assert(out@[a] == o[a] && out@[c] == o[c]);
                            } else if a < o.len() {
                                assert(out@[a] == o[a]);
                            } else {
                                assert(out@[c] == o[c]);
                            }
                        }
                    }
                }
                proof {
                    assert forall|b: usize| out@.contains(b) <==> (
                        (exists|k2: int| k2 < k && #[trigger] reaches_member(mv, gs, b, g as int, k2))
                        || exists|j2: int| 0 <= j2 < j + 1 && bs@[j2] == b) by {
                        if out@.contains(b) {
                            let q = choose|q: int| 0 <= q < out@.len() && out@[q] == b;
                            if q < o.len() {
                                assert(o.contains(b));
                            } else {
                                assert(bs@[j as int] == b);
                            }
                        }
                        if exists|j2: int| 0 <= j2 < j + 1 && bs@[j2] == b {
                            let j2 = choose|j2: int| 0 <= j2 < j + 1 && bs@[j2] == b;
                            if j2 < j {
                                assert(o.contains(b));
                                let q = choose|q: int| 0 <= q < o.len() && o[q] == b;
                                assert(out@[q] == b);
                            } else if seen {
                                let q = choose|q: int| 0 <= q < o.len() && o[q] == x;
                                assert(out@[q] == b);
                            } else {
                                assert(out@[o.len() as int] == b);
                            }
                        }
                        if exists|k2: int| k2 < k && #[trigger] reaches_member(mv, gs, b, g as int, k2) {
                            assert(o.contains(b));
                            let q = choose|q: int| 0 <= q < o.len() && o[q] == b;
                            assert(out@[q] == b);
                        }
                    }
                }
                j = j + 1;
            }
            assert forall|b: usize| out@.contains(b) <==> exists|k2: int| k2 < k + 1 && #[trigger] reaches_member(mv, gs, b, g as int, k2) by {
                if out@.contains(b) {
                    if !exists|k2: int| k2 < k && #[trigger] reaches_member(mv, gs, b, g as int, k2) {
                        let j2 = choose|j2: int| 0 <= j2 < bs@.len() && bs@[j2] == b;
                        assert(mv[e as int].1.contains(b));
                        assert(reaches_member(mv, gs, b, g as int, k as int));
                    }
                }
                if exists|k2: int| k2 < k + 1 && #[trigger] reaches_member(mv, gs, b, g as int, k2) {
                    let k2 = choose|k2: int| k2 < k + 1 && #[trigger] reaches_member(mv, gs, b, g as int, k2);
                    if k2 == k {
                        let j2 = choose|j2: int| 0 <= j2 < bs@.len() && bs@[j2] == b;
                    }
                }
            }
        } else {
            assert forall|b: usize| out@.contains(b) <==> exists|k2: int| k2 < k + 1 && #[trigger] reaches_member(mv, gs, b, g as int, k2) by {
                if exists|k2: int| k2 < k + 1 && #[trigger] reaches_member(mv, gs, b, g as int, k2) {
                    let k2 = choose|k2: int| k2 < k + 1 && #[trigger] reaches_member(mv, gs, b, g as int, k2);
                }
            }
        }
        k = k + 1;
    }
    assert forall|b: usize| out@.contains(b) <==> group_reaches(mv, gs, g as int, b) by {
        if group_reaches(mv, gs, g as int, b) {
            let k2 = choose|k2: int| #[trigger] reaches_member(mv, gs, b, g as int, k2);
        }
    }
    out
}

} // verus!
