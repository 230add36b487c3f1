use vstd::prelude::*;
use crate::assign::{Group, can_take, free_count, next_cursor, pass_spec, place};
use crate::order::{arrange, insert_ranked, picks};
use crate::participant::{Participant, outranks_spec};

verus! {

/// How many times `x` stands in `s`.
pub open spec fn count_in<T>(s: Seq<T>, x: T) -> int
    decreases s.len(),
{
    if s.len() == 0 {
        0
    } else {
        count_in(s.drop_last(), x) + if s.last() == x { 1int } else { 0int }
    }
}

/// How many times index `x` stands in group `g`, as escort or ward.
pub open spec fn occ(g: Group, x: usize) -> int {
    (if g.escort == x { 1int } else { 0int }) + (if g.first == Some(x) { 1int } else { 0int }) + (
    if g.second == Some(x) { 1int } else { 0int })
}

/// How many times index `x` stands in the groups.
pub open spec fn held(g: Seq<Group>, x: usize) -> int
    decreases g.len(),
{
    if g.len() == 0 {
        0
    } else {
        held(g.drop_last(), x) + occ(g.last(), x)
    }
}

/// The groups before `m` have a ward; those from `m` on have none.
pub open spec fn settled(g: Seq<Group>, m: int) -> bool {
    0 <= m <= g.len() && (forall|i: int| 0 <= i < m ==> (#[trigger] g[i]).first is Some) && (forall|i: int|
        m <= i < g.len() ==> (#[trigger] g[i]).first is None && g[i].second is None)
}

pub proof fn lemma_count_concat<T>(a: Seq<T>, b: Seq<T>, x: T)
    ensures
        count_in(a + b, x) == count_in(a, x) + count_in(b, x),
    decreases b.len(),
{
    if b.len() == 0 {
        assert(a + b =~= a);
    } else {
        lemma_count_concat(a, b.drop_last(), x);
        assert((a + b).drop_last() =~= a + b.drop_last());
    }
}

pub proof fn lemma_count_single<T>(y: T, x: T)
    ensures
        count_in(seq![y], x) == if y == x { 1int } else { 0int },
{
    assert(seq![y].drop_last() =~= Seq::<T>::empty());
    assert(count_in(Seq::<T>::empty(), x) == 0);
}

pub proof fn lemma_count_nonneg<T>(s: Seq<T>, x: T)
    ensures
        count_in(s, x) >= 0,
    decreases s.len(),
{
    if s.len() > 0 {
        lemma_count_nonneg(s.drop_last(), x);
    }
}

/// What is counted stands somewhere.
pub proof fn lemma_count_member<T>(s: Seq<T>, x: T) -> (k: int)
    requires
        count_in(s, x) > 0,
    ensures
        0 <= k < s.len() && s[k] == x,
    decreases s.len(),
{
    if s.last() == x {
        s.len() - 1
    } else {
        lemma_count_member(s.drop_last(), x)
    }
}

proof fn lemma_insert_ranked_count(ps: Seq<Participant>, s: Seq<usize>, y: usize, x: usize)
    ensures
        count_in(insert_ranked(ps, s, y), x) == count_in(s, x) + if y == x { 1int } else { 0int },
    decreases s.len(),
{
    lemma_count_single(y, x);
    if s.len() == 0 {
    } else if outranks_spec(ps[y as int], ps[s[0] as int]) {
        lemma_count_concat(seq![y], s, x);
    } else {
        lemma_insert_ranked_count(ps, s.drop_first(), y, x);
        lemma_count_concat(seq![s[0]], insert_ranked(ps, s.drop_first(), y), x);
        lemma_count_concat(seq![s[0]], s.drop_first(), x);
        assert(seq![s[0]] + s.drop_first() =~= s);
        lemma_count_single(s[0], x);
    }
}

/// Ranking keeps each index as often as it stood.
pub proof fn lemma_arrange_count(ps: Seq<Participant>, s: Seq<usize>, x: usize)
    ensures
        count_in(arrange(ps, s), x) == count_in(s, x),
    decreases s.len(),
{
    if s.len() > 0 {
        lemma_arrange_count(ps, s.drop_last(), x);
        lemma_insert_ranked_count(ps, arrange(ps, s.drop_last()), s.last(), x);
    }
}

/// Each index below `n` is an escort or a ward, once.
pub proof fn lemma_picks_count(ps: Seq<Participant>, n: int, x: usize)
    requires
        0 <= n <= usize::MAX as int + 1,
    ensures
        count_in(picks(ps, n, true), x) + count_in(picks(ps, n, false), x) == if (x as int) < n { 1int } else { 0int },
    decreases n,
{
    if n > 0 {
        lemma_picks_count(ps, n - 1, x);
        let t = picks(ps, n - 1, true);
        let f = picks(ps, n - 1, false);
        assert(t.push((n - 1) as usize).drop_last() =~= t);
        assert(f.push((n - 1) as usize).drop_last() =~= f);
    }
}

pub proof fn lemma_held_update(g: Seq<Group>, c: int, h: Group, x: usize)
    requires
        0 <= c < g.len(),
    ensures
        held(g.update(c, h), x) == held(g, x) - occ(g[c], x) + occ(h, x),
    decreases g.len(),
{
    let u = g.update(c, h);
    if c == g.len() - 1 {
        assert(u.drop_last() =~= g.drop_last());
    } else {
        lemma_held_update(g.drop_last(), c, h, x);
        assert(u.drop_last() =~= g.drop_last().update(c, h));
    }
}

pub proof fn lemma_held_split(g: Seq<Group>, k: int, x: usize)
    requires
        0 <= k <= g.len(),
    ensures
        held(g, x) == held(g.take(k), x) + held(g.subrange(k, g.len() as int), x),
    decreases g.len(),
{
    if k == g.len() {
        assert(g.take(k) =~= g);
        assert(g.subrange(k, g.len() as int).len() == 0);
    } else {
        lemma_held_split(g.drop_last(), k, x);
        assert(g.drop_last().take(k) =~= g.take(k));
        assert(g.subrange(k, g.len() as int).drop_last() =~= g.drop_last().subrange(k, g.len() - 1));
        assert(g.subrange(k, g.len() as int).last() == g.last());
    }
}

/// The escorts of the groups, in order.
pub open spec fn escorts_of(g: Seq<Group>) -> Seq<usize> {
    Seq::new(g.len(), |k: int| g[k].escort)
}

/// Groups without wards hold just their escorts.
pub proof fn lemma_held_bare(g: Seq<Group>, x: usize)
    requires
        forall|i: int| 0 <= i < g.len() ==> (#[trigger] g[i]).first is None && g[i].second is None,
    ensures
        held(g, x) == count_in(escorts_of(g), x),
    decreases g.len(),
{
    if g.len() > 0 {
        lemma_held_bare(g.drop_last(), x);
        assert(escorts_of(g).drop_last() =~= escorts_of(g.drop_last()));
    }
}

/// Settled groups leave as many without a ward as there are from `m` on.
pub proof fn lemma_settled_free(g: Seq<Group>, m: int)
    requires
        settled(g, m),
    ensures
        free_count(g) == g.len() - m,
    decreases g.len(),
{
    if g.len() > 0 {
        let d = g.drop_last();
        if m == g.len() {
            assert(g[g.len() - 1].first is Some);
            assert(settled(d, m - 1));
            lemma_settled_free(d, m - 1);
        } else {
            assert(settled(d, m));
            lemma_settled_free(d, m);
        }
    }
}

/// The first pass, started on settled groups with the cursor no further than the
/// first group without a ward, leaves them settled.
pub proof fn lemma_first_pass_settled(ps: Seq<Participant>, g: Seq<Group>, ws: Seq<usize>, c: int, w: int, m: int)
    requires
        settled(g, m),
        0 <= c <= m,
        c < g.len(),
        0 <= w,
    ensures
        pass_spec(ps, g, ws, 0, g.len() as int, c, w) matches Ok(g2) ==> settled(g2, g2.len() - free_count(g2)),
    decreases ws.len() - w, c,
{
    let hi = g.len() as int;
    if w >= ws.len() {
        assert(pass_spec(ps, g, ws, 0, hi, c, w) == Ok::<Seq<Group>, u32>(g));
        lemma_settled_free(g, m);
    } else if can_take(ps, g[c], ws[w]) {
        let g1 = g.update(c, place(g[c], ws[w]));
        if c == m {
            assert(settled(g1, m + 1));
            lemma_first_pass_settled(ps, g1, ws, next_cursor(c, 0, hi), w + 1, m + 1);
        } else {
            assert(settled(g1, m));
            lemma_first_pass_settled(ps, g1, ws, next_cursor(c, 0, hi), w + 1, m);
        }
    } else if c == 0 {
    } else {
        lemma_first_pass_settled(ps, g, ws, c - 1, w, m);
    }
}

/// A successful pass moves every remaining candidate into the groups.
pub proof fn lemma_pass_held(ps: Seq<Participant>, g: Seq<Group>, cands: Seq<usize>, lo: int, hi: int, c: int, w: int, x: usize)
    requires
        0 <= lo <= c < hi <= g.len(),
        0 <= w <= cands.len(),
    ensures
        pass_spec(ps, g, cands, lo, hi, c, w) matches Ok(g2) ==> held(g2, x) == held(g, x) + count_in(
            cands.subrange(w, cands.len() as int), x),
    decreases cands.len() - w, c,
{
    if w >= cands.len() {
        assert(cands.subrange(w, cands.len() as int).len() == 0);
    } else if can_take(ps, g[c], cands[w]) {
        let g1 = g.update(c, place(g[c], cands[w]));
        lemma_held_update(g, c, place(g[c], cands[w]), x);
        lemma_pass_held(ps, g1, cands, lo, hi, next_cursor(c, lo, hi), w + 1, x);
        lemma_count_concat(seq![cands[w]], cands.subrange(w + 1, cands.len() as int), x);
        assert(seq![cands[w]] + cands.subrange(w + 1, cands.len() as int) =~= cands.subrange(w, cands.len() as int));
        lemma_count_single(cands[w], x);
    } else if c == lo {
    } else {
        lemma_pass_held(ps, g, cands, lo, hi, c - 1, w, x);
    }
}

} // verus!
