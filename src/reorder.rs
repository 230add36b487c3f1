use vstd::prelude::*;
use crate::assign::{Group, can_take, free_count, lemma_free_count_bound, lemma_pass_shape, next_cursor, pass_spec, place, rebalance_spec};
use crate::distribution::{distribution_spec, slot_spec, slots_spec};
use crate::failure::Failure;
use crate::order::{arrange, insert_ranked, lemma_insert_ranked_len, picks};
use crate::participant::{Participant, is_escort_spec, outranks_spec};
use crate::tally::{count_in, lemma_count_concat, lemma_count_member, lemma_count_nonneg, lemma_count_single};

verus! {

/// Two participants agree on age, skill and dive time.
pub open spec fn same_key(a: Participant, b: Participant) -> bool {
    a.age == b.age && a.skill == b.skill && a.duration == b.duration
}

/// The participants that the indices `s` name, in order.
pub open spec fn people(ps: Seq<Participant>, s: Seq<usize>) -> Seq<Participant> {
    Seq::new(s.len(), |k: int| ps[s[k] as int])
}

/// No participant named later in `s` outranks one named earlier.
pub open spec fn ranked(ps: Seq<Participant>, s: Seq<usize>) -> bool {
    forall|i: int, j: int| 0 <= i < j < s.len() ==> !outranks_spec(#[trigger] ps[s[j] as int], #[trigger] ps[s[i] as int])
}

/// No participant later in `a` outranks one earlier.
pub open spec fn descending(a: Seq<Participant>) -> bool {
    forall|i: int, j: int| 0 <= i < j < a.len() ==> !outranks_spec(#[trigger] a[j], #[trigger] a[i])
}

proof fn lemma_insert_bounded(ps: Seq<Participant>, s: Seq<usize>, x: usize, b: Participant)
    requires
        forall|j: int| 0 <= j < s.len() ==> !outranks_spec(#[trigger] ps[s[j] as int], b),
        !outranks_spec(ps[x as int], b),
    ensures
        forall|j: int| 0 <= j < insert_ranked(ps, s, x).len() ==> !outranks_spec(#[trigger] ps[insert_ranked(ps, s, x)[j] as int], b),
    decreases s.len(),
{
    lemma_insert_ranked_len(ps, s, x);
    if s.len() == 0 {
    } else if outranks_spec(ps[x as int], ps[s[0] as int]) {
        let r = seq![x] + s;
        assert forall|j: int| 0 <= j < r.len() implies !outranks_spec(#[trigger] ps[r[j] as int], b) by {
            if j > 0 {
                assert(r[j] == s[j - 1]);
            }
        }
    } else {
        let t = s.drop_first();
        assert forall|j: int| 0 <= j < t.len() implies !outranks_spec(#[trigger] ps[t[j] as int], b) by {
            assert(t[j] == s[j + 1]);
        }
        lemma_insert_bounded(ps, t, x, b);
        let r = seq![s[0]] + insert_ranked(ps, t, x);
        assert forall|j: int| 0 <= j < r.len() implies !outranks_spec(#[trigger] ps[r[j] as int], b) by {
            if j > 0 {
                assert(r[j] == insert_ranked(ps, t, x)[j - 1]);
            }
        }
    }
}

proof fn lemma_insert_ranked_sorted(ps: Seq<Participant>, s: Seq<usize>, x: usize)
    requires
        ranked(ps, s),
    ensures
        ranked(ps, insert_ranked(ps, s, x)),
    decreases s.len(),
{
    lemma_insert_ranked_len(ps, s, x);
    if s.len() == 0 {
    } else if outranks_spec(ps[x as int], ps[s[0] as int]) {
        let r = seq![x] + s;
        assert forall|i: int, j: int| 0 <= i < j < r.len() implies !outranks_spec(#[trigger] ps[r[j] as int], #[trigger] ps[r[i] as int]) by {
            assert(r[j] == s[j - 1]);
            if i == 0 {
                if j - 1 > 0 {
                    assert(!outranks_spec(ps[s[j - 1] as int], ps[s[0] as int]));
                }
            } else {
                assert(r[i] == s[i - 1]);
            }
        }
    } else {
        let t = s.drop_first();
        assert forall|i: int, j: int| 0 <= i < j < t.len() implies !outranks_spec(#[trigger] ps[t[j] as int], #[trigger] ps[t[i] as int]) by {
            assert(t[j] == s[j + 1]);
            assert(t[i] == s[i + 1]);
        }
        assert forall|j: int| 0 <= j < t.len() implies !outranks_spec(#[trigger] ps[t[j] as int], ps[s[0] as int]) by {
            assert(t[j] == s[j + 1]);
            assert(!outranks_spec(ps[s[j + 1] as int], ps[s[0] as int]));
        }
        lemma_insert_ranked_sorted(ps, t, x);
        lemma_insert_bounded(ps, t, x, ps[s[0] as int]);
        let u = insert_ranked(ps, t, x);
        let r = seq![s[0]] + u;
        assert forall|i: int, j: int| 0 <= i < j < r.len() implies !outranks_spec(#[trigger] ps[r[j] as int], #[trigger] ps[r[i] as int]) by {
            assert(r[j] == u[j - 1]);
            if i > 0 {
                assert(r[i] == u[i - 1]);
            }
        }
    }
}

/// Ranking leaves no participant before one that outranks them.
pub proof fn lemma_arrange_ranked(ps: Seq<Participant>, s: Seq<usize>)
    ensures
        ranked(ps, arrange(ps, s)),
    decreases s.len(),
{
    if s.len() > 0 {
        lemma_arrange_ranked(ps, s.drop_last());
        lemma_insert_ranked_sorted(ps, arrange(ps, s.drop_last()), s.last());
    }
}

proof fn lemma_insert_ranked_people(ps: Seq<Participant>, s: Seq<usize>, x: usize, p: Participant)
    ensures
        count_in(people(ps, insert_ranked(ps, s, x)), p) == count_in(people(ps, s), p) + if ps[x as int] == p { 1int } else { 0int },
    decreases s.len(),
{
    lemma_count_single(ps[x as int], p);
    if s.len() == 0 {
        assert(people(ps, seq![x]) =~= seq![ps[x as int]]);
    } else if outranks_spec(ps[x as int], ps[s[0] as int]) {
        assert(people(ps, seq![x] + s) =~= seq![ps[x as int]] + people(ps, s));
        lemma_count_concat(seq![ps[x as int]], people(ps, s), p);
    } else {
        let t = s.drop_first();
        lemma_insert_ranked_people(ps, t, x, p);
        let u = insert_ranked(ps, t, x);
        assert(people(ps, seq![s[0]] + u) =~= seq![ps[s[0] as int]] + people(ps, u));
        assert(people(ps, s) =~= seq![ps[s[0] as int]] + people(ps, t));
        lemma_count_concat(seq![ps[s[0] as int]], people(ps, u), p);
        lemma_count_concat(seq![ps[s[0] as int]], people(ps, t), p);
    }
}

/// Ranking keeps each participant as often as it stood.
pub proof fn lemma_arrange_people(ps: Seq<Participant>, s: Seq<usize>, p: Participant)
    ensures
        count_in(people(ps, arrange(ps, s)), p) == count_in(people(ps, s), p),
    decreases s.len(),
{
    if s.len() > 0 {
        lemma_arrange_people(ps, s.drop_last(), p);
        lemma_insert_ranked_people(ps, arrange(ps, s.drop_last()), s.last(), p);
        assert(people(ps, s).drop_last() =~= people(ps, s.drop_last()));
    }
}

/// The escorts (or wards) below `n` are those participants of `ps.take(n)` that
/// are escorts (or wards).
pub proof fn lemma_picks_people(ps: Seq<Participant>, n: int, want: bool, p: Participant)
    requires
        0 <= n <= ps.len(),
        n <= usize::MAX as int + 1,
    ensures
        count_in(people(ps, picks(ps, n, want)), p) == if is_escort_spec(p) == want { count_in(ps.take(n), p) } else { 0int },
    decreases n,
{
    if n == 0 {
        assert(ps.take(0).len() == 0);
    } else {
        lemma_picks_people(ps, n - 1, want, p);
        let t = picks(ps, n - 1, want);
        assert(people(ps, t.push((n - 1) as usize)) =~= people(ps, t).push(ps[n - 1]));
        assert(people(ps, t.push((n - 1) as usize)).drop_last() =~= people(ps, t));
        assert(ps.take(n).drop_last() =~= ps.take(n - 1));
        lemma_count_nonneg(ps.take(n - 1), p);
    }
}

/// Two descending sequences that hold each participant equally often, where
/// participants of the same key are the same, are equal.
pub proof fn lemma_descending_unique(a: Seq<Participant>, b: Seq<Participant>)
    requires
        descending(a),
        descending(b),
        forall|p: Participant| #[trigger] count_in(a, p) == count_in(b, p),
        forall|x: Participant, y: Participant| count_in(a, x) > 0 && count_in(a, y) > 0 && same_key(x, y) ==> x == y,
    ensures
        a == b,
    decreases a.len(),
{
    if a.len() == 0 || b.len() == 0 {
        if b.len() > 0 {
            lemma_count_nonneg(b.drop_last(), b.last());
            assert(count_in(b, b.last()) >= 1);
            assert(count_in(a, b.last()) == count_in(b, b.last()));
        }
        if a.len() > 0 {
            lemma_count_nonneg(a.drop_last(), a.last());
            assert(count_in(a, a.last()) >= 1);
            assert(count_in(a, a.last()) == count_in(b, a.last()));
        }
        assert(a =~= b);
    } else {
        let x = a.last();
        let y = b.last();
        lemma_count_nonneg(a.drop_last(), x);
        lemma_count_nonneg(b.drop_last(), y);
        assert(count_in(b, x) == count_in(a, x));
        assert(count_in(a, y) == count_in(b, y));
        let k = lemma_count_member(a, y);
        let k2 = lemma_count_member(b, x);
        if k < a.len() - 1 {
            assert(!outranks_spec(a[a.len() - 1], a[k]));
        }
        if k2 < b.len() - 1 {
            assert(!outranks_spec(b[b.len() - 1], b[k2]));
        }
        assert(same_key(x, y));
        assert(x == y);
        let a1 = a.drop_last();
        let b1 = b.drop_last();
        assert forall|p: Participant| #[trigger] count_in(a1, p) == count_in(b1, p) by {
            assert(count_in(a, p) == count_in(b, p));
        }
        assert forall|u: Participant, v: Participant| count_in(a1, u) > 0 && count_in(a1, v) > 0 && same_key(u, v) implies u == v by {
            assert(count_in(a, u) > 0);
            assert(count_in(a, v) > 0);
        }
        lemma_descending_unique(a1, b1);
        assert(a =~= a1.push(x));
        assert(b =~= b1.push(y));
    }
}

} // verus!

verus! {

/// A group as the participants it names.
pub open spec fn gview(ps: Seq<Participant>, g: Group) -> (Participant, Option<Participant>, Option<Participant>) {
    (
        ps[g.escort as int],
        match g.first {
            Some(x) => Some(ps[x as int]),
            None => None,
        },
        match g.second {
            Some(x) => Some(ps[x as int]),
            None => None,
        },
    )
}

/// The groups as the participants they name.
pub open spec fn gviews(ps: Seq<Participant>, g: Seq<Group>) -> Seq<(Participant, Option<Participant>, Option<Participant>)> {
    Seq::new(g.len(), |i: int| gview(ps, g[i]))
}

proof fn lemma_people_at(ps: Seq<Participant>, s: Seq<usize>, k: int)
    requires
        0 <= k < s.len(),
    ensures
        people(ps, s)[k] == ps[s[k] as int],
{
}

proof fn lemma_view_at(ps: Seq<Participant>, g: Seq<Group>, qs: Seq<Participant>, h: Seq<Group>, i: int)
    requires
        gviews(ps, g) == gviews(qs, h),
        0 <= i < g.len(),
    ensures
        g.len() == h.len(),
        gview(ps, g[i]) == gview(qs, h[i]),
        ps[g[i].escort as int] == qs[h[i].escort as int],
        g[i].first is None <==> h[i].first is None,
        g[i].second is None <==> h[i].second is None,
        g[i].first matches Some(x) ==> ps[x as int] == qs[h[i].first->0 as int],
        g[i].second matches Some(x) ==> ps[x as int] == qs[h[i].second->0 as int],
{
    assert(g.len() == gviews(ps, g).len());
    assert(h.len() == gviews(qs, h).len());
    assert(gviews(ps, g)[i] == gviews(qs, h)[i]);
}

proof fn lemma_pass_alike(
    ps: Seq<Participant>,
    g: Seq<Group>,
    cands: Seq<usize>,
    qs: Seq<Participant>,
    h: Seq<Group>,
    dands: Seq<usize>,
    lo: int,
    hi: int,
    c: int,
    w: int,
)
    requires
        gviews(ps, g) == gviews(qs, h),
        people(ps, cands) == people(qs, dands),
    ensures
        match pass_spec(ps, g, cands, lo, hi, c, w) {
            Ok(a) => pass_spec(qs, h, dands, lo, hi, c, w) is Ok && gviews(ps, a) == gviews(qs, pass_spec(qs, h, dands, lo, hi, c, w)->Ok_0),
            Err(e) => pass_spec(qs, h, dands, lo, hi, c, w) == Err::<Seq<Group>, u32>(e),
        },
    decreases cands.len() - w, c,
{
    assert(g.len() == gviews(ps, g).len());
    assert(h.len() == gviews(qs, h).len());
    assert(cands.len() == people(ps, cands).len());
    assert(dands.len() == people(qs, dands).len());
    if w < 0 || w >= cands.len() || lo < 0 || c < lo || c >= hi || hi > g.len() {
    } else {
        lemma_view_at(ps, g, qs, h, c);
        assert(people(ps, cands)[w] == people(qs, dands)[w]);
        lemma_people_at(ps, cands, w);
        lemma_people_at(qs, dands, w);
        assert(can_take(ps, g[c], cands[w]) == can_take(qs, h[c], dands[w]));
        if can_take(ps, g[c], cands[w]) {
            let g1 = g.update(c, place(g[c], cands[w]));
            let h1 = h.update(c, place(h[c], dands[w]));
            assert forall|i: int| 0 <= i < g1.len() implies gviews(ps, g1)[i] == gviews(qs, h1)[i] by {
                lemma_view_at(ps, g, qs, h, i);
                if i != c {
                    assert(g1[i] == g[i]);
                    assert(h1[i] == h[i]);
                }
            }
            assert(gviews(ps, g1) =~= gviews(qs, h1));
            lemma_pass_alike(ps, g1, cands, qs, h1, dands, lo, hi, next_cursor(c, lo, hi), w + 1);
        } else if c == lo {
        } else {
            lemma_pass_alike(ps, g, cands, qs, h, dands, lo, hi, c - 1, w);
        }
    }
}

proof fn lemma_free_alike(ps: Seq<Participant>, g: Seq<Group>, qs: Seq<Participant>, h: Seq<Group>)
    requires
        gviews(ps, g) == gviews(qs, h),
    ensures
        free_count(g) == free_count(h),
    decreases g.len(),
{
    assert(g.len() == gviews(ps, g).len());
    assert(h.len() == gviews(qs, h).len());
    if g.len() > 0 {
        assert(gviews(ps, g.drop_last()) =~= gviews(qs, h.drop_last())) by {
            assert forall|i: int| 0 <= i < g.len() - 1 implies gviews(ps, g.drop_last())[i] == gviews(qs, h.drop_last())[i] by {
                assert(gviews(ps, g)[i] == gviews(qs, h)[i]);
            }
        }
        assert(gviews(ps, g)[g.len() - 1] == gviews(qs, h)[h.len() - 1]);
        lemma_free_alike(ps, g.drop_last(), qs, h.drop_last());
    }
}

proof fn lemma_rebalance_alike(ps: Seq<Participant>, g: Seq<Group>, qs: Seq<Participant>, h: Seq<Group>)
    requires
        gviews(ps, g) == gviews(qs, h),
    ensures
        match rebalance_spec(ps, g) {
            Ok(a) => rebalance_spec(qs, h) is Ok && gviews(ps, a) == gviews(qs, rebalance_spec(qs, h)->Ok_0),
            Err(f) => rebalance_spec(qs, h) == Err::<Seq<Group>, Failure>(f),
        },
{
    lemma_free_alike(ps, g, qs, h);
    lemma_free_count_bound(g);
    assert(g.len() == gviews(ps, g).len());
    assert(h.len() == gviews(qs, h).len());
    let e = g.len() as int;
    let free = free_count(g);
    if free == 1 && e >= 2 {
        lemma_view_at(ps, g, qs, h, e - 2);
        lemma_view_at(ps, g, qs, h, e - 1);
        let g1 = g.update(e - 2, Group { second: Some(g[e - 1].escort), ..g[e - 2] }).take(e - 1);
        let h1 = h.update(e - 2, Group { second: Some(h[e - 1].escort), ..h[e - 2] }).take(e - 1);
        assert forall|i: int| 0 <= i < g1.len() implies gviews(ps, g1)[i] == gviews(qs, h1)[i] by {
            lemma_view_at(ps, g, qs, h, i);
        }
        assert(gviews(ps, g1) =~= gviews(qs, h1));
    } else if free >= 2 {
        let small = (free + 2) / 3;
        let lo = e - free;
        let hi = e - (free - small);
        let cands = Seq::new((free - small) as nat, |k: int| g[hi + k].escort);
        let dands = Seq::new((free - small) as nat, |k: int| h[hi + k].escort);
        assert forall|k: int| 0 <= k < cands.len() implies people(ps, cands)[k] == people(qs, dands)[k] by {
            lemma_view_at(ps, g, qs, h, hi + k);
        }
        assert(people(ps, cands) =~= people(qs, dands));
        lemma_pass_alike(ps, g, cands, qs, h, dands, lo, hi, lo, 0);
        if let Ok(a) = pass_spec(ps, g, cands, lo, hi, lo, 0) {
            let b = pass_spec(qs, h, dands, lo, hi, lo, 0)->Ok_0;
            assert(a.len() == gviews(ps, a).len());
            assert(b.len() == gviews(qs, b).len());
            lemma_pass_shape(ps, g, cands, lo, hi, lo, 0);
            assert forall|i: int| 0 <= i < a.take(hi).len() implies gviews(ps, a.take(hi))[i] == gviews(qs, b.take(hi))[i] by {
                lemma_view_at(ps, a, qs, b, i);
            }
            assert(gviews(ps, a.take(hi)) =~= gviews(qs, b.take(hi)));
        }
    }
}

proof fn lemma_slots_alike(ps: Seq<Participant>, g: Seq<Group>, qs: Seq<Participant>, h: Seq<Group>)
    requires
        gviews(ps, g) == gviews(qs, h),
    ensures
        slots_spec(ps, g) == slots_spec(qs, h),
    decreases g.len(),
{
    assert(g.len() == gviews(ps, g).len());
    assert(h.len() == gviews(qs, h).len());
    if g.len() > 0 {
        assert(gviews(ps, g.drop_last()) =~= gviews(qs, h.drop_last())) by {
            assert forall|i: int| 0 <= i < g.len() - 1 implies gviews(ps, g.drop_last())[i] == gviews(qs, h.drop_last())[i] by {
                assert(gviews(ps, g)[i] == gviews(qs, h)[i]);
            }
        }
        assert(gviews(ps, g)[g.len() - 1] == gviews(qs, h)[h.len() - 1]);
        lemma_slots_alike(ps, g.drop_last(), qs, h.drop_last());
        assert(slot_spec(ps, g.last()) == slot_spec(qs, h.last()));
    }
}

} // verus!

verus! {

/// The escorts (or wards) of a class in ranked order do not depend on the order
/// in which the class was given, where participants of the same key are the same.
proof fn lemma_ranked_people_alike(ps: Seq<Participant>, qs: Seq<Participant>, want: bool)
    requires
        ps.len() <= usize::MAX,
        qs.len() <= usize::MAX,
        forall|p: Participant| #[trigger] count_in(ps, p) == count_in(qs, p),
        forall|i: int, j: int| 0 <= i < ps.len() && 0 <= j < ps.len() && same_key(ps[i], ps[j]) ==> ps[i] == ps[j],
    ensures
        people(ps, arrange(ps, picks(ps, ps.len() as int, want))) == people(qs, arrange(qs, picks(qs, qs.len() as int, want))),
{
    let sp = picks(ps, ps.len() as int, want);
    let sq = picks(qs, qs.len() as int, want);
    let a = people(ps, arrange(ps, sp));
    let b = people(qs, arrange(qs, sq));
    lemma_arrange_ranked(ps, sp);
    lemma_arrange_ranked(qs, sq);
    assert(descending(a));
    assert(descending(b));
    assert(ps.take(ps.len() as int) =~= ps);
    assert(qs.take(qs.len() as int) =~= qs);
    assert forall|p: Participant| #[trigger] count_in(a, p) == count_in(b, p) by {
        lemma_arrange_people(ps, sp, p);
        lemma_arrange_people(qs, sq, p);
        lemma_picks_people(ps, ps.len() as int, want, p);
        lemma_picks_people(qs, qs.len() as int, want, p);
        assert(count_in(ps, p) == count_in(qs, p));
    }
    assert forall|x: Participant, y: Participant| count_in(a, x) > 0 && count_in(a, y) > 0 && same_key(x, y) implies x == y by {
        lemma_arrange_people(ps, sp, x);
        lemma_arrange_people(ps, sp, y);
        lemma_picks_people(ps, ps.len() as int, want, x);
        lemma_picks_people(ps, ps.len() as int, want, y);
        let i = lemma_count_member(ps, x);
        let j = lemma_count_member(ps, y);
        assert(same_key(ps[i], ps[j]));
    }
    lemma_descending_unique(a, b);
}

/// A class gets the same assignment in whatever order it is given, where
/// participants who agree on age, skill and dive time are the same participant:
/// the ranking alone decides who is considered first.
pub proof fn law_order_of_class_irrelevant(ps: Seq<Participant>, qs: Seq<Participant>)
    requires
        ps.len() <= usize::MAX,
        qs.len() <= usize::MAX,
        forall|p: Participant| #[trigger] count_in(ps, p) == count_in(qs, p),
        forall|i: int, j: int| 0 <= i < ps.len() && 0 <= j < ps.len() && same_key(ps[i], ps[j]) ==> ps[i] == ps[j],
    ensures
        distribution_spec(ps) == distribution_spec(qs),
{
    lemma_ranked_people_alike(ps, qs, true);
    lemma_ranked_people_alike(ps, qs, false);
    let esp = arrange(ps, picks(ps, ps.len() as int, true));
    let esq = arrange(qs, picks(qs, qs.len() as int, true));
    let wsp = arrange(ps, picks(ps, ps.len() as int, false));
    let wsq = arrange(qs, picks(qs, qs.len() as int, false));
    assert(esp.len() == people(ps, esp).len());
    assert(esq.len() == people(qs, esq).len());
    assert(wsp.len() == people(ps, wsp).len());
    assert(wsq.len() == people(qs, wsq).len());
    let g0p = Seq::new(esp.len(), |i: int| Group { escort: esp[i], first: None, second: None });
    let g0q = Seq::new(esq.len(), |i: int| Group { escort: esq[i], first: None, second: None });
    assert forall|i: int| 0 <= i < g0p.len() implies gviews(ps, g0p)[i] == gviews(qs, g0q)[i] by {
        lemma_people_at(ps, esp, i);
        lemma_people_at(qs, esq, i);
    }
    assert(gviews(ps, g0p) =~= gviews(qs, g0q));
    lemma_pass_alike(ps, g0p, wsp, qs, g0q, wsq, 0, esp.len() as int, 0, 0);
    if let Ok(a) = pass_spec(ps, g0p, wsp, 0, esp.len() as int, 0, 0) {
        let b = pass_spec(qs, g0q, wsq, 0, esq.len() as int, 0, 0)->Ok_0;
        lemma_rebalance_alike(ps, a, qs, b);
        if let Ok(r) = rebalance_spec(ps, a) {
            lemma_slots_alike(ps, r, qs, rebalance_spec(qs, b)->Ok_0);
        }
    }
}

} // verus!
