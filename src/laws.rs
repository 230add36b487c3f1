use vstd::prelude::*;
use crate::assign::{Group, lemma_free_count_bound, lemma_pass_shape, can_take, feasibility_spec, free_count, next_cursor, pass_spec, place, plan_spec, rebalance_spec};
use crate::distribution::{Slot, distribution_spec, slots_spec};
use crate::failure::Failure;
use crate::order::{arrange, lemma_arrange_len, picks};
use crate::participant::Participant;
use crate::tally::{escorts_of, held, lemma_arrange_count, lemma_count_single, lemma_first_pass_settled, lemma_held_bare,
    lemma_held_split, lemma_held_update, lemma_pass_held, lemma_picks_count, settled};

verus! {

/// The number of escorts in the class.
pub open spec fn escort_count(ps: Seq<Participant>) -> int {
    picks(ps, ps.len() as int, true).len() as int
}

/// The number of wards in the class.
pub open spec fn ward_count(ps: Seq<Participant>) -> int {
    picks(ps, ps.len() as int, false).len() as int
}

/// The class fails for want of escorts exactly when the wards outnumber twice
/// the escorts; it fails for its size exactly when that is not so and it has
/// fewer than three participants.
pub proof fn law_size_failures(ps: Seq<Participant>)
    ensures
        (distribution_spec(ps) == Err::<Seq<Slot>, Failure>(Failure::InsufficientEscorts))
            <==> escort_count(ps) * 2 < ward_count(ps),
        (distribution_spec(ps) == Err::<Seq<Slot>, Failure>(Failure::GroupTooSmall))
            <==> (!(escort_count(ps) * 2 < ward_count(ps)) && escort_count(ps) + ward_count(ps) < 3),
{
    let n = ps.len() as int;
    lemma_arrange_len(ps, picks(ps, n, true));
    lemma_arrange_len(ps, picks(ps, n, false));
    let es = arrange(ps, picks(ps, n, true));
    let ws = arrange(ps, picks(ps, n, false));
    if feasibility_spec(es.len() as int, ws.len() as int) is None {
        let g0 = Seq::new(es.len(), |i: int| Group { escort: es[i], first: None, second: None });
        match pass_spec(ps, g0, ws, 0, es.len() as int, 0, 0) {
            Err(a) => {},
            Ok(g) => {
                lemma_slots_failure_kind(ps, g);
                lemma_slots_failure_kind(ps, g.take(g.len() - 1));
                if let Ok(g2) = rebalance_spec(ps, g) {
                    lemma_slots_failure_kind(ps, g2);
                }
            },
        }
    }
}

/// Writing out groups fails, if at all, on a skill grade.
proof fn lemma_slots_failure_kind(ps: Seq<Participant>, g: Seq<Group>)
    ensures
        slots_spec(ps, g) matches Err(f) ==> f is InvalidSkillLevel,
    decreases g.len(),
{
    if g.len() > 0 {
        lemma_slots_failure_kind(ps, g.drop_last());
    }
}

} // verus!

verus! {

/// Every ward in the groups is younger than the group's escort.
pub open spec fn escorts_older(ps: Seq<Participant>, g: Seq<Group>) -> bool {
    forall|i: int| 0 <= i < g.len() ==> ((#[trigger] g[i]).first matches Some(x) ==> ps[g[i].escort as int].age > ps[x as int].age)
        && (g[i].second matches Some(x) ==> ps[g[i].escort as int].age > ps[x as int].age)
}

proof fn lemma_pass_keeps_ages(ps: Seq<Participant>, g: Seq<Group>, cands: Seq<usize>, lo: int, hi: int, c: int, w: int)
    requires
        escorts_older(ps, g),
    ensures
        pass_spec(ps, g, cands, lo, hi, c, w) matches Ok(g2) ==> escorts_older(ps, g2),
    decreases cands.len() - w, c,
{
    if w < 0 || w >= cands.len() || lo < 0 || c < lo || c >= hi || hi > g.len() {
    } else if can_take(ps, g[c], cands[w]) {
        let g1 = g.update(c, place(g[c], cands[w]));
        assert forall|i: int| 0 <= i < g1.len() implies ((#[trigger] g1[i]).first matches Some(x) ==> ps[g1[i].escort as int].age > ps[x as int].age)
            && (g1[i].second matches Some(x) ==> ps[g1[i].escort as int].age > ps[x as int].age) by {
            if i != c {
                assert(g1[i] == g[i]);
            }
        }
        lemma_pass_keeps_ages(ps, g1, cands, lo, hi, next_cursor(c, lo, hi), w + 1);
    } else if c == lo {
    } else {
        lemma_pass_keeps_ages(ps, g, cands, lo, hi, c - 1, w);
    }
}

/// The one leftover escort would join a group whose escort is not older: the
/// only way for a ward to be no younger than their escort.
pub open spec fn leftover_not_younger(ps: Seq<Participant>) -> bool {
    let es = arrange(ps, picks(ps, ps.len() as int, true));
    let ws = arrange(ps, picks(ps, ps.len() as int, false));
    let g0 = Seq::new(es.len(), |i: int| Group { escort: es[i], first: None, second: None });
    match pass_spec(ps, g0, ws, 0, es.len() as int, 0, 0) {
        Err(_) => false,
        Ok(g) => {
            let e = g.len() as int;
            feasibility_spec(es.len() as int, ws.len() as int) is None && free_count(g) == 1 && e >= 2
                && ps[g[e - 2].escort as int].age <= ps[g[e - 1].escort as int].age
        },
    }
}

/// Whatever the assignment, each group's escort is older than its wards; the
/// single exception is a leftover escort joining an escort of the same age.
pub proof fn law_groups_escorts_older(ps: Seq<Participant>)
    requires
        !leftover_not_younger(ps),
    ensures
        plan_spec(ps) matches Ok(g) ==> escorts_older(ps, g),
{
    let es = arrange(ps, picks(ps, ps.len() as int, true));
    let ws = arrange(ps, picks(ps, ps.len() as int, false));
    let g0 = Seq::new(es.len(), |i: int| Group { escort: es[i], first: None, second: None });
    lemma_pass_keeps_ages(ps, g0, ws, 0, es.len() as int, 0, 0);
    assert(escorts_older(ps, g0));
    if feasibility_spec(es.len() as int, ws.len() as int) is None && pass_spec(ps, g0, ws, 0, es.len() as int, 0, 0) is Ok {
        let g = pass_spec(ps, g0, ws, 0, es.len() as int, 0, 0)->Ok_0;
        let e = g.len() as int;
        let free = free_count(g);
        lemma_free_count_bound(g);
        if free >= 2 {
            let small = (free + 2) / 3;
            let hi = e - (free - small);
            let cands = Seq::new((free - small) as nat, |k: int| g[hi + k].escort);
            lemma_pass_keeps_ages(ps, g, cands, e - free, hi, e - free, 0);
            lemma_pass_shape(ps, g, cands, e - free, hi, e - free, 0);
            lemma_free_count_bound(g);
            if let Ok(g2) = pass_spec(ps, g, cands, e - free, hi, e - free, 0) {
                let t = g2.take(hi);
                assert forall|i: int| 0 <= i < t.len() implies ((#[trigger] t[i]).first matches Some(x) ==> ps[t[i].escort as int].age > ps[x as int].age)
                    && (t[i].second matches Some(x) ==> ps[t[i].escort as int].age > ps[x as int].age) by {
                    assert(t[i] == g2[i]);
                }
            }
        } else if free == 1 && e >= 2 {
            let g1 = g.update(e - 2, Group { second: Some(g[e - 1].escort), ..g[e - 2] });
            assert forall|i: int| 0 <= i < g1.len() implies ((#[trigger] g1[i]).first matches Some(x) ==> ps[g1[i].escort as int].age > ps[x as int].age)
                && (g1[i].second matches Some(x) ==> ps[g1[i].escort as int].age > ps[x as int].age) by {
                assert(g[e - 2] == g[e - 2]);
                if i != e - 2 {
                    assert(g1[i] == g[i]);
                }
            }
            let t = g1.take(e - 1);
            assert forall|i: int| 0 <= i < t.len() implies ((#[trigger] t[i]).first matches Some(x) ==> ps[t[i].escort as int].age > ps[x as int].age)
                && (t[i].second matches Some(x) ==> ps[t[i].escort as int].age > ps[x as int].age) by {
                assert(t[i] == g1[i]);
            }
        }
    }
}

/// The written-out groups follow the groups of indices one for one.
proof fn lemma_slots_follow(ps: Seq<Participant>, g: Seq<Group>)
    ensures
        slots_spec(ps, g) matches Ok(s) ==> s.len() == g.len() && forall|i: int| 0 <= i < s.len() ==> (
            #[trigger] s[i]).escort == ps[g[i].escort as int]
            && (s[i].first matches Some(p) ==> g[i].first matches Some(x) && p.ward == ps[x as int])
            && (s[i].second matches Some(p) ==> g[i].second matches Some(x) && p.ward == ps[x as int]),
    decreases g.len(),
{
    if g.len() > 0 {
        lemma_slots_follow(ps, g.drop_last());
    }
}

/// In a successful assignment every ward is younger than their escort, but for
/// a leftover escort joining an escort of the same age.
pub proof fn law_escorts_older(ps: Seq<Participant>)
    requires
        !leftover_not_younger(ps),
    ensures
        distribution_spec(ps) matches Ok(s) ==> forall|i: int| 0 <= i < s.len() ==> ((#[trigger] s[i]).first matches Some(p)
            ==> s[i].escort.age > p.ward.age) && (s[i].second matches Some(p) ==> s[i].escort.age > p.ward.age),
{
    law_groups_escorts_older(ps);
    if let Ok(g) = plan_spec(ps) {
        lemma_slots_follow(ps, g);
        if let Ok(s) = slots_spec(ps, g) {
            assert forall|i: int| 0 <= i < s.len() implies ((#[trigger] s[i]).first matches Some(p)
                ==> s[i].escort.age > p.ward.age) && (s[i].second matches Some(p) ==> s[i].escort.age > p.ward.age) by {
                assert(g[i] == g[i]);
            }
        }
    }
}

} // verus!

verus! {

/// In a successful assignment every participant stands exactly once, as an
/// escort or as a ward: no escort or ward is dropped, and none is placed twice.
pub proof fn law_each_participant_once(ps: Seq<Participant>)
    requires
        ps.len() <= usize::MAX,
    ensures
        plan_spec(ps) matches Ok(g) ==> forall|x: usize| #[trigger] held(g, x) == if (x as int) < ps.len() { 1int } else { 0int },
{
    let n = ps.len() as int;
    let es = arrange(ps, picks(ps, n, true));
    let ws = arrange(ps, picks(ps, n, false));
    lemma_arrange_len(ps, picks(ps, n, true));
    lemma_arrange_len(ps, picks(ps, n, false));
    let g0 = Seq::new(es.len(), |i: int| Group { escort: es[i], first: None, second: None });
    if feasibility_spec(es.len() as int, ws.len() as int) is None && pass_spec(ps, g0, ws, 0, es.len() as int, 0, 0) is Ok {
        let g = pass_spec(ps, g0, ws, 0, es.len() as int, 0, 0)->Ok_0;
        assert(settled(g0, 0));
        lemma_first_pass_settled(ps, g0, ws, 0, 0, 0);
        lemma_pass_shape(ps, g0, ws, 0, es.len() as int, 0, 0);
        let e = g.len() as int;
        let free = free_count(g);
        assert forall|x: usize| #[trigger] held(g, x) == if (x as int) < n { 1int } else { 0int } by {
            lemma_held_bare(g0, x);
            assert(escorts_of(g0) =~= es);
            lemma_pass_held(ps, g0, ws, 0, es.len() as int, 0, 0, x);
            assert(ws.subrange(0, ws.len() as int) =~= ws);
            lemma_arrange_count(ps, picks(ps, n, true), x);
            lemma_arrange_count(ps, picks(ps, n, false), x);
            lemma_picks_count(ps, n, x);
        }
        if free == 1 && e >= 2 && g[e - 2].second is None {
            let h = Group { second: Some(g[e - 1].escort), ..g[e - 2] };
            let g1 = g.update(e - 2, h);
            assert forall|x: usize| #[trigger] held(g1.take(e - 1), x) == if (x as int) < n { 1int } else { 0int } by {
                lemma_held_update(g, e - 2, h, x);
                lemma_held_split(g1, e - 1, x);
                let tail = g1.subrange(e - 1, e);
                assert(tail[0] == g[e - 1]);
                lemma_held_bare(tail, x);
                assert(escorts_of(tail) =~= seq![g[e - 1].escort]);
                lemma_count_single(g[e - 1].escort, x);
            }
        } else if free >= 2 {
            let small = (free + 2) / 3;
            let lo = e - free;
            let hi = e - (free - small);
            let cands = Seq::new((free - small) as nat, |k: int| g[hi + k].escort);
            lemma_pass_shape(ps, g, cands, lo, hi, lo, 0);
            if pass_spec(ps, g, cands, lo, hi, lo, 0) is Ok {
                let g2 = pass_spec(ps, g, cands, lo, hi, lo, 0)->Ok_0;
                assert forall|x: usize| #[trigger] held(g2.take(hi), x) == if (x as int) < n { 1int } else { 0int } by {
                    lemma_pass_held(ps, g, cands, lo, hi, lo, 0, x);
                    assert(cands.subrange(0, cands.len() as int) =~= cands);
                    lemma_held_split(g2, hi, x);
                    let tail = g2.subrange(hi, e);
                    assert forall|i: int| 0 <= i < tail.len() implies (#[trigger] tail[i]).first is None && tail[i].second is None by {
                        assert(tail[i] == g2[hi + i]);
                        assert(g2[hi + i] == g[hi + i]);
                    }
                    lemma_held_bare(tail, x);
                    assert(escorts_of(tail) =~= cands);
                }
            }
        }
    }
}

} // verus!
