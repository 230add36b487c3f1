use vstd::prelude::*;
use crate::failure::Failure;
use crate::participant::Participant;
use crate::order::{picks, arrange, classify, rank};

verus! {

/// One escort with up to two wards, each given by its index among the participants.
#[derive(Debug, Clone, Copy, PartialEq, Eq, Structural)]
pub struct Group {
    pub escort: usize,
    pub first: Option<usize>,
    pub second: Option<usize>,
}

/// Every index in the groups names a participant.
pub open spec fn indexed(n: int, g: Seq<Group>) -> bool {
    forall|i: int| 0 <= i < g.len() ==> (#[trigger] g[i]).escort < n
        && (g[i].first matches Some(x) ==> x < n)
        && (g[i].second matches Some(x) ==> x < n)
}

/// Whether the escort of `g` is older than participant `x` and still has a free slot.
pub open spec fn can_take(ps: Seq<Participant>, g: Group, x: usize) -> bool {
    ps[g.escort as int].age > ps[x as int].age && (g.first is None || g.second is None)
}

/// `g` with `x` in its first free slot.
pub open spec fn place(g: Group, x: usize) -> Group {
    if g.first is None {
        Group { first: Some(x), ..g }
    } else {
        Group { second: Some(x), ..g }
    }
}

/// The cursor after `c` in the circular pool `[lo, hi)`.
pub open spec fn next_cursor(c: int, lo: int, hi: int) -> int {
    if c + 1 == hi { lo } else { c + 1 }
}

/// The pairing pass: candidates from `w` on are placed one by one; the cursor
/// walks the pool `[lo, hi)` forward after each placement and steps back, on the
/// same candidate, after each refusal. A refusal at `lo` fails with the
/// candidate's age.
pub open spec fn pass_spec(
    ps: Seq<Participant>,
    g: Seq<Group>,
    cands: Seq<usize>,
    lo: int,
    hi: int,
    c: int,
    w: int,
) -> Result<Seq<Group>, u32>
    decreases cands.len() - w, c,
{
    if w < 0 || w >= cands.len() || lo < 0 || c < lo || c >= hi || hi > g.len() {
        Ok(g)
    } else if can_take(ps, g[c], cands[w]) {
        pass_spec(ps, g.update(c, place(g[c], cands[w])), cands, lo, hi, next_cursor(c, lo, hi), w + 1)
    } else if c == lo {
        Err(ps[cands[w] as int].age)
    } else {
        pass_spec(ps, g, cands, lo, hi, c - 1, w)
    }
}

/// The failure of the size checks, if any: too many wards for the escorts first,
/// then too few participants.
pub open spec fn feasibility_spec(escorts: int, wards: int) -> Option<Failure> {
    if escorts * 2 < wards {
        Some(Failure::InsufficientEscorts)
    } else if escorts + wards < 3 {
        Some(Failure::GroupTooSmall)
    } else {
        None
    }
}

/// Checks that the escorts can carry the wards and that the class is large enough.
pub fn check_feasibility(escorts: usize, wards: usize) -> (r: Result<(), Failure>)
    ensures
        r is Err <==> feasibility_spec(escorts as int, wards as int) is Some,
        r is Err ==> r == Err::<(), Failure>(feasibility_spec(escorts as int, wards as int)->0),
{
    if (escorts as u128) * 2 < wards as u128 {
        return Err(Failure::InsufficientEscorts);
    }
    if (escorts as u128) + (wards as u128) < 3 {
        return Err(Failure::GroupTooSmall);
    }
    Ok(())
}

/// Pairs candidates with the escorts of the pool `[lo, hi)` as `pass_spec` says.
fn run_pass(ps: &Vec<Participant>, groups: &mut Vec<Group>, cands: &Vec<usize>, lo: usize, hi: usize) -> (r: Result<(), u32>)
    requires
        lo < hi <= old(groups)@.len(),
        indexed(ps@.len() as int, old(groups)@),
        forall|k: int| 0 <= k < cands@.len() ==> #[trigger] cands@[k] < ps@.len(),
    ensures
        final(groups)@.len() == old(groups)@.len(),
        indexed(ps@.len() as int, final(groups)@),
        match pass_spec(ps@, old(groups)@, cands@, lo as int, hi as int, lo as int, 0) {
            Ok(g) => r is Ok && final(groups)@ == g,
            Err(a) => r == Err::<(), u32>(a),
        },
{
    let mut c: usize = lo;
    let mut w: usize = 0;
    while w < cands.len()
        invariant
            lo <= c < hi <= groups@.len(),
            groups@.len() == old(groups)@.len(),
            w <= cands@.len(),
            indexed(ps@.len() as int, groups@),
            forall|k: int| 0 <= k < cands@.len() ==> #[trigger] cands@[k] < ps@.len(),
            pass_spec(ps@, groups@, cands@, lo as int, hi as int, c as int, w as int)
                == pass_spec(ps@, old(groups)@, cands@, lo as int, hi as int, lo as int, 0),
        decreases cands@.len() - w, c,
    {
        let x = cands[w];
        let g = groups[c];
        if ps[g.escort].age > ps[x].age && (g.first.is_none() || g.second.is_none()) {
            let placed = if g.first.is_none() {
                Group { first: Some(x), ..g }
            } else {
                Group { second: Some(x), ..g }
            };
            groups.set(c, placed);
            c = if c + 1 == hi { lo } else { c + 1 };
            w += 1;
        } else if c == lo {
            return Err(ps[x].age);
        } else {
            c -= 1;
        }
    }
    Ok(())
}

} // verus!

verus! {

/// How many groups have no ward yet.
pub open spec fn free_count(g: Seq<Group>) -> int
    decreases g.len(),
{
    if g.len() == 0 {
        0
    } else {
        free_count(g.drop_last()) + if g.last().first is None { 1int } else { 0int }
    }
}

pub proof fn lemma_free_count_bound(g: Seq<Group>)
    ensures
        0 <= free_count(g) <= g.len(),
    decreases g.len(),
{
    if g.len() > 0 {
        lemma_free_count_bound(g.drop_last());
    }
}

/// What becomes of the escorts left without a ward. A single one joins the
/// second-to-last group as its second ward. Of several, the first third
/// (rounded up) keep leading; the rest become candidates of a pass over those
/// kept, and their own groups are dropped.
pub open spec fn rebalance_spec(ps: Seq<Participant>, g: Seq<Group>) -> Result<Seq<Group>, Failure> {
    let e = g.len() as int;
    let free = free_count(g);
    if free == 0 {
        Ok(g)
    } else if free == 1 {
        if e < 2 {
            Ok(g)
        } else if g[e - 2].second is None {
            Ok(g.update(e - 2, Group { second: Some(g[e - 1].escort), ..g[e - 2] }).take(e - 1))
        } else {
            Err(Failure::NoSlotForLeftoverEscort(ps[g[e - 1].escort as int].name))
        }
    } else {
        let small = (free + 2) / 3;
        let to_wards = free - small;
        let lo = e - free;
        let hi = e - to_wards;
        let cands = Seq::new(to_wards as nat, |k: int| g[hi + k].escort);
        match pass_spec(ps, g, cands, lo, hi, lo, 0) {
            Err(a) => Err(Failure::NoOlderEscortAvailable(a)),
            Ok(g2) => Ok(g2.take(hi)),
        }
    }
}

/// The assignment of a class, by participant index: escorts and wards ranked,
/// the size checks, the pass of the wards over all escorts, then the escorts
/// left without a ward dealt with.
pub open spec fn plan_spec(ps: Seq<Participant>) -> Result<Seq<Group>, Failure> {
    let es = arrange(ps, picks(ps, ps.len() as int, true));
    let ws = arrange(ps, picks(ps, ps.len() as int, false));
    match feasibility_spec(es.len() as int, ws.len() as int) {
        Some(f) => Err(f),
        None => {
            let g0 = Seq::new(es.len(), |i: int| Group { escort: es[i], first: None, second: None });
            match pass_spec(ps, g0, ws, 0, es.len() as int, 0, 0) {
                Err(a) => Err(Failure::NoOlderEscortAvailable(a)),
                Ok(g) => rebalance_spec(ps, g),
            }
        }
    }
}

/// Deals with the escorts left without a ward after the first pass.
fn rebalance(ps: &Vec<Participant>, groups: Vec<Group>) -> (r: Result<Vec<Group>, Failure>)
    requires
        indexed(ps@.len() as int, groups@),
    ensures
        r matches Ok(v) ==> indexed(ps@.len() as int, v@),
        match rebalance_spec(ps@, groups@) {
            Ok(g) => r is Ok && r->Ok_0@ == g,
            Err(f) => r == Err::<Vec<Group>, Failure>(f),
        },
{
    let mut groups = groups;
    let e = groups.len();
    let mut free: usize = 0;
    let mut i: usize = 0;
    while i < e
        invariant
            e == groups@.len(),
            i <= e,
            free <= i,
            free == free_count(groups@.take(i as int)),
        decreases e - i,
    {
        proof {
            assert(groups@.take(i as int + 1).drop_last() =~= groups@.take(i as int));
        }
        if groups[i].first.is_none() {
            free += 1;
        }
        i += 1;
    }
    assert(groups@.take(e as int) =~= groups@);
    proof {
        lemma_free_count_bound(groups@);
    }
    if free == 0 {
        return Ok(groups);
    }
    if free == 1 {
        if e < 2 {
            return Ok(groups);
        }
        let last = groups[e - 1].escort;
        let host = groups[e - 2];
        if host.second.is_none() {
            groups.set(e - 2, Group { second: Some(last), ..host });
            groups.truncate(e - 1);
            return Ok(groups);
        } else {
            return Err(Failure::NoSlotForLeftoverEscort(ps[last].name.clone()));
        }
    }
    let mut small = free / 3;
    if free % 3 != 0 {
        small += 1;
    }
    assert(small == (free + 2) / 3);
    let to_wards = free - small;
    let lo = e - free;
    let hi = e - to_wards;
    let mut cands: Vec<usize> = Vec::new();
    let mut j: usize = hi;
    while j < e
        invariant
            lo < hi <= j <= e,
            e == groups@.len(),
            cands@.len() == j - hi,
            indexed(ps@.len() as int, groups@),
            forall|k: int| 0 <= k < cands@.len() ==> #[trigger] cands@[k] == groups@[hi + k].escort,
        decreases e - j,
    {
        cands.push(groups[j].escort);
        j += 1;
    }
    assert(cands@ =~= Seq::new(to_wards as nat, |k: int| groups@[hi + k].escort));
    match run_pass(ps, &mut groups, &cands, lo, hi) {
        Err(a) => Err(Failure::NoOlderEscortAvailable(a)),
        Ok(()) => {
            groups.truncate(hi);
            Ok(groups)
        },
    }
}

/// Divides a class into groups of one escort and up to two wards, each
/// participant given by its index in `ps`.
pub fn plan_groups(ps: &Vec<Participant>) -> (r: Result<Vec<Group>, Failure>)
    ensures
        r matches Ok(v) ==> indexed(ps@.len() as int, v@),
        match plan_spec(ps@) {
            Ok(g) => r is Ok && r->Ok_0@ == g,
            Err(f) => r == Err::<Vec<Group>, Failure>(f),
        },
{
    let (escorts, wards) = classify(ps);
    let es = rank(ps, &escorts);
    let ws = rank(ps, &wards);
    check_feasibility(es.len(), ws.len())?;
    let mut groups: Vec<Group> = Vec::new();
    let mut i: usize = 0;
    while i < es.len()
        invariant
            i <= es@.len(),
            groups@ =~= Seq::new(i as nat, |k: int| Group { escort: es@[k], first: None, second: None }),
            forall|k: int| 0 <= k < es@.len() ==> #[trigger] es@[k] < ps@.len(),
        decreases es@.len() - i,
    {
        groups.push(Group { escort: es[i], first: None, second: None });
        i += 1;
    }
    match run_pass(ps, &mut groups, &ws, 0, es.len()) {
        Err(a) => Err(Failure::NoOlderEscortAvailable(a)),
        Ok(()) => rebalance(ps, groups),
    }
}

} // verus!

verus! {

/// A pass keeps the number of groups and each group's escort, and leaves the
/// groups outside its pool as they were.
pub proof fn lemma_pass_shape(ps: Seq<Participant>, g: Seq<Group>, cands: Seq<usize>, lo: int, hi: int, c: int, w: int)
    ensures
        pass_spec(ps, g, cands, lo, hi, c, w) matches Ok(g2) ==> g2.len() == g.len()
            && (forall|i: int| 0 <= i < g.len() ==> (#[trigger] g2[i]).escort == g[i].escort)
            && (forall|i: int| 0 <= i < g.len() && !(lo <= i < hi) ==> #[trigger] g2[i] == g[i]),
    decreases cands.len() - w, c,
{
    if w < 0 || w >= cands.len() || lo < 0 || c < lo || c >= hi || hi > g.len() {
    } else if can_take(ps, g[c], cands[w]) {
        let g1 = g.update(c, place(g[c], cands[w]));
        lemma_pass_shape(ps, g1, cands, lo, hi, next_cursor(c, lo, hi), w + 1);
        if let Ok(g2) = pass_spec(ps, g1, cands, lo, hi, next_cursor(c, lo, hi), w + 1) {
            assert forall|i: int| 0 <= i < g.len() implies (#[trigger] g2[i]).escort == g[i].escort by {
                assert(g1[i].escort == g[i].escort);
            }
            assert forall|i: int| 0 <= i < g.len() && !(lo <= i < hi) implies #[trigger] g2[i] == g[i] by {
                assert(g1[i] == g[i]);
            }
        }
    } else if c == lo {
    } else {
        lemma_pass_shape(ps, g, cands, lo, hi, c - 1, w);
    }
}

} // verus!
