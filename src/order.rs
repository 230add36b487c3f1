use vstd::prelude::*;
use crate::participant::{Participant, is_escort_spec, outranks_spec};

verus! {

/// Indices below `n` of the participants that are escorts (`want`) or wards
/// (`!want`), in input order.
pub open spec fn picks(ps: Seq<Participant>, n: int, want: bool) -> Seq<usize>
    decreases n,
{
    if n <= 0 {
        Seq::empty()
    } else if is_escort_spec(ps[n - 1]) == want {
        picks(ps, n - 1, want).push((n - 1) as usize)
    } else {
        picks(ps, n - 1, want)
    }
}

/// `s`, already ordered, with `x` placed after every index that it does not outrank.
pub open spec fn insert_ranked(ps: Seq<Participant>, s: Seq<usize>, x: usize) -> Seq<usize>
    decreases s.len(),
{
    if s.len() == 0 {
        seq![x]
    } else if outranks_spec(ps[x as int], ps[s[0] as int]) {
        seq![x] + s
    } else {
        seq![s[0]] + insert_ranked(ps, s.drop_first(), x)
    }
}

/// The stable descending arrangement of the indices `s` by (age, skill, duration).
pub open spec fn arrange(ps: Seq<Participant>, s: Seq<usize>) -> Seq<usize>
    decreases s.len(),
{
    if s.len() == 0 {
        Seq::empty()
    } else {
        insert_ranked(ps, arrange(ps, s.drop_last()), s.last())
    }
}

/// Inserting at the first position whose index `x` outranks is `insert_ranked`.
proof fn lemma_insert_at(ps: Seq<Participant>, s: Seq<usize>, x: usize, pos: int)
    requires
        0 <= pos <= s.len(),
        forall|j: int| 0 <= j < pos ==> !outranks_spec(ps[x as int], #[trigger] ps[s[j] as int]),
        pos < s.len() ==> outranks_spec(ps[x as int], ps[s[pos] as int]),
    ensures
        insert_ranked(ps, s, x) == s.insert(pos, x),
    decreases s.len(),
{
    if s.len() == 0 {
        assert(s.insert(pos, x) =~= seq![x]);
    } else if pos == 0 {
        assert(s.insert(pos, x) =~= seq![x] + s);
    } else {
        let t = s.drop_first();
        assert forall|j: int| 0 <= j < pos - 1 implies !outranks_spec(ps[x as int], #[trigger] ps[t[j] as int]) by {
            assert(t[j] == s[j + 1]);
        }
        if pos < s.len() {
            assert(t[pos - 1] == s[pos]);
        }
        lemma_insert_at(ps, t, x, pos - 1);
        assert(s.insert(pos, x) =~= seq![s[0]] + t.insert(pos - 1, x));
    }
}

/// Splits the participants into escorts and wards, each by index in input order.
pub fn classify(ps: &Vec<Participant>) -> (r: (Vec<usize>, Vec<usize>))
    ensures
        r.0@ == picks(ps@, ps@.len() as int, true),
        r.1@ == picks(ps@, ps@.len() as int, false),
        forall|k: int| 0 <= k < r.0@.len() ==> #[trigger] r.0@[k] < ps@.len(),
        forall|k: int| 0 <= k < r.1@.len() ==> #[trigger] r.1@[k] < ps@.len(),
{
    let mut escorts: Vec<usize> = Vec::new();
    let mut wards: Vec<usize> = Vec::new();
    let mut i: usize = 0;
    while i < ps.len()
        invariant
            i <= ps@.len(),
            escorts@ == picks(ps@, i as int, true),
            wards@ == picks(ps@, i as int, false),
            forall|k: int| 0 <= k < escorts@.len() ==> #[trigger] escorts@[k] < i,
            forall|k: int| 0 <= k < wards@.len() ==> #[trigger] wards@[k] < i,
        decreases ps@.len() - i,
    {
        if ps[i].is_escort() {
            escorts.push(i);
        } else {
            wards.push(i);
        }
        i += 1;
    }
    (escorts, wards)
}

/// Orders the indices `s` descending by (age, skill, duration) of their
/// participants; equal keys keep their order in `s`.
pub fn rank(ps: &Vec<Participant>, s: &Vec<usize>) -> (r: Vec<usize>)
    requires
        forall|k: int| 0 <= k < s@.len() ==> #[trigger] s@[k] < ps@.len(),
    ensures
        r@ == arrange(ps@, s@),
        forall|k: int| 0 <= k < r@.len() ==> #[trigger] r@[k] < ps@.len(),
{
    let mut r: Vec<usize> = Vec::new();
    let mut i: usize = 0;
    while i < s.len()
        invariant
            i <= s@.len(),
            forall|k: int| 0 <= k < s@.len() ==> #[trigger] s@[k] < ps@.len(),
            r@ == arrange(ps@, s@.take(i as int)),
            forall|k: int| 0 <= k < r@.len() ==> #[trigger] r@[k] < ps@.len(),
        decreases s@.len() - i,
    {
        let x = s[i];
        let mut pos: usize = 0;
        while pos < r.len() && !ps[x].outranks(&ps[r[pos]])
            invariant
                pos <= r@.len(),
                x < ps@.len(),
                forall|k: int| 0 <= k < r@.len() ==> #[trigger] r@[k] < ps@.len(),
                forall|j: int| 0 <= j < pos ==> !outranks_spec(ps@[x as int], #[trigger] ps@[r@[j] as int]),
            decreases r@.len() - pos,
        {
            pos += 1;
        }
        proof {
            lemma_insert_at(ps@, r@, x, pos as int);
            let t = s@.take(i as int + 1);
            assert(t.drop_last() =~= s@.take(i as int));
            assert(t.last() == x);
        }
        r.insert(pos, x);
        i += 1;
        proof {
            assert forall|k: int| 0 <= k < r@.len() implies #[trigger] r@[k] < ps@.len() by {
            }
        }
    }
    assert(s@.take(s@.len() as int) =~= s@);
    r
}

} // verus!

verus! {

pub proof fn lemma_insert_ranked_len(ps: Seq<Participant>, s: Seq<usize>, x: usize)
    ensures
        insert_ranked(ps, s, x).len() == s.len() + 1,
    decreases s.len(),
{
    if s.len() > 0 {
        lemma_insert_ranked_len(ps, s.drop_first(), x);
    }
}

/// Ranking keeps the number of indices.
pub proof fn lemma_arrange_len(ps: Seq<Participant>, s: Seq<usize>)
    ensures
        arrange(ps, s).len() == s.len(),
    decreases s.len(),
{
    if s.len() > 0 {
        lemma_arrange_len(ps, s.drop_last());
        lemma_insert_ranked_len(ps, arrange(ps, s.drop_last()), s.last());
    }
}

} // verus!
