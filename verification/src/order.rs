//! Candidates in the order of their distance.
use vstd::prelude::*;

use crate::distance::Distance;

verus! {

/// Whether candidate `a` comes before candidate `b`: by distance, and by index where the
/// distances are equal.
pub open spec fn nearer(a: (Distance, usize), b: (Distance, usize)) -> bool {
    a.0.order() < b.0.order() || (a.0.order() == b.0.order() && a.1 < b.1)
}

/// Whether the candidates stand nearest first.
pub open spec fn nearest_first(s: Seq<(Distance, usize)>) -> bool {
    forall|i: int, j: int| 0 <= i < j < s.len() ==> !nearer(#[trigger] s[j], #[trigger] s[i])
}

/// The place of `c` in `s`: behind the last candidate that it is not nearer than.
pub open spec fn rank(s: Seq<(Distance, usize)>, c: (Distance, usize)) -> int
    decreases s.len(),
{
    if s.len() > 0 && nearer(c, s.last()) {
        rank(s.drop_last(), c)
    } else {
        s.len() as int
    }
}

/// `s` with `c` put in its place.
pub open spec fn insert_ranked(
    s: Seq<(Distance, usize)>,
    c: (Distance, usize),
) -> Seq<(Distance, usize)> {
    s.insert(rank(s, c), c)
}

/// All candidates of `candidates`, nearest first.
pub open spec fn ranked(candidates: Seq<(Distance, usize)>) -> Seq<(Distance, usize)>
    decreases candidates.len(),
{
    if candidates.len() == 0 {
        Seq::empty()
    } else {
        insert_ranked(ranked(candidates.drop_last()), candidates.last())
    }
}

/// Computes [`nearer`].
pub fn is_nearer(a: (Distance, usize), b: (Distance, usize)) -> (r: bool)
    ensures
        r == nearer(a, b),
{
    let (d, e) = (a.0.to_order(), b.0.to_order());
    d < e || (d == e && a.1 < b.1)
}

/// A place with nothing farther before it and only farther candidates behind it is the rank.
pub proof fn lemma_rank_at(s: Seq<(Distance, usize)>, c: (Distance, usize), p: int)
    requires
        0 <= p <= s.len(),
        forall|i: int| p <= i < s.len() ==> nearer(c, #[trigger] s[i]),
        p > 0 ==> !nearer(c, s[p - 1]),
    ensures
        rank(s, c) == p,
    decreases s.len(),
{
    if p < s.len() {
        assert(nearer(c, s[s.len() - 1]));
        lemma_rank_at(s.drop_last(), c, p);
    }
}

/// What the rank says of the candidates before and behind it.
pub proof fn lemma_rank(s: Seq<(Distance, usize)>, c: (Distance, usize))
    requires
        nearest_first(s),
    ensures
        0 <= rank(s, c) <= s.len(),
        forall|i: int| 0 <= i < rank(s, c) ==> !nearer(c, #[trigger] s[i]),
        forall|i: int| rank(s, c) <= i < s.len() ==> nearer(c, #[trigger] s[i]),
    decreases s.len(),
{
    if s.len() > 0 && nearer(c, s.last()) {
        assert(nearest_first(s.drop_last()));
        lemma_rank(s.drop_last(), c);
        assert forall|i: int| 0 <= i < rank(s, c) implies !nearer(c, #[trigger] s[i]) by {
            assert(s.drop_last()[i] == s[i]);
        }
        assert forall|i: int| rank(s, c) <= i < s.len() implies nearer(c, #[trigger] s[i]) by {
            if i < s.len() - 1 {
                assert(s.drop_last()[i] == s[i]);
            }
        }
    }
}

/// Putting a candidate in its place keeps the order and adds that candidate alone.
pub proof fn lemma_insert_ranked(s: Seq<(Distance, usize)>, c: (Distance, usize))
    requires
        nearest_first(s),
    ensures
        0 <= rank(s, c) <= s.len(),
        nearest_first(insert_ranked(s, c)),
        insert_ranked(s, c).len() == s.len() + 1,
        insert_ranked(s, c).to_multiset() == s.to_multiset().insert(c),
        forall|x: (Distance, usize)| #[trigger]
            insert_ranked(s, c).contains(x) <==> s.contains(x) || x == c,
{
    lemma_rank(s, c);
    let p = rank(s, c);
    let t = insert_ranked(s, c);
    vstd::seq_lib::to_multiset_insert(s, p, c);
    assert forall|i: int, j: int| 0 <= i < j < t.len() implies !nearer(
        #[trigger] t[j],
        #[trigger] t[i],
    ) by {
        let a = if i < p { i } else { i - 1 };
        let b = if j < p { j } else { j - 1 };
        if i != p {
            assert(t[i] == s[a]);
        }
        if j != p {
            assert(t[j] == s[b]);
        }
    }
    assert forall|x: (Distance, usize)| #[trigger] t.contains(x) <==> s.contains(x) || x == c by {
        if s.contains(x) {
            let i = choose|i: int| 0 <= i < s.len() && s[i] == x;
            if i < p {
                assert(t[i] == x);
            } else {
                assert(t[i + 1] == x);
            }
        }
        assert(t[p] == c);
        if t.contains(x) && x != c {
            let i = choose|i: int| 0 <= i < t.len() && t[i] == x;
            if i < p {
                assert(s[i] == x);
            } else {
                assert(s[i - 1] == x);
            }
        }
    }
}

/// Ranking a sequence sorts it.
pub proof fn lemma_ranked(candidates: Seq<(Distance, usize)>)
    ensures
        nearest_first(ranked(candidates)),
        ranked(candidates).to_multiset() == candidates.to_multiset(),
        ranked(candidates).len() == candidates.len(),
    decreases candidates.len(),
{
    if candidates.len() > 0 {
        let rest = candidates.drop_last();
        lemma_ranked(rest);
        lemma_insert_ranked(ranked(rest), candidates.last());
        vstd::seq_lib::to_multiset_build(rest, candidates.last());
        assert(rest.push(candidates.last()) =~= candidates);
    } else {
        assert(candidates =~= Seq::empty());
    }
}

/// Puts a candidate in its place.
pub fn insert_candidate(v: &mut Vec<(Distance, usize)>, c: (Distance, usize))
    requires
        nearest_first(old(v)@),
    ensures
        final(v)@ == insert_ranked(old(v)@, c),
        nearest_first(final(v)@),
{
    proof {
        lemma_insert_ranked(v@, c);
    }
    let mut p: usize = v.len();
    while p > 0 && is_nearer(c, v[p - 1])
        invariant
            p <= v@.len(),
            v@ == old(v)@,
            forall|i: int| p <= i < v@.len() ==> nearer(c, #[trigger] v@[i]),
        decreases p,
    {
        p -= 1;
    }
    proof {
        lemma_rank_at(v@, c, p as int);
    }
    v.insert(p, c);
}

} // verus!
