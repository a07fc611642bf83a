//! The two queues of a search: the nearest candidates found, and the candidates still to visit.
use revord::RevOrd;
use vstd::prelude::*;

use crate::distance::Distance;
use crate::order::{
    insert_candidate, insert_ranked, is_nearer, lemma_insert_ranked, lemma_rank, lemma_rank_at,
    lemma_ranked, nearer, nearest_first, rank, ranked,
};

verus! {

/// `s` after `c` was offered to it, where at most `max_size` candidates are kept: `c` comes in
/// while there is room, and otherwise only in place of a last candidate that it is nearer than.
pub open spec fn keep_nearest(
    s: Seq<(Distance, usize)>,
    c: (Distance, usize),
    max_size: nat,
) -> Seq<(Distance, usize)> {
    if s.len() < max_size {
        insert_ranked(s, c)
    } else if nearer(c, s.last()) {
        insert_ranked(s.drop_last(), c)
    } else {
        s
    }
}

/// A collection of candidates that keeps the nearest of those pushed, `max_size` at most. Its
/// view lists them nearest first.
pub struct MaxSizeHeap {
    heap: Vec<(Distance, usize)>,
    max_size: usize,
}

impl View for MaxSizeHeap {
    type V = Seq<(Distance, usize)>;

    closed spec fn view(&self) -> Seq<(Distance, usize)> {
        self.heap@
    }
}

impl MaxSizeHeap {
    /// The number of candidates that are kept at most.
    pub closed spec fn max_size(&self) -> nat {
        self.max_size as nat
    }

    /// The candidates stand nearest first, and there are not too many.
    pub open spec fn wf(&self) -> bool {
        &&& nearest_first(self@)
        &&& self@.len() <= self.max_size()
    }

    /// An empty collection that keeps `max_size` candidates at most.
    pub fn new(max_size: usize) -> (r: Self)
        ensures
            r.wf(),
            r@ == Seq::<(Distance, usize)>::empty(),
            r.max_size() == max_size,
    {
        MaxSizeHeap { heap: Vec::new(), max_size }
    }

    /// Offers a candidate.
    pub fn push(&mut self, element: (Distance, usize))
        requires
            old(self).wf(),
            old(self).max_size() > 0,
        ensures
            final(self).wf(),
            final(self).max_size() == old(self).max_size(),
            final(self)@ == keep_nearest(old(self)@, element, old(self).max_size()),
    {
        proof {
            lemma_keep_nearest(self@, element, self.max_size());
        }
        if !self.is_full() {
            insert_candidate(&mut self.heap, element);
        } else if is_nearer(element, self.heap[self.heap.len() - 1]) {
            self.heap.pop();
            insert_candidate(&mut self.heap, element);
        }
    }

    /// Whether a further candidate can only come in place of another.
    pub fn is_full(&self) -> (r: bool)
        ensures
            r == (self@.len() >= self.max_size()),
    {
        self.heap.len() >= self.max_size
    }

    /// The farthest candidate that is kept.
    pub fn peek(&self) -> (r: Option<&(Distance, usize)>)
        ensures
            r == (if self@.len() == 0 { None } else { Some(&self@.last()) }),
    {
        if self.heap.len() == 0 {
            None
        } else {
            Some(&self.heap[self.heap.len() - 1])
        }
    }

    /// The candidates, nearest first.
    pub fn into_sorted_vec(self) -> (r: Vec<(Distance, usize)>)
        ensures
            r@ == self@,
    {
        self.heap
    }
}

/// Whether `a` is less than `b` in the order that [`RevOrd`] gives them. `RevOrd` compares two
/// values by comparing what they hold the other way round, and tuples of integers compare by
/// their first parts and then by their second: so `a` is less where `b` comes before it as a tuple.
#[verifier::external_body]
fn reversed_less(a: (i32, usize), b: (i32, usize)) -> (r: bool)
    ensures
        r == (b.0 < a.0 || (b.0 == a.0 && b.1 < a.1)),
{
    RevOrd(a) < RevOrd(b)
}

/// Whether candidate `a` leaves the queue after candidate `b`.
fn is_after(a: (Distance, usize), b: (Distance, usize)) -> (r: bool)
    ensures
        r == nearer(b, a),
{
    reversed_less((a.0.to_order(), a.1), (b.0.to_order(), b.1))
}

/// The candidates still to visit, of which the nearest leaves first. They are held in reversed
/// order, with the nearest at the end. The view lists them nearest first.
pub struct CandidateQueue {
    items: Vec<(Distance, usize)>,
}

impl View for CandidateQueue {
    type V = Seq<(Distance, usize)>;

    closed spec fn view(&self) -> Seq<(Distance, usize)> {
        self.items@.reverse()
    }
}

impl CandidateQueue {
    /// The candidates stand nearest first.
    pub open spec fn wf(&self) -> bool {
        nearest_first(self@)
    }

    /// An empty queue.
    pub fn new() -> (r: Self)
        ensures
            r.wf(),
            r@ == Seq::<(Distance, usize)>::empty(),
    {
        let r = CandidateQueue { items: Vec::new() };
        assert(r@ =~= Seq::<(Distance, usize)>::empty());
        r
    }

    /// Adds a candidate.
    pub fn push(&mut self, c: (Distance, usize))
        requires
            old(self).wf(),
        ensures
            final(self).wf(),
            final(self)@ == insert_ranked(old(self)@, c),
    {
        let ghost s = self@;
        proof {
            lemma_insert_ranked(s, c);
        }
        let mut p: usize = self.items.len();
        while p > 0 && !is_after(self.items[p - 1], c)
            invariant
                p <= self.items@.len(),
                self.items@ == old(self).items@,
                s == self.items@.reverse(),
                forall|i: int| p <= i < self.items@.len() ==> !nearer(c, #[trigger] self.items@[i]),
            decreases p,
        {
            p -= 1;
        }
        proof {
            let n = self.items@.len() as int;
            assert forall|i: int| n - p <= i < n implies nearer(c, #[trigger] s[i]) by {
                if i > n - p {
                    assert(s[n - p] == self.items@[p - 1]);
                    assert(!nearer(s[i], s[n - p]));
                }
            }
            if p < n {
                assert(s[n - p - 1] == self.items@[p as int]);
            }
            lemma_rank_at(s, c, n - p);
        }
        self.items.insert(p, c);
        assert(self@ =~= insert_ranked(s, c));
    }

    /// Takes out the nearest candidate.
    pub fn pop(&mut self) -> (r: Option<(Distance, usize)>)
        requires
            old(self).wf(),
        ensures
            final(self).wf(),
            match r {
                Some(c) => old(self)@.len() > 0 && c == old(self)@[0] && final(self)@
                    == old(self)@.drop_first(),
                None => old(self)@.len() == 0 && final(self)@ == old(self)@,
            },
    {
        let r = self.items.pop();
        proof {
            if r is Some {
                assert(self@ =~= old(self)@.drop_first());
            } else {
                assert(self@ =~= old(self)@);
            }
        }
        r
    }
}

/// Offering a candidate keeps the order and the bound.
pub proof fn lemma_keep_nearest(s: Seq<(Distance, usize)>, c: (Distance, usize), max_size: nat)
    requires
        nearest_first(s),
        s.len() <= max_size,
        max_size > 0,
    ensures
        nearest_first(keep_nearest(s, c, max_size)),
        s.len() <= keep_nearest(s, c, max_size).len() <= max_size,
        keep_nearest(s, c, max_size).len() > 0,
        forall|x: (Distance, usize)| #[trigger]
            keep_nearest(s, c, max_size).contains(x) ==> s.contains(x) || x == c,
{
    if s.len() < max_size {
        lemma_insert_ranked(s, c);
    } else if nearer(c, s.last()) {
        let d = s.drop_last();
        assert(nearest_first(d));
        lemma_insert_ranked(d, c);
        assert forall|x: (Distance, usize)| #[trigger]
            keep_nearest(s, c, max_size).contains(x) implies s.contains(x) || x == c by {
            if x != c {
                let i = choose|i: int| 0 <= i < d.len() && d[i] == x;
                assert(s[i] == x);
            }
        }
    }
}

/// What is kept after the candidates of `pushed` were offered one after the other.
pub open spec fn kept(pushed: Seq<(Distance, usize)>, max_size: nat) -> Seq<(Distance, usize)>
    decreases pushed.len(),
{
    if pushed.len() == 0 {
        Seq::empty()
    } else {
        keep_nearest(kept(pushed.drop_last(), max_size), pushed.last(), max_size)
    }
}

/// Whatever is pushed, and in whatever order, the collection keeps exactly the nearest
/// candidates of all that were pushed, as many as it may.
pub proof fn law_heap_keeps_nearest(pushed: Seq<(Distance, usize)>, max_size: nat)
    requires
        max_size > 0,
    ensures
        nearest_first(ranked(pushed)),
        ranked(pushed).to_multiset() == pushed.to_multiset(),
        kept(pushed, max_size) == ranked(pushed).take(
            if pushed.len() < max_size {
                pushed.len() as int
            } else {
                max_size as int
            },
        ),
    decreases pushed.len(),
{
    lemma_ranked(pushed);
    if pushed.len() == 0 {
        assert(kept(pushed, max_size) =~= ranked(pushed).take(0));
    } else {
        let rest = pushed.drop_last();
        let c = pushed.last();
        law_heap_keeps_nearest(rest, max_size);
        let s = ranked(rest);
        let m = max_size as int;
        lemma_rank(s, c);
        let p = rank(s, c);
        if rest.len() < max_size {
            assert(s.take(rest.len() as int) =~= s);
            assert(kept(pushed, max_size) =~= ranked(pushed).take(pushed.len() as int));
        } else {
            let t = s.take(m);
            assert(kept(rest, max_size) == t);
            if p < m {
                assert(nearer(c, s[m - 1]));
                lemma_rank_at(t.drop_last(), c, p);
                assert(kept(pushed, max_size) =~= ranked(pushed).take(m));
            } else {
                assert(!nearer(c, s[m - 1]));
                assert(kept(pushed, max_size) =~= ranked(pushed).take(m));
            }
        }
    }
}

} // verus!
