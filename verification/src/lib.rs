//! A bounded selection container: it keeps the `n` best items of a stream,
//! where "best" is decided by a caller-supplied duel function.
//!
//! The container is backed by a dense binary heap whose root holds the
//! *worst* surviving item, so the cheapest item to evict is found in
//! constant time and replaced in logarithmic time.

use vstd::multiset::Multiset;
use vstd::prelude::*;
use vstd::relations::irreflexive;
use vstd::relations::transitive;

verus! {

/// A bounded set that retains the best items seen so far.
///
/// The duel function `beat` decides which of two items should be kept in
/// preference to the other: `beat(a, b)` returns `true` when `a` wins the
/// duel and deserves the place of `b`.  All ranking guarantees are stated
/// for duels that behave as a consistent strict order (see [`ranked_by`]);
/// an inconsistent duel never corrupts the container, it only makes the
/// selection arbitrary.
#[derive(Clone)]
pub struct TopSet<X, C> where C: Fn(&X, &X) -> bool {
    heap: Vec<X>,
    count: usize,
    beat: C,
}

/// The duel can be called on any pair of items.
pub open spec fn callable<X, C: Fn(&X, &X) -> bool>(c: C) -> bool {
    forall|a: &X, b: &X| #[trigger] call_requires(c, (a, b))
}

/// The duel `c` computes the pure relation `rel`: it can be called on any
/// pair, and every answer it can give agrees with `rel(a, b)`, which says
/// whether `a` wins the duel against `b`.
pub open spec fn implements<X, C: Fn(&X, &X) -> bool>(c: C, rel: spec_fn(X, X) -> bool) -> bool {
    &&& callable(c)
    &&& forall|a: &X, b: &X, r: bool| #[trigger] call_ensures(c, (a, b), r) ==> r == rel(*a, *b)
}

/// Not winning carries over: whoever fails to beat somebody also fails to
/// beat anybody that somebody fails to beat.  Together with transitivity
/// this makes "does not beat" a total preorder.
pub open spec fn neg_transitive<X>(rel: spec_fn(X, X) -> bool) -> bool {
    forall|a: X, b: X, d: X| !#[trigger] rel(a, b) && !#[trigger] rel(b, d) ==> !rel(a, d)
}

/// A consistent strict order, as a duel relation must behave for the
/// ranking of the container to be meaningful.
pub open spec fn strict_order<X>(rel: spec_fn(X, X) -> bool) -> bool {
    &&& irreflexive(rel)
    &&& transitive(rel)
    &&& neg_transitive(rel)
}

/// The duel behaves as the consistent strict order `rel`.  This is the
/// hypothesis under which every ranking guarantee of the container holds.
pub open spec fn ranked_by<X, C: Fn(&X, &X) -> bool>(c: C, rel: spec_fn(X, X) -> bool) -> bool {
    &&& implements(c, rel)
    &&& strict_order(rel)
}

/// `kept` is a valid selection of the best `cap` items of `input` under
/// `rel`: it is drawn from `input`, it is as large as capacity and supply
/// allow, and no discarded item beats a kept one.  Ties at the boundary
/// leave several valid selections; the container realises one of them.
pub open spec fn is_selection<X>(
    rel: spec_fn(X, X) -> bool,
    input: Multiset<X>,
    kept: Multiset<X>,
    cap: nat,
) -> bool {
    &&& kept.subset_of(input)
    &&& kept.len() == if input.len() <= cap {
        input.len()
    } else {
        cap
    }
    &&& forall|d: X, k: X|
        #[trigger] input.sub(kept).count(d) > 0 && #[trigger] kept.count(k) > 0 ==> !rel(d, k)
}

/// The sequence is ascending under `rel`: no item beats a later one, so it
/// runs from the worst item up to the best.
pub open spec fn ascending<X>(rel: spec_fn(X, X) -> bool, s: Seq<X>) -> bool {
    forall|i: int, j: int| 0 <= i < j < s.len() ==> !rel(#[trigger] s[i], #[trigger] s[j])
}

/// The shape invariant of the backing array: no parent wins against one of
/// its children, so the worse an item, the closer to the root it sits, and
/// the root is the worst item of all.
pub open spec fn heap_ordered<X>(rel: spec_fn(X, X) -> bool, s: Seq<X>) -> bool {
    forall|i: int| 1 <= i < s.len() ==> !rel(s[(i - 1) / 2], #[trigger] s[i])
}

impl<X, C> TopSet<X, C> where C: Fn(&X, &X) -> bool {
    /// The stored items, in heap order.
    pub closed spec fn items(self) -> Seq<X> {
        self.heap@
    }

    /// The capacity: the greatest number of items ever retained.
    pub closed spec fn cap(self) -> nat {
        self.count as nat
    }

    /// The duel function owned by the container.
    pub closed spec fn duel(self) -> C {
        self.beat
    }

    /// The stored items as a multiset.
    pub open spec fn contents(self) -> Multiset<X> {
        self.items().to_multiset()
    }

    /// What peeking returns: the worst retained item, if any.  Peeking does
    /// not mutate, so between two mutations every peek returns this value.
    pub open spec fn peek_spec(self) -> Option<X> {
        if self.items().len() == 0 {
            None
        } else {
            Some(self.items()[0])
        }
    }

    /// Well-formedness: the container never holds more than `cap()` items,
    /// its duel can always be called, and — for whatever consistent strict
    /// order the duel computes — the backing array is heap ordered.
    pub open spec fn wf(self) -> bool {
        &&& self.items().len() <= self.cap()
        &&& callable(self.duel())
        &&& forall|rel: spec_fn(X, X) -> bool|
            #[trigger] ranked_by(self.duel(), rel) ==> heap_ordered(rel, self.items())
    }
}

} // verus!

mod heap;
pub mod iter;

pub use heap::lemma_peek_idempotent;
pub use heap::lemma_pop_ascending;
pub use heap::lemma_rel_asymmetric;
pub use heap::lemma_root_is_worst;
pub use heap::lemma_root_is_worst_of_contents;
pub use iter::topset_greatest;
pub use iter::topset_lowest;
pub use iter::IntoIterSorted;
pub use iter::TopSetReducing;
