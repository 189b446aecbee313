//! A sorted draining iterator over a [`TopSet`], and a trait that reduces
//! any vector straight into one.

use core::cmp::Ordering;

use crate::callable;
use crate::implements;
use crate::is_selection;
use crate::ranked_by;
use crate::TopSet;
use vstd::prelude::*;
use vstd::std_specs::cmp::PartialOrdSpec;

verus! {

/// Drains a [`TopSet`] in ascending order: each call of [`Self::next`] pops
/// the worst remaining item, so the items come out from the worst survivor
/// up to the best.  Once drained, the source is empty and stays so.
pub struct IntoIterSorted<X, C>(TopSet<X, C>) where C: Fn(&X, &X) -> bool;

impl<X, C> IntoIterSorted<X, C> where C: Fn(&X, &X) -> bool {
    /// The container still to be drained.
    pub closed spec fn inner(self) -> TopSet<X, C> {
        self.0
    }

    /// Well-formedness, inherited from the wrapped container.
    pub open spec fn wf(self) -> bool {
        self.inner().wf()
    }

    /// Wraps a container for sorted draining.
    pub(crate) fn from_topset(top: TopSet<X, C>) -> (r: Self)
        ensures
            r.inner() == top,
    {
        IntoIterSorted(top)
    }

    /// Read access to the item the next call of [`Self::next`] will yield.
    pub fn peek(&mut self) -> (r: Option<&X>)
        requires
            old(self).wf(),
        ensures
            *final(self) == *old(self),
            match r {
                None => old(self).inner().peek_spec() is None,
                Some(v) => old(self).inner().peek_spec() == Some(*v),
            },
    {
        self.0.peek()
    }

    /// Pops the worst remaining item, or `None` once drained.
    pub fn next(&mut self) -> (r: Option<X>)
        requires
            old(self).wf(),
        ensures
            final(self).wf(),
            final(self).inner().duel() == old(self).inner().duel(),
            final(self).inner().cap() == old(self).inner().cap(),
            old(self).inner().items().len() == 0 ==> r is None && final(self).inner().items()
                == old(self).inner().items(),
            old(self).inner().items().len() > 0 ==> {
                &&& r == Some(old(self).inner().items()[0])
                &&& final(self).inner().items().len() == old(self).inner().items().len() - 1
                &&& final(self).inner().contents() == old(self).inner().contents().remove(
                    old(self).inner().items()[0],
                )
            },
            forall|rel: spec_fn(X, X) -> bool|
                #[trigger] ranked_by(old(self).inner().duel(), rel) && old(
                    self,
                ).inner().items().len() > 0 ==> forall|y: X|
                    old(self).inner().contents().count(y) > 0 ==> !rel(
                        old(self).inner().items()[0],
                        y,
                    ),
    {
        self.0.pop()
    }

    /// How many items are still to come.
    pub fn len(&self) -> (r: usize)
        ensures
            r == self.inner().items().len(),
    {
        self.0.len()
    }

    /// How many items are still to come; consumes the iterator.
    pub fn count(self) -> (r: usize)
        ensures
            r == self.inner().items().len(),
    {
        self.0.len()
    }

    /// Lower and upper bound on the remaining items; both are exact.
    pub fn size_hint(&self) -> (r: (usize, Option<usize>))
        ensures
            r.0 == self.inner().items().len(),
            r.1 == Some(r.0),
    {
        (self.0.len(), Some(self.0.len()))
    }

    /// The item the very last call of [`Self::next`] would yield: the best
    /// retained item, found by a single linear scan.
    pub fn last(self) -> (r: Option<X>)
        requires
            self.wf(),
        ensures
            (r is Some) == (self.inner().items().len() > 0),
            r is Some ==> self.inner().contents().count(r->Some_0) > 0,
            forall|rel: spec_fn(X, X) -> bool|
                #[trigger] ranked_by(self.inner().duel(), rel) && r is Some ==> forall|y: X|
                    self.inner().contents().count(y) > 0 ==> !rel(y, r->Some_0),
    {
        broadcast use vstd::seq_lib::group_to_multiset_ensures;

        let ghost c = self.inner().duel();
        let ghost stored = self.inner().items();
        let mut top = self.0;
        if top.heap.len() == 0 {
            return None;
        }
        let mut best: usize = 0;
        let mut i: usize = 1;
        while i < top.heap.len()
            invariant
                callable(c),
                top.duel() == c,
                top.items() == stored,
                best < i <= stored.len(),
                forall|rel: spec_fn(X, X) -> bool|
                    #[trigger] ranked_by(c, rel) ==> forall|j: int|
                        0 <= j < i ==> !rel(stored[j], stored[best as int]),
            decreases stored.len() - i,
        {
            let keep = top.beat(&top.heap[best], &top.heap[i]);
            proof {
                assert forall|rel: spec_fn(X, X) -> bool|
                    #[trigger] ranked_by(c, rel) implies forall|j: int|
                    0 <= j < i + 1 ==> !rel(
                        #[trigger] stored[j],
                        stored[(if keep { best as int } else { i as int })],
                    ) by {
                    if keep {
                        assert(rel(stored[best as int], stored[i as int]));
                        crate::heap::lemma_rel_asymmetric(
                            rel,
                            stored[best as int],
                            stored[i as int],
                        );
                    } else {
                        assert(!rel(stored[best as int], stored[i as int]));
                        assert forall|j: int| 0 <= j < i + 1 implies !rel(
                            stored[j],
                            stored[i as int],
                        ) by {
                            if j < i {
                                assert(!rel(stored[j], stored[best as int]));
                            }
                        }
                    }
                }
            }
            if !keep {
                best = i;
            }
            i = i + 1;
        }
        let winner = top.heap.swap_remove(best);
        proof {
            assert(stored.contains(stored[best as int]));
            assert forall|rel: spec_fn(X, X) -> bool| #[trigger] ranked_by(c, rel) implies forall|
                y: X,
            |
                stored.to_multiset().count(y) > 0 ==> !rel(y, winner) by {
                assert forall|y: X| stored.to_multiset().count(y) > 0 implies !rel(y, winner) by {
                    assert(stored.contains(y));
                    let j = choose|j: int| 0 <= j < stored.len() && stored[j] == y;
                    assert(!rel(stored[j], stored[best as int]));
                }
            }
        }
        Some(winner)
    }
}

impl<X, C> From<TopSet<X, C>> for IntoIterSorted<X, C> where C: Fn(&X, &X) -> bool {
    /// Wraps a container for sorted draining.
    fn from(topset: TopSet<X, C>) -> (r: Self)
        ensures
            r.inner() == topset,
    {
        IntoIterSorted(topset)
    }
}

impl<X, C> vstd::std_specs::convert::FromSpecImpl<TopSet<X, C>> for IntoIterSorted<X, C> where C: Fn(&X, &X) -> bool {
    open spec fn obeys_from_spec() -> bool {
        true
    }

    closed spec fn from_spec(t: TopSet<X, C>) -> Self {
        IntoIterSorted(t)
    }
}

/// Reduces a finite collection into a [`TopSet`]: fold every item through
/// insertion and keep the `n` best.
pub trait TopSetReducing: Sized {
    type Item;

    /// The sequence of items the collection holds.
    spec fn to_seq(self) -> Seq<Self::Item>;

    /// Builds the selection of the `n` best items of this collection,
    /// ranked by the duel `beat`.
    fn topset<C: Fn(&Self::Item, &Self::Item) -> bool>(self, n: usize, beat: C) -> (r: TopSet<
        Self::Item,
        C,
    >)
        requires
            callable(beat),
        ensures
            r.wf(),
            r.duel() == beat,
            r.cap() == n,
            r.items().len() == if self.to_seq().len() <= n {
                self.to_seq().len()
            } else {
                n as nat
            },
            r.contents().subset_of(self.to_seq().to_multiset()),
            forall|rel: spec_fn(Self::Item, Self::Item) -> bool|
                #[trigger] ranked_by(beat, rel) ==> is_selection(
                    rel,
                    self.to_seq().to_multiset(),
                    r.contents(),
                    n as nat,
                ),
    ;
}

impl<X> TopSetReducing for Vec<X> {
    type Item = X;

    open spec fn to_seq(self) -> Seq<X> {
        self@
    }

    fn topset<C: Fn(&X, &X) -> bool>(self, n: usize, beat: C) -> (r: TopSet<X, C>) {
        TopSet::with_init(n, beat, self)
    }
}

/// Builds the selection of the `n` greatest items of a vector, ranked by
/// the natural order of the item type.
pub fn topset_greatest<X: PartialOrd>(items: Vec<X>, n: usize) -> (r: TopSet<
    X,
    impl Fn(&X, &X) -> bool,
>)
    ensures
        r.wf(),
        r.cap() == n,
        r.items().len() == if items@.len() <= n {
            items@.len()
        } else {
            n as nat
        },
        r.contents().subset_of(items@.to_multiset()),
        forall|rel: spec_fn(X, X) -> bool|
            #[trigger] ranked_by(r.duel(), rel) ==> is_selection(
                rel,
                items@.to_multiset(),
                r.contents(),
                n as nat,
            ),
        X::obeys_partial_cmp_spec() ==> implements(
            r.duel(),
            (|a: X, b: X| a.partial_cmp_spec(&b) == Some(Ordering::Greater)),
        ),
{
    items.topset(
        n,
        |a: &X, b: &X| -> (w: bool)
            ensures
                X::obeys_partial_cmp_spec() ==> w == (a.partial_cmp_spec(b)
                    == Some(Ordering::Greater)),
            {
                a.gt(b)
            })
}

/// Builds the selection of the `n` lowest items of a vector, ranked by the
/// natural order of the item type.
pub fn topset_lowest<X: PartialOrd>(items: Vec<X>, n: usize) -> (r: TopSet<
    X,
    impl Fn(&X, &X) -> bool,
>)
    ensures
        r.wf(),
        r.cap() == n,
        r.items().len() == if items@.len() <= n {
            items@.len()
        } else {
            n as nat
        },
        r.contents().subset_of(items@.to_multiset()),
        forall|rel: spec_fn(X, X) -> bool|
            #[trigger] ranked_by(r.duel(), rel) ==> is_selection(
                rel,
                items@.to_multiset(),
                r.contents(),
                n as nat,
            ),
        X::obeys_partial_cmp_spec() ==> implements(
            r.duel(),
            (|a: X, b: X| a.partial_cmp_spec(&b) == Some(Ordering::Less)),
        ),
{
    items.topset(
        n,
        |a: &X, b: &X| -> (w: bool)
            ensures
                X::obeys_partial_cmp_spec() ==> w == (a.partial_cmp_spec(b)
                    == Some(Ordering::Less)),
            {
                a.lt(b)
            })
}

} // verus!
