//! The heap operations of [`TopSet`].

use crate::ascending;
use crate::callable;
use crate::heap_ordered;
use crate::implements;
use crate::is_selection;
use crate::ranked_by;
use crate::strict_order;
use crate::TopSet;
use vstd::multiset::Multiset;
use vstd::prelude::*;
use vstd::seq_lib::group_to_multiset_ensures;

verus! {

/// A strict order is asymmetric: nobody beats a winner back.
pub proof fn lemma_rel_asymmetric<X>(rel: spec_fn(X, X) -> bool, a: X, b: X)
    requires
        strict_order(rel),
        rel(a, b),
    ensures
        !rel(b, a),
{
    if rel(b, a) {
        assert(rel(a, a));
    }
}

/// In a heap-ordered array the root does not beat any stored item: it is
/// the worst of them all.
pub proof fn lemma_root_is_worst<X>(rel: spec_fn(X, X) -> bool, s: Seq<X>, i: int)
    requires
        strict_order(rel),
        heap_ordered(rel, s),
        0 <= i < s.len(),
    ensures
        !rel(s[0], s[i]),
    decreases i,
{
    if i > 0 {
        let p = (i - 1) / 2;
        lemma_root_is_worst(rel, s, p);
        assert(!rel(s[p], s[i]));
    }
}

/// In a heap-ordered array the root does not beat any stored item, stated
/// over the multiset of contents.
pub proof fn lemma_root_is_worst_of_contents<X>(rel: spec_fn(X, X) -> bool, s: Seq<X>)
    requires
        strict_order(rel),
        heap_ordered(rel, s),
        s.len() > 0,
    ensures
        forall|y: X| s.to_multiset().count(y) > 0 ==> !rel(s[0], y),
{
    broadcast use group_to_multiset_ensures;

    assert forall|y: X| s.to_multiset().count(y) > 0 implies !rel(s[0], y) by {
        assert(s.contains(y));
        let j = choose|j: int| 0 <= j < s.len() && s[j] == y;
        lemma_root_is_worst(rel, s, j);
    }
}

/// Popping yields an ascending sequence: a popped item beats nothing that
/// was still stored at the time, in particular not the item any later pop
/// returns.
pub proof fn lemma_pop_ascending<X>(rel: spec_fn(X, X) -> bool, stored: Multiset<X>, x: X, y: X)
    requires
        forall|z: X| stored.count(z) > 0 ==> !rel(x, z),
        stored.remove(x).count(y) > 0,
    ensures
        !rel(x, y),
{
    broadcast use vstd::multiset::group_multiset_axioms;

    assert(stored.count(y) > 0);
}

/// Peeking is a pure query: its result is a function of the container
/// alone, so any number of peeks without a mutation in between all return
/// the same item.
pub proof fn lemma_peek_idempotent<X, C: Fn(&X, &X) -> bool>(
    t: TopSet<X, C>,
    first: Option<X>,
    second: Option<X>,
)
    requires
        first == t.peek_spec(),
        second == t.peek_spec(),
    ensures
        first == second,
{
}

/// A sub-multiset of the same size is the whole multiset.
proof fn lemma_subset_same_len<T>(a: Multiset<T>, b: Multiset<T>)
    requires
        a.subset_of(b),
        a.len() == b.len(),
    ensures
        a == b,
{
    broadcast use vstd::multiset::group_multiset_axioms;

    let d = b.sub(a);
    assert(b =~= a.add(d));
    assert(d.len() == 0);
    vstd::multiset::lemma_multiset_empty_len(d);
    assert(a =~= b);
}

/// Inserting below capacity extends a valid selection by the new item.
proof fn lemma_selection_grow<X>(
    rel: spec_fn(X, X) -> bool,
    input: Multiset<X>,
    kept: Multiset<X>,
    cap: nat,
    x: X,
)
    requires
        is_selection(rel, input, kept, cap),
        kept.len() < cap,
    ensures
        is_selection(rel, input.insert(x), kept.insert(x), cap),
{
    broadcast use vstd::multiset::group_multiset_axioms;

    lemma_subset_same_len(kept, input);
    assert(input.insert(x).sub(kept.insert(x)) =~= Multiset::<X>::empty());
}

/// Turning a candidate away that beats no kept item keeps the selection
/// valid for the grown input.
proof fn lemma_selection_reject<X>(
    rel: spec_fn(X, X) -> bool,
    input: Multiset<X>,
    kept: Multiset<X>,
    cap: nat,
    x: X,
)
    requires
        is_selection(rel, input, kept, cap),
        kept.len() == cap,
        forall|y: X| kept.count(y) > 0 ==> !rel(x, y),
    ensures
        is_selection(rel, input.insert(x), kept, cap),
{
    broadcast use vstd::multiset::group_multiset_axioms;

    assert forall|d: X, k: X|
        #[trigger] input.insert(x).sub(kept).count(d) > 0 && #[trigger] kept.count(k)
            > 0 implies !rel(d, k) by {
        if d == x {
            assert(!rel(x, k));
        } else {
            assert(input.sub(kept).count(d) > 0);
        }
    }
}

/// Replacing the worst kept item by a candidate that beats it keeps the
/// selection valid for the grown input.
proof fn lemma_selection_evict<X>(
    rel: spec_fn(X, X) -> bool,
    input: Multiset<X>,
    kept: Multiset<X>,
    cap: nat,
    x: X,
    w: X,
)
    requires
        strict_order(rel),
        is_selection(rel, input, kept, cap),
        kept.len() == cap,
        kept.count(w) > 0,
        rel(x, w),
        forall|y: X| kept.count(y) > 0 ==> !rel(w, y),
    ensures
        is_selection(rel, input.insert(x), kept.remove(w).insert(x), cap),
{
    broadcast use vstd::multiset::group_multiset_axioms;

    let input2 = input.insert(x);
    let kept2 = kept.remove(w).insert(x);
    lemma_rel_asymmetric(rel, x, w);
    assert(kept2.len() == cap);
    assert(kept2.subset_of(input2));
    assert(input2.sub(kept2) =~= input.sub(kept).insert(w));
    assert forall|d: X, k: X|
        #[trigger] input2.sub(kept2).count(d) > 0 && #[trigger] kept2.count(k) > 0 implies !rel(
        d,
        k,
    ) by {
        if d == w && input.sub(kept).count(d) == 0 {
            // the displaced worst item beats no survivor and not the candidate
            if k != x || kept.remove(w).count(k) > 0 {
                assert(kept.count(k) > 0);
                assert(!rel(w, k));
            } else {
                assert(!rel(w, x));
            }
        } else {
            // an item discarded earlier lost against the old selection, and
            // the candidate only raised the bar
            assert(input.sub(kept).count(d) > 0);
            if k != x || kept.remove(w).count(k) > 0 {
                assert(kept.count(k) > 0);
                assert(!rel(d, k));
            } else {
                assert(!rel(d, w));
                if rel(d, x) {
                    assert(rel(d, w));
                }
            }
        }
    }
}

/// All parent-child edges hold, except possibly the edge that enters `x`.
spec fn sift_up_shape<X>(rel: spec_fn(X, X) -> bool, s: Seq<X>, x: int) -> bool {
    forall|i: int| 1 <= i < s.len() && i != x ==> !rel(s[(i - 1) / 2], #[trigger] s[i])
}

/// The children of `x` lose not only against `x` but already against the
/// parent of `x`; this is what lets `x` trade places with its parent.
spec fn covered_from_above<X>(rel: spec_fn(X, X) -> bool, s: Seq<X>, x: int) -> bool {
    x > 0 ==> forall|i: int|
        1 <= i < s.len() && (i - 1) / 2 == x ==> !rel(s[(x - 1) / 2], #[trigger] s[i])
}

/// All parent-child edges hold, except possibly the edges that leave `x`
/// towards its children.
spec fn sift_down_shape<X>(rel: spec_fn(X, X) -> bool, s: Seq<X>, x: int) -> bool {
    forall|i: int| 1 <= i < s.len() && (i - 1) / 2 != x ==> !rel(s[(i - 1) / 2], #[trigger] s[i])
}

/// Exchanges the elements at positions `i` and `j`.
fn seq_swap<T>(v: &mut Vec<T>, i: usize, j: usize)
    requires
        i < old(v)@.len(),
        j < old(v)@.len(),
    ensures
        final(v)@ == old(v)@.update(i as int, old(v)@[j as int]).update(j as int, old(v)@[i as int]),
        final(v)@.to_multiset() == old(v)@.to_multiset(),
{
    if i == j {
        proof {
            assert(v@ =~= v@.update(i as int, v@[j as int]).update(j as int, v@[i as int]));
        }
        return;
    }
    let ghost orig = v@;
    let (lo, hi) = if i < j { (i, j) } else { (j, i) };
    let s = v.as_mut_slice();
    let (front, back) = s.split_at_mut(hi);
    let (_, tail) = front.split_at_mut(lo);
    let x = tail.first_mut().unwrap();
    let y = back.first_mut().unwrap();
    core::mem::swap(x, y);
    proof {
        assert(v@ =~= orig.update(i as int, orig[j as int]).update(j as int, orig[i as int]));
        lemma_swap_preserves_multiset(orig, i as int, j as int);
    }
}

/// Removing the first element by swapping the last one into its place
/// removes exactly one occurrence of the first element from the multiset.
proof fn lemma_swap_remove_first_contents<T>(s: Seq<T>)
    requires
        s.len() > 0,
    ensures
        s.update(0, s.last()).drop_last().to_multiset() == s.to_multiset().remove(s[0]),
{
    broadcast use group_to_multiset_ensures;

    let n = s.len() as int;
    let u = s.update(0, s.last());
    assert(s.contains(s[0]));
    assert(u.drop_last() =~= u.remove(n - 1));
    assert(u.to_multiset() == s.to_multiset().insert(s.last()).remove(s[0]));
    assert(u.remove(n - 1).to_multiset() == u.to_multiset().remove(u[n - 1]));
    assert(u[n - 1] == s.last());
    assert(u.drop_last().to_multiset() =~= s.to_multiset().remove(s[0]));
}

/// Swapping two positions of a sequence does not change its multiset.
proof fn lemma_swap_preserves_multiset<T>(s: Seq<T>, i: int, j: int)
    requires
        0 <= i < s.len(),
        0 <= j < s.len(),
        i != j,
    ensures
        s.update(i, s[j]).update(j, s[i]).to_multiset() == s.to_multiset(),
{
    broadcast use group_to_multiset_ensures;

    let s1 = s.update(i, s[j]);
    let s2 = s1.update(j, s[i]);
    assert(s.contains(s[i]));
    assert(s1.contains(s1[j]));
    assert(s1[j] == s[j]);
    assert(s1.to_multiset() == s.to_multiset().insert(s[j]).remove(s[i]));
    assert(s2.to_multiset() == s1.to_multiset().insert(s[i]).remove(s[j]));
    assert(s2.to_multiset() =~= s.to_multiset());
}

/// One exchange of a sift-up walk keeps its working invariant: if the item
/// at `x` wins against its parent, swapping the two moves the broken edge
/// one level up.
proof fn lemma_sift_up_step<X>(rel: spec_fn(X, X) -> bool, s: Seq<X>, x: int)
    requires
        strict_order(rel),
        1 <= x < s.len(),
        sift_up_shape(rel, s, x),
        covered_from_above(rel, s, x),
        rel(s[(x - 1) / 2], s[x]),
    ensures
        sift_up_shape(rel, s.update((x - 1) / 2, s[x]).update(x, s[(x - 1) / 2]), (x - 1) / 2),
        covered_from_above(
            rel,
            s.update((x - 1) / 2, s[x]).update(x, s[(x - 1) / 2]),
            (x - 1) / 2,
        ),
{
    let p = (x - 1) / 2;
    let t = s.update(p, s[x]).update(x, s[p]);
    assert(0 <= p < x);
    assert(t.len() == s.len());
    assert forall|k: int| 1 <= k < t.len() && k != p implies !rel(t[(k - 1) / 2], #[trigger] t[k]) by {
        let q = (k - 1) / 2;
        if k == x {
            // the swapped pair itself: the old parent may not win back
            lemma_rel_asymmetric(rel, s[p], s[x]);
        } else if q == p {
            // a sibling of x: its new parent s[x] won against the old one
            assert(!rel(s[p], s[k]));
            if rel(s[x], s[k]) {
                assert(rel(s[p], s[k]));
            }
        } else if q == x {
            // a child of x: covered by the grandparent, which now sits at x
            assert(covered_from_above(rel, s, x));
            assert(!rel(s[p], s[k]));
        } else {
            // an edge away from both swapped positions is untouched
            assert(t[q] == s[q] && t[k] == s[k]);
            assert(sift_up_shape(rel, s, x));
            assert(!rel(s[q], s[k]));
        }
    }
    if p > 0 {
        let g = (p - 1) / 2;
        assert(0 <= g < p);
        assert forall|k: int| 1 <= k < t.len() && (k - 1) / 2 == p implies !rel(
            t[g],
            #[trigger] t[k],
        ) by {
            assert(t[g] == s[g]);
            assert(!rel(s[g], s[p]));
            if k == x {
                assert(t[k] == s[p]);
            } else {
                assert(t[k] == s[k]);
                assert(!rel(s[p], s[k]));
                assert(!rel(s[g], s[k]));
            }
        }
    }
}

/// One exchange of a sift-down walk keeps its working invariant: if the
/// item at `x` wins against its worse child `ch`, swapping the two moves
/// the broken edges one level down.
proof fn lemma_sift_down_step<X>(rel: spec_fn(X, X) -> bool, s: Seq<X>, x: int, ch: int)
    requires
        strict_order(rel),
        0 <= x < s.len(),
        ch == 2 * x + 1 || ch == 2 * x + 2,
        ch < s.len(),
        sift_down_shape(rel, s, x),
        covered_from_above(rel, s, x),
        forall|k: int| 1 <= k < s.len() && (k - 1) / 2 == x && k != ch ==> !rel(s[ch], #[trigger] s[k]),
        rel(s[x], s[ch]),
    ensures
        sift_down_shape(rel, s.update(x, s[ch]).update(ch, s[x]), ch),
        covered_from_above(rel, s.update(x, s[ch]).update(ch, s[x]), ch),
{
    let t = s.update(x, s[ch]).update(ch, s[x]);
    assert((ch - 1) / 2 == x);
    assert forall|k: int| 1 <= k < t.len() && (k - 1) / 2 != ch implies !rel(
        t[(k - 1) / 2],
        #[trigger] t[k],
    ) by {
        let q = (k - 1) / 2;
        if k == ch {
            // the swapped pair itself: the old parent may not win back
            lemma_rel_asymmetric(rel, s[x], s[ch]);
        } else if q == x {
            // a sibling of ch: it already held its own against ch
            assert(!rel(s[ch], s[k]));
        } else if k == x {
            // the edge entering x: the grandparent covered the children of x
            assert(covered_from_above(rel, s, x));
            assert(!rel(s[q], s[ch]));
        } else {
            // an edge away from both swapped positions is untouched
            assert(t[q] == s[q] && t[k] == s[k]);
            assert(sift_down_shape(rel, s, x));
            assert(!rel(s[q], s[k]));
        }
    }
    assert forall|k: int| 1 <= k < t.len() && (k - 1) / 2 == ch implies !rel(
        t[(ch - 1) / 2],
        #[trigger] t[k],
    ) by {
        assert(ch < k);
        assert(t[k] == s[k]);
        assert(!rel(s[ch], s[k]));
    }
}

impl<X, C> TopSet<X, C> where C: Fn(&X, &X) -> bool {
    /// Creates an empty container that will retain at most `n` items,
    /// ranked by the duel function `beat`.
    pub fn new(n: usize, beat: C) -> (r: Self)
        requires
            callable(beat),
        ensures
            r.wf(),
            r.duel() == beat,
            r.cap() == n,
            r.items() == Seq::<X>::empty(),
    {
        Self { heap: Vec::with_capacity(n), count: n, beat }
    }

    /// Creates a container of capacity `n` and inserts every item of `init`
    /// in order, with the usual eviction policy: when `init` holds more than
    /// `n` items, only a best-`n` selection of them survives.
    pub fn with_init(n: usize, beat: C, init: Vec<X>) -> (r: Self)
        requires
            callable(beat),
        ensures
            r.wf(),
            r.duel() == beat,
            r.cap() == n,
            r.items().len() == if init@.len() <= n {
                init@.len()
            } else {
                n as nat
            },
            r.contents().subset_of(init@.to_multiset()),
            forall|rel: spec_fn(X, X) -> bool|
                #[trigger] ranked_by(beat, rel) ==> is_selection(
                    rel,
                    init@.to_multiset(),
                    r.contents(),
                    n as nat,
                ),
    {
        let ghost init_seq = init@;
        let mut top = Self::new(n, beat);
        top.extend(init);
        proof {
            broadcast use group_to_multiset_ensures;
            broadcast use vstd::multiset::group_multiset_axioms;

            vstd::seq_lib::to_multiset_len::<X>(Seq::<X>::empty());
            vstd::multiset::lemma_multiset_empty_len(Seq::<X>::empty().to_multiset());
            assert(Seq::<X>::empty().to_multiset() =~= Multiset::<X>::empty());
            assert(Multiset::<X>::empty().add(init_seq.to_multiset()) =~= init_seq.to_multiset());
            assert forall|rel: spec_fn(X, X) -> bool| #[trigger] ranked_by(beat, rel) implies is_selection(
                rel,
                init_seq.to_multiset(),
                top.contents(),
                n as nat,
            ) by {
                let none_yet = Multiset::<X>::empty();
                assert(is_selection(rel, none_yet, none_yet, n as nat));
            }
        }
        top
    }

    /// Lets two items duel.  The result depends only on the duel function,
    /// never on the stored items.
    pub fn beat(&self, a: &X, b: &X) -> (r: bool)
        requires
            callable(self.duel()),
        ensures
            call_ensures(self.duel(), (a, b), r),
            forall|rel: spec_fn(X, X) -> bool|
                #[trigger] implements(self.duel(), rel) ==> r == rel(*a, *b),
    {
        (self.beat)(a, b)
    }

    /// Checks if the container holds no items.
    pub fn is_empty(&self) -> (r: bool)
        ensures
            r == (self.items().len() == 0),
    {
        self.heap.is_empty()
    }

    /// The number of stored items; it never exceeds the capacity.
    pub fn len(&self) -> (r: usize)
        ensures
            r == self.items().len(),
    {
        self.heap.len()
    }

    /// The capacity: how many items the container retains at most.  It only
    /// changes through [`Self::resize`], never by itself.
    pub fn capacity(&self) -> (r: usize)
        ensures
            r == self.cap(),
    {
        self.count
    }

    /// Read access to the worst retained item, the one that every other
    /// stored item beats or ties with.  Returns `None` when empty.
    pub fn peek(&self) -> (r: Option<&X>)
        requires
            self.wf(),
        ensures
            match r {
                None => self.peek_spec() is None,
                Some(v) => self.peek_spec() == Some(*v),
            },
            forall|rel: spec_fn(X, X) -> bool|
                #[trigger] ranked_by(self.duel(), rel) && self.items().len() > 0 ==> forall|y: X|
                    self.contents().count(y) > 0 ==> !rel(self.items()[0], y),
    {
        proof {
            assert forall|rel: spec_fn(X, X) -> bool|
                #[trigger] ranked_by(self.duel(), rel) && self.items().len() > 0 implies forall|
                y: X,
            |
                self.contents().count(y) > 0 ==> !rel(self.items()[0], y) by {
                lemma_root_is_worst_of_contents(rel, self.items());
            }
        }
        self.heap.first()
    }

    /// Checks whether inserting `x` now would change the stored contents:
    /// it would whenever there is room left, and otherwise exactly when `x`
    /// beats the current worst item.  With capacity zero nothing is ever
    /// stored, so nothing is ever a candidate.
    pub fn is_candidate(&self, x: &X) -> (r: bool)
        requires
            self.wf(),
        ensures
            self.items().len() < self.cap() ==> r,
            self.cap() == 0 ==> !r,
            forall|rel: spec_fn(X, X) -> bool|
                #[trigger] implements(self.duel(), rel) && self.items().len() == self.cap()
                    && self.cap() > 0 ==> r == rel(*x, self.items()[0]),
    {
        if self.heap.len() < self.count {
            true
        } else if self.count == 0 {
            false
        } else {
            self.beat(x, &self.heap[0])
        }
    }

    /// Inserts every item of `items` in order, with the same eviction policy
    /// as single insertion.
    ///
    /// Whatever valid best-`cap` selection of some earlier input the
    /// container holds, afterwards it holds a valid best-`cap` selection of
    /// that input extended by `items`.
    pub fn extend(&mut self, items: Vec<X>)
        requires
            old(self).wf(),
        ensures
            final(self).wf(),
            final(self).duel() == old(self).duel(),
            final(self).cap() == old(self).cap(),
            final(self).items().len() == if old(self).items().len() + items@.len() <= old(
                self,
            ).cap() {
                old(self).items().len() + items@.len()
            } else {
                old(self).cap()
            },
            final(self).contents().subset_of(old(self).contents().add(items@.to_multiset())),
            forall|rel: spec_fn(X, X) -> bool, prior: Multiset<X>|
                #![trigger ranked_by(old(self).duel(), rel), is_selection(rel, prior, old(self).contents(), old(self).cap())]
                ranked_by(old(self).duel(), rel) && is_selection(
                    rel,
                    prior,
                    old(self).contents(),
                    old(self).cap(),
                ) ==> is_selection(
                    rel,
                    prior.add(items@.to_multiset()),
                    final(self).contents(),
                    old(self).cap(),
                ),
    {
        broadcast use group_to_multiset_ensures;
        broadcast use vstd::multiset::group_multiset_axioms;

        let ghost c = self.duel();
        let ghost cap = self.cap();
        let ghost begin = self.contents();
        let ghost all = items@;
        let mut rest = items;
        proof {
            let z = all.subrange(0, 0);
            assert(z =~= Seq::<X>::empty());
            vstd::multiset::lemma_multiset_empty_len(z.to_multiset());
            assert(z.to_multiset() =~= Multiset::<X>::empty());
            assert(all.subrange(all.len() - rest@.len(), all.len() as int) =~= all);
            assert(begin.add(z.to_multiset()) =~= begin);
            assert forall|rel: spec_fn(X, X) -> bool, prior: Multiset<X>|
                #![trigger ranked_by(c, rel), is_selection(rel, prior, begin, cap)]
                ranked_by(c, rel) && is_selection(rel, prior, begin, cap) implies is_selection(
                rel,
                prior.add(z.to_multiset()),
                begin,
                cap,
            ) by {
                assert(prior.add(z.to_multiset()) =~= prior);
            }
        }
        while rest.len() > 0
            invariant
                self.wf(),
                self.duel() == c,
                self.cap() == cap,
                all.len() >= rest@.len(),
                rest@ == all.subrange(all.len() - rest@.len(), all.len() as int),
                self.items().len() == if begin.len() + all.len() - rest@.len() <= cap {
                    begin.len() + all.len() - rest@.len()
                } else {
                    cap as int
                },
                self.contents().subset_of(
                    begin.add(all.subrange(0, all.len() - rest@.len()).to_multiset()),
                ),
                forall|rel: spec_fn(X, X) -> bool, prior: Multiset<X>|
                    #![trigger ranked_by(c, rel), is_selection(rel, prior, begin, cap)]
                    ranked_by(c, rel) && is_selection(rel, prior, begin, cap) ==> is_selection(
                        rel,
                        prior.add(all.subrange(0, all.len() - rest@.len()).to_multiset()),
                        self.contents(),
                        cap,
                    ),
            decreases rest@.len(),
        {
            let ghost done = all.subrange(0, all.len() - rest@.len());
            let ghost pre = self.contents();
            let ghost pre_items = self.items();
            let ghost before = rest@;
            let x = rest.remove(0);
            proof {
                assert(x == all[all.len() - before.len()]);
                assert(rest@ =~= all.subrange(all.len() - rest@.len(), all.len() as int));
                assert(all.subrange(0, all.len() - rest@.len()) =~= done.push(x));
            }
            let turned_away = self.insert(x);
            proof {
                let done2 = done.push(x);
                vstd::seq_lib::to_multiset_build::<X>(done, x);
                assert(done.push(x).to_multiset() =~= done.to_multiset().insert(x));
                vstd::seq_lib::to_multiset_len::<X>(pre_items);
                assert forall|rel: spec_fn(X, X) -> bool, prior: Multiset<X>|
                    #![trigger ranked_by(c, rel), is_selection(rel, prior, begin, cap)]
                    ranked_by(c, rel) && is_selection(rel, prior, begin, cap) implies is_selection(
                    rel,
                    prior.add(done2.to_multiset()),
                    self.contents(),
                    cap,
                ) by {
                    let input = prior.add(done.to_multiset());
                    let input2 = prior.add(done2.to_multiset());
                    assert(is_selection(rel, input, pre, cap));
                    assert(input2 =~= input.insert(x));
                    if pre_items.len() < cap {
                        lemma_selection_grow(rel, input, pre, cap, x);
                    } else if cap == 0 {
                        lemma_selection_reject(rel, input, pre, cap, x);
                    } else {
                        let worst = pre_items[0];
                        if rel(x, worst) {
                            assert(pre_items.contains(worst));
                            vstd::seq_lib::to_multiset_contains::<X>(pre_items, worst);
                            assert(pre.count(worst) > 0);
                            lemma_selection_evict(rel, input, pre, cap, x, worst);
                        } else {
                            lemma_selection_reject(rel, input, pre, cap, x);
                        }
                    }
                }
                assert forall|v: X|
                    self.contents().count(v) <= begin.add(done2.to_multiset()).count(v) by {
                    assert(pre.count(v) <= begin.add(done.to_multiset()).count(v));
                    if pre_items.len() < cap {
                        assert(self.contents().count(v) == pre.insert(x).count(v));
                    } else {
                        let e = turned_away->Some_0;
                        assert(self.contents().insert(e).count(v) == pre.insert(x).count(v));
                    }
                }
                assert(self.contents().subset_of(begin.add(done2.to_multiset())));
            }
        }
        proof {
            assert(all.subrange(0, all.len() as int) =~= all);
            assert(rest@ =~= Seq::<X>::empty());
        }
    }

    /// Inserts a new item, evicting the worst one if need be.
    ///
    /// While there is room left the item is stored and `None` is returned.
    /// At capacity one item must be turned away: if the candidate beats the
    /// current worst stored item it takes that item's place and the displaced
    /// item is returned; otherwise the candidate itself is returned and the
    /// contents stay untouched.  With capacity zero the candidate always
    /// comes straight back.
    pub fn insert(&mut self, x: X) -> (r: Option<X>)
        requires
            old(self).wf(),
        ensures
            final(self).wf(),
            final(self).duel() == old(self).duel(),
            final(self).cap() == old(self).cap(),
            old(self).items().len() < old(self).cap() ==> {
                &&& r is None
                &&& final(self).items().len() == old(self).items().len() + 1
                &&& final(self).contents() == old(self).contents().insert(x)
            },
            old(self).items().len() == old(self).cap() ==> {
                &&& r is Some
                &&& final(self).items().len() == old(self).items().len()
                &&& final(self).contents().insert(r->Some_0) == old(self).contents().insert(x)
            },
            old(self).cap() == 0 ==> r == Some(x) && final(self).items() == old(self).items(),
            forall|rel: spec_fn(X, X) -> bool|
                #[trigger] ranked_by(old(self).duel(), rel) && old(self).items().len() == old(
                    self,
                ).cap() && old(self).cap() > 0 ==> {
                    let worst = old(self).items()[0];
                    &&& (rel(x, worst) ==> {
                        &&& r == Some(worst)
                        &&& final(self).contents() == old(self).contents().remove(worst).insert(x)
                        &&& forall|y: X| old(self).contents().count(y) > 0 ==> !rel(worst, y)
                        &&& !rel(worst, x)
                        &&& !rel(worst, final(self).items()[0])
                    })
                    &&& (!rel(x, worst) ==> {
                        &&& r == Some(x)
                        &&& final(self).items() == old(self).items()
                        &&& forall|y: X| final(self).contents().count(y) > 0 ==> !rel(x, y)
                    })
                },
    {
        let ghost c = self.duel();
        let ghost pre = self.items();
        if self.heap.len() < self.count {
            // room left, so nothing to remove
            self.heap.push(x);
            proof {
                broadcast use group_to_multiset_ensures;

                assert forall|rel: spec_fn(X, X) -> bool| #[trigger] ranked_by(c, rel) implies {
                    &&& sift_up_shape(rel, self.items(), self.items().len() - 1)
                    &&& covered_from_above(rel, self.items(), self.items().len() - 1)
                } by {
                    let s = self.items();
                    let last = s.len() - 1;
                    assert forall|k: int| 1 <= k < s.len() && k != last implies !rel(
                        s[(k - 1) / 2],
                        #[trigger] s[k],
                    ) by {
                        assert(s[k] == pre[k]);
                        assert(s[(k - 1) / 2] == pre[(k - 1) / 2]);
                        assert(heap_ordered(rel, pre));
                    }
                    assert(covered_from_above(rel, s, last));
                }
                assert(self.contents() =~= pre.to_multiset().insert(x));
            }
            self.percolate_up(self.heap.len() - 1);
            None
        } else {
            if self.count != 0 {
                let won = self.beat(&x, &self.heap[0]);
                if won {
                    // put the candidate at the root and the old root out
                    self.heap.push(x);
                    let last = self.heap.len() - 1;
                    seq_swap(&mut self.heap, 0, last);
                    let evicted = self.heap.pop().unwrap();
                    proof {
                        broadcast use group_to_multiset_ensures;

                        assert(self.items() =~= pre.update(0, x));
                        assert(evicted == pre[0]);
                        assert(pre.contains(pre[0]));
                        assert(self.contents() == pre.to_multiset().insert(x).remove(pre[0]));
                        assert(self.contents() =~= pre.to_multiset().remove(pre[0]).insert(x));
                        assert forall|rel: spec_fn(X, X) -> bool|
                            #[trigger] ranked_by(c, rel) implies {
                            &&& sift_down_shape(rel, self.items(), 0)
                            &&& covered_from_above(rel, self.items(), 0)
                        } by {
                            let s = self.items();
                            assert forall|k: int| 1 <= k < s.len() && (k - 1) / 2 != 0 implies !rel(
                                s[(k - 1) / 2],
                                #[trigger] s[k],
                            ) by {
                                assert(s[k] == pre[k]);
                                assert(s[(k - 1) / 2] == pre[(k - 1) / 2]);
                                assert(heap_ordered(rel, pre));
                            }
                            assert(covered_from_above(rel, s, 0));
                        }
                    }
                    self.percolate_down(0);
                    proof {
                        broadcast use group_to_multiset_ensures;

                        assert(self.contents().insert(pre[0]) =~= pre.to_multiset().insert(x));
                        assert forall|rel: spec_fn(X, X) -> bool|
                            #[trigger] ranked_by(c, rel) implies {
                            &&& rel(x, pre[0])
                            &&& (forall|y: X| pre.to_multiset().count(y) > 0 ==> !rel(pre[0], y))
                            &&& !rel(pre[0], x)
                            &&& !rel(pre[0], self.items()[0])
                        } by {
                            assert(rel(x, pre[0]));
                            lemma_root_is_worst_of_contents(rel, pre);
                            lemma_rel_asymmetric(rel, x, pre[0]);
                            let root = self.items()[0];
                            assert(self.items().contains(root));
                            assert(self.contents().count(root) > 0);
                            if root != x {
                                assert(pre.to_multiset().count(root) > 0);
                            }
                            assert(!rel(pre[0], root));
                        }
                    }
                    Some(evicted)
                } else {
                    proof {
                        broadcast use group_to_multiset_ensures;

                        assert forall|rel: spec_fn(X, X) -> bool|
                            #[trigger] ranked_by(c, rel) implies {
                            &&& !rel(x, pre[0])
                            &&& (forall|y: X| self.contents().count(y) > 0 ==> !rel(x, y))
                        } by {
                            assert(!rel(x, pre[0]));
                            lemma_root_is_worst_of_contents(rel, pre);
                            assert forall|y: X| self.contents().count(y) > 0 implies !rel(x, y) by {
                                assert(!rel(pre[0], y));
                            }
                        }
                    }
                    Some(x)
                }
            } else {
                Some(x)
            }
        }
    }

    /// Changes the capacity to `n`.
    ///
    /// Growing never discards an item, it only makes room for later
    /// insertions.  Shrinking below the current length pops — and thereby
    /// discards — the worst items until only `n` are left, so the best `n`
    /// survive.
    pub fn resize(&mut self, n: usize)
        requires
            old(self).wf(),
        ensures
            final(self).wf(),
            final(self).duel() == old(self).duel(),
            final(self).cap() == n,
            old(self).items().len() <= n ==> final(self).items() == old(self).items(),
            final(self).items().len() == if old(self).items().len() <= n {
                old(self).items().len()
            } else {
                n as nat
            },
            final(self).contents().subset_of(old(self).contents()),
            forall|rel: spec_fn(X, X) -> bool|
                #[trigger] ranked_by(old(self).duel(), rel) ==> forall|d: X, k: X|
                    #[trigger] old(self).contents().sub(final(self).contents()).count(d) > 0
                        && #[trigger] final(self).contents().count(k) > 0 ==> !rel(d, k),
    {
        broadcast use vstd::multiset::group_multiset_axioms;

        let ghost c = self.duel();
        let ghost begin = *self;
        if self.count < n {
            self.heap.reserve(n - self.count);
        } else {
            while self.heap.len() > n
                invariant
                    self.wf(),
                    self.duel() == c,
                    self.cap() == begin.cap(),
                    begin.items().len() <= n ==> self.items() == begin.items(),
                    begin.items().len() > n ==> self.items().len() >= n,
                    self.contents().subset_of(begin.contents()),
                    forall|rel: spec_fn(X, X) -> bool|
                        #[trigger] ranked_by(c, rel) ==> forall|d: X, k: X|
                            #[trigger] begin.contents().sub(self.contents()).count(d) > 0
                                && #[trigger] self.contents().count(k) > 0 ==> !rel(d, k),
                decreases self.items().len(),
            {
                let ghost pre = self.contents();
                let ghost pre_items = self.items();
                let _ = self.pop();
                proof {
                    assert forall|rel: spec_fn(X, X) -> bool|
                        #[trigger] ranked_by(c, rel) implies forall|d: X, k: X|
                        #[trigger] begin.contents().sub(self.contents()).count(d) > 0
                            && #[trigger] self.contents().count(k) > 0 ==> !rel(d, k) by {
                        let w = pre_items[0];
                        assert(self.contents() == pre.remove(w));
                        assert forall|d: X, k: X|
                            #[trigger] begin.contents().sub(self.contents()).count(d) > 0
                                && #[trigger] self.contents().count(k) > 0 implies !rel(d, k) by {
                            assert(pre.count(k) > 0);
                            if begin.contents().sub(pre).count(d) > 0 {
                            } else {
                                assert(d == w);
                            }
                        }
                    }
                }
            }
        }
        self.count = n;
    }

    /// Removes and returns the worst retained item, or `None` when empty.
    /// Repeated popping is the canonical way to obtain the retained items
    /// in ascending order, from the worst survivor up to the best.
    pub fn pop(&mut self) -> (r: Option<X>)
        requires
            old(self).wf(),
        ensures
            final(self).wf(),
            final(self).duel() == old(self).duel(),
            final(self).cap() == old(self).cap(),
            old(self).items().len() == 0 ==> r is None && final(self).items() == old(self).items(),
            old(self).items().len() > 0 ==> {
                &&& r == Some(old(self).items()[0])
                &&& final(self).items().len() == old(self).items().len() - 1
                &&& final(self).contents() == old(self).contents().remove(old(self).items()[0])
            },
            forall|rel: spec_fn(X, X) -> bool|
                #[trigger] ranked_by(old(self).duel(), rel) && old(self).items().len() > 0
                    ==> forall|y: X|
                    old(self).contents().count(y) > 0 ==> !rel(old(self).items()[0], y),
    {
        proof {
            assert forall|rel: spec_fn(X, X) -> bool|
                #[trigger] ranked_by(self.duel(), rel) && self.items().len() > 0 implies forall|
                y: X,
            |
                self.contents().count(y) > 0 ==> !rel(self.items()[0], y) by {
                lemma_root_is_worst_of_contents(rel, self.items());
            }
        }
        if self.heap.len() == 0 {
            None
        } else {
            let ghost c = self.duel();
            let ghost pre = self.items();
            let worst = self.heap.swap_remove(0);
            proof {
                lemma_swap_remove_first_contents(pre);
            }
            if self.heap.len() >= 2 {
                proof {
                    assert forall|rel: spec_fn(X, X) -> bool| #[trigger] ranked_by(c, rel) implies {
                        &&& sift_down_shape(rel, self.items(), 0)
                        &&& covered_from_above(rel, self.items(), 0)
                    } by {
                        let s = self.items();
                        assert forall|k: int| 1 <= k < s.len() && (k - 1) / 2 != 0 implies !rel(
                            s[(k - 1) / 2],
                            #[trigger] s[k],
                        ) by {
                            assert(s[k] == pre[k]);
                            assert(s[(k - 1) / 2] == pre[(k - 1) / 2]);
                            assert(heap_ordered(rel, pre));
                        }
                        assert(covered_from_above(rel, s, 0));
                    }
                }
                self.percolate_down(0);
            } else {
                proof {
                    assert forall|rel: spec_fn(X, X) -> bool|
                        #[trigger] ranked_by(self.duel(), rel) implies heap_ordered(
                        rel,
                        self.items(),
                    ) by {}
                }
            }
            Some(worst)
        }
    }

    /// Removes every stored item; the capacity stays as it is.
    pub fn clear(&mut self)
        ensures
            final(self).duel() == old(self).duel(),
            final(self).cap() == old(self).cap(),
            final(self).items() == Seq::<X>::empty(),
            old(self).wf() ==> final(self).wf(),
    {
        self.heap.clear()
    }

    /// Hands out all retained items as a vector, in internal heap order,
    /// which is not sorted.
    pub fn into_vec(self) -> (r: Vec<X>)
        ensures
            r@ == self.items(),
    {
        self.heap
    }

    /// Read access to all retained items, in internal heap order, which is
    /// not sorted.  A sorted traversal is obtained by repeated [`Self::pop`]
    /// or by [`Self::into_iter_sorted`].
    pub fn iter(&self) -> (r: &Vec<X>)
        ensures
            r@ == self.items(),
    {
        &self.heap
    }

    /// Converts the container into an iterator that drains it in ascending
    /// order: the worst retained item comes first, the best one last.
    pub fn into_iter_sorted(self) -> (r: crate::iter::IntoIterSorted<X, C>)
        ensures
            r.inner() == self,
    {
        crate::iter::IntoIterSorted::from_topset(self)
    }

    /// Consumes the container and returns its items as an ascending vector:
    /// the worst retained item first, the best one last.  This is exactly
    /// what repeated popping yields.
    pub fn into_sorted_vec(self) -> (r: Vec<X>)
        requires
            self.wf(),
        ensures
            r@.len() == self.items().len(),
            r@.to_multiset() == self.contents(),
            forall|rel: spec_fn(X, X) -> bool|
                #[trigger] ranked_by(self.duel(), rel) ==> ascending(rel, r@),
    {
        broadcast use group_to_multiset_ensures;
        broadcast use vstd::multiset::group_multiset_axioms;

        let ghost c = self.duel();
        let ghost begin = self.contents();
        let ghost total = self.items().len();
        let mut top = self;
        let mut out: Vec<X> = Vec::new();
        while top.len() > 0
            invariant
                top.wf(),
                top.duel() == c,
                out@.len() + top.items().len() == total,
                out@.to_multiset().add(top.contents()) == begin,
                forall|rel: spec_fn(X, X) -> bool| #[trigger] ranked_by(c, rel) ==> {
                    &&& ascending(rel, out@)
                    &&& forall|idx: int, y: X|
                        #![trigger out@[idx], top.contents().count(y)]
                        0 <= idx < out@.len() && top.contents().count(y) > 0 ==> !rel(out@[idx], y)
                },
            decreases top.items().len(),
        {
            let ghost pre = top.contents();
            let ghost pre_items = top.items();
            let ghost sofar = out@;
            let x = top.pop().unwrap();
            out.push(x);
            proof {
                assert(out@ =~= sofar.push(x));
                vstd::seq_lib::to_multiset_build::<X>(sofar, x);
                vstd::seq_lib::to_multiset_contains::<X>(pre_items, x);
                assert(pre_items.contains(x));
                assert(pre.count(x) > 0);
                assert(out@.to_multiset().add(top.contents()) =~= sofar.to_multiset().add(pre));
                assert forall|rel: spec_fn(X, X) -> bool| #[trigger] ranked_by(c, rel) implies {
                    &&& ascending(rel, out@)
                    &&& forall|idx: int, y: X|
                        #![trigger out@[idx], top.contents().count(y)]
                        0 <= idx < out@.len() && top.contents().count(y) > 0 ==> !rel(out@[idx], y)
                } by {
                    assert forall|i: int, j: int| 0 <= i < j < out@.len() implies !rel(
                        #[trigger] out@[i],
                        #[trigger] out@[j],
                    ) by {
                        if j == out@.len() - 1 {
                            assert(!rel(sofar[i], x));
                        } else {
                            assert(!rel(sofar[i], sofar[j]));
                        }
                    }
                    assert forall|idx: int, y: X|
                        #![trigger out@[idx], top.contents().count(y)]
                        0 <= idx < out@.len() && top.contents().count(y) > 0 implies !rel(
                        out@[idx],
                        y,
                    ) by {
                        assert(pre.count(y) > 0);
                        if idx < out@.len() - 1 {
                            assert(!rel(sofar[idx], y));
                        } else {
                            assert(!rel(x, y));
                        }
                    }
                }
            }
        }
        proof {
            vstd::seq_lib::to_multiset_len::<X>(top.items());
            vstd::multiset::lemma_multiset_empty_len(top.contents());
            assert(top.contents() =~= Multiset::<X>::empty());
            assert(out@.to_multiset() =~= begin);
        }
        out
    }

    /// Removes every stored item, handing them out in internal heap order,
    /// which is not sorted.  The capacity stays as it is.
    pub fn drain(&mut self) -> (r: Vec<X>)
        ensures
            final(self).duel() == old(self).duel(),
            final(self).cap() == old(self).cap(),
            final(self).items() == Seq::<X>::empty(),
            r@ == old(self).items(),
            old(self).wf() ==> final(self).wf(),
    {
        let mut out: Vec<X> = Vec::new();
        core::mem::swap(&mut self.heap, &mut out);
        out
    }

    /// Moves the item at `start` towards the root until it no longer loses
    /// against its parent, restoring heap order.
    fn percolate_up(&mut self, start: usize)
        requires
            callable(old(self).duel()),
            start < old(self).items().len(),
            forall|rel: spec_fn(X, X) -> bool| #[trigger] ranked_by(old(self).duel(), rel) ==> {
                &&& sift_up_shape(rel, old(self).items(), start as int)
                &&& covered_from_above(rel, old(self).items(), start as int)
            },
        ensures
            final(self).duel() == old(self).duel(),
            final(self).cap() == old(self).cap(),
            final(self).items().len() == old(self).items().len(),
            final(self).contents() == old(self).contents(),
            forall|rel: spec_fn(X, X) -> bool|
                #[trigger] ranked_by(old(self).duel(), rel) ==> heap_ordered(
                    rel,
                    final(self).items(),
                ),
    {
        let ghost orig = *old(self);
        let ghost c = old(self).duel();
        let mut i = start;
        while 0 < i
            invariant_except_break
                forall|rel: spec_fn(X, X) -> bool| #[trigger] ranked_by(c, rel) ==> {
                    &&& sift_up_shape(rel, self.items(), i as int)
                    &&& covered_from_above(rel, self.items(), i as int)
                },
            invariant
                self.duel() == c,
                self.cap() == orig.cap(),
                callable(c),
                i < self.items().len(),
                self.items().len() == orig.items().len(),
                self.contents() == orig.contents(),
            ensures
                forall|rel: spec_fn(X, X) -> bool|
                    #[trigger] ranked_by(c, rel) ==> heap_ordered(rel, self.items()),
            decreases i,
        {
            let parent = (i - 1) / 2;
            let won = self.beat(&self.heap[parent], &self.heap[i]);
            if !won {
                proof {
                    assert forall|rel: spec_fn(X, X) -> bool|
                        #[trigger] ranked_by(c, rel) implies heap_ordered(rel, self.items()) by {
                        assert(!rel(self.items()[parent as int], self.items()[i as int]));
                        assert forall|k: int| 1 <= k < self.items().len() implies !rel(
                            self.items()[(k - 1) / 2],
                            #[trigger] self.items()[k],
                        ) by {
                            if k != i as int {
                                assert(sift_up_shape(rel, self.items(), i as int));
                            }
                        }
                    }
                }
                break;
            }
            let ghost pre = self.items();
            seq_swap(&mut self.heap, parent, i);
            proof {
                assert forall|rel: spec_fn(X, X) -> bool| #[trigger] ranked_by(c, rel) implies {
                    &&& sift_up_shape(rel, self.items(), parent as int)
                    &&& covered_from_above(rel, self.items(), parent as int)
                } by {
                    assert(rel(pre[parent as int], pre[i as int]));
                    lemma_sift_up_step(rel, pre, i as int);
                }
            }
            i = parent;
        }
        proof {
            if i == 0 {
                assert forall|rel: spec_fn(X, X) -> bool|
                    #[trigger] ranked_by(c, rel) implies heap_ordered(rel, self.items()) by {
                    assert forall|k: int| 1 <= k < self.items().len() implies !rel(
                        self.items()[(k - 1) / 2],
                        #[trigger] self.items()[k],
                    ) by {
                        assert(sift_up_shape(rel, self.items(), 0));
                    }
                }
            }
        }
    }

    /// Moves the item at `start` away from the root until it no longer wins
    /// against its worse child, restoring heap order.
    fn percolate_down(&mut self, start: usize)
        requires
            callable(old(self).duel()),
            start < old(self).items().len(),
            forall|rel: spec_fn(X, X) -> bool| #[trigger] ranked_by(old(self).duel(), rel) ==> {
                &&& sift_down_shape(rel, old(self).items(), start as int)
                &&& covered_from_above(rel, old(self).items(), start as int)
            },
        ensures
            final(self).duel() == old(self).duel(),
            final(self).cap() == old(self).cap(),
            final(self).items().len() == old(self).items().len(),
            final(self).contents() == old(self).contents(),
            forall|rel: spec_fn(X, X) -> bool|
                #[trigger] ranked_by(old(self).duel(), rel) ==> heap_ordered(
                    rel,
                    final(self).items(),
                ),
    {
        let ghost orig = *old(self);
        let ghost c = old(self).duel();
        let mut i = start;
        while i < self.heap.len() / 2
            invariant_except_break
                forall|rel: spec_fn(X, X) -> bool| #[trigger] ranked_by(c, rel) ==> {
                    &&& sift_down_shape(rel, self.items(), i as int)
                    &&& covered_from_above(rel, self.items(), i as int)
                },
            invariant
                self.duel() == c,
                self.cap() == orig.cap(),
                callable(c),
                i < self.items().len(),
                self.items().len() == orig.items().len(),
                self.contents() == orig.contents(),
            ensures
                forall|rel: spec_fn(X, X) -> bool|
                    #[trigger] ranked_by(c, rel) ==> heap_ordered(rel, self.items()),
            decreases self.items().len() - i,
        {
            let left = 2 * i + 1;
            let right_wins = left + 1 < self.heap.len() && self.beat(
                &self.heap[left],
                &self.heap[left + 1],
            );
            let child = if right_wins {
                // the left child wins, so the right one is the worse child
                left + 1
            } else {
                left
            };
            let won = self.beat(&self.heap[i], &self.heap[child]);
            if !won {
                proof {
                    assert forall|rel: spec_fn(X, X) -> bool|
                        #[trigger] ranked_by(c, rel) implies heap_ordered(rel, self.items()) by {
                        let s = self.items();
                        assert(!rel(s[i as int], s[child as int]));
                        if right_wins {
                            assert(rel(s[left as int], s[child as int]));
                            if rel(s[i as int], s[left as int]) {
                                assert(rel(s[i as int], s[child as int]));
                            }
                        } else if left + 1 < s.len() {
                            assert(!rel(s[left as int], s[left as int + 1]));
                            assert(!rel(s[i as int], s[left as int + 1]));
                        }
                        assert forall|k: int| 1 <= k < s.len() implies !rel(
                            s[(k - 1) / 2],
                            #[trigger] s[k],
                        ) by {
                            if (k - 1) / 2 == i as int {
                                assert(k == left as int || k == left as int + 1);
                            } else {
                                assert(sift_down_shape(rel, s, i as int));
                            }
                        }
                    }
                }
                break;
            }
            let ghost pre = self.items();
            seq_swap(&mut self.heap, i, child);
            proof {
                assert forall|rel: spec_fn(X, X) -> bool| #[trigger] ranked_by(c, rel) implies {
                    &&& sift_down_shape(rel, self.items(), child as int)
                    &&& covered_from_above(rel, self.items(), child as int)
                } by {
                    if right_wins {
                        assert(rel(pre[left as int], pre[child as int]));
                        lemma_rel_asymmetric(rel, pre[left as int], pre[child as int]);
                    }
                    assert(rel(pre[i as int], pre[child as int]));
                    lemma_sift_down_step(rel, pre, i as int, child as int);
                }
            }
            i = child;
        }
        proof {
            if i >= self.heap.len() / 2 {
                assert forall|rel: spec_fn(X, X) -> bool|
                    #[trigger] ranked_by(c, rel) implies heap_ordered(rel, self.items()) by {
                    let s = self.items();
                    assert forall|k: int| 1 <= k < s.len() implies !rel(
                        s[(k - 1) / 2],
                        #[trigger] s[k],
                    ) by {
                        assert((k - 1) / 2 < s.len() / 2);
                        assert((k - 1) / 2 != i as int);
                        assert(sift_down_shape(rel, s, i as int));
                    }
                }
            }
        }
    }
}

} // verus!
