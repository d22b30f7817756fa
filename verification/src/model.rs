//! The contents of a list as a sequence, and what the operations at its two
//! ends do to that sequence.
//!
//! The containers of this crate state their contracts over these functions,
//! so what is proved here of sequences holds of every run of their
//! operations.

use vstd::prelude::*;

verus! {

/// The end of a deque that a pop takes from.
pub enum End {
    Front,
    Back,
}

/// The contents after `elem` was pushed to the front of `s`.
pub open spec fn pushed_front<T>(s: Seq<T>, elem: T) -> Seq<T> {
    seq![elem] + s
}

/// What looking at the front of `s` yields.
pub open spec fn peeked_front<T>(s: Seq<T>) -> Option<T> {
    if s.len() == 0 {
        None
    } else {
        Some(s.first())
    }
}

/// What popping the front of `s` yields, and what it leaves.
pub open spec fn popped_front<T>(s: Seq<T>) -> (Option<T>, Seq<T>) {
    if s.len() == 0 {
        (None, s)
    } else {
        (Some(s.first()), s.drop_first())
    }
}

/// What popping the back of `s` yields, and what it leaves.
pub open spec fn popped_back<T>(s: Seq<T>) -> (Option<T>, Seq<T>) {
    if s.len() == 0 {
        (None, s)
    } else {
        (Some(s.last()), s.drop_last())
    }
}

/// What taking one element from the given end of `s` yields, and what it
/// leaves.
pub open spec fn popped<T>(s: Seq<T>, end: End) -> (Option<T>, Seq<T>) {
    match end {
        End::Front => popped_front(s),
        End::Back => popped_back(s),
    }
}

/// The contents after the elements of `items` were pushed to the front of
/// `s` one by one, `items[0]` first.
pub open spec fn pushed_front_all<T>(s: Seq<T>, items: Seq<T>) -> Seq<T>
    decreases items.len(),
{
    if items.len() == 0 {
        s
    } else {
        pushed_front(pushed_front_all(s, items.drop_last()), items.last())
    }
}

/// What a run of pops yields, one from the end that each of `steps` names,
/// with one entry for each step, and what the run leaves of `s`.
pub open spec fn drained<T>(s: Seq<T>, steps: Seq<End>) -> (Seq<Option<T>>, Seq<T>)
    decreases steps.len(),
{
    if steps.len() == 0 {
        (Seq::empty(), s)
    } else {
        let (yielded, left) = drained(s, steps.drop_last());
        let (item, rest) = popped(left, steps.last());
        (yielded.push(item), rest)
    }
}

/// How many of `steps` take from the front.
pub open spec fn fronts(steps: Seq<End>) -> nat
    decreases steps.len(),
{
    if steps.len() == 0 {
        0
    } else {
        fronts(steps.drop_last()) + if steps.last() is Front {
            1nat
        } else {
            0nat
        }
    }
}

/// Where, among `len` elements, the one stands that step `k` of `steps`
/// takes: fronts count up from the first, backs count down from the last.
pub open spec fn taken_at(steps: Seq<End>, len: nat, k: int) -> int {
    let fronts_before = fronts(steps.take(k));
    match steps[k] {
        End::Front => fronts_before as int,
        End::Back => len - 1 - (k - fronts_before),
    }
}

/// A run of pops yields one entry for each step. While elements are left,
/// step `k` yields the element of `s` at `taken_at(steps, s.len(), k)`, and
/// what is left is the middle of `s`; after that every step yields `None`.
pub proof fn lemma_drained<T>(s: Seq<T>, steps: Seq<End>)
    ensures
        drained(s, steps).0.len() == steps.len(),
        fronts(steps) <= steps.len(),
        steps.len() <= s.len() ==> drained(s, steps).1 == s.subrange(
            fronts(steps) as int,
            s.len() - (steps.len() - fronts(steps)),
        ),
        steps.len() >= s.len() ==> drained(s, steps).1 == Seq::<T>::empty(),
        forall|k: int|
            0 <= k < steps.len() && k < s.len() ==> 0 <= #[trigger] taken_at(steps, s.len(), k)
                < s.len(),
        forall|k: int|
            0 <= k < steps.len() ==> #[trigger] drained(s, steps).0[k] == (if k < s.len() {
                Some(s[taken_at(steps, s.len(), k)])
            } else {
                None
            }),
    decreases steps.len(),
{
    if steps.len() == 0 {
        assert(s.subrange(0, s.len() as int) =~= s);
    } else {
        let n = steps.len() - 1;
        let earlier = steps.drop_last();
        lemma_drained(s, earlier);
        assert(steps.take(n) =~= earlier);
        assert forall|k: int| 0 <= k < steps.len() && k < s.len() implies 0 <= #[trigger] taken_at(
            steps,
            s.len(),
            k,
        ) < s.len() by {
            if k < n {
                assert(steps.take(k) =~= earlier.take(k));
                assert(taken_at(steps, s.len(), k) == taken_at(earlier, s.len(), k));
            }
        }
        assert forall|k: int| 0 <= k < steps.len() implies #[trigger] drained(s, steps).0[k] == (if k
            < s.len() {
            Some(s[taken_at(steps, s.len(), k)])
        } else {
            None
        }) by {
            if k < n {
                assert(steps.take(k) =~= earlier.take(k));
                assert(taken_at(steps, s.len(), k) == taken_at(earlier, s.len(), k));
                assert(drained(s, steps).0[k] == drained(s, earlier).0[k]);
            }
        }
        if steps.len() <= s.len() {
            assert(drained(s, steps).1 =~= s.subrange(
                fronts(steps) as int,
                s.len() - (steps.len() - fronts(steps)),
            ));
        }
    }
}

/// Pushes to the front followed by as many pops from the front yield the
/// pushed elements in the reverse of the order in which they went in, and
/// leave what was there before.
pub proof fn lemma_push_front_then_pop_front<T>(s: Seq<T>, items: Seq<T>)
    ensures
        drained(pushed_front_all(s, items), Seq::new(items.len(), |i: int| End::Front)) == (
            items.reverse().map_values(|elem: T| Some(elem)),
            s,
        ),
{
    let steps = Seq::new(items.len(), |i: int| End::Front);
    let full = pushed_front_all(s, items);
    lemma_pushed_front_all(s, items);
    lemma_drained(full, steps);
    assert forall|k: int| 0 <= k < steps.len() implies taken_at(steps, full.len(), k) == k by {
        lemma_fronts_only(steps, k);
    }
    assert(fronts(steps) == steps.len()) by {
        lemma_fronts_only(steps, steps.len() as int);
        assert(steps.take(steps.len() as int) =~= steps);
    }
    assert(drained(full, steps).0 =~= items.reverse().map_values(|elem: T| Some(elem)));
    assert(drained(full, steps).1 =~= s);
}

/// Pushes to the front followed by pops from the back until nothing is left
/// yield first what was there before, the last element first, and then the
/// pushed elements in the order in which they went in. What was pushed to
/// an empty deque so comes out of the back first in, first out.
pub proof fn lemma_push_front_then_pop_back<T>(s: Seq<T>, items: Seq<T>)
    ensures
        drained(
            pushed_front_all(s, items),
            Seq::new(s.len() + items.len(), |i: int| End::Back),
        ) == ((s.reverse() + items).map_values(|elem: T| Some(elem)), Seq::<T>::empty()),
        s.len() == 0 ==> drained(
            pushed_front_all(s, items),
            Seq::new(items.len(), |i: int| End::Back),
        ) == (items.map_values(|elem: T| Some(elem)), Seq::<T>::empty()),
{
    let steps = Seq::new(s.len() + items.len(), |i: int| End::Back);
    let full = pushed_front_all(s, items);
    lemma_pushed_front_all(s, items);
    lemma_drained(full, steps);
    assert forall|k: int| 0 <= k < steps.len() implies taken_at(steps, full.len(), k)
        == full.len() - 1 - k by {
        lemma_backs_only(steps, k);
    }
    assert(drained(full, steps).0 =~= (s.reverse() + items).map_values(|elem: T| Some(elem)));
    if s.len() == 0 {
        assert(steps =~= Seq::new(items.len(), |i: int| End::Back));
        assert(s.reverse() + items =~= items);
    }
}

/// Every pop from an empty deque, from either end and however often, yields
/// `None` and leaves the deque empty.
pub proof fn lemma_pop_empty<T>(steps: Seq<End>)
    ensures
        drained(Seq::<T>::empty(), steps) == (
            Seq::new(steps.len(), |k: int| None::<T>),
            Seq::<T>::empty(),
        ),
{
    lemma_drained(Seq::<T>::empty(), steps);
    assert(drained(Seq::<T>::empty(), steps).0 =~= Seq::new(steps.len(), |k: int| None::<T>));
}

/// A look at the front yields what the next pop from the front yields.
pub proof fn lemma_peek_front_then_pop_front<T>(s: Seq<T>)
    ensures
        peeked_front(s) == popped_front(s).0,
{
}

/// A run of at least as many pops as there are elements, from whichever
/// ends, takes every element exactly once: the first `s.len()` steps take
/// elements at distinct places of `s`, and nothing is left for the others.
pub proof fn lemma_drain_takes_each_once<T>(s: Seq<T>, steps: Seq<End>)
    requires
        steps.len() >= s.len(),
    ensures
        drained(s, steps).1 == Seq::<T>::empty(),
        forall|k: int|
            0 <= k < s.len() ==> 0 <= taken_at(steps, s.len(), k) < s.len() && #[trigger] drained(
                s,
                steps,
            ).0[k] == Some(s[taken_at(steps, s.len(), k)]),
        forall|j: int, k: int|
            0 <= j < k < s.len() ==> taken_at(steps, s.len(), j) != taken_at(steps, s.len(), k),
        forall|k: int| s.len() <= k < steps.len() ==> #[trigger] drained(s, steps).0[k] is None,
{
    lemma_drained(s, steps);
    assert forall|j: int, k: int| 0 <= j < k < s.len() implies taken_at(steps, s.len(), j)
        != taken_at(steps, s.len(), k) by {
        lemma_fronts_prefix(steps, j, k);
    }
}

/// A longer prefix of `steps` holds at least as many front steps and at
/// least as many back steps, and one more of the kind that step `a` is.
proof fn lemma_fronts_prefix(steps: Seq<End>, a: int, b: int)
    requires
        0 <= a <= b <= steps.len(),
    ensures
        fronts(steps.take(a)) <= fronts(steps.take(b)),
        a - fronts(steps.take(a)) <= b - fronts(steps.take(b)),
        a < b && steps[a] is Front ==> fronts(steps.take(a)) < fronts(steps.take(b)),
        a < b && steps[a] is Back ==> a - fronts(steps.take(a)) < b - fronts(steps.take(b)),
    decreases b - a,
{
    if a < b {
        assert(steps.take(b).drop_last() =~= steps.take(b - 1));
        assert(steps.take(b).last() == steps[b - 1]);
        lemma_fronts_prefix(steps, a, b - 1);
    }
}

/// Pushing `items` to the front one by one puts them, reversed, before `s`.
pub proof fn lemma_pushed_front_all<T>(s: Seq<T>, items: Seq<T>)
    ensures
        pushed_front_all(s, items) == items.reverse() + s,
    decreases items.len(),
{
    if items.len() == 0 {
        assert(items.reverse() + s =~= s);
    } else {
        lemma_pushed_front_all(s, items.drop_last());
        assert(pushed_front_all(s, items) =~= items.reverse() + s);
    }
}

/// In a run of front steps alone, every step before `k` is a front step.
proof fn lemma_fronts_only(steps: Seq<End>, k: int)
    requires
        0 <= k <= steps.len(),
        forall|i: int| 0 <= i < steps.len() ==> steps[i] is Front,
    ensures
        fronts(steps.take(k)) == k,
    decreases k,
{
    if k > 0 {
        assert(steps.take(k).drop_last() =~= steps.take(k - 1));
        lemma_fronts_only(steps, k - 1);
    }
}

/// In a run of back steps alone, no step before `k` is a front step.
proof fn lemma_backs_only(steps: Seq<End>, k: int)
    requires
        0 <= k <= steps.len(),
        forall|i: int| 0 <= i < steps.len() ==> steps[i] is Back,
    ensures
        fronts(steps.take(k)) == 0,
    decreases k,
{
    if k > 0 {
        assert(steps.take(k).drop_last() =~= steps.take(k - 1));
        lemma_backs_only(steps, k - 1);
    }
}

} // verus!
