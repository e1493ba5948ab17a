use vstd::prelude::*;

verus! {

/// Items that can be put in order by a key of theirs. The order is total
/// and transitive on the items that are `sortable`; two items may rank
/// alike without being equal.
pub trait SortKey: Copy {
    /// The item's key is one that the order knows how to compare.
    spec fn sortable(self) -> bool;

    /// `self` ranks no later than `other`.
    spec fn ranks_le(self, other: Self) -> bool;

    /// Whether `self` ranks no later than `other`.
    fn rank_le(&self, other: &Self) -> (le: bool)
        requires
            self.sortable(),
            other.sortable(),
        ensures
            le == self.ranks_le(*other),
    ;

    /// Of two items one ranks no later than the other.
    proof fn lemma_total(a: Self, b: Self)
        requires
            a.sortable(),
            b.sortable(),
        ensures
            a.ranks_le(b) || b.ranks_le(a),
    ;

    /// Ranking no later passes along a chain.
    proof fn lemma_transitive(a: Self, b: Self, c: Self)
        requires
            a.sortable(),
            b.sortable(),
            c.sortable(),
            a.ranks_le(b),
            b.ranks_le(c),
        ensures
            a.ranks_le(c),
    ;
}

/// Every item of the sequence is sortable.
pub open spec fn all_sortable<T: SortKey>(s: Seq<T>) -> bool {
    forall|i: int| 0 <= i < s.len() ==> (#[trigger] s[i]).sortable()
}

/// No item ranks later than one that follows it.
pub open spec fn ordered<T: SortKey>(s: Seq<T>) -> bool {
    forall|i: int, j: int| 0 <= i <= j < s.len() ==> (#[trigger] s[i]).ranks_le(#[trigger] s[j])
}

/// The sequence with `x` put in behind the last item that ranks no later
/// than `x`: behind its equals, before all that rank later.
pub open spec fn inserted<T: SortKey>(s: Seq<T>, x: T) -> Seq<T>
    decreases s.len(),
{
    if s.len() == 0 || s.last().ranks_le(x) {
        s.push(x)
    } else {
        inserted(s.drop_last(), x).push(s.last())
    }
}

/// The items in ascending order of rank, those that rank alike in the
/// order in which they came.
pub open spec fn stable_sorted<T: SortKey>(s: Seq<T>) -> Seq<T>
    decreases s.len(),
{
    if s.len() == 0 {
        Seq::empty()
    } else {
        inserted(stable_sorted(s.drop_last()), s.last())
    }
}

/// Putting an item into an ordered sequence keeps it ordered and changes
/// nothing else: the items are the old ones and the new one.
pub proof fn lemma_inserted<T: SortKey>(s: Seq<T>, x: T)
    requires
        all_sortable(s),
        x.sortable(),
        ordered(s),
    ensures
        ordered(inserted(s, x)),
        all_sortable(inserted(s, x)),
        inserted(s, x).len() == s.len() + 1,
        inserted(s, x).to_multiset() == s.to_multiset().insert(x),
        forall|i: int|
            0 <= i < inserted(s, x).len() ==> (#[trigger] inserted(s, x)[i]) == x || s.contains(
                inserted(s, x)[i],
            ),
    decreases s.len(),
{
    broadcast use vstd::seq_lib::group_to_multiset_ensures;

    let r = inserted(s, x);
    if s.len() == 0 || s.last().ranks_le(x) {
        assert forall|i: int, j: int| 0 <= i <= j < r.len() implies (#[trigger] r[i]).ranks_le(
            #[trigger] r[j],
        ) by {
            if j == s.len() {
                if i < s.len() {
                    assert(s[i].ranks_le(s.last()));
                    T::lemma_transitive(s[i], s.last(), x);
                } else {
                    T::lemma_total(x, x);
                }
            } else {
                assert(s[i].ranks_le(s[j]));
            }
        }
        assert forall|i: int| 0 <= i < r.len() implies (#[trigger] r[i]) == x || s.contains(
            r[i],
        ) by {
            if i < s.len() {
                assert(s[i] == r[i]);
            }
        }
    } else {
        let front = s.drop_last();
        let last = s.last();
        assert(forall|i: int| 0 <= i < front.len() ==> front[i] == s[i]);
        assert(ordered(front)) by {
            assert forall|i: int, j: int| 0 <= i <= j < front.len() implies (
            #[trigger] front[i]).ranks_le(#[trigger] front[j]) by {
                assert(s[i].ranks_le(s[j]));
            }
        }
        lemma_inserted(front, x);
        let inner = inserted(front, x);
        T::lemma_total(last, x);
        assert forall|i: int, j: int| 0 <= i <= j < r.len() implies (#[trigger] r[i]).ranks_le(
            #[trigger] r[j],
        ) by {
            if j == inner.len() {
                if i < inner.len() {
                    if inner[i] == x {
                    } else {
                        assert(front.contains(inner[i]));
                        let k = choose|k: int| 0 <= k < front.len() && front[k] == inner[i];
                        assert(s[k].ranks_le(s[s.len() - 1]));
                    }
                } else {
                    T::lemma_total(last, last);
                }
            } else {
                assert(inner[i].ranks_le(inner[j]));
            }
        }
        assert forall|i: int| 0 <= i < r.len() implies (#[trigger] r[i]) == x || s.contains(
            r[i],
        ) by {
            if i < inner.len() {
                if inner[i] != x {
                    let k = choose|k: int| 0 <= k < front.len() && front[k] == inner[i];
                    assert(s[k] == r[i]);
                }
            } else {
                assert(s[s.len() - 1] == r[i]);
            }
        }
        assert(s == front.push(last));
        assert(r.to_multiset() == inner.to_multiset().insert(last));
        assert(s.to_multiset() == front.to_multiset().insert(last));
        assert(r.to_multiset() =~= s.to_multiset().insert(x));
    }
}

/// The sorted sequence is ordered and holds the same items as often.
pub proof fn lemma_stable_sorted<T: SortKey>(s: Seq<T>)
    requires
        all_sortable(s),
    ensures
        ordered(stable_sorted(s)),
        all_sortable(stable_sorted(s)),
        stable_sorted(s).len() == s.len(),
        stable_sorted(s).to_multiset() == s.to_multiset(),
        forall|i: int| 0 <= i < s.len() ==> s.contains(#[trigger] stable_sorted(s)[i]),
    decreases s.len(),
{
    broadcast use vstd::seq_lib::group_to_multiset_ensures;

    if s.len() > 0 {
        let front = s.drop_last();
        assert(forall|i: int| 0 <= i < front.len() ==> front[i] == s[i]);
        lemma_stable_sorted(front);
        lemma_inserted(stable_sorted(front), s.last());
        assert(s == front.push(s.last()));
        assert(s.to_multiset() == front.to_multiset().insert(s.last()));
        let inner = stable_sorted(front);
        let r = stable_sorted(s);
        assert forall|i: int| 0 <= i < s.len() implies s.contains(#[trigger] r[i]) by {
            if r[i] == s.last() {
                assert(s[s.len() - 1] == r[i]);
            } else {
                assert(inner.contains(r[i]));
                let k = choose|k: int| 0 <= k < inner.len() && inner[k] == r[i];
                assert(front.contains(inner[k]));
                let m = choose|m: int| 0 <= m < front.len() && front[m] == inner[k];
                assert(s[m] == r[i]);
            }
        }
    } else {
        assert(s =~= Seq::empty());
    }
}

/// A sequence that is in order already is its own sorted form.
pub proof fn lemma_ordered_is_sorted<T: SortKey>(s: Seq<T>)
    requires
        ordered(s),
    ensures
        stable_sorted(s) == s,
    decreases s.len(),
{
    if s.len() > 0 {
        let front = s.drop_last();
        assert(forall|i: int| 0 <= i < front.len() ==> front[i] == s[i]);
        assert(ordered(front)) by {
            assert forall|i: int, j: int| 0 <= i <= j < front.len() implies (
            #[trigger] front[i]).ranks_le(#[trigger] front[j]) by {
                assert(s[i].ranks_le(s[j]));
            }
        }
        lemma_ordered_is_sorted(front);
        if front.len() > 0 {
            assert(s[front.len() - 1].ranks_le(s[s.len() - 1]));
        }
        assert(s == front.push(s.last()));
    } else {
        assert(s =~= Seq::empty());
    }
}

/// Each item of a sequence is an item of its sorted form.
pub proof fn lemma_member_of_sorted<T: SortKey>(s: Seq<T>, i: int)
    requires
        all_sortable(s),
        0 <= i < s.len(),
    ensures
        stable_sorted(s).contains(s[i]),
{
    broadcast use vstd::seq_lib::group_to_multiset_ensures;

    lemma_stable_sorted(s);
    assert(s.to_multiset().count(s[i]) > 0);
    assert(stable_sorted(s).to_multiset().count(s[i]) > 0);
}

/// Sorts the items by rank, keeping those that rank alike in the order in
/// which they came.
pub fn stable_sort<T: SortKey>(items: &Vec<T>) -> (sorted: Vec<T>)
    requires
        all_sortable(items@),
    ensures
        sorted@ == stable_sorted(items@),
        ordered(sorted@),
        all_sortable(sorted@),
        sorted@.len() == items@.len(),
        sorted@.to_multiset() == items@.to_multiset(),
        forall|i: int| 0 <= i < sorted@.len() ==> items@.contains(#[trigger] sorted@[i]),
{
    let mut sorted: Vec<T> = Vec::new();
    let mut i: usize = 0;
    while i < items.len()
        invariant
            0 <= i <= items.len(),
            all_sortable(items@),
            sorted@ == stable_sorted(items@.take(i as int)),
            all_sortable(sorted@),
            sorted@.len() == i,
        decreases items.len() - i,
    {
        let x = items[i];
        let ghost before = sorted@;
        let mut j: usize = sorted.len();
        proof {
            assert(before.take(j as int) == before);
            assert(before.skip(j as int) == Seq::<T>::empty());
            assert(inserted(before, x) + Seq::<T>::empty() == inserted(before, x));
        }
        while j > 0 && !sorted[j - 1].rank_le(&x)
            invariant
                0 <= j <= sorted.len(),
                sorted@ == before,
                all_sortable(before),
                x.sortable(),
                inserted(before, x) == inserted(before.take(j as int), x) + before.skip(j as int),
            decreases j,
        {
            proof {
                let head = before.take(j as int);
                assert(head.last() == before[j - 1]);
                assert(head.drop_last() == before.take(j - 1));
                assert(inserted(head, x) == inserted(before.take(j - 1), x).push(before[j - 1]));
                assert(inserted(before.take(j - 1), x).push(before[j - 1]) + before.skip(j as int)
                    == inserted(before.take(j - 1), x) + before.skip(j - 1));
            }
            j = j - 1;
        }
        sorted.insert(j, x);
        proof {
            let head = before.take(j as int);
            if j > 0 {
                assert(head.last() == before[j - 1]);
            }
            assert(inserted(head, x) == head.push(x));
            assert(sorted@ == head.push(x) + before.skip(j as int));
            assert(items@.take(i + 1).drop_last() == items@.take(i as int));
            assert(items@.take(i + 1).last() == x);
            lemma_stable_sorted(items@.take(i as int));
            lemma_inserted(before, x);
        }
        i = i + 1;
    }
    proof {
        assert(items@.take(i as int) == items@);
        lemma_stable_sorted(items@);
    }
    sorted
}

} // verus!
