//! Sorting of the engine-owned copy of the sample.
//!
//! The classification aggregator sorts a copy of the caller's sample before
//! dispatching to a break algorithm.  The sort is pinned to the spec-level
//! [`spec_sort`], so a classification constructed twice from the same
//! sample takes exactly the same sorted sequence both times.
use vstd::multiset::Multiset;
use vstd::prelude::*;

use crate::numeric::Numeric;

verus! {

/// The sequence is in non-decreasing order.
pub open spec fn sorted_le<T: Numeric>(s: Seq<T>) -> bool {
    forall|i: int, j: int| 0 <= i <= j < s.len() ==> s[i].sle(s[j])
}

/// Where `s` is sorted, the sequence obtained by placing `x` behind the
/// last element of `s` that does not exceed it.
pub open spec fn spec_insert<T: Numeric>(s: Seq<T>, x: T) -> Seq<T>
    decreases s.len(),
{
    if s.len() == 0 {
        seq![x]
    } else if s.last().sle(x) {
        s.push(x)
    } else {
        spec_insert(s.drop_last(), x).push(s.last())
    }
}

/// The sample in non-decreasing order: each element in turn inserted at
/// its place (insertion sort).
pub open spec fn spec_sort<T: Numeric>(s: Seq<T>) -> Seq<T>
    decreases s.len(),
{
    if s.len() == 0 {
        Seq::empty()
    } else {
        spec_insert(spec_sort(s.drop_last()), s.last())
    }
}

pub proof fn lemma_insert_len<T: Numeric>(s: Seq<T>, x: T)
    ensures
        spec_insert(s, x).len() == s.len() + 1,
    decreases s.len(),
{
    if s.len() == 0 {
    } else if s.last().sle(x) {
    } else {
        lemma_insert_len(s.drop_last(), x);
    }
}

pub proof fn lemma_sort_len<T: Numeric>(s: Seq<T>)
    ensures
        spec_sort(s).len() == s.len(),
    decreases s.len(),
{
    if s.len() == 0 {
    } else {
        lemma_sort_len(s.drop_last());
        lemma_insert_len(spec_sort(s.drop_last()), s.last());
    }
}

pub proof fn lemma_insert_multiset<T: Numeric>(s: Seq<T>, x: T)
    ensures
        spec_insert(s, x).to_multiset() == s.to_multiset().insert(x),
    decreases s.len(),
{
    broadcast use vstd::seq_lib::group_to_multiset_ensures;

    if s.len() == 0 {
        assert(spec_insert(s, x) == Seq::empty().push(x));
        assert(s.to_multiset() == Multiset::<T>::empty());
        assert(spec_insert(s, x).to_multiset() =~= s.to_multiset().insert(x));
    } else if s.last().sle(x) {
        assert(s.push(x).to_multiset() =~= s.to_multiset().insert(x));
    } else {
        lemma_insert_multiset(s.drop_last(), x);
        assert(s.drop_last().push(s.last()) =~= s);
        assert(spec_insert(s, x).to_multiset() =~= spec_insert(s.drop_last(), x).to_multiset()
            .insert(s.last()));
        assert(s.to_multiset() =~= s.drop_last().to_multiset().insert(s.last()));
        assert(spec_insert(s, x).to_multiset() =~= s.drop_last().to_multiset().insert(x).insert(
            s.last(),
        ));
        assert(s.drop_last().to_multiset().insert(x).insert(s.last())
            =~= s.drop_last().to_multiset().insert(s.last()).insert(x));
    }
}

pub proof fn lemma_sort_multiset<T: Numeric>(s: Seq<T>)
    ensures
        spec_sort(s).to_multiset() == s.to_multiset(),
    decreases s.len(),
{
    broadcast use vstd::seq_lib::group_to_multiset_ensures;

    if s.len() == 0 {
        assert(spec_sort(s).to_multiset() =~= s.to_multiset());
    } else {
        lemma_sort_multiset(s.drop_last());
        lemma_insert_multiset(spec_sort(s.drop_last()), s.last());
        assert(s.drop_last().push(s.last()) =~= s);
        assert(s.drop_last().to_multiset().insert(s.last()) =~= s.to_multiset());
    }
}

pub proof fn lemma_insert_sorted<T: Numeric>(s: Seq<T>, x: T)
    requires
        sorted_le(s),
    ensures
        sorted_le(spec_insert(s, x)),
    decreases s.len(),
{
    if s.len() == 0 {
        assert forall|i: int, j: int|
            0 <= i <= j < spec_insert(s, x).len() implies spec_insert(s, x)[i].sle(
            spec_insert(s, x)[j],
        ) by {
            T::law_le_refl(x);
        }
    } else if s.last().sle(x) {
        let r = s.push(x);
        assert forall|i: int, j: int| 0 <= i <= j < r.len() implies r[i].sle(r[j]) by {
            T::law_le_refl(r[i]);
            if j < s.len() {
            } else if i < s.len() {
                T::law_le_trans(s[i], s.last(), x);
            }
        }
    } else {
        assert(sorted_le(s.drop_last()));
        lemma_insert_sorted(s.drop_last(), x);
        lemma_insert_len(s.drop_last(), x);
        let t = spec_insert(s.drop_last(), x);
        let r = t.push(s.last());
        // every element of t is at most s.last()
        assert forall|i: int| 0 <= i < t.len() implies t[i].sle(s.last()) by {
            lemma_insert_elements(s.drop_last(), x, i);
            if t[i] == x {
                T::law_le_total(s.last(), x);
            } else {
                let k = choose|k: int|
                    0 <= k < s.drop_last().len() && t[i] == s.drop_last()[k];
                assert(s[k].sle(s.last()));
            }
        }
        assert forall|i: int, j: int| 0 <= i <= j < r.len() implies r[i].sle(r[j]) by {
            T::law_le_refl(r[i]);
        }
    }
}

/// Every element of `spec_insert(s, x)` is `x` or an element of `s`.
pub proof fn lemma_insert_elements<T: Numeric>(s: Seq<T>, x: T, i: int)
    requires
        0 <= i < spec_insert(s, x).len(),
    ensures
        spec_insert(s, x)[i] == x || exists|k: int|
            0 <= k < s.len() && spec_insert(s, x)[i] == s[k],
    decreases s.len(),
{
    lemma_insert_len(s, x);
    if s.len() == 0 {
    } else if s.last().sle(x) {
    } else {
        if i < spec_insert(s.drop_last(), x).len() {
            lemma_insert_elements(s.drop_last(), x, i);
            if spec_insert(s, x)[i] != x {
                let k = choose|k: int|
                    0 <= k < s.drop_last().len() && spec_insert(s.drop_last(), x)[i]
                        == s.drop_last()[k];
                assert(spec_insert(s, x)[i] == s[k]);
            }
        } else {
            assert(spec_insert(s, x)[i] == s[s.len() - 1]);
        }
    }
}

pub proof fn lemma_sort_sorted<T: Numeric>(s: Seq<T>)
    ensures
        sorted_le(spec_sort(s)),
    decreases s.len(),
{
    if s.len() == 0 {
    } else {
        lemma_sort_sorted(s.drop_last());
        lemma_insert_sorted(spec_sort(s.drop_last()), s.last());
    }
}

/// The first element of the sorted sample is its minimum and the last
/// its maximum: both bound every sample value and both are sample
/// values.
pub proof fn lemma_sort_bounds<T: Numeric>(s: Seq<T>)
    requires
        s.len() >= 1,
    ensures
        spec_sort(s).len() == s.len(),
        sorted_le(spec_sort(s)),
        forall|i: int|
            0 <= i < s.len() ==> spec_sort(s).first().sle(#[trigger] s[i]) && s[i].sle(
                spec_sort(s).last(),
            ),
        s.contains(spec_sort(s).first()),
        s.contains(spec_sort(s).last()),
{
    broadcast use vstd::seq_lib::group_to_multiset_ensures;

    let v = spec_sort(s);
    lemma_sort_len(s);
    lemma_sort_sorted(s);
    lemma_sort_multiset(s);
    assert forall|i: int|
        0 <= i < s.len() implies v.first().sle(#[trigger] s[i]) && s[i].sle(v.last()) by {
        assert(s.contains(s[i]));
        assert(s.to_multiset().count(s[i]) > 0);
        assert(v.to_multiset().count(s[i]) > 0);
        assert(v.contains(s[i]));
        let j = choose|j: int| 0 <= j < v.len() && v[j] == s[i];
        assert(v[0].sle(v[j]));
        assert(v[j].sle(v[v.len() - 1]));
    }
    assert(v.contains(v.first()));
    assert(v.to_multiset().count(v.first()) > 0);
    assert(s.to_multiset().count(v.first()) > 0);
    assert(v.contains(v.last()));
    assert(v.to_multiset().count(v.last()) > 0);
    assert(s.to_multiset().count(v.last()) > 0);
}

/// Places `x` behind the last element of the sorted vector that does not
/// exceed it, keeping the vector sorted.
fn insert_value<T: Numeric>(out: &mut Vec<T>, x: T)
    ensures
        final(out)@ == spec_insert(old(out)@, x),
{
    let ghost orig = old(out)@;
    let mut tail: Vec<T> = Vec::new();
    loop
        invariant
            spec_insert(orig, x) == spec_insert(out@, x) + tail@.reverse(),
        ensures
            spec_insert(orig, x) == spec_insert(out@, x) + tail@.reverse(),
            out@.len() == 0 || out@.last().sle(x),
        decreases out@.len(),
    {
        let n = out.len();
        if n == 0 {
            break ;
        }
        let last = out[n - 1];
        if last.le(x) {
            break ;
        }
        proof {
            assert(spec_insert(out@, x) == spec_insert(out@.drop_last(), x).push(out@.last()));
            assert(tail@.push(out@.last()).reverse() =~= seq![out@.last()] + tail@.reverse());
            assert(spec_insert(out@.drop_last(), x) + (seq![out@.last()] + tail@.reverse())
                =~= spec_insert(out@.drop_last(), x).push(out@.last()) + tail@.reverse());
        }
        let moved = out.pop().unwrap();
        tail.push(moved);
    }
    proof {
        if out@.len() == 0 {
            assert(spec_insert(out@, x) == seq![x]);
            assert(out@.push(x) =~= seq![x]);
        }
        assert(spec_insert(out@, x) == out@.push(x));
    }
    out.push(x);
    proof {
        assert(spec_insert(orig, x) == out@ + tail@.reverse());
    }
    while tail.len() > 0
        invariant
            spec_insert(orig, x) == out@ + tail@.reverse(),
        decreases tail@.len(),
    {
        proof {
            assert(tail@.reverse() =~= seq![tail@.last()] + tail@.drop_last().reverse());
            assert(out@ + (seq![tail@.last()] + tail@.drop_last().reverse())
                =~= out@.push(tail@.last()) + tail@.drop_last().reverse());
        }
        let moved = tail.pop().unwrap();
        out.push(moved);
    }
    proof {
        assert(tail@.reverse() =~= Seq::<T>::empty());
        assert(out@ + tail@.reverse() =~= out@);
    }
}

/// A copy of the sample in non-decreasing order; the caller's vector is
/// left untouched.
pub fn sort_values<T: Numeric>(values: &[T]) -> (out: Vec<T>)
    ensures
        out@ == spec_sort(values@),
{
    let mut out: Vec<T> = Vec::new();
    let mut i: usize = 0;
    while i < values.len()
        invariant
            i <= values@.len(),
            out@ == spec_sort(values@.take(i as int)),
        decreases values@.len() - i,
    {
        proof {
            assert(values@.take(i + 1).drop_last() =~= values@.take(i as int));
            assert(values@.take(i + 1).last() == values@[i as int]);
        }
        insert_value(&mut out, values[i]);
        i = i + 1;
    }
    proof {
        assert(values@.take(values@.len() as int) =~= values@);
    }
    out
}

} // verus!
