//! Stable sorting.
use vstd::prelude::*;

verus! {

/// A type whose values have a place in an order. Values may share a place.
pub trait Ranked: Sized {
    /// Whether `self` comes before `other` or shares its place.
    spec fn at_most(&self, other: &Self) -> bool;

    /// Of two values one comes first.
    proof fn total(a: &Self, b: &Self)
        ensures
            a.at_most(b) || b.at_most(a),
    ;

    /// The order is transitive.
    proof fn transitive(a: &Self, b: &Self, c: &Self)
        requires
            a.at_most(b),
            b.at_most(c),
        ensures
            a.at_most(c),
    ;

    fn is_at_most(&self, other: &Self) -> (r: bool)
        ensures
            r == self.at_most(other),
    ;
}

/// Whether two values share a place.
pub open spec fn same_place<T: Ranked>(a: T, b: T) -> bool {
    a.at_most(&b) && b.at_most(&a)
}

/// Whether no value comes after one that it should precede.
pub open spec fn sorted<T: Ranked>(s: Seq<T>) -> bool {
    forall|i: int, j: int| 0 <= i <= j < s.len() ==> #[trigger] s[i].at_most(&s[j])
}

/// The values of `s` that share the place of `x`, in the order of `s`.
pub open spec fn at_place<T: Ranked>(s: Seq<T>, x: T) -> Seq<T> {
    s.filter(|y: T| same_place(x, y))
}

/// Whether `after` holds the values of `before`, and values that share a place stand in the
/// order in which `before` had them.
pub open spec fn stably_rearranged<T: Ranked>(before: Seq<T>, after: Seq<T>) -> bool {
    &&& before.to_multiset() == after.to_multiset()
    &&& forall|x: T| #[trigger] at_place(before, x) == at_place(after, x)
}

/// Moving a value back over values that come strictly after it keeps the rest in order.
proof fn lemma_moved_back<T: Ranked>(s: Seq<T>, from: int, to: int)
    requires
        0 <= to <= from < s.len(),
        forall|k: int| to <= k < from ==> !(#[trigger] s[k]).at_most(&s[from]),
    ensures
        stably_rearranged(s, s.remove(from).insert(to, s[from])),
{
    broadcast use vstd::multiset::group_multiset_axioms;
    broadcast use vstd::seq_lib::group_to_multiset_ensures;

    let x = s[from];
    let t = s.remove(from).insert(to, x);
    let a = s.take(to);
    let b = s.subrange(to, from);
    let c = s.skip(from + 1);
    assert(s =~= a + b + seq![x] + c);
    assert(t =~= a + seq![x] + b + c);
    assert(s.to_multiset() =~= t.to_multiset()) by {
        vstd::seq_lib::lemma_multiset_commutative(a + b + seq![x], c);
        vstd::seq_lib::lemma_multiset_commutative(a + b, seq![x]);
        vstd::seq_lib::lemma_multiset_commutative(a, b);
        vstd::seq_lib::lemma_multiset_commutative(a + seq![x] + b, c);
        vstd::seq_lib::lemma_multiset_commutative(a + seq![x], b);
        vstd::seq_lib::lemma_multiset_commutative(a, seq![x]);
    }
    assert forall|y: T| #[trigger] at_place(s, y) == at_place(t, y) by {
        let p = |z: T| same_place(y, z);
        let one = seq![x];
        Seq::filter_distributes_over_add(a + b + one, c, p);
        Seq::filter_distributes_over_add(a + b, one, p);
        Seq::filter_distributes_over_add(a, b, p);
        Seq::filter_distributes_over_add(a + one + b, c, p);
        Seq::filter_distributes_over_add(a + one, b, p);
        Seq::filter_distributes_over_add(a, one, p);
        if p(x) {
            assert forall|k: int| 0 <= k < b.len() implies !p(#[trigger] b[k]) by {
                assert(s[to + k] == b[k]);
                if p(b[k]) {
                    T::transitive(&b[k], &y, &x);
                }
            }
            lemma_filter_none(b, p);
            assert(a.filter(p) + Seq::empty() + one.filter(p) + c.filter(p) =~= a.filter(p)
                + one.filter(p) + Seq::empty() + c.filter(p));
        } else {
            lemma_filter_none(one, p);
            assert(a.filter(p) + b.filter(p) + Seq::empty() + c.filter(p) =~= a.filter(p)
                + Seq::empty() + b.filter(p) + c.filter(p));
        }
    }
}

/// Nothing is left of values none of which is wanted.
proof fn lemma_filter_none<T>(s: Seq<T>, p: spec_fn(T) -> bool)
    requires
        forall|k: int| 0 <= k < s.len() ==> !p(#[trigger] s[k]),
    ensures
        s.filter(p) == Seq::<T>::empty(),
    decreases s.len(),
{
    reveal(Seq::filter);
    if s.len() > 0 {
        lemma_filter_none(s.drop_last(), p);
    }
}

/// Sorts the values; those that share a place keep their order.
pub fn stable_sort<T: Ranked>(v: &mut Vec<T>)
    ensures
        sorted(final(v)@),
        stably_rearranged(old(v)@, final(v)@),
{
    let mut i: usize = 0;
    while i < v.len()
        invariant
            i <= v@.len(),
            v@.len() == old(v)@.len(),
            sorted(v@.take(i as int)),
            stably_rearranged(old(v)@, v@),
        decreases v@.len() - i,
    {
        let ghost s = v@;
        let mut to: usize = i;
        while to > 0 && !v[to - 1].is_at_most(&v[i])
            invariant
                v@ == s,
                to <= i < s.len(),
                sorted(s.take(i as int)),
                forall|k: int| to <= k < i ==> !(#[trigger] s[k]).at_most(&s[i as int]),
            decreases to,
        {
            to = to - 1;
        }
        proof {
            lemma_moved_back(s, i as int, to as int);
            lemma_sorted_insert(s.take(i as int), s[i as int], to as int);
        }
        let x = v.remove(i);
        v.insert(to, x);
        assert(v@.take(i + 1) =~= s.take(i as int).insert(to as int, s[i as int]));
        i = i + 1;
    }
    assert(v@.take(i as int) =~= v@);
}

/// A value put behind those at most as high and before those strictly higher keeps the order.
proof fn lemma_sorted_insert<T: Ranked>(s: Seq<T>, x: T, to: int)
    requires
        sorted(s),
        0 <= to <= s.len(),
        to > 0 ==> s[to - 1].at_most(&x),
        forall|k: int| to <= k < s.len() ==> !(#[trigger] s[k]).at_most(&x),
    ensures
        sorted(s.insert(to, x)),
{
    let t = s.insert(to, x);
    assert forall|i: int, j: int| 0 <= i <= j < t.len() implies #[trigger] t[i].at_most(
        &t[j],
    ) by {
        let i0 = if i < to { i } else { i - 1 };
        let j0 = if j < to { j } else { j - 1 };
        if i == to && j == to {
            T::total(&x, &x);
        } else if i == to {
            T::total(&x, &s[j0]);
        } else if j == to {
            assert(s[i0].at_most(&s[to - 1]));
            T::transitive(&s[i0], &s[to - 1], &x);
        } else {
            assert(s[i0].at_most(&s[j0]));
        }
    }
}

} // verus!
