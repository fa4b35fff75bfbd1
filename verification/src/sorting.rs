//! Stable insertion sort.

use vstd::prelude::*;

use crate::text::Order;
use crate::version::{Version, version_order};

verus! {

/// Where `x` goes in `s` when inserted from the back: after the last element
/// that does not come after it.
pub open spec fn insert_pos<A>(s: Seq<A>, x: A, after: spec_fn(A, A) -> bool) -> nat
    decreases s.len(),
{
    if s.len() == 0 {
        0
    } else if after(s.last(), x) {
        insert_pos(s.drop_last(), x, after)
    } else {
        s.len()
    }
}

/// Insertion sort: each element in turn is inserted into the sorted prefix,
/// moving back past every element that must come after it. Elements that need
/// not move keep their order.
pub open spec fn insertion_sorted<A>(s: Seq<A>, after: spec_fn(A, A) -> bool) -> Seq<A>
    decreases s.len(),
{
    if s.len() == 0 {
        seq![]
    } else {
        let sorted = insertion_sorted(s.drop_last(), after);
        sorted.insert(insert_pos(sorted, s.last(), after) as int, s.last())
    }
}

pub proof fn lemma_insert_pos_bound<A>(s: Seq<A>, x: A, after: spec_fn(A, A) -> bool)
    ensures
        insert_pos(s, x, after) <= s.len(),
    decreases s.len(),
{
    if s.len() > 0 && after(s.last(), x) {
        lemma_insert_pos_bound(s.drop_last(), x, after);
    }
}

pub proof fn lemma_insertion_sorted_len<A>(s: Seq<A>, after: spec_fn(A, A) -> bool)
    ensures
        insertion_sorted(s, after).len() == s.len(),
    decreases s.len(),
{
    if s.len() > 0 {
        lemma_insertion_sorted_len(s.drop_last(), after);
        lemma_insert_pos_bound(insertion_sorted(s.drop_last(), after), s.last(), after);
    }
}

/// Something with an abstract view and a strict "goes after" relation on
/// views, which the sort moves elements back past.
pub trait Ranked: Sized {
    type Key;

    spec fn key(&self) -> Self::Key;

    spec fn after(a: Self::Key, b: Self::Key) -> bool;

    fn goes_after(&self, other: &Self) -> (b: bool)
        ensures
            b == Self::after(self.key(), other.key()),
    ;
}

pub open spec fn keys<T: Ranked>(s: Seq<T>) -> Seq<T::Key> {
    s.map_values(|x: T| x.key())
}

pub open spec fn after_fn<T: Ranked>() -> spec_fn(T::Key, T::Key) -> bool {
    |a: T::Key, b: T::Key| T::after(a, b)
}

/// Sorts `items` stably: each element in turn is moved back past every
/// element before it that goes after it.
pub fn insertion_sort<T: Ranked>(items: &mut Vec<T>)
    ensures
        keys(final(items)@) == insertion_sorted(keys(old(items)@), after_fn::<T>()),
{
    let ghost after = after_fn::<T>();
    let ghost input = keys(old(items)@);
    let mut out: Vec<T> = Vec::new();
    let ghost mut taken: int = 0;
    while items.len() > 0
        invariant
            0 <= taken <= input.len(),
            keys(items@) == input.skip(taken),
            keys(out@) == insertion_sorted(input.take(taken), after),
            after == after_fn::<T>(),
        decreases items@.len(),
    {
        let x = items.remove(0);
        proof {
            assert(input.skip(taken)[0] == x.key());
            assert(input.skip(taken).drop_first() == input.skip(taken + 1));
            assert(input.take(taken + 1).drop_last() == input.take(taken));
            assert(input.take(taken + 1).last() == x.key());
            assert(keys(items@) == input.skip(taken + 1));
        }
        let ghost sorted = keys(out@);
        let mut j: usize = out.len();
        assert(sorted.take(j as int) == sorted);
        while j > 0 && out[j - 1].goes_after(&x)
            invariant
                j <= out@.len(),
                sorted == keys(out@),
                insert_pos(sorted, x.key(), after) == insert_pos(sorted.take(j as int), x.key(), after),
                after == after_fn::<T>(),
            decreases j,
        {
            assert(sorted.take(j as int).last() == out@[j - 1].key());
            assert(sorted.take(j as int).drop_last() == sorted.take(j - 1));
            j = j - 1;
        }
        proof {
            assert(sorted.take(sorted.len() as int) == sorted);
            if j > 0 {
                assert(sorted.take(j as int).last() == out@[j - 1].key());
            }
            assert(insert_pos(sorted, x.key(), after) == j);
        }
        out.insert(j, x);
        proof {
            assert(keys(out@) =~= sorted.insert(j as int, x.key()));
            taken = taken + 1;
        }
    }
    proof {
        assert(input.take(taken) == input);
    }
    *items = out;
}

/// Insertion sorting keeps every element.
pub proof fn lemma_insertion_sorted_contains<A>(s: Seq<A>, after: spec_fn(A, A) -> bool, x: A)
    requires
        insertion_sorted(s, after).contains(x),
    ensures
        s.contains(x),
    decreases s.len(),
{
    if s.len() > 0 {
        let sorted = insertion_sorted(s.drop_last(), after);
        lemma_insert_pos_bound(sorted, s.last(), after);
        let p = insert_pos(sorted, s.last(), after) as int;
        let k = choose|k: int| 0 <= k < insertion_sorted(s, after).len() && insertion_sorted(s, after)[k] == x;
        if k < p {
            assert(sorted[k] == x);
            lemma_insertion_sorted_contains(s.drop_last(), after, x);
        } else if k > p {
            assert(sorted[k - 1] == x);
            lemma_insertion_sorted_contains(s.drop_last(), after, x);
        }
        if x != s.last() {
            let j = choose|j: int| 0 <= j < s.drop_last().len() && s.drop_last()[j] == x;
            assert(s[j] == x);
        } else {
            assert(s[s.len() - 1] == x);
        }
    }
}

/// No element of `s` goes after a later one.
pub open spec fn sorted_by<A>(s: Seq<A>, after: spec_fn(A, A) -> bool) -> bool {
    forall|i: int, j: int| 0 <= i < j < s.len() ==> !after(#[trigger] s[i], #[trigger] s[j])
}

/// Where an element is inserted, everything after it goes after it, and the
/// element just before it does not.
proof fn lemma_insert_pos<A>(s: Seq<A>, x: A, after: spec_fn(A, A) -> bool)
    ensures
        insert_pos(s, x, after) <= s.len(),
        forall|k: int| insert_pos(s, x, after) <= k < s.len() ==> after(#[trigger] s[k], x),
        insert_pos(s, x, after) > 0 ==> !after(s[insert_pos(s, x, after) - 1], x),
    decreases s.len(),
{
    if s.len() > 0 && after(s.last(), x) {
        lemma_insert_pos(s.drop_last(), x, after);
        assert forall|k: int| insert_pos(s, x, after) <= k < s.len() implies after(#[trigger] s[k], x) by {
            if k < s.len() - 1 {
                assert(s[k] == s.drop_last()[k]);
            }
        }
        if insert_pos(s, x, after) > 0 {
            assert(s[insert_pos(s, x, after) - 1] == s.drop_last()[insert_pos(s, x, after) - 1]);
        }
    }
}

/// Insertion sorting with a relation that is asymmetric and whose negation
/// is transitive, on the elements at hand, leaves no element after a later
/// one.
pub proof fn lemma_insertion_sorted_sorted<A>(s: Seq<A>, after: spec_fn(A, A) -> bool, good: spec_fn(A) -> bool)
    requires
        forall|i: int| 0 <= i < s.len() ==> good(#[trigger] s[i]),
        forall|a: A, b: A| good(a) && good(b) && #[trigger] after(a, b) ==> !after(b, a),
        forall|a: A, b: A, c: A|
            good(a) && good(b) && good(c) && !#[trigger] after(a, b) && !#[trigger] after(b, c) ==> !after(a, c),
    ensures
        sorted_by(insertion_sorted(s, after), after),
        forall|i: int| 0 <= i < insertion_sorted(s, after).len() ==> good(#[trigger] insertion_sorted(s, after)[i]),
    decreases s.len(),
{
    if s.len() > 0 {
        let t = s.drop_last();
        assert forall|i: int| 0 <= i < t.len() implies good(#[trigger] t[i]) by {
            assert(t[i] == s[i]);
        }
        lemma_insertion_sorted_sorted(t, after, good);
        let sorted = insertion_sorted(t, after);
        let x = s.last();
        assert(good(x));
        lemma_insert_pos(sorted, x, after);
        let p = insert_pos(sorted, x, after) as int;
        let r = sorted.insert(p, x);
        assert(insertion_sorted(s, after) == r);
        assert forall|i: int| 0 <= i < r.len() implies good(#[trigger] r[i]) by {
            if i < p {
                assert(r[i] == sorted[i]);
            } else if i > p {
                assert(r[i] == sorted[i - 1]);
            }
        }
        assert forall|i: int, j: int| 0 <= i < j < r.len() implies !after(#[trigger] r[i], #[trigger] r[j]) by {
            if j < p {
                assert(r[i] == sorted[i] && r[j] == sorted[j]);
            } else if i > p {
                assert(r[i] == sorted[i - 1] && r[j] == sorted[j - 1]);
            } else if i < p && j > p {
                assert(r[i] == sorted[i] && r[j] == sorted[j - 1]);
            } else if i == p {
                assert(r[j] == sorted[j - 1]);
                assert(after(sorted[j - 1], x));
                assert(good(sorted[j - 1]));
            } else {
                assert(j == p);
                assert(r[i] == sorted[i]);
                assert(!after(sorted[p - 1], x));
                if i < p - 1 {
                    assert(!after(sorted[i], sorted[p - 1]));
                    assert(good(sorted[i]) && good(sorted[p - 1]));
                }
            }
        }
    }
}

/// Sorted versions come out in order, as long as no numeric component of a
/// version is past `u64::MAX` and none is `pre` (with either the order is
/// no longer transitive).
pub proof fn law_sorted_versions_are_in_order(s: Seq<(Seq<char>, nat)>)
    requires
        forall|i: int| 0 <= i < s.len() ==> crate::version::plain_components(crate::version::components_of(#[trigger] s[i].0)),
    ensures
        forall|i: int, j: int|
            0 <= i < j < sorted_versions(s).len() ==> version_order(
                #[trigger] sorted_versions(s)[i].0,
                #[trigger] sorted_versions(s)[j].0,
            ) != Order::Greater,
{
    let after = |a: (Seq<char>, nat), b: (Seq<char>, nat)| version_after(a, b);
    let good = |a: (Seq<char>, nat)| crate::version::plain_components(crate::version::components_of(a.0));
    assert forall|a: (Seq<char>, nat), b: (Seq<char>, nat)| good(a) && good(b) && #[trigger] after(a, b) implies !after(b, a) by {
        crate::version::law_version_order_converse(a.0, b.0);
    }
    assert forall|a: (Seq<char>, nat), b: (Seq<char>, nat), c: (Seq<char>, nat)|
        good(a) && good(b) && good(c) && !#[trigger] after(a, b) && !#[trigger] after(b, c) implies !after(a, c) by {
        crate::version::law_version_order_transitive(a.0, b.0, c.0);
        crate::version::law_version_order_transitive(b.0, c.0, a.0);
    }
    lemma_insertion_sorted_sorted(s, after, good);
}

/// A version goes after another when its name orders above it.
pub open spec fn version_after(a: (Seq<char>, nat), b: (Seq<char>, nat)) -> bool {
    version_order(a.0, b.0) == Order::Greater
}

impl Ranked for Version {
    type Key = (Seq<char>, nat);

    open spec fn key(&self) -> (Seq<char>, nat) {
        self@
    }

    open spec fn after(a: (Seq<char>, nat), b: (Seq<char>, nat)) -> bool {
        version_after(a, b)
    }

    fn goes_after(&self, other: &Version) -> (b: bool) {
        self.compare(other) == Order::Greater
    }
}

impl<'a> Ranked for &'a Version {
    type Key = (Seq<char>, nat);

    open spec fn key(&self) -> (Seq<char>, nat) {
        (*self)@
    }

    open spec fn after(a: (Seq<char>, nat), b: (Seq<char>, nat)) -> bool {
        version_after(a, b)
    }

    fn goes_after(&self, other: &&'a Version) -> (b: bool) {
        (*self).compare(*other) == Order::Greater
    }
}

pub open spec fn version_views(s: Seq<Version>) -> Seq<(Seq<char>, nat)> {
    s.map_values(|v: Version| v@)
}

/// Versions sorted by name with a stable insertion sort.
pub open spec fn sorted_versions(s: Seq<(Seq<char>, nat)>) -> Seq<(Seq<char>, nat)> {
    insertion_sorted(s, |a: (Seq<char>, nat), b: (Seq<char>, nat)| version_after(a, b))
}

/// Sorts `versions` by name, moving each version back past those above it.
pub fn sort_versions(versions: &mut Vec<Version>)
    ensures
        version_views(final(versions)@) == sorted_versions(version_views(old(versions)@)),
{
    insertion_sort(versions);
    proof {
        assert(version_views(versions@) =~= keys(versions@));
        assert(version_views(old(versions)@) =~= keys(old(versions)@));
        assert(after_fn::<Version>() == (|a: (Seq<char>, nat), b: (Seq<char>, nat)| version_after(a, b)));
    }
}

} // verus!
