//! Stable sorting by a strict "sorts before" relation, as `slice::sort_by`
//! does it, with the laws that its result is ordered and a permutation.
use vstd::prelude::*;

verus! {

/// A type whose values are ordered, through their views, by a strict weak
/// order on some key.
pub trait SortKey: View + Sized {
    /// `a` sorts strictly before `b`.
    spec fn key_lt(a: Self::V, b: Self::V) -> bool;

    /// Executable form of [`SortKey::key_lt`].
    fn sorts_before(&self, other: &Self) -> (r: bool)
        ensures
            r == Self::key_lt(self@, other@),
    ;

    proof fn lemma_key_lt_irreflexive(a: Self::V)
        ensures
            !Self::key_lt(a, a),
    ;

    proof fn lemma_key_lt_transitive(a: Self::V, b: Self::V, c: Self::V)
        requires
            Self::key_lt(a, b),
            Self::key_lt(b, c),
        ensures
            Self::key_lt(a, c),
    ;
}

/// The views of the elements of `s`.
pub open spec fn views<T: View>(s: Seq<T>) -> Seq<T::V> {
    s.map_values(|t: T| t@)
}

/// Indexing commutes with taking views.
pub proof fn lemma_views_index<T: View>(s: Seq<T>, i: int)
    requires
        0 <= i < s.len(),
    ensures
        views(s).len() == s.len(),
        views(s)[i] == s[i]@,
{
}

/// The first position of `r` whose element `x` sorts strictly before,
/// or `r.len()` when there is none: where a stable sort puts `x`.
pub open spec fn insert_pos<T: SortKey>(r: Seq<T::V>, x: T::V) -> int
    decreases r.len(),
{
    if r.len() == 0 {
        0
    } else if T::key_lt(x, r[0]) {
        0
    } else {
        1 + insert_pos::<T>(r.drop_first(), x)
    }
}

/// The stable sort of `s`: each element, in order, goes after every element
/// already placed that it does not sort strictly before.
pub open spec fn stable_sorted<T: SortKey>(s: Seq<T::V>) -> Seq<T::V>
    decreases s.len(),
{
    if s.len() == 0 {
        s
    } else {
        let r = stable_sorted::<T>(s.drop_last());
        r.insert(insert_pos::<T>(r, s.last()), s.last())
    }
}

/// No element sorts strictly before an element that precedes it.
pub open spec fn is_ordered<T: SortKey>(s: Seq<T::V>) -> bool {
    forall|i: int, j: int| 0 <= i < j < s.len() ==> !(#[trigger] T::key_lt(s[j], s[i]))
}

proof fn lemma_insert_pos_facts<T: SortKey>(r: Seq<T::V>, x: T::V)
    ensures
        0 <= insert_pos::<T>(r, x) <= r.len(),
        forall|i: int| 0 <= i < insert_pos::<T>(r, x) ==> !T::key_lt(x, #[trigger] r[i]),
        insert_pos::<T>(r, x) < r.len() ==> T::key_lt(x, r[insert_pos::<T>(r, x)]),
    decreases r.len(),
{
    if r.len() > 0 && !T::key_lt(x, r[0]) {
        lemma_insert_pos_facts::<T>(r.drop_first(), x);
        assert forall|i: int| 0 <= i < insert_pos::<T>(r, x) implies !T::key_lt(
            x,
            #[trigger] r[i],
        ) by {
            if i > 0 {
                assert(r[i] == r.drop_first()[i - 1]);
            }
        }
    }
}

proof fn lemma_insert_keeps_order<T: SortKey>(r: Seq<T::V>, x: T::V)
    requires
        is_ordered::<T>(r),
    ensures
        is_ordered::<T>(r.insert(insert_pos::<T>(r, x), x)),
{
    lemma_insert_pos_facts::<T>(r, x);
    let p = insert_pos::<T>(r, x);
    let t = r.insert(p, x);
    assert forall|i: int, j: int| 0 <= i < j < t.len() implies !(#[trigger] T::key_lt(
        t[j],
        t[i],
    )) by {
        if j < p {
            assert(t[i] == r[i] && t[j] == r[j]);
        } else if j == p {
            assert(t[i] == r[i]);
        } else if i < p {
            assert(t[i] == r[i] && t[j] == r[j - 1]);
        } else if i == p {
            // t[j] == r[j - 1] with p <= j - 1; if it sorted before x, then
            // with x before r[p] it would sort before r[p], against the order.
            assert(t[j] == r[j - 1]);
            if T::key_lt(t[j], x) {
                T::lemma_key_lt_transitive(r[j - 1], x, r[p]);
                if j - 1 == p {
                    T::lemma_key_lt_irreflexive(r[p]);
                }
            }
        } else {
            assert(t[i] == r[i - 1] && t[j] == r[j - 1]);
        }
    }
}

/// Law: a stable sort orders its input.
pub proof fn lemma_stable_sorted_is_ordered<T: SortKey>(s: Seq<T::V>)
    ensures
        is_ordered::<T>(stable_sorted::<T>(s)),
    decreases s.len(),
{
    if s.len() > 0 {
        lemma_stable_sorted_is_ordered::<T>(s.drop_last());
        lemma_insert_keeps_order::<T>(stable_sorted::<T>(s.drop_last()), s.last());
    }
}

/// Law: a stable sort keeps exactly the elements of its input.
pub proof fn lemma_stable_sorted_is_permutation<T: SortKey>(s: Seq<T::V>)
    ensures
        stable_sorted::<T>(s).to_multiset() == s.to_multiset(),
    decreases s.len(),
{
    broadcast use vstd::seq_lib::group_to_multiset_ensures;

    if s.len() > 0 {
        lemma_stable_sorted_is_permutation::<T>(s.drop_last());
        let r = stable_sorted::<T>(s.drop_last());
        lemma_insert_pos_facts::<T>(r, s.last());
        vstd::seq_lib::to_multiset_insert(r, insert_pos::<T>(r, s.last()), s.last());
        assert(s =~= s.drop_last().push(s.last()));
    }
}

/// Law: sorting an ordered sequence leaves it as it is.
pub proof fn lemma_stable_sorted_of_ordered<T: SortKey>(s: Seq<T::V>)
    requires
        is_ordered::<T>(s),
    ensures
        stable_sorted::<T>(s) == s,
    decreases s.len(),
{
    if s.len() > 0 {
        let d = s.drop_last();
        assert(is_ordered::<T>(d)) by {
            assert forall|i: int, j: int| 0 <= i < j < d.len() implies !(#[trigger] T::key_lt(
                d[j],
                d[i],
            )) by {
                assert(d[i] == s[i] && d[j] == s[j]);
            }
        }
        lemma_stable_sorted_of_ordered::<T>(d);
        lemma_insert_pos_at_end::<T>(d, s.last(), s);
        assert(d.insert(d.len() as int, s.last()) =~= s);
    }
}

proof fn lemma_insert_pos_at_end<T: SortKey>(d: Seq<T::V>, x: T::V, s: Seq<T::V>)
    requires
        is_ordered::<T>(s),
        s.len() > 0,
        d == s.drop_last(),
        x == s.last(),
    ensures
        insert_pos::<T>(d, x) == d.len(),
    decreases d.len(),
{
    if d.len() > 0 {
        assert(!T::key_lt(s[s.len() - 1], s[0]));
        let s2 = s.drop_first();
        assert forall|i: int, j: int| 0 <= i < j < s2.len() implies !(#[trigger] T::key_lt(
            s2[j],
            s2[i],
        )) by {
            assert(s2[i] == s[i + 1] && s2[j] == s[j + 1]);
        }
        assert(d.drop_first() =~= s2.drop_last());
        lemma_insert_pos_at_end::<T>(d.drop_first(), x, s2);
    }
}


/// Law: every element of a stable sort comes from its input.
pub proof fn lemma_stable_sorted_from_input<T: SortKey>(s: Seq<T::V>)
    ensures
        forall|i: int| 0 <= i < stable_sorted::<T>(s).len() ==> s.contains(#[trigger] stable_sorted::<T>(s)[i]),
{
    broadcast use vstd::seq_lib::group_to_multiset_ensures;

    lemma_stable_sorted_is_permutation::<T>(s);
    let r = stable_sorted::<T>(s);
    assert forall|i: int| 0 <= i < r.len() implies s.contains(#[trigger] r[i]) by {
        assert(r.to_multiset().count(r[i]) > 0);
        assert(s.to_multiset().count(r[i]) > 0);
    }
}

/// Sorts `v` stably: elements that neither sorts before the other keep
/// their relative order.
pub fn stable_sort<T: SortKey>(v: Vec<T>) -> (r: Vec<T>)
    ensures
        views(r@) == stable_sorted::<T>(views(v@)),
        r@.to_multiset() == v@.to_multiset(),
{
    broadcast use vstd::seq_lib::group_to_multiset_ensures;

    let mut rest = v;
    let mut out: Vec<T> = Vec::new();
    let ghost original = rest@;
    let ghost mut done: nat = 0;
    assert(original.take(0) =~= Seq::<T>::empty());
    assert(views(out@) =~= Seq::<T::V>::empty());
    while rest.len() > 0
        invariant
            done <= original.len(),
            rest@ == original.skip(done as int),
            views(out@) == stable_sorted::<T>(views(original.take(done as int))),
            out@.to_multiset() == original.take(done as int).to_multiset(),
        decreases rest@.len(),
    {
        let x = rest.remove(0);
        let mut j: usize = 0;
        let ghost ov = views(out@);
        proof {
            lemma_insert_pos_facts::<T>(ov, x@);
        }
        while j < out.len() && !x.sorts_before(&out[j])
            invariant
                ov == views(out@),
                j <= out@.len(),
                j <= insert_pos::<T>(ov, x@),
                0 <= insert_pos::<T>(ov, x@) <= ov.len(),
                forall|i: int| 0 <= i < insert_pos::<T>(ov, x@) ==> !T::key_lt(x@, #[trigger] ov[i]),
                insert_pos::<T>(ov, x@) < ov.len() ==> T::key_lt(x@, ov[insert_pos::<T>(ov, x@)]),
            decreases out@.len() - j,
        {
            assert(ov[j as int] == out@[j as int]@);
            j = j + 1;
        }
        if j < out.len() {
            assert(ov[j as int] == out@[j as int]@);
        }
        let ghost old_out = out@;
        out.insert(j, x);
        proof {
            assert(x == original[done as int]);
            let t = original.take(done + 1int);
            assert(t.drop_last() =~= original.take(done as int));
            assert(t.last() == x);
            assert(views(t).drop_last() =~= views(original.take(done as int)));
            assert(views(out@) =~= ov.insert(j as int, x@));
            vstd::seq_lib::to_multiset_insert(old_out, j as int, x);
            let prev = original.take(done as int);
            assert(t =~= prev.push(x));
            vstd::seq_lib::to_multiset_build(prev, x);
            done = done + 1;
        }
        assert(rest@ =~= original.skip(done as int));
    }
    assert(original.take(done as int) =~= original);
    out
}

} // verus!
