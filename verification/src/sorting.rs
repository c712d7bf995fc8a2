//! Stable sorting: the mathematical definition, its laws, and a verified
//! insertion sort on vectors.

use vstd::prelude::*;

verus! {

/// `le` relates any two values one way or the other, and is transitive.
pub open spec fn total_preorder<T>(le: spec_fn(T, T) -> bool) -> bool {
    &&& forall|a: T, b: T| #[trigger] le(a, b) || le(b, a)
    &&& forall|a: T, b: T, c: T| #[trigger] le(a, b) && #[trigger] le(b, c) ==> le(a, c)
}

/// Every element is related to every later one.
pub open spec fn ordered<T>(s: Seq<T>, le: spec_fn(T, T) -> bool) -> bool {
    forall|i: int, j: int| 0 <= i < j < s.len() ==> le(s[i], s[j])
}

/// `x` placed into `s` behind the last element that it does not precede.
pub open spec fn insert_sorted<T>(s: Seq<T>, x: T, le: spec_fn(T, T) -> bool) -> Seq<T>
    decreases s.len(),
{
    if s.len() == 0 {
        seq![x]
    } else if le(s.last(), x) {
        s.push(x)
    } else {
        insert_sorted(s.drop_last(), x, le).push(s.last())
    }
}

/// The elements of `s` in ascending order; those that `le` relates both ways
/// keep the order in which they came.
pub open spec fn stable_sort<T>(s: Seq<T>, le: spec_fn(T, T) -> bool) -> Seq<T>
    decreases s.len(),
{
    if s.len() == 0 {
        s
    } else {
        insert_sorted(stable_sort(s.drop_last(), le), s.last(), le)
    }
}

/// Inserting adds exactly one element.
pub proof fn lemma_insert_sorted_contents<T>(s: Seq<T>, x: T, le: spec_fn(T, T) -> bool)
    ensures
        insert_sorted(s, x, le).len() == s.len() + 1,
        insert_sorted(s, x, le).to_multiset() == s.to_multiset().insert(x),
    decreases s.len(),
{
    broadcast use vstd::seq_lib::group_to_multiset_ensures;

    if s.len() == 0 {
        assert(seq![x] =~= s.push(x));
    } else if le(s.last(), x) {
    } else {
        let front = s.drop_last();
        lemma_insert_sorted_contents(front, x, le);
        assert(s =~= front.push(s.last()));
        assert(front.to_multiset().insert(x).insert(s.last()) =~= front.to_multiset().insert(
            s.last(),
        ).insert(x));
    }
}

/// Inserting into an ordered sequence leaves it ordered.
pub proof fn lemma_insert_sorted_ordered<T>(s: Seq<T>, x: T, le: spec_fn(T, T) -> bool)
    requires
        total_preorder(le),
        ordered(s, le),
    ensures
        ordered(insert_sorted(s, x, le), le),
    decreases s.len(),
{
    let r = insert_sorted(s, x, le);
    if s.len() == 0 {
    } else if le(s.last(), x) {
        assert forall|i: int, j: int| 0 <= i < j < r.len() implies le(r[i], r[j]) by {
            if j == s.len() && i < s.len() - 1 {
                assert(le(s[i], s.last()));
            }
        }
    } else {
        let front = s.drop_last();
        let inner = insert_sorted(front, x, le);
        lemma_insert_sorted_ordered(front, x, le);
        lemma_insert_sorted_contents(front, x, le);
        assert(le(x, s.last()));
        assert forall|i: int, j: int| 0 <= i < j < r.len() implies le(r[i], r[j]) by {
            if j == inner.len() {
                lemma_insert_sorted_member(front, x, le, i);
                if inner[i] != x {
                    let k = choose|k: int| 0 <= k < front.len() && front[k] == inner[i];
                    assert(le(s[k], s[s.len() - 1]));
                }
            }
        }
    }
}

/// Each element of the result of an insertion is the new one or an old one.
pub proof fn lemma_insert_sorted_member<T>(s: Seq<T>, x: T, le: spec_fn(T, T) -> bool, i: int)
    requires
        0 <= i < insert_sorted(s, x, le).len(),
    ensures
        insert_sorted(s, x, le)[i] == x || exists|k: int|
            0 <= k < s.len() && s[k] == insert_sorted(s, x, le)[i],
    decreases s.len(),
{
    if s.len() == 0 {
    } else if le(s.last(), x) {
        if i < s.len() {
            assert(s[i] == insert_sorted(s, x, le)[i]);
        }
    } else {
        let front = s.drop_last();
        lemma_insert_sorted_contents(front, x, le);
        if i < front.len() + 1 {
            lemma_insert_sorted_member(front, x, le, i);
            if insert_sorted(front, x, le)[i] != x {
                let k = choose|k: int|
                    0 <= k < front.len() && front[k] == insert_sorted(front, x, le)[i];
                assert(s[k] == insert_sorted(s, x, le)[i]);
            }
        } else {
            assert(s[s.len() - 1] == insert_sorted(s, x, le)[i]);
        }
    }
}

/// A sorted sequence is ordered and holds what the unsorted one held.
pub proof fn lemma_stable_sort_sorts<T>(s: Seq<T>, le: spec_fn(T, T) -> bool)
    requires
        total_preorder(le),
    ensures
        ordered(stable_sort(s, le), le),
        stable_sort(s, le).len() == s.len(),
        stable_sort(s, le).to_multiset() == s.to_multiset(),
    decreases s.len(),
{
    broadcast use vstd::seq_lib::group_to_multiset_ensures;

    if s.len() > 0 {
        let front = s.drop_last();
        lemma_stable_sort_sorts(front, le);
        lemma_insert_sorted_ordered(stable_sort(front, le), s.last(), le);
        lemma_insert_sorted_contents(stable_sort(front, le), s.last(), le);
        assert(s =~= front.push(s.last()));
    }
}

/// Sorting an ordered sequence changes nothing.
pub proof fn lemma_stable_sort_of_ordered<T>(s: Seq<T>, le: spec_fn(T, T) -> bool)
    requires
        ordered(s, le),
    ensures
        stable_sort(s, le) == s,
    decreases s.len(),
{
    if s.len() > 0 {
        let front = s.drop_last();
        lemma_stable_sort_of_ordered(front, le);
        if front.len() > 0 {
            assert(le(s[s.len() - 2], s[s.len() - 1]));
            assert(front.last() == s[s.len() - 2]);
        }
        assert(insert_sorted(front, s.last(), le) =~= s);
    }
}

/// Those elements of `s` that satisfy `p`, in order.
pub open spec fn chosen<T>(s: Seq<T>, p: spec_fn(T) -> bool) -> Seq<T>
    decreases s.len(),
{
    if s.len() == 0 {
        s
    } else if p(s.last()) {
        chosen(s.drop_last(), p).push(s.last())
    } else {
        chosen(s.drop_last(), p)
    }
}

/// Sorting is stable: elements that rank alike keep their order. Whatever
/// `p` chooses, if `le` relates any two chosen elements, then the chosen
/// elements come in the same order before and after sorting.
pub proof fn lemma_stable_sort_is_stable<T>(
    s: Seq<T>,
    le: spec_fn(T, T) -> bool,
    p: spec_fn(T) -> bool,
)
    requires
        forall|a: T, b: T| p(a) && p(b) ==> #[trigger] le(a, b),
    ensures
        chosen(stable_sort(s, le), p) == chosen(s, p),
    decreases s.len(),
{
    if s.len() > 0 {
        lemma_stable_sort_is_stable(s.drop_last(), le, p);
        lemma_insert_sorted_is_stable(stable_sort(s.drop_last(), le), s.last(), le, p);
    }
}

/// Inserting keeps the order of the chosen elements, and puts a chosen
/// new element behind them.
proof fn lemma_insert_sorted_is_stable<T>(
    s: Seq<T>,
    x: T,
    le: spec_fn(T, T) -> bool,
    p: spec_fn(T) -> bool,
)
    requires
        forall|a: T, b: T| p(a) && p(b) ==> #[trigger] le(a, b),
    ensures
        chosen(insert_sorted(s, x, le), p) == if p(x) {
            chosen(s, p).push(x)
        } else {
            chosen(s, p)
        },
    decreases s.len(),
{
    if s.len() == 0 {
        assert(seq![x].drop_last() =~= s);
        assert(chosen(s, p).push(x) =~= seq![x]);
    } else if le(s.last(), x) {
        assert(s.push(x).drop_last() =~= s);
    } else {
        let inner = insert_sorted(s.drop_last(), x, le);
        lemma_insert_sorted_is_stable(s.drop_last(), x, le, p);
        assert(inner.push(s.last()).drop_last() =~= inner);
    }
}

/// Sorting twice is sorting once.
pub proof fn lemma_stable_sort_idempotent<T>(s: Seq<T>, le: spec_fn(T, T) -> bool)
    requires
        total_preorder(le),
    ensures
        stable_sort(stable_sort(s, le), le) == stable_sort(s, le),
{
    lemma_stable_sort_sorts(s, le);
    lemma_stable_sort_of_ordered(stable_sort(s, le), le);
}

/// Every element of a sorted sequence is an element of the unsorted one.
pub proof fn lemma_stable_sort_members<T>(s: Seq<T>, le: spec_fn(T, T) -> bool)
    ensures
        forall|i: int|
            0 <= i < stable_sort(s, le).len() ==> s.contains(#[trigger] stable_sort(s, le)[i]),
    decreases s.len(),
{
    if s.len() > 0 {
        let front = s.drop_last();
        let inner = stable_sort(front, le);
        lemma_stable_sort_members(front, le);
        assert forall|i: int| 0 <= i < stable_sort(s, le).len() implies s.contains(
            #[trigger] stable_sort(s, le)[i],
        ) by {
            let x = stable_sort(s, le)[i];
            lemma_insert_sorted_member(inner, s.last(), le, i);
            if x == s.last() {
                assert(s[s.len() - 1] == x);
            } else {
                let k = choose|k: int| 0 <= k < inner.len() && inner[k] == x;
                assert(front.contains(inner[k]));
                let j = choose|j: int| 0 <= j < front.len() && front[j] == x;
                assert(s[j] == x);
            }
        }
    }
}

/// The images of the elements under any function are the same, as a
/// multiset, before and after sorting.
pub proof fn lemma_stable_sort_images<T, U>(
    s: Seq<T>,
    le: spec_fn(T, T) -> bool,
    f: spec_fn(T) -> U,
)
    ensures
        stable_sort(s, le).map_values(f).to_multiset() == s.map_values(f).to_multiset(),
    decreases s.len(),
{
    broadcast use vstd::seq_lib::group_to_multiset_ensures;

    if s.len() == 0 {
    } else {
        let front = s.drop_last();
        lemma_stable_sort_images(front, le, f);
        lemma_insert_sorted_images(stable_sort(front, le), s.last(), le, f);
        assert(s.map_values(f) =~= front.map_values(f).push(f(s.last())));
    }
}

/// The images after an insertion are those before it and the image of the
/// new element.
pub proof fn lemma_insert_sorted_images<T, U>(
    s: Seq<T>,
    x: T,
    le: spec_fn(T, T) -> bool,
    f: spec_fn(T) -> U,
)
    ensures
        insert_sorted(s, x, le).map_values(f).to_multiset() == s.map_values(f).to_multiset().insert(
            f(x),
        ),
    decreases s.len(),
{
    broadcast use vstd::seq_lib::group_to_multiset_ensures;

    if s.len() == 0 {
        assert(seq![x].map_values(f) =~= s.map_values(f).push(f(x)));
    } else if le(s.last(), x) {
        assert(s.push(x).map_values(f) =~= s.map_values(f).push(f(x)));
    } else {
        let front = s.drop_last();
        let inner = insert_sorted(front, x, le);
        lemma_insert_sorted_images(front, x, le, f);
        assert(inner.push(s.last()).map_values(f) =~= inner.map_values(f).push(f(s.last())));
        assert(s.map_values(f) =~= front.map_values(f).push(f(s.last())));
        assert(front.map_values(f).to_multiset().insert(f(x)).insert(f(s.last()))
            =~= front.map_values(f).to_multiset().insert(f(s.last())).insert(f(x)));
    }
}

/// The views of the elements of a sequence.
pub open spec fn views<T: View>(s: Seq<T>) -> Seq<T::V> {
    s.map_values(|x: T| x@)
}

/// A way to rank the values of `T` by their views, with a test that decides it.
pub trait Ranking<T: View> {
    /// The relation on views; the first argument comes no later than the second.
    spec fn relation() -> spec_fn(T::V, T::V) -> bool;

    /// Decides the relation for two values.
    fn decide(a: &T, b: &T) -> (r: bool)
        ensures
            r == (Self::relation())(a@, b@),
    ;

    /// The relation ranks: it relates any two views one way or the other,
    /// and is transitive.
    proof fn lawful()
        ensures
            total_preorder(Self::relation()),
    ;
}

/// Sorts `v` in place by the ranking `R`, keeping the order of elements that
/// rank alike. Afterwards the views stand in order, and are those that were
/// there before.
pub fn sort_stably<T: View, R: Ranking<T>>(v: &mut Vec<T>)
    ensures
        views(final(v)@) == stable_sort(views(old(v)@), R::relation()),
        ordered(views(final(v)@), R::relation()),
        views(final(v)@).to_multiset() == views(old(v)@).to_multiset(),
        final(v)@.len() == old(v)@.len(),
{
    proof {
        R::lawful();
        lemma_stable_sort_sorts(views(v@), R::relation());
    }
    let n = v.len();
    let ghost orig = views(v@);
    let ghost le = R::relation();
    let mut i: usize = 0;
    assert(views(v@).take(0) =~= stable_sort(orig.take(0), le));
    while i < n
        invariant
            i <= n,
            v@.len() == n,
            orig.len() == n,
            le == R::relation(),
            views(v@).take(i as int) == stable_sort(orig.take(i as int), le),
            views(v@).skip(i as int) == orig.skip(i as int),
        decreases n - i,
    {
        let ghost before = views(v@);
        let ghost prefix = before.take(i as int);
        let x = v.remove(i);
        assert(x@ == orig[i as int]) by {
            assert(before.skip(i as int)[0] == orig.skip(i as int)[0]);
        }
        assert(views(v@) =~= prefix + orig.skip(i + 1)) by {
            assert forall|k: int| i <= k < n - 1 implies views(v@)[k] == orig[k + 1] by {
                assert(before.skip(i as int)[k + 1 - i] == orig.skip(i as int)[k + 1 - i]);
            }
        }
        let mut j: usize = i;
        let mut searching = true;
        assert(prefix.take(j as int) =~= prefix);
        assert(insert_sorted(prefix, x@, le) =~= insert_sorted(prefix.take(j as int), x@, le)
            + prefix.skip(j as int));
        while searching && j > 0
            invariant
                j <= i < n,
                v@.len() == n - 1,
                prefix.len() == i,
                le == R::relation(),
                views(v@) == prefix + orig.skip(i + 1),
                insert_sorted(prefix, x@, le) == insert_sorted(prefix.take(j as int), x@, le)
                    + prefix.skip(j as int),
                !searching ==> j > 0 && le(prefix[j - 1], x@),
            decreases j + (if searching { 1int } else { 0int }),
        {
            assert(views(v@)[j - 1] == prefix[j - 1]);
            if R::decide(&v[j - 1], &x) {
                searching = false;
            } else {
                let ghost part = prefix.take(j as int);
                assert(part.last() == prefix[j - 1]);
                assert(part.drop_last() =~= prefix.take(j - 1));
                assert(insert_sorted(part, x@, le) + prefix.skip(j as int) =~= insert_sorted(
                    prefix.take(j - 1),
                    x@,
                    le,
                ) + prefix.skip(j - 1));
                j = j - 1;
            }
        }
        let ghost part = prefix.take(j as int);
        assert(insert_sorted(part, x@, le) =~= part.push(x@)) by {
            if j > 0 {
                assert(part.last() == prefix[j - 1]);
            }
        }
        let ghost held = views(v@);
        let ghost item = x@;
        v.insert(j, x);
        assert(views(v@) =~= held.insert(j as int, item));
        assert(insert_sorted(prefix, item, le) =~= prefix.insert(j as int, item));
        assert(views(v@) =~= insert_sorted(prefix, item, le) + orig.skip(i + 1));
        proof {
            let upto = orig.take(i + 1);
            assert(upto.drop_last() =~= orig.take(i as int));
            assert(upto.last() == orig[i as int]);
            lemma_insert_sorted_contents(prefix, item, le);
            assert(views(v@).take(i + 1) =~= insert_sorted(prefix, item, le));
            assert(views(v@).skip(i + 1) =~= orig.skip(i + 1));
        }
        i = i + 1;
    }
    assert(views(v@).take(n as int) =~= views(v@));
    assert(orig.take(n as int) =~= orig);
}

} // verus!
