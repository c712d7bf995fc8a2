//! Results that are joined in order, and the products of every element of
//! one sequence with every element of another.

use crate::basis::AlgebraError;
use vstd::prelude::*;

verus! {

/// The first of two results if it is an error, else the second if it is
/// one, else both values joined.
pub open spec fn joined<T>(
    a: Result<Seq<T>, AlgebraError>,
    b: Result<Seq<T>, AlgebraError>,
) -> Result<Seq<T>, AlgebraError> {
    match a {
        Err(e) => Err(e),
        Ok(x) => match b {
            Err(e) => Err(e),
            Ok(y) => Ok(x + y),
        },
    }
}

/// A result as a sequence of one value.
pub open spec fn single<T>(r: Result<T, AlgebraError>) -> Result<Seq<T>, AlgebraError> {
    match r {
        Ok(value) => Ok(seq![value]),
        Err(e) => Err(e),
    }
}

/// What `f` makes of `x` and each element of `ys`, in order, or the first
/// error.
pub open spec fn row_of<A, B, C>(
    x: A,
    ys: Seq<B>,
    f: spec_fn(A, B) -> Result<C, AlgebraError>,
) -> Result<Seq<C>, AlgebraError>
    decreases ys.len(),
{
    if ys.len() == 0 {
        Ok(Seq::empty())
    } else {
        joined(row_of(x, ys.drop_last(), f), single(f(x, ys.last())))
    }
}

/// What `f` makes of each element of `xs` and each element of `ys`: all
/// the pairs of the first element of `xs`, then all those of the second,
/// and so on; or the first error in that order.
pub open spec fn all_pairs<A, B, C>(
    xs: Seq<A>,
    ys: Seq<B>,
    f: spec_fn(A, B) -> Result<C, AlgebraError>,
) -> Result<Seq<C>, AlgebraError>
    decreases xs.len(),
{
    if xs.len() == 0 {
        Ok(Seq::empty())
    } else {
        joined(all_pairs(xs.drop_last(), ys, f), row_of(xs.last(), ys, f))
    }
}

/// The pair `(i, j)` comes before the pair `(k, l)` in the order in which
/// the pairs are made.
pub open spec fn earlier(i: int, j: int, k: int, l: int) -> bool {
    i < k || (i == k && j < l)
}

/// Joining results is associative.
pub proof fn lemma_joined_associative<T>(
    x: Result<Seq<T>, AlgebraError>,
    y: Result<Seq<T>, AlgebraError>,
    z: Result<Seq<T>, AlgebraError>,
)
    ensures
        joined(joined(x, y), z) == joined(x, joined(y, z)),
{
    if x is Ok && y is Ok && z is Ok {
        assert((x->Ok_0 + y->Ok_0) + z->Ok_0 =~= x->Ok_0 + (y->Ok_0 + z->Ok_0));
    }
}

/// Where the row of the first `k` elements fails, the whole row fails in
/// the same way.
pub proof fn lemma_row_fails<A, B, C>(
    x: A,
    ys: Seq<B>,
    f: spec_fn(A, B) -> Result<C, AlgebraError>,
    k: int,
)
    requires
        0 <= k <= ys.len(),
        row_of(x, ys.take(k), f) is Err,
    ensures
        row_of(x, ys, f) == row_of(x, ys.take(k), f),
    decreases ys.len() - k,
{
    if k < ys.len() {
        assert(ys.take(k + 1).drop_last() =~= ys.take(k));
        lemma_row_fails(x, ys, f, k + 1);
    } else {
        assert(ys.take(k) =~= ys);
    }
}

/// Where the pairs of the first `k` elements of `xs` fail, all the pairs
/// fail in the same way.
pub proof fn lemma_pairs_fail<A, B, C>(
    xs: Seq<A>,
    ys: Seq<B>,
    f: spec_fn(A, B) -> Result<C, AlgebraError>,
    k: int,
)
    requires
        0 <= k <= xs.len(),
        all_pairs(xs.take(k), ys, f) is Err,
    ensures
        all_pairs(xs, ys, f) == all_pairs(xs.take(k), ys, f),
    decreases xs.len() - k,
{
    if k < xs.len() {
        assert(xs.take(k + 1).drop_last() =~= xs.take(k));
        lemma_pairs_fail(xs, ys, f, k + 1);
    } else {
        assert(xs.take(k) =~= xs);
    }
}

/// A row exists exactly where `f` accepts every pair of it, and then
/// holds the value of each pair at its place. Where it fails, it fails
/// with the error of the first pair that `f` refuses.
pub proof fn lemma_row_characterized<A, B, C>(
    x: A,
    ys: Seq<B>,
    f: spec_fn(A, B) -> Result<C, AlgebraError>,
)
    ensures
        row_of(x, ys, f) is Ok <==> forall|j: int| 0 <= j < ys.len() ==> (#[trigger] f(x, ys[j]))
            is Ok,
        row_of(x, ys, f) is Ok ==> row_of(x, ys, f)->Ok_0.len() == ys.len() && forall|j: int|
            0 <= j < ys.len() ==> (#[trigger] row_of(x, ys, f)->Ok_0[j]) == f(x, ys[j])->Ok_0,
        row_of(x, ys, f) is Err ==> exists|j: int|
            0 <= j < ys.len() && #[trigger] f(x, ys[j]) == Err::<C, AlgebraError>(
                row_of(x, ys, f)->Err_0,
            ) && forall|l: int| 0 <= l < j ==> (#[trigger] f(x, ys[l])) is Ok,
    decreases ys.len(),
{
    if ys.len() > 0 {
        let front = ys.drop_last();
        let n = front.len() as int;
        lemma_row_characterized(x, front, f);
        assert(forall|j: int| 0 <= j < n ==> front[j] == ys[j]);
        let inner = row_of(x, front, f);
        if inner is Ok {
            if f(x, ys.last()) is Ok {
                assert forall|j: int| 0 <= j < ys.len() implies (#[trigger] f(x, ys[j])) is Ok by {
                    if j < n {
                        assert(f(x, front[j]) is Ok);
                    }
                }
                assert forall|j: int| 0 <= j < ys.len() implies (#[trigger] row_of(
                    x,
                    ys,
                    f,
                )->Ok_0[j]) == f(x, ys[j])->Ok_0 by {
                    if j < n {
                        assert(inner->Ok_0[j] == f(x, front[j])->Ok_0);
                    }
                }
            } else {
                assert(f(x, ys[n]) == Err::<C, AlgebraError>(row_of(x, ys, f)->Err_0));
                assert forall|l: int| 0 <= l < n implies (#[trigger] f(x, ys[l])) is Ok by {
                    assert(f(x, front[l]) is Ok);
                }
            }
        } else {
            let j = choose|j: int|
                0 <= j < n && #[trigger] f(x, front[j]) == Err::<C, AlgebraError>(inner->Err_0)
                    && forall|l: int| 0 <= l < j ==> (#[trigger] f(x, front[l])) is Ok;
            assert(f(x, ys[j]) == Err::<C, AlgebraError>(row_of(x, ys, f)->Err_0));
            assert forall|l: int| 0 <= l < j implies (#[trigger] f(x, ys[l])) is Ok by {
                assert(f(x, front[l]) is Ok);
            }
        }
    }
}

/// All the pairs exist exactly where `f` accepts every pair. The result
/// then holds the value of the pair `(i, j)` at the place `i * n + j`,
/// where `n` is the length of `ys`. Where they fail, they fail with the
/// error of the first pair that `f` refuses.
pub proof fn lemma_pairs_characterized<A, B, C>(
    xs: Seq<A>,
    ys: Seq<B>,
    f: spec_fn(A, B) -> Result<C, AlgebraError>,
)
    ensures
        all_pairs(xs, ys, f) is Ok <==> forall|i: int, j: int|
            0 <= i < xs.len() && 0 <= j < ys.len() ==> (#[trigger] f(xs[i], ys[j])) is Ok,
        all_pairs(xs, ys, f) is Ok ==> all_pairs(xs, ys, f)->Ok_0.len() == xs.len() * ys.len()
            && forall|i: int, j: int|
            0 <= i < xs.len() && 0 <= j < ys.len() ==> 0 <= i * ys.len() + j < xs.len() * ys.len()
                && all_pairs(xs, ys, f)->Ok_0[i * ys.len() + j] == (#[trigger] f(
                xs[i],
                ys[j],
            ))->Ok_0,
        all_pairs(xs, ys, f) is Err ==> exists|i: int, j: int|
            0 <= i < xs.len() && 0 <= j < ys.len() && #[trigger] f(xs[i], ys[j]) == Err::<
                C,
                AlgebraError,
            >(all_pairs(xs, ys, f)->Err_0) && forall|k: int, l: int|
                0 <= k < xs.len() && 0 <= l < ys.len() && earlier(k, l, i, j) ==> (#[trigger] f(
                    xs[k],
                    ys[l],
                )) is Ok,
    decreases xs.len(),
{
    let n = ys.len() as int;
    if xs.len() > 0 {
        let front = xs.drop_last();
        let m = front.len() as int;
        lemma_pairs_characterized(front, ys, f);
        lemma_row_characterized(xs.last(), ys, f);
        assert(forall|i: int| 0 <= i < m ==> front[i] == xs[i]);
        let inner = all_pairs(front, ys, f);
        let row = row_of(xs.last(), ys, f);
        let whole = all_pairs(xs, ys, f);
        assert((m + 1) * n == m * n + n) by (nonlinear_arith);
        if inner is Ok {
            if row is Ok {
                assert forall|i: int, j: int| 0 <= i < xs.len() && 0 <= j < n implies (#[trigger] f(
                    xs[i],
                    ys[j],
                )) is Ok && 0 <= i * n + j < xs.len() * n && whole->Ok_0[i * n + j] == f(
                    xs[i],
                    ys[j],
                )->Ok_0 by {
                    if i < m {
                        assert(f(front[i], ys[j]) is Ok);
                        assert(inner->Ok_0[i * n + j] == f(front[i], ys[j])->Ok_0);
                        assert(0 <= i * n + j < m * n);
                    } else {
                        assert(row->Ok_0[j] == f(xs[m], ys[j])->Ok_0);
                        assert(i * n + j == m * n + j);
                        assert(whole->Ok_0[m * n + j] == row->Ok_0[j]);
                    }
                }
            } else {
                let j = choose|j: int|
                    0 <= j < n && #[trigger] f(xs.last(), ys[j]) == Err::<C, AlgebraError>(
                        row->Err_0,
                    ) && forall|l: int| 0 <= l < j ==> (#[trigger] f(xs.last(), ys[l])) is Ok;
                assert(f(xs[m], ys[j]) == Err::<C, AlgebraError>(whole->Err_0));
                assert forall|k: int, l: int|
                    0 <= k < xs.len() && 0 <= l < n && earlier(k, l, m, j) implies (#[trigger] f(
                    xs[k],
                    ys[l],
                )) is Ok by {
                    if k < m {
                        assert(f(front[k], ys[l]) is Ok);
                    } else {
                        assert(f(xs.last(), ys[l]) is Ok);
                    }
                }
            }
        } else {
            let (i, j) = choose|i: int, j: int|
                0 <= i < m && 0 <= j < n && #[trigger] f(front[i], ys[j]) == Err::<
                    C,
                    AlgebraError,
                >(inner->Err_0) && forall|k: int, l: int|
                    0 <= k < m && 0 <= l < n && earlier(k, l, i, j) ==> (#[trigger] f(
                        front[k],
                        ys[l],
                    )) is Ok;
            assert(f(xs[i], ys[j]) == Err::<C, AlgebraError>(whole->Err_0));
            assert forall|k: int, l: int|
                0 <= k < xs.len() && 0 <= l < n && earlier(k, l, i, j) implies (#[trigger] f(
                xs[k],
                ys[l],
            )) is Ok by {
                assert(f(front[k], ys[l]) is Ok);
            }
        }
    } else {
        assert(0 * n == 0) by (nonlinear_arith);
    }
}

/// The row of a sequence followed by another is the row of the first
/// joined to the row of the second.
pub proof fn lemma_row_over_sum<A, B, C>(
    x: A,
    b: Seq<B>,
    c: Seq<B>,
    f: spec_fn(A, B) -> Result<C, AlgebraError>,
)
    ensures
        row_of(x, b + c, f) == joined(row_of(x, b, f), row_of(x, c, f)),
    decreases c.len(),
{
    if c.len() == 0 {
        assert(b + c =~= b);
        if row_of(x, b, f) is Ok {
            assert(row_of(x, b, f)->Ok_0 + Seq::<C>::empty() =~= row_of(x, b, f)->Ok_0);
        }
    } else {
        lemma_row_over_sum(x, b, c.drop_last(), f);
        assert((b + c).drop_last() =~= b + c.drop_last());
        assert((b + c).last() == c.last());
        lemma_joined_associative(
            row_of(x, b, f),
            row_of(x, c.drop_last(), f),
            single(f(x, c.last())),
        );
    }
}

} // verus!
