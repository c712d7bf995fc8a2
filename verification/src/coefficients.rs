//! The coefficient of a blade in a multivector, and the laws that speak
//! of it: simplification keeps every coefficient, and the product
//! distributes over sums.

use crate::basis::Base;
use crate::blade::{
    blade_compare, canonical_blade, lemma_blade_compare_laws, lemma_canonical_blade_idempotent,
    lemma_canonical_blade_is_fixed, sign_flip,
};
use crate::laws::{
    canonical_form, lemma_normalized_is_fixed, lemma_simplified_is_canonical,
    lemma_term_in_form_is_fixed, lemma_term_order_total,
};
use crate::monomial::{lemma_letter_order_total, letter_order, Monomial};
use crate::multivector::{
    compressed, merged, product_of, simplified, term_multiplication, term_order, term_sum,
};
use crate::pairing::{lemma_row_over_sum, row_of};
use crate::sorting::{
    insert_sorted, lemma_stable_sort_images, lemma_stable_sort_members,
    lemma_stable_sort_of_ordered, lemma_stable_sort_sorts, stable_sort,
};
use crate::term::{
    adjustment, lemma_monomial_orders_total, product_order, term_compressed,
    term_simplified, variable_order, Term,
};
use vstd::multiset::Multiset;
use vstd::prelude::*;

verus! {

/// What one term adds to the coefficient of `blade`: its monomials, with
/// the sign that its own blade costs and with sorted letters, where its
/// blade is `blade` in canonical form; nothing elsewhere.
pub open spec fn contribution(t: Term, blade: Seq<Base>) -> Multiset<Monomial> {
    if canonical_blade(t.bases) == blade {
        t.monomials.map_values(adjustment(sign_flip(t.bases))).to_multiset()
    } else {
        Multiset::empty()
    }
}

/// The coefficient of `blade` in a multivector: the monomials that its
/// terms contribute, whatever their order.
pub open spec fn coefficient(ts: Seq<Term>, blade: Seq<Base>) -> Multiset<Monomial>
    decreases ts.len(),
{
    if ts.len() == 0 {
        Multiset::empty()
    } else {
        coefficient(ts.drop_last(), blade).add(contribution(ts.last(), blade))
    }
}

/// The coefficients of a list of terms followed by another are the sums of
/// their coefficients.
pub proof fn lemma_coefficient_of_sum(a: Seq<Term>, b: Seq<Term>, blade: Seq<Base>)
    ensures
        coefficient(a + b, blade) == coefficient(a, blade).add(coefficient(b, blade)),
    decreases b.len(),
{
    if b.len() == 0 {
        assert(a + b =~= a);
        assert(coefficient(a, blade).add(Multiset::empty()) =~= coefficient(a, blade));
    } else {
        lemma_coefficient_of_sum(a, b.drop_last(), blade);
        assert((a + b).drop_last() =~= a + b.drop_last());
        assert((a + b).last() == b.last());
        assert(coefficient(a, blade).add(coefficient(b.drop_last(), blade)).add(
            contribution(b.last(), blade),
        ) =~= coefficient(a, blade).add(
            coefficient(b.drop_last(), blade).add(contribution(b.last(), blade)),
        ));
    }
}

/// The coefficient of a single term is its contribution.
pub proof fn lemma_coefficient_of_one(t: Term, blade: Seq<Base>)
    ensures
        coefficient(seq![t], blade) == contribution(t, blade),
{
    assert(seq![t].drop_last() =~= Seq::<Term>::empty());
    assert(coefficient(seq![t].drop_last(), blade) == Multiset::<Monomial>::empty());
    assert(Multiset::<Monomial>::empty().add(contribution(t, blade)) =~= contribution(t, blade));
}

/// A simplified term contributes what the term contributes.
pub proof fn lemma_contribution_of_simplified(t: Term, blade: Seq<Base>)
    ensures
        contribution(term_simplified(t), blade) == contribution(t, blade),
{
    lemma_canonical_blade_idempotent(t.bases);
    lemma_monomial_orders_total();
    lemma_letter_order_total();
    let flip = sign_flip(t.bases);
    let adjusted = t.monomials.map_values(adjustment(flip));
    let sorted = stable_sort(adjusted, variable_order());
    lemma_stable_sort_sorts(adjusted, variable_order());
    lemma_stable_sort_members(adjusted, variable_order());
    assert(sorted.map_values(adjustment(false)) =~= sorted) by {
        assert forall|k: int| 0 <= k < sorted.len() implies adjustment(false)(sorted[k])
            == sorted[k] by {
            assert(adjusted.contains(sorted[k]));
            let j = choose|j: int| 0 <= j < adjusted.len() && adjusted[j] == sorted[k];
            lemma_stable_sort_sorts(t.monomials[j].scalars, letter_order());
            lemma_stable_sort_of_ordered(sorted[k].scalars, letter_order());
        }
    }
}

/// A compressed term contributes what the term contributes.
pub proof fn lemma_contribution_of_compressed(t: Term, blade: Seq<Base>)
    ensures
        contribution(term_compressed(t), blade) == contribution(t, blade),
{
    lemma_stable_sort_images(t.monomials, product_order(), adjustment(sign_flip(t.bases)));
}

/// Two terms over one blade contribute together what their sum
/// contributes.
pub proof fn lemma_contribution_of_sum(a: Term, b: Term, blade: Seq<Base>)
    requires
        a.bases == b.bases,
    ensures
        contribution(term_sum(a, b), blade) == contribution(a, blade).add(contribution(b, blade)),
{
    let f = adjustment(sign_flip(a.bases));
    assert((a.monomials + b.monomials).map_values(f) =~= a.monomials.map_values(f)
        + b.monomials.map_values(f));
    vstd::seq_lib::lemma_multiset_commutative(a.monomials.map_values(f), b.monomials.map_values(f));
    assert(Multiset::<Monomial>::empty().add(Multiset::<Monomial>::empty()) =~= Multiset::<
        Monomial,
    >::empty());
}

/// Changing each term in a way that keeps its contribution keeps the
/// coefficient.
pub proof fn lemma_coefficient_of_images(ts: Seq<Term>, g: spec_fn(Term) -> Term, blade: Seq<Base>)
    requires
        forall|i: int|
            0 <= i < ts.len() ==> contribution(g(#[trigger] ts[i]), blade) == contribution(
                ts[i],
                blade,
            ),
    ensures
        coefficient(ts.map_values(g), blade) == coefficient(ts, blade),
    decreases ts.len(),
{
    if ts.len() > 0 {
        let front = ts.drop_last();
        assert forall|i: int| 0 <= i < front.len() implies contribution(
            g(#[trigger] front[i]),
            blade,
        ) == contribution(front[i], blade) by {
            assert(front[i] == ts[i]);
        }
        lemma_coefficient_of_images(front, g, blade);
        assert(ts.map_values(g).drop_last() =~= front.map_values(g));
        assert(ts.map_values(g).last() == g(ts[ts.len() - 1]));
    }
}

/// Inserting a term adds its contribution to the coefficient.
proof fn lemma_coefficient_of_inserted(
    ts: Seq<Term>,
    t: Term,
    le: spec_fn(Term, Term) -> bool,
    blade: Seq<Base>,
)
    ensures
        coefficient(insert_sorted(ts, t, le), blade) == coefficient(ts, blade).add(
            contribution(t, blade),
        ),
    decreases ts.len(),
{
    if ts.len() == 0 {
        lemma_coefficient_of_one(t, blade);
        assert(Multiset::<Monomial>::empty().add(contribution(t, blade)) =~= contribution(
            t,
            blade,
        ));
    } else if le(ts.last(), t) {
        assert(ts.push(t).drop_last() =~= ts);
    } else {
        let front = ts.drop_last();
        let inner = insert_sorted(front, t, le);
        lemma_coefficient_of_inserted(front, t, le, blade);
        assert(inner.push(ts.last()).drop_last() =~= inner);
        assert(coefficient(front, blade).add(contribution(t, blade)).add(
            contribution(ts.last(), blade),
        ) =~= coefficient(front, blade).add(contribution(ts.last(), blade)).add(
            contribution(t, blade),
        ));
    }
}

/// Sorting the terms keeps every coefficient.
pub proof fn lemma_coefficient_of_sorted(
    ts: Seq<Term>,
    le: spec_fn(Term, Term) -> bool,
    blade: Seq<Base>,
)
    ensures
        coefficient(stable_sort(ts, le), blade) == coefficient(ts, blade),
    decreases ts.len(),
{
    if ts.len() > 0 {
        lemma_coefficient_of_sorted(ts.drop_last(), le, blade);
        lemma_coefficient_of_inserted(stable_sort(ts.drop_last(), le), ts.last(), le, blade);
    }
}

/// Merging neighbours over one blade keeps every coefficient.
pub proof fn lemma_coefficient_of_merged(ts: Seq<Term>, blade: Seq<Base>)
    ensures
        coefficient(merged(ts), blade) == coefficient(ts, blade),
    decreases ts.len(),
{
    if ts.len() < 2 {
    } else if ts[0].bases == ts[1].bases {
        let both = term_sum(ts[0], ts[1]);
        let rest = ts.skip(2);
        lemma_coefficient_of_merged(seq![both] + rest, blade);
        lemma_coefficient_of_sum(seq![both], rest, blade);
        lemma_coefficient_of_one(both, blade);
        lemma_contribution_of_sum(ts[0], ts[1], blade);
        assert(ts =~= seq![ts[0]] + (seq![ts[1]] + rest));
        lemma_coefficient_of_sum(seq![ts[0]], seq![ts[1]] + rest, blade);
        lemma_coefficient_of_sum(seq![ts[1]], rest, blade);
        lemma_coefficient_of_one(ts[0], blade);
        lemma_coefficient_of_one(ts[1], blade);
        assert(contribution(ts[0], blade).add(contribution(ts[1], blade)).add(
            coefficient(rest, blade),
        ) =~= contribution(ts[0], blade).add(
            contribution(ts[1], blade).add(coefficient(rest, blade)),
        ));
    } else {
        let rest = ts.skip(1);
        lemma_coefficient_of_merged(rest, blade);
        lemma_coefficient_of_sum(seq![ts[0]], merged(rest), blade);
        lemma_coefficient_of_sum(seq![ts[0]], rest, blade);
        assert(ts =~= seq![ts[0]] + rest);
    }
}

/// Compression keeps the coefficient of every blade.
pub proof fn lemma_compress_keeps_coefficients(ts: Seq<Term>, blade: Seq<Base>)
    ensures
        coefficient(compressed(ts), blade) == coefficient(ts, blade),
{
    let g = |t: Term| term_compressed(t);
    assert forall|i: int| 0 <= i < merged(ts).len() implies contribution(
        g(#[trigger] merged(ts)[i]),
        blade,
    ) == contribution(merged(ts)[i], blade) by {
        lemma_contribution_of_compressed(merged(ts)[i], blade);
    }
    lemma_coefficient_of_images(merged(ts), g, blade);
    lemma_coefficient_of_merged(ts, blade);
}

/// Simplification keeps the coefficient of every blade: it changes how a
/// multivector is written, not what it is.
pub proof fn lemma_simplify_keeps_coefficients(ts: Seq<Term>, blade: Seq<Base>)
    ensures
        coefficient(simplified(ts), blade) == coefficient(ts, blade),
{
    let g = |t: Term| term_simplified(t);
    assert forall|i: int| 0 <= i < ts.len() implies contribution(g(#[trigger] ts[i]), blade)
        == contribution(ts[i], blade) by {
        lemma_contribution_of_simplified(ts[i], blade);
    }
    lemma_coefficient_of_images(ts, g, blade);
    lemma_coefficient_of_sorted(ts.map_values(g), term_order(), blade);
    lemma_compress_keeps_coefficients(stable_sort(ts.map_values(g), term_order()), blade);
}

/// Where the product with a sum exists, so do the products with its
/// parts, and the coefficient of every blade in the first is the sum of
/// its coefficients in the other two.
pub proof fn lemma_product_over_sum(a: Seq<Term>, b: Seq<Term>, c: Seq<Term>, blade: Seq<Base>)
    requires
        product_of(a, b + c) is Ok,
    ensures
        product_of(a, b) is Ok,
        product_of(a, c) is Ok,
        coefficient(product_of(a, b + c)->Ok_0, blade) == coefficient(
            product_of(a, b)->Ok_0,
            blade,
        ).add(coefficient(product_of(a, c)->Ok_0, blade)),
    decreases a.len(),
{
    if a.len() == 0 {
        assert(Multiset::<Monomial>::empty().add(Multiset::<Monomial>::empty()) =~= Multiset::<
            Monomial,
        >::empty());
    } else {
        let front = a.drop_last();
        let t = a.last();
        lemma_row_over_sum(t, b, c, term_multiplication());
        lemma_product_over_sum(front, b, c, blade);
        let whole = product_of(front, b + c)->Ok_0;
        let left = product_of(front, b)->Ok_0;
        let right = product_of(front, c)->Ok_0;
        let row_left = row_of(t, b, term_multiplication())->Ok_0;
        let row_right = row_of(t, c, term_multiplication())->Ok_0;
        lemma_coefficient_of_sum(whole, row_left + row_right, blade);
        lemma_coefficient_of_sum(row_left, row_right, blade);
        lemma_coefficient_of_sum(left, row_left, blade);
        lemma_coefficient_of_sum(right, row_right, blade);
        let w = coefficient(left, blade);
        let x = coefficient(right, blade);
        let y = coefficient(row_left, blade);
        let z = coefficient(row_right, blade);
        assert(w.add(x).add(y.add(z)) =~= w.add(y).add(x.add(z)));
    }
}

/// The product distributes over sums. Where `a` can be multiplied with
/// the terms of `b` followed by those of `c`, it can be multiplied with
/// each alone; in canonical form, the coefficient of every blade in the
/// product with the sum is the sum of its coefficients in the two
/// products, and is its coefficient in the canonical form of the two
/// canonical products written one after the other.
pub proof fn lemma_product_distributes(a: Seq<Term>, b: Seq<Term>, c: Seq<Term>)
    requires
        product_of(a, b + c) is Ok,
    ensures
        product_of(a, b) is Ok,
        product_of(a, c) is Ok,
        forall|blade: Seq<Base>| #[trigger]
            coefficient(simplified(product_of(a, b + c)->Ok_0), blade) == coefficient(
                simplified(product_of(a, b)->Ok_0),
                blade,
            ).add(coefficient(simplified(product_of(a, c)->Ok_0), blade)),
        forall|blade: Seq<Base>| #[trigger]
            coefficient(simplified(product_of(a, b + c)->Ok_0), blade) == coefficient(
                simplified(
                    simplified(product_of(a, b)->Ok_0) + simplified(product_of(a, c)->Ok_0),
                ),
                blade,
            ),
{
    lemma_product_over_sum(a, b, c, Seq::<Base>::empty());
    let whole = product_of(a, b + c)->Ok_0;
    let left = product_of(a, b)->Ok_0;
    let right = product_of(a, c)->Ok_0;
    assert forall|blade: Seq<Base>| #[trigger]
        coefficient(simplified(whole), blade) == coefficient(simplified(left), blade).add(
            coefficient(simplified(right), blade),
        ) && coefficient(simplified(whole), blade) == coefficient(
            simplified(simplified(left) + simplified(right)),
            blade,
        ) by {
        lemma_product_over_sum(a, b, c, blade);
        lemma_simplify_keeps_coefficients(whole, blade);
        lemma_simplify_keeps_coefficients(left, blade);
        lemma_simplify_keeps_coefficients(right, blade);
        lemma_simplify_keeps_coefficients(simplified(left) + simplified(right), blade);
        lemma_coefficient_of_sum(simplified(left), simplified(right), blade);
    }
}

/// The canonical blades over which a multivector has a term.
pub open spec fn blades_of(ts: Seq<Term>) -> Set<Seq<Base>> {
    Set::new(
        |blade: Seq<Base>|
            exists|i: int| 0 <= i < ts.len() && canonical_blade((#[trigger] ts[i]).bases) == blade,
    )
}

/// A multivector without a term over a blade has nothing for its
/// coefficient.
pub proof fn lemma_coefficient_of_absent(ts: Seq<Term>, blade: Seq<Base>)
    requires
        !blades_of(ts).contains(blade),
    ensures
        coefficient(ts, blade) == Multiset::<Monomial>::empty(),
    decreases ts.len(),
{
    if ts.len() > 0 {
        let front = ts.drop_last();
        assert(canonical_blade(ts[ts.len() - 1].bases) != blade);
        assert(!blades_of(front).contains(blade)) by {
            if blades_of(front).contains(blade) {
                let i = choose|i: int|
                    0 <= i < front.len() && canonical_blade((#[trigger] front[i]).bases) == blade;
                assert(canonical_blade(ts[i].bases) == blade);
            }
        }
        lemma_coefficient_of_absent(front, blade);
        assert(Multiset::<Monomial>::empty().add(Multiset::<Monomial>::empty()) =~= Multiset::<
            Monomial,
        >::empty());
    }
}

/// In a canonical form, the coefficient of the blade of a term is what
/// that term holds.
pub proof fn lemma_coefficient_in_canonical_form(ts: Seq<Term>, i: int)
    requires
        canonical_form(ts),
        0 <= i < ts.len(),
    ensures
        coefficient(ts, ts[i].bases) == ts[i].monomials.to_multiset(),
    decreases ts.len(),
{
    let blade = ts[i].bases;
    let front = ts.drop_last();
    let last = ts.len() - 1;
    assert(canonical_form(front)) by {
        assert(forall|k: int| 0 <= k < front.len() ==> front[k] == ts[k]);
    }
    lemma_canonical_blade_is_fixed(ts[last].bases);
    if i == last {
        assert(!blades_of(front).contains(blade)) by {
            if blades_of(front).contains(blade) {
                let k = choose|k: int|
                    0 <= k < front.len() && canonical_blade((#[trigger] front[k]).bases) == blade;
                lemma_canonical_blade_is_fixed(ts[k].bases);
                assert(blade_compare(ts[k].bases, ts[last].bases) < 0);
                lemma_blade_compare_laws(ts[k].bases, ts[last].bases, ts[last].bases);
            }
        }
        lemma_coefficient_of_absent(front, blade);
        lemma_term_in_form_is_fixed(ts[i]);
        assert(ts[i].monomials.map_values(adjustment(false)) =~= ts[i].monomials) by {
            assert forall|k: int| 0 <= k < ts[i].monomials.len() implies adjustment(false)(
                ts[i].monomials[k],
            ) == ts[i].monomials[k] by {
                lemma_normalized_is_fixed(ts[i].monomials[k]);
            }
        }
        assert(Multiset::<Monomial>::empty().add(ts[i].monomials.to_multiset())
            =~= ts[i].monomials.to_multiset());
    } else {
        lemma_coefficient_in_canonical_form(front, i);
        assert(blade_compare(ts[i].bases, ts[last].bases) < 0);
        lemma_blade_compare_laws(ts[i].bases, ts[last].bases, ts[last].bases);
        assert(coefficient(front, blade).add(Multiset::<Monomial>::empty()) =~= coefficient(
            front,
            blade,
        ));
    }
}

/// The blades of a list of terms followed by another are the blades of
/// the one and the blades of the other.
pub proof fn lemma_blades_of_sum(a: Seq<Term>, b: Seq<Term>)
    ensures
        blades_of(a + b) == blades_of(a).union(blades_of(b)),
{
    let whole = a + b;
    assert forall|blade: Seq<Base>| blades_of(whole).contains(blade) <==> blades_of(a).union(
        blades_of(b),
    ).contains(blade) by {
        if blades_of(whole).contains(blade) {
            let i = choose|i: int|
                0 <= i < whole.len() && canonical_blade((#[trigger] whole[i]).bases) == blade;
            if i < a.len() {
                assert(canonical_blade(a[i].bases) == blade);
            } else {
                assert(canonical_blade(b[i - a.len()].bases) == blade);
            }
        }
        if blades_of(a).contains(blade) {
            let i = choose|i: int|
                0 <= i < a.len() && canonical_blade((#[trigger] a[i]).bases) == blade;
            assert(canonical_blade(whole[i].bases) == blade);
        }
        if blades_of(b).contains(blade) {
            let i = choose|i: int|
                0 <= i < b.len() && canonical_blade((#[trigger] b[i]).bases) == blade;
            assert(canonical_blade(whole[i + a.len()].bases) == blade);
        }
    }
    assert(blades_of(whole) =~= blades_of(a).union(blades_of(b)));
}

/// Two lists of terms of which each holds the terms of the other, in any
/// order and number, have the same blades.
pub proof fn lemma_blades_of_same_members(a: Seq<Term>, b: Seq<Term>)
    requires
        forall|i: int| 0 <= i < a.len() ==> b.contains(#[trigger] a[i]),
        forall|i: int| 0 <= i < b.len() ==> a.contains(#[trigger] b[i]),
    ensures
        blades_of(a) == blades_of(b),
{
    assert forall|blade: Seq<Base>| blades_of(a).contains(blade) <==> blades_of(b).contains(
        blade,
    ) by {
        if blades_of(a).contains(blade) {
            let i = choose|i: int|
                0 <= i < a.len() && canonical_blade((#[trigger] a[i]).bases) == blade;
            assert(b.contains(a[i]));
            let j = choose|j: int| 0 <= j < b.len() && b[j] == a[i];
            assert(canonical_blade(b[j].bases) == blade);
        }
        if blades_of(b).contains(blade) {
            let i = choose|i: int|
                0 <= i < b.len() && canonical_blade((#[trigger] b[i]).bases) == blade;
            assert(a.contains(b[i]));
            let j = choose|j: int| 0 <= j < a.len() && a[j] == b[i];
            assert(canonical_blade(a[j].bases) == blade);
        }
    }
    assert(blades_of(a) =~= blades_of(b));
}

/// Changing each term in a way that keeps its canonical blade keeps the
/// blades.
pub proof fn lemma_blades_of_images(ts: Seq<Term>, g: spec_fn(Term) -> Term)
    requires
        forall|i: int|
            0 <= i < ts.len() ==> canonical_blade(g(#[trigger] ts[i]).bases) == canonical_blade(
                ts[i].bases,
            ),
    ensures
        blades_of(ts.map_values(g)) == blades_of(ts),
{
    let out = ts.map_values(g);
    assert forall|blade: Seq<Base>| blades_of(out).contains(blade) <==> blades_of(ts).contains(
        blade,
    ) by {
        if blades_of(out).contains(blade) {
            let i = choose|i: int|
                0 <= i < out.len() && canonical_blade((#[trigger] out[i]).bases) == blade;
            assert(canonical_blade(ts[i].bases) == blade);
        }
        if blades_of(ts).contains(blade) {
            let i = choose|i: int|
                0 <= i < ts.len() && canonical_blade((#[trigger] ts[i]).bases) == blade;
            assert(canonical_blade(out[i].bases) == blade);
        }
    }
    assert(blades_of(out) =~= blades_of(ts));
}

/// Merging neighbours over one blade keeps the blades.
pub proof fn lemma_blades_of_merged(ts: Seq<Term>)
    ensures
        blades_of(merged(ts)) == blades_of(ts),
    decreases ts.len(),
{
    if ts.len() < 2 {
    } else if ts[0].bases == ts[1].bases {
        let both = term_sum(ts[0], ts[1]);
        let rest = ts.skip(2);
        lemma_blades_of_merged(seq![both] + rest);
        lemma_blades_of_sum(seq![both], rest);
        assert(ts =~= seq![ts[0], ts[1]] + rest);
        lemma_blades_of_sum(seq![ts[0], ts[1]], rest);
        assert(blades_of(seq![both]) =~= blades_of(seq![ts[0], ts[1]])) by {
            assert forall|blade: Seq<Base>| blades_of(seq![both]).contains(blade) <==> blades_of(
                seq![ts[0], ts[1]],
            ).contains(blade) by {
                let one = seq![both];
                let two = seq![ts[0], ts[1]];
                if blades_of(one).contains(blade) {
                    assert(canonical_blade(two[0].bases) == blade);
                }
                if blades_of(two).contains(blade) {
                    assert(canonical_blade(one[0].bases) == blade);
                }
            }
        }
    } else {
        let rest = ts.skip(1);
        lemma_blades_of_merged(rest);
        lemma_blades_of_sum(seq![ts[0]], merged(rest));
        lemma_blades_of_sum(seq![ts[0]], rest);
        assert(ts =~= seq![ts[0]] + rest);
    }
}

/// Simplification keeps the blades: the canonical form has a term over a
/// blade exactly where the multivector has one.
pub proof fn lemma_simplify_keeps_blades(ts: Seq<Term>)
    ensures
        blades_of(simplified(ts)) == blades_of(ts),
{
    let g = |t: Term| term_simplified(t);
    let h = |t: Term| term_compressed(t);
    let mapped = ts.map_values(g);
    let sorted = stable_sort(mapped, term_order());
    assert forall|i: int| 0 <= i < ts.len() implies canonical_blade(g(#[trigger] ts[i]).bases)
        == canonical_blade(ts[i].bases) by {
        lemma_canonical_blade_idempotent(ts[i].bases);
    }
    lemma_blades_of_images(ts, g);
    lemma_term_order_total();
    lemma_stable_sort_sorts(mapped, term_order());
    lemma_stable_sort_members(mapped, term_order());
    assert forall|i: int| 0 <= i < mapped.len() implies sorted.contains(#[trigger] mapped[i]) by {
        broadcast use vstd::seq_lib::group_to_multiset_ensures;

        assert(mapped.contains(mapped[i]));
        assert(mapped.to_multiset().count(mapped[i]) > 0);
    }
    lemma_blades_of_same_members(sorted, mapped);
    lemma_blades_of_merged(sorted);
    lemma_blades_of_images(merged(sorted), h);
}

/// Two canonical forms over the same blades have the same number of
/// terms, over the same blades in the same order.
pub proof fn lemma_canonical_forms_align(x: Seq<Term>, y: Seq<Term>)
    requires
        canonical_form(x),
        canonical_form(y),
        blades_of(x) == blades_of(y),
    ensures
        x.len() == y.len(),
        forall|i: int| 0 <= i < x.len() ==> (#[trigger] x[i]).bases == y[i].bases,
    decreases x.len(),
{
    if x.len() == 0 {
        if y.len() > 0 {
            assert(blades_of(y).contains(canonical_blade(y[0].bases)));
            let i = choose|i: int|
                0 <= i < x.len() && canonical_blade((#[trigger] x[i]).bases) == canonical_blade(
                    y[0].bases,
                );
        }
    } else if y.len() == 0 {
        assert(blades_of(x).contains(canonical_blade(x[0].bases)));
        let i = choose|i: int|
            0 <= i < y.len() && canonical_blade((#[trigger] y[i]).bases) == canonical_blade(
                x[0].bases,
            );
    } else {
        let top_x = x.last().bases;
        let top_y = y.last().bases;
        lemma_top_blade(x, y);
        lemma_top_blade(y, x);
        lemma_blade_compare_laws(top_x, top_y, top_x);
        assert(top_x == top_y);
        let fx = x.drop_last();
        let fy = y.drop_last();
        lemma_blades_below_top(x);
        lemma_blades_below_top(y);
        assert(blades_of(fx) =~= blades_of(fy));
        assert(canonical_form(fx)) by {
            assert(forall|k: int| 0 <= k < fx.len() ==> fx[k] == x[k]);
        }
        assert(canonical_form(fy)) by {
            assert(forall|k: int| 0 <= k < fy.len() ==> fy[k] == y[k]);
        }
        lemma_canonical_forms_align(fx, fy);
        assert forall|i: int| 0 <= i < x.len() implies (#[trigger] x[i]).bases == y[i].bases by {
            if i < fx.len() {
                assert(fx[i].bases == fy[i].bases);
            }
        }
    }
}

/// Of two canonical forms over the same blades, the last blade of the one
/// does not come after the last blade of the other.
proof fn lemma_top_blade(x: Seq<Term>, y: Seq<Term>)
    requires
        canonical_form(x),
        canonical_form(y),
        blades_of(x) == blades_of(y),
        x.len() > 0,
        y.len() > 0,
    ensures
        blade_compare(x.last().bases, y.last().bases) <= 0,
{
    let top = x[x.len() - 1].bases;
    lemma_canonical_blade_is_fixed(top);
    assert(blades_of(x).contains(top));
    let j = choose|j: int| 0 <= j < y.len() && canonical_blade((#[trigger] y[j]).bases) == top;
    lemma_canonical_blade_is_fixed(y[j].bases);
    if j < y.len() - 1 {
        assert(blade_compare(y[j].bases, y[y.len() - 1].bases) < 0);
    } else {
        lemma_blade_compare_laws(top, top, top);
    }
}

/// Without its last term, a canonical form has all its blades but the last.
proof fn lemma_blades_below_top(x: Seq<Term>)
    requires
        canonical_form(x),
        x.len() > 0,
    ensures
        blades_of(x.drop_last()) == blades_of(x).remove(x.last().bases),
{
    let front = x.drop_last();
    let last = x.len() - 1;
    let top = x[last].bases;
    assert forall|blade: Seq<Base>| blades_of(front).contains(blade) <==> blades_of(x).remove(
        top,
    ).contains(blade) by {
        if blades_of(front).contains(blade) {
            let i = choose|i: int|
                0 <= i < front.len() && canonical_blade((#[trigger] front[i]).bases) == blade;
            assert(canonical_blade(x[i].bases) == blade);
            lemma_canonical_blade_is_fixed(x[i].bases);
            assert(blade_compare(x[i].bases, x[last].bases) < 0);
            lemma_blade_compare_laws(x[i].bases, top, top);
        }
        if blades_of(x).remove(top).contains(blade) {
            let i = choose|i: int|
                0 <= i < x.len() && canonical_blade((#[trigger] x[i]).bases) == blade;
            lemma_canonical_blade_is_fixed(x[i].bases);
            assert(i != last);
            assert(canonical_blade(front[i].bases) == blade);
        }
    }
    assert(blades_of(front) =~= blades_of(x).remove(top));
}

/// Where the product with a sum exists, its blades are the blades of the
/// products with the parts.
pub proof fn lemma_product_blades_over_sum(a: Seq<Term>, b: Seq<Term>, c: Seq<Term>)
    requires
        product_of(a, b + c) is Ok,
    ensures
        product_of(a, b) is Ok,
        product_of(a, c) is Ok,
        blades_of(product_of(a, b + c)->Ok_0) == blades_of(product_of(a, b)->Ok_0).union(
            blades_of(product_of(a, c)->Ok_0),
        ),
    decreases a.len(),
{
    if a.len() == 0 {
        let none = Seq::<Term>::empty();
        assert(blades_of(none) =~= blades_of(none).union(blades_of(none)));
    } else {
        let front = a.drop_last();
        let t = a.last();
        lemma_row_over_sum(t, b, c, term_multiplication());
        lemma_product_blades_over_sum(front, b, c);
        let whole = product_of(front, b + c)->Ok_0;
        let left = product_of(front, b)->Ok_0;
        let right = product_of(front, c)->Ok_0;
        let row_left = row_of(t, b, term_multiplication())->Ok_0;
        let row_right = row_of(t, c, term_multiplication())->Ok_0;
        lemma_blades_of_sum(whole, row_left + row_right);
        lemma_blades_of_sum(row_left, row_right);
        lemma_blades_of_sum(left, row_left);
        lemma_blades_of_sum(right, row_right);
        let w = blades_of(left);
        let x = blades_of(right);
        let y = blades_of(row_left);
        let z = blades_of(row_right);
        assert(w.union(x).union(y.union(z)) =~= w.union(y).union(x.union(z)));
    }
}

/// The product distributes over sums, term for term. Where `a` can be
/// multiplied with the terms of `b` followed by those of `c`, the
/// canonical form of that product and the canonical form of the two
/// canonical products, written one after the other, have the same number
/// of terms, over the same blades in the same order, and each term of the
/// one holds the monomials of its partner, up to their order.
pub proof fn lemma_product_distributes_term_for_term(a: Seq<Term>, b: Seq<Term>, c: Seq<Term>)
    requires
        product_of(a, b + c) is Ok,
    ensures
        product_of(a, b) is Ok,
        product_of(a, c) is Ok,
        ({
            let whole = simplified(product_of(a, b + c)->Ok_0);
            let parts = simplified(
                simplified(product_of(a, b)->Ok_0) + simplified(product_of(a, c)->Ok_0),
            );
            &&& whole.len() == parts.len()
            &&& forall|i: int|
                0 <= i < whole.len() ==> (#[trigger] whole[i]).bases == parts[i].bases
                    && whole[i].monomials.to_multiset() == parts[i].monomials.to_multiset()
        }),
{
    lemma_product_distributes(a, b, c);
    lemma_product_blades_over_sum(a, b, c);
    let raw = product_of(a, b + c)->Ok_0;
    let left = simplified(product_of(a, b)->Ok_0);
    let right = simplified(product_of(a, c)->Ok_0);
    let whole = simplified(raw);
    let parts = simplified(left + right);
    lemma_simplify_keeps_blades(raw);
    lemma_simplify_keeps_blades(product_of(a, b)->Ok_0);
    lemma_simplify_keeps_blades(product_of(a, c)->Ok_0);
    lemma_simplify_keeps_blades(left + right);
    lemma_blades_of_sum(left, right);
    lemma_simplified_is_canonical(raw);
    lemma_simplified_is_canonical(left + right);
    lemma_canonical_forms_align(whole, parts);
    assert forall|i: int| 0 <= i < whole.len() implies (#[trigger] whole[i]).bases
        == parts[i].bases && whole[i].monomials.to_multiset()
        == parts[i].monomials.to_multiset() by {
        lemma_coefficient_in_canonical_form(whole, i);
        lemma_coefficient_in_canonical_form(parts, i);
        assert(coefficient(simplified(product_of(a, b + c)->Ok_0), whole[i].bases) == coefficient(
            simplified(simplified(product_of(a, b)->Ok_0) + simplified(product_of(a, c)->Ok_0)),
            whole[i].bases,
        ));
    }
}

} // verus!
