//! The laws of the canonical form.

use crate::blade::{
    ascending, blade_compare, lemma_blade_compare_laws, lemma_canonical_blade_characterized,
    lemma_canonical_blade_is_fixed,
};
use crate::monomial::{lemma_letter_order_total, letter_order, negated_if, normalized, Monomial};
use crate::multivector::{
    compressed, merged, reversed, simplified, term_order, term_reversed, term_sum,
};
use crate::sorting::{
    lemma_stable_sort_members, lemma_stable_sort_of_ordered, lemma_stable_sort_sorts, ordered,
    stable_sort, total_preorder,
};
use crate::term::{
    adjustment, lemma_monomial_orders_total, product_order, term_compressed, term_negated,
    term_simplified, variable_order, Term,
};
use vstd::prelude::*;

verus! {

/// Reversing twice gives the multivector back, term for term, and so the
/// same canonical form.
pub proof fn lemma_reverse_is_involution(ts: Seq<Term>)
    ensures
        reversed(reversed(ts)) == ts,
        simplified(reversed(reversed(ts))) == simplified(ts),
{
    assert forall|i: int| 0 <= i < ts.len() implies term_reversed(term_reversed(ts[i]))
        == ts[i] by {
        let t = ts[i];
        if t.bases.len() == 2 {
            let once = term_negated(t);
            assert(term_negated(once).monomials =~= t.monomials) by {
                assert forall|k: int| 0 <= k < t.monomials.len() implies negated_if(
                    negated_if(t.monomials[k], true),
                    true,
                ) == t.monomials[k] by {}
            }
        }
    }
    assert(reversed(reversed(ts)) =~= ts);
}

/// Every monomial of the term has its letters in ascending order.
pub open spec fn letters_sorted(t: Term) -> bool {
    forall|k: int|
        0 <= k < t.monomials.len() ==> ordered(
            (#[trigger] t.monomials[k]).scalars,
            letter_order(),
        )
}

/// The shape of a multivector in canonical form: every blade is canonical,
/// the blades ascend strictly, so that no blade occurs twice, and within
/// each term the monomials stand in order and have their letters sorted.
pub open spec fn canonical_form(ts: Seq<Term>) -> bool {
    &&& forall|i: int| 0 <= i < ts.len() ==> ascending((#[trigger] ts[i]).bases)
    &&& forall|i: int, j: int|
        0 <= i < j < ts.len() ==> blade_compare(
            (#[trigger] ts[i]).bases,
            (#[trigger] ts[j]).bases,
        ) < 0
    &&& forall|i: int| 0 <= i < ts.len() ==> ordered((#[trigger] ts[i]).monomials, product_order())
    &&& forall|i: int| 0 <= i < ts.len() ==> letters_sorted(#[trigger] ts[i])
}

/// The order of terms is a total preorder.
pub proof fn lemma_term_order_total()
    ensures
        total_preorder(term_order()),
{
    let le = term_order();
    assert forall|a: Term, b: Term| #[trigger] le(a, b) || le(b, a) by {
        lemma_blade_compare_laws(a.bases, b.bases, b.bases);
    }
    assert forall|a: Term, b: Term, c: Term| #[trigger] le(a, b) && #[trigger] le(b, c) implies le(
        a,
        c,
    ) by {
        lemma_blade_compare_laws(a.bases, b.bases, c.bases);
    }
}

/// A monomial with sorted letters is its own normal form.
pub proof fn lemma_normalized_is_fixed(m: Monomial)
    requires
        ordered(m.scalars, letter_order()),
    ensures
        normalized(negated_if(m, false)) == m,
{
    lemma_stable_sort_of_ordered(m.scalars, letter_order());
}

/// A term that is in canonical shape is unchanged by simplification and by
/// compression.
pub proof fn lemma_term_in_form_is_fixed(t: Term)
    requires
        ascending(t.bases),
        ordered(t.monomials, product_order()),
        letters_sorted(t),
    ensures
        term_simplified(t) == t,
        term_compressed(t) == t,
{
    lemma_canonical_blade_is_fixed(t.bases);
    lemma_monomial_orders_total();
    let adjusted = t.monomials.map_values(adjustment(false));
    assert(adjusted =~= t.monomials) by {
        assert forall|k: int| 0 <= k < t.monomials.len() implies adjusted[k]
            == t.monomials[k] by {
            lemma_normalized_is_fixed(t.monomials[k]);
        }
    }
    assert(ordered(t.monomials, variable_order())) by {
        assert forall|i: int, j: int| 0 <= i < j < t.monomials.len() implies variable_order()(
            t.monomials[i],
            t.monomials[j],
        ) by {
            assert(product_order()(t.monomials[i], t.monomials[j]));
        }
    }
    lemma_stable_sort_of_ordered(t.monomials, variable_order());
    lemma_stable_sort_of_ordered(t.monomials, product_order());
}

/// Where no two neighbours stand over the same blade, merging changes
/// nothing.
pub proof fn lemma_merged_of_distinct(ts: Seq<Term>)
    requires
        forall|i: int| 0 <= i < ts.len() - 1 ==> (#[trigger] ts[i]).bases != ts[i + 1].bases,
    ensures
        merged(ts) == ts,
    decreases ts.len(),
{
    if ts.len() >= 2 {
        assert(ts[0].bases != ts[1].bases);
        let rest = ts.skip(1);
        assert forall|i: int| 0 <= i < rest.len() - 1 implies (#[trigger] rest[i]).bases != rest[i
            + 1].bases by {
            assert(ts[i + 1].bases != ts[i + 2].bases);
        }
        lemma_merged_of_distinct(rest);
        assert(seq![ts[0]] + rest =~= ts);
    }
}

/// A multivector in canonical form is its own canonical form.
pub proof fn lemma_canonical_form_is_fixed(ts: Seq<Term>)
    requires
        canonical_form(ts),
    ensures
        simplified(ts) == ts,
        compressed(ts) == ts,
{
    assert forall|i: int| 0 <= i < ts.len() implies term_simplified(ts[i]) == ts[i]
        && term_compressed(ts[i]) == ts[i] by {
        lemma_term_in_form_is_fixed(ts[i]);
    }
    assert(ts.map_values(|t: Term| term_simplified(t)) =~= ts);
    assert(ordered(ts, term_order()));
    lemma_stable_sort_of_ordered(ts, term_order());
    assert forall|i: int| 0 <= i < ts.len() - 1 implies (#[trigger] ts[i]).bases != ts[i
        + 1].bases by {
        assert(blade_compare(ts[i].bases, ts[i + 1].bases) < 0);
        lemma_blade_compare_laws(ts[i].bases, ts[i + 1].bases, ts[i + 1].bases);
    }
    lemma_merged_of_distinct(ts);
    assert(ts.map_values(|t: Term| term_compressed(t)) =~= ts);
}

/// The term has a canonical blade, and its monomials have sorted letters.
pub open spec fn in_shape(t: Term) -> bool {
    ascending(t.bases) && letters_sorted(t)
}

/// A simplified term has a canonical blade and monomials with sorted
/// letters.
pub proof fn lemma_term_simplified_shape(t: Term)
    ensures
        in_shape(term_simplified(t)),
{
    lemma_canonical_blade_characterized(t.bases);
    lemma_letter_order_total();
    let flip = crate::blade::sign_flip(t.bases);
    let adjusted = t.monomials.map_values(adjustment(flip));
    let sorted = stable_sort(adjusted, variable_order());
    lemma_stable_sort_members(adjusted, variable_order());
    assert forall|k: int| 0 <= k < sorted.len() implies ordered(
        (#[trigger] sorted[k]).scalars,
        letter_order(),
    ) by {
        assert(adjusted.contains(sorted[k]));
        let j = choose|j: int| 0 <= j < adjusted.len() && adjusted[j] == sorted[k];
        lemma_stable_sort_sorts(t.monomials[j].scalars, letter_order());
    }
}

/// A compressed term keeps its blade and the letters of its monomials, and
/// has its monomials in order.
pub proof fn lemma_term_compressed_shape(t: Term)
    requires
        in_shape(t),
    ensures
        in_shape(term_compressed(t)),
        ordered(term_compressed(t).monomials, product_order()),
        term_compressed(t).bases == t.bases,
{
    lemma_monomial_orders_total();
    lemma_stable_sort_sorts(t.monomials, product_order());
    lemma_stable_sort_members(t.monomials, product_order());
    let sorted = stable_sort(t.monomials, product_order());
    assert forall|k: int| 0 <= k < sorted.len() implies ordered(
        (#[trigger] sorted[k]).scalars,
        letter_order(),
    ) by {
        assert(t.monomials.contains(sorted[k]));
        let j = choose|j: int| 0 <= j < t.monomials.len() && t.monomials[j] == sorted[k];
        assert(ordered(t.monomials[j].scalars, letter_order()));
    }
}

/// Merging terms that stand in the order of their blades leaves terms
/// whose blades ascend strictly, the first being the first blade that was
/// given.
pub proof fn lemma_merged_shape(ts: Seq<Term>)
    requires
        ordered(ts, term_order()),
        forall|i: int| 0 <= i < ts.len() ==> in_shape(#[trigger] ts[i]),
    ensures
        forall|i: int| 0 <= i < merged(ts).len() ==> in_shape(#[trigger] merged(ts)[i]),
        forall|i: int, j: int|
            0 <= i < j < merged(ts).len() ==> blade_compare(
                (#[trigger] merged(ts)[i]).bases,
                (#[trigger] merged(ts)[j]).bases,
            ) < 0,
        ts.len() > 0 ==> merged(ts).len() > 0 && merged(ts)[0].bases == ts[0].bases,
    decreases ts.len(),
{
    let le = term_order();
    if ts.len() < 2 {
    } else if ts[0].bases == ts[1].bases {
        let both = term_sum(ts[0], ts[1]);
        let next = seq![both] + ts.skip(2);
        assert(in_shape(both)) by {
            assert(in_shape(ts[0]) && in_shape(ts[1]));
            assert forall|k: int| 0 <= k < both.monomials.len() implies ordered(
                (#[trigger] both.monomials[k]).scalars,
                letter_order(),
            ) by {
                if k < ts[0].monomials.len() {
                    assert(both.monomials[k] == ts[0].monomials[k]);
                } else {
                    assert(both.monomials[k] == ts[1].monomials[k - ts[0].monomials.len()]);
                }
            }
        }
        assert forall|i: int| 0 <= i < next.len() implies in_shape(#[trigger] next[i]) by {
            if i > 0 {
                assert(next[i] == ts[i + 1]);
            }
        }
        assert forall|i: int, j: int| 0 <= i < j < next.len() implies le(next[i], next[j]) by {
            assert(next[j] == ts[j + 1]);
            if i > 0 {
                assert(next[i] == ts[i + 1]);
                assert(le(ts[i + 1], ts[j + 1]));
            } else {
                assert(le(ts[0], ts[j + 1]));
            }
        }
        lemma_merged_shape(next);
    } else {
        let rest = ts.skip(1);
        let inner = merged(rest);
        let out = merged(ts);
        assert forall|i: int| 0 <= i < rest.len() implies in_shape(#[trigger] rest[i]) by {
            assert(rest[i] == ts[i + 1]);
        }
        assert forall|i: int, j: int| 0 <= i < j < rest.len() implies le(rest[i], rest[j]) by {
            assert(le(ts[i + 1], ts[j + 1]));
        }
        lemma_merged_shape(rest);
        assert(le(ts[0], ts[1]));
        lemma_blade_compare_laws(ts[0].bases, ts[1].bases, ts[1].bases);
        assert forall|i: int| 0 <= i < out.len() implies in_shape(#[trigger] out[i]) by {
            if i > 0 {
                assert(out[i] == inner[i - 1]);
            }
        }
        assert forall|i: int, j: int| 0 <= i < j < out.len() implies blade_compare(
            (#[trigger] out[i]).bases,
            (#[trigger] out[j]).bases,
        ) < 0 by {
            assert(out[j] == inner[j - 1]);
            if i > 0 {
                assert(out[i] == inner[i - 1]);
            } else if j > 1 {
                assert(blade_compare(inner[0].bases, inner[j - 1].bases) < 0);
                lemma_blade_compare_laws(ts[0].bases, inner[0].bases, inner[j - 1].bases);
            }
        }
    }
}

/// Compressing terms that stand in the order of their blades, each over
/// a canonical blade and with sorted letters, gives a canonical form.
pub proof fn lemma_compressed_is_canonical(ts: Seq<Term>)
    requires
        ordered(ts, term_order()),
        forall|i: int| 0 <= i < ts.len() ==> in_shape(#[trigger] ts[i]),
    ensures
        canonical_form(compressed(ts)),
{
    let joined_up = merged(ts);
    let out = compressed(ts);
    lemma_merged_shape(ts);
    assert forall|i: int| 0 <= i < out.len() implies in_shape(#[trigger] out[i]) && ordered(
        out[i].monomials,
        product_order(),
    ) && out[i].bases == joined_up[i].bases by {
        lemma_term_compressed_shape(joined_up[i]);
    }
    assert forall|i: int, j: int| 0 <= i < j < out.len() implies blade_compare(
        (#[trigger] out[i]).bases,
        (#[trigger] out[j]).bases,
    ) < 0 by {
        assert(blade_compare(joined_up[i].bases, joined_up[j].bases) < 0);
    }
}

/// Simplification brings every multivector into canonical form.
pub proof fn lemma_simplified_is_canonical(ts: Seq<Term>)
    ensures
        canonical_form(simplified(ts)),
{
    let mapped = ts.map_values(|t: Term| term_simplified(t));
    let sorted = stable_sort(mapped, term_order());
    lemma_term_order_total();
    lemma_stable_sort_sorts(mapped, term_order());
    lemma_stable_sort_members(mapped, term_order());
    assert forall|i: int| 0 <= i < sorted.len() implies in_shape(#[trigger] sorted[i]) by {
        assert(mapped.contains(sorted[i]));
        let j = choose|j: int| 0 <= j < mapped.len() && mapped[j] == sorted[i];
        lemma_term_simplified_shape(ts[j]);
    }
    lemma_compressed_is_canonical(sorted);
}

/// Simplifying twice gives what simplifying once gives.
pub proof fn lemma_simplify_is_idempotent(ts: Seq<Term>)
    ensures
        simplified(simplified(ts)) == simplified(ts),
{
    lemma_simplified_is_canonical(ts);
    lemma_canonical_form_is_fixed(simplified(ts));
}

} // verus!
