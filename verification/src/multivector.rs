//! Multivectors: lists of terms, their product and their canonical form.

use crate::basis::{AlgebraError, Base, Var};
use crate::blade::{blade_compare, compare_blades};
use crate::laws::{canonical_form, lemma_simplified_is_canonical, lemma_term_order_total};
use crate::monomial::{yields, Monomial, VarParam};
use crate::notation::{term_entry, term_text};
use crate::sorting::{sort_stably, stable_sort, views, Ranking};
use crate::pairing::{
    all_pairs, joined, lemma_pairs_characterized, lemma_pairs_fail, lemma_row_fails, row_of,
};
use crate::term::{
    term_compressed, term_negated, term_product, term_simplified, Param, Term,
};
use vstd::prelude::*;
use vstd::string::StringExecFns;

verus! {

/// The order of terms: by the order of their blades.
pub open spec fn term_order() -> spec_fn(Term, Term) -> bool {
    |a: Term, b: Term| blade_compare(a.bases, b.bases) <= 0
}

/// The sum of two terms over one blade: the monomials of the first, then
/// those of the second.
pub open spec fn term_sum(a: Term, b: Term) -> Term {
    Term { monomials: a.monomials + b.monomials, bases: a.bases }
}

/// The terms with neighbours over the same blade merged into one, from the
/// left.
pub open spec fn merged(ts: Seq<Term>) -> Seq<Term>
    decreases ts.len(),
{
    if ts.len() < 2 {
        ts
    } else if ts[0].bases == ts[1].bases {
        merged(seq![term_sum(ts[0], ts[1])] + ts.skip(2))
    } else {
        seq![ts[0]] + merged(ts.skip(1))
    }
}

/// The terms with neighbours over the same blade merged, and within each
/// term like monomials brought together.
pub open spec fn compressed(ts: Seq<Term>) -> Seq<Term> {
    merged(ts).map_values(|t: Term| term_compressed(t))
}

/// The canonical form: every term over its canonical blade, the terms in
/// the order of their blades, one term for each blade.
pub open spec fn simplified(ts: Seq<Term>) -> Seq<Term> {
    compressed(stable_sort(ts.map_values(|t: Term| term_simplified(t)), term_order()))
}

/// The reverse of one term: negated where its blade has two vectors.
pub open spec fn term_reversed(t: Term) -> Term {
    if t.bases.len() == 2 {
        term_negated(t)
    } else {
        t
    }
}

/// The reverse: every term over a blade of two vectors negated.
pub open spec fn reversed(ts: Seq<Term>) -> Seq<Term> {
    ts.map_values(|t: Term| term_reversed(t))
}

/// The product of terms as a function of two terms.
pub open spec fn term_multiplication() -> spec_fn(Term, Term) -> Result<Term, AlgebraError> {
    |a: Term, b: Term| term_product(a, b)
}

/// The geometric product before any simplification: each term of `ts`
/// with each term of `us`, those of the first term of `ts` first; or the
/// first pair of variables that cannot be multiplied.
pub open spec fn product_of(ts: Seq<Term>, us: Seq<Term>) -> Result<Seq<Term>, AlgebraError> {
    all_pairs(ts, us, term_multiplication())
}

/// The term of one scalar letter over a blade.
pub open spec fn scalar_term(letter: char, bases: Seq<Base>) -> Term {
    Term {
        monomials: seq![Monomial { negative: false, scalars: seq![letter], var: None }],
        bases,
    }
}

/// The term of one variable over one basis vector.
pub open spec fn variable_term(var: Var, base: Base) -> Term {
    Term {
        monomials: seq![
            Monomial { negative: false, scalars: Seq::<char>::empty(), var: Some(var) },
        ],
        bases: seq![base],
    }
}

/// The rotor with the given coefficients: a scalar, the six blades of two
/// vectors, and the pseudoscalar.
pub open spec fn rotor(
    a: char,
    b: char,
    c: char,
    d: char,
    e: char,
    f: char,
    g: char,
    h: char,
) -> Seq<Term> {
    seq![
        scalar_term(a, Seq::<Base>::empty()),
        scalar_term(b, seq![Base::E1, Base::E2]),
        scalar_term(c, seq![Base::E1, Base::E3]),
        scalar_term(d, seq![Base::E1, Base::E4]),
        scalar_term(e, seq![Base::E2, Base::E3]),
        scalar_term(f, seq![Base::E2, Base::E4]),
        scalar_term(g, seq![Base::E3, Base::E4]),
        scalar_term(h, seq![Base::E1, Base::E2, Base::E3, Base::E4]),
    ]
}

/// The vector with the given variables as coordinates.
pub open spec fn vector(a: Var, b: Var, c: Var, d: Var) -> Seq<Term> {
    seq![
        variable_term(a, Base::E1),
        variable_term(b, Base::E2),
        variable_term(c, Base::E3),
        variable_term(d, Base::E4),
    ]
}

/// The terms that hold at least one monomial.
pub open spec fn retained(ts: Seq<Term>) -> Seq<Term>
    decreases ts.len(),
{
    if ts.len() == 0 {
        ts
    } else if ts.last().monomials.len() > 0 {
        retained(ts.drop_last()).push(ts.last())
    } else {
        retained(ts.drop_last())
    }
}

/// The entries of terms, joined by plus signs.
pub open spec fn entries(ts: Seq<Term>) -> Seq<char>
    decreases ts.len(),
{
    if ts.len() == 0 {
        Seq::<char>::empty()
    } else if ts.len() == 1 {
        term_entry(ts[0])
    } else {
        entries(ts.drop_last()) + seq![' ', '+', ' '] + term_entry(ts.last())
    }
}

/// A multivector as it is kept: the terms that hold a monomial, joined by
/// plus signs, in square brackets; nothing where no term holds one.
pub open spec fn display_text(ts: Seq<Term>) -> Seq<char> {
    if retained(ts).len() == 0 {
        Seq::<char>::empty()
    } else {
        seq!['['] + entries(retained(ts)) + seq![']']
    }
}

/// A multivector in final form: one line for each term that holds a
/// monomial, or the first refusal.
pub open spec fn final_text(ts: Seq<Term>) -> Result<Seq<char>, AlgebraError>
    decreases ts.len(),
{
    if ts.len() == 0 {
        Ok(Seq::empty())
    } else if ts.last().monomials.len() > 0 {
        joined(joined(final_text(ts.drop_last()), term_text(ts.last())), Ok(seq!['\n']))
    } else {
        final_text(ts.drop_last())
    }
}

/// The ranking of terms by their blades.
pub struct ByBlade;

impl Ranking<Param> for ByBlade {
    open spec fn relation() -> spec_fn(Term, Term) -> bool {
        term_order()
    }

    fn decide(a: &Param, b: &Param) -> (r: bool) {
        compare_blades(a.bases(), b.bases()) <= 0
    }

    proof fn lawful() {
        lemma_term_order_total();
    }
}

/// A sum of terms, each a coefficient over a blade.
#[derive(Debug)]
pub struct Multivector {
    params: Vec<Param>,
}

impl View for Multivector {
    type V = Seq<Term>;

    closed spec fn view(&self) -> Seq<Term> {
        views(self.params@)
    }
}

impl Clone for Multivector {
    fn clone(&self) -> (r: Self)
        ensures
            r@ == self@,
    {
        let mut params: Vec<Param> = Vec::new();
        let n = self.params.len();
        let mut i: usize = 0;
        while i < n
            invariant
                i <= n,
                n == self.params@.len(),
                views(params@) =~= views(self.params@).take(i as int),
            decreases n - i,
        {
            let ghost held = views(params@);
            let copy = self.params[i].clone();
            let ghost value = copy@;
            params.push(copy);
            assert(views(params@) =~= held.push(value));
            i = i + 1;
        }
        assert(views(self.params@).take(n as int) =~= views(self.params@));
        Multivector { params }
    }
}

/// The term of one scalar letter over the blade of the given vectors.
fn scalar_param(letter: char, bases: Vec<Base>) -> (r: Param)
    ensures
        r@ == scalar_term(letter, bases@),
{
    Param::new(VarParam::from_scalar(letter), bases)
}

/// The term of one variable over one basis vector.
fn variable_param(var: Var, base: Base) -> (r: Param)
    ensures
        r@ == variable_term(var, base),
{
    let mut bases: Vec<Base> = Vec::new();
    bases.push(base);
    assert(bases@ =~= seq![base]);
    Param::new(VarParam::from_var(var), bases)
}

/// The blade of two vectors.
fn pair(x: Base, y: Base) -> (r: Vec<Base>)
    ensures
        r@ == seq![x, y],
{
    let mut bases: Vec<Base> = Vec::new();
    bases.push(x);
    bases.push(y);
    assert(bases@ =~= seq![x, y]);
    bases
}

impl Multivector {
    /// The multivector of the given terms.
    pub fn from_params(params: Vec<Param>) -> (r: Self)
        ensures
            r@ == views(params@),
    {
        Multivector { params }
    }

    /// The terms, in the order in which they are kept.
    pub fn params(&self) -> (r: &Vec<Param>)
        ensures
            views(r@) == self@,
    {
        &self.params
    }

    /// The rotor with the given coefficients: `a` is the scalar part, `b`
    /// to `g` stand over the blades e1e2, e1e3, e1e4, e2e3, e2e4 and e3e4,
    /// and `h` over the pseudoscalar.
    pub fn from_rotor(
        a: char,
        b: char,
        c: char,
        d: char,
        e: char,
        f: char,
        g: char,
        h: char,
    ) -> (r: Self)
        ensures
            r@ == rotor(a, b, c, d, e, f, g, h),
    {
        let mut all = pair(Base::e1(), Base::e2());
        all.push(Base::e3());
        all.push(Base::e4());
        assert(all@ =~= seq![Base::E1, Base::E2, Base::E3, Base::E4]);
        let mut params: Vec<Param> = Vec::new();
        params.push(scalar_param(a, Vec::new()));
        params.push(scalar_param(b, pair(Base::e1(), Base::e2())));
        params.push(scalar_param(c, pair(Base::e1(), Base::e3())));
        params.push(scalar_param(d, pair(Base::e1(), Base::e4())));
        params.push(scalar_param(e, pair(Base::e2(), Base::e3())));
        params.push(scalar_param(f, pair(Base::e2(), Base::e4())));
        params.push(scalar_param(g, pair(Base::e3(), Base::e4())));
        params.push(scalar_param(h, all));
        assert(views(params@) =~= rotor(a, b, c, d, e, f, g, h));
        Multivector { params }
    }

    /// The vector with the given variables over e1, e2, e3 and e4.
    pub fn from_vector(a: Var, b: Var, c: Var, d: Var) -> (r: Self)
        ensures
            r@ == vector(a, b, c, d),
    {
        let mut params: Vec<Param> = Vec::new();
        params.push(variable_param(a, Base::e1()));
        params.push(variable_param(b, Base::e2()));
        params.push(variable_param(c, Base::e3()));
        params.push(variable_param(d, Base::e4()));
        assert(views(params@) =~= vector(a, b, c, d));
        Multivector { params }
    }

    /// Brings the multivector into canonical form: each term over its
    /// canonical blade, the terms sorted by blade, terms over one blade
    /// merged, and like monomials brought together. Afterwards no blade
    /// occurs twice.
    pub fn simplify(&mut self)
        ensures
            final(self)@ == simplified(old(self)@),
            canonical_form(final(self)@),
    {
        proof {
            lemma_simplified_is_canonical(self@);
        }
        let ghost before = views(self.params@);
        let n = self.params.len();
        let mut i: usize = 0;
        while i < n
            invariant
                i <= n,
                n == self.params@.len(),
                n == before.len(),
                forall|k: int| 0 <= k < i ==> views(self.params@)[k] == term_simplified(before[k]),
                forall|k: int| i <= k < n ==> views(self.params@)[k] == before[k],
            decreases n - i,
        {
            let ghost held = views(self.params@);
            let mut param = self.params.remove(i);
            assert(param@ == held[i as int] && held[i as int] == before[i as int]);
            param.simplify();
            let ghost value = param@;
            self.params.insert(i, param);
            assert(views(self.params@) =~= held.update(i as int, value));
            i = i + 1;
        }
        assert(views(self.params@) =~= before.map_values(|t: Term| term_simplified(t)));
        sort_stably::<Param, ByBlade>(&mut self.params);
        self.compress();
    }

    /// Merges neighbouring terms over the same blade, then brings like
    /// monomials together within each term.
    pub fn compress(&mut self)
        ensures
            final(self)@ == compressed(old(self)@),
    {
        let ghost orig = views(self.params@);
        let mut i: usize = 0;
        assert(orig.skip(0) =~= orig);
        assert(orig.take(0) + merged(orig) =~= merged(orig));
        while self.params.len() - i > 1
            invariant
                i <= self.params@.len(),
                merged(orig) == views(self.params@).take(i as int) + merged(
                    views(self.params@).skip(i as int),
                ),
            decreases self.params@.len() - i,
        {
            let ghost held = views(self.params@);
            proof {
                assert(held.skip(i as int)[0] == held[i as int]);
                assert(held.skip(i as int)[1] == held[i + 1]);
                crate::blade::lemma_blade_compare_laws(
                    held[i as int].bases,
                    held[i + 1].bases,
                    held[i + 1].bases,
                );
            }
            if compare_blades(self.params[i].bases(), self.params[i + 1].bases()) == 0 {
                let next = self.params.remove(i + 1);
                let mut param = self.params.remove(i);
                param.absorb(next);
                let ghost value = param@;
                self.params.insert(i, param);
                proof {
                    assert(value == term_sum(held[i as int], held[i + 1]));
                    assert(views(self.params@).take(i as int) =~= held.take(i as int));
                    assert(views(self.params@).skip(i as int) =~= seq![value] + held.skip(
                        i as int,
                    ).skip(2));
                }
            } else {
                proof {
                    assert(held.skip(i as int).skip(1) =~= held.skip(i + 1));
                    assert(held.take(i as int) + (seq![held[i as int]] + merged(held.skip(i + 1)))
                        =~= held.take(i + 1) + merged(held.skip(i + 1)));
                }
                i = i + 1;
            }
        }
        proof {
            let held = views(self.params@);
            assert(held.take(i as int) + held.skip(i as int) =~= held);
        }
        let ghost joined_up = views(self.params@);
        let n = self.params.len();
        let mut k: usize = 0;
        while k < n
            invariant
                k <= n,
                n == self.params@.len(),
                n == joined_up.len(),
                forall|j: int|
                    0 <= j < k ==> views(self.params@)[j] == term_compressed(joined_up[j]),
                forall|j: int| k <= j < n ==> views(self.params@)[j] == joined_up[j],
            decreases n - k,
        {
            let ghost held = views(self.params@);
            let mut param = self.params.remove(k);
            assert(param@ == held[k as int] && held[k as int] == joined_up[k as int]);
            param.compress();
            let ghost value = param@;
            self.params.insert(k, param);
            assert(views(self.params@) =~= held.update(k as int, value));
            k = k + 1;
        }
        assert(views(self.params@) =~= joined_up.map_values(|t: Term| term_compressed(t)));
    }

    /// The reverse: a copy in which every term over a blade of exactly two
    /// vectors is negated.
    pub fn reverse(&self) -> (r: Self)
        ensures
            r@ == reversed(self@),
    {
        let mut rotor = self.clone();
        let ghost before = views(rotor.params@);
        let n = rotor.params.len();
        let mut i: usize = 0;
        while i < n
            invariant
                i <= n,
                n == rotor.params@.len(),
                n == before.len(),
                forall|k: int| 0 <= k < i ==> views(rotor.params@)[k] == term_reversed(before[k]),
                forall|k: int| i <= k < n ==> views(rotor.params@)[k] == before[k],
            decreases n - i,
        {
            let ghost held = views(rotor.params@);
            assert(held[i as int] == before[i as int]);
            if rotor.params[i].bases().len() == 2 {
                let mut param = rotor.params.remove(i);
                assert(param@ == held[i as int]);
                param.negate();
                let ghost value = param@;
                rotor.params.insert(i, param);
                assert(views(rotor.params@) =~= held.update(i as int, value));
            }
            i = i + 1;
        }
        assert(views(rotor.params@) =~= before.map_values(|t: Term| term_reversed(t)));
        rotor
    }

    /// The geometric product of two multivectors, before any
    /// simplification: every term of `self` times every term of `other`,
    /// or the first pair of variables that cannot be multiplied.
    pub fn product(&self, other: &Multivector) -> (r: Result<Multivector, AlgebraError>)
        ensures
            yields(r, product_of(self@, other@)),
    {
        let ghost ts = self@;
        let ghost us = other@;
        let mut params: Vec<Param> = Vec::new();
        let n = self.params.len();
        let m = other.params.len();
        let mut i: usize = 0;
        assert(ts.take(0) =~= Seq::<Term>::empty());
        assert(views(params@) =~= Seq::<Term>::empty());
        while i < n
            invariant
                i <= n,
                n == self.params@.len(),
                m == other.params@.len(),
                ts == views(self.params@),
                us == views(other.params@),
                ts == self@,
                us == other@,
                product_of(ts.take(i as int), us) == Ok::<Seq<Term>, AlgebraError>(
                    views(params@),
                ),
            decreases n - i,
        {
            let ghost done = views(params@);
            let mut j: usize = 0;
            assert(us.take(0) =~= Seq::<Term>::empty());
            assert(done + Seq::<Term>::empty() =~= done);
            while j < m
                invariant
                    j <= m,
                    i < n,
                    n == self.params@.len(),
                    m == other.params@.len(),
                    ts == views(self.params@),
                    us == views(other.params@),
                    ts == self@,
                    us == other@,
                    product_of(ts.take(i as int), us) == Ok::<Seq<Term>, AlgebraError>(done),
                    exists|row: Seq<Term>|
                        row_of(ts[i as int], us.take(j as int), term_multiplication()) == Ok::<
                            Seq<Term>,
                            AlgebraError,
                        >(row) && views(params@) == done + row,
                decreases m - j,
            {
                let ghost row = choose|row: Seq<Term>|
                    row_of(ts[i as int], us.take(j as int), term_multiplication()) == Ok::<
                        Seq<Term>,
                        AlgebraError,
                    >(row) && views(params@) == done + row;
                proof {
                    assert(us.take(j + 1).drop_last() =~= us.take(j as int));
                    assert(us.take(j + 1).last() == us[j as int]);
                    assert(ts.take(i + 1).drop_last() =~= ts.take(i as int));
                    assert(ts.take(i + 1).last() == ts[i as int]);
                }
                match self.params[i].multiply(&other.params[j]) {
                    Ok(p) => {
                        let ghost held = views(params@);
                        let ghost value = p@;
                        params.push(p);
                        assert(views(params@) =~= held.push(value));
                        assert(views(params@) =~= done + (row + seq![value]));
                    },
                    Err(e) => {
                        proof {
                            let row = row_of(ts[i as int], us.take(j + 1), term_multiplication());
                            assert(row == Err::<Seq<Term>, AlgebraError>(e));
                            lemma_row_fails(ts[i as int], us, term_multiplication(), j + 1);
                            assert(product_of(ts.take(i + 1), us) == Err::<
                                Seq<Term>,
                                AlgebraError,
                            >(e));
                            lemma_pairs_fail(ts, us, term_multiplication(), i + 1);
                        }
                        return Err(e);
                    },
                }
                j = j + 1;
            }
            proof {
                assert(us.take(m as int) =~= us);
                assert(ts.take(i + 1).drop_last() =~= ts.take(i as int));
                assert(ts.take(i + 1).last() == ts[i as int]);
            }
            i = i + 1;
        }
        assert(ts.take(n as int) =~= ts);
        Ok(Multivector { params })
    }

    /// The multivector in final form, one line for each term that holds a
    /// monomial. A letter repeated more than 9 times in one monomial is
    /// refused.
    pub fn into_final(self) -> (r: Result<String, AlgebraError>)
        ensures
            yields(r, final_text(self@)),
    {
        let ghost ts = self@;
        let mut params = self.params;
        let mut fin = String::new();
        let ghost mut done: int = 0;
        assert(ts.take(0) =~= Seq::<Term>::empty());
        assert(ts.skip(0) =~= ts);
        while params.len() > 0
            invariant
                0 <= done <= ts.len(),
                ts == self@,
                params@.len() == ts.len() - done,
                views(params@) == ts.skip(done),
                final_text(ts.take(done)) == Ok::<Seq<char>, AlgebraError>(fin@),
            decreases params@.len(),
        {
            let ghost held = views(params@);
            let param = params.remove(0);
            proof {
                assert(param@ == held[0] && held[0] == ts[done]);
                assert(views(params@) =~= held.remove(0));
                assert(held.remove(0) =~= ts.skip(done + 1));
                assert(ts.take(done + 1).drop_last() =~= ts.take(done));
                assert(ts.take(done + 1).last() == ts[done]);
            }
            if param.var_params().len() > 0 {
                match param.into_final() {
                    Ok(line) => {
                        fin.append(line.as_str());
                        fin.append("\n");
                        proof {
                            reveal_strlit("\n");
                            assert("\n"@ =~= seq!['\n']);
                        }
                    },
                    Err(e) => {
                        proof {
                            assert(final_text(ts.take(done + 1)) == Err::<Seq<char>, AlgebraError>(
                                e,
                            ));
                            lemma_final_text_fails(ts, done + 1);
                        }
                        return Err(e);
                    },
                }
            }
            proof {
                done = done + 1;
            }
        }
        assert(ts.take(done) =~= ts);
        Ok(fin)
    }

    /// The multivector as it is kept: the terms that hold a monomial,
    /// joined by plus signs, in square brackets. Where no term holds a
    /// monomial the text is empty.
    pub fn display(&self) -> (text: String)
        ensures
            text@ == display_text(self@),
    {
        let ghost ts = self@;
        let n = self.params.len();
        let mut text = String::new();
        let mut any = false;
        let mut i: usize = 0;
        assert(ts.take(0) =~= Seq::<Term>::empty());
        while i < n
            invariant
                i <= n,
                n == self.params@.len(),
                ts == views(self.params@),
                any == (retained(ts.take(i as int)).len() > 0),
                !any ==> text@ == Seq::<char>::empty(),
                any ==> text@ == seq!['['] + entries(retained(ts.take(i as int))),
            decreases n - i,
        {
            proof {
                assert(ts.take(i + 1).drop_last() =~= ts.take(i as int));
                assert(ts.take(i + 1).last() == ts[i as int]);
            }
            if self.params[i].var_params().len() > 0 {
                let ghost kept = retained(ts.take(i as int));
                if any {
                    text.append(" + ");
                    proof {
                        reveal_strlit(" + ");
                        assert(" + "@ =~= seq![' ', '+', ' ']);
                    }
                } else {
                    text.append("[");
                    proof {
                        reveal_strlit("[");
                        assert("["@ =~= seq!['[']);
                    }
                    any = true;
                }
                self.params[i].write_entry(&mut text);
                proof {
                    let now = kept.push(ts[i as int]);
                    assert(now.drop_last() =~= kept);
                    assert(now.last() == ts[i as int]);
                    assert(text@ =~= seq!['['] + entries(now));
                }
            }
            i = i + 1;
        }
        assert(ts.take(n as int) =~= ts);
        if any {
            text.append("]");
            proof {
                reveal_strlit("]");
                assert("]"@ =~= seq![']']);
            }
        }
        text
    }
}

/// Where the final form of the first `k` terms is refused, so is that of
/// all of them, in the same way.
pub proof fn lemma_final_text_fails(ts: Seq<Term>, k: int)
    requires
        0 <= k <= ts.len(),
        final_text(ts.take(k)) is Err,
    ensures
        final_text(ts) == final_text(ts.take(k)),
    decreases ts.len() - k,
{
    if k < ts.len() {
        assert(ts.take(k + 1).drop_last() =~= ts.take(k));
        lemma_final_text_fails(ts, k + 1);
    } else {
        assert(ts.take(k) =~= ts);
    }
}

/// Two multivectors can be multiplied exactly where every term of the
/// first can be multiplied with every term of the second. The product
/// then holds the product of the terms `i` and `j` at the place
/// `i * n + j`, where `n` counts the terms of the second.
pub proof fn lemma_product_characterized(ts: Seq<Term>, us: Seq<Term>)
    ensures
        product_of(ts, us) is Ok <==> forall|i: int, j: int|
            0 <= i < ts.len() && 0 <= j < us.len() ==> term_product(
                #[trigger] ts[i],
                #[trigger] us[j],
            ) is Ok,
        product_of(ts, us) is Ok ==> product_of(ts, us)->Ok_0.len() == ts.len() * us.len()
            && forall|i: int, j: int|
            0 <= i < ts.len() && 0 <= j < us.len() ==> 0 <= i * us.len() + j < ts.len() * us.len()
                && term_product(#[trigger] ts[i], #[trigger] us[j]) == Ok::<Term, AlgebraError>(
                product_of(ts, us)->Ok_0[i * us.len() + j],
            ),
{
    let f = term_multiplication();
    lemma_pairs_characterized(ts, us, f);
    if product_of(ts, us) is Ok {
        assert forall|i: int, j: int| 0 <= i < ts.len() && 0 <= j < us.len() implies term_product(
            #[trigger] ts[i],
            #[trigger] us[j],
        ) is Ok && 0 <= i * us.len() + j < ts.len() * us.len() && term_product(ts[i], us[j])
            == Ok::<Term, AlgebraError>(product_of(ts, us)->Ok_0[i * us.len() + j]) by {
            assert(f(ts[i], us[j]) is Ok);
        }
    } else {
        let (i, j) = choose|i: int, j: int|
            0 <= i < ts.len() && 0 <= j < us.len() && #[trigger] f(ts[i], us[j]) == Err::<
                Term,
                AlgebraError,
            >(all_pairs(ts, us, f)->Err_0);
        assert(term_product(ts[i], us[j]) is Err);
    }
    if forall|i: int, j: int|
        0 <= i < ts.len() && 0 <= j < us.len() ==> term_product(
            #[trigger] ts[i],
            #[trigger] us[j],
        ) is Ok {
        assert forall|i: int, j: int| 0 <= i < ts.len() && 0 <= j < us.len() implies (#[trigger] f(
            ts[i],
            us[j],
        )) is Ok by {
            assert(term_product(ts[i], us[j]) is Ok);
        }
    }
}

} // verus!
