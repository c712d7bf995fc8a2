//! Terms: sums of monomials attached to one blade.

use crate::basis::{var_rank, AlgebraError, Base, Var};
use crate::blade::{ascending, canonical_blade, sign_flip, Bases};
use crate::monomial::{
    compatible, monomial_product, negated_if, normalized, yields, Monomial, VarParam,
};
use crate::pairing::{
    all_pairs, lemma_pairs_characterized, lemma_pairs_fail, lemma_row_fails, row_of,
};
use crate::sorting::{sort_stably, stable_sort, total_preorder, views, Ranking};
use vstd::prelude::*;

verus! {

/// The mathematical value of a term: the sum of its monomials, times the
/// product of its basis vectors.
pub struct Term {
    /// The monomials of the coefficient, in the order in which they are kept.
    pub monomials: Seq<Monomial>,
    /// The blade, raw or canonical.
    pub bases: Seq<Base>,
}

/// The order of monomials by their variable: those without one first, then
/// by the rank of the variable.
pub open spec fn variable_order() -> spec_fn(Monomial, Monomial) -> bool {
    |a: Monomial, b: Monomial| var_rank(a.var) <= var_rank(b.var)
}

/// The order of two letter sequences as in a dictionary: -1, 0 or 1.
pub open spec fn letters_compare(a: Seq<char>, b: Seq<char>) -> int
    decreases a.len(),
{
    if a.len() == 0 {
        if b.len() == 0 {
            0
        } else {
            -1
        }
    } else if b.len() == 0 {
        1
    } else if a[0] < b[0] {
        -1
    } else if a[0] > b[0] {
        1
    } else {
        letters_compare(a.skip(1), b.skip(1))
    }
}

/// The order of two monomials by variable, then by letters: -1, 0 or 1.
/// The sign plays no part.
pub open spec fn product_compare(a: Monomial, b: Monomial) -> int {
    if var_rank(a.var) < var_rank(b.var) {
        -1
    } else if var_rank(a.var) > var_rank(b.var) {
        1
    } else {
        letters_compare(a.scalars, b.scalars)
    }
}

/// The order that brings monomials with one variable and the same letters
/// next to each other.
pub open spec fn product_order() -> spec_fn(Monomial, Monomial) -> bool {
    |a: Monomial, b: Monomial| product_compare(a, b) <= 0
}

/// The dictionary order of letters is total, and calls two sequences equal
/// only when they are the same.
pub proof fn lemma_letters_compare_laws(a: Seq<char>, b: Seq<char>, c: Seq<char>)
    ensures
        -1 <= letters_compare(a, b) <= 1,
        letters_compare(a, b) == -letters_compare(b, a),
        letters_compare(a, b) == 0 <==> a == b,
        letters_compare(a, b) <= 0 && letters_compare(b, c) <= 0 ==> letters_compare(a, c) <= 0,
    decreases a.len(),
{
    if a.len() == 0 {
        if b.len() == 0 {
            assert(a =~= b);
        }
    } else if b.len() == 0 {
    } else if c.len() == 0 {
        lemma_letters_compare_laws(a.skip(1), b.skip(1), b.skip(1));
        if a.skip(1) == b.skip(1) && a[0] == b[0] {
            assert(a =~= seq![a[0]] + a.skip(1));
            assert(b =~= seq![b[0]] + b.skip(1));
        }
    } else {
        lemma_letters_compare_laws(a.skip(1), b.skip(1), c.skip(1));
        if a.skip(1) == b.skip(1) && a[0] == b[0] {
            assert(a =~= seq![a[0]] + a.skip(1));
            assert(b =~= seq![b[0]] + b.skip(1));
        }
    }
}

/// Both orders of monomials are total preorders, and whatever the finer
/// one puts in order is in order by variable too.
pub proof fn lemma_monomial_orders_total()
    ensures
        total_preorder(variable_order()),
        total_preorder(product_order()),
        forall|a: Monomial, b: Monomial| #[trigger]
            product_order()(a, b) ==> variable_order()(a, b),
{
    let le = product_order();
    assert forall|a: Monomial, b: Monomial| #[trigger] le(a, b) || le(b, a) by {
        lemma_letters_compare_laws(a.scalars, b.scalars, b.scalars);
    }
    assert forall|a: Monomial, b: Monomial, c: Monomial| #[trigger]
        le(a, b) && #[trigger] le(b, c) implies le(a, c) by {
        lemma_letters_compare_laws(a.scalars, b.scalars, c.scalars);
    }
}

/// What happens to each monomial when the blade of its term is made
/// canonical: it takes the sign that the reordering costs, and its letters
/// are sorted.
pub open spec fn adjustment(flip: bool) -> spec_fn(Monomial) -> Monomial {
    |m: Monomial| normalized(negated_if(m, flip))
}

/// The monomials of a term after its blade was made canonical: each is
/// adjusted, and the whole is sorted by variable.
pub open spec fn simplified_monomials(ms: Seq<Monomial>, flip: bool) -> Seq<Monomial> {
    stable_sort(ms.map_values(adjustment(flip)), variable_order())
}

/// The term over its canonical blade.
pub open spec fn term_simplified(t: Term) -> Term {
    Term {
        monomials: simplified_monomials(t.monomials, sign_flip(t.bases)),
        bases: canonical_blade(t.bases),
    }
}

/// The term with like monomials next to each other.
pub open spec fn term_compressed(t: Term) -> Term {
    Term { monomials: stable_sort(t.monomials, product_order()), ..t }
}

/// The term with every monomial negated.
pub open spec fn term_negated(t: Term) -> Term {
    Term { monomials: t.monomials.map_values(|m: Monomial| negated_if(m, true)), ..t }
}

/// The product of monomials as a function of two monomials.
pub open spec fn monomial_multiplication() -> spec_fn(Monomial, Monomial) -> Result<
    Monomial,
    AlgebraError,
> {
    |a: Monomial, b: Monomial| monomial_product(a, b)
}

/// The products of each monomial of `ms` with each of `ns`: all those of
/// the first monomial of `ms`, then all those of the second, and so on;
/// or the first pair of variables that cannot be multiplied.
pub open spec fn cross_product(ms: Seq<Monomial>, ns: Seq<Monomial>) -> Result<
    Seq<Monomial>,
    AlgebraError,
> {
    all_pairs(ms, ns, monomial_multiplication())
}

/// The product of two terms: every monomial of the first with every
/// monomial of the second, over the blade of the first followed by the
/// blade of the second.
pub open spec fn term_product(a: Term, b: Term) -> Result<Term, AlgebraError> {
    match cross_product(a.monomials, b.monomials) {
        Ok(ms) => Ok(Term { monomials: ms, bases: a.bases + b.bases }),
        Err(e) => Err(e),
    }
}

/// The rank of an optional variable.
pub fn rank_of(v: Option<Var>) -> (r: u8)
    ensures
        r == var_rank(v),
{
    match v {
        None => 0,
        Some(x) => x.index(),
    }
}

/// Compares two letter sequences as in a dictionary.
pub fn compare_letters(a: &Vec<char>, b: &Vec<char>) -> (r: i8)
    ensures
        r == letters_compare(a@, b@),
{
    let mut i: usize = 0;
    assert(a@.skip(0) =~= a@ && b@.skip(0) =~= b@);
    while i < a.len() && i < b.len()
        invariant
            i <= a@.len(),
            i <= b@.len(),
            letters_compare(a@, b@) == letters_compare(a@.skip(i as int), b@.skip(i as int)),
        decreases a@.len() - i,
    {
        proof {
            assert(a@.skip(i as int)[0] == a@[i as int]);
            assert(b@.skip(i as int)[0] == b@[i as int]);
            assert(a@.skip(i as int).skip(1) =~= a@.skip(i + 1));
            assert(b@.skip(i as int).skip(1) =~= b@.skip(i + 1));
        }
        if a[i] < b[i] {
            return -1;
        } else if a[i] > b[i] {
            return 1;
        }
        i = i + 1;
    }
    if i < b.len() {
        -1
    } else if i < a.len() {
        1
    } else {
        0
    }
}

/// The ranking of monomials by their variable.
pub struct ByVariable;

impl Ranking<VarParam> for ByVariable {
    open spec fn relation() -> spec_fn(Monomial, Monomial) -> bool {
        variable_order()
    }

    fn decide(a: &VarParam, b: &VarParam) -> (r: bool) {
        rank_of(a.var()) <= rank_of(b.var())
    }

    proof fn lawful() {
        lemma_monomial_orders_total();
    }
}

/// The ranking of monomials by variable, then by letters.
pub struct ByProduct;

impl Ranking<VarParam> for ByProduct {
    open spec fn relation() -> spec_fn(Monomial, Monomial) -> bool {
        product_order()
    }

    fn decide(a: &VarParam, b: &VarParam) -> (r: bool) {
        let x = rank_of(a.var());
        let y = rank_of(b.var());
        if x < y {
            true
        } else if x > y {
            false
        } else {
            compare_letters(a.scalars(), b.scalars()) <= 0
        }
    }

    proof fn lawful() {
        lemma_monomial_orders_total();
    }
}

/// A sum of monomials attached to one blade.
#[derive(Debug)]
pub struct Param {
    var_params: Vec<VarParam>,
    bases: Vec<Base>,
}

impl View for Param {
    type V = Term;

    closed spec fn view(&self) -> Term {
        Term { monomials: views(self.var_params@), bases: self.bases@ }
    }
}

impl Clone for Param {
    fn clone(&self) -> (r: Self)
        ensures
            r@ == self@,
    {
        let mut var_params: Vec<VarParam> = Vec::new();
        let n = self.var_params.len();
        let mut i: usize = 0;
        while i < n
            invariant
                i <= n,
                n == self.var_params@.len(),
                views(var_params@) =~= views(self.var_params@).take(i as int),
            decreases n - i,
        {
            let ghost held = views(var_params@);
            let copy = self.var_params[i].clone();
            let ghost value = copy@;
            var_params.push(copy);
            assert(views(var_params@) =~= held.push(value));
            i = i + 1;
        }
        let bases = self.bases.clone();
        assert(bases@ =~= self.bases@);
        assert(views(self.var_params@).take(n as int) =~= views(self.var_params@));
        Param { var_params, bases }
    }
}

impl Param {
    /// The term of one monomial over the given blade.
    pub fn new(vp: VarParam, bases: Vec<Base>) -> (r: Self)
        ensures
            r@ == (Term { monomials: seq![vp@], bases: bases@ }),
    {
        let mut var_params: Vec<VarParam> = Vec::new();
        var_params.push(vp);
        assert(views(var_params@) =~= seq![vp@]);
        Param { var_params, bases }
    }

    /// The term of the given monomials over the given blade.
    pub fn from_parts(var_params: Vec<VarParam>, bases: Vec<Base>) -> (r: Self)
        ensures
            r@ == (Term { monomials: views(var_params@), bases: bases@ }),
    {
        Param { var_params, bases }
    }

    /// The monomials, in the order in which they are kept.
    pub fn var_params(&self) -> (r: &Vec<VarParam>)
        ensures
            views(r@) == self@.monomials,
    {
        &self.var_params
    }

    /// The blade, as it is kept.
    pub fn bases(&self) -> (r: &Vec<Base>)
        ensures
            r@ == self@.bases,
    {
        &self.bases
    }

    /// Brings the blade into canonical form and the monomials with it:
    /// each takes the sign of the reordering and has its letters sorted,
    /// and the monomials are sorted by variable.
    pub fn simplify(&mut self)
        ensures
            final(self)@ == term_simplified(old(self)@),
            ascending(final(self)@.bases),
    {
        let mut bases: Vec<Base> = Vec::new();
        std::mem::swap(&mut self.bases, &mut bases);
        let (negative, bases) = Bases(bases).simplify();
        self.bases = bases;
        let ghost before = views(self.var_params@);
        let n = self.var_params.len();
        let mut i: usize = 0;
        while i < n
            invariant
                i <= n,
                n == self.var_params@.len(),
                n == before.len(),
                self.bases@ == canonical_blade(old(self)@.bases),
                forall|k: int|
                    0 <= k < i ==> views(self.var_params@)[k] == normalized(
                        negated_if(before[k], negative),
                    ),
                forall|k: int| i <= k < n ==> views(self.var_params@)[k] == before[k],
            decreases n - i,
        {
            let ghost held = views(self.var_params@);
            let mut vp = self.var_params.remove(i);
            assert(vp@ == held[i as int] && held[i as int] == before[i as int]);
            vp.negate_if(negative);
            vp.simplify();
            let ghost value = vp@;
            self.var_params.insert(i, vp);
            assert(views(self.var_params@) =~= held.update(i as int, value));
            i = i + 1;
        }
        assert(views(self.var_params@) =~= before.map_values(adjustment(negative)));
        sort_stably::<VarParam, ByVariable>(&mut self.var_params);
    }

    /// Sorts the monomials by variable, then by letters, so that like
    /// monomials stand next to each other.
    pub fn compress(&mut self)
        ensures
            final(self)@ == term_compressed(old(self)@),
    {
        sort_stably::<VarParam, ByProduct>(&mut self.var_params);
    }

    /// Negates every monomial of the term.
    pub fn negate(&mut self)
        ensures
            final(self)@ == term_negated(old(self)@),
    {
        let ghost before = views(self.var_params@);
        let n = self.var_params.len();
        let mut i: usize = 0;
        while i < n
            invariant
                i <= n,
                n == self.var_params@.len(),
                n == before.len(),
                self.bases@ == old(self).bases@,
                forall|k: int|
                    0 <= k < i ==> views(self.var_params@)[k] == negated_if(before[k], true),
                forall|k: int| i <= k < n ==> views(self.var_params@)[k] == before[k],
            decreases n - i,
        {
            let ghost held = views(self.var_params@);
            let mut vp = self.var_params.remove(i);
            assert(vp@ == held[i as int] && held[i as int] == before[i as int]);
            vp.negate_if(true);
            let ghost value = vp@;
            self.var_params.insert(i, vp);
            assert(views(self.var_params@) =~= held.update(i as int, value));
            i = i + 1;
        }
        assert(views(self.var_params@) =~= before.map_values(|m: Monomial| negated_if(m, true)));
    }

    /// Moves the monomials of `other` behind those of `self`.
    pub fn absorb(&mut self, other: Param)
        ensures
            final(self)@ == (Term {
                monomials: old(self)@.monomials + other@.monomials,
                bases: old(self)@.bases,
            }),
    {
        let mut other = other;
        let ghost mine = self.var_params@;
        let ghost theirs = other.var_params@;
        self.var_params.append(&mut other.var_params);
        assert(views(mine + theirs) =~= views(mine) + views(theirs));
    }

    /// The product of two terms, or the first pair of variables that
    /// cannot be multiplied.
    pub fn multiply(&self, other: &Param) -> (r: Result<Param, AlgebraError>)
        ensures
            yields(r, term_product(self@, other@)),
    {
        let ghost ms = self@.monomials;
        let ghost ns = other@.monomials;
        let mut var_params: Vec<VarParam> = Vec::new();
        let n = self.var_params.len();
        let m = other.var_params.len();
        let mut i: usize = 0;
        assert(ms.take(0) =~= Seq::<Monomial>::empty());
        assert(views(var_params@) =~= Seq::<Monomial>::empty());
        while i < n
            invariant
                i <= n,
                n == self.var_params@.len(),
                m == other.var_params@.len(),
                ms == views(self.var_params@),
                ns == views(other.var_params@),
                cross_product(ms.take(i as int), ns) == Ok::<Seq<Monomial>, AlgebraError>(
                    views(var_params@),
                ),
            decreases n - i,
        {
            let ghost done = views(var_params@);
            let mut j: usize = 0;
            assert(ns.take(0) =~= Seq::<Monomial>::empty());
            assert(done + Seq::<Monomial>::empty() =~= done);
            while j < m
                invariant
                    j <= m,
                    i < n,
                    n == self.var_params@.len(),
                    m == other.var_params@.len(),
                    ms == views(self.var_params@),
                    ns == views(other.var_params@),
                    cross_product(ms.take(i as int), ns) == Ok::<Seq<Monomial>, AlgebraError>(
                        done,
                    ),
                    exists|row: Seq<Monomial>|
                        row_of(ms[i as int], ns.take(j as int), monomial_multiplication()) == Ok::<
                            Seq<Monomial>,
                            AlgebraError,
                        >(row) && views(var_params@) == done + row,
                decreases m - j,
            {
                let ghost row = choose|row: Seq<Monomial>|
                    row_of(ms[i as int], ns.take(j as int), monomial_multiplication()) == Ok::<
                        Seq<Monomial>,
                        AlgebraError,
                    >(row) && views(var_params@) == done + row;
                proof {
                    assert(ns.take(j + 1).drop_last() =~= ns.take(j as int));
                    assert(ns.take(j + 1).last() == ns[j as int]);
                    assert(ms.take(i + 1).drop_last() =~= ms.take(i as int));
                    assert(ms.take(i + 1).last() == ms[i as int]);
                }
                match self.var_params[i].multiply(&other.var_params[j]) {
                    Ok(p) => {
                        let ghost held = views(var_params@);
                        let ghost value = p@;
                        var_params.push(p);
                        assert(views(var_params@) =~= held.push(value));
                        assert(views(var_params@) =~= done + (row + seq![value]));
                    },
                    Err(e) => {
                        proof {
                            let f = monomial_multiplication();
                            let row = row_of(ms[i as int], ns.take(j + 1), f);
                            assert(row == Err::<Seq<Monomial>, AlgebraError>(e));
                            lemma_row_fails(ms[i as int], ns, monomial_multiplication(), j + 1);
                            assert(cross_product(ms.take(i + 1), ns) == Err::<
                                Seq<Monomial>,
                                AlgebraError,
                            >(e));
                            lemma_pairs_fail(ms, ns, monomial_multiplication(), i + 1);
                        }
                        return Err(e);
                    },
                }
                j = j + 1;
            }
            proof {
                assert(ns.take(m as int) =~= ns);
                assert(ms.take(i + 1).drop_last() =~= ms.take(i as int));
                assert(ms.take(i + 1).last() == ms[i as int]);
            }
            i = i + 1;
        }
        assert(ms.take(n as int) =~= ms);
        let mut bases = self.bases.clone();
        assert(bases@ =~= self.bases@);
        let k = other.bases.len();
        let mut b: usize = 0;
        assert(other.bases@.take(0) =~= Seq::<Base>::empty());
        while b < k
            invariant
                b <= k,
                k == other.bases@.len(),
                bases@ =~= self.bases@ + other.bases@.take(b as int),
            decreases k - b,
        {
            bases.push(other.bases[b]);
            assert(other.bases@.take(b + 1) =~= other.bases@.take(b as int).push(
                other.bases@[b as int],
            ));
            b = b + 1;
        }
        assert(other.bases@.take(k as int) =~= other.bases@);
        Ok(Param { var_params, bases })
    }
}

/// Two terms can be multiplied exactly where every monomial of the first
/// is compatible with every monomial of the second. The product then
/// holds the product of the monomials `i` and `j` at the place
/// `i * n + j`, where `n` counts the monomials of the second term.
pub proof fn lemma_term_product_characterized(a: Term, b: Term)
    ensures
        term_product(a, b) is Ok <==> forall|i: int, j: int|
            0 <= i < a.monomials.len() && 0 <= j < b.monomials.len() ==> compatible(
                (#[trigger] a.monomials[i]).var,
                (#[trigger] b.monomials[j]).var,
            ),
        term_product(a, b) is Ok ==> {
            let p = term_product(a, b)->Ok_0;
            &&& p.bases == a.bases + b.bases
            &&& p.monomials.len() == a.monomials.len() * b.monomials.len()
            &&& forall|i: int, j: int|
                0 <= i < a.monomials.len() && 0 <= j < b.monomials.len() ==> 0 <= i
                    * b.monomials.len() + j < p.monomials.len() && monomial_product(
                    #[trigger] a.monomials[i],
                    #[trigger] b.monomials[j],
                ) == Ok::<Monomial, AlgebraError>(p.monomials[i * b.monomials.len() + j])
        },
{
    let f = monomial_multiplication();
    let ms = a.monomials;
    let ns = b.monomials;
    lemma_pairs_characterized(ms, ns, f);
    if term_product(a, b) is Ok {
        assert forall|i: int, j: int| 0 <= i < ms.len() && 0 <= j < ns.len() implies compatible(
            (#[trigger] ms[i]).var,
            (#[trigger] ns[j]).var,
        ) && 0 <= i * ns.len() + j < ms.len() * ns.len() && monomial_product(ms[i], ns[j]) == Ok::<
            Monomial,
            AlgebraError,
        >(all_pairs(ms, ns, f)->Ok_0[i * ns.len() + j]) by {
            assert(f(ms[i], ns[j]) is Ok);
        }
    } else {
        let (i, j) = choose|i: int, j: int|
            0 <= i < ms.len() && 0 <= j < ns.len() && #[trigger] f(ms[i], ns[j]) == Err::<
                Monomial,
                AlgebraError,
            >(all_pairs(ms, ns, f)->Err_0);
        assert(!compatible(ms[i].var, ns[j].var));
    }
    if forall|i: int, j: int|
        0 <= i < ms.len() && 0 <= j < ns.len() ==> compatible(
            (#[trigger] ms[i]).var,
            (#[trigger] ns[j]).var,
        ) {
        assert forall|i: int, j: int| 0 <= i < ms.len() && 0 <= j < ns.len() implies (#[trigger] f(
            ms[i],
            ns[j],
        )) is Ok by {
            assert(compatible(ms[i].var, ns[j].var));
        }
    }
}

} // verus!
