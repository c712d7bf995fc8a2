//! Monomials: signed products of scalar letters and at most one variable.

use crate::basis::{AlgebraError, Var};
use crate::sorting::{sort_stably, stable_sort, total_preorder, views, Ranking};
use vstd::prelude::*;

verus! {

/// The mathematical value of a monomial: `sign * (product of scalars) * var`.
pub struct Monomial {
    /// Whether the monomial is negative.
    pub negative: bool,
    /// The scalar letters, each occurrence a factor.
    pub scalars: Seq<char>,
    /// The bound variable, if the monomial carries one.
    pub var: Option<Var>,
}

/// The order of scalar letters, by character value.
pub open spec fn letter_order() -> spec_fn(char, char) -> bool {
    |a: char, b: char| a <= b
}

/// The order of letters is a total preorder.
pub proof fn lemma_letter_order_total()
    ensures
        total_preorder(letter_order()),
{
}

/// Two variables can meet in one product: at most one is present, or both
/// are the same.
pub open spec fn compatible(a: Option<Var>, b: Option<Var>) -> bool {
    a is None || b is None || a == b
}

/// The product of two monomials. The signs multiply, the letters are
/// written one after the other, and the variable is the one that either
/// side carries. Two different variables cannot be multiplied.
pub open spec fn monomial_product(a: Monomial, b: Monomial) -> Result<Monomial, AlgebraError> {
    if compatible(a.var, b.var) {
        Ok(
            Monomial {
                negative: a.negative != b.negative,
                scalars: a.scalars + b.scalars,
                var: if a.var is Some {
                    a.var
                } else {
                    b.var
                },
            },
        )
    } else {
        Err(AlgebraError::IncompatibleVariables(a.var->Some_0, b.var->Some_0))
    }
}

/// `m` with its letters in ascending order.
pub open spec fn normalized(m: Monomial) -> Monomial {
    Monomial { scalars: stable_sort(m.scalars, letter_order()), ..m }
}

/// `m`, negated where `flip` holds.
pub open spec fn negated_if(m: Monomial, flip: bool) -> Monomial {
    Monomial { negative: m.negative != flip, ..m }
}

/// The letters of a monomial followed by the letter of its variable.
pub open spec fn monomial_body(m: Monomial) -> Seq<char> {
    m.scalars + match m.var {
        Some(v) => seq![v.glyph()],
        None => Seq::<char>::empty(),
    }
}

/// The plain text of a monomial: a minus sign where it is negative, then
/// its letters, then its variable.
pub open spec fn monomial_text(m: Monomial) -> Seq<char> {
    (if m.negative {
        seq!['-']
    } else {
        Seq::<char>::empty()
    }) + monomial_body(m)
}

/// Whether a computed result is the expected one: the same error, or a
/// value with the expected view.
pub open spec fn yields<T: View>(
    r: Result<T, AlgebraError>,
    expected: Result<T::V, AlgebraError>,
) -> bool {
    match expected {
        Ok(value) => r is Ok && r->Ok_0@ == value,
        Err(e) => r is Err && r->Err_0 == e,
    }
}

/// Appends one character to a text. This is `String::push` of the standard
/// library: the text afterwards is the text before with `c` at its end.
#[verifier::external_body]
pub(crate) fn push_char(text: &mut String, c: char)
    ensures
        final(text)@ == old(text)@.push(c),
{
    text.push(c)
}

/// Appends the characters of `letters` to `text`, in order.
pub(crate) fn push_letters(text: &mut String, letters: &Vec<char>)
    ensures
        final(text)@ == old(text)@ + letters@,
{
    let n = letters.len();
    let mut i: usize = 0;
    assert(letters@.take(0) =~= Seq::<char>::empty());
    assert(text@ + Seq::<char>::empty() =~= text@);
    while i < n
        invariant
            i <= n,
            n == letters@.len(),
            text@ == old(text)@ + letters@.take(i as int),
        decreases n - i,
    {
        push_char(text, letters[i]);
        assert(letters@.take(i + 1) =~= letters@.take(i as int).push(letters@[i as int]));
        assert(text@ =~= old(text)@ + letters@.take(i + 1));
        i = i + 1;
    }
    assert(letters@.take(n as int) =~= letters@);
}

/// The ranking of letters by character value.
pub struct ByLetter;

impl Ranking<char> for ByLetter {
    open spec fn relation() -> spec_fn(char, char) -> bool {
        letter_order()
    }

    fn decide(a: &char, b: &char) -> (r: bool) {
        *a <= *b
    }

    proof fn lawful() {
        lemma_letter_order_total();
    }
}

/// A signed product of scalar letters and at most one bound variable.
#[derive(Debug)]
pub struct VarParam {
    negative: bool,
    scalars: Vec<char>,
    var: Option<Var>,
}

impl View for VarParam {
    type V = Monomial;

    closed spec fn view(&self) -> Monomial {
        Monomial { negative: self.negative, scalars: self.scalars@, var: self.var }
    }
}

impl Clone for VarParam {
    fn clone(&self) -> (r: Self)
        ensures
            r@ == self@,
    {
        let scalars = self.scalars.clone();
        assert(scalars@ =~= self.scalars@);
        VarParam { negative: self.negative, scalars, var: self.var }
    }
}

impl VarParam {
    /// The positive monomial of one scalar letter.
    pub fn from_scalar(scalar: char) -> (r: Self)
        ensures
            r@ == (Monomial { negative: false, scalars: seq![scalar], var: None }),
    {
        let mut scalars: Vec<char> = Vec::new();
        scalars.push(scalar);
        assert(scalars@ =~= seq![scalar]);
        VarParam { negative: false, scalars, var: None }
    }

    /// The positive monomial of one variable.
    pub fn from_var(var: Var) -> (r: Self)
        ensures
            r@ == (Monomial { negative: false, scalars: Seq::<char>::empty(), var: Some(var) }),
    {
        VarParam { negative: false, scalars: Vec::new(), var: Some(var) }
    }

    /// Whether the monomial is negative.
    pub fn is_negative(&self) -> (r: bool)
        ensures
            r == self@.negative,
    {
        self.negative
    }

    /// The scalar letters, in the order in which they are kept.
    pub fn scalars(&self) -> (r: &Vec<char>)
        ensures
            r@ == self@.scalars,
    {
        &self.scalars
    }

    /// The variable, if the monomial carries one.
    pub fn var(&self) -> (r: Option<Var>)
        ensures
            r == self@.var,
    {
        self.var
    }

    /// Negates the monomial where `flip` holds.
    pub fn negate_if(&mut self, flip: bool)
        ensures
            final(self)@ == negated_if(old(self)@, flip),
    {
        self.negative = self.negative != flip;
    }

    /// Sorts the letters into ascending order; sign and variable stay.
    pub fn simplify(&mut self)
        ensures
            final(self)@ == normalized(old(self)@),
    {
        let ghost before = self.scalars@;
        sort_stably::<char, ByLetter>(&mut self.scalars);
        assert(views(before) =~= before);
        assert(views(self.scalars@) =~= self.scalars@);
    }

    /// The product of two monomials, or the two variables that cannot be
    /// multiplied.
    pub fn multiply(&self, other: &VarParam) -> (r: Result<VarParam, AlgebraError>)
        ensures
            yields(r, monomial_product(self@, other@)),
    {
        let var = match (self.var, other.var) {
            (Some(v1), Some(v2)) => {
                if v1 == v2 {
                    Some(v1)
                } else {
                    return Err(AlgebraError::IncompatibleVariables(v1, v2));
                }
            },
            (Some(v1), None) => Some(v1),
            (None, v) => v,
        };
        let mut scalars = self.scalars.clone();
        assert(scalars@ =~= self.scalars@);
        let n = other.scalars.len();
        let mut i: usize = 0;
        assert(other.scalars@.take(0) =~= Seq::<char>::empty());
        while i < n
            invariant
                i <= n,
                n == other.scalars@.len(),
                scalars@ =~= self.scalars@ + other.scalars@.take(i as int),
            decreases n - i,
        {
            scalars.push(other.scalars[i]);
            assert(other.scalars@.take(i + 1) =~= other.scalars@.take(i as int).push(
                other.scalars@[i as int],
            ));
            i = i + 1;
        }
        assert(other.scalars@.take(n as int) =~= other.scalars@);
        Ok(VarParam { negative: self.negative != other.negative, scalars, var })
    }

    /// Whether the two monomials are the same product but for the sign.
    pub fn same_product(&self, other: &VarParam) -> (r: bool)
        ensures
            r == (self@.var == other@.var && self@.scalars == other@.scalars),
    {
        if self.var != other.var {
            return false;
        }
        let n = self.scalars.len();
        if n != other.scalars.len() {
            return false;
        }
        let mut i: usize = 0;
        while i < n
            invariant
                i <= n,
                n == self.scalars@.len(),
                n == other.scalars@.len(),
                forall|k: int| 0 <= k < i ==> self.scalars@[k] == other.scalars@[k],
            decreases n - i,
        {
            if self.scalars[i] != other.scalars[i] {
                return false;
            }
            i = i + 1;
        }
        assert(self.scalars@ =~= other.scalars@);
        true
    }

    /// The plain text of the monomial.
    pub fn display(&self) -> (text: String)
        ensures
            text@ == monomial_text(self@),
    {
        let mut text = String::new();
        if self.negative {
            push_char(&mut text, '-');
        }
        self.write_body(&mut text);
        assert(text@ =~= monomial_text(self@));
        text
    }

    /// Appends the letters and the variable of the monomial to `text`.
    pub fn write_body(&self, text: &mut String)
        ensures
            final(text)@ == old(text)@ + monomial_body(self@),
    {
        push_letters(text, &self.scalars);
        match self.var {
            Some(v) => {
                push_char(text, v.symbol());
            },
            None => {},
        }
        assert(text@ =~= old(text)@ + monomial_body(self@));
    }
}

} // verus!
