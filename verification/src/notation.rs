//! The written form of terms: plain, as they are kept, and final, with
//! like monomials merged and repeated letters written as powers.

use crate::basis::{AlgebraError, Base, Var};
use crate::monomial::{monomial_body, monomial_text, push_char, yields, Monomial, VarParam};
use crate::pairing::joined;
use crate::term::{Param, Term};
use vstd::prelude::*;
use vstd::string::StringExecFns;

verus! {

/// The raised digit that writes the power `n`, for `n` up to 9.
pub open spec fn power_glyph(n: nat) -> char {
    if n == 0 {
        '⁰'
    } else if n == 1 {
        '¹'
    } else if n == 2 {
        '²'
    } else if n == 3 {
        '³'
    } else if n == 4 {
        '⁴'
    } else if n == 5 {
        '⁵'
    } else if n == 6 {
        '⁶'
    } else if n == 7 {
        '⁷'
    } else if n == 8 {
        '⁸'
    } else {
        '⁹'
    }
}

/// The character of the decimal digit `d`.
pub open spec fn digit_glyph(d: nat) -> char {
    if d == 0 {
        '0'
    } else if d == 1 {
        '1'
    } else if d == 2 {
        '2'
    } else if d == 3 {
        '3'
    } else if d == 4 {
        '4'
    } else if d == 5 {
        '5'
    } else if d == 6 {
        '6'
    } else if d == 7 {
        '7'
    } else if d == 8 {
        '8'
    } else {
        '9'
    }
}

/// The decimal numeral of `n`.
pub open spec fn decimal(n: nat) -> Seq<char>
    decreases n,
{
    if n < 10 {
        seq![digit_glyph(n)]
    } else {
        decimal(n / 10).push(digit_glyph(n % 10))
    }
}

/// The number that the decimal digits `d` write, the first digit weighing
/// most.
pub open spec fn digits_value(d: Seq<u8>) -> nat
    decreases d.len(),
{
    if d.len() == 0 {
        0
    } else {
        10 * digits_value(d.drop_last()) + d.last() as nat
    }
}

/// `d` is the numeral of a positive number: digits only, the first not zero.
pub open spec fn is_numeral(d: Seq<u8>) -> bool {
    &&& d.len() > 0
    &&& d[0] != 0
    &&& forall|i: int| 0 <= i < d.len() ==> d[i] < 10
}

/// The characters of the digits `d`.
pub open spec fn digits_text(d: Seq<u8>) -> Seq<char> {
    d.map_values(|x: u8| digit_glyph(x as nat))
}

/// A numeral writes a number that is at least one.
proof fn lemma_numeral_is_positive(d: Seq<u8>)
    requires
        is_numeral(d),
    ensures
        digits_value(d) >= 1,
    decreases d.len(),
{
    if d.len() > 1 {
        lemma_numeral_is_positive(d.drop_last());
    }
}

/// The digits of a numeral are the decimal numeral of its value.
pub proof fn lemma_numeral_is_decimal(d: Seq<u8>)
    requires
        is_numeral(d),
    ensures
        digits_text(d) == decimal(digits_value(d)),
    decreases d.len(),
{
    let front = d.drop_last();
    if d.len() == 1 {
        assert(digits_value(front) == 0);
        assert(digits_text(d) =~= seq![digit_glyph(d[0] as nat)]);
    } else {
        lemma_numeral_is_decimal(front);
        lemma_numeral_is_positive(front);
        let n = digits_value(d);
        assert(n / 10 == digits_value(front) && n % 10 == d.last() as nat);
        assert(digits_text(d) =~= digits_text(front).push(digit_glyph(d.last() as nat)));
    }
}

/// A positive whole number of any size, kept as its decimal digits.
#[derive(Debug)]
pub struct Multiplier {
    digits: Vec<u8>,
}

impl View for Multiplier {
    type V = nat;

    closed spec fn view(&self) -> nat {
        digits_value(self.digits@)
    }
}

impl Multiplier {
    /// The digits are a numeral.
    #[verifier::type_invariant]
    spec fn well_formed(self) -> bool {
        is_numeral(self.digits@)
    }

    /// The number one.
    pub fn one() -> (r: Self)
        ensures
            r@ == 1,
    {
        let mut digits: Vec<u8> = Vec::new();
        digits.push(1);
        assert(digits@.drop_last() =~= Seq::<u8>::empty());
        assert(digits_value(digits@.drop_last()) == 0);
        Multiplier { digits }
    }

    /// Whether the number is one.
    pub fn is_one(&self) -> (r: bool)
        ensures
            r == (self@ == 1),
    {
        proof {
            use_type_invariant(self);
            let d = self.digits@;
            if d.len() > 1 {
                lemma_numeral_is_positive(d.drop_last());
            } else {
                assert(digits_value(d.drop_last()) == 0);
            }
        }
        self.digits.len() == 1 && self.digits[0] == 1
    }

    /// Doubles the number. A digit `d` doubles to `2d` or `2d - 10` and
    /// carries a one to the digit before it exactly where `d` is 5 or more,
    /// whatever is carried to `d` itself; so every new digit is known from
    /// the old digit at its place and the one behind it.
    pub fn double(&mut self)
        ensures
            final(self)@ == 2 * old(self)@,
    {
        proof {
            use_type_invariant(&*self);
        }
        let n = self.digits.len();
        let mut out: Vec<u8> = Vec::new();
        if self.digits[0] >= 5 {
            out.push(1);
        }
        let mut i: usize = 0;
        proof {
            assert(self.digits@.take(0) =~= Seq::<u8>::empty());
            if out@.len() > 0 {
                assert(out@.drop_last() =~= Seq::<u8>::empty());
                assert(digits_value(out@.drop_last()) == 0);
            }
        }
        while i < n
            invariant
                i <= n,
                n == self.digits@.len(),
                is_numeral(self.digits@),
                forall|k: int| 0 <= k < out@.len() ==> out@[k] < 10,
                out@.len() > 0 ==> out@[0] != 0,
                i > 0 ==> out@.len() > 0,
                i == 0 ==> out@.len() == (if self.digits@[0] >= 5 {
                    1int
                } else {
                    0int
                }),
                digits_value(out@) == 2 * digits_value(self.digits@.take(i as int)) + (if i < n
                    && self.digits@[i as int] >= 5 {
                    1int
                } else {
                    0int
                }),
            decreases n - i,
        {
            let d = self.digits[i];
            let carry: u8 = if n - i > 1 && self.digits[i + 1] >= 5 {
                1
            } else {
                0
            };
            let low: u8 = if d >= 5 {
                2 * d - 10
            } else {
                2 * d
            };
            let ghost held = out@;
            out.push(low + carry);
            proof {
                assert(out@.drop_last() =~= held);
                assert(self.digits@.take(i + 1).drop_last() =~= self.digits@.take(i as int));
                assert(self.digits@.take(i + 1).last() == d);
            }
            i = i + 1;
        }
        proof {
            assert(self.digits@.take(n as int) =~= self.digits@);
        }
        self.digits = out;
    }

    /// Appends the decimal numeral of the number to `text`.
    pub fn write(&self, text: &mut String)
        ensures
            final(text)@ == old(text)@ + decimal(self@),
    {
        proof {
            use_type_invariant(self);
            lemma_numeral_is_decimal(self.digits@);
        }
        let n = self.digits.len();
        let mut i: usize = 0;
        assert(old(text)@ + digits_text(self.digits@).take(0) =~= old(text)@);
        while i < n
            invariant
                i <= n,
                n == self.digits@.len(),
                is_numeral(self.digits@),
                text@ == old(text)@ + digits_text(self.digits@).take(i as int),
            decreases n - i,
        {
            let c = digit_char(self.digits[i]);
            push_char(text, c);
            assert(text@ =~= old(text)@ + digits_text(self.digits@).take(i + 1));
            i = i + 1;
        }
        assert(digits_text(self.digits@).take(n as int) =~= digits_text(self.digits@));
    }
}

/// The character of a decimal digit.
pub fn digit_char(d: u8) -> (c: char)
    requires
        d < 10,
    ensures
        c == digit_glyph(d as nat),
{
    if d == 0 {
        '0'
    } else if d == 1 {
        '1'
    } else if d == 2 {
        '2'
    } else if d == 3 {
        '3'
    } else if d == 4 {
        '4'
    } else if d == 5 {
        '5'
    } else if d == 6 {
        '6'
    } else if d == 7 {
        '7'
    } else if d == 8 {
        '8'
    } else {
        '9'
    }
}

/// The raised digit of a power, where one exists.
pub open spec fn power_text(n: nat) -> Seq<char> {
    if n > 1 {
        seq![power_glyph(n)]
    } else {
        Seq::<char>::empty()
    }
}

/// The letters `s` with each run of one letter written once and followed,
/// where the run is longer than one, by its length as a power. `seen`
/// counts the copies of the first letter that came just before `s`. A run
/// longer than 9 is refused, with its length.
pub open spec fn letters_from(s: Seq<char>, seen: nat) -> Result<Seq<char>, AlgebraError>
    decreases s.len(),
{
    if s.len() == 0 {
        Ok(Seq::empty())
    } else if s.len() >= 2 && s[1] == s[0] {
        letters_from(s.skip(1), seen + 1)
    } else if seen + 1 > 9 {
        Err(AlgebraError::UnsupportedExponent((seen + 1) as usize))
    } else {
        joined(Ok(seq![s[0]] + power_text(seen + 1)), letters_from(s.skip(1), 0))
    }
}

/// The letters of a monomial with repeated letters written as powers.
pub open spec fn letters_text(s: Seq<char>) -> Result<Seq<char>, AlgebraError> {
    letters_from(s, 0)
}

/// The sign that separates a monomial from what is written before it.
pub open spec fn sign_text(negative: bool) -> Seq<char> {
    if negative {
        seq![' ', '-', ' ']
    } else {
        seq![' ', '+', ' ']
    }
}

/// The numeral of a multiplier; the multiplier one is not written.
pub open spec fn multiplier_text(multiplier: nat) -> Seq<char> {
    if multiplier == 1 {
        Seq::<char>::empty()
    } else {
        decimal(multiplier)
    }
}

/// One monomial in final form: its sign, the multiplier that it has
/// gathered, then its letters with powers.
pub open spec fn piece_text(m: Monomial, multiplier: nat) -> Result<Seq<char>, AlgebraError> {
    joined(Ok(sign_text(m.negative) + multiplier_text(multiplier)), letters_text(m.scalars))
}

/// The letter of a variable, where there is one.
pub open spec fn var_text(v: Option<Var>) -> Seq<char> {
    match v {
        Some(x) => seq![x.glyph()],
        None => Seq::<char>::empty(),
    }
}

/// The symbols of the basis vectors of a blade, in order.
pub open spec fn blade_text(bases: Seq<Base>) -> Seq<char>
    decreases bases.len(),
{
    if bases.len() == 0 {
        Seq::<char>::empty()
    } else {
        blade_text(bases.drop_last()) + bases.last().glyphs()
    }
}

/// Two monomials are the same product but for the sign.
pub open spec fn duplicates(a: Monomial, b: Monomial) -> bool {
    a.var == b.var && a.scalars == b.scalars
}

/// What stands between two monomials that follow each other: where the
/// variable changes, the group of the first is closed and named, and a new
/// group is opened.
pub open spec fn group_break(a: Monomial, b: Monomial) -> Seq<char> {
    if a.var != b.var {
        seq![')'] + var_text(a.var) + seq![' ', '+', ' ', '(']
    } else {
        Seq::<char>::empty()
    }
}

/// The monomials `ms` in final form, the first having gathered
/// `multiplier`. A monomial that repeats the one before it is dropped, and
/// doubles the multiplier of that one where their signs agree.
pub open spec fn sum_text(ms: Seq<Monomial>, multiplier: nat) -> Result<Seq<char>, AlgebraError>
    decreases ms.len(),
{
    if ms.len() == 0 {
        Ok(Seq::empty())
    } else if ms.len() == 1 {
        piece_text(ms[0], multiplier)
    } else if duplicates(ms[0], ms[1]) {
        sum_text(
            ms.remove(1),
            if ms[0].negative == ms[1].negative {
                2 * multiplier
            } else {
                multiplier
            },
        )
    } else {
        joined(
            joined(piece_text(ms[0], multiplier), Ok(group_break(ms[0], ms[1]))),
            sum_text(ms.skip(1), 1),
        )
    }
}

/// The variable that names the last group of a sum.
pub open spec fn closing_text(ms: Seq<Monomial>) -> Seq<char> {
    if ms.len() == 0 {
        Seq::<char>::empty()
    } else {
        var_text(ms.last().var)
    }
}

/// A term in final form: its monomials in groups by variable, then its
/// blade.
pub open spec fn term_text(t: Term) -> Result<Seq<char>, AlgebraError> {
    joined(
        joined(Ok(seq!['(', '(']), sum_text(t.monomials, 1)),
        Ok(seq![')'] + closing_text(t.monomials) + blade_text(t.bases)),
    )
}

/// `inner` in round brackets where `wrap` holds.
pub open spec fn bracketed(inner: Seq<char>, wrap: bool) -> Seq<char> {
    if wrap {
        seq!['('] + inner + seq![')']
    } else {
        inner
    }
}

/// The plain texts of monomials, joined by plus signs.
pub open spec fn listed(ms: Seq<Monomial>) -> Seq<char>
    decreases ms.len(),
{
    if ms.len() == 0 {
        Seq::<char>::empty()
    } else if ms.len() == 1 {
        monomial_text(ms[0])
    } else {
        listed(ms.drop_last()) + seq![' ', '+', ' '] + monomial_text(ms.last())
    }
}

/// The monomials as a sum: each after the first is joined to the others
/// by its own sign.
pub open spec fn signed_sum(ms: Seq<Monomial>) -> Seq<char>
    decreases ms.len(),
{
    if ms.len() == 0 {
        Seq::<char>::empty()
    } else if ms.len() == 1 {
        monomial_text(ms[0])
    } else {
        signed_sum(ms.drop_last()) + sign_text(ms.last().negative) + monomial_body(ms.last())
    }
}

/// A term as it is kept: the monomials joined by plus signs, in brackets
/// where there are several, then the blade.
pub open spec fn term_display(t: Term) -> Seq<char> {
    bracketed(listed(t.monomials), t.monomials.len() > 1) + blade_text(t.bases)
}

/// A term as an entry of a multivector: the monomials as a sum, in
/// brackets where there are several, then the blade.
pub open spec fn term_entry(t: Term) -> Seq<char> {
    bracketed(signed_sum(t.monomials), t.monomials.len() > 1) + blade_text(t.bases)
}

/// Appends the symbols of a blade to `text`.
pub fn write_blade(text: &mut String, bases: &Vec<Base>)
    ensures
        final(text)@ == old(text)@ + blade_text(bases@),
{
    let n = bases.len();
    let mut i: usize = 0;
    assert(bases@.take(0) =~= Seq::<Base>::empty());
    assert(old(text)@ + Seq::<char>::empty() =~= old(text)@);
    while i < n
        invariant
            i <= n,
            n == bases@.len(),
            text@ == old(text)@ + blade_text(bases@.take(i as int)),
        decreases n - i,
    {
        text.append(bases[i].symbol());
        proof {
            assert(bases@.take(i + 1).drop_last() =~= bases@.take(i as int));
            assert(bases@.take(i + 1).last() == bases@[i as int]);
            assert(text@ =~= old(text)@ + blade_text(bases@.take(i + 1)));
        }
        i = i + 1;
    }
    assert(bases@.take(n as int) =~= bases@);
}

/// Appends the sign that separates a monomial from what came before.
fn write_sign(text: &mut String, negative: bool)
    ensures
        final(text)@ == old(text)@ + sign_text(negative),
{
    push_char(text, ' ');
    push_char(text, if negative {
        '-'
    } else {
        '+'
    });
    push_char(text, ' ');
    assert(text@ =~= old(text)@ + sign_text(negative));
}

impl Param {
    /// The raised digit for a power up to 9; a higher power is refused.
    pub fn pow(n: usize) -> (r: Result<char, AlgebraError>)
        ensures
            n <= 9 ==> r == Ok::<char, AlgebraError>(power_glyph(n as nat)),
            n > 9 ==> r == Err::<char, AlgebraError>(AlgebraError::UnsupportedExponent(n)),
    {
        if n == 0 {
            Ok('⁰')
        } else if n == 1 {
            Ok('¹')
        } else if n == 2 {
            Ok('²')
        } else if n == 3 {
            Ok('³')
        } else if n == 4 {
            Ok('⁴')
        } else if n == 5 {
            Ok('⁵')
        } else if n == 6 {
            Ok('⁶')
        } else if n == 7 {
            Ok('⁷')
        } else if n == 8 {
            Ok('⁸')
        } else if n == 9 {
            Ok('⁹')
        } else {
            Err(AlgebraError::UnsupportedExponent(n))
        }
    }

    /// One monomial in final form: its sign, the multiplier gathered for
    /// it, and its letters with repeats written as powers. The multiplier
    /// is spent: it is one afterwards.
    pub fn get_scalars(vp: &VarParam, mult: &mut Multiplier) -> (r: Result<String, AlgebraError>)
        ensures
            yields(r, piece_text(vp@, old(mult)@)),
            final(mult)@ == 1,
    {
        let mut fin = String::new();
        write_sign(&mut fin, vp.is_negative());
        if !mult.is_one() {
            mult.write(&mut fin);
            *mult = Multiplier::one();
        }
        let ghost head = fin@;
        assert(head =~= sign_text(vp@.negative) + multiplier_text(old(mult)@));
        let letters = vp.scalars();
        let n = letters.len();
        let mut j: usize = 0;
        let mut seen: usize = 0;
        assert(letters@.skip(0) =~= letters@);
        assert(head + Seq::<char>::empty() =~= head);
        while j < n
            invariant
                j <= n,
                seen <= j,
                n == letters@.len(),
                letters@ == vp@.scalars,
                head == sign_text(vp@.negative) + multiplier_text(old(mult)@),
                mult@ == 1,
                exists|body: Seq<char>|
                    fin@ == head + body && letters_text(letters@) == joined(
                        Ok(body),
                        letters_from(letters@.skip(j as int), seen as nat),
                    ),
            decreases n - j,
        {
            let ghost body = choose|body: Seq<char>|
                fin@ == head + body && letters_text(letters@) == joined(
                    Ok(body),
                    letters_from(letters@.skip(j as int), seen as nat),
                );
            let ghost rest = letters@.skip(j as int);
            proof {
                assert(rest[0] == letters@[j as int]);
                assert(rest.skip(1) =~= letters@.skip(j + 1));
                if j + 1 < n {
                    assert(rest[1] == letters@[j + 1]);
                }
            }
            if n - j > 1 && letters[j + 1] == letters[j] {
                seen = seen + 1;
            } else {
                let count = seen + 1;
                if count > 9 {
                    return Err(AlgebraError::UnsupportedExponent(count));
                }
                push_char(&mut fin, letters[j]);
                if count > 1 {
                    match Param::pow(count) {
                        Ok(glyph) => {
                            push_char(&mut fin, glyph);
                        },
                        Err(e) => {
                            return Err(e);
                        },
                    }
                }
                proof {
                    let piece = seq![rest[0]] + power_text(count as nat);
                    assert(fin@ =~= head + (body + piece));
                    let tail = letters_from(rest.skip(1), 0);
                    assert(joined(Ok(body), joined(Ok(piece), tail)) == joined(
                        Ok(body + piece),
                        tail,
                    )) by {
                        if tail is Ok {
                            assert(body + (piece + tail->Ok_0) =~= (body + piece) + tail->Ok_0);
                        }
                    }
                }
                seen = 0;
            }
            j = j + 1;
        }
        proof {
            let body = choose|body: Seq<char>|
                fin@ == head + body && letters_text(letters@) == joined(
                    Ok(body),
                    letters_from(letters@.skip(j as int), seen as nat),
                );
            assert(body + Seq::<char>::empty() =~= body);
        }
        Ok(fin)
    }

    /// The term in final form. Monomials that repeat the one before them
    /// are merged into its multiplier, repeated letters become powers, the
    /// monomials are grouped by variable, and the blade follows. A letter
    /// repeated more than 9 times is refused.
    pub fn into_final(self) -> (r: Result<String, AlgebraError>)
        ensures
            yields(r, term_text(self@)),
    {
        let ghost ms = self@.monomials;
        let items = self.var_params();
        let n = items.len();
        let mut fin = String::new();
        push_char(&mut fin, '(');
        push_char(&mut fin, '(');
        let ghost head = fin@;
        assert(head =~= seq!['(', '(']);
        if n > 0 {
            let mut mult = Multiplier::one();
            let mut i: usize = 0;
            let mut j: usize = 1;
            assert(seq![ms[0]] + ms.skip(1) =~= ms);
            assert(head + Seq::<char>::empty() =~= head);
            while j < n
                invariant
                    i < j <= n,
                    n == items@.len(),
                    ms == crate::sorting::views(items@),
                    ms == self@.monomials,
                    head == seq!['(', '('],
                    ms[j - 1].var == ms[i as int].var,
                    exists|body: Seq<char>|
                        fin@ == head + body && sum_text(ms, 1) == joined(
                            Ok(body),
                            sum_text(seq![ms[i as int]] + ms.skip(j as int), mult@),
                        ),
                decreases n - j,
            {
                let ghost body = choose|body: Seq<char>|
                    fin@ == head + body && sum_text(ms, 1) == joined(
                        Ok(body),
                        sum_text(seq![ms[i as int]] + ms.skip(j as int), mult@),
                    );
                let ghost pending = seq![ms[i as int]] + ms.skip(j as int);
                let ghost weight = mult@;
                proof {
                    assert(pending[0] == ms[i as int]);
                    assert(pending[1] == ms[j as int]);
                    assert(pending.remove(1) =~= seq![ms[i as int]] + ms.skip(j + 1));
                    assert(pending.skip(1) =~= seq![ms[j as int]] + ms.skip(j + 1));
                }
                if items[i].same_product(&items[j]) {
                    if items[i].is_negative() == items[j].is_negative() {
                        mult.double();
                    }
                } else {
                    let piece = match Param::get_scalars(&items[i], &mut mult) {
                        Ok(piece) => piece,
                        Err(e) => {
                            return Err(e);
                        },
                    };
                    fin.append(piece.as_str());
                    if rank_differs(items[i].var(), items[j].var()) {
                        push_char(&mut fin, ')');
                        write_var(&mut fin, items[i].var());
                        fin.append(" + (");
                        proof {
                            reveal_strlit(" + (");
                            assert(" + ("@ =~= seq![' ', '+', ' ', '(']);
                        }
                    }
                    proof {
                        let step = piece@ + group_break(ms[i as int], ms[j as int]);
                        assert(fin@ =~= head + (body + step));
                        let tail = sum_text(pending.skip(1), 1);
                        assert(joined(Ok(body), joined(Ok(step), tail)) == joined(
                            Ok(body + step),
                            tail,
                        )) by {
                            if tail is Ok {
                                assert(body + (step + tail->Ok_0) =~= (body + step) + tail->Ok_0);
                            }
                        }
                    }
                    i = j;
                }
                j = j + 1;
            }
            proof {
                assert(seq![ms[i as int]] + ms.skip(n as int) =~= seq![ms[i as int]]);
            }
            let ghost body = choose|body: Seq<char>|
                fin@ == head + body && sum_text(ms, 1) == joined(
                    Ok(body),
                    sum_text(seq![ms[i as int]] + ms.skip(j as int), mult@),
                );
            let piece = match Param::get_scalars(&items[i], &mut mult) {
                Ok(piece) => piece,
                Err(e) => {
                    return Err(e);
                },
            };
            fin.append(piece.as_str());
            push_char(&mut fin, ')');
            write_var(&mut fin, items[i].var());
            write_blade(&mut fin, self.bases());
            proof {
                let close = seq![')'] + closing_text(ms) + blade_text(self@.bases);
                assert(fin@ =~= (head + (body + piece@)) + close);
            }
            Ok(fin)
        } else {
            push_char(&mut fin, ')');
            write_blade(&mut fin, self.bases());
            proof {
                let close = seq![')'] + closing_text(ms) + blade_text(self@.bases);
                assert(fin@ =~= (head + Seq::<char>::empty()) + close);
            }
            Ok(fin)
        }
    }

    /// The term as it is kept: the monomials joined by plus signs, in
    /// brackets where there are several, then the blade.
    pub fn display(&self) -> (text: String)
        ensures
            text@ == term_display(self@),
    {
        let ghost ms = self@.monomials;
        let items = self.var_params();
        let n = items.len();
        let mut text = String::new();
        if n > 1 {
            push_char(&mut text, '(');
        }
        let ghost head = text@;
        let mut i: usize = 0;
        assert(ms.take(0) =~= Seq::<Monomial>::empty());
        assert(head + Seq::<char>::empty() =~= head);
        while i < n
            invariant
                i <= n,
                n == items@.len(),
                ms == crate::sorting::views(items@),
                text@ == head + listed(ms.take(i as int)),
            decreases n - i,
        {
            if i > 0 {
                text.append(" + ");
                proof {
                    reveal_strlit(" + ");
                    assert(" + "@ =~= seq![' ', '+', ' ']);
                }
            }
            let piece = items[i].display();
            text.append(piece.as_str());
            proof {
                assert(ms.take(i + 1).drop_last() =~= ms.take(i as int));
                assert(ms.take(i + 1).last() == ms[i as int]);
                assert(text@ =~= head + listed(ms.take(i + 1)));
            }
            i = i + 1;
        }
        assert(ms.take(n as int) =~= ms);
        if n > 1 {
            push_char(&mut text, ')');
        }
        write_blade(&mut text, self.bases());
        assert(text@ =~= term_display(self@));
        text
    }

    /// Appends the term as an entry of a multivector: the monomials as a
    /// sum, in brackets where there are several, then the blade.
    pub fn write_entry(&self, text: &mut String)
        ensures
            final(text)@ == old(text)@ + term_entry(self@),
    {
        let ghost ms = self@.monomials;
        let items = self.var_params();
        let n = items.len();
        if n > 1 {
            push_char(text, '(');
        }
        let ghost head = text@;
        let mut i: usize = 0;
        assert(ms.take(0) =~= Seq::<Monomial>::empty());
        assert(head + Seq::<char>::empty() =~= head);
        while i < n
            invariant
                i <= n,
                n == items@.len(),
                ms == crate::sorting::views(items@),
                text@ == head + signed_sum(ms.take(i as int)),
            decreases n - i,
        {
            if i > 0 {
                write_sign(text, items[i].is_negative());
            } else if items[i].is_negative() {
                push_char(text, '-');
            }
            items[i].write_body(text);
            proof {
                assert(ms.take(i + 1).drop_last() =~= ms.take(i as int));
                assert(ms.take(i + 1).last() == ms[i as int]);
                assert(text@ =~= head + signed_sum(ms.take(i + 1)));
            }
            i = i + 1;
        }
        assert(ms.take(n as int) =~= ms);
        if n > 1 {
            push_char(text, ')');
        }
        write_blade(text, self.bases());
        assert(text@ =~= old(text)@ + term_entry(self@));
    }
}

/// Whether two optional variables differ.
fn rank_differs(a: Option<Var>, b: Option<Var>) -> (r: bool)
    ensures
        r == (a != b),
{
    match (a, b) {
        (None, None) => false,
        (Some(x), Some(y)) => x != y,
        _ => true,
    }
}

/// Appends the letter of a variable, where there is one.
fn write_var(text: &mut String, v: Option<Var>)
    ensures
        final(text)@ == old(text)@ + var_text(v),
{
    match v {
        Some(x) => {
            push_char(text, x.symbol());
        },
        None => {},
    }
    assert(text@ =~= old(text)@ + var_text(v));
}

} // verus!
