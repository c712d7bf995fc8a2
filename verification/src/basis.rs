//! Basis vectors, bound variables and the errors of the algebra.

use vstd::prelude::*;

verus! {

/// One of the four orthonormal generators. Each squares to one and
/// anti-commutes with the others.
#[derive(Clone, Copy, Debug, PartialEq, Eq, Structural, PartialOrd, Ord, Hash)]
pub enum Base {
    E1,
    E2,
    E3,
    E4,
}

impl Base {
    /// The position of the generator in the fixed order, from 1 to 4.
    pub open spec fn rank(self) -> int {
        match self {
            Base::E1 => 1,
            Base::E2 => 2,
            Base::E3 => 3,
            Base::E4 => 4,
        }
    }

    /// The two characters that display the generator.
    pub open spec fn glyphs(self) -> Seq<char> {
        match self {
            Base::E1 => seq!['e', '₁'],
            Base::E2 => seq!['e', '₂'],
            Base::E3 => seq!['e', '₃'],
            Base::E4 => seq!['e', '₄'],
        }
    }

    /// The first generator.
    pub fn e1() -> (b: Self)
        ensures
            b == Base::E1,
    {
        Base::E1
    }

    /// The second generator.
    pub fn e2() -> (b: Self)
        ensures
            b == Base::E2,
    {
        Base::E2
    }

    /// The third generator.
    pub fn e3() -> (b: Self)
        ensures
            b == Base::E3,
    {
        Base::E3
    }

    /// The fourth generator.
    pub fn e4() -> (b: Self)
        ensures
            b == Base::E4,
    {
        Base::E4
    }

    /// The generator with the given rank; any other number is rejected.
    pub fn from_index(index: u8) -> (r: Result<Self, AlgebraError>)
        ensures
            1 <= index <= 4 ==> r is Ok && r->Ok_0.rank() == index,
            !(1 <= index <= 4) ==> r == Err::<Self, AlgebraError>(
                AlgebraError::UnsupportedBasis(index),
            ),
    {
        if index == 1 {
            Ok(Base::E1)
        } else if index == 2 {
            Ok(Base::E2)
        } else if index == 3 {
            Ok(Base::E3)
        } else if index == 4 {
            Ok(Base::E4)
        } else {
            Err(AlgebraError::UnsupportedBasis(index))
        }
    }

    /// The rank of the generator.
    pub fn index(&self) -> (i: u8)
        ensures
            i == self.rank(),
    {
        match self {
            Base::E1 => 1,
            Base::E2 => 2,
            Base::E3 => 3,
            Base::E4 => 4,
        }
    }

    /// The display text of the generator.
    pub fn symbol(&self) -> (s: &'static str)
        ensures
            s@ == self.glyphs(),
    {
        match self {
            Base::E1 => {
                proof {
                    reveal_strlit("e₁");
                }
                "e₁"
            },
            Base::E2 => {
                proof {
                    reveal_strlit("e₂");
                }
                "e₂"
            },
            Base::E3 => {
                proof {
                    reveal_strlit("e₃");
                }
                "e₃"
            },
            Base::E4 => {
                proof {
                    reveal_strlit("e₄");
                }
                "e₄"
            },
        }
    }
}

/// One of the four bound symbols that a vector operand introduces.
#[derive(Clone, Copy, Debug, PartialEq, Eq, Structural, PartialOrd, Ord, Hash)]
pub enum Var {
    A,
    B,
    C,
    D,
}

impl Var {
    /// The position of the variable in the fixed order, from 1 to 4.
    pub open spec fn rank(self) -> int {
        match self {
            Var::A => 1,
            Var::B => 2,
            Var::C => 3,
            Var::D => 4,
        }
    }

    /// The letter that displays the variable.
    pub open spec fn glyph(self) -> char {
        match self {
            Var::A => 'a',
            Var::B => 'b',
            Var::C => 'c',
            Var::D => 'd',
        }
    }

    /// The first variable.
    pub fn a() -> (v: Self)
        ensures
            v == Var::A,
    {
        Var::A
    }

    /// The second variable.
    pub fn b() -> (v: Self)
        ensures
            v == Var::B,
    {
        Var::B
    }

    /// The third variable.
    pub fn c() -> (v: Self)
        ensures
            v == Var::C,
    {
        Var::C
    }

    /// The fourth variable.
    pub fn d() -> (v: Self)
        ensures
            v == Var::D,
    {
        Var::D
    }

    /// The variable with the given rank; any other number is rejected.
    pub fn from_index(index: u8) -> (r: Result<Self, AlgebraError>)
        ensures
            1 <= index <= 4 ==> r is Ok && r->Ok_0.rank() == index,
            !(1 <= index <= 4) ==> r == Err::<Self, AlgebraError>(
                AlgebraError::UnsupportedVariable(index),
            ),
    {
        if index == 1 {
            Ok(Var::A)
        } else if index == 2 {
            Ok(Var::B)
        } else if index == 3 {
            Ok(Var::C)
        } else if index == 4 {
            Ok(Var::D)
        } else {
            Err(AlgebraError::UnsupportedVariable(index))
        }
    }

    /// The rank of the variable.
    pub fn index(&self) -> (i: u8)
        ensures
            i == self.rank(),
    {
        match self {
            Var::A => 1,
            Var::B => 2,
            Var::C => 3,
            Var::D => 4,
        }
    }

    /// The display letter of the variable.
    pub fn symbol(&self) -> (c: char)
        ensures
            c == self.glyph(),
    {
        match self {
            Var::A => 'a',
            Var::B => 'b',
            Var::C => 'c',
            Var::D => 'd',
        }
    }
}

/// What the algebra refuses.
#[derive(Clone, Copy, Debug, PartialEq, Eq, Structural)]
pub enum AlgebraError {
    /// Two monomials that carry different variables were multiplied.
    IncompatibleVariables(Var, Var),
    /// A number that names none of the four basis vectors.
    UnsupportedBasis(u8),
    /// A number that names none of the four variables.
    UnsupportedVariable(u8),
    /// A letter is repeated more often than a power can display.
    UnsupportedExponent(usize),
}

/// The rank of an optional variable: zero for none, so that a monomial
/// without a variable sorts first.
pub open spec fn var_rank(v: Option<Var>) -> int {
    match v {
        None => 0,
        Some(x) => x.rank(),
    }
}

/// Distinct generators have distinct ranks.
pub proof fn lemma_base_rank_injective(a: Base, b: Base)
    ensures
        a.rank() == b.rank() <==> a == b,
        1 <= a.rank() <= 4,
{
}

} // verus!
