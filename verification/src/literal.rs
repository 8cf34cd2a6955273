use vstd::prelude::*;

verus! {

/// The polarity of a literal in a DIMACS file.
#[derive(PartialEq, Eq, Structural, Clone, Copy, Debug)]
pub enum Sign {
    Pos,
    Neg,
}

/// The complement of a literal code. The two codes that are their own
/// complement are 0, which stands for "no literal", and the least `i32`, which
/// no literal has.
pub open spec fn neg(code: i32) -> i32 {
    if code == i32::MIN {
        code
    } else {
        (0 - code) as i32
    }
}

/// The code of the literal that a DIMACS sign and variable stand for.
pub open spec fn signed_code(sign: Sign, var: u64) -> i32
    recommends
        var <= i32::MAX,
{
    match sign {
        Sign::Pos => var as i32,
        Sign::Neg => (0 - var) as i32,
    }
}

/// A variable with a polarity, held as a signed code: the variable's number
/// for the positive literal, its negation for the complement.
#[derive(PartialEq, Eq, Structural, Clone, Copy, Hash, Debug, PartialOrd, Ord)]
pub struct Literal(i32);

impl View for Literal {
    type V = i32;

    closed spec fn view(&self) -> i32 {
        self.0
    }
}

impl Literal {
    #[verifier::type_invariant]
    closed spec fn has_complement(self) -> bool {
        self.0 != i32::MIN
    }

    /// The literal of a DIMACS sign and variable.
    pub fn from_dimacs_lit(sign: Sign, var: u64) -> (lit: Literal)
        requires
            var <= i32::MAX,
        ensures
            lit@ == signed_code(sign, var),
    {
        match sign {
            Sign::Pos => Literal(var as i32),
            Sign::Neg => Literal(-(var as i32)),
        }
    }

    /// The literal with a given code, unless the code is the one value that
    /// has no complement.
    pub fn from_code(code: i32) -> (lit: Option<Literal>)
        ensures
            lit is Some <==> code != i32::MIN,
            lit is Some ==> lit->0@ == code,
    {
        if code == i32::MIN {
            None
        } else {
            Some(Literal(code))
        }
    }

    /// The same variable with the other polarity.
    pub fn complementary(&self) -> (lit: Literal)
        ensures
            lit@ == neg(self@),
            self@ != i32::MIN,
    {
        proof {
            use_type_invariant(self);
        }
        Literal(-self.0)
    }

    /// The literal that stands for "no literal".
    pub fn non_existent() -> (lit: Literal)
        ensures
            lit@ == 0,
    {
        Literal(0)
    }

    /// The signed code of this literal.
    pub fn code(&self) -> (code: i32)
        ensures
            code == self@,
            code != i32::MIN,
    {
        proof {
            use_type_invariant(self);
        }
        self.0
    }
}

/// Taking the complement twice gives the literal back.
pub proof fn law_complement_involution(code: i32)
    ensures
        neg(neg(code)) == code,
{
}

/// A literal differs from its complement, unless it is the one that stands for
/// "no literal".
pub proof fn law_complement_distinct(code: i32)
    requires
        code != 0,
        code != i32::MIN,
    ensures
        neg(code) != code,
{
}

} // verus!
