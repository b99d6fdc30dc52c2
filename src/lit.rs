//! Variables and literals, with the packed literal encoding.
use vstd::prelude::*;

verus! {

/// Largest variable id: ids must fit in 30 bits so that a literal's code fits in 31.
pub const MAX_VAR: u32 = 0x3fff_ffff;

/// A propositional variable, identified by a positive integer.
#[derive(Clone, Copy, PartialEq, Eq, Structural, Hash, Debug)]
pub struct Var(u32);

/// A literal: a variable with a polarity.
///
/// Encoded as `2 * var + sign`, where the sign bit is one iff the literal is negative.
/// Negation flips the low bit, and both literals of a variable are adjacent codes.
#[derive(Clone, Copy, PartialEq, Eq, Structural, Hash, Debug)]
pub struct Lit(u32);

impl Var {
    #[verifier::type_invariant]
    spec fn inv(self) -> bool {
        1 <= self.0 && self.0 <= MAX_VAR
    }

    /// The variable's id.
    pub closed spec fn id(self) -> nat {
        self.0 as nat
    }

    pub fn new(i: i32) -> (r: Var)
        requires
            1 <= i <= MAX_VAR,
        ensures
            r.id() == i,
    {
        Var(i as u32)
    }

    /// Builds a variable from its id.
    pub fn from_id(i: u32) -> (r: Var)
        requires
            1 <= i <= MAX_VAR,
        ensures
            r.id() == i,
    {
        Var(i)
    }

    pub fn get(self) -> (r: u32)
        ensures
            r == self.id(),
            1 <= r <= MAX_VAR,
    {
        proof {
            use_type_invariant(self);
        }
        self.0
    }
}

/// The code of the literal `v` (positive) or `-v` (negative).
pub open spec fn lit_code(v: nat, pos: bool) -> nat {
    2 * v + if pos { 0nat } else { 1nat }
}

/// The code of the literal written as the non-zero integer `i` in DIMACS.
pub open spec fn int_code(i: int) -> nat {
    if i > 0 { lit_code(i as nat, true) } else { lit_code((-i) as nat, false) }
}

impl Lit {
    #[verifier::type_invariant]
    spec fn inv(self) -> bool {
        2 <= self.0 && self.0 <= 2 * MAX_VAR + 1
    }

    /// The literal's code: `2 * var + (1 if negative)`.
    pub closed spec fn code(self) -> nat {
        self.0 as nat
    }

    pub open spec fn var_id(self) -> nat {
        self.code() / 2
    }

    pub open spec fn positive(self) -> bool {
        self.code() % 2 == 0
    }

    /// The literal as a DIMACS integer.
    pub open spec fn as_int(self) -> int {
        if self.positive() { self.var_id() as int } else { -(self.var_id() as int) }
    }

    /// The literal with code `c`.
    pub closed spec fn from_code_spec(c: u32) -> Lit {
        Lit(c)
    }

    pub proof fn lemma_from_code_spec(l: Lit)
        ensures
            Lit::from_code_spec(l.code() as u32) == l,
    {
    }

    /// The literal built from a code has that code.
    pub proof fn lemma_from_code_code(c: u32)
        ensures
            Lit::from_code_spec(c).code() == c,
    {
    }

    /// Two literals with the same code are the same literal.
    pub proof fn lemma_code_injective(self, other: Lit)
        ensures
            self.code() == other.code() ==> self == other,
    {
    }

    /// Builds the literal written as the non-zero integer `lit` in DIMACS.
    pub fn new(lit: i32) -> (r: Lit)
        requires
            lit != 0,
            -(MAX_VAR as int) <= lit <= MAX_VAR,
        ensures
            r.code() == int_code(lit as int),
            r.as_int() == lit,
    {
        if lit > 0 {
            Lit(2 * (lit as u32))
        } else {
            Lit(2 * ((-lit) as u32) + 1)
        }
    }

    /// Builds a literal from its variable and polarity.
    pub fn from_var(v: Var, pos: bool) -> (r: Lit)
        ensures
            r.var_id() == v.id(),
            r.positive() == pos,
            r.code() == lit_code(v.id(), pos),
    {
        let i = v.get();
        if pos {
            Lit(2 * i)
        } else {
            Lit(2 * i + 1)
        }
    }

    pub fn var(self) -> (r: Var)
        ensures
            r.id() == self.var_id(),
    {
        proof {
            use_type_invariant(self);
        }
        Var(self.0 / 2)
    }

    /// The literal with the given code.
    pub fn from_code(code: u32) -> (r: Lit)
        requires
            2 <= code <= 2 * MAX_VAR + 1,
        ensures
            r.code() == code,
            r == Lit::from_code_spec(code),
    {
        Lit(code)
    }

    /// The literal's code.
    pub fn get(self) -> (r: u32)
        ensures
            r == self.code(),
            2 <= r <= 2 * MAX_VAR + 1,
    {
        proof {
            use_type_invariant(self);
        }
        self.0
    }

    pub fn is_pos(self) -> (r: bool)
        ensures
            r == self.positive(),
    {
        self.0 % 2 == 0
    }

    pub fn is_neg(self) -> (r: bool)
        ensures
            r == !self.positive(),
    {
        self.0 % 2 == 1
    }


    pub fn neg(self) -> (r: Lit)
        ensures
            r.var_id() == self.var_id(),
            r.positive() == !self.positive(),
            r.code() as int == if self.positive() { self.code() + 1int } else { self.code() - 1int },
            2 <= self.code() <= 2 * MAX_VAR + 1,
            2 <= r.code() <= 2 * MAX_VAR + 1,
    {
        proof {
            use_type_invariant(self);
        }
        let x = self.0;
        let y = x ^ 1;
        assert(y == if x % 2 == 0 { (x + 1) as u32 } else { (x - 1) as u32 }) by (bit_vector)
            requires
                y == x ^ 1,
                x <= 0x7fff_ffff,
        ;
        Lit(y)
    }

    /// The integer form: `v` or `-v`.
    pub fn to_int(self) -> (r: i32)
        ensures
            r == self.as_int(),
    {
        proof {
            use_type_invariant(self);
        }
        let v = (self.0 / 2) as i32;
        if self.0 % 2 == 0 {
            v
        } else {
            -v
        }
    }
}

} // verus!
