use vstd::prelude::*;

verus! {

/// A ternary value.
#[derive(Debug, Clone, Copy, PartialEq, Eq, Structural, Hash)]
pub enum Ternary {
    Neg,
    Zero,
    Pos,
}

/// The integer a ternary value stands for: -1, 0 or +1.
pub open spec fn ternary_value(t: Ternary) -> int {
    match t {
        Ternary::Neg => -1,
        Ternary::Zero => 0,
        Ternary::Pos => 1,
    }
}

/// The ternary value that an integer stands for, if any.
pub open spec fn ternary_of(v: int) -> Option<Ternary> {
    if v == -1 {
        Some(Ternary::Neg)
    } else if v == 0 {
        Some(Ternary::Zero)
    } else if v == 1 {
        Some(Ternary::Pos)
    } else {
        None
    }
}

impl Ternary {
    pub fn to_i8(self) -> (v: i8)
        ensures
            v == ternary_value(self),
    {
        match self {
            Ternary::Neg => -1,
            Ternary::Zero => 0,
            Ternary::Pos => 1,
        }
    }

    pub fn from_i8(v: i8) -> (r: Option<Self>)
        ensures
            r == ternary_of(v as int),
    {
        match v {
            -1 => Some(Ternary::Neg),
            0 => Some(Ternary::Zero),
            1 => Some(Ternary::Pos),
            _ => None,
        }
    }

    pub fn values() -> (vals: [Ternary; 3])
        ensures
            vals@ == seq![Ternary::Neg, Ternary::Zero, Ternary::Pos],
    {
        [Ternary::Neg, Ternary::Zero, Ternary::Pos]
    }
}

/// Converting a ternary value to an integer and back gives the value again,
/// and an integer that converts to a ternary value is that value's integer.
pub proof fn lemma_i8_round_trip(t: Ternary, v: int)
    ensures
        ternary_of(ternary_value(t)) == Some(t),
        ternary_of(v) matches Some(u) ==> ternary_value(u) == v,
        ternary_of(v) is Some <==> (v == -1 || v == 0 || v == 1),
        ternary_value(Ternary::Neg) == -1 && ternary_value(Ternary::Zero) == 0 && ternary_value(Ternary::Pos) == 1,
{
}

} // verus!
