use vstd::prelude::*;

verus! {

/// A ternary value stored in the database: -1, 0 or +1.
#[derive(Clone, Copy, Debug, PartialEq, Eq, Hash, Structural)]
pub enum Ternary {
    Neg,
    Zero,
    Pos,
}

/// The integer that a ternary value stands for.
pub open spec fn ternary_int(t: Ternary) -> int {
    match t {
        Ternary::Neg => -1,
        Ternary::Zero => 0,
        Ternary::Pos => 1,
    }
}

/// The ternary value that an integer stands for, if any.
pub open spec fn ternary_of_int(v: int) -> Option<Ternary> {
    if v == -1 {
        Some(Ternary::Neg)
    } else if v == 0 {
        Some(Ternary::Zero)
    } else if v == 1 {
        Some(Ternary::Pos)
    } else {
        None
    }
}

impl Ternary {
    pub fn value(self) -> (r: i8)
        ensures
            r == ternary_int(self),
    {
        match self {
            Ternary::Neg => -1,
            Ternary::Zero => 0,
            Ternary::Pos => 1,
        }
    }

    pub fn from_value(v: i8) -> (r: Option<Self>)
        ensures
            r == ternary_of_int(v as int),
    {
        match v {
            -1 => Some(Ternary::Neg),
            0 => Some(Ternary::Zero),
            1 => Some(Ternary::Pos),
            _ => None,
        }
    }
}

/// A field value in a ternary database row.
#[derive(Clone, Debug, PartialEq)]
pub enum FieldValue {
    Ternary(Ternary),
    Integer(i64),
    Text(String),
    TernaryArray(Vec<Ternary>),
    Null,
}


/// Converting a ternary value to its integer and back gives the value again;
/// the integers lie in [-1, 1] and rise from Neg through Zero to Pos.
pub proof fn law_value_round_trip(t: Ternary)
    ensures
        ternary_of_int(ternary_int(t)) == Some(t),
        -1 <= ternary_int(t) <= 1,
        ternary_int(Ternary::Neg) < ternary_int(Ternary::Zero) < ternary_int(Ternary::Pos),
{
}

/// Exactly -1, 0 and 1 name ternary values, and the value an integer names
/// converts back to that integer.
pub proof fn law_from_value_inverse(v: int)
    ensures
        ternary_of_int(v) is Some <==> -1 <= v <= 1,
        ternary_of_int(v) matches Some(t) ==> ternary_int(t) == v,
{
}

} // verus!
