use vstd::prelude::*;

verus! {

/// A three-valued sign used to classify readings: under (`Neg`), nominal
/// (`Zero`) and over (`Pos`).
#[derive(Clone, Copy, Debug, PartialEq, Eq, Structural, Hash)]
pub enum Ternary {
    /// Under the nominal band; stands for `-1`.
    Neg,
    /// Within the nominal band; stands for `0`.
    Zero,
    /// Over the nominal band; stands for `+1`.
    Pos,
}

/// The integer a ternary value stands for.
pub open spec fn ternary_value(t: Ternary) -> int {
    match t {
        Ternary::Neg => -1,
        Ternary::Zero => 0,
        Ternary::Pos => 1,
    }
}

/// The ternary value that stands for `v`, if `v` is one of `-1`, `0`, `1`.
pub open spec fn ternary_of(v: int) -> Option<Ternary> {
    if v == -1 {
        Some(Ternary::Neg)
    } else if v == 0 {
        Some(Ternary::Zero)
    } else if v == 1 {
        Some(Ternary::Pos)
    } else {
        None
    }
}

impl Ternary {
    /// Convert an `i8` into a ternary value; `None` for anything other than
    /// `-1`, `0` or `1`.
    pub fn from_i8(v: i8) -> (r: Option<Ternary>)
        ensures
            r == ternary_of(v as int),
            v == -1 ==> r == Some(Ternary::Neg),
            v == 0 ==> r == Some(Ternary::Zero),
            v == 1 ==> r == Some(Ternary::Pos),
            (v < -1 || v > 1) ==> r is None,
    {
        match v {
            -1 => Some(Ternary::Neg),
            0 => Some(Ternary::Zero),
            1 => Some(Ternary::Pos),
            _ => None,
        }
    }

    /// The `i8` this value stands for (`-1`, `0` or `1`).
    pub fn to_i8(self) -> (r: i8)
        ensures
            r as int == ternary_value(self),
            self == Ternary::Neg ==> r == -1,
            self == Ternary::Zero ==> r == 0,
            self == Ternary::Pos ==> r == 1,
    {
        match self {
            Ternary::Neg => -1,
            Ternary::Zero => 0,
            Ternary::Pos => 1,
        }
    }
}

/// Converting a ternary value to its integer and back gives the value again.
pub proof fn lemma_ternary_round_trip(t: Ternary)
    ensures
        ternary_of(ternary_value(t)) == Some(t),
        -1 <= ternary_value(t) <= 1,
{
}

/// An integer that converts to a ternary value is the integer that value
/// stands for; exactly `-1`, `0` and `1` convert.
pub proof fn lemma_integer_round_trip(v: int)
    ensures
        ternary_of(v) is Some <==> -1 <= v <= 1,
        ternary_of(v) matches Some(t) ==> ternary_value(t) == v,
{
}

} // verus!
