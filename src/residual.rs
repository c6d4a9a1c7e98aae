use vstd::prelude::*;

verus! {

/// Level of `+infinity` on the residual scale; it stands for a residual that
/// was never evaluated or has been invalidated.
pub const INFINITE_LEVEL: i64 = 2139095040;

/// Bit pattern of a single-precision value with only the sign set.
pub const SIGN_BIT: u32 = 2147483648;

/// Bit pattern of the quiet NaN that `Unordered` is written back as.
pub const QUIET_NAN_BITS: u32 = 2143289344;

/// A residual as the searches compare it.
///
/// `Level(k)` places the value on an integer scale whose order is the order of
/// single-precision values: for an IEEE-754 pattern with sign `s` and magnitude
/// bits `m` the level is `m` or `-m`. Both zeros share level 0 and the
/// infinities sit at `-INFINITE_LEVEL` and `INFINITE_LEVEL`. NaN has no place on
/// the scale and is `Unordered`: every comparison with it is false.
#[derive(Clone, Copy, Debug, PartialEq, Eq, Structural)]
pub enum Residual {
    Level(i64),
    Unordered,
}

/// The residual that a single-precision bit pattern stands for.
pub open spec fn residual_of_bits(bits: u32) -> Residual {
    let magnitude: int = if bits >= SIGN_BIT { bits - SIGN_BIT } else { bits as int };
    if magnitude > INFINITE_LEVEL {
        Residual::Unordered
    } else if bits >= SIGN_BIT {
        Residual::Level((-magnitude) as i64)
    } else {
        Residual::Level(magnitude as i64)
    }
}

/// The bit pattern that a residual is written back as.
pub open spec fn bits_of_residual(r: Residual) -> u32
    recommends
        r.in_range(),
{
    match r {
        Residual::Level(a) => if a >= 0 {
            a as u32
        } else {
            (SIGN_BIT + (-a)) as u32
        },
        Residual::Unordered => QUIET_NAN_BITS,
    }
}

impl Residual {
    /// `self` is strictly better (smaller) than `other`.
    pub open spec fn lt(self, other: Residual) -> bool {
        match (self, other) {
            (Residual::Level(a), Residual::Level(b)) => a < b,
            _ => false,
        }
    }

    /// `self` is at most `other`.
    pub open spec fn le(self, other: Residual) -> bool {
        match (self, other) {
            (Residual::Level(a), Residual::Level(b)) => a <= b,
            _ => false,
        }
    }

    /// The level lies on the scale of single-precision values.
    pub open spec fn in_range(self) -> bool {
        match self {
            Residual::Level(a) => -INFINITE_LEVEL <= a <= INFINITE_LEVEL,
            Residual::Unordered => true,
        }
    }

    pub open spec fn is_ordered(self) -> bool {
        self is Level
    }

    /// The "not evaluated" sentinel.
    pub fn infinite() -> (r: Residual)
        ensures
            r == Residual::Level(INFINITE_LEVEL),
    {
        Residual::Level(INFINITE_LEVEL)
    }

    pub fn is_infinite(&self) -> (r: bool)
        ensures
            r == (*self == Residual::Level(INFINITE_LEVEL)),
    {
        match self {
            Residual::Level(a) => *a == INFINITE_LEVEL,
            Residual::Unordered => false,
        }
    }

    /// Reads a single-precision bit pattern (as `f32::to_bits` gives it).
    pub fn from_bits(bits: u32) -> (r: Residual)
        ensures
            r == residual_of_bits(bits),
            r.in_range(),
    {
        let negative = bits >= SIGN_BIT;
        let magnitude: u32 = if negative { bits - SIGN_BIT } else { bits };
        if magnitude as i64 > INFINITE_LEVEL {
            Residual::Unordered
        } else if negative {
            Residual::Level(-(magnitude as i64))
        } else {
            Residual::Level(magnitude as i64)
        }
    }

    /// Writes the residual back as a single-precision bit pattern (for
    /// `f32::from_bits`); `Unordered` becomes the quiet NaN.
    pub fn to_bits(&self) -> (bits: u32)
        requires
            self.in_range(),
        ensures
            bits == bits_of_residual(*self),
    {
        match self {
            Residual::Level(a) => if *a >= 0 {
                *a as u32
            } else {
                SIGN_BIT + ((-*a) as u32)
            },
            Residual::Unordered => QUIET_NAN_BITS,
        }
    }

    pub fn less_than(&self, other: &Residual) -> (r: bool)
        ensures
            r == self.lt(*other),
    {
        match (self, other) {
            (Residual::Level(a), Residual::Level(b)) => *a < *b,
            _ => false,
        }
    }

    pub fn at_most(&self, other: &Residual) -> (r: bool)
        ensures
            r == self.le(*other),
    {
        match (self, other) {
            (Residual::Level(a), Residual::Level(b)) => *a <= *b,
            _ => false,
        }
    }
}

/// Writing a residual out and reading it back gives the same residual.
pub proof fn lemma_bits_round_trip(r: Residual)
    requires
        r.in_range(),
    ensures
        residual_of_bits(bits_of_residual(r)) == r,
{
}

/// Reading an ordered bit pattern and writing it back gives the same pattern,
/// except that negative zero comes back as positive zero.
pub proof fn lemma_level_round_trip(bits: u32)
    requires
        residual_of_bits(bits).is_ordered(),
        bits != SIGN_BIT,
    ensures
        bits_of_residual(residual_of_bits(bits)) == bits,
{
}

} // verus!
