//! Fixed-precision lengths: a length in some unit (millimetres, say) held as a
//! whole number of thousandths of that unit, so that repeated arithmetic is
//! exact and values compare and hash as integers.
use core::cmp::Ordering;
use core::ops::{Add, Div, Mul, Sub};
use vstd::prelude::*;
use vstd::std_specs::cmp::PartialOrdIs;
use vstd::std_specs::ops::{AddSpec, SubSpec};

pub mod float;

verus! {

/// A length held as a whole number of thousandths of its unit (a micron, when
/// the unit is the millimetre).
#[derive(Debug, Clone, Copy, PartialEq, Eq, Structural, Ord, Hash)]
pub struct Microns(pub i32);

/// Why an operation on `Microns` has no result.
#[derive(Debug, Clone, Copy, PartialEq, Eq, Structural)]
pub enum MicronsError {
    /// The result does not fit in the representable range.
    OutOfRange,
    /// The divisor is zero.
    DivideByZero,
}

/// Whether an integer fits in the raw representation.
pub open spec fn fits(x: int) -> bool {
    i32::MIN <= x <= i32::MAX
}

/// The quotient of `a` by `b`, rounded toward zero.
pub open spec fn trunc_quotient(a: int, b: int) -> int
    recommends
        b != 0,
{
    let q = (if a < 0 { -a } else { a }) / (if b < 0 { -b } else { b });
    if (a < 0) != (b < 0) {
        -q
    } else {
        q
    }
}

/// The absolute value of `x`.
pub open spec fn abs_int(x: int) -> int {
    if x < 0 {
        -x
    } else {
        x
    }
}

impl View for Microns {
    type V = int;

    /// A value is the integer number of thousandths that it holds.
    open spec fn view(&self) -> int {
        self.0 as int
    }
}

impl Microns {
    /// The zero length.
    pub fn zero() -> (r: Microns)
        ensures
            r@ == 0,
    {
        Microns(0)
    }

    /// The least representable value.
    pub fn min_value() -> (r: Microns)
        ensures
            r@ == i32::MIN,
    {
        Microns(i32::MIN)
    }

    /// The greatest representable value.
    pub fn max_value() -> (r: Microns)
        ensures
            r@ == i32::MAX,
    {
        Microns(i32::MAX)
    }

    /// The absolute value. The least value has no positive counterpart and
    /// saturates to the greatest value.
    pub fn abs(&self) -> (r: Self)
        ensures
            fits(abs_int(self@)) ==> r@ == abs_int(self@),
            !fits(abs_int(self@)) ==> r@ == i32::MAX,
    {
        if self.0 == i32::MIN {
            Microns::max_value()
        } else if self.0 < 0 {
            Microns(-self.0)
        } else {
            Microns(self.0)
        }
    }
}

impl Default for Microns {
    fn default() -> (r: Self)
        ensures
            r@ == 0,
    {
        Microns::zero()
    }
}

impl PartialOrd for Microns {
    fn partial_cmp(&self, other: &Microns) -> (r: Option<Ordering>) {
        if self.0 < other.0 {
            Some(Ordering::Less)
        } else if self.0 == other.0 {
            Some(Ordering::Equal)
        } else {
            Some(Ordering::Greater)
        }
    }
}

impl vstd::std_specs::cmp::PartialOrdSpecImpl for Microns {
    open spec fn obeys_partial_cmp_spec() -> bool {
        true
    }

    /// Values are ordered as the integers that they hold.
    open spec fn partial_cmp_spec(&self, other: &Microns) -> Option<Ordering> {
        if self.0 < other.0 {
            Some(Ordering::Less)
        } else if self.0 == other.0 {
            Some(Ordering::Equal)
        } else {
            Some(Ordering::Greater)
        }
    }
}

impl Add for Microns {
    type Output = Microns;

    fn add(self, rhs: Microns) -> (r: Microns)
        ensures
            r@ == self@ + rhs@,
    {
        Microns(self.0 + rhs.0)
    }
}

impl vstd::std_specs::ops::AddSpecImpl for Microns {
    open spec fn obeys_add_spec() -> bool {
        true
    }

    /// The sum must fit in the raw representation.
    open spec fn add_req(self, rhs: Microns) -> bool {
        fits(self@ + rhs@)
    }

    open spec fn add_spec(self, rhs: Microns) -> Microns {
        Microns((self@ + rhs@) as i32)
    }
}

impl Sub for Microns {
    type Output = Microns;

    fn sub(self, rhs: Microns) -> (r: Microns)
        ensures
            r@ == self@ - rhs@,
    {
        Microns(self.0 - rhs.0)
    }
}

impl vstd::std_specs::ops::SubSpecImpl for Microns {
    open spec fn obeys_sub_spec() -> bool {
        true
    }

    /// The difference must fit in the raw representation.
    open spec fn sub_req(self, rhs: Microns) -> bool {
        fits(self@ - rhs@)
    }

    open spec fn sub_spec(self, rhs: Microns) -> Microns {
        Microns((self@ - rhs@) as i32)
    }
}

impl Mul for Microns {
    type Output = Microns;

    /// The product of the raw integers. Its unit is the square of the
    /// operands' unit.
    fn mul(self, rhs: Microns) -> (r: Microns)
        ensures
            r@ == self@ * rhs@,
    {
        Microns(self.0 * rhs.0)
    }
}

impl vstd::std_specs::ops::MulSpecImpl for Microns {
    open spec fn obeys_mul_spec() -> bool {
        true
    }

    /// The product must fit in the raw representation.
    open spec fn mul_req(self, rhs: Microns) -> bool {
        fits(self@ * rhs@)
    }

    open spec fn mul_spec(self, rhs: Microns) -> Microns {
        Microns((self@ * rhs@) as i32)
    }
}

impl Div for Microns {
    type Output = Result<Microns, MicronsError>;

    /// The quotient of the raw integers, rounded toward zero. A zero divisor
    /// gives `DivideByZero`; the least value divided by -1 gives
    /// `OutOfRange`.
    fn div(self, rhs: Microns) -> (r: Result<Microns, MicronsError>)
        ensures
            rhs@ == 0 <==> r == Err::<Microns, MicronsError>(MicronsError::DivideByZero),
            rhs@ != 0 && !fits(trunc_quotient(self@, rhs@)) <==> r == Err::<Microns, MicronsError>(
                MicronsError::OutOfRange,
            ),
            r is Ok ==> r->Ok_0@ == trunc_quotient(self@, rhs@),
    {
        if rhs.0 == 0 {
            return Err(MicronsError::DivideByZero);
        }
        match self.0.checked_div(rhs.0) {
            Some(q) => Ok(Microns(q)),
            None => Err(MicronsError::OutOfRange),
        }
    }
}

impl vstd::std_specs::ops::DivSpecImpl for Microns {
    open spec fn obeys_div_spec() -> bool {
        true
    }

    open spec fn div_req(self, rhs: Microns) -> bool {
        true
    }

    open spec fn div_spec(self, rhs: Microns) -> Result<Microns, MicronsError> {
        if rhs@ == 0 {
            Err(MicronsError::DivideByZero)
        } else if !fits(trunc_quotient(self@, rhs@)) {
            Err(MicronsError::OutOfRange)
        } else {
            Ok(Microns(trunc_quotient(self@, rhs@) as i32))
        }
    }
}

/// Adding zero leaves a value unchanged, and a value less itself is zero.
pub proof fn lemma_additive_identity(v: Microns)
    ensures
        v.add_req(Microns(0)),
        v.add_spec(Microns(0)) == v,
        v.sub_req(v),
        v.sub_spec(v) == Microns(0),
{
}

/// Values order and compare as the integers that they hold.
pub proof fn lemma_order_follows_raw(a: Microns, b: Microns)
    ensures
        a.is_lt(&b) <==> a@ < b@,
        a.is_le(&b) <==> a@ <= b@,
        a.is_gt(&b) <==> a@ > b@,
        a.is_ge(&b) <==> a@ >= b@,
        (a == b) <==> a@ == b@,
{
}

} // verus!
