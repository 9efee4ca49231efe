//! Exact integer-valued measurement units for command code.
//!
//! Each unit type wraps one integer magnitude. Conversions that multiply
//! are exact; the two that divide round toward zero, and say so. Every
//! operation is proved free of overflow under its stated bounds.

use vstd::prelude::*;

verus! {

/// The product of two magnitudes stays in range; the smallest value is
/// excluded so that negation stays exact.
pub open spec fn product_fits(a: int, b: int) -> bool {
    i64::MIN < a * b <= i64::MAX
}

/// Integer division rounding toward zero, as the dividing conversions
/// compute it.
pub open spec fn div_toward_zero(p: int, d: int) -> int
    recommends
        d > 0,
{
    if p >= 0 {
        p / d
    } else {
        -((-p) / d)
    }
}

/// A duration in seconds.
#[derive(Clone, Copy, Debug, PartialEq, Eq, Structural)]
pub struct Second {
    pub value: i64,
}

/// A distance in meters.
#[derive(Clone, Copy, Debug, PartialEq, Eq, Structural)]
pub struct Meter {
    pub value: i64,
}

/// A distance in feet.
#[derive(Clone, Copy, Debug, PartialEq, Eq, Structural)]
pub struct Feet {
    pub value: i64,
}

/// A distance in inches.
#[derive(Clone, Copy, Debug, PartialEq, Eq, Structural)]
pub struct Inch {
    pub value: i64,
}

/// A distance in centimeters.
#[derive(Clone, Copy, Debug, PartialEq, Eq, Structural)]
pub struct Centimeter {
    pub value: i64,
}

/// A speed in meters per second.
#[derive(Clone, Copy, Debug, PartialEq, Eq, Structural)]
pub struct MeterPerSecond {
    pub value: i64,
}

/// A speed in feet per second.
#[derive(Clone, Copy, Debug, PartialEq, Eq, Structural)]
pub struct FeetPerSecond {
    pub value: i64,
}

/// Inches in a foot: exact.
pub fn foot_to_inch(foot: i64) -> (r: i64)
    requires
        product_fits(foot as int, 12),
    ensures
        r == foot * 12,
{
    foot * 12
}

/// Centimeters in a meter: exact.
pub fn meter_to_centimeter(meter: i64) -> (r: i64)
    requires
        product_fits(meter as int, 100),
    ensures
        r == meter * 100,
{
    meter * 100
}

/// Divides a product by a positive constant, rounding toward zero.
fn scale_down(p: i64, d: u64) -> (r: i64)
    requires
        p > i64::MIN,
        0 < d <= i64::MAX,
    ensures
        r == div_toward_zero(p as int, d as int),
{
    if p >= 0 {
        let q = (p as u64) / d;
        q as i64
    } else {
        let q = ((-p) as u64) / d;
        -(q as i64)
    }
}

impl Second {
    pub fn new(value: i64) -> (s: Self)
        ensures
            s == (Second { value }),
    {
        Second { value }
    }

    pub fn value(self) -> (v: i64)
        ensures
            v == self.value,
    {
        self.value
    }
}

impl Meter {
    pub fn new(value: i64) -> (s: Self)
        ensures
            s == (Meter { value }),
    {
        Meter { value }
    }

    pub fn value(self) -> (v: i64)
        ensures
            v == self.value,
    {
        self.value
    }

    /// The speed that covers this distance in each of `seconds` seconds:
    /// the product of the two magnitudes, exactly.
    pub fn per_second(self, seconds: Second) -> (r: MeterPerSecond)
        requires
            product_fits(self.value as int, seconds.value as int),
        ensures
            r.value == self.value * seconds.value,
    {
        MeterPerSecond::new(self.value() * seconds.value())
    }
}

impl Feet {
    pub fn new(value: i64) -> (s: Self)
        ensures
            s == (Feet { value }),
    {
        Feet { value }
    }

    pub fn value(self) -> (v: i64)
        ensures
            v == self.value,
    {
        self.value
    }

    /// The speed that covers this distance in each of `seconds` seconds:
    /// the product of the two magnitudes, exactly.
    pub fn per_second(self, seconds: Second) -> (r: FeetPerSecond)
        requires
            product_fits(self.value as int, seconds.value as int),
        ensures
            r.value == self.value * seconds.value,
    {
        FeetPerSecond::new(self.value() * seconds.value())
    }
}

impl Inch {
    pub fn new(value: i64) -> (s: Self)
        ensures
            s == (Inch { value }),
    {
        Inch { value }
    }

    pub fn value(self) -> (v: i64)
        ensures
            v == self.value,
    {
        self.value
    }

    /// The product of the two magnitudes converted from inches to feet,
    /// rounding toward zero.
    pub fn to_feet_per_second(self, seconds: Second) -> (r: FeetPerSecond)
        requires
            product_fits(self.value as int, seconds.value as int),
        ensures
            r.value == div_toward_zero(self.value * seconds.value, 12),
    {
        let p = self.value() * seconds.value();
        FeetPerSecond::new(scale_down(p, 12))
    }
}

impl Centimeter {
    pub fn new(value: i64) -> (s: Self)
        ensures
            s == (Centimeter { value }),
    {
        Centimeter { value }
    }

    pub fn value(self) -> (v: i64)
        ensures
            v == self.value,
    {
        self.value
    }

    /// The product of the two magnitudes converted from centimeters to
    /// meters, rounding toward zero.
    pub fn to_meter_per_second(self, seconds: Second) -> (r: MeterPerSecond)
        requires
            product_fits(self.value as int, seconds.value as int),
        ensures
            r.value == div_toward_zero(self.value * seconds.value, 100),
    {
        let p = self.value() * seconds.value();
        MeterPerSecond::new(scale_down(p, 100))
    }
}

impl MeterPerSecond {
    pub fn new(value: i64) -> (s: Self)
        ensures
            s == (MeterPerSecond { value }),
    {
        MeterPerSecond { value }
    }

    pub fn value(self) -> (v: i64)
        ensures
            v == self.value,
    {
        self.value
    }
}

impl FeetPerSecond {
    pub fn new(value: i64) -> (s: Self)
        ensures
            s == (FeetPerSecond { value }),
    {
        FeetPerSecond { value }
    }

    pub fn value(self) -> (v: i64)
        ensures
            v == self.value,
    {
        self.value
    }
}

} // verus!
