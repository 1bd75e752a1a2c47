//! Delays in picoseconds.

use crate::text::{decimal, decimal_text};
use vstd::prelude::*;

verus! {

/// A delay in picoseconds.
pub type DelayT = i32;

/// A delay with a smallest and a largest value.
#[derive(Clone, Copy, PartialEq, Eq, Hash, Debug, Structural)]
pub struct DelayPair {
    pub min_delay: DelayT,
    pub max_delay: DelayT,
}

/// The quotient of an integer by two, rounded toward zero.
pub open spec fn half_toward_zero(n: int) -> int {
    if n >= 0 {
        n / 2
    } else {
        -((-n) / 2)
    }
}

impl DelayPair {
    pub fn new(min_delay: DelayT, max_delay: DelayT) -> (r: Self)
        ensures
            r == (DelayPair { min_delay, max_delay }),
    {
        DelayPair { min_delay, max_delay }
    }

    /// One delay for both ends.
    pub fn uniform(delay: DelayT) -> (r: Self)
        ensures
            r == (DelayPair { min_delay: delay, max_delay: delay }),
    {
        DelayPair { min_delay: delay, max_delay: delay }
    }

    /// The middle between the two ends, rounded toward zero.
    pub fn average(self) -> (r: DelayT)
        requires
            i32::MIN <= self.min_delay + self.max_delay <= i32::MAX,
        ensures
            r == half_toward_zero(self.min_delay + self.max_delay),
    {
        let sum: i32 = self.min_delay + self.max_delay;
        if sum >= 0 {
            sum / 2
        } else {
            let neg: i64 = -(sum as i64);
            (-(neg / 2)) as i32
        }
    }

    /// How the pair reads: one number if the ends are the same, and both otherwise.
    pub open spec fn reads(self) -> Seq<char> {
        if self.min_delay == self.max_delay {
            decimal_text(self.min_delay as int) + "ps"@
        } else {
            decimal_text(self.min_delay as int) + "-"@ + decimal_text(self.max_delay as int) + "ps"@
        }
    }

    /// The pair as text.
    pub fn label(self) -> (r: String)
        ensures
            r@ == self.reads(),
    {
        let mut s: String = decimal(self.min_delay);
        if self.min_delay != self.max_delay {
            s.append("-");
            s.append(decimal(self.max_delay).as_str());
        }
        s.append("ps");
        s
    }

    /// The average of a uniform pair is its delay.
    pub proof fn uniform_average(delay: DelayT)
        ensures
            half_toward_zero(delay + delay) == delay,
    {
    }
}

impl Default for DelayPair {
    fn default() -> (r: Self)
        ensures
            r == (DelayPair { min_delay: 0, max_delay: 0 }),
    {
        DelayPair { min_delay: 0, max_delay: 0 }
    }
}

impl core::ops::Add for DelayPair {
    type Output = DelayPair;

    fn add(self, rhs: DelayPair) -> (r: DelayPair) {
        DelayPair {
            min_delay: self.min_delay + rhs.min_delay,
            max_delay: self.max_delay + rhs.max_delay,
        }
    }
}

impl vstd::std_specs::ops::AddSpecImpl for DelayPair {
    open spec fn obeys_add_spec() -> bool {
        true
    }

    open spec fn add_req(self, rhs: DelayPair) -> bool {
        &&& i32::MIN <= self.min_delay + rhs.min_delay <= i32::MAX
        &&& i32::MIN <= self.max_delay + rhs.max_delay <= i32::MAX
    }

    open spec fn add_spec(self, rhs: DelayPair) -> DelayPair {
        DelayPair {
            min_delay: (self.min_delay + rhs.min_delay) as i32,
            max_delay: (self.max_delay + rhs.max_delay) as i32,
        }
    }
}

impl core::ops::Sub for DelayPair {
    type Output = DelayPair;

    fn sub(self, rhs: DelayPair) -> (r: DelayPair) {
        DelayPair {
            min_delay: self.min_delay - rhs.min_delay,
            max_delay: self.max_delay - rhs.max_delay,
        }
    }
}

impl vstd::std_specs::ops::SubSpecImpl for DelayPair {
    open spec fn obeys_sub_spec() -> bool {
        true
    }

    open spec fn sub_req(self, rhs: DelayPair) -> bool {
        &&& i32::MIN <= self.min_delay - rhs.min_delay <= i32::MAX
        &&& i32::MIN <= self.max_delay - rhs.max_delay <= i32::MAX
    }

    open spec fn sub_spec(self, rhs: DelayPair) -> DelayPair {
        DelayPair {
            min_delay: (self.min_delay - rhs.min_delay) as i32,
            max_delay: (self.max_delay - rhs.max_delay) as i32,
        }
    }
}

/// Delays of a rising and of a falling signal.
#[derive(Clone, Copy, PartialEq, Eq, Hash, Debug, Structural)]
pub struct DelayQuad {
    pub rise: DelayPair,
    pub fall: DelayPair,
}

/// The smaller of two delays.
pub open spec fn lesser(a: DelayT, b: DelayT) -> DelayT {
    if a <= b {
        a
    } else {
        b
    }
}

/// The larger of two delays.
pub open spec fn greater(a: DelayT, b: DelayT) -> DelayT {
    if a >= b {
        a
    } else {
        b
    }
}

/// The smaller of two delays.
pub fn min_of(a: DelayT, b: DelayT) -> (r: DelayT)
    ensures
        r == lesser(a, b),
{
    if a <= b {
        a
    } else {
        b
    }
}

/// The larger of two delays.
pub fn max_of(a: DelayT, b: DelayT) -> (r: DelayT)
    ensures
        r == greater(a, b),
{
    if a >= b {
        a
    } else {
        b
    }
}

impl DelayQuad {
    /// The smallest of the four values.
    pub open spec fn least(self) -> DelayT {
        lesser(
            lesser(self.rise.min_delay, self.rise.max_delay),
            lesser(self.fall.min_delay, self.fall.max_delay),
        )
    }

    /// The largest of the four values.
    pub open spec fn greatest(self) -> DelayT {
        greater(
            greater(self.rise.min_delay, self.rise.max_delay),
            greater(self.fall.min_delay, self.fall.max_delay),
        )
    }

    pub fn new(rise: DelayPair, fall: DelayPair) -> (r: Self)
        ensures
            r == (DelayQuad { rise, fall }),
    {
        DelayQuad { rise, fall }
    }

    /// One pair for both directions.
    pub fn uniform_pair(pair: DelayPair) -> (r: Self)
        ensures
            r == (DelayQuad { rise: pair, fall: pair }),
    {
        DelayQuad { rise: pair, fall: pair }
    }

    /// One delay for all four values.
    pub fn uniform(delay: DelayT) -> (r: Self)
        ensures
            r.rise == (DelayPair { min_delay: delay, max_delay: delay }),
            r.fall == r.rise,
    {
        let pair = DelayPair::uniform(delay);
        DelayQuad { rise: pair, fall: pair }
    }

    /// The smallest delay across all four values.
    pub fn min_delay(self) -> (r: DelayT)
        ensures
            r == self.least(),
    {
        min_of(
            min_of(self.rise.min_delay, self.rise.max_delay),
            min_of(self.fall.min_delay, self.fall.max_delay),
        )
    }

    /// The largest delay across all four values.
    pub fn max_delay(self) -> (r: DelayT)
        ensures
            r == self.greatest(),
    {
        max_of(
            max_of(self.rise.min_delay, self.rise.max_delay),
            max_of(self.fall.min_delay, self.fall.max_delay),
        )
    }

    /// The smallest and the largest delay as one pair.
    pub fn as_delay_pair(self) -> (r: DelayPair)
        ensures
            r == (DelayPair { min_delay: self.least(), max_delay: self.greatest() }),
    {
        DelayPair { min_delay: self.min_delay(), max_delay: self.max_delay() }
    }

    /// The pair of a quad is in order, and each of the four values lies in it.
    pub proof fn pair_covers_the_quad(self)
        ensures
            self.least() <= self.rise.min_delay <= self.greatest(),
            self.least() <= self.rise.max_delay <= self.greatest(),
            self.least() <= self.fall.min_delay <= self.greatest(),
            self.least() <= self.fall.max_delay <= self.greatest(),
    {
    }
}

impl Default for DelayQuad {
    fn default() -> (r: Self)
        ensures
            r.rise == (DelayPair { min_delay: 0, max_delay: 0 }),
            r.fall == r.rise,
    {
        DelayQuad::uniform(0)
    }
}

impl core::ops::Add for DelayQuad {
    type Output = DelayQuad;

    fn add(self, rhs: DelayQuad) -> (r: DelayQuad) {
        DelayQuad { rise: self.rise + rhs.rise, fall: self.fall + rhs.fall }
    }
}

impl vstd::std_specs::ops::AddSpecImpl for DelayQuad {
    open spec fn obeys_add_spec() -> bool {
        true
    }

    open spec fn add_req(self, rhs: DelayQuad) -> bool {
        vstd::std_specs::ops::AddSpec::add_req(self.rise, rhs.rise)
            && vstd::std_specs::ops::AddSpec::add_req(self.fall, rhs.fall)
    }

    open spec fn add_spec(self, rhs: DelayQuad) -> DelayQuad {
        DelayQuad {
            rise: vstd::std_specs::ops::AddSpec::add_spec(self.rise, rhs.rise),
            fall: vstd::std_specs::ops::AddSpec::add_spec(self.fall, rhs.fall),
        }
    }
}

/// A number held within the range of a delay.
pub open spec fn held(n: int) -> DelayT {
    if n > i32::MAX {
        i32::MAX
    } else if n < i32::MIN {
        i32::MIN
    } else {
        n as i32
    }
}

/// Adds two delays; the sum is held within the range of a delay.
pub fn held_add(a: DelayT, b: DelayT) -> (r: DelayT)
    ensures
        r == held(a + b),
{
    held_of(a as i64 + b as i64)
}

/// Subtracts a delay from another; the difference is held within the range of a delay.
pub fn held_sub(a: DelayT, b: DelayT) -> (r: DelayT)
    ensures
        r == held(a - b),
{
    held_of(a as i64 - b as i64)
}

fn held_of(n: i64) -> (r: DelayT)
    ensures
        r == held(n as int),
{
    if n > i32::MAX as i64 {
        i32::MAX
    } else if n < i32::MIN as i64 {
        i32::MIN
    } else {
        n as i32
    }
}

/// Half a delay, rounded toward zero.
pub fn half_of(a: DelayT) -> (r: DelayT)
    ensures
        r == half_toward_zero(a as int),
{
    let n: i64 = a as i64;
    if n >= 0 {
        (n / 2) as i32
    } else {
        (-((-n) / 2)) as i32
    }
}

/// The sum of two delays that are not negative, held at the largest delay.
pub open spec fn sat_sum(a: int, b: int) -> int {
    if a + b <= i32::MAX {
        a + b
    } else {
        i32::MAX as int
    }
}

/// Adds two delays that are not negative; the sum stays at the largest delay.
pub fn sat_add(a: DelayT, b: DelayT) -> (r: DelayT)
    requires
        a >= 0,
        b >= 0,
    ensures
        r == sat_sum(a as int, b as int),
{
    if a > i32::MAX - b {
        i32::MAX
    } else {
        a + b
    }
}

} // verus!
