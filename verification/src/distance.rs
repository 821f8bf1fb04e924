//! Integer distances and their fixed-point form.
//!
//! A [`Distance`] is a plain 32-bit edge cost. A [`ScaledDistance`] is the same
//! quantity in units of 1/32, which gives the subgradient step of the solver
//! five fractional bits while all arithmetic stays in integers.

use vstd::prelude::*;
use vstd::std_specs::ops::AddSpecImpl;
use vstd::std_specs::ops::DivSpecImpl;
use vstd::std_specs::ops::MulSpecImpl;
use vstd::std_specs::ops::SubSpecImpl;

verus! {

/// Number of fractional bits of a [`ScaledDistance`].
pub const FIXED_POINT_FRACTIONAL_BITS: u32 = 5;

/// The largest [`Distance`] whose scaled form still fits in 32 bits.
pub const DISTANCE_MAX: i32 = 0x3FF_FFFF;

/// The smallest [`Distance`] in use: `i32::MIN` plus one scaled unit.
pub const DISTANCE_MIN: i32 = -0x7FFF_FFE0;

/// The saturated upper sentinel of [`ScaledDistance`].
pub const SCALED_DISTANCE_MAX: i32 = 0x7FFF_FFFF;

/// The saturated lower sentinel of [`ScaledDistance`].
pub const SCALED_DISTANCE_MIN: i32 = -0x8000_0000;

/// The value of `x` reduced into the range of `i32` modulo 2^32.
pub open spec fn wrap_i32(x: int) -> int {
    (x + 0x8000_0000) % 0x1_0000_0000 - 0x8000_0000
}

/// Integer division that rounds toward zero.
pub open spec fn truncating_div(a: int, b: int) -> int {
    if a >= 0 {
        a / b
    } else {
        -((-a) / b)
    }
}

/// An edge cost, or a sum of edge costs.
#[derive(Debug, Clone, Copy, PartialEq, Eq, Structural, Hash, PartialOrd, Ord)]
pub struct Distance(pub i32);

impl Distance {
    /// Whether the scaled form of this distance is exact, that is, whether
    /// shifting it left by five bits loses nothing.
    pub open spec fn is_shiftable(self) -> bool {
        -0x400_0000 <= self.0 <= DISTANCE_MAX
    }

    /// The sum of a sequence of distances, as a mathematical integer.
    pub open spec fn spec_sum(values: Seq<Distance>) -> int
        decreases values.len(),
    {
        if values.len() == 0 {
            0
        } else {
            Self::spec_sum(values.drop_last()) + values.last().0
        }
    }

    /// Adds up `values`, starting from zero.
    pub fn sum(values: &[Distance]) -> (res: Distance)
        requires
            i32::MIN <= Self::spec_sum(values@) <= i32::MAX,
        ensures
            res.0 == Self::spec_sum(values@),
    {
        let mut total: i128 = 0;
        let mut i: usize = 0;
        while i < values.len()
            invariant
                i <= values.len(),
                total == Self::spec_sum(values@.take(i as int)),
                -0x8000_0000 * i <= total <= 0x8000_0000 * i,
            decreases values.len() - i,
        {
            proof {
                assert(values@.take(i + 1).drop_last() =~= values@.take(i as int));
            }
            total = total + values[i].0 as i128;
            i = i + 1;
        }
        proof {
            assert(values@.take(i as int) =~= values@);
        }
        Distance(total as i32)
    }
}

impl Default for Distance {
    fn default() -> (res: Distance)
        ensures
            res.0 == 0,
    {
        Distance(0)
    }
}

impl core::ops::Add for Distance {
    type Output = Distance;

    fn add(self, other: Distance) -> (res: Distance) {
        Distance(self.0 + other.0)
    }
}

impl AddSpecImpl for Distance {
    open spec fn obeys_add_spec() -> bool {
        true
    }

    open spec fn add_req(self, other: Distance) -> bool {
        i32::MIN <= self.0 + other.0 <= i32::MAX
    }

    open spec fn add_spec(self, other: Distance) -> Distance {
        Distance((self.0 + other.0) as i32)
    }
}

impl core::ops::Sub for Distance {
    type Output = Distance;

    fn sub(self, other: Distance) -> (res: Distance) {
        Distance(self.0 - other.0)
    }
}

impl SubSpecImpl for Distance {
    open spec fn obeys_sub_spec() -> bool {
        true
    }

    open spec fn sub_req(self, other: Distance) -> bool {
        i32::MIN <= self.0 - other.0 <= i32::MAX
    }

    open spec fn sub_spec(self, other: Distance) -> Distance {
        Distance((self.0 - other.0) as i32)
    }
}

impl core::ops::Mul<Distance> for i32 {
    type Output = Distance;

    fn mul(self, rhs: Distance) -> (res: Distance) {
        Distance(self * rhs.0)
    }
}

impl MulSpecImpl<Distance> for i32 {
    open spec fn obeys_mul_spec() -> bool {
        true
    }

    open spec fn mul_req(self, rhs: Distance) -> bool {
        i32::MIN <= self * rhs.0 <= i32::MAX
    }

    open spec fn mul_spec(self, rhs: Distance) -> Distance {
        Distance((self * rhs.0) as i32)
    }
}

/// A distance in units of 1/32: a [`Distance`] shifted left by five bits.
#[derive(Debug, Clone, Copy, PartialEq, Eq, Structural, Hash, PartialOrd, Ord)]
pub struct ScaledDistance(pub i32);

impl ScaledDistance {
    /// What [`ScaledDistance::from_i32`] returns: `value` times 32, reduced
    /// modulo 2^32 as a left shift does.
    pub open spec fn spec_from_i32(value: i32) -> ScaledDistance {
        ScaledDistance(wrap_i32(value * 32) as i32)
    }

    /// What [`ScaledDistance::from_distance`] returns.
    pub open spec fn spec_from_distance(value: Distance) -> ScaledDistance {
        Self::spec_from_i32(value.0)
    }

    /// What [`ScaledDistance::to_distance`] returns: the floor of a 32nd.
    pub open spec fn spec_to_distance(self) -> Distance {
        Distance((self.0 / 32) as i32)
    }

    /// What [`ScaledDistance::to_distance_rounded_up`] returns: the ceiling
    /// of a 32nd.
    pub open spec fn spec_to_distance_rounded_up(self) -> Distance {
        Distance(((self.0 + 31) / 32) as i32)
    }

    /// The sum of a sequence of scaled distances, as a mathematical integer.
    pub open spec fn spec_sum(values: Seq<ScaledDistance>) -> int
        decreases values.len(),
    {
        if values.len() == 0 {
            0
        } else {
            Self::spec_sum(values.drop_last()) + values.last().0
        }
    }

    /// Shifts a raw integer into scaled form.
    #[verifier::when_used_as_spec(spec_from_i32)]
    pub fn from_i32(value: i32) -> (res: ScaledDistance)
        ensures
            res == Self::spec_from_i32(value),
            -0x400_0000 <= value <= DISTANCE_MAX ==> res.0 == value * 32,
    {
        let shifted: i32 = value << FIXED_POINT_FRACTIONAL_BITS;
        assert(((shifted as i64) - (value as i64) * 32) % 0x1_0000_0000 == 0) by (bit_vector)
            requires
                shifted == value << 5u32,
        ;
        ScaledDistance(shifted)
    }

    /// Shifts a distance into scaled form.
    #[verifier::when_used_as_spec(spec_from_distance)]
    pub fn from_distance(value: Distance) -> (res: ScaledDistance)
        ensures
            res == Self::spec_from_distance(value),
            value.is_shiftable() ==> res.0 == value.0 * 32,
    {
        Self::from_i32(value.0)
    }

    /// Drops the fractional bits, rounding toward negative infinity.
    #[verifier::when_used_as_spec(spec_to_distance)]
    pub fn to_distance(self) -> (res: Distance)
        ensures
            res == self.spec_to_distance(),
    {
        let raw: i32 = self.0;
        let shifted: i32 = raw >> FIXED_POINT_FRACTIONAL_BITS;
        assert(shifted == raw / 32) by (bit_vector)
            requires
                shifted == raw >> 5u32,
        ;
        Distance(shifted)
    }

    /// Drops the fractional bits, rounding toward positive infinity.
    #[verifier::when_used_as_spec(spec_to_distance_rounded_up)]
    pub fn to_distance_rounded_up(self) -> (res: Distance)
        ensures
            res == self.spec_to_distance_rounded_up(),
    {
        let adjusted: i64 = self.0 as i64 + 31;
        let shifted: i64 = adjusted >> 5u32;
        assert(shifted == adjusted / 32) by (bit_vector)
            requires
                shifted == adjusted >> 5u32,
        ;
        Distance(shifted as i32)
    }

    /// Adds up `values`, starting from zero. The accumulator is wide; only
    /// the total has to fit.
    pub fn sum(values: &[ScaledDistance]) -> (res: ScaledDistance)
        requires
            i32::MIN <= Self::spec_sum(values@) <= i32::MAX,
        ensures
            res.0 == Self::spec_sum(values@),
    {
        let mut total: i128 = 0;
        let mut i: usize = 0;
        while i < values.len()
            invariant
                i <= values.len(),
                total == Self::spec_sum(values@.take(i as int)),
                -0x8000_0000 * i <= total <= 0x8000_0000 * i,
            decreases values.len() - i,
        {
            proof {
                assert(values@.take(i + 1).drop_last() =~= values@.take(i as int));
            }
            total = total + values[i].0 as i128;
            i = i + 1;
        }
        proof {
            assert(values@.take(i as int) =~= values@);
        }
        ScaledDistance(total as i32)
    }
}

impl Default for ScaledDistance {
    fn default() -> (res: ScaledDistance)
        ensures
            res.0 == 0,
    {
        ScaledDistance(0)
    }
}

impl core::ops::Add for ScaledDistance {
    type Output = ScaledDistance;

    fn add(self, other: ScaledDistance) -> (res: ScaledDistance) {
        ScaledDistance(self.0 + other.0)
    }
}

impl AddSpecImpl for ScaledDistance {
    open spec fn obeys_add_spec() -> bool {
        true
    }

    open spec fn add_req(self, other: ScaledDistance) -> bool {
        i32::MIN <= self.0 + other.0 <= i32::MAX
    }

    open spec fn add_spec(self, other: ScaledDistance) -> ScaledDistance {
        ScaledDistance((self.0 + other.0) as i32)
    }
}

impl core::ops::Sub for ScaledDistance {
    type Output = ScaledDistance;

    fn sub(self, other: ScaledDistance) -> (res: ScaledDistance) {
        ScaledDistance(self.0 - other.0)
    }
}

impl SubSpecImpl for ScaledDistance {
    open spec fn obeys_sub_spec() -> bool {
        true
    }

    open spec fn sub_req(self, other: ScaledDistance) -> bool {
        i32::MIN <= self.0 - other.0 <= i32::MAX
    }

    open spec fn sub_spec(self, other: ScaledDistance) -> ScaledDistance {
        ScaledDistance((self.0 - other.0) as i32)
    }
}

impl core::ops::Mul<ScaledDistance> for i32 {
    type Output = ScaledDistance;

    fn mul(self, rhs: ScaledDistance) -> (res: ScaledDistance) {
        ScaledDistance(self * rhs.0)
    }
}

impl MulSpecImpl<ScaledDistance> for i32 {
    open spec fn obeys_mul_spec() -> bool {
        true
    }

    open spec fn mul_req(self, rhs: ScaledDistance) -> bool {
        i32::MIN <= self * rhs.0 <= i32::MAX
    }

    open spec fn mul_spec(self, rhs: ScaledDistance) -> ScaledDistance {
        ScaledDistance((self * rhs.0) as i32)
    }
}

impl core::ops::Div<i32> for ScaledDistance {
    type Output = ScaledDistance;

    fn div(self, rhs: i32) -> (res: ScaledDistance) {
        ScaledDistance(self.0 / rhs)
    }
}

impl DivSpecImpl<i32> for ScaledDistance {
    open spec fn obeys_div_spec() -> bool {
        true
    }

    open spec fn div_req(self, rhs: i32) -> bool {
        rhs != 0 && !(self.0 == i32::MIN && rhs == -1)
    }

    open spec fn div_spec(self, rhs: i32) -> ScaledDistance {
        ScaledDistance(truncating_div(self.0 as int, rhs as int) as i32)
    }
}

/// Scaling a shiftable distance is multiplication by 32, without loss.
pub proof fn lemma_from_distance_exact(d: Distance)
    requires
        d.is_shiftable(),
    ensures
        ScaledDistance::from_distance(d).0 == d.0 * 32,
{
}

/// Scaling a distance and dropping the fractional bits again gives the
/// distance back.
pub proof fn lemma_to_distance_inverts_from_distance(d: Distance)
    requires
        0 <= d.0 <= DISTANCE_MAX,
    ensures
        ScaledDistance::from_distance(d).to_distance() == d,
{
}

/// One scaled unit below the scaled form of `d` still rounds up to `d`.
pub proof fn lemma_rounding_up_below_a_whole(d: Distance)
    requires
        1 <= d.0 <= DISTANCE_MAX,
    ensures
        ScaledDistance((ScaledDistance::from_distance(d).0 - 1) as i32).to_distance_rounded_up()
            == d,
{
}

/// Scaling commutes with addition as long as the summands and their sum are
/// shiftable.
pub proof fn lemma_from_distance_is_additive(a: Distance, b: Distance)
    requires
        a.is_shiftable(),
        b.is_shiftable(),
        Distance((a.0 + b.0) as i32).is_shiftable(),
    ensures
        i32::MIN <= ScaledDistance::from_distance(a).0 + ScaledDistance::from_distance(b).0
            <= i32::MAX,
        ScaledDistance::from_distance(a).0 + ScaledDistance::from_distance(b).0
            == ScaledDistance::from_distance(Distance((a.0 + b.0) as i32)).0,
{
}

} // verus!
