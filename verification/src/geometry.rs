use vstd::prelude::*;

verus! {

/// Marker for types that describe a spatial position.
pub trait SpatialPositionTag {}

/// How an angle is normalised: into the half-open turn starting at zero,
/// or into the turn centred on zero.
#[derive(Clone, Copy, Debug, PartialEq, Eq, Structural)]
pub enum AngleWrapping {
    PlusMinusPi,
    TwoPi,
}

/// Angles are measured in binary angle units: a full turn (two pi radians)
/// is `FULL_TURN` units, so wrapping is exact integer arithmetic.
pub const FULL_TURN: i64 = 4294967296;

/// Half a turn (pi radians), in angle units.
pub const HALF_TURN: i64 = 2147483648;

/// The unique representative of `raw` modulo a full turn that lies in the
/// range selected by `wrapping`: `[0, FULL_TURN)` for `TwoPi`,
/// `(-HALF_TURN, HALF_TURN]` for `PlusMinusPi`.
pub open spec fn wrapped_units(raw: int, wrapping: AngleWrapping) -> int {
    let m = raw % (FULL_TURN as int);
    match wrapping {
        AngleWrapping::TwoPi => m,
        AngleWrapping::PlusMinusPi => if m > HALF_TURN as int {
            m - FULL_TURN as int
        } else {
            m
        },
    }
}

/// A heading angle, always stored in wrapped form.
#[derive(Clone, Copy, Debug, PartialEq, Eq, Structural)]
pub struct Angle {
    pub units: i64,
    pub wrapping: AngleWrapping,
}

/// The `Angle` value that holds `raw` wrapped under `wrapping`.
pub open spec fn angle_from_units(raw: int, wrapping: AngleWrapping) -> Angle {
    Angle { units: wrapped_units(raw, wrapping) as i64, wrapping }
}

impl Angle {
    /// The stored units lie in the range that the wrapping mode selects.
    pub open spec fn wf(&self) -> bool {
        match self.wrapping {
            AngleWrapping::TwoPi => 0 <= self.units < FULL_TURN,
            AngleWrapping::PlusMinusPi => -HALF_TURN < self.units <= HALF_TURN,
        }
    }

    /// Construct an angle from a raw amount of units, wrapping it into the
    /// range of the chosen mode.
    pub fn new(raw: i64, wrapping: AngleWrapping) -> (a: Angle)
        ensures
            a == angle_from_units(raw as int, wrapping),
            a.wf(),
    {
        Self::wrap(raw, wrapping)
    }

    fn wrap(raw: i64, wrapping: AngleWrapping) -> (a: Angle)
        ensures
            a == angle_from_units(raw as int, wrapping),
            a.wf(),
    {
        let full_u: u64 = 4294967296;
        let m_u: u64 = if raw >= 0 {
            (raw as u64) % full_u
        } else {
            let mag: u128 = (-(raw as i128)) as u128;
            let rem: u64 = (mag % (full_u as u128)) as u64;
            proof {
                lemma_neg_mod(raw as int, mag as int, rem as int);
            }
            if rem == 0 {
                0
            } else {
                full_u - rem
            }
        };
        assert(m_u as int == (raw as int) % (FULL_TURN as int));
        let m: i64 = m_u as i64;
        match wrapping {
            AngleWrapping::TwoPi => Angle { units: m, wrapping },
            AngleWrapping::PlusMinusPi => {
                if m > HALF_TURN {
                    Angle { units: m - FULL_TURN, wrapping }
                } else {
                    Angle { units: m, wrapping }
                }
            },
        }
    }

    /// The wrapped value, in angle units.
    pub fn value(&self) -> (v: i64)
        ensures
            v == self.units,
    {
        self.units
    }

    /// The sum of two angles, wrapped under the mode of the left operand.
    pub fn plus(&self, other: &Angle) -> (r: Angle)
        requires
            self.wf(),
            other.wf(),
        ensures
            r == angle_from_units(self.units + other.units, self.wrapping),
            r.wf(),
    {
        Self::wrap(self.units + other.units, self.wrapping)
    }

    /// The difference of two angles, wrapped under the mode of the left
    /// operand.
    pub fn minus(&self, other: &Angle) -> (r: Angle)
        requires
            self.wf(),
            other.wf(),
        ensures
            r == angle_from_units(self.units - other.units, self.wrapping),
            r.wf(),
    {
        Self::wrap(self.units - other.units, self.wrapping)
    }
}

/// For a negative `raw` with magnitude `mag`, the euclidean remainder of
/// `raw` modulo a full turn is `FULL_TURN - rem` (or zero when `rem` is
/// zero), where `rem` is the remainder of the magnitude.
proof fn lemma_neg_mod(raw: int, mag: int, rem: int)
    requires
        raw < 0,
        mag == -raw,
        rem == mag % (FULL_TURN as int),
    ensures
        rem == 0 ==> raw % (FULL_TURN as int) == 0,
        rem != 0 ==> raw % (FULL_TURN as int) == FULL_TURN - rem,
{
    let f = FULL_TURN as int;
    let q = mag / f;
    vstd::arithmetic::div_mod::lemma_fundamental_div_mod(mag, f);
    assert(mag == f * q + rem);
    if rem == 0 {
        assert(raw == (-q) * f + 0) by {
            assert((-q) * f == -(f * q)) by (nonlinear_arith);
        }
        vstd::arithmetic::div_mod::lemma_fundamental_div_mod_converse_mod(raw, f, -q, 0);
    } else {
        assert(raw == (-q - 1) * f + (f - rem)) by {
            assert((-q - 1) * f == -(f * q) - f) by (nonlinear_arith);
        }
        vstd::arithmetic::div_mod::lemma_fundamental_div_mod_converse_mod(raw, f, -q - 1, f - rem);
    }
}

/// Wrapping is idempotent: an angle that is already in wrapped form is left
/// unchanged by wrapping it again under its own mode.
pub proof fn lemma_wrap_idempotent(a: Angle)
    requires
        a.wf(),
    ensures
        angle_from_units(a.units as int, a.wrapping) == a,
{
    let f = FULL_TURN as int;
    let u = a.units as int;
    if u >= 0 {
        assert(u == 0 * f + u);
        vstd::arithmetic::div_mod::lemma_fundamental_div_mod_converse_mod(u, f, 0, u);
    } else {
        assert(u == (-1) * f + (u + f)) by (nonlinear_arith);
        vstd::arithmetic::div_mod::lemma_fundamental_div_mod_converse_mod(u, f, -1, u + f);
    }
}

/// The wrapped angle differs from the raw angle by a whole number of turns.
pub proof fn lemma_wrap_congruent(raw: int, wrapping: AngleWrapping)
    ensures
        (raw - wrapped_units(raw, wrapping)) % (FULL_TURN as int) == 0,
{
    let f = FULL_TURN as int;
    let q = raw / f;
    vstd::arithmetic::div_mod::lemma_fundamental_div_mod(raw, f);
    let w = wrapped_units(raw, wrapping);
    if w == raw % f {
        assert(raw - w == q * f + 0) by (nonlinear_arith)
            requires raw == f * q + w;
        vstd::arithmetic::div_mod::lemma_fundamental_div_mod_converse_mod(raw - w, f, q, 0);
    } else {
        assert(raw - w == (q + 1) * f + 0) by (nonlinear_arith)
            requires raw == f * q + (w + f);
        vstd::arithmetic::div_mod::lemma_fundamental_div_mod_converse_mod(raw - w, f, q + 1, 0);
    }
}

/// A plain planar position, in micro-units.
#[derive(Clone, Copy, Debug, PartialEq, Eq, Structural)]
pub struct Point {
    pub x: i64,
    pub y: i64,
}

/// A planar position with a heading, in micro-units.
#[derive(Clone, Copy, Debug, PartialEq, Eq, Structural)]
pub struct Pose {
    pub x: i64,
    pub y: i64,
    pub theta: Angle,
}

/// A pose with curvature, in micro-units.
#[derive(Clone, Copy, Debug, PartialEq, Eq, Structural)]
pub struct G1Pose {
    pub x: i64,
    pub y: i64,
    pub theta: Angle,
    pub kappa: i64,
}

impl SpatialPositionTag for Point {}

impl SpatialPositionTag for Pose {}

impl SpatialPositionTag for G1Pose {}

} // verus!
