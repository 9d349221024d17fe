//! Material properties for structural fatigue analysis: elastic constants,
//! S-N curve slopes, knee point and cutoff limits.
//!
//! Stresses and moduli are held as scaled integers in millionths of an
//! engineering unit, so every sign and range check is exact.

use vstd::prelude::*;

use crate::config::ValidationError;
use crate::text::{blank, is_blank};

verus! {

/// Slope parameters of the S-N curve, before and after the knee point.
pub struct Slope {
    /// Slope of the S-N curve before the knee point.
    pub m1: i32,
    /// Slope of the S-N curve after the knee point.
    pub m2: i32,
}

/// When a slope configuration is accepted: neither slope is negative.
pub open spec fn slope_ok(s: Slope) -> bool {
    s.m1 >= 0 && s.m2 >= 0
}

impl Slope {
    /// Validates that neither slope is negative.
    pub fn validate(&self) -> (r: Result<(), ValidationError>)
        ensures
            r is Ok <==> slope_ok(*self),
    {
        if self.m1 < 0 {
            return Err(ValidationError::new("m1 must be greater than 0"));
        }
        if self.m2 < 0 {
            return Err(ValidationError::new("m2 must be greater than 0"));
        }
        Ok(())
    }
}

/// The knee point of the S-N curve: a cycle count and the stress there.
pub struct Knee {
    /// Cycle count at the knee point.
    pub cycle: i64,
    /// Stress at the knee point, in millionths.
    pub stress: i64,
}

/// When a knee configuration is accepted: neither field is negative.
pub open spec fn knee_ok(k: Knee) -> bool {
    k.cycle >= 0 && k.stress >= 0
}

impl Knee {
    /// Validates that the cycle count and the stress are not negative.
    pub fn validate(&self) -> (r: Result<(), ValidationError>)
        ensures
            r is Ok <==> knee_ok(*self),
    {
        if self.cycle < 0 {
            return Err(ValidationError::new("cycle must be greater than 0"));
        }
        if self.stress < 0 {
            return Err(ValidationError::new("stress must be greater than 0.0"));
        }
        Ok(())
    }
}

/// Cutoff limits of the S-N curve.
pub struct Cutoff {
    /// Maximum stress considered, in millionths.
    pub max: i64,
    /// Minimum stress considered, in millionths.
    pub min: i64,
}

/// When a cutoff configuration is accepted: neither limit is negative.
pub open spec fn cutoff_ok(c: Cutoff) -> bool {
    c.max >= 0 && c.min >= 0
}

impl Cutoff {
    /// Validates that neither cutoff limit is negative.
    pub fn validate(&self) -> (r: Result<(), ValidationError>)
        ensures
            r is Ok <==> cutoff_ok(*self),
    {
        if self.max < 0 {
            return Err(ValidationError::new("max must be greater than 0.0"));
        }
        if self.min < 0 {
            return Err(ValidationError::new("min must be greater than 0.0"));
        }
        Ok(())
    }
}

/// Fatigue parameters of a material: slopes, knee point and cutoffs of the
/// S-N curve.
pub struct Fatigue {
    /// Slope parameters of the S-N curve.
    pub slope: Slope,
    /// Knee point of the S-N curve.
    pub knee: Knee,
    /// Cutoff limits of the S-N curve.
    pub cutoff: Cutoff,
}

/// When a fatigue configuration is accepted: every component is.
pub open spec fn fatigue_ok(f: Fatigue) -> bool {
    slope_ok(f.slope) && knee_ok(f.knee) && cutoff_ok(f.cutoff)
}

impl Fatigue {
    /// Validates the slope, knee and cutoff components in turn.
    pub fn validate(&self) -> (r: Result<(), ValidationError>)
        ensures
            r is Ok <==> fatigue_ok(*self),
    {
        self.slope.validate()?;
        self.knee.validate()?;
        self.cutoff.validate()?;
        Ok(())
    }
}

/// Mechanical and fatigue properties of a material.
pub struct Material {
    /// Name of the material.
    pub name: String,
    /// Young's modulus, in millionths.
    pub youngs_modulus: i64,
    /// Poisson's ratio, in millionths.
    pub poissons_ratio: i64,
    /// Yield stress, in millionths.
    pub yield_stress: i64,
    /// Ultimate stress, in millionths.
    pub ultimate_stress: i64,
    /// Fatigue characteristics.
    pub fatigue: Fatigue,
}

/// When a material is accepted: a non-blank name, no negative mechanical
/// property, and valid fatigue parameters.
pub open spec fn material_ok(m: Material) -> bool {
    &&& !is_blank(m.name@)
    &&& m.youngs_modulus >= 0
    &&& m.poissons_ratio >= 0
    &&& m.yield_stress >= 0
    &&& m.ultimate_stress >= 0
    &&& fatigue_ok(m.fatigue)
}

impl Material {
    /// Validates the name, the mechanical properties and the fatigue
    /// parameters.
    pub fn validate(&self) -> (r: Result<(), ValidationError>)
        ensures
            r is Ok <==> material_ok(*self),
    {
        if blank(self.name.as_str()) {
            return Err(ValidationError::new("name must not be empty"));
        }
        if self.youngs_modulus < 0 {
            return Err(ValidationError::new("youngs_modulus must be greater than 0.0"));
        }
        if self.poissons_ratio < 0 {
            return Err(ValidationError::new("poissons_ratio must be greater than 0.0"));
        }
        if self.yield_stress < 0 {
            return Err(ValidationError::new("yield_stress must be greater than 0.0"));
        }
        if self.ultimate_stress < 0 {
            return Err(ValidationError::new("ultimate_stress must be greater than 0.0"));
        }
        self.fatigue.validate()?;
        Ok(())
    }
}

} // verus!
