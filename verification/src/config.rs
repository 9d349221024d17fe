//! Validated configuration for a structural analysis session: the solution
//! settings, stress criteria, mean-stress correction, node ranges, damage
//! metrics and safety factors.
//!
//! Quantities that are fractions or factors (damage metrics, safety factors)
//! are held as scaled integers in millionths, so that every range check is
//! exact: the stored value `v` stands for the real quantity `v / 1_000_000`.

use vstd::prelude::*;

use crate::decimal::{in_unit_interval, is_number_literal, literal_in_unit_interval};
use crate::material::{material_ok, Material};
use crate::text::str_eq;
use crate::timeseries::{
    points_tagged, timeseries_ok, Interpolation, SensorFile, TimeSeries,
};

verus! {

/// One engineering unit, in the library's fixed-point scale of millionths.
pub const UNIT: i64 = 1_000_000;

/// Error returned when a configuration value fails validation.
pub struct ValidationError {
    message: String,
}

impl View for ValidationError {
    type V = Seq<char>;

    closed spec fn view(&self) -> Seq<char> {
        self.message@
    }
}

impl ValidationError {
    /// Creates a new `ValidationError` with a given message.
    pub fn new(message: &str) -> (e: ValidationError)
        ensures
            e@ == message@,
    {
        ValidationError { message: message.to_owned() }
    }

    /// The description carried by this error.
    pub fn message(&self) -> (m: &str)
        ensures
            m@ == self@,
    {
        self.message.as_str()
    }
}

/// Criteria for evaluating stress: a method name, and for `SXXCRIT` a
/// required positive number.
pub struct StressCriteria {
    /// Numerical parameter required by the `SXXCRIT` method.
    pub number: Option<i32>,
    /// The method used to evaluate stress: `VONMISES`, `MAXIMUM`, `SXXCRIT`
    /// or `NONE`.
    pub method: String,
}

/// When a stress criteria configuration is accepted: the method is one of the
/// known names, and `SXXCRIT` carries a positive number.
pub open spec fn stress_criteria_ok(number: Option<i32>, method: Seq<char>) -> bool {
    &&& method == "SXXCRIT"@ ==> (number is Some && number->0 > 0)
    &&& (method == "VONMISES"@ || method == "MAXIMUM"@ || method == "SXXCRIT"@
        || method == "NONE"@)
}

impl StressCriteria {
    /// Validates the method name, and for `SXXCRIT` that the number is
    /// present and positive.
    pub fn validate(&self) -> (r: Result<(), ValidationError>)
        ensures
            r is Ok <==> stress_criteria_ok(self.number, self.method@),
    {
        if str_eq(self.method.as_str(), "SXXCRIT") {
            let ok = match self.number {
                Some(number) => number > 0,
                None => false,
            };
            if !ok {
                return Err(ValidationError::new(
                    "number must be greater than 0 for method SXXCRIT",
                ));
            }
        }
        if str_eq(self.method.as_str(), "VONMISES") || str_eq(self.method.as_str(), "MAXIMUM")
            || str_eq(self.method.as_str(), "SXXCRIT") || str_eq(self.method.as_str(), "NONE") {
            Ok(())
        } else {
            Err(ValidationError::new("method must be VONMISES, MAXIMUM, SXXCRIT, or NONE"))
        }
    }
}

/// A range of nodes within a structural model, with an associated file path.
pub struct Node {
    /// The starting node of the range; must be greater than 0.
    pub from: i32,
    /// The ending node of the range; must be greater than 0.
    pub to: i32,
    /// The file path associated with the nodes.
    pub path: String,
}

impl Node {
    /// Validates that both ends of the node range are positive.
    pub fn validate(&self) -> (r: Result<(), ValidationError>)
        ensures
            r is Ok <==> (self.from > 0 && self.to > 0),
    {
        if self.from <= 0 {
            return Err(ValidationError::new("'from' must be greater than 0"));
        }
        if self.to <= 0 {
            return Err(ValidationError::new("'to' must be greater than 0"));
        }
        Ok(())
    }
}

/// Damage metrics: error and damage-accumulation factors, both fractions in
/// `[0, 1]`, stored in millionths.
pub struct Damage {
    /// Error factor in damage calculation, in millionths of 1.
    pub error: i64,
    /// Damage accumulation factor, in millionths of 1.
    pub dadm: i64,
}

impl Damage {
    /// Validates that both factors lie in `[0, 1]` (that is, in
    /// `[0, UNIT]` in the stored scale).
    pub fn validate(&self) -> (r: Result<(), ValidationError>)
        ensures
            r is Ok <==> (0 <= self.error <= UNIT && 0 <= self.dadm <= UNIT),
    {
        if self.error < 0 || self.error > UNIT {
            return Err(ValidationError::new("error must be between 0.0 and 1.0"));
        }
        if self.dadm < 0 || self.dadm > UNIT {
            return Err(ValidationError::new("dadm must be between 0.0 and 1.0"));
        }
        Ok(())
    }
}

/// Mean-stress correction settings: the method, a postfix, and a factor
/// written as a number literal.
pub struct Mean {
    /// The correction method: `GOODMAN`, `LINEAR`, `BI-LINEAR` or `NONE`.
    pub mean: String,
    /// An additional postfix: `FIXEDMEAN` or `NONE`.
    pub postfix: String,
    /// The correction factor as a number literal; its value must lie in
    /// `[0, 1]`.
    pub number: String,
}

/// When a mean-stress correction is accepted: known method and postfix
/// names, and a factor in the unit interval.
pub open spec fn mean_ok(m: Mean) -> bool {
    &&& (m.mean@ == "GOODMAN"@ || m.mean@ == "LINEAR"@ || m.mean@ == "BI-LINEAR"@ || m.mean@
        == "NONE"@)
    &&& (m.postfix@ == "FIXEDMEAN"@ || m.postfix@ == "NONE"@)
    &&& literal_in_unit_interval(m.number@)
}

impl Mean {
    /// Validates the method and postfix names and that the factor lies in
    /// `[0, 1]`, checked exactly over the written literal.
    ///
    /// The factor must be a number literal; a string that is none is the
    /// caller's error.
    pub fn validate(&self) -> (r: Result<(), ValidationError>)
        requires
            is_number_literal(self.number@),
        ensures
            r is Ok <==> mean_ok(*self),
    {
        if !(str_eq(self.mean.as_str(), "GOODMAN") || str_eq(self.mean.as_str(), "LINEAR")
            || str_eq(self.mean.as_str(), "BI-LINEAR") || str_eq(self.mean.as_str(), "NONE")) {
            return Err(ValidationError::new("mean must be GOODMAN, LINEAR, BI-LINEAR, or NONE"));
        }
        if !(str_eq(self.postfix.as_str(), "FIXEDMEAN") || str_eq(self.postfix.as_str(), "NONE")) {
            return Err(ValidationError::new("postfix must be FIXEDMEAN or NONE"));
        }
        if !in_unit_interval(self.number.as_str()) {
            return Err(ValidationError::new("number must be between 0.0 and 1.0"));
        }
        Ok(())
    }
}

/// Safety factors for material resistance, resistance margin and fatigue,
/// each a factor in `[1, 2]`, stored in millionths.
pub struct SafetyFactor {
    /// Safety factor for material resistance, in millionths of 1.
    pub gmre: i64,
    /// Safety factor for material resistance margin, in millionths of 1.
    pub gmrm: i64,
    /// Safety factor for fatigue, in millionths of 1.
    pub gmfat: i64,
}

impl SafetyFactor {
    /// Validates that each safety factor lies in `[1, 2]` (that is, in
    /// `[UNIT, 2 * UNIT]` in the stored scale).
    pub fn validate(&self) -> (r: Result<(), ValidationError>)
        ensures
            r is Ok <==> (UNIT <= self.gmre <= 2 * UNIT && UNIT <= self.gmrm <= 2 * UNIT
                && UNIT <= self.gmfat <= 2 * UNIT),
    {
        if self.gmre < UNIT || self.gmre > 2 * UNIT {
            return Err(ValidationError::new("gmre must be between 1.0 and 2.0"));
        }
        if self.gmrm < UNIT || self.gmrm > 2 * UNIT {
            return Err(ValidationError::new("gmrm must be between 1.0 and 2.0"));
        }
        if self.gmfat < UNIT || self.gmfat > 2 * UNIT {
            return Err(ValidationError::new("gmfat must be between 1.0 and 2.0"));
        }
        Ok(())
    }
}

/// The solution settings of a structural analysis session: run type, mode
/// of operation, output format, and the stress, mean, node and damage
/// criteria.
pub struct Solution {
    /// Type of run: `FAT` or `NONE`.
    pub run_type: String,
    /// Mode of operation: `STRESS` or `NONE`.
    pub mode: String,
    /// Output format: `JSON`.
    pub output: String,
    /// Criteria for evaluating stress.
    pub stress_criteria: StressCriteria,
    /// Mean-stress correction settings.
    pub mean: Mean,
    /// Node range of the analysis.
    pub node: Node,
    /// Damage metrics.
    pub damage: Damage,
}

/// When a solution configuration is accepted: known run type, mode and
/// output names, and every nested criterion valid.
pub open spec fn solution_ok(s: Solution) -> bool {
    &&& (s.run_type@ == "FAT"@ || s.run_type@ == "NONE"@)
    &&& (s.mode@ == "STRESS"@ || s.mode@ == "NONE"@)
    &&& s.output@ == "JSON"@
    &&& stress_criteria_ok(s.stress_criteria.number, s.stress_criteria.method@)
    &&& mean_ok(s.mean)
    &&& (s.node.from > 0 && s.node.to > 0)
    &&& (0 <= s.damage.error <= UNIT && 0 <= s.damage.dadm <= UNIT)
}

impl Solution {
    /// Validates the run type, mode and output names, then each nested
    /// criterion.
    pub fn validate(&self) -> (r: Result<(), ValidationError>)
        requires
            is_number_literal(self.mean.number@),
        ensures
            r is Ok <==> solution_ok(*self),
    {
        if !(str_eq(self.run_type.as_str(), "FAT") || str_eq(self.run_type.as_str(), "NONE")) {
            return Err(ValidationError::new("run_type must be FAT or NONE"));
        }
        if !(str_eq(self.mode.as_str(), "STRESS") || str_eq(self.mode.as_str(), "NONE")) {
            return Err(ValidationError::new("mode must be STRESS or NONE"));
        }
        if !str_eq(self.output.as_str(), "JSON") {
            return Err(ValidationError::new("output must be JSON"));
        }
        self.stress_criteria.validate()?;
        self.mean.validate()?;
        self.node.validate()?;
        self.damage.validate()?;
        Ok(())
    }
}

/// The whole configuration of a structural analysis session.
pub struct Config {
    /// Solution settings.
    pub solution: Solution,
    /// Material properties.
    pub material: Material,
    /// Safety factors.
    pub safety_factor: SafetyFactor,
    /// Time-series configuration.
    pub timeseries: TimeSeries,
}

/// When a configuration is accepted: every component is.
pub open spec fn config_ok(c: Config) -> bool {
    &&& solution_ok(c.solution)
    &&& material_ok(c.material)
    &&& (UNIT <= c.safety_factor.gmre <= 2 * UNIT && UNIT <= c.safety_factor.gmrm <= 2 * UNIT
        && UNIT <= c.safety_factor.gmfat <= 2 * UNIT)
    &&& timeseries_ok(c.timeseries)
}

/// The catalogue holds a sensor of the given name.
pub open spec fn sensor_named(sensors: Seq<SensorFile>, nm: Seq<char>) -> bool {
    exists|k: int| 0 <= k < sensors.len() && (#[trigger] sensors[k]).name@ == nm
}

/// Every sensor that an interpolation refers to appears in the sensor
/// catalogue by name.
pub open spec fn sensors_covered(is: Seq<Interpolation>, sensors: Seq<SensorFile>) -> bool {
    forall|i: int, j: int|
        0 <= i < is.len() && 0 <= j < is[i].sensor@.len() ==> sensor_named(
            sensors,
            (#[trigger] is[i].sensor@[j])@,
        )
}

/// Whether the catalogue holds a sensor of the given name.
fn has_sensor(sensors: &Vec<SensorFile>, name: &String) -> (r: bool)
    ensures
        r == sensor_named(sensors@, name@),
{
    let n = sensors.len();
    let mut k: usize = 0;
    while k < n
        invariant
            n == sensors@.len(),
            0 <= k <= n,
            forall|t: int| 0 <= t < k ==> (#[trigger] sensors@[t]).name@ != name@,
        decreases n - k,
    {
        if str_eq(sensors[k].name.as_str(), name.as_str()) {
            return true;
        }
        k = k + 1;
    }
    false
}

impl Config {
    /// Validates the whole configuration: the solution, the material, the
    /// safety factors and the time series.
    ///
    /// Checks that touch the file system — that the sensor file and the
    /// load-case files exist, and that the sensors listed by the
    /// interpolations appear in the sensor catalogue read from disk — are
    /// the embedding application's part: it reads the catalogue and hands
    /// it to `validate_sensor_against_sensorfile`.
    pub fn validate(&self) -> (r: Result<(), ValidationError>)
        requires
            is_number_literal(self.solution.mean.number@),
            points_tagged(self.timeseries.interpolations@),
        ensures
            r is Ok <==> config_ok(*self),
    {
        self.solution.validate()?;
        self.material.validate()?;
        self.safety_factor.validate()?;
        self.timeseries.validate()?;
        Ok(())
    }

    /// Validates that every sensor named by an interpolation exists in
    /// the sensor catalogue, which the caller has read from the sensor
    /// file.
    pub fn validate_sensor_against_sensorfile(&self, sensors: &Vec<SensorFile>) -> (r: Result<
        (),
        ValidationError,
    >)
        ensures
            r is Ok <==> sensors_covered(self.timeseries.interpolations@, sensors@),
    {
        let ni = self.timeseries.interpolations.len();
        let mut i: usize = 0;
        while i < ni
            invariant
                ni == self.timeseries.interpolations@.len(),
                0 <= i <= ni,
                forall|t: int, j2: int|
                    0 <= t < i && 0 <= j2 < self.timeseries.interpolations@[t].sensor@.len()
                        ==> sensor_named(
                        sensors@,
                        (#[trigger] self.timeseries.interpolations@[t].sensor@[j2])@,
                    ),
            decreases ni - i,
        {
            let interp = &self.timeseries.interpolations[i];
            let ns = interp.sensor.len();
            let mut j: usize = 0;
            while j < ns
                invariant
                    ni == self.timeseries.interpolations@.len(),
                    0 <= i < ni,
                    *interp == self.timeseries.interpolations@[i as int],
                    ns == interp.sensor@.len(),
                    0 <= j <= ns,
                    forall|t: int|
                        0 <= t < j ==> sensor_named(sensors@, (#[trigger] interp.sensor@[t])@),
                decreases ns - j,
            {
                if !has_sensor(sensors, &interp.sensor[j]) {
                    return Err(ValidationError::new("sensor not found in sensorfile"));
                }
                j = j + 1;
            }
            proof {
                assert forall|t: int, j2: int|
                    0 <= t < i + 1 && 0 <= j2
                        < self.timeseries.interpolations@[t].sensor@.len() implies sensor_named(
                    sensors@,
                    (#[trigger] self.timeseries.interpolations@[t].sensor@[j2])@,
                ) by {
                    if t == i as int {
                        assert(sensor_named(sensors@, (interp.sensor@[j2])@));
                    }
                }
            }
            i = i + 1;
        }
        Ok(())
    }
}

} // verus!
