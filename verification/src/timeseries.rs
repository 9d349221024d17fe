//! Time-series configuration and the tolerance-keyed calibration point.
//!
//! Coordinates and scalar quantities are held as scaled integers in
//! millionths of an engineering unit (the library's fixed-point
//! convention), so equality tolerances and range checks are exact.

use vstd::prelude::*;

use crate::abs_diff;
use crate::config::ValidationError;
use crate::text::{blank, identifier, contains_str, is_blank, is_identifier, is_substring, str_eq};

verus! {

/// The absolute per-coordinate tolerance under which two calibration points
/// count as the same point: 10 millionths, that is 1e-5 engineering units.
pub const TOLERANCE: i64 = 10;

/// Two coordinate vectors are near when they have the same dimension and
/// every coordinate differs by at most `TOLERANCE`.
///
/// This relation is deliberately not transitive: points within tolerance of
/// a common neighbour need not be within tolerance of each other. The
/// dataset accepts this (documented) limitation: which representative
/// survives a chain of nearby insertions depends on insertion order.
pub open spec fn coords_near(a: Seq<i64>, b: Seq<i64>) -> bool {
    &&& a.len() == b.len()
    &&& forall|i: int| 0 <= i < a.len() ==> abs_diff(#[trigger] a[i], b[i]) <= TOLERANCE
}

/// A calibration point: a coordinate vector in millionths, with an optional
/// opaque source tag that plays no part in the numerics.
pub struct Point {
    /// Opaque source tag, passed through unchanged.
    pub file: Option<String>,
    /// Coordinates in millionths of an engineering unit.
    pub coordinates: Vec<i64>,
}

impl Point {
    /// Creates a point from its source tag and coordinates.
    pub fn new(file: Option<String>, coordinates: Vec<i64>) -> (p: Point)
        ensures
            p.file == file,
            p.coordinates == coordinates,
    {
        Point { file, coordinates }
    }

    /// Tolerance-based equality of two points: same dimension, every
    /// coordinate within `TOLERANCE`. The source tags are ignored.
    pub fn near(&self, other: &Point) -> (r: bool)
        ensures
            r == coords_near(self.coordinates@, other.coordinates@),
    {
        coords_within(&self.coordinates, &other.coordinates)
    }
}

/// How a sensor data file is parsed: header lines to skip and the column
/// delimiter.
pub struct ParseConfig {
    /// Number of header lines before the data.
    pub header: usize,
    /// Column delimiter; must not be empty.
    pub delimiter: String,
}

/// When a parse configuration is accepted: the delimiter is not empty.
pub open spec fn parse_config_ok(c: ParseConfig) -> bool {
    c.delimiter@.len() > 0
}

impl ParseConfig {
    /// Validates that the delimiter is not empty.
    pub fn validate(&self) -> (r: Result<(), ValidationError>)
        ensures
            r is Ok <==> parse_config_ok(*self),
    {
        if self.delimiter.as_str().is_empty() {
            return Err(ValidationError::new("delimiter must not be empty"));
        }
        Ok(())
    }
}

/// One load case: a family number, a data file, and frequency and gain
/// factors in millionths.
pub struct LoadCase {
    /// Family number of the load case.
    pub fam: usize,
    /// Name of the load-case data file.
    pub file: String,
    /// Occurrence frequency, in millionths.
    pub frequency: i64,
    /// Gain factor for extreme-load assessment, in millionths.
    pub gf_ext: i64,
    /// Gain factor for fatigue assessment, in millionths.
    pub gf_fat: i64,
}

/// When a load case is accepted: a non-blank file name and no negative
/// factor.
pub open spec fn loadcase_ok(lc: LoadCase) -> bool {
    &&& !is_blank(lc.file@)
    &&& lc.frequency >= 0
    &&& lc.gf_ext >= 0
    &&& lc.gf_fat >= 0
}

impl LoadCase {
    /// Validates the file name and the sign of each factor.
    pub fn validate(&self) -> (r: Result<(), ValidationError>)
        ensures
            r is Ok <==> loadcase_ok(*self),
    {
        if blank(self.file.as_str()) {
            return Err(ValidationError::new("file must not be empty"));
        }
        if self.frequency < 0 {
            return Err(ValidationError::new("frequency must be greater than 0.0"));
        }
        if self.gf_ext < 0 {
            return Err(ValidationError::new("gf_ext must be greater than 0.0"));
        }
        if self.gf_fat < 0 {
            return Err(ValidationError::new("gf_fat must be greater than 0.0"));
        }
        Ok(())
    }
}

/// Decides whether two coordinate vectors are within tolerance of each
/// other.
pub fn coords_within(a: &Vec<i64>, b: &Vec<i64>) -> (r: bool)
    ensures
        r == coords_near(a@, b@),
{
    if a.len() != b.len() {
        return false;
    }
    let n = a.len();
    let mut i: usize = 0;
    while i < n
        invariant
            n == a@.len() == b@.len(),
            0 <= i <= n,
            forall|j: int| 0 <= j < i ==> abs_diff(#[trigger] a@[j], b@[j]) <= TOLERANCE,
        decreases n - i,
    {
        let d: i128 = a[i] as i128 - b[i] as i128;
        if d > TOLERANCE as i128 || d < -(TOLERANCE as i128) {
            return false;
        }
        i = i + 1;
    }
    true
}

/// Configuration of one interpolation task: the strategy name, where the
/// calibration files live, and the calibration points themselves.
pub struct Interpolation {
    /// Interpolation method: `LINEAR`, `NEAREST` or `NONE`.
    pub method: String,
    /// Name of this interpolation, used as a variable name downstream.
    pub name: String,
    /// Base path of the calibration files.
    pub path: String,
    /// How the calibration files are parsed.
    pub parse_config: ParseConfig,
    /// Scale applied to read values, in millionths.
    pub scale: i64,
    /// Dimensionality of the calibration coordinates.
    pub dimension: usize,
    /// Sensor names supplying the query coordinates, one per dimension.
    pub sensor: Vec<String>,
    /// Calibration points.
    pub points: Vec<Point>,
}

/// Every calibration point of every listed interpolation carries a source
/// tag.
pub open spec fn points_tagged(is: Seq<Interpolation>) -> bool {
    forall|k: int, p: int|
        0 <= k < is.len() && 0 <= p < (#[trigger] is[k].points@).len() ==> (#[trigger] is[k].points@[p]).file is Some
}

/// When an interpolation configuration is accepted: a valid parse
/// configuration, a known method, non-blank name and path, no negative
/// scale, one sensor per dimension (and at least one), and at least one
/// point, each with a non-blank source tag and coordinates of the
/// configured dimension.
pub open spec fn interpolation_ok(s: Interpolation) -> bool {
    &&& parse_config_ok(s.parse_config)
    &&& (s.method@ == "LINEAR"@ || s.method@ == "NEAREST"@ || s.method@ == "NONE"@)
    &&& !is_blank(s.name@)
    &&& !is_blank(s.path@)
    &&& s.scale >= 0
    &&& s.sensor@.len() == s.dimension
    &&& s.sensor@.len() > 0
    &&& s.points@.len() > 0
    &&& forall|p: int|
        0 <= p < s.points@.len() ==> !is_blank((#[trigger] s.points@[p]).file->0@)
            && s.points@[p].coordinates@.len() == s.dimension && s.points@[p].coordinates@.len()
            > 0
}

impl Interpolation {
    /// Validates the whole interpolation configuration.
    ///
    /// Every point must carry a source tag (the caller's contract); a
    /// blank tag, a missing point or a wrong dimensionality is rejected.
    pub fn validate(&self) -> (r: Result<(), ValidationError>)
        requires
            forall|p: int|
                0 <= p < self.points@.len() ==> (#[trigger] self.points@[p]).file is Some,
        ensures
            r is Ok <==> interpolation_ok(*self),
    {
        self.parse_config.validate()?;
        if !(str_eq(self.method.as_str(), "LINEAR") || str_eq(self.method.as_str(), "NEAREST")
            || str_eq(self.method.as_str(), "NONE")) {
            return Err(ValidationError::new("method must be LINEAR, NEAREST, or NONE"));
        }
        if blank(self.name.as_str()) {
            return Err(ValidationError::new("name must not be empty"));
        }
        if blank(self.path.as_str()) {
            return Err(ValidationError::new("path must not be empty"));
        }
        if self.scale < 0 {
            return Err(ValidationError::new("scale must be greater than 0.0"));
        }
        if self.sensor.len() != self.dimension {
            return Err(ValidationError::new(
                "the sensor vector must have one entry per dimension",
            ));
        }
        if self.sensor.len() == 0 {
            return Err(ValidationError::new("sensor must not be empty"));
        }
        if self.points.len() == 0 {
            return Err(ValidationError::new("points must not be empty"));
        }
        let n = self.points.len();
        let mut p: usize = 0;
        while p < n
            invariant
                n == self.points@.len(),
                forall|t: int| 0 <= t < n ==> (#[trigger] self.points@[t]).file is Some,
                0 <= p <= n,
                forall|t: int|
                    0 <= t < p ==> !is_blank((#[trigger] self.points@[t]).file->0@)
                        && self.points@[t].coordinates@.len() == self.dimension
                        && self.points@[t].coordinates@.len() > 0,
            decreases n - p,
        {
            let point = &self.points[p];
            let tag_blank = match &point.file {
                Some(f) => blank(f.as_str()),
                None => true,
            };
            if tag_blank {
                return Err(ValidationError::new("file must not be empty"));
            }
            if point.coordinates.len() != self.dimension {
                return Err(ValidationError::new(
                    "the values per point must have one entry per dimension",
                ));
            }
            if point.coordinates.len() == 0 {
                return Err(ValidationError::new("value must not be empty"));
            }
            p = p + 1;
        }
        Ok(())
    }
}

/// The order in which derived expressions are evaluated.
pub struct Expressions {
    /// Expression names in evaluation order; must not be empty.
    pub order: Vec<String>,
}

impl Expressions {
    /// Validates that at least one expression is listed.
    pub fn validate(&self) -> (r: Result<(), ValidationError>)
        ensures
            r is Ok <==> self.order@.len() > 0,
    {
        if self.order.len() == 0 {
            return Err(ValidationError::new("order must not be empty"));
        }
        Ok(())
    }
}

/// A time-series analysis configuration: data locations, interpolation
/// tasks, load cases, named parameters, derived variables and the order
/// of their evaluation.
///
/// Parameter values are scaled integers in millionths; a parameter read
/// from the outside world that is not a number is represented as `None`
/// and rejected by validation.
pub struct TimeSeries {
    /// Base path of the load-case files.
    pub path: String,
    /// Path of the sensor catalogue file.
    pub sensorfile: String,
    /// Interpolation tasks.
    pub interpolations: Vec<Interpolation>,
    /// Load cases.
    pub loadcases: Vec<LoadCase>,
    /// Named numeric parameters, in millionths; `None` marks a value that
    /// was not a number.
    pub parameters: Vec<(String, Option<i64>)>,
    /// Named derived variables and their expression strings.
    pub variables: Vec<(String, String)>,
    /// Evaluation order of the derived variables.
    pub expressions: Expressions,
}

/// `nm` is one of the listed names.
pub open spec fn name_listed(names: Seq<String>, nm: Seq<char>) -> bool {
    exists|k: int| 0 <= k < names.len() && (#[trigger] names[k])@ == nm
}

/// `nm` names a parameter, a variable, an interpolation or a sensor of
/// the configuration: the names an expression may refer to.
pub open spec fn valid_name(ts: TimeSeries, nm: Seq<char>) -> bool {
    ||| exists|i: int|
        0 <= i < ts.parameters@.len() && (#[trigger] ts.parameters@[i]).0@ == nm
    ||| exists|i: int| 0 <= i < ts.variables@.len() && (#[trigger] ts.variables@[i]).0@ == nm
    ||| exists|i: int|
        0 <= i < ts.interpolations@.len() && (#[trigger] ts.interpolations@[i]).name@ == nm
    ||| exists|i: int, j: int|
        0 <= i < ts.interpolations@.len() && 0 <= j < (#[trigger] ts.interpolations@[i].sensor@).len()
            && (#[trigger] ts.interpolations@[i].sensor@[j])@ == nm
}

/// An expression is considered valid when it mentions at least one valid
/// name of the configuration as a substring.
pub open spec fn expr_valid(ts: TimeSeries, e: Seq<char>) -> bool {
    exists|nm: Seq<char>| #[trigger] valid_name(ts, nm) && is_substring(e, nm)
}

/// When the variables and parameters of a configuration are accepted:
/// every variable has identifier syntax and a non-blank expression, every
/// parameter has a non-blank name and a numeric value, and every variable
/// expression mentions a valid name.
pub open spec fn vars_vals_ok(ts: TimeSeries) -> bool {
    &&& forall|i: int|
        0 <= i < ts.variables@.len() ==> is_identifier((#[trigger] ts.variables@[i]).0@)
            && !is_blank(ts.variables@[i].1@)
    &&& forall|i: int|
        0 <= i < ts.parameters@.len() ==> !is_blank((#[trigger] ts.parameters@[i]).0@)
            && ts.parameters@[i].1 is Some
    &&& forall|i: int|
        0 <= i < ts.variables@.len() ==> expr_valid(ts, (#[trigger] ts.variables@[i]).1@)
}

proof fn lemma_name_listed_push(names: Seq<String>, x: String, nm: Seq<char>)
    ensures
        name_listed(names.push(x), nm) <==> (name_listed(names, nm) || x@ == nm),
{
    if name_listed(names.push(x), nm) {
        let k = choose|k: int| 0 <= k < names.push(x).len() && (#[trigger] names.push(x)[k])@ == nm;
        if k < names.len() {
            assert(names[k]@ == nm);
        } else {
            assert(x@ == nm);
        }
    }
    if name_listed(names, nm) {
        let k = choose|k: int| 0 <= k < names.len() && (#[trigger] names[k])@ == nm;
        assert(names.push(x)[k]@ == nm);
    }
    if x@ == nm {
        assert(names.push(x)[names.len() as int]@ == nm);
    }
}

/// `nm` names one of the first `upto` parameters.
pub open spec fn in_params_upto(ps: Seq<(String, Option<i64>)>, upto: int, nm: Seq<char>) -> bool {
    exists|k: int| 0 <= k < upto && k < ps.len() && (#[trigger] ps[k]).0@ == nm
}

/// `nm` names one of the first `upto` variables.
pub open spec fn in_vars_upto(vs: Seq<(String, String)>, upto: int, nm: Seq<char>) -> bool {
    exists|k: int| 0 <= k < upto && k < vs.len() && (#[trigger] vs[k]).0@ == nm
}

/// `nm` names one of the first `upto` interpolations.
pub open spec fn in_inames_upto(is: Seq<Interpolation>, upto: int, nm: Seq<char>) -> bool {
    exists|k: int| 0 <= k < upto && k < is.len() && (#[trigger] is[k]).name@ == nm
}

/// `nm` names a sensor of one of the first `upto` interpolations.
pub open spec fn in_sensors_upto(is: Seq<Interpolation>, upto: int, nm: Seq<char>) -> bool {
    exists|k: int, j: int|
        0 <= k < upto && k < is.len() && 0 <= j < (#[trigger] is[k].sensor@).len() && (
        #[trigger] is[k].sensor@[j])@ == nm
}

/// `nm` names one of the first `jupto` sensors of interpolation `k`.
pub open spec fn in_sensors_at(is: Seq<Interpolation>, k: int, jupto: int, nm: Seq<char>) -> bool {
    exists|j: int|
        0 <= j < jupto && 0 <= k < is.len() && j < (#[trigger] is[k].sensor@).len() && (
        #[trigger] is[k].sensor@[j])@ == nm
}

impl TimeSeries {
    /// Collects every valid name of the configuration: parameter names,
    /// variable names, interpolation names and sensor names.
    fn collect_valid_names(&self) -> (names: Vec<String>)
        ensures
            forall|nm: Seq<char>| #[trigger] name_listed(names@, nm) <==> valid_name(*self, nm),
    {
        let mut names: Vec<String> = Vec::new();
        let np = self.parameters.len();
        let mut i: usize = 0;
        while i < np
            invariant
                np == self.parameters@.len(),
                0 <= i <= np,
                forall|nm: Seq<char>| #[trigger]
                    name_listed(names@, nm) <==> in_params_upto(self.parameters@, i as int, nm),
            decreases np - i,
        {
            let entry = &self.parameters[i];
            let ghost old_names = names@;
            names.push(entry.0.clone());
            proof {
                assert forall|nm: Seq<char>| #[trigger]
                    name_listed(names@, nm) <==> in_params_upto(
                    self.parameters@,
                    i + 1,
                    nm,
                ) by {
                    lemma_name_listed_push(old_names, names@.last(), nm);
                }
            }
            i = i + 1;
        }
        let nv = self.variables.len();
        let mut i2: usize = 0;
        while i2 < nv
            invariant
                nv == self.variables@.len(),
                0 <= i2 <= nv,
                forall|nm: Seq<char>| #[trigger]
                    name_listed(names@, nm) <==> (in_params_upto(
                        self.parameters@,
                        self.parameters@.len() as int,
                        nm,
                    ) || in_vars_upto(self.variables@, i2 as int, nm)),
            decreases nv - i2,
        {
            let entry = &self.variables[i2];
            let ghost old_names = names@;
            names.push(entry.0.clone());
            proof {
                assert forall|nm: Seq<char>| #[trigger]
                    name_listed(names@, nm) <==> (in_params_upto(
                        self.parameters@,
                        self.parameters@.len() as int,
                        nm,
                    ) || in_vars_upto(self.variables@, i2 + 1, nm)) by {
                    lemma_name_listed_push(old_names, names@.last(), nm);
                }
            }
            i2 = i2 + 1;
        }
        let ni = self.interpolations.len();
        let mut i3: usize = 0;
        while i3 < ni
            invariant
                ni == self.interpolations@.len(),
                0 <= i3 <= ni,
                forall|nm: Seq<char>| #[trigger]
                    name_listed(names@, nm) <==> (in_params_upto(
                        self.parameters@,
                        self.parameters@.len() as int,
                        nm,
                    ) || in_vars_upto(self.variables@, self.variables@.len() as int, nm)
                        || in_inames_upto(self.interpolations@, i3 as int, nm) || in_sensors_upto(
                        self.interpolations@,
                        i3 as int,
                        nm,
                    )),
            decreases ni - i3,
        {
            let interp = &self.interpolations[i3];
            let ghost old_names = names@;
            names.push(interp.name.clone());
            proof {
                assert forall|nm: Seq<char>| #[trigger]
                    name_listed(names@, nm) <==> (in_params_upto(
                        self.parameters@,
                        self.parameters@.len() as int,
                        nm,
                    ) || in_vars_upto(self.variables@, self.variables@.len() as int, nm)
                        || in_inames_upto(self.interpolations@, i3 + 1, nm) || in_sensors_upto(
                        self.interpolations@,
                        i3 as int,
                        nm,
                    )) by {
                    lemma_name_listed_push(old_names, names@.last(), nm);
                }
            }
            let ns = interp.sensor.len();
            let mut j: usize = 0;
            while j < ns
                invariant
                    ni == self.interpolations@.len(),
                    0 <= i3 < ni,
                    interp == &self.interpolations@[i3 as int],
                    ns == interp.sensor@.len(),
                    0 <= j <= ns,
                    forall|nm: Seq<char>| #[trigger]
                        name_listed(names@, nm) <==> (in_params_upto(
                            self.parameters@,
                            self.parameters@.len() as int,
                            nm,
                        ) || in_vars_upto(self.variables@, self.variables@.len() as int, nm)
                            || in_inames_upto(self.interpolations@, i3 + 1, nm)
                            || in_sensors_upto(self.interpolations@, i3 as int, nm)
                            || in_sensors_at(self.interpolations@, i3 as int, j as int, nm)),
                decreases ns - j,
            {
                let ghost old_names = names@;
                names.push(interp.sensor[j].clone());
                proof {
                    assert forall|nm: Seq<char>| #[trigger]
                        name_listed(names@, nm) <==> (in_params_upto(
                            self.parameters@,
                            self.parameters@.len() as int,
                            nm,
                        ) || in_vars_upto(self.variables@, self.variables@.len() as int, nm)
                            || in_inames_upto(self.interpolations@, i3 + 1, nm)
                            || in_sensors_upto(self.interpolations@, i3 as int, nm)
                            || in_sensors_at(self.interpolations@, i3 as int, j + 1, nm)) by {
                        lemma_name_listed_push(old_names, names@.last(), nm);
                    }
                }
                j = j + 1;
            }
            proof {
                assert forall|nm: Seq<char>|
                    in_sensors_upto(self.interpolations@, i3 + 1, nm) <==> (in_sensors_upto(
                        self.interpolations@,
                        i3 as int,
                        nm,
                    ) || #[trigger] in_sensors_at(self.interpolations@, i3 as int, ns as int,
                        nm)) by {
                    if in_sensors_upto(self.interpolations@, i3 + 1, nm) {
                        let (k, jj): (int, int) = choose|k: int, j2: int|
                            0 <= k < i3 + 1 && k < self.interpolations@.len() && 0 <= j2 < (
                            #[trigger] self.interpolations@[k].sensor@).len() && (
                            #[trigger] self.interpolations@[k].sensor@[j2])@ == nm;
                        if k < i3 as int {
                            assert(in_sensors_upto(self.interpolations@, i3 as int, nm));
                        } else {
                            assert(in_sensors_at(self.interpolations@, i3 as int, ns as int, nm));
                        }
                    }
                }
            }
            i3 = i3 + 1;
        }
        proof {
            assert forall|nm: Seq<char>| #[trigger]
                name_listed(names@, nm) <==> valid_name(*self, nm) by {
                assert(in_params_upto(self.parameters@, self.parameters@.len() as int, nm)
                    <==> exists|i: int|
                    0 <= i < self.parameters@.len() && (#[trigger] self.parameters@[i]).0@ == nm);
                assert(in_vars_upto(self.variables@, self.variables@.len() as int, nm)
                    <==> exists|i: int|
                    0 <= i < self.variables@.len() && (#[trigger] self.variables@[i]).0@ == nm);
                assert(in_inames_upto(self.interpolations@, self.interpolations@.len() as int, nm)
                    <==> exists|i: int|
                    0 <= i < self.interpolations@.len() && (#[trigger] self.interpolations@[i]).name@
                        == nm);
                assert(in_sensors_upto(self.interpolations@, self.interpolations@.len() as int, nm)
                    <==> exists|i: int, j: int|
                    0 <= i < self.interpolations@.len() && 0 <= j < (
                    #[trigger] self.interpolations@[i].sensor@).len() && (
                    #[trigger] self.interpolations@[i].sensor@[j])@ == nm);
            }
        }
        names
    }

    /// Decides whether the expression mentions one of the listed names as
    /// a substring.
    fn expression_valid(&self, expression: &str, valid_names: &Vec<String>) -> (r: bool)
        ensures
            r == exists|k: int|
                0 <= k < valid_names@.len() && is_substring(expression@, (
                #[trigger] valid_names@[k])@),
    {
        let n = valid_names.len();
        let mut k: usize = 0;
        while k < n
            invariant
                n == valid_names@.len(),
                0 <= k <= n,
                forall|t: int|
                    0 <= t < k ==> !is_substring(expression@, (#[trigger] valid_names@[t])@),
            decreases n - k,
        {
            if contains_str(expression, valid_names[k].as_str()) {
                return true;
            }
            k = k + 1;
        }
        false
    }

    /// Validates variable names, parameter values and variable
    /// expressions: identifier syntax for variable names, non-blank
    /// expressions, non-blank parameter names, numeric parameter values,
    /// and every expression mentioning at least one valid name.
    fn validate_variables_and_values(&self) -> (r: Result<(), ValidationError>)
        ensures
            r is Ok <==> vars_vals_ok(*self),
    {
        let names = self.collect_valid_names();
        let nv = self.variables.len();
        let mut i: usize = 0;
        while i < nv
            invariant
                nv == self.variables@.len(),
                0 <= i <= nv,
                forall|t: int|
                    0 <= t < i ==> is_identifier((#[trigger] self.variables@[t]).0@) && !is_blank(
                        self.variables@[t].1@,
                    ),
            decreases nv - i,
        {
            let entry = &self.variables[i];
            if !identifier(entry.0.as_str()) {
                return Err(ValidationError::new("invalid variable name"));
            }
            if blank(entry.1.as_str()) {
                return Err(ValidationError::new("variable expression is empty"));
            }
            i = i + 1;
        }
        let np = self.parameters.len();
        let mut i2: usize = 0;
        while i2 < np
            invariant
                np == self.parameters@.len(),
                0 <= i2 <= np,
                forall|t: int|
                    0 <= t < i2 ==> !is_blank((#[trigger] self.parameters@[t]).0@)
                        && self.parameters@[t].1 is Some,
            decreases np - i2,
        {
            let entry = &self.parameters[i2];
            if blank(entry.0.as_str()) {
                return Err(ValidationError::new("parameter key must not be empty"));
            }
            if entry.1.is_none() {
                return Err(ValidationError::new("parameter value must be a number"));
            }
            i2 = i2 + 1;
        }
        let mut i3: usize = 0;
        while i3 < nv
            invariant
                nv == self.variables@.len(),
                0 <= i3 <= nv,
                forall|nm: Seq<char>| #[trigger] name_listed(names@, nm) <==> valid_name(*self, nm),
                forall|t: int|
                    0 <= t < i3 ==> expr_valid(*self, (#[trigger] self.variables@[t]).1@),
            decreases nv - i3,
        {
            let entry = &self.variables[i3];
            let ok = self.expression_valid(entry.1.as_str(), &names);
            proof {
                if ok {
                    let k = choose|k: int|
                        0 <= k < names@.len() && is_substring(entry.1@, (#[trigger] names@[k])@);
                    assert(name_listed(names@, names@[k]@));
                    assert(valid_name(*self, names@[k]@) && is_substring(entry.1@, names@[k]@));
                } else {
                    if expr_valid(*self, entry.1@) {
                        let nm = choose|nm: Seq<char>| #[trigger]
                            valid_name(*self, nm) && is_substring(entry.1@, nm);
                        assert(name_listed(names@, nm));
                        let k = choose|k: int|
                            0 <= k < names@.len() && (#[trigger] names@[k])@ == nm;
                        assert(is_substring(entry.1@, names@[k]@));
                    }
                }
            }
            if !ok {
                return Err(ValidationError::new("invalid expression for variable"));
            }
            i3 = i3 + 1;
        }
        Ok(())
    }

    /// Validates the configuration and data of the time series: the
    /// expression order, the variables and parameters, the paths, and
    /// every interpolation and load case.
    ///
    /// Whether the sensor file and the load-case files exist on disk is
    /// an input/output concern and is checked by the embedding
    /// application, not here.
    pub fn validate(&self) -> (r: Result<(), ValidationError>)
        requires
            points_tagged(self.interpolations@),
        ensures
            r is Ok <==> timeseries_ok(*self),
    {
        self.expressions.validate()?;
        self.validate_variables_and_values()?;
        if blank(self.path.as_str()) {
            return Err(ValidationError::new("path must not be empty"));
        }
        if blank(self.sensorfile.as_str()) {
            return Err(ValidationError::new("sensorfile must not be empty"));
        }
        if self.interpolations.len() == 0 {
            return Err(ValidationError::new("interpolations must not be empty"));
        }
        let ni = self.interpolations.len();
        let mut i: usize = 0;
        while i < ni
            invariant
                ni == self.interpolations@.len(),
                points_tagged(self.interpolations@),
                0 <= i <= ni,
                forall|t: int| 0 <= t < i ==> interpolation_ok(#[trigger] self.interpolations@[t]),
            decreases ni - i,
        {
            let r = self.interpolations[i].validate();
            if r.is_err() {
                return r;
            }
            i = i + 1;
        }
        if self.loadcases.len() == 0 {
            return Err(ValidationError::new("loadcases must not be empty"));
        }
        let nl = self.loadcases.len();
        let mut j: usize = 0;
        while j < nl
            invariant
                nl == self.loadcases@.len(),
                0 <= j <= nl,
                forall|t: int| 0 <= t < j ==> loadcase_ok(#[trigger] self.loadcases@[t]),
            decreases nl - j,
        {
            let r = self.loadcases[j].validate();
            if r.is_err() {
                return r;
            }
            j = j + 1;
        }
        Ok(())
    }
}

/// When a time-series configuration is accepted: a non-empty expression
/// order, valid variables and parameters, non-blank paths, and at least
/// one valid interpolation and one valid load case.
pub open spec fn timeseries_ok(ts: TimeSeries) -> bool {
    &&& ts.expressions.order@.len() > 0
    &&& vars_vals_ok(ts)
    &&& !is_blank(ts.path@)
    &&& !is_blank(ts.sensorfile@)
    &&& ts.interpolations@.len() > 0
    &&& forall|i: int|
        0 <= i < ts.interpolations@.len() ==> interpolation_ok(#[trigger] ts.interpolations@[i])
    &&& ts.loadcases@.len() > 0
    &&& forall|i: int| 0 <= i < ts.loadcases@.len() ==> loadcase_ok(#[trigger] ts.loadcases@[i])
}

/// One entry of the sensor catalogue.
pub struct SensorFile {
    /// Sensor number.
    pub no: usize,
    /// Correction factor, in millionths.
    pub correction: i64,
    /// Unit of the sensor's readings.
    pub unit: String,
    /// Sensor name, matched against interpolation sensors.
    pub name: String,
    /// Human-readable description.
    pub description: String,
}

} // verus!
