// Tests of the configuration validators. Scaled quantities are integers in
// millionths: 1.0 is written 1_000_000.

use fatigue::config::{
    Config, Damage, Mean, Node, SafetyFactor, Solution, StressCriteria, ValidationError,
};
use fatigue::material::{Cutoff, Fatigue, Knee, Material, Slope};
use fatigue::timeseries::{
    Expressions, Interpolation, LoadCase, ParseConfig, Point, SensorFile, TimeSeries,
};

const UNIT: i64 = 1_000_000;

#[test]
fn validation_error_keeps_message() {
    let e = ValidationError::new("something went wrong");
    assert_eq!(e.message(), "something went wrong");
}

#[test]
fn stress_criteria_accepts_known_methods() {
    let criteria_vonmises =
        StressCriteria { number: None, method: String::from("VONMISES") };
    assert!(criteria_vonmises.validate().is_ok());

    let criteria_sxxcrit_invalid =
        StressCriteria { number: None, method: String::from("SXXCRIT") };
    assert!(criteria_sxxcrit_invalid.validate().is_err());

    let criteria_sxxcrit_valid =
        StressCriteria { number: Some(10), method: String::from("SXXCRIT") };
    assert!(criteria_sxxcrit_valid.validate().is_ok());

    let criteria_unknown = StressCriteria { number: None, method: String::from("OTHER") };
    assert!(criteria_unknown.validate().is_err());

    let criteria_nonpositive =
        StressCriteria { number: Some(0), method: String::from("SXXCRIT") };
    assert!(criteria_nonpositive.validate().is_err());
}

#[test]
fn node_range_must_be_positive() {
    let node_range = Node { from: 1, to: 10, path: String::from("path/to/data") };
    assert!(node_range.validate().is_ok());

    let invalid_node_range = Node { from: 0, to: 5, path: String::from("path/to/data") };
    assert!(invalid_node_range.validate().is_err());

    let invalid_to = Node { from: 2, to: -1, path: String::from("path/to/data") };
    assert!(invalid_to.validate().is_err());
}

#[test]
fn damage_factors_must_lie_in_unit_interval() {
    assert!(Damage { error: 0, dadm: UNIT }.validate().is_ok());
    assert!(Damage { error: UNIT / 2, dadm: UNIT / 4 }.validate().is_ok());
    assert!(Damage { error: -1, dadm: 0 }.validate().is_err());
    assert!(Damage { error: 0, dadm: UNIT + 1 }.validate().is_err());
}

#[test]
fn safety_factors_must_lie_between_one_and_two() {
    let sf = SafetyFactor {
        gmre: UNIT + UNIT / 2,
        gmrm: UNIT + UNIT / 5,
        gmfat: UNIT + 3 * UNIT / 10,
    };
    assert!(sf.validate().is_ok());

    let sf_invalid = SafetyFactor { gmre: 2 * UNIT + 100_000, gmrm: UNIT, gmfat: 900_000 };
    assert!(sf_invalid.validate().is_err());
}

fn mean_with(number: &str) -> Mean {
    Mean {
        mean: String::from("GOODMAN"),
        postfix: String::from("FIXEDMEAN"),
        number: String::from(number),
    }
}

#[test]
fn mean_correction_accepts_known_names_and_unit_factor() {
    assert!(mean_with("0.5").validate().is_ok());

    let invalid = Mean {
        mean: String::from("INVALID"),
        postfix: String::from("FIXEDMEAN"),
        number: String::from("1.5"),
    };
    assert!(invalid.validate().is_err());

    let bad_postfix = Mean {
        mean: String::from("LINEAR"),
        postfix: String::from("SOMETHING"),
        number: String::from("0.5"),
    };
    assert!(bad_postfix.validate().is_err());
}

#[test]
fn mean_factor_range_is_checked_exactly() {
    assert!(mean_with("0").validate().is_ok());
    assert!(mean_with("1").validate().is_ok());
    assert!(mean_with("1.0").validate().is_ok());
    assert!(mean_with("1.000").validate().is_ok());
    assert!(mean_with(".75").validate().is_ok());
    assert!(mean_with("+0.25").validate().is_ok());
    assert!(mean_with("-0").validate().is_ok());
    assert!(mean_with("-0.00").validate().is_ok());
    assert!(mean_with("1e-3").validate().is_ok());
    assert!(mean_with("5E-1").validate().is_ok());
    assert!(mean_with("0.999999999999999999999999999999999999999").validate().is_ok());
    assert!(mean_with("10e-2").validate().is_ok());
    assert!(mean_with("10e-1").validate().is_ok());
    assert!(mean_with("0.01e2").validate().is_ok());
    assert!(mean_with("1e-99999999999999999999999999999999999999").validate().is_ok());

    assert!(mean_with("1.5").validate().is_err());
    assert!(mean_with("2").validate().is_err());
    assert!(mean_with("-0.5").validate().is_err());
    assert!(mean_with("1.000000000000000000000000000000000001").validate().is_err());
    assert!(mean_with("1e99999999999999999999999999999999999999").validate().is_err());
    assert!(mean_with("nan").validate().is_err());
    assert!(mean_with("NaN").validate().is_err());
    assert!(mean_with("inf").validate().is_err());
    assert!(mean_with("-inf").validate().is_err());
    assert!(mean_with("infinity").validate().is_err());
}

#[test]
fn slope_must_not_be_negative() {
    assert!(Slope { m1: 3, m2: 5 }.validate().is_ok());
    assert!(Slope { m1: 0, m2: 0 }.validate().is_ok());
    assert!(Slope { m1: -1, m2: 5 }.validate().is_err());
    assert!(Slope { m1: 3, m2: -2 }.validate().is_err());
}

#[test]
fn knee_and_cutoff_must_not_be_negative() {
    assert!(Knee { cycle: 2_000_000, stress: 70 * UNIT }.validate().is_ok());
    assert!(Knee { cycle: -1, stress: 70 * UNIT }.validate().is_err());
    assert!(Knee { cycle: 10, stress: -1 }.validate().is_err());

    assert!(Cutoff { max: 100 * UNIT, min: 0 }.validate().is_ok());
    assert!(Cutoff { max: -1, min: 0 }.validate().is_err());
    assert!(Cutoff { max: 0, min: -5 }.validate().is_err());
}

fn sample_material() -> Material {
    Material {
        name: String::from("steel"),
        youngs_modulus: 210_000 * UNIT,
        poissons_ratio: 300_000,
        yield_stress: 355 * UNIT,
        ultimate_stress: 510 * UNIT,
        fatigue: Fatigue {
            slope: Slope { m1: 3, m2: 5 },
            knee: Knee { cycle: 2_000_000, stress: 70 * UNIT },
            cutoff: Cutoff { max: 100 * UNIT, min: 0 },
        },
    }
}

#[test]
fn material_validation_checks_name_and_signs() {
    assert!(sample_material().validate().is_ok());

    let mut blank_name = sample_material();
    blank_name.name = String::from("   ");
    assert!(blank_name.validate().is_err());

    let mut negative_modulus = sample_material();
    negative_modulus.youngs_modulus = -1;
    assert!(negative_modulus.validate().is_err());

    let mut bad_fatigue = sample_material();
    bad_fatigue.fatigue.slope.m1 = -3;
    assert!(bad_fatigue.validate().is_err());
}

fn sample_parse_config() -> ParseConfig {
    ParseConfig { header: 1, delimiter: String::from(" ") }
}

fn sample_interpolation() -> Interpolation {
    Interpolation {
        method: String::from("LINEAR"),
        name: String::from("StressTimeseries"),
        path: String::from("tests/stressfile"),
        parse_config: sample_parse_config(),
        scale: UNIT,
        dimension: 3,
        sensor: vec![String::from("FX"), String::from("FY"), String::from("FZ")],
        points: vec![Point::new(Some(String::from("Fx.usf")), vec![0, 0, 0])],
    }
}

#[test]
fn parse_config_needs_delimiter() {
    assert!(sample_parse_config().validate().is_ok());
    assert!(ParseConfig { header: 0, delimiter: String::new() }.validate().is_err());
}

#[test]
fn interpolation_validation_checks_method_and_shapes() {
    assert!(sample_interpolation().validate().is_ok());

    let mut bad_method = sample_interpolation();
    bad_method.method = String::from("CUBIC");
    assert!(bad_method.validate().is_err());

    let mut blank_name = sample_interpolation();
    blank_name.name = String::from(" ");
    assert!(blank_name.validate().is_err());

    let mut negative_scale = sample_interpolation();
    negative_scale.scale = -1;
    assert!(negative_scale.validate().is_err());

    let mut wrong_sensor_count = sample_interpolation();
    wrong_sensor_count.sensor.pop();
    assert!(wrong_sensor_count.validate().is_err());

    let mut no_points = sample_interpolation();
    no_points.points.clear();
    assert!(no_points.validate().is_err());

    let mut wrong_point_dim = sample_interpolation();
    wrong_point_dim.points = vec![Point::new(Some(String::from("Fx.usf")), vec![0, 0])];
    assert!(wrong_point_dim.validate().is_err());
}

#[test]
fn loadcase_validation_checks_file_and_signs() {
    let lc = LoadCase {
        fam: 1,
        file: String::from("case.txt"),
        frequency: UNIT,
        gf_ext: UNIT,
        gf_fat: UNIT,
    };
    assert!(lc.validate().is_ok());

    let blank_file = LoadCase {
        fam: 1,
        file: String::from("  "),
        frequency: UNIT,
        gf_ext: UNIT,
        gf_fat: UNIT,
    };
    assert!(blank_file.validate().is_err());

    let negative_frequency = LoadCase {
        fam: 1,
        file: String::from("case.txt"),
        frequency: -1,
        gf_ext: UNIT,
        gf_fat: UNIT,
    };
    assert!(negative_frequency.validate().is_err());
}

#[test]
fn expressions_need_an_order() {
    let expressions = Expressions {
        order: vec![String::from("expression1"), String::from("expression2")],
    };
    assert!(expressions.validate().is_ok());

    let empty_expressions = Expressions { order: vec![] };
    assert!(empty_expressions.validate().is_err());
}

fn sample_timeseries() -> TimeSeries {
    TimeSeries {
        path: String::from("tests"),
        sensorfile: String::from("tests/sensors.json"),
        interpolations: vec![sample_interpolation()],
        loadcases: vec![LoadCase {
            fam: 1,
            file: String::from("case.txt"),
            frequency: UNIT,
            gf_ext: UNIT,
            gf_fat: UNIT,
        }],
        parameters: vec![(String::from("a"), Some(5 * UNIT))],
        variables: vec![
            (String::from("max_value"), String::from("max(a, 3)")),
            (String::from("twice"), String::from("2 * max_value")),
        ],
        expressions: Expressions {
            order: vec![String::from("max_value"), String::from("twice")],
        },
    }
}

#[test]
fn timeseries_validation_accepts_consistent_configuration() {
    assert!(sample_timeseries().validate().is_ok());
}

#[test]
fn timeseries_validation_rejects_bad_variable_names() {
    let mut ts = sample_timeseries();
    ts.variables = vec![(String::from("1bad"), String::from("a + 1"))];
    assert!(ts.validate().is_err());
}

#[test]
fn timeseries_validation_rejects_unknown_expression_references() {
    let mut ts = sample_timeseries();
    ts.variables = vec![(String::from("alone"), String::from("unknown + 1"))];
    assert!(ts.validate().is_err());
}

#[test]
fn timeseries_validation_rejects_non_numeric_parameters() {
    let mut ts = sample_timeseries();
    ts.parameters = vec![(String::from("a"), None)];
    assert!(ts.validate().is_err());
}

#[test]
fn timeseries_validation_rejects_missing_loadcases() {
    let mut ts = sample_timeseries();
    ts.loadcases.clear();
    assert!(ts.validate().is_err());
}

fn sample_config() -> Config {
    Config {
        solution: Solution {
            run_type: String::from("FAT"),
            mode: String::from("STRESS"),
            output: String::from("JSON"),
            stress_criteria: StressCriteria { number: None, method: String::from("VONMISES") },
            mean: mean_with("0.5"),
            node: Node { from: 1, to: 10, path: String::from("nodes") },
            damage: Damage { error: UNIT / 10, dadm: UNIT / 2 },
        },
        material: sample_material(),
        safety_factor: SafetyFactor { gmre: UNIT, gmrm: UNIT, gmfat: UNIT },
        timeseries: sample_timeseries(),
    }
}

#[test]
fn config_validation_composes_all_parts() {
    assert!(sample_config().validate().is_ok());

    let mut bad = sample_config();
    bad.solution.run_type = String::from("SOMETHING");
    assert!(bad.validate().is_err());

    let mut bad_output = sample_config();
    bad_output.solution.output = String::from("ASCII");
    assert!(bad_output.validate().is_err());
}

#[test]
fn sensors_are_matched_against_the_catalogue() {
    let config = sample_config();
    let catalogue = vec![
        SensorFile {
            no: 1,
            correction: UNIT,
            unit: String::from("kN"),
            name: String::from("FX"),
            description: String::from("axial force"),
        },
        SensorFile {
            no: 2,
            correction: UNIT,
            unit: String::from("kN"),
            name: String::from("FY"),
            description: String::from("shear force"),
        },
        SensorFile {
            no: 3,
            correction: UNIT,
            unit: String::from("kN"),
            name: String::from("FZ"),
            description: String::from("vertical force"),
        },
    ];
    assert!(config.validate_sensor_against_sensorfile(&catalogue).is_ok());

    let partial = vec![SensorFile {
        no: 1,
        correction: UNIT,
        unit: String::from("kN"),
        name: String::from("FX"),
        description: String::from("axial force"),
    }];
    assert!(config.validate_sensor_against_sensorfile(&partial).is_err());
}
