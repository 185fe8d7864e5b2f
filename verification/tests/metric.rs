use cloudmon_metrics::config::{BinaryMetricDef, BinaryMetricRawDef, CmpType};
use cloudmon_metrics::dict::Dict;
use cloudmon_metrics::float::Float;
use cloudmon_metrics::metric::{collect_metrics, is_fulfilled, ordered_points, GraphiteData};
use std::collections::BTreeMap;

fn float(x: f32) -> Float {
    Float { bits: x.to_bits() }
}

fn raw(op: CmpType, threshold: f32) -> BinaryMetricRawDef {
    BinaryMetricRawDef {
        query: "q".to_string(),
        op,
        threshold: float(threshold),
    }
}

fn metrics(list: Vec<(&str, BinaryMetricRawDef)>) -> Dict<BinaryMetricDef> {
    let mut dict = Dict::new();
    for (name, raw) in list {
        dict.insert(
            name.to_string(),
            BinaryMetricDef {
                query: None,
                op: None,
                threshold: None,
                template: None,
                raw,
            },
        );
    }
    dict
}

fn sent(target: &str, datapoints: &[(Option<f32>, u32)]) -> GraphiteData {
    GraphiteData {
        target: target.to_string(),
        datapoints: datapoints.iter().map(|(v, t)| (v.map(float), *t)).collect(),
    }
}

fn points(list: &[(u32, bool)]) -> BTreeMap<u32, bool> {
    list.iter().cloned().collect()
}

#[test]
fn samples_are_held_against_the_threshold() {
    let cases = [
        (CmpType::Lt, [true, false, false]),
        (CmpType::Eq, [false, true, false]),
        (CmpType::Gt, [false, false, true]),
    ];
    for (op, expected) in cases {
        let def = raw(op, 90.0);
        for (sample, fulfilled) in [89.9f32, 90.0, 90.1].iter().zip(expected) {
            assert_eq!(is_fulfilled(&def, Some(float(*sample))), fulfilled);
        }
    }
}

#[test]
fn missing_samples_pass_no_threshold() {
    for op in [CmpType::Lt, CmpType::Gt, CmpType::Eq] {
        assert!(!is_fulfilled(&raw(op, 0.0), None));
        assert!(!is_fulfilled(&raw(op, 0.0), Some(float(f32::NAN))));
        assert!(!is_fulfilled(&raw(op, f32::NAN), Some(float(0.0))));
    }
}

#[test]
fn zeros_of_both_signs_are_equal() {
    assert!(is_fulfilled(&raw(CmpType::Eq, 0.0), Some(float(-0.0))));
    assert!(!is_fulfilled(&raw(CmpType::Lt, 0.0), Some(float(-0.0))));
}

#[test]
fn series_become_points_by_the_second() {
    let data = collect_metrics(
        &metrics(vec![("a", raw(CmpType::Gt, 1.0)), ("b", raw(CmpType::Lt, 1.0))]),
        &vec![
            sent("b", &[(Some(0.5), 20), (None, 10)]),
            sent("a", &[(Some(0.5), 10), (Some(1.5), u32::MAX), (Some(2.0), 0)]),
        ],
    );
    assert_eq!(data.len(), 2);
    assert_eq!(data[0].target, "b");
    assert_eq!(data[0].points, points(&[(10, false), (20, true)]));
    assert_eq!(data[1].target, "a");
    assert_eq!(
        data[1].points,
        points(&[(0, true), (10, false), (u32::MAX, true)])
    );
}

#[test]
fn last_sample_of_a_second_counts() {
    let data = collect_metrics(
        &metrics(vec![("a", raw(CmpType::Gt, 1.0))]),
        &vec![sent("a", &[(Some(2.0), 10), (Some(2.0), 11), (None, 10)])],
    );
    assert_eq!(data[0].points, points(&[(10, false), (11, true)]));
}

#[test]
fn series_of_unknown_metrics_are_left_out() {
    let data = collect_metrics(
        &metrics(vec![("a", raw(CmpType::Gt, 1.0))]),
        &vec![sent("x", &[(Some(2.0), 10)]), sent("a", &[]), sent("y", &[])],
    );
    assert_eq!(data.len(), 1);
    assert_eq!(data[0].target, "a");
    assert!(data[0].points.is_empty());
}

#[test]
fn repeated_series_are_kept_apart() {
    let data = collect_metrics(
        &metrics(vec![("a", raw(CmpType::Gt, 1.0))]),
        &vec![sent("a", &[(Some(2.0), 10)]), sent("a", &[(Some(0.0), 10)])],
    );
    assert_eq!(data.len(), 2);
    assert_eq!(data[0].points, points(&[(10, true)]));
    assert_eq!(data[1].points, points(&[(10, false)]));
}

#[test]
fn points_are_listed_in_the_order_of_time() {
    assert_eq!(
        ordered_points(&points(&[(30, true), (10, false), (20, true)])),
        vec![(10, false), (20, true), (30, true)]
    );
    assert!(ordered_points(&points(&[])).is_empty());
}

#[test]
fn thresholds_are_monotone() {
    let numbers = [f32::NEG_INFINITY, -1.5, 0.0, 0.1, 90.0, f32::INFINITY];
    for (k, lesser) in numbers.iter().enumerate() {
        for greater in numbers[k + 1..].iter() {
            for sample in numbers.iter() {
                let passes = |op, threshold| is_fulfilled(&raw(op, threshold), Some(float(*sample)));
                assert!(!passes(CmpType::Lt, *lesser) || passes(CmpType::Lt, *greater));
                assert!(!passes(CmpType::Gt, *greater) || passes(CmpType::Gt, *lesser));
                assert!(!passes(CmpType::Eq, *lesser) || passes(CmpType::Lt, *greater));
            }
        }
    }
}
