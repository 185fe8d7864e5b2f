use cloudmon_metrics::config::{ExpressionMetricDef, MetricExpressionDef};
use cloudmon_metrics::dict::Dict;
use cloudmon_metrics::expression::{
    call_left_shift, call_right_shift, expression_value, shift_left, shift_right, weigh,
};
use evalexpr::Value;

fn expressions(list: &[(&str, i32)]) -> Vec<MetricExpressionDef> {
    list.iter()
        .map(|(expression, weight)| MetricExpressionDef {
            expression: expression.to_string(),
            weight: *weight,
        })
        .collect()
}

fn metric(metrics: &[&str], list: &[(&str, i32)]) -> ExpressionMetricDef {
    ExpressionMetricDef {
        metrics: metrics.iter().map(|m| m.to_string()).collect(),
        expressions: expressions(list),
    }
}

fn value(def: &ExpressionMetricDef, row: &[(&str, bool)]) -> i32 {
    let mut dict = Dict::new();
    for (name, sample) in row {
        dict.insert(name.to_string(), *sample);
    }
    expression_value(def, &dict)
}

#[test]
fn expressions_read_the_samples_of_their_metrics() {
    let def = metric(
        &["api.up", "db.up"],
        &[("api.up || db.up", 1), ("api.up && db.up", 2)],
    );
    assert_eq!(value(&def, &[("api.up", true), ("db.up", true)]), 2);
    assert_eq!(value(&def, &[("api.up", true), ("db.up", false)]), 1);
    assert_eq!(value(&def, &[("api.up", false), ("db.up", true)]), 1);
    assert_eq!(value(&def, &[("api.up", false), ("db.up", false)]), 0);
}

#[test]
fn metric_without_a_sample_counts_as_false() {
    let def = metric(&["a", "b"], &[("!a && b", 7), ("!a && !b", 3)]);
    assert_eq!(value(&def, &[("b", true)]), 7);
    assert_eq!(value(&def, &[]), 3);
}

#[test]
fn samples_of_other_metrics_are_not_read() {
    let def = metric(&["a"], &[("b", 1), ("a", 2)]);
    assert_eq!(value(&def, &[("a", false), ("b", true)]), 0);
    assert_eq!(value(&def, &[("a", true), ("b", true)]), 2);
}

#[test]
fn last_true_expression_counts_whatever_its_weight() {
    let def = metric(&["a"], &[("a", 5), ("true", -2), ("!a", 9)]);
    assert_eq!(value(&def, &[("a", true)]), -2);
    assert_eq!(value(&def, &[("a", false)]), 9);
}

#[test]
fn expressions_with_errors_count_as_not_true() {
    let def = metric(
        &["a"],
        &[("a", 4), ("a &&", 1), ("1 + 1", 2), ("unknown", 3), ("", 5), ("a + a", 6)],
    );
    assert_eq!(value(&def, &[("a", true)]), 4);
    assert_eq!(value(&def, &[("a", false)]), 0);
}

#[test]
fn expressions_cannot_set_variables() {
    let def = metric(&["a"], &[("a = true; a", 1), ("a", 2)]);
    assert_eq!(value(&def, &[("a", false)]), 0);
}

#[test]
fn metric_named_twice_has_one_sample() {
    let def = metric(&["a", "a"], &[("a", 1)]);
    assert_eq!(value(&def, &[("a", true)]), 1);
}

#[test]
fn metric_without_expressions_is_zero() {
    assert_eq!(value(&metric(&["a"], &[]), &[("a", true)]), 0);
}

#[test]
fn expressions_may_calculate() {
    let def = metric(
        &["a", "b"],
        &[("min(2, 3) == 2 && if(a, 1, 0) + if(b, 1, 0) >= 1", 8)],
    );
    assert_eq!(value(&def, &[("a", true)]), 8);
    assert_eq!(value(&def, &[]), 0);
}

#[test]
fn weights_are_chosen_by_the_last_true_verdict() {
    let list = expressions(&[("x", 1), ("y", 2), ("z", 3)]);
    assert_eq!(weigh(&list, &vec![Some(true), Some(true), Some(false)]), 2);
    assert_eq!(weigh(&list, &vec![Some(true), None, None]), 1);
    assert_eq!(weigh(&list, &vec![None, Some(false), Some(true)]), 3);
    assert_eq!(weigh(&list, &vec![Some(false), None, Some(false)]), 0);
    assert_eq!(weigh(&vec![], &vec![]), 0);
    let extreme = expressions(&[("x", i32::MIN), ("y", i32::MAX)]);
    assert_eq!(weigh(&extreme, &vec![Some(true), Some(false)]), i32::MIN);
    assert_eq!(weigh(&extreme, &vec![Some(true), Some(true)]), i32::MAX);
}

#[test]
fn shifts_of_distances_in_range_are_those_of_the_machine() {
    for n in [0i64, 1, -1, 5, -12345, i64::MAX, i64::MIN] {
        for distance in 0..64i64 {
            assert_eq!(shift_left(n, distance), n << distance);
            assert_eq!(shift_right(n, distance), n >> distance);
        }
    }
    assert_eq!(shift_left(1, 2), 4);
    assert_eq!(shift_right(-8, 1), -4);
}

#[test]
fn shifts_turn_round_at_the_width_of_an_integer() {
    for distance in [64i64, 65, 127, 128, -1, -63, -64, -65, i64::MAX, i64::MIN] {
        assert_eq!(shift_left(3, distance), 3i64.wrapping_shl(distance as u32));
        assert_eq!(shift_right(-3, distance), (-3i64).wrapping_shr(distance as u32));
    }
    assert_eq!(shift_left(3, 64), 3);
    assert_eq!(shift_left(1, -1), i64::MIN);
}

#[test]
fn shifts_take_a_pair_of_integers() {
    let pair = |a: Value, b: Value| Value::Tuple(vec![a, b]);
    let ints = pair(Value::Int(-7), Value::Int(1));
    assert_eq!(call_left_shift(&ints), Ok(Value::Int(-14)));
    assert_eq!(call_right_shift(&ints), Ok(Value::Int(-4)));
    let others = [
        Value::Int(1),
        Value::Empty,
        Value::Tuple(vec![]),
        Value::Tuple(vec![Value::Int(1)]),
        Value::Tuple(vec![Value::Int(1), Value::Int(2), Value::Int(3)]),
        pair(Value::Float(1.0), Value::Int(2)),
        pair(Value::Int(1), Value::Boolean(true)),
        pair(Value::Tuple(vec![Value::Int(1)]), Value::Int(2)),
    ];
    for value in others.iter() {
        assert!(call_left_shift(value).is_err());
        assert!(call_right_shift(value).is_err());
    }
}

#[test]
fn expressions_may_shift() {
    let def = metric(&["a"], &[("a && shl(1, 2) == 4 && shr(-8, 1) == -4", 3)]);
    assert_eq!(value(&def, &[("a", true)]), 3);
    assert_eq!(value(&def, &[]), 0);
    let def = metric(&[], &[("shl(3, 64) == 3 && shr(3, -64) == 3", 1)]);
    assert_eq!(value(&def, &[]), 1);
    let def = metric(&[], &[("shl(1) == 1", 1), ("shr(1.5, 1) == 0", 2)]);
    assert_eq!(value(&def, &[]), 0);
}

#[test]
fn metrics_may_be_named_like_shifts() {
    let def = metric(&["shr", "shl"], &[("shr", 1), ("shr && shl", 2)]);
    assert_eq!(value(&def, &[("shr", true)]), 1);
    assert_eq!(value(&def, &[("shr", true), ("shl", true)]), 2);
    let def = metric(&["a"], &[("a && \"shl\" != \"shr\"", 5)]);
    assert_eq!(value(&def, &[("a", true)]), 5);
}

#[test]
fn expressions_may_use_mathematics() {
    let def = metric(
        &[],
        &[("min(1, 2) == 1", 1), ("math::sqrt(9) == 3.0 && 2 ^ 2 == 4.0", 2)],
    );
    assert_eq!(value(&def, &[]), 2);
}

#[test]
fn lesser_and_greater_integers_are_found() {
    let def = metric(
        &["api.up", "db.up"],
        &[
            ("min(if(api.up, 1, 0), if(db.up, 1, 0)) == 1", 1),
            ("max(if(api.up, 1, 0), if(db.up, 1, 0)) == 0", 2),
            ("max(-1, min(3, 2), 1) == 3", 9),
        ],
    );
    assert_eq!(value(&def, &[("api.up", true), ("db.up", true)]), 1);
    assert_eq!(value(&def, &[("api.up", true), ("db.up", false)]), 0);
    assert_eq!(value(&def, &[]), 2);
    let def = metric(
        &[],
        &[
            ("min(999999999999999999, 0 - 999999999999999999) == -999999999999999999", 1),
            ("min(7 / 2, 7 % 4, -3 * -1) == 3 && max(00, 0) == 0", 2),
        ],
    );
    assert_eq!(value(&def, &[]), 2);
}

#[test]
fn words_that_are_numbers_are_told_by_their_beginning() {
    let def = metric(
        &["e5", "a.5", "_1"],
        &[("e5 && a.5 && _1 && 1e3 == 1000.0 && .5 < 1 && INF > 1 && nan != nan", 4)],
    );
    assert_eq!(value(&def, &[("e5", true), ("a.5", true), ("_1", true)]), 4);
}
