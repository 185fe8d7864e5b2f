use cloudmon_metrics::answer::expression_frames;
use cloudmon_metrics::config::{
    check_config, process_config, BinaryMetricDef, BinaryMetricRawDef, CmpType, Config,
    ConfigServer, Datasource, ExpressionMetricDef, MetricExpressionDef,
};
use cloudmon_metrics::dict::Dict;
use cloudmon_metrics::float::Float;
use cloudmon_metrics::frame::{GrafanaDataFrameMessage, TableCell};
use cloudmon_metrics::grafana::{
    GrafanaJsonQueryRequest, GrafanaJsonQueryRequestRange, GrafanaJsonTargetType, GrafanaTarget,
};
use cloudmon_metrics::metric::{GraphiteData, MetricData};
use cloudmon_metrics::query::{begin_query, finish_query};

fn float(x: f32) -> Float {
    Float { bits: x.to_bits() }
}

fn binary(query: &str, op: CmpType, threshold: f32) -> BinaryMetricDef {
    BinaryMetricDef {
        query: Some(query.to_string()),
        op: Some(op),
        threshold: Some(float(threshold)),
        template: None,
        raw: BinaryMetricRawDef::default(),
    }
}

fn expression(metrics: &[&str], list: &[(&str, i32)]) -> ExpressionMetricDef {
    ExpressionMetricDef {
        metrics: metrics.iter().map(|m| m.to_string()).collect(),
        expressions: list
            .iter()
            .map(|(expression, weight)| MetricExpressionDef {
                expression: expression.to_string(),
                weight: *weight,
            })
            .collect(),
    }
}

fn service() -> Config {
    let mut bin_metrics = Dict::new();
    bin_metrics.insert("up".to_string(), binary("q.up", CmpType::Gt, 0.0));
    bin_metrics.insert("slow".to_string(), binary("q.slow", CmpType::Gt, 300.0));
    let mut expr_metrics = Dict::new();
    expr_metrics.insert(
        "health".to_string(),
        expression(&["up", "slow"], &[("up", 1), ("up && !slow", 2)]),
    );
    expr_metrics.insert("trouble".to_string(), expression(&["slow"], &[("slow", 1)]));
    expr_metrics.insert("shift".to_string(), expression(&["slow"], &[("shl(1, 64) == 1", 1)]));
    let config = Config {
        datasource: Datasource {
            url: "http://graphite".to_string(),
            timeout: 5,
        },
        server: ConfigServer {
            address: "0.0.0.0".to_string(),
            port: 3000,
        },
        metric_templates: Dict::new(),
        bin_metrics,
        expr_metrics,
    };
    assert!(check_config(&config).is_ok());
    process_config(config)
}

fn request(targets: &[(&str, GrafanaJsonTargetType)]) -> GrafanaJsonQueryRequest {
    GrafanaJsonQueryRequest {
        range: GrafanaJsonQueryRequestRange {
            from: "2022-01-01T00:00:00.000Z".to_string(),
            to: "2022-01-01T06:30:00.000Z".to_string(),
        },
        targets: targets
            .iter()
            .map(|(name, target_type)| GrafanaTarget {
                target: name.to_string(),
                target_type: *target_type,
            })
            .collect(),
        max_data_points: 100,
    }
}

fn sent() -> Vec<GraphiteData> {
    vec![
        GraphiteData {
            target: "slow".to_string(),
            datapoints: vec![(Some(float(100.0)), 60), (Some(float(400.0)), 120)],
        },
        GraphiteData {
            target: "stray".to_string(),
            datapoints: vec![(Some(float(1.0)), 30)],
        },
        GraphiteData {
            target: "up".to_string(),
            datapoints: vec![
                (Some(float(1.0)), 60),
                (Some(float(1.0)), 120),
                (None, 180),
            ],
        },
    ]
}

fn answer(
    targets: &[(&str, GrafanaJsonTargetType)],
    data: Vec<GraphiteData>,
) -> Vec<GrafanaDataFrameMessage> {
    let config = service();
    let (plan, _) = begin_query(&config, &request(targets));
    finish_query(&config, &plan, &data)
}

fn frames(answer: Vec<GrafanaDataFrameMessage>) -> Vec<(String, Vec<(i32, u64)>)> {
    answer
        .into_iter()
        .map(|frame| match frame {
            GrafanaDataFrameMessage::Data { target, datapoints } => (target, datapoints),
            GrafanaDataFrameMessage::Table { .. } => panic!("not a series"),
        })
        .collect()
}

const SERIES: GrafanaJsonTargetType = GrafanaJsonTargetType::Timeseries;
const TABLE: GrafanaJsonTargetType = GrafanaJsonTargetType::Table;

#[test]
fn query_asks_graphite_for_what_it_needs() {
    let config = service();
    let (plan, asked) = begin_query(&config, &request(&[("health", SERIES), ("up", SERIES)]));
    assert_eq!(plan.metrics, ["up", "slow", "up"]);
    assert_eq!(asked.url, "http://graphite/render");
    let expected: Vec<(String, String)> = [
        ("format", "json"),
        ("maxDataPoints", "100"),
        ("from", "00:00_20220101"),
        ("until", "06:30_20220101"),
        ("target", "alias(q.up,'up')"),
        ("target", "alias(q.slow,'slow')"),
    ]
    .iter()
    .map(|(k, v)| (k.to_string(), v.to_string()))
    .collect();
    assert_eq!(asked.params, expected);
}

#[test]
fn series_are_answered_in_the_order_of_graphite() {
    assert_eq!(
        frames(answer(&[("*", SERIES)], sent())),
        vec![
            ("slow".to_string(), vec![(0, 60_000), (1, 120_000)]),
            ("up".to_string(), vec![(1, 60_000), (1, 120_000), (0, 180_000)]),
        ]
    );
}

#[test]
fn table_is_answered_where_one_is_wanted() {
    let mut got = answer(&[("up", SERIES), ("slow", TABLE)], sent());
    assert_eq!(got.len(), 1);
    match got.remove(0) {
        GrafanaDataFrameMessage::Table { columns, rows, response_type } => {
            let texts: Vec<String> = columns.into_iter().map(|c| c.text).collect();
            assert_eq!(texts, ["time", "slow", "up"]);
            assert_eq!(rows.len(), 3);
            assert_eq!(
                rows[2],
                vec![
                    TableCell::Time(180_000),
                    TableCell::Sample(None),
                    TableCell::Sample(Some(false)),
                ]
            );
            assert_eq!(response_type, "table");
        }
        GrafanaDataFrameMessage::Data { .. } => panic!("not a table"),
    }
}

#[test]
fn expression_metrics_are_valued_at_each_time() {
    assert_eq!(
        frames(answer(&[("health", SERIES), ("trouble", SERIES)], sent())),
        vec![
            (
                "health".to_string(),
                vec![(2, 60_000), (1, 120_000), (0, 180_000)]
            ),
            (
                "trouble".to_string(),
                vec![(0, 60_000), (1, 120_000), (0, 180_000)]
            ),
        ]
    );
}

#[test]
fn expression_metrics_go_before_tables_and_series() {
    assert_eq!(
        frames(answer(&[("trouble", TABLE), ("up", SERIES)], sent())),
        vec![(
            "trouble".to_string(),
            vec![(0, 60_000), (1, 120_000), (0, 180_000)]
        )]
    );
}

#[test]
fn expression_metric_wanted_twice_has_each_value_twice() {
    assert_eq!(
        frames(answer(&[("trouble", SERIES), ("trouble", SERIES)], sent())),
        vec![(
            "trouble".to_string(),
            vec![
                (0, 60_000),
                (0, 60_000),
                (1, 120_000),
                (1, 120_000),
                (0, 180_000),
                (0, 180_000),
            ]
        )]
    );
}

#[test]
fn without_samples_there_is_nothing_to_show() {
    assert!(answer(&[("health", SERIES)], vec![]).is_empty());
    assert!(answer(&[("*", SERIES)], vec![]).is_empty());
    assert!(answer(&[], vec![]).is_empty());
    let mut got = answer(&[("*", TABLE)], vec![]);
    match got.remove(0) {
        GrafanaDataFrameMessage::Table { columns, rows, .. } => {
            assert_eq!(columns.len(), 1);
            assert!(rows.is_empty());
        }
        GrafanaDataFrameMessage::Data { .. } => panic!("not a table"),
    }
    assert!(got.is_empty());
}

#[test]
fn expression_metrics_that_shift_are_valued() {
    assert_eq!(
        frames(answer(&[("shift", SERIES), ("trouble", SERIES)], sent())),
        vec![
            (
                "shift".to_string(),
                vec![(1, 60_000), (1, 120_000), (1, 180_000)]
            ),
            (
                "trouble".to_string(),
                vec![(0, 60_000), (1, 120_000), (0, 180_000)]
            ),
        ]
    );
    assert!(answer(&[("shift", SERIES)], vec![]).is_empty());
}

#[test]
fn expression_frames_have_the_same_times() {
    let got = frames(answer(
        &[("trouble", TABLE), ("up", SERIES), ("health", SERIES)],
        sent(),
    ));
    assert_eq!(got.len(), 2);
    for (_, datapoints) in got {
        let times: Vec<u64> = datapoints.iter().map(|p| p.1).collect();
        assert_eq!(times, vec![60_000, 120_000, 180_000]);
    }
}

#[test]
fn unknown_expression_metrics_have_no_frame() {
    let data = vec![MetricData {
        target: "slow".to_string(),
        points: [(1u32, true)].into_iter().collect(),
    }];
    let got = expression_frames(
        &vec!["gone".to_string(), "trouble".to_string()],
        &service().expr_metrics,
        data,
    );
    assert_eq!(frames(got), vec![("trouble".to_string(), vec![(1, 1000)])]);
}
