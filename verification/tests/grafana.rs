use cloudmon_metrics::config::{
    BinaryMetricDef, BinaryMetricRawDef, Config, ConfigServer, Datasource, ExpressionMetricDef,
};
use cloudmon_metrics::dict::Dict;
use cloudmon_metrics::grafana::{
    plan_query, search_metrics, GrafanaJsonSearchRequest, GrafanaJsonTargetType, GrafanaTarget,
    QueryPlan,
};

fn config(metrics: &[&str], expressions: &[(&str, &[&str])]) -> Config {
    let mut bin_metrics = Dict::new();
    for name in metrics {
        bin_metrics.insert(
            name.to_string(),
            BinaryMetricDef {
                query: None,
                op: None,
                threshold: None,
                template: None,
                raw: BinaryMetricRawDef::default(),
            },
        );
    }
    let mut expr_metrics = Dict::new();
    for (name, needed) in expressions {
        expr_metrics.insert(
            name.to_string(),
            ExpressionMetricDef {
                metrics: needed.iter().map(|n| n.to_string()).collect(),
                expressions: vec![],
            },
        );
    }
    Config {
        datasource: Datasource {
            url: String::new(),
            timeout: 5,
        },
        server: ConfigServer {
            address: String::new(),
            port: 0,
        },
        metric_templates: Dict::new(),
        bin_metrics,
        expr_metrics,
    }
}

fn service() -> Config {
    config(
        &["api.up", "api.slow", "db.up", "both"],
        &[("health", &["api.up", "gone", "db.up"]), ("both", &["db.up"])],
    )
}

fn series(name: &str) -> GrafanaTarget {
    GrafanaTarget {
        target: name.to_string(),
        target_type: GrafanaJsonTargetType::timeseries(),
    }
}

fn plan(names: &[&str]) -> QueryPlan {
    plan_query(&service(), &names.iter().map(|n| series(n)).collect())
}

fn search(text: &str) -> Vec<String> {
    search_metrics(
        &service(),
        &GrafanaJsonSearchRequest {
            target: text.to_string(),
        },
    )
}

#[test]
fn target_type_defaults_to_timeseries() {
    assert_eq!(
        GrafanaJsonTargetType::timeseries(),
        GrafanaJsonTargetType::Timeseries
    );
}

#[test]
fn star_asks_for_every_metric() {
    let plan = plan(&["*"]);
    assert_eq!(plan.metrics, ["api.up", "api.slow", "db.up", "both"]);
    assert!(plan.expression_metrics.is_empty());
    assert!(!plan.expression_mode);
    assert!(!plan.table_mode);
}

#[test]
fn wildcard_asks_for_a_common_beginning() {
    assert_eq!(plan(&["api.*"]).metrics, ["api.up", "api.slow"]);
    assert_eq!(plan(&["d*"]).metrics, ["db.up"]);
    assert!(plan(&["health*"]).metrics.is_empty());
    assert!(!plan(&["health*"]).expression_mode);
    assert!(plan(&["api.**"]).metrics.is_empty());
    assert_eq!(plan(&["api.up*"]).metrics, ["api.up"]);
}

#[test]
fn wildcard_beginnings_may_be_any_text() {
    let targets = vec![series("ü*")];
    let plan = plan_query(&config(&["über", "uber"], &[]), &targets);
    assert_eq!(plan.metrics, ["über"]);
}

#[test]
fn binary_metric_stands_for_itself() {
    assert_eq!(plan(&["db.up"]).metrics, ["db.up"]);
    let both = plan(&["both"]);
    assert_eq!(both.metrics, ["both"]);
    assert!(!both.expression_mode);
}

#[test]
fn expression_metric_asks_for_what_it_needs() {
    let plan = plan(&["health", "db.up", "health"]);
    assert_eq!(
        plan.metrics,
        ["api.up", "gone", "db.up", "db.up", "api.up", "gone", "db.up"]
    );
    assert_eq!(plan.expression_metrics, ["health", "health"]);
    assert!(plan.expression_mode);
}

#[test]
fn unknown_target_asks_for_nothing() {
    let plan = plan(&["nothing", ""]);
    assert!(plan.metrics.is_empty());
    assert!(plan.expression_metrics.is_empty());
    assert!(!plan.expression_mode);
}

#[test]
fn one_table_target_makes_the_answer_a_table() {
    let targets = vec![
        GrafanaTarget {
            target: "nothing".to_string(),
            target_type: GrafanaJsonTargetType::Table,
        },
        GrafanaTarget {
            target: "db.up".to_string(),
            target_type: GrafanaJsonTargetType::Timeserie,
        },
    ];
    let plan = plan_query(&service(), &targets);
    assert!(plan.table_mode);
    assert_eq!(plan.metrics, ["db.up"]);
}

#[test]
fn search_offers_a_star_and_the_metrics_with_a_beginning() {
    assert_eq!(search(""), ["*", "api.up", "api.slow", "db.up", "both"]);
    assert_eq!(search("api."), ["*", "api.up", "api.slow"]);
    assert_eq!(search("health"), ["*"]);
    assert_eq!(search("*"), ["*"]);
}

#[test]
fn offered_names_stand_for_their_metrics() {
    for name in search("").iter().skip(1) {
        assert_eq!(plan(&[name.as_str()]).metrics, [name.as_str()]);
    }
    assert_eq!(plan(&["*"]).metrics, search("")[1..].to_vec());
}
