use cloudmon_metrics::config::{
    check_config, default_address, default_port, default_timeout, process_config,
    BinaryMetricDef, BinaryMetricRawDef, CmpType, Config, ConfigFault, ConfigServer, Datasource,
    ExpressionMetricDef, MetricTemplateRef,
};
use cloudmon_metrics::dict::Dict;
use cloudmon_metrics::float::Float;

fn float(x: f32) -> Float {
    Float { bits: x.to_bits() }
}

fn template(query: &str, op: CmpType, threshold: f32) -> BinaryMetricRawDef {
    BinaryMetricRawDef {
        query: query.to_string(),
        op,
        threshold: float(threshold),
    }
}

fn metric(query: Option<&str>, op: Option<CmpType>, threshold: Option<f32>) -> BinaryMetricDef {
    BinaryMetricDef {
        query: query.map(|q| q.to_string()),
        op,
        threshold: threshold.map(float),
        template: None,
        raw: BinaryMetricRawDef::default(),
    }
}

fn after(name: &str, vars: &[(&str, &str)]) -> Option<MetricTemplateRef> {
    let mut dict = Dict::new();
    for (k, v) in vars {
        dict.insert(k.to_string(), v.to_string());
    }
    Some(MetricTemplateRef {
        name: name.to_string(),
        vars: dict,
    })
}

fn config(
    templates: Vec<(&str, BinaryMetricRawDef)>,
    metrics: Vec<(&str, BinaryMetricDef)>,
) -> Config {
    let mut metric_templates = Dict::new();
    for (name, def) in templates {
        metric_templates.insert(name.to_string(), def);
    }
    let mut bin_metrics = Dict::new();
    for (name, def) in metrics {
        bin_metrics.insert(name.to_string(), def);
    }
    let mut expr_metrics = Dict::new();
    expr_metrics.insert(
        "health".to_string(),
        ExpressionMetricDef {
            metrics: vec!["up".to_string()],
            expressions: vec![],
        },
    );
    Config {
        datasource: Datasource {
            url: "http://graphite".to_string(),
            timeout: 7,
        },
        server: ConfigServer {
            address: "127.0.0.1".to_string(),
            port: 8080,
        },
        metric_templates,
        bin_metrics,
        expr_metrics,
    }
}

#[test]
fn defaults_of_the_configuration() {
    assert_eq!(default_address(), "0.0.0.0");
    assert_eq!(default_port(), 3000);
    assert_eq!(default_timeout(), 5);
    let raw = BinaryMetricRawDef::default();
    assert_eq!(raw.query, "");
    assert_eq!(raw.op, CmpType::Lt);
    assert_eq!(raw.threshold, float(0.0));
}

#[test]
fn metric_without_template_takes_its_own_settings() {
    let done = process_config(config(
        vec![],
        vec![("up", metric(Some("a.$b"), Some(CmpType::Eq), Some(90.0)))],
    ));
    let raw = &done.bin_metrics.get("up").unwrap().raw;
    assert_eq!(raw.query, "a.$b");
    assert_eq!(raw.op, CmpType::Eq);
    assert_eq!(raw.threshold, float(90.0));
}

#[test]
fn metric_without_settings_keeps_what_is_there() {
    let mut def = metric(None, None, None);
    def.raw = template("there", CmpType::Gt, 3.0);
    let done = process_config(config(
        vec![],
        vec![("up", metric(None, None, None)), ("kept", def)],
    ));
    assert_eq!(done.bin_metrics.get("up").unwrap().raw.query, "");
    assert_eq!(done.bin_metrics.get("up").unwrap().raw.op, CmpType::Lt);
    assert_eq!(done.bin_metrics.get("kept").unwrap().raw.query, "there");
    assert_eq!(done.bin_metrics.get("kept").unwrap().raw.op, CmpType::Gt);
    assert_eq!(
        done.bin_metrics.get("kept").unwrap().raw.threshold,
        float(3.0)
    );
}

#[test]
fn metric_after_a_template_fills_in_its_variables() {
    let mut def = metric(Some("ignored"), None, None);
    def.template = after("tmpl", &[("env", "prod"), ("srv", "api")]);
    let done = process_config(config(
        vec![("tmpl", template("stats.$env.$srv.count", CmpType::Gt, 1.5))],
        vec![("up", def)],
    ));
    let got = done.bin_metrics.get("up").unwrap();
    assert_eq!(got.raw.query, "stats.prod.api.count");
    assert_eq!(got.raw.op, CmpType::Gt);
    assert_eq!(got.raw.threshold, float(1.5));
    assert_eq!(got.query, Some("ignored".to_string()));
    assert_eq!(got.op, None);
}

#[test]
fn metric_settings_go_before_those_of_the_template() {
    let mut def = metric(None, Some(CmpType::Lt), Some(0.25));
    def.template = after("tmpl", &[]);
    let done = process_config(config(
        vec![("tmpl", template("plain", CmpType::Gt, 1.5))],
        vec![("up", def)],
    ));
    let raw = &done.bin_metrics.get("up").unwrap().raw;
    assert_eq!(raw.query, "plain");
    assert_eq!(raw.op, CmpType::Lt);
    assert_eq!(raw.threshold, float(0.25));
}

#[test]
fn resolving_leaves_the_rest_alone() {
    let done = process_config(config(
        vec![("tmpl", template("t.$x", CmpType::Gt, 1.5))],
        vec![
            ("b", metric(Some("1"), None, None)),
            ("a", metric(Some("2"), None, None)),
        ],
    ));
    assert_eq!(done.datasource.url, "http://graphite");
    assert_eq!(done.datasource.timeout, 7);
    assert_eq!(done.server.address, "127.0.0.1");
    assert_eq!(done.server.port, 8080);
    assert_eq!(done.metric_templates.get("tmpl").unwrap().query, "t.$x");
    assert_eq!(done.bin_metrics.name_at(0), "b");
    assert_eq!(done.bin_metrics.name_at(1), "a");
    assert_eq!(done.bin_metrics.len(), 2);
    assert!(done.expr_metrics.contains_key("health"));
}

#[test]
fn resolving_twice_is_resolving_once() {
    let mut def = metric(None, None, Some(2.0));
    def.template = after("tmpl", &[("x", "$x")]);
    let once = process_config(config(
        vec![("tmpl", template("t.$x", CmpType::Gt, 1.5))],
        vec![("up", def)],
    ));
    assert!(check_config(&once).is_ok());
    let twice = process_config(once);
    let raw = &twice.bin_metrics.get("up").unwrap().raw;
    assert_eq!(raw.query, "t.$x");
    assert_eq!(raw.op, CmpType::Gt);
    assert_eq!(raw.threshold, float(2.0));
}

#[test]
fn unknown_template_is_reported() {
    let mut def = metric(None, None, None);
    def.template = after("other", &[]);
    let error = check_config(&config(
        vec![("tmpl", template("plain", CmpType::Gt, 1.5))],
        vec![("ok", metric(None, None, None)), ("bad", def)],
    ))
    .unwrap_err();
    assert_eq!(error.metric, "bad");
    assert_eq!(error.fault, ConfigFault::UnknownTemplate);
}

#[test]
fn missing_variable_is_reported() {
    let mut first = metric(None, None, None);
    first.template = after("tmpl", &[("y", "v")]);
    let mut second = metric(None, None, None);
    second.template = after("other", &[]);
    let error = check_config(&config(
        vec![("tmpl", template("t.$x", CmpType::Gt, 1.5))],
        vec![("one", first), ("two", second)],
    ))
    .unwrap_err();
    assert_eq!(error.metric, "one");
    assert_eq!(error.fault, ConfigFault::MissingVariable);
}

#[test]
fn sound_configuration_is_accepted() {
    let mut def = metric(None, None, None);
    def.template = after("tmpl", &[("x", "v"), ("unused", "w")]);
    assert!(check_config(&config(
        vec![("tmpl", template("t.$x", CmpType::Gt, 1.5))],
        vec![("up", def)],
    ))
    .is_ok());
    assert!(check_config(&config(vec![], vec![])).is_ok());
}
