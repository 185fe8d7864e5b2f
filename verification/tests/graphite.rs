use cloudmon_metrics::clock::{graphite_time, read_minute, WallClock};
use cloudmon_metrics::config::{
    BinaryMetricDef, BinaryMetricRawDef, CmpType, Config, ConfigServer, Datasource,
};
use cloudmon_metrics::dict::Dict;
use cloudmon_metrics::float::Float;
use cloudmon_metrics::graphite::{
    alias_graphite_query, graphite_query_params, graphite_request, graphite_targets,
};

fn metric(query: &str) -> BinaryMetricDef {
    BinaryMetricDef {
        query: Some(query.to_string()),
        op: None,
        threshold: None,
        template: None,
        raw: BinaryMetricRawDef {
            query: query.to_string(),
            op: CmpType::Lt,
            threshold: Float::zero(),
        },
    }
}

fn config(url: &str, metrics: &[(&str, &str)]) -> Config {
    let mut bin_metrics = Dict::new();
    for (name, query) in metrics {
        bin_metrics.insert(name.to_string(), metric(query));
    }
    Config {
        datasource: Datasource {
            url: url.to_string(),
            timeout: 1,
        },
        server: ConfigServer {
            address: "0.0.0.0".to_string(),
            port: 3000,
        },
        metric_templates: Dict::new(),
        bin_metrics,
        expr_metrics: Dict::new(),
    }
}

fn names(list: &[&str]) -> Vec<String> {
    list.iter().map(|n| n.to_string()).collect()
}

fn params(list: &[(&str, &str)]) -> Vec<(String, String)> {
    list.iter()
        .map(|(k, v)| (k.to_string(), v.to_string()))
        .collect()
}

fn bound(text: &str) -> Option<String> {
    let request = graphite_request(&config("", &[]), &vec![], text, "", 1);
    request
        .params
        .iter()
        .find(|p| p.0 == "from")
        .map(|p| p.1.clone())
}

#[test]
fn test_alias_graphite_query() {
    assert_eq!(alias_graphite_query("q", "n"), "alias(q,'n')");
}

#[test]
fn test_get_graphite_data() {
    let server_url = "http://127.0.0.1:1234";
    let request = graphite_request(
        &config(server_url, &[("alias", "query")]),
        &names(&["alias"]),
        "2022-01-01T00:00:00+00:00",
        "2022-02-01T00:00:00+00:00",
        15,
    );
    assert_eq!(request.url, format!("{}/render", server_url));
    let expected = params(&[
        ("target", "alias(query,'alias')"),
        ("from", "00:00_20220101"),
        ("until", "00:00_20220201"),
        ("maxDataPoints", "15"),
    ]);
    for param in expected.iter() {
        assert!(request.params.contains(param), "{:?}", param);
    }

    let mut targets = Dict::new();
    targets.insert("alias".to_string(), "query".to_string());
    let from = WallClock { year: 2022, month: 1, day: 1, hour: 0, minute: 0 };
    let to = WallClock { year: 2022, month: 2, day: 1, hour: 0, minute: 0 };
    assert_eq!(
        graphite_query_params(&targets, Some(from), Some(to), 15),
        request.params
    );
}

#[test]
fn parameters_come_in_a_fixed_order() {
    let request = graphite_request(
        &config("http://g", &[("b", "qb"), ("a", "qa")]),
        &names(&["a", "b"]),
        "2022-01-31T23:59:59Z",
        "2022-02-01T00:00:00.123Z",
        0,
    );
    assert_eq!(request.url, "http://g/render");
    assert_eq!(
        request.params,
        params(&[
            ("format", "json"),
            ("maxDataPoints", "0"),
            ("from", "23:59_20220131"),
            ("until", "00:00_20220201"),
            ("target", "alias(qa,'a')"),
            ("target", "alias(qb,'b')"),
        ])
    );
}

#[test]
fn bounds_that_are_no_times_are_left_out() {
    let request = graphite_request(&config("u", &[]), &vec![], "now-6h", "", 65535);
    assert_eq!(
        request.params,
        params(&[("format", "json"), ("maxDataPoints", "65535")])
    );
    assert_eq!(bound("2022-01-01"), None);
    assert_eq!(bound("2022-02-29T00:00:00Z"), None);
    assert_eq!(bound("2022-01-01T24:00:00Z"), None);
    assert_eq!(bound("2022-01-01T00:00:00"), None);
}

#[test]
fn one_bound_is_enough() {
    let time = WallClock { year: 2020, month: 2, day: 29, hour: 12, minute: 34 };
    assert_eq!(
        graphite_query_params(&Dict::new(), None, Some(time), 3),
        params(&[
            ("format", "json"),
            ("maxDataPoints", "3"),
            ("until", "12:34_20200229"),
        ])
    );
}

#[test]
fn bounds_keep_the_digits_of_their_own_zone() {
    assert_eq!(
        bound("2022-01-01T00:30:00+02:00"),
        Some("00:30_20220101".to_string())
    );
    assert_eq!(
        bound("2021-12-31T23:59:59-23:59"),
        Some("23:59_20211231".to_string())
    );
    assert_eq!(
        bound("2020-02-29t08:09:10.5z"),
        Some("08:09_20200229".to_string())
    );
    assert_eq!(
        bound("2016-12-31T23:59:60Z"),
        Some("23:59_20161231".to_string())
    );
}

#[test]
fn first_and_last_years_are_written_with_four_digits() {
    assert_eq!(
        bound("0000-01-01T00:00:00+01:00"),
        Some("00:00_00000101".to_string())
    );
    assert_eq!(
        bound("9999-12-31T23:59:59-01:00"),
        Some("23:59_99991231".to_string())
    );
}

#[test]
fn minutes_are_written_for_graphite() {
    let time = WallClock { year: 987, month: 6, day: 5, hour: 4, minute: 3 };
    assert_eq!(graphite_time(time), "04:03_09870605");
}

#[test]
fn unknown_metrics_are_not_requested() {
    let targets = graphite_targets(
        &config("", &[("a", "qa"), ("b", "qb")]).bin_metrics,
        &names(&["x", "b", "y"]),
    );
    assert_eq!(targets.entries(), &params(&[("b", "qb")]));
}

#[test]
fn repeated_metrics_are_requested_once() {
    let request = graphite_request(
        &config("u", &[("a", "qa"), ("b", "qb")]),
        &names(&["b", "a", "b", "b"]),
        "",
        "",
        1,
    );
    assert_eq!(
        request.params,
        params(&[
            ("format", "json"),
            ("maxDataPoints", "1"),
            ("target", "alias(qb,'b')"),
            ("target", "alias(qa,'a')"),
        ])
    );
}

#[test]
fn times_are_read_in_the_forms_of_rfc_3339() {
    let noon = Some(WallClock { year: 2022, month: 7, day: 31, hour: 12, minute: 5 });
    let accepted = [
        "2022-07-31T12:05:00Z",
        "2022-07-31t12:05:59z",
        "2022-07-31 12:05:60Z",
        "2022-07-31T12:05:00.1Z",
        "2022-07-31T12:05:00.123456789012345+00:00",
        "2022-07-31T12:05:60.999999999-00:00",
        "2022-07-31T12:05:00+23:59",
        "2022-07-31T12:05:00-23:59",
        "2022-07-31T12:05:00\u{2212}08:30",
    ];
    for text in accepted {
        assert_eq!(read_minute(text), noon, "{}", text);
    }
    let refused = [
        "",
        "2022-07-31T12:05:00",
        "2022-07-31T12:05:00.Z",
        "2022-07-31T12:05:00,5Z",
        "2022-07-31T12:05:61Z",
        "2022-07-31T12:60:00Z",
        "2022-07-31T24:05:00Z",
        "2022-07-32T12:05:00Z",
        "2022-00-31T12:05:00Z",
        "2022-06-31T12:05:00Z",
        "2022-07-31T12:05:00+24:00",
        "2022-07-31T12:05:00+08:60",
        "2022-07-31T12:05:00+0800",
        "2022-07-31T12:05:00+08",
        "2022-07-31T12:05:00 Z",
        "2022-07-31T12:05:00ZZ",
        "2022-07-31T12:05Z",
        "2022-07-31_12:05:00Z",
        "+2022-07-31T12:05:00Z",
        " 2022-07-31T12:05:00Z",
        "2022-7-31T12:05:00Z",
        "2022-07-31T12:05:00.\u{661}Z",
        "\u{662}022-07-31T12:05:00Z",
    ];
    for text in refused {
        assert_eq!(read_minute(text), None, "{}", text);
    }
}
