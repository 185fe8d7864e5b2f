use cloudmon_metrics::dict::Dict;
use cloudmon_metrics::template::render_query;

fn vars(list: &[(&str, &str)]) -> Dict<String> {
    let mut dict = Dict::new();
    for (name, value) in list {
        dict.insert(name.to_string(), value.to_string());
    }
    dict
}

fn rendered(text: &str, list: &[(&str, &str)]) -> Option<String> {
    render_query(text, &vars(list))
}

#[test]
fn template_variables_run_up_to_the_next_dot() {
    assert_eq!(
        rendered("stats.$env.$service.count", &[("env", "prod"), ("service", "api")]),
        Some("stats.prod.api.count".to_string())
    );
    assert_eq!(
        rendered("stats.$env", &[("env", "prod")]),
        Some("stats.prod".to_string())
    );
}

#[test]
fn template_names_take_in_everything_but_dots() {
    assert_eq!(
        rendered("sum($a b,$c).x", &[("a b,$c)", "v")]),
        Some("sum(v.x".to_string())
    );
    assert_eq!(rendered("$a\nb.c", &[("a\nb", "v")]), Some("v.c".to_string()));
    assert_eq!(rendered("$é.c", &[("é", "ü")]), Some("ü.c".to_string()));
}

#[test]
fn template_names_are_case_sensitive() {
    assert_eq!(rendered("$Env.x", &[("env", "prod")]), None);
    assert_eq!(
        rendered("$Env.x", &[("env", "prod"), ("Env", "test")]),
        Some("test.x".to_string())
    );
}

#[test]
fn template_dollar_signs_without_a_name_stay() {
    assert_eq!(rendered("a.$", &[]), Some("a.$".to_string()));
    assert_eq!(rendered("a$.b", &[("b", "v")]), Some("a$.b".to_string()));
    assert_eq!(rendered("$", &[("", "v")]), Some("$".to_string()));
    assert_eq!(rendered("$$.a", &[("$", "v")]), Some("v.a".to_string()));
}

#[test]
fn template_without_variables_is_unchanged() {
    assert_eq!(rendered("", &[]), Some(String::new()));
    assert_eq!(
        rendered("a.{b}.c", &[("b", "v")]),
        Some("a.{b}.c".to_string())
    );
}

#[test]
fn template_missing_variable_gives_nothing() {
    assert_eq!(rendered("a.$b.$c", &[("b", "v")]), None);
    assert_eq!(rendered("a.$b", &[]), None);
}

#[test]
fn template_values_are_not_read_again() {
    assert_eq!(
        rendered("$a.$b", &[("a", "$b"), ("b", "x.$a")]),
        Some("$b.x.$a".to_string())
    );
}
