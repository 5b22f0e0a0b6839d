use prometheus_exposition_format_rs::parse_complete;
use prometheus_exposition_format_rs::types::{Metric, MetricType, Sample, Value};

fn finite(text: &str) -> Value {
    Value::Finite(text.to_string())
}

fn assert_metric(m: &Metric, name: &str, tpe: MetricType, samples: Vec<Sample>) {
    assert_eq!(m.name, name, "name {:?}", m);
    assert_eq!(m.data_type, tpe, "type {:?}", m);
    assert_eq!(m.samples, samples);
}

#[test]
fn test_parse_summary() {
    let res = parse_complete(
        r#"
# TYPE chain_account_commits summary
chain_account_commits{quantile="0.5"} 0

# TYPE chain_account_commits summary
chain_account_commits{quantile="0.75"} 123

# TYPE chain_account_commits summary
chain_account_commits{quantile="0.95"} 50
"#,
    )
    .unwrap();
    assert_eq!(res.len(), 1);
    assert_metric(
        &res[0],
        "chain_account_commits",
        MetricType::Summary,
        vec![
            Sample::new(finite("0"), Option::None, vec!["quantile", "0.5"]),
            Sample::new(finite("123"), Option::None, vec!["quantile", "0.75"]),
            Sample::new(finite("50"), Option::None, vec!["quantile", "0.95"]),
        ],
    );
}

#[test]
fn test_parse_complete() {
    let res = parse_complete(
        r#"
# HELP http_requests_total The total number of HTTP requests.
# TYPE http_requests_total counter
http_requests_total{method="post",code="200"} 1027 1395066363000
http_requests_total{method="post",code="400"} 1028 1395066363000

rpc_duration_seconds_count 2693
"#,
    )
    .unwrap();
    assert_eq!(res.len(), 2);
    assert_metric(
        &res[0],
        "http_requests_total",
        MetricType::Counter,
        vec![
            Sample::new(
                finite("1027"),
                Option::Some(1395066363000),
                vec!["method", "post", "code", "200"],
            ),
            Sample::new(
                finite("1028"),
                Option::Some(1395066363000),
                vec!["method", "post", "code", "400"],
            ),
        ],
    );
    assert_metric(
        &res[1],
        "rpc_duration_seconds_count",
        MetricType::Untyped,
        vec![Sample::new(finite("2693"), None, vec![])],
    );
}

#[test]
fn test_empty_input() {
    let res = parse_complete("").unwrap();
    assert_eq!(res.len(), 0);
}

#[test]
fn test_bare_name_fails_whole_call() {
    // a bare metric name with no value is no sample; the call fails
    // atomically and surfaces no partial metrics
    let res = parse_complete("metric_without_timestamp_and_labels\n");
    assert!(res.is_err());
    assert_eq!(
        res.unwrap_err().remainder().as_str(),
        "metric_without_timestamp_and_labels\n"
    );
}

#[test]
fn test_error_carries_remainder() {
    let res = parse_complete("good_metric 1\n}broken\ngood_again 2\n");
    assert!(res.is_err());
    assert_eq!(res.unwrap_err().remainder().as_str(), "}broken\ngood_again 2\n");
}

#[test]
fn test_unknown_type_keyword_is_no_type_declaration() {
    // the type-declaration grammar rejects the line; it degrades to a
    // generic comment and declares nothing
    let res = parse_complete("# TYPE x sometype\n").unwrap();
    assert_eq!(res.len(), 0);
}

#[test]
fn test_type_merge_idempotent_scenario() {
    let once = parse_complete("# TYPE x counter\nx 1\n").unwrap();
    let twice = parse_complete("# TYPE x counter\n# TYPE x counter\nx 1\n").unwrap();
    assert_eq!(once.len(), 1);
    assert_eq!(once[0].data_type, twice[0].data_type);
    assert_eq!(once[0].name, twice[0].name);
    assert_eq!(once[0].samples, twice[0].samples);
}

#[test]
fn test_type_last_write_wins() {
    let res = parse_complete("# TYPE x counter\nx 1\n# TYPE x gauge\n").unwrap();
    assert_eq!(res.len(), 1);
    assert_eq!(res[0].data_type, MetricType::Gauge);
    assert_eq!(res[0].samples.len(), 1);
}

#[test]
fn test_output_ordering() {
    // declared b, a, c in that order; the output is ordered by name
    let res = parse_complete("b 2\n# TYPE a gauge\nc 3\n").unwrap();
    assert_eq!(res.len(), 3);
    assert_eq!(res[0].name, "a");
    assert_eq!(res[1].name, "b");
    assert_eq!(res[2].name, "c");
}

#[test]
fn test_help_text_not_wired_to_metric() {
    // the grammar recognizes help declarations, but aggregation does not
    // yet route the text into the record
    let res = parse_complete("# HELP m some description\nm 1\n").unwrap();
    assert_eq!(res.len(), 1);
    assert_eq!(res[0].help, None);
}

#[test]
fn test_blank_lines_and_comments_ignored() {
    let res = parse_complete("\n   \n# just a comment\n\t\nm 1\n").unwrap();
    assert_eq!(res.len(), 1);
    assert_eq!(res[0].name, "m");
}

#[test]
fn test_special_values_survive_aggregation() {
    let res = parse_complete("m NaN\nm +Inf\nm -Inf\n").unwrap();
    assert_eq!(res.len(), 1);
    assert_eq!(res[0].samples.len(), 3);
    assert!(res[0].samples[0].value.is_nan());
    assert_eq!(res[0].samples[1].value, Value::PosInf);
    assert_eq!(res[0].samples[2].value, Value::NegInf);
}

#[test]
fn test_escaping_round_trip_through_parse() {
    let res = parse_complete("m{path=\"C:\\\\DIR\\\\FILE.TXT\",note=\"\\n\"} 1\n").unwrap();
    assert_eq!(res.len(), 1);
    let labels = &res[0].samples[0].labels;
    assert_eq!(labels.get("path"), Some(&"C:\\DIR\\FILE.TXT".to_string()));
    assert_eq!(labels.get("note"), Some(&"\n".to_string()));
}
