use prometheus_exposition_format_rs::common::{empty_line_parser, token_parser};
use prometheus_exposition_format_rs::samples::{
    labels_parser, parse_sample, tag_value_parser, timestamp_parser, value_parser, vec_to_hashmap,
    SampleEntry,
};
use prometheus_exposition_format_rs::types::{Labels, Value};

fn chars(s: &str) -> usize {
    s.chars().count()
}

fn value_f64(v: &Value) -> f64 {
    match v {
        Value::Nan => f64::NAN,
        Value::PosInf => f64::INFINITY,
        Value::NegInf => f64::NEG_INFINITY,
        Value::Finite(text) => text.parse::<f64>().unwrap(),
    }
}

#[test]
fn test_token_parser() {
    let ok_token = |val: &str| {
        assert_eq!(token_parser(val, 0), Some((val.to_string(), chars(val))));
    };
    ok_token("abc_roo");
    ok_token("http_requests_total");
    ok_token("http_request_duration_seconds_bucket");
    ok_token("__http_request_duration_seconds_bucket");
    ok_token("rpc_duration_seconds_count");
    ok_token("foo_0:3");
    ok_token(":foo");
    assert_eq!(token_parser("33", 0), None);
    assert_eq!(token_parser(")3", 0), None);
    assert_eq!(token_parser("a(", 0), Some(("a".to_string(), 1)));
}

#[test]
fn test_empty_line_parser() {
    assert_eq!(empty_line_parser("      \n", 0), Some(7));
    assert_eq!(empty_line_parser("\t\n", 0), Some(2));
    assert_eq!(empty_line_parser(" \t \n", 0), Some(4));
    // only the first blank line is consumed
    assert_eq!(empty_line_parser("      \n     \n", 0), Some(7));
    assert_eq!(empty_line_parser("      ", 0), None);
}

#[test]
fn test_timestamp_parser() {
    assert_eq!(timestamp_parser("", 0), None);
    assert_eq!(timestamp_parser("foobar", 0), None);
    assert_eq!(timestamp_parser("1234", 0), Some((1234, 4)));
    assert_eq!(timestamp_parser("1234 foo", 0), Some((1234, 4)));
    assert_eq!(timestamp_parser("-1234 foo", 0), Some((-1234, 5)));
}

#[test]
fn test_timestamp_parser_range() {
    assert_eq!(
        timestamp_parser("9223372036854775807", 0),
        Some((i64::MAX, 19))
    );
    assert_eq!(timestamp_parser("9223372036854775808", 0), None);
    assert_eq!(
        timestamp_parser("-9223372036854775808", 0),
        Some((i64::MIN, 20))
    );
    assert_eq!(timestamp_parser("-9223372036854775809", 0), None);
    assert_eq!(timestamp_parser("+42", 0), Some((42, 3)));
}

#[test]
fn test_tag_value_parser() {
    // Empty string
    assert_eq!(tag_value_parser("\"\"", 0), Some(("".to_string(), 2)));
    // Simple string
    assert_eq!(tag_value_parser("\"abc\"", 0), Some(("abc".to_string(), 5)));
    // Doesn't consume trailing
    assert_eq!(
        tag_value_parser("\"abc\"aa", 0),
        Some(("abc".to_string(), 5))
    );
    // Unescapes escaped "
    assert_eq!(tag_value_parser("\"\\\"\"", 0), Some(("\"".to_string(), 4)));
    // Unescapes escaped line break
    assert_eq!(tag_value_parser("\"\\n\"", 0), Some(("\n".to_string(), 4)));
    // Unescapes escaped \
    assert_eq!(tag_value_parser("\"\\\\\"", 0), Some(("\\".to_string(), 4)));
    // Fails with unescaped line break
    assert_eq!(tag_value_parser("\"\n\"", 0), None);
    // Complex value from the doc
    let s = "\"C:\\\\DIR\\\\FILE.TXT\"";
    assert_eq!(
        tag_value_parser(s, 0),
        Some(("C:\\DIR\\FILE.TXT".to_string(), chars(s)))
    );
    // Complex value from the doc
    let s = "\"Cannot find file:\\n\\\"FILE.TXT\\\"\"";
    assert_eq!(
        tag_value_parser(s, 0),
        Some(("Cannot find file:\n\"FILE.TXT\"".to_string(), chars(s)))
    );
}

#[test]
fn test_labels_parser() {
    let assert_labels = |s: &str, vec: Vec<(&str, &str)>| {
        assert_eq!(labels_parser(s, 0), (vec_to_hashmap(vec), chars(s)));
    };

    // Empty labels
    assert_eq!(labels_parser("{}", 0), (Labels::new(), 2));
    // Empty string
    assert_eq!(labels_parser("", 0), (Labels::new(), 0));
    // Prefixed: consumes nothing
    assert_eq!(labels_parser("d{}", 0), (Labels::new(), 0));
    // No quotes on label: consumes nothing
    assert_eq!(labels_parser("{he=e}", 0), (Labels::new(), 0));
    // A simple label
    assert_labels("{hello=\"how are you?\"}", vec![("hello", "how are you?")]);
    // Multiple labels
    assert_labels("{a=\"b\",c=\"d\"}", vec![("a", "b"), ("c", "d")]);
    // When there's a trailing comma
    assert_labels("{a=\"b\",c=\"d\",}", vec![("a", "b"), ("c", "d")]);
}

#[test]
fn test_labels_parser_duplicate_key_last_wins() {
    let (labels, consumed) = labels_parser("{a=\"1\",a=\"2\"}", 0);
    assert_eq!(consumed, 13);
    assert_eq!(labels.len(), 1);
    assert_eq!(labels.get("a"), Some(&"2".to_string()));
}

#[test]
fn test_value_parser() {
    assert_eq!(
        value_parser("1027", 0),
        Some((Value::Finite("1027".to_string()), 4))
    );
    assert_eq!(
        value_parser("1027 ee", 0),
        Some((Value::Finite("1027".to_string()), 4))
    );
    assert_eq!(
        value_parser("1027\nee", 0),
        Some((Value::Finite("1027".to_string()), 4))
    );
    assert_eq!(value_parser("ee", 0), None);
    assert_eq!(value_parser("+Inf", 0), Some((Value::PosInf, 4)));
    assert_eq!(value_parser("-Inf", 0), Some((Value::NegInf, 4)));
    assert!(value_parser("NaN", 0).unwrap().0.is_nan());
    assert!(value_f64(&value_parser("NaN", 0).unwrap().0).is_nan());
    assert_eq!(value_f64(&value_parser("+Inf", 0).unwrap().0), f64::INFINITY);
    assert_eq!(
        value_f64(&value_parser("-Inf", 0).unwrap().0),
        f64::NEG_INFINITY
    );
    assert!((value_f64(&value_parser("2.00", 0).unwrap().0) - 2f64).abs() < 1.0e-6);
    assert!((value_f64(&value_parser("1e-3", 0).unwrap().0) - 0.001).abs() < 1.0e-6);
    assert!(
        (value_f64(&value_parser("123.3412312312", 0).unwrap().0) - 123.3412312312).abs() < 1.0e-6
    );
    assert!(
        (value_f64(&value_parser("1.458255915e9", 0).unwrap().0) - 1.458255915e9).abs() < 1.0e-6
    );
}

fn assert_sample(
    res: SampleEntry,
    name: &str,
    labels: Vec<(&str, &str)>,
    value: f64,
    timestamp: Option<i64>,
) {
    assert_eq!(res.name, name.to_string(), "sample name is different {:?}", res);
    assert_eq!(
        res.labels,
        vec_to_hashmap(labels),
        "labels are different {:?}",
        res
    );

    // Ensure we have similar floats considering the extremes and a good epsilon
    let actual = value_f64(&res.value);
    assert!(
        actual.is_sign_positive() == value.is_sign_positive()
            && actual.is_infinite() == value.is_infinite()
            && actual.is_nan() == value.is_nan(),
        "float non similar actual:{} expected:{}",
        actual,
        value
    );
    if value.is_finite() {
        assert!((actual - value).abs() < 1.0e-6);
    }
    assert_eq!(res.timestamp_ms, timestamp, "Timestamps differ {:?}", res);
}

fn assert_sample_parser(
    s: &str,
    left: &str,
    name: &str,
    labels: Vec<(&str, &str)>,
    value: f64,
    timestamp: Option<i64>,
) {
    let res = parse_sample(s, 0);
    assert!(res.is_some(), "{:?}", res);
    let (entry, consumed) = res.unwrap();
    assert_eq!(chars(s) - consumed, chars(left), "Not the same left string");
    assert_sample(entry, name, labels, value, timestamp);
}

#[test]
fn test_parse_sample_parser() {
    assert_sample_parser(
        "http_requests_total{method=\"post\",code=\"200\"} 1027 1395066363000\n",
        "",
        "http_requests_total",
        vec![("method", "post"), ("code", "200")],
        1027f64,
        Option::Some(1395066363000i64),
    );
    assert_sample_parser(
        "http_requests_total{method=\"post\",code=\"400\"}    3 1395066363000\n",
        "",
        "http_requests_total",
        vec![("method", "post"), ("code", "400")],
        3f64,
        Option::Some(1395066363000i64),
    );
    assert_sample_parser("msdos_file_access_time_seconds{path=\"C:\\\\DIR\\\\FILE.TXT\",error=\"Cannot find file:\\n\\\"FILE.TXT\\\"\"} 1.458255915e9\n", "",
                    "msdos_file_access_time_seconds", vec![("path", "C:\\DIR\\FILE.TXT"), ("error", "Cannot find file:\n\"FILE.TXT\"")], 1.458255915e9, None);
    assert_sample_parser(
        "metric_without_timestamp_and_labels 12.47\n",
        "",
        "metric_without_timestamp_and_labels",
        vec![],
        12.47,
        None,
    );
    assert_sample_parser(
        "something_weird{problem=\"division by zero\"} +Inf -3982045\n",
        "",
        "something_weird",
        vec![("problem", "division by zero")],
        f64::INFINITY,
        Some(-3982045),
    );
    assert_sample_parser(
        "http_request_duration_seconds_bucket{le=\"0.05\"} 24054\n",
        "",
        "http_request_duration_seconds_bucket",
        vec![("le", "0.05")],
        24054f64,
        None,
    );
    assert_sample_parser(
        "http_request_duration_seconds_bucket{le=\"0.1\"} 33444\n",
        "",
        "http_request_duration_seconds_bucket",
        vec![("le", "0.1")],
        33444f64,
        None,
    );
    assert_sample_parser(
        "http_request_duration_seconds_bucket{le=\"0.2\"} 100392\n",
        "",
        "http_request_duration_seconds_bucket",
        vec![("le", "0.2")],
        100392f64,
        None,
    );
    assert_sample_parser(
        "http_request_duration_seconds_bucket{le=\"0.5\"} 129389\n",
        "",
        "http_request_duration_seconds_bucket",
        vec![("le", "0.5")],
        129389f64,
        None,
    );
    assert_sample_parser(
        "http_request_duration_seconds_bucket{le=\"1\"} 133988\n",
        "",
        "http_request_duration_seconds_bucket",
        vec![("le", "1")],
        133988f64,
        None,
    );
    assert_sample_parser(
        "http_request_duration_seconds_bucket{le=\"+Inf\"} 144320\n",
        "",
        "http_request_duration_seconds_bucket",
        vec![("le", "+Inf")],
        144320f64,
        None,
    );
    assert_sample_parser(
        "http_request_duration_seconds_sum 53423\n",
        "",
        "http_request_duration_seconds_sum",
        vec![],
        53423f64,
        None,
    );
    assert_sample_parser(
        "http_request_duration_seconds_count 144320\n",
        "",
        "http_request_duration_seconds_count",
        vec![],
        144320f64,
        None,
    );
    assert_sample_parser(
        "rpc_duration_seconds{quantile=\"0.01\"} 3102\n",
        "",
        "rpc_duration_seconds",
        vec![("quantile", "0.01")],
        3102f64,
        None,
    );
    assert_sample_parser(
        "rpc_duration_seconds{quantile=\"0.05\"} 3272\n",
        "",
        "rpc_duration_seconds",
        vec![("quantile", "0.05")],
        3272f64,
        None,
    );
    assert_sample_parser(
        "rpc_duration_seconds{quantile=\"0.5\"} 4773\n",
        "",
        "rpc_duration_seconds",
        vec![("quantile", "0.5")],
        4773f64,
        None,
    );
    assert_sample_parser(
        "rpc_duration_seconds{quantile=\"0.9\"} 9001\n",
        "",
        "rpc_duration_seconds",
        vec![("quantile", "0.9")],
        9001f64,
        None,
    );
    assert_sample_parser(
        "rpc_duration_seconds{quantile=\"0.99\"} 76656\n",
        "",
        "rpc_duration_seconds",
        vec![("quantile", "0.99")],
        76656f64,
        None,
    );
    assert_sample_parser(
        "rpc_duration_seconds_sum 1.7560473e+07\n",
        "",
        "rpc_duration_seconds_sum",
        vec![],
        1.7560473e+07,
        None,
    );
    assert_sample_parser(
        "rpc_duration_seconds_count 2693\n",
        "",
        "rpc_duration_seconds_count",
        vec![],
        2693f64,
        None,
    );

    // With trailing characters
    assert_sample_parser(
        "rpc_duration_seconds_count 2693\nfoo",
        "foo",
        "rpc_duration_seconds_count",
        vec![],
        2693f64,
        None,
    );

    // Fails when there's just a metric name
    assert_eq!(parse_sample("metric_without_timestamp_and_labels\n", 0), None);
    // Fails when no space
    assert_eq!(parse_sample("metric_without_timestamp_and_labels1234\n", 0), None);
    // Fails when no line break
    assert_eq!(parse_sample("metric_without_timestamp_and_labels 1234", 0), None);
}

#[test]
fn test_crlf_line_endings() {
    // the value run swallows a carriage return, so a CRLF-ended sample
    // line is no sample
    assert_eq!(parse_sample("m 1\r\n", 0), None);
    // a blank line accepts CRLF
    assert_eq!(empty_line_parser(" \r\n", 0), Some(3));
}
