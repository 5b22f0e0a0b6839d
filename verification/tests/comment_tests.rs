use prometheus_exposition_format_rs::comment::{
    comment_parser, help_parser, other_comment_parser, type_parser, CommentType,
};
use prometheus_exposition_format_rs::types::MetricType;

fn chars(s: &str) -> usize {
    s.chars().count()
}

#[test]
fn test_type_parser() {
    let s = "# TYPE http_request_duration_seconds histogram\n";
    assert_eq!(
        type_parser(s, 0),
        Some((
            ("http_request_duration_seconds".to_string(), MetricType::Histogram),
            chars(s)
        ))
    );
    let s = "# TYPE http_request_duration_seconds\n";
    assert_eq!(
        type_parser(s, 0),
        Some((
            ("http_request_duration_seconds".to_string(), MetricType::Untyped),
            chars(s)
        ))
    );
    let s = "# TYPE http_request_duration_seconds   \n";
    assert_eq!(
        type_parser(s, 0),
        Some((
            ("http_request_duration_seconds".to_string(), MetricType::Untyped),
            chars(s)
        ))
    );
    let s = "# TYPE http_request_duration_seconds   \nfoo";
    assert_eq!(
        type_parser(s, 0),
        Some((
            ("http_request_duration_seconds".to_string(), MetricType::Untyped),
            chars(s) - chars("foo")
        ))
    );
    let s = "# TYPE http_request_duration_seconds   summary\n";
    assert_eq!(
        type_parser(s, 0),
        Some((
            ("http_request_duration_seconds".to_string(), MetricType::Summary),
            chars(s)
        ))
    );
    assert_eq!(
        type_parser("# TYPE http_request_duration_seconds sometype\n", 0),
        None
    );
}

#[test]
fn test_other_comment_parser() {
    let s = "# TYPE http_request_duration_seconds histogram\n";
    assert_eq!(other_comment_parser(s, 0), Some(chars(s)));
    let s = "# TYPE http_request_duration_seconds histogram\nfoo";
    assert_eq!(other_comment_parser(s, 0), Some(chars(s) - chars("foo")));
    let s = "#This is a comment and we don't care about it\n";
    assert_eq!(other_comment_parser(s, 0), Some(chars(s)));
    assert_eq!(other_comment_parser("foo bar\n", 0), None);
}

#[test]
fn test_help_parser() {
    assert_eq!(
        help_parser("# TYPE http_request_duration_seconds histogram\n", 0),
        None
    );
    let s = "# HELP http_request_duration_seconds histogram\nfoo";
    assert_eq!(
        help_parser(s, 0),
        Some((
            "http_request_duration_seconds histogram".to_string(),
            chars(s) - chars("foo")
        ))
    );
    assert_eq!(
        help_parser("# This is a comment and we don't care about it\n", 0),
        None
    );
}

#[test]
fn test_comment_parser() {
    assert_eq!(comment_parser("_TYPE histogram\n", 0), None);
    let s = "# http_request_duration_seconds histogram\n";
    assert_eq!(comment_parser(s, 0), Some((CommentType::Other, chars(s))));
    let s = "# HELP some info\n";
    assert_eq!(
        comment_parser(s, 0),
        Some((CommentType::Help("some info".to_string()), chars(s)))
    );
    let s = "# TYPE http_request_duration_seconds histogram\n";
    assert_eq!(
        comment_parser(s, 0),
        Some((
            CommentType::Type(
                "http_request_duration_seconds".to_string(),
                MetricType::Histogram
            ),
            chars(s)
        ))
    );
}

#[test]
fn test_comment_requires_bare_line_feed() {
    // the comment grammar closes with a bare line feed, not a CRLF pair
    assert_eq!(comment_parser("# comment\r\n", 0), None);
}
