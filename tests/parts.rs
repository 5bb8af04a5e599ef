use tzt::extract::{find_last, parse_i64};
use tzt::template::{render_template, split_path, template_is_valid, Segment};

#[test]
fn split_path_gives_parts() {
    assert_eq!(split_path("/pets/7"), vec!["pets".to_string(), "7".to_string()]);
    assert_eq!(split_path("/"), vec!["".to_string()]);
    assert_eq!(split_path("/a//b/"), vec!["a".to_string(), "".to_string(), "b".to_string(), "".to_string()]);
}

#[test]
fn render_writes_captures_in_braces() {
    let t = vec![Segment::Literal("pets".to_string()), Segment::Capture("id".to_string())];
    assert_eq!(render_template(&t), "/pets/{id}");
    assert!(template_is_valid(&t));
}

#[test]
fn parse_i64_reads_decimal_integers() {
    assert_eq!(parse_i64("0"), Some(0));
    assert_eq!(parse_i64("+15"), Some(15));
    assert_eq!(parse_i64("-9223372036854775808"), Some(i64::MIN));
    assert_eq!(parse_i64("9223372036854775807"), Some(i64::MAX));
    assert_eq!(parse_i64("9223372036854775808"), None);
    assert_eq!(parse_i64(""), None);
    assert_eq!(parse_i64("-"), None);
    assert_eq!(parse_i64("12a"), None);
    assert_eq!(parse_i64("99999999999999999999999"), None);
}

#[test]
fn find_last_prefers_later_pairs() {
    let pairs = vec![
        ("k".to_string(), "1".to_string()),
        ("j".to_string(), "2".to_string()),
        ("k".to_string(), "3".to_string()),
    ];
    assert_eq!(find_last(&pairs, &"k".to_string()), Some("3".to_string()));
    assert_eq!(find_last(&pairs, &"j".to_string()), Some("2".to_string()));
    assert_eq!(find_last(&pairs, &"z".to_string()), None);
}
