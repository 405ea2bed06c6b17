use std::cmp::Ordering;

use frontmatter_csv::date::Date;
use frontmatter_csv::node::Node;

fn mapping(entries: Vec<(Node, Node)>) -> Node {
    Node::Mapping(entries)
}

fn key(s: &str) -> Node {
    Node::Str(s.to_string())
}

#[test]
fn test_date_from_yaml_number() {
    let yml = mapping(vec![(key("date"), Node::Integer(210820))]);
    let date = Date::from_yaml(&yml).unwrap();
    assert_eq!(date.year, 21);
    assert_eq!(date.month, 8);
    assert_eq!(date.day, 20);
}

#[test]
fn test_date_from_yaml_string() {
    let yml = mapping(vec![(key("date"), Node::Str("210820".to_string()))]);
    let date = Date::from_yaml(&yml).unwrap();
    assert_eq!(date.year, 21);
    assert_eq!(date.month, 8);
    assert_eq!(date.day, 20);
}

#[test]
fn test_date_from_yaml_absent() {
    let yml = mapping(vec![(key("something"), Node::Str("else".to_string()))]);
    let date = Date::from_yaml(&yml);
    assert!(date.is_none());
}

#[test]
fn test_date_from_yaml_bad() {
    let yml = mapping(vec![(key("date"), Node::Str("bad".to_string()))]);
    let date = Date::from_yaml(&yml);
    assert!(date.is_none());
}

#[test]
fn test_date_from_yaml_overflow_string() {
    let yml = mapping(vec![(key("date"), Node::Str("99999999999999999999".to_string()))]);
    let date = Date::from_yaml(&yml);
    assert!(date.is_none());
}

#[test]
fn test_date_from_yaml_signed_string() {
    let yml = mapping(vec![(key("date"), Node::Str("+210820".to_string()))]);
    let date = Date::from_yaml(&yml).unwrap();
    assert_eq!(date.year, 21);
    assert_eq!(date.month, 8);
    assert_eq!(date.day, 20);
}

#[test]
fn test_date_from_filename_good() {
    let filename = "210820.md";
    let date = Date::from_filename(&filename).unwrap();
    assert_eq!(date.year, 21);
    assert_eq!(date.month, 8);
    assert_eq!(date.day, 20);
}

#[test]
fn test_date_from_filename_bad() {
    let filename = "120-bad-file.md";
    let date = Date::from_filename(&filename);
    assert!(date.is_none());
}

#[test]
fn test_date_from_filename_fallback_name() {
    let date = Date::from_filename("210820-post.md").unwrap();
    assert_eq!(date.year, 21);
    assert_eq!(date.month, 8);
    assert_eq!(date.day, 20);
}

#[test]
fn test_date_canonical_string_padded() {
    let d = Date::from_i64(10203);
    assert_eq!(d.to_string(), "010203");
    let d = Date::from_i64(0);
    assert_eq!(d.to_string(), "000000");
    let d = Date::from_i64(999999);
    assert_eq!(d.to_string(), "999999");
    let d = Date::from_i64(210820);
    assert_eq!(d.to_string(), "210820");
}

#[test]
fn test_date_cmp_ordering() {
    let a = Date { year: 21, month: 7, day: 20 };
    let b = Date { year: 21, month: 7, day: 20 };
    assert_eq!(a.cmp(&b), Ordering::Equal);
    let later_day = Date { year: 21, month: 7, day: 21 };
    assert_eq!(a.cmp(&later_day), Ordering::Less);
    assert_eq!(later_day.cmp(&a), Ordering::Greater);
    let later_month = Date { year: 21, month: 8, day: 1 };
    assert_eq!(later_day.cmp(&later_month), Ordering::Less);
    let later_year = Date { year: 22, month: 1, day: 1 };
    assert_eq!(later_month.cmp(&later_year), Ordering::Less);
}
