use frontmatter_csv::csv_processor::condense_keys;
use frontmatter_csv::csv_processor::process_batch;
use frontmatter_csv::csv_processor::process_frontmatters;
use frontmatter_csv::csv_processor::render;
use frontmatter_csv::csv_processor::sort_by_date;
use frontmatter_csv::csv_processor::to_csv;
use frontmatter_csv::date::Date;
use frontmatter_csv::frontmatter::Frontmatter;
use frontmatter_csv::frontmatter::resolve_date;
use frontmatter_csv::node::flatten_yaml;
use frontmatter_csv::node::yaml_to_string;
use frontmatter_csv::node::Node;
use frontmatter_csv::record::kv_to_hash;
use frontmatter_csv::record::FlatRecord;

fn key(s: &str) -> Node {
    Node::Str(s.to_string())
}

fn record(pairs: Vec<(&str, &str)>) -> FlatRecord {
    let owned: Vec<(String, String)> =
        pairs.into_iter().map(|(k, v)| (k.to_string(), v.to_string())).collect();
    kv_to_hash(owned)
}

#[test]
fn test_condense_keys() {
    let h1 = record(vec![("k1", "v1"), ("k2", "v2")]);
    let h2 = record(vec![("k1", "v1"), ("k3", "v3")]);

    let keys = condense_keys(&vec![h1, h2]);

    assert_eq!(keys.len(), 3);
    assert!(keys.contains(&"k1".to_string()));
    assert!(keys.contains(&"k2".to_string()));
    assert!(keys.contains(&"k3".to_string()));
}

#[test]
fn test_condense_keys_alphabetical() {
    let h1 = record(vec![("k2", "a"), ("k1", "b")]);
    let h2 = record(vec![("k3", "c"), ("k1", "d")]);
    let keys = condense_keys(&vec![h1, h2]);
    assert_eq!(keys, vec!["k1".to_string(), "k2".to_string(), "k3".to_string()]);
}

#[test]
fn test_condense_keys_date_first() {
    let h1 = record(vec![("alpha", "a"), ("date", "210101")]);
    let h2 = record(vec![("zeta", "z")]);
    let keys = condense_keys(&vec![h1, h2]);
    assert_eq!(keys, vec!["date".to_string(), "alpha".to_string(), "zeta".to_string()]);
}

#[test]
fn test_flatten_nested_mapping() {
    let yml = Node::Mapping(vec![
        (key("a"), Node::Integer(1)),
        (
            key("b"),
            Node::Mapping(vec![(key("c"), Node::Integer(2)), (key("d"), Node::Integer(3))]),
        ),
    ]);
    let pairs = flatten_yaml(None, &yml).unwrap();
    assert_eq!(pairs.len(), 3);
    assert!(pairs.contains(&("a".to_string(), "1".to_string())));
    assert!(pairs.contains(&("b__c".to_string(), "2".to_string())));
    assert!(pairs.contains(&("b__d".to_string(), "3".to_string())));
}

#[test]
fn test_flatten_non_mapping_root() {
    assert!(flatten_yaml(None, &Node::Integer(5)).is_none());
    assert!(flatten_yaml(None, &Node::Sequence(vec![Node::Integer(1)])).is_none());
    assert!(flatten_yaml(None, &Node::Str("scalar".to_string())).is_none());
}

#[test]
fn test_flatten_skips_non_text_keys() {
    let yml = Node::Mapping(vec![
        (Node::Integer(7), Node::Integer(1)),
        (key("b"), Node::Integer(2)),
    ]);
    let pairs = flatten_yaml(None, &yml).unwrap();
    assert_eq!(pairs, vec![("b".to_string(), "2".to_string())]);
}

#[test]
fn test_leaf_stringification() {
    assert_eq!(yaml_to_string(&Node::Boolean(true)), "true");
    assert_eq!(yaml_to_string(&Node::Boolean(false)), "false");
    assert_eq!(yaml_to_string(&Node::Integer(-5)), "-5");
    assert_eq!(yaml_to_string(&Node::Real("4.6".to_string())), "4.6");
    assert_eq!(yaml_to_string(&Node::Other), "todo");
    let seq = Node::Sequence(vec![
        Node::Integer(1),
        Node::Str("x".to_string()),
        Node::Boolean(true),
    ]);
    assert_eq!(yaml_to_string(&seq), "1xtrue");
}

#[test]
fn test_render_missing_values_blank() {
    let r1 = record(vec![("date", "210101"), ("a", "x")]);
    let r2 = record(vec![("date", "210102"), ("b", "y")]);
    let columns = vec!["date".to_string(), "a".to_string(), "b".to_string()];
    let out = render(&vec![r1, r2], &columns);
    assert_eq!(out, "date,a,b\n210101,x,\n210102,,y");
}

#[test]
fn test_resolve_date_filename_fallback() {
    let yml = Node::Mapping(vec![(key("title"), Node::Str("post".to_string()))]);
    let d = resolve_date(&yml, "210820-post.md").unwrap();
    assert_eq!(d.year, 21);
    assert_eq!(d.month, 8);
    assert_eq!(d.day, 20);
}

#[test]
fn test_resolve_date_field_precedence() {
    let yml = Node::Mapping(vec![(key("date"), Node::Integer(210101))]);
    let d = resolve_date(&yml, "210820-post.md").unwrap();
    assert_eq!(d.year, 21);
    assert_eq!(d.month, 1);
    assert_eq!(d.day, 1);
}

#[test]
fn test_resolve_date_unusable_everywhere() {
    let yml = Node::Mapping(vec![(key("date"), Node::Str("bad".to_string()))]);
    assert!(resolve_date(&yml, "nodate.md").is_none());
}

#[test]
fn test_date_field_overwrites_flattened_key() {
    let fm = Frontmatter {
        path: "p".to_string(),
        yaml: Node::Mapping(vec![(key("date"), Node::Integer(999999))]),
        date: Date { year: 1, month: 2, day: 3 },
    };
    let (records, keys) = process_frontmatters(&vec![fm]);
    assert_eq!(keys, vec!["date".to_string()]);
    let out = render(&records, &keys);
    assert_eq!(out, "date\n010203");
}

#[test]
fn test_to_csv_drops_non_mapping_documents() {
    let kept = Frontmatter {
        path: "kept".to_string(),
        yaml: Node::Mapping(vec![(key("a"), Node::Integer(1))]),
        date: Date { year: 21, month: 1, day: 1 },
    };
    let dropped = Frontmatter {
        path: "dropped".to_string(),
        yaml: Node::Str("scalar".to_string()),
        date: Date { year: 21, month: 1, day: 2 },
    };
    let out = to_csv(&vec![kept, dropped]);
    assert_eq!(out, "date,a\n210101,1");
}

#[test]
fn test_sort_by_date_ascending() {
    let mk = |n: i64| Frontmatter {
        path: String::new(),
        yaml: Node::Mapping(vec![]),
        date: Date::from_i64(n),
    };
    let sorted = sort_by_date(vec![mk(210301), mk(200101), mk(210102)]);
    let dates: Vec<String> = sorted.iter().map(|f| f.date.to_string()).collect();
    assert_eq!(dates, vec!["200101".to_string(), "210102".to_string(), "210301".to_string()]);
}

#[test]
fn test_process_batch_end_to_end() {
    let doc1 = Node::Mapping(vec![
        (key("date"), Node::Integer(210720)),
        (
            key("running"),
            Node::Mapping(vec![(key("distance"), Node::Real("4.6".to_string()))]),
        ),
    ]);
    let doc2 = Node::Mapping(vec![(key("tag"), Node::Str("x".to_string()))]);
    let out = process_batch(vec![
        (doc1, "doc1.md".to_string(), "doc1.md".to_string()),
        (doc2, "210601.md".to_string(), "210601.md".to_string()),
    ]);
    assert_eq!(out, "date,running__distance,tag\n210601,,x\n210720,4.6,");
}

#[test]
fn test_process_batch_drops_undatable_documents() {
    let doc = Node::Mapping(vec![(key("tag"), Node::Str("x".to_string()))]);
    let out = process_batch(vec![(doc, "notes.md".to_string(), "notes.md".to_string())]);
    assert_eq!(out, "\n");
}

#[test]
fn test_record_lookup_last_write_wins() {
    let mut r = record(vec![("k", "old")]);
    r.insert("k".to_string(), "new".to_string());
    assert_eq!(r.get("k").unwrap(), "new");
    assert!(r.get("missing").is_none());
}

#[test]
fn test_extract_frontmatter() {
    let md = "---\ndate: 210720\nrunning:\n  distance: 4.6\n  time: \"32:45\"\n---\nBody text\n";
    let expected = "date: 210720\nrunning:\n  distance: 4.6\n  time: \"32:45\"";
    assert_eq!(Frontmatter::extract_from_md(md).unwrap(), expected);
}

#[test]
fn test_extract_frontmatter_absent() {
    assert!(Frontmatter::extract_from_md("no frontmatter here").is_none());
    assert!(Frontmatter::extract_from_md("---\nunclosed").is_none());
    assert!(Frontmatter::extract_from_md("").is_none());
}

#[test]
fn test_extract_frontmatter_reaches_last_fence() {
    let md = "---\na: 1\n---\nmore\n---\ntail\n";
    assert_eq!(Frontmatter::extract_from_md(md).unwrap(), "a: 1\n---\nmore");
}

#[test]
fn test_extract_frontmatter_carriage_returns() {
    // the greedy capture reaches the bare newline of the closing fence,
    // so the carriage return before it stays inside the block
    let md = "---\r\na: 1\r\n---\r\nbody";
    assert_eq!(Frontmatter::extract_from_md(md).unwrap(), "a: 1\r");
}
