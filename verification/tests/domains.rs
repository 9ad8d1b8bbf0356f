use lgenerator::data::parser::{domain_base_hue, domain_hue, parse_input_json, rank_domains};

fn names(ds: &[lgenerator::data::parser::DomainData]) -> Vec<&str> {
    ds.iter().map(|d| d.name.as_str()).collect()
}

#[test]
fn domain_hue_hashes_name_bytes() {
    assert_eq!(domain_hue(""), 0);
    assert_eq!(domain_hue("a"), 97);
    assert_eq!(domain_hue("ab"), 225);
    assert_eq!(domain_hue("github.com"), 94);
    assert_eq!(domain_hue("youtube.com"), 350);
    assert_eq!(domain_hue("stackoverflow.com"), 237);
    assert_eq!(domain_hue("zażółć"), 206);
}

#[test]
fn base_hues_cycle_through_table() {
    let hues: Vec<u32> = (0..9).map(domain_base_hue).collect();
    assert_eq!(hues, vec![110, 45, 140, 75, 165, 90, 30, 110, 45]);
}

#[test]
fn rank_orders_by_seconds_and_cuts() {
    let entries = vec![
        ("a.com".to_string(), 100),
        ("b.com".to_string(), 300),
        ("c.com".to_string(), 200),
    ];
    let ranked = rank_domains(&entries, 2);
    assert_eq!(names(&ranked), vec!["b.com", "c.com"]);
    assert_eq!(ranked[0].seconds, 300);
    assert_eq!(ranked[1].hue, domain_hue("c.com"));
    assert_eq!(rank_domains(&entries, 10).len(), 3);
    assert_eq!(rank_domains(&entries, 0).len(), 0);
}

#[test]
fn rank_keeps_entry_order_among_equal_seconds() {
    let entries = vec![
        ("x".to_string(), 5),
        ("y".to_string(), 9),
        ("z".to_string(), 5),
        ("w".to_string(), 5),
    ];
    let ranked = rank_domains(&entries, 4);
    assert_eq!(names(&ranked), vec!["y", "x", "z", "w"]);
}

#[test]
fn parse_reads_object_and_ranks() {
    let json = r#"{"a.com": 100, "b.com": 300, "c.com": 200}"#;
    let ds = parse_input_json(json, 2);
    assert_eq!(names(&ds), vec!["b.com", "c.com"]);
    assert_eq!(ds[0].seconds, 300);
    assert_eq!(ds[0].hue, domain_hue("b.com"));
    assert_eq!(ds[1].seconds, 200);
}

#[test]
fn parse_keeps_all_when_limit_is_large() {
    let ds = parse_input_json(r#"{"github.com": 7, "youtube.com": 9}"#, 5);
    assert_eq!(names(&ds), vec!["youtube.com", "github.com"]);
    assert_eq!(ds[0].hue, 350);
    assert_eq!(ds[1].hue, 94);
}

#[test]
fn parse_of_invalid_text_gives_no_domains() {
    assert!(parse_input_json("not json", 3).is_empty());
    assert!(parse_input_json(r#"{"a": -1}"#, 3).is_empty());
    assert!(parse_input_json(r#"[1, 2]"#, 3).is_empty());
    assert!(parse_input_json("", 3).is_empty());
}

#[test]
fn parse_of_empty_object_gives_no_domains() {
    assert!(parse_input_json("{}", 3).is_empty());
}
