use std::collections::HashMap;

use lgenerator::data::parser::DomainData;
use lgenerator::lsystem::generator::{
    build_tree_sequence, build_tree_sequence_from_domains, CustomRules,
};

fn depth_profile(word: &str) -> (bool, i64) {
    let mut depth: i64 = 0;
    let mut never_negative = true;
    for c in word.chars() {
        if c == '[' {
            depth += 1;
        } else if c == ']' {
            depth -= 1;
        }
        if depth < 0 {
            never_negative = false;
        }
    }
    (never_negative, depth)
}

fn domain(name: &str) -> DomainData {
    DomainData { name: name.to_string(), seconds: 1, hue: 0 }
}

#[test]
fn tree_sequence_depth_zero_is_single_segment() {
    assert_eq!(build_tree_sequence(0), "F");
}

#[test]
fn tree_sequence_depth_one_is_the_production() {
    assert_eq!(build_tree_sequence(1), "FF-[-F+J]+[+F&J]/[^F\\J]");
}

#[test]
fn tree_sequence_depth_two_starts_with_rewritten_trunk() {
    let word = build_tree_sequence(2);
    assert!(word.starts_with("FF-[-F+J]+[+F&J]/[^F\\J]FF-[-F+J]+[+F&J]/[^F\\J]-[-"));
}

#[test]
fn tree_sequence_counts_follow_powers_of_five() {
    for d in 0..5u32 {
        let word = build_tree_sequence(d as usize);
        let f = word.chars().filter(|&c| c == 'F').count() as u64;
        let j = word.chars().filter(|&c| c == 'J').count() as u64;
        let p = 5u64.pow(d);
        assert_eq!(f, p);
        assert_eq!(4 * j, 3 * (p - 1));
        assert_eq!(4 * word.chars().count() as u64, 22 * p - 18);
    }
}

#[test]
fn tree_sequence_is_balanced() {
    for d in 0..5 {
        assert_eq!(depth_profile(&build_tree_sequence(d)), (true, 0));
    }
}

#[test]
fn custom_rules_map_finds_rule_by_symbol() {
    let mut rules = HashMap::new();
    rules.insert('A' as u32, vec!['A', 'B']);
    let rules = CustomRules { rules };
    assert_eq!(rules.map(&'A'), Some(vec!['A', 'B']));
    assert_eq!(rules.map(&'B'), None);
}

#[test]
fn custom_rules_rewrite_replaces_every_symbol_at_once() {
    let mut rules = HashMap::new();
    rules.insert('A' as u32, vec!['A', 'B']);
    rules.insert('B' as u32, vec!['A']);
    let rules = CustomRules { rules };
    let step1 = rules.rewrite(&vec!['A']);
    assert_eq!(step1, vec!['A', 'B']);
    let step2 = rules.rewrite(&step1);
    assert_eq!(step2, vec!['A', 'B', 'A']);
    let step3 = rules.rewrite(&vec!['A', 'x', 'B']);
    assert_eq!(step3, vec!['A', 'B', 'x', 'A']);
}

#[test]
fn domain_sequence_without_domains_is_trunk() {
    assert_eq!(build_tree_sequence_from_domains(&[]), "FF");
}

#[test]
fn domain_sequence_has_one_branch_per_domain() {
    let domains = vec![domain("a"), domain("b")];
    assert_eq!(
        build_tree_sequence_from_domains(&domains),
        "FF[D0&[+FJJJ-FJJJ]][D1^[-FJJJ+FJJJ]]"
    );
}

#[test]
fn domain_sequence_cycles_patterns_and_numbers_in_decimal() {
    let domains: Vec<DomainData> = (0..12).map(|i| domain(&format!("d{}", i))).collect();
    let word = build_tree_sequence_from_domains(&domains);
    assert!(word.contains("[D2/&[+FJJJ]]"));
    assert!(word.contains("[D3\\^[+FJJJ]]"));
    assert!(word.contains("[D4+&[-FJJJ]]"));
    assert!(word.contains("[D5-^[+FJJJ]]"));
    assert!(word.contains("[D6&[+FJJJ-FJJJ]]"));
    assert!(word.ends_with("[D10+&[-FJJJ]][D11-^[+FJJJ]]"));
    assert_eq!(depth_profile(&word), (true, 0));
}
