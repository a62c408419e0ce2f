use ll1_parser::construct::{check_nullability, remove_left_recursion};
use ll1_parser::driver::strip_bom;
use ll1_parser::first::{calFIRST, first_inputs_hold};
use ll1_parser::follow::follow_inputs_hold;
use ll1_parser::grammar::{Symbol, SymbolType};
use ll1_parser::lexer::{keyword_tables, lex};
use ll1_parser::names::{find_key, KeywordTable, SymbolTable};
use ll1_parser::sets::{empty_sets, false_flags, set_extend};
use ll1_parser::table::{try_table_maker, TableError};
use ll1_parser::text::{
    chars_of, is_whitespace, split_vec, string_of, string_of_all, trim_start_matches_char,
    trim_vec,
};
use std::collections::HashSet;

fn lines(v: &[&str]) -> Vec<String> {
    v.iter().map(|s| s.to_string()).collect()
}

fn set(v: &[i32]) -> HashSet<i32> {
    v.iter().cloned().collect()
}

fn sym(name: &str, t: SymbolType) -> Symbol {
    Symbol { name: name.to_string(), tyype: t }
}

fn table(pairs: &[(&str, i32)]) -> SymbolTable {
    let mut m = SymbolTable::new();
    for (k, v) in pairs {
        m.insert(k.to_string(), *v);
    }
    m
}

fn kinds(src: &str, ks: &[&str], kinds: &[&str]) -> Vec<(String, String)> {
    let (words, km) = keyword_tables(&lines(ks), &lines(kinds));
    lex(&src.to_string(), &words, &km)
        .ok()
        .unwrap()
        .iter()
        .map(|t| (t.val.clone(), t.kind.clone()))
        .collect()
}

fn pairs(v: &[(&str, &str)]) -> Vec<(String, String)> {
    v.iter().map(|(a, b)| (a.to_string(), b.to_string())).collect()
}

#[test]
fn remove_left_recursion_rewrites_one_rule() {
    let mut rules = vec![vec![vec![0, 1], vec![1]], Vec::new(), Vec::new()];
    let mut nts = vec![sym("S", SymbolType::StartSymbol)];
    let mut ts = vec![sym("a", SymbolType::Terminal), sym("Null", SymbolType::Terminal)];
    let mut map = table(&[("S", 0), ("a", 1), ("Null", 2)]);
    let mut nullables = HashSet::new();
    remove_left_recursion(&mut rules, 0, &mut nts, &mut map, &mut nullables, &mut ts);
    assert_eq!(rules.len(), 4);
    assert_eq!(rules[0], vec![vec![1, 3]]);
    assert_eq!(rules[3], vec![vec![2], vec![1, 3]]);
    assert_eq!(nts.len(), 2);
    assert_eq!(nts[1].name, "S`");
    assert_eq!(nts[1].tyype, SymbolType::NonTerminal);
    assert_eq!(map.get(&"S`".to_string()), Some(3));
    assert_eq!(nullables, set(&[3]));
    assert_eq!(ts.len(), 2);
}

#[test]
fn check_nullability_makes_one_pass_in_order() {
    let map = table(&[("Null", 2)]);
    let ti = set(&[1, 2]);
    let mut rules = vec![vec![vec![2]], vec![vec![0, 1]], vec![vec![1]]];
    let mut nullables = HashSet::new();
    check_nullability(&mut nullables, &mut rules, &map, &ti);
    assert_eq!(nullables, set(&[0]));
    assert_eq!(rules, vec![vec![vec![2]], vec![vec![0, 1]], vec![vec![1]]]);

    // a rule that needs a later rule is not found in the same pass
    let ti = set(&[2]);
    let mut rules = vec![vec![vec![1]], vec![vec![2]]];
    let mut nullables = HashSet::new();
    check_nullability(&mut nullables, &mut rules, &map, &ti);
    assert_eq!(nullables, set(&[1]));
    let mut again = nullables.clone();
    check_nullability(&mut again, &mut rules, &map, &ti);
    assert_eq!(again, set(&[0, 1]));
}

#[test]
fn table_maker_errors() {
    let mut rules = vec![vec![vec![1]]];
    let mut first = vec![set(&[]), set(&[])];
    let mut follow = vec![set(&[]), set(&[])];
    let mut nullables = HashSet::new();
    let mut ti = set(&[1, 2]);

    let mut none: Vec<Symbol> = Vec::new();
    let mut map = table(&[("S", 0), ("a", 1), ("Null", 2)]);
    let r = try_table_maker(
        &mut none, &mut rules, &mut first, &mut follow, &mut nullables, &mut ti, &mut map, 1,
    );
    assert_eq!(r.err(), Some(TableError::NoTerminals));

    let mut ts = vec![sym("a", SymbolType::Terminal), sym("Null", SymbolType::Terminal)];
    let mut no_null = table(&[("S", 0), ("a", 1)]);
    let r = try_table_maker(
        &mut ts, &mut rules, &mut first, &mut follow, &mut nullables, &mut ti, &mut no_null, 1,
    );
    assert_eq!(r.err(), Some(TableError::MissingNull));

    let mut far = vec![vec![vec![3]]];
    let mut ti3 = set(&[1, 2, 3]);
    let r = try_table_maker(
        &mut ts, &mut far, &mut first, &mut follow, &mut nullables, &mut ti3, &mut map, 1,
    );
    assert_eq!(r.err(), Some(TableError::OutOfRange));

    let (t, fr) = try_table_maker(
        &mut ts, &mut rules, &mut first, &mut follow, &mut nullables, &mut ti, &mut map, 1,
    )
    .ok()
    .unwrap();
    assert_eq!(t, vec![vec![0]]);
    assert_eq!(fr, vec![vec![1]]);
}

#[test]
fn checks_before_first_and_follow() {
    let map = table(&[("S", 0), ("a", 1), ("Eof", 2), ("Null", 3)]);
    let rules = vec![vec![vec![1]]];
    let ti = set(&[1, 2, 3]);
    let nulls = HashSet::new();
    assert!(first_inputs_hold(&map, &rules, &ti, &nulls));
    let no_null = table(&[("S", 0), ("a", 1), ("Eof", 2)]);
    assert!(!first_inputs_hold(&no_null, &rules, &ti, &nulls));
    let gap = table(&[("S", 0), ("a", 1), ("Eof", 2), ("Null", 4)]);
    assert!(!first_inputs_hold(&gap, &rules, &ti, &nulls));
    // a symbol the walk reaches must have a flag
    assert!(!first_inputs_hold(&map, &vec![vec![vec![7]]], &ti, &nulls));
    // one it never reaches need not
    assert!(first_inputs_hold(&map, &vec![vec![vec![1, 7]]], &ti, &nulls));
    // a non-terminal that the table numbers needs a rule
    assert!(!first_inputs_hold(&map, &Vec::new(), &ti, &nulls));

    let firsts = vec![set(&[]), set(&[]), set(&[]), set(&[])];
    assert!(follow_inputs_hold(&map, &rules, &ti, &nulls, &firsts));
    // the FOLLOW sets need no Null
    assert!(follow_inputs_hold(&no_null, &rules, &ti, &nulls, &firsts[..3].to_vec()));
    let no_eof = table(&[("S", 0), ("a", 1), ("Null", 2)]);
    assert!(!follow_inputs_hold(&no_eof, &rules, &ti, &nulls, &firsts[..3].to_vec()));
    // the FIRST set of a non-terminal after S must be there
    let two = table(&[("S", 0), ("T", 1), ("a", 2), ("Eof", 3), ("Null", 4)]);
    let ti2 = set(&[2, 3, 4]);
    let rules2 = vec![vec![vec![0, 1]], vec![vec![2]]];
    let five = vec![set(&[]), set(&[2]), set(&[]), set(&[]), set(&[])];
    assert!(follow_inputs_hold(&two, &rules2, &ti2, &nulls, &five));
    assert!(!follow_inputs_hold(&two, &rules2, &ti2, &nulls, &vec![set(&[])]));
}

#[test]
fn symbol_table_keeps_the_last_number_of_a_name() {
    let mut m = SymbolTable::new();
    assert_eq!(m.len(), 0);
    m.insert("a".to_string(), 1);
    m.insert("b".to_string(), 2);
    m.insert("a".to_string(), 3);
    assert_eq!(m.len(), 2);
    assert_eq!(m.get(&"a".to_string()), Some(3));
    assert_eq!(m.get(&"b".to_string()), Some(2));
    assert_eq!(m.get(&"c".to_string()), None);
    assert!(!m.has_id(1));
    assert!(m.has_id(3));
    let ids: HashSet<i32> = m.ids().into_iter().collect();
    assert_eq!(ids, set(&[2, 3]));
    assert_eq!(m.name_of(2), Some("b".to_string()));
    assert_eq!(m.name_of(1), None);
}

#[test]
fn keyword_table_pairs_in_order() {
    let (words, km) = keyword_tables(&lines(&["+", "-", "+", "*"]), &lines(&["P", "M", "Q"]));
    assert_eq!(words, lines(&["+", "-", "+"]));
    assert_eq!(km.get(&"+".to_string()), Some("Q".to_string()));
    assert_eq!(km.get(&"-".to_string()), Some("M".to_string()));
    assert_eq!(km.get(&"*".to_string()), None);
    let mut k = KeywordTable::new();
    assert_eq!(k.get(&"x".to_string()), None);
    k.insert("x".to_string(), "X".to_string());
    assert_eq!(k.get(&"x".to_string()), Some("X".to_string()));
}

#[test]
fn lexer_numbers_strings_and_characters() {
    assert_eq!(
        kinds("3.14.5 \"hi there\" 'a' X_1", &[], &[]),
        pairs(&[
            ("3.14", "CONSTANT"),
            ("5", "CONSTANT"),
            ("\"hi there\"", "STRING_LITERAL"),
            ("'a'", "STRING_LITERAL"),
            ("X_1", "IDENTIFIER"),
        ])
    );
    assert_eq!(
        kinds("_x \"open", &[], &[]),
        pairs(&[("_x", "IDENTIFIER"), ("\"open", "STRING_LITERAL")])
    );
    assert_eq!(kinds(" \t\r\n", &[], &[]), pairs(&[]));
}

#[test]
fn lexer_keywords_and_operators() {
    assert_eq!(
        kinds("inta = 1;", &["int", "in", "=", ";"], &["INT", "IN", "ASSIGN", "SEMI"]),
        pairs(&[
            ("inta", "Unknown"),
            ("a", "IDENTIFIER"),
            ("=", "ASSIGN"),
            ("1", "CONSTANT"),
            (";", "SEMI"),
        ])
    );
    assert_eq!(
        kinds("int x <= Y", &["int", "<", "<="], &["INT", "LT", "LE"]),
        pairs(&[
            ("int", "INT"),
            ("x", "IDENTIFIER"),
            ("<=", "LE"),
            ("Y", "IDENTIFIER"),
        ])
    );
    // characters that begin no keyword are passed over
    assert_eq!(kinds("A @ B", &["+"], &["P"]), pairs(&[("A", "IDENTIFIER"), ("B", "IDENTIFIER")]));
    // an operator at the very end of the text
    assert_eq!(kinds("A<=", &["<", "<="], &["LT", "LE"]), pairs(&[("A", "IDENTIFIER"), ("<=", "LE")]));
}

#[test]
fn byte_order_marks_are_dropped_from_the_start_only() {
    let s = "\u{feff}\u{feff}ab\u{feff}".to_string();
    assert_eq!(trim_start_matches_char(&s, '\u{feff}'), "ab\u{feff}");
    assert_eq!(trim_start_matches_char(&"xyz".to_string(), 'x'), "yz");
    assert_eq!(trim_start_matches_char(&"".to_string(), 'x'), "");
    assert_eq!(
        strip_bom(&lines(&["\u{feff}Int", "Char", "\u{feff}"])),
        lines(&["Int", "Char", ""])
    );
}

#[test]
fn set_and_text_helpers() {
    let mut a = set(&[1, 2]);
    set_extend(&mut a, &set(&[2, 5]));
    assert_eq!(a, set(&[1, 2, 5]));
    assert_eq!(empty_sets(3), vec![set(&[]), set(&[]), set(&[])]);
    assert_eq!(false_flags(2), vec![false, false]);
    assert!(is_whitespace('\u{3000}'));
    assert!(is_whitespace('\t'));
    assert!(!is_whitespace('x'));
    let v = chars_of(&"  a b \n".to_string());
    assert_eq!(string_of_all(&trim_vec(&v)), "a b");
    assert_eq!(string_of(&v, 2, 5), "a b");
    let parts: Vec<String> = split_vec(&chars_of(&"x||y".to_string()), '|')
        .iter()
        .map(|p| string_of_all(p))
        .collect();
    assert_eq!(parts, lines(&["x", "", "y"]));
    assert_eq!(find_key(&lines(&["p", "q"]), &"q".to_string()), Some(1));
    assert_eq!(find_key(&lines(&["p", "q"]), &"r".to_string()), None);
}

#[test]
fn first_sets_need_null_only_at_terminals() {
    let map = table(&[("S", 0), ("T", 1), ("Eof", 2)]);
    let mut rules: Vec<Vec<Vec<i32>>> = vec![vec![vec![1]], Vec::new()];
    let mut ti = set(&[2]);
    let mut nulls = HashSet::new();
    assert!(first_inputs_hold(&map, &rules, &ti, &nulls));
    let mut ts: Vec<Symbol> = Vec::new();
    let mut nts: Vec<Symbol> = Vec::new();
    let first = calFIRST(&mut ts, &mut nts, &map, &mut rules, &mut nulls, &mut ti);
    assert_eq!(first, vec![set(&[]), set(&[]), set(&[])]);
    // a terminal that the walk reaches needs Null in the table
    let reaches = vec![vec![vec![1]], vec![vec![2]]];
    assert!(!first_inputs_hold(&map, &reaches, &ti, &nulls));
}

#[test]
fn every_token_has_text_and_a_known_kind() {
    let ks = ["int", "=", ";", "+"];
    let kinds_of = ["INT", "ASSIGN", "SEMI", "PLUS"];
    let toks = kinds("int x = 3 + \"s\" + 'c' + Y; @ intx ", &ks, &kinds_of);
    assert!(!toks.is_empty());
    for (val, kind) in &toks {
        assert!(!val.is_empty());
        let known = ["CONSTANT", "STRING_LITERAL", "IDENTIFIER", "Unknown"];
        assert!(known.contains(&kind.as_str()) || kinds_of.contains(&kind.as_str()));
    }
}

#[test]
fn check_nullability_grows_with_its_start() {
    let map = table(&[("Null", 2)]);
    let ti = set(&[2]);
    let rules = vec![vec![vec![1]], vec![vec![2]]];
    let mut small = HashSet::new();
    check_nullability(&mut small, &mut rules.clone(), &map, &ti);
    let mut large = set(&[1]);
    check_nullability(&mut large, &mut rules.clone(), &map, &ti);
    assert_eq!(small, set(&[1]));
    assert_eq!(large, set(&[0, 1]));
    assert!(small.is_subset(&large));
}
