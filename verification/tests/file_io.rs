use ll1_parser::grammar::{
    check_production_rules, load_Production_Rules, load_symbols, symbol_lines_readable, Symbol, SymbolType,
};
use ll1_parser::names::SymbolTable;

fn lines(v: &[&str]) -> Vec<String> {
    v.iter().map(|s| s.to_string()).collect()
}

fn terminal_lines() -> Vec<String> {
    lines(&[
        "IDENTIFIER",
        "CONSTANT",
        "LessThan # the < sign",
        "Plus",
        "Semicolon",
        "  Int  ",
    ])
}

fn non_terminal_lines() -> Vec<String> {
    lines(&["program", "statement", "expression # a comparison or a sum"])
}

fn rule_lines() -> Vec<String> {
    lines(&[
        "// statements of a tiny C fragment",
        "program: statement program",
        "   | statement;",
        "",
        "statement: Int expression Semicolon;",
        "expression: IDENTIFIER LessThan CONSTANT",
        "  | 'Plus' CONSTANT;",
    ])
}

fn print_symbols(t: &Vec<Symbol>) {
    for i in t {
        match i.tyype {
            SymbolType::StartSymbol => println!("StartSymbol:{}", i.name),
            SymbolType::Terminal => println!("Terminal:{}", i.name),
            SymbolType::NonTerminal => println!("NonTerminal:{}", i.name),
        }
    }
}

#[test]
fn loading_terminals() {
    let mut t: Vec<Symbol> = Vec::new();
    load_symbols(&terminal_lines(), &mut t, SymbolType::Terminal);
    print_symbols(&t);
    let names: Vec<&str> = t.iter().map(|s| s.name.as_str()).collect();
    assert_eq!(
        names,
        vec!["IDENTIFIER", "CONSTANT", "LessThan", "Plus", "Semicolon", "Int"]
    );
    assert!(t.iter().all(|s| s.tyype == SymbolType::Terminal));
}

#[test]
fn loading_non_terminals() {
    let mut t: Vec<Symbol> = Vec::new();
    load_symbols(&non_terminal_lines(), &mut t, SymbolType::NonTerminal);
    t[0].tyype = SymbolType::StartSymbol;
    print_symbols(&t);
    let names: Vec<&str> = t.iter().map(|s| s.name.as_str()).collect();
    assert_eq!(names, vec!["program", "statement", "expression"]);
    assert_eq!(t[0].tyype, SymbolType::StartSymbol);
    assert_eq!(t[1].tyype, SymbolType::NonTerminal);
    assert_eq!(t[2].tyype, SymbolType::NonTerminal);
}

#[test]
fn loading_Production_Rules() {
    let mut t: Vec<Symbol> = Vec::new();
    load_symbols(&non_terminal_lines(), &mut t, SymbolType::NonTerminal);
    t[0].tyype = SymbolType::StartSymbol;
    load_symbols(&terminal_lines(), &mut t, SymbolType::Terminal);
    let mut map = SymbolTable::new();
    for (i, v) in t.iter().enumerate() {
        map.insert(v.name.clone(), i as i32);
    }
    for (i, v) in t.iter().enumerate() {
        println!("Key: {}, Value: {}", v.name, i);
    }
    let mut rules: Vec<Vec<Vec<i32>>> = Vec::new();
    rules.resize(t.len(), Vec::new());
    load_Production_Rules(&rule_lines(), &map, &mut rules);
    for (index, item) in rules.iter().enumerate() {
        println!("Index: {},token {}", index, t[index].name);
        println!("{:?}", item);
    }
    let a = "LessThan".to_string();
    println!("{}", map.get(&a).unwrap());
    assert_eq!(map.get(&a), Some(5));
    assert_eq!(rules.len(), 9);
    assert_eq!(rules[0], vec![vec![1, 0], vec![1]]);
    assert_eq!(rules[1], vec![vec![8, 2, 7]]);
    assert_eq!(rules[2], vec![vec![3, 5, 4], vec![6, 4]]);
    for r in &rules[3..] {
        assert!(r.is_empty());
    }
}

#[test]
fn load_symbols_appends_after_existing_symbols() {
    let mut t: Vec<Symbol> = Vec::new();
    load_symbols(&lines(&["A"]), &mut t, SymbolType::NonTerminal);
    load_symbols(&lines(&["\tb # note", "#only a comment", ""]), &mut t, SymbolType::Terminal);
    assert_eq!(t.len(), 4);
    assert_eq!(t[0].name, "A");
    assert_eq!(t[0].tyype, SymbolType::NonTerminal);
    assert_eq!(t[1].name, "b");
    assert_eq!(t[2].name, "");
    assert_eq!(t[3].name, "");
    assert_eq!(t[3].tyype, SymbolType::Terminal);
}

#[test]
fn production_rules_are_added_after_existing_ones() {
    let mut map = SymbolTable::new();
    map.insert("S".to_string(), 0);
    map.insert("a".to_string(), 1);
    map.insert("b".to_string(), 2);
    let mut rules: Vec<Vec<Vec<i32>>> = vec![vec![vec![2]], Vec::new(), Vec::new()];
    load_Production_Rules(&lines(&["S: a b | b';", "S: 'a';"]), &map, &mut rules);
    assert_eq!(rules[0], vec![vec![2], vec![1, 2], vec![2], vec![1]]);
    assert!(rules[1].is_empty());
}

#[test]
fn check_production_rules_refuses_unknown_symbols() {
    let mut map = SymbolTable::new();
    map.insert("S".to_string(), 0);
    map.insert("a".to_string(), 1);
    assert!(check_production_rules(&lines(&["S: a;"]), &map, 1));
    assert!(!check_production_rules(&lines(&["S: a c;"]), &map, 1));
    assert!(!check_production_rules(&lines(&["T: a;"]), &map, 1));
    assert!(!check_production_rules(&lines(&["a: S;"]), &map, 1));
}

#[test]
fn load_symbols_cuts_at_the_byte_offset_of_the_hash() {
    let mut t: Vec<Symbol> = Vec::new();
    // `#` is the third character; two characters, `é` and `a`, take three
    // bytes, so the cut after two bytes keeps `é` alone
    load_symbols(&lines(&["éa#x", "ab#x", "plain"]), &mut t, SymbolType::Terminal);
    assert_eq!(t[0].name, "é");
    assert_eq!(t[1].name, "ab");
    assert_eq!(t[2].name, "plain");
    assert!(symbol_lines_readable(&lines(&["éa#x", "no hash é"])));
    assert!(!symbol_lines_readable(&lines(&["ok", "aé#x"])));
}
