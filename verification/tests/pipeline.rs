use ll1_parser::construct::{construct, try_construct, ConstructError};
use ll1_parser::driver::{run, DriverError};
use ll1_parser::first::{calFIRST, first_inputs_hold, first_sets_and_trace, FirstEvent};
use ll1_parser::follow::{calFollow, follow_inputs_hold};
use ll1_parser::grammar::SymbolType;
use ll1_parser::lexer::{keyword_tables, lex, lex_with_eof, lexer, LexError, Token};
use ll1_parser::parse_tree::{parse_tokens, tree_lines, ParseError, ParserConstructor, TreeNode, DFS};
use ll1_parser::table::{printed_terminals, table_maker};
use std::collections::HashSet;

fn lines(v: &[&str]) -> Vec<String> {
    v.iter().map(|s| s.to_string()).collect()
}

fn terms() -> Vec<String> {
    lines(&["Plus", "Star", "LParen", "RParen", "IDENTIFIER"])
}

fn symbolic() -> Vec<String> {
    lines(&["+", "*", "(", ")", "IDENTIFIER"])
}

fn non_terms() -> Vec<String> {
    lines(&["E", "T", "F"])
}

fn cfg() -> Vec<String> {
    lines(&[
        "E: E Plus T | T;",
        "T: T Star F | F;",
        "F: LParen E RParen | IDENTIFIER;",
    ])
}

fn set(v: &[i32]) -> HashSet<i32> {
    v.iter().cloned().collect()
}

fn render(t: &TreeNode) -> String {
    let (s, n) = t.val();
    let mut out = format!("{}:{}", s, n);
    if t.num_children() > 0 {
        out.push('{');
        for i in 0..t.num_children() {
            if i > 0 {
                out.push(' ');
            }
            out.push_str(&render(t.child(i)));
        }
        out.push('}');
    }
    out
}

const TREE: &str = "0:1{10:2{10:8{9:28} 1:9{11:11{11:14{9:27} 2:15{6:17 0:18{10:20{9:26} \
1:21{11:22{9:25} 2:23{7:24}}} 5:19} 4:16} 2:12{7:13}} 3:10} 1:3{11:4{9:7} 2:5{7:6}}}";

#[test]
fn construct_numbers_symbols_and_removes_left_recursion() {
    let (terminals, non_terminals, map, rules, nullables, terminal_indices, count) =
        construct(&terms(), &non_terms(), &cfg());
    assert_eq!(count, 3);
    let tn: Vec<&str> = terminals.iter().map(|s| s.name.as_str()).collect();
    assert_eq!(
        tn,
        vec!["Plus", "Star", "LParen", "RParen", "IDENTIFIER", "Eof", "Null"]
    );
    let nn: Vec<&str> = non_terminals.iter().map(|s| s.name.as_str()).collect();
    assert_eq!(nn, vec!["E", "T", "F", "E`", "T`"]);
    assert_eq!(non_terminals[0].tyype, SymbolType::StartSymbol);
    assert_eq!(non_terminals[3].tyype, SymbolType::NonTerminal);
    let names = [
        "E", "T", "F", "Plus", "Star", "LParen", "RParen", "IDENTIFIER", "Eof", "Null", "E`", "T`",
    ];
    assert_eq!(map.len(), 12);
    for (i, n) in names.iter().enumerate() {
        assert_eq!(map.get(&n.to_string()), Some(i as i32));
        assert_eq!(map.name_of(i as i32), Some(n.to_string()));
    }
    assert_eq!(map.name_of(12), None);
    assert_eq!(terminal_indices, set(&[3, 4, 5, 6, 7, 8, 9]));
    assert_eq!(nullables, set(&[10, 11]));
    assert_eq!(rules.len(), 12);
    assert_eq!(rules[0], vec![vec![1, 10]]);
    assert_eq!(rules[1], vec![vec![2, 11]]);
    assert_eq!(rules[2], vec![vec![5, 0, 6], vec![7]]);
    for r in &rules[3..10] {
        assert!(r.is_empty());
    }
    assert_eq!(rules[10], vec![vec![9], vec![3, 1, 10]]);
    assert_eq!(rules[11], vec![vec![9], vec![4, 2, 11]]);
    // no production of E, T or F begins with that non-terminal any more
    for i in 0..3 {
        for p in &rules[i] {
            assert_ne!(p[0], i as i32);
        }
    }
}

#[test]
fn try_construct_reports_why_it_cannot_build() {
    let r = try_construct(&terms(), &lines(&[]), &cfg());
    assert_eq!(r.err(), Some(ConstructError::NoNonTerminals));
    let r = try_construct(&terms(), &non_terms(), &lines(&["E: E Minus T | T;"]));
    assert_eq!(r.err(), Some(ConstructError::BadRules));
    assert!(try_construct(&terms(), &non_terms(), &cfg()).is_ok());
}

#[test]
fn first_and_follow_sets_of_the_expression_grammar() {
    let (mut terminals, mut non_terminals, mut map, mut rules, mut nullables, mut ti, _count) =
        construct(&terms(), &non_terms(), &cfg());
    assert!(first_inputs_hold(&map, &rules, &ti, &nullables));
    let mut first = calFIRST(
        &mut terminals,
        &mut non_terminals,
        &map,
        &mut rules,
        &mut nullables,
        &mut ti,
    );
    let expected_first = vec![
        set(&[5, 7]),
        set(&[5, 7]),
        set(&[5, 7]),
        set(&[]),
        set(&[]),
        set(&[]),
        set(&[]),
        set(&[]),
        set(&[]),
        set(&[]),
        set(&[3]),
        set(&[4]),
    ];
    assert_eq!(first, expected_first);
    // FIRST sets hold terminals only, never Null
    for s in &first {
        for x in s {
            assert!(ti.contains(x) && *x != 9);
        }
    }
    assert!(follow_inputs_hold(&map, &rules, &ti, &nullables, &first));
    let follow = calFollow(
        &mut terminals,
        &mut non_terminals,
        &mut map,
        &mut rules,
        &mut nullables,
        &mut ti,
        &mut first,
    );
    let expected_follow = vec![
        set(&[6, 8]),
        set(&[3, 6, 8]),
        set(&[3, 4, 6, 8]),
        set(&[]),
        set(&[]),
        set(&[]),
        set(&[]),
        set(&[]),
        set(&[]),
        set(&[]),
        set(&[6, 8]),
        set(&[3, 6, 8]),
    ];
    assert_eq!(follow, expected_follow);
    // the start symbol can be followed by Eof
    assert!(follow[0].contains(&8));
    // the arguments come back unchanged
    assert_eq!(first, expected_first);
    assert_eq!(rules[10], vec![vec![9], vec![3, 1, 10]]);
}

#[test]
fn parse_table_of_the_expression_grammar() {
    let (mut terminals, mut non_terminals, mut map, mut rules, mut nullables, mut ti, count) =
        construct(&terms(), &non_terms(), &cfg());
    let mut first = calFIRST(
        &mut terminals,
        &mut non_terminals,
        &map,
        &mut rules,
        &mut nullables,
        &mut ti,
    );
    let mut follow = calFollow(
        &mut terminals,
        &mut non_terminals,
        &mut map,
        &mut rules,
        &mut nullables,
        &mut ti,
        &mut first,
    );
    let (t, final_rules) = table_maker(
        &mut terminals,
        &mut rules,
        &mut first,
        &mut follow,
        &mut nullables,
        &mut ti,
        &mut map,
        count as i32,
    );
    let blank = vec![-1; 6];
    let mut expected = vec![blank.clone(); 12];
    expected[0] = vec![-1, -1, 0, -1, 0, -1];
    expected[1] = vec![-1, -1, 1, -1, 1, -1];
    expected[2] = vec![-1, -1, 2, -1, 3, -1];
    expected[10] = vec![5, -1, -1, 4, -1, 4];
    expected[11] = vec![6, 7, -1, 6, -1, 6];
    assert_eq!(t, expected);
    assert_eq!(
        final_rules,
        vec![
            vec![1, 10],
            vec![2, 11],
            vec![5, 0, 6],
            vec![7],
            vec![9],
            vec![3, 1, 10],
            vec![9],
            vec![4, 2, 11],
        ]
    );
    // every cell is -1 or the number of a kept production
    for row in &t {
        for &c in row {
            assert!(c == -1 || (0 <= c && (c as usize) < final_rules.len()));
        }
    }
}

#[test]
fn lexer_reads_identifiers_and_operators() {
    let (ks, km) = keyword_tables(&symbolic(), &terms());
    assert_eq!(ks, symbolic());
    assert_eq!(km.get(&"+".to_string()), Some("Plus".to_string()));
    assert_eq!(km.get(&"-".to_string()), None);
    let tokens = lexer(&"A + B * (C)".to_string(), &ks, &km);
    let got: Vec<(String, String)> = tokens.iter().map(|t| (t.val.clone(), t.kind.clone())).collect();
    let want: Vec<(String, String)> = [
        ("A", "IDENTIFIER"),
        ("+", "Plus"),
        ("B", "IDENTIFIER"),
        ("*", "Star"),
        ("(", "LParen"),
        ("C", "IDENTIFIER"),
        (")", "RParen"),
    ]
    .iter()
    .map(|(a, b)| (a.to_string(), b.to_string()))
    .collect();
    assert_eq!(got, want);
    let with_eof = lex_with_eof(&"A + B * (C)".to_string(), &ks, &km).ok().unwrap();
    assert_eq!(with_eof.len(), 8);
    assert_eq!(with_eof[7].val, "Eof");
    assert_eq!(with_eof[7].kind, "Eof");
}

fn expression_tokens(src: &str) -> Vec<Token> {
    let (ks, km) = keyword_tables(&symbolic(), &terms());
    lex_with_eof(&src.to_string(), &ks, &km).ok().unwrap()
}

#[test]
fn parser_builds_the_tree_of_an_expression() {
    let (mut terminals, mut non_terminals, mut map, mut rules, mut nullables, mut ti, count) =
        construct(&terms(), &non_terms(), &cfg());
    let mut first = calFIRST(
        &mut terminals,
        &mut non_terminals,
        &map,
        &mut rules,
        &mut nullables,
        &mut ti,
    );
    let mut follow = calFollow(
        &mut terminals,
        &mut non_terminals,
        &mut map,
        &mut rules,
        &mut nullables,
        &mut ti,
        &mut first,
    );
    let (t, mut final_rules) = table_maker(
        &mut terminals,
        &mut rules,
        &mut first,
        &mut follow,
        &mut nullables,
        &mut ti,
        &mut map,
        count as i32,
    );
    let tokens = expression_tokens("A + B * (C)");
    let tree = ParserConstructor(&map, count, &tokens, &mut final_rules, &t, &ti);
    assert_eq!(render(&tree), TREE);
    assert_eq!(tree.val(), (0, 1));
    let found = DFS(&tree, (2, 15)).unwrap();
    assert_eq!(found.val(), (2, 15));
    assert_eq!(found.num_children(), 3);
    assert_eq!(found.child(1).val(), (0, 18));
    assert!(DFS(&tree, (2, 16)).is_none());
    assert!(DFS(&tree, (7, 29)).is_none());
    assert_eq!(DFS(&tree, (0, 1)).unwrap().val(), (0, 1));

    let r = parse_tokens(&map, count, &expression_tokens("A +"), &mut final_rules, &t, &ti);
    assert_eq!(r.err(), Some(ParseError::NoRule));
    let r = parse_tokens(&map, count, &expression_tokens("(A"), &mut final_rules, &t, &ti);
    assert_eq!(r.err(), Some(ParseError::TerminalMismatch(6, 8)));
    let no_eof = vec![Token { val: "A".to_string(), kind: "IDENTIFIER".to_string() }];
    let r = parse_tokens(&map, count, &no_eof, &mut final_rules, &t, &ti);
    assert_eq!(r.err(), Some(ParseError::OutOfTokens));
    let unknown = vec![Token { val: "?".to_string(), kind: "Question".to_string() }];
    let r = parse_tokens(&map, count, &unknown, &mut final_rules, &t, &ti);
    assert_eq!(r.err(), Some(ParseError::MissingSymbol));
    let narrow: Vec<Vec<i32>> = t.iter().map(|row| row[..2].to_vec()).collect();
    let r = parse_tokens(&map, count, &expression_tokens("A"), &mut final_rules, &narrow, &ti);
    assert_eq!(r.err(), Some(ParseError::OutOfRange));
    assert_eq!(final_rules.len(), 8);
}

#[test]
fn run_parses_a_source_text() {
    let (tree, map) = run(&symbolic(), &terms(), &non_terms(), &cfg(), &"A + B * (C)".to_string())
        .ok()
        .unwrap();
    assert_eq!(render(&tree), TREE);
    assert_eq!(map.get(&"T`".to_string()), Some(11));
}

#[test]
fn run_strips_byte_order_marks_from_the_keyword_files() {
    let sym = lines(&["\u{feff}+", "*", "(", ")", "IDENTIFIER"]);
    let (tree, _map) = run(&sym, &terms(), &non_terms(), &cfg(), &"A + B * (C)".to_string())
        .ok()
        .unwrap();
    assert_eq!(render(&tree), TREE);
}

#[test]
fn run_reports_the_stage_that_stops() {
    let src = "A + B".to_string();
    let r = run(&symbolic(), &terms(), &lines(&[]), &cfg(), &src);
    assert_eq!(r.err(), Some(DriverError::Construct(ConstructError::NoNonTerminals)));
    let r = run(&symbolic(), &terms(), &non_terms(), &lines(&["E: E Minus T;"]), &src);
    assert_eq!(r.err(), Some(DriverError::Construct(ConstructError::BadRules)));
    let r = run(&lines(&[]), &lines(&["a", "a"]), &lines(&["S"]), &lines(&["S: a;"]), &src);
    assert_eq!(r.err(), Some(DriverError::FirstInputs));
    let r = run(&symbolic(), &terms(), &non_terms(), &cfg(), &"A + 'bc".to_string());
    assert_eq!(r.err(), Some(DriverError::Lex(LexError::BadCharLiteral)));
    let r = run(&symbolic(), &terms(), &non_terms(), &cfg(), &"A + B +".to_string());
    assert_eq!(r.err(), Some(DriverError::Parse(ParseError::NoRule)));
}

#[test]
fn lex_errors() {
    let (ks, km) = keyword_tables(&symbolic(), &terms());
    assert_eq!(lex(&"'a".to_string(), &ks, &km).err(), Some(LexError::BadCharLiteral));
    assert_eq!(lex(&"A abc".to_string(), &ks, &km).err(), Some(LexError::WordAtEnd));
    assert!(lex(&"A abc ".to_string(), &ks, &km).is_ok());
}

fn leaves(t: &TreeNode, out: &mut Vec<i32>) {
    if t.num_children() == 0 {
        out.push(t.val().0);
    }
    for i in (0..t.num_children()).rev() {
        leaves(t.child(i), out);
    }
}

#[test]
fn tree_leaves_are_the_tokens_read() {
    let (tree, _map) = run(&symbolic(), &terms(), &non_terms(), &cfg(), &"A + B * (C)".to_string())
        .ok()
        .unwrap();
    let mut out = Vec::new();
    leaves(&tree, &mut out);
    assert_eq!(out, vec![7, 9, 3, 7, 4, 5, 7, 9, 9, 6, 9, 9]);
    let read: Vec<i32> = out.into_iter().filter(|&s| s != 9).collect();
    assert_eq!(read, vec![7, 3, 7, 4, 5, 7, 6]);
}

fn check_derivation(t: &TreeNode, rules: &Vec<Vec<Vec<i32>>>) {
    let n = t.num_children();
    if n > 0 {
        let (sym, _) = t.val();
        let prod: Vec<i32> = (0..n).rev().map(|i| t.child(i).val().0).collect();
        assert!(rules[sym as usize].contains(&prod));
        for i in 0..n {
            check_derivation(t.child(i), rules);
        }
    }
}

#[test]
fn every_node_is_expanded_by_a_production_of_its_rule() {
    let (_t, _nt, _map, rules, _n, _ti, _count) = construct(&terms(), &non_terms(), &cfg());
    let (tree, _map) = run(&symbolic(), &terms(), &non_terms(), &cfg(), &"(A) * B + C".to_string())
        .ok()
        .unwrap();
    assert_eq!(tree.val(), (0, 1));
    check_derivation(&tree, &rules);
}

#[test]
fn try_construct_refuses_a_symbol_line_cut_inside_a_character() {
    // the `#` is the third character; three bytes in, the cut falls inside `é`
    let r = try_construct(&lines(&["aé#x", "Star"]), &non_terms(), &cfg());
    assert_eq!(r.err(), Some(ConstructError::BadSymbolLine));
    let r = try_construct(&terms(), &lines(&["E", "Té#note", "F"]), &cfg());
    assert_eq!(r.err(), Some(ConstructError::BadSymbolLine));
    let r = run(&symbolic(), &lines(&["aé#x"]), &non_terms(), &cfg(), &"A".to_string());
    assert_eq!(r.err(), Some(DriverError::Construct(ConstructError::BadSymbolLine)));
}

fn expression_table_inputs() -> (
    Vec<ll1_parser::grammar::Symbol>,
    Vec<Vec<Vec<i32>>>,
    Vec<HashSet<i32>>,
    Vec<HashSet<i32>>,
    HashSet<i32>,
    HashSet<i32>,
    ll1_parser::names::SymbolTable,
    usize,
) {
    let (mut terminals, mut non_terminals, mut map, mut rules, mut nullables, mut ti, count) =
        construct(&terms(), &non_terms(), &cfg());
    let mut first = calFIRST(
        &mut terminals,
        &mut non_terminals,
        &map,
        &mut rules,
        &mut nullables,
        &mut ti,
    );
    let follow = calFollow(
        &mut terminals,
        &mut non_terminals,
        &mut map,
        &mut rules,
        &mut nullables,
        &mut ti,
        &mut first,
    );
    (terminals, rules, first, follow, nullables, ti, map, count)
}

#[test]
fn printed_terminals_of_the_expression_grammar() {
    let (terminals, rules, first, follow, nullables, ti, map, count) = expression_table_inputs();
    let printed = printed_terminals(
        &terminals,
        &rules,
        &first,
        &follow,
        &nullables,
        &ti,
        &map,
        count as i32,
    );
    // E, T, F's two productions, then the second production of E` and of T`
    assert_eq!(
        printed,
        vec![vec![5, 7], vec![5, 7], vec![5], vec![7], vec![3], vec![4]]
    );
    let names: Vec<Vec<String>> = printed
        .iter()
        .map(|p| p.iter().map(|t| map.name_of(*t).unwrap()).collect())
        .collect();
    assert_eq!(names[0], vec!["LParen".to_string(), "IDENTIFIER".to_string()]);
    assert_eq!(names[4], vec!["Plus".to_string()]);
}

#[test]
fn printed_terminals_repeat_a_terminal_of_two_first_sets() {
    // S: A B; A and B both nullable and both able to begin with `a`
    let (terminals, _nt, map, _r, _n, _ti, _c) = construct(
        &lines(&["a"]),
        &lines(&["S", "A", "B"]),
        &lines(&["S: A B;", "A: a | Null;", "B: a | Null;"]),
    );
    let rules = vec![
        vec![vec![1, 2]],
        vec![vec![5], vec![3]],
        vec![vec![5], vec![3]],
        vec![],
        vec![],
        vec![],
    ];
    let first = vec![set(&[3]), set(&[3]), set(&[3]), set(&[]), set(&[]), set(&[])];
    let follow = vec![set(&[]); 6];
    let printed = printed_terminals(
        &terminals,
        &rules,
        &first,
        &follow,
        &set(&[1, 2]),
        &set(&[3, 4, 5]),
        &map,
        3,
    );
    // A and B print only for their second production; S prints `a` twice
    assert_eq!(printed, vec![vec![3, 3], vec![3], vec![3]]);
}

#[test]
fn tree_lines_draw_the_parse_tree() {
    let (tree, map) = run(&symbolic(), &terms(), &non_terms(), &cfg(), &"A + B * (C)".to_string())
        .ok()
        .unwrap();
    let out = tree_lines(&tree);
    assert_eq!(out.len(), 28);
    assert_eq!(out[0].lead, "");
    assert_eq!(out[0].sym, 0);
    assert_eq!(out[0].parent, None);
    // the first child of the root is E`, which has siblings after it
    assert_eq!(out[1].lead, "     ├── ");
    assert_eq!(map.name_of(out[1].sym), Some("E`".to_string()));
    assert_eq!(out[1].parent, Some(0));
    // the first child of E`, under a bar that goes on down to T
    assert_eq!(out[2].lead, "     │      ├── ");
    assert_eq!(out[2].sym, 10);
    assert_eq!(out[2].parent, Some(1));
    // the only child of that E` is its last
    assert_eq!(out[3].lead, "     │      │      └── ");
    assert_eq!(out[3].sym, 9);
    assert_eq!(out[3].parent, Some(2));
    // the root's last child, T, and its first child below it
    let last_top = out.iter().rposition(|l| l.parent == Some(0)).unwrap();
    assert_eq!(out[last_top].lead, "     └── ");
    assert_eq!(out[last_top].sym, 1);
    assert_eq!(out[last_top + 1].lead, "          ├── ");
    assert_eq!(out[last_top + 1].parent, Some(last_top));
    for (i, l) in out.iter().enumerate().skip(1) {
        assert!(l.parent.unwrap() < i);
    }
}

#[test]
fn first_walks_keep_a_record_of_what_they_read() {
    // S: A a; A: a | Null;  numbered S 0, A 1, a 2, Eof 3, Null 4
    let (mut terminals, mut non_terminals, map, mut rules, mut nullables, mut ti, _count) = construct(
        &lines(&["a"]),
        &lines(&["S", "A"]),
        &lines(&["S: A a;", "A: a | Null;"]),
    );
    assert_eq!(rules, vec![vec![vec![1, 2]], vec![vec![2], vec![4]]]);
    assert_eq!(nullables, set(&[1]));
    assert!(first_inputs_hold(&map, &rules, &ti, &nullables));
    let (sets, trace) = first_sets_and_trace(&map, &rules, &ti, &nullables);
    assert_eq!(
        trace,
        vec![
            FirstEvent::Call(0),
            FirstEvent::Token(1),
            FirstEvent::IsTerminal(false),
            FirstEvent::IsNull(true),
            FirstEvent::Null(1),
            FirstEvent::Token(2),
            FirstEvent::IsTerminal(true),
            FirstEvent::IsNull(true),
            FirstEvent::Token(4),
            FirstEvent::IsTerminal(true),
            FirstEvent::IsNull(false),
            FirstEvent::Done(1),
            FirstEvent::Token(2),
            FirstEvent::IsTerminal(true),
            FirstEvent::IsNull(true),
            FirstEvent::Done(0),
            FirstEvent::Call(1),
        ]
    );
    assert_eq!(sets, vec![set(&[2]), set(&[2]), set(&[]), set(&[]), set(&[])]);
    let same = calFIRST(
        &mut terminals,
        &mut non_terminals,
        &map,
        &mut rules,
        &mut nullables,
        &mut ti,
    );
    assert_eq!(same, sets);
}
