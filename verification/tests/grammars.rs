use ll1_parser::driver::run;
use ll1_parser::parse_tree::TreeNode;

fn lines(v: &[&str]) -> Vec<String> {
    v.iter().map(|s| s.to_string()).collect()
}

fn leaves(t: &TreeNode, out: &mut Vec<i32>) {
    if t.num_children() == 0 {
        out.push(t.val().0);
    }
    for i in (0..t.num_children()).rev() {
        leaves(t.child(i), out);
    }
}

#[test]
fn grammar1() {
    let symbolic = lines(&["+", "*", "(", ")", "IDENTIFIER"]);
    let terms = lines(&["Plus", "Star", "LParen", "RParen", "IDENTIFIER"]);
    let non_terms = lines(&["E", "T", "F"]);
    let cfg = lines(&[
        "E: E Plus T | T;",
        "T: T Star F | F;",
        "F: LParen E RParen | IDENTIFIER;",
    ]);
    let src = "(A + B) * C + D".to_string();
    let (tree, map) = run(&symbolic, &terms, &non_terms, &cfg, &src).ok().unwrap();
    assert_eq!(tree.val(), (0, 1));
    let mut out = Vec::new();
    leaves(&tree, &mut out);
    let null = map.get(&"Null".to_string()).unwrap();
    let read: Vec<i32> = out.into_iter().filter(|&s| s != null).collect();
    assert_eq!(read, vec![5, 7, 3, 7, 6, 4, 7, 3, 7]);
}

#[test]
fn grammar2() {
    let symbolic = lines(&["int", "char", "IDENTIFIER", "=", "CONSTANT", ";"]);
    let terms = lines(&["Int", "Char", "IDENTIFIER", "Assign", "CONSTANT", "Semi"]);
    let non_terms = lines(&["program", "decl", "type", "init"]);
    let cfg = lines(&[
        "program: Null | decl program;",
        "decl: type IDENTIFIER init Semi;",
        "type: Int | Char;",
        "init: Null | Assign CONSTANT;",
    ]);
    let src = "int X = 5;\nchar Y;".to_string();
    let (tree, map) = run(&symbolic, &terms, &non_terms, &cfg, &src).ok().unwrap();
    assert_eq!(tree.val(), (0, 1));
    assert_eq!(tree.num_children(), 2);
    assert_eq!(tree.child(0).val(), (0, 2));
    assert_eq!(tree.child(1).val(), (1, 3));
    let mut out = Vec::new();
    leaves(&tree, &mut out);
    assert_eq!(out, vec![4, 6, 7, 8, 9, 5, 6, 11, 9, 11]);
    assert_eq!(map.get(&"Null".to_string()), Some(11));
}
