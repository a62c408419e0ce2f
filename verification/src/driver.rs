//! The whole run: from the lines of the grammar's files and a source text
//! to the parse tree of the text, through the grammar, its FIRST and FOLLOW
//! sets, its parse table and the lexer.
use vstd::prelude::*;
use std::collections::HashSet;
use crate::names::{SymbolTable, texts, assoc};
use crate::grammar::{line_texts, rules_view, rules_loadable, symbol_lines_ok};
use crate::construct::{
    ConstructError,
    GrammarModel,
    try_construct,
    construct_model,
    model_map,
    model_terminal_indices,
    construct_ok,
    lemma_construct_nullables_have_productions,
};
use crate::first::{FirstCtx, first_sets, first_inputs_ok, first_inputs_hold, calFIRST, null_num};
use crate::follow::{FollowCtx, follow_sets, follow_inputs_ok, follow_inputs_hold, calFollow};
use crate::table::{
    TableCtx,
    TableError,
    table_spec,
    null_of,
    try_table_maker,
    cells_below,
    cells_name_prods,
    nullables_have_productions,
    lemma_table_cells,
    lemma_table_names_own_productions,
};
use crate::leaves::{derives_in, lemma_parse_tree_derives_in};
use crate::sets::sets_view;
use crate::lexer::{LexError, lex_spec, keyword_tables, lex_with_eof};
use crate::parse_tree::{
    TreeNode,
    TreeV,
    ParseError,
    ParseCtx,
    parse_spec,
    parse_tokens,
    parse_ctx,
    lemma_parse_tree_derives,
};
use crate::text::{trim_start_char, trim_start_matches_char};

verus! {

/// Why a run stops before it has a parse tree.
#[derive(Debug, PartialEq, Eq, Structural)]
pub enum DriverError {
    /// The files hold more symbols than an `i32` numbers.
    TooLarge,
    /// The grammar cannot be built.
    Construct(ConstructError),
    /// The grammar is not one whose FIRST sets can be computed: see
    /// [`first_inputs_ok`].
    FirstInputs,
    /// The grammar is not one whose FOLLOW sets can be computed: see
    /// [`follow_inputs_ok`].
    FollowInputs,
    /// The parse table cannot be made.
    Table(TableError),
    /// The lexer stops.
    Lex(LexError),
    /// The parser stops.
    Parse(ParseError),
}

/// The lines without the byte order marks that they start with.
pub open spec fn without_bom(lines: Seq<Seq<char>>) -> Seq<Seq<char>> {
    lines.map_values(|l: Seq<char>| trim_start_char(l, '\u{feff}'))
}

/// The smaller of two lengths.
pub open spec fn min_len(a: int, b: int) -> int {
    if a <= b {
        a
    } else {
        b
    }
}

/// The FIRST computation's context for a grammar.
pub open spec fn first_ctx(g: GrammarModel, terms: Set<i32>) -> FirstCtx {
    FirstCtx {
        rules: g.rules,
        terms: terms,
        null: null_num(g.map),
        nulls: g.nullables,
        has_null: g.map.contains_key("Null"@),
    }
}

/// The FOLLOW computation's context for a grammar and its FIRST sets.
pub open spec fn follow_ctx(g: GrammarModel, terms: Set<i32>, firsts: Seq<Set<i32>>) -> FollowCtx {
    FollowCtx { rules: g.rules, terms: terms, nulls: g.nullables, firsts: firsts }
}

/// The parse table's context for a grammar of `n` non-terminal lines.
pub open spec fn table_ctx_of(
    g: GrammarModel,
    terms: Set<i32>,
    firsts: Seq<Set<i32>>,
    follows: Seq<Set<i32>>,
    n: int,
) -> TableCtx {
    TableCtx {
        rules: g.rules,
        terms: terms,
        nulls: g.nullables,
        firsts: firsts,
        follows: follows,
        null: null_of(g.map),
        count: n as i32,
        cols: g.terminals.len() - 1,
    }
}

/// What a run gives: from the lines of the symbolic terminal file `tsp`,
/// the terminal file `tl`, the non-terminal file `nl`, the rule file `rl`
/// and the source text `src`, the parse tree of the text, or the first
/// stage that stops and why. The keywords are the symbolic terminals
/// paired with the terminals, both without a leading byte order mark; the
/// tokens end with `Eof`.
pub open spec fn run_spec(
    tsp: Seq<Seq<char>>,
    tl: Seq<Seq<char>>,
    nl: Seq<Seq<char>>,
    rl: Seq<Seq<char>>,
    src: Seq<char>,
) -> Result<TreeV, DriverError> {
    let n = nl.len() as int;
    if !(2 * nl.len() + tl.len() + 4 < i32::MAX) {
        Err(DriverError::TooLarge)
    } else if !(symbol_lines_ok(tl) && symbol_lines_ok(nl)) {
        Err(DriverError::Construct(ConstructError::BadSymbolLine))
    } else if n == 0 {
        Err(DriverError::Construct(ConstructError::NoNonTerminals))
    } else if !rules_loadable(rl, model_map(tl, nl), n) {
        Err(DriverError::Construct(ConstructError::BadRules))
    } else {
        let g = construct_model(tl, nl, rl);
        let terms = model_terminal_indices(tl, nl);
        if !first_inputs_ok(g.map, g.rules, terms, g.nullables) {
            Err(DriverError::FirstInputs)
        } else {
            let firsts = first_sets(first_ctx(g, terms), g.map);
            if !follow_inputs_ok(g.map, g.rules, terms, g.nullables, firsts) {
                Err(DriverError::FollowInputs)
            } else {
                let follows = follow_sets(follow_ctx(g, terms, firsts), g.map);
                match table_spec(
                    table_ctx_of(g, terms, firsts, follows, n),
                    g.terminals.len() as int,
                ) {
                    Err(e) => Err(DriverError::Table(e)),
                    Ok(st) => {
                        let ks = without_bom(tsp);
                        let kinds = without_bom(tl);
                        let m = min_len(ks.len() as int, kinds.len() as int);
                        match lex_spec(src, ks.take(m), assoc(ks.take(m), kinds.take(m))) {
                            Err(e) => Err(DriverError::Lex(e)),
                            Ok(toks) => {
                                let c = ParseCtx {
                                    map: g.map,
                                    count: n,
                                    kinds: toks.map_values(|t: (Seq<char>, Seq<char>)| t.1).push(
                                        "Eof"@,
                                    ),
                                    final_rules: st.final_rules,
                                    table: st.t,
                                    terms: terms,
                                    eof: 0,
                                };
                                match parse_spec(c) {
                                    Err(e) => Err(DriverError::Parse(e)),
                                    Ok(t) => Ok(t),
                                }
                            },
                        }
                    },
                }
            }
        }
    }
}

/// In the parse table's context of a built grammar, every nullable
/// non-terminal has a production.
pub proof fn lemma_built_nullables_have_productions(
    tl: Seq<Seq<char>>,
    nl: Seq<Seq<char>>,
    rl: Seq<Seq<char>>,
    firsts: Seq<Set<i32>>,
    follows: Seq<Set<i32>>,
)
    requires
        construct_ok(tl, nl, rl),
    ensures
        nullables_have_productions(
            table_ctx_of(
                construct_model(tl, nl, rl),
                model_terminal_indices(tl, nl),
                firsts,
                follows,
                nl.len() as int,
            ),
        ),
{
    let g = construct_model(tl, nl, rl);
    let terms = model_terminal_indices(tl, nl);
    let c = table_ctx_of(g, terms, firsts, follows, nl.len() as int);
    lemma_construct_nullables_have_productions(tl, nl, rl);
    assert forall|i: int|
        0 <= i < c.rules.len() && !c.terms.contains(i as i32) && c.nulls.contains(i as i32) implies #[trigger] c.rules[i].len()
        > 0 by {
        assert(g.nullables.contains(i as i32));
        assert((i as i32) as int == i);
    }
}

/// In the parse table made from a built grammar, every cell is -1 or the
/// number of one of the productions that the table keeps, and that
/// production is one of the rule of the cell's row.
pub proof fn lemma_built_table_cells(
    tl: Seq<Seq<char>>,
    nl: Seq<Seq<char>>,
    rl: Seq<Seq<char>>,
    firsts: Seq<Set<i32>>,
    follows: Seq<Set<i32>>,
)
    requires
        construct_ok(tl, nl, rl),
    ensures
        ({
            let g = construct_model(tl, nl, rl);
            let terms = model_terminal_indices(tl, nl);
            table_spec(table_ctx_of(g, terms, firsts, follows, nl.len() as int), g.terminals.len() as int)
                matches Ok(st) ==> cells_below(st.t, st.final_rules.len() as int) && cells_name_prods(
                st.t,
                st.final_rules,
                g.rules,
                -1,
                0,
            )
        }),
{
    let g = construct_model(tl, nl, rl);
    let terms = model_terminal_indices(tl, nl);
    let c = table_ctx_of(g, terms, firsts, follows, nl.len() as int);
    lemma_built_nullables_have_productions(tl, nl, rl, firsts, follows);
    lemma_table_cells(c, g.terminals.len() as int);
    lemma_table_names_own_productions(c, g.terminals.len() as int);
}

/// The tree of a run is a derivation in the built grammar: its root is the
/// start symbol, node 1, and the children of every node, read from the last
/// to the first, are the symbols of one of the productions of the rule of
/// the node's own symbol.
pub proof fn lemma_run_tree_derives(
    tsp: Seq<Seq<char>>,
    tl: Seq<Seq<char>>,
    nl: Seq<Seq<char>>,
    rl: Seq<Seq<char>>,
    src: Seq<char>,
)
    ensures
        run_spec(tsp, tl, nl, rl, src) matches Ok(t) ==> t.val == (0i32, 1i32) && derives_in(
            t,
            construct_model(tl, nl, rl).rules,
        ),
{
    if let Ok(t) = run_spec(tsp, tl, nl, rl, src) {
        let n = nl.len() as int;
        let g = construct_model(tl, nl, rl);
        let terms = model_terminal_indices(tl, nl);
        assert(construct_ok(tl, nl, rl));
        let firsts = first_sets(first_ctx(g, terms), g.map);
        let follows = follow_sets(follow_ctx(g, terms, firsts), g.map);
        let tc = table_ctx_of(g, terms, firsts, follows, n);
        lemma_built_table_cells(tl, nl, rl, firsts, follows);
        let st = table_spec(tc, g.terminals.len() as int)->Ok_0;
        let ks = without_bom(tsp);
        let kinds = without_bom(tl);
        let m = min_len(ks.len() as int, kinds.len() as int);
        let toks = lex_spec(src, ks.take(m), assoc(ks.take(m), kinds.take(m)))->Ok_0;
        let c = ParseCtx {
            map: g.map,
            count: n,
            kinds: toks.map_values(|t: (Seq<char>, Seq<char>)| t.1).push("Eof"@),
            final_rules: st.final_rules,
            table: st.t,
            terms: terms,
            eof: 0,
        };
        assert(parse_spec(c) == Ok::<TreeV, ParseError>(t));
        lemma_parse_tree_derives(c);
        lemma_parse_tree_derives_in(c, g.rules);
    }
}

/// The lines without the byte order marks that they start with, as
/// [`without_bom`] says.
pub fn strip_bom(lines: &Vec<String>) -> (r: Vec<String>)
    ensures
        texts(r@) == without_bom(texts(lines@)),
{
    let mut r: Vec<String> = Vec::new();
    let mut i: usize = 0;
    while i < lines.len()
        invariant
            i <= lines@.len(),
            r@.len() == i,
            texts(r@) == without_bom(texts(lines@)).take(i as int),
        decreases lines@.len() - i,
    {
        let l = trim_start_matches_char(&lines[i], '\u{feff}');
        assert(without_bom(texts(lines@))[i as int] == l@);
        let ghost r0 = r@;
        r.push(l);
        i = i + 1;
        assert forall|j: int| 0 <= j < i implies #[trigger] texts(r@)[j] == without_bom(
            texts(lines@),
        ).take(i as int)[j] by {
            if j < i - 1 {
                assert(r@[j] == r0[j]);
                assert(texts(r0)[j] == r0[j]@);
            }
        }
        assert(texts(r@) =~= without_bom(texts(lines@)).take(i as int));
    }
    assert(without_bom(texts(lines@)).take(i as int) =~= without_bom(texts(lines@)));
    r
}

/// The parse tree of `source` and the grammar's symbol table, or the first
/// stage that stops and why, as [`run_spec`] says. The arguments are the
/// lines of the symbolic terminal file, of the terminal file, of the
/// non-terminal file and of the rule file, and the source text.
pub fn run(
    terminals_symbolic: &Vec<String>,
    terminals_lines: &Vec<String>,
    non_terminals_lines: &Vec<String>,
    production_rules: &Vec<String>,
    source: &String,
) -> (r: Result<(TreeNode, SymbolTable), DriverError>)
    ensures
        ({
            let spec = run_spec(
                texts(terminals_symbolic@),
                line_texts(terminals_lines@),
                line_texts(non_terminals_lines@),
                line_texts(production_rules@),
                source@,
            );
            match r {
                Ok((t, m)) => spec == Ok::<TreeV, DriverError>(t.tv()) && m@ == construct_model(
                    line_texts(terminals_lines@),
                    line_texts(non_terminals_lines@),
                    line_texts(production_rules@),
                ).map,
                Err(e) => spec == Err::<TreeV, DriverError>(e),
            }
        }),
{
    let ghost tl = line_texts(terminals_lines@);
    let ghost nl = line_texts(non_terminals_lines@);
    let ghost rl = line_texts(production_rules@);
    let ghost n = nl.len() as int;
    let nn = non_terminals_lines.len();
    let tn = terminals_lines.len();
    if nn >= 1073741824 || tn >= 2147483648 || 2 * (nn as u64) + (tn as u64) + 4 >= 2147483647 {
        return Err(DriverError::TooLarge);
    }
    let (mut terminals, mut non_terminals, mut map, mut rules, mut nullables, mut terms, count) =
        match try_construct(terminals_lines, non_terminals_lines, production_rules) {
        Err(e) => {
            return Err(DriverError::Construct(e));
        },
        Ok(x) => x,
    };
    let ghost g = construct_model(tl, nl, rl);
    let ghost tset = model_terminal_indices(tl, nl);
    if !first_inputs_hold(&map, &rules, &terms, &nullables) {
        return Err(DriverError::FirstInputs);
    }
    let mut first = calFIRST(
        &mut terminals,
        &mut non_terminals,
        &map,
        &mut rules,
        &mut nullables,
        &mut terms,
    );
    let ghost firsts = first_sets(first_ctx(g, tset), g.map);
    assert(sets_view(first@) == firsts);
    if !follow_inputs_hold(&map, &rules, &terms, &nullables, &first) {
        return Err(DriverError::FollowInputs);
    }
    let mut follow = calFollow(
        &mut terminals,
        &mut non_terminals,
        &mut map,
        &mut rules,
        &mut nullables,
        &mut terms,
        &mut first,
    );
    let ghost follows = follow_sets(follow_ctx(g, tset, firsts), g.map);
    assert(sets_view(follow@) == follows);
    assert(terminals@.len() == g.terminals.len());
    let (table, mut final_rules) = match try_table_maker(
        &mut terminals,
        &mut rules,
        &mut first,
        &mut follow,
        &mut nullables,
        &mut terms,
        &mut map,
        count as i32,
    ) {
        Err(e) => {
            return Err(DriverError::Table(e));
        },
        Ok(x) => x,
    };
    let ghost st = table_spec(table_ctx_of(g, tset, firsts, follows, n), g.terminals.len() as int)->Ok_0;
    let tsp = strip_bom(terminals_symbolic);
    let tp = strip_bom(terminals_lines);
    let (keywords_list, keywords) = keyword_tables(&tsp, &tp);
    let tokens = match lex_with_eof(source, &keywords_list, &keywords) {
        Err(e) => {
            return Err(DriverError::Lex(e));
        },
        Ok(v) => v,
    };
    let ghost toks = lex_spec(
        source@,
        texts(keywords_list@),
        keywords@,
    )->Ok_0;
    assert(tokens@.map_values(|t: crate::lexer::Token| t.kind@) =~= toks.map_values(
        |t: (Seq<char>, Seq<char>)| t.1,
    ).push("Eof"@));
    match parse_tokens(&map, count, &tokens, &mut final_rules, &table, &terms) {
        Err(e) => Err(DriverError::Parse(e)),
        Ok(t) => Ok((t, map)),
    }
}

} // verus!
