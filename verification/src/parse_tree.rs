//! The table-driven LL(1) parser: it reads the tokens with a stack of
//! symbols and builds the parse tree, and `DFS` finds a node of a tree.
use vstd::prelude::*;
use std::collections::HashSet;
use crate::names::SymbolTable;
use crate::lexer::{Token, token_views};
use crate::table::prods_view;
use crate::text::{sub_vec, string_of_all};

verus! {

broadcast use vstd::std_specs::hash::group_hash_axioms;

/// A node of the parse tree: its symbol and its number, and its children.
#[derive(Debug)]
pub struct TreeNode {
    val: (i32, i32),
    children: Vec<Box<TreeNode>>,
}

/// The mathematical view of a parse tree.
pub struct TreeV {
    pub val: (i32, i32),
    pub children: Seq<TreeV>,
}

impl TreeNode {
    /// The tree as a value.
    pub closed spec fn tv(&self) -> TreeV
        decreases self,
    {
        TreeV {
            val: self.val,
            children: Seq::new(
                self.children@.len(),
                |i: int|
                    {
                        if 0 <= i < self.children@.len() {
                            (*self.children@[i]).tv()
                        } else {
                            arbitrary()
                        }
                    },
            ),
        }
    }

    /// The symbol and the number of this node.
    pub fn val(&self) -> (r: (i32, i32))
        ensures
            r == self.tv().val,
    {
        self.val
    }

    /// The number of children of this node.
    pub fn num_children(&self) -> (r: usize)
        ensures
            r == self.tv().children.len(),
    {
        self.children.len()
    }

    /// The `i`-th child of this node.
    pub fn child(&self, i: usize) -> (r: &TreeNode)
        requires
            i < self.tv().children.len(),
        ensures
            r.tv() == self.tv().children[i as int],
    {
        &self.children[i]
    }
}

/// The first node in `t` whose value is `v`, looking at a node before its
/// children and at the children from the last one to the first.
pub open spec fn dfs(t: TreeV, v: (i32, i32)) -> Option<TreeV>
    decreases t, 0int,
{
    if t.val == v {
        Some(t)
    } else {
        dfs_kids(t.children, v, t.children.len() as int)
    }
}

/// The first node with value `v` in the trees `cs[..n]`, from the last one
/// to the first.
pub open spec fn dfs_kids(cs: Seq<TreeV>, v: (i32, i32), n: int) -> Option<TreeV>
    decreases cs, n,
{
    if n <= 0 || n > cs.len() {
        None
    } else {
        match dfs(cs[n - 1], v) {
            Some(f) => Some(f),
            None => dfs_kids(cs, v, n - 1),
        }
    }
}

/// The node of `head` that a depth-first search finds for the value `val`,
/// as [`dfs`] says.
#[allow(non_snake_case)]
pub fn DFS(head: &TreeNode, val: (i32, i32)) -> (r: Option<&TreeNode>)
    ensures
        match r {
            Some(n) => dfs(head.tv(), val) == Some(n.tv()),
            None => dfs(head.tv(), val) is None,
        },
    decreases head,
{
    if head.val.0 == val.0 && head.val.1 == val.1 {
        return Some(head);
    }
    let mut n = head.children.len();
    while n > 0
        invariant
            n <= head.children@.len(),
            head.tv().val != val,
            dfs(head.tv(), val) == dfs_kids(head.tv().children, val, n as int),
        decreases n,
    {
        let child: &TreeNode = &head.children[n - 1];
        assert(head.tv().children[n - 1] == child.tv());
        match DFS(child, val) {
            Some(f) => {
                return Some(f);
            },
            None => {},
        }
        n = n - 1;
    }
    None
}

/// A node that the depth-first search finds has the value it was looked
/// for with, and a search for the root's own value finds the root.
pub proof fn lemma_dfs_finds_value(t: TreeV, v: (i32, i32))
    ensures
        dfs(t, v) matches Some(n) ==> n.val == v,
        dfs(t, t.val) == Some(t),
    decreases t, 1int,
{
    lemma_dfs_kids_finds_value(t.children, v, t.children.len() as int);
}

/// A node that the search among the trees `cs[..n]` finds has the value it
/// was looked for with.
pub proof fn lemma_dfs_kids_finds_value(cs: Seq<TreeV>, v: (i32, i32), n: int)
    ensures
        dfs_kids(cs, v, n) matches Some(f) ==> f.val == v,
    decreases cs, n,
{
    if 0 < n <= cs.len() {
        lemma_dfs_finds_value(cs[n - 1], v);
        lemma_dfs_kids_finds_value(cs, v, n - 1);
    }
}

/// Why the parser stops without a tree.
#[derive(Debug, PartialEq, Eq, Structural)]
pub enum ParseError {
    /// The stack ran empty.
    EmptyStack,
    /// `Eof`, `Null` or the kind of a token is not in the symbol table.
    MissingSymbol,
    /// The parser needs a token after the last one.
    OutOfTokens,
    /// The terminal on top of the stack (first number) is not the kind of
    /// the next token (second number).
    TerminalMismatch(i32, i32),
    /// The table has no production for the non-terminal on top of the stack
    /// and the next token.
    NoRule,
    /// A symbol, a column or a production number falls outside the table or
    /// the productions.
    OutOfRange,
    /// The nodes outnumber what an `i32` numbers.
    Overflow,
}

/// What the parser reads.
pub struct ParseCtx {
    pub map: Map<Seq<char>, i32>,
    /// The number of the first terminal: column `c` is terminal `c + count`.
    pub count: int,
    /// The kinds of the tokens.
    pub kinds: Seq<Seq<char>>,
    pub final_rules: Seq<Seq<i32>>,
    pub table: Seq<Seq<i32>>,
    pub terms: Set<i32>,
    pub eof: i32,
}

/// The parser's state: the stack of (symbol, node number) pairs, the next
/// token, the tree built so far, kept as the symbol of each node and the
/// positions of its children, node `k` having the number `k + 1`, and the
/// positions of the leaves that the parser is done with, in order.
pub struct ParseState {
    pub stack: Seq<(i32, i32)>,
    pub ct: int,
    pub syms: Seq<i32>,
    pub kids: Seq<Seq<int>>,
    pub cc: int,
    pub read: Seq<int>,
}

/// What one step of the parser leads to.
pub enum StepResult {
    Done,
    Next(ParseState),
    Fail(ParseError),
}

/// The number of the kind of the next token.
pub open spec fn token_id(c: ParseCtx, ct: int) -> Result<i32, ParseError> {
    if ct < 0 || ct >= c.kinds.len() {
        Err(ParseError::OutOfTokens)
    } else if !c.map.contains_key(c.kinds[ct]) {
        Err(ParseError::MissingSymbol)
    } else {
        Ok(c.map[c.kinds[ct]])
    }
}

/// The state after the top of the stack, the node `x`, is expanded by the
/// production `rule`: its symbols are pushed from the last to the first,
/// each as a new node numbered in turn, and the new nodes become, in that
/// order, children of `x`; by an empty production, `x` is done with.
pub open spec fn expand(s: ParseState, x: (i32, i32), rule: Seq<i32>) -> ParseState {
    let k = rule.len() as int;
    let rev = Seq::new(k as nat, |t: int| rule[k - 1 - t]);
    ParseState {
        stack: s.stack.drop_last() + Seq::new(k as nat, |t: int| (rev[t], (s.cc + t) as i32)),
        ct: s.ct,
        syms: s.syms + rev,
        kids: (s.kids + Seq::new(k as nat, |t: int| Seq::<int>::empty())).update(
            x.1 - 1,
            s.kids[x.1 - 1] + Seq::new(k as nat, |t: int| s.cc - 1 + t),
        ),
        cc: s.cc + k,
        read: if k == 0 {
            s.read.push(x.1 - 1)
        } else {
            s.read
        },
    }
}

/// One step of the parser. It stops at `Eof`; it pops `Null`; a terminal
/// must be the next token's kind, which is then read; a non-terminal is
/// expanded by the production that the table gives for it and the next
/// token.
pub open spec fn parse_step(c: ParseCtx, s: ParseState) -> StepResult {
    if s.stack.len() == 0 {
        StepResult::Fail(ParseError::EmptyStack)
    } else {
        let x = s.stack.last();
        if x.0 == c.eof {
            StepResult::Done
        } else if !c.map.contains_key("Null"@) {
            StepResult::Fail(ParseError::MissingSymbol)
        } else if x.0 == c.map["Null"@] {
            StepResult::Next(
                ParseState { stack: s.stack.drop_last(), read: s.read.push(x.1 - 1), ..s },
            )
        } else if c.terms.contains(x.0) {
            match token_id(c, s.ct) {
                Err(e) => StepResult::Fail(e),
                Ok(k) => if x.0 == k {
                    StepResult::Next(
                        ParseState {
                            stack: s.stack.drop_last(),
                            ct: s.ct + 1,
                            read: s.read.push(x.1 - 1),
                            ..s
                        },
                    )
                } else {
                    StepResult::Fail(ParseError::TerminalMismatch(x.0, k))
                },
            }
        } else if !(0 <= x.0 < c.table.len()) {
            StepResult::Fail(ParseError::OutOfRange)
        } else {
            match token_id(c, s.ct) {
                Err(e) => StepResult::Fail(e),
                Ok(k) => if k < c.count || k - c.count >= c.table[x.0 as int].len() {
                    StepResult::Fail(ParseError::OutOfRange)
                } else {
                    let v = c.table[x.0 as int][k - c.count];
                    if v == -1 {
                        StepResult::Fail(ParseError::NoRule)
                    } else if v < 0 || v >= c.final_rules.len() {
                        StepResult::Fail(ParseError::OutOfRange)
                    } else if s.cc + c.final_rules[v as int].len() > i32::MAX {
                        StepResult::Fail(ParseError::Overflow)
                    } else {
                        StepResult::Next(expand(s, x, c.final_rules[v as int]))
                    }
                },
            }
        }
    }
}

pub proof fn lemma_step_measure(c: ParseCtx, s: ParseState)
    requires
        0 <= s.cc <= i32::MAX,
    ensures
        parse_step(c, s) matches StepResult::Next(s2) ==> 0 <= s2.cc <= i32::MAX && (i32::MAX
            - s2.cc) + s2.stack.len() < (i32::MAX - s.cc) + s.stack.len(),
{
}

/// The parser's run from `s` to its end.
pub open spec fn parse_run(c: ParseCtx, s: ParseState) -> Result<ParseState, ParseError>
    decreases (i32::MAX - s.cc) + s.stack.len(),
{
    if s.cc < 0 || s.cc > i32::MAX {
        Err(ParseError::Overflow)
    } else {
        match parse_step(c, s) {
            StepResult::Done => Ok(s),
            StepResult::Fail(e) => Err(e),
            StepResult::Next(s2) => {
                proof {
                    lemma_step_measure(c, s);
                }
                parse_run(c, s2)
            },
        }
    }
}

/// The tree under node `k` of the arena `syms`, `kids`.
pub open spec fn build_tree(syms: Seq<i32>, kids: Seq<Seq<int>>, k: int) -> TreeV
    decreases syms.len() - k,
{
    TreeV {
        val: (syms[k], (k + 1) as i32),
        children: Seq::new(
            kids[k].len(),
            |x: int|
                {
                    if 0 <= k < kids[k][x] < syms.len() {
                        build_tree(syms, kids, kids[k][x])
                    } else {
                        arbitrary()
                    }
                },
        ),
    }
}

/// The state the parser starts in: `Eof` under the start symbol, which is
/// the root, node 1.
pub open spec fn parse_init(eof: i32) -> ParseState {
    ParseState {
        stack: seq![(eof, 0i32), (0i32, 1i32)],
        ct: 0,
        syms: seq![0i32],
        kids: seq![Seq::<int>::empty()],
        cc: 2,
        read: seq![],
    }
}

/// The parse tree of the tokens, or why there is none.
pub open spec fn parse_spec(c: ParseCtx) -> Result<TreeV, ParseError> {
    if !c.map.contains_key("Eof"@) {
        Err(ParseError::MissingSymbol)
    } else {
        match parse_run(ParseCtx { eof: c.map["Eof"@], ..c }, parse_init(c.map["Eof"@])) {
            Ok(s) => Ok(build_tree(s.syms, s.kids, 0)),
            Err(e) => Err(e),
        }
    }
}

/// Whether every node of `t` that has children has, read from its last
/// child to its first, the symbols of one of the productions `prods`.
pub open spec fn derives(t: TreeV, prods: Seq<Seq<i32>>) -> bool
    decreases t,
{
    &&& (t.children.len() == 0 || prods.contains(
        Seq::new(t.children.len(), |x: int| t.children[t.children.len() - 1 - x].val.0),
    ))
    &&& forall|x: int| 0 <= x < t.children.len() ==> derives(#[trigger] t.children[x], prods)
}

/// Whether node `k` of the arena has no children or, read from the last to
/// the first, the symbols of one of the productions `prods`.
pub open spec fn node_derives(syms: Seq<i32>, kids: Seq<Seq<int>>, k: int, prods: Seq<Seq<i32>>) -> bool {
    kids[k].len() == 0 || prods.contains(
        Seq::new(kids[k].len(), |x: int| syms[kids[k][kids[k].len() - 1 - x]]),
    )
}

/// What every state of a run keeps: the root is the start symbol; the
/// nodes are numbered in turn; every child comes after its parent; every
/// node with children was expanded by a production; `Eof` lies at the
/// bottom of the stack, above it nodes that have no children yet, in the
/// order in which they were numbered.
pub open spec fn run_inv(c: ParseCtx, s: ParseState) -> bool {
    &&& s.syms.len() >= 1
    &&& s.syms[0] == 0
    &&& s.cc == s.syms.len() + 1
    &&& s.cc <= i32::MAX
    &&& arena_wf(s.syms, s.kids)
    &&& forall|k: int| 0 <= k < s.kids.len() ==> #[trigger] node_derives(s.syms, s.kids, k, c.final_rules)
    &&& s.stack.len() >= 1
    &&& s.stack[0] == (c.eof, 0i32)
    &&& forall|i: int|
        1 <= i < s.stack.len() ==> 1 <= (#[trigger] s.stack[i]).1 <= s.syms.len() && s.kids[s.stack[i].1
            - 1].len() == 0
    &&& forall|i: int, j: int|
        1 <= i < j < s.stack.len() ==> (#[trigger] s.stack[i]).1 < (#[trigger] s.stack[j]).1
}

/// One step of the parser keeps [`run_inv`].
pub proof fn lemma_step_keeps_inv(c: ParseCtx, s: ParseState)
    requires
        run_inv(c, s),
    ensures
        parse_step(c, s) matches StepResult::Next(s2) ==> run_inv(c, s2),
{
    if let StepResult::Next(s2) = parse_step(c, s) {
        let x = s.stack.last();
        assert(s.stack.len() >= 2) by {
            if s.stack.len() == 1 {
                assert(x == s.stack[0]);
            }
        }
        if s2.cc == s.cc {
            assert forall|i: int, j: int| 1 <= i < j < s2.stack.len() implies (#[trigger] s2.stack[i]).1
                < (#[trigger] s2.stack[j]).1 by {
                assert(s2.stack[i] == s.stack[i]);
                assert(s2.stack[j] == s.stack[j]);
            }
            assert forall|i: int| 1 <= i < s2.stack.len() implies 1 <= (#[trigger] s2.stack[i]).1
                <= s2.syms.len() && s2.kids[s2.stack[i].1 - 1].len() == 0 by {
                assert(s2.stack[i] == s.stack[i]);
            }
            assert(s2.stack[0] == s.stack[0]);
            assert(s2.syms == s.syms && s2.kids == s.kids);
            assert(run_inv(c, s2));
        } else {
            let v = c.table[x.0 as int][c.map[c.kinds[s.ct]] - c.count];
            let rule = c.final_rules[v as int];
            assert(s2 == expand(s, x, rule));
            let n = rule.len() as int;
            let rev = Seq::new(n as nat, |t: int| rule[n - 1 - t]);
            let p = x.1 - 1;
            let old_len = s.syms.len() as int;
            assert(1 <= x.1 <= s.syms.len());
            assert(s.kids[p].len() == 0);
            assert(s2.kids[p] =~= Seq::new(n as nat, |t: int| s.cc - 1 + t));
            assert(s2.syms.len() == old_len + n);
            assert(s2.kids.len() == old_len + n);
            assert forall|k: int, y: int|
                0 <= k < s2.kids.len() && 0 <= y < s2.kids[k].len() implies k < #[trigger] s2.kids[k][y]
                < s2.syms.len() by {
                if k < old_len && k != p {
                    assert(s2.kids[k] == s.kids[k]);
                }
            }
            assert(arena_wf(s2.syms, s2.kids));
            assert forall|k: int| 0 <= k < s2.kids.len() implies #[trigger] node_derives(
                s2.syms,
                s2.kids,
                k,
                c.final_rules,
            ) by {
                if k == p {
                    let q = Seq::new(
                        s2.kids[k].len(),
                        |y: int| s2.syms[s2.kids[k][s2.kids[k].len() - 1 - y]],
                    );
                    assert(q =~= rule);
                    assert(c.final_rules[v as int] == rule);
                } else if k < old_len {
                    assert(s2.kids[k] == s.kids[k]);
                    assert(node_derives(s.syms, s.kids, k, c.final_rules));
                    if s.kids[k].len() > 0 {
                        let q1 = Seq::new(
                            s.kids[k].len(),
                            |y: int| s.syms[s.kids[k][s.kids[k].len() - 1 - y]],
                        );
                        let q2 = Seq::new(
                            s2.kids[k].len(),
                            |y: int| s2.syms[s2.kids[k][s2.kids[k].len() - 1 - y]],
                        );
                        assert forall|y: int| 0 <= y < q1.len() implies q1[y] == q2[y] by {
                            let z = s.kids[k][s.kids[k].len() - 1 - y];
                            assert(k < z < old_len);
                        }
                        assert(q1 =~= q2);
                    }
                } else {
                    assert(s2.kids[k].len() == 0);
                }
            }
            let base = s.stack.drop_last();
            assert forall|i: int| 1 <= i < s2.stack.len() implies 1 <= (#[trigger] s2.stack[i]).1
                <= s2.syms.len() && s2.kids[s2.stack[i].1 - 1].len() == 0 by {
                if i < base.len() {
                    assert(s2.stack[i] == s.stack[i]);
                    assert(s.stack[i].1 < x.1);
                } else {
                    assert(s2.stack[i].1 == s.cc + (i - base.len()));
                }
            }
            assert forall|i: int, j: int| 1 <= i < j < s2.stack.len() implies (#[trigger] s2.stack[i]).1
                < (#[trigger] s2.stack[j]).1 by {
                if j < base.len() {
                    assert(s2.stack[i] == s.stack[i]);
                    assert(s2.stack[j] == s.stack[j]);
                } else if i < base.len() {
                    assert(s2.stack[i] == s.stack[i]);
                    assert(s.stack[i].1 < x.1);
                    assert(s2.stack[j].1 == s.cc + (j - base.len()));
                } else {
                    assert(s2.stack[i].1 == s.cc + (i - base.len()));
                    assert(s2.stack[j].1 == s.cc + (j - base.len()));
                }
            }
            assert(s2.syms[0] == s.syms[0]);
            assert(s2.stack[0] == s.stack[0]);
            assert(run_inv(c, s2));
        }
    }
}

/// A whole run keeps [`run_inv`].
pub proof fn lemma_run_keeps_inv(c: ParseCtx, s: ParseState)
    requires
        run_inv(c, s),
    ensures
        parse_run(c, s) matches Ok(f) ==> run_inv(c, f),
        parse_run(c, s) != Err::<ParseState, ParseError>(ParseError::EmptyStack),
    decreases (i32::MAX - s.cc) + s.stack.len(),
{
    if 0 <= s.cc <= i32::MAX {
        if let StepResult::Next(s2) = parse_step(c, s) {
            lemma_step_keeps_inv(c, s);
            lemma_step_measure(c, s);
            lemma_run_keeps_inv(c, s2);
        }
    }
}

/// The tree under node `k` of an arena in which every node with children
/// was expanded by a production is one in which every node was.
pub proof fn lemma_build_tree_derives(syms: Seq<i32>, kids: Seq<Seq<int>>, prods: Seq<Seq<i32>>, k: int)
    requires
        arena_wf(syms, kids),
        forall|j: int| 0 <= j < kids.len() ==> #[trigger] node_derives(syms, kids, j, prods),
        0 <= k < syms.len(),
    ensures
        derives(build_tree(syms, kids, k), prods),
    decreases syms.len() - k,
{
    let t = build_tree(syms, kids, k);
    let n = kids[k].len();
    assert forall|x: int| 0 <= x < n implies t.children[x] == build_tree(syms, kids, kids[k][x]) by {
        assert(k < kids[k][x] < syms.len());
    }
    assert forall|x: int| 0 <= x < t.children.len() implies derives(#[trigger] t.children[x], prods) by {
        assert(k < kids[k][x] < syms.len());
        lemma_build_tree_derives(syms, kids, prods, kids[k][x]);
    }
    assert(node_derives(syms, kids, k, prods));
    if n > 0 {
        let q1 = Seq::new(n, |x: int| syms[kids[k][n - 1 - x]]);
        let q2 = Seq::new(t.children.len(), |x: int| t.children[t.children.len() - 1 - x].val.0);
        assert forall|x: int| 0 <= x < n implies q1[x] == q2[x] by {
            assert(k < kids[k][n - 1 - x] < syms.len());
        }
        assert(q1 =~= q2);
    }
}

/// The parser's tree has the start symbol at its root, which is node 1,
/// and every node with children was expanded by a production: its
/// children's symbols, from the last child to the first, are one of the
/// numbered productions. The parser never finds its stack empty.
pub proof fn lemma_parse_tree_derives(c: ParseCtx)
    ensures
        parse_spec(c) matches Ok(t) ==> t.val == (0i32, 1i32) && derives(t, c.final_rules),
        parse_spec(c) != Err::<TreeV, ParseError>(ParseError::EmptyStack),
{
    if c.map.contains_key("Eof"@) {
        let c2 = ParseCtx { eof: c.map["Eof"@], ..c };
        let s0 = parse_init(c.map["Eof"@]);
        assert(run_inv(c2, s0)) by {
            assert(node_derives(s0.syms, s0.kids, 0, c2.final_rules));
        }
        lemma_run_keeps_inv(c2, s0);
        assert(c2.final_rules == c.final_rules);
        if let Ok(f) = parse_run(c2, s0) {
            lemma_build_tree_derives(f.syms, f.kids, c.final_rules, 0);
        }
    }
}

/// What the parser reads, as the arguments of [`ParserConstructor`] give it.
#[allow(non_snake_case)]
pub open spec fn parse_ctx(
    map: Map<Seq<char>, i32>,
    count: usize,
    tokens: Seq<Token>,
    final_rules: Seq<Vec<i32>>,
    T: Seq<Vec<i32>>,
    terminal_indices: Set<i32>,
) -> ParseCtx {
    ParseCtx {
        map: map,
        count: count as int,
        kinds: tokens.map_values(|t: Token| t.kind@),
        final_rules: prods_view(final_rules),
        table: prods_view(T),
        terms: terminal_indices,
        eof: 0,
    }
}

/// The view of the children lists of the arena.
pub open spec fn kids_view(kids: Seq<Vec<usize>>) -> Seq<Seq<int>> {
    kids.map_values(|v: Vec<usize>| v@.map_values(|x: usize| x as int))
}

/// Whether every child comes after its parent in the arena.
pub open spec fn arena_wf(syms: Seq<i32>, kids: Seq<Seq<int>>) -> bool {
    &&& kids.len() == syms.len()
    &&& forall|k: int, x: int|
        0 <= k < kids.len() && 0 <= x < kids[k].len() ==> k < #[trigger] kids[k][x] < syms.len()
}

/// The tree under node `k` of the arena.
fn build(syms: &Vec<i32>, kids: &Vec<Vec<usize>>, k: usize) -> (r: TreeNode)
    requires
        k < syms@.len() <= i32::MAX,
        arena_wf(syms@, kids_view(kids@)),
    ensures
        r.tv() == build_tree(syms@, kids_view(kids@), k as int),
    decreases syms@.len() - k,
{
    let ghost kv = kids_view(kids@);
    let mut children: Vec<Box<TreeNode>> = Vec::new();
    let n = kids[k].len();
    let mut x: usize = 0;
    assert(kv[k as int].len() == n);
    while x < n
        invariant
            x <= n,
            n == kids@[k as int]@.len(),
            k < syms@.len() <= i32::MAX,
            kv == kids_view(kids@),
            arena_wf(syms@, kv),
            children@.len() == x,
            forall|y: int|
                0 <= y < x ==> (#[trigger] children@[y]).tv() == build_tree(
                    syms@,
                    kv,
                    kv[k as int][y],
                ),
        decreases n - x,
    {
        let child_index = kids[k][x];
        assert(kv[k as int][x as int] == child_index as int);
        assert(k < child_index < syms@.len());
        let child = build(syms, kids, child_index);
        children.push(Box::new(child));
        x = x + 1;
    }
    let r = TreeNode { val: (syms[k], (k + 1) as i32), children };
    assert(r.tv().children =~= build_tree(syms@, kv, k as int).children);
    r
}

/// Adding a child `c0 - 1 + t` to node `p` and an empty node at the end of
/// an arena whose node `p` got the children `c0 - 1 .. c0 - 1 + t` and which
/// got `t` empty nodes gives one more of each.
proof fn lemma_kids_step(base: Seq<Seq<int>>, p: int, t: nat, c0: int)
    requires
        0 <= p < base.len(),
    ensures
        ({
            let before = (base + Seq::new(t, |u: int| Seq::<int>::empty())).update(
                p,
                base[p] + Seq::new(t, |u: int| c0 - 1 + u),
            );
            before.update(p, before[p].push(c0 - 1 + t)).push(Seq::<int>::empty()) == (base
                + Seq::new(t + 1, |u: int| Seq::<int>::empty())).update(
                p,
                base[p] + Seq::new(t + 1, |u: int| c0 - 1 + u),
            )
        }),
{
    let before = (base + Seq::new(t, |u: int| Seq::<int>::empty())).update(
        p,
        base[p] + Seq::new(t, |u: int| c0 - 1 + u),
    );
    let after = (base + Seq::new(t + 1, |u: int| Seq::<int>::empty())).update(
        p,
        base[p] + Seq::new(t + 1, |u: int| c0 - 1 + u),
    );
    assert(before[p].push(c0 - 1 + t) =~= after[p]);
    assert(before.update(p, before[p].push(c0 - 1 + t)).push(Seq::<int>::empty()) =~= after);
}

/// The parse tree of the tokens, or why there is none, as [`parse_spec`]
/// says.
#[allow(non_snake_case)]
pub fn parse_tokens(
    map: &SymbolTable,
    count: usize,
    tokens: &Vec<Token>,
    final_rules: &mut Vec<Vec<i32>>,
    T: &Vec<Vec<i32>>,
    terminal_indices: &HashSet<i32>,
) -> (r: Result<TreeNode, ParseError>)
    ensures
        final(final_rules)@ == old(final_rules)@,
        ({
            let c = parse_ctx(map@, count, tokens@, old(final_rules)@, T@, terminal_indices@);
            match r {
                Ok(t) => parse_spec(c) == Ok::<TreeV, ParseError>(t.tv()),
                Err(e) => parse_spec(c) == Err::<TreeV, ParseError>(e),
            }
        }),
{
    broadcast use vstd::string::group_string_axioms;

    let ghost c0 = parse_ctx(map@, count, tokens@, final_rules@, T@, terminal_indices@);
    let eof_name = "Eof".to_string();
    let eof = match map.get(&eof_name) {
        None => {
            return Err(ParseError::MissingSymbol);
        },
        Some(e) => e,
    };
    let ghost c = ParseCtx { eof: eof, ..c0 };
    let null_name = "Null".to_string();
    let null_opt = map.get(&null_name);
    let mut stack: Vec<(i32, i32)> = Vec::new();
    stack.push((eof, 0));
    stack.push((0, 1));
    let mut syms: Vec<i32> = Vec::new();
    syms.push(0);
    let mut kids: Vec<Vec<usize>> = Vec::new();
    kids.push(Vec::new());
    let mut cc: i32 = 2;
    let mut ct: usize = 0;
    assert(stack@ =~= parse_init(eof).stack);
    assert(syms@ =~= parse_init(eof).syms);
    assert(kids@[0]@.len() == 0);
    assert(kids_view(kids@)[0] =~= Seq::<int>::empty());
    assert(kids_view(kids@) =~= parse_init(eof).kids);
    let ghost mut read: Seq<int> = Seq::empty();
    let ghost target = parse_run(c, parse_init(eof));
    loop
        invariant
            c == (ParseCtx { eof: eof, ..c0 }),
            c0 == parse_ctx(map@, count, tokens@, final_rules@, T@, terminal_indices@),
            final_rules@ == old(final_rules)@,
            null_opt == (if map@.contains_key("Null"@) {
                Some(map@["Null"@])
            } else {
                None::<i32>
            }),
            map@.contains_key("Eof"@),
            eof == map@["Eof"@],
            2 <= cc <= i32::MAX,
            syms@.len() == cc - 1,
            arena_wf(syms@, kids_view(kids@)),
            stack@.len() >= 1,
            stack@[0] == (eof, 0i32),
            forall|i: int|
                1 <= i < stack@.len() ==> 1 <= (#[trigger] stack@[i]).1 <= syms@.len() && syms@[stack@[i].1 - 1]
                    == stack@[i].0,
            target == parse_run(c, parse_init(eof)),
            parse_run(
                c,
                ParseState {
                    stack: stack@,
                    ct: ct as int,
                    syms: syms@,
                    kids: kids_view(kids@),
                    cc: cc as int,
                    read: read,
                },
            ) == target,
        ensures
            map@.contains_key("Eof"@),
            eof == map@["Eof"@],
            2 <= cc <= i32::MAX,
            syms@.len() == cc - 1,
            arena_wf(syms@, kids_view(kids@)),
            c == (ParseCtx { eof: eof, ..c0 }),
            c0 == parse_ctx(map@, count, tokens@, final_rules@, T@, terminal_indices@),
            final_rules@ == old(final_rules)@,
            target == parse_run(c, parse_init(eof)),
            parse_run(
                c,
                ParseState {
                    stack: stack@,
                    ct: ct as int,
                    syms: syms@,
                    kids: kids_view(kids@),
                    cc: cc as int,
                    read: read,
                },
            ) == target,
            parse_step(
                c,
                ParseState {
                    stack: stack@,
                    ct: ct as int,
                    syms: syms@,
                    kids: kids_view(kids@),
                    cc: cc as int,
                    read: read,
                },
            ) is Done,
        decreases (i32::MAX - cc) + stack@.len(),
    {
        let ghost cur = ParseState {
            stack: stack@,
            ct: ct as int,
            syms: syms@,
            kids: kids_view(kids@),
            cc: cc as int,
            read: read,
        };
        let x = stack[stack.len() - 1];
        if x.0 == eof {
            assert(parse_step(c, cur) is Done);
            break;
        }
        let null = match null_opt {
            None => {
                return Err(ParseError::MissingSymbol);
            },
            Some(n) => n,
        };
        if x.0 == null {
            stack.pop();
            proof {
                read = read.push(x.1 - 1);
            }
            assert(stack@ =~= cur.stack.drop_last());
            continue;
        }
        let is_terminal = terminal_indices.contains(&x.0);
        if !is_terminal && (x.0 < 0 || x.0 as usize >= T.len()) {
            return Err(ParseError::OutOfRange);
        }
        if ct >= tokens.len() {
            return Err(ParseError::OutOfTokens);
        }
        let k = match map.get(&tokens[ct].kind) {
            None => {
                return Err(ParseError::MissingSymbol);
            },
            Some(k) => k,
        };
        assert(c.kinds[ct as int] == tokens@[ct as int].kind@);
        if is_terminal {
            if x.0 == k {
                stack.pop();
                proof {
                    read = read.push(x.1 - 1);
                }
                assert(stack@ =~= cur.stack.drop_last());
                ct = ct + 1;
            } else {
                return Err(ParseError::TerminalMismatch(x.0, k));
            }
        } else {
            let row = &T[x.0 as usize];
            assert(c.table[x.0 as int] == row@);
            if k < 0 || (k as usize) < count || (k as usize) - count >= row.len() {
                return Err(ParseError::OutOfRange);
            }
            let v = row[(k as usize) - count];
            if v == -1 {
                return Err(ParseError::NoRule);
            }
            if v < 0 || v as usize >= final_rules.len() {
                return Err(ParseError::OutOfRange);
            }
            let rule = &final_rules[v as usize];
            assert(c.final_rules[v as int] == rule@);
            if rule.len() > (i32::MAX - cc) as usize {
                return Err(ParseError::Overflow);
            }
            let ghost next = expand(cur, x, rule@);
            let ghost rl = rule@.len() as int;
            let ghost rev = Seq::new(rl as nat, |t: int| rule@[rl - 1 - t]);
            let ghost cc0 = cc as int;
            let parent = (x.1 - 1) as usize;
            assert(1 <= x.1 <= syms@.len());
            stack.pop();
            let ghost base_stack = stack@;
            let ghost base_syms = syms@;
            let ghost base_kids = kids_view(kids@);
            let mut t: usize = 0;
            let n = rule.len();
            assert(base_stack =~= base_stack + Seq::new(0, |u: int| (rev[u], (cc0 + u) as i32)));
            assert(base_syms =~= base_syms + rev.take(0));
            assert(base_kids =~= (base_kids + Seq::new(0, |u: int| Seq::<int>::empty())).update(
                parent as int,
                base_kids[parent as int] + Seq::new(0, |u: int| cc0 - 1 + u),
            ));
            while t < n
                invariant
                    t <= n,
                    n == rule@.len(),
                    rl == n,
                    rev == Seq::new(rl as nat, |u: int| rule@[rl - 1 - u]),
                    parent < base_syms.len(),
                    cc0 + n <= i32::MAX,
                    cc == cc0 + t,
                    base_syms.len() == cc0 - 1,
                    arena_wf(base_syms, base_kids),
                    kids@.len() == base_syms.len() + t,
                    stack@ == base_stack + Seq::new(t as nat, |u: int| (rev[u], (cc0 + u) as i32)),
                    syms@ == base_syms + rev.take(t as int),
                    kids_view(kids@) == (base_kids + Seq::new(
                        t as nat,
                        |u: int| Seq::<int>::empty(),
                    )).update(
                        parent as int,
                        base_kids[parent as int] + Seq::new(t as nat, |u: int| cc0 - 1 + u),
                    ),
                decreases n - t,
            {
                let ui = rule[n - 1 - t];
                assert(ui == rev[t as int]);
                let ghost kv0 = kids_view(kids@);
                let ghost kd0 = kids@;
                let ghost t0 = t as int;
                stack.push((ui, cc));
                syms.push(ui);
                kids[parent].push((cc - 1) as usize);
                kids.push(Vec::new());
                proof {
                    let want = kv0.update(parent as int, kv0[parent as int].push(cc0 - 1 + t0)).push(
                        Seq::<int>::empty(),
                    );
                    assert forall|y: int| 0 <= y < kids@.len() implies #[trigger] kids_view(kids@)[y]
                        =~= want[y] by {
                        if y == kd0.len() {
                            assert(kids@[y]@.len() == 0);
                        } else if y == parent as int {
                            assert(kids@[y]@ == kd0[y]@.push((cc0 - 1 + t0) as usize));
                        } else {
                            assert(kids@[y] == kd0[y]);
                        }
                    }
                    assert(kids_view(kids@) =~= want);
                    lemma_kids_step(base_kids, parent as int, t0 as nat, cc0);
                }
                cc = cc + 1;
                t = t + 1;
                assert(stack@ =~= base_stack + Seq::new(t as nat, |u: int| (rev[u], (cc0 + u) as i32)));
                assert(syms@ =~= base_syms + rev.take(t as int));
            }
            if n == 0 {
                proof {
                    read = read.push(x.1 - 1);
                }
            }
            assert(rev.take(n as int) =~= rev);
            assert(stack@ == next.stack);
            assert(syms@ == next.syms);
            assert(kids_view(kids@) == next.kids);
            assert(arena_wf(syms@, kids_view(kids@)));
        }
    }
    let ghost fin = ParseState {
        stack: stack@,
        ct: ct as int,
        syms: syms@,
        kids: kids_view(kids@),
        cc: cc as int,
        read: read,
    };
    assert(target == Ok::<ParseState, ParseError>(fin));
    Ok(build(&syms, &kids, 0))
}

/// The parse tree of the tokens, for tokens that the grammar's table
/// parses, as [`parse_spec`] says.
#[allow(non_snake_case)]
pub fn ParserConstructor(
    map: &SymbolTable,
    count: usize,
    tokens: &Vec<Token>,
    final_rules: &mut Vec<Vec<i32>>,
    T: &Vec<Vec<i32>>,
    terminal_indices: &HashSet<i32>,
) -> (r: TreeNode)
    requires
        parse_spec(
            parse_ctx(map@, count, tokens@, old(final_rules)@, T@, terminal_indices@),
        ) is Ok,
    ensures
        final(final_rules)@ == old(final_rules)@,
        parse_spec(parse_ctx(map@, count, tokens@, old(final_rules)@, T@, terminal_indices@))
            == Ok::<TreeV, ParseError>(r.tv()),
{
    match parse_tokens(map, count, tokens, final_rules, T, terminal_indices) {
        Ok(t) => t,
        Err(e) => {
            proof {
                assert(false);
            }
            TreeNode { val: (0, 0), children: Vec::new() }
        },
    }
}

/// A line of the printed parse tree: the text before the symbol's name
/// (indentation and branch), the symbol, and the line of the node's parent.
pub struct TreeLine {
    pub lead: String,
    pub sym: i32,
    pub parent: Option<usize>,
}

/// A line number as an integer.
pub open spec fn opt_int(p: Option<usize>) -> Option<int> {
    match p {
        Some(x) => Some(x as int),
        None => None,
    }
}

impl View for TreeLine {
    type V = (Seq<char>, i32, Option<int>);

    open spec fn view(&self) -> (Seq<char>, i32, Option<int>) {
        (self.lead@, self.sym, opt_int(self.parent))
    }
}

/// The views of a sequence of lines.
pub open spec fn line_views(v: Seq<TreeLine>) -> Seq<(Seq<char>, i32, Option<int>)> {
    v.map_values(|l: TreeLine| l@)
}

/// The branch drawn before the name of a node that is, or is not, the last
/// child of its parent.
pub open spec fn branch(is_last: bool) -> Seq<char> {
    if is_last {
        seq!['└', '─', '─', ' ']
    } else {
        seq!['├', '─', '─', ' ']
    }
}

/// What the children of a node that is, or is not, the last child of its
/// parent add to the indentation: a bar goes on down past a node that has
/// siblings after it.
pub open spec fn child_indent(is_last: bool) -> Seq<char> {
    if is_last {
        seq![' ', ' ', ' ', ' ', ' ']
    } else {
        seq!['│', ' ', ' ', ' ', ' ', ' ', ' ']
    }
}

/// The lines of the tree `t` printed with indentation `prefix`, its first
/// line being line `at`: the node's own line (no branch when the
/// indentation is empty), then its children in order, each one indented
/// further.
pub open spec fn render(t: TreeV, prefix: Seq<char>, is_last: bool, parent: Option<int>, at: int) -> Seq<
    (Seq<char>, i32, Option<int>),
>
    decreases t, 0int,
{
    let lead = if prefix.len() == 0 {
        Seq::<char>::empty()
    } else {
        prefix + branch(is_last)
    };
    seq![(lead, t.val.0, parent)] + render_kids(t.children, prefix + child_indent(is_last), 0, at, at + 1)
}

/// The lines of the trees `cs[i..]`, children of the node on line `parent`,
/// the first of them being line `at`.
pub open spec fn render_kids(cs: Seq<TreeV>, prefix: Seq<char>, i: int, parent: int, at: int) -> Seq<
    (Seq<char>, i32, Option<int>),
>
    decreases cs, cs.len() - i,
{
    if i < 0 || i >= cs.len() {
        seq![]
    } else {
        let first = render(cs[i], prefix, i == cs.len() - 1, Some(parent), at);
        first + render_kids(cs, prefix, i + 1, parent, at + first.len())
    }
}

/// `v` followed by the characters of `extra`.
fn with_chars(v: &Vec<char>, extra: &[char]) -> (r: Vec<char>)
    ensures
        r@ == v@ + extra@,
{
    let mut r = sub_vec(v, 0, v.len());
    let mut i: usize = 0;
    while i < extra.len()
        invariant
            i <= extra@.len(),
            r@ == v@ + extra@.take(i as int),
        decreases extra@.len() - i,
    {
        r.push(extra[i]);
        i = i + 1;
        assert(r@ =~= v@ + extra@.take(i as int));
    }
    assert(extra@.take(i as int) =~= extra@);
    r
}

/// Appends to `out` the lines of `t` as [`render`] says.
fn render_into(
    t: &TreeNode,
    prefix: &Vec<char>,
    is_last: bool,
    parent: Option<usize>,
    out: &mut Vec<TreeLine>,
)
    ensures
        line_views(final(out)@) == line_views(old(out)@) + render(
            t.tv(),
            prefix@,
            is_last,
            opt_int(parent),
            old(out)@.len() as int,
        ),
    decreases t,
{
    let at = out.len();
    let bar: [char; 4] = if is_last {
        ['└', '─', '─', ' ']
    } else {
        ['├', '─', '─', ' ']
    };
    assert(bar@ == branch(is_last));
    let lead = if prefix.len() == 0 {
        string_of_all(&Vec::new())
    } else {
        string_of_all(&with_chars(prefix, &bar))
    };
    let ghost lead_v = if prefix@.len() == 0 {
        Seq::<char>::empty()
    } else {
        prefix@ + branch(is_last)
    };
    assert(lead@ =~= lead_v);
    let ghost start = line_views(out@);
    out.push(TreeLine { lead, sym: t.val.0, parent });
    assert(line_views(out@) =~= start + seq![(lead_v, t.tv().val.0, opt_int(parent))]);
    let cp = if is_last {
        with_chars(prefix, &[' ', ' ', ' ', ' ', ' '])
    } else {
        with_chars(prefix, &['│', ' ', ' ', ' ', ' ', ' ', ' '])
    };
    assert(cp@ =~= prefix@ + child_indent(is_last));
    let ghost cs = t.tv().children;
    let ghost target = start + render(t.tv(), prefix@, is_last, opt_int(parent), at as int);
    let n = t.children.len();
    let mut i: usize = 0;
    assert(line_views(out@) + render_kids(cs, cp@, 0, at as int, out@.len() as int) =~= target);
    while i < n
        invariant
            i <= n,
            n == cs.len(),
            cs == t.tv().children,
            at < out@.len(),
            line_views(out@) + render_kids(cs, cp@, i as int, at as int, out@.len() as int) == target,
        decreases n - i,
    {
        let child: &TreeNode = &t.children[i];
        assert(cs[i as int] == child.tv());
        let ghost before = line_views(out@);
        let ghost blen = out@.len();
        render_into(child, &cp, i == n - 1, Some(at), out);
        let ghost first = render(cs[i as int], cp@, i == n - 1, Some(at as int), blen as int);
        assert(line_views(out@) == before + first);
        assert(out@.len() == (blen + first.len()) as int) by {
            assert(line_views(out@).len() == out@.len());
            assert(before.len() == blen);
        }
        assert(render_kids(cs, cp@, i as int, at as int, blen as int) == first + render_kids(
            cs,
            cp@,
            i + 1,
            at as int,
            (blen + first.len()) as int,
        ));
        assert((before + first) + render_kids(cs, cp@, i + 1, at as int, (blen + first.len()) as int) =~= before
            + (first + render_kids(cs, cp@, i + 1, at as int, (blen + first.len()) as int)));
        i = i + 1;
    }
    assert(render_kids(cs, cp@, i as int, at as int, out@.len() as int) =~= Seq::empty());
    assert(line_views(out@) =~= target);
}

/// The lines in which the tree `root` is printed, as [`render`] says from
/// an empty indentation: each node on a line of its own, its children below
/// it in order, drawn with box-drawing branches.
pub fn tree_lines(root: &TreeNode) -> (r: Vec<TreeLine>)
    ensures
        line_views(r@) == render(root.tv(), seq![], true, None, 0),
{
    let mut out: Vec<TreeLine> = Vec::new();
    let prefix: Vec<char> = Vec::new();
    render_into(root, &prefix, true, None, &mut out);
    assert(line_views(out@) =~= render(root.tv(), seq![], true, None, 0));
    out
}

} // verus!
