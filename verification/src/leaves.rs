//! The leaves of the parse tree: read from left to right they are the
//! symbols that the parser was done with, in order, and the terminals
//! among them are the kinds of the tokens it read.
use vstd::prelude::*;
use crate::table::cells_name_prods;
use crate::parse_tree::{
    TreeV,
    ParseCtx,
    ParseError,
    parse_spec,
    ParseState,
    StepResult,
    arena_wf,
    build_tree,
    expand,
    parse_init,
    parse_run,
    parse_step,
    run_inv,
    lemma_step_keeps_inv,
    lemma_step_measure,
};

verus! {

/// The symbols of the leaves of `t`, from left to right, a node's children
/// being read from the last to the first, in the order of the production
/// that the parser expanded it by.
pub open spec fn frontier(t: TreeV) -> Seq<i32>
    decreases t, 1int,
{
    if t.children.len() == 0 {
        seq![t.val.0]
    } else {
        frontier_from(t.children, t.children.len() as int)
    }
}

/// The symbols of the leaves of the trees `cs[n - 1]`, ..., `cs[0]`.
pub open spec fn frontier_from(cs: Seq<TreeV>, n: int) -> Seq<i32>
    decreases cs, n,
{
    if n <= 0 || n > cs.len() {
        seq![]
    } else {
        frontier(cs[n - 1]) + frontier_from(cs, n - 1)
    }
}

/// The positions of the leaves under node `k` of an arena, from left to
/// right.
pub open spec fn leaves(syms: Seq<i32>, kids: Seq<Seq<int>>, k: int) -> Seq<int>
    decreases syms.len() - k, 1int, 0int,
{
    if !(0 <= k < syms.len()) || kids.len() != syms.len() {
        seq![]
    } else if kids[k].len() == 0 {
        seq![k]
    } else {
        leaves_from(syms, kids, k, kids[k].len() as int)
    }
}

/// The positions of the leaves under the children `kids[k][n - 1]`, ...,
/// `kids[k][0]` of node `k`.
pub open spec fn leaves_from(syms: Seq<i32>, kids: Seq<Seq<int>>, k: int, n: int) -> Seq<int>
    decreases syms.len() - k, 0int, n,
{
    if !(0 <= k < syms.len()) || kids.len() != syms.len() || n <= 0 || n > kids[k].len() {
        seq![]
    } else {
        let ch = kids[k][n - 1];
        (if k < ch < syms.len() {
            leaves(syms, kids, ch)
        } else {
            seq![]
        }) + leaves_from(syms, kids, k, n - 1)
    }
}

/// The positions of the nodes on the stack above its bottom, from the top
/// down.
pub open spec fn pending(stack: Seq<(i32, i32)>) -> Seq<int> {
    if stack.len() == 0 {
        seq![]
    } else {
        Seq::new((stack.len() - 1) as nat, |i: int| stack[stack.len() - 1 - i].1 - 1)
    }
}

/// The symbols of the nodes at the positions `ps`.
pub open spec fn symbols_at(syms: Seq<i32>, ps: Seq<int>) -> Seq<i32> {
    ps.map_values(|i: int| syms[i])
}

/// The terminals other than `null` among `xs`, in order.
pub open spec fn matched(xs: Seq<i32>, terms: Set<i32>, null: i32) -> Seq<i32>
    decreases xs.len(),
{
    if xs.len() == 0 {
        seq![]
    } else {
        matched(xs.drop_last(), terms, null) + (if terms.contains(xs.last()) && xs.last() != null {
            seq![xs.last()]
        } else {
            seq![]
        })
    }
}

/// The symbol numbers of the kinds of the first `n` tokens.
pub open spec fn token_ids(c: ParseCtx, n: int) -> Seq<i32> {
    Seq::new(n as nat, |i: int| c.map[c.kinds[i]])
}

/// `s` with each `p` replaced by `rep`.
pub open spec fn subst(s: Seq<int>, p: int, rep: Seq<int>) -> Seq<int>
    decreases s.len(),
{
    if s.len() == 0 {
        seq![]
    } else {
        subst(s.drop_last(), p, rep) + (if s.last() == p {
            rep
        } else {
            seq![s.last()]
        })
    }
}

/// Replacing in a concatenation is concatenating the replacements.
pub proof fn lemma_subst_concat(a: Seq<int>, b: Seq<int>, p: int, rep: Seq<int>)
    ensures
        subst(a + b, p, rep) == subst(a, p, rep) + subst(b, p, rep),
    decreases b.len(),
{
    if b.len() == 0 {
        assert(a + b =~= a);
        assert(subst(a, p, rep) + subst(b, p, rep) =~= subst(a, p, rep));
    } else {
        assert((a + b).drop_last() =~= a + b.drop_last());
        lemma_subst_concat(a, b.drop_last(), p, rep);
        assert((a + b).last() == b.last());
    }
}

/// Replacing what does not occur changes nothing.
pub proof fn lemma_subst_absent(s: Seq<int>, p: int, rep: Seq<int>)
    requires
        !s.contains(p),
    ensures
        subst(s, p, rep) == s,
    decreases s.len(),
{
    if s.len() > 0 {
        assert(!s.drop_last().contains(p)) by {
            if s.drop_last().contains(p) {
                let j = choose|j: int| 0 <= j < s.drop_last().len() && s.drop_last()[j] == p;
                assert(s[j] == p);
            }
        }
        lemma_subst_absent(s.drop_last(), p, rep);
        assert(s.last() != p) by {
            assert(s[s.len() - 1] == s.last());
        }
        assert(s.drop_last().push(s.last()) =~= s);
    }
}

/// The leaves under node `k` of an arena, read as symbols, are the leaves
/// of the tree under it.
pub proof fn lemma_frontier_leaves(syms: Seq<i32>, kids: Seq<Seq<int>>, k: int)
    requires
        arena_wf(syms, kids),
        0 <= k < syms.len(),
    ensures
        frontier(build_tree(syms, kids, k)) == symbols_at(syms, leaves(syms, kids, k)),
    decreases syms.len() - k, 1int, 0int,
{
    let t = build_tree(syms, kids, k);
    if kids[k].len() > 0 {
        lemma_frontier_leaves_from(syms, kids, k, kids[k].len() as int);
    } else {
        assert(symbols_at(syms, seq![k]) =~= seq![syms[k]]);
    }
}

/// The leaves under the last `n` children of node `k`, read as symbols.
pub proof fn lemma_frontier_leaves_from(syms: Seq<i32>, kids: Seq<Seq<int>>, k: int, n: int)
    requires
        arena_wf(syms, kids),
        0 <= k < syms.len(),
        0 <= n <= kids[k].len(),
    ensures
        frontier_from(build_tree(syms, kids, k).children, n) == symbols_at(
            syms,
            leaves_from(syms, kids, k, n),
        ),
    decreases syms.len() - k, 0int, n,
{
    if n > 0 {
        let t = build_tree(syms, kids, k);
        let ch = kids[k][n - 1];
        assert(k < ch < syms.len());
        assert(t.children[n - 1] == build_tree(syms, kids, ch));
        lemma_frontier_leaves(syms, kids, ch);
        lemma_frontier_leaves_from(syms, kids, k, n - 1);
        let a = leaves(syms, kids, ch);
        let b = leaves_from(syms, kids, k, n - 1);
        assert(symbols_at(syms, a + b) =~= symbols_at(syms, a) + symbols_at(syms, b));
    } else {
        assert(symbols_at(syms, seq![]) =~= seq![]);
    }
}

/// The new nodes `lo`, `lo + 1`, ... below `lo + m` of an arena, from the
/// last to the first.
pub open spec fn down_from(lo: int, m: int) -> Seq<int> {
    Seq::new(m as nat, |t: int| lo + m - 1 - t)
}

/// Expanding the leaf `p` of an arena by `m` new leaf children replaces, in
/// the leaves under every old node, `p` by the new nodes from the last to
/// the first.
pub proof fn lemma_expand_leaves(
    syms: Seq<i32>,
    kids: Seq<Seq<int>>,
    syms2: Seq<i32>,
    kids2: Seq<Seq<int>>,
    p: int,
    m: int,
    k: int,
)
    requires
        arena_wf(syms, kids),
        arena_wf(syms2, kids2),
        0 <= p < syms.len(),
        kids[p].len() == 0,
        m >= 1,
        syms2.len() == syms.len() + m,
        syms2.subrange(0, syms.len() as int) == syms,
        kids2[p] == Seq::new(m as nat, |t: int| syms.len() + t),
        forall|j: int| 0 <= j < syms.len() && j != p ==> kids2[j] == kids[j],
        forall|j: int| syms.len() <= j < syms2.len() ==> (#[trigger] kids2[j]).len() == 0,
        0 <= k < syms.len(),
    ensures
        leaves(syms2, kids2, k) == subst(leaves(syms, kids, k), p, down_from(syms.len() as int, m)),
    decreases syms.len() - k, 1int, 0int,
{
    let lo = syms.len() as int;
    let rep = down_from(lo, m);
    if k == p {
        lemma_new_leaves_from(syms, syms2, kids2, p, m, m);
        assert(subst(seq![p], p, rep) =~= rep) by {
            let s1 = seq![p];
            assert(s1.drop_last() =~= Seq::<int>::empty());
            assert(subst(Seq::<int>::empty(), p, rep) == Seq::<int>::empty());
            assert(s1.last() == p);
            assert(subst(s1, p, rep) == subst(s1.drop_last(), p, rep) + rep);
        }
    } else if kids[k].len() == 0 {
        assert(subst(seq![k], p, rep) =~= seq![k]) by {
            let s1 = seq![k];
            assert(s1.drop_last() =~= Seq::<int>::empty());
            assert(subst(Seq::<int>::empty(), p, rep) == Seq::<int>::empty());
            assert(s1.last() == k);
            assert(subst(s1, p, rep) == subst(s1.drop_last(), p, rep) + seq![k]);
        }
    } else {
        lemma_expand_leaves_from(syms, kids, syms2, kids2, p, m, k, kids[k].len() as int);
    }
}

/// The step of [`lemma_expand_leaves`] over the last `n` children of `k`.
pub proof fn lemma_expand_leaves_from(
    syms: Seq<i32>,
    kids: Seq<Seq<int>>,
    syms2: Seq<i32>,
    kids2: Seq<Seq<int>>,
    p: int,
    m: int,
    k: int,
    n: int,
)
    requires
        arena_wf(syms, kids),
        arena_wf(syms2, kids2),
        0 <= p < syms.len(),
        kids[p].len() == 0,
        m >= 1,
        syms2.len() == syms.len() + m,
        syms2.subrange(0, syms.len() as int) == syms,
        kids2[p] == Seq::new(m as nat, |t: int| syms.len() + t),
        forall|j: int| 0 <= j < syms.len() && j != p ==> kids2[j] == kids[j],
        forall|j: int| syms.len() <= j < syms2.len() ==> (#[trigger] kids2[j]).len() == 0,
        0 <= k < syms.len(),
        k != p,
        0 <= n <= kids[k].len(),
    ensures
        leaves_from(syms2, kids2, k, n) == subst(
            leaves_from(syms, kids, k, n),
            p,
            down_from(syms.len() as int, m),
        ),
    decreases syms.len() - k, 0int, n,
{
    let rep = down_from(syms.len() as int, m);
    if n > 0 {
        let ch = kids[k][n - 1];
        assert(kids2[k] == kids[k]);
        assert(k < ch < syms.len());
        lemma_expand_leaves(syms, kids, syms2, kids2, p, m, ch);
        lemma_expand_leaves_from(syms, kids, syms2, kids2, p, m, k, n - 1);
        lemma_subst_concat(leaves(syms, kids, ch), leaves_from(syms, kids, k, n - 1), p, rep);
    }
}

/// The new leaf children of `p`, from the `n`-th down to the first, are
/// their own leaves.
pub proof fn lemma_new_leaves_from(
    syms: Seq<i32>,
    syms2: Seq<i32>,
    kids2: Seq<Seq<int>>,
    p: int,
    m: int,
    n: int,
)
    requires
        arena_wf(syms2, kids2),
        0 <= p < syms.len(),
        syms2.len() == syms.len() + m,
        kids2[p] == Seq::new(m as nat, |t: int| syms.len() + t),
        forall|j: int| syms.len() <= j < syms2.len() ==> (#[trigger] kids2[j]).len() == 0,
        0 <= n <= m,
    ensures
        leaves_from(syms2, kids2, p, n) == Seq::new(n as nat, |t: int| syms.len() + n - 1 - t),
    decreases n,
{
    if n > 0 {
        lemma_new_leaves_from(syms, syms2, kids2, p, m, n - 1);
        let ch = syms.len() + n - 1;
        assert(kids2[p][n - 1] == ch);
        assert(leaves(syms2, kids2, ch) == seq![ch]);
        assert(leaves_from(syms2, kids2, p, n) =~= Seq::new(
            n as nat,
            |t: int| syms.len() + n - 1 - t,
        ));
    } else {
        assert(leaves_from(syms2, kids2, p, 0) =~= Seq::<int>::empty());
    }
}

/// What every state of a run keeps besides [`run_inv`]: each node on the
/// stack has the stack's symbol; the leaves of the tree are the nodes that
/// the parser is done with, in order, followed by those on the stack, from
/// the top down, each once; and the terminals other than `Null` among the
/// nodes done with are the kinds of the tokens read so far.
pub open spec fn leaves_inv(c: ParseCtx, s: ParseState) -> bool {
    &&& run_inv(c, s)
    &&& forall|i: int| 1 <= i < s.stack.len() ==> s.syms[(#[trigger] s.stack[i]).1 - 1] == s.stack[i].0
    &&& forall|j: int| 0 <= j < s.read.len() ==> 0 <= #[trigger] s.read[j] < s.syms.len()
    &&& (s.read + pending(s.stack)).no_duplicates()
    &&& leaves(s.syms, s.kids, 0) == s.read + pending(s.stack)
    &&& 0 <= s.ct <= c.kinds.len()
    &&& matched(symbols_at(s.syms, s.read), c.terms, c.map["Null"@]) == token_ids(c, s.ct)
}

/// Being done with the node `p` at the top of the stack, which stays a leaf.
proof fn lemma_done_with_top(c: ParseCtx, s: ParseState, s2: ParseState, added: bool)
    requires
        leaves_inv(c, s),
        s.stack.len() >= 2,
        s2.stack == s.stack.drop_last(),
        s2.syms == s.syms,
        s2.kids == s.kids,
        s2.read == s.read.push(s.stack.last().1 - 1),
        run_inv(c, s2),
        added ==> c.terms.contains(s.stack.last().0) && s.stack.last().0 != c.map["Null"@] && 0 <= s.ct
            < c.kinds.len() && s.stack.last().0 == c.map[c.kinds[s.ct]] && s2.ct == s.ct + 1,
        !added ==> !(c.terms.contains(s.stack.last().0) && s.stack.last().0 != c.map["Null"@])
            && s2.ct == s.ct,
    ensures
        leaves_inv(c, s2),
{
    let x = s.stack.last();
    let p = x.1 - 1;
    let pend = pending(s.stack);
    assert(s.stack[s.stack.len() - 1] == x);
    assert(pend[0] == p);
    assert(pending(s2.stack) =~= pend.drop_first());
    assert(s2.read + pending(s2.stack) =~= s.read + pend);
    assert forall|i: int| 1 <= i < s2.stack.len() implies s2.syms[(#[trigger] s2.stack[i]).1 - 1]
        == s2.stack[i].0 by {
        assert(s2.stack[i] == s.stack[i]);
    }
    assert forall|j: int| 0 <= j < s2.read.len() implies 0 <= #[trigger] s2.read[j] < s2.syms.len() by {
        if j < s.read.len() {
            assert(s2.read[j] == s.read[j]);
        }
    }
    let xs = symbols_at(s.syms, s.read);
    assert(symbols_at(s2.syms, s2.read) =~= xs.push(s.syms[p]));
    assert(xs.push(s.syms[p]).drop_last() =~= xs);
    assert(s.syms[p] == x.0);
    let null = c.map["Null"@];
    let ys = xs.push(s.syms[p]);
    assert(ys.last() == x.0);
    assert(matched(ys, c.terms, null) == matched(xs, c.terms, null) + (if c.terms.contains(x.0)
        && x.0 != null {
        seq![x.0]
    } else {
        seq![]
    }));
    if added {
        assert(token_ids(c, s2.ct) =~= token_ids(c, s.ct) + seq![x.0]);
    } else {
        assert(matched(symbols_at(s2.syms, s2.read), c.terms, c.map["Null"@]) =~= matched(
            xs,
            c.terms,
            c.map["Null"@],
        ));
    }
}

/// One step of the parser keeps [`leaves_inv`].
pub proof fn lemma_step_keeps_leaves(c: ParseCtx, s: ParseState)
    requires
        leaves_inv(c, s),
    ensures
        parse_step(c, s) matches StepResult::Next(s2) ==> leaves_inv(c, s2),
{
    lemma_step_keeps_inv(c, s);
    if let StepResult::Next(s2) = parse_step(c, s) {
        let x = s.stack.last();
        assert(s.stack.len() >= 2) by {
            if s.stack.len() == 1 {
                assert(x == s.stack[0]);
            }
        }
        let null = c.map["Null"@];
        if x.0 == null {
            lemma_done_with_top(c, s, s2, false);
        } else if c.terms.contains(x.0) {
            lemma_done_with_top(c, s, s2, true);
        } else {
            let v = c.table[x.0 as int][c.map[c.kinds[s.ct]] - c.count];
            let rule = c.final_rules[v as int];
            assert(s2 == expand(s, x, rule));
            let m = rule.len() as int;
            let p = x.1 - 1;
            let lo = s.syms.len() as int;
            assert(s.stack[s.stack.len() - 1] == x);
            assert(1 <= x.1 <= s.syms.len());
            assert(s.kids[p].len() == 0);
            if m == 0 {
                assert(s2.kids =~= s.kids);
                assert(s2.syms =~= s.syms);
                assert(s2.stack =~= s.stack.drop_last());
                assert(s.syms[p] == x.0);
                lemma_done_with_top(c, s, s2, false);
            } else {
                let rev = Seq::new(m as nat, |t: int| rule[m - 1 - t]);
                let rep = down_from(lo, m);
                let pend = pending(s.stack);
                assert(s2.syms.subrange(0, lo) =~= s.syms);
                assert(s2.kids[p] =~= Seq::new(m as nat, |t: int| lo + t));
                assert forall|j: int| 0 <= j < lo && j != p implies s2.kids[j] == s.kids[j] by {}
                assert forall|j: int| lo <= j < s2.syms.len() implies (#[trigger] s2.kids[j]).len()
                    == 0 by {}
                lemma_expand_leaves(s.syms, s.kids, s2.syms, s2.kids, p, m, 0);
                assert(pend[0] == p);
                assert(pend =~= seq![p] + pend.drop_first());
                assert(!s.read.contains(p)) by {
                    if s.read.contains(p) {
                        let j = choose|j: int| 0 <= j < s.read.len() && s.read[j] == p;
                        assert((s.read + pend)[j] == (s.read + pend)[s.read.len() as int]);
                    }
                }
                assert(!pend.drop_first().contains(p)) by {
                    if pend.drop_first().contains(p) {
                        let j = choose|j: int|
                            0 <= j < pend.drop_first().len() && pend.drop_first()[j] == p;
                        assert((s.read + pend)[s.read.len() + j + 1] == (s.read + pend)[s.read.len() as int]);
                    }
                }
                lemma_subst_concat(s.read, pend, p, rep);
                lemma_subst_concat(seq![p], pend.drop_first(), p, rep);
                lemma_subst_absent(s.read, p, rep);
                lemma_subst_absent(pend.drop_first(), p, rep);
                assert(subst(seq![p], p, rep) =~= rep) by {
                    let s1 = seq![p];
                    assert(s1.drop_last() =~= Seq::<int>::empty());
                    assert(subst(Seq::<int>::empty(), p, rep) == Seq::<int>::empty());
                    assert(s1.last() == p);
                    assert(subst(s1, p, rep) == subst(s1.drop_last(), p, rep) + rep);
                }
                let base = s.stack.drop_last();
                assert forall|i: int| 0 <= i < pending(s2.stack).len() implies #[trigger] pending(
                    s2.stack,
                )[i] == (rep + pend.drop_first())[i] by {
                    let len2 = s2.stack.len() as int;
                    if i < m {
                        assert(s2.stack[len2 - 1 - i] == (rev[m - 1 - i], (s.cc + (m - 1 - i)) as i32));
                    } else {
                        assert(s2.stack[len2 - 1 - i] == base[len2 - 1 - i]);
                        assert(base[len2 - 1 - i] == s.stack[s.stack.len() - 1 - (i - m + 1)]);
                    }
                }
                assert(pending(s2.stack) =~= rep + pend.drop_first());
                assert(s2.read == s.read);
                assert(s2.read + pending(s2.stack) =~= s.read + rep + pend.drop_first());
                assert((s.read + rep + pend.drop_first()).no_duplicates()) by {
                    let all = s.read + rep + pend.drop_first();
                    let old_all = s.read + pend;
                    assert forall|a: int, b: int| 0 <= a < b < all.len() implies all[a] != all[b] by {
                        let rl = s.read.len() as int;
                        if a < rl && b < rl {
                            assert(all[a] == old_all[a] && all[b] == old_all[b]);
                        } else if a < rl && b < rl + m {
                            assert(all[a] == s.read[a]);
                            assert(all[b] == rep[b - rl]);
                        } else if a < rl {
                            assert(all[a] == old_all[a]);
                            assert(all[b] == old_all[b - m + 1]);
                            assert(pend[b - rl - m + 1] == s.stack[s.stack.len() - 1 - (b - rl - m + 1)].1 - 1);
                        } else if b < rl + m {
                            assert(all[a] == rep[a - rl] && all[b] == rep[b - rl]);
                        } else if a < rl + m {
                            assert(all[a] == rep[a - rl]);
                            assert(all[b] == pend[b - rl - m + 1]);
                            assert(pend[b - rl - m + 1] == s.stack[s.stack.len() - 1 - (b - rl - m + 1)].1 - 1);
                        } else {
                            assert(all[a] == old_all[a - m + 1]);
                            assert(all[b] == old_all[b - m + 1]);
                        }
                    }
                }
                assert forall|i: int| 1 <= i < s2.stack.len() implies s2.syms[(
                #[trigger] s2.stack[i]).1 - 1] == s2.stack[i].0 by {
                    if i < base.len() {
                        assert(s2.stack[i] == s.stack[i]);
                        assert(s2.syms[s.stack[i].1 - 1] == s.syms[s.stack[i].1 - 1]);
                    } else {
                        let t = i - base.len();
                        assert(s2.stack[i] == (rev[t], (s.cc + t) as i32));
                        assert(s2.syms[lo + t] == rev[t]);
                    }
                }
                assert forall|j: int| 0 <= j < s2.read.len() implies 0 <= #[trigger] s2.read[j]
                    < s2.syms.len() by {
                    assert(s2.read[j] == s.read[j]);
                }
                assert(symbols_at(s2.syms, s2.read) =~= symbols_at(s.syms, s.read)) by {
                    assert forall|j: int| 0 <= j < s.read.len() implies symbols_at(s2.syms, s2.read)[j]
                        == symbols_at(s.syms, s.read)[j] by {
                        assert(s2.syms[s.read[j]] == s.syms[s.read[j]]);
                    }
                }
            }
        }
    }
}

/// A whole run keeps [`leaves_inv`].
pub proof fn lemma_run_keeps_leaves(c: ParseCtx, s: ParseState)
    requires
        leaves_inv(c, s),
    ensures
        parse_run(c, s) matches Ok(f) ==> leaves_inv(c, f),
    decreases (i32::MAX - s.cc) + s.stack.len(),
{
    if 0 <= s.cc <= i32::MAX {
        if let StepResult::Next(s2) = parse_step(c, s) {
            lemma_step_keeps_leaves(c, s);
            lemma_step_measure(c, s);
            lemma_run_keeps_leaves(c, s2);
        }
    }
}

/// The parser's last state, or why it stops.
pub open spec fn parse_final(c: ParseCtx) -> Result<ParseState, ParseError> {
    parse_run(ParseCtx { eof: c.map["Eof"@], ..c }, parse_init(c.map["Eof"@]))
}

/// The leaves of the parser's tree, from left to right, are the nodes that
/// it was done with, in order (the `Null`s it popped, the terminals it
/// matched and the non-terminals it expanded by an empty production),
/// followed by the nodes left on its stack above the bottom `Eof`. The
/// terminals other than `Null` among the nodes it was done with are the
/// kinds of the tokens that it read, in order; so, when nothing is left
/// above `Eof`, those of the tree's leaves are.
pub proof fn lemma_parse_leaves(c: ParseCtx)
    requires
        c.map.contains_key("Eof"@),
    ensures
        parse_final(c) matches Ok(f) ==> {
            let t = build_tree(f.syms, f.kids, 0);
            let null = c.map["Null"@];
            &&& parse_spec(c) == Ok::<TreeV, ParseError>(t)
            &&& frontier(t) == symbols_at(f.syms, f.read) + symbols_at(f.syms, pending(f.stack))
            &&& 0 <= f.ct <= c.kinds.len()
            &&& matched(symbols_at(f.syms, f.read), c.terms, null) == token_ids(c, f.ct)
            &&& f.stack.len() == 1 ==> matched(frontier(t), c.terms, null) == token_ids(c, f.ct)
        },
{
    let c2 = ParseCtx { eof: c.map["Eof"@], ..c };
    let s0 = parse_init(c.map["Eof"@]);
    assert(run_inv(c2, s0)) by {
        assert(crate::parse_tree::node_derives(s0.syms, s0.kids, 0, c2.final_rules));
    }
    assert(leaves(s0.syms, s0.kids, 0) == seq![0int]);
    assert(pending(s0.stack) =~= seq![0int]);
    assert(s0.read + pending(s0.stack) =~= seq![0int]);
    assert(symbols_at(s0.syms, s0.read) =~= Seq::<i32>::empty());
    assert(token_ids(c2, 0) =~= Seq::<i32>::empty());
    assert(leaves_inv(c2, s0));
    lemma_run_keeps_leaves(c2, s0);
    if let Ok(f) = parse_run(c2, s0) {
        let t = build_tree(f.syms, f.kids, 0);
        lemma_frontier_leaves(f.syms, f.kids, 0);
        assert(symbols_at(f.syms, f.read + pending(f.stack)) =~= symbols_at(f.syms, f.read)
            + symbols_at(f.syms, pending(f.stack)));
        assert(token_ids(c2, f.ct) == token_ids(c, f.ct));
        if f.stack.len() == 1 {
            assert(pending(f.stack) =~= Seq::<int>::empty());
            assert(symbols_at(f.syms, pending(f.stack)) =~= Seq::<i32>::empty());
            assert(frontier(t) =~= symbols_at(f.syms, f.read));
        }
    }
}

/// Whether every node of `t` that has children has, read from its last
/// child to its first, the symbols of one of the productions of its own
/// symbol's rule in `rules`.
pub open spec fn derives_in(t: TreeV, rules: Seq<Seq<Seq<i32>>>) -> bool
    decreases t,
{
    &&& (t.children.len() == 0 || (0 <= t.val.0 < rules.len() && rules[t.val.0 as int].contains(
        Seq::new(t.children.len(), |x: int| t.children[t.children.len() - 1 - x].val.0),
    )))
    &&& forall|x: int| 0 <= x < t.children.len() ==> derives_in(#[trigger] t.children[x], rules)
}

/// Whether node `k` of the arena has no children or, read from the last to
/// the first, the symbols of one of the productions of its symbol's rule.
pub open spec fn node_derives_in(syms: Seq<i32>, kids: Seq<Seq<int>>, k: int, rules: Seq<Seq<Seq<i32>>>) -> bool {
    kids[k].len() == 0 || (0 <= syms[k] < rules.len() && rules[syms[k] as int].contains(
        Seq::new(kids[k].len(), |x: int| syms[kids[k][kids[k].len() - 1 - x]]),
    ))
}

/// One step of the parser keeps every node expanded by a production of its
/// own rule, when the table's cells name such productions.
pub proof fn lemma_step_keeps_derives_in(c: ParseCtx, rules: Seq<Seq<Seq<i32>>>, s: ParseState)
    requires
        leaves_inv(c, s),
        cells_name_prods(c.table, c.final_rules, rules, -1, 0),
        forall|k: int| 0 <= k < s.kids.len() ==> #[trigger] node_derives_in(s.syms, s.kids, k, rules),
    ensures
        parse_step(c, s) matches StepResult::Next(s2) ==> forall|k: int|
            0 <= k < s2.kids.len() ==> #[trigger] node_derives_in(s2.syms, s2.kids, k, rules),
{
    lemma_step_keeps_inv(c, s);
    if let StepResult::Next(s2) = parse_step(c, s) {
        let x = s.stack.last();
        assert(s.stack.len() >= 2) by {
            if s.stack.len() == 1 {
                assert(x == s.stack[0]);
            }
        }
        if s2.syms == s.syms && s2.kids == s.kids {
        } else {
            let col = c.map[c.kinds[s.ct]] - c.count;
            let v = c.table[x.0 as int][col];
            let rule = c.final_rules[v as int];
            assert(s2 == expand(s, x, rule));
            let m = rule.len() as int;
            let p = x.1 - 1;
            let lo = s.syms.len() as int;
            assert(s.stack[s.stack.len() - 1] == x);
            assert(1 <= x.1 <= s.syms.len());
            assert(s.kids[p].len() == 0);
            assert(s.syms[p] == x.0);
            assert(c.table[x.0 as int][col] != -1);
            assert(0 <= v < c.final_rules.len() && x.0 < rules.len() && rules[x.0 as int].contains(
                c.final_rules[v as int],
            ));
            assert forall|k: int| 0 <= k < s2.kids.len() implies #[trigger] node_derives_in(
                s2.syms,
                s2.kids,
                k,
                rules,
            ) by {
                if k == p {
                    let q = Seq::new(
                        s2.kids[k].len(),
                        |y: int| s2.syms[s2.kids[k][s2.kids[k].len() - 1 - y]],
                    );
                    assert(s2.kids[p] =~= s.kids[p] + Seq::new(m as nat, |t: int| s.cc - 1 + t));
                    if m > 0 {
                        assert(q =~= rule);
                    }
                    assert(s2.syms[p] == s.syms[p]);
                } else if k < lo {
                    assert(s2.kids[k] == s.kids[k]);
                    assert(s2.syms[k] == s.syms[k]);
                    assert(node_derives_in(s.syms, s.kids, k, rules));
                    if s.kids[k].len() > 0 {
                        let q1 = Seq::new(
                            s.kids[k].len(),
                            |y: int| s.syms[s.kids[k][s.kids[k].len() - 1 - y]],
                        );
                        let q2 = Seq::new(
                            s2.kids[k].len(),
                            |y: int| s2.syms[s2.kids[k][s2.kids[k].len() - 1 - y]],
                        );
                        assert forall|y: int| 0 <= y < q1.len() implies q1[y] == q2[y] by {
                            let z = s.kids[k][s.kids[k].len() - 1 - y];
                            assert(k < z < lo);
                        }
                        assert(q1 =~= q2);
                    }
                } else {
                    assert(s2.kids[k].len() == 0);
                }
            }
        }
    }
}

/// A whole run keeps every node expanded by a production of its own rule,
/// when the table's cells name such productions.
pub proof fn lemma_run_keeps_derives_in(c: ParseCtx, rules: Seq<Seq<Seq<i32>>>, s: ParseState)
    requires
        leaves_inv(c, s),
        cells_name_prods(c.table, c.final_rules, rules, -1, 0),
        forall|k: int| 0 <= k < s.kids.len() ==> #[trigger] node_derives_in(s.syms, s.kids, k, rules),
    ensures
        parse_run(c, s) matches Ok(f) ==> leaves_inv(c, f) && forall|k: int|
            0 <= k < f.kids.len() ==> #[trigger] node_derives_in(f.syms, f.kids, k, rules),
    decreases (i32::MAX - s.cc) + s.stack.len(),
{
    if 0 <= s.cc <= i32::MAX {
        if let StepResult::Next(s2) = parse_step(c, s) {
            lemma_step_keeps_leaves(c, s);
            lemma_step_keeps_derives_in(c, rules, s);
            lemma_step_measure(c, s);
            lemma_run_keeps_derives_in(c, rules, s2);
        }
    }
}

/// The tree under node `k` of an arena in which every node with children
/// was expanded by a production of its own rule is one in which every node
/// was.
pub proof fn lemma_build_tree_derives_in(
    syms: Seq<i32>,
    kids: Seq<Seq<int>>,
    rules: Seq<Seq<Seq<i32>>>,
    k: int,
)
    requires
        arena_wf(syms, kids),
        forall|j: int| 0 <= j < kids.len() ==> #[trigger] node_derives_in(syms, kids, j, rules),
        0 <= k < syms.len(),
    ensures
        derives_in(build_tree(syms, kids, k), rules),
    decreases syms.len() - k,
{
    let t = build_tree(syms, kids, k);
    let n = kids[k].len();
    assert forall|x: int| 0 <= x < n implies t.children[x] == build_tree(syms, kids, kids[k][x]) by {
        assert(k < kids[k][x] < syms.len());
    }
    assert forall|x: int| 0 <= x < t.children.len() implies derives_in(#[trigger] t.children[x], rules) by {
        assert(k < kids[k][x] < syms.len());
        lemma_build_tree_derives_in(syms, kids, rules, kids[k][x]);
    }
    assert(node_derives_in(syms, kids, k, rules));
    if n > 0 {
        let q1 = Seq::new(n, |x: int| syms[kids[k][n - 1 - x]]);
        let q2 = Seq::new(t.children.len(), |x: int| t.children[t.children.len() - 1 - x].val.0);
        assert forall|x: int| 0 <= x < n implies q1[x] == q2[x] by {
            assert(k < kids[k][n - 1 - x] < syms.len());
        }
        assert(q1 =~= q2);
    }
}

/// When every cell of the parse table that is not -1 names one of the
/// productions of its row's rule in `rules`, the parser's tree is a
/// derivation in `rules`: the children of each node, read from the last to
/// the first, are the symbols of one of the productions of the rule of the
/// node's own symbol.
pub proof fn lemma_parse_tree_derives_in(c: ParseCtx, rules: Seq<Seq<Seq<i32>>>)
    requires
        cells_name_prods(c.table, c.final_rules, rules, -1, 0),
    ensures
        parse_spec(c) matches Ok(t) ==> derives_in(t, rules),
{
    if c.map.contains_key("Eof"@) {
        lemma_parse_leaves(c);
        let c2 = ParseCtx { eof: c.map["Eof"@], ..c };
        let s0 = parse_init(c.map["Eof"@]);
        assert(run_inv(c2, s0)) by {
            assert(crate::parse_tree::node_derives(s0.syms, s0.kids, 0, c2.final_rules));
        }
        assert(leaves(s0.syms, s0.kids, 0) == seq![0int]);
        assert(pending(s0.stack) =~= seq![0int]);
        assert(s0.read + pending(s0.stack) =~= seq![0int]);
        assert(symbols_at(s0.syms, s0.read) =~= Seq::<i32>::empty());
        assert(token_ids(c2, 0) =~= Seq::<i32>::empty());
        assert(leaves_inv(c2, s0));
        assert(node_derives_in(s0.syms, s0.kids, 0, rules));
        assert(c2.table == c.table && c2.final_rules == c.final_rules);
        lemma_run_keeps_derives_in(c2, rules, s0);
        if let Ok(f) = parse_run(c2, s0) {
            lemma_build_tree_derives_in(f.syms, f.kids, rules, 0);
        }
    }
}

} // verus!
