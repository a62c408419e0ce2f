//! FIRST sets: for each non-terminal, the terminals that can begin what it
//! derives. They are computed by a memoised depth-first walk over the rules
//! in which a symbol counts as done as soon as its walk begins.
use vstd::prelude::*;
use std::collections::HashSet;
use crate::names::{SymbolTable, has_id};
use crate::grammar::{Symbol, rules_view};
use crate::sets::{sets_view, set_extend, empty_sets, false_flags, count_false, lemma_count_false_set, lemma_count_false_le};

verus! {

broadcast use vstd::std_specs::hash::group_hash_axioms;

/// What the walk reads: the rules, the terminals, the `Null` terminal and
/// the nullable symbols, and whether the symbol table has `Null` at all.
pub struct FirstCtx {
    pub rules: Seq<Seq<Seq<i32>>>,
    pub terms: Set<i32>,
    pub null: i32,
    pub nulls: Set<i32>,
    pub has_null: bool,
}

/// The number of `Null` in the symbol table, or 0 when it has none.
pub open spec fn null_num(map: Map<Seq<char>, i32>) -> i32 {
    if map.contains_key("Null"@) {
        map["Null"@]
    } else {
        0
    }
}

/// What the walk writes: a set for each symbol and a flag for each symbol
/// whose walk has begun.
pub struct Memo {
    pub sets: Seq<Set<i32>>,
    pub progress: Seq<bool>,
}

/// The walk for the symbol `idx`: unless it has begun already, it is marked
/// begun, its productions are walked, and its set becomes what they gave.
pub open spec fn first_node(c: FirstCtx, m: Memo, idx: int, fuel: nat) -> Memo
    decreases fuel, 0int, 0int,
{
    if !(0 <= idx < m.progress.len()) || m.progress[idx] || fuel == 0 {
        m
    } else {
        let m1 = Memo { progress: m.progress.update(idx, true), ..m };
        let (m2, ans) = first_prods(c, m1, idx, 0, Set::empty(), (fuel - 1) as nat);
        Memo { sets: m2.sets.update(idx, ans), ..m2 }
    }
}

/// The walk over the productions of `idx` from the `j`-th on, `ans` holding
/// what the earlier ones gave.
pub open spec fn first_prods(c: FirstCtx, m: Memo, idx: int, j: int, ans: Set<i32>, fuel: nat) -> (
    Memo,
    Set<i32>,
)
    decreases fuel, 2int, c.rules[idx].len() - j,
{
    if j < 0 || j >= c.rules[idx].len() {
        (m, ans)
    } else {
        let (m2, a2) = first_toks(c, m, idx, j, 0, ans, fuel);
        first_prods(c, m2, idx, j + 1, a2, fuel)
    }
}

/// The walk over the symbols of the `j`-th production of `idx` from the
/// `k`-th on: a terminal other than `Null` is added and ends it; `Null` is
/// passed over; a non-terminal is walked, its set is added, and it ends the
/// production unless it is nullable.
pub open spec fn first_toks(
    c: FirstCtx,
    m: Memo,
    idx: int,
    j: int,
    k: int,
    ans: Set<i32>,
    fuel: nat,
) -> (Memo, Set<i32>)
    decreases fuel, 1int, c.rules[idx][j].len() - k,
{
    let p = c.rules[idx][j];
    if k < 0 || k >= p.len() {
        (m, ans)
    } else {
        let t = p[k];
        if c.terms.contains(t) {
            if t != c.null {
                (m, ans.insert(t))
            } else {
                first_toks(c, m, idx, j, k + 1, ans, fuel)
            }
        } else {
            let m2 = first_node(c, m, t as int, fuel);
            let a2 = ans.union(m2.sets[t as int]);
            if !c.nulls.contains(t) {
                (m2, a2)
            } else {
                first_toks(c, m2, idx, j, k + 1, a2, fuel)
            }
        }
    }
}

/// The walk for the symbol `i` as the FIRST computation reaches it in its
/// pass over the numbers of the symbol table: a terminal is only marked.
pub open spec fn first_all_step(c: FirstCtx, map: Map<Seq<char>, i32>, m: Memo, i: int, n: int) -> Memo {
    if has_id(map, i as i32) {
        if c.terms.contains(i as i32) {
            Memo { progress: m.progress.update(i, true), ..m }
        } else {
            let m1 = first_node(c, m, i, n as nat);
            Memo { progress: m1.progress.update(i, true), ..m1 }
        }
    } else {
        m
    }
}

/// The walks over the symbols `i`, `i + 1`, ... below `n` that the symbol
/// table numbers, in order.
pub open spec fn first_all_from(c: FirstCtx, map: Map<Seq<char>, i32>, m: Memo, i: int, n: int) -> Memo
    decreases n - i,
{
    if i >= n {
        m
    } else {
        first_all_from(c, map, first_all_step(c, map, m, i, n), i + 1, n)
    }
}

/// The state the FIRST computation starts from: `n` empty sets, no walk
/// begun.
pub open spec fn first_memo0(n: int) -> Memo {
    Memo {
        sets: Seq::new(n as nat, |i: int| Set::<i32>::empty()),
        progress: Seq::new(n as nat, |i: int| false),
    }
}

/// The FIRST sets: one per number below `map.len()`.
pub open spec fn first_sets(c: FirstCtx, map: Map<Seq<char>, i32>) -> Seq<Set<i32>> {
    let n = map.len() as int;
    first_all_from(c, map, first_memo0(n), 0, n).sets
}

/// One line of the record that the FIRST walks keep of what they do.
#[derive(Clone, Copy, Debug, PartialEq, Eq, Structural)]
pub enum FirstEvent {
    /// The computation starts the walk for a non-terminal.
    Call(i32),
    /// A walk reads a symbol of a production.
    Token(i32),
    /// Whether that symbol is a terminal.
    IsTerminal(bool),
    /// Whether that symbol differs from `Null`.
    IsNull(bool),
    /// The symbol is a non-terminal that is not nullable; its walk follows.
    UnNull(i32),
    /// The symbol is a nullable non-terminal; its walk follows.
    Null(i32),
    /// The walk for a symbol ends, its FIRST set written.
    Done(i32),
}

/// What the walk for `idx` records, in the order of [`first_node`]: nothing
/// unless the walk begins; else what the walk over its productions records,
/// then [`FirstEvent::Done`].
pub open spec fn trace_node(c: FirstCtx, m: Memo, idx: int, fuel: nat) -> Seq<FirstEvent>
    decreases fuel, 0int, 0int,
{
    if !(0 <= idx < m.progress.len()) || m.progress[idx] || fuel == 0 {
        seq![]
    } else {
        let m1 = Memo { progress: m.progress.update(idx, true), ..m };
        trace_prods(c, m1, idx, 0, Set::empty(), (fuel - 1) as nat).push(FirstEvent::Done(idx as i32))
    }
}

/// What the walk over the productions of `idx` from the `j`-th on records.
pub open spec fn trace_prods(c: FirstCtx, m: Memo, idx: int, j: int, ans: Set<i32>, fuel: nat) -> Seq<
    FirstEvent,
>
    decreases fuel, 2int, c.rules[idx].len() - j,
{
    if j < 0 || j >= c.rules[idx].len() {
        seq![]
    } else {
        let (m2, a2) = first_toks(c, m, idx, j, 0, ans, fuel);
        trace_toks(c, m, idx, j, 0, ans, fuel) + trace_prods(c, m2, idx, j + 1, a2, fuel)
    }
}

/// What the walk over the symbols of the `j`-th production of `idx` from the
/// `k`-th on records: for each symbol it reads, the symbol, whether it is a
/// terminal and whether it differs from `Null`; for a non-terminal, then,
/// whether it is nullable and what its own walk records.
pub open spec fn trace_toks(
    c: FirstCtx,
    m: Memo,
    idx: int,
    j: int,
    k: int,
    ans: Set<i32>,
    fuel: nat,
) -> Seq<FirstEvent>
    decreases fuel, 1int, c.rules[idx][j].len() - k,
{
    let p = c.rules[idx][j];
    if k < 0 || k >= p.len() {
        seq![]
    } else {
        let t = p[k];
        let head = seq![
            FirstEvent::Token(t),
            FirstEvent::IsTerminal(c.terms.contains(t)),
            FirstEvent::IsNull(c.null != t),
        ];
        if c.terms.contains(t) {
            if t != c.null {
                head
            } else {
                head + trace_toks(c, m, idx, j, k + 1, ans, fuel)
            }
        } else {
            let m2 = first_node(c, m, t as int, fuel);
            if !c.nulls.contains(t) {
                head.push(FirstEvent::UnNull(t)) + trace_node(c, m, t as int, fuel)
            } else {
                head.push(FirstEvent::Null(t)) + trace_node(c, m, t as int, fuel) + trace_toks(
                    c,
                    m2,
                    idx,
                    j,
                    k + 1,
                    ans.union(m2.sets[t as int]),
                    fuel,
                )
            }
        }
    }
}

/// What the walks over the symbols from `i` on record: for each
/// non-terminal that the symbol table numbers, [`FirstEvent::Call`] and what
/// its walk records.
pub open spec fn trace_all_from(c: FirstCtx, map: Map<Seq<char>, i32>, m: Memo, i: int, n: int) -> Seq<
    FirstEvent,
>
    decreases n - i,
{
    if i >= n {
        seq![]
    } else {
        let here = if has_id(map, i as i32) && !c.terms.contains(i as i32) {
            seq![FirstEvent::Call(i as i32)] + trace_node(c, m, i, n as nat)
        } else {
            seq![]
        };
        here + trace_all_from(c, map, first_all_step(c, map, m, i, n), i + 1, n)
    }
}

/// The record of the whole FIRST computation.
pub open spec fn first_trace(c: FirstCtx, map: Map<Seq<char>, i32>) -> Seq<FirstEvent> {
    let n = map.len() as int;
    trace_all_from(c, map, first_memo0(n), 0, n)
}

/// Whether the walk for `idx` reads only what is there: `idx` has a flag
/// and, unless its walk has begun, a rule, whose walk reads only what is
/// there.
pub open spec fn first_node_ok(c: FirstCtx, m: Memo, idx: int, fuel: nat) -> bool
    decreases fuel, 0int, 0int,
{
    &&& 0 <= idx < m.progress.len()
    &&& (m.progress[idx] || fuel == 0 || (idx < c.rules.len() && first_prods_ok(
        c,
        Memo { progress: m.progress.update(idx, true), ..m },
        idx,
        0,
        Set::empty(),
        (fuel - 1) as nat,
    )))
}

/// Whether the walk over the productions of `idx` from the `j`-th on reads
/// only what is there.
pub open spec fn first_prods_ok(c: FirstCtx, m: Memo, idx: int, j: int, ans: Set<i32>, fuel: nat) -> bool
    decreases fuel, 2int, c.rules[idx].len() - j,
{
    if j < 0 || j >= c.rules[idx].len() {
        true
    } else {
        &&& first_toks_ok(c, m, idx, j, 0, ans, fuel)
        &&& first_prods_ok(
            c,
            first_toks(c, m, idx, j, 0, ans, fuel).0,
            idx,
            j + 1,
            first_toks(c, m, idx, j, 0, ans, fuel).1,
            fuel,
        )
    }
}

/// Whether the walk over the symbols of the `j`-th production of `idx`
/// from the `k`-th on reads only what is there: each non-terminal that it
/// reaches has a walk that does.
pub open spec fn first_toks_ok(
    c: FirstCtx,
    m: Memo,
    idx: int,
    j: int,
    k: int,
    ans: Set<i32>,
    fuel: nat,
) -> bool
    decreases fuel, 1int, c.rules[idx][j].len() - k,
{
    let p = c.rules[idx][j];
    if k < 0 || k >= p.len() {
        true
    } else {
        let t = p[k];
        if c.terms.contains(t) {
            c.has_null && (t != c.null || first_toks_ok(c, m, idx, j, k + 1, ans, fuel))
        } else {
            &&& first_node_ok(c, m, t as int, fuel)
            &&& (!c.nulls.contains(t) || first_toks_ok(
                c,
                first_node(c, m, t as int, fuel),
                idx,
                j,
                k + 1,
                ans.union(first_node(c, m, t as int, fuel).sets[t as int]),
                fuel,
            ))
        }
    }
}

/// Whether the walks over the symbols from `i` on read only what is there.
pub open spec fn first_all_ok(c: FirstCtx, map: Map<Seq<char>, i32>, m: Memo, i: int, n: int) -> bool
    decreases n - i,
{
    if i >= n {
        true
    } else {
        &&& (!has_id(map, i as i32) || c.terms.contains(i as i32) || first_node_ok(c, m, i, n as nat))
        &&& first_all_ok(c, map, first_all_step(c, map, m, i, n), i + 1, n)
    }
}

/// What the FIRST computation needs: symbol numbers that each have a flag,
/// and walks that read only what is there, `Null` among it as soon as they
/// reach a terminal.
pub open spec fn first_inputs_ok(
    map: Map<Seq<char>, i32>,
    rules: Seq<Seq<Seq<i32>>>,
    terms: Set<i32>,
    nulls: Set<i32>,
) -> bool {
    &&& map.len() <= i32::MAX
    &&& forall|v: i32| has_id(map, v) ==> 0 <= v < map.len()
    &&& first_all_ok(
        FirstCtx {
            rules: rules,
            terms: terms,
            null: null_num(map),
            nulls: nulls,
            has_null: map.contains_key("Null"@),
        },
        map,
        first_memo0(map.len() as int),
        0,
        map.len() as int,
    )
}

/// Whether `s` holds terminals other than `null` only.
pub open spec fn terminal_set(s: Set<i32>, terms: Set<i32>, null: i32) -> bool {
    forall|x: i32| #[trigger] s.contains(x) ==> terms.contains(x) && x != null
}

/// Whether every set of `sets` holds terminals other than `null` only.
pub open spec fn terminal_sets(sets: Seq<Set<i32>>, terms: Set<i32>, null: i32) -> bool {
    forall|i: int| 0 <= i < sets.len() ==> terminal_set(#[trigger] sets[i], terms, null)
}

/// What the walks keep: a flag for each set, and sets of terminals other
/// than `Null` only.
pub open spec fn first_memo_ok(c: FirstCtx, m: Memo) -> bool {
    &&& m.sets.len() == m.progress.len()
    &&& terminal_sets(m.sets, c.terms, c.null)
}

/// A walk for a symbol that reads only what is there keeps
/// [`first_memo_ok`] and the number of sets.
pub proof fn lemma_first_node_ok(c: FirstCtx, m: Memo, idx: int, fuel: nat)
    requires
        first_memo_ok(c, m),
        first_node_ok(c, m, idx, fuel),
    ensures
        first_memo_ok(c, first_node(c, m, idx, fuel)),
        first_node(c, m, idx, fuel).sets.len() == m.sets.len(),
    decreases fuel, 0int, 0int,
{
    if !(!(0 <= idx < m.progress.len()) || m.progress[idx] || fuel == 0) {
        let m1 = Memo { progress: m.progress.update(idx, true), ..m };
        lemma_first_prods_ok(c, m1, idx, 0, Set::empty(), (fuel - 1) as nat);
        let (m2, ans) = first_prods(c, m1, idx, 0, Set::empty(), (fuel - 1) as nat);
        let m3 = Memo { sets: m2.sets.update(idx, ans), ..m2 };
        assert forall|i: int| 0 <= i < m3.sets.len() implies terminal_set(
            #[trigger] m3.sets[i],
            c.terms,
            c.null,
        ) by {
            if i != idx {
                assert(m3.sets[i] == m2.sets[i]);
            }
        }
    }
}

/// A walk over productions that reads only what is there keeps
/// [`first_memo_ok`] and the number of sets, and what it gives holds
/// terminals other than `Null` only.
pub proof fn lemma_first_prods_ok(c: FirstCtx, m: Memo, idx: int, j: int, ans: Set<i32>, fuel: nat)
    requires
        first_memo_ok(c, m),
        first_prods_ok(c, m, idx, j, ans, fuel),
        terminal_set(ans, c.terms, c.null),
    ensures
        first_memo_ok(c, first_prods(c, m, idx, j, ans, fuel).0),
        first_prods(c, m, idx, j, ans, fuel).0.sets.len() == m.sets.len(),
        terminal_set(first_prods(c, m, idx, j, ans, fuel).1, c.terms, c.null),
    decreases fuel, 2int, c.rules[idx].len() - j,
{
    if !(j < 0 || j >= c.rules[idx].len()) {
        lemma_first_toks_ok(c, m, idx, j, 0, ans, fuel);
        let (m2, a2) = first_toks(c, m, idx, j, 0, ans, fuel);
        lemma_first_prods_ok(c, m2, idx, j + 1, a2, fuel);
    }
}

/// A walk over the symbols of a production that reads only what is there
/// keeps [`first_memo_ok`] and the number of sets, and what it gives holds
/// terminals other than `Null` only.
pub proof fn lemma_first_toks_ok(
    c: FirstCtx,
    m: Memo,
    idx: int,
    j: int,
    k: int,
    ans: Set<i32>,
    fuel: nat,
)
    requires
        first_memo_ok(c, m),
        first_toks_ok(c, m, idx, j, k, ans, fuel),
        terminal_set(ans, c.terms, c.null),
    ensures
        first_memo_ok(c, first_toks(c, m, idx, j, k, ans, fuel).0),
        first_toks(c, m, idx, j, k, ans, fuel).0.sets.len() == m.sets.len(),
        terminal_set(first_toks(c, m, idx, j, k, ans, fuel).1, c.terms, c.null),
    decreases fuel, 1int, c.rules[idx][j].len() - k,
{
    let p = c.rules[idx][j];
    if !(k < 0 || k >= p.len()) {
        let t = p[k];
        if c.terms.contains(t) {
            if t == c.null {
                lemma_first_toks_ok(c, m, idx, j, k + 1, ans, fuel);
            }
        } else {
            assert(first_node_ok(c, m, t as int, fuel));
            assert(0 <= t < m.sets.len());
            lemma_first_node_ok(c, m, t as int, fuel);
            let m2 = first_node(c, m, t as int, fuel);
            let a2 = ans.union(m2.sets[t as int]);
            assert(terminal_set(m2.sets[t as int], c.terms, c.null));
            if c.nulls.contains(t) {
                lemma_first_toks_ok(c, m2, idx, j, k + 1, a2, fuel);
            }
        }
    }
}

/// Walks over the symbols from `i` on that read only what is there keep
/// [`first_memo_ok`] and the number of sets.
pub proof fn lemma_first_all_from_ok(c: FirstCtx, map: Map<Seq<char>, i32>, m: Memo, i: int, n: int)
    requires
        first_memo_ok(c, m),
        n == m.sets.len(),
        i >= 0,
        first_all_ok(c, map, m, i, n),
    ensures
        first_memo_ok(c, first_all_from(c, map, m, i, n)),
        first_all_from(c, map, m, i, n).sets.len() == n,
    decreases n - i,
{
    if i < n {
        if has_id(map, i as i32) && !c.terms.contains(i as i32) {
            lemma_first_node_ok(c, m, i, n as nat);
        }
        lemma_first_all_from_ok(c, map, first_all_step(c, map, m, i, n), i + 1, n);
    }
}

/// Every FIRST set holds terminals only, and never `Null`; there is one
/// set per number below the size of the symbol table.
pub proof fn lemma_first_sets_terminals(c: FirstCtx, map: Map<Seq<char>, i32>)
    requires
        first_inputs_ok(map, c.rules, c.terms, c.nulls),
        c.null == null_num(map),
        c.has_null == map.contains_key("Null"@),
    ensures
        first_sets(c, map).len() == map.len(),
        terminal_sets(first_sets(c, map), c.terms, c.null),
{
    let n = map.len() as int;
    let m0 = first_memo0(n);
    assert(first_memo_ok(c, m0));
    lemma_first_all_from_ok(c, map, m0, 0, n);
}

/// The walk for the symbol `index`, as [`first_node`] says; it returns
/// whether the walk reads only what is there, as [`first_node_ok`] says,
/// and leaves the sets as they come when it does not.
#[allow(non_snake_case)]
fn first(
    index: usize,
    First: &mut Vec<HashSet<i32>>,
    progress: &mut Vec<bool>,
    rules: &Vec<Vec<Vec<i32>>>,
    terminal_indices: &HashSet<i32>,
    nullables: &HashSet<i32>,
    null: i32,
    has_null: bool,
    trace: &mut Vec<FirstEvent>,
    Ghost(fuel): Ghost<nat>,
) -> (ok: bool)
    requires
        index < old(progress)@.len(),
        old(progress)@.len() == old(First)@.len(),
        old(progress)@.len() <= i32::MAX,
        count_false(old(progress)@) <= fuel,
    ensures
        ({
            let c = FirstCtx {
                rules: rules_view(rules@),
                terms: terminal_indices@,
                null: null,
                nulls: nullables@,
                has_null: has_null,
            };
            let m = Memo { sets: sets_view(old(First)@), progress: old(progress)@ };
            let r = first_node(c, m, index as int, fuel);
            &&& ok == first_node_ok(c, m, index as int, fuel)
            &&& ok ==> sets_view(final(First)@) == r.sets && final(progress)@ == r.progress
            &&& ok ==> final(trace)@ == old(trace)@ + trace_node(c, m, index as int, fuel)
        }),
        final(progress)@.len() == old(progress)@.len(),
        final(First)@.len() == old(First)@.len(),
        count_false(final(progress)@) <= count_false(old(progress)@),
    decreases fuel,
{
    let ghost c = FirstCtx {
        rules: rules_view(rules@),
        terms: terminal_indices@,
        null: null,
        nulls: nullables@,
        has_null: has_null,
    };
    if progress[index] {
        assert(trace@ =~= trace@ + Seq::<FirstEvent>::empty());
        return true;
    }
    proof {
        lemma_count_false_set(progress@, index as int);
    }
    if index >= rules.len() {
        return false;
    }
    progress.set(index, true);
    let ghost m1 = Memo { sets: sets_view(First@), progress: progress@ };
    let ghost target = first_prods(c, m1, index as int, 0, Set::empty(), (fuel - 1) as nat);
    let ghost target_ok = first_prods_ok(c, m1, index as int, 0, Set::empty(), (fuel - 1) as nat);
    let ghost target_tr = trace_prods(c, m1, index as int, 0, Set::empty(), (fuel - 1) as nat);
    let ghost tr0 = trace@;
    assert(trace@ + target_tr =~= tr0 + target_tr);
    let mut ans: HashSet<i32> = HashSet::new();
    let mut j: usize = 0;
    let np = rules[index].len();
    while j < np
        invariant
            j <= np,
            index < rules@.len(),
            np == rules@[index as int]@.len(),
            c == (FirstCtx {
                rules: rules_view(rules@),
                terms: terminal_indices@,
                null: null,
                nulls: nullables@,
                has_null: has_null,
            }),
            fuel > 0,
            progress@.len() == First@.len(),
            progress@.len() == old(progress)@.len(),
            old(progress)@.len() == old(First)@.len(),
            first_node_ok(
                c,
                Memo { sets: sets_view(old(First)@), progress: old(progress)@ },
                index as int,
                fuel,
            ) == target_ok,
            index < progress@.len(),
            progress@.len() <= i32::MAX,
            count_false(progress@) <= fuel - 1,
            count_false(progress@) < count_false(old(progress)@),
            first_prods_ok(
                c,
                Memo { sets: sets_view(First@), progress: progress@ },
                index as int,
                j as int,
                ans@,
                (fuel - 1) as nat,
            ) == target_ok,
            first_prods(
                c,
                Memo { sets: sets_view(First@), progress: progress@ },
                index as int,
                j as int,
                ans@,
                (fuel - 1) as nat,
            ) == target,
            tr0 == old(trace)@,
            trace@ + trace_prods(
                c,
                Memo { sets: sets_view(First@), progress: progress@ },
                index as int,
                j as int,
                ans@,
                (fuel - 1) as nat,
            ) == tr0 + target_tr,
        decreases np - j,
    {
        let ghost mj = Memo { sets: sets_view(First@), progress: progress@ };
        let ghost aj = ans@;
        let ghost rj = first_toks(c, mj, index as int, j as int, 0, aj, (fuel - 1) as nat);
        let ghost rj_ok = first_toks_ok(c, mj, index as int, j as int, 0, aj, (fuel - 1) as nat);
        let ghost tr_j = trace@;
        let ghost tj = trace_toks(c, mj, index as int, j as int, 0, aj, (fuel - 1) as nat);
        assert(trace_prods(c, mj, index as int, j as int, aj, (fuel - 1) as nat) == tj + trace_prods(
            c,
            rj.0,
            index as int,
            j + 1,
            rj.1,
            (fuel - 1) as nat,
        ));
        let mut k: usize = 0;
        let mut stop = false;
        let npk = rules[index][j].len();
        assert(c.rules[index as int][j as int] == rules@[index as int]@[j as int]@);
        while k < npk && !stop
            invariant
                k <= npk,
                index < rules@.len(),
                j < rules@[index as int]@.len(),
                npk == rules@[index as int]@[j as int]@.len(),
                c.rules[index as int][j as int] == rules@[index as int]@[j as int]@,
                c == (FirstCtx {
                    rules: rules_view(rules@),
                    terms: terminal_indices@,
                    null: null,
                    nulls: nullables@,
                    has_null: has_null,
                }),
                fuel > 0,
                progress@.len() == First@.len(),
                progress@.len() == old(progress)@.len(),
                old(progress)@.len() == old(First)@.len(),
                first_node_ok(
                    c,
                    Memo { sets: sets_view(old(First)@), progress: old(progress)@ },
                    index as int,
                    fuel,
                ) == target_ok,
                index < progress@.len(),
                progress@.len() <= i32::MAX,
                count_false(progress@) <= fuel - 1,
                count_false(progress@) < count_false(old(progress)@),
                target_ok == (rj_ok && first_prods_ok(
                    c,
                    rj.0,
                    index as int,
                    j + 1,
                    rj.1,
                    (fuel - 1) as nat,
                )),
                !stop ==> first_toks_ok(
                    c,
                    Memo { sets: sets_view(First@), progress: progress@ },
                    index as int,
                    j as int,
                    k as int,
                    ans@,
                    (fuel - 1) as nat,
                ) == rj_ok,
                !stop ==> first_toks(
                    c,
                    Memo { sets: sets_view(First@), progress: progress@ },
                    index as int,
                    j as int,
                    k as int,
                    ans@,
                    (fuel - 1) as nat,
                ) == rj,
                stop ==> rj_ok && (Memo { sets: sets_view(First@), progress: progress@ }, ans@) == rj,
                tj == trace_toks(c, mj, index as int, j as int, 0, aj, (fuel - 1) as nat),
                !stop ==> trace@ + trace_toks(
                    c,
                    Memo { sets: sets_view(First@), progress: progress@ },
                    index as int,
                    j as int,
                    k as int,
                    ans@,
                    (fuel - 1) as nat,
                ) == tr_j + tj,
                stop ==> trace@ == tr_j + tj,
            decreases npk - k + (if stop {
                0int
            } else {
                1int
            }),
        {
            let t = rules[index][j][k];
            assert(t == c.rules[index as int][j as int][k as int]);
            let ghost mk = Memo { sets: sets_view(First@), progress: progress@ };
            let ghost before = trace@;
            let is_term = terminal_indices.contains(&t);
            trace.push(FirstEvent::Token(t));
            trace.push(FirstEvent::IsTerminal(is_term));
            trace.push(FirstEvent::IsNull(null != t));
            let ghost head = seq![
                FirstEvent::Token(t),
                FirstEvent::IsTerminal(c.terms.contains(t)),
                FirstEvent::IsNull(c.null != t),
            ];
            assert(trace@ =~= before + head);
            if is_term {
                if !has_null {
                    return false;
                }
                if null != t {
                    ans.insert(t);
                    stop = true;
                } else {
                    assert((before + head) + trace_toks(c, mk, index as int, j as int, k + 1, ans@, (fuel
                        - 1) as nat) =~= before + (head + trace_toks(
                        c,
                        mk,
                        index as int,
                        j as int,
                        k + 1,
                        ans@,
                        (fuel - 1) as nat,
                    )));
                    k = k + 1;
                }
            } else {
                if t < 0 || t as usize >= progress.len() {
                    assert(!first_node_ok(
                        c,
                        Memo { sets: sets_view(First@), progress: progress@ },
                        t as int,
                        (fuel - 1) as nat,
                    ));
                    assert(!first_toks_ok(
                        c,
                        Memo { sets: sets_view(First@), progress: progress@ },
                        index as int,
                        j as int,
                        k as int,
                        ans@,
                        (fuel - 1) as nat,
                    ));
                    return false;
                }
                let nullable = nullables.contains(&t);
                if nullable {
                    trace.push(FirstEvent::Null(t));
                } else {
                    trace.push(FirstEvent::UnNull(t));
                }
                let ghost ev = if nullable {
                    FirstEvent::Null(t)
                } else {
                    FirstEvent::UnNull(t)
                };
                assert(trace@ =~= before + head.push(ev));
                let ghost a0 = ans@;
                let ok = first(
                    t as usize,
                    First,
                    progress,
                    rules,
                    terminal_indices,
                    nullables,
                    null,
                    has_null,
                    trace,
                    Ghost((fuel - 1) as nat),
                );
                if !ok {
                    return false;
                }
                let ghost tn = trace_node(c, mk, t as int, (fuel - 1) as nat);
                assert(trace@ == before + head.push(ev) + tn);
                assert(sets_view(First@)[t as int] == First@[t as int]@);
                set_extend(&mut ans, &First[t as usize]);
                if !nullable {
                    assert(trace@ =~= before + (head.push(ev) + tn));
                    stop = true;
                } else {
                    let ghost m2 = Memo { sets: sets_view(First@), progress: progress@ };
                    assert(trace_toks(c, mk, index as int, j as int, k as int, a0, (fuel - 1) as nat)
                        == head.push(ev) + tn + trace_toks(
                        c,
                        m2,
                        index as int,
                        j as int,
                        k + 1,
                        ans@,
                        (fuel - 1) as nat,
                    ));
                    assert((before + head.push(ev) + tn) + trace_toks(
                        c,
                        m2,
                        index as int,
                        j as int,
                        k + 1,
                        ans@,
                        (fuel - 1) as nat,
                    ) =~= before + (head.push(ev) + tn + trace_toks(
                        c,
                        m2,
                        index as int,
                        j as int,
                        k + 1,
                        ans@,
                        (fuel - 1) as nat,
                    )));
                    k = k + 1;
                }
            }
        }
        assert(trace@ == tr_j + tj);
        assert((tr_j + tj) + trace_prods(c, rj.0, index as int, j + 1, rj.1, (fuel - 1) as nat)
            =~= tr_j + (tj + trace_prods(c, rj.0, index as int, j + 1, rj.1, (fuel - 1) as nat)));
        j = j + 1;
    }
    assert(target == (Memo { sets: sets_view(First@), progress: progress@ }, ans@));
    assert(trace@ =~= tr0 + target_tr);
    trace.push(FirstEvent::Done(index as i32));
    assert(trace@ =~= old(trace)@ + target_tr.push(FirstEvent::Done(index as i32)));
    let ghost sets_before = sets_view(First@);
    First.set(index, ans);
    assert(sets_view(First@) =~= sets_before.update(index as int, target.1));
    true
}

/// The walks of the FIRST computation over the numbers of the symbol table,
/// for a table whose numbers each have a flag: the FIRST sets when every
/// walk reads only what is there, as [`first_all_ok`] says, and `None`
/// otherwise.
fn first_walk(
    map: &SymbolTable,
    rules: &Vec<Vec<Vec<i32>>>,
    terminal_indices: &HashSet<i32>,
    nullables: &HashSet<i32>,
    null: i32,
    has_null: bool,
) -> (r: (Option<Vec<HashSet<i32>>>, Vec<FirstEvent>))
    requires
        map@.len() <= i32::MAX,
        forall|v: i32| has_id(map@, v) ==> 0 <= v < map@.len(),
    ensures
        ({
            let c = FirstCtx {
                rules: rules_view(rules@),
                terms: terminal_indices@,
                null: null,
                nulls: nullables@,
                has_null: has_null,
            };
            let n = map@.len() as int;
            &&& r.0 is Some <==> first_all_ok(c, map@, first_memo0(n), 0, n)
            &&& r.0 matches Some(v) ==> sets_view(v@) == first_all_from(c, map@, first_memo0(n), 0, n).sets
            &&& r.0 is Some ==> r.1@ == trace_all_from(c, map@, first_memo0(n), 0, n)
        }),
{
    let n = map.len();
    let mut First = empty_sets(n);
    let mut progress = false_flags(n);
    assert(First@.len() == sets_view(First@).len());
    let ghost c = FirstCtx {
        rules: rules_view(rules@),
        terms: terminal_indices@,
        null: null,
        nulls: nullables@,
        has_null: has_null,
    };
    assert(sets_view(First@) =~= first_memo0(n as int).sets);
    assert(progress@ =~= first_memo0(n as int).progress);
    let ghost target = first_all_from(c, map@, first_memo0(n as int), 0, n as int);
    let ghost target_ok = first_all_ok(c, map@, first_memo0(n as int), 0, n as int);
    let ghost target_tr = trace_all_from(c, map@, first_memo0(n as int), 0, n as int);
    let mut trace: Vec<FirstEvent> = Vec::new();
    assert(trace@ + target_tr =~= target_tr);
    let mut i: usize = 0;
    while i < n
        invariant
            i <= n,
            n == map@.len(),
            n <= i32::MAX,
            c == (FirstCtx {
                rules: rules_view(rules@),
                terms: terminal_indices@,
                null: null,
                nulls: nullables@,
                has_null: has_null,
            }),
            progress@.len() == n,
            First@.len() == n,
            target_ok == first_all_ok(c, map@, first_memo0(n as int), 0, n as int),
            target == first_all_from(c, map@, first_memo0(n as int), 0, n as int),
            first_all_from(
                c,
                map@,
                Memo { sets: sets_view(First@), progress: progress@ },
                i as int,
                n as int,
            ) == target,
            first_all_ok(
                c,
                map@,
                Memo { sets: sets_view(First@), progress: progress@ },
                i as int,
                n as int,
            ) == target_ok,
            target_tr == trace_all_from(c, map@, first_memo0(n as int), 0, n as int),
            trace@ + trace_all_from(
                c,
                map@,
                Memo { sets: sets_view(First@), progress: progress@ },
                i as int,
                n as int,
            ) == target_tr,
        decreases n - i,
    {
        let ghost m = Memo { sets: sets_view(First@), progress: progress@ };
        let ghost before = trace@;
        let ghost rest = trace_all_from(c, map@, first_all_step(c, map@, m, i as int, n as int), i + 1, n as int);
        if map.has_id(i as i32) {
            if terminal_indices.contains(&(i as i32)) {
                progress.set(i, true);
                assert(trace@ + rest =~= before + (Seq::<FirstEvent>::empty() + rest));
            } else {
                proof {
                    crate::sets::lemma_count_false_le(progress@);
                }
                trace.push(FirstEvent::Call(i as i32));
                let ok = first(
                    i,
                    &mut First,
                    &mut progress,
                    rules,
                    terminal_indices,
                    nullables,
                    null,
                    has_null,
                    &mut trace,
                    Ghost(n as nat),
                );
                if !ok {
                    assert(!first_all_ok(c, map@, m, i as int, n as int));
                    return (None, trace);
                }
                progress.set(i, true);
                assert(trace@ + rest =~= before + ((seq![FirstEvent::Call(i as i32)] + trace_node(
                    c,
                    m,
                    i as int,
                    n as nat,
                )) + rest));
            }
        } else {
            assert(trace@ + rest =~= before + (Seq::<FirstEvent>::empty() + rest));
        }
        assert(Memo { sets: sets_view(First@), progress: progress@ } == first_all_step(
            c,
            map@,
            m,
            i as int,
            n as int,
        ));
        i = i + 1;
    }
    assert(trace@ =~= target_tr);
    (Some(First), trace)
}

/// The FIRST sets of the grammar, as [`first_sets`] says: one set per
/// number below the size of the symbol table.
#[allow(non_snake_case)]
pub fn calFIRST(
    terminals: &mut Vec<Symbol>,
    non_terminals: &mut Vec<Symbol>,
    map: &SymbolTable,
    rules: &mut Vec<Vec<Vec<i32>>>,
    nullables: &mut HashSet<i32>,
    terminal_indices: &mut HashSet<i32>,
) -> (r: Vec<HashSet<i32>>)
    requires
        first_inputs_ok(map@, rules_view(old(rules)@), old(terminal_indices)@, old(nullables)@),
    ensures
        final(terminals)@ == old(terminals)@,
        final(non_terminals)@ == old(non_terminals)@,
        final(rules)@ == old(rules)@,
        final(nullables)@ == old(nullables)@,
        final(terminal_indices)@ == old(terminal_indices)@,
        sets_view(r@) == first_sets(
            FirstCtx {
                rules: rules_view(old(rules)@),
                terms: old(terminal_indices)@,
                null: null_num(map@),
                nulls: old(nullables)@,
                has_null: map@.contains_key("Null"@),
            },
            map@,
        ),
{
    broadcast use vstd::string::group_string_axioms;

    let null_name = "Null".to_string();
    let (null, has_null) = match map.get(&null_name) {
        Some(v) => (v, true),
        None => (0, false),
    };
    match first_walk(map, rules, terminal_indices, nullables, null, has_null).0 {
        Some(v) => v,
        None => {
            proof {
                assert(false);
            }
            Vec::new()
        },
    }
}

/// The FIRST sets, as [`calFIRST`] computes them, with the record that the
/// walks keep as they compute them, as [`first_trace`] says.
pub fn first_sets_and_trace(
    map: &SymbolTable,
    rules: &Vec<Vec<Vec<i32>>>,
    terminal_indices: &HashSet<i32>,
    nullables: &HashSet<i32>,
) -> (r: (Vec<HashSet<i32>>, Vec<FirstEvent>))
    requires
        first_inputs_ok(map@, rules_view(rules@), terminal_indices@, nullables@),
    ensures
        ({
            let c = FirstCtx {
                rules: rules_view(rules@),
                terms: terminal_indices@,
                null: null_num(map@),
                nulls: nullables@,
                has_null: map@.contains_key("Null"@),
            };
            &&& sets_view(r.0@) == first_sets(c, map@)
            &&& r.1@ == first_trace(c, map@)
        }),
{
    broadcast use vstd::string::group_string_axioms;

    let null_name = "Null".to_string();
    let (null, has_null) = match map.get(&null_name) {
        Some(v) => (v, true),
        None => (0, false),
    };
    let (sets, trace) = first_walk(map, rules, terminal_indices, nullables, null, has_null);
    match sets {
        Some(v) => (v, trace),
        None => {
            proof {
                assert(false);
            }
            (Vec::new(), trace)
        },
    }
}

/// Whether every number of the symbol table is below the table's size.
pub fn ids_below_len(map: &SymbolTable) -> (b: bool)
    ensures
        b == (forall|v: i32| has_id(map@, v) ==> 0 <= v < map@.len()),
{
    let ids = map.ids();
    let n = map.len();
    let mut i: usize = 0;
    while i < ids.len()
        invariant
            i <= ids@.len(),
            n == map@.len(),
            forall|v: i32| ids@.contains(v) <==> has_id(map@, v),
            forall|j: int| 0 <= j < i ==> 0 <= #[trigger] ids@[j] < map@.len(),
        decreases ids@.len() - i,
    {
        let v = ids[i];
        if !(0 <= v && (v as usize) < n) {
            assert(ids@.contains(v));
            return false;
        }
        i = i + 1;
    }
    assert forall|v: i32| has_id(map@, v) implies 0 <= v < map@.len() by {
        assert(ids@.contains(v));
        let j = choose|j: int| 0 <= j < ids@.len() && ids@[j] == v;
        assert(ids@[j] == v);
    }
    true
}

/// Whether [`calFIRST`] can run on these arguments, as [`first_inputs_ok`]
/// says; this runs the walks.
pub fn first_inputs_hold(
    map: &SymbolTable,
    rules: &Vec<Vec<Vec<i32>>>,
    terms: &HashSet<i32>,
    nullables: &HashSet<i32>,
) -> (b: bool)
    ensures
        b == first_inputs_ok(map@, rules_view(rules@), terms@, nullables@),
{
    broadcast use vstd::string::group_string_axioms;

    let null_name = "Null".to_string();
    let (null, has_null) = match map.get(&null_name) {
        Some(v) => (v, true),
        None => (0, false),
    };
    let n = map.len();
    if n > 2147483647usize {
        return false;
    }
    if !ids_below_len(map) {
        return false;
    }
    first_walk(map, rules, terms, nullables, null, has_null).0.is_some()
}

/// Whether a FIRST walk passes over the symbol `v` to the next one: `v` is
/// `Null`, or a nullable non-terminal.
pub open spec fn first_passes(c: FirstCtx, v: i32) -> bool {
    ||| (c.terms.contains(v) && v == c.null)
    ||| (!c.terms.contains(v) && c.nulls.contains(v))
}

/// Whether `s` holds every terminal other than `Null` that a production of
/// rule `y` begins with after symbols that the walk passes over.
pub open spec fn holds_leading_terminals(c: FirstCtx, y: int, s: Set<i32>) -> bool {
    forall|j: int, k: int|
        0 <= j < c.rules[y].len() && 0 <= k < c.rules[y][j].len() && c.terms.contains(
            #[trigger] c.rules[y][j][k],
        ) && c.rules[y][j][k] != c.null && (forall|i: int|
            0 <= i < k ==> first_passes(c, #[trigger] c.rules[y][j][i])) ==> s.contains(c.rules[y][j][k])
}

proof fn lemma_first_toks_ans(c: FirstCtx, m: Memo, idx: int, j: int, k0: int, ans: Set<i32>, fuel: nat, k: int)
    requires
        0 <= k0,
    ensures
        ans.subset_of(first_toks(c, m, idx, j, k0, ans, fuel).1),
        k0 <= k < c.rules[idx][j].len() && c.terms.contains(c.rules[idx][j][k]) && c.rules[idx][j][k]
            != c.null && (forall|i: int| k0 <= i < k ==> first_passes(c, #[trigger] c.rules[idx][j][i]))
            ==> first_toks(c, m, idx, j, k0, ans, fuel).1.contains(c.rules[idx][j][k]),
    decreases c.rules[idx][j].len() - k0,
{
    let p = c.rules[idx][j];
    if k0 < p.len() {
        let t = p[k0];
        if c.terms.contains(t) {
            if t == c.null {
                lemma_first_toks_ans(c, m, idx, j, k0 + 1, ans, fuel, k);
            } else if k0 < k {
                assert(!first_passes(c, p[k0]));
            }
        } else {
            let m2 = first_node(c, m, t as int, fuel);
            let a2 = ans.union(m2.sets[t as int]);
            if c.nulls.contains(t) {
                lemma_first_toks_ans(c, m2, idx, j, k0 + 1, a2, fuel, k);
            } else if k0 < k {
                assert(!first_passes(c, p[k0]));
            }
        }
    }
}

proof fn lemma_first_prods_ans(c: FirstCtx, m: Memo, idx: int, j0: int, ans: Set<i32>, fuel: nat)
    requires
        0 <= j0,
    ensures
        ans.subset_of(first_prods(c, m, idx, j0, ans, fuel).1),
        forall|j: int, k: int|
            j0 <= j < c.rules[idx].len() && 0 <= k < c.rules[idx][j].len() && c.terms.contains(
                #[trigger] c.rules[idx][j][k],
            ) && c.rules[idx][j][k] != c.null && (forall|i: int|
                0 <= i < k ==> first_passes(c, #[trigger] c.rules[idx][j][i]))
                ==> first_prods(c, m, idx, j0, ans, fuel).1.contains(c.rules[idx][j][k]),
    decreases c.rules[idx].len() - j0,
{
    if j0 < c.rules[idx].len() {
        let (m2, a2) = first_toks(c, m, idx, j0, 0, ans, fuel);
        lemma_first_prods_ans(c, m2, idx, j0 + 1, a2, fuel);
        let r = first_prods(c, m, idx, j0, ans, fuel).1;
        lemma_first_toks_ans(c, m, idx, j0, 0, ans, fuel, 0);
        assert forall|j: int, k: int|
            j0 <= j < c.rules[idx].len() && 0 <= k < c.rules[idx][j].len() && c.terms.contains(
                #[trigger] c.rules[idx][j][k],
            ) && c.rules[idx][j][k] != c.null && (forall|i: int|
                0 <= i < k ==> first_passes(c, #[trigger] c.rules[idx][j][i])) implies r.contains(
            c.rules[idx][j][k],
        ) by {
            if j == j0 {
                lemma_first_toks_ans(c, m, idx, j0, 0, ans, fuel, k);
            }
        }
    }
}

/// What a FIRST walk does to the memo: the number of sets and flags stays,
/// a marked symbol stays marked with its set unchanged, and every symbol
/// whose walk begins in it ends with its set holding the terminals that its
/// productions begin with.
pub open spec fn first_walk_step_ok(c: FirstCtx, m: Memo, r: Memo) -> bool {
    &&& r.sets.len() == m.sets.len()
    &&& r.progress.len() == m.progress.len()
    &&& forall|y: int| 0 <= y < m.progress.len() && m.progress[y] ==> #[trigger] r.progress[y]
    &&& forall|y: int| 0 <= y < m.progress.len() && m.progress[y] ==> #[trigger] r.sets[y] == m.sets[y]
    &&& forall|y: int|
        0 <= y < m.progress.len() && #[trigger] r.progress[y] && !m.progress[y]
            ==> holds_leading_terminals(c, y, r.sets[y])
}

proof fn lemma_first_walk_step_trans(c: FirstCtx, a: Memo, b: Memo, d: Memo)
    requires
        a.sets.len() == a.progress.len(),
        first_walk_step_ok(c, a, b),
        first_walk_step_ok(c, b, d),
    ensures
        first_walk_step_ok(c, a, d),
{
    assert forall|y: int| 0 <= y < a.progress.len() && a.progress[y] implies #[trigger] d.progress[y]
        && d.sets[y] == a.sets[y] by {
        assert(b.progress[y] && b.sets[y] == a.sets[y]);
        assert(d.progress[y] && d.sets[y] == b.sets[y]);
    }
    assert forall|y: int|
        0 <= y < a.progress.len() && #[trigger] d.progress[y] && !a.progress[y]
            implies holds_leading_terminals(c, y, d.sets[y]) by {
        if b.progress[y] {
            assert(d.sets[y] == b.sets[y]);
        }
    }
}

proof fn lemma_first_node_step(c: FirstCtx, m: Memo, idx: int, fuel: nat)
    requires
        m.sets.len() == m.progress.len(),
    ensures
        first_walk_step_ok(c, m, first_node(c, m, idx, fuel)),
        0 <= idx < m.progress.len() && fuel > 0 ==> first_node(c, m, idx, fuel).progress[idx],
    decreases fuel, 0int, 0int,
{
    if !(!(0 <= idx < m.progress.len()) || m.progress[idx] || fuel == 0) {
        let m1 = Memo { progress: m.progress.update(idx, true), ..m };
        lemma_first_prods_step(c, m1, idx, 0, Set::empty(), (fuel - 1) as nat);
        lemma_first_prods_ans(c, m1, idx, 0, Set::empty(), (fuel - 1) as nat);
        let (m2, ans) = first_prods(c, m1, idx, 0, Set::empty(), (fuel - 1) as nat);
        let r = Memo { sets: m2.sets.update(idx, ans), ..m2 };
        assert(r == first_node(c, m, idx, fuel));
        assert forall|y: int| 0 <= y < m.progress.len() && m.progress[y] implies #[trigger] r.progress[y]
            && r.sets[y] == m.sets[y] by {
            assert(m1.progress[y]);
            assert(y != idx);
            assert(m2.progress[y] && m2.sets[y] == m1.sets[y]);
        }
        assert forall|y: int|
            0 <= y < m.progress.len() && #[trigger] r.progress[y] && !m.progress[y]
                implies holds_leading_terminals(c, y, r.sets[y]) by {
            if y != idx {
                assert(!m1.progress[y]);
                assert(m2.progress[y]);
            }
        }
        assert(m1.progress[idx]);
    }
}

proof fn lemma_first_prods_step(c: FirstCtx, m: Memo, idx: int, j: int, ans: Set<i32>, fuel: nat)
    requires
        m.sets.len() == m.progress.len(),
    ensures
        first_walk_step_ok(c, m, first_prods(c, m, idx, j, ans, fuel).0),
    decreases fuel, 2int, c.rules[idx].len() - j,
{
    if !(j < 0 || j >= c.rules[idx].len()) {
        lemma_first_toks_step(c, m, idx, j, 0, ans, fuel);
        let (m2, a2) = first_toks(c, m, idx, j, 0, ans, fuel);
        lemma_first_prods_step(c, m2, idx, j + 1, a2, fuel);
        lemma_first_walk_step_trans(c, m, m2, first_prods(c, m2, idx, j + 1, a2, fuel).0);
    }
}

proof fn lemma_first_toks_step(c: FirstCtx, m: Memo, idx: int, j: int, k: int, ans: Set<i32>, fuel: nat)
    requires
        m.sets.len() == m.progress.len(),
    ensures
        first_walk_step_ok(c, m, first_toks(c, m, idx, j, k, ans, fuel).0),
    decreases fuel, 1int, c.rules[idx][j].len() - k,
{
    let p = c.rules[idx][j];
    if !(k < 0 || k >= p.len()) {
        let t = p[k];
        if c.terms.contains(t) {
            if t == c.null {
                lemma_first_toks_step(c, m, idx, j, k + 1, ans, fuel);
            }
        } else {
            let m2 = first_node(c, m, t as int, fuel);
            lemma_first_node_step(c, m, t as int, fuel);
            if c.nulls.contains(t) {
                let a2 = ans.union(m2.sets[t as int]);
                lemma_first_toks_step(c, m2, idx, j, k + 1, a2, fuel);
                lemma_first_walk_step_trans(c, m, m2, first_toks(c, m2, idx, j, k + 1, a2, fuel).0);
            }
        }
    }
}

/// Whether every non-terminal that the memo marks holds the terminals that
/// its productions begin with.
pub open spec fn first_marked_ok(c: FirstCtx, m: Memo) -> bool {
    &&& m.sets.len() == m.progress.len()
    &&& forall|y: int|
        0 <= y < m.progress.len() && #[trigger] m.progress[y] && !c.terms.contains(y as i32)
            ==> holds_leading_terminals(c, y, m.sets[y])
}

proof fn lemma_first_all_marked(c: FirstCtx, map: Map<Seq<char>, i32>, m: Memo, i: int, n: int)
    requires
        0 <= i,
        m.progress.len() == n,
        first_marked_ok(c, m),
    ensures
        first_marked_ok(c, first_all_from(c, map, m, i, n)),
        first_all_from(c, map, m, i, n).progress.len() == n,
        forall|a: int|
            i <= a < n && has_id(map, a as i32) ==> #[trigger] first_all_from(c, map, m, i, n).progress[a],
    decreases n - i,
{
    if i < n {
        let m1 = first_all_step(c, map, m, i, n);
        if has_id(map, i as i32) {
            if c.terms.contains(i as i32) {
                assert(first_marked_ok(c, m1));
            } else {
                let mn = first_node(c, m, i, n as nat);
                lemma_first_node_step(c, m, i, n as nat);
                assert forall|y: int|
                    0 <= y < m1.progress.len() && #[trigger] m1.progress[y] && !c.terms.contains(
                        y as i32,
                    ) implies holds_leading_terminals(c, y, m1.sets[y]) by {
                    if y == i {
                        assert(mn.progress[i]);
                    }
                    if m.progress[y] {
                        assert(mn.sets[y] == m.sets[y]);
                    }
                }
            }
        }
        lemma_first_all_marked(c, map, m1, i + 1, n);
        let r = first_all_from(c, map, m1, i + 1, n);
        assert(m1.progress[i] <== has_id(map, i as i32));
        lemma_first_all_keeps_marks(c, map, m1, i + 1, n);
        assert forall|a: int| i <= a < n && has_id(map, a as i32) implies #[trigger] r.progress[a] by {
            if a == i {
                assert(m1.progress[i]);
            }
        }
    }
}

proof fn lemma_first_all_keeps_marks(c: FirstCtx, map: Map<Seq<char>, i32>, m: Memo, i: int, n: int)
    requires
        0 <= i,
        m.progress.len() == n,
        m.sets.len() == n,
    ensures
        forall|y: int| 0 <= y < n && m.progress[y] ==> #[trigger] first_all_from(c, map, m, i, n).progress[y],
    decreases n - i,
{
    if i < n {
        let m1 = first_all_step(c, map, m, i, n);
        if has_id(map, i as i32) && !c.terms.contains(i as i32) {
            lemma_first_node_step(c, m, i, n as nat);
            let mn = first_node(c, m, i, n as nat);
            assert forall|y: int| 0 <= y < n && m.progress[y] implies #[trigger] m1.progress[y] by {
                assert(mn.progress[y]);
            }
        }
        assert(m1.progress.len() == n && m1.sets.len() == n);
        assert forall|y: int| 0 <= y < n && m.progress[y] implies #[trigger] m1.progress[y] by {
            if has_id(map, i as i32) && !c.terms.contains(i as i32) {
                assert(first_node(c, m, i, n as nat).progress[y]);
            }
        }
        lemma_first_all_keeps_marks(c, map, m1, i + 1, n);
        assert forall|y: int| 0 <= y < n && m.progress[y] implies #[trigger] first_all_from(
            c,
            map,
            m,
            i,
            n,
        ).progress[y] by {
            assert(m1.progress[y]);
            assert(first_all_from(c, map, m, i, n) == first_all_from(c, map, m1, i + 1, n));
            assert(first_all_from(c, map, m1, i + 1, n).progress[y]);
        }
    }
}

/// A FIRST set holds the terminals that the productions of its rule begin
/// with: for a non-terminal `a` that the symbol table numbers, every
/// terminal other than `Null` at a position `k` of one of its productions,
/// after symbols that are `Null` or nullable non-terminals only, is in the
/// FIRST set of `a`.
pub proof fn lemma_first_holds_leading_terminals(c: FirstCtx, map: Map<Seq<char>, i32>, a: int, j: int, k: int)
    requires
        0 <= a < map.len(),
        has_id(map, a as i32),
        !c.terms.contains(a as i32),
        0 <= j < c.rules[a].len(),
        0 <= k < c.rules[a][j].len(),
        c.terms.contains(c.rules[a][j][k]),
        c.rules[a][j][k] != c.null,
        forall|i: int| 0 <= i < k ==> first_passes(c, #[trigger] c.rules[a][j][i]),
    ensures
        first_sets(c, map)[a].contains(c.rules[a][j][k]),
{
    let n = map.len() as int;
    let m0 = first_memo0(n);
    assert(first_marked_ok(c, m0));
    lemma_first_all_marked(c, map, m0, 0, n);
    let r = first_all_from(c, map, m0, 0, n);
    assert(r.progress[a]);
    assert(holds_leading_terminals(c, a, r.sets[a]));
}

/// Marking more flags leaves no more of them unset.
proof fn lemma_count_false_mono(p: Seq<bool>, q: Seq<bool>)
    requires
        p.len() == q.len(),
        forall|i: int| 0 <= i < p.len() && p[i] ==> #[trigger] q[i],
    ensures
        count_false(q) <= count_false(p),
    decreases p.len(),
{
    if p.len() > 0 {
        assert forall|i: int| 0 <= i < p.drop_last().len() && p.drop_last()[i] implies #[trigger] q.drop_last()[i] by {
            assert(p[i]);
        }
        lemma_count_false_mono(p.drop_last(), q.drop_last());
        assert(p.last() ==> q[q.len() - 1]);
    }
}

/// An unset flag counts.
proof fn lemma_count_false_pos(p: Seq<bool>, i: int)
    requires
        0 <= i < p.len(),
        !p[i],
    ensures
        count_false(p) >= 1,
    decreases p.len(),
{
    if i < p.len() - 1 {
        lemma_count_false_pos(p.drop_last(), i);
    }
}

/// Whether the walk for `y` reads the non-terminal at position `k` of its
/// production `j`: every symbol before it is `Null` or a nullable
/// non-terminal.
pub open spec fn first_reads(c: FirstCtx, y: int, j: int, k: int) -> bool {
    &&& 0 <= j < c.rules[y].len()
    &&& 0 <= k < c.rules[y][j].len()
    &&& !c.terms.contains(c.rules[y][j][k])
    &&& forall|i: int| 0 <= i < k ==> first_passes(c, #[trigger] c.rules[y][j][i])
}

/// Whether `rank` decreases along the reads of the walks: every
/// non-terminal that the walk of a rule reads is numbered below `n` and
/// ranks below the rule. Then no non-terminal's walk reads, through other
/// walks, the non-terminal itself.
pub open spec fn reads_ranked(c: FirstCtx, n: int, rank: spec_fn(int) -> int) -> bool {
    forall|y: int, j: int, k: int|
        0 <= y < c.rules.len() && #[trigger] first_reads(c, y, j, k) ==> 0 <= c.rules[y][j][k] < n
            && rank(c.rules[y][j][k] as int) < rank(y)
}

/// Whether every non-terminal numbered below `n` has a rule.
pub open spec fn ids_have_rules(c: FirstCtx, n: int) -> bool {
    forall|y: int| 0 <= y < n && !(#[trigger] c.terms.contains(y as i32)) ==> y < c.rules.len()
}

/// Whether the set of `y` holds the sets of the non-terminals its walk
/// reads, each of them marked and off the stack `stk`.
pub open spec fn first_closed(c: FirstCtx, m: Memo, y: int, stk: Set<int>) -> bool {
    forall|j: int, k: int|
        #[trigger] first_reads(c, y, j, k) ==> {
            let x = c.rules[y][j][k] as int;
            &&& 0 <= x < m.progress.len()
            &&& m.progress[x]
            &&& !stk.contains(x)
            &&& m.sets[x].subset_of(m.sets[y])
        }
}

/// Whether every marked non-terminal off the stack `stk` is closed.
pub open spec fn first_good(c: FirstCtx, m: Memo, stk: Set<int>) -> bool {
    forall|y: int|
        0 <= y < m.progress.len() && #[trigger] m.progress[y] && !stk.contains(y) && !c.terms.contains(
            y as i32,
        ) ==> first_closed(c, m, y, stk)
}

proof fn lemma_first_node_closed(
    c: FirstCtx,
    m: Memo,
    idx: int,
    fuel: nat,
    stk: Set<int>,
    rank: spec_fn(int) -> int,
    n: int,
)
    requires
        m.sets.len() == n,
        m.progress.len() == n,
        n <= i32::MAX,
        count_false(m.progress) <= fuel,
        reads_ranked(c, n, rank),
        ids_have_rules(c, n),
        0 <= idx < n,
        !c.terms.contains(idx as i32),
        forall|s: int| #[trigger] stk.contains(s) ==> 0 <= s < n && m.progress[s] && rank(s) > rank(idx),
        first_good(c, m, stk),
    ensures
        first_node(c, m, idx, fuel).progress[idx],
        first_good(c, first_node(c, m, idx, fuel), stk),
        count_false(first_node(c, m, idx, fuel).progress) <= count_false(m.progress),
        first_walk_step_ok(c, m, first_node(c, m, idx, fuel)),
    decreases fuel, 0int, 0int,
{
    lemma_first_node_step(c, m, idx, fuel);
    if !m.progress[idx] {
        lemma_count_false_pos(m.progress, idx);
        assert(idx < c.rules.len());
        let m1 = Memo { progress: m.progress.update(idx, true), ..m };
        let stk1 = stk.insert(idx);
        lemma_count_false_set(m.progress, idx);
        assert forall|y: int|
            0 <= y < m1.progress.len() && #[trigger] m1.progress[y] && !stk1.contains(y)
                && !c.terms.contains(y as i32) implies first_closed(c, m1, y, stk1) by {
            assert(m.progress[y]);
            assert(first_closed(c, m, y, stk));
            assert forall|j: int, k: int| #[trigger] first_reads(c, y, j, k) implies {
                let x = c.rules[y][j][k] as int;
                &&& 0 <= x < m1.progress.len()
                &&& m1.progress[x]
                &&& !stk1.contains(x)
                &&& m1.sets[x].subset_of(m1.sets[y])
            } by {
                let x = c.rules[y][j][k] as int;
                assert(m.progress[x]);
            }
        }
        assert forall|s: int| #[trigger] stk1.contains(s) implies 0 <= s < n && m1.progress[s] && rank(s)
            >= rank(idx) by {
            if s != idx {
                assert(stk.contains(s));
            }
        }
        lemma_first_prods_closed(c, m1, idx, 0, Set::empty(), (fuel - 1) as nat, stk1, rank, n);
        lemma_first_prods_step(c, m1, idx, 0, Set::empty(), (fuel - 1) as nat);
        let (m2, ans) = first_prods(c, m1, idx, 0, Set::empty(), (fuel - 1) as nat);
        let r = Memo { sets: m2.sets.update(idx, ans), ..m2 };
        assert(r == first_node(c, m, idx, fuel));
        assert(m2.progress[idx]);
        assert forall|y: int|
            0 <= y < r.progress.len() && #[trigger] r.progress[y] && !stk.contains(y) && !c.terms.contains(
                y as i32,
            ) implies first_closed(c, r, y, stk) by {
            if y == idx {
                assert forall|j: int, k: int| #[trigger] first_reads(c, y, j, k) implies {
                    let x = c.rules[y][j][k] as int;
                    &&& 0 <= x < r.progress.len()
                    &&& r.progress[x]
                    &&& !stk.contains(x)
                    &&& r.sets[x].subset_of(r.sets[y])
                } by {
                    let x = c.rules[y][j][k] as int;
                    assert(rank(x) < rank(idx));
                    if stk.contains(x) {
                        assert(rank(x) > rank(idx));
                    }
                    assert(x != idx);
                    assert(m2.progress[x] && m2.sets[x].subset_of(ans));
                }
            } else {
                assert(!stk1.contains(y));
                assert(first_closed(c, m2, y, stk1));
                assert forall|j: int, k: int| #[trigger] first_reads(c, y, j, k) implies {
                    let x = c.rules[y][j][k] as int;
                    &&& 0 <= x < r.progress.len()
                    &&& r.progress[x]
                    &&& !stk.contains(x)
                    &&& r.sets[x].subset_of(r.sets[y])
                } by {
                    let x = c.rules[y][j][k] as int;
                    assert(!stk1.contains(x));
                    assert(x != idx);
                }
            }
        }
    }
}

proof fn lemma_first_prods_closed(
    c: FirstCtx,
    m: Memo,
    idx: int,
    j0: int,
    ans: Set<i32>,
    fuel: nat,
    stk: Set<int>,
    rank: spec_fn(int) -> int,
    n: int,
)
    requires
        m.sets.len() == n,
        m.progress.len() == n,
        n <= i32::MAX,
        count_false(m.progress) <= fuel,
        reads_ranked(c, n, rank),
        ids_have_rules(c, n),
        0 <= idx < c.rules.len(),
        0 <= j0,
        forall|s: int| #[trigger] stk.contains(s) ==> 0 <= s < n && m.progress[s] && rank(s) >= rank(idx),
        first_good(c, m, stk),
    ensures
        ({
            let (r, a) = first_prods(c, m, idx, j0, ans, fuel);
            &&& first_good(c, r, stk)
            &&& count_false(r.progress) <= count_false(m.progress)
            &&& forall|j: int, k: int|
                j0 <= j && #[trigger] first_reads(c, idx, j, k) ==> r.progress[c.rules[idx][j][k] as int]
                    && r.sets[c.rules[idx][j][k] as int].subset_of(a)
        }),
    decreases fuel, 2int, c.rules[idx].len() - j0,
{
    if j0 < c.rules[idx].len() {
        lemma_first_toks_closed(c, m, idx, j0, 0, ans, fuel, stk, rank, n);
        lemma_first_toks_step(c, m, idx, j0, 0, ans, fuel);
        let (m2, a2) = first_toks(c, m, idx, j0, 0, ans, fuel);
        lemma_count_false_mono(m.progress, m2.progress);
        assert forall|s: int| #[trigger] stk.contains(s) implies 0 <= s < n && m2.progress[s] && rank(s)
            >= rank(idx) by {}
        lemma_first_prods_closed(c, m2, idx, j0 + 1, a2, fuel, stk, rank, n);
        lemma_first_prods_step(c, m2, idx, j0 + 1, a2, fuel);
        lemma_first_prods_ans(c, m2, idx, j0 + 1, a2, fuel);
        let (r, a) = first_prods(c, m2, idx, j0 + 1, a2, fuel);
        assert forall|j: int, k: int|
            j0 <= j && #[trigger] first_reads(c, idx, j, k) implies r.progress[c.rules[idx][j][k] as int]
                && r.sets[c.rules[idx][j][k] as int].subset_of(a) by {
            if j == j0 {
                let x = c.rules[idx][j][k] as int;
                assert(m2.progress[x] && m2.sets[x].subset_of(a2));
                assert(0 <= x < n);
                assert(r.progress[x] && r.sets[x] == m2.sets[x]);
            }
        }
    }
}

proof fn lemma_first_toks_closed(
    c: FirstCtx,
    m: Memo,
    idx: int,
    j: int,
    k0: int,
    ans: Set<i32>,
    fuel: nat,
    stk: Set<int>,
    rank: spec_fn(int) -> int,
    n: int,
)
    requires
        m.sets.len() == n,
        m.progress.len() == n,
        n <= i32::MAX,
        count_false(m.progress) <= fuel,
        reads_ranked(c, n, rank),
        ids_have_rules(c, n),
        0 <= idx < c.rules.len(),
        0 <= j < c.rules[idx].len(),
        0 <= k0,
        forall|i: int| 0 <= i < k0 && i < c.rules[idx][j].len() ==> first_passes(c, #[trigger] c.rules[idx][j][i]),
        forall|s: int| #[trigger] stk.contains(s) ==> 0 <= s < n && m.progress[s] && rank(s) >= rank(idx),
        first_good(c, m, stk),
    ensures
        ({
            let (r, a) = first_toks(c, m, idx, j, k0, ans, fuel);
            &&& first_good(c, r, stk)
            &&& count_false(r.progress) <= count_false(m.progress)
            &&& forall|k: int|
                k0 <= k && #[trigger] first_reads(c, idx, j, k) ==> r.progress[c.rules[idx][j][k] as int]
                    && r.sets[c.rules[idx][j][k] as int].subset_of(a)
        }),
    decreases fuel, 1int, c.rules[idx][j].len() - k0,
{
    let p = c.rules[idx][j];
    if k0 < p.len() {
        let t = p[k0];
        if c.terms.contains(t) {
            if t == c.null {
                assert(first_passes(c, p[k0]));
                lemma_first_toks_closed(c, m, idx, j, k0 + 1, ans, fuel, stk, rank, n);
            } else {
                assert(!first_passes(c, p[k0]));
            }
        } else {
            assert(first_reads(c, idx, j, k0));
            let x = t as int;
            assert(0 <= x < n && rank(x) < rank(idx));
            assert((x as i32) == t);
            lemma_first_node_closed(c, m, x, fuel, stk, rank, n);
            let m2 = first_node(c, m, x, fuel);
            let a2 = ans.union(m2.sets[x]);
            assert forall|s: int| #[trigger] stk.contains(s) implies 0 <= s < n && m2.progress[s] && rank(s)
                >= rank(idx) by {}
            if c.nulls.contains(t) {
                assert(first_passes(c, p[k0]));
                lemma_first_toks_closed(c, m2, idx, j, k0 + 1, a2, fuel, stk, rank, n);
                lemma_first_toks_step(c, m2, idx, j, k0 + 1, a2, fuel);
                lemma_first_toks_ans(c, m2, idx, j, k0 + 1, a2, fuel, 0);
                let (r, a) = first_toks(c, m2, idx, j, k0 + 1, a2, fuel);
                assert(r.progress[x] && r.sets[x] == m2.sets[x]);
            } else {
                assert(!first_passes(c, p[k0]));
            }
        }
    }
}

/// Whether `m` marks and closes every marked non-terminal.
pub open spec fn first_all_good(c: FirstCtx, m: Memo) -> bool {
    first_good(c, m, Set::empty())
}

proof fn lemma_first_all_closed(
    c: FirstCtx,
    map: Map<Seq<char>, i32>,
    m: Memo,
    i: int,
    n: int,
    rank: spec_fn(int) -> int,
)
    requires
        0 <= i,
        m.progress.len() == n,
        m.sets.len() == n,
        n <= i32::MAX,
        reads_ranked(c, n, rank),
        ids_have_rules(c, n),
        first_all_good(c, m),
    ensures
        first_all_good(c, first_all_from(c, map, m, i, n)),
        first_all_from(c, map, m, i, n).progress.len() == n,
        first_all_from(c, map, m, i, n).sets.len() == n,
    decreases n - i,
{
    if i < n {
        let m1 = first_all_step(c, map, m, i, n);
        if has_id(map, i as i32) {
            if c.terms.contains(i as i32) {
                assert forall|y: int|
                    0 <= y < m1.progress.len() && #[trigger] m1.progress[y] && !Set::<int>::empty().contains(y)
                        && !c.terms.contains(y as i32) implies first_closed(c, m1, y, Set::empty()) by {
                    assert(y != i);
                    assert(first_closed(c, m, y, Set::empty()));
                    assert forall|j: int, k: int| #[trigger] first_reads(c, y, j, k) implies {
                        let x = c.rules[y][j][k] as int;
                        &&& 0 <= x < m1.progress.len()
                        &&& m1.progress[x]
                        &&& !Set::<int>::empty().contains(x)
                        &&& m1.sets[x].subset_of(m1.sets[y])
                    } by {
                        let x = c.rules[y][j][k] as int;
                        assert(m.progress[x]);
                    }
                }
            } else {
                lemma_count_false_le(m.progress);
                lemma_first_node_closed(c, m, i, n as nat, Set::empty(), rank, n);
                let mn = first_node(c, m, i, n as nat);
                assert(mn.progress[i]);
                assert(m1.progress =~= mn.progress);
                assert(m1 == mn);
            }
        }
        lemma_first_all_closed(c, map, m1, i + 1, n, rank);
    }
}

/// A FIRST set holds the FIRST sets of the non-terminals that its rule's
/// productions begin with: for a non-terminal `a` that the symbol table
/// numbers, and a non-terminal `x` at a position of one of its productions
/// after symbols that are `Null` or nullable non-terminals only, the FIRST
/// set of `x` is part of that of `a`. This holds when a rank of the symbols
/// decreases from each rule to every non-terminal that it reads so, and
/// every non-terminal has a rule; where a non-terminal reaches itself so,
/// its walk counts it as done as soon as it begins and can leave a set out.
pub proof fn lemma_first_holds_first_of_leading(
    c: FirstCtx,
    map: Map<Seq<char>, i32>,
    rank: spec_fn(int) -> int,
    a: int,
    j: int,
    k: int,
)
    requires
        map.len() <= i32::MAX,
        0 <= a < map.len(),
        has_id(map, a as i32),
        !c.terms.contains(a as i32),
        reads_ranked(c, map.len() as int, rank),
        ids_have_rules(c, map.len() as int),
        first_reads(c, a, j, k),
    ensures
        first_sets(c, map)[c.rules[a][j][k] as int].subset_of(first_sets(c, map)[a]),
{
    let n = map.len() as int;
    let m0 = first_memo0(n);
    assert(first_all_good(c, m0));
    lemma_first_all_closed(c, map, m0, 0, n, rank);
    assert(first_marked_ok(c, m0));
    lemma_first_all_marked(c, map, m0, 0, n);
    let r = first_all_from(c, map, m0, 0, n);
    assert(r.progress[a]);
    assert(a < c.rules.len());
    assert(first_closed(c, r, a, Set::empty()));
}

} // verus!
