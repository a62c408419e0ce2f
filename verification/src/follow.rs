//! FOLLOW sets: for each non-terminal, the terminals that can come right
//! after it. Like the FIRST sets, they come from a memoised depth-first
//! walk in which a symbol counts as done as soon as its walk begins.
use vstd::prelude::*;
use std::collections::HashSet;
use crate::names::{SymbolTable, has_id};
use crate::grammar::{Symbol, rules_view};
use crate::first::{Memo, ids_below_len};
use crate::sets::{sets_view, set_extend, empty_sets, false_flags, count_false, lemma_count_false_set, lemma_count_false_le};

verus! {

broadcast use vstd::std_specs::hash::group_hash_axioms;

/// What the walk reads: the rules, the terminals, the nullable symbols and
/// the FIRST sets.
pub struct FollowCtx {
    pub rules: Seq<Seq<Seq<i32>>>,
    pub terms: Set<i32>,
    pub nulls: Set<i32>,
    pub firsts: Seq<Set<i32>>,
}

/// The last position of `x` among the first `n` symbols of `p`, or -1.
pub open spec fn last_pos_in(p: Seq<i32>, x: i32, n: int) -> int
    decreases n,
{
    if n <= 0 {
        -1
    } else if p[n - 1] == x {
        n - 1
    } else {
        last_pos_in(p, x, n - 1)
    }
}

pub proof fn lemma_last_pos_in(p: Seq<i32>, x: i32, n: int)
    requires
        0 <= n <= p.len(),
    ensures
        -1 <= last_pos_in(p, x, n) < n,
        last_pos_in(p, x, n) >= 0 ==> last_pos_in(p, x, n) < p.len(),
    decreases n,
{
    if n > 0 && p[n - 1] != x {
        lemma_last_pos_in(p, x, n - 1);
    }
}

/// What the symbols of `p` from `k` on can begin with, added to `acc`: a
/// terminal is added and ends it; a non-terminal's FIRST set is added, and
/// it ends it unless it is nullable. The flag tells whether it ended.
pub open spec fn tail_first(c: FollowCtx, p: Seq<i32>, k: int, acc: Set<i32>) -> (Set<i32>, bool)
    decreases p.len() - k,
{
    if k < 0 || k >= p.len() {
        (acc, false)
    } else {
        let item = p[k];
        if c.terms.contains(item) {
            (acc.insert(item), true)
        } else if !c.nulls.contains(item) {
            (acc.union(c.firsts[item as int]), true)
        } else {
            tail_first(c, p, k + 1, acc.union(c.firsts[item as int]))
        }
    }
}

/// The scan of the productions of rule `ix` from the `j`-th on for the
/// last occurrence of `idx`: what may follow it there joins the set; when
/// all after it may vanish and `ix` is another rule, `ix` joins the rules
/// whose FOLLOW sets are needed.
pub open spec fn scan_prods(c: FollowCtx, idx: i32, ix: int, j: int, acc: (Set<i32>, Seq<i32>)) -> (
    Set<i32>,
    Seq<i32>,
)
    decreases c.rules[ix].len() - j,
{
    if j < 0 || j >= c.rules[ix].len() {
        acc
    } else {
        let p = c.rules[ix][j];
        let pos = last_pos_in(p, idx, p.len() as int);
        let acc2 = if pos >= 0 {
            let (r, done) = tail_first(c, p, pos + 1, acc.0);
            (
                r,
                if !done && idx != ix {
                    acc.1.push(ix as i32)
                } else {
                    acc.1
                },
            )
        } else {
            acc
        };
        scan_prods(c, idx, ix, j + 1, acc2)
    }
}

/// The scan of all rules from the `ix`-th on.
pub open spec fn scan_rules(c: FollowCtx, idx: i32, ix: int, acc: (Set<i32>, Seq<i32>)) -> (
    Set<i32>,
    Seq<i32>,
)
    decreases c.rules.len() - ix,
{
    if ix < 0 || ix >= c.rules.len() {
        acc
    } else {
        scan_rules(c, idx, ix + 1, scan_prods(c, idx, ix, 0, acc))
    }
}

/// The walk for the non-terminal `idx`: unless it has begun already, it is
/// marked begun, the rules are scanned, the rules that the scan names are
/// walked in turn, and what all that gave joins its set.
pub open spec fn follow_node(c: FollowCtx, m: Memo, idx: int, fuel: nat) -> Memo
    decreases fuel, 0int, 0int,
{
    if !(0 <= idx < m.progress.len()) || m.progress[idx] || fuel == 0 {
        m
    } else {
        let m1 = Memo { progress: m.progress.update(idx, true), ..m };
        let (res, calls) = scan_rules(c, idx as i32, 0, (Set::empty(), seq![]));
        let (m2, res2) = follow_calls(c, m1, calls, 0, res, (fuel - 1) as nat);
        Memo { sets: m2.sets.update(idx, m2.sets[idx].union(res2)), ..m2 }
    }
}

/// The walks for the rules `calls` from the `k`-th on, their sets joining
/// `res`.
pub open spec fn follow_calls(c: FollowCtx, m: Memo, calls: Seq<i32>, k: int, res: Set<i32>, fuel: nat) -> (
    Memo,
    Set<i32>,
)
    decreases fuel, 1int, calls.len() - k,
{
    if k < 0 || k >= calls.len() {
        (m, res)
    } else {
        let m2 = follow_node(c, m, calls[k] as int, fuel);
        follow_calls(c, m2, calls, k + 1, res.union(m2.sets[calls[k] as int]), fuel)
    }
}
/// The walk for the symbol `i` as the FOLLOW computation reaches it in its
/// pass over the numbers of the symbol table: a terminal is only marked.
pub open spec fn follow_all_step(c: FollowCtx, map: Map<Seq<char>, i32>, m: Memo, i: int, n: int) -> Memo {
    if has_id(map, i as i32) {
        if c.terms.contains(i as i32) {
            Memo { progress: m.progress.update(i, true), ..m }
        } else {
            let m1 = follow_node(c, m, i, n as nat);
            Memo { progress: m1.progress.update(i, true), ..m1 }
        }
    } else {
        m
    }
}

/// The walks over the symbols `i`, `i + 1`, ... below `n` that the symbol
/// table numbers, in order.
pub open spec fn follow_all_from(c: FollowCtx, map: Map<Seq<char>, i32>, m: Memo, i: int, n: int) -> Memo
    decreases n - i,
{
    if i >= n {
        m
    } else {
        follow_all_from(c, map, follow_all_step(c, map, m, i, n), i + 1, n)
    }
}

/// The state the FOLLOW computation starts from: a set per number below
/// the size of the symbol table, the first one holding `Eof`, and no walk
/// begun.
pub open spec fn follow_memo0(map: Map<Seq<char>, i32>) -> Memo {
    let n = map.len() as int;
    Memo {
        sets: Seq::new(n as nat, |i: int| Set::<i32>::empty()).update(0, set![map["Eof"@]]),
        progress: Seq::new(n as nat, |i: int| false),
    }
}

/// The FOLLOW sets: one per number below `map.len()`, the first one
/// starting out with `Eof`.
pub open spec fn follow_sets(c: FollowCtx, map: Map<Seq<char>, i32>) -> Seq<Set<i32>> {
    follow_all_from(c, map, follow_memo0(map), 0, map.len() as int).sets
}

/// Whether what may follow in `p` from its `k`-th symbol on reads only FIRST
/// sets that are there.
pub open spec fn tail_ok(c: FollowCtx, p: Seq<i32>, k: int) -> bool
    decreases p.len() - k,
{
    if k < 0 || k >= p.len() {
        true
    } else {
        let item = p[k];
        c.terms.contains(item) || (0 <= item < c.firsts.len() && (!c.nulls.contains(item)
            || tail_ok(c, p, k + 1)))
    }
}

/// Whether the scan of the productions of rule `ix` from the `j`-th on for
/// `idx` reads only FIRST sets that are there.
pub open spec fn scan_prods_ok(c: FollowCtx, idx: i32, ix: int, j: int) -> bool
    decreases c.rules[ix].len() - j,
{
    if j < 0 || j >= c.rules[ix].len() {
        true
    } else {
        let p = c.rules[ix][j];
        let pos = last_pos_in(p, idx, p.len() as int);
        &&& (pos < 0 || tail_ok(c, p, pos + 1))
        &&& scan_prods_ok(c, idx, ix, j + 1)
    }
}

/// Whether the scan of the rules from the `ix`-th on for `idx` reads only
/// FIRST sets that are there.
pub open spec fn scan_rules_ok(c: FollowCtx, idx: i32, ix: int) -> bool
    decreases c.rules.len() - ix,
{
    if ix < 0 || ix >= c.rules.len() {
        true
    } else {
        scan_prods_ok(c, idx, ix, 0) && scan_rules_ok(c, idx, ix + 1)
    }
}

/// Whether the walk for `idx` reads only what is there: `idx` has a flag
/// and, unless its walk has begun, its scan and the walks it calls for do.
pub open spec fn follow_node_ok(c: FollowCtx, m: Memo, idx: int, fuel: nat) -> bool
    decreases fuel, 0int, 0int,
{
    &&& 0 <= idx < m.progress.len()
    &&& (m.progress[idx] || fuel == 0 || (scan_rules_ok(c, idx as i32, 0) && follow_calls_ok(
        c,
        Memo { progress: m.progress.update(idx, true), ..m },
        scan_rules(c, idx as i32, 0, (Set::empty(), seq![])).1,
        0,
        scan_rules(c, idx as i32, 0, (Set::empty(), seq![])).0,
        (fuel - 1) as nat,
    )))
}

/// Whether the walks for the rules `calls` from the `k`-th on read only
/// what is there.
pub open spec fn follow_calls_ok(
    c: FollowCtx,
    m: Memo,
    calls: Seq<i32>,
    k: int,
    res: Set<i32>,
    fuel: nat,
) -> bool
    decreases fuel, 1int, calls.len() - k,
{
    if k < 0 || k >= calls.len() {
        true
    } else {
        &&& follow_node_ok(c, m, calls[k] as int, fuel)
        &&& follow_calls_ok(
            c,
            follow_node(c, m, calls[k] as int, fuel),
            calls,
            k + 1,
            res.union(follow_node(c, m, calls[k] as int, fuel).sets[calls[k] as int]),
            fuel,
        )
    }
}

/// Whether the walks over the symbols from `i` on read only what is there.
pub open spec fn follow_all_ok(c: FollowCtx, map: Map<Seq<char>, i32>, m: Memo, i: int, n: int) -> bool
    decreases n - i,
{
    if i >= n {
        true
    } else {
        &&& (!has_id(map, i as i32) || c.terms.contains(i as i32) || follow_node_ok(c, m, i, n as nat))
        &&& follow_all_ok(c, map, follow_all_step(c, map, m, i, n), i + 1, n)
    }
}

/// What the FOLLOW computation needs: an `Eof` symbol, at least one symbol,
/// symbol numbers that each have a set, rules that an `i32` numbers, and
/// walks that read only what is there.
pub open spec fn follow_inputs_ok(
    map: Map<Seq<char>, i32>,
    rules: Seq<Seq<Seq<i32>>>,
    terms: Set<i32>,
    nulls: Set<i32>,
    firsts: Seq<Set<i32>>,
) -> bool {
    &&& map.contains_key("Eof"@)
    &&& 1 <= map.len() <= i32::MAX
    &&& rules.len() <= i32::MAX
    &&& forall|v: i32| has_id(map, v) ==> 0 <= v < map.len()
    &&& follow_all_ok(
        FollowCtx { rules: rules, terms: terms, nulls: nulls, firsts: firsts },
        map,
        follow_memo0(map),
        0,
        map.len() as int,
    )
}

/// Whether `s` holds members of `terms` only.
pub open spec fn within(s: Set<i32>, terms: Set<i32>) -> bool {
    forall|x: i32| #[trigger] s.contains(x) ==> terms.contains(x)
}

/// Whether every set of `sets` holds members of `terms` only.
pub open spec fn within_all(sets: Seq<Set<i32>>, terms: Set<i32>) -> bool {
    forall|i: int| 0 <= i < sets.len() ==> within(#[trigger] sets[i], terms)
}

/// Whether `b` has as many sets as `a`, each a superset of the one in `a`.
pub open spec fn grows(a: Seq<Set<i32>>, b: Seq<Set<i32>>) -> bool {
    &&& a.len() == b.len()
    &&& forall|i: int| 0 <= i < a.len() ==> #[trigger] a[i].subset_of(b[i])
}

/// What may follow in a production, when what it reads is there and the
/// FIRST sets hold terminals only, holds terminals only.
pub proof fn lemma_tail_first_within(c: FollowCtx, p: Seq<i32>, k: int, acc: Set<i32>)
    requires
        within_all(c.firsts, c.terms),
        tail_ok(c, p, k),
        within(acc, c.terms),
    ensures
        within(tail_first(c, p, k, acc).0, c.terms),
    decreases p.len() - k,
{
    if !(k < 0 || k >= p.len()) {
        let item = p[k];
        if !c.terms.contains(item) {
            assert(within(c.firsts[item as int], c.terms));
            if c.nulls.contains(item) {
                lemma_tail_first_within(c, p, k + 1, acc.union(c.firsts[item as int]));
            }
        }
    }
}

/// The scan of the productions of a rule, when what it reads is there and
/// the FIRST sets hold terminals only, gives terminals only.
pub proof fn lemma_scan_prods_within(c: FollowCtx, idx: i32, ix: int, j: int, acc: (Set<i32>, Seq<i32>))
    requires
        within_all(c.firsts, c.terms),
        0 <= ix < c.rules.len(),
        scan_prods_ok(c, idx, ix, j),
        within(acc.0, c.terms),
    ensures
        within(scan_prods(c, idx, ix, j, acc).0, c.terms),
    decreases c.rules[ix].len() - j,
{
    if !(j < 0 || j >= c.rules[ix].len()) {
        let p = c.rules[ix][j];
        let pos = last_pos_in(p, idx, p.len() as int);
        let acc2 = if pos >= 0 {
            let (r, done) = tail_first(c, p, pos + 1, acc.0);
            (
                r,
                if !done && idx != ix {
                    acc.1.push(ix as i32)
                } else {
                    acc.1
                },
            )
        } else {
            acc
        };
        if pos >= 0 {
            lemma_tail_first_within(c, p, pos + 1, acc.0);
        }
        lemma_scan_prods_within(c, idx, ix, j + 1, acc2);
    }
}

/// The scan of the rules from the `ix`-th on, when what it reads is there
/// and the FIRST sets hold terminals only, gives terminals only.
pub proof fn lemma_scan_rules_within(c: FollowCtx, idx: i32, ix: int, acc: (Set<i32>, Seq<i32>))
    requires
        within_all(c.firsts, c.terms),
        ix >= 0,
        scan_rules_ok(c, idx, ix),
        within(acc.0, c.terms),
    ensures
        within(scan_rules(c, idx, ix, acc).0, c.terms),
    decreases c.rules.len() - ix,
{
    if ix < c.rules.len() {
        lemma_scan_prods_within(c, idx, ix, 0, acc);
        lemma_scan_rules_within(c, idx, ix + 1, scan_prods(c, idx, ix, 0, acc));
    }
}

/// The walk for a symbol only adds to the sets; when it reads only what is
/// there and the FIRST sets and the sets hold terminals only, so do the
/// sets it leaves.
pub proof fn lemma_follow_node_grows(c: FollowCtx, m: Memo, idx: int, fuel: nat)
    requires
        m.sets.len() == m.progress.len(),
    ensures
        follow_node(c, m, idx, fuel).progress.len() == m.progress.len(),
        grows(m.sets, follow_node(c, m, idx, fuel).sets),
        follow_node_ok(c, m, idx, fuel) && within_all(c.firsts, c.terms) && within_all(
            m.sets,
            c.terms,
        ) ==> within_all(follow_node(c, m, idx, fuel).sets, c.terms),
    decreases fuel, 0int, 0int,
{
    if !(!(0 <= idx < m.progress.len()) || m.progress[idx] || fuel == 0) {
        let m1 = Memo { progress: m.progress.update(idx, true), ..m };
        let (res, calls) = scan_rules(c, idx as i32, 0, (Set::empty(), seq![]));
        lemma_follow_calls_grows(c, m1, calls, 0, res, (fuel - 1) as nat);
        let (m2, res2) = follow_calls(c, m1, calls, 0, res, (fuel - 1) as nat);
        let m3 = Memo { sets: m2.sets.update(idx, m2.sets[idx].union(res2)), ..m2 };
        assert forall|i: int| 0 <= i < m.sets.len() implies #[trigger] m.sets[i].subset_of(
            m3.sets[i],
        ) by {
            assert(m1.sets[i].subset_of(m2.sets[i]));
        }
        if follow_node_ok(c, m, idx, fuel) && within_all(c.firsts, c.terms) && within_all(
            m.sets,
            c.terms,
        ) {
            lemma_scan_rules_within(c, idx as i32, 0, (Set::<i32>::empty(), Seq::<i32>::empty()));
            assert forall|i: int| 0 <= i < m3.sets.len() implies within(
                #[trigger] m3.sets[i],
                c.terms,
            ) by {
                assert(within(m2.sets[i], c.terms));
            }
        }
    }
}

/// The walks for the rules `calls` only add to the sets; when they read
/// only what is there and the FIRST sets, the sets and `res` hold terminals
/// only, so do the sets they leave and what they give.
pub proof fn lemma_follow_calls_grows(
    c: FollowCtx,
    m: Memo,
    calls: Seq<i32>,
    k: int,
    res: Set<i32>,
    fuel: nat,
)
    requires
        m.sets.len() == m.progress.len(),
    ensures
        follow_calls(c, m, calls, k, res, fuel).0.progress.len() == m.progress.len(),
        grows(m.sets, follow_calls(c, m, calls, k, res, fuel).0.sets),
        follow_calls_ok(c, m, calls, k, res, fuel) && within_all(c.firsts, c.terms) && within_all(
            m.sets,
            c.terms,
        ) && within(res, c.terms) ==> within_all(follow_calls(c, m, calls, k, res, fuel).0.sets, c.terms)
            && within(follow_calls(c, m, calls, k, res, fuel).1, c.terms),
    decreases fuel, 1int, calls.len() - k,
{
    if !(k < 0 || k >= calls.len()) {
        lemma_follow_node_grows(c, m, calls[k] as int, fuel);
        let m2 = follow_node(c, m, calls[k] as int, fuel);
        let res2 = res.union(m2.sets[calls[k] as int]);
        lemma_follow_calls_grows(c, m2, calls, k + 1, res2, fuel);
        let r = follow_calls(c, m2, calls, k + 1, res2, fuel);
        assert forall|i: int| 0 <= i < m.sets.len() implies #[trigger] m.sets[i].subset_of(
            r.0.sets[i],
        ) by {
            assert(m.sets[i].subset_of(m2.sets[i]));
            assert(m2.sets[i].subset_of(r.0.sets[i]));
        }
        if follow_calls_ok(c, m, calls, k, res, fuel) && within_all(c.firsts, c.terms) && within_all(
            m.sets,
            c.terms,
        ) && within(res, c.terms) {
            assert(follow_node_ok(c, m, calls[k] as int, fuel));
            assert(0 <= calls[k] < m.progress.len());
            assert(within(m2.sets[calls[k] as int], c.terms));
        }
    }
}

/// The walks over the symbols from `i` on only add to the sets; when they
/// read only what is there and the FIRST sets and the sets hold terminals
/// only, so do the sets they leave.
pub proof fn lemma_follow_all_from_grows(c: FollowCtx, map: Map<Seq<char>, i32>, m: Memo, i: int, n: int)
    requires
        m.sets.len() == n,
        m.progress.len() == n,
        i >= 0,
    ensures
        grows(m.sets, follow_all_from(c, map, m, i, n).sets),
        follow_all_ok(c, map, m, i, n) && within_all(c.firsts, c.terms) && within_all(
            m.sets,
            c.terms,
        ) ==> within_all(follow_all_from(c, map, m, i, n).sets, c.terms),
    decreases n - i,
{
    if i < n {
        let m2 = follow_all_step(c, map, m, i, n);
        if has_id(map, i as i32) && !c.terms.contains(i as i32) {
            lemma_follow_node_grows(c, m, i, n as nat);
        }
        assert(grows(m.sets, m2.sets));
        lemma_follow_all_from_grows(c, map, m2, i + 1, n);
        let r = follow_all_from(c, map, m2, i + 1, n);
        assert forall|j: int| 0 <= j < m.sets.len() implies #[trigger] m.sets[j].subset_of(
            r.sets[j],
        ) by {
            assert(m.sets[j].subset_of(m2.sets[j]));
            assert(m2.sets[j].subset_of(r.sets[j]));
        }
    }
}

/// The FOLLOW set of the start symbol holds `Eof`; when the FIRST sets
/// hold terminals only and `Eof` is a terminal, every FOLLOW set holds
/// terminals only. There is one set per number below the size of the
/// symbol table.
pub proof fn lemma_follow_sets_terminals(c: FollowCtx, map: Map<Seq<char>, i32>)
    requires
        follow_inputs_ok(map, c.rules, c.terms, c.nulls, c.firsts),
    ensures
        follow_sets(c, map).len() == map.len(),
        follow_sets(c, map)[0].contains(map["Eof"@]),
        within_all(c.firsts, c.terms) && c.terms.contains(map["Eof"@]) ==> within_all(
            follow_sets(c, map),
            c.terms,
        ),
{
    let n = map.len() as int;
    let m0 = follow_memo0(map);
    assert(c == FollowCtx { rules: c.rules, terms: c.terms, nulls: c.nulls, firsts: c.firsts });
    lemma_follow_all_from_grows(c, map, m0, 0, n);
    assert(m0.sets[0].subset_of(follow_sets(c, map)[0]));
    assert(m0.sets[0].contains(map["Eof"@]));
    if within_all(c.firsts, c.terms) && c.terms.contains(map["Eof"@]) {
        assert forall|i: int| 0 <= i < m0.sets.len() implies within(#[trigger] m0.sets[i], c.terms) by {
            if i == 0 {
                assert forall|x: i32| #[trigger] m0.sets[i].contains(x) implies c.terms.contains(x) by {
                    assert(x == map["Eof"@]);
                }
            }
        }
    }
}

/// What may follow `index` in one production, as [`tail_first`] says, added
/// to `result`; returns whether the production ended before its end, and
/// whether the FIRST sets it reads are there, as [`tail_ok`] says.
#[allow(non_snake_case)]
fn tail_first_exec(
    p: &Vec<i32>,
    from: usize,
    result: &mut HashSet<i32>,
    terminal_indices: &HashSet<i32>,
    nullables: &HashSet<i32>,
    First: &Vec<HashSet<i32>>,
    Ghost(c): Ghost<FollowCtx>,
) -> (r: (bool, bool))
    requires
        from <= p@.len(),
        c.terms == terminal_indices@,
        c.nulls == nullables@,
        c.firsts == sets_view(First@),
    ensures
        r.1 == tail_ok(c, p@, from as int),
        r.1 ==> (final(result)@, r.0) == tail_first(c, p@, from as int, old(result)@),
{
    let ghost target = tail_first(c, p@, from as int, result@);
    let ghost target_ok = tail_ok(c, p@, from as int);
    let mut k = from;
    let mut done = false;
    while k < p.len() && !done
        invariant
            from <= k <= p@.len(),
            c.terms == terminal_indices@,
            c.nulls == nullables@,
            c.firsts == sets_view(First@),
            target_ok == tail_ok(c, p@, from as int),
            target == tail_first(c, p@, from as int, old(result)@),
            !done ==> tail_ok(c, p@, k as int) == target_ok,
            !done ==> tail_first(c, p@, k as int, result@) == target,
            done ==> target_ok && (result@, true) == target,
        decreases p@.len() - k + (if done {
            0int
        } else {
            1int
        }),
    {
        let item = p[k];
        if terminal_indices.contains(&item) {
            result.insert(item);
            done = true;
        } else {
            if item < 0 || item as usize >= First.len() {
                return (false, false);
            }
            assert(sets_view(First@)[item as int] == First@[item as int]@);
            set_extend(result, &First[item as usize]);
            if !nullables.contains(&item) {
                done = true;
            } else {
                k = k + 1;
            }
        }
    }
    (done, true)
}

/// The scan of all rules for `index`, as [`scan_rules`] says, when the
/// FIRST sets it reads are there, as [`scan_rules_ok`] says, and `None`
/// otherwise.
#[allow(non_snake_case)]
fn scan_rules_exec(
    index: i32,
    rules: &Vec<Vec<Vec<i32>>>,
    terminal_indices: &HashSet<i32>,
    nullables: &HashSet<i32>,
    First: &Vec<HashSet<i32>>,
    Ghost(c): Ghost<FollowCtx>,
) -> (r: Option<(HashSet<i32>, Vec<i32>)>)
    requires
        rules@.len() <= i32::MAX,
        c == (FollowCtx {
            rules: rules_view(rules@),
            terms: terminal_indices@,
            nulls: nullables@,
            firsts: sets_view(First@),
        }),
    ensures
        r is Some <==> scan_rules_ok(c, index, 0),
        r matches Some(v) ==> (v.0@, v.1@) == scan_rules(c, index, 0, (Set::empty(), seq![])),
{
    let ghost target = scan_rules(c, index, 0, (Set::empty(), seq![]));
    let ghost target_ok = scan_rules_ok(c, index, 0);
    let mut result: HashSet<i32> = HashSet::new();
    let mut calls: Vec<i32> = Vec::new();
    let mut ix: usize = 0;
    while ix < rules.len()
        invariant
            ix <= rules@.len() <= i32::MAX,
            c == (FollowCtx {
                rules: rules_view(rules@),
                terms: terminal_indices@,
                nulls: nullables@,
                firsts: sets_view(First@),
            }),
            target_ok == scan_rules_ok(c, index, 0),
            target == scan_rules(c, index, 0, (Set::empty(), seq![])),
            scan_rules(c, index, ix as int, (result@, calls@)) == target,
            scan_rules_ok(c, index, ix as int) == target_ok,
        decreases rules@.len() - ix,
    {
        let ghost ri = scan_prods(c, index, ix as int, 0, (result@, calls@));
        let ghost ri_ok = scan_prods_ok(c, index, ix as int, 0);
        let mut j: usize = 0;
        while j < rules[ix].len()
            invariant
                ix < rules@.len() <= i32::MAX,
                j <= rules@[ix as int]@.len(),
                c == (FollowCtx {
                    rules: rules_view(rules@),
                    terms: terminal_indices@,
                    nulls: nullables@,
                    firsts: sets_view(First@),
                }),
                target_ok == scan_rules_ok(c, index, 0),
                target_ok == (ri_ok && scan_rules_ok(c, index, ix + 1)),
                target == scan_rules(c, index, ix + 1, ri),
                scan_prods(c, index, ix as int, j as int, (result@, calls@)) == ri,
                scan_prods_ok(c, index, ix as int, j as int) == ri_ok,
            decreases rules@[ix as int]@.len() - j,
        {
            let p = &rules[ix][j];
            assert(c.rules[ix as int][j as int] == p@);
            let mut pos = p.len();
            let mut found = false;
            while pos > 0 && !found
                invariant
                    pos <= p@.len(),
                    !found ==> last_pos_in(p@, index, pos as int) == last_pos_in(
                        p@,
                        index,
                        p@.len() as int,
                    ),
                    found ==> pos > 0 && last_pos_in(p@, index, p@.len() as int) == pos - 1,
                decreases pos + (if found {
                    0int
                } else {
                    1int
                }),
            {
                if p[pos - 1] == index {
                    found = true;
                } else {
                    pos = pos - 1;
                }
            }
            proof {
                crate::follow::lemma_last_pos_in(p@, index, p@.len() as int);
            }
            if found {
                let (done, ok) = tail_first_exec(
                    p,
                    pos,
                    &mut result,
                    terminal_indices,
                    nullables,
                    First,
                    Ghost(c),
                );
                if !ok {
                    assert(!tail_ok(c, p@, last_pos_in(p@, index, p@.len() as int) + 1));
                    assert(!scan_prods_ok(c, index, ix as int, j as int));
                    return None;
                }
                if !done && index != ix as i32 {
                    calls.push(ix as i32);
                }
            }
            j = j + 1;
        }
        ix = ix + 1;
    }
    Some((result, calls))
}

/// The walk for the symbol `index`, as [`follow_node`] says; it returns
/// whether the walk reads only what is there, as [`follow_node_ok`] says,
/// and leaves the sets as they come when it does not.
#[allow(non_snake_case)]
fn follow(
    index: i32,
    rules: &Vec<Vec<Vec<i32>>>,
    terminal_indices: &HashSet<i32>,
    nullables: &HashSet<i32>,
    First: &Vec<HashSet<i32>>,
    Follow: &mut Vec<HashSet<i32>>,
    progress: &mut Vec<bool>,
    Ghost(fuel): Ghost<nat>,
) -> (ok: bool)
    requires
        0 <= index < old(progress)@.len(),
        old(progress)@.len() == old(Follow)@.len(),
        old(progress)@.len() <= i32::MAX,
        rules@.len() <= i32::MAX,
        count_false(old(progress)@) <= fuel,
    ensures
        ({
            let c = FollowCtx {
                rules: rules_view(rules@),
                terms: terminal_indices@,
                nulls: nullables@,
                firsts: sets_view(First@),
            };
            let m = Memo { sets: sets_view(old(Follow)@), progress: old(progress)@ };
            let r = follow_node(c, m, index as int, fuel);
            &&& ok == follow_node_ok(c, m, index as int, fuel)
            &&& ok ==> sets_view(final(Follow)@) == r.sets && final(progress)@ == r.progress
        }),
        final(progress)@.len() == old(progress)@.len(),
        final(Follow)@.len() == old(Follow)@.len(),
        count_false(final(progress)@) <= count_false(old(progress)@),
    decreases fuel,
{
    let ghost c = FollowCtx {
        rules: rules_view(rules@),
        terms: terminal_indices@,
        nulls: nullables@,
        firsts: sets_view(First@),
    };
    let ghost m0 = Memo { sets: sets_view(Follow@), progress: progress@ };
    if progress[index as usize] {
        return true;
    }
    proof {
        lemma_count_false_set(progress@, index as int);
    }
    progress.set(index as usize, true);
    let ghost m1 = Memo { sets: sets_view(Follow@), progress: progress@ };
    let (mut result, calls) = match scan_rules_exec(
        index,
        rules,
        terminal_indices,
        nullables,
        First,
        Ghost(c),
    ) {
        None => {
            return false;
        },
        Some(r) => r,
    };
    let ghost target = follow_calls(c, m1, calls@, 0, result@, (fuel - 1) as nat);
    let ghost target_ok = follow_calls_ok(c, m1, calls@, 0, result@, (fuel - 1) as nat);
    assert(follow_node_ok(c, m0, index as int, fuel) == target_ok);
    let mut k: usize = 0;
    while k < calls.len()
        invariant
            k <= calls@.len(),
            c == (FollowCtx {
                rules: rules_view(rules@),
                terms: terminal_indices@,
                nulls: nullables@,
                firsts: sets_view(First@),
            }),
            follow_node_ok(
                c,
                Memo { sets: sets_view(old(Follow)@), progress: old(progress)@ },
                index as int,
                fuel,
            ) == target_ok,
            fuel > 0,
            0 <= index < progress@.len(),
            progress@.len() == Follow@.len(),
            progress@.len() == old(progress)@.len(),
            old(progress)@.len() == old(Follow)@.len(),
            progress@.len() <= i32::MAX,
            rules@.len() <= i32::MAX,
            count_false(progress@) <= fuel - 1,
            count_false(progress@) < count_false(old(progress)@),
            follow_calls(
                c,
                Memo { sets: sets_view(Follow@), progress: progress@ },
                calls@,
                k as int,
                result@,
                (fuel - 1) as nat,
            ) == target,
            follow_calls_ok(
                c,
                Memo { sets: sets_view(Follow@), progress: progress@ },
                calls@,
                k as int,
                result@,
                (fuel - 1) as nat,
            ) == target_ok,
        decreases calls@.len() - k,
    {
        let ix = calls[k];
        if ix < 0 || ix as usize >= progress.len() {
            assert(!follow_node_ok(
                c,
                Memo { sets: sets_view(Follow@), progress: progress@ },
                ix as int,
                (fuel - 1) as nat,
            ));
            return false;
        }
        let ok = follow(
            ix,
            rules,
            terminal_indices,
            nullables,
            First,
            Follow,
            progress,
            Ghost((fuel - 1) as nat),
        );
        if !ok {
            return false;
        }
        assert(sets_view(Follow@)[ix as int] == Follow@[ix as int]@);
        set_extend(&mut result, &Follow[ix as usize]);
        k = k + 1;
    }
    assert(target == (Memo { sets: sets_view(Follow@), progress: progress@ }, result@));
    let ghost before = sets_view(Follow@);
    set_extend(&mut Follow[index as usize], &result);
    assert(sets_view(Follow@) =~= before.update(index as int, before[index as int].union(result@)));
    true
}

/// The walks of the FOLLOW computation over the numbers of the symbol
/// table, for a table with `Eof` whose numbers each have a set: the FOLLOW
/// sets when every walk reads only what is there, as [`follow_all_ok`]
/// says, and `None` otherwise.
#[allow(non_snake_case)]
fn follow_walk(
    map: &SymbolTable,
    rules: &Vec<Vec<Vec<i32>>>,
    terminal_indices: &HashSet<i32>,
    nullables: &HashSet<i32>,
    First: &Vec<HashSet<i32>>,
    eof: i32,
) -> (r: Option<Vec<HashSet<i32>>>)
    requires
        1 <= map@.len() <= i32::MAX,
        rules@.len() <= i32::MAX,
        map@.contains_key("Eof"@),
        eof == map@["Eof"@],
    ensures
        ({
            let c = FollowCtx {
                rules: rules_view(rules@),
                terms: terminal_indices@,
                nulls: nullables@,
                firsts: sets_view(First@),
            };
            let n = map@.len() as int;
            &&& r is Some <==> follow_all_ok(c, map@, follow_memo0(map@), 0, n)
            &&& r matches Some(v) ==> sets_view(v@) == follow_all_from(c, map@, follow_memo0(map@), 0, n).sets
        }),
{
    let n = map.len();
    let mut Follow = empty_sets(n);
    let ghost s0 = sets_view(Follow@);
    assert(Follow@.len() == sets_view(Follow@).len());
    assert(Follow@[0]@ == s0[0]);
    Follow[0].insert(eof);
    assert(Follow@[0]@ =~= set![eof]);
    assert(sets_view(Follow@) =~= s0.update(0, set![eof]));
    let mut progress = false_flags(n);
    assert(sets_view(Follow@) =~= follow_memo0(map@).sets);
    assert(progress@ =~= follow_memo0(map@).progress);
    let ghost c = FollowCtx {
        rules: rules_view(rules@),
        terms: terminal_indices@,
        nulls: nullables@,
        firsts: sets_view(First@),
    };
    let ghost target = follow_all_from(c, map@, follow_memo0(map@), 0, n as int);
    let ghost target_ok = follow_all_ok(c, map@, follow_memo0(map@), 0, n as int);
    let mut i: usize = 0;
    while i < n
        invariant
            i <= n,
            n == map@.len(),
            n <= i32::MAX,
            rules@.len() <= i32::MAX,
            c == (FollowCtx {
                rules: rules_view(rules@),
                terms: terminal_indices@,
                nulls: nullables@,
                firsts: sets_view(First@),
            }),
            progress@.len() == n,
            Follow@.len() == n,
            target_ok == follow_all_ok(c, map@, follow_memo0(map@), 0, n as int),
            target == follow_all_from(c, map@, follow_memo0(map@), 0, n as int),
            follow_all_from(
                c,
                map@,
                Memo { sets: sets_view(Follow@), progress: progress@ },
                i as int,
                n as int,
            ) == target,
            follow_all_ok(
                c,
                map@,
                Memo { sets: sets_view(Follow@), progress: progress@ },
                i as int,
                n as int,
            ) == target_ok,
        decreases n - i,
    {
        let ghost m = Memo { sets: sets_view(Follow@), progress: progress@ };
        if map.has_id(i as i32) {
            if terminal_indices.contains(&(i as i32)) {
                progress.set(i, true);
            } else {
                proof {
                    crate::sets::lemma_count_false_le(progress@);
                }
                let ok = follow(
                    i as i32,
                    rules,
                    terminal_indices,
                    nullables,
                    First,
                    &mut Follow,
                    &mut progress,
                    Ghost(n as nat),
                );
                if !ok {
                    assert(!follow_all_ok(c, map@, m, i as int, n as int));
                    return None;
                }
                progress.set(i, true);
            }
        }
        assert(Memo { sets: sets_view(Follow@), progress: progress@ } == follow_all_step(
            c,
            map@,
            m,
            i as int,
            n as int,
        ));
        i = i + 1;
    }
    Some(Follow)
}

/// The FOLLOW sets of the grammar, as [`follow_sets`] says: one set per
/// number below the size of the symbol table.
#[allow(non_snake_case)]
pub fn calFollow(
    terminals: &mut Vec<Symbol>,
    non_terminals: &mut Vec<Symbol>,
    map: &mut SymbolTable,
    rules: &mut Vec<Vec<Vec<i32>>>,
    nullables: &mut HashSet<i32>,
    terminal_indices: &mut HashSet<i32>,
    First: &mut Vec<HashSet<i32>>,
) -> (r: Vec<HashSet<i32>>)
    requires
        follow_inputs_ok(
            old(map)@,
            rules_view(old(rules)@),
            old(terminal_indices)@,
            old(nullables)@,
            sets_view(old(First)@),
        ),
    ensures
        final(terminals)@ == old(terminals)@,
        final(non_terminals)@ == old(non_terminals)@,
        final(map)@ == old(map)@,
        final(rules)@ == old(rules)@,
        final(nullables)@ == old(nullables)@,
        final(terminal_indices)@ == old(terminal_indices)@,
        final(First)@ == old(First)@,
        sets_view(r@) == follow_sets(
            FollowCtx {
                rules: rules_view(old(rules)@),
                terms: old(terminal_indices)@,
                nulls: old(nullables)@,
                firsts: sets_view(old(First)@),
            },
            old(map)@,
        ),
{
    broadcast use vstd::string::group_string_axioms;

    let eof_name = "Eof".to_string();
    let eof = match map.get(&eof_name) {
        Some(v) => v,
        None => 0,
    };
    match follow_walk(map, rules, terminal_indices, nullables, First, eof) {
        Some(v) => v,
        None => {
            proof {
                assert(false);
            }
            Vec::new()
        },
    }
}

/// Whether [`calFollow`] can run on these arguments, as
/// [`follow_inputs_ok`] says; this runs the walks.
#[allow(non_snake_case)]
pub fn follow_inputs_hold(
    map: &SymbolTable,
    rules: &Vec<Vec<Vec<i32>>>,
    terms: &HashSet<i32>,
    nullables: &HashSet<i32>,
    First: &Vec<HashSet<i32>>,
) -> (b: bool)
    ensures
        b == follow_inputs_ok(map@, rules_view(rules@), terms@, nullables@, sets_view(First@)),
{
    broadcast use vstd::string::group_string_axioms;

    let eof_name = "Eof".to_string();
    let eof = match map.get(&eof_name) {
        None => {
            return false;
        },
        Some(v) => v,
    };
    let n = map.len();
    if n < 1 || n > 2147483647usize || rules.len() > 2147483647usize {
        return false;
    }
    if !ids_below_len(map) {
        return false;
    }
    follow_walk(map, rules, terms, nullables, First, eof).is_some()
}

/// What the rules give to the FOLLOW set of `y` directly: what may follow
/// its last occurrence in each production.
pub open spec fn scan_of(c: FollowCtx, y: int) -> Set<i32> {
    scan_rules(c, y as i32, 0, (Set::empty(), seq![])).0
}

/// What a symbol puts into the set of what may follow: a terminal itself,
/// a non-terminal its FIRST set.
pub open spec fn may_begin(c: FollowCtx, v: i32) -> Set<i32> {
    if c.terms.contains(v) {
        set![v]
    } else {
        c.firsts[v as int]
    }
}

proof fn lemma_tail_first_grows(c: FollowCtx, p: Seq<i32>, k0: int, acc: Set<i32>)
    ensures
        acc.subset_of(tail_first(c, p, k0, acc).0),
    decreases p.len() - k0,
{
    if 0 <= k0 < p.len() {
        lemma_tail_first_grows(c, p, k0 + 1, acc.union(c.firsts[p[k0] as int]));
    }
}

/// What [`tail_first`] gives from `k0` on holds what the `k`-th symbol may
/// begin with, when all symbols between are nullable non-terminals.
proof fn lemma_tail_first_covers(c: FollowCtx, p: Seq<i32>, k0: int, acc: Set<i32>, k: int)
    requires
        0 <= k0 <= k < p.len(),
        forall|i: int| k0 <= i < k ==> !c.terms.contains(#[trigger] p[i]) && c.nulls.contains(p[i]),
    ensures
        may_begin(c, p[k]).subset_of(tail_first(c, p, k0, acc).0),
    decreases p.len() - k0,
{
    let v = p[k0];
    if k0 < k {
        assert(!c.terms.contains(p[k0]) && c.nulls.contains(p[k0]));
        lemma_tail_first_covers(c, p, k0 + 1, acc.union(c.firsts[v as int]), k);
    } else if !c.terms.contains(v) && c.nulls.contains(v) {
        lemma_tail_first_grows(c, p, k0 + 1, acc.union(c.firsts[v as int]));
    }
}

/// The last occurrence of `x` among the first `n` symbols of `p` is `q` when
/// `p[q]` is `x` and none after it up to `n` is.
proof fn lemma_last_pos_is(p: Seq<i32>, x: i32, n: int, q: int)
    requires
        0 <= q < n <= p.len(),
        p[q] == x,
        forall|r: int| q < r < n ==> #[trigger] p[r] != x,
    ensures
        last_pos_in(p, x, n) == q,
    decreases n,
{
    if n - 1 > q {
        lemma_last_pos_is(p, x, n - 1, q);
    }
}

proof fn lemma_scan_prods_grows(c: FollowCtx, idx: i32, ix: int, j0: int, acc: (Set<i32>, Seq<i32>))
    ensures
        acc.0.subset_of(scan_prods(c, idx, ix, j0, acc).0),
    decreases c.rules[ix].len() - j0,
{
    if !(j0 < 0 || j0 >= c.rules[ix].len()) {
        let p = c.rules[ix][j0];
        let pos = last_pos_in(p, idx, p.len() as int);
        let acc2 = if pos >= 0 {
            let (r, done) = tail_first(c, p, pos + 1, acc.0);
            lemma_tail_first_grows(c, p, pos + 1, acc.0);
            (
                r,
                if !done && idx != ix {
                    acc.1.push(ix as i32)
                } else {
                    acc.1
                },
            )
        } else {
            acc
        };
        lemma_scan_prods_grows(c, idx, ix, j0 + 1, acc2);
    }
}

/// The scan of rule `ix` from production `j0` on gives what may follow the
/// last occurrence of `idx` in production `j`.
proof fn lemma_scan_prods_covers(
    c: FollowCtx,
    idx: i32,
    ix: int,
    j0: int,
    acc: (Set<i32>, Seq<i32>),
    j: int,
    q: int,
    k: int,
)
    requires
        0 <= j0 <= j < c.rules[ix].len(),
        0 <= q < k < c.rules[ix][j].len(),
        c.rules[ix][j][q] == idx,
        forall|r: int| q < r < c.rules[ix][j].len() ==> #[trigger] c.rules[ix][j][r] != idx,
        forall|r: int|
            q < r < k ==> !c.terms.contains(#[trigger] c.rules[ix][j][r]) && c.nulls.contains(
                c.rules[ix][j][r],
            ),
    ensures
        may_begin(c, c.rules[ix][j][k]).subset_of(scan_prods(c, idx, ix, j0, acc).0),
    decreases c.rules[ix].len() - j0,
{
    let p = c.rules[ix][j0];
    let pos = last_pos_in(p, idx, p.len() as int);
    let acc2 = if pos >= 0 {
        let (r, done) = tail_first(c, p, pos + 1, acc.0);
        (
            r,
            if !done && idx != ix {
                acc.1.push(ix as i32)
            } else {
                acc.1
            },
        )
    } else {
        acc
    };
    if j0 < j {
        lemma_scan_prods_covers(c, idx, ix, j0 + 1, acc2, j, q, k);
    } else {
        lemma_last_pos_is(p, idx, p.len() as int, q);
        lemma_tail_first_covers(c, p, q + 1, acc.0, k);
        lemma_scan_prods_grows(c, idx, ix, j0 + 1, acc2);
    }
}

proof fn lemma_scan_rules_grows(c: FollowCtx, idx: i32, ix0: int, acc: (Set<i32>, Seq<i32>))
    ensures
        acc.0.subset_of(scan_rules(c, idx, ix0, acc).0),
    decreases c.rules.len() - ix0,
{
    if !(ix0 < 0 || ix0 >= c.rules.len()) {
        lemma_scan_prods_grows(c, idx, ix0, 0, acc);
        lemma_scan_rules_grows(c, idx, ix0 + 1, scan_prods(c, idx, ix0, 0, acc));
    }
}

proof fn lemma_scan_rules_covers(
    c: FollowCtx,
    idx: i32,
    ix0: int,
    acc: (Set<i32>, Seq<i32>),
    ix: int,
    j: int,
    q: int,
    k: int,
)
    requires
        0 <= ix0 <= ix < c.rules.len(),
        0 <= j < c.rules[ix].len(),
        0 <= q < k < c.rules[ix][j].len(),
        c.rules[ix][j][q] == idx,
        forall|r: int| q < r < c.rules[ix][j].len() ==> #[trigger] c.rules[ix][j][r] != idx,
        forall|r: int|
            q < r < k ==> !c.terms.contains(#[trigger] c.rules[ix][j][r]) && c.nulls.contains(
                c.rules[ix][j][r],
            ),
    ensures
        may_begin(c, c.rules[ix][j][k]).subset_of(scan_rules(c, idx, ix0, acc).0),
    decreases c.rules.len() - ix0,
{
    if ix0 < ix {
        lemma_scan_rules_covers(c, idx, ix0 + 1, scan_prods(c, idx, ix0, 0, acc), ix, j, q, k);
    } else {
        lemma_scan_prods_covers(c, idx, ix, 0, acc, j, q, k);
        lemma_scan_rules_grows(c, idx, ix0 + 1, scan_prods(c, idx, ix0, 0, acc));
    }
}

/// What a FOLLOW walk does to the memo: the number of sets and flags stays,
/// sets only grow, flags stay set, the walked symbol is marked when it
/// could be walked, and every symbol whose walk begins in it ends with its
/// set holding what the rules give it directly.
pub open spec fn follow_step_ok(c: FollowCtx, m: Memo, r: Memo) -> bool {
    &&& r.sets.len() == m.sets.len()
    &&& r.progress.len() == m.progress.len()
    &&& forall|y: int| 0 <= y < m.sets.len() ==> m.sets[y].subset_of(#[trigger] r.sets[y])
    &&& forall|y: int| 0 <= y < m.progress.len() && m.progress[y] ==> #[trigger] r.progress[y]
    &&& forall|y: int|
        0 <= y < m.progress.len() && #[trigger] r.progress[y] && !m.progress[y] ==> scan_of(
            c,
            y,
        ).subset_of(r.sets[y])
}

proof fn lemma_follow_step_trans(c: FollowCtx, a: Memo, b: Memo, d: Memo)
    requires
        a.sets.len() == a.progress.len(),
        follow_step_ok(c, a, b),
        follow_step_ok(c, b, d),
    ensures
        follow_step_ok(c, a, d),
{
    assert forall|y: int| 0 <= y < a.sets.len() implies a.sets[y].subset_of(#[trigger] d.sets[y]) by {
        assert(b.sets[y].subset_of(d.sets[y]));
    }
    assert forall|y: int| 0 <= y < a.progress.len() && a.progress[y] implies #[trigger] d.progress[y] by {
        assert(b.progress[y]);
    }
    assert forall|y: int|
        0 <= y < a.progress.len() && #[trigger] d.progress[y] && !a.progress[y] implies scan_of(
        c,
        y,
    ).subset_of(d.sets[y]) by {
        if b.progress[y] {
            assert(b.sets[y].subset_of(d.sets[y]));
        }
    }
}

proof fn lemma_follow_node_step(c: FollowCtx, m: Memo, idx: int, fuel: nat)
    requires
        m.sets.len() == m.progress.len(),
    ensures
        follow_step_ok(c, m, follow_node(c, m, idx, fuel)),
        0 <= idx < m.progress.len() && fuel > 0 ==> follow_node(c, m, idx, fuel).progress[idx],
    decreases fuel, 0int, 0int,
{
    if !(!(0 <= idx < m.progress.len()) || m.progress[idx] || fuel == 0) {
        let m1 = Memo { progress: m.progress.update(idx, true), ..m };
        let (res, calls) = scan_rules(c, idx as i32, 0, (Set::empty(), seq![]));
        lemma_follow_calls_step(c, m1, calls, 0, res, (fuel - 1) as nat);
        let (m2, res2) = follow_calls(c, m1, calls, 0, res, (fuel - 1) as nat);
        let r = Memo { sets: m2.sets.update(idx, m2.sets[idx].union(res2)), ..m2 };
        assert(r == follow_node(c, m, idx, fuel));
        assert(follow_step_ok(c, m1, m2));
        assert forall|y: int| 0 <= y < m.sets.len() implies m.sets[y].subset_of(#[trigger] r.sets[y]) by {
            assert(m1.sets[y].subset_of(m2.sets[y]));
        }
        assert forall|y: int| 0 <= y < m.progress.len() && m.progress[y] implies #[trigger] r.progress[y] by {
            assert(m1.progress[y]);
        }
        assert forall|y: int|
            0 <= y < m.progress.len() && #[trigger] r.progress[y] && !m.progress[y] implies scan_of(
            c,
            y,
        ).subset_of(r.sets[y]) by {
            if y == idx {
                assert(res.subset_of(res2));
            } else {
                assert(!m1.progress[y]);
                assert(m2.progress[y]);
            }
        }
        assert(m1.progress[idx]);
    }
}

proof fn lemma_follow_calls_step(c: FollowCtx, m: Memo, calls: Seq<i32>, k: int, res: Set<i32>, fuel: nat)
    requires
        m.sets.len() == m.progress.len(),
    ensures
        follow_step_ok(c, m, follow_calls(c, m, calls, k, res, fuel).0),
        res.subset_of(follow_calls(c, m, calls, k, res, fuel).1),
    decreases fuel, 1int, calls.len() - k,
{
    if !(k < 0 || k >= calls.len()) {
        let m2 = follow_node(c, m, calls[k] as int, fuel);
        lemma_follow_node_step(c, m, calls[k] as int, fuel);
        lemma_follow_calls_step(c, m2, calls, k + 1, res.union(m2.sets[calls[k] as int]), fuel);
        lemma_follow_step_trans(c, m, m2, follow_calls(c, m2, calls, k + 1, res.union(m2.sets[calls[k] as int]), fuel).0);
    }
}

/// Whether every non-terminal that the memo marks holds what the rules
/// give it directly.
pub open spec fn follow_marked_ok(c: FollowCtx, m: Memo) -> bool {
    &&& m.sets.len() == m.progress.len()
    &&& forall|y: int|
        0 <= y < m.progress.len() && #[trigger] m.progress[y] && !c.terms.contains(y as i32) ==> scan_of(
            c,
            y,
        ).subset_of(m.sets[y])
}

proof fn lemma_follow_all_marked(c: FollowCtx, map: Map<Seq<char>, i32>, m: Memo, i: int, n: int)
    requires
        0 <= i,
        m.progress.len() == n,
        follow_marked_ok(c, m),
    ensures
        follow_marked_ok(c, follow_all_from(c, map, m, i, n)),
        follow_all_from(c, map, m, i, n).progress.len() == n,
        forall|y: int| 0 <= y < n && m.progress[y] ==> #[trigger] follow_all_from(c, map, m, i, n).progress[y],
        forall|a: int|
            i <= a < n && has_id(map, a as i32) ==> #[trigger] follow_all_from(c, map, m, i, n).progress[a],
    decreases n - i,
{
    if i < n {
        let m1 = follow_all_step(c, map, m, i, n);
        if has_id(map, i as i32) {
            if c.terms.contains(i as i32) {
                assert(follow_marked_ok(c, m1));
            } else {
                let mn = follow_node(c, m, i, n as nat);
                lemma_follow_node_step(c, m, i, n as nat);
                assert forall|y: int|
                    0 <= y < m1.progress.len() && #[trigger] m1.progress[y] && !c.terms.contains(
                        y as i32,
                    ) implies scan_of(c, y).subset_of(m1.sets[y]) by {
                    if y == i {
                        assert(mn.progress[i]);
                    }
                    if m.progress[y] {
                        assert(m.sets[y].subset_of(mn.sets[y]));
                    }
                }
            }
        }
        assert(forall|y: int| 0 <= y < n && m.progress[y] ==> #[trigger] m1.progress[y]);
        lemma_follow_all_marked(c, map, m1, i + 1, n);
        let r = follow_all_from(c, map, m1, i + 1, n);
        assert forall|a: int| i <= a < n && has_id(map, a as i32) implies #[trigger] r.progress[a] by {
            if a == i {
                assert(m1.progress[i]);
            }
        }
    }
}

/// FOLLOW sets hold what may come after a symbol: for a non-terminal `a`
/// that the symbol table numbers, and a production of rule `ix` whose last
/// occurrence of `a` is at position `q`, every symbol at a position `k`
/// after it that is reached through nullable non-terminals only puts into
/// the FOLLOW set of `a` what it may begin with: itself if it is a
/// terminal, else its FIRST set.
pub proof fn lemma_follow_holds_what_comes_after(
    c: FollowCtx,
    map: Map<Seq<char>, i32>,
    a: i32,
    ix: int,
    j: int,
    q: int,
    k: int,
)
    requires
        0 <= a < map.len(),
        has_id(map, a),
        !c.terms.contains(a),
        0 <= ix < c.rules.len(),
        0 <= j < c.rules[ix].len(),
        0 <= q < k < c.rules[ix][j].len(),
        c.rules[ix][j][q] == a,
        forall|r: int| q < r < c.rules[ix][j].len() ==> #[trigger] c.rules[ix][j][r] != a,
        forall|r: int|
            q < r < k ==> !c.terms.contains(#[trigger] c.rules[ix][j][r]) && c.nulls.contains(
                c.rules[ix][j][r],
            ),
    ensures
        may_begin(c, c.rules[ix][j][k]).subset_of(follow_sets(c, map)[a as int]),
{
    let n = map.len() as int;
    let m0 = follow_memo0(map);
    assert(follow_marked_ok(c, m0));
    lemma_follow_all_marked(c, map, m0, 0, n);
    let r = follow_all_from(c, map, m0, 0, n);
    assert(r.progress[a as int]);
    assert((a as int) as i32 == a);
    lemma_scan_rules_covers(c, a, 0, (Set::empty(), seq![]), ix, j, q, k);
}

/// Whether every symbol of `p` from `k` on is a nullable non-terminal.
pub open spec fn tail_vanishes(c: FollowCtx, p: Seq<i32>, k: int) -> bool {
    forall|r: int| k <= r < p.len() ==> !c.terms.contains(#[trigger] p[r]) && c.nulls.contains(p[r])
}

/// [`tail_first`] runs to the end of `p` exactly when all that is left may
/// vanish.
proof fn lemma_tail_first_done(c: FollowCtx, p: Seq<i32>, k: int, acc: Set<i32>)
    requires
        0 <= k,
    ensures
        !tail_first(c, p, k, acc).1 <==> tail_vanishes(c, p, k),
    decreases p.len() - k,
{
    if k < p.len() {
        let item = p[k];
        if !c.terms.contains(item) && c.nulls.contains(item) {
            lemma_tail_first_done(c, p, k + 1, acc.union(c.firsts[item as int]));
            assert(tail_vanishes(c, p, k + 1) ==> tail_vanishes(c, p, k));
        } else {
            assert(!tail_vanishes(c, p, k));
        }
    }
}

/// Whether the FOLLOW set of rule `ix` feeds that of `y`: the last
/// occurrence of `y` in production `j` of another rule `ix` is followed by
/// nullable non-terminals only.
pub open spec fn follow_feeds(c: FollowCtx, y: int, ix: int, j: int) -> bool {
    &&& 0 <= ix < c.rules.len()
    &&& 0 <= j < c.rules[ix].len()
    &&& ix != y
    &&& last_pos_in(c.rules[ix][j], y as i32, c.rules[ix][j].len() as int) >= 0
    &&& tail_vanishes(
        c,
        c.rules[ix][j],
        last_pos_in(c.rules[ix][j], y as i32, c.rules[ix][j].len() as int) + 1,
    )
}

proof fn lemma_scan_prods_calls(c: FollowCtx, y: i32, ix: int, j0: int, acc: (Set<i32>, Seq<i32>))
    requires
        0 <= ix < c.rules.len() <= i32::MAX,
        0 <= j0,
    ensures
        forall|x: i32| acc.1.contains(x) ==> #[trigger] scan_prods(c, y, ix, j0, acc).1.contains(x),
        forall|x: i32|
            #[trigger] scan_prods(c, y, ix, j0, acc).1.contains(x) ==> acc.1.contains(x) || (x as int
                == ix && exists|j: int| #[trigger] follow_feeds(c, y as int, ix, j)),
        forall|j: int| j0 <= j && #[trigger] follow_feeds(c, y as int, ix, j) ==> scan_prods(c, y, ix, j0, acc).1.contains(ix as i32),
    decreases c.rules[ix].len() - j0,
{
    if j0 < c.rules[ix].len() {
        let p = c.rules[ix][j0];
        let pos = last_pos_in(p, y, p.len() as int);
        lemma_last_pos_in(p, y, p.len() as int);
        let acc2 = if pos >= 0 {
            let (r, done) = tail_first(c, p, pos + 1, acc.0);
            lemma_tail_first_done(c, p, pos + 1, acc.0);
            (
                r,
                if !done && y != ix {
                    acc.1.push(ix as i32)
                } else {
                    acc.1
                },
            )
        } else {
            acc
        };
        lemma_scan_prods_calls(c, y, ix, j0 + 1, acc2);
        let r = scan_prods(c, y, ix, j0, acc).1;
        assert(r == scan_prods(c, y, ix, j0 + 1, acc2).1);
        if pos >= 0 && !tail_first(c, p, pos + 1, acc.0).1 && y != ix {
            assert(follow_feeds(c, y as int, ix, j0));
            assert(acc2.1.contains(ix as i32)) by {
                assert(acc2.1[acc2.1.len() - 1] == ix as i32);
            }
            assert forall|x: i32| acc.1.contains(x) implies #[trigger] acc2.1.contains(x) by {
                let i = choose|i: int| 0 <= i < acc.1.len() && acc.1[i] == x;
                assert(acc2.1[i] == x);
            }
            assert forall|x: i32| #[trigger] acc2.1.contains(x) implies acc.1.contains(x) || (x as int
                == ix && exists|j: int| #[trigger] follow_feeds(c, y as int, ix, j)) by {
                let i = choose|i: int| 0 <= i < acc2.1.len() && acc2.1[i] == x;
                if i < acc.1.len() {
                    assert(acc.1[i] == x);
                }
            }
        } else {
            assert(!follow_feeds(c, y as int, ix, j0));
        }
    }
}

proof fn lemma_scan_rules_calls(c: FollowCtx, y: i32, ix0: int, acc: (Set<i32>, Seq<i32>))
    requires
        0 <= ix0,
        c.rules.len() <= i32::MAX,
    ensures
        forall|x: i32| acc.1.contains(x) ==> #[trigger] scan_rules(c, y, ix0, acc).1.contains(x),
        forall|x: i32|
            #[trigger] scan_rules(c, y, ix0, acc).1.contains(x) ==> acc.1.contains(x) || exists|ix: int, j: int|
                ix == x as int && #[trigger] follow_feeds(c, y as int, ix, j),
        forall|ix: int, j: int|
            ix0 <= ix && #[trigger] follow_feeds(c, y as int, ix, j) ==> scan_rules(c, y, ix0, acc).1.contains(
                ix as i32,
            ),
    decreases c.rules.len() - ix0,
{
    if ix0 < c.rules.len() {
        let acc2 = scan_prods(c, y, ix0, 0, acc);
        lemma_scan_prods_calls(c, y, ix0, 0, acc);
        lemma_scan_rules_calls(c, y, ix0 + 1, acc2);
        let r = scan_rules(c, y, ix0, acc).1;
        assert(r == scan_rules(c, y, ix0 + 1, acc2).1);
        assert forall|x: i32| #[trigger] r.contains(x) implies acc.1.contains(x) || exists|ix: int, j: int|
            ix == x as int && #[trigger] follow_feeds(c, y as int, ix, j) by {
            if !acc2.1.contains(x) {
            } else if !acc.1.contains(x) {
                assert(x as int == ix0 && exists|j: int| #[trigger] follow_feeds(c, y as int, ix0, j));
                let j = choose|j: int| #[trigger] follow_feeds(c, y as int, ix0, j);
                assert(ix0 == x as int && follow_feeds(c, y as int, ix0, j));
            }
        }
        assert forall|ix: int, j: int| ix0 <= ix && #[trigger] follow_feeds(c, y as int, ix, j) implies r.contains(
            ix as i32,
        ) by {
            if ix == ix0 {
                assert(acc2.1.contains(ix as i32));
            }
        }
    } else {
        assert forall|ix: int, j: int| ix0 <= ix && #[trigger] follow_feeds(c, y as int, ix, j) implies false by {}
    }
}

/// A marked symbol keeps its set and its mark through a FOLLOW walk.
proof fn lemma_follow_node_fixed(c: FollowCtx, m: Memo, idx: int, fuel: nat)
    requires
        m.sets.len() == m.progress.len(),
    ensures
        forall|y: int|
            0 <= y < m.progress.len() && m.progress[y] ==> #[trigger] follow_node(c, m, idx, fuel).sets[y]
                == m.sets[y],
    decreases fuel, 0int, 0int,
{
    lemma_follow_node_step(c, m, idx, fuel);
    if !(!(0 <= idx < m.progress.len()) || m.progress[idx] || fuel == 0) {
        let m1 = Memo { progress: m.progress.update(idx, true), ..m };
        let (res, calls) = scan_rules(c, idx as i32, 0, (Set::empty(), seq![]));
        lemma_follow_calls_fixed(c, m1, calls, 0, res, (fuel - 1) as nat);
        lemma_follow_calls_step(c, m1, calls, 0, res, (fuel - 1) as nat);
        let (m2, res2) = follow_calls(c, m1, calls, 0, res, (fuel - 1) as nat);
        assert forall|y: int| 0 <= y < m.progress.len() && m.progress[y] implies #[trigger] follow_node(
            c,
            m,
            idx,
            fuel,
        ).sets[y] == m.sets[y] by {
            assert(m1.progress[y]);
            assert(y != idx);
            assert(m2.sets[y] == m1.sets[y]);
        }
    }
}

proof fn lemma_follow_calls_fixed(c: FollowCtx, m: Memo, calls: Seq<i32>, k: int, res: Set<i32>, fuel: nat)
    requires
        m.sets.len() == m.progress.len(),
    ensures
        forall|y: int|
            0 <= y < m.progress.len() && m.progress[y] ==> #[trigger] follow_calls(c, m, calls, k, res, fuel).0.sets[y]
                == m.sets[y],
    decreases fuel, 1int, calls.len() - k,
{
    if !(k < 0 || k >= calls.len()) {
        let m2 = follow_node(c, m, calls[k] as int, fuel);
        lemma_follow_node_step(c, m, calls[k] as int, fuel);
        lemma_follow_node_fixed(c, m, calls[k] as int, fuel);
        lemma_follow_calls_fixed(c, m2, calls, k + 1, res.union(m2.sets[calls[k] as int]), fuel);
        assert(follow_calls(c, m, calls, k, res, fuel) == follow_calls(
            c,
            m2,
            calls,
            k + 1,
            res.union(m2.sets[calls[k] as int]),
            fuel,
        ));
        assert forall|y: int| 0 <= y < m.progress.len() && m.progress[y] implies #[trigger] follow_calls(
            c,
            m,
            calls,
            k,
            res,
            fuel,
        ).0.sets[y] == m.sets[y] by {
            assert(m2.progress[y]);
            assert(m2.sets[y] == m.sets[y]);
        }
    }
}

/// Whether `rank` decreases along the FOLLOW walks' calls: every rule that
/// a FOLLOW set numbered below `n` is fed by is numbered below `n` and
/// ranks below it. Then no FOLLOW walk calls, through other walks, itself.
pub open spec fn follow_ranked(c: FollowCtx, n: int, rank: spec_fn(int) -> int) -> bool {
    forall|y: int, ix: int, j: int|
        0 <= y < n && #[trigger] follow_feeds(c, y, ix, j) ==> ix < n && rank(ix) < rank(y)
}

/// Whether the set of `y` holds the sets of the rules that feed it, each
/// of them marked and off the stack `stk`.
pub open spec fn follow_closed(c: FollowCtx, m: Memo, y: int, stk: Set<int>) -> bool {
    forall|ix: int, j: int|
        #[trigger] follow_feeds(c, y, ix, j) ==> 0 <= ix < m.progress.len() && m.progress[ix]
            && !stk.contains(ix) && m.sets[ix].subset_of(m.sets[y])
}

/// Whether every marked non-terminal off the stack `stk` is closed.
pub open spec fn follow_good(c: FollowCtx, m: Memo, stk: Set<int>) -> bool {
    forall|y: int|
        0 <= y < m.progress.len() && #[trigger] m.progress[y] && !stk.contains(y) && !c.terms.contains(
            y as i32,
        ) ==> follow_closed(c, m, y, stk)
}

proof fn lemma_count_false_mono_f(p: Seq<bool>, q: Seq<bool>)
    requires
        p.len() == q.len(),
        forall|i: int| 0 <= i < p.len() && p[i] ==> #[trigger] q[i],
    ensures
        count_false(q) <= count_false(p),
    decreases p.len(),
{
    if p.len() > 0 {
        assert forall|i: int| 0 <= i < p.drop_last().len() && p.drop_last()[i] implies #[trigger] q.drop_last()[i] by {
            assert(p[i]);
        }
        lemma_count_false_mono_f(p.drop_last(), q.drop_last());
        assert(p.last() ==> q[q.len() - 1]);
    }
}

proof fn lemma_count_false_pos_f(p: Seq<bool>, i: int)
    requires
        0 <= i < p.len(),
        !p[i],
    ensures
        count_false(p) >= 1,
    decreases p.len(),
{
    if i < p.len() - 1 {
        lemma_count_false_pos_f(p.drop_last(), i);
    }
}

proof fn lemma_follow_node_closed(
    c: FollowCtx,
    m: Memo,
    idx: int,
    fuel: nat,
    stk: Set<int>,
    rank: spec_fn(int) -> int,
    n: int,
)
    requires
        m.sets.len() == n,
        m.progress.len() == n,
        n <= i32::MAX,
        c.rules.len() <= i32::MAX,
        count_false(m.progress) <= fuel,
        follow_ranked(c, n, rank),
        0 <= idx < n,
        forall|s: int| #[trigger] stk.contains(s) ==> 0 <= s < n && m.progress[s] && rank(s) > rank(idx),
        follow_good(c, m, stk),
    ensures
        follow_node(c, m, idx, fuel).progress[idx],
        follow_good(c, follow_node(c, m, idx, fuel), stk),
        count_false(follow_node(c, m, idx, fuel).progress) <= count_false(m.progress),
    decreases fuel, 0int, 0int,
{
    lemma_follow_node_step(c, m, idx, fuel);
    lemma_follow_node_fixed(c, m, idx, fuel);
    let r = follow_node(c, m, idx, fuel);
    lemma_count_false_mono_f(m.progress, r.progress);
    if !m.progress[idx] {
        lemma_count_false_pos_f(m.progress, idx);
        let m1 = Memo { progress: m.progress.update(idx, true), ..m };
        let stk1 = stk.insert(idx);
        lemma_count_false_set(m.progress, idx);
        assert forall|y: int|
            0 <= y < m1.progress.len() && #[trigger] m1.progress[y] && !stk1.contains(y)
                && !c.terms.contains(y as i32) implies follow_closed(c, m1, y, stk1) by {
            assert(m.progress[y]);
            assert(follow_closed(c, m, y, stk));
            assert forall|ix: int, j: int| #[trigger] follow_feeds(c, y, ix, j) implies 0 <= ix
                < m1.progress.len() && m1.progress[ix] && !stk1.contains(ix) && m1.sets[ix].subset_of(
                m1.sets[y],
            ) by {
                assert(m.progress[ix]);
            }
        }
        let (res, calls) = scan_rules(c, idx as i32, 0, (Set::empty(), seq![]));
        lemma_scan_rules_calls(c, idx as i32, 0, (Set::empty(), seq![]));
        assert((idx as i32) as int == idx);
        assert forall|i: int| 0 <= i < calls.len() implies 0 <= #[trigger] calls[i] < n && rank(
            calls[i] as int,
        ) < rank(idx) by {
            assert(calls.contains(calls[i]));
            assert(!seq![].contains(calls[i]));
            let (ix, j) = choose|ix: int, j: int|
                ix == calls[i] as int && #[trigger] follow_feeds(c, (idx as i32) as int, ix, j);
            assert(follow_feeds(c, idx, ix, j));
        }
        assert forall|s: int| #[trigger] stk1.contains(s) implies 0 <= s < n && m1.progress[s] && rank(s)
            >= rank(idx) by {
            if s != idx {
                assert(stk.contains(s));
            }
        }
        lemma_follow_calls_closed(c, m1, calls, 0, res, (fuel - 1) as nat, stk1, rank, n, idx);
        lemma_follow_calls_step(c, m1, calls, 0, res, (fuel - 1) as nat);
        let (m2, res2) = follow_calls(c, m1, calls, 0, res, (fuel - 1) as nat);
        assert(r == Memo { sets: m2.sets.update(idx, m2.sets[idx].union(res2)), ..m2 });
        assert forall|y: int|
            0 <= y < r.progress.len() && #[trigger] r.progress[y] && !stk.contains(y) && !c.terms.contains(
                y as i32,
            ) implies follow_closed(c, r, y, stk) by {
            if y == idx {
                assert forall|ix: int, j: int| #[trigger] follow_feeds(c, y, ix, j) implies 0 <= ix
                    < r.progress.len() && r.progress[ix] && !stk.contains(ix) && r.sets[ix].subset_of(
                    r.sets[y],
                ) by {
                    assert(rank(ix) < rank(idx));
                    if stk.contains(ix) {
                        assert(rank(ix) > rank(idx));
                    }
                    assert(calls.contains(ix as i32));
                    let i = choose|i: int| 0 <= i < calls.len() && calls[i] == ix as i32;
                    assert(m2.progress[calls[i] as int] && m2.sets[calls[i] as int].subset_of(res2));
                    assert(calls[i] as int == ix);
                }
            } else {
                assert(!stk1.contains(y));
                assert(follow_closed(c, m2, y, stk1));
                assert forall|ix: int, j: int| #[trigger] follow_feeds(c, y, ix, j) implies 0 <= ix
                    < r.progress.len() && r.progress[ix] && !stk.contains(ix) && r.sets[ix].subset_of(
                    r.sets[y],
                ) by {
                    assert(!stk1.contains(ix));
                    assert(ix != idx);
                }
            }
        }
    }
}

proof fn lemma_follow_calls_closed(
    c: FollowCtx,
    m: Memo,
    calls: Seq<i32>,
    k: int,
    res: Set<i32>,
    fuel: nat,
    stk: Set<int>,
    rank: spec_fn(int) -> int,
    n: int,
    idx: int,
)
    requires
        m.sets.len() == n,
        m.progress.len() == n,
        n <= i32::MAX,
        c.rules.len() <= i32::MAX,
        count_false(m.progress) <= fuel,
        follow_ranked(c, n, rank),
        0 <= k,
        forall|i: int| 0 <= i < calls.len() ==> 0 <= #[trigger] calls[i] < n && rank(calls[i] as int) < rank(idx),
        forall|s: int| #[trigger] stk.contains(s) ==> 0 <= s < n && m.progress[s] && rank(s) >= rank(idx),
        follow_good(c, m, stk),
    ensures
        ({
            let (r, a) = follow_calls(c, m, calls, k, res, fuel);
            &&& follow_good(c, r, stk)
            &&& count_false(r.progress) <= count_false(m.progress)
            &&& res.subset_of(a)
            &&& forall|i: int|
                k <= i < calls.len() ==> r.progress[#[trigger] calls[i] as int] && r.sets[calls[i] as int].subset_of(a)
        }),
    decreases fuel, 1int, calls.len() - k,
{
    lemma_follow_calls_step(c, m, calls, k, res, fuel);
    if k < calls.len() {
        let x = calls[k] as int;
        assert(0 <= x < n && rank(x) < rank(idx));
        lemma_follow_node_closed(c, m, x, fuel, stk, rank, n);
        lemma_follow_node_step(c, m, x, fuel);
        let m2 = follow_node(c, m, x, fuel);
        let r2 = res.union(m2.sets[x]);
        assert forall|s: int| #[trigger] stk.contains(s) implies 0 <= s < n && m2.progress[s] && rank(s)
            >= rank(idx) by {}
        lemma_follow_calls_closed(c, m2, calls, k + 1, r2, fuel, stk, rank, n, idx);
        lemma_follow_calls_fixed(c, m2, calls, k + 1, r2, fuel);
        lemma_follow_calls_step(c, m2, calls, k + 1, r2, fuel);
        let (r, a) = follow_calls(c, m2, calls, k + 1, r2, fuel);
        assert((r, a) == follow_calls(c, m, calls, k, res, fuel));
        assert(r.sets[x] == m2.sets[x]);
        assert forall|i: int| k <= i < calls.len() implies r.progress[#[trigger] calls[i] as int]
            && r.sets[calls[i] as int].subset_of(a) by {
            if i == k {
                assert(r.progress[x]);
            }
        }
    }
}

proof fn lemma_follow_all_closed(
    c: FollowCtx,
    map: Map<Seq<char>, i32>,
    m: Memo,
    i: int,
    n: int,
    rank: spec_fn(int) -> int,
)
    requires
        0 <= i,
        m.progress.len() == n,
        m.sets.len() == n,
        n <= i32::MAX,
        c.rules.len() <= i32::MAX,
        follow_ranked(c, n, rank),
        follow_good(c, m, Set::empty()),
    ensures
        follow_good(c, follow_all_from(c, map, m, i, n), Set::empty()),
        follow_all_from(c, map, m, i, n).progress.len() == n,
    decreases n - i,
{
    if i < n {
        let m1 = follow_all_step(c, map, m, i, n);
        if has_id(map, i as i32) {
            if c.terms.contains(i as i32) {
                assert forall|y: int|
                    0 <= y < m1.progress.len() && #[trigger] m1.progress[y] && !Set::<int>::empty().contains(y)
                        && !c.terms.contains(y as i32) implies follow_closed(c, m1, y, Set::empty()) by {
                    assert(y != i);
                    assert(follow_closed(c, m, y, Set::empty()));
                    assert forall|ix: int, j: int| #[trigger] follow_feeds(c, y, ix, j) implies 0 <= ix
                        < m1.progress.len() && m1.progress[ix] && !Set::<int>::empty().contains(ix)
                        && m1.sets[ix].subset_of(m1.sets[y]) by {
                        assert(m.progress[ix]);
                    }
                }
            } else {
                lemma_count_false_le(m.progress);
                lemma_follow_node_closed(c, m, i, n as nat, Set::empty(), rank, n);
                lemma_follow_node_step(c, m, i, n as nat);
                let mn = follow_node(c, m, i, n as nat);
                assert(m1.progress =~= mn.progress);
                assert(m1 == mn);
            }
        }
        lemma_follow_all_closed(c, map, m1, i + 1, n, rank);
    }
}

/// A FOLLOW set holds the FOLLOW sets of the rules whose productions can
/// end with its symbol: for a non-terminal `a` that the symbol table
/// numbers, and a production of another rule `ix` in which the last
/// occurrence of `a` is followed by nullable non-terminals only, the
/// FOLLOW set of `ix` is part of that of `a`. This holds when a rank of the
/// symbols decreases from `a` to every such rule; where a symbol reaches
/// itself so, its walk counts it as done as soon as it begins and can leave
/// a set out.
pub proof fn lemma_follow_holds_follow_of_rule(
    c: FollowCtx,
    map: Map<Seq<char>, i32>,
    rank: spec_fn(int) -> int,
    a: i32,
    ix: int,
    j: int,
)
    requires
        map.len() <= i32::MAX,
        c.rules.len() <= i32::MAX,
        0 <= a < map.len(),
        has_id(map, a),
        !c.terms.contains(a),
        follow_ranked(c, map.len() as int, rank),
        follow_feeds(c, a as int, ix, j),
    ensures
        follow_sets(c, map)[ix].subset_of(follow_sets(c, map)[a as int]),
{
    let n = map.len() as int;
    let m0 = follow_memo0(map);
    assert(follow_good(c, m0, Set::empty()));
    lemma_follow_all_closed(c, map, m0, 0, n, rank);
    assert(follow_marked_ok(c, m0));
    lemma_follow_all_marked(c, map, m0, 0, n);
    let r = follow_all_from(c, map, m0, 0, n);
    assert(r.progress[a as int]);
    assert((a as int) as i32 == a);
    assert(follow_closed(c, r, a as int, Set::empty()));
}

} // verus!
