//! Building the grammar: numbering the symbols, loading the rules, removing
//! immediate left recursion, and finding the nullable symbols.
use vstd::prelude::*;
use std::collections::HashSet;
use crate::names::SymbolTable;
use crate::grammar::{
    Symbol, SymbolType, symbol_views, line_texts, symbol_name, load_symbols, statements,
    symbol_lines_ok, symbol_lines_readable,
    rules_loadable, load_stmts, rules_view, load_Production_Rules, check_production_rules,
};

verus! {

broadcast use vstd::std_specs::hash::group_hash_axioms;

/// The two productions lists of a rule with respect to left recursion on
/// `idx`: `alpha` holds, without their first symbol, the productions that
/// begin with `idx`; `beta` holds the others. Both keep their order.
pub open spec fn lr_split(prods: Seq<Seq<i32>>, idx: i32) -> (Seq<Seq<i32>>, Seq<Seq<i32>>)
    decreases prods.len(),
{
    if prods.len() == 0 {
        (seq![], seq![])
    } else {
        let (a, b) = lr_split(prods.drop_last(), idx);
        let p = prods.last();
        if p[0] == idx {
            (a.push(p.drop_first()), b)
        } else {
            (a, b.push(p))
        }
    }
}

/// Each production of `ps` with `x` appended.
pub open spec fn push_each(ps: Seq<Seq<i32>>, x: i32) -> Seq<Seq<i32>> {
    ps.map_values(|p: Seq<i32>| p.push(x))
}

/// The grammar at one stage of its construction.
pub struct GrammarModel {
    pub terminals: Seq<(Seq<char>, SymbolType)>,
    pub non_terminals: Seq<(Seq<char>, SymbolType)>,
    pub map: Map<Seq<char>, i32>,
    pub rules: Seq<Seq<Seq<i32>>>,
    pub nullables: Set<i32>,
}

/// The name of the non-terminal that removing left recursion from `name`
/// introduces.
pub open spec fn primed(name: Seq<char>) -> Seq<char> {
    name + "`"@
}

/// The grammar after immediate left recursion is removed from the rule
/// `idx`: `A -> A a | b` becomes `A -> b A'` and `A' -> Null | a A'`, where
/// `A'` is a new nullable non-terminal numbered after all symbols so far.
pub open spec fn remove_lr(g: GrammarModel, idx: i32) -> GrammarModel {
    let (alpha, beta) = lr_split(g.rules[idx as int], idx);
    let name = primed(g.non_terminals[idx as int].0);
    let nts = g.non_terminals.push((name, SymbolType::NonTerminal));
    let new_id = (nts.len() + g.terminals.len() - 1) as i32;
    let map = g.map.insert(name, new_id);
    GrammarModel {
        terminals: g.terminals,
        non_terminals: nts,
        map: map,
        rules: g.rules.update(idx as int, push_each(beta, new_id)).push(
            seq![seq![map["Null"@]]] + push_each(alpha, new_id),
        ),
        nullables: g.nullables.insert(new_id),
    }
}

/// The productions of `prods` that do not begin with `idx`, in order.
pub open spec fn not_left_recursive(prods: Seq<Seq<i32>>, idx: i32) -> Seq<Seq<i32>> {
    prods.filter(|p: Seq<i32>| p[0] != idx)
}

/// The productions of `prods` that begin with `idx`, in order.
pub open spec fn left_recursive(prods: Seq<Seq<i32>>, idx: i32) -> Seq<Seq<i32>> {
    prods.filter(|p: Seq<i32>| p[0] == idx)
}

/// [`lr_split`] keeps, in order, the productions that begin with `idx`
/// without their first symbol, and those that do not.
pub proof fn lemma_lr_split_filters(prods: Seq<Seq<i32>>, idx: i32)
    ensures
        lr_split(prods, idx).1 == not_left_recursive(prods, idx),
        lr_split(prods, idx).0 == left_recursive(prods, idx).map_values(|p: Seq<i32>| p.drop_first()),
    decreases prods.len(),
{
    reveal(Seq::filter);
    if prods.len() > 0 {
        lemma_lr_split_filters(prods.drop_last(), idx);
        let a0 = left_recursive(prods.drop_last(), idx);
        let p = prods.last();
        if p[0] == idx {
            assert(left_recursive(prods, idx) == a0.push(p));
            assert(a0.push(p).map_values(|q: Seq<i32>| q.drop_first()) =~= a0.map_values(
                |q: Seq<i32>| q.drop_first(),
            ).push(p.drop_first()));
        } else {
            assert(left_recursive(prods, idx) == a0);
        }
    }
}

/// Removing immediate left recursion from rule `A` (number `idx`) leaves
/// every other rule as it was and adds one rule, that of the new symbol
/// `A'`: rule `A` becomes its productions that do not begin with `A`, in
/// order, each followed by `A'`; the rule of `A'` is `Null`, then the
/// productions that begin with `A`, in order, each without that `A` and
/// followed by `A'`.
pub proof fn lemma_remove_lr_rules(g: GrammarModel, idx: i32)
    requires
        0 <= idx < g.rules.len(),
    ensures
        ({
            let g2 = remove_lr(g, idx);
            let a2 = g2.map[primed(g.non_terminals[idx as int].0)];
            &&& g2.rules.len() == g.rules.len() + 1
            &&& forall|i: int| 0 <= i < g.rules.len() && i != idx ==> #[trigger] g2.rules[i] == g.rules[i]
            &&& g2.rules[idx as int] == not_left_recursive(g.rules[idx as int], idx).map_values(
                |p: Seq<i32>| p.push(a2),
            )
            &&& g2.rules[g.rules.len() as int] == seq![seq![g2.map["Null"@]]] + left_recursive(
                g.rules[idx as int],
                idx,
            ).map_values(|p: Seq<i32>| p.drop_first().push(a2))
        }),
{
    let g2 = remove_lr(g, idx);
    let a2 = g2.map[primed(g.non_terminals[idx as int].0)];
    let prods = g.rules[idx as int];
    lemma_lr_split_filters(prods, idx);
    let (alpha, beta) = lr_split(prods, idx);
    assert(g2.rules[idx as int] == push_each(beta, a2));
    assert(push_each(beta, a2) =~= not_left_recursive(prods, idx).map_values(|p: Seq<i32>| p.push(a2)));
    assert(push_each(alpha, a2) =~= left_recursive(prods, idx).map_values(
        |p: Seq<i32>| p.drop_first().push(a2),
    ));
}

/// Whether every production of every rule has at least one symbol.
pub open spec fn productions_nonempty(rules: Seq<Seq<Seq<i32>>>) -> bool {
    forall|i: int, j: int|
        0 <= i < rules.len() && 0 <= j < rules[i].len() ==> #[trigger] rules[i][j].len() > 0
}

/// A copy of the production `p` from position `from` on.
fn copy_from(p: &Vec<i32>, from: usize) -> (r: Vec<i32>)
    requires
        from <= p@.len(),
    ensures
        r@ == p@.subrange(from as int, p@.len() as int),
{
    let mut r: Vec<i32> = Vec::new();
    let mut i = from;
    while i < p.len()
        invariant
            from <= i <= p@.len(),
            r@ == p@.subrange(from as int, i as int),
        decreases p@.len() - i,
    {
        r.push(p[i]);
        i = i + 1;
    }
    r
}

/// Removes immediate left recursion from the rule `index`, as
/// [`remove_lr`] says.
pub fn remove_left_recursion(
    rules: &mut Vec<Vec<Vec<i32>>>,
    index: i32,
    non_terminals: &mut Vec<Symbol>,
    map: &mut SymbolTable,
    nullables: &mut HashSet<i32>,
    terminals: &mut Vec<Symbol>,
)
    requires
        0 <= index < old(rules)@.len(),
        index < old(non_terminals)@.len(),
        old(non_terminals)@.len() + old(terminals)@.len() < i32::MAX,
        old(map)@.contains_key("Null"@),
        forall|j: int|
            0 <= j < old(rules)@[index as int]@.len() ==> (#[trigger] old(
                rules,
            )@[index as int]@[j])@.len() > 0,
    ensures
        ({
            let g = remove_lr(
                GrammarModel {
                    terminals: symbol_views(old(terminals)@),
                    non_terminals: symbol_views(old(non_terminals)@),
                    map: old(map)@,
                    rules: rules_view(old(rules)@),
                    nullables: old(nullables)@,
                },
                index,
            );
            &&& symbol_views(final(terminals)@) == g.terminals
            &&& symbol_views(final(non_terminals)@) == g.non_terminals
            &&& final(map)@ == g.map
            &&& rules_view(final(rules)@) == g.rules
            &&& final(nullables)@ == g.nullables
        }),
{
    let ghost r0 = rules_view(rules@);
    let idx = index as usize;
    let mut alpha: Vec<Vec<i32>> = Vec::new();
    let mut beta: Vec<Vec<i32>> = Vec::new();
    let mut j: usize = 0;
    let n = rules[idx].len();
    while j < n
        invariant
            j <= n,
            n == rules@[idx as int]@.len(),
            idx == index,
            idx < rules@.len(),
            r0 == rules_view(rules@),
            forall|x: int| 0 <= x < n ==> (#[trigger] rules@[idx as int]@[x])@.len() > 0,
            (alpha@.map_values(|p: Vec<i32>| p@), beta@.map_values(|p: Vec<i32>| p@)) == lr_split(
                r0[idx as int].take(j as int),
                index,
            ),
        decreases n - j,
    {
        let ghost pa = alpha@.map_values(|p: Vec<i32>| p@);
        let ghost pb = beta@.map_values(|p: Vec<i32>| p@);
        assert(r0[idx as int].take(j + 1).drop_last() =~= r0[idx as int].take(j as int));
        assert(r0[idx as int].take(j + 1).last() == rules@[idx as int]@[j as int]@);
        if rules[idx][j][0] == index {
            let t = copy_from(&rules[idx][j], 1);
            alpha.push(t);
            assert(alpha@.map_values(|p: Vec<i32>| p@) =~= pa.push(
                rules@[idx as int]@[j as int]@.drop_first(),
            ));
        } else {
            let t = copy_from(&rules[idx][j], 0);
            beta.push(t);
            assert(rules@[idx as int]@[j as int]@.subrange(0, rules@[idx as int]@[j as int]@.len() as int)
                =~= rules@[idx as int]@[j as int]@);
            assert(beta@.map_values(|p: Vec<i32>| p@) =~= pb.push(rules@[idx as int]@[j as int]@));
        }
        j = j + 1;
    }
    assert(r0[idx as int].take(n as int) =~= r0[idx as int]);
    let name = non_terminals[idx].name.clone().concat("`");
    non_terminals.push(Symbol { name: name.clone(), tyype: SymbolType::NonTerminal });
    let new_id = (non_terminals.len() + terminals.len() - 1) as i32;
    map.insert(name.clone(), new_id);
    nullables.insert(new_id);
    let ghost pb = beta@.map_values(|p: Vec<i32>| p@);
    let ghost pa = alpha@.map_values(|p: Vec<i32>| p@);
    let mut new_beta: Vec<Vec<i32>> = Vec::new();
    let mut k: usize = 0;
    while k < beta.len()
        invariant
            k <= beta@.len(),
            pb == beta@.map_values(|p: Vec<i32>| p@),
            new_beta@.map_values(|p: Vec<i32>| p@) == push_each(pb, new_id).take(k as int),
        decreases beta@.len() - k,
    {
        let mut p = copy_from(&beta[k], 0);
        assert(beta@[k as int]@.subrange(0, beta@[k as int]@.len() as int) =~= beta@[k as int]@);
        p.push(new_id);
        assert(pb[k as int] == beta@[k as int]@);
        assert(p@ == push_each(pb, new_id)[k as int]);
        let ghost nb0 = new_beta@.map_values(|p: Vec<i32>| p@);
        new_beta.push(p);
        assert(new_beta@.map_values(|p: Vec<i32>| p@) =~= nb0.push(p@));
        k = k + 1;
        assert(new_beta@.map_values(|p: Vec<i32>| p@) =~= push_each(pb, new_id).take(k as int));
    }
    assert(push_each(pb, new_id).take(beta@.len() as int) =~= push_each(pb, new_id));
    rules.set(idx, new_beta);
    let null_name = "Null".to_string();
    let null_id = match map.get(&null_name) {
        Some(v) => v,
        None => 0,
    };
    let mut new_rule: Vec<Vec<i32>> = Vec::new();
    let mut first: Vec<i32> = Vec::new();
    first.push(null_id);
    new_rule.push(first);
    let mut k: usize = 0;
    while k < alpha.len()
        invariant
            k <= alpha@.len(),
            pa == alpha@.map_values(|p: Vec<i32>| p@),
            new_rule@.map_values(|p: Vec<i32>| p@) == seq![seq![null_id]] + push_each(
                pa,
                new_id,
            ).take(k as int),
        decreases alpha@.len() - k,
    {
        let mut p = copy_from(&alpha[k], 0);
        assert(alpha@[k as int]@.subrange(0, alpha@[k as int]@.len() as int) =~= alpha@[k as int]@);
        p.push(new_id);
        assert(pa[k as int] == alpha@[k as int]@);
        assert(p@ == push_each(pa, new_id)[k as int]);
        let ghost nr0 = new_rule@.map_values(|p: Vec<i32>| p@);
        new_rule.push(p);
        assert(new_rule@.map_values(|p: Vec<i32>| p@) =~= nr0.push(p@));
        k = k + 1;
        assert(new_rule@.map_values(|p: Vec<i32>| p@) =~= seq![seq![null_id]] + push_each(
            pa,
            new_id,
        ).take(k as int));
    }
    assert(push_each(pa, new_id).take(alpha@.len() as int) =~= push_each(pa, new_id));
    rules.push(new_rule);
    assert(symbol_views(non_terminals@) =~= symbol_views(old(non_terminals)@).push(
        (name@, SymbolType::NonTerminal),
    ));
    assert(rules_view(rules@) =~= r0.update(idx as int, push_each(pb, new_id)).push(
        seq![seq![null_id]] + push_each(pa, new_id),
    ));
}

} // verus!

verus! {

/// Whether the symbol `j` may derive the empty string, given the terminals
/// `terms`, the `Null` terminal and the non-terminals `nulls` known to.
pub open spec fn symbol_may_vanish(j: i32, terms: Set<i32>, null: i32, nulls: Set<i32>) -> bool {
    if terms.contains(j) {
        j == null
    } else {
        nulls.contains(j)
    }
}

/// Whether every symbol of the production `p` may vanish.
pub open spec fn production_may_vanish(p: Seq<i32>, terms: Set<i32>, null: i32, nulls: Set<i32>) -> bool {
    forall|k: int| 0 <= k < p.len() ==> symbol_may_vanish(#[trigger] p[k], terms, null, nulls)
}

/// Whether some production of `prods` may vanish.
pub open spec fn rule_may_vanish(prods: Seq<Seq<i32>>, terms: Set<i32>, null: i32, nulls: Set<i32>) -> bool {
    exists|j: int| 0 <= j < prods.len() && production_may_vanish(#[trigger] prods[j], terms, null, nulls)
}

/// One pass over the rules from `i` on, in order: each rule some production
/// of which may vanish, given what the pass found so far, joins `nulls`.
pub open spec fn nullable_pass(
    rules: Seq<Seq<Seq<i32>>>,
    terms: Set<i32>,
    null: i32,
    nulls: Set<i32>,
    i: int,
) -> Set<i32>
    decreases rules.len() - i,
{
    if i >= rules.len() || i < 0 {
        nulls
    } else {
        let next = if rule_may_vanish(rules[i], terms, null, nulls) {
            nulls.insert(i as i32)
        } else {
            nulls
        };
        nullable_pass(rules, terms, null, next, i + 1)
    }
}

/// A rule that may vanish given some nullable symbols may vanish given more.
pub proof fn lemma_rule_may_vanish_grows(
    prods: Seq<Seq<i32>>,
    terms: Set<i32>,
    null: i32,
    a: Set<i32>,
    b: Set<i32>,
)
    requires
        a.subset_of(b),
        rule_may_vanish(prods, terms, null, a),
    ensures
        rule_may_vanish(prods, terms, null, b),
{
    let j = choose|j: int| 0 <= j < prods.len() && production_may_vanish(#[trigger] prods[j], terms, null, a);
    assert forall|k: int| 0 <= k < prods[j].len() implies symbol_may_vanish(
        #[trigger] prods[j][k],
        terms,
        null,
        b,
    ) by {
        assert(symbol_may_vanish(prods[j][k], terms, null, a));
    }
    assert(production_may_vanish(prods[j], terms, null, b));
}

/// The pass from rule `i` on keeps what `cur` holds, and what it adds
/// beyond `base` are rules that may vanish given what it ends with.
pub proof fn lemma_nullable_pass_from(
    rules: Seq<Seq<Seq<i32>>>,
    terms: Set<i32>,
    null: i32,
    base: Set<i32>,
    cur: Set<i32>,
    i: int,
)
    requires
        rules.len() <= i32::MAX,
        0 <= i,
        base.subset_of(cur),
        forall|x: i32|
            #[trigger] cur.contains(x) && !base.contains(x) ==> 0 <= x < i && x < rules.len()
                && rule_may_vanish(rules[x as int], terms, null, cur),
    ensures
        base.subset_of(nullable_pass(rules, terms, null, cur, i)),
        cur.subset_of(nullable_pass(rules, terms, null, cur, i)),
        forall|x: i32|
            #[trigger] nullable_pass(rules, terms, null, cur, i).contains(x) && !base.contains(x) ==> 0
                <= x < rules.len() && rule_may_vanish(
                rules[x as int],
                terms,
                null,
                nullable_pass(rules, terms, null, cur, i),
            ),
    decreases rules.len() - i,
{
    if i < rules.len() {
        let next = if rule_may_vanish(rules[i], terms, null, cur) {
            cur.insert(i as i32)
        } else {
            cur
        };
        assert forall|x: i32| #[trigger] next.contains(x) && !base.contains(x) implies 0 <= x < i + 1
            && x < rules.len() && rule_may_vanish(rules[x as int], terms, null, next) by {
            if cur.contains(x) {
                lemma_rule_may_vanish_grows(rules[x as int], terms, null, cur, next);
            } else {
                assert(x == i);
                lemma_rule_may_vanish_grows(rules[i], terms, null, cur, next);
            }
        }
        lemma_nullable_pass_from(rules, terms, null, base, next, i + 1);
        let r = nullable_pass(rules, terms, null, cur, i);
        assert(r == nullable_pass(rules, terms, null, next, i + 1));
        assert forall|x: i32| #[trigger] r.contains(x) && !base.contains(x) implies 0 <= x
            < rules.len() && rule_may_vanish(rules[x as int], terms, null, r) by {
        }
    }
}

/// The nullable pass only adds to the set of nullable symbols, and what it
/// adds are rules some production of which consists of `Null` and nullable
/// non-terminals only, counting those that the pass itself found.
pub proof fn lemma_nullable_pass_sound(
    rules: Seq<Seq<Seq<i32>>>,
    terms: Set<i32>,
    null: i32,
    nulls: Set<i32>,
)
    requires
        rules.len() <= i32::MAX,
    ensures
        nulls.subset_of(nullable_pass(rules, terms, null, nulls, 0)),
        forall|x: i32|
            #[trigger] nullable_pass(rules, terms, null, nulls, 0).contains(x) && !nulls.contains(x)
                ==> 0 <= x < rules.len() && rule_may_vanish(
                rules[x as int],
                terms,
                null,
                nullable_pass(rules, terms, null, nulls, 0),
            ),
{
    lemma_nullable_pass_from(rules, terms, null, nulls, nulls, 0);
}

/// A pass that starts from more nullable symbols ends with more: the set
/// that [`check_nullability`] leaves, which is [`nullable_pass`] from rule
/// 0, grows with the set it starts from, for the same rules, terminals and
/// `Null`.
pub proof fn lemma_nullable_pass_monotone(
    rules: Seq<Seq<Seq<i32>>>,
    terms: Set<i32>,
    null: i32,
    a: Set<i32>,
    b: Set<i32>,
    i: int,
)
    requires
        a.subset_of(b),
    ensures
        nullable_pass(rules, terms, null, a, i).subset_of(nullable_pass(rules, terms, null, b, i)),
    decreases rules.len() - i,
{
    if 0 <= i < rules.len() {
        let next_a = if rule_may_vanish(rules[i], terms, null, a) {
            a.insert(i as i32)
        } else {
            a
        };
        let next_b = if rule_may_vanish(rules[i], terms, null, b) {
            b.insert(i as i32)
        } else {
            b
        };
        if rule_may_vanish(rules[i], terms, null, a) {
            lemma_rule_may_vanish_grows(rules[i], terms, null, a, b);
        }
        assert(next_a.subset_of(next_b));
        lemma_nullable_pass_monotone(rules, terms, null, next_a, next_b, i + 1);
    }
}

/// Whether some production of some rule holds a terminal.
pub open spec fn terminal_in_rules(rules: Seq<Seq<Seq<i32>>>, terms: Set<i32>) -> bool {
    exists|i: int, j: int, k: int|
        0 <= i < rules.len() && 0 <= j < rules[i].len() && 0 <= k < rules[i][j].len()
            && terms.contains(#[trigger] rules[i][j][k])
}

/// Without terminals in the rules, the pass does not depend on which symbol
/// is `Null`.
pub proof fn lemma_nullable_pass_null_free(
    rules: Seq<Seq<Seq<i32>>>,
    terms: Set<i32>,
    n1: i32,
    n2: i32,
    nulls: Set<i32>,
    i: int,
)
    requires
        !terminal_in_rules(rules, terms),
    ensures
        nullable_pass(rules, terms, n1, nulls, i) == nullable_pass(rules, terms, n2, nulls, i),
    decreases rules.len() - i,
{
    if 0 <= i < rules.len() {
        assert(rule_may_vanish(rules[i], terms, n1, nulls) == rule_may_vanish(rules[i], terms, n2, nulls)) by {
            assert forall|j: int| 0 <= j < rules[i].len() implies production_may_vanish(
                #[trigger] rules[i][j],
                terms,
                n1,
                nulls,
            ) == production_may_vanish(rules[i][j], terms, n2, nulls) by {
                assert forall|k: int| 0 <= k < rules[i][j].len() implies symbol_may_vanish(
                    #[trigger] rules[i][j][k],
                    terms,
                    n1,
                    nulls,
                ) == symbol_may_vanish(rules[i][j][k], terms, n2, nulls) by {
                    assert(!terms.contains(rules[i][j][k]));
                }
            }
        }
        let next = if rule_may_vanish(rules[i], terms, n1, nulls) {
            nulls.insert(i as i32)
        } else {
            nulls
        };
        lemma_nullable_pass_null_free(rules, terms, n1, n2, next, i + 1);
    }
}

/// Adds to `nullables`, in one pass over the rules in order, each rule some
/// production of which consists of `Null` and nullable non-terminals only.
pub fn check_nullability(
    nullables: &mut HashSet<i32>,
    rules: &mut Vec<Vec<Vec<i32>>>,
    map: &SymbolTable,
    terminal_indices: &HashSet<i32>,
)
    requires
        old(rules)@.len() <= i32::MAX,
        map@.contains_key("Null"@) || !terminal_in_rules(rules_view(old(rules)@), terminal_indices@),
    ensures
        final(rules)@ == old(rules)@,
        final(nullables)@ == nullable_pass(
            rules_view(old(rules)@),
            terminal_indices@,
            map@["Null"@],
            old(nullables)@,
            0,
        ),
{
    broadcast use vstd::string::group_string_axioms;

    let null_name = "Null".to_string();
    let null = match map.get(&null_name) {
        Some(v) => v,
        None => 0,
    };
    let ghost rv = rules_view(rules@);
    let ghost terms = terminal_indices@;
    proof {
        if !map@.contains_key("Null"@) {
            lemma_nullable_pass_null_free(rv, terms, null, map@["Null"@], nullables@, 0);
        }
    }
    let ghost target = nullable_pass(rv, terms, null, nullables@, 0);
    let mut i: usize = 0;
    while i < rules.len()
        invariant
            i <= rules@.len(),
            rules@.len() <= i32::MAX,
            rules@ == old(rules)@,
            rv == rules_view(rules@),
            terms == terminal_indices@,
            nullable_pass(rv, terms, null, nullables@, i as int) == target,
        decreases rules@.len() - i,
    {
        let mut found = false;
        let mut v: usize = 0;
        let nv = rules[i].len();
        while v < nv && !found
            invariant
                v <= nv,
                i < rules@.len(),
                nv == rules@[i as int]@.len(),
                rv == rules_view(rules@),
                terms == terminal_indices@,
                found ==> rule_may_vanish(rv[i as int], terms, null, nullables@),
                !found ==> forall|x: int|
                    0 <= x < v ==> !production_may_vanish(
                        #[trigger] rv[i as int][x],
                        terms,
                        null,
                        nullables@,
                    ),
            decreases nv - v,
        {
            let mut ok = true;
            let mut j: usize = 0;
            let np = rules[i][v].len();
            assert(rv[i as int][v as int] == rules@[i as int]@[v as int]@);
            while j < np && ok
                invariant
                    j <= np,
                    i < rules@.len(),
                    v < rules@[i as int]@.len(),
                    np == rules@[i as int]@[v as int]@.len(),
                    rv == rules_view(rules@),
                    rv[i as int][v as int] == rules@[i as int]@[v as int]@,
                    terms == terminal_indices@,
                    ok ==> forall|y: int|
                        0 <= y < j ==> symbol_may_vanish(
                            #[trigger] rv[i as int][v as int][y],
                            terms,
                            null,
                            nullables@,
                        ),
                    !ok ==> !production_may_vanish(rv[i as int][v as int], terms, null, nullables@),
                decreases np - j,
            {
                let s = rules[i][v][j];
                if terminal_indices.contains(&s) && null != s {
                    ok = false;
                } else if !terminal_indices.contains(&s) && !nullables.contains(&s) {
                    ok = false;
                }
                j = j + 1;
            }
            if ok {
                found = true;
            }
            v = v + 1;
        }
        if found {
            nullables.insert(i as i32);
        }
        i = i + 1;
    }
}

/// Symbols as the lines of a symbol file give them, all of kind `t`.
pub open spec fn loaded_symbols(lines: Seq<Seq<char>>, t: SymbolType) -> Seq<(Seq<char>, SymbolType)> {
    lines.map_values(|l: Seq<char>| (symbol_name(l), t))
}

/// `m` with the names of `syms` mapped to `base`, `base + 1`, ... in order.
pub open spec fn number_names(m: Map<Seq<char>, i32>, syms: Seq<(Seq<char>, SymbolType)>, base: int) -> Map<
    Seq<char>,
    i32,
>
    decreases syms.len(),
{
    if syms.len() == 0 {
        m
    } else {
        number_names(m, syms.drop_last(), base).insert(
            syms.last().0,
            (base + syms.len() - 1) as i32,
        )
    }
}

/// The rules among the first `i` that are immediately left-recursive: some
/// production of rule `k` begins with `k`.
pub open spec fn lr_candidates(rules: Seq<Seq<Seq<i32>>>, i: int) -> Seq<i32>
    decreases i,
{
    if i <= 0 {
        seq![]
    } else {
        let prev = lr_candidates(rules, i - 1);
        if exists|j: int|
            0 <= j < rules[i - 1].len() && (#[trigger] rules[i - 1][j])[0] == i - 1 {
            prev.push((i - 1) as i32)
        } else {
            prev
        }
    }
}

/// The grammar after left recursion is removed from the rules `idxs`, in
/// order.
pub open spec fn remove_all_lr(g: GrammarModel, idxs: Seq<i32>) -> GrammarModel
    decreases idxs.len(),
{
    if idxs.len() == 0 {
        g
    } else {
        remove_all_lr(remove_lr(g, idxs[0]), idxs.drop_first())
    }
}

/// The terminals: those of the file, then `Eof` and `Null`.
pub open spec fn model_terminals(tl: Seq<Seq<char>>) -> Seq<(Seq<char>, SymbolType)> {
    loaded_symbols(tl, SymbolType::Terminal) + seq![
        ("Eof"@, SymbolType::Terminal),
        ("Null"@, SymbolType::Terminal),
    ]
}

/// The non-terminals of the file, the first one being the start symbol.
pub open spec fn model_non_terminals(nl: Seq<Seq<char>>) -> Seq<(Seq<char>, SymbolType)> {
    let nts = loaded_symbols(nl, SymbolType::NonTerminal);
    nts.update(0, (nts[0].0, SymbolType::StartSymbol))
}

/// The symbol table: the non-terminals numbered from 0, then the terminals.
pub open spec fn model_map(tl: Seq<Seq<char>>, nl: Seq<Seq<char>>) -> Map<Seq<char>, i32> {
    number_names(
        number_names(Map::empty(), model_non_terminals(nl), 0),
        model_terminals(tl),
        nl.len() as int,
    )
}

/// The numbers of the terminals.
pub open spec fn model_terminal_indices(tl: Seq<Seq<char>>, nl: Seq<Seq<char>>) -> Set<i32> {
    Set::new(|x: i32| nl.len() <= x < nl.len() + tl.len() + 2)
}

/// The grammar that the three files give: the symbols, the symbol table,
/// the rules without immediate left recursion, and the nullable symbols.
pub open spec fn construct_model(tl: Seq<Seq<char>>, nl: Seq<Seq<char>>, rl: Seq<Seq<char>>) -> GrammarModel {
    let terms = model_terminals(tl);
    let nts = model_non_terminals(nl);
    let n = nl.len();
    let map = model_map(tl, nl);
    let rules0 = load_stmts(Seq::new(n, |i: int| Seq::<Seq<i32>>::empty()), map, statements(rl));
    let idxs = lr_candidates(rules0, n as int);
    let rules1 = if idxs.len() > 0 {
        rules0 + Seq::new(terms.len(), |i: int| Seq::<Seq<i32>>::empty())
    } else {
        rules0
    };
    let g = remove_all_lr(
        GrammarModel {
            terminals: terms,
            non_terminals: nts,
            map: map,
            rules: rules1,
            nullables: Set::empty(),
        },
        idxs,
    );
    GrammarModel {
        nullables: nullable_pass(
            g.rules,
            model_terminal_indices(tl, nl),
            g.map["Null"@],
            g.nullables,
            0,
        ),
        ..g
    }
}

/// What `construct` needs of its files: symbol lines that can be cut, at
/// least one non-terminal, rules that load, and few enough symbols to
/// number them with `i32`.
pub open spec fn construct_ok(tl: Seq<Seq<char>>, nl: Seq<Seq<char>>, rl: Seq<Seq<char>>) -> bool {
    &&& symbol_lines_ok(tl)
    &&& symbol_lines_ok(nl)
    &&& nl.len() >= 1
    &&& 2 * nl.len() + tl.len() + 4 < i32::MAX
    &&& rules_loadable(rl, model_map(tl, nl), nl.len() as int)
}

} // verus!

verus! {

pub proof fn lemma_load_stmts_nonempty(
    rules: Seq<Seq<Seq<i32>>>,
    m: Map<Seq<char>, i32>,
    stmts: Seq<Seq<char>>,
)
    requires
        productions_nonempty(rules),
        forall|k: int|
            0 <= k < stmts.len() ==> crate::grammar::stmt_loadable(
                #[trigger] stmts[k],
                m,
                rules.len() as int,
            ),
    ensures
        productions_nonempty(load_stmts(rules, m, stmts)),
        load_stmts(rules, m, stmts).len() == rules.len(),
    decreases stmts.len(),
{
    if stmts.len() > 0 {
        let q = crate::text::trim(stmts[0]);
        let prods = crate::grammar::stmt_productions(q, m);
        assert forall|a: int| 0 <= a < prods.len() implies #[trigger] prods[a].len() > 0 by {
            let alts = crate::grammar::stmt_alts(q);
            let piece = crate::text::split(crate::grammar::stmt_rest(q), '|')[a];
            crate::text::lemma_split_from_nonempty(crate::text::trim(piece), ' ', 0, 0);
        }
        assert(crate::grammar::stmt_loadable(stmts[0], m, rules.len() as int));
        let r2 = crate::grammar::apply_stmt(rules, m, stmts[0]);
        assert(productions_nonempty(r2)) by {
            let ix = m[crate::grammar::stmt_lhs(q)] as int;
            assert forall|i: int, j: int| 0 <= i < r2.len() && 0 <= j < r2[i].len() implies #[trigger] r2[i][j].len() > 0 by {
                if i == ix && j >= rules[ix].len() {
                    assert(r2[i][j] == prods[j - rules[ix].len()]);
                }
            }
        }
        assert forall|k: int|
            0 <= k < stmts.drop_first().len() implies crate::grammar::stmt_loadable(
                #[trigger] stmts.drop_first()[k],
                m,
                r2.len() as int,
            ) by {
            assert(stmts.drop_first()[k] == stmts[k + 1]);
        }
        lemma_load_stmts_nonempty(r2, m, stmts.drop_first());
    }
}

pub proof fn lemma_lr_split_nonempty(prods: Seq<Seq<i32>>, idx: i32)
    requires
        forall|j: int| 0 <= j < prods.len() ==> #[trigger] prods[j].len() > 0,
    ensures
        forall|j: int| 0 <= j < lr_split(prods, idx).1.len() ==> #[trigger] lr_split(prods, idx).1[j].len() > 0,
        lr_split(prods, idx).0.len() + lr_split(prods, idx).1.len() == prods.len(),
    decreases prods.len(),
{
    if prods.len() > 0 {
        lemma_lr_split_nonempty(prods.drop_last(), idx);
    }
}

pub proof fn lemma_remove_lr_nonempty(g: GrammarModel, idx: i32)
    requires
        productions_nonempty(g.rules),
        0 <= idx < g.rules.len(),
    ensures
        productions_nonempty(remove_lr(g, idx).rules),
        remove_lr(g, idx).rules.len() == g.rules.len() + 1,
{
    lemma_lr_split_nonempty(g.rules[idx as int], idx);
    let r = remove_lr(g, idx).rules;
    assert forall|i: int, j: int| 0 <= i < r.len() && 0 <= j < r[i].len() implies #[trigger] r[i][j].len() > 0 by {
        if i == idx {
        } else if i == g.rules.len() {
        } else {
            assert(r[i] == g.rules[i]);
        }
    }
}

/// Maps the names of `syms` to `base`, `base + 1`, ... in order.
fn number_symbols(map: &mut SymbolTable, syms: &Vec<Symbol>, base: usize)
    requires
        base + syms@.len() <= i32::MAX,
    ensures
        final(map)@ == number_names(old(map)@, symbol_views(syms@), base as int),
{
    let ghost m0 = map@;
    let mut i: usize = 0;
    while i < syms.len()
        invariant
            i <= syms@.len(),
            base + syms@.len() <= i32::MAX,
            map@ == number_names(m0, symbol_views(syms@).take(i as int), base as int),
        decreases syms@.len() - i,
    {
        assert(symbol_views(syms@).take(i + 1).drop_last() =~= symbol_views(syms@).take(i as int));
        map.insert(syms[i].name.clone(), (base + i) as i32);
        i = i + 1;
    }
    assert(symbol_views(syms@).take(syms@.len() as int) =~= symbol_views(syms@));
}

/// The symbols of the two symbol files and the symbol table that numbers
/// them.
fn symbols_and_map(tl: &Vec<String>, nl: &Vec<String>) -> (r: (Vec<Symbol>, Vec<Symbol>, SymbolTable))
    requires
        symbol_lines_ok(line_texts(tl@)),
        symbol_lines_ok(line_texts(nl@)),
        nl@.len() >= 1,
        2 * nl@.len() + tl@.len() + 4 < i32::MAX,
    ensures
        symbol_views(r.0@) == model_terminals(line_texts(tl@)),
        symbol_views(r.1@) == model_non_terminals(line_texts(nl@)),
        r.2@ == model_map(line_texts(tl@), line_texts(nl@)),
{
    broadcast use vstd::string::group_string_axioms;

    let mut terminals: Vec<Symbol> = Vec::new();
    let mut non_terminals: Vec<Symbol> = Vec::new();
    load_symbols(tl, &mut terminals, SymbolType::Terminal);
    load_symbols(nl, &mut non_terminals, SymbolType::NonTerminal);
    assert forall|k: int| 0 <= k < tl@.len() implies #[trigger] terminals@[k]@ == (
        symbol_name(tl@[k]@),
        SymbolType::Terminal,
    ) by {
        assert(terminals@[0 + k] == terminals@[k]);
    }
    assert forall|k: int| 0 <= k < nl@.len() implies #[trigger] non_terminals@[k]@ == (
        symbol_name(nl@[k]@),
        SymbolType::NonTerminal,
    ) by {
        assert(non_terminals@[0 + k] == non_terminals@[k]);
    }
    assert(symbol_views(non_terminals@) =~= loaded_symbols(line_texts(nl@), SymbolType::NonTerminal));
    non_terminals[0].tyype = SymbolType::StartSymbol;
    assert(symbol_views(non_terminals@) =~= model_non_terminals(line_texts(nl@)));
    terminals.push(Symbol { name: "Eof".to_string(), tyype: SymbolType::Terminal });
    terminals.push(Symbol { name: "Null".to_string(), tyype: SymbolType::Terminal });
    assert(symbol_views(terminals@) =~= model_terminals(line_texts(tl@)));
    let mut map = SymbolTable::new();
    number_symbols(&mut map, &non_terminals, 0);
    number_symbols(&mut map, &terminals, non_terminals.len());
    (terminals, non_terminals, map)
}

} // verus!

verus! {

pub proof fn lemma_lr_candidates(rules: Seq<Seq<Seq<i32>>>, i: int)
    requires
        0 <= i <= i32::MAX,
    ensures
        lr_candidates(rules, i).len() <= i,
        forall|k: int|
            0 <= k < lr_candidates(rules, i).len() ==> 0 <= #[trigger] lr_candidates(rules, i)[k]
                < i,
    decreases i,
{
    if i > 0 {
        lemma_lr_candidates(rules, i - 1);
    }
}

/// Whether no production of rule `i` begins with `i`.
pub open spec fn lr_free(rules: Seq<Seq<Seq<i32>>>, i: int) -> bool {
    forall|j: int| 0 <= j < rules[i].len() ==> (#[trigger] rules[i][j])[0] != i
}

/// Whether `x` is one of `idxs`.
pub open spec fn in_idxs(idxs: Seq<i32>, x: int) -> bool {
    exists|k: int| 0 <= k < idxs.len() && idxs[k] == x
}

/// No production that the split keeps aside from left recursion begins
/// with `idx`.
pub proof fn lemma_lr_split_beta(prods: Seq<Seq<i32>>, idx: i32)
    ensures
        forall|j: int|
            0 <= j < lr_split(prods, idx).1.len() ==> (#[trigger] lr_split(prods, idx).1[j])[0] != idx,
    decreases prods.len(),
{
    if prods.len() > 0 {
        lemma_lr_split_beta(prods.drop_last(), idx);
        let (a, b) = lr_split(prods.drop_last(), idx);
        let p = prods.last();
        let b2 = lr_split(prods, idx).1;
        if p[0] != idx {
            assert(b2 == b.push(p));
            assert forall|j: int| 0 <= j < b2.len() implies (#[trigger] b2[j])[0] != idx by {
                if j < b.len() {
                    assert(b2[j] == b[j]);
                }
            }
        } else {
            assert(b2 == b);
        }
    }
}

/// Removing left recursion from rule `idx` leaves no production of that
/// rule that begins with `idx` and no other rule changed; the rule it adds
/// is for a new nullable non-terminal, its first production is `Null` and
/// each of its others ends with the new non-terminal.
pub proof fn lemma_remove_lr_removes(g: GrammarModel, idx: i32)
    requires
        0 <= idx < g.rules.len(),
        idx < g.non_terminals.len(),
        g.non_terminals.len() + g.terminals.len() < i32::MAX,
    ensures
        ({
            let g2 = remove_lr(g, idx);
            let new_id = (g.non_terminals.len() + g.terminals.len()) as i32;
            &&& lr_free(g2.rules, idx as int)
            &&& g2.rules.len() == g.rules.len() + 1
            &&& forall|i: int| 0 <= i < g.rules.len() && i != idx ==> g2.rules[i] == g.rules[i]
            &&& g2.nullables.contains(new_id)
            &&& g2.rules.last()[0] == seq![g2.map["Null"@]]
            &&& forall|j: int| 1 <= j < g2.rules.last().len() ==> (#[trigger] g2.rules.last()[j]).last() == new_id
        }),
{
    let g2 = remove_lr(g, idx);
    let (alpha, beta) = lr_split(g.rules[idx as int], idx);
    let new_id = (g.non_terminals.len() + g.terminals.len()) as i32;
    lemma_lr_split_beta(g.rules[idx as int], idx);
    assert forall|j: int| 0 <= j < g2.rules[idx as int].len() implies (#[trigger] g2.rules[idx as int][j])[0]
        != idx by {
        assert(g2.rules[idx as int][j] == beta[j].push(new_id));
        if beta[j].len() > 0 {
            assert(beta[j].push(new_id)[0] == beta[j][0]);
        }
    }
    let last = seq![seq![g2.map["Null"@]]] + push_each(alpha, new_id);
    assert(g2.rules.last() == last);
    assert forall|j: int| 1 <= j < last.len() implies (#[trigger] last[j]).last() == new_id by {
        assert(last[j] == alpha[j - 1].push(new_id));
    }
}

/// Removing left recursion from the distinct rules `idxs` in turn leaves
/// none of them with a production that begins with it, and leaves the other
/// rules as they were.
pub proof fn lemma_remove_all_lr(g: GrammarModel, idxs: Seq<i32>)
    requires
        forall|k: int|
            0 <= k < idxs.len() ==> 0 <= #[trigger] idxs[k] < g.non_terminals.len() && idxs[k]
                < g.rules.len(),
        forall|a: int, b: int| 0 <= a < b < idxs.len() ==> #[trigger] idxs[a] != #[trigger] idxs[b],
        g.non_terminals.len() + g.terminals.len() + idxs.len() < i32::MAX,
    ensures
        remove_all_lr(g, idxs).rules.len() == g.rules.len() + idxs.len(),
        forall|i: int|
            0 <= i < g.rules.len() ==> (in_idxs(idxs, i) ==> lr_free(remove_all_lr(g, idxs).rules, i))
                && (!in_idxs(idxs, i) ==> remove_all_lr(g, idxs).rules[i] == g.rules[i]),
    decreases idxs.len(),
{
    if idxs.len() > 0 {
        let idx = idxs[0];
        let g1 = remove_lr(g, idx);
        let rest = idxs.drop_first();
        lemma_remove_lr_removes(g, idx);
        assert forall|k: int| 0 <= k < rest.len() implies 0 <= #[trigger] rest[k]
            < g1.non_terminals.len() && rest[k] < g1.rules.len() by {
            assert(rest[k] == idxs[k + 1]);
        }
        assert forall|a: int, b: int| 0 <= a < b < rest.len() implies #[trigger] rest[a]
            != #[trigger] rest[b] by {
            assert(rest[a] == idxs[a + 1] && rest[b] == idxs[b + 1]);
        }
        lemma_remove_all_lr(g1, rest);
        let r = remove_all_lr(g, idxs);
        assert(r == remove_all_lr(g1, rest));
        assert forall|i: int| 0 <= i < g.rules.len() implies (in_idxs(idxs, i) ==> lr_free(r.rules, i))
            && (!in_idxs(idxs, i) ==> r.rules[i] == g.rules[i]) by {
            if i == idx {
                assert(!in_idxs(rest, i)) by {
                    if in_idxs(rest, i) {
                        let k = choose|k: int| 0 <= k < rest.len() && rest[k] == i;
                        assert(idxs[k + 1] == idxs[0]);
                    }
                }
                assert(in_idxs(idxs, i)) by {
                    assert(idxs[0] == i);
                }
            } else if in_idxs(rest, i) {
                let k = choose|k: int| 0 <= k < rest.len() && rest[k] == i;
                assert(idxs[k + 1] == i);
            } else {
                assert(!in_idxs(idxs, i)) by {
                    if in_idxs(idxs, i) {
                        let k = choose|k: int| 0 <= k < idxs.len() && idxs[k] == i;
                        assert(k != 0);
                        assert(rest[k - 1] == i);
                    }
                }
            }
        }
    }
}

/// The non-terminals that removing left recursion adds are numbered at or
/// after `n` and have a production each.
pub proof fn lemma_remove_all_lr_nullables(g: GrammarModel, idxs: Seq<i32>, n: int)
    requires
        g.rules.len() == g.non_terminals.len() + g.terminals.len(),
        n <= g.non_terminals.len(),
        forall|k: int| 0 <= k < idxs.len() ==> 0 <= #[trigger] idxs[k] < n,
        g.non_terminals.len() + g.terminals.len() + idxs.len() < i32::MAX,
        forall|x: i32| #[trigger] g.nullables.contains(x) ==> n <= x < g.rules.len() && g.rules[x as int].len() > 0,
    ensures
        forall|x: i32|
            #[trigger] remove_all_lr(g, idxs).nullables.contains(x) ==> n <= x < remove_all_lr(
                g,
                idxs,
            ).rules.len() && remove_all_lr(g, idxs).rules[x as int].len() > 0,
    decreases idxs.len(),
{
    if idxs.len() > 0 {
        let idx = idxs[0];
        let g1 = remove_lr(g, idx);
        let new_id = (g.non_terminals.len() + g.terminals.len()) as i32;
        assert(g1.rules.len() == g.rules.len() + 1);
        assert(g1.rules[new_id as int] == g1.rules.last());
        assert forall|x: i32| #[trigger] g1.nullables.contains(x) implies n <= x < g1.rules.len()
            && g1.rules[x as int].len() > 0 by {
            if x != new_id {
                assert(g1.rules[x as int] == g.rules[x as int]);
            }
        }
        let rest = idxs.drop_first();
        assert forall|k: int| 0 <= k < rest.len() implies 0 <= #[trigger] rest[k] < n by {
            assert(rest[k] == idxs[k + 1]);
        }
        lemma_remove_all_lr_nullables(g1, rest, n);
        assert(remove_all_lr(g, idxs) == remove_all_lr(g1, rest));
    }
}

/// Every nullable symbol of the built grammar is a rule with a production.
pub proof fn lemma_construct_nullables_have_productions(
    tl: Seq<Seq<char>>,
    nl: Seq<Seq<char>>,
    rl: Seq<Seq<char>>,
)
    requires
        construct_ok(tl, nl, rl),
    ensures
        construct_model(tl, nl, rl).rules.len() <= i32::MAX,
        forall|x: i32|
            #[trigger] construct_model(tl, nl, rl).nullables.contains(x) ==> 0 <= x < construct_model(
                tl,
                nl,
                rl,
            ).rules.len() && construct_model(tl, nl, rl).rules[x as int].len() > 0,
{
    let terms = model_terminals(tl);
    let nts = model_non_terminals(nl);
    let n = nl.len();
    let map = model_map(tl, nl);
    let rules0 = load_stmts(Seq::new(n, |i: int| Seq::<Seq<i32>>::empty()), map, statements(rl));
    lemma_load_stmts_nonempty(Seq::new(n, |i: int| Seq::<Seq<i32>>::empty()), map, statements(rl));
    let idxs = lr_candidates(rules0, n as int);
    lemma_lr_candidates(rules0, n as int);
    lemma_lr_candidates_exact(rules0, n as int);
    let rules1 = if idxs.len() > 0 {
        rules0 + Seq::new(terms.len(), |i: int| Seq::<Seq<i32>>::empty())
    } else {
        rules0
    };
    let g0 = GrammarModel {
        terminals: terms,
        non_terminals: nts,
        map: map,
        rules: rules1,
        nullables: Set::empty(),
    };
    assert(nts.len() == n);
    assert(terms.len() == tl.len() + 2);
    let g = remove_all_lr(g0, idxs);
    if idxs.len() > 0 {
        lemma_remove_all_lr_nullables(g0, idxs, n as int);
    } else {
        assert(g == g0);
    }
    let gm = construct_model(tl, nl, rl);
    assert(gm.rules == g.rules);
    if idxs.len() > 0 {
        lemma_remove_all_lr(g0, idxs);
    }
    assert(g.rules.len() <= i32::MAX);
    lemma_nullable_pass_sound(g.rules, model_terminal_indices(tl, nl), g.map["Null"@], g.nullables);
    assert forall|x: i32| #[trigger] gm.nullables.contains(x) implies 0 <= x < gm.rules.len()
        && gm.rules[x as int].len() > 0 by {
        if !g.nullables.contains(x) {
            assert(rule_may_vanish(g.rules[x as int], model_terminal_indices(tl, nl), g.map["Null"@], gm.nullables));
        }
    }
}

/// The left-recursive rules among the first `i` come in increasing order,
/// and are exactly those with a production that begins with the rule.
pub proof fn lemma_lr_candidates_exact(rules: Seq<Seq<Seq<i32>>>, i: int)
    requires
        0 <= i <= i32::MAX,
    ensures
        forall|a: int, b: int|
            0 <= a < b < lr_candidates(rules, i).len() ==> #[trigger] lr_candidates(rules, i)[a]
                < #[trigger] lr_candidates(rules, i)[b],
        forall|a: int|
            0 <= a < lr_candidates(rules, i).len() ==> 0 <= #[trigger] lr_candidates(rules, i)[a] < i,
        forall|k: int|
            0 <= k < i ==> (in_idxs(lr_candidates(rules, i), k) <==> exists|j: int|
                0 <= j < rules[k].len() && (#[trigger] rules[k][j])[0] == k),
    decreases i,
{
    if i > 0 {
        lemma_lr_candidates_exact(rules, i - 1);
        let prev = lr_candidates(rules, i - 1);
        let cur = lr_candidates(rules, i);
        assert forall|k: int| 0 <= k < i implies (in_idxs(cur, k) <==> exists|j: int|
            0 <= j < rules[k].len() && (#[trigger] rules[k][j])[0] == k) by {
            if k < i - 1 {
                if in_idxs(cur, k) {
                    let a = choose|a: int| 0 <= a < cur.len() && cur[a] == k;
                    if a < prev.len() {
                        assert(prev[a] == k);
                    }
                }
                if in_idxs(prev, k) {
                    let a = choose|a: int| 0 <= a < prev.len() && prev[a] == k;
                    assert(cur[a] == k);
                }
            } else {
                if in_idxs(cur, k) {
                    let a = choose|a: int| 0 <= a < cur.len() && cur[a] == k;
                    if a < prev.len() {
                        assert(prev[a] < i - 1);
                    }
                }
                if exists|j: int| 0 <= j < rules[k].len() && (#[trigger] rules[k][j])[0] == k {
                    assert(cur.last() == k);
                    assert(cur[cur.len() - 1] == k);
                }
            }
        }
    }
}

/// The built grammar has no immediate left recursion left: no production
/// of a non-terminal of the file begins with that non-terminal.
pub proof fn lemma_construct_lr_free(tl: Seq<Seq<char>>, nl: Seq<Seq<char>>, rl: Seq<Seq<char>>)
    requires
        construct_ok(tl, nl, rl),
    ensures
        forall|i: int| 0 <= i < nl.len() ==> lr_free(construct_model(tl, nl, rl).rules, i),
{
    let terms = model_terminals(tl);
    let nts = model_non_terminals(nl);
    let n = nl.len();
    let map = model_map(tl, nl);
    let rules0 = load_stmts(Seq::new(n, |i: int| Seq::<Seq<i32>>::empty()), map, statements(rl));
    lemma_load_stmts_nonempty(Seq::new(n, |i: int| Seq::<Seq<i32>>::empty()), map, statements(rl));
    let idxs = lr_candidates(rules0, n as int);
    lemma_lr_candidates_exact(rules0, n as int);
    let rules1 = if idxs.len() > 0 {
        rules0 + Seq::new(terms.len(), |i: int| Seq::<Seq<i32>>::empty())
    } else {
        rules0
    };
    let g0 = GrammarModel {
        terminals: terms,
        non_terminals: nts,
        map: map,
        rules: rules1,
        nullables: Set::empty(),
    };
    assert(nts.len() == n);
    assert(terms.len() == tl.len() + 2);
    assert(idxs.len() <= n) by {
        lemma_lr_candidates(rules0, n as int);
    }
    lemma_remove_all_lr(g0, idxs);
    let g = remove_all_lr(g0, idxs);
    assert(construct_model(tl, nl, rl).rules == g.rules);
    assert forall|i: int| 0 <= i < nl.len() implies lr_free(construct_model(tl, nl, rl).rules, i) by {
        assert(rules1[i] == rules0[i]);
        if !in_idxs(idxs, i) {
            assert(g.rules[i] == rules0[i]);
            assert forall|j: int| 0 <= j < g.rules[i].len() implies (#[trigger] g.rules[i][j])[0] != i by {
                if g.rules[i][j][0] == i {
                    assert(rules0[i][j][0] == i);
                }
            }
        }
    }
}

/// The rules that are immediately left-recursive, in order.
fn left_recursive_rules(rules: &Vec<Vec<Vec<i32>>>) -> (r: Vec<i32>)
    requires
        rules@.len() <= i32::MAX,
        productions_nonempty(rules_view(rules@)),
    ensures
        r@ == lr_candidates(rules_view(rules@), rules@.len() as int),
{
    let ghost rv = rules_view(rules@);
    let mut r: Vec<i32> = Vec::new();
    let mut i: usize = 0;
    while i < rules.len()
        invariant
            i <= rules@.len() <= i32::MAX,
            rv == rules_view(rules@),
            productions_nonempty(rv),
            r@ == lr_candidates(rv, i as int),
        decreases rules@.len() - i,
    {
        let mut found = false;
        let mut j: usize = 0;
        while j < rules[i].len() && !found
            invariant
                i < rules@.len() <= i32::MAX,
                j <= rules@[i as int]@.len(),
                rv == rules_view(rules@),
                productions_nonempty(rv),
                found ==> exists|x: int|
                    0 <= x < rv[i as int].len() && (#[trigger] rv[i as int][x])[0] == i,
                !found ==> forall|x: int| 0 <= x < j ==> (#[trigger] rv[i as int][x])[0] != i,
            decreases rules@[i as int]@.len() - j + (if found { 0int } else { 1int }),
        {
            assert(rv[i as int][j as int] == rules@[i as int]@[j as int]@);
            assert(rv[i as int][j as int].len() > 0);
            if rules[i][j][0] == i as i32 {
                found = true;
            } else {
                j = j + 1;
            }
        }
        if found {
            r.push(i as i32);
        }
        i = i + 1;
    }
    r
}

/// The rest of the construction, once the symbols are numbered.
fn finish_construct(
    terminals: Vec<Symbol>,
    non_terminals: Vec<Symbol>,
    map: SymbolTable,
    rl: &Vec<String>,
    Ghost(tl): Ghost<Seq<Seq<char>>>,
    Ghost(nl): Ghost<Seq<Seq<char>>>,
) -> (r: (
    Vec<Symbol>,
    Vec<Symbol>,
    SymbolTable,
    Vec<Vec<Vec<i32>>>,
    HashSet<i32>,
    HashSet<i32>,
    usize,
))
    requires
        construct_ok(tl, nl, line_texts(rl@)),
        symbol_views(terminals@) == model_terminals(tl),
        symbol_views(non_terminals@) == model_non_terminals(nl),
        map@ == model_map(tl, nl),
    ensures
        ({
            let g = construct_model(tl, nl, line_texts(rl@));
            &&& symbol_views(r.0@) == g.terminals
            &&& symbol_views(r.1@) == g.non_terminals
            &&& r.2@ == g.map
            &&& rules_view(r.3@) == g.rules
            &&& r.4@ == g.nullables
            &&& r.5@ == model_terminal_indices(tl, nl)
            &&& r.6 == nl.len()
        }),
{
    let mut terminals = terminals;
    let mut non_terminals = non_terminals;
    let mut map = map;
    let mut nullables: HashSet<i32> = HashSet::new();
    let mut terminal_indices: HashSet<i32> = HashSet::new();
    let count = non_terminals.len();
    assert(count == nl.len());
    let mut i: usize = 0;
    while i < terminals.len()
        invariant
            i <= terminals@.len(),
            terminals@.len() == tl.len() + 2,
            count == nl.len(),
            construct_ok(tl, nl, line_texts(rl@)),
            terminal_indices@ == Set::new(|x: i32| count <= x < count + i),
        decreases terminals@.len() - i,
    {
        terminal_indices.insert((count + i) as i32);
        i = i + 1;
        assert(terminal_indices@ =~= Set::new(|x: i32| count <= x < count + i));
    }
    assert(terminal_indices@ =~= model_terminal_indices(tl, nl));
    let mut rules: Vec<Vec<Vec<i32>>> = Vec::new();
    let mut k: usize = 0;
    while k < count
        invariant
            k <= count,
            rules@.len() == k,
            forall|x: int| 0 <= x < k ==> (#[trigger] rules@[x])@.len() == 0,
        decreases count - k,
    {
        rules.push(Vec::new());
        k = k + 1;
    }
    assert forall|x: int| 0 <= x < count implies #[trigger] rules_view(rules@)[x] =~= Seq::<
        Seq<i32>,
    >::empty() by {
        assert(rules@[x]@.len() == 0);
    }
    assert(rules_view(rules@) =~= Seq::new(count as nat, |i: int| Seq::<Seq<i32>>::empty()));
    let ghost rl_t = line_texts(rl@);
    load_Production_Rules(rl, &map, &mut rules);
    proof {
        lemma_load_stmts_nonempty(
            Seq::new(count as nat, |i: int| Seq::<Seq<i32>>::empty()),
            map@,
            statements(rl_t),
        );
    }
    let ghost rules0 = rules_view(rules@);
    let indices = left_recursive_rules(&rules);
    proof {
        lemma_lr_candidates(rules0, count as int);
    }
    if indices.len() > 0 {
        let mut k: usize = 0;
        let nt = terminals.len();
        while k < nt
            invariant
                k <= nt,
                rules@.len() == count + k,
                rules_view(rules@) == rules0 + Seq::new(k as nat, |i: int| Seq::<Seq<i32>>::empty()),
            decreases nt - k,
        {
            let ghost r0 = rules_view(rules@);
            rules.push(Vec::new());
            assert(rules@[rules@.len() - 1]@.len() == 0);
            assert(rules_view(rules@)[rules@.len() - 1] =~= Seq::<Seq<i32>>::empty());
            assert(rules_view(rules@) =~= r0.push(Seq::<Seq<i32>>::empty()));
            k = k + 1;
            assert(rules_view(rules@) =~= rules0 + Seq::new(k as nat, |i: int| Seq::<Seq<i32>>::empty()));
        }
    } else {
        assert(rules_view(rules@) =~= rules0);
    }
    let ghost g1 = GrammarModel {
        terminals: symbol_views(terminals@),
        non_terminals: symbol_views(non_terminals@),
        map: map@,
        rules: rules_view(rules@),
        nullables: nullables@,
    };
    let ghost idxs = indices@;
    let ghost g_end = remove_all_lr(g1, idxs);
    assert(idxs.skip(0) =~= idxs);
    assert(map@.contains_key("Null"@)) by {
        assert(model_terminals(tl).last().0 == "Null"@);
    }
    let mut k: usize = 0;
    while k < indices.len()
        invariant
            k <= indices@.len() <= count,
            idxs == indices@,
            count == nl.len(),
            construct_ok(tl, nl, line_texts(rl@)),
            forall|x: int| 0 <= x < indices@.len() ==> 0 <= #[trigger] indices@[x] < count,
            terminals@.len() == tl.len() + 2,
            non_terminals@.len() == count + k,
            rules@.len() >= count,
            rules@.len() <= count + tl.len() + 2 + k,
            map@.contains_key("Null"@),
            productions_nonempty(rules_view(rules@)),
            remove_all_lr(
                GrammarModel {
                    terminals: symbol_views(terminals@),
                    non_terminals: symbol_views(non_terminals@),
                    map: map@,
                    rules: rules_view(rules@),
                    nullables: nullables@,
                },
                idxs.skip(k as int),
            ) == g_end,
        decreases indices@.len() - k,
    {
        let index = indices[k];
        let ghost cur = GrammarModel {
            terminals: symbol_views(terminals@),
            non_terminals: symbol_views(non_terminals@),
            map: map@,
            rules: rules_view(rules@),
            nullables: nullables@,
        };
        proof {
            lemma_remove_lr_nonempty(cur, index);
        }
        assert forall|j: int| 0 <= j < rules@[index as int]@.len() implies (
        #[trigger] rules@[index as int]@[j])@.len() > 0 by {
            assert(cur.rules[index as int][j] == rules@[index as int]@[j]@);
        }
        remove_left_recursion(
            &mut rules,
            index,
            &mut non_terminals,
            &mut map,
            &mut nullables,
            &mut terminals,
        );
        assert(idxs.skip(k as int).drop_first() =~= idxs.skip(k + 1));
        assert(idxs.skip(k as int)[0] == index);
        k = k + 1;
    }
    assert(idxs.skip(k as int) =~= Seq::<i32>::empty());
    check_nullability(&mut nullables, &mut rules, &map, &terminal_indices);
    (terminals, non_terminals, map, rules, nullables, terminal_indices, count)
}

/// Builds the grammar from the lines of the terminal file, the non-terminal
/// file and the rule file, as [`construct_model`] says.
pub fn construct(
    terminals_lines: &Vec<String>,
    non_terminals_lines: &Vec<String>,
    production_rules: &Vec<String>,
) -> (r: (Vec<Symbol>, Vec<Symbol>, SymbolTable, Vec<Vec<Vec<i32>>>, HashSet<i32>, HashSet<i32>, usize))
    requires
        construct_ok(
            line_texts(terminals_lines@),
            line_texts(non_terminals_lines@),
            line_texts(production_rules@),
        ),
    ensures
        ({
            let tl = line_texts(terminals_lines@);
            let nl = line_texts(non_terminals_lines@);
            let g = construct_model(tl, nl, line_texts(production_rules@));
            &&& symbol_views(r.0@) == g.terminals
            &&& symbol_views(r.1@) == g.non_terminals
            &&& r.2@ == g.map
            &&& rules_view(r.3@) == g.rules
            &&& r.4@ == g.nullables
            &&& r.5@ == model_terminal_indices(tl, nl)
            &&& r.6 == nl.len()
        }),
{
    let (terminals, non_terminals, map) = symbols_and_map(terminals_lines, non_terminals_lines);
    finish_construct(
        terminals,
        non_terminals,
        map,
        production_rules,
        Ghost(line_texts(terminals_lines@)),
        Ghost(line_texts(non_terminals_lines@)),
    )
}

/// Why a grammar cannot be built.
#[derive(Debug, PartialEq, Eq, Structural)]
pub enum ConstructError {
    /// A line of the terminal or the non-terminal file is cut inside a
    /// character: see [`crate::grammar::symbol_line_ok`].
    BadSymbolLine,
    /// The non-terminal file has no line.
    NoNonTerminals,
    /// A statement of the rule file cannot be loaded: see
    /// [`crate::grammar::stmt_loadable`].
    BadRules,
}

/// Builds the grammar as [`construct`] does, or says why it cannot: a
/// symbol line that cannot be cut, no non-terminal, or rules that do not
/// load.
pub fn try_construct(
    terminals_lines: &Vec<String>,
    non_terminals_lines: &Vec<String>,
    production_rules: &Vec<String>,
) -> (r: Result<
    (Vec<Symbol>, Vec<Symbol>, SymbolTable, Vec<Vec<Vec<i32>>>, HashSet<i32>, HashSet<i32>, usize),
    ConstructError,
>)
    requires
        2 * non_terminals_lines@.len() + terminals_lines@.len() + 4 < i32::MAX,
    ensures
        ({
            let tl = line_texts(terminals_lines@);
            let nl = line_texts(non_terminals_lines@);
            let rl = line_texts(production_rules@);
            match r {
                Ok(r) => {
                    let g = construct_model(tl, nl, rl);
                    &&& construct_ok(tl, nl, rl)
                    &&& symbol_views(r.0@) == g.terminals
                    &&& symbol_views(r.1@) == g.non_terminals
                    &&& r.2@ == g.map
                    &&& rules_view(r.3@) == g.rules
                    &&& r.4@ == g.nullables
                    &&& r.5@ == model_terminal_indices(tl, nl)
                    &&& r.6 == nl.len()
                },
                Err(ConstructError::BadSymbolLine) => !(symbol_lines_ok(tl) && symbol_lines_ok(nl)),
                Err(ConstructError::NoNonTerminals) => symbol_lines_ok(tl) && symbol_lines_ok(nl)
                    && nl.len() == 0,
                Err(ConstructError::BadRules) => symbol_lines_ok(tl) && symbol_lines_ok(nl)
                    && nl.len() >= 1 && !rules_loadable(
                    rl,
                    model_map(tl, nl),
                    nl.len() as int,
                ),
            }
        }),
{
    if !symbol_lines_readable(terminals_lines) || !symbol_lines_readable(non_terminals_lines) {
        return Err(ConstructError::BadSymbolLine);
    }
    if non_terminals_lines.len() == 0 {
        return Err(ConstructError::NoNonTerminals);
    }
    let (terminals, non_terminals, map) = symbols_and_map(terminals_lines, non_terminals_lines);
    if !check_production_rules(production_rules, &map, non_terminals.len()) {
        return Err(ConstructError::BadRules);
    }
    Ok(
        finish_construct(
            terminals,
            non_terminals,
            map,
            production_rules,
            Ghost(line_texts(terminals_lines@)),
            Ghost(line_texts(non_terminals_lines@)),
        ),
    )
}

} // verus!
