//! The LL(1) parse table: for each non-terminal and each terminal, the
//! number of the production to expand, or -1.
use vstd::prelude::*;
use std::collections::HashSet;
use vstd::std_specs::iter::IteratorSpec;
use crate::names::SymbolTable;
use crate::grammar::{Symbol, rules_view};
use crate::sets::{sets_view, set_extend};

verus! {

broadcast use vstd::std_specs::hash::group_hash_axioms;

/// What the table is made from.
pub struct TableCtx {
    pub rules: Seq<Seq<Seq<i32>>>,
    pub terms: Set<i32>,
    pub nulls: Set<i32>,
    pub firsts: Seq<Set<i32>>,
    pub follows: Seq<Set<i32>>,
    /// The number of the `Null` terminal, if the symbol table has one.
    pub null: Option<i32>,
    /// The number of the first terminal: column `c` is terminal `c + count`.
    pub count: i32,
    /// The number of columns: one per terminal but `Null`.
    pub cols: int,
}

/// Why the table cannot be made.
#[derive(Debug, PartialEq, Eq, Structural)]
pub enum TableError {
    /// There is no terminal, not even `Eof` and `Null`.
    NoTerminals,
    /// The symbol table has no `Null`.
    MissingNull,
    /// A symbol or a terminal falls outside the FIRST sets, the FOLLOW sets
    /// or the columns.
    OutOfRange,
    /// There are more productions than an `i32` numbers.
    Overflow,
}

/// The state of the table as it is made: the table, the productions in the
/// order of their numbers, and the next production number.
pub struct TableState {
    pub t: Seq<Seq<i32>>,
    pub final_rules: Seq<Seq<i32>>,
    pub counter: int,
}

/// Whether column `col` stands for a terminal of `s`.
pub open spec fn col_in(s: Set<i32>, col: int, count: i32) -> bool {
    i32::MIN <= col + count <= i32::MAX && s.contains((col + count) as i32)
}

/// `row` with `val` in the columns of the terminals of `s`.
pub open spec fn fill(row: Seq<i32>, s: Set<i32>, count: i32, val: i32) -> Seq<i32> {
    Seq::new(row.len(), |col: int| if col_in(s, col, count) { val } else { row[col] })
}

/// Whether every terminal of `s` has a column.
pub open spec fn all_in_columns(s: Set<i32>, count: i32, cols: int) -> bool {
    forall|e: i32| s.contains(e) ==> 0 <= e - count < cols
}

/// The row after the terminals of `s` get `val`.
pub open spec fn write_set(row: Seq<i32>, s: Set<i32>, c: TableCtx, val: i32) -> Result<Seq<i32>, TableError> {
    if all_in_columns(s, c.count, c.cols) {
        Ok(fill(row, s, c.count, val))
    } else {
        Err(TableError::OutOfRange)
    }
}

/// The terminals that the production `p` can begin with, from its `k`-th
/// symbol on, added to `acc`: a terminal other than `Null` is added and ends
/// it; any other symbol's FIRST set is added, and it ends it unless it is
/// nullable.
pub open spec fn fir_set(c: TableCtx, p: Seq<i32>, k: int, acc: Set<i32>) -> Result<Set<i32>, TableError>
    decreases p.len() - k,
{
    if k < 0 || k >= p.len() {
        Ok(acc)
    } else {
        let v = p[k];
        if c.terms.contains(v) && c.null is None {
            Err(TableError::MissingNull)
        } else if c.terms.contains(v) && c.null != Some(v) {
            Ok(acc.insert(v))
        } else if !(0 <= v < c.firsts.len()) {
            Err(TableError::OutOfRange)
        } else if !c.nulls.contains(v) {
            Ok(acc.union(c.firsts[v as int]))
        } else {
            fir_set(c, p, k + 1, acc.union(c.firsts[v as int]))
        }
    }
}

/// The productions of rule `i` from the `j`-th on: each is numbered and,
/// but for the first production of a nullable rule, its number goes to the
/// columns of the terminals it can begin with.
pub open spec fn table_prods(c: TableCtx, st: TableState, i: int, j: int) -> Result<TableState, TableError>
    decreases c.rules[i].len() - j,
{
    if j < 0 || j >= c.rules[i].len() {
        Ok(st)
    } else {
        let p = c.rules[i][j];
        let st1 = TableState { final_rules: st.final_rules.push(p), ..st };
        if c.nulls.contains(i as i32) && j == 0 {
            table_prods(c, st1, i, j + 1)
        } else {
            match fir_set(c, p, 0, Set::empty()) {
                Err(e) => Err(e),
                Ok(s) => match write_set(st1.t[i], s, c, st1.counter as i32) {
                    Err(e) => Err(e),
                    Ok(row) => if st1.counter >= i32::MAX {
                        Err(TableError::Overflow)
                    } else {
                        table_prods(
                            c,
                            TableState {
                                t: st1.t.update(i, row),
                                counter: st1.counter + 1,
                                ..st1
                            },
                            i,
                            j + 1,
                        )
                    },
                },
            }
        }
    }
}

/// The row of rule `i` for its FOLLOW set, when it is nullable: the next
/// number goes to the columns of the terminals of its FOLLOW set but `Null`.
pub open spec fn table_follow(c: TableCtx, st: TableState, i: int) -> Result<TableState, TableError> {
    if !c.nulls.contains(i as i32) {
        Ok(st)
    } else if i >= c.follows.len() {
        Err(TableError::OutOfRange)
    } else if c.null is None && !c.follows[i].is_empty() {
        Err(TableError::MissingNull)
    } else {
        let s = match c.null {
            Some(n) => c.follows[i].remove(n),
            None => c.follows[i],
        };
        match write_set(st.t[i], s, c, st.counter as i32) {
            Err(e) => Err(e),
            Ok(row) => if st.counter >= i32::MAX {
                Err(TableError::Overflow)
            } else {
                Ok(TableState { t: st.t.update(i, row), counter: st.counter + 1, ..st })
            },
        }
    }
}

/// The rows of the rules from the `i`-th on; terminals have none.
pub open spec fn table_rows(c: TableCtx, st: TableState, i: int) -> Result<TableState, TableError>
    decreases c.rules.len() - i, 1int,
{
    if i < 0 || i >= c.rules.len() {
        Ok(st)
    } else if c.terms.contains(i as i32) {
        table_rows(c, st, i + 1)
    } else {
        match table_follow(c, st, i) {
            Err(e) => Err(e),
            Ok(st1) => match table_prods(c, st1, i, 0) {
                Err(e) => Err(e),
                Ok(st2) => table_rows(c, st2, i + 1),
            },
        }
    }
}

/// The parse table and the numbered productions, or why they cannot be
/// made; `nterms` is the number of terminals.
pub open spec fn table_spec(c: TableCtx, nterms: int) -> Result<TableState, TableError> {
    if nterms < 1 {
        Err(TableError::NoTerminals)
    } else {
        table_rows(
            c,
            TableState {
                t: Seq::new(
                    c.rules.len(),
                    |i: int| Seq::new((nterms - 1) as nat, |k: int| -1i32),
                ),
                final_rules: seq![],
                counter: 0,
            },
            0,
        )
    }
}

/// Whether every cell of `t` is -1 or a number below `n`.
pub open spec fn cells_below(t: Seq<Seq<i32>>, n: int) -> bool {
    forall|i: int, k: int| 0 <= i < t.len() && 0 <= k < t[i].len() ==> #[trigger] t[i][k] == -1 || 0 <= t[i][k] < n
}

/// Whether `b` has the rows of `a`, each as long as it was.
pub open spec fn same_shape(a: Seq<Seq<i32>>, b: Seq<Seq<i32>>) -> bool {
    &&& a.len() == b.len()
    &&& forall|i: int| 0 <= i < a.len() ==> (#[trigger] b[i]).len() == a[i].len()
}

/// Whether every nullable non-terminal has a production.
pub open spec fn nullables_have_productions(c: TableCtx) -> bool {
    forall|i: int|
        0 <= i < c.rules.len() && !c.terms.contains(i as i32) && c.nulls.contains(i as i32)
            ==> #[trigger] c.rules[i].len() > 0
}

/// Writing the number `val` below `n` into a row keeps the cells -1 or
/// below `n`, and the row as long as it was.
proof fn lemma_write_set_cells(t: Seq<Seq<i32>>, i: int, s: Set<i32>, c: TableCtx, val: i32, n: int)
    requires
        0 <= i < t.len(),
        cells_below(t, n),
        0 <= val < n,
    ensures
        write_set(t[i], s, c, val) matches Ok(row) ==> row.len() == t[i].len() && cells_below(
            t.update(i, row),
            n,
        ),
{
    if let Ok(row) = write_set(t[i], s, c, val) {
        let t2 = t.update(i, row);
        assert forall|a: int, k: int| 0 <= a < t2.len() && 0 <= k < t2[a].len() implies #[trigger] t2[a][k]
            == -1 || 0 <= t2[a][k] < n by {
            if a == i {
                if !col_in(s, k, c.count) {
                    assert(t2[a][k] == t[i][k]);
                }
            } else {
                assert(t2[a][k] == t[a][k]);
            }
        }
    }
}

/// The productions of rule `i` from the `j`-th on keep the table's shape
/// and its cells -1 or below the next number; each numbered production is
/// kept, and the first one of a nullable rule gets no number of its own.
pub proof fn lemma_table_prods_cells(c: TableCtx, st: TableState, i: int, j: int)
    requires
        0 <= i < st.t.len(),
        0 <= j,
        st.counter >= 0,
        cells_below(st.t, st.counter),
    ensures
        table_prods(c, st, i, j) matches Ok(r) ==> {
            &&& same_shape(st.t, r.t)
            &&& cells_below(r.t, r.counter)
            &&& r.counter >= st.counter
            &&& r.counter - r.final_rules.len() == st.counter - st.final_rules.len() - (if c.nulls.contains(
                i as i32,
            ) && j == 0 && j < c.rules[i].len() {
                1int
            } else {
                0int
            })
        },
    decreases c.rules[i].len() - j,
{
    if !(j < 0 || j >= c.rules[i].len()) {
        let p = c.rules[i][j];
        let st1 = TableState { final_rules: st.final_rules.push(p), ..st };
        if c.nulls.contains(i as i32) && j == 0 {
            lemma_table_prods_cells(c, st1, i, j + 1);
        } else {
            if let Ok(s) = fir_set(c, p, 0, Set::empty()) {
                if st1.counter < i32::MAX {
                    lemma_write_set_cells(st1.t, i, s, c, st1.counter as i32, st1.counter + 1);
                    assert(cells_below(st1.t, st1.counter + 1)) by {
                        assert forall|a: int, k: int|
                            0 <= a < st1.t.len() && 0 <= k < st1.t[a].len() implies #[trigger] st1.t[a][k]
                            == -1 || 0 <= st1.t[a][k] < st1.counter + 1 by {
                            assert(st1.t[a][k] == st.t[a][k]);
                        }
                    }
                    if let Ok(row) = write_set(st1.t[i], s, c, st1.counter as i32) {
                        let st2 = TableState {
                            t: st1.t.update(i, row),
                            counter: st1.counter + 1,
                            ..st1
                        };
                        lemma_table_prods_cells(c, st2, i, j + 1);
                        if let Ok(r) = table_prods(c, st2, i, j + 1) {
                            assert forall|a: int| 0 <= a < st.t.len() implies (#[trigger] r.t[a]).len()
                                == st.t[a].len() by {
                                assert(st2.t[a].len() == st.t[a].len());
                            }
                        }
                    }
                }
            }
        }
    }
}

/// The row for a nullable rule's FOLLOW set keeps the table's shape and
/// its cells -1 or below the next number, and uses one number.
pub proof fn lemma_table_follow_cells(c: TableCtx, st: TableState, i: int)
    requires
        0 <= i < st.t.len(),
        st.counter >= 0,
        cells_below(st.t, st.counter),
    ensures
        table_follow(c, st, i) matches Ok(r) ==> {
            &&& same_shape(st.t, r.t)
            &&& cells_below(r.t, r.counter)
            &&& r.final_rules == st.final_rules
            &&& r.counter == st.counter + (if c.nulls.contains(i as i32) {
                1int
            } else {
                0int
            })
        },
{
    if c.nulls.contains(i as i32) && i < c.follows.len() && !(c.null is None
        && !c.follows[i].is_empty()) {
        let s = match c.null {
            Some(n) => c.follows[i].remove(n),
            None => c.follows[i],
        };
        if st.counter < i32::MAX {
            lemma_write_set_cells(st.t, i, s, c, st.counter as i32, st.counter + 1);
            assert(cells_below(st.t, st.counter + 1)) by {
                assert forall|a: int, k: int| 0 <= a < st.t.len() && 0 <= k < st.t[a].len() implies #[trigger] st.t[a][k]
                    == -1 || 0 <= st.t[a][k] < st.counter + 1 by {}
            }
            if let Ok(row) = write_set(st.t[i], s, c, st.counter as i32) {
                let r = TableState { t: st.t.update(i, row), counter: st.counter + 1, ..st };
                assert forall|a: int| 0 <= a < st.t.len() implies (#[trigger] r.t[a]).len()
                    == st.t[a].len() by {}
            }
        }
    }
}

/// The rows from the `i`-th on keep the table's shape and its cells -1 or
/// below the next number; when every nullable rule has a production, they
/// number as many productions as they keep.
pub proof fn lemma_table_rows_cells(c: TableCtx, st: TableState, i: int)
    requires
        0 <= i,
        st.t.len() == c.rules.len(),
        st.counter >= 0,
        cells_below(st.t, st.counter),
    ensures
        table_rows(c, st, i) matches Ok(r) ==> {
            &&& same_shape(st.t, r.t)
            &&& cells_below(r.t, r.counter)
            &&& nullables_have_productions(c) ==> r.counter - r.final_rules.len() == st.counter
                - st.final_rules.len()
        },
    decreases c.rules.len() - i, 0int,
{
    if !(i < 0 || i >= c.rules.len()) {
        if c.terms.contains(i as i32) {
            lemma_table_rows_cells(c, st, i + 1);
        } else {
            lemma_table_follow_cells(c, st, i);
            if let Ok(st1) = table_follow(c, st, i) {
                lemma_table_prods_cells(c, st1, i, 0);
                if let Ok(st2) = table_prods(c, st1, i, 0) {
                    lemma_table_rows_cells(c, st2, i + 1);
                    if let Ok(r) = table_rows(c, st2, i + 1) {
                        assert forall|a: int| 0 <= a < st.t.len() implies (#[trigger] r.t[a]).len()
                            == st.t[a].len() by {
                            assert(st1.t[a].len() == st.t[a].len());
                            assert(st2.t[a].len() == st1.t[a].len());
                        }
                        if nullables_have_productions(c) && c.nulls.contains(i as i32) {
                            assert(c.rules[i].len() > 0);
                        }
                    }
                }
            }
        }
    }
}

/// The parse table has a row per rule and, in each, a column per terminal
/// but one; every cell is -1 or a number below the count of numbered
/// productions; when every nullable non-terminal has a production, that
/// count is the number of productions kept, so that every number in the
/// table names one of them.
pub proof fn lemma_table_cells(c: TableCtx, nterms: int)
    ensures
        table_spec(c, nterms) matches Ok(st) ==> {
            &&& st.t.len() == c.rules.len()
            &&& forall|i: int| 0 <= i < st.t.len() ==> (#[trigger] st.t[i]).len() == nterms - 1
            &&& cells_below(st.t, st.counter)
            &&& nullables_have_productions(c) ==> st.counter == st.final_rules.len()
        },
{
    if nterms >= 1 {
        let st0 = TableState {
            t: Seq::new(c.rules.len(), |i: int| Seq::new((nterms - 1) as nat, |k: int| -1i32)),
            final_rules: seq![],
            counter: 0,
        };
        assert(cells_below(st0.t, 0));
        lemma_table_rows_cells(c, st0, 0);
        if let Ok(r) = table_rows(c, st0, 0) {
            assert forall|i: int| 0 <= i < r.t.len() implies (#[trigger] r.t[i]).len() == nterms - 1 by {
                assert(st0.t[i].len() == nterms - 1);
            }
        }
    }
}

/// Whether every cell of `t` that is not -1 holds the number of a
/// production in `fr` that is one of the productions of the cell's row's
/// rule, but for the cells of row `pr` that hold `pv`.
pub open spec fn cells_name_prods(
    t: Seq<Seq<i32>>,
    fr: Seq<Seq<i32>>,
    rules: Seq<Seq<Seq<i32>>>,
    pr: int,
    pv: int,
) -> bool {
    forall|r: int, col: int|
        0 <= r < t.len() && 0 <= col < t[r].len() && #[trigger] t[r][col] != -1 ==> (0 <= t[r][col]
            < fr.len() && r < rules.len() && rules[r].contains(fr[t[r][col] as int])) || (r == pr
            && t[r][col] == pv)
}

/// Writing into row `i` a number that names a production of rule `i`, or
/// that row `i` is waiting for, keeps [`cells_name_prods`].
proof fn lemma_write_names(
    t: Seq<Seq<i32>>,
    fr: Seq<Seq<i32>>,
    rules: Seq<Seq<Seq<i32>>>,
    i: int,
    s: Set<i32>,
    c: TableCtx,
    val: i32,
    pr: int,
    pv: int,
)
    requires
        0 <= i < t.len(),
        cells_name_prods(t, fr, rules, pr, pv),
        (0 <= val < fr.len() && i < rules.len() && rules[i].contains(fr[val as int])) || (i == pr
            && val == pv),
    ensures
        write_set(t[i], s, c, val) matches Ok(row) ==> cells_name_prods(t.update(i, row), fr, rules, pr, pv),
{
    if let Ok(row) = write_set(t[i], s, c, val) {
        let t2 = t.update(i, row);
        assert forall|r: int, col: int|
            0 <= r < t2.len() && 0 <= col < t2[r].len() && #[trigger] t2[r][col] != -1 implies (0
            <= t2[r][col] < fr.len() && r < rules.len() && rules[r].contains(fr[t2[r][col] as int]))
            || (r == pr && t2[r][col] == pv) by {
            if r == i {
                if !col_in(s, col, c.count) {
                    assert(t2[r][col] == t[i][col]);
                }
            } else {
                assert(t2[r][col] == t[r][col]);
            }
        }
    }
}

/// A production added at the end of the list keeps [`cells_name_prods`],
/// and settles the cells that waited for it when it is a production of
/// their row's rule.
proof fn lemma_push_names(
    t: Seq<Seq<i32>>,
    fr: Seq<Seq<i32>>,
    rules: Seq<Seq<Seq<i32>>>,
    p: Seq<i32>,
    pr: int,
)
    requires
        cells_name_prods(t, fr, rules, pr, fr.len() as int),
        pr >= 0 ==> pr < rules.len() && rules[pr].contains(p),
    ensures
        cells_name_prods(t, fr.push(p), rules, -1, 0),
{
    let fr2 = fr.push(p);
    assert forall|r: int, col: int|
        0 <= r < t.len() && 0 <= col < t[r].len() && #[trigger] t[r][col] != -1 implies (0 <= t[r][col]
        < fr2.len() && r < rules.len() && rules[r].contains(fr2[t[r][col] as int])) || (r == -1
        && t[r][col] == 0) by {
        let v = t[r][col];
        if 0 <= v < fr.len() && r < rules.len() && rules[r].contains(fr[v as int]) {
            assert(fr2[v as int] == fr[v as int]);
        } else {
            assert(r == pr && v == fr.len());
            assert(fr2[v as int] == p);
        }
    }
}

/// The productions of rule `i` from the `j`-th on keep the cells naming
/// productions of their row's rule, each number being that of the
/// production it is written for; the first production of a nullable rule
/// settles the cells that its FOLLOW row waits for.
pub proof fn lemma_table_prods_names(c: TableCtx, st: TableState, i: int, j: int)
    requires
        0 <= i < st.t.len(),
        0 <= j,
        st.t.len() == c.rules.len(),
        c.nulls.contains(i as i32) && j == 0 && j < c.rules[i].len() ==> cells_name_prods(
            st.t,
            st.final_rules,
            c.rules,
            i,
            st.final_rules.len() as int,
        ) && st.counter == st.final_rules.len() + 1,
        !(c.nulls.contains(i as i32) && j == 0 && j < c.rules[i].len()) ==> cells_name_prods(
            st.t,
            st.final_rules,
            c.rules,
            -1,
            0,
        ) && st.counter == st.final_rules.len(),
    ensures
        table_prods(c, st, i, j) matches Ok(r) ==> {
            &&& cells_name_prods(r.t, r.final_rules, c.rules, -1, 0)
            &&& r.counter == r.final_rules.len()
            &&& r.t.len() == st.t.len()
        },
    decreases c.rules[i].len() - j,
{
    if !(j < 0 || j >= c.rules[i].len()) {
        let p = c.rules[i][j];
        let st1 = TableState { final_rules: st.final_rules.push(p), ..st };
        assert(c.rules[i].contains(p)) by {
            assert(c.rules[i][j] == p);
        }
        if c.nulls.contains(i as i32) && j == 0 {
            lemma_push_names(st.t, st.final_rules, c.rules, p, i);
            lemma_table_prods_names(c, st1, i, j + 1);
        } else {
            lemma_push_names(st.t, st.final_rules, c.rules, p, -1);
            if let Ok(s) = fir_set(c, p, 0, Set::empty()) {
                if st1.counter < i32::MAX {
                    let val = st1.counter as i32;
                    assert(st1.final_rules[val as int] == p);
                    lemma_write_names(st1.t, st1.final_rules, c.rules, i, s, c, val, -1, 0);
                    if let Ok(row) = write_set(st1.t[i], s, c, val) {
                        let st2 = TableState {
                            t: st1.t.update(i, row),
                            counter: st1.counter + 1,
                            ..st1
                        };
                        lemma_table_prods_names(c, st2, i, j + 1);
                    }
                }
            }
        }
    }
}

/// The FOLLOW row of a nullable rule makes its cells wait for the rule's
/// first production, which comes next.
pub proof fn lemma_table_follow_names(c: TableCtx, st: TableState, i: int)
    requires
        0 <= i < st.t.len(),
        cells_name_prods(st.t, st.final_rules, c.rules, -1, 0),
        st.counter == st.final_rules.len(),
    ensures
        table_follow(c, st, i) matches Ok(r) ==> {
            &&& r.final_rules == st.final_rules
            &&& r.t.len() == st.t.len()
            &&& c.nulls.contains(i as i32) ==> cells_name_prods(
                r.t,
                r.final_rules,
                c.rules,
                i,
                r.final_rules.len() as int,
            ) && r.counter == r.final_rules.len() + 1
            &&& !c.nulls.contains(i as i32) ==> r == st
        },
{
    if c.nulls.contains(i as i32) && i < c.follows.len() && !(c.null is None
        && !c.follows[i].is_empty()) {
        let s = match c.null {
            Some(n) => c.follows[i].remove(n),
            None => c.follows[i],
        };
        if st.counter < i32::MAX {
            let val = st.counter as i32;
            assert(cells_name_prods(st.t, st.final_rules, c.rules, i, st.final_rules.len() as int));
            lemma_write_names(
                st.t,
                st.final_rules,
                c.rules,
                i,
                s,
                c,
                val,
                i,
                st.final_rules.len() as int,
            );
        }
    }
}

/// The rows from the `i`-th on keep the cells naming productions of their
/// row's rule, when every nullable non-terminal has a production.
pub proof fn lemma_table_rows_names(c: TableCtx, st: TableState, i: int)
    requires
        0 <= i,
        nullables_have_productions(c),
        st.t.len() == c.rules.len(),
        cells_name_prods(st.t, st.final_rules, c.rules, -1, 0),
        st.counter == st.final_rules.len(),
    ensures
        table_rows(c, st, i) matches Ok(r) ==> cells_name_prods(r.t, r.final_rules, c.rules, -1, 0),
    decreases c.rules.len() - i, 0int,
{
    if !(i < 0 || i >= c.rules.len()) {
        if c.terms.contains(i as i32) {
            lemma_table_rows_names(c, st, i + 1);
        } else {
            lemma_table_follow_names(c, st, i);
            if let Ok(st1) = table_follow(c, st, i) {
                if c.nulls.contains(i as i32) {
                    assert(c.rules[i].len() > 0);
                }
                lemma_table_prods_names(c, st1, i, 0);
                if let Ok(st2) = table_prods(c, st1, i, 0) {
                    lemma_table_rows_names(c, st2, i + 1);
                }
            }
        }
    }
}

/// When every nullable non-terminal has a production, every cell of the
/// parse table that is not -1 holds the number of one of the productions
/// kept in the numbered list, and that production is one of the rule of
/// the cell's row.
pub proof fn lemma_table_names_own_productions(c: TableCtx, nterms: int)
    requires
        nullables_have_productions(c),
    ensures
        table_spec(c, nterms) matches Ok(st) ==> cells_name_prods(st.t, st.final_rules, c.rules, -1, 0),
{
    if nterms >= 1 {
        let st0 = TableState {
            t: Seq::new(c.rules.len(), |i: int| Seq::new((nterms - 1) as nat, |k: int| -1i32)),
            final_rules: seq![],
            counter: 0,
        };
        assert(cells_name_prods(st0.t, st0.final_rules, c.rules, -1, 0));
        lemma_table_rows_names(c, st0, 0);
    }
}

/// The views of a sequence of productions.
pub open spec fn prods_view(v: Seq<Vec<i32>>) -> Seq<Seq<i32>> {
    v.map_values(|p: Vec<i32>| p@)
}

pub proof fn lemma_fill_insert(row: Seq<i32>, s: Set<i32>, e: i32, count: i32, val: i32)
    requires
        0 <= e - count < row.len(),
    ensures
        fill(row, s.insert(e), count, val) == fill(row, s, count, val).update(e - count, val),
{
    assert(fill(row, s.insert(e), count, val) =~= fill(row, s, count, val).update(e - count, val));
}

/// Writes `val` into the columns of the terminals of `s`, but `skip`;
/// returns false, having written some of them, when one has no column.
fn write_set_exec(
    row: &mut Vec<i32>,
    s: &HashSet<i32>,
    skip: Option<i32>,
    count: i32,
    val: i32,
) -> (ok: bool)
    ensures
        ({
            let s2 = match skip {
                Some(n) => s@.remove(n),
                None => s@,
            };
            &&& ok == all_in_columns(s2, count, old(row)@.len() as int)
            &&& ok ==> final(row)@ == fill(old(row)@, s2, count, val)
        }),
        final(row)@.len() == old(row)@.len(),
{
    let ghost s2 = match skip {
        Some(n) => s@.remove(n),
        None => s@,
    };
    let ghost row0 = row@;
    let cols = row.len();
    let iter = s.iter();
    assert(iter.remaining().unref().to_set() == s@);
    for x in it: iter
        invariant
            row@.len() == cols,
            cols == row0.len(),
            row0 == old(row)@,
            it.seq().unref().to_set() == s@,
            it.seq().take(it.seq().len() as int) == it.seq(),
            s2 == (match skip {
                Some(n) => s@.remove(n),
                None => s@,
            }),
            ({
                let done = it.seq().take(it.index() as int).unref().to_set();
                let d2 = match skip {
                    Some(n) => done.remove(n),
                    None => done,
                };
                &&& all_in_columns(d2, count, cols as int)
                &&& row@ == fill(row0, d2, count, val)
            }),
    {
        let ghost i = it.index();
        let e = *x;
        assert(it.seq()[i as int] == x);
        let ghost pre = it.seq().take(i as int).unref();
        assert(it.seq().take(i + 1).unref() =~= pre.push(e));
        proof {
            pre.lemma_push_to_set_commute(e);
        }
        let ghost d_old = match skip {
            Some(n) => pre.to_set().remove(n),
            None => pre.to_set(),
        };
        let ghost d_new = match skip {
            Some(n) => pre.push(e).to_set().remove(n),
            None => pre.push(e).to_set(),
        };
        if skip == Some(e) {
            assert(d_new =~= d_old);
        } else {
            assert(d_new =~= d_old.insert(e));
            let d = (e as i64) - (count as i64);
            if d < 0 || d as u64 >= cols as u64 {
                assert(s@.contains(e)) by {
                    assert(it.seq().unref()[i as int] == e);
                    assert(it.seq().unref().contains(e));
                }
                assert(s2.contains(e));
                assert(!(0 <= e - count < cols));
                assert(!all_in_columns(s2, count, row0.len() as int));
                return false;
            }
            proof {
                lemma_fill_insert(row0, d_old, e, count, val);
            }
            row.set(d as usize, val);
        }
    }
    true
}

/// The terminals that `p` can begin with, as [`fir_set`] says.
#[allow(non_snake_case)]
fn fir_set_exec(
    p: &Vec<i32>,
    terminal_indices: &HashSet<i32>,
    nullables: &HashSet<i32>,
    First: &Vec<HashSet<i32>>,
    null: Option<i32>,
    Ghost(c): Ghost<TableCtx>,
) -> (r: Result<HashSet<i32>, TableError>)
    requires
        c.terms == terminal_indices@,
        c.nulls == nullables@,
        c.firsts == sets_view(First@),
        c.null == null,
    ensures
        match r {
            Ok(s) => fir_set(c, p@, 0, Set::empty()) == Ok::<Set<i32>, TableError>(s@),
            Err(e) => fir_set(c, p@, 0, Set::empty()) == Err::<Set<i32>, TableError>(e),
        },
{
    let ghost target = fir_set(c, p@, 0, Set::empty());
    let mut fir: HashSet<i32> = HashSet::new();
    let mut k: usize = 0;
    while k < p.len()
        invariant
            k <= p@.len(),
            c.terms == terminal_indices@,
            c.nulls == nullables@,
            c.firsts == sets_view(First@),
            c.null == null,
            target == fir_set(c, p@, 0, Set::empty()),
            fir_set(c, p@, k as int, fir@) == target,
        decreases p@.len() - k,
    {
        let v = p[k];
        if terminal_indices.contains(&v) {
            match null {
                None => {
                    return Err(TableError::MissingNull);
                },
                Some(nv) => {
                    if nv != v {
                        fir.insert(v);
                        return Ok(fir);
                    }
                },
            }
        }
        if v < 0 || v as usize >= First.len() {
            return Err(TableError::OutOfRange);
        }
        assert(sets_view(First@)[v as int] == First@[v as int]@);
        set_extend(&mut fir, &First[v as usize]);
        if !nullables.contains(&v) {
            return Ok(fir);
        }
        k = k + 1;
    }
    Ok(fir)
}

/// The productions of the rule `i`, as [`table_prods`] says.
#[allow(non_snake_case)]
fn table_prods_exec(
    i: usize,
    rules: &Vec<Vec<Vec<i32>>>,
    T: &mut Vec<Vec<i32>>,
    final_rules: &mut Vec<Vec<i32>>,
    counter: &mut i32,
    terminal_indices: &HashSet<i32>,
    nullables: &HashSet<i32>,
    First: &Vec<HashSet<i32>>,
    null: Option<i32>,
    count: i32,
    Ghost(c): Ghost<TableCtx>,
) -> (r: Result<(), TableError>)
    requires
        i < rules@.len() <= i32::MAX,
        old(T)@.len() == rules@.len(),
        old(T)@[i as int]@.len() == c.cols,
        c.rules == rules_view(rules@),
        c.terms == terminal_indices@,
        c.nulls == nullables@,
        c.firsts == sets_view(First@),
        c.null == null,
        c.count == count,
        *old(counter) >= 0,
    ensures
        ({
            let st0 = TableState {
                t: prods_view(old(T)@),
                final_rules: prods_view(old(final_rules)@),
                counter: *old(counter) as int,
            };
            match r {
                Ok(_) => table_prods(c, st0, i as int, 0) == Ok::<TableState, TableError>(
                    TableState {
                        t: prods_view(final(T)@),
                        final_rules: prods_view(final(final_rules)@),
                        counter: *final(counter) as int,
                    },
                ),
                Err(e) => table_prods(c, st0, i as int, 0) == Err::<TableState, TableError>(e),
            }
        }),
        final(T)@.len() == old(T)@.len(),
        forall|x: int| 0 <= x < final(T)@.len() ==> #[trigger] final(T)@[x]@.len() == old(T)@[x]@.len(),
        *final(counter) >= *old(counter),
{
    let ghost target = table_prods(
        c,
        TableState {
            t: prods_view(T@),
            final_rules: prods_view(final_rules@),
            counter: *counter as int,
        },
        i as int,
        0,
    );
    let mut j: usize = 0;
    let np = rules[i].len();
    while j < np
        invariant
            j <= np,
            np == rules@[i as int]@.len(),
            i < rules@.len() <= i32::MAX,
            T@.len() == rules@.len(),
            T@.len() == old(T)@.len(),
            forall|x: int| 0 <= x < T@.len() ==> #[trigger] T@[x]@.len() == old(T)@[x]@.len(),
            T@[i as int]@.len() == c.cols,
            c.rules == rules_view(rules@),
            c.terms == terminal_indices@,
            c.nulls == nullables@,
            c.firsts == sets_view(First@),
            c.null == null,
            c.count == count,
            *counter >= *old(counter),
            target == table_prods(
                c,
                TableState {
                    t: prods_view(old(T)@),
                    final_rules: prods_view(old(final_rules)@),
                    counter: *old(counter) as int,
                },
                i as int,
                0,
            ),
            table_prods(
                c,
                TableState {
                    t: prods_view(T@),
                    final_rules: prods_view(final_rules@),
                    counter: *counter as int,
                },
                i as int,
                j as int,
            ) == target,
        decreases np - j,
    {
        let mut copy: Vec<i32> = Vec::new();
        let mut k: usize = 0;
        while k < rules[i][j].len()
            invariant
                i < rules@.len(),
                j < rules@[i as int]@.len(),
                k <= rules@[i as int]@[j as int]@.len(),
                copy@ == rules@[i as int]@[j as int]@.take(k as int),
            decreases rules@[i as int]@[j as int]@.len() - k,
        {
            copy.push(rules[i][j][k]);
            k = k + 1;
        }
        assert(rules@[i as int]@[j as int]@.take(k as int) =~= rules@[i as int]@[j as int]@);
        assert(c.rules[i as int][j as int] == copy@);
        let ghost fr0 = prods_view(final_rules@);
        final_rules.push(copy);
        assert(prods_view(final_rules@) =~= fr0.push(c.rules[i as int][j as int]));
        if nullables.contains(&(i as i32)) && j == 0 {
            j = j + 1;
        } else {
            let fir = fir_set_exec(&rules[i][j], terminal_indices, nullables, First, null, Ghost(c));
            match fir {
                Err(e) => {
                    return Err(e);
                },
                Ok(s) => {
                    let ghost t0 = prods_view(T@);
                    let ghost tv0 = T@;
                    let ok = write_set_exec(&mut T[i], &s, None, count, *counter);
                    if !ok {
                        return Err(TableError::OutOfRange);
                    }
                    assert(T@[i as int]@ == fill(tv0[i as int]@, s@, count, *counter));
                    assert(prods_view(T@) =~= t0.update(i as int, fill(t0[i as int], s@, count, *counter)));
                    if *counter == i32::MAX {
                        return Err(TableError::Overflow);
                    }
                    *counter = *counter + 1;
                    j = j + 1;
                },
            }
        }
    }
    Ok(())
}

/// The number of `Null` in the symbol table, if it has one.
pub open spec fn null_of(m: Map<Seq<char>, i32>) -> Option<i32> {
    if m.contains_key("Null"@) {
        Some(m["Null"@])
    } else {
        None
    }
}

/// What the table is made from, as the arguments of [`table_maker`] give it.
pub open spec fn table_ctx(
    terminals: Seq<Symbol>,
    rules: Seq<Vec<Vec<i32>>>,
    first: Seq<HashSet<i32>>,
    follow: Seq<HashSet<i32>>,
    nullables: Set<i32>,
    terminal_indices: Set<i32>,
    map: Map<Seq<char>, i32>,
    count: i32,
) -> TableCtx {
    TableCtx {
        rules: rules_view(rules),
        terms: terminal_indices,
        nulls: nullables,
        firsts: sets_view(first),
        follows: sets_view(follow),
        null: null_of(map),
        count: count,
        cols: terminals.len() - 1,
    }
}

/// A row of `n` cells that hold -1.
fn empty_row(n: usize) -> (r: Vec<i32>)
    ensures
        r@ == Seq::new(n as nat, |k: int| -1i32),
{
    let mut r: Vec<i32> = Vec::new();
    let mut i: usize = 0;
    while i < n
        invariant
            i <= n,
            r@ == Seq::new(i as nat, |k: int| -1i32),
        decreases n - i,
    {
        r.push(-1);
        i = i + 1;
        assert(r@ =~= Seq::new(i as nat, |k: int| -1i32));
    }
    r
}

/// The parse table and the productions in the order of their numbers, or
/// why they cannot be made, as [`table_spec`] says. Row `i` is rule `i`;
/// column `c` is terminal `c + count`.
#[allow(non_snake_case)]
pub fn try_table_maker(
    terminals: &mut Vec<Symbol>,
    rules: &mut Vec<Vec<Vec<i32>>>,
    First: &mut Vec<HashSet<i32>>,
    Follow: &mut Vec<HashSet<i32>>,
    nullables: &mut HashSet<i32>,
    terminal_indices: &mut HashSet<i32>,
    map: &mut SymbolTable,
    count: i32,
) -> (r: Result<(Vec<Vec<i32>>, Vec<Vec<i32>>), TableError>)
    requires
        old(rules)@.len() <= i32::MAX,
    ensures
        final(terminals)@ == old(terminals)@,
        final(rules)@ == old(rules)@,
        final(First)@ == old(First)@,
        final(Follow)@ == old(Follow)@,
        final(nullables)@ == old(nullables)@,
        final(terminal_indices)@ == old(terminal_indices)@,
        final(map)@ == old(map)@,
        ({
            let c = table_ctx(
                old(terminals)@,
                old(rules)@,
                old(First)@,
                old(Follow)@,
                old(nullables)@,
                old(terminal_indices)@,
                old(map)@,
                count,
            );
            match r {
                Ok((t, fr)) => table_spec(c, old(terminals)@.len() as int) matches Ok(st) && st.t
                    == prods_view(t@) && st.final_rules == prods_view(fr@),
                Err(e) => table_spec(c, old(terminals)@.len() as int) == Err::<
                    TableState,
                    TableError,
                >(e),
            }
        }),
{
    broadcast use vstd::string::group_string_axioms;

    let ghost c = table_ctx(
        terminals@,
        rules@,
        First@,
        Follow@,
        nullables@,
        terminal_indices@,
        map@,
        count,
    );
    if terminals.len() == 0 {
        return Err(TableError::NoTerminals);
    }
    let columns = terminals.len() - 1;
    let null_name = "Null".to_string();
    let null = map.get(&null_name);
    let rows = rules.len();
    let mut T: Vec<Vec<i32>> = Vec::new();
    let mut i: usize = 0;
    while i < rows
        invariant
            i <= rows,
            T@.len() == i,
            forall|x: int| 0 <= x < i ==> #[trigger] T@[x]@ == Seq::new(columns as nat, |k: int| -1i32),
        decreases rows - i,
    {
        T.push(empty_row(columns));
        i = i + 1;
    }
    let mut final_rules: Vec<Vec<i32>> = Vec::new();
    let mut counter: i32 = 0;
    assert(prods_view(T@) =~= Seq::new(
        c.rules.len(),
        |i: int| Seq::new((terminals@.len() - 1) as nat, |k: int| -1i32),
    ));
    assert(prods_view(final_rules@) =~= Seq::<Seq<i32>>::empty());
    let ghost target = table_spec(c, terminals@.len() as int);
    let mut i: usize = 0;
    while i < rows
        invariant
            i <= rows,
            rows == rules@.len() <= i32::MAX,
            c == table_ctx(
                terminals@,
                rules@,
                First@,
                Follow@,
                nullables@,
                terminal_indices@,
                map@,
                count,
            ),
            null == null_of(map@),
            c.cols == columns,
            T@.len() == rows,
            forall|x: int| 0 <= x < T@.len() ==> #[trigger] T@[x]@.len() == columns,
            counter >= 0,
            target == table_spec(c, terminals@.len() as int),
            terminals@.len() >= 1,
            table_rows(
                c,
                TableState {
                    t: prods_view(T@),
                    final_rules: prods_view(final_rules@),
                    counter: counter as int,
                },
                i as int,
            ) == target,
        decreases rows - i,
    {
        if !terminal_indices.contains(&(i as i32)) {
            if nullables.contains(&(i as i32)) {
                if i >= Follow.len() {
                    return Err(TableError::OutOfRange);
                }
                assert(c.follows[i as int] == Follow@[i as int]@);
                if null.is_none() && !Follow[i].is_empty() {
                    return Err(TableError::MissingNull);
                }
                let ghost t0 = prods_view(T@);
                let ghost tv0 = T@;
                let ok = write_set_exec(&mut T[i], &Follow[i], null, count, counter);
                if !ok {
                    return Err(TableError::OutOfRange);
                }
                let ghost s = match null {
                    Some(n) => c.follows[i as int].remove(n),
                    None => c.follows[i as int],
                };
                assert(prods_view(T@) =~= t0.update(i as int, fill(t0[i as int], s, count, counter)));
                if counter == i32::MAX {
                    return Err(TableError::Overflow);
                }
                counter = counter + 1;
            }
            match table_prods_exec(
                i,
                rules,
                &mut T,
                &mut final_rules,
                &mut counter,
                terminal_indices,
                nullables,
                First,
                null,
                count,
                Ghost(c),
            ) {
                Err(e) => {
                    return Err(e);
                },
                Ok(_) => {},
            }
        }
        i = i + 1;
    }
    Ok((T, final_rules))
}

/// The parse table and the productions in the order of their numbers, for
/// arguments from which [`try_table_maker`] makes them.
#[allow(non_snake_case)]
pub fn table_maker(
    terminals: &mut Vec<Symbol>,
    rules: &mut Vec<Vec<Vec<i32>>>,
    First: &mut Vec<HashSet<i32>>,
    Follow: &mut Vec<HashSet<i32>>,
    nullables: &mut HashSet<i32>,
    terminal_indices: &mut HashSet<i32>,
    map: &mut SymbolTable,
    count: i32,
) -> (r: (Vec<Vec<i32>>, Vec<Vec<i32>>))
    requires
        old(rules)@.len() <= i32::MAX,
        table_spec(
            table_ctx(
                old(terminals)@,
                old(rules)@,
                old(First)@,
                old(Follow)@,
                old(nullables)@,
                old(terminal_indices)@,
                old(map)@,
                count,
            ),
            old(terminals)@.len() as int,
        ) is Ok,
    ensures
        final(terminals)@ == old(terminals)@,
        final(rules)@ == old(rules)@,
        final(First)@ == old(First)@,
        final(Follow)@ == old(Follow)@,
        final(nullables)@ == old(nullables)@,
        final(terminal_indices)@ == old(terminal_indices)@,
        final(map)@ == old(map)@,
        table_spec(
            table_ctx(
                old(terminals)@,
                old(rules)@,
                old(First)@,
                old(Follow)@,
                old(nullables)@,
                old(terminal_indices)@,
                old(map)@,
                count,
            ),
            old(terminals)@.len() as int,
        ) matches Ok(st) && st.t == prods_view(r.0@) && st.final_rules == prods_view(r.1@),
{
    match try_table_maker(terminals, rules, First, Follow, nullables, terminal_indices, map, count) {
        Ok(r) => r,
        Err(_) => {
            proof {
                assert(false);
            }
            (Vec::new(), Vec::new())
        },
    }
}

/// The terminals of `s` among the `n` columns from terminal `lo` on, in
/// increasing order.
pub open spec fn cols_in(s: Set<i32>, lo: int, n: int) -> Seq<i32>
    decreases n,
{
    if n <= 0 || lo > i32::MAX {
        seq![]
    } else {
        (if i32::MIN <= lo && s.contains(lo as i32) {
            seq![lo as i32]
        } else {
            seq![]
        }) + cols_in(s, lo + 1, n - 1)
    }
}

/// The terminals that the making of the table prints for the production
/// `p`, from its `k`-th symbol on, as it scans the production the way
/// [`fir_set`] does: a terminal other than `Null` is printed and ends the
/// scan; for any other symbol, the terminals of its FIRST set among the
/// columns are printed, and the scan ends unless the symbol is nullable.
/// A terminal that two FIRST sets hold is printed twice.
pub open spec fn fir_printed(c: TableCtx, p: Seq<i32>, k: int) -> Seq<i32>
    decreases p.len() - k,
{
    if k < 0 || k >= p.len() {
        seq![]
    } else {
        let v = p[k];
        if c.terms.contains(v) && c.null != Some(v) {
            seq![v]
        } else if !(0 <= v < c.firsts.len()) {
            seq![]
        } else if !c.nulls.contains(v) {
            cols_in(c.firsts[v as int], c.count as int, c.cols)
        } else {
            cols_in(c.firsts[v as int], c.count as int, c.cols) + fir_printed(c, p, k + 1)
        }
    }
}

/// What is printed for the productions of rule `i` from the `j`-th on: one
/// list per production that gets table cells, so none for the first
/// production of a nullable rule.
pub open spec fn prods_printed(c: TableCtx, i: int, j: int) -> Seq<Seq<i32>>
    decreases c.rules[i].len() - j,
{
    if j < 0 || j >= c.rules[i].len() {
        seq![]
    } else if c.nulls.contains(i as i32) && j == 0 {
        prods_printed(c, i, j + 1)
    } else {
        seq![fir_printed(c, c.rules[i][j], 0)] + prods_printed(c, i, j + 1)
    }
}

/// What is printed for the rules from the `i`-th on, in the order in which
/// the table is made; terminals have no row and print nothing.
pub open spec fn rows_printed(c: TableCtx, i: int) -> Seq<Seq<i32>>
    decreases c.rules.len() - i,
{
    if i < 0 || i >= c.rules.len() {
        seq![]
    } else if c.terms.contains(i as i32) {
        rows_printed(c, i + 1)
    } else {
        prods_printed(c, i, 0) + rows_printed(c, i + 1)
    }
}

/// Appends to `out` the terminals of `s` among `cols` columns from terminal
/// `lo` on, as [`cols_in`] says.
fn cols_in_exec(s: &HashSet<i32>, lo: i32, cols: usize, out: &mut Vec<i32>)
    ensures
        final(out)@ == old(out)@ + cols_in(s@, lo as int, cols as int),
{
    let ghost target = old(out)@ + cols_in(s@, lo as int, cols as int);
    let mut k: usize = 0;
    let mut v: i32 = lo;
    assert(out@ + cols_in(s@, lo as int, cols as int) == target);
    while k < cols
        invariant
            k <= cols,
            v == lo + k,
            target == old(out)@ + cols_in(s@, lo as int, cols as int),
            out@ + cols_in(s@, v as int, cols - k) == target,
        decreases cols - k,
    {
        let ghost before = out@;
        let ghost here: Seq<i32> = if s@.contains(v) {
            seq![v]
        } else {
            seq![]
        };
        if s.contains(&v) {
            out.push(v);
        }
        assert(out@ == before + here);
        assert(cols_in(s@, v as int, cols - k) == here + cols_in(s@, v + 1, cols - k - 1));
        assert((before + here) + cols_in(s@, v + 1, cols - k - 1) =~= before + (here + cols_in(
            s@,
            v + 1,
            cols - k - 1,
        )));
        if v == i32::MAX {
            assert(cols_in(s@, v + 1, cols - k - 1) == Seq::<i32>::empty());
            assert(out@ =~= target);
            return;
        }
        v = v + 1;
        k = k + 1;
    }
    assert(cols_in(s@, v as int, cols - k) == Seq::<i32>::empty());
    assert(out@ =~= target);
}

/// The terminals printed for the production `p`, as [`fir_printed`] says.
fn fir_printed_exec(
    p: &Vec<i32>,
    terminal_indices: &HashSet<i32>,
    nullables: &HashSet<i32>,
    First: &Vec<HashSet<i32>>,
    null: Option<i32>,
    count: i32,
    cols: usize,
    Ghost(c): Ghost<TableCtx>,
) -> (r: Vec<i32>)
    requires
        c.terms == terminal_indices@,
        c.nulls == nullables@,
        c.firsts == sets_view(First@),
        c.null == null,
        c.count == count,
        c.cols == cols || (c.cols < 0 && cols == 0),
    ensures
        r@ == fir_printed(c, p@, 0),
{
    let ghost target = fir_printed(c, p@, 0);
    let mut out: Vec<i32> = Vec::new();
    let mut k: usize = 0;
    assert(out@ + fir_printed(c, p@, 0) =~= target);
    while k < p.len()
        invariant
            k <= p@.len(),
            c.terms == terminal_indices@,
            c.nulls == nullables@,
            c.firsts == sets_view(First@),
            c.null == null,
            c.count == count,
            c.cols == cols || (c.cols < 0 && cols == 0),
            target == fir_printed(c, p@, 0),
            out@ + fir_printed(c, p@, k as int) == target,
        decreases p@.len() - k,
    {
        let v = p[k];
        let is_null = match null {
            Some(n) => n == v,
            None => false,
        };
        if terminal_indices.contains(&v) && !is_null {
            out.push(v);
            return out;
        }
        if v < 0 || v as usize >= First.len() {
            assert(out@ + fir_printed(c, p@, k as int) =~= out@);
            return out;
        }
        let ghost before = out@;
        cols_in_exec(&First[v as usize], count, cols, &mut out);
        assert(First@[v as int]@ == c.firsts[v as int]);
        assert(cols_in(c.firsts[v as int], c.count as int, c.cols) == cols_in(
            c.firsts[v as int],
            count as int,
            cols as int,
        ));
        if !nullables.contains(&v) {
            return out;
        }
        assert((before + cols_in(c.firsts[v as int], c.count as int, c.cols)) + fir_printed(
            c,
            p@,
            k + 1,
        ) =~= before + (cols_in(c.firsts[v as int], c.count as int, c.cols) + fir_printed(
            c,
            p@,
            k + 1,
        )));
        k = k + 1;
    }
    assert(out@ + fir_printed(c, p@, k as int) =~= out@);
    out
}

/// The terminals that the making of the parse table prints, as
/// [`rows_printed`] says: one list per production that gets table cells,
/// in the order in which they get them. The arguments are those of
/// [`try_table_maker`].
#[allow(non_snake_case)]
pub fn printed_terminals(
    terminals: &Vec<Symbol>,
    rules: &Vec<Vec<Vec<i32>>>,
    First: &Vec<HashSet<i32>>,
    Follow: &Vec<HashSet<i32>>,
    nullables: &HashSet<i32>,
    terminal_indices: &HashSet<i32>,
    map: &SymbolTable,
    count: i32,
) -> (r: Vec<Vec<i32>>)
    requires
        rules@.len() <= i32::MAX,
    ensures
        prods_view(r@) == rows_printed(
            table_ctx(
                terminals@,
                rules@,
                First@,
                Follow@,
                nullables@,
                terminal_indices@,
                map@,
                count,
            ),
            0,
        ),
{
    broadcast use vstd::string::group_string_axioms;

    let ghost c = table_ctx(
        terminals@,
        rules@,
        First@,
        Follow@,
        nullables@,
        terminal_indices@,
        map@,
        count,
    );
    let ghost target = rows_printed(c, 0);
    let cols: usize = if terminals.len() == 0 {
        0
    } else {
        terminals.len() - 1
    };
    let null_name = "Null".to_string();
    let null = map.get(&null_name);
    let mut out: Vec<Vec<i32>> = Vec::new();
    let mut i: usize = 0;
    assert(prods_view(out@) + rows_printed(c, 0) =~= target);
    while i < rules.len()
        invariant
            i <= rules@.len() <= i32::MAX,
            c == table_ctx(
                terminals@,
                rules@,
                First@,
                Follow@,
                nullables@,
                terminal_indices@,
                map@,
                count,
            ),
            null == null_of(map@),
            c.cols == cols || (c.cols < 0 && cols == 0),
            target == rows_printed(c, 0),
            prods_view(out@) + rows_printed(c, i as int) == target,
        decreases rules@.len() - i,
    {
        if terminal_indices.contains(&(i as i32)) {
            i = i + 1;
        } else {
            let ghost row_start = prods_view(out@);
            let nullable = nullables.contains(&(i as i32));
            let mut j: usize = 0;
            assert(c.rules[i as int].len() == rules@[i as int]@.len());
            assert(prods_view(out@) + prods_printed(c, i as int, 0) =~= row_start + prods_printed(
                c,
                i as int,
                0,
            ));
            while j < rules[i].len()
                invariant
                    i < rules@.len() <= i32::MAX,
                    j <= rules@[i as int]@.len(),
                    c.rules[i as int].len() == rules@[i as int]@.len(),
                    c == table_ctx(
                        terminals@,
                        rules@,
                        First@,
                        Follow@,
                        nullables@,
                        terminal_indices@,
                        map@,
                        count,
                    ),
                    null == null_of(map@),
                    c.cols == cols || (c.cols < 0 && cols == 0),
                    nullable == nullables@.contains(i as i32),
                    prods_view(out@) + prods_printed(c, i as int, j as int) == row_start
                        + prods_printed(c, i as int, 0),
                    target == rows_printed(c, 0),
                    row_start + rows_printed(c, i as int) == target,
                    !terminal_indices@.contains(i as i32),
                decreases rules@[i as int]@.len() - j,
            {
                if !(nullable && j == 0) {
                    let ghost before = prods_view(out@);
                    let f = fir_printed_exec(
                        &rules[i][j],
                        terminal_indices,
                        nullables,
                        First,
                        null,
                        count,
                        cols,
                        Ghost(c),
                    );
                    assert(c.rules[i as int][j as int] == rules@[i as int]@[j as int]@);
                    out.push(f);
                    assert(prods_view(out@) =~= before.push(f@));
                    assert(before.push(f@) + prods_printed(c, i as int, j + 1) =~= before + (seq![
                        f@,
                    ] + prods_printed(c, i as int, j + 1)));
                }
                j = j + 1;
            }
            assert(prods_printed(c, i as int, j as int) =~= Seq::<Seq<i32>>::empty());
            assert((row_start + prods_printed(c, i as int, 0)) + rows_printed(c, i + 1) =~= row_start
                + (prods_printed(c, i as int, 0) + rows_printed(c, i + 1)));
            i = i + 1;
        }
    }
    assert(prods_view(out@) + rows_printed(c, i as int) =~= prods_view(out@));
    out
}

/// Whether a production scan of the table passes over `v` to the next
/// symbol: `v` is nullable and is no terminal other than `Null`.
pub open spec fn scan_passes(c: TableCtx, v: i32) -> bool {
    c.nulls.contains(v) && !(c.terms.contains(v) && c.null != Some(v))
}

/// The terminals that a production can begin with because of its symbol
/// `v`: `v` itself if it is a terminal other than `Null`, else its FIRST
/// set.
pub open spec fn begins_with(c: TableCtx, v: i32) -> Set<i32> {
    if c.terms.contains(v) && c.null != Some(v) {
        set![v]
    } else {
        c.firsts[v as int]
    }
}

/// What [`fir_set`] gives holds what it starts from, and what each symbol
/// it reaches can begin with.
proof fn lemma_fir_set_covers(c: TableCtx, p: Seq<i32>, k0: int, acc: Set<i32>, k: int)
    requires
        0 <= k0 <= k < p.len(),
        forall|i: int| k0 <= i < k ==> scan_passes(c, #[trigger] p[i]),
    ensures
        fir_set(c, p, k0, acc) matches Ok(s) ==> acc.subset_of(s) && begins_with(c, p[k]).subset_of(s),
    decreases p.len() - k0,
{
    let v = p[k0];
    if k0 < k {
        assert(scan_passes(c, p[k0]));
        if fir_set(c, p, k0, acc) is Ok {
            lemma_fir_set_covers(c, p, k0 + 1, acc.union(c.firsts[v as int]), k);
        }
    } else {
        lemma_fir_set_grows(c, p, k0, acc);
        if !(c.terms.contains(v) && c.null != Some(v)) && c.nulls.contains(v) {
            lemma_fir_set_grows(c, p, k0 + 1, acc.union(c.firsts[v as int]));
        }
    }
}

/// What [`fir_set`] gives holds what it starts from.
proof fn lemma_fir_set_grows(c: TableCtx, p: Seq<i32>, k0: int, acc: Set<i32>)
    ensures
        fir_set(c, p, k0, acc) matches Ok(s) ==> acc.subset_of(s),
    decreases p.len() - k0,
{
    if 0 <= k0 < p.len() {
        lemma_fir_set_grows(c, p, k0 + 1, acc.union(c.firsts[p[k0] as int]));
    }
}

/// Writing a number from 0 to `i32::MAX` into a row keeps the shape and the
/// cells that were not -1 from being -1, and puts the number into the
/// columns of the terminals written.
proof fn lemma_write_keeps(t: Seq<Seq<i32>>, i: int, s: Set<i32>, c: TableCtx, val: i32)
    requires
        0 <= i < t.len(),
        val >= 0,
    ensures
        write_set(t[i], s, c, val) matches Ok(row) ==> {
            &&& row.len() == t[i].len()
            &&& forall|col: int| 0 <= col < row.len() && t[i][col] >= 0 ==> #[trigger] row[col] >= 0
            &&& forall|e: i32| s.contains(e) ==> 0 <= e - c.count < c.cols && (e - c.count < row.len()
                ==> row[e - c.count] >= 0)
        },
{
    if let Ok(row) = write_set(t[i], s, c, val) {
        assert forall|e: i32| s.contains(e) implies 0 <= e - c.count < c.cols && (e - c.count
            < row.len() ==> row[e - c.count] >= 0) by {
            assert(col_in(s, e - c.count, c.count));
        }
    }
}

/// Whether `b` has the shape of `a` and no cell of `a` that is not -1 is
/// -1 in `b`.
pub open spec fn kept_set_cells(a: Seq<Seq<i32>>, b: Seq<Seq<i32>>) -> bool {
    &&& same_shape(a, b)
    &&& forall|r: int, col: int|
        0 <= r < a.len() && 0 <= col < a[r].len() && a[r][col] >= 0 ==> #[trigger] b[r][col] >= 0
}

proof fn lemma_kept_trans(a: Seq<Seq<i32>>, b: Seq<Seq<i32>>, d: Seq<Seq<i32>>)
    requires
        kept_set_cells(a, b),
        kept_set_cells(b, d),
    ensures
        kept_set_cells(a, d),
{
    assert forall|r: int, col: int|
        0 <= r < a.len() && 0 <= col < a[r].len() && a[r][col] >= 0 implies #[trigger] d[r][col] >= 0 by {
        assert(b[r][col] >= 0);
    }
    assert forall|r: int| 0 <= r < a.len() implies (#[trigger] d[r]).len() == a[r].len() by {
        assert(b[r].len() == a[r].len());
    }
}

proof fn lemma_kept_update(t: Seq<Seq<i32>>, i: int, row: Seq<i32>)
    requires
        0 <= i < t.len(),
        row.len() == t[i].len(),
        forall|col: int| 0 <= col < row.len() && t[i][col] >= 0 ==> #[trigger] row[col] >= 0,
    ensures
        kept_set_cells(t, t.update(i, row)),
{
    let t2 = t.update(i, row);
    assert forall|r: int, col: int|
        0 <= r < t.len() && 0 <= col < t[r].len() && t[r][col] >= 0 implies #[trigger] t2[r][col] >= 0 by {
        if r == i {
            assert(row[col] >= 0);
        }
    }
}

/// The productions of a rule keep the cells set and the numbers in range.
proof fn lemma_prods_keep(c: TableCtx, st: TableState, i: int, j: int)
    requires
        0 <= i < st.t.len(),
        0 <= st.counter <= i32::MAX,
    ensures
        table_prods(c, st, i, j) matches Ok(r) ==> kept_set_cells(st.t, r.t) && 0 <= r.counter <= i32::MAX,
    decreases c.rules[i].len() - j,
{
    if !(j < 0 || j >= c.rules[i].len()) {
        let p = c.rules[i][j];
        let st1 = TableState { final_rules: st.final_rules.push(p), ..st };
        if c.nulls.contains(i as i32) && j == 0 {
            lemma_prods_keep(c, st1, i, j + 1);
        } else if let Ok(s) = fir_set(c, p, 0, Set::empty()) {
            lemma_write_keeps(st1.t, i, s, c, st1.counter as i32);
            if let Ok(row) = write_set(st1.t[i], s, c, st1.counter as i32) {
                if st1.counter < i32::MAX {
                    lemma_kept_update(st1.t, i, row);
                    let st2 = TableState { t: st1.t.update(i, row), counter: st1.counter + 1, ..st1 };
                    lemma_prods_keep(c, st2, i, j + 1);
                    if let Ok(r) = table_prods(c, st2, i, j + 1) {
                        lemma_kept_trans(st.t, st2.t, r.t);
                    }
                }
            }
        }
    }
}

/// The FOLLOW row of a rule keeps the cells set and the numbers in range.
proof fn lemma_follow_keep(c: TableCtx, st: TableState, i: int)
    requires
        0 <= i < st.t.len(),
        0 <= st.counter <= i32::MAX,
    ensures
        table_follow(c, st, i) matches Ok(r) ==> kept_set_cells(st.t, r.t) && 0 <= r.counter <= i32::MAX,
{
    if c.nulls.contains(i as i32) && i < c.follows.len() && !(c.null is None
        && !c.follows[i].is_empty()) {
        let s = match c.null {
            Some(n) => c.follows[i].remove(n),
            None => c.follows[i],
        };
        lemma_write_keeps(st.t, i, s, c, st.counter as i32);
        if let Ok(row) = write_set(st.t[i], s, c, st.counter as i32) {
            lemma_kept_update(st.t, i, row);
        }
    }
}

/// The rows from the `i`-th on keep the cells set and the numbers in range.
proof fn lemma_rows_keep(c: TableCtx, st: TableState, i: int)
    requires
        0 <= i,
        st.t.len() == c.rules.len(),
        0 <= st.counter <= i32::MAX,
    ensures
        table_rows(c, st, i) matches Ok(r) ==> kept_set_cells(st.t, r.t),
    decreases c.rules.len() - i,
{
    if !(i < 0 || i >= c.rules.len()) {
        if c.terms.contains(i as i32) {
            lemma_rows_keep(c, st, i + 1);
        } else {
            lemma_follow_keep(c, st, i);
            if let Ok(st1) = table_follow(c, st, i) {
                lemma_prods_keep(c, st1, i, 0);
                if let Ok(st2) = table_prods(c, st1, i, 0) {
                    lemma_kept_trans(st.t, st1.t, st2.t);
                    lemma_rows_keep(c, st2, i + 1);
                    if let Ok(r) = table_rows(c, st2, i + 1) {
                        lemma_kept_trans(st.t, st2.t, r.t);
                    }
                }
            }
        }
    }
}

/// In the productions of rule `a` from the `j0`-th on, production `j`, when
/// it gets cells, gets those of what its `k`-th symbol can begin with.
proof fn lemma_prods_cover(c: TableCtx, st: TableState, a: int, j0: int, j: int, k: int)
    requires
        0 <= a < st.t.len(),
        st.t[a].len() == c.cols,
        0 <= st.counter <= i32::MAX,
        0 <= j0 <= j < c.rules[a].len(),
        !(c.nulls.contains(a as i32) && j == 0),
        0 <= k < c.rules[a][j].len(),
        forall|i: int| 0 <= i < k ==> scan_passes(c, #[trigger] c.rules[a][j][i]),
    ensures
        table_prods(c, st, a, j0) matches Ok(r) ==> forall|e: i32|
            #[trigger] begins_with(c, c.rules[a][j][k]).contains(e) ==> 0 <= e - c.count < r.t[a].len()
                && r.t[a][e - c.count] >= 0,
    decreases c.rules[a].len() - j0,
{
    let p = c.rules[a][j0];
    let st1 = TableState { final_rules: st.final_rules.push(p), ..st };
    if c.nulls.contains(a as i32) && j0 == 0 {
        lemma_prods_cover(c, st1, a, j0 + 1, j, k);
    } else if let Ok(s) = fir_set(c, p, 0, Set::empty()) {
        lemma_write_keeps(st1.t, a, s, c, st1.counter as i32);
        if let Ok(row) = write_set(st1.t[a], s, c, st1.counter as i32) {
            if st1.counter < i32::MAX {
                lemma_kept_update(st1.t, a, row);
                let st2 = TableState { t: st1.t.update(a, row), counter: st1.counter + 1, ..st1 };
                if j0 < j {
                    lemma_prods_cover(c, st2, a, j0 + 1, j, k);
                } else {
                    lemma_fir_set_covers(c, p, 0, Set::empty(), k);
                    lemma_prods_keep(c, st2, a, j0 + 1);
                    if let Ok(r) = table_prods(c, st2, a, j0 + 1) {
                        assert forall|e: i32| #[trigger] begins_with(c, c.rules[a][j][k]).contains(e) implies 0
                            <= e - c.count < r.t[a].len() && r.t[a][e - c.count] >= 0 by {
                            assert(s.contains(e));
                            assert(st2.t[a][e - c.count] >= 0);
                        }
                    }
                }
            }
        }
    }
}

/// In the rows from the `i`-th on, the row of rule `a` gets the cells of
/// what the `k`-th symbol of its production `j` can begin with.
proof fn lemma_rows_cover(c: TableCtx, st: TableState, i: int, a: int, j: int, k: int)
    requires
        0 <= i <= a < c.rules.len(),
        st.t.len() == c.rules.len(),
        st.t[a].len() == c.cols,
        0 <= st.counter <= i32::MAX,
        !c.terms.contains(a as i32),
        0 <= j < c.rules[a].len(),
        !(c.nulls.contains(a as i32) && j == 0),
        0 <= k < c.rules[a][j].len(),
        forall|q: int| 0 <= q < k ==> scan_passes(c, #[trigger] c.rules[a][j][q]),
    ensures
        table_rows(c, st, i) matches Ok(r) ==> forall|e: i32|
            #[trigger] begins_with(c, c.rules[a][j][k]).contains(e) ==> 0 <= e - c.count < r.t[a].len()
                && r.t[a][e - c.count] >= 0,
    decreases c.rules.len() - i,
{
    if c.terms.contains(i as i32) {
        lemma_rows_cover(c, st, i + 1, a, j, k);
    } else {
        lemma_follow_keep(c, st, i);
        if let Ok(st1) = table_follow(c, st, i) {
            assert(st1.t[a].len() == st.t[a].len());
            if i < a {
                lemma_prods_keep(c, st1, i, 0);
                if let Ok(st2) = table_prods(c, st1, i, 0) {
                    assert(st2.t[a].len() == st1.t[a].len());
                    lemma_rows_cover(c, st2, i + 1, a, j, k);
                }
            } else {
                lemma_prods_cover(c, st1, a, 0, j, k);
                lemma_prods_keep(c, st1, a, 0);
                if let Ok(st2) = table_prods(c, st1, a, 0) {
                    lemma_rows_keep(c, st2, a + 1);
                    if let Ok(r) = table_rows(c, st2, a + 1) {
                        assert forall|e: i32| #[trigger] begins_with(c, c.rules[a][j][k]).contains(e) implies 0
                            <= e - c.count < r.t[a].len() && r.t[a][e - c.count] >= 0 by {
                            assert(st2.t[a][e - c.count] >= 0);
                        }
                    }
                }
            }
        }
    }
}

/// The cells of a production cover what it can begin with: in the table
/// made for a context whose columns are the terminals but one, for every
/// production of a non-terminal's rule that gets cells (all but the first
/// production of a nullable rule), and every symbol of it reached through
/// nullable symbols only (no terminal other than `Null` before it), every
/// terminal that this symbol can begin with (the terminal itself if it is
/// one other than `Null`, else its FIRST set) has a column in the rule's
/// row, and that cell names a production, not -1.
pub proof fn lemma_table_covers_first(c: TableCtx, nterms: int, a: int, j: int, k: int)
    requires
        c.cols == nterms - 1,
        0 <= a < c.rules.len(),
        !c.terms.contains(a as i32),
        0 <= j < c.rules[a].len(),
        !(c.nulls.contains(a as i32) && j == 0),
        0 <= k < c.rules[a][j].len(),
        forall|q: int| 0 <= q < k ==> scan_passes(c, #[trigger] c.rules[a][j][q]),
    ensures
        table_spec(c, nterms) matches Ok(st) ==> forall|e: i32|
            #[trigger] begins_with(c, c.rules[a][j][k]).contains(e) ==> 0 <= e - c.count < st.t[a].len()
                && st.t[a][e - c.count] >= 0,
{
    if nterms >= 1 {
        let st0 = TableState {
            t: Seq::new(c.rules.len(), |i: int| Seq::new((nterms - 1) as nat, |k: int| -1i32)),
            final_rules: seq![],
            counter: 0,
        };
        lemma_rows_cover(c, st0, 0, a, j, k);
    }
}

/// In the rows from the `i`-th on, the row of the nullable rule `a` gets
/// the cells of its FOLLOW set, `Null` aside.
proof fn lemma_rows_cover_follow(c: TableCtx, st: TableState, i: int, a: int)
    requires
        0 <= i <= a < c.rules.len(),
        st.t.len() == c.rules.len(),
        st.t[a].len() == c.cols,
        0 <= st.counter <= i32::MAX,
        !c.terms.contains(a as i32),
        c.nulls.contains(a as i32),
    ensures
        table_rows(c, st, i) matches Ok(r) ==> forall|e: i32|
            #[trigger] c.follows[a].contains(e) && c.null != Some(e) ==> 0 <= e - c.count < r.t[a].len()
                && r.t[a][e - c.count] >= 0,
    decreases c.rules.len() - i,
{
    if c.terms.contains(i as i32) {
        lemma_rows_cover_follow(c, st, i + 1, a);
    } else {
        lemma_follow_keep(c, st, i);
        if let Ok(st1) = table_follow(c, st, i) {
            assert(st1.t[a].len() == st.t[a].len());
            lemma_prods_keep(c, st1, i, 0);
            if i < a {
                if let Ok(st2) = table_prods(c, st1, i, 0) {
                    assert(st2.t[a].len() == st1.t[a].len());
                    lemma_rows_cover_follow(c, st2, i + 1, a);
                }
            } else {
                let s = match c.null {
                    Some(nl) => c.follows[a].remove(nl),
                    None => c.follows[a],
                };
                lemma_write_keeps(st.t, a, s, c, st.counter as i32);
                if let Ok(st2) = table_prods(c, st1, a, 0) {
                    lemma_rows_keep(c, st2, a + 1);
                    if let Ok(r) = table_rows(c, st2, a + 1) {
                        assert forall|e: i32| #[trigger] c.follows[a].contains(e) && c.null != Some(e) implies 0
                            <= e - c.count < r.t[a].len() && r.t[a][e - c.count] >= 0 by {
                            assert(s.contains(e));
                            assert(st1.t[a][e - c.count] >= 0);
                            assert(st2.t[a][e - c.count] >= 0);
                        }
                    }
                }
            }
        }
    }
}

/// The row of a nullable rule covers its FOLLOW set: in the table made for
/// a context whose columns are the terminals but one, every terminal of the
/// FOLLOW set of a nullable non-terminal, `Null` aside, has a column in the
/// rule's row, and that cell names a production, not -1.
pub proof fn lemma_table_covers_follow(c: TableCtx, nterms: int, a: int)
    requires
        c.cols == nterms - 1,
        0 <= a < c.rules.len(),
        !c.terms.contains(a as i32),
        c.nulls.contains(a as i32),
    ensures
        table_spec(c, nterms) matches Ok(st) ==> forall|e: i32|
            #[trigger] c.follows[a].contains(e) && c.null != Some(e) ==> 0 <= e - c.count < st.t[a].len()
                && st.t[a][e - c.count] >= 0,
{
    if nterms >= 1 {
        let st0 = TableState {
            t: Seq::new(c.rules.len(), |i: int| Seq::new((nterms - 1) as nat, |k: int| -1i32)),
            final_rules: seq![],
            counter: 0,
        };
        lemma_rows_cover_follow(c, st0, 0, a);
    }
}

} // verus!
