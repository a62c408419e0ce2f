//! Loading a grammar: the terminal and non-terminal symbols, one per line,
//! and the production rules, written `A: x y | z;` over one or more lines.
use vstd::prelude::*;
use crate::names::SymbolTable;
use crate::text::{
    chars_of, trim, trim_vec, sub_vec, split, split_vec, string_of, string_of_all, views, is_ws,
    skip_ws, back_ws, lemma_skip_ws_bounds, lemma_back_ws_bounds, lemma_skip_ws_stops,
    lemma_back_ws_stops,
};

verus! {

/// What a symbol of the grammar is.
#[derive(Clone, Copy, Debug, PartialEq, Eq, Structural)]
pub enum SymbolType {
    Terminal,
    NonTerminal,
    StartSymbol,
}

/// A symbol of the grammar: its name and what it is.
pub struct Symbol {
    pub name: String,
    pub tyype: SymbolType,
}

impl View for Symbol {
    type V = (Seq<char>, SymbolType);

    open spec fn view(&self) -> (Seq<char>, SymbolType) {
        (self.name@, self.tyype)
    }
}

/// The views of a sequence of symbols.
pub open spec fn symbol_views(v: Seq<Symbol>) -> Seq<(Seq<char>, SymbolType)> {
    v.map_values(|s: Symbol| s@)
}

/// The texts of a sequence of lines.
pub open spec fn line_texts(v: Seq<String>) -> Seq<Seq<char>> {
    v.map_values(|s: String| s@)
}

/// The first position at or after `i` where `c` occurs in `s`, or `s.len()`.
pub open spec fn index_of(s: Seq<char>, c: char, i: int) -> int
    decreases s.len() - i,
{
    if 0 <= i < s.len() {
        if s[i] == c {
            i
        } else {
            index_of(s, c, i + 1)
        }
    } else {
        s.len() as int
    }
}

pub proof fn lemma_index_of(s: Seq<char>, c: char, i: int)
    requires
        0 <= i <= s.len(),
    ensures
        i <= index_of(s, c, i) <= s.len(),
        index_of(s, c, i) < s.len() ==> s[index_of(s, c, i)] == c,
    decreases s.len() - i,
{
    if i < s.len() && s[i] != c {
        lemma_index_of(s, c, i + 1);
    }
}

/// The first position of `c` in `v`, or `v.len()`.
fn index_of_exec(v: &Vec<char>, c: char) -> (r: usize)
    ensures
        r == index_of(v@, c, 0),
        r <= v@.len(),
{
    let mut i: usize = 0;
    while i < v.len() && v[i] != c
        invariant
            i <= v@.len(),
            index_of(v@, c, i as int) == index_of(v@, c, 0),
        decreases v@.len() - i,
    {
        i = i + 1;
    }
    i
}

/// The number of bytes that `c` takes in UTF-8.
pub open spec fn utf8_len(c: char) -> int {
    if (c as u32) < 0x80 {
        1
    } else if (c as u32) < 0x800 {
        2
    } else if (c as u32) < 0x10000 {
        3
    } else {
        4
    }
}

/// How many characters of `s` from position `k` on fill the first `b`
/// bytes of their UTF-8 text: characters are taken while fewer than `b`
/// bytes have been taken. The answer is a position of `s`.
pub open spec fn chars_in_bytes(s: Seq<char>, b: int, k: int) -> int
    decreases s.len() - k,
{
    if k < 0 || k >= s.len() || b <= 0 {
        k
    } else {
        chars_in_bytes(s, b - utf8_len(s[k]), k + 1)
    }
}

/// Whether the first `b` bytes of the UTF-8 text of `s` from position `k`
/// on end between two characters.
pub open spec fn ends_on_char(s: Seq<char>, b: int, k: int) -> bool
    decreases s.len() - k,
{
    if k < 0 || k >= s.len() || b <= 0 {
        b == 0
    } else {
        ends_on_char(s, b - utf8_len(s[k]), k + 1)
    }
}

/// Where a line of a symbol file is cut: the position of its first `#`,
/// counted in characters, is taken as a count of bytes of the line's UTF-8
/// text, and the line keeps the characters that those bytes hold. With no
/// `#` the whole line is kept.
pub open spec fn cut_at(line: Seq<char>) -> int {
    let h = index_of(line, '#', 0);
    if h >= line.len() {
        line.len() as int
    } else {
        chars_in_bytes(line, h, 0)
    }
}

/// Whether a line of a symbol file can be cut as [`cut_at`] says: it has no
/// `#`, or the count of bytes before which it is cut ends between two
/// characters.
pub open spec fn symbol_line_ok(line: Seq<char>) -> bool {
    let h = index_of(line, '#', 0);
    h >= line.len() || ends_on_char(line, h, 0)
}

/// Whether every line of a symbol file can be cut.
pub open spec fn symbol_lines_ok(lines: Seq<Seq<char>>) -> bool {
    forall|k: int| 0 <= k < lines.len() ==> symbol_line_ok(#[trigger] lines[k])
}

/// The name that a line of a symbol file gives: the text before the cut
/// that [`cut_at`] places, without surrounding whitespace.
pub open spec fn symbol_name(line: Seq<char>) -> Seq<char> {
    trim(line.subrange(0, cut_at(line)))
}

/// [`chars_in_bytes`] answers a position between `k` and the end of `s`.
pub proof fn lemma_chars_in_bytes_bounds(s: Seq<char>, b: int, k: int)
    requires
        0 <= k <= s.len(),
    ensures
        k <= chars_in_bytes(s, b, k) <= s.len(),
    decreases s.len() - k,
{
    if k < s.len() && b > 0 {
        lemma_chars_in_bytes_bounds(s, b - utf8_len(s[k]), k + 1);
    }
}

/// Each character takes one byte or more, so `b` bytes hold at most `b`
/// characters.
pub proof fn lemma_chars_in_bytes_at_most(s: Seq<char>, b: int, k: int)
    requires
        0 <= k <= s.len(),
        b >= 0,
    ensures
        chars_in_bytes(s, b, k) <= k + b,
    decreases s.len() - k,
{
    if k < s.len() && b > 0 {
        if b - utf8_len(s[k]) >= 0 {
            lemma_chars_in_bytes_at_most(s, b - utf8_len(s[k]), k + 1);
        } else {
            assert(chars_in_bytes(s, b - utf8_len(s[k]), k + 1) == k + 1);
        }
    }
}

/// The UTF-8 length of `c`, as `char::len_utf8` gives it.
fn utf8_len_exec(c: char) -> (r: usize)
    ensures
        r == utf8_len(c),
{
    let u = c as u32;
    if u < 0x80 {
        1
    } else if u < 0x800 {
        2
    } else if u < 0x10000 {
        3
    } else {
        4
    }
}

/// Where the line `v` of a symbol file is cut, or `None` when the cut does
/// not fall between two characters.
pub fn symbol_cut(v: &Vec<char>) -> (r: Option<usize>)
    ensures
        r is Some <==> symbol_line_ok(v@),
        r matches Some(c) ==> c == cut_at(v@),
{
    let h = index_of_exec(v, '#');
    if h >= v.len() {
        return Some(v.len());
    }
    let mut rem: usize = h;
    let mut k: usize = 0;
    while k < v.len() && rem > 0
        invariant
            k <= v@.len(),
            rem <= h,
            h < v@.len(),
            h == index_of(v@, '#', 0),
            chars_in_bytes(v@, rem as int, k as int) == chars_in_bytes(v@, h as int, 0),
            ends_on_char(v@, rem as int, k as int) == ends_on_char(v@, h as int, 0),
        decreases v@.len() - k,
    {
        let l = utf8_len_exec(v[k]);
        if l > rem {
            assert(!ends_on_char(v@, rem - l, k + 1));
            return None;
        }
        rem = rem - l;
        k = k + 1;
    }
    if rem == 0 {
        Some(k)
    } else {
        None
    }
}

/// Whether every line of a symbol file can be cut, as [`symbol_lines_ok`]
/// says.
pub fn symbol_lines_readable(lines: &Vec<String>) -> (b: bool)
    ensures
        b == symbol_lines_ok(line_texts(lines@)),
{
    let mut k: usize = 0;
    while k < lines.len()
        invariant
            k <= lines@.len(),
            forall|j: int| 0 <= j < k ==> symbol_line_ok(#[trigger] lines@[j]@),
        decreases lines@.len() - k,
    {
        let cv = chars_of(&lines[k]);
        if symbol_cut(&cv).is_none() {
            assert(!symbol_line_ok(line_texts(lines@)[k as int]));
            return false;
        }
        k = k + 1;
    }
    assert forall|j: int| 0 <= j < line_texts(lines@).len() implies symbol_line_ok(
        #[trigger] line_texts(lines@)[j],
    ) by {
        assert(line_texts(lines@)[j] == lines@[j]@);
    }
    true
}

/// No position before [`index_of`]'s answer holds `c`.
pub proof fn lemma_index_of_before(s: Seq<char>, c: char, i: int)
    requires
        0 <= i <= s.len(),
    ensures
        forall|q: int| i <= q < index_of(s, c, i) ==> s[q] != c,
    decreases s.len() - i,
{
    if i < s.len() && s[i] != c {
        lemma_index_of_before(s, c, i + 1);
    }
}

/// A symbol's name holds no `#`, and neither begins nor ends with
/// whitespace.
pub proof fn lemma_symbol_name_clean(line: Seq<char>)
    ensures
        !symbol_name(line).contains('#'),
        symbol_name(line).len() > 0 ==> !is_ws(symbol_name(line)[0]) && !is_ws(
            symbol_name(line).last(),
        ),
{
    lemma_index_of(line, '#', 0);
    lemma_index_of_before(line, '#', 0);
    let h = index_of(line, '#', 0);
    if h < line.len() {
        lemma_chars_in_bytes_at_most(line, h, 0);
        lemma_chars_in_bytes_bounds(line, h, 0);
    }
    let x = line.subrange(0, cut_at(line));
    let lo = skip_ws(x, 0);
    lemma_skip_ws_bounds(x, 0);
    lemma_skip_ws_stops(x, 0);
    let hi = back_ws(x, lo, x.len() as int);
    lemma_back_ws_bounds(x, lo, x.len() as int);
    lemma_back_ws_stops(x, lo, x.len() as int);
    let n = symbol_name(line);
    assert(n == x.subrange(lo, hi));
    if n.contains('#') {
        let q = choose|q: int| 0 <= q < n.len() && n[q] == '#';
        assert(x[lo + q] == '#');
        assert(line[lo + q] == '#');
    }
}

/// Appends to `T` one symbol of kind `ver` for each of `lines`, named as
/// [`symbol_name`] says.
#[allow(non_snake_case)]
pub fn load_symbols(lines: &Vec<String>, T: &mut Vec<Symbol>, ver: SymbolType)
    requires
        symbol_lines_ok(line_texts(lines@)),
    ensures
        final(T)@.len() == old(T)@.len() + lines@.len(),
        forall|i: int| 0 <= i < old(T)@.len() ==> #[trigger] final(T)@[i] == old(T)@[i],
        forall|k: int|
            0 <= k < lines@.len() ==> (#[trigger] final(T)@[old(T)@.len() + k]).name@
                == symbol_name(lines@[k]@) && final(T)@[old(T)@.len() + k].tyype == ver,
{
    let mut k: usize = 0;
    while k < lines.len()
        invariant
            k <= lines@.len(),
            symbol_lines_ok(line_texts(lines@)),
            T@.len() == old(T)@.len() + k,
            forall|i: int| 0 <= i < old(T)@.len() ==> #[trigger] T@[i] == old(T)@[i],
            forall|j: int|
                0 <= j < k ==> (#[trigger] T@[old(T)@.len() + j]).name@ == symbol_name(
                    lines@[j]@,
                ) && T@[old(T)@.len() + j].tyype == ver,
        decreases lines@.len() - k,
    {
        let cv = chars_of(&lines[k]);
        assert(symbol_line_ok(line_texts(lines@)[k as int]));
        let h = match symbol_cut(&cv) {
            Some(h) => h,
            None => 0,
        };
        proof {
            lemma_chars_in_bytes_bounds(cv@, index_of(cv@, '#', 0), 0);
        }
        let before = sub_vec(&cv, 0, h);
        let name = string_of_all(&trim_vec(&before));
        T.push(Symbol { name, tyype: ver });
        k = k + 1;
    }
}

/// Whether a trimmed line of the rule file is left out: empty, or a comment.
pub open spec fn skipped_line(t: Seq<char>) -> bool {
    t.len() == 0 || (t.len() >= 2 && t[0] == '/' && t[1] == '/')
}

/// The statements of the rule file from line `i` on, where `cur` holds what
/// was read of the current statement: lines are trimmed, empty and comment
/// lines are left out, and a statement ends with a line that ends with `;`.
pub open spec fn statements_from(lines: Seq<Seq<char>>, i: int, cur: Seq<char>) -> Seq<Seq<char>>
    decreases lines.len() - i,
{
    if i >= lines.len() || i < 0 {
        seq![]
    } else {
        let t = trim(lines[i]);
        if skipped_line(t) {
            statements_from(lines, i + 1, cur)
        } else if t.last() == ';' {
            seq![cur + t] + statements_from(lines, i + 1, seq![])
        } else {
            statements_from(lines, i + 1, cur + t)
        }
    }
}

/// The statements of the rule file.
pub open spec fn statements(lines: Seq<Seq<char>>) -> Seq<Seq<char>> {
    statements_from(lines, 0, seq![])
}

/// Whether a trimmed statement has a `:`.
pub open spec fn has_colon(q: Seq<char>) -> bool {
    index_of(q, ':', 0) < q.len()
}

/// The left-hand side of a trimmed statement: the text before its first
/// `:`, or empty when it has none.
pub open spec fn stmt_lhs(q: Seq<char>) -> Seq<char> {
    if has_colon(q) {
        q.subrange(0, index_of(q, ':', 0))
    } else {
        seq![]
    }
}

/// The right-hand side of a trimmed statement: the text after its first
/// `:`; when it has none, everything but its first character.
pub open spec fn stmt_rest(q: Seq<char>) -> Seq<char> {
    if has_colon(q) {
        q.subrange(index_of(q, ':', 0) + 1, q.len() as int)
    } else {
        q.subrange(1, q.len() as int)
    }
}

/// A token of an alternative, without its quotes and final `;`: one leading
/// `'` goes, then a final `';`, then a final `'`, then a final `;`.
pub open spec fn strip_token(t: Seq<char>) -> Seq<char> {
    let t1 = if t.len() >= 1 && t[0] == '\'' {
        t.subrange(1, t.len() as int)
    } else {
        t
    };
    let t2 = if t1.len() >= 2 && t1[t1.len() - 2] == '\'' && t1[t1.len() - 1] == ';' {
        t1.subrange(0, t1.len() - 2)
    } else {
        t1
    };
    let t3 = if t2.len() >= 1 && t2[t2.len() - 1] == '\'' {
        t2.subrange(0, t2.len() - 1)
    } else {
        t2
    };
    if t3.len() >= 1 && t3[t3.len() - 1] == ';' {
        t3.subrange(0, t3.len() - 1)
    } else {
        t3
    }
}

/// The tokens of one alternative: it is trimmed and split at each space.
pub open spec fn alt_tokens(a: Seq<char>) -> Seq<Seq<char>> {
    split(trim(a), ' ').map_values(|t: Seq<char>| strip_token(t))
}

/// The alternatives of a trimmed statement, as token names: its right-hand
/// side split at each `|`.
pub open spec fn stmt_alts(q: Seq<char>) -> Seq<Seq<Seq<char>>> {
    split(stmt_rest(q), '|').map_values(|a: Seq<char>| alt_tokens(a))
}

/// Whether a statement can be loaded with the symbol table `m` into a rule
/// list of `nrules` entries: the statement is not empty, it has a `:` or
/// begins with a one-byte character, its left-hand side names a rule, and
/// every token names a symbol.
pub open spec fn stmt_loadable(q0: Seq<char>, m: Map<Seq<char>, i32>, nrules: int) -> bool {
    let q = trim(q0);
    &&& q.len() > 0
    &&& has_colon(q) || (q[0] as u32) < 128
    &&& m.contains_key(stmt_lhs(q))
    &&& 0 <= m[stmt_lhs(q)] < nrules
    &&& forall|a: int, b: int|
        0 <= a < stmt_alts(q).len() && 0 <= b < stmt_alts(q)[a].len() ==> m.contains_key(
            #[trigger] stmt_alts(q)[a][b],
        )
}

/// Whether every statement of the rule file can be loaded.
pub open spec fn rules_loadable(lines: Seq<Seq<char>>, m: Map<Seq<char>, i32>, nrules: int) -> bool {
    forall|k: int|
        0 <= k < statements(lines).len() ==> stmt_loadable(#[trigger] statements(lines)[k], m, nrules)
}

/// The symbol numbers of a sequence of token names.
pub open spec fn resolve(m: Map<Seq<char>, i32>, toks: Seq<Seq<char>>) -> Seq<i32> {
    toks.map_values(|t: Seq<char>| m[t])
}

/// The productions that a statement adds, as symbol numbers.
pub open spec fn stmt_productions(q: Seq<char>, m: Map<Seq<char>, i32>) -> Seq<Seq<i32>> {
    stmt_alts(q).map_values(|toks: Seq<Seq<char>>| resolve(m, toks))
}

/// The rules after one statement is loaded: its productions are appended to
/// the rule of its left-hand side.
pub open spec fn apply_stmt(rules: Seq<Seq<Seq<i32>>>, m: Map<Seq<char>, i32>, q0: Seq<char>) -> Seq<
    Seq<Seq<i32>>,
> {
    let q = trim(q0);
    let ix = m[stmt_lhs(q)] as int;
    rules.update(ix, rules[ix] + stmt_productions(q, m))
}

/// The rules after the statements `stmts` are loaded in order.
pub open spec fn load_stmts(rules: Seq<Seq<Seq<i32>>>, m: Map<Seq<char>, i32>, stmts: Seq<Seq<char>>) -> Seq<
    Seq<Seq<i32>>,
>
    decreases stmts.len(),
{
    if stmts.len() == 0 {
        rules
    } else {
        load_stmts(apply_stmt(rules, m, stmts[0]), m, stmts.drop_first())
    }
}

/// The view of a rule list: for each rule its productions, for each
/// production its symbol numbers.
pub open spec fn rules_view(r: Seq<Vec<Vec<i32>>>) -> Seq<Seq<Seq<i32>>> {
    r.map_values(|x: Vec<Vec<i32>>| x@.map_values(|p: Vec<i32>| p@))
}

/// The statements of the rule file, trimmed lines joined up to each `;`.
fn statements_exec(lines: &Vec<String>) -> (r: Vec<Vec<char>>)
    ensures
        views(r@) == statements(line_texts(lines@)),
{
    let ghost ls = line_texts(lines@);
    let mut r: Vec<Vec<char>> = Vec::new();
    let mut cur: Vec<char> = Vec::new();
    let mut i: usize = 0;
    while i < lines.len()
        invariant
            i <= lines@.len(),
            ls == line_texts(lines@),
            views(r@) + statements_from(ls, i as int, cur@) == statements(ls),
        decreases lines@.len() - i,
    {
        let t = trim_vec(&chars_of(&lines[i]));
        assert(t@ == trim(ls[i as int]));
        let skip = t.len() == 0 || (t.len() >= 2 && t[0] == '/' && t[1] == '/');
        if !skip {
            let mut j: usize = 0;
            let ghost cur0 = cur@;
            while j < t.len()
                invariant
                    j <= t@.len(),
                    cur@ == cur0 + t@.subrange(0, j as int),
                decreases t@.len() - j,
            {
                cur.push(t[j]);
                j = j + 1;
            }
            assert(t@.subrange(0, t@.len() as int) =~= t@);
            if t[t.len() - 1] == ';' {
                let ghost old_r = views(r@);
                r.push(cur);
                cur = Vec::new();
                assert(views(r@) =~= old_r.push(cur0 + t@));
                assert(views(r@) + statements_from(ls, i + 1, cur@) =~= old_r + (seq![cur0 + t@]
                    + statements_from(ls, i + 1, seq![])));
            }
        }
        i = i + 1;
    }
    assert(views(r@) + seq![] =~= views(r@));
    r
}

/// A token with its quotes and final `;` taken off, as [`strip_token`] says.
#[verifier::spinoff_prover]
#[verifier::rlimit(30)]
fn strip_token_exec(t: &Vec<char>) -> (r: Vec<char>)
    ensures
        r@ == strip_token(t@),
{
    let t1 = if t.len() >= 1 && t[0] == '\'' {
        sub_vec(t, 1, t.len())
    } else {
        sub_vec(t, 0, t.len())
    };
    let t2 = if t1.len() >= 2 && t1[t1.len() - 2] == '\'' && t1[t1.len() - 1] == ';' {
        sub_vec(&t1, 0, t1.len() - 2)
    } else {
        sub_vec(&t1, 0, t1.len())
    };
    let t3 = if t2.len() >= 1 && t2[t2.len() - 1] == '\'' {
        sub_vec(&t2, 0, t2.len() - 1)
    } else {
        sub_vec(&t2, 0, t2.len())
    };
    let t4 = if t3.len() >= 1 && t3[t3.len() - 1] == ';' {
        sub_vec(&t3, 0, t3.len() - 1)
    } else {
        sub_vec(&t3, 0, t3.len())
    };
    assert(t@.subrange(0, t@.len() as int) =~= t@);
    assert(t1@.subrange(0, t1@.len() as int) =~= t1@);
    assert(t2@.subrange(0, t2@.len() as int) =~= t2@);
    assert(t3@.subrange(0, t3@.len() as int) =~= t3@);
    t4
}

/// A trimmed statement taken apart: its left-hand side and, for each
/// alternative, its token names.
fn parse_statement(q: &Vec<char>) -> (r: (String, Vec<Vec<String>>))
    requires
        q@.len() > 0,
    ensures
        r.0@ == stmt_lhs(q@),
        r.1@.len() == stmt_alts(q@).len(),
        forall|a: int|
            0 <= a < r.1@.len() ==> line_texts((#[trigger] r.1@[a])@) == stmt_alts(q@)[a],
{
    let c = index_of_exec(q, ':');
    proof {
        crate::grammar::lemma_index_of(q@, ':', 0);
    }
    let lhs = if c < q.len() {
        string_of(q, 0, c)
    } else {
        string_of(q, 0, 0)
    };
    let rest = if c < q.len() {
        sub_vec(q, c + 1, q.len())
    } else {
        sub_vec(q, 1, q.len())
    };
    let parts = split_vec(&rest, '|');
    let mut alts: Vec<Vec<String>> = Vec::new();
    let mut a: usize = 0;
    while a < parts.len()
        invariant
            a <= parts@.len(),
            rest@ == stmt_rest(q@),
            views(parts@) == split(rest@, '|'),
            alts@.len() == a,
            forall|x: int|
                0 <= x < a ==> line_texts((#[trigger] alts@[x])@) == stmt_alts(q@)[x],
        decreases parts@.len() - a,
    {
        assert(parts@[a as int]@ == views(parts@)[a as int]);
        let words = split_vec(&trim_vec(&parts[a]), ' ');
        let mut toks: Vec<String> = Vec::new();
        let mut b: usize = 0;
        while b < words.len()
            invariant
                b <= words@.len(),
                views(words@) == split(trim(parts@[a as int]@), ' '),
                toks@.len() == b,
                forall|y: int|
                    0 <= y < b ==> (#[trigger] toks@[y])@ == strip_token(views(words@)[y]),
            decreases words@.len() - b,
        {
            assert(words@[b as int]@ == views(words@)[b as int]);
            let t = strip_token_exec(&words[b]);
            toks.push(string_of_all(&t));
            b = b + 1;
        }
        assert(line_texts(toks@) =~= alt_tokens(views(parts@)[a as int]));
        alts.push(toks);
        a = a + 1;
    }
    (lhs, alts)
}

/// Whether every statement of the rule file `lines` can be loaded with the
/// symbol table `map` into a rule list of `nrules` entries.
pub fn check_production_rules(lines: &Vec<String>, map: &SymbolTable, nrules: usize) -> (b: bool)
    ensures
        b == rules_loadable(line_texts(lines@), map@, nrules as int),
{
    let stmts = statements_exec(lines);
    let ghost ss = statements(line_texts(lines@));
    let mut k: usize = 0;
    while k < stmts.len()
        invariant
            k <= stmts@.len(),
            views(stmts@) == ss,
            ss == statements(line_texts(lines@)),
            forall|j: int| 0 <= j < k ==> stmt_loadable(#[trigger] ss[j], map@, nrules as int),
        decreases stmts@.len() - k,
    {
        assert(stmts@[k as int]@ == ss[k as int]);
        let q = trim_vec(&stmts[k]);
        if q.len() == 0 {
            return false;
        }
        let c = index_of_exec(&q, ':');
        if !(c < q.len() || (q[0] as u32) < 128) {
            return false;
        }
        let (lhs, alts) = parse_statement(&q);
        match map.get(&lhs) {
            None => {
                return false;
            },
            Some(ix) => {
                if ix < 0 || ix as usize >= nrules {
                    return false;
                }
            },
        }
        let mut a: usize = 0;
        while a < alts.len()
            invariant
                a <= alts@.len(),
                k < ss.len(),
                ss == statements(line_texts(lines@)),
                q@ == trim(ss[k as int]),
                alts@.len() == stmt_alts(q@).len(),
                forall|x: int|
                    0 <= x < alts@.len() ==> line_texts((#[trigger] alts@[x])@) == stmt_alts(
                        q@,
                    )[x],
                forall|x: int, y: int|
                    0 <= x < a && 0 <= y < stmt_alts(q@)[x].len() ==> map@.contains_key(
                        #[trigger] stmt_alts(q@)[x][y],
                    ),
            decreases alts@.len() - a,
        {
            let mut b: usize = 0;
            assert(line_texts(alts@[a as int]@) == stmt_alts(q@)[a as int]);
            while b < alts[a].len()
                invariant
                    a < alts@.len(),
                    alts@.len() == stmt_alts(q@).len(),
                    k < ss.len(),
                    ss == statements(line_texts(lines@)),
                    q@ == trim(ss[k as int]),
                    b <= alts@[a as int]@.len(),
                    line_texts(alts@[a as int]@) == stmt_alts(q@)[a as int],
                    forall|y: int|
                        0 <= y < b ==> map@.contains_key(#[trigger] stmt_alts(q@)[a as int][y]),
                decreases alts@[a as int]@.len() - b,
            {
                assert(alts@[a as int]@[b as int]@ == stmt_alts(q@)[a as int][b as int]);
                if map.get(&alts[a][b]).is_none() {
                    assert(!map@.contains_key(stmt_alts(q@)[a as int][b as int]));
                    assert(line_texts(alts@[a as int]@).len() == alts@[a as int]@.len());
                    assert((b as int) < stmt_alts(q@)[a as int].len());
                    assert((a as int) < stmt_alts(q@).len());
                    assert(trim(ss[k as int]) == q@);
                    assert(!stmt_loadable(ss[k as int], map@, nrules as int));
                    return false;
                }
                b = b + 1;
            }
            a = a + 1;
        }
        k = k + 1;
    }
    true
}

/// Loads the production rules of the rule file `lines`: each statement
/// appends its alternatives, as symbol numbers, to the rule of its
/// left-hand side.
#[allow(non_snake_case)]
pub fn load_Production_Rules(lines: &Vec<String>, map: &SymbolTable, rules: &mut Vec<Vec<Vec<i32>>>)
    requires
        rules_loadable(line_texts(lines@), map@, old(rules)@.len() as int),
    ensures
        rules_view(final(rules)@) == load_stmts(
            rules_view(old(rules)@),
            map@,
            statements(line_texts(lines@)),
        ),
{
    let stmts = statements_exec(lines);
    let ghost ss = statements(line_texts(lines@));
    let ghost m = map@;
    let ghost nrules = old(rules)@.len() as int;
    let ghost target = load_stmts(rules_view(old(rules)@), m, ss);
    let mut k: usize = 0;
    assert(ss.skip(0) =~= ss);
    while k < stmts.len()
        invariant
            k <= stmts@.len(),
            views(stmts@) == ss,
            ss == statements(line_texts(lines@)),
            m == map@,
            rules@.len() == nrules,
            rules_loadable(line_texts(lines@), m, nrules),
            load_stmts(rules_view(rules@), m, ss.skip(k as int)) == target,
        decreases stmts@.len() - k,
    {
        assert(stmts@[k as int]@ == ss[k as int]);
        assert(stmt_loadable(ss[k as int], m, nrules));
        let q = trim_vec(&stmts[k]);
        let (lhs, alts) = parse_statement(&q);
        let ix = match map.get(&lhs) {
            Some(v) => v as usize,
            None => 0,
        };
        let ghost before = rules_view(rules@);
        let ghost prods = stmt_productions(q@, m);
        let mut a: usize = 0;
        while a < alts.len()
            invariant
                a <= alts@.len(),
                alts@.len() == stmt_alts(q@).len(),
                forall|x: int|
                    0 <= x < alts@.len() ==> line_texts((#[trigger] alts@[x])@) == stmt_alts(
                        q@,
                    )[x],
                m == map@,
                q@ == trim(ss[k as int]),
                stmt_loadable(ss[k as int], m, nrules),
                ix == m[stmt_lhs(q@)],
                0 <= ix < nrules,
                rules@.len() == nrules,
                before.len() == nrules,
                prods == stmt_productions(q@, m),
                rules_view(rules@) == before.update(
                    ix as int,
                    before[ix as int] + prods.take(a as int),
                ),
            decreases alts@.len() - a,
        {
            let mut temp: Vec<i32> = Vec::new();
            let mut b: usize = 0;
            assert(line_texts(alts@[a as int]@) == stmt_alts(q@)[a as int]);
            while b < alts[a].len()
                invariant
                    a < alts@.len(),
                    alts@.len() == stmt_alts(q@).len(),
                    b <= alts@[a as int]@.len(),
                    line_texts(alts@[a as int]@) == stmt_alts(q@)[a as int],
                    m == map@,
                    q@ == trim(ss[k as int]),
                    stmt_loadable(ss[k as int], m, nrules),
                    temp@ == resolve(m, stmt_alts(q@)[a as int]).take(b as int),
                decreases alts@[a as int]@.len() - b,
            {
                assert(alts@[a as int]@[b as int]@ == stmt_alts(q@)[a as int][b as int]);
                assert(m.contains_key(stmt_alts(q@)[a as int][b as int]));
                let id = match map.get(&alts[a][b]) {
                    Some(v) => v,
                    None => 0,
                };
                temp.push(id);
                b = b + 1;
                assert(temp@ =~= resolve(m, stmt_alts(q@)[a as int]).take(b as int));
            }
            assert(temp@ =~= prods[a as int]);
            let ghost r0 = rules_view(rules@);
            let ghost rv0 = rules@;
            let ghost tv = temp@;
            rules[ix].push(temp);
            assert(rules@.len() == rv0.len());
            assert(forall|i: int| 0 <= i < rv0.len() && i != ix ==> rules@[i] == rv0[i]);
            assert(rules_view(rules@)[ix as int] =~= r0[ix as int].push(tv));
            assert(rules_view(rules@) =~= r0.update(ix as int, r0[ix as int].push(prods[a as int])));
            a = a + 1;
            assert(before[ix as int] + prods.take(a as int) =~= (before[ix as int] + prods.take(
                (a - 1) as int,
            )).push(prods[(a - 1) as int]));
            assert(rules_view(rules@) =~= before.update(
                ix as int,
                before[ix as int] + prods.take(a as int),
            ));
        }
        assert(prods.take(prods.len() as int) =~= prods);
        assert(rules_view(rules@) == apply_stmt(before, m, ss[k as int]));
        assert(ss.skip(k as int).drop_first() =~= ss.skip(k + 1));
        k = k + 1;
    }
}

} // verus!
