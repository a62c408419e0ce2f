//! The lexer for the source text that the parser reads: numbers, string and
//! character literals, identifiers, and the keywords and operators that the
//! grammar's symbolic terminal file lists.
use vstd::prelude::*;
use crate::names::{KeywordTable, texts, find_key, assoc};
use crate::text::{chars_of, string_of};

verus! {

/// One token of the source text: the text it was read from and its kind,
/// which is a terminal's name.
pub struct Token {
    pub val: String,
    pub kind: String,
}

impl View for Token {
    type V = (Seq<char>, Seq<char>);

    open spec fn view(&self) -> (Seq<char>, Seq<char>) {
        (self.val@, self.kind@)
    }
}

/// Why the lexer cannot go on.
#[derive(Debug, PartialEq, Eq, Structural)]
pub enum LexError {
    /// A `'` that is not followed by one character and a closing `'`.
    BadCharLiteral,
    /// A word that starts with a lower-case letter, is no keyword, and runs
    /// to the end of the text.
    WordAtEnd,
}

pub open spec fn is_digit(c: char) -> bool {
    '0' <= c <= '9'
}

pub open spec fn is_upper(c: char) -> bool {
    'A' <= c <= 'Z'
}

pub open spec fn is_lower(c: char) -> bool {
    'a' <= c <= 'z'
}

/// Letters and the underscore.
pub open spec fn is_letter(c: char) -> bool {
    is_lower(c) || is_upper(c) || c == '_'
}

/// The characters that separate tokens and are dropped.
pub open spec fn is_ignored(c: char) -> bool {
    c == ' ' || c == '\t' || c == '\n' || c == '\r' || c == '\x0B' || c == '\x0C'
}

/// End of a number that continues at `i`: digits, and at most one `.` in
/// all (`seen_point` tells whether one was read already).
pub open spec fn number_end(cv: Seq<char>, i: int, seen_point: bool) -> int
    decreases cv.len() - i,
{
    if 0 <= i < cv.len() {
        if is_digit(cv[i]) {
            number_end(cv, i + 1, seen_point)
        } else if cv[i] == '.' && !seen_point {
            number_end(cv, i + 1, true)
        } else {
            i
        }
    } else {
        i
    }
}

/// End of a string literal whose body continues at `i`: just past the
/// closing `"`, or the end of the text.
pub open spec fn string_end(cv: Seq<char>, i: int) -> int
    decreases cv.len() - i,
{
    if 0 <= i < cv.len() {
        if cv[i] == '"' {
            i + 1
        } else {
            string_end(cv, i + 1)
        }
    } else {
        i
    }
}

/// End of a run of letters and digits that continues at `i`.
pub open spec fn word_end(cv: Seq<char>, i: int) -> int
    decreases cv.len() - i,
{
    if 0 <= i < cv.len() && (is_letter(cv[i]) || is_digit(cv[i])) {
        word_end(cv, i + 1)
    } else {
        i
    }
}

/// End of a run of lower-case letters that continues at `i`.
pub open spec fn lower_end(cv: Seq<char>, i: int) -> int
    decreases cv.len() - i,
{
    if 0 <= i < cv.len() && is_lower(cv[i]) {
        lower_end(cv, i + 1)
    } else {
        i
    }
}

/// The largest `t` in `s + 1 ..= tr` such that `cv[s..t]` is a keyword.
pub open spec fn last_keyword_end(cv: Seq<char>, ks: Seq<Seq<char>>, s: int, tr: int) -> Option<
    int,
>
    decreases tr - s,
{
    if tr <= s {
        None
    } else if ks.contains(cv.subrange(s, tr)) {
        Some(tr)
    } else {
        last_keyword_end(cv, ks, s, tr - 1)
    }
}

/// How far an operator that starts at `s` reaches: the scan grows `cv[s..tr]`
/// while it is a keyword and stops one short of the first prefix that is
/// not; it ends at `cv.len() + 1` when every prefix up to the end is one.
pub open spec fn symbol_end(cv: Seq<char>, ks: Seq<Seq<char>>, s: int, tr: int) -> int
    decreases cv.len() + 1 - tr,
{
    if tr <= cv.len() {
        if ks.contains(cv.subrange(s, tr)) {
            symbol_end(cv, ks, s, tr + 1)
        } else {
            tr - 1
        }
    } else {
        tr
    }
}

/// The kind of a keyword's text: what the keyword table says, else `Unknown`.
pub open spec fn kind_of(km: Map<Seq<char>, Seq<char>>, w: Seq<char>) -> Seq<char> {
    if km.contains_key(w) {
        km[w]
    } else {
        "Unknown"@
    }
}

/// `r` with the tokens `acc` put in front.
pub open spec fn prepend_all(acc: Seq<(Seq<char>, Seq<char>)>, r: Result<
    Seq<(Seq<char>, Seq<char>)>,
    LexError,
>) -> Result<Seq<(Seq<char>, Seq<char>)>, LexError> {
    match r {
        Ok(v) => Ok(acc + v),
        Err(e) => Err(e),
    }
}

pub proof fn lemma_number_end(cv: Seq<char>, i: int, p: bool)
    requires
        0 <= i,
    ensures
        i <= number_end(cv, i, p),
        i <= cv.len() ==> number_end(cv, i, p) <= cv.len(),
    decreases cv.len() - i,
{
    if 0 <= i < cv.len() {
        if is_digit(cv[i]) {
            lemma_number_end(cv, i + 1, p);
        } else if cv[i] == '.' && !p {
            lemma_number_end(cv, i + 1, true);
        }
    }
}

pub proof fn lemma_string_end(cv: Seq<char>, i: int)
    requires
        0 <= i,
    ensures
        i <= string_end(cv, i),
        i <= cv.len() ==> string_end(cv, i) <= cv.len(),
    decreases cv.len() - i,
{
    if 0 <= i < cv.len() && cv[i] != '"' {
        lemma_string_end(cv, i + 1);
    }
}

pub proof fn lemma_word_end(cv: Seq<char>, i: int)
    requires
        0 <= i,
    ensures
        i <= word_end(cv, i),
        i <= cv.len() ==> word_end(cv, i) <= cv.len(),
    decreases cv.len() - i,
{
    if 0 <= i < cv.len() && (is_letter(cv[i]) || is_digit(cv[i])) {
        lemma_word_end(cv, i + 1);
    }
}

pub proof fn lemma_lower_end(cv: Seq<char>, i: int)
    requires
        0 <= i,
    ensures
        i <= lower_end(cv, i),
        i <= cv.len() ==> lower_end(cv, i) <= cv.len(),
    decreases cv.len() - i,
{
    if 0 <= i < cv.len() && is_lower(cv[i]) {
        lemma_lower_end(cv, i + 1);
    }
}

pub proof fn lemma_last_keyword_end(cv: Seq<char>, ks: Seq<Seq<char>>, s: int, tr: int)
    ensures
        last_keyword_end(cv, ks, s, tr) matches Some(f) ==> s < f <= tr,
    decreases tr - s,
{
    if tr > s && !ks.contains(cv.subrange(s, tr)) {
        lemma_last_keyword_end(cv, ks, s, tr - 1);
    }
}

pub proof fn lemma_symbol_end(cv: Seq<char>, ks: Seq<Seq<char>>, s: int, tr: int)
    requires
        s < tr,
    ensures
        tr - 1 <= symbol_end(cv, ks, s, tr),
        tr <= cv.len() + 1 ==> symbol_end(cv, ks, s, tr) <= cv.len() + 1,
    decreases cv.len() + 1 - tr,
{
    if tr <= cv.len() && ks.contains(cv.subrange(s, tr)) {
        lemma_symbol_end(cv, ks, s, tr + 1);
    }
}

/// The tokens of `cv[s..]`, or why the lexer stops.
pub open spec fn lex_from(
    cv: Seq<char>,
    ks: Seq<Seq<char>>,
    km: Map<Seq<char>, Seq<char>>,
    s: int,
) -> Result<Seq<(Seq<char>, Seq<char>)>, LexError>
    decreases cv.len() - s,
{
    if s >= cv.len() || s < 0 {
        Ok(seq![])
    } else {
        let c = cv[s];
        if is_ignored(c) {
            lex_from(cv, ks, km, s + 1)
        } else if is_digit(c) {
            let e = number_end(cv, s, false);
            proof {
                lemma_number_end(cv, s + 1, false);
            }
            prepend_all(seq![(cv.subrange(s, e), "CONSTANT"@)], lex_from(cv, ks, km, e))
        } else if c == '"' {
            let e = string_end(cv, s + 1);
            proof {
                lemma_string_end(cv, s + 1);
            }
            prepend_all(seq![(cv.subrange(s, e), "STRING_LITERAL"@)], lex_from(cv, ks, km, e))
        } else if c == '\'' {
            if cv.len() - s > 2 && cv[s + 2] == '\'' {
                prepend_all(
                    seq![(cv.subrange(s, s + 3), "STRING_LITERAL"@)],
                    lex_from(cv, ks, km, s + 3),
                )
            } else {
                Err(LexError::BadCharLiteral)
            }
        } else if is_letter(c) {
            if is_upper(c) || c == '_' {
                let e = word_end(cv, s + 1);
                proof {
                    lemma_word_end(cv, s + 1);
                }
                prepend_all(seq![(cv.subrange(s, e), "IDENTIFIER"@)], lex_from(cv, ks, km, e))
            } else {
                let end = lower_end(cv, s + 1);
                proof {
                    lemma_lower_end(cv, s + 1);
                    lemma_last_keyword_end(cv, ks, s, end);
                }
                match last_keyword_end(cv, ks, s, end) {
                    Some(f) => {
                        prepend_all(
                            seq![(cv.subrange(s, end), kind_of(km, cv.subrange(s, end)))],
                            lex_from(cv, ks, km, f),
                        )
                    },
                    None => {
                        let e = word_end(cv, s + 1);
                        proof {
                            lemma_word_end(cv, s + 1);
                        }
                        if e >= cv.len() {
                            Err(LexError::WordAtEnd)
                        } else {
                            prepend_all(
                                seq![(cv.subrange(s, e), "IDENTIFIER"@)],
                                lex_from(cv, ks, km, e),
                            )
                        }
                    },
                }
            }
        } else {
            let r = symbol_end(cv, ks, s, s + 1);
            proof {
                lemma_symbol_end(cv, ks, s, s + 1);
            }
            if r <= s {
                lex_from(cv, ks, km, s + 1)
            } else if r <= cv.len() {
                prepend_all(
                    seq![(cv.subrange(s, r), kind_of(km, cv.subrange(s, r)))],
                    lex_from(cv, ks, km, r),
                )
            } else {
                Ok(
                    seq![
                        (
                            cv.subrange(s, cv.len() as int),
                            kind_of(km, cv.subrange(s, cv.len() as int)),
                        ),
                    ],
                )
            }
        }
    }
}

/// The tokens of the text `cv`, given the keywords `ks` and the keyword
/// table `km`, or why the lexer stops.
pub open spec fn lex_spec(cv: Seq<char>, ks: Seq<Seq<char>>, km: Map<Seq<char>, Seq<char>>) -> Result<
    Seq<(Seq<char>, Seq<char>)>,
    LexError,
> {
    lex_from(cv, ks, km, 0)
}

/// Whether `k` is a kind that the lexer gives: `CONSTANT`,
/// `STRING_LITERAL`, `IDENTIFIER`, `Unknown`, or a kind of the keyword
/// table.
pub open spec fn known_kind(km: Map<Seq<char>, Seq<char>>, k: Seq<char>) -> bool {
    ||| k == "CONSTANT"@
    ||| k == "STRING_LITERAL"@
    ||| k == "IDENTIFIER"@
    ||| k == "Unknown"@
    ||| exists|w: Seq<char>| km.contains_key(w) && km[w] == k
}

/// Whether every token has some text and a kind that the lexer gives.
pub open spec fn tokens_ok(toks: Seq<(Seq<char>, Seq<char>)>, km: Map<Seq<char>, Seq<char>>) -> bool {
    forall|i: int|
        0 <= i < toks.len() ==> (#[trigger] toks[i]).0.len() > 0 && known_kind(km, toks[i].1)
}

/// Putting a good token in front of good tokens gives good tokens.
proof fn lemma_prepend_ok(
    t: (Seq<char>, Seq<char>),
    r: Result<Seq<(Seq<char>, Seq<char>)>, LexError>,
    km: Map<Seq<char>, Seq<char>>,
)
    requires
        t.0.len() > 0,
        known_kind(km, t.1),
        r matches Ok(v) ==> tokens_ok(v, km),
    ensures
        prepend_all(seq![t], r) matches Ok(v) ==> tokens_ok(v, km),
{
    if let Ok(v) = r {
        let w = seq![t] + v;
        assert forall|i: int| 0 <= i < w.len() implies (#[trigger] w[i]).0.len() > 0 && known_kind(
            km,
            w[i].1,
        ) by {
            if i > 0 {
                assert(w[i] == v[i - 1]);
            }
        }
    }
}

/// A kind from [`kind_of`] is one that the lexer gives.
proof fn lemma_kind_of_known(km: Map<Seq<char>, Seq<char>>, w: Seq<char>)
    ensures
        known_kind(km, kind_of(km, w)),
{
    if km.contains_key(w) {
        assert(km.contains_key(w) && km[w] == kind_of(km, w));
    }
}

/// The tokens of `cv[s..]` have text, and kinds that the lexer gives.
pub proof fn lemma_lex_from_ok(cv: Seq<char>, ks: Seq<Seq<char>>, km: Map<Seq<char>, Seq<char>>, s: int)
    ensures
        lex_from(cv, ks, km, s) matches Ok(v) ==> tokens_ok(v, km),
    decreases cv.len() - s,
{
    if !(s >= cv.len() || s < 0) {
        let c = cv[s];
        if is_ignored(c) {
            lemma_lex_from_ok(cv, ks, km, s + 1);
        } else if is_digit(c) {
            let e = number_end(cv, s, false);
            lemma_number_end(cv, s + 1, false);
            lemma_lex_from_ok(cv, ks, km, e);
            lemma_prepend_ok((cv.subrange(s, e), "CONSTANT"@), lex_from(cv, ks, km, e), km);
        } else if c == '"' {
            let e = string_end(cv, s + 1);
            lemma_string_end(cv, s + 1);
            lemma_lex_from_ok(cv, ks, km, e);
            lemma_prepend_ok((cv.subrange(s, e), "STRING_LITERAL"@), lex_from(cv, ks, km, e), km);
        } else if c == '\'' {
            if cv.len() - s > 2 && cv[s + 2] == '\'' {
                lemma_lex_from_ok(cv, ks, km, s + 3);
                lemma_prepend_ok(
                    (cv.subrange(s, s + 3), "STRING_LITERAL"@),
                    lex_from(cv, ks, km, s + 3),
                    km,
                );
            }
        } else if is_letter(c) {
            if is_upper(c) || c == '_' {
                let e = word_end(cv, s + 1);
                lemma_word_end(cv, s + 1);
                lemma_lex_from_ok(cv, ks, km, e);
                lemma_prepend_ok((cv.subrange(s, e), "IDENTIFIER"@), lex_from(cv, ks, km, e), km);
            } else {
                let end = lower_end(cv, s + 1);
                lemma_lower_end(cv, s + 1);
                lemma_last_keyword_end(cv, ks, s, end);
                match last_keyword_end(cv, ks, s, end) {
                    Some(f) => {
                        lemma_lex_from_ok(cv, ks, km, f);
                        lemma_kind_of_known(km, cv.subrange(s, end));
                        lemma_prepend_ok(
                            (cv.subrange(s, end), kind_of(km, cv.subrange(s, end))),
                            lex_from(cv, ks, km, f),
                            km,
                        );
                    },
                    None => {
                        let e = word_end(cv, s + 1);
                        lemma_word_end(cv, s + 1);
                        lemma_lex_from_ok(cv, ks, km, e);
                        lemma_prepend_ok(
                            (cv.subrange(s, e), "IDENTIFIER"@),
                            lex_from(cv, ks, km, e),
                            km,
                        );
                    },
                }
            }
        } else {
            let r = symbol_end(cv, ks, s, s + 1);
            lemma_symbol_end(cv, ks, s, s + 1);
            if r <= s {
                lemma_lex_from_ok(cv, ks, km, s + 1);
            } else if r <= cv.len() {
                lemma_lex_from_ok(cv, ks, km, r);
                lemma_kind_of_known(km, cv.subrange(s, r));
                lemma_prepend_ok(
                    (cv.subrange(s, r), kind_of(km, cv.subrange(s, r))),
                    lex_from(cv, ks, km, r),
                    km,
                );
            } else {
                let t = (
                    cv.subrange(s, cv.len() as int),
                    kind_of(km, cv.subrange(s, cv.len() as int)),
                );
                lemma_kind_of_known(km, cv.subrange(s, cv.len() as int));
                assert(seq![t][0] == t);
            }
        }
    }
}

/// Every token of the lexer has some text, and its kind is `CONSTANT`,
/// `STRING_LITERAL`, `IDENTIFIER`, `Unknown`, or a kind of the keyword
/// table.
pub proof fn lemma_lex_tokens_ok(cv: Seq<char>, ks: Seq<Seq<char>>, km: Map<Seq<char>, Seq<char>>)
    ensures
        lex_spec(cv, ks, km) matches Ok(v) ==> tokens_ok(v, km),
{
    lemma_lex_from_ok(cv, ks, km, 0);
}

/// A character that can go on a word: a letter, a digit or `_`.
pub open spec fn is_word_char(c: char) -> bool {
    is_letter(c) || is_digit(c)
}

/// [`word_end`] stops at the first character from `i` on that cannot go on
/// a word, and all the characters before it can.
pub proof fn lemma_word_end_maximal(cv: Seq<char>, i: int)
    requires
        0 <= i <= cv.len(),
    ensures
        i <= word_end(cv, i) <= cv.len(),
        forall|q: int| i <= q < word_end(cv, i) ==> is_word_char(#[trigger] cv[q]),
        word_end(cv, i) < cv.len() ==> !is_word_char(cv[word_end(cv, i)]),
    decreases cv.len() - i,
{
    if i < cv.len() && is_word_char(cv[i]) {
        lemma_word_end_maximal(cv, i + 1);
    }
}

/// Every `IDENTIFIER` token is a whole word of the text: where the lexer
/// reads a token that starts with the letter or `_` at position `s` and is
/// an `IDENTIFIER`, the
/// token is the text from `s` on, it is made of letters, digits and `_`
/// only, the character after it (if any) cannot go on a word, and the
/// tokens after it are those of the text after it. This holds when no
/// keyword text that starts with a lower-case letter has the kind
/// `IDENTIFIER`.
pub proof fn lemma_identifier_is_whole_word(
    cv: Seq<char>,
    ks: Seq<Seq<char>>,
    km: Map<Seq<char>, Seq<char>>,
    s: int,
)
    requires
        0 <= s < cv.len(),
        is_letter(cv[s]),
        forall|w: Seq<char>|
            #[trigger] km.contains_key(w) && km[w] == "IDENTIFIER"@ ==> w.len() > 0 && (is_upper(w[0])
                || w[0] == '_'),
    ensures
        lex_from(cv, ks, km, s) matches Ok(v) ==> (v.len() > 0 && v[0].1 == "IDENTIFIER"@ ==> {
            let e = s + v[0].0.len();
            &&& e <= cv.len()
            &&& v[0].0 == cv.subrange(s, e)
            &&& forall|q: int| s <= q < e ==> is_word_char(#[trigger] cv[q])
            &&& e < cv.len() ==> !is_word_char(cv[e])
            &&& lex_from(cv, ks, km, e) == Ok::<Seq<(Seq<char>, Seq<char>)>, LexError>(v.drop_first())
        }),
{
    reveal_strlit("IDENTIFIER");
    reveal_strlit("CONSTANT");
    reveal_strlit("STRING_LITERAL");
    reveal_strlit("Unknown");
    let c = cv[s];
    if let Ok(v) = lex_from(cv, ks, km, s) {
        if v.len() > 0 && v[0].1 == "IDENTIFIER"@ {
            if is_letter(c) {
                if is_upper(c) || c == '_' {
                    let e = word_end(cv, s + 1);
                    lemma_word_end_maximal(cv, s + 1);
                    assert(v[0].0 == cv.subrange(s, e));
                    assert(lex_from(cv, ks, km, e) matches Ok(r) && v == seq![(cv.subrange(s, e), "IDENTIFIER"@)] + r);
                    assert(v.drop_first() =~= lex_from(cv, ks, km, e)->Ok_0);
                } else {
                    let end = lower_end(cv, s + 1);
                    lemma_lower_end(cv, s + 1);
                    lemma_last_keyword_end(cv, ks, s, end);
                    match last_keyword_end(cv, ks, s, end) {
                        Some(f) => {
                            let w = cv.subrange(s, end);
                            assert(v[0].1 == kind_of(km, w));
                            if km.contains_key(w) {
                                assert(w[0] == c);
                            } else {
                                assert("Unknown"@ != "IDENTIFIER"@) by {
                                    assert("Unknown"@[0] != "IDENTIFIER"@[0]);
                                }
                            }
                        },
                        None => {
                            let e = word_end(cv, s + 1);
                            lemma_word_end_maximal(cv, s + 1);
                            assert(v[0].0 == cv.subrange(s, e));
                            assert(v.drop_first() =~= lex_from(cv, ks, km, e)->Ok_0);
                        },
                    }
                }
            }
        }
    }
}

/// Whether `cv[a..b]` holds a `.`.
pub open spec fn has_point(cv: Seq<char>, a: int, b: int) -> bool {
    exists|q: int| a <= q < b && #[trigger] cv[q] == '.'
}

/// [`number_end`] from `i`, with `seen` telling whether `cv[s..i]` holds a
/// `.`, stops at the first character that is no digit and no `.` that
/// could be the first one; all before it are digits or `.`, with one `.`
/// at most from `s` on.
proof fn lemma_number_end_maximal(cv: Seq<char>, s: int, i: int, seen: bool)
    requires
        0 <= s <= i <= cv.len(),
        seen == has_point(cv, s, i),
        forall|q: int| s <= q < i ==> is_digit(#[trigger] cv[q]) || cv[q] == '.',
        forall|q1: int, q2: int| s <= q1 < q2 < i && #[trigger] cv[q1] == '.' ==> #[trigger] cv[q2] != '.',
    ensures
        i <= number_end(cv, i, seen) <= cv.len(),
        forall|q: int| s <= q < number_end(cv, i, seen) ==> is_digit(#[trigger] cv[q]) || cv[q] == '.',
        forall|q1: int, q2: int|
            s <= q1 < q2 < number_end(cv, i, seen) && #[trigger] cv[q1] == '.' ==> #[trigger] cv[q2] != '.',
        number_end(cv, i, seen) < cv.len() ==> !is_digit(cv[number_end(cv, i, seen)]) && (cv[number_end(
            cv,
            i,
            seen,
        )] == '.' ==> has_point(cv, s, number_end(cv, i, seen))),
    decreases cv.len() - i,
{
    if i < cv.len() {
        if is_digit(cv[i]) {
            assert(has_point(cv, s, i + 1) == has_point(cv, s, i)) by {
                if has_point(cv, s, i + 1) {
                    let q = choose|q: int| s <= q < i + 1 && #[trigger] cv[q] == '.';
                    assert(q < i);
                }
            }
            lemma_number_end_maximal(cv, s, i + 1, seen);
        } else if cv[i] == '.' && !seen {
            assert(has_point(cv, s, i + 1)) by {
                assert(cv[i] == '.');
            }
            assert forall|q1: int, q2: int| s <= q1 < q2 < i + 1 && #[trigger] cv[q1] == '.' implies #[trigger] cv[q2]
                != '.' by {
                if q2 == i {
                    assert(has_point(cv, s, i));
                }
            }
            lemma_number_end_maximal(cv, s, i + 1, true);
        }
    }
}

/// Every `CONSTANT` token is a whole number of the text: where the lexer
/// reads from a digit at position `s`, the first token is a `CONSTANT`
/// that is the text from `s` on, made of digits and at most one `.`; the
/// character after it (if any) is no digit, and a `.` only when the number
/// has one already; the tokens after it are those of the text after it.
pub proof fn lemma_constant_is_whole_number(
    cv: Seq<char>,
    ks: Seq<Seq<char>>,
    km: Map<Seq<char>, Seq<char>>,
    s: int,
)
    requires
        0 <= s < cv.len(),
        is_digit(cv[s]),
    ensures
        lex_from(cv, ks, km, s) matches Ok(v) ==> {
            let e = s + v[0].0.len();
            &&& v.len() > 0
            &&& v[0].1 == "CONSTANT"@
            &&& e <= cv.len()
            &&& v[0].0 == cv.subrange(s, e)
            &&& forall|q: int| s <= q < e ==> is_digit(#[trigger] cv[q]) || cv[q] == '.'
            &&& forall|q1: int, q2: int| s <= q1 < q2 < e && #[trigger] cv[q1] == '.' ==> #[trigger] cv[q2] != '.'
            &&& e < cv.len() ==> !is_digit(cv[e]) && (cv[e] == '.' ==> has_point(cv, s, e))
            &&& lex_from(cv, ks, km, e) == Ok::<Seq<(Seq<char>, Seq<char>)>, LexError>(v.drop_first())
        },
{
    let e = number_end(cv, s, false);
    assert(!has_point(cv, s, s));
    lemma_number_end_maximal(cv, s, s, false);
    lemma_number_end(cv, s + 1, false);
    if let Ok(v) = lex_from(cv, ks, km, s) {
        assert(lex_from(cv, ks, km, e) matches Ok(r) && v == seq![(cv.subrange(s, e), "CONSTANT"@)] + r);
        assert(v[0].0 == cv.subrange(s, e));
        assert(v.drop_first() =~= lex_from(cv, ks, km, e)->Ok_0);
    }
}

/// The views of a sequence of tokens.
pub open spec fn token_views(v: Seq<Token>) -> Seq<(Seq<char>, Seq<char>)> {
    v.map_values(|t: Token| t@)
}

fn is_digit_exec(c: char) -> (b: bool)
    ensures
        b == is_digit(c),
{
    '0' <= c && c <= '9'
}

fn is_upper_exec(c: char) -> (b: bool)
    ensures
        b == is_upper(c),
{
    'A' <= c && c <= 'Z'
}

fn is_lower_exec(c: char) -> (b: bool)
    ensures
        b == is_lower(c),
{
    'a' <= c && c <= 'z'
}

fn is_letter_exec(c: char) -> (b: bool)
    ensures
        b == is_letter(c),
{
    is_lower_exec(c) || is_upper_exec(c) || c == '_'
}

fn is_ignored_exec(c: char) -> (b: bool)
    ensures
        b == is_ignored(c),
{
    c == ' ' || c == '\t' || c == '\n' || c == '\r' || c == '\x0B' || c == '\x0C'
}

/// Whether `cv[a..b]` is one of the keywords.
fn is_keyword(cv: &Vec<char>, a: usize, b: usize, ks: &Vec<String>) -> (r: bool)
    requires
        a <= b <= cv@.len(),
    ensures
        r == texts(ks@).contains(cv@.subrange(a as int, b as int)),
{
    let w = string_of(cv, a, b);
    match find_key(ks, &w) {
        Some(i) => {
            assert(texts(ks@)[i as int] == w@);
            true
        },
        None => false,
    }
}

/// The kind of the text `cv[a..b]`.
fn kind_exec(cv: &Vec<char>, a: usize, b: usize, km: &KeywordTable) -> (r: String)
    requires
        a <= b <= cv@.len(),
    ensures
        r@ == kind_of(km@, cv@.subrange(a as int, b as int)),
{
    broadcast use vstd::string::group_string_axioms;

    let w = string_of(cv, a, b);
    match km.get(&w) {
        Some(k) => k,
        None => "Unknown".to_string(),
    }
}

/// The tokens of `contents`, or why the lexer stops. The keywords are the
/// texts of `KEYWORDS`; `keywords` gives the kind of each keyword.
#[allow(non_snake_case)]
pub fn lex(contents: &String, KEYWORDS: &Vec<String>, keywords: &KeywordTable) -> (r: Result<
    Vec<Token>,
    LexError,
>)
    ensures
        match r {
            Ok(v) => lex_spec(contents@, texts(KEYWORDS@), keywords@) == Ok::<
                Seq<(Seq<char>, Seq<char>)>,
                LexError,
            >(token_views(v@)),
            Err(e) => lex_spec(contents@, texts(KEYWORDS@), keywords@) == Err::<
                Seq<(Seq<char>, Seq<char>)>,
                LexError,
            >(e),
        },
{
    broadcast use vstd::string::group_string_axioms;

    let cv = chars_of(contents);
    let ghost ks = texts(KEYWORDS@);
    let ghost km = keywords@;
    let ghost whole = lex_spec(cv@, ks, km);
    let mut tokens: Vec<Token> = Vec::new();
    let mut s: usize = 0;
    assert(token_views(tokens@) =~= seq![]);
    assert(seq![] + seq![] =~= Seq::<(Seq<char>, Seq<char>)>::empty());
    while s < cv.len()
        invariant
            s <= cv@.len(),
            cv@ == contents@,
            ks == texts(KEYWORDS@),
            km == keywords@,
            whole == lex_spec(cv@, ks, km),
            whole == prepend_all(token_views(tokens@), lex_from(cv@, ks, km, s as int)),
        decreases cv@.len() - s,
    {
        let ghost acc = token_views(tokens@);
        let c = cv[s];
        if is_ignored_exec(c) {
            s = s + 1;
        } else if is_digit_exec(c) {
            let mut tr = s;
            let mut onepoint = false;
            while tr < cv.len() && (is_digit_exec(cv[tr]) || (cv[tr] == '.' && !onepoint))
                invariant
                    s <= tr <= cv@.len(),
                    number_end(cv@, tr as int, onepoint) == number_end(cv@, s as int, false),
                decreases cv@.len() - tr,
            {
                if !is_digit_exec(cv[tr]) {
                    onepoint = true;
                }
                tr = tr + 1;
            }
            let t = Token { val: string_of(&cv, s, tr), kind: "CONSTANT".to_string() };
            tokens.push(t);
            assert(token_views(tokens@) =~= acc + seq![t@]);
            assert(acc + seq![t@] + seq![] =~= acc + (seq![t@] + seq![]));
            proof {
                lemma_prepend_assoc(acc, t@, lex_from(cv@, ks, km, tr as int));
            }
            s = tr;
        } else if c == '"' {
            let mut tr = s + 1;
            let mut closed = false;
            while tr < cv.len() && !closed
                invariant
                    s < tr <= cv@.len(),
                    !closed ==> string_end(cv@, tr as int) == string_end(cv@, (s + 1) as int),
                    closed ==> tr == string_end(cv@, (s + 1) as int),
                decreases cv@.len() - tr,
            {
                if cv[tr] == '"' {
                    closed = true;
                }
                tr = tr + 1;
            }
            let t = Token { val: string_of(&cv, s, tr), kind: "STRING_LITERAL".to_string() };
            tokens.push(t);
            assert(token_views(tokens@) =~= acc + seq![t@]);
            proof {
                lemma_prepend_assoc(acc, t@, lex_from(cv@, ks, km, tr as int));
            }
            s = tr;
        } else if c == '\'' {
            if cv.len() - s > 2 && cv[s + 2] == '\'' {
                let t = Token { val: string_of(&cv, s, s + 3), kind: "STRING_LITERAL".to_string() };
                tokens.push(t);
                assert(token_views(tokens@) =~= acc + seq![t@]);
                proof {
                    lemma_prepend_assoc(acc, t@, lex_from(cv@, ks, km, s + 3));
                }
                s = s + 3;
            } else {
                return Err(LexError::BadCharLiteral);
            }
        } else if is_letter_exec(c) {
            if is_upper_exec(c) || c == '_' {
                let tr = word_end_exec(&cv, s + 1);
                let t = Token { val: string_of(&cv, s, tr), kind: "IDENTIFIER".to_string() };
                tokens.push(t);
                assert(token_views(tokens@) =~= acc + seq![t@]);
                proof {
                    lemma_prepend_assoc(acc, t@, lex_from(cv@, ks, km, tr as int));
                }
                s = tr;
            } else {
                let mut end = s + 1;
                while end < cv.len() && is_lower_exec(cv[end])
                    invariant
                        s < end <= cv@.len(),
                        lower_end(cv@, end as int) == lower_end(cv@, (s + 1) as int),
                    decreases cv@.len() - end,
                {
                    end = end + 1;
                }
                let mut f = end;
                let mut found = false;
                while f > s && !found
                    invariant
                        s <= f <= end,
                        found ==> f > s && last_keyword_end(cv@, ks, s as int, end as int) == Some(
                            f as int,
                        ),
                        !found ==> last_keyword_end(cv@, ks, s as int, f as int)
                            == last_keyword_end(cv@, ks, s as int, end as int),
                        end <= cv@.len(),
                        ks == texts(KEYWORDS@),
                    decreases f - s + (if found { 0int } else { 1int }),
                {
                    if is_keyword(&cv, s, f, KEYWORDS) {
                        found = true;
                    } else {
                        f = f - 1;
                    }
                }
                if found {
                    let t = Token { val: string_of(&cv, s, end), kind: kind_exec(&cv, s, end, keywords) };
                    tokens.push(t);
                    assert(token_views(tokens@) =~= acc + seq![t@]);
                    proof {
                        lemma_prepend_assoc(acc, t@, lex_from(cv@, ks, km, f as int));
                    }
                    s = f;
                } else {
                    let tr = word_end_exec(&cv, s + 1);
                    if tr >= cv.len() {
                        return Err(LexError::WordAtEnd);
                    }
                    let t = Token { val: string_of(&cv, s, tr), kind: "IDENTIFIER".to_string() };
                    tokens.push(t);
                    assert(token_views(tokens@) =~= acc + seq![t@]);
                    proof {
                        lemma_prepend_assoc(acc, t@, lex_from(cv@, ks, km, tr as int));
                    }
                    s = tr;
                }
            }
        } else {
            let mut k = s;
            let mut stop = false;
            while k < cv.len() && !stop
                invariant
                    s <= k <= cv@.len(),
                    !stop ==> symbol_end(cv@, ks, s as int, k + 1) == symbol_end(
                        cv@,
                        ks,
                        s as int,
                        s + 1,
                    ),
                    stop ==> k == symbol_end(cv@, ks, s as int, s + 1),
                    ks == texts(KEYWORDS@),
                decreases cv@.len() - k + (if stop { 0int } else { 1int }),
            {
                if is_keyword(&cv, s, k + 1, KEYWORDS) {
                    k = k + 1;
                } else {
                    stop = true;
                }
            }
            if !stop {
                let n = cv.len();
                let t = Token { val: string_of(&cv, s, n), kind: kind_exec(&cv, s, n, keywords) };
                tokens.push(t);
                assert(token_views(tokens@) =~= acc + seq![t@]);
                return Ok(tokens);
            } else if k == s {
                s = s + 1;
            } else {
                let t = Token { val: string_of(&cv, s, k), kind: kind_exec(&cv, s, k, keywords) };
                tokens.push(t);
                assert(token_views(tokens@) =~= acc + seq![t@]);
                proof {
                    lemma_prepend_assoc(acc, t@, lex_from(cv@, ks, km, k as int));
                }
                s = k;
            }
        }
    }
    assert(token_views(tokens@) + seq![] =~= token_views(tokens@));
    Ok(tokens)
}

proof fn lemma_prepend_assoc(
    acc: Seq<(Seq<char>, Seq<char>)>,
    t: (Seq<char>, Seq<char>),
    r: Result<Seq<(Seq<char>, Seq<char>)>, LexError>,
)
    ensures
        prepend_all(acc, prepend_all(seq![t], r)) == prepend_all(acc + seq![t], r),
{
    match r {
        Ok(v) => {
            assert(acc + (seq![t] + v) =~= acc + seq![t] + v);
        },
        Err(e) => {},
    }
}

/// End of the run of letters and digits that continues at `i`.
fn word_end_exec(cv: &Vec<char>, i: usize) -> (e: usize)
    requires
        i <= cv@.len(),
    ensures
        e == word_end(cv@, i as int),
        i <= e <= cv@.len(),
{
    let mut e = i;
    while e < cv.len() && (is_letter_exec(cv[e]) || is_digit_exec(cv[e]))
        invariant
            i <= e <= cv@.len(),
            word_end(cv@, e as int) == word_end(cv@, i as int),
        decreases cv@.len() - e,
    {
        e = e + 1;
    }
    e
}

/// The tokens of `contents`, for text that [`lex`] reads without error.
#[allow(non_snake_case)]
pub fn lexer(contents: &String, KEYWORDS: &Vec<String>, keywords: &KeywordTable) -> (r: Vec<Token>)
    requires
        lex_spec(contents@, texts(KEYWORDS@), keywords@) is Ok,
    ensures
        lex_spec(contents@, texts(KEYWORDS@), keywords@) == Ok::<
            Seq<(Seq<char>, Seq<char>)>,
            LexError,
        >(token_views(r@)),
{
    match lex(contents, KEYWORDS, keywords) {
        Ok(v) => v,
        Err(e) => {
            proof {
                assert(false);
            }
            Vec::new()
        },
    }
}

/// The keywords and the keyword table that the lines of the symbolic
/// terminal file and of the terminal file make when paired in order: the
/// `i`-th symbolic text is a keyword of the kind named by the `i`-th
/// terminal, a later pair replacing an earlier one with the same text, and
/// the lines that have no partner being left out.
pub fn keyword_tables(symbolic: &Vec<String>, kinds: &Vec<String>) -> (r: (Vec<String>, KeywordTable))
    ensures
        ({
            let n = if symbolic@.len() <= kinds@.len() {
                symbolic@.len() as int
            } else {
                kinds@.len() as int
            };
            &&& texts(r.0@) == texts(symbolic@).take(n)
            &&& r.1@ == assoc(texts(symbolic@).take(n), texts(kinds@).take(n))
        }),
{
    let n = if symbolic.len() <= kinds.len() {
        symbolic.len()
    } else {
        kinds.len()
    };
    let mut words: Vec<String> = Vec::new();
    let mut table = KeywordTable::new();
    let mut i: usize = 0;
    assert(texts(symbolic@).take(0) =~= Seq::<Seq<char>>::empty());
    while i < n
        invariant
            i <= n,
            n <= symbolic@.len(),
            n <= kinds@.len(),
            texts(words@) == texts(symbolic@).take(i as int),
            table@ == assoc(texts(symbolic@).take(i as int), texts(kinds@).take(i as int)),
        decreases n - i,
    {
        let w = symbolic[i].clone();
        let k = kinds[i].clone();
        words.push(symbolic[i].clone());
        table.insert(w, k);
        i = i + 1;
        assert(texts(words@) =~= texts(symbolic@).take(i as int));
        assert(texts(symbolic@).take(i as int).drop_last() =~= texts(symbolic@).take(i - 1));
        assert(texts(kinds@).take(i as int).drop_last() =~= texts(kinds@).take(i - 1));
    }
    (words, table)
}

/// The tokens of `contents`, as [`lex`] reads them, followed by the `Eof`
/// token that ends the parser's input.
#[allow(non_snake_case)]
pub fn lex_with_eof(contents: &String, KEYWORDS: &Vec<String>, keywords: &KeywordTable) -> (r: Result<
    Vec<Token>,
    LexError,
>)
    ensures
        match r {
            Ok(v) => lex_spec(contents@, texts(KEYWORDS@), keywords@) == Ok::<
                Seq<(Seq<char>, Seq<char>)>,
                LexError,
            >(token_views(v@).drop_last()) && v@.len() >= 1 && v@.last()@ == ("Eof"@, "Eof"@),
            Err(e) => lex_spec(contents@, texts(KEYWORDS@), keywords@) == Err::<
                Seq<(Seq<char>, Seq<char>)>,
                LexError,
            >(e),
        },
{
    broadcast use vstd::string::group_string_axioms;

    match lex(contents, KEYWORDS, keywords) {
        Ok(mut v) => {
            let ghost before = v@;
            v.push(Token { val: "Eof".to_string(), kind: "Eof".to_string() });
            assert(token_views(v@).drop_last() =~= token_views(before));
            Ok(v)
        },
        Err(e) => Err(e),
    }
}

} // verus!
