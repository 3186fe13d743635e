use vstd::prelude::*;
use crate::ast::SpecExpr;

verus! {

// ---------------------------------------------------------------------------
// Lexical character classes.
//
// Whitespace is the four ASCII whitespace characters; identifiers are ASCII
// letters, digits and underscore, not starting with a digit. The classes are
// written over code points so that every fact about them is plain arithmetic.
// ---------------------------------------------------------------------------

/// Whitespace: space, tab, newline, carriage return.
pub open spec fn is_ws_char(c: char) -> bool {
    c as u32 == 32 || c as u32 == 9 || c as u32 == 10 || c as u32 == 13
}

/// A character that may begin an identifier: a letter or an underscore.
pub open spec fn is_ident_start_char(c: char) -> bool {
    (97 <= c as u32 && c as u32 <= 122)  // 'a' ..= 'z'
    || (65 <= c as u32 && c as u32 <= 90)  // 'A' ..= 'Z'
    || c as u32 == 95  // '_'
}

/// A character that may continue an identifier: a letter, a digit or an
/// underscore.
pub open spec fn is_ident_char(c: char) -> bool {
    is_ident_start_char(c) || (48 <= c as u32 && c as u32 <= 57)  // '0' ..= '9'
}

/// The position of the first non-whitespace character at or after `pos`,
/// or the end of the input.
pub open spec fn spec_skip_ws(s: Seq<char>, pos: int) -> int
    decreases s.len() - pos,
{
    if 0 <= pos && pos < s.len() && is_ws_char(s[pos]) {
        spec_skip_ws(s, pos + 1)
    } else {
        pos
    }
}

/// The position just after the longest run of identifier characters
/// starting at `pos`.
pub open spec fn spec_ident_end(s: Seq<char>, pos: int) -> int
    decreases s.len() - pos,
{
    if 0 <= pos && pos < s.len() && is_ident_char(s[pos]) {
        spec_ident_end(s, pos + 1)
    } else {
        pos
    }
}

pub proof fn lemma_skip_ws_bounds(s: Seq<char>, pos: int)
    ensures
        pos <= spec_skip_ws(s, pos),
        pos <= s.len() ==> spec_skip_ws(s, pos) <= s.len(),
        spec_skip_ws(s, pos) < s.len() && 0 <= spec_skip_ws(s, pos) ==> !is_ws_char(
            s[spec_skip_ws(s, pos)],
        ),
    decreases s.len() - pos,
{
    if 0 <= pos && pos < s.len() && is_ws_char(s[pos]) {
        lemma_skip_ws_bounds(s, pos + 1);
    }
}

pub proof fn lemma_ident_end_bounds(s: Seq<char>, pos: int)
    ensures
        pos <= spec_ident_end(s, pos),
        pos <= s.len() ==> spec_ident_end(s, pos) <= s.len(),
    decreases s.len() - pos,
{
    if 0 <= pos && pos < s.len() && is_ident_char(s[pos]) {
        lemma_ident_end_bounds(s, pos + 1);
    }
}

/// `spec_skip_ws` lands exactly on `end` when everything before `end` is
/// whitespace and `end` is the input's end or holds something else.
pub proof fn lemma_skip_ws_stops(s: Seq<char>, pos: int, end: int)
    requires
        0 <= pos <= end <= s.len(),
        forall|i: int| pos <= i < end ==> is_ws_char(s[i]),
        end < s.len() ==> !is_ws_char(s[end]),
    ensures
        spec_skip_ws(s, pos) == end,
    decreases end - pos,
{
    if pos < end {
        assert(is_ws_char(s[pos]));
        lemma_skip_ws_stops(s, pos + 1, end);
    }
}

/// `spec_ident_end` lands exactly on `end` when everything before `end`
/// is an identifier character and `end` is the input's end or holds
/// something else.
pub proof fn lemma_ident_end_stops(s: Seq<char>, pos: int, end: int)
    requires
        0 <= pos <= end <= s.len(),
        forall|i: int| pos <= i < end ==> is_ident_char(s[i]),
        end < s.len() ==> !is_ident_char(s[end]),
    ensures
        spec_ident_end(s, pos) == end,
    decreases end - pos,
{
    if pos < end {
        assert(is_ident_char(s[pos]));
        lemma_ident_end_stops(s, pos + 1, end);
    }
}

// ---------------------------------------------------------------------------
// Keywords.
// ---------------------------------------------------------------------------

/// The lexeme spanning `[p, e)` is exactly the keyword `let`.
pub open spec fn lexeme_is_let(s: Seq<char>, p: int, e: int) -> bool {
    e - p == 3 && s[p] == 'l' && s[p + 1] == 'e' && s[p + 2] == 't'
}

/// The lexeme spanning `[p, e)` is exactly the keyword `in`.
pub open spec fn lexeme_is_in(s: Seq<char>, p: int, e: int) -> bool {
    e - p == 2 && s[p] == 'i' && s[p + 1] == 'n'
}

/// The lexeme spanning `[p, e)` is a reserved keyword, which is never a
/// valid identifier.
pub open spec fn lexeme_is_keyword(s: Seq<char>, p: int, e: int) -> bool {
    lexeme_is_let(s, p, e) || lexeme_is_in(s, p, e)
}

// ---------------------------------------------------------------------------
// Whole sequences seen as lexemes.
// ---------------------------------------------------------------------------

/// `x` is a well-formed identifier lexeme: non-empty, starting with a
/// letter or underscore, all of it identifier characters.
pub open spec fn is_identifier(x: Seq<char>) -> bool {
    x.len() > 0 && is_ident_start_char(x[0]) && forall|i: int|
        0 <= i < x.len() ==> is_ident_char(x[i])
}

/// `x`, taken whole, is one of the reserved keywords.
pub open spec fn is_keyword_seq(x: Seq<char>) -> bool {
    lexeme_is_keyword(x, 0, x.len() as int)
}

/// Every character of `x` is whitespace.
pub open spec fn all_ws(x: Seq<char>) -> bool {
    forall|i: int| 0 <= i < x.len() ==> is_ws_char(x[i])
}

// ---------------------------------------------------------------------------
// What a failed match expected at the failure position.
// ---------------------------------------------------------------------------

/// The construct a failed parse expected at the failure position.
#[derive(Clone, Copy, PartialEq, Eq, Debug)]
pub enum Expected {
    /// The start of an expression: an identifier or the keyword `let`.
    AtomStart,
    /// An identifier (here a reserved keyword is not one).
    Ident,
    /// The character `=`.
    Equals,
    /// The keyword `in`.
    KeywordIn,
    /// The end of the input: only whitespace may follow a complete
    /// expression.
    EndOfInput,
}

impl Expected {
    /// What [`Expected::describe`] says of each expectation.
    pub open spec fn description(&self) -> Seq<char> {
        match self {
            Expected::AtomStart => "expected identifier or keyword `let`"@,
            Expected::Ident => "expected identifier"@,
            Expected::Equals => "expected `=`"@,
            Expected::KeywordIn => "expected keyword `in`"@,
            Expected::EndOfInput => "expected end of input"@,
        }
    }

    /// The expectation in words, for error reports.
    pub fn describe(&self) -> (r: &'static str)
        ensures
            r@ == self.description(),
    {
        match self {
            Expected::AtomStart => "expected identifier or keyword `let`",
            Expected::Ident => "expected identifier",
            Expected::Equals => "expected `=`",
            Expected::KeywordIn => "expected keyword `in`",
            Expected::EndOfInput => "expected end of input",
        }
    }
}

/// The outcome of matching one grammar rule: the derived tree and the
/// position just after it, or the failure position and what was expected
/// there.
pub enum SpecOutcome {
    Parsed(SpecExpr, int),
    Failed(int, Expected),
}

// ---------------------------------------------------------------------------
// The grammar, in descending precedence:
//
//   expr   ::= atom atom*                          (left-associative)
//   atom   ::= let_in | var                        (ordered choice)
//   let_in ::= "let" ident "=" expr "in" expr
//   var    ::= ident                               (no keywords)
//
// Whitespace may stand between any two tokens. The choice at `atom` commits
// to `let_in` once the keyword `let` has matched: a failure later in the
// binding is the atom's failure and is never retried as a variable. The
// repetition `atom*` stops at the first atom that fails; the failure itself
// is discarded there. The error surfaced is therefore always the one met on
// the committed path, at the position where a required token was missing.
// ---------------------------------------------------------------------------

/// Matches `atom` at `pos`: a `let`-binding if the next token is the
/// keyword `let`, otherwise a variable, whose identifier must not be a
/// keyword.
pub open spec fn spec_atom(s: Seq<char>, pos: int) -> SpecOutcome
    decreases s.len() - pos, 0int,
{
    let p = spec_skip_ws(s, pos);
    if !(p < s.len() && is_ident_start_char(s[p])) {
        SpecOutcome::Failed(p, Expected::AtomStart)
    } else {
        let e = spec_ident_end(s, p);
        if lexeme_is_let(s, p, e) {
            proof {
                lemma_skip_ws_bounds(s, pos);
                lemma_ident_end_bounds(s, p);
            }
            spec_let_in(s, e)
        } else if lexeme_is_in(s, p, e) {
            SpecOutcome::Failed(p, Expected::AtomStart)
        } else {
            SpecOutcome::Parsed(SpecExpr::Var(s.subrange(p, e)), e)
        }
    }
}

/// Matches the remainder of `let_in` once the keyword `let` has been
/// consumed; `e` is the position just after the keyword.
pub open spec fn spec_let_in(s: Seq<char>, e: int) -> SpecOutcome
    decreases s.len() - e, 3int,
{
    let p1 = spec_skip_ws(s, e);
    if !(p1 < s.len() && is_ident_start_char(s[p1])) {
        SpecOutcome::Failed(p1, Expected::Ident)
    } else {
        let e1 = spec_ident_end(s, p1);
        if lexeme_is_keyword(s, p1, e1) {
            SpecOutcome::Failed(p1, Expected::Ident)
        } else {
            let p2 = spec_skip_ws(s, e1);
            if !(p2 < s.len() && s[p2] == '=') {
                SpecOutcome::Failed(p2, Expected::Equals)
            } else {
                proof {
                    lemma_skip_ws_bounds(s, e);
                    lemma_ident_end_bounds(s, p1);
                    lemma_skip_ws_bounds(s, e1);
                }
                match spec_expr(s, p2 + 1) {
                    SpecOutcome::Failed(fp, ex) => SpecOutcome::Failed(fp, ex),
                    SpecOutcome::Parsed(bound, r) => if !(p2 + 1 <= r && r <= s.len()) {
                        // Never reached: an expression consumes at least one
                        // character (`lemma_expr_progress`). The test keeps
                        // the recursion below it visibly well-founded.
                        SpecOutcome::Failed(r, Expected::KeywordIn)
                    } else {
                        let p4 = spec_skip_ws(s, r);
                        let e4 = spec_ident_end(s, p4);
                        if !(p4 < s.len() && lexeme_is_in(s, p4, e4)) {
                            SpecOutcome::Failed(p4, Expected::KeywordIn)
                        } else {
                            proof {
                                lemma_skip_ws_bounds(s, r);
                                lemma_ident_end_bounds(s, p4);
                            }
                            match spec_expr(s, e4) {
                                SpecOutcome::Failed(fp, ex) => SpecOutcome::Failed(fp, ex),
                                SpecOutcome::Parsed(body, r2) => SpecOutcome::Parsed(
                                    SpecExpr::Let(
                                        s.subrange(p1, e1),
                                        Box::new(bound),
                                        Box::new(body),
                                    ),
                                    r2,
                                ),
                            }
                        }
                    },
                }
            }
        }
    }
}

/// Matches `expr` at `pos`: one leading atom, then the zero-or-more
/// repetition folded to the left.
pub open spec fn spec_expr(s: Seq<char>, pos: int) -> SpecOutcome
    decreases s.len() - pos, 2int,
{
    match spec_atom(s, pos) {
        SpecOutcome::Failed(fp, ex) => SpecOutcome::Failed(fp, ex),
        SpecOutcome::Parsed(first, p) => if pos <= p && p <= s.len() {
            spec_app_tail(s, p, first)
        } else {
            // Never reached: an atom stays within the input and moves
            // forward (`lemma_atom_progress`).
            SpecOutcome::Parsed(first, p)
        },
    }
}

/// Matches `atom*` at `pos`, folding each further atom into `acc` as a
/// left-associated application. The repetition stops, keeping `acc`, at
/// the first position where no atom matches.
pub open spec fn spec_app_tail(s: Seq<char>, pos: int, acc: SpecExpr) -> SpecOutcome
    decreases s.len() - pos, 1int,
{
    match spec_atom(s, pos) {
        SpecOutcome::Failed(_, _) => SpecOutcome::Parsed(acc, pos),
        SpecOutcome::Parsed(next, p2) => if pos < p2 && p2 <= s.len() {
            spec_app_tail(s, p2, SpecExpr::App(Box::new(acc), Box::new(next)))
        } else {
            // Never reached: a matched atom consumes at least one character
            // (`lemma_atom_progress`).
            SpecOutcome::Parsed(acc, pos)
        },
    }
}

/// Matches the whole input: `expr`, then only whitespace up to the end.
/// On success the returned position is the input's length.
pub open spec fn spec_parse(s: Seq<char>) -> SpecOutcome {
    match spec_expr(s, 0) {
        SpecOutcome::Failed(fp, ex) => SpecOutcome::Failed(fp, ex),
        SpecOutcome::Parsed(root, p) => {
            let t = spec_skip_ws(s, p);
            if t == s.len() {
                SpecOutcome::Parsed(root, t)
            } else {
                SpecOutcome::Failed(t, Expected::EndOfInput)
            }
        },
    }
}

// ---------------------------------------------------------------------------
// Progress: a successful match stays within the input and consumes at
// least one character. These lemmas also show that the defensive branches
// in the definitions above are never taken.
// ---------------------------------------------------------------------------

pub proof fn lemma_atom_progress(s: Seq<char>, pos: int)
    requires
        0 <= pos,
    ensures
        spec_atom(s, pos) matches SpecOutcome::Parsed(e, p) ==> pos < p && p <= s.len(),
    decreases s.len() - pos, 0int,
{
    let p = spec_skip_ws(s, pos);
    lemma_skip_ws_bounds(s, pos);
    if p < s.len() && is_ident_start_char(s[p]) {
        let e = spec_ident_end(s, p);
        lemma_ident_end_bounds(s, p);
        lemma_ident_end_bounds(s, p + 1);
        if lexeme_is_let(s, p, e) {
            lemma_let_in_progress(s, e);
        }
    }
}

pub proof fn lemma_let_in_progress(s: Seq<char>, e: int)
    requires
        0 <= e,
    ensures
        spec_let_in(s, e) matches SpecOutcome::Parsed(x, r2) ==> e < r2 && r2 <= s.len(),
    decreases s.len() - e, 3int,
{
    let p1 = spec_skip_ws(s, e);
    lemma_skip_ws_bounds(s, e);
    if p1 < s.len() && is_ident_start_char(s[p1]) {
        let e1 = spec_ident_end(s, p1);
        lemma_ident_end_bounds(s, p1);
        if !lexeme_is_keyword(s, p1, e1) {
            let p2 = spec_skip_ws(s, e1);
            lemma_skip_ws_bounds(s, e1);
            if p2 < s.len() && s[p2] == '=' {
                lemma_expr_progress(s, p2 + 1);
                match spec_expr(s, p2 + 1) {
                    SpecOutcome::Failed(_, _) => {},
                    SpecOutcome::Parsed(bound, r) => {
                        if p2 + 1 <= r && r <= s.len() {
                            let p4 = spec_skip_ws(s, r);
                            let e4 = spec_ident_end(s, p4);
                            lemma_skip_ws_bounds(s, r);
                            lemma_ident_end_bounds(s, p4);
                            if p4 < s.len() && lexeme_is_in(s, p4, e4) {
                                lemma_expr_progress(s, e4);
                            }
                        }
                    },
                }
            }
        }
    }
}

pub proof fn lemma_expr_progress(s: Seq<char>, pos: int)
    requires
        0 <= pos,
    ensures
        spec_expr(s, pos) matches SpecOutcome::Parsed(e, p) ==> pos < p && p <= s.len(),
    decreases s.len() - pos, 2int,
{
    lemma_atom_progress(s, pos);
    match spec_atom(s, pos) {
        SpecOutcome::Failed(_, _) => {},
        SpecOutcome::Parsed(first, p) => {
            if pos <= p && p <= s.len() {
                lemma_app_tail_progress(s, p, first);
            }
        },
    }
}

pub proof fn lemma_app_tail_progress(s: Seq<char>, pos: int, acc: SpecExpr)
    requires
        0 <= pos,
        pos <= s.len(),
    ensures
        spec_app_tail(s, pos, acc) matches SpecOutcome::Parsed(e, p) ==> pos <= p && p <= s.len(),
    decreases s.len() - pos, 1int,
{
    lemma_atom_progress(s, pos);
    match spec_atom(s, pos) {
        SpecOutcome::Failed(_, _) => {},
        SpecOutcome::Parsed(next, p2) => {
            if pos < p2 && p2 <= s.len() {
                lemma_app_tail_progress(s, p2, SpecExpr::App(Box::new(acc), Box::new(next)));
            }
        },
    }
}

} // verus!
