use vstd::prelude::*;
use crate::ast::SpecExpr;
use crate::grammar::Expected;
use crate::grammar::SpecOutcome;
use crate::grammar::all_ws;
use crate::grammar::is_identifier;
use crate::grammar::is_keyword_seq;
use crate::grammar::is_ws_char;
use crate::grammar::is_ident_char;
use crate::grammar::is_ident_start_char;
use crate::grammar::lexeme_is_keyword;
use crate::grammar::lemma_skip_ws_stops;
use crate::grammar::lemma_ident_end_stops;
use crate::grammar::spec_atom;
use crate::grammar::spec_let_in;
use crate::grammar::spec_expr;
use crate::grammar::spec_app_tail;
use crate::grammar::spec_parse;

verus! {

// ---------------------------------------------------------------------------
// Laws of the grammar, proved once and for all inputs of the stated shape.
// The scenario-sized instances of these laws run as tests against the
// executable parser, whose contract ties it to `spec_parse`.
// ---------------------------------------------------------------------------

/// A lexeme of an identifier placed inside a larger input is a keyword
/// there exactly when the lexeme itself is one.
proof fn lemma_keyword_at(s: Seq<char>, a: int, id: Seq<char>)
    requires
        0 <= a,
        a + id.len() <= s.len(),
        forall|i: int| 0 <= i < id.len() ==> s[a + i] == id[i],
    ensures
        lexeme_is_keyword(s, a, a + id.len()) == is_keyword_seq(id),
{
    if id.len() == 3 {
        assert(s[a] == id[0]);
        assert(s[a + 1] == id[1]);
        assert(s[a + 2] == id[2]);
    }
    if id.len() == 2 {
        assert(s[a] == id[0]);
        assert(s[a + 1] == id[1]);
    }
}

/// Whitespace insensitivity and keyword exclusivity for a one-token
/// input: a single identifier, inside any amount of whitespace, parses
/// as a variable reference to exactly that identifier — provided the
/// identifier is not a reserved keyword. In particular keyword matching
/// never prefix-matches: an identifier merely beginning with `let` or
/// `in` is an ordinary variable.
pub proof fn lemma_single_ident_parses(w1: Seq<char>, id: Seq<char>, w2: Seq<char>)
    requires
        all_ws(w1),
        all_ws(w2),
        is_identifier(id),
        !is_keyword_seq(id),
    ensures
        spec_parse(w1 + id + w2) == SpecOutcome::Parsed(
            SpecExpr::Var(id),
            (w1 + id + w2).len() as int,
        ),
{
    let s = w1 + id + w2;
    let a = w1.len() as int;
    let b = a + id.len();
    let n = s.len() as int;
    assert forall|i: int| 0 <= i < a implies is_ws_char(s[i]) by {
        assert(s[i] == w1[i]);
    }
    assert forall|i: int| a <= i < b implies s[i] == id[i - a] by {}
    assert forall|i: int| b <= i < n implies is_ws_char(s[i]) by {
        assert(s[i] == w2[i - b]);
    }
    // The leading whitespace ends exactly where the identifier starts.
    assert(!is_ws_char(s[a]));
    lemma_skip_ws_stops(s, 0, a);
    lemma_ident_end_stops(s, a, b);
    assert forall|i: int| 0 <= i < id.len() implies s[a + i] == id[i] by {}
    lemma_keyword_at(s, a, id);
    assert(s.subrange(a, b) =~= id);
    assert(spec_atom(s, 0) == SpecOutcome::Parsed(SpecExpr::Var(id), b));
    // The repetition finds only whitespace after the identifier and stops.
    lemma_skip_ws_stops(s, b, n);
    assert(spec_atom(s, b) == SpecOutcome::Failed(n, Expected::AtomStart));
    assert(spec_app_tail(s, b, SpecExpr::Var(id)) == SpecOutcome::Parsed(SpecExpr::Var(id), b));
    assert(spec_expr(s, 0) == SpecOutcome::Parsed(SpecExpr::Var(id), b));
    assert(spec_parse(s) == SpecOutcome::Parsed(SpecExpr::Var(id), n));
}

/// Whitespace insensitivity for a two-token input: two identifiers with
/// any non-empty whitespace run between them, and any whitespace around
/// them, parse as the application of the first to the second — whatever
/// the whitespace. Neither identifier may be a reserved keyword.
pub proof fn lemma_two_idents_parse_as_app(
    w0: Seq<char>,
    id1: Seq<char>,
    w: Seq<char>,
    id2: Seq<char>,
    w3: Seq<char>,
)
    requires
        all_ws(w0),
        all_ws(w),
        all_ws(w3),
        w.len() > 0,
        is_identifier(id1),
        !is_keyword_seq(id1),
        is_identifier(id2),
        !is_keyword_seq(id2),
    ensures
        spec_parse(w0 + id1 + w + id2 + w3) == SpecOutcome::Parsed(
            SpecExpr::App(Box::new(SpecExpr::Var(id1)), Box::new(SpecExpr::Var(id2))),
            (w0 + id1 + w + id2 + w3).len() as int,
        ),
{
    let s = w0 + id1 + w + id2 + w3;
    let a0 = w0.len() as int;
    let a1 = a0 + id1.len();
    let a2 = a1 + w.len();
    let a3 = a2 + id2.len();
    let n = s.len() as int;
    assert forall|i: int| 0 <= i < a0 implies is_ws_char(s[i]) by {
        assert(s[i] == w0[i]);
    }
    assert forall|i: int| a0 <= i < a1 implies s[i] == id1[i - a0] by {}
    assert forall|i: int| a1 <= i < a2 implies is_ws_char(s[i]) by {
        assert(s[i] == w[i - a1]);
    }
    assert forall|i: int| a2 <= i < a3 implies s[i] == id2[i - a2] by {}
    assert forall|i: int| a3 <= i < n implies is_ws_char(s[i]) by {
        assert(s[i] == w3[i - a3]);
    }
    // First atom: the identifier `id1`.
    assert(!is_ws_char(s[a0]));
    lemma_skip_ws_stops(s, 0, a0);
    assert(!is_ident_char(s[a1]));
    lemma_ident_end_stops(s, a0, a1);
    assert forall|i: int| 0 <= i < id1.len() implies s[a0 + i] == id1[i] by {}
    lemma_keyword_at(s, a0, id1);
    assert(s.subrange(a0, a1) =~= id1);
    assert(spec_atom(s, 0) == SpecOutcome::Parsed(SpecExpr::Var(id1), a1));
    // Second atom: the identifier `id2`, behind the whitespace run.
    assert(!is_ws_char(s[a2]));
    lemma_skip_ws_stops(s, a1, a2);
    lemma_ident_end_stops(s, a2, a3);
    assert forall|i: int| 0 <= i < id2.len() implies s[a2 + i] == id2[i] by {}
    lemma_keyword_at(s, a2, id2);
    assert(s.subrange(a2, a3) =~= id2);
    assert(spec_atom(s, a1) == SpecOutcome::Parsed(SpecExpr::Var(id2), a3));
    // The repetition folds the two into one application and then stops.
    lemma_skip_ws_stops(s, a3, n);
    assert(spec_atom(s, a3) == SpecOutcome::Failed(n, Expected::AtomStart));
    let app = SpecExpr::App(Box::new(SpecExpr::Var(id1)), Box::new(SpecExpr::Var(id2)));
    assert(spec_app_tail(s, a3, app) == SpecOutcome::Parsed(app, a3));
    assert(spec_app_tail(s, a1, SpecExpr::Var(id1)) == SpecOutcome::Parsed(app, a3));
    assert(spec_expr(s, 0) == SpecOutcome::Parsed(app, a3));
    assert(spec_parse(s) == SpecOutcome::Parsed(app, n));
}

// ---------------------------------------------------------------------------
// The general application chain: any number of identifiers, any
// whitespace between them.
// ---------------------------------------------------------------------------

/// Every character of `s` in `[lo, hi)` is whitespace.
pub open spec fn ws_range(s: Seq<char>, lo: int, hi: int) -> bool {
    forall|i: int| lo <= i < hi ==> is_ws_char(s[i])
}

/// The span `[a, b)` of `s` is a token of the grammar's variable form: a
/// well-formed identifier that is not a reserved keyword.
pub open spec fn token_is_ident(s: Seq<char>, a: int, b: int) -> bool {
    &&& 0 <= a < b <= s.len()
    &&& is_ident_start_char(s[a])
    &&& forall|i: int| a <= i < b ==> is_ident_char(s[i])
    &&& !lexeme_is_keyword(s, a, b)
}

/// Between one token's end `b` and the next token's start `a` stands at
/// least one character, all of it whitespace.
pub open spec fn gap_ok(s: Seq<char>, b: int, a: int) -> bool {
    b < a && ws_range(s, b, a)
}

/// `toks` lists the character spans of the tokens of `s`, in order, each
/// a non-keyword identifier: only whitespace before the first token,
/// between neighbours (at least one character of it) and after the last.
pub open spec fn tokens_cover(s: Seq<char>, toks: Seq<(int, int)>) -> bool {
    &&& toks.len() >= 1
    &&& forall|j: int| 0 <= j < toks.len() ==> #[trigger] token_is_ident(s, toks[j].0, toks[j].1)
    &&& ws_range(s, 0, toks[0].0)
    &&& forall|j: int| 0 <= j < toks.len() - 1 ==> #[trigger] gap_ok(s, toks[j].1, toks[j + 1].0)
    &&& ws_range(s, toks[toks.len() - 1].1, s.len() as int)
}

/// The left fold of application over the variables named by the tokens
/// of `toks` from index `j` on, starting from `acc`:
/// `App(App(acc, Var(tok_j)), Var(tok_j+1)) ...`.
pub open spec fn fold_apps(s: Seq<char>, toks: Seq<(int, int)>, j: int, acc: SpecExpr) -> SpecExpr
    decreases toks.len() - j,
{
    if j < 0 || j >= toks.len() {
        acc
    } else {
        fold_apps(
            s,
            toks,
            j + 1,
            SpecExpr::App(
                Box::new(acc),
                Box::new(SpecExpr::Var(s.subrange(toks[j].0, toks[j].1))),
            ),
        )
    }
}

/// An atom read anywhere in the whitespace before an identifier token is
/// exactly that token, as a variable.
proof fn lemma_atom_at(s: Seq<char>, a: int, b: int, q: int)
    requires
        token_is_ident(s, a, b),
        0 <= q <= a,
        ws_range(s, q, a),
        b < s.len() ==> !is_ident_char(s[b]),
    ensures
        spec_atom(s, q) == SpecOutcome::Parsed(SpecExpr::Var(s.subrange(a, b)), b),
{
    assert(!is_ws_char(s[a]));
    lemma_skip_ws_stops(s, q, a);
    lemma_ident_end_stops(s, a, b);
}

/// The repetition `atom*`, resumed at the end of token `j - 1`, folds
/// every remaining token into the accumulator and stops at the end of
/// the last one.
proof fn lemma_app_tail_chain(s: Seq<char>, toks: Seq<(int, int)>, j: int, acc: SpecExpr)
    requires
        tokens_cover(s, toks),
        1 <= j <= toks.len(),
    ensures
        spec_app_tail(s, toks[j - 1].1, acc) == SpecOutcome::Parsed(
            fold_apps(s, toks, j, acc),
            toks[toks.len() - 1].1,
        ),
    decreases toks.len() - j,
{
    let b_prev = toks[j - 1].1;
    let last = toks.len() - 1;
    assert(token_is_ident(s, toks[j - 1].0, toks[j - 1].1));
    if j == toks.len() {
        // Only whitespace is left: the next atom fails at the end of the
        // input, and the repetition stops where the last token ended.
        lemma_skip_ws_stops(s, b_prev, s.len() as int);
        assert(spec_atom(s, b_prev) == SpecOutcome::Failed(s.len() as int, Expected::AtomStart));
    } else {
        let a = toks[j].0;
        let b = toks[j].1;
        let jp = j - 1;
        assert(token_is_ident(s, a, b));
        assert(gap_ok(s, toks[jp].1, toks[jp + 1].0));
        if j < last {
            assert(gap_ok(s, toks[j].1, toks[j + 1].0));
            assert(is_ws_char(s[b]));
        } else {
            if b < s.len() {
                assert(is_ws_char(s[b]));
            }
        }
        lemma_atom_at(s, a, b, b_prev);
        lemma_app_tail_chain(
            s,
            toks,
            j + 1,
            SpecExpr::App(Box::new(acc), Box::new(SpecExpr::Var(s.subrange(a, b)))),
        );
    }
}

/// Left-associativity and whitespace insensitivity in full: an input
/// whose tokens are any number of non-keyword identifiers, with any
/// whitespace before, between and after them, parses to exactly the
/// left-associated application chain of those identifiers — the
/// whitespace decides nothing but where the tokens lie.
pub proof fn lemma_ident_chain_parses(s: Seq<char>, toks: Seq<(int, int)>)
    requires
        tokens_cover(s, toks),
    ensures
        spec_parse(s) == SpecOutcome::Parsed(
            fold_apps(s, toks, 1, SpecExpr::Var(s.subrange(toks[0].0, toks[0].1))),
            s.len() as int,
        ),
{
    let a0 = toks[0].0;
    let b0 = toks[0].1;
    let last = toks.len() - 1;
    assert(token_is_ident(s, a0, b0));
    assert(token_is_ident(s, toks[last].0, toks[last].1));
    if 0 < last {
        assert(gap_ok(s, toks[0].1, toks[1].0));
        assert(is_ws_char(s[b0]));
    } else {
        if b0 < s.len() {
            assert(is_ws_char(s[b0]));
        }
    }
    lemma_atom_at(s, a0, b0, 0);
    lemma_app_tail_chain(s, toks, 1, SpecExpr::Var(s.subrange(a0, b0)));
    lemma_skip_ws_stops(s, toks[last].1, s.len() as int);
}

// ---------------------------------------------------------------------------
// The general let-binding shape.
// ---------------------------------------------------------------------------

/// The shape of a `let`-binding, for any identifiers and any whitespace.
/// An input that reads, token by token, `let` `x` `=` `a` `in` `b` —
/// with whitespace wherever the spans below leave room for it, required
/// only where its absence would merge two tokens into one — parses as
/// `Let(x, Var(a), Var(b))`. The token spans name the positions: the
/// keyword `let` at `k0`, the bound name over `[x0, x1)`, `=` at `q`,
/// the bound variable over `[a0, a1)`, the keyword `in` at `k1`, and the
/// body variable over `[b0, b1)`.
pub proof fn lemma_let_shape_parses(
    s: Seq<char>,
    k0: int,
    x0: int,
    x1: int,
    q: int,
    a0: int,
    a1: int,
    k1: int,
    b0: int,
    b1: int,
)
    requires
        0 <= k0,
        k0 + 3 <= s.len(),
        s[k0] == 'l' && s[k0 + 1] == 'e' && s[k0 + 2] == 't',
        ws_range(s, 0, k0),
        gap_ok(s, k0 + 3, x0),
        token_is_ident(s, x0, x1),
        ws_range(s, x1, q),
        x1 <= q < s.len(),
        s[q] == '=',
        ws_range(s, q + 1, a0),
        q + 1 <= a0,
        token_is_ident(s, a0, a1),
        gap_ok(s, a1, k1),
        k1 + 2 <= s.len(),
        s[k1] == 'i' && s[k1 + 1] == 'n',
        gap_ok(s, k1 + 2, b0),
        token_is_ident(s, b0, b1),
        ws_range(s, b1, s.len() as int),
    ensures
        spec_parse(s) == SpecOutcome::Parsed(
            SpecExpr::Let(
                s.subrange(x0, x1),
                Box::new(SpecExpr::Var(s.subrange(a0, a1))),
                Box::new(SpecExpr::Var(s.subrange(b0, b1))),
            ),
            s.len() as int,
        ),
{
    let n = s.len() as int;
    // The keyword `let` opens a binding and commits to it.
    lemma_skip_ws_stops(s, 0, k0);
    lemma_ident_end_stops(s, k0, k0 + 3);
    assert(spec_atom(s, 0) == spec_let_in(s, k0 + 3));
    // The bound name `x`; the character after it is whitespace or `=`,
    // so the identifier ends exactly at `x1`.
    lemma_skip_ws_stops(s, k0 + 3, x0);
    assert(x1 < q ==> is_ws_char(s[x1]));
    lemma_ident_end_stops(s, x0, x1);
    // `=`, then the bound expression: the single atom `a`.
    lemma_skip_ws_stops(s, x1, q);
    lemma_skip_ws_stops(s, q + 1, a0);
    lemma_ident_end_stops(s, a0, a1);
    assert(spec_atom(s, q + 1) == SpecOutcome::Parsed(SpecExpr::Var(s.subrange(a0, a1)), a1));
    // The keyword `in` is no atom: the bound expression stops before it.
    lemma_skip_ws_stops(s, a1, k1);
    lemma_ident_end_stops(s, k1, k1 + 2);
    assert(spec_atom(s, a1) == SpecOutcome::Failed(k1, Expected::AtomStart));
    assert(spec_expr(s, q + 1) == SpecOutcome::Parsed(SpecExpr::Var(s.subrange(a0, a1)), a1));
    // Past `in`, the body: the single atom `b`, then only whitespace.
    lemma_skip_ws_stops(s, k1 + 2, b0);
    lemma_ident_end_stops(s, b0, b1);
    assert(spec_atom(s, k1 + 2) == SpecOutcome::Parsed(SpecExpr::Var(s.subrange(b0, b1)), b1));
    lemma_skip_ws_stops(s, b1, n);
    assert(spec_atom(s, b1) == SpecOutcome::Failed(n, Expected::AtomStart));
    assert(spec_expr(s, k1 + 2) == SpecOutcome::Parsed(SpecExpr::Var(s.subrange(b0, b1)), b1));
    // The whole binding, and nothing but whitespace after it.
    let tree = SpecExpr::Let(
        s.subrange(x0, x1),
        Box::new(SpecExpr::Var(s.subrange(a0, a1))),
        Box::new(SpecExpr::Var(s.subrange(b0, b1))),
    );
    assert(spec_let_in(s, k0 + 3) == SpecOutcome::Parsed(tree, b1));
    assert(spec_app_tail(s, b1, tree) == SpecOutcome::Parsed(tree, b1));
    assert(spec_expr(s, 0) == SpecOutcome::Parsed(tree, b1));
    assert(spec_parse(s) == SpecOutcome::Parsed(tree, n));
}

} // verus!
