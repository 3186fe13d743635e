use vstd::prelude::*;
use crate::ast::Expr;
use crate::grammar::Expected;
use crate::grammar::SpecOutcome;
use crate::grammar::is_ws_char;
use crate::grammar::is_ident_start_char;
use crate::grammar::is_ident_char;
use crate::grammar::spec_skip_ws;
use crate::grammar::spec_ident_end;
use crate::grammar::spec_atom;
use crate::grammar::spec_let_in;
use crate::grammar::spec_expr;
use crate::grammar::spec_app_tail;
use crate::grammar::spec_parse;
use crate::grammar::lemma_skip_ws_bounds;
use crate::grammar::lemma_ident_end_bounds;
use crate::grammar::lemma_atom_progress;
use crate::grammar::lemma_expr_progress;

verus! {

/// A parse failure: the position (in characters) where matching failed,
/// what the grammar expected there, and the character found there
/// (`None` at the end of the input).
#[derive(Clone, Copy, PartialEq, Eq, Debug)]
pub struct ParseError {
    pub pos: usize,
    pub expected: Expected,
    pub found: Option<char>,
}

/// The executable result of one grammar rule agrees with the spec-level
/// outcome: same tree and same end position on success, same position,
/// expectation and found character on failure.
pub open spec fn step_matches(
    s: Seq<char>,
    r: Result<(Expr, usize), ParseError>,
    out: SpecOutcome,
) -> bool {
    match out {
        SpecOutcome::Parsed(e, p) => r matches Ok(pair) && pair.0.to_spec() == e && pair.1 as int
            == p,
        SpecOutcome::Failed(p, ex) => r matches Err(err) && err.pos as int == p && err.expected
            == ex && err.found == (if 0 <= p && p < s.len() {
            Some(s[p])
        } else {
            None
        }),
    }
}

/// As [`step_matches`], for the caller-facing result that carries no end
/// position: on success the whole input was consumed.
pub open spec fn parse_matches(s: Seq<char>, r: Result<Expr, ParseError>, out: SpecOutcome) -> bool {
    match out {
        SpecOutcome::Parsed(e, _) => r matches Ok(root) && root.to_spec() == e,
        SpecOutcome::Failed(p, ex) => r matches Err(err) && err.pos as int == p && err.expected
            == ex && err.found == (if 0 <= p && p < s.len() {
            Some(s[p])
        } else {
            None
        }),
    }
}

fn ws_char(c: char) -> (b: bool)
    ensures
        b == is_ws_char(c),
{
    let u: u32 = c as u32;
    u == 32 || u == 9 || u == 10 || u == 13
}

fn ident_start_char(c: char) -> (b: bool)
    ensures
        b == is_ident_start_char(c),
{
    let u: u32 = c as u32;
    (97 <= u && u <= 122) || (65 <= u && u <= 90) || u == 95
}

fn ident_char(c: char) -> (b: bool)
    ensures
        b == is_ident_char(c),
{
    let u: u32 = c as u32;
    ident_start_char(c) || (48 <= u && u <= 57)
}

fn skip_whitespace(s: &str, pos: usize) -> (r: usize)
    requires
        pos as int <= s@.len(),
    ensures
        r as int == spec_skip_ws(s@, pos as int),
        pos <= r,
        r as int <= s@.len(),
    decreases s@.len() - pos,
{
    proof {
        lemma_skip_ws_bounds(s@, pos as int);
    }
    let len: usize = s.unicode_len();
    if pos < len {
        let c: char = s.get_char(pos);
        if ws_char(c) {
            return skip_whitespace(s, pos + 1);
        }
    }
    pos
}

fn scan_ident_end(s: &str, pos: usize) -> (r: usize)
    requires
        pos as int <= s@.len(),
    ensures
        r as int == spec_ident_end(s@, pos as int),
        pos <= r,
        r as int <= s@.len(),
    decreases s@.len() - pos,
{
    proof {
        lemma_ident_end_bounds(s@, pos as int);
    }
    let len: usize = s.unicode_len();
    if pos < len {
        let c: char = s.get_char(pos);
        if ident_char(c) {
            return scan_ident_end(s, pos + 1);
        }
    }
    pos
}

/// Parses `atom` at `pos`.
fn parse_atom(s: &str, pos: usize) -> (r: Result<(Expr, usize), ParseError>)
    requires
        pos as int <= s@.len(),
    ensures
        step_matches(s@, r, spec_atom(s@, pos as int)),
    decreases s@.len() - pos, 0int,
{
    let len: usize = s.unicode_len();
    let p: usize = skip_whitespace(s, pos);
    if p == len {
        return Err(ParseError { pos: p, expected: Expected::AtomStart, found: None });
    }
    let c: char = s.get_char(p);
    if !ident_start_char(c) {
        return Err(ParseError { pos: p, expected: Expected::AtomStart, found: Some(c) });
    }
    let e: usize = scan_ident_end(s, p);
    if e - p == 3 && c == 'l' && s.get_char(p + 1) == 'e' && s.get_char(p + 2) == 't' {
        return parse_let_in(s, e);
    }
    if e - p == 2 && c == 'i' && s.get_char(p + 1) == 'n' {
        return Err(ParseError { pos: p, expected: Expected::AtomStart, found: Some(c) });
    }
    let name: String = String::from_str(s.substring_char(p, e));
    Ok((Expr::Var(name), e))
}

/// Parses the remainder of `let_in` once the keyword `let` has been
/// consumed; `e` is the position just after the keyword.
fn parse_let_in(s: &str, e: usize) -> (r: Result<(Expr, usize), ParseError>)
    requires
        e as int <= s@.len(),
    ensures
        step_matches(s@, r, spec_let_in(s@, e as int)),
    decreases s@.len() - e, 3int,
{
    let len: usize = s.unicode_len();
    let p1: usize = skip_whitespace(s, e);
    if p1 == len {
        return Err(ParseError { pos: p1, expected: Expected::Ident, found: None });
    }
    let c1: char = s.get_char(p1);
    if !ident_start_char(c1) {
        return Err(ParseError { pos: p1, expected: Expected::Ident, found: Some(c1) });
    }
    let e1: usize = scan_ident_end(s, p1);
    let kw_let: bool = e1 - p1 == 3 && c1 == 'l' && s.get_char(p1 + 1) == 'e' && s.get_char(p1 + 2)
        == 't';
    let kw_in: bool = e1 - p1 == 2 && c1 == 'i' && s.get_char(p1 + 1) == 'n';
    if kw_let || kw_in {
        return Err(ParseError { pos: p1, expected: Expected::Ident, found: Some(c1) });
    }
    let name: String = String::from_str(s.substring_char(p1, e1));
    let p2: usize = skip_whitespace(s, e1);
    if p2 == len {
        return Err(ParseError { pos: p2, expected: Expected::Equals, found: None });
    }
    let c2: char = s.get_char(p2);
    if c2 != '=' {
        return Err(ParseError { pos: p2, expected: Expected::Equals, found: Some(c2) });
    }
    let bound_pair: (Expr, usize) = match parse_expr(s, p2 + 1) {
        Err(err) => {
            return Err(err);
        },
        Ok(pair) => pair,
    };
    let (bound, rpos): (Expr, usize) = bound_pair;
    proof {
        lemma_expr_progress(s@, p2 as int + 1);
    }
    let p4: usize = skip_whitespace(s, rpos);
    if p4 == len {
        return Err(ParseError { pos: p4, expected: Expected::KeywordIn, found: None });
    }
    let c4: char = s.get_char(p4);
    let e4: usize = scan_ident_end(s, p4);
    if !(e4 - p4 == 2 && c4 == 'i' && s.get_char(p4 + 1) == 'n') {
        return Err(ParseError { pos: p4, expected: Expected::KeywordIn, found: Some(c4) });
    }
    let body_pair: (Expr, usize) = match parse_expr(s, e4) {
        Err(err) => {
            return Err(err);
        },
        Ok(pair) => pair,
    };
    let (body, r2): (Expr, usize) = body_pair;
    Ok((Expr::Let(name, Box::new(bound), Box::new(body)), r2))
}

/// Parses `expr` at `pos`: one leading atom, then further atoms folded
/// into a left-associated application chain until no atom matches.
fn parse_expr(s: &str, pos: usize) -> (r: Result<(Expr, usize), ParseError>)
    requires
        pos as int <= s@.len(),
    ensures
        step_matches(s@, r, spec_expr(s@, pos as int)),
    decreases s@.len() - pos, 2int,
{
    let first_pair: (Expr, usize) = match parse_atom(s, pos) {
        Err(err) => {
            return Err(err);
        },
        Ok(pair) => pair,
    };
    proof {
        lemma_atom_progress(s@, pos as int);
    }
    let (first, p0): (Expr, usize) = first_pair;
    let mut acc: Expr = first;
    let mut cur: usize = p0;
    loop
        invariant
            (pos as int) < (cur as int),
            cur as int <= s@.len(),
            spec_app_tail(s@, cur as int, acc.to_spec()) == spec_expr(s@, pos as int),
        decreases s@.len() - cur,
    {
        match parse_atom(s, cur) {
            Err(_) => {
                return Ok((acc, cur));
            },
            Ok(pair) => {
                proof {
                    lemma_atom_progress(s@, cur as int);
                }
                let (next, p2): (Expr, usize) = pair;
                acc = Expr::App(Box::new(acc), Box::new(next));
                cur = p2;
            },
        }
    }
}

/// Parses a complete source text.
///
/// Returns the root of the abstract syntax tree exactly as the grammar
/// derives it from `input`, or the first failure met on the grammar's
/// committed path: its character position, what was expected there, and
/// the character found there. Trailing whitespace is accepted; any other
/// trailing text fails the whole call.
pub fn parse(input: &str) -> (r: Result<Expr, ParseError>)
    ensures
        parse_matches(input@, r, spec_parse(input@)),
{
    let root_pair: (Expr, usize) = match parse_expr(input, 0) {
        Err(err) => {
            return Err(err);
        },
        Ok(pair) => pair,
    };
    proof {
        lemma_expr_progress(input@, 0);
    }
    let (root, p): (Expr, usize) = root_pair;
    let len: usize = input.unicode_len();
    let t: usize = skip_whitespace(input, p);
    if t == len {
        Ok(root)
    } else {
        Err(ParseError { pos: t, expected: Expected::EndOfInput, found: Some(input.get_char(t)) })
    }
}

} // verus!
