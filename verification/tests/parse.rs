use letparse::parse;
use letparse::Expected;
use letparse::Expr;
use letparse::ParseError;

#[test]
fn parses_let_in() {
    assert_eq!(
        parse("let hello = world in hello world"),
        Ok(Expr::Let(
            "hello".into(),
            Box::new(Expr::Var("world".into())),
            Box::new(Expr::App(
                Box::new(Expr::Var("hello".into())),
                Box::new(Expr::Var("world".into()))
            ))
        ))
    );
}

#[test]
fn parses_application() {
    let app = Ok(Expr::App(
        Box::new(Expr::App(
            Box::new(Expr::Var("hello".into())),
            Box::new(Expr::Var("beautiful".into())),
        )),
        Box::new(Expr::Var("world".into())),
    ));

    assert_eq!(parse("hello beautiful world"), app);
}

#[test]
fn parses_single_identifier() {
    assert_eq!(parse("hello"), Ok(Expr::Var("hello".into())));
}

#[test]
fn application_is_left_associative() {
    assert_eq!(
        parse("a b c"),
        Ok(Expr::App(
            Box::new(Expr::App(
                Box::new(Expr::Var("a".into())),
                Box::new(Expr::Var("b".into())),
            )),
            Box::new(Expr::Var("c".into())),
        ))
    );
}

#[test]
fn let_binding_shape() {
    assert_eq!(
        parse("let x = a in b"),
        Ok(Expr::Let(
            "x".into(),
            Box::new(Expr::Var("a".into())),
            Box::new(Expr::Var("b".into())),
        ))
    );
}

#[test]
fn nested_let() {
    assert_eq!(
        parse("let x = let y = a in y in x"),
        Ok(Expr::Let(
            "x".into(),
            Box::new(Expr::Let(
                "y".into(),
                Box::new(Expr::Var("a".into())),
                Box::new(Expr::Var("y".into())),
            )),
            Box::new(Expr::Var("x".into())),
        ))
    );
}

#[test]
fn keyword_let_alone_fails() {
    assert_eq!(
        parse("let"),
        Err(ParseError { pos: 3, expected: Expected::Ident, found: None })
    );
}

#[test]
fn keyword_in_alone_fails() {
    assert_eq!(
        parse("in"),
        Err(ParseError { pos: 0, expected: Expected::AtomStart, found: Some('i') })
    );
}

#[test]
fn keyword_does_not_prefix_match() {
    assert_eq!(parse("letx"), Ok(Expr::Var("letx".into())));
    assert_eq!(
        parse("inx x"),
        Ok(Expr::App(
            Box::new(Expr::Var("inx".into())),
            Box::new(Expr::Var("x".into())),
        ))
    );
}

#[test]
fn whitespace_is_insignificant() {
    let expected = Ok(Expr::App(
        Box::new(Expr::Var("hello".into())),
        Box::new(Expr::Var("world".into())),
    ));
    assert_eq!(parse("hello   world"), expected);
    assert_eq!(parse("hello world"), expected);
    assert_eq!(parse("hello   world"), parse("hello world"));
    assert_eq!(parse("\n hello\t\r\n world \n"), expected);
}

#[test]
fn surrounding_whitespace_is_accepted() {
    assert_eq!(parse("  x  "), Ok(Expr::Var("x".into())));
}

#[test]
fn trailing_garbage_is_rejected() {
    assert_eq!(
        parse("hello )"),
        Err(ParseError { pos: 6, expected: Expected::EndOfInput, found: Some(')') })
    );
}

#[test]
fn empty_input_fails() {
    assert_eq!(
        parse(""),
        Err(ParseError { pos: 0, expected: Expected::AtomStart, found: None })
    );
}

#[test]
fn let_without_name_fails() {
    assert_eq!(
        parse("let = a in b"),
        Err(ParseError { pos: 4, expected: Expected::Ident, found: Some('=') })
    );
}

#[test]
fn let_with_keyword_name_fails() {
    assert_eq!(
        parse("let in = a in b"),
        Err(ParseError { pos: 4, expected: Expected::Ident, found: Some('i') })
    );
    assert_eq!(
        parse("let let = a in b"),
        Err(ParseError { pos: 4, expected: Expected::Ident, found: Some('l') })
    );
}

#[test]
fn let_without_equals_fails() {
    assert_eq!(
        parse("let x a in b"),
        Err(ParseError { pos: 6, expected: Expected::Equals, found: Some('a') })
    );
}

#[test]
fn let_without_in_fails() {
    // The bound expression greedily takes the application chain `a b`,
    // after which the keyword `in` is required but the input ends.
    assert_eq!(
        parse("let x = a b"),
        Err(ParseError { pos: 11, expected: Expected::KeywordIn, found: None })
    );
}

#[test]
fn keyword_after_chain_is_trailing_garbage() {
    // The repetition stops at `let` (an incomplete binding follows), and
    // the whole-input check then rejects it as unconsumed trailing text.
    assert_eq!(
        parse("a let"),
        Err(ParseError { pos: 2, expected: Expected::EndOfInput, found: Some('l') })
    );
}

#[test]
fn identifiers_may_hold_digits_and_underscores() {
    assert_eq!(
        parse("_x y_1"),
        Ok(Expr::App(
            Box::new(Expr::Var("_x".into())),
            Box::new(Expr::Var("y_1".into())),
        ))
    );
}

#[test]
fn long_chain_stays_left_associative() {
    assert_eq!(
        parse(" a\tb \n c  d "),
        Ok(Expr::App(
            Box::new(Expr::App(
                Box::new(Expr::App(
                    Box::new(Expr::Var("a".into())),
                    Box::new(Expr::Var("b".into())),
                )),
                Box::new(Expr::Var("c".into())),
            )),
            Box::new(Expr::Var("d".into())),
        ))
    );
}

#[test]
fn expectations_have_descriptions() {
    assert_eq!(Expected::AtomStart.describe(), "expected identifier or keyword `let`");
    assert_eq!(Expected::Ident.describe(), "expected identifier");
    assert_eq!(Expected::Equals.describe(), "expected `=`");
    assert_eq!(Expected::KeywordIn.describe(), "expected keyword `in`");
    assert_eq!(Expected::EndOfInput.describe(), "expected end of input");
}

#[test]
fn digit_cannot_start_identifier() {
    assert_eq!(
        parse("9x"),
        Err(ParseError { pos: 0, expected: Expected::AtomStart, found: Some('9') })
    );
}
