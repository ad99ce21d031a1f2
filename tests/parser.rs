use regex_dfa::error::ParseError;
use regex_dfa::parser::{fold_or, parse, parse_escape, Ast};

#[test]
fn test_parse_escape_success() {
    let expect: Ast = Ast::Char('\\');
    let actual: Ast = parse_escape(0, '\\').unwrap();
    assert_eq!(actual, expect);
}

#[test]
fn test_parse_escape_failure() {
    let expect = Err(ParseError::InvalidEscape(0, 'a'));
    let actual = parse_escape(0, 'a');
    assert_eq!(actual, expect);
}

#[test]
fn test_fold_or_if_true() {
    let seq: Vec<Ast> = vec![Ast::Char('a'), Ast::Char('b'), Ast::Char('c')];
    let left: Ast = Ast::Char('a');
    let right: Ast = Ast::Or(Box::new(Ast::Char('b')), Box::new(Ast::Char('c')));
    let expect: Ast = Ast::Or(Box::new(left), Box::new(right));
    let actual: Ast = fold_or(seq).unwrap();
    assert_eq!(actual, expect);
}

#[test]
fn test_fold_or_if_false() {
    let expect: Ast = Ast::Char('a');
    let seq: Vec<Ast> = vec![Ast::Char('a')];
    let actual: Ast = fold_or(seq).unwrap();
    assert_eq!(actual, expect);
}

#[test]
fn fold_or_of_nothing() {
    assert_eq!(fold_or(Vec::new()), None);
}

#[test]
fn test_parse_normal_string() {
    let expect: Ast = Ast::Concat(vec![Ast::Char('a'), Ast::Char('b'), Ast::Char('c')]);
    let pattern: &str = "abc";
    let actual: Ast = parse(pattern).unwrap();
    assert_eq!(actual, expect);
}

#[test]
fn test_parse_contain_or() {
    let abc: Ast = Ast::Concat(vec![Ast::Char('a'), Ast::Char('b'), Ast::Char('c')]);
    let def: Ast = Ast::Concat(vec![Ast::Char('d'), Ast::Char('e'), Ast::Char('f')]);
    let ghi: Ast = Ast::Concat(vec![Ast::Char('g'), Ast::Char('h'), Ast::Char('i')]);
    let expect: Ast = Ast::Or(
        Box::new(abc),
        Box::new(Ast::Or(Box::new(def), Box::new(ghi))),
    );
    let pattern: &str = "abc|def|ghi";
    let actual: Ast = parse(pattern).unwrap();
    assert_eq!(actual, expect);
}

#[test]
fn test_parse_contain_paran() {
    let expect: Ast = Ast::Concat(vec![
        Ast::Char('a'),
        Ast::Char('b'),
        Ast::Char('c'),
        Ast::Or(
            Box::new(Ast::Concat(vec![
                Ast::Char('d'),
                Ast::Char('e'),
                Ast::Char('f'),
            ])),
            Box::new(Ast::Concat(vec![
                Ast::Char('g'),
                Ast::Char('h'),
                Ast::Char('i'),
            ])),
        ),
    ]);
    let pattern: &str = "abc(def|ghi)";
    let actual: Ast = parse(pattern).unwrap();
    assert_eq!(actual, expect);
}

#[test]
fn test_parse_contain_escape() {
    let expect: Ast = Ast::Concat(vec![Ast::Char('a'), Ast::Char('*'), Ast::Char('b')]);
    let pattern: &str = "a\\*b";
    let actual: Ast = parse(pattern).unwrap();
    assert_eq!(actual, expect);
}

#[test]
fn test_parse_return_err() {
    let expect = Err(ParseError::NoRightParen);
    let pattern: &str = "abc(def|ghi";
    let actual = parse(pattern);
    assert_eq!(actual, expect);

    let expect = Err(ParseError::InvalidRightParen(12));
    let pattern: &str = "abc(def|ghi))";
    let actual = parse(pattern);
    assert_eq!(actual, expect);

    let expect = Err(ParseError::NoPrev(0));
    let pattern: &str = "*abc";
    let actual = parse(pattern);
    assert_eq!(actual, expect);

    let expect = Err(ParseError::Empty);
    let pattern: &str = "";
    let actual = parse(pattern);
    assert_eq!(actual, expect);

    let expect = Err(ParseError::InvalidEscape(2, 'b'));
    let pattern: &str = "a\\bc";
    let actual = parse(pattern);
    assert_eq!(actual, expect);
}

#[test]
fn parse_star_binds_to_last_item() {
    let expect = Ast::Concat(vec![Ast::Char('a'), Ast::Star(Box::new(Ast::Char('b')))]);
    assert_eq!(parse("ab*").unwrap(), expect);
}

#[test]
fn parse_starred_group() {
    let expect = Ast::Concat(vec![Ast::Star(Box::new(Ast::Or(
        Box::new(Ast::Concat(vec![Ast::Char('a')])),
        Box::new(Ast::Concat(vec![Ast::Char('b')])),
    )))]);
    assert_eq!(parse("(a|b)*").unwrap(), expect);
}

#[test]
fn parse_empty_group_is_dropped() {
    assert_eq!(parse("a()").unwrap(), Ast::Concat(vec![Ast::Char('a')]));
    assert_eq!(parse("()"), Err(ParseError::Empty));
}

#[test]
fn parse_empty_alternative() {
    let expect = Ast::Or(
        Box::new(Ast::Concat(vec![])),
        Box::new(Ast::Concat(vec![Ast::Char('a')])),
    );
    assert_eq!(parse("|a").unwrap(), expect);
    assert_eq!(parse("a|").unwrap(), Ast::Concat(vec![Ast::Char('a')]));
}

#[test]
fn parse_star_after_open_paren() {
    assert_eq!(parse("a(*)"), Err(ParseError::NoPrev(2)));
}

#[test]
fn parse_escaped_operators() {
    let expect = Ast::Concat(vec![
        Ast::Char('('),
        Ast::Char(')'),
        Ast::Char('|'),
        Ast::Char('\\'),
    ]);
    assert_eq!(parse(r"\(\)\|\\").unwrap(), expect);
}

#[test]
fn parse_error_positions_count_characters() {
    assert_eq!(parse("éé)"), Err(ParseError::InvalidRightParen(2)));
    assert_eq!(parse("é\\x"), Err(ParseError::InvalidEscape(2, 'x')));
}
