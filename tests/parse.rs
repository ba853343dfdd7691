use boolfunc::{Function, PostfixToken};

#[test]
fn parse_one() {
    let parsed = Function::parse("1");
    let expected = Function {
        variables: Vec::new(),
        postfix: vec![PostfixToken::Const(true)],
    };
    assert_eq!(Ok(expected), parsed);
}

#[test]
fn parse_not() {
    let parsed = Function::parse("!1");
    let expected = Function {
        variables: Vec::new(),
        postfix: vec![PostfixToken::Const(true), PostfixToken::Not],
    };
    assert_eq!(Ok(expected), parsed);
}

#[test]
fn parse_chained_and() {
    let parsed = Function::parse("x & 1 & y");
    let expected = Function {
        variables: vec!['x', 'y'],
        postfix: vec![
            PostfixToken::Var('x'),
            PostfixToken::Const(true),
            PostfixToken::And,
            PostfixToken::Var('y'),
            PostfixToken::And,
        ],
    };
    assert_eq!(Ok(expected), parsed);
}

#[test]
fn parse_chained_or() {
    let parsed = Function::parse("x | y | 0");
    let expected = Function {
        variables: vec!['x', 'y'],
        postfix: vec![
            PostfixToken::Var('x'),
            PostfixToken::Var('y'),
            PostfixToken::Or,
            PostfixToken::Const(false),
            PostfixToken::Or,
        ],
    };
    assert_eq!(Ok(expected), parsed);
}

#[test]
fn parse_combined() {
    let parsed = Function::parse("1 & x | y");
    let expected = Function {
        variables: vec!['x', 'y'],
        postfix: vec![
            PostfixToken::Const(true),
            PostfixToken::Var('x'),
            PostfixToken::And,
            PostfixToken::Var('y'),
            PostfixToken::Or,
        ],
    };
    assert_eq!(Ok(expected), parsed);
}

#[test]
fn parse_parenthesis() {
    let parsed = Function::parse("1 & (x | y)");
    let expected = Function {
        variables: vec!['x', 'y'],
        postfix: vec![
            PostfixToken::Const(true),
            PostfixToken::Var('x'),
            PostfixToken::Var('y'),
            PostfixToken::Or,
            PostfixToken::And,
        ],
    };
    assert_eq!(Ok(expected), parsed);
}

#[test]
fn parse_complex() {
    let parsed = Function::parse("!x & (y | z) | !z");
    let expected = Function {
        variables: vec!['x', 'y', 'z'],
        postfix: vec![
            PostfixToken::Var('x'),
            PostfixToken::Not,
            PostfixToken::Var('y'),
            PostfixToken::Var('z'),
            PostfixToken::Or,
            PostfixToken::And,
            PostfixToken::Var('z'),
            PostfixToken::Not,
            PostfixToken::Or,
        ],
    };
    assert_eq!(Ok(expected), parsed);
}
