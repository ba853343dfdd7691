use boolfunc::parse::{InfixToken, TokenSeqType};
use boolfunc::table::truth_table;
use boolfunc::{BoolIterator, Function, ParseErrorKind};

fn all_rows(width: u8) -> Vec<Vec<bool>> {
    let mut iter = BoolIterator::new(width);
    let mut rows = Vec::new();
    while let Some(row) = iter.next() {
        rows.push(row);
    }
    rows
}

#[test]
fn compile_is_deterministic() {
    for text in ["!x & (y | z) | !z", "x & %", "(x", "", "a|b&c"] {
        assert_eq!(Function::parse(text), Function::parse(text));
    }
}

#[test]
fn compiled_formula_evaluates_under_every_assignment() {
    for text in ["!x & (y | z) | !z", "((a))", "1 | !!0", "q & p & q"] {
        let func = Function::parse(text).unwrap();
        let n = func.vars().len() as u8;
        if n == 0 {
            assert!(func.eval(&[]).is_some());
        }
        for row in all_rows(n) {
            assert!(func.eval(&row).is_some());
        }
    }
}

#[test]
fn variables_sorted_and_distinct() {
    assert_eq!(Function::parse("x & y | z").unwrap().vars(), &['x', 'y', 'z']);
    assert_eq!(Function::parse("z | y & x | z").unwrap().vars(), &['x', 'y', 'z']);
    assert_eq!(Function::parse("1").unwrap().vars(), &[] as &[char]);
}

#[test]
fn and_binds_tighter_than_or() {
    let func = Function::parse("x | y & z").unwrap();
    assert_eq!(Some(false), func.eval(&[false, true, false]));
    assert_eq!(Some(true), func.eval(&[true, false, false]));
}

#[test]
fn brackets_override_precedence() {
    let func = Function::parse("(x | y) & z").unwrap();
    assert_eq!(Some(false), func.eval(&[true, false, false]));
}

#[test]
fn double_negation() {
    let func = Function::parse("!!x").unwrap();
    assert_eq!(Some(true), func.eval(&[true]));
    assert_eq!(Some(false), func.eval(&[false]));
}

#[test]
fn illegal_character_position() {
    assert_eq!(
        Err(ParseErrorKind::IllegalCharacter('%').at(4)),
        Function::parse("x & %")
    );
}

#[test]
fn unbalanced_brackets() {
    assert_eq!(
        Err(ParseErrorKind::UnclosedParenthesis.at(2)),
        Function::parse("(x")
    );
    assert_eq!(
        Err(ParseErrorKind::UnmatchedParenthesis.at(1)),
        Function::parse("x)")
    );
}

#[test]
fn empty_and_blank_input() {
    assert_eq!(Err(ParseErrorKind::UnexpectedEOF.at(0)), Function::parse(""));
    assert_eq!(Err(ParseErrorKind::UnexpectedEOF.at(3)), Function::parse("   "));
}

#[test]
fn sequencing_errors() {
    assert_eq!(
        Err(ParseErrorKind::ExpectedOperator('y').at(2)),
        Function::parse("x y")
    );
    assert_eq!(
        Err(ParseErrorKind::ExpectedOperand('&').at(3)),
        Function::parse("x |&y")
    );
    assert_eq!(
        Err(ParseErrorKind::ExpectedOperand(')').at(1)),
        Function::parse("()")
    );
    assert_eq!(
        Err(ParseErrorKind::UnexpectedEOF.at(3)),
        Function::parse("x &")
    );
    assert_eq!(
        Err(ParseErrorKind::IllegalCharacter('X').at(0)),
        Function::parse("X")
    );
}

#[test]
fn first_error_wins() {
    assert_eq!(
        Err(ParseErrorKind::UnmatchedParenthesis.at(0)),
        Function::parse(") %")
    );
    assert_eq!(
        Err(ParseErrorKind::ExpectedOperand('&').at(0)),
        Function::parse("& (")
    );
}

#[test]
fn missing_variable_gives_none() {
    let func = Function::parse("x & y").unwrap();
    assert_eq!(None, func.eval(&[true]));
    assert_eq!(Some(true), func.eval(&[true, true, false]));
}

#[test]
fn enumerate_two_values() {
    let rows = all_rows(2);
    assert_eq!(4, rows.len());
    for row in &rows {
        assert_eq!(2, row.len());
    }
    for a in [false, true] {
        for b in [false, true] {
            assert_eq!(1, rows.iter().filter(|r| **r == vec![a, b]).count());
        }
    }
    assert_eq!(rows, all_rows(2));
}

#[test]
fn enumerate_zero_values() {
    assert!(all_rows(0).is_empty());
}

#[test]
fn enumerate_three_values_in_bit_order() {
    let rows = all_rows(3);
    assert_eq!(8, rows.len());
    assert_eq!(vec![false, true, true], rows[6]);
    assert_eq!(vec![true, false, true], rows[5]);
}

#[test]
fn token_sequencing() {
    assert_eq!(Ok(()), TokenSeqType::Operand.matches(InfixToken::And));
    assert_eq!(
        Err(ParseErrorKind::ExpectedOperator('1')),
        TokenSeqType::Operand.matches(InfixToken::Const(true))
    );
    assert_eq!(Ok(()), TokenSeqType::Operator.matches(InfixToken::LeftBracket));
    assert_eq!(
        Err(ParseErrorKind::ExpectedOperand(')')),
        TokenSeqType::Operator.matches(InfixToken::RightBracket)
    );
}

#[test]
fn error_position() {
    let err = ParseErrorKind::UnclosedParenthesis.at(7);
    assert_eq!(7, err.pos);
    assert_eq!(ParseErrorKind::UnclosedParenthesis, err.kind);
}

#[test]
fn truth_table_rows() {
    let func = Function::parse("x & !y").unwrap();
    let table = truth_table(&func);
    assert_eq!(
        vec![
            (vec![false, false], Some(false)),
            (vec![false, true], Some(false)),
            (vec![true, false], Some(true)),
            (vec![true, true], Some(false)),
        ],
        table
    );
    assert!(truth_table(&Function::parse("1").unwrap()).is_empty());
}
