use boolfunc::highlight::{highlight, Highlight};

#[test]
fn highlight_classes() {
    assert_eq!(
        vec![
            Highlight::Variable('a'),
            Highlight::Unknown(' '),
            Highlight::Operator('&'),
            Highlight::Variable('1'),
            Highlight::Operator('!'),
            Highlight::Unknown('%'),
            Highlight::Variable('0'),
            Highlight::Operator('|'),
        ],
        highlight("a &1!%0|")
    );
}

#[test]
fn highlight_unclosed_bracket() {
    assert_eq!(
        vec![
            Highlight::Bracket { level: 0, is_left: true, invalid: true },
            Highlight::Bracket { level: 1, is_left: true, invalid: false },
            Highlight::Variable('x'),
            Highlight::Bracket { level: 1, is_left: false, invalid: false },
        ],
        highlight("((x)")
    );
}

#[test]
fn highlight_unmatched_brackets() {
    assert_eq!(
        vec![
            Highlight::Variable('x'),
            Highlight::Bracket { level: 1, is_left: false, invalid: true },
            Highlight::Bracket { level: 0, is_left: false, invalid: true },
        ],
        highlight("x))")
    );
}

#[test]
fn highlight_nesting_levels_cycle() {
    let entries = highlight("((((x))))");
    assert_eq!(Highlight::Bracket { level: 0, is_left: true, invalid: false }, entries[0]);
    assert_eq!(Highlight::Bracket { level: 1, is_left: true, invalid: false }, entries[1]);
    assert_eq!(Highlight::Bracket { level: 2, is_left: true, invalid: false }, entries[2]);
    assert_eq!(Highlight::Bracket { level: 0, is_left: true, invalid: false }, entries[3]);
    assert_eq!(Highlight::Bracket { level: 0, is_left: false, invalid: false }, entries[5]);
    assert_eq!(Highlight::Bracket { level: 0, is_left: false, invalid: false }, entries[8]);
    assert!(highlight("").is_empty());
}
