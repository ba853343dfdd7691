use vstd::prelude::*;

use crate::function::{ascending, Function, PostfixToken};
use crate::syntax::{build, lemma_build, lemma_to_postfix_is_postorder, postorder};
use crate::translate::{into_postfix, lemma_to_postfix_sound, well_sequenced};

verus! {

/// A token of the infix source text.
#[derive(Debug, Clone, Copy, PartialEq, Eq, Structural)]
pub enum InfixToken {
    And,
    Or,
    Not,
    Variable(char),
    Const(bool),
    LeftBracket,
    RightBracket,
}

/// What the token just read asks of the next one.
#[derive(Debug, Clone, Copy, PartialEq, Eq, Structural)]
pub enum TokenSeqType {
    /// A token that should be followed by '&', '|', or ')'.
    Operand,
    /// A token that should be followed by operand, '!', or '('.
    Operator,
}

/// Why a text is not a formula.
#[derive(Debug, Clone, Copy, PartialEq, Eq, Structural)]
pub enum ParseErrorKind {
    IllegalCharacter(char),
    UnmatchedParenthesis,
    UnclosedParenthesis,
    ExpectedOperator(char),
    ExpectedOperand(char),
    UnexpectedEOF,
}

/// A rejected text: what is wrong, and at which character position.
#[derive(Debug, Clone, Copy, PartialEq, Eq, Structural)]
pub struct ParseError {
    pub pos: usize,
    pub kind: ParseErrorKind,
}

/// The character that a token is written with.
pub open spec fn symbol_of(t: InfixToken) -> char {
    match t {
        InfixToken::And => '&',
        InfixToken::Or => '|',
        InfixToken::Not => '!',
        InfixToken::Variable(ch) => ch,
        InfixToken::Const(b) => if b {
            '1'
        } else {
            '0'
        },
        InfixToken::LeftBracket => '(',
        InfixToken::RightBracket => ')',
    }
}

/// Operands and closing brackets ask for an operator next; everything else
/// asks for an operand.
pub open spec fn seq_type_of(t: InfixToken) -> TokenSeqType {
    match t {
        InfixToken::Variable(_) | InfixToken::Const(_) | InfixToken::RightBracket => TokenSeqType::Operand,
        _ => TokenSeqType::Operator,
    }
}

/// Whether `next` may follow a token of sequencing type `prev`, and the
/// error otherwise.
pub open spec fn seq_check(prev: TokenSeqType, next: InfixToken) -> Result<(), ParseErrorKind> {
    match prev {
        TokenSeqType::Operand => match next {
            InfixToken::And | InfixToken::Or | InfixToken::RightBracket => Ok(()),
            _ => Err(ParseErrorKind::ExpectedOperator(symbol_of(next))),
        },
        TokenSeqType::Operator => match next {
            InfixToken::Variable(_) | InfixToken::Const(_) | InfixToken::Not
            | InfixToken::LeftBracket => Ok(()),
            _ => Err(ParseErrorKind::ExpectedOperand(symbol_of(next))),
        },
    }
}

impl From<InfixToken> for char {
    fn from(value: InfixToken) -> (r: char)
        ensures
            r == symbol_of(value),
    {
        match value {
            InfixToken::And => '&',
            InfixToken::Or => '|',
            InfixToken::Not => '!',
            InfixToken::Variable(ch) => ch,
            InfixToken::Const(true) => '1',
            InfixToken::Const(false) => '0',
            InfixToken::LeftBracket => '(',
            InfixToken::RightBracket => ')',
        }
    }
}

impl vstd::std_specs::convert::FromSpecImpl<InfixToken> for char {
    open spec fn obeys_from_spec() -> bool {
        true
    }

    open spec fn from_spec(v: InfixToken) -> char {
        symbol_of(v)
    }
}

impl From<InfixToken> for TokenSeqType {
    fn from(value: InfixToken) -> (r: TokenSeqType)
        ensures
            r == seq_type_of(value),
    {
        match value {
            InfixToken::And => TokenSeqType::Operator,
            InfixToken::Or => TokenSeqType::Operator,
            InfixToken::Not => TokenSeqType::Operator,
            InfixToken::Variable(_) => TokenSeqType::Operand,
            InfixToken::Const(_) => TokenSeqType::Operand,
            InfixToken::LeftBracket => TokenSeqType::Operator,
            InfixToken::RightBracket => TokenSeqType::Operand,
        }
    }
}

impl vstd::std_specs::convert::FromSpecImpl<InfixToken> for TokenSeqType {
    open spec fn obeys_from_spec() -> bool {
        true
    }

    open spec fn from_spec(v: InfixToken) -> TokenSeqType {
        seq_type_of(v)
    }
}

impl TokenSeqType {
    /// Checks that `next` may follow a token of this type.
    pub fn matches(&self, next: InfixToken) -> (r: Result<(), ParseErrorKind>)
        ensures
            r == seq_check(*self, next),
    {
        match self {
            TokenSeqType::Operand => match next {
                InfixToken::And | InfixToken::Or | InfixToken::RightBracket => Ok(()),
                _ => Err(ParseErrorKind::ExpectedOperator(char::from(next))),
            },
            TokenSeqType::Operator => match next {
                InfixToken::Variable(_) | InfixToken::Const(_) | InfixToken::Not
                | InfixToken::LeftBracket => Ok(()),
                _ => Err(ParseErrorKind::ExpectedOperand(char::from(next))),
            },
        }
    }
}

impl ParseErrorKind {
    /// This error, placed at character position `pos`.
    pub fn at(self, pos: usize) -> (r: ParseError)
        ensures
            r == (ParseError { pos, kind: self }),
    {
        ParseError { pos, kind: self }
    }
}

/// Whether `c` has Unicode's White_Space property, as `char::is_whitespace`
/// decides it.
pub uninterp spec fn white_space(c: char) -> bool;

/// Relies on `char::is_whitespace`: true exactly for the characters with the
/// White_Space property, a fixed set that depends on the character alone.
#[verifier::external_body]
fn is_white_space(c: char) -> (r: bool)
    ensures
        r == white_space(c),
{
    c.is_whitespace()
}

/// The token a non-blank character stands for, if any.
pub open spec fn token_of(c: char) -> Option<InfixToken> {
    if c == '&' {
        Some(InfixToken::And)
    } else if c == '|' {
        Some(InfixToken::Or)
    } else if c == '!' {
        Some(InfixToken::Not)
    } else if 'a' <= c && c <= 'z' {
        Some(InfixToken::Variable(c))
    } else if c == '0' {
        Some(InfixToken::Const(false))
    } else if c == '1' {
        Some(InfixToken::Const(true))
    } else if c == '(' {
        Some(InfixToken::LeftBracket)
    } else if c == ')' {
        Some(InfixToken::RightBracket)
    } else {
        None
    }
}

/// Number of brackets that `ts` opens and leaves open.
pub open spec fn depth_of(ts: Seq<InfixToken>) -> int
    decreases ts.len(),
{
    if ts.len() == 0 {
        0
    } else {
        depth_of(ts.drop_last()) + match ts.last() {
            InfixToken::LeftBracket => 1int,
            InfixToken::RightBracket => -1int,
            _ => 0int,
        }
    }
}

/// Sequencing type of the last token of `ts`; the start of the text asks for
/// an operand, as an operator does.
pub open spec fn last_type(ts: Seq<InfixToken>) -> TokenSeqType {
    if ts.len() == 0 {
        TokenSeqType::Operator
    } else {
        seq_type_of(ts.last())
    }
}

/// Reads the character `c` at position `pos` after the tokens `ts`: skipped
/// when blank, else appended as a token or rejected.
pub open spec fn scan_char(ts: Seq<InfixToken>, c: char, pos: usize) -> Result<
    Seq<InfixToken>,
    ParseError,
> {
    if white_space(c) {
        Ok(ts)
    } else {
        match token_of(c) {
            None => Err(ParseError { pos, kind: ParseErrorKind::IllegalCharacter(c) }),
            Some(t) => if t is RightBracket && depth_of(ts) <= 0 {
                Err(ParseError { pos, kind: ParseErrorKind::UnmatchedParenthesis })
            } else {
                match seq_check(last_type(ts), t) {
                    Ok(_) => Ok(ts.push(t)),
                    Err(kind) => Err(ParseError { pos, kind }),
                }
            },
        }
    }
}

/// The tokens of the text `s`, or the first error met reading it from the
/// left.
pub open spec fn scan(s: Seq<char>) -> Result<Seq<InfixToken>, ParseError>
    decreases s.len(),
{
    if s.len() == 0 {
        Ok(Seq::empty())
    } else {
        match scan(s.drop_last()) {
            Ok(ts) => scan_char(ts, s.last(), (s.len() - 1) as usize),
            Err(e) => Err(e),
        }
    }
}

/// The tokens of a well-formed formula `s`, or why it is not one.
pub open spec fn tokenize(s: Seq<char>) -> Result<Seq<InfixToken>, ParseError> {
    match scan(s) {
        Ok(ts) => if depth_of(ts) > 0 {
            Err(ParseError { pos: s.len() as usize, kind: ParseErrorKind::UnclosedParenthesis })
        } else if last_type(ts) is Operator {
            Err(ParseError { pos: s.len() as usize, kind: ParseErrorKind::UnexpectedEOF })
        } else {
            Ok(ts)
        },
        Err(e) => Err(e),
    }
}

/// The letters that occur as variables among the tokens.
pub open spec fn vars_of(ts: Seq<InfixToken>) -> Set<char> {
    Set::new(|c: char| ts.contains(InfixToken::Variable(c)))
}

/// What compiling the text `s` gives: for a well-formed formula, its
/// variables in ascending order and the postorder walk of the tree that
/// reads its tokens with precedence; else the first error.
pub open spec fn parsed_as(s: Seq<char>, r: Result<Function, ParseError>) -> bool {
    match (r, tokenize(s)) {
        (Ok(f), Ok(ts)) => {
            &&& ascending(f.variables@)
            &&& f.variables@.to_set() == vars_of(ts)
            &&& f.postfix@ == postorder(build(ts))
        },
        (Err(e), Err(e2)) => e == e2,
        _ => false,
    }
}

fn token_for(c: char) -> (r: Option<InfixToken>)
    ensures
        r == token_of(c),
{
    match c {
        '&' => Some(InfixToken::And),
        '|' => Some(InfixToken::Or),
        '!' => Some(InfixToken::Not),
        'a'..='z' => Some(InfixToken::Variable(c)),
        '0' => Some(InfixToken::Const(false)),
        '1' => Some(InfixToken::Const(true)),
        '(' => Some(InfixToken::LeftBracket),
        ')' => Some(InfixToken::RightBracket),
        _ => None,
    }
}

/// Adds `c` to an ascending list of distinct letters, keeping it ascending.
fn insert_sorted(vars: &mut Vec<char>, c: char)
    requires
        ascending(old(vars)@),
    ensures
        ascending(final(vars)@),
        final(vars)@.to_set() == old(vars)@.to_set().insert(c),
{
    let mut k: usize = 0;
    while k < vars.len() && vars[k] < c
        invariant
            k <= vars@.len(),
            forall|j: int| 0 <= j < k ==> vars@[j] < c,
        decreases vars@.len() - k,
    {
        k = k + 1;
    }
    if k < vars.len() && vars[k] == c {
        assert(vars@.to_set().insert(c) =~= vars@.to_set());
        return;
    }
    let ghost before = vars@;
    vars.insert(k, c);
    assert(vars@ =~= before.take(k as int).push(c) + before.skip(k as int));
    assert forall|x: char| #[trigger] vars@.contains(x) <==> before.contains(x) || x == c by {
        if before.contains(x) {
            let j = choose|j: int| 0 <= j < before.len() && before[j] == x;
            if j < k {
                assert(vars@[j] == x);
            } else {
                assert(vars@[j + 1] == x);
            }
        }
        if x == c {
            assert(vars@[k as int] == c);
        }
        if vars@.contains(x) {
            let j = choose|j: int| 0 <= j < vars@.len() && vars@[j] == x;
            if j < k {
                assert(before[j] == x);
            } else if j > k {
                assert(before[j - 1] == x);
            }
        }
    }
    assert(vars@.to_set() =~= before.to_set().insert(c));
}

/// Whatever scanning accepts is well sequenced.
pub proof fn lemma_scan_well_sequenced(s: Seq<char>)
    requires
        scan(s) is Ok,
    ensures
        well_sequenced(scan(s)->Ok_0),
        depth_of(scan(s)->Ok_0) >= 0,
    decreases s.len(),
{
    if s.len() > 0 {
        lemma_scan_well_sequenced(s.drop_last());
        let ts = scan(s.drop_last())->Ok_0;
        if !white_space(s.last()) {
            assert(ts.push(token_of(s.last())->0).drop_last() =~= ts);
        }
    }
}

/// The characters of `s`, in order.
pub(crate) fn chars_of(s: &str) -> (r: Vec<char>)
    ensures
        r@ == s@,
{
    let mut cs: Vec<char> = Vec::new();
    for ch in it: s.chars()
        invariant
            cs@ == it.seq().take(it.index() as int),
    {
        cs.push(ch);
    }
    cs
}

impl Function {
    /// Compiles a formula: `&` (and), `|` (or), `!` (not), letters `a` to
    /// `z` as variables, `0` and `1` as constants, and brackets; blanks are
    /// skipped. `!` binds tightest, then `&`, then `|`. Positions in errors
    /// count characters from zero.
    pub fn parse(s: &str) -> (r: Result<Function, ParseError>)
        ensures
            parsed_as(s@, r),
            r matches Ok(f) ==> f.wf(),
    {
        let cs = chars_of(s);
        let mut variables: Vec<char> = Vec::with_capacity(3);
        let mut infix: Vec<InfixToken> = Vec::new();
        let mut bracket_number: usize = 0;
        let mut previous = TokenSeqType::Operator;
        let mut pos: usize = 0;
        while pos < cs.len()
            invariant
                pos <= cs@.len(),
                cs@ == s@,
                scan(cs@.take(pos as int)) == Ok::<Seq<InfixToken>, ParseError>(infix@),
                bracket_number == depth_of(infix@),
                previous == last_type(infix@),
                ascending(variables@),
                variables@.to_set() == vars_of(infix@),
                bracket_number <= infix@.len() <= pos,
            decreases cs@.len() - pos,
        {
            assert(cs@.take(pos + 1).drop_last() =~= cs@.take(pos as int));
            let ch = cs[pos];
            assert(cs@.take(pos + 1).last() == ch);
            if is_white_space(ch) {
                pos = pos + 1;
                continue;
            }
            let token = match token_for(ch) {
                Some(t) => t,
                None => {
                    proof {
                        lemma_scan_fails_on(cs@, pos + 1);
                    }
                    return Err(ParseErrorKind::IllegalCharacter(ch).at(pos));
                },
            };
            match token {
                InfixToken::LeftBracket => {
                    bracket_number = bracket_number + 1;
                },
                InfixToken::RightBracket => {
                    if bracket_number == 0 {
                        proof {
                            lemma_scan_fails_on(cs@, pos + 1);
                        }
                        return Err(ParseErrorKind::UnmatchedParenthesis.at(pos));
                    }
                    bracket_number = bracket_number - 1;
                },
                InfixToken::Variable(var) => {
                    insert_sorted(&mut variables, var);
                },
                _ => {},
            }
            match previous.matches(token) {
                Ok(()) => {},
                Err(e) => {
                    proof {
                        lemma_scan_fails_on(cs@, pos + 1);
                    }
                    return Err(e.at(pos));
                },
            }
            previous = TokenSeqType::from(token);
            let ghost before = infix@;
            infix.push(token);
            proof {
                assert(infix@.drop_last() =~= before);
                assert(vars_of(infix@) =~= match token {
                    InfixToken::Variable(c) => vars_of(before).insert(c),
                    _ => vars_of(before),
                }) by {
                    assert forall|c: char| before.contains(InfixToken::Variable(c)) implies #[trigger] infix@.contains(
                        InfixToken::Variable(c),
                    ) by {
                        {
                            let j = choose|j: int| 0 <= j < before.len() && before[j] == InfixToken::Variable(c);
                            assert(infix@[j] == InfixToken::Variable(c));
                        }
                    }
                    assert forall|c: char| #[trigger] infix@.contains(InfixToken::Variable(c)) implies before.contains(
                        InfixToken::Variable(c),
                    ) || token == InfixToken::Variable(c) by {
                        {
                            let j = choose|j: int| 0 <= j < infix@.len() && infix@[j] == InfixToken::Variable(c);
                            if j < before.len() {
                                assert(before[j] == InfixToken::Variable(c));
                            }
                        }
                    }
                    assert(infix@.contains(token));
                }
            }
            pos = pos + 1;
        }
        assert(cs@.take(pos as int) =~= cs@);
        if bracket_number > 0 {
            return Err(ParseErrorKind::UnclosedParenthesis.at(cs.len()));
        }
        if previous == TokenSeqType::Operator {
            return Err(ParseErrorKind::UnexpectedEOF.at(cs.len()));
        }
        let postfix = into_postfix(&infix);
        proof {
            lemma_scan_well_sequenced(s@);
            lemma_to_postfix_sound(infix@);
            lemma_build(infix@);
            lemma_to_postfix_is_postorder(build(infix@));
        }
        Ok(Function { variables, postfix })
    }
}

/// Scanning stops at its first error: a text whose prefix is rejected is
/// rejected with the same error.
proof fn lemma_scan_fails_on(s: Seq<char>, n: int)
    requires
        0 <= n <= s.len(),
        scan(s.take(n)) is Err,
    ensures
        scan(s) == scan(s.take(n)),
    decreases s.len() - n,
{
    if n < s.len() {
        assert(s.take(n + 1).drop_last() =~= s.take(n));
        lemma_scan_fails_on(s, n + 1);
    } else {
        assert(s.take(n) =~= s);
    }
}

} // verus!
