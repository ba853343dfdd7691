use vstd::prelude::*;

use crate::parse::chars_of;

verus! {

/// How one character of a formula being typed is shown.
#[derive(Debug, Clone, Copy, PartialEq, Eq, Structural)]
pub enum Highlight {
    /// A variable or a constant.
    Variable(char),
    /// `&`, `|` or `!`.
    Operator(char),
    /// A bracket: its nesting level modulo three, which side it is, and
    /// whether it is left unmatched.
    Bracket { level: u8, is_left: bool, invalid: bool },
    /// A character that formulas do not use.
    Unknown(char),
}

/// Brackets opened minus brackets closed in `s`.
pub open spec fn paren_depth(s: Seq<char>) -> int
    decreases s.len(),
{
    if s.len() == 0 {
        0
    } else {
        paren_depth(s.drop_last()) + if s.last() == '(' {
            1int
        } else if s.last() == ')' {
            -1int
        } else {
            0int
        }
    }
}

/// The entry of a bracket at nesting depth `cur` in a text that ends at
/// depth `total`. Depths are shifted up when the text closes more brackets
/// than it opens; a bracket is marked when its depth is negative, or when it
/// opens a level that the text leaves open.
pub open spec fn bracket_entry(cur: int, total: int, is_left: bool) -> Highlight {
    let shown = if total < 0 {
        cur - total
    } else {
        cur
    };
    Highlight::Bracket {
        level: ((if shown < 0 {
            -shown
        } else {
            shown
        }) % 3) as u8,
        is_left,
        invalid: cur < 0 || (is_left && cur < total),
    }
}

/// How the character at position `i` of `s` is shown.
pub open spec fn highlight_at(s: Seq<char>, i: int) -> Highlight {
    let c = s[i];
    if ('a' <= c && c <= 'z') || c == '0' || c == '1' {
        Highlight::Variable(c)
    } else if c == '&' || c == '|' || c == '!' {
        Highlight::Operator(c)
    } else if c == '(' {
        bracket_entry(paren_depth(s.take(i)), paren_depth(s), true)
    } else if c == ')' {
        bracket_entry(paren_depth(s.take(i + 1)), paren_depth(s), false)
    } else {
        Highlight::Unknown(c)
    }
}

/// Brackets move the depth by one per character.
proof fn lemma_depth_bounded(s: Seq<char>)
    ensures
        -s.len() <= paren_depth(s) <= s.len(),
    decreases s.len(),
{
    if s.len() > 0 {
        lemma_depth_bounded(s.drop_last());
    }
}

/// Classifies each character of `input` for display, with the nesting of
/// its brackets.
pub fn highlight(input: &str) -> (r: Vec<Highlight>)
    requires
        input@.len() <= i32::MAX,
    ensures
        r@.len() == input@.len(),
        forall|i: int| 0 <= i < input@.len() ==> r@[i] == highlight_at(input@, i),
{
    let cs = chars_of(input);
    let mut total: i64 = 0;
    let mut i: usize = 0;
    while i < cs.len()
        invariant
            cs@ == input@,
            cs@.len() <= i32::MAX,
            i <= cs@.len(),
            total == paren_depth(cs@.take(i as int)),
        decreases cs@.len() - i,
    {
        proof {
            assert(cs@.take(i + 1).drop_last() =~= cs@.take(i as int));
            lemma_depth_bounded(cs@.take(i as int));
        }
        if cs[i] == '(' {
            total = total + 1;
        } else if cs[i] == ')' {
            total = total - 1;
        }
        i = i + 1;
    }
    assert(cs@.take(cs@.len() as int) =~= cs@);
    let mut entries: Vec<Highlight> = Vec::with_capacity(cs.len());
    let mut depth: i64 = 0;
    let mut j: usize = 0;
    while j < cs.len()
        invariant
            cs@ == input@,
            cs@.len() <= i32::MAX,
            j <= cs@.len(),
            total == paren_depth(cs@),
            depth == paren_depth(cs@.take(j as int)),
            entries@.len() == j,
            forall|k: int| 0 <= k < j ==> entries@[k] == highlight_at(cs@, k),
        decreases cs@.len() - j,
    {
        proof {
            assert(cs@.take(j + 1).drop_last() =~= cs@.take(j as int));
            lemma_depth_bounded(cs@.take(j as int));
            lemma_depth_bounded(cs@);
        }
        let ch = cs[j];
        let entry = match ch {
            'a'..='z' | '0' | '1' => Highlight::Variable(ch),
            '&' | '|' | '!' => Highlight::Operator(ch),
            '(' => {
                let opened = bracket(depth, total, true);
                depth = depth + 1;
                opened
            },
            ')' => {
                depth = depth - 1;
                bracket(depth, total, false)
            },
            _ => Highlight::Unknown(ch),
        };
        assert(entry == highlight_at(cs@, j as int));
        entries.push(entry);
        assert(entries@[j as int] == entry);
        j = j + 1;
    }
    entries
}

fn bracket(cur: i64, total: i64, is_left: bool) -> (r: Highlight)
    requires
        -i32::MAX <= cur <= i32::MAX,
        -i32::MAX <= total <= i32::MAX,
    ensures
        r == bracket_entry(cur as int, total as int, is_left),
{
    let shown: i64 = if total < 0 {
        cur - total
    } else {
        cur
    };
    let magnitude: i64 = if shown < 0 {
        -shown
    } else {
        shown
    };
    Highlight::Bracket {
        level: (magnitude % 3) as u8,
        is_left,
        invalid: cur < 0 || (is_left && cur < total),
    }
}

} // verus!
