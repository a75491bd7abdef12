//! Error localization: mapping an offending span back to a line/column
//! position and formatting the diagnostic message.

use vstd::prelude::*;

use crate::lexer::Span;

verus! {

/// Number of `\n` characters strictly before position `p` of `s`: the 0-based
/// index of the line holding `p`.
pub open spec fn newline_count(s: Seq<char>, p: int) -> int
    decreases p when 0 <= p <= s.len()
{
    if p <= 0 {
        0
    } else {
        newline_count(s, p - 1) + if s[p - 1] == '\n' {
            1int
        } else {
            0int
        }
    }
}

/// Start of the line holding position `p`: one past the last `\n` strictly
/// before `p`, or `0` when no line break precedes it.
pub open spec fn line_start(s: Seq<char>, p: int) -> int
    decreases p when 0 <= p <= s.len()
{
    if p <= 0 {
        0
    } else if s[p - 1] == '\n' {
        p
    } else {
        line_start(s, p - 1)
    }
}

/// The character spelling one decimal digit.
pub open spec fn dec_digit(n: int) -> char {
    if n == 0 {
        '0'
    } else if n == 1 {
        '1'
    } else if n == 2 {
        '2'
    } else if n == 3 {
        '3'
    } else if n == 4 {
        '4'
    } else if n == 5 {
        '5'
    } else if n == 6 {
        '6'
    } else if n == 7 {
        '7'
    } else if n == 8 {
        '8'
    } else {
        '9'
    }
}

/// The usual decimal spelling of `n`: no sign, no leading zero except for
/// `0` itself.
pub open spec fn dec_rep(n: int) -> Seq<char>
    decreases n when n >= 0 via dec_rep_decreases
{
    if n < 10 {
        seq![dec_digit(n)]
    } else {
        dec_rep(n / 10) + seq![dec_digit(n % 10)]
    }
}

#[via_fn]
proof fn dec_rep_decreases(n: int) {
    if n >= 10 {
        assert(0 <= n / 10 < n) by (nonlinear_arith)
            requires
                n >= 10,
        ;
    }
}

/// The diagnostic for an unknown token at `span`: the 0-based line index, the
/// column range relative to the start of the line holding `span.start`, and
/// the offending text itself. A span that crosses a line break keeps columns
/// relative to its first line.
pub open spec fn error_message(s: Seq<char>, span: Span) -> Seq<char> {
    let line = newline_count(s, span.start as int);
    let ls = line_start(s, span.start as int);
    "error: unknown token on line "@ + dec_rep(line) + ", chars "@ + dec_rep(span.start - ls)
        + ".."@ + dec_rep(span.end - ls) + ":\n"@ + s.subrange(span.start as int, span.end as int)
}

/// The error the scanner reports: some part of the input matched no token
/// pattern. Carries the fully formatted diagnostic for the first offending
/// span.
#[derive(Debug)]
pub enum LexerError {
    UnknownToken(String),
}

impl LexerError {
    /// The formatted diagnostic carried by this error.
    pub fn message(&self) -> (m: &String)
        ensures
            self matches LexerError::UnknownToken(s) && m == s,
    {
        match self {
            LexerError::UnknownToken(s) => s,
        }
    }

    /// Build the diagnostic for the offending span.
    pub fn err(src: &str, span: Span) -> (e: LexerError)
        requires
            span.start <= span.end <= src@.len(),
        ensures
            e matches LexerError::UnknownToken(m) && m@ == error_message(src@, span),
    {
        let mut line: usize = 0;
        let mut ls: usize = 0;
        let mut i: usize = 0;
        while i < span.start
            invariant
                span.start <= span.end <= src@.len(),
                i <= span.start,
                line == newline_count(src@, i as int),
                ls == line_start(src@, i as int),
                ls <= i,
                line <= i,
            decreases span.start - i,
        {
            let c = src.get_char(i);
            if c == '\n' {
                line = line + 1;
                ls = i + 1;
            }
            i = i + 1;
        }
        let mut m = String::new();
        m.append("error: unknown token on line ");
        push_dec(&mut m, line);
        m.append(", chars ");
        push_dec(&mut m, span.start - ls);
        m.append("..");
        push_dec(&mut m, span.end - ls);
        m.append(":\n");
        let body = src.substring_char(span.start, span.end);
        m.append(body);
        proof {
            assert(m@ =~= error_message(src@, span));
        }
        LexerError::UnknownToken(m)
    }
}

/// Append one decimal digit to `out`.
fn push_digit(out: &mut String, d: usize)
    requires
        d < 10,
    ensures
        final(out)@ == old(out)@ + seq![dec_digit(d as int)],
{
    let p: &str = if d == 0 {
        "0"
    } else if d == 1 {
        "1"
    } else if d == 2 {
        "2"
    } else if d == 3 {
        "3"
    } else if d == 4 {
        "4"
    } else if d == 5 {
        "5"
    } else if d == 6 {
        "6"
    } else if d == 7 {
        "7"
    } else if d == 8 {
        "8"
    } else {
        "9"
    };
    proof {
        reveal_strlit("0");
        reveal_strlit("1");
        reveal_strlit("2");
        reveal_strlit("3");
        reveal_strlit("4");
        reveal_strlit("5");
        reveal_strlit("6");
        reveal_strlit("7");
        reveal_strlit("8");
        reveal_strlit("9");
        assert(p@ =~= seq![dec_digit(d as int)]);
    }
    out.append(p);
}

/// Append the decimal spelling of `n` to `out`.
fn push_dec(out: &mut String, n: usize)
    ensures
        final(out)@ == old(out)@ + dec_rep(n as int),
    decreases n,
{
    if n >= 10 {
        proof {
            assert(0 <= n / 10 < n) by (nonlinear_arith)
                requires
                    n >= 10,
            ;
        }
        push_dec(out, n / 10);
        push_digit(out, n % 10);
        proof {
            assert(old(out)@ + dec_rep(n as int) =~= (old(out)@ + dec_rep(n as int / 10)) + seq![
                dec_digit(n as int % 10),
            ]);
        }
    } else {
        push_digit(out, n);
    }
}

} // verus!
