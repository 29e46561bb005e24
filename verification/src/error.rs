//! Errors of pattern parsing.
use vstd::prelude::*;
use vstd::string::StringExecFns;

verus! {

/// Error returned by [`crate::Pattern::from_ida`]: which token is wrong, and what is wrong with
/// it.
#[derive(Debug, Clone, Copy, PartialEq, Eq, Structural)]
pub struct ParsePatternError {
    /// Zero-based index of the offending token.
    pub token_index: usize,
    /// What is wrong with the token.
    pub kind: ParseErrorKind,
}

/// Categories of [`ParsePatternError`].
#[derive(Debug, Clone, Copy, PartialEq, Eq, Structural)]
pub enum ParseErrorKind {
    /// The pattern string has no tokens.
    Empty,
    /// The token is neither two characters long nor `?`.
    InvalidLength,
    /// The token has two characters, at least one of which is no hex digit, and is not `??`.
    InvalidHexDigit,
}

/// The decimal digit `d`.
pub open spec fn digit_char(d: nat) -> char {
    (('0' as int) + d) as char
}

/// The decimal representation of `n`, without leading zeros.
pub open spec fn decimal(n: nat) -> Seq<char>
    decreases n,
{
    if n < 10 {
        seq![digit_char(n)]
    } else {
        decimal(n / 10).push(digit_char(n % 10))
    }
}

/// The decimal digit `d` as a string.
fn digit_str(d: usize) -> (r: &'static str)
    requires
        d < 10,
    ensures
        r@ == seq![digit_char(d as nat)],
{
    proof {
        reveal_strlit("0");
        reveal_strlit("1");
        reveal_strlit("2");
        reveal_strlit("3");
        reveal_strlit("4");
        reveal_strlit("5");
        reveal_strlit("6");
        reveal_strlit("7");
        reveal_strlit("8");
        reveal_strlit("9");
    }
    let r: &'static str = match d {
        0 => "0",
        1 => "1",
        2 => "2",
        3 => "3",
        4 => "4",
        5 => "5",
        6 => "6",
        7 => "7",
        8 => "8",
        _ => "9",
    };
    assert(r@ =~= seq![digit_char(d as nat)]);
    r
}

/// Append the decimal representation of `n`.
fn push_decimal(text: &mut String, n: usize)
    ensures
        final(text)@ == old(text)@ + decimal(n as nat),
    decreases n,
{
    if n >= 10 {
        push_decimal(text, n / 10);
    }
    text.append(digit_str(n % 10));
    assert(text@ =~= old(text)@ + decimal(n as nat));
}

impl ParsePatternError {
    /// The message that describes the error.
    pub open spec fn spec_message(self) -> Seq<char> {
        match self.kind {
            ParseErrorKind::Empty => "pattern string contained no tokens"@,
            ParseErrorKind::InvalidLength => "token #"@ + decimal(self.token_index as nat)
                + " must be two hex digits or `?` / `??`"@,
            ParseErrorKind::InvalidHexDigit => "token #"@ + decimal(self.token_index as nat)
                + " contains a non-hex digit"@,
        }
    }

    /// Describe the error to a person.
    pub fn message(&self) -> (r: String)
        ensures
            r@ == self.spec_message(),
    {
        match self.kind {
            ParseErrorKind::Empty => "pattern string contained no tokens".to_owned(),
            ParseErrorKind::InvalidLength => {
                let mut text: String = "token #".to_owned();
                push_decimal(&mut text, self.token_index);
                text.append(" must be two hex digits or `?` / `??`");
                text
            },
            ParseErrorKind::InvalidHexDigit => {
                let mut text: String = "token #".to_owned();
                push_decimal(&mut text, self.token_index);
                text.append(" contains a non-hex digit");
                text
            },
        }
    }
}

} // verus!
