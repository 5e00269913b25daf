//! Errors raised while reading cards and hands from text.

use vstd::prelude::*;
use vstd::string::StringExecFns;

verus! {

/// Errors typical to parsing of cards and hands.
#[derive(Debug, PartialEq, Eq, Clone)]
pub enum ParseError {
    EmptyCardStr,
    InvalidSuit(char),
    InvalidRank(String),
    InvalidCardCount(usize),
}

/// The mathematical content of a [`ParseError`].
pub enum ParseErrorView {
    EmptyCardStr,
    InvalidSuit(char),
    InvalidRank(Seq<char>),
    InvalidCardCount(nat),
}

impl View for ParseError {
    type V = ParseErrorView;

    open spec fn view(&self) -> ParseErrorView {
        match self {
            ParseError::EmptyCardStr => ParseErrorView::EmptyCardStr,
            ParseError::InvalidSuit(c) => ParseErrorView::InvalidSuit(*c),
            ParseError::InvalidRank(s) => ParseErrorView::InvalidRank(s@),
            ParseError::InvalidCardCount(n) => ParseErrorView::InvalidCardCount(*n as nat),
        }
    }
}


/// The decimal digit for `d`, below ten.
pub open spec fn digit(d: nat) -> char {
    if d == 0 {
        '0'
    } else if d == 1 {
        '1'
    } else if d == 2 {
        '2'
    } else if d == 3 {
        '3'
    } else if d == 4 {
        '4'
    } else if d == 5 {
        '5'
    } else if d == 6 {
        '6'
    } else if d == 7 {
        '7'
    } else if d == 8 {
        '8'
    } else {
        '9'
    }
}

/// `n` written in decimal, without leading zeros.
pub open spec fn decimal(n: nat) -> Seq<char>
    decreases n,
{
    if n < 10 {
        seq![digit(n)]
    } else {
        decimal(n / 10) + seq![digit(n % 10)]
    }
}

/// The decimal digit for `d`, as text.
fn digit_text(d: usize) -> (r: &'static str)
    requires
        d < 10,
    ensures
        r@ == seq![digit(d as nat)],
{
    match d {
        0 => {
            proof {
                reveal_strlit("0");
            }
            "0"
        },
        1 => {
            proof {
                reveal_strlit("1");
            }
            "1"
        },
        2 => {
            proof {
                reveal_strlit("2");
            }
            "2"
        },
        3 => {
            proof {
                reveal_strlit("3");
            }
            "3"
        },
        4 => {
            proof {
                reveal_strlit("4");
            }
            "4"
        },
        5 => {
            proof {
                reveal_strlit("5");
            }
            "5"
        },
        6 => {
            proof {
                reveal_strlit("6");
            }
            "6"
        },
        7 => {
            proof {
                reveal_strlit("7");
            }
            "7"
        },
        8 => {
            proof {
                reveal_strlit("8");
            }
            "8"
        },
        _ => {
            proof {
                reveal_strlit("9");
            }
            "9"
        },
    }
}

/// `n` written in decimal.
fn usize_text(n: usize) -> (r: String)
    ensures
        r@ == decimal(n as nat),
    decreases n,
{
    if n < 10 {
        String::from_str(digit_text(n))
    } else {
        let mut m = usize_text(n / 10);
        m.append(digit_text(n % 10));
        m
    }
}

/// Relies on `ToString` for `char`: the character alone.
#[verifier::external_body]
fn char_text(c: char) -> (r: String)
    ensures
        r@ == seq![c],
{
    c.to_string()
}

/// The message that describes an error.
pub open spec fn message(e: ParseErrorView) -> Seq<char> {
    match e {
        ParseErrorView::EmptyCardStr => "empty Card"@,
        ParseErrorView::InvalidSuit(c) => "invalid Suit "@ + seq![c],
        ParseErrorView::InvalidRank(s) => "invalid Rank "@ + s,
        ParseErrorView::InvalidCardCount(n) => "invalid Card count "@ + decimal(n),
    }
}

impl ParseError {
    /// The message that describes this error, such as "invalid Suit X".
    pub fn to_string(&self) -> (r: String)
        ensures
            r@ == message(self@),
    {
        match self {
            ParseError::EmptyCardStr => String::from_str("empty Card"),
            ParseError::InvalidSuit(c) => {
                let mut m = String::from_str("invalid Suit ");
                m.append(char_text(*c).as_str());
                m
            },
            ParseError::InvalidRank(s) => {
                let mut m = String::from_str("invalid Rank ");
                m.append(s.as_str());
                m
            },
            ParseError::InvalidCardCount(n) => {
                let mut m = String::from_str("invalid Card count ");
                m.append(usize_text(*n).as_str());
                m
            },
        }
    }
}

} // verus!
