//! The line terminator written after the image.
use vstd::prelude::*;
use crate::lex::{chars_of, eq_ignore_case, eq_ignore_case_at};

verus! {

#[derive(Debug, Clone, Copy, PartialEq, Eq, Structural)]
pub enum LineEnd {
    Cr,
    Lf,
    CrLf,
}

/// The text is no line terminator name.
#[derive(Debug, PartialEq, Eq, Structural)]
pub struct LineEndParseError();

/// The line terminator that the text `s` names, ignoring ASCII case.
pub open spec fn line_end_of(s: Seq<char>) -> Option<LineEnd> {
    if eq_ignore_case(s, seq!['c', 'r']) {
        Some(LineEnd::Cr)
    } else if eq_ignore_case(s, seq!['l', 'f']) {
        Some(LineEnd::Lf)
    } else if eq_ignore_case(s, seq!['c', 'r', 'l', 'f']) || eq_ignore_case(
        s,
        seq!['c', 'r', '-', 'l', 'f'],
    ) {
        Some(LineEnd::CrLf)
    } else {
        None
    }
}

impl LineEnd {
    /// The characters of the terminator.
    pub open spec fn chars(self) -> Seq<char> {
        match self {
            LineEnd::Cr => seq!['\r'],
            LineEnd::Lf => seq!['\n'],
            LineEnd::CrLf => seq!['\r', '\n'],
        }
    }

    pub fn as_str(&self) -> (r: &'static str)
        ensures
            r@ == self.chars(),
    {
        proof {
            reveal_strlit("\r");
            reveal_strlit("\n");
            reveal_strlit("\r\n");
        }
        match self {
            LineEnd::Cr => "\r",
            LineEnd::Lf => "\n",
            LineEnd::CrLf => "\r\n",
        }
    }

    /// The variant's name.
    pub fn to_string(&self) -> (r: String)
        ensures
            r@ == (match *self {
                LineEnd::Cr => seq!['C', 'r'],
                LineEnd::Lf => seq!['L', 'f'],
                LineEnd::CrLf => seq!['C', 'r', 'L', 'f'],
            }),
    {
        proof {
            reveal_strlit("Cr");
            reveal_strlit("Lf");
            reveal_strlit("CrLf");
        }
        match self {
            LineEnd::Cr => "Cr".to_owned(),
            LineEnd::Lf => "Lf".to_owned(),
            LineEnd::CrLf => "CrLf".to_owned(),
        }
    }

    /// Parses a line terminator name.
    pub fn parse(value: &str) -> (r: Result<LineEnd, LineEndParseError>)
        ensures
            r == (match line_end_of(value@) {
                Some(e) => Ok::<LineEnd, LineEndParseError>(e),
                None => Err(LineEndParseError()),
            }),
    {
        let c = chars_of(value);
        let n = c.len();
        proof {
            assert(c@.subrange(0, n as int) =~= value@);
        }
        if eq_ignore_case_at(&c, 0, n, &vec!['c', 'r']) {
            Ok(LineEnd::Cr)
        } else if eq_ignore_case_at(&c, 0, n, &vec!['l', 'f']) {
            Ok(LineEnd::Lf)
        } else if eq_ignore_case_at(&c, 0, n, &vec!['c', 'r', 'l', 'f']) || eq_ignore_case_at(
            &c,
            0,
            n,
            &vec!['c', 'r', '-', 'l', 'f'],
        ) {
            Ok(LineEnd::CrLf)
        } else {
            Err(LineEndParseError())
        }
    }
}

impl Default for LineEnd {
    fn default() -> (r: LineEnd)
        ensures
            r == LineEnd::Lf,
    {
        LineEnd::Lf
    }
}

impl std::str::FromStr for LineEnd {
    type Err = LineEndParseError;

    /// Parses as `parse` does.
    fn from_str(value: &str) -> (r: Result<LineEnd, LineEndParseError>)
        ensures
            r == (match line_end_of(value@) {
                Some(e) => Ok::<LineEnd, LineEndParseError>(e),
                None => Err(LineEndParseError()),
            }),
    {
        LineEnd::parse(value)
    }
}

} // verus!
