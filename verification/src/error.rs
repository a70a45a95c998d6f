use vstd::prelude::*;

use crate::text::push_char;

verus! {

/// Why a document could not be read.
#[derive(Debug, Clone, Copy, PartialEq, Eq, Structural)]
pub enum ParseErrorKind {
    /// A top-level line that is neither `:section`, `key=value`, nor blank.
    UnexpectedLine,
    /// An entry line without a `:` separator.
    MissingColon,
    /// An entry with nothing before the `:`. Inside a block a line that,
    /// trimmed, starts with `:` is never read as an entry: it is `:end`
    /// closing a section, or else it ends the block, which is then
    /// reported as unterminated on the line that opened it. Any other
    /// trimmed line starts with a character that is not whitespace, so its
    /// key is never empty and reading never reports this kind.
    EmptyKey,
    /// A `}` that does not close any open map.
    UnexpectedCloseBrace,
    /// A `:section` that never reached its `:end`.
    UnterminatedSection,
    /// A `{` that never reached its `}`.
    UnterminatedMap,
    /// Maps nested deeper than the built-in limit.
    TooDeep,
}

/// The text that describes each kind of error.
pub open spec fn kind_message(kind: ParseErrorKind) -> Seq<char> {
    match kind {
        ParseErrorKind::UnexpectedLine => "unexpected line outside of a section"@,
        ParseErrorKind::MissingColon => "entry is missing ':'"@,
        ParseErrorKind::EmptyKey => "entry has an empty key"@,
        ParseErrorKind::UnexpectedCloseBrace => "'}' without a matching '{'"@,
        ParseErrorKind::UnterminatedSection => "section is missing ':end'"@,
        ParseErrorKind::UnterminatedMap => "map is missing '}'"@,
        ParseErrorKind::TooDeep => "maps are nested too deeply"@,
    }
}

impl ParseErrorKind {
    /// The human-readable description of this kind of error.
    pub fn message(self) -> (m: &'static str)
        ensures
            m@ == kind_message(self),
    {
        match self {
            ParseErrorKind::UnexpectedLine => "unexpected line outside of a section",
            ParseErrorKind::MissingColon => "entry is missing ':'",
            ParseErrorKind::EmptyKey => "entry has an empty key",
            ParseErrorKind::UnexpectedCloseBrace => "'}' without a matching '{'",
            ParseErrorKind::UnterminatedSection => "section is missing ':end'",
            ParseErrorKind::UnterminatedMap => "map is missing '}'",
            ParseErrorKind::TooDeep => "maps are nested too deeply",
        }
    }
}

/// A parse failure: the 1-based line it is reported on and its kind.
///
/// For unterminated blocks the line is the one where the block was opened.
#[derive(Debug, Clone, Copy, PartialEq, Eq, Structural)]
pub struct ParseError {
    pub line: usize,
    pub kind: ParseErrorKind,
}

impl ParseError {
    pub(crate) fn new(line: usize, kind: ParseErrorKind) -> (e: Self)
        ensures
            e == (ParseError { line, kind }),
    {
        ParseError { line, kind }
    }
}

/// The character of a decimal digit.
pub open spec fn digit_char(d: nat) -> char {
    if d == 0 {
        '0'
    } else if d == 1 {
        '1'
    } else if d == 2 {
        '2'
    } else if d == 3 {
        '3'
    } else if d == 4 {
        '4'
    } else if d == 5 {
        '5'
    } else if d == 6 {
        '6'
    } else if d == 7 {
        '7'
    } else if d == 8 {
        '8'
    } else {
        '9'
    }
}

/// The decimal notation of `n`, without leading zeros.
pub open spec fn decimal(n: nat) -> Seq<char>
    decreases n,
{
    if n < 10 {
        seq![digit_char(n)]
    } else {
        decimal(n / 10).push(digit_char(n % 10))
    }
}

/// Appends the decimal notation of `n` to `out`.
fn push_decimal(out: &mut String, n: usize)
    ensures
        final(out)@ == old(out)@ + decimal(n as nat),
    decreases n,
{
    if n >= 10 {
        push_decimal(out, n / 10);
    }
    let d = n % 10;
    let c = if d == 0 {
        '0'
    } else if d == 1 {
        '1'
    } else if d == 2 {
        '2'
    } else if d == 3 {
        '3'
    } else if d == 4 {
        '4'
    } else if d == 5 {
        '5'
    } else if d == 6 {
        '6'
    } else if d == 7 {
        '7'
    } else if d == 8 {
        '8'
    } else {
        '9'
    };
    push_char(out, c);
    proof {
        if n < 10 {
            assert(old(out)@.push(c) =~= old(out)@ + seq![c]);
        } else {
            assert(old(out)@ + decimal((n / 10) as nat).push(c) =~= (old(out)@ + decimal(
                (n / 10) as nat,
            )).push(c));
        }
    }
}

impl ParseError {
    /// The text of this error: `line N: ` and the description of its kind.
    pub fn describe(&self) -> (s: String)
        ensures
            s@ == "line "@ + decimal(self.line as nat) + ": "@ + kind_message(self.kind),
    {
        let mut s = String::new();
        s.append("line ");
        push_decimal(&mut s, self.line);
        s.append(": ");
        s.append(self.kind.message());
        assert(Seq::<char>::empty() + "line "@ =~= "line "@);
        s
    }
}

/// Data that cannot be written and read back unchanged; the field names what is wrong.
#[derive(Debug, Clone, Copy, PartialEq, Eq)]
pub struct InvalidData(pub &'static str);

impl InvalidData {
    /// The text of this error: `invalid probe data: ` and what is wrong.
    pub fn describe(&self) -> (s: String)
        ensures
            s@ == "invalid probe data: "@ + self.0@,
    {
        let mut s = String::new();
        s.append("invalid probe data: ");
        s.append(self.0);
        assert(Seq::<char>::empty() + "invalid probe data: "@ =~= "invalid probe data: "@);
        s
    }
}

} // verus!
