//! Failures and their places in the input.

use vstd::prelude::*;

verus! {

/// What went wrong while reading a document.
#[derive(Debug, Clone, Copy, PartialEq, Eq, Structural)]
pub enum ErrorKind {
    /// No value starts at this position, or text follows the document.
    UnexpectedCharacter,
    /// The input ended, or held a control character, before the closing quote.
    UnterminatedString,
    /// A backslash is followed by something that is no escape.
    InvalidEscape,
    /// The four hex digits of a `\u` escape name no Unicode scalar value.
    InvalidCodePoint,
    /// A comma is followed by the closing bracket or brace.
    TrailingComma,
    /// A comma, a colon or a closing bracket or brace is missing.
    MissingSeparator,
    /// A sign, a decimal point or an exponent mark lacks its digits.
    MalformedNumber,
    /// Arrays and objects are nested deeper than `MAX_DEPTH`.
    NestingTooDeep,
}

/// A failure as the grammar states it: the kind, the start of the construct
/// that was being read, and the position at which reading stopped.
pub struct FaultModel {
    pub kind: ErrorKind,
    pub from: int,
    pub to: int,
}

/// What reading a `T` at some position results in: the value and the
/// position after it, or the failure.
pub type Outcome<T> = Result<(T, int), FaultModel>;

/// A failure, with positions counted in characters from the start of the
/// input.
#[derive(Debug, Clone, Copy, PartialEq, Eq)]
pub struct Fault {
    pub kind: ErrorKind,
    pub from: usize,
    pub to: usize,
}

impl View for Fault {
    type V = FaultModel;

    open spec fn view(&self) -> FaultModel {
        FaultModel { kind: self.kind, from: self.from as int, to: self.to as int }
    }
}

pub open spec fn failure<T>(kind: ErrorKind, from: int, to: int) -> Outcome<T> {
    Err(FaultModel { kind, from, to })
}

/// Whether an executable result is the outcome `o`: the same value, by
/// its view, and the same end, or the same failure.
pub open spec fn agrees<T: View>(r: Result<(T, usize), Fault>, o: Outcome<T::V>) -> bool {
    match r {
        Ok((v, end)) => o == Ok::<(T::V, int), FaultModel>((v@, end as int)),
        Err(f) => o == Err::<(T::V, int), FaultModel>(f@),
    }
}

/// The number of line feeds in `s` before `offset`.
pub open spec fn line_of(s: Seq<char>, offset: int) -> int
    decreases offset,
{
    if offset <= 0 {
        0
    } else if offset <= s.len() && s[offset - 1] == '\n' {
        line_of(s, offset - 1) + 1
    } else {
        line_of(s, offset - 1)
    }
}

/// The number of characters between the last line feed before `offset`, or
/// the start of `s`, and `offset`.
pub open spec fn column_of(s: Seq<char>, offset: int) -> int
    decreases offset,
{
    if offset <= 0 {
        0
    } else if offset <= s.len() && s[offset - 1] == '\n' {
        0
    } else {
        column_of(s, offset - 1) + 1
    }
}

/// A place in the input: the number of characters before it, and the same
/// as a line and a column, all counted from zero.
#[derive(Debug, Clone, Copy, PartialEq, Eq)]
pub struct Position {
    pub offset: usize,
    pub line: usize,
    pub column: usize,
}

impl Position {
    /// Whether this is the place `offset` of `s`.
    pub open spec fn locates(self, s: Seq<char>, offset: int) -> bool {
        &&& self.offset == offset
        &&& self.line == line_of(s, offset)
        &&& self.column == column_of(s, offset)
    }
}

/// Beyond the end of `s` there are no more lines, and one more column for
/// each step.
pub proof fn lemma_place_beyond(s: Seq<char>, offset: int)
    requires
        s.len() <= offset,
    ensures
        line_of(s, offset) == line_of(s, s.len() as int),
        column_of(s, offset) == column_of(s, s.len() as int) + offset - s.len(),
    decreases offset - s.len(),
{
    if s.len() < offset {
        lemma_place_beyond(s, offset - 1);
    }
}

/// The place `offset` of `input`.
pub fn locate(input: &[char], offset: usize) -> (p: Position)
    ensures
        p.locates(input@, offset as int),
{
    let stop = if offset < input.len() { offset } else { input.len() };
    let mut line: usize = 0;
    let mut column: usize = 0;
    let mut i: usize = 0;
    while i < stop
        invariant
            i <= stop <= input@.len(),
            line <= i,
            column <= i,
            line == line_of(input@, i as int),
            column == column_of(input@, i as int),
        decreases stop - i,
    {
        if input[i] == '\n' {
            line += 1;
            column = 0;
        } else {
            column += 1;
        }
        i += 1;
    }
    proof {
        if stop < offset {
            lemma_place_beyond(input@, offset as int);
        }
    }
    Position { offset, line, column: column + (offset - stop) }
}

/// What `kind` is reported as.
pub open spec fn message_of(kind: ErrorKind) -> Seq<char> {
    match kind {
        ErrorKind::UnexpectedCharacter => "expected a JSON value"@,
        ErrorKind::UnterminatedString => "unterminated string"@,
        ErrorKind::InvalidEscape => "invalid escape sequence"@,
        ErrorKind::InvalidCodePoint => "escape names no Unicode scalar value"@,
        ErrorKind::TrailingComma => "trailing comma"@,
        ErrorKind::MissingSeparator => "expected a separator or a closing bracket"@,
        ErrorKind::MalformedNumber => "malformed number"@,
        ErrorKind::NestingTooDeep => "nesting too deep"@,
    }
}

/// Why a document could not be read, and where.
#[derive(Debug, Clone, Copy, PartialEq, Eq)]
pub struct ParseError {
    pub kind: ErrorKind,
    pub from: Position,
    pub to: Position,
}

impl ParseError {
    /// Whether this reports the failure `f` of reading `s`.
    pub open spec fn reports(self, s: Seq<char>, f: FaultModel) -> bool {
        &&& self.kind == f.kind
        &&& self.from.locates(s, f.from)
        &&& self.to.locates(s, f.to)
    }

    /// The failure `f` of reading `input`, with its places.
    pub fn new(input: &[char], f: Fault) -> (e: ParseError)
        ensures
            e.reports(input@, f@),
    {
        ParseError { kind: f.kind, from: locate(input, f.from), to: locate(input, f.to) }
    }

    /// What went wrong, in words.
    pub fn message(&self) -> (m: String)
        ensures
            m@ == message_of(self.kind),
    {
        match self.kind {
            ErrorKind::UnexpectedCharacter => "expected a JSON value".to_owned(),
            ErrorKind::UnterminatedString => "unterminated string".to_owned(),
            ErrorKind::InvalidEscape => "invalid escape sequence".to_owned(),
            ErrorKind::InvalidCodePoint => "escape names no Unicode scalar value".to_owned(),
            ErrorKind::TrailingComma => "trailing comma".to_owned(),
            ErrorKind::MissingSeparator => "expected a separator or a closing bracket".to_owned(),
            ErrorKind::MalformedNumber => "malformed number".to_owned(),
            ErrorKind::NestingTooDeep => "nesting too deep".to_owned(),
        }
    }
}

} // verus!
