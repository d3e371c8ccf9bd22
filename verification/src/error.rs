//! Position-tracking diagnostics: where in the source an error happened, what
//! kind of error it was, and a renderer that points at the offending span.

use vstd::prelude::*;
use crate::runner::Source;

verus! {

/// A token's or expression's span in the source: a zero-based line index and
/// an inclusive column range `(start, end)` on that line.
#[derive(Debug, Clone, Copy, PartialEq, Eq)]
pub struct Position {
    pub line: usize,
    pub columns: (usize, usize),
}

impl Position {
    pub fn new(line_num: usize, column: (usize, usize)) -> (r: Position)
        ensures
            r == (Position { line: line_num, columns: column }),
    {
        Position { line: line_num, columns: column }
    }
}

/// The closed set of failures the pipeline can report: lexical
/// (`InvalidToken`, `Unmatched`), syntactic (`ExpectedToken`), and semantic
/// (`NameError`, `ConstantAssign`, `RValueAssign`).
#[derive(Debug, Clone, PartialEq, Eq)]
pub enum ErrorKind {
    InvalidToken,
    Unmatched(String),
    NameError(String),
    ConstantAssign,
    RValueAssign,
    ExpectedToken(String),
}

/// Mathematical model of an `ErrorKind`: the carried text as a `Seq<char>`.
pub enum ErrorKindV {
    InvalidToken,
    Unmatched(Seq<char>),
    NameError(Seq<char>),
    ConstantAssign,
    RValueAssign,
    ExpectedToken(Seq<char>),
}

impl View for ErrorKind {
    type V = ErrorKindV;

    open spec fn view(&self) -> ErrorKindV {
        match self {
            ErrorKind::InvalidToken => ErrorKindV::InvalidToken,
            ErrorKind::Unmatched(what) => ErrorKindV::Unmatched(what@),
            ErrorKind::NameError(name) => ErrorKindV::NameError(name@),
            ErrorKind::ConstantAssign => ErrorKindV::ConstantAssign,
            ErrorKind::RValueAssign => ErrorKindV::RValueAssign,
            ErrorKind::ExpectedToken(what) => ErrorKindV::ExpectedToken(what@),
        }
    }
}

/// A diagnostic: which kind of failure, and where it happened.
#[derive(Debug)]
pub struct Error {
    pub kind: ErrorKind,
    pub position: Position,
}

/// Mathematical model of an `Error`.
pub struct ErrorV {
    pub kind: ErrorKindV,
    pub position: Position,
}

impl View for Error {
    type V = ErrorV;

    open spec fn view(&self) -> ErrorV {
        ErrorV { kind: self.kind@, position: self.position }
    }
}

impl Error {
    pub fn new(kind: ErrorKind, position: Position) -> (r: Error)
        ensures
            r.kind == kind,
            r.position == position,
    {
        Error { kind, position }
    }

    /// Pair this error with the source it was produced against, ready for
    /// rendering.
    pub fn with_source<'a>(&'a self, source: &'a Source) -> (r: ErrorWithSource<'a>)
        ensures
            r.error == self,
            r.source == source,
    {
        ErrorWithSource { error: self, source }
    }

    /// Render this error against the source it was produced against; see
    /// [`ErrorWithSource::render`].
    pub fn render(&self, source: &Source) -> (r: Option<String>)
        requires
            self.position.columns.0 <= self.position.columns.1,
            self.position.columns.1 - self.position.columns.0 + 1 <= usize::MAX,
        ensures
            match r {
                Some(text) => line_start(source.code@, self.position.line as nat)
                    <= source.code@.len() && text@ == render_spec(self@, source@),
                None => line_start(source.code@, self.position.line as nat) > source.code@.len(),
            },
    {
        self.with_source(source).render()
    }
}

/// An error together with the source text it points into.
pub struct ErrorWithSource<'a> {
    pub error: &'a Error,
    pub source: &'a Source,
}

/// The index of the first line break at or after `i`, or `s.len()` when the
/// rest of `s` holds none.
pub open spec fn line_break_index(s: Seq<char>, i: int) -> int
    decreases s.len() - i
        when 0 <= i <= s.len()
{
    if i >= s.len() {
        i
    } else if s[i] == '\n' {
        i
    } else {
        line_break_index(s, i + 1)
    }
}

pub proof fn lemma_line_break_index_bounds(s: Seq<char>, i: int)
    requires
        0 <= i <= s.len(),
    ensures
        i <= line_break_index(s, i) <= s.len(),
        forall|j: int| i <= j < line_break_index(s, i) ==> s[j] != '\n',
        line_break_index(s, i) < s.len() ==> s[line_break_index(s, i)] == '\n',
    decreases s.len() - i,
{
    if i < s.len() && s[i] != '\n' {
        lemma_line_break_index_bounds(s, i + 1);
    }
}

/// The index of the first character of line `k` (zero-based), reading lines
/// as the segments between line breaks. Greater than `s.len()` exactly when
/// `s` has no line `k`.
pub open spec fn line_start(s: Seq<char>, k: nat) -> int
    decreases k,
{
    if k == 0 {
        0
    } else {
        let prev = line_start(s, (k - 1) as nat);
        if 0 <= prev <= s.len() {
            line_break_index(s, prev) + 1
        } else {
            s.len() as int + 1
        }
    }
}

pub proof fn lemma_line_start_bounds(s: Seq<char>, k: nat)
    ensures
        0 <= line_start(s, k) <= s.len() + 1,
    decreases k,
{
    if k > 0 {
        lemma_line_start_bounds(s, (k - 1) as nat);
        let prev = line_start(s, (k - 1) as nat);
        if 0 <= prev <= s.len() {
            lemma_line_break_index_bounds(s, prev);
        }
    }
}

/// Once a line index is out of range, every later one is too.
pub proof fn lemma_line_start_monotonic(s: Seq<char>, k: nat, k2: nat)
    requires
        k <= k2,
        line_start(s, k) > s.len(),
    ensures
        line_start(s, k2) > s.len(),
    decreases k2 - k,
{
    if k < k2 {
        lemma_line_start_bounds(s, k);
        assert(line_start(s, (k + 1) as nat) == s.len() + 1);
        lemma_line_start_monotonic(s, (k + 1) as nat, k2);
    }
}

/// The text of line `k`: the characters from its start to the next line
/// break.
pub open spec fn line_text(s: Seq<char>, k: nat) -> Seq<char> {
    s.subrange(line_start(s, k), line_break_index(s, line_start(s, k)))
}

/// The decimal digit character for `d`.
pub open spec fn decimal_digit(d: int) -> char {
    if d == 0 {
        '0'
    } else if d == 1 {
        '1'
    } else if d == 2 {
        '2'
    } else if d == 3 {
        '3'
    } else if d == 4 {
        '4'
    } else if d == 5 {
        '5'
    } else if d == 6 {
        '6'
    } else if d == 7 {
        '7'
    } else if d == 8 {
        '8'
    } else {
        '9'
    }
}

/// The decimal notation of `n`, without leading zeroes.
pub open spec fn decimal_seq(n: int) -> Seq<char>
    decreases n
        when n >= 0
{
    if n < 10 {
        seq![decimal_digit(n)]
    } else {
        decimal_seq(n / 10).push(decimal_digit(n % 10))
    }
}

/// The character `c` repeated `count` times.
pub open spec fn repeat_char(c: char, count: nat) -> Seq<char> {
    Seq::new(count, |i: int| c)
}

/// The first line of a rendered diagnostic: the kind's human-readable
/// message.
pub open spec fn message_of(kind: ErrorKindV) -> Seq<char> {
    match kind {
        ErrorKindV::InvalidToken => "SyntaxError: Invalid token"@,
        ErrorKindV::Unmatched(what) => "SyntaxError: Unmatched "@ + what,
        ErrorKindV::NameError(name) => "NameError: '"@ + name + "' is not defined"@,
        ErrorKindV::ConstantAssign => "AssignmentError: Cannot assign to a constant"@,
        ErrorKindV::RValueAssign => "AssignmentError: Cannot assign to a value"@,
        ErrorKindV::ExpectedToken(what) => "SyntaxError: Expected "@ + what,
    }
}

/// The whole rendered diagnostic, four lines: the message; `origin:line:column`;
/// the source line the error points into; and a caret line underlining the
/// error's column span.
pub open spec fn render_spec(e: ErrorV, src: crate::runner::SourceV) -> Seq<char> {
    message_of(e.kind) + seq!['\n'] + src.file + seq![':'] + decimal_seq(e.position.line as int)
        + seq![':'] + decimal_seq(e.position.columns.0 as int) + seq!['\n'] + line_text(
        src.code,
        e.position.line as nat,
    ) + seq!['\n'] + repeat_char(' ', e.position.columns.0 as nat) + repeat_char(
        '^',
        (e.position.columns.1 - e.position.columns.0 + 1) as nat,
    )
}

/// The index of the next line break at or after `start`, or `n` when none
/// follows.
pub(crate) fn next_line_break(code: &str, start: usize, n: usize) -> (e: usize)
    requires
        n == code@.len(),
        start <= n,
    ensures
        e == line_break_index(code@, start as int),
        start <= e <= n,
{
    let mut e = start;
    while e < n && code.get_char(e) != '\n'
        invariant
            start <= e <= n,
            n == code@.len(),
            line_break_index(code@, start as int) == line_break_index(code@, e as int),
        decreases n - e,
    {
        e = e + 1;
    }
    e
}

/// The start index of line `k` of `code`, or `None` when `code` has fewer
/// lines.
fn find_line_start(code: &str, k: usize, n: usize) -> (r: Option<usize>)
    requires
        n == code@.len(),
    ensures
        match r {
            Some(st) => st as int == line_start(code@, k as nat) && st <= n,
            None => line_start(code@, k as nat) > code@.len(),
        },
{
    let mut start: usize = 0;
    let mut j: usize = 0;
    while j < k
        invariant
            j <= k,
            n == code@.len(),
            start <= n,
            start as int == line_start(code@, j as nat),
        decreases k - j,
    {
        let e = next_line_break(code, start, n);
        if e == n {
            proof {
                assert(line_start(code@, (j + 1) as nat) == n + 1);
                lemma_line_start_monotonic(code@, (j + 1) as nat, k as nat);
            }
            return None;
        }
        start = e + 1;
        j = j + 1;
    }
    Some(start)
}

/// The decimal notation of `n`.
fn decimal_string(n: usize) -> (r: String)
    ensures
        r@ == decimal_seq(n as int),
    decreases n,
{
    let d = n % 10;
    let q = n / 10;
    let digit: &str = if d == 0 {
        "0"
    } else if d == 1 {
        "1"
    } else if d == 2 {
        "2"
    } else if d == 3 {
        "3"
    } else if d == 4 {
        "4"
    } else if d == 5 {
        "5"
    } else if d == 6 {
        "6"
    } else if d == 7 {
        "7"
    } else if d == 8 {
        "8"
    } else {
        "9"
    };
    proof {
        reveal_strlit("0");
        reveal_strlit("1");
        reveal_strlit("2");
        reveal_strlit("3");
        reveal_strlit("4");
        reveal_strlit("5");
        reveal_strlit("6");
        reveal_strlit("7");
        reveal_strlit("8");
        reveal_strlit("9");
        assert(digit@ =~= seq![decimal_digit(d as int)]);
    }
    if n < 10 {
        String::from_str(digit)
    } else {
        let mut out = decimal_string(q);
        out.append(digit);
        proof {
            assert(out@ =~= decimal_seq(q as int).push(decimal_digit(d as int)));
        }
        out
    }
}

/// `start` spaces followed by `width` carets.
fn caret_line(start: usize, width: usize) -> (r: String)
    ensures
        r@ == repeat_char(' ', start as nat) + repeat_char('^', width as nat),
{
    let mut out = String::new();
    let mut i: usize = 0;
    proof {
        reveal_strlit(" ");
        reveal_strlit("^");
        assert(out@ =~= repeat_char(' ', 0));
    }
    while i < start
        invariant
            i <= start,
            out@ == repeat_char(' ', i as nat),
        decreases start - i,
    {
        out.append(" ");
        i = i + 1;
        proof {
            assert(" "@ =~= seq![' ']) by {
                reveal_strlit(" ");
            }
            assert(out@ =~= repeat_char(' ', i as nat));
        }
    }
    let mut i: usize = 0;
    while i < width
        invariant
            i <= width,
            out@ == repeat_char(' ', start as nat) + repeat_char('^', i as nat),
        decreases width - i,
    {
        out.append("^");
        i = i + 1;
        proof {
            assert("^"@ =~= seq!['^']) by {
                reveal_strlit("^");
            }
            assert(out@ =~= repeat_char(' ', start as nat) + repeat_char('^', i as nat));
        }
    }
    proof {
        assert(out@ =~= repeat_char(' ', start as nat) + repeat_char('^', width as nat));
    }
    out
}

/// The message line for an error kind.
fn message_string(kind: &ErrorKind) -> (r: String)
    ensures
        r@ == message_of(kind@),
{
    match kind {
        ErrorKind::InvalidToken => String::from_str("SyntaxError: Invalid token"),
        ErrorKind::Unmatched(what) => {
            let mut out = String::from_str("SyntaxError: Unmatched ");
            out.append(what.as_str());
            out
        },
        ErrorKind::NameError(name) => {
            let mut out = String::from_str("NameError: '");
            out.append(name.as_str());
            out.append("' is not defined");
            out
        },
        ErrorKind::ConstantAssign => String::from_str(
            "AssignmentError: Cannot assign to a constant",
        ),
        ErrorKind::RValueAssign => String::from_str("AssignmentError: Cannot assign to a value"),
        ErrorKind::ExpectedToken(what) => {
            let mut out = String::from_str("SyntaxError: Expected ");
            out.append(what.as_str());
            out
        },
    }
}

impl<'a> ErrorWithSource<'a> {
    /// Render the diagnostic in its four-line format, byte for byte:
    /// the message; `origin:line:column`; the source line at the error's
    /// (zero-based) line index; and spaces up to the span's start column
    /// followed by one caret per column of the span. `None` when the
    /// position's line index lies beyond the source's lines, which positions
    /// produced by this pipeline against their own source never do.
    pub fn render(&self) -> (r: Option<String>)
        requires
            self.error.position.columns.0 <= self.error.position.columns.1,
            self.error.position.columns.1 - self.error.position.columns.0 + 1 <= usize::MAX,
        ensures
            match r {
                Some(text) => line_start(self.source.code@, self.error.position.line as nat)
                    <= self.source.code@.len() && text@ == render_spec(self.error@, self.source@),
                None => line_start(self.source.code@, self.error.position.line as nat)
                    > self.source.code@.len(),
            },
    {
        let code: &str = self.source.code.as_str();
        let n = code.unicode_len();
        let start = match find_line_start(code, self.error.position.line, n) {
            Some(start) => start,
            None => {
                return None;
            },
        };
        let line_end = next_line_break(code, start, n);
        let (col_start, col_end) = self.error.position.columns;
        let mut out = message_string(&self.error.kind);
        out.append("\n");
        out.append(self.source.file.as_str());
        out.append(":");
        let line_digits = decimal_string(self.error.position.line);
        out.append(line_digits.as_str());
        out.append(":");
        let col_digits = decimal_string(col_start);
        out.append(col_digits.as_str());
        out.append("\n");
        out.append(code.substring_char(start, line_end));
        out.append("\n");
        let carets = caret_line(col_start, col_end - col_start + 1);
        out.append(carets.as_str());
        proof {
            assert("\n"@ =~= seq!['\n']) by {
                reveal_strlit("\n");
            }
            assert(":"@ =~= seq![':']) by {
                reveal_strlit(":");
            }
            assert(out@ =~= render_spec(self.error@, self.source@));
        }
        Some(out)
    }
}

} // verus!
