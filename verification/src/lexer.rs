//! The scanner: a single forward pass over the source characters with one
//! character of lookahead, producing a sequence of `(Token, Position)` pairs
//! that always ends with exactly one `EndOfInput`.
//!
//! The whole scan is specified by the recursive function [`scan_from`]; the
//! executable [`Lexer::parse`] is proved to return exactly its result.

use vstd::prelude::*;
use crate::error::{line_break_index, next_line_break, Error, ErrorKind, ErrorKindV, ErrorV, Position};

verus! {

// ---------------------------------------------------------------------------
// Character classes
// ---------------------------------------------------------------------------

/// Whether `c` is an ASCII letter.
pub open spec fn ascii_letter(c: char) -> bool {
    (97 <= (c as u32) && (c as u32) <= 122) || (65 <= (c as u32) && (c as u32) <= 90)
}

/// What `char::is_alphabetic` returns beyond the ASCII range.
pub uninterp spec fn alphabetic_beyond_ascii(c: char) -> bool;

/// Whether `c` has the Unicode `Alphabetic` property. On the ASCII range that
/// property holds exactly of the letters; beyond it the value is only named.
pub open spec fn alphabetic(c: char) -> bool {
    if (c as u32) < 128 {
        ascii_letter(c)
    } else {
        alphabetic_beyond_ascii(c)
    }
}

/// What `char::is_whitespace` returns beyond the ASCII range.
pub uninterp spec fn whitespace_beyond_ascii(c: char) -> bool;

/// Whether `c` has the Unicode `White_Space` property. Its ASCII members are
/// the characters 9 to 13 and the space; beyond ASCII the value is only named.
pub open spec fn unicode_whitespace(c: char) -> bool {
    if (c as u32) < 128 {
        (c as u32) == 32 || (9 <= (c as u32) && (c as u32) <= 13)
    } else {
        whitespace_beyond_ascii(c)
    }
}

/// Relies on `char::is_alphabetic`: true exactly of characters with the
/// Unicode `Alphabetic` property, which on the ASCII range are the letters.
pub assume_specification[ char::is_alphabetic ](c: char) -> (r: bool)
    ensures
        r == alphabetic(c),
        (c as u32) >= 128 ==> r == alphabetic_beyond_ascii(c),
;

/// Relies on `char::is_whitespace`: true exactly of characters with the
/// Unicode `White_Space` property, whose ASCII members are the characters
/// 9 to 13 and the space.
pub assume_specification[ char::is_whitespace ](c: char) -> (r: bool)
    ensures
        r == unicode_whitespace(c),
        (c as u32) >= 128 ==> r == whitespace_beyond_ascii(c),
;

/// Whitespace that does not end a line: it is discarded by the scanner, while
/// a line break becomes a token of its own.
pub open spec fn spec_is_space(c: char) -> bool {
    unicode_whitespace(c) && c != '\n'
}

pub fn is_space(c: char) -> (r: bool)
    ensures
        r == spec_is_space(c),
{
    c.is_whitespace() && c != '\n'
}

/// A character that may stand in an identifier: alphabetic or an underscore.
pub open spec fn spec_is_valid_namer(c: char) -> bool {
    alphabetic(c) || c == '_'
}

pub fn is_valid_namer(c: char) -> (r: bool)
    ensures
        r == spec_is_valid_namer(c),
{
    c.is_alphabetic() || c == '_'
}

/// An ASCII digit.
pub open spec fn spec_is_digit(c: char) -> bool {
    48 <= (c as u32) && (c as u32) <= 57
}

fn is_digit(c: char) -> (r: bool)
    ensures
        r == spec_is_digit(c),
{
    let u = c as u32;
    48 <= u && u <= 57
}

// ---------------------------------------------------------------------------
// Tokens
// ---------------------------------------------------------------------------

/// The assignment operators of the grammar, and `Plus`, which is reserved for
/// a future expression grammar.
#[derive(Debug, PartialEq, Eq, Clone, Copy)]
pub enum Operator {
    Equal,
    ConstantEqual,
    Plus,
}

/// A literal value appearing in the source. A float literal keeps its exact
/// textual run of digits and dot; a string literal keeps the text between the
/// quotes.
#[derive(Debug, PartialEq, Eq, Clone)]
pub enum Literal {
    True,
    False,
    Integer(u64),
    Float(String),
    Str(String),
}

/// The smallest lexical unit produced by scanning.
#[derive(Debug, PartialEq, Eq, Clone)]
pub enum Token {
    Identifier(String),
    Operator(Operator),
    Literal(Literal),
    Func,
    LineBreak,
    OpenBracket,
    CloseBracket,
    Dot,
    EndOfInput,
}

/// Mathematical model of a `Literal`: the carried text as a `Seq<char>`.
pub enum LiteralV {
    True,
    False,
    Integer(u64),
    Float(Seq<char>),
    Str(Seq<char>),
}

/// Mathematical model of a `Token`.
pub enum TokenV {
    Identifier(Seq<char>),
    Operator(Operator),
    Literal(LiteralV),
    Func,
    LineBreak,
    OpenBracket,
    CloseBracket,
    Dot,
    EndOfInput,
}

impl View for Literal {
    type V = LiteralV;

    open spec fn view(&self) -> LiteralV {
        match self {
            Literal::True => LiteralV::True,
            Literal::False => LiteralV::False,
            Literal::Integer(value) => LiteralV::Integer(*value),
            Literal::Float(text) => LiteralV::Float(text@),
            Literal::Str(text) => LiteralV::Str(text@),
        }
    }
}

impl View for Token {
    type V = TokenV;

    open spec fn view(&self) -> TokenV {
        match self {
            Token::Identifier(name) => TokenV::Identifier(name@),
            Token::Operator(op) => TokenV::Operator(*op),
            Token::Literal(lit) => TokenV::Literal(lit@),
            Token::Func => TokenV::Func,
            Token::LineBreak => TokenV::LineBreak,
            Token::OpenBracket => TokenV::OpenBracket,
            Token::CloseBracket => TokenV::CloseBracket,
            Token::Dot => TokenV::Dot,
            Token::EndOfInput => TokenV::EndOfInput,
        }
    }
}

// ---------------------------------------------------------------------------
// The specification scanner
// ---------------------------------------------------------------------------

/// The end of the identifier run starting at `i`: the first index at or after
/// `i` whose character is no namer, or `s.len()`.
pub open spec fn namer_end(s: Seq<char>, i: int) -> int
    decreases s.len() - i
        when 0 <= i <= s.len()
{
    if i < s.len() && spec_is_valid_namer(s[i]) {
        namer_end(s, i + 1)
    } else {
        i
    }
}

/// The end of the number run starting at `i`: digits, with at most one dot
/// switching the run to float mode; a second dot ends the run.
pub open spec fn number_end(s: Seq<char>, i: int, seen_dot: bool) -> int
    decreases s.len() - i
        when 0 <= i <= s.len()
{
    if i >= s.len() {
        i
    } else if spec_is_digit(s[i]) {
        number_end(s, i + 1, seen_dot)
    } else if s[i] == '.' && !seen_dot {
        number_end(s, i + 1, true)
    } else {
        i
    }
}

/// The first index at or after `i` that closes or breaks a string literal: a
/// closing quote or a line break, or `s.len()` when neither follows.
pub open spec fn string_end(s: Seq<char>, i: int) -> int
    decreases s.len() - i
        when 0 <= i <= s.len()
{
    if i >= s.len() {
        i
    } else if s[i] == '"' || s[i] == '\n' {
        i
    } else {
        string_end(s, i + 1)
    }
}

/// The index of the `#` of the first adjacent `*#` pair at or after `p`, or
/// `None` when the rest of `s` holds none.
pub open spec fn comment_close(s: Seq<char>, p: int) -> Option<int>
    decreases s.len() - p
        when 0 <= p <= s.len()
{
    if p + 1 >= s.len() {
        None
    } else if s[p] == '*' && s[p + 1] == '#' {
        Some(p + 1)
    } else {
        comment_close(s, p + 1)
    }
}

/// The numeric value of the digit character `c`.
pub open spec fn digit_of(c: char) -> int {
    c as u32 - 48
}

/// The value of a run of ASCII digits read in base ten.
pub open spec fn digits_val(s: Seq<char>) -> int
    decreases s.len(),
{
    if s.len() == 0 {
        0
    } else {
        digits_val(s.drop_last()) * 10 + digit_of(s.last())
    }
}

/// Whether the run holds a dot, which makes a number literal a float.
pub open spec fn has_dot(s: Seq<char>) -> bool {
    exists|j: int| 0 <= j < s.len() && s[j] == '.'
}

/// How an identifier-shaped word is classified: the keywords `true`, `false`
/// and `func` yield their own tokens, every other word an `Identifier`.
pub open spec fn classify_word(w: Seq<char>) -> TokenV {
    if w == "true"@ {
        TokenV::Literal(LiteralV::True)
    } else if w == "false"@ {
        TokenV::Literal(LiteralV::False)
    } else if w == "func"@ {
        TokenV::Func
    } else {
        TokenV::Identifier(w)
    }
}

/// One step of the scanner at index `i` (which must be in range): either a
/// token with its position and the scanner state after it, a silent advance
/// over whitespace or a comment, or a lexical error.
pub enum ScanStep {
    Emit(TokenV, Position, int, int, int),
    Skip(int, int, int),
    Fail(ErrorV),
}

/// A position on `line` covering columns `a` to `b` inclusive.
pub open spec fn span(line: int, a: int, b: int) -> Position {
    Position { line: line as usize, columns: (a as usize, b as usize) }
}

/// The scanner's dispatch on the character at `i`, in the priority order of
/// the language rules. `2^64` bounds the value of an integer literal: a run
/// whose value would not fit is rejected as an invalid token.
pub open spec fn scan_step(s: Seq<char>, i: int, line: int, col: int) -> ScanStep {
    let c = s[i];
    if c == '=' {
        ScanStep::Emit(TokenV::Operator(Operator::Equal), span(line, col, col), i + 1, line, col + 1)
    } else if c == ':' {
        if i + 1 < s.len() && s[i + 1] == ':' {
            ScanStep::Emit(
                TokenV::Operator(Operator::ConstantEqual),
                span(line, col, col + 1),
                i + 2,
                line,
                col + 2,
            )
        } else {
            ScanStep::Fail(ErrorV { kind: ErrorKindV::InvalidToken, position: span(line, col, col) })
        }
    } else if c == '\n' {
        ScanStep::Emit(TokenV::LineBreak, span(line, col, col), i + 1, line + 1, 0)
    } else if c == '(' {
        ScanStep::Emit(TokenV::OpenBracket, span(line, col, col), i + 1, line, col + 1)
    } else if c == ')' {
        ScanStep::Emit(TokenV::CloseBracket, span(line, col, col), i + 1, line, col + 1)
    } else if c == '.' {
        ScanStep::Emit(TokenV::Dot, span(line, col, col), i + 1, line, col + 1)
    } else if c == '#' {
        if i + 1 < s.len() && s[i + 1] == '*' {
            match comment_close(s, i + 2) {
                Some(close) => ScanStep::Skip(close + 1, line, col + (close + 1 - i)),
                None => ScanStep::Fail(
                    ErrorV {
                        kind: ErrorKindV::Unmatched("comment"@),
                        position: span(line, col, col + (s.len() - i) - 1),
                    },
                ),
            }
        } else {
            let e = line_break_index(s, i + 1);
            ScanStep::Skip(e, line, col + (e - i))
        }
    } else if c == '"' {
        let e = string_end(s, i + 1);
        if e < s.len() && s[e] == '"' {
            ScanStep::Emit(
                TokenV::Literal(LiteralV::Str(s.subrange(i + 1, e))),
                span(line, col, col + (e - i)),
                e + 1,
                line,
                col + (e + 1 - i),
            )
        } else {
            ScanStep::Fail(
                ErrorV {
                    kind: ErrorKindV::Unmatched("quote"@),
                    position: span(line, col, col + (e - i) - 1),
                },
            )
        }
    } else if spec_is_valid_namer(c) {
        let e = namer_end(s, i);
        ScanStep::Emit(
            classify_word(s.subrange(i, e)),
            span(line, col, col + (e - i) - 1),
            e,
            line,
            col + (e - i),
        )
    } else if spec_is_digit(c) {
        let e = number_end(s, i, false);
        let run = s.subrange(i, e);
        if has_dot(run) {
            ScanStep::Emit(
                TokenV::Literal(LiteralV::Float(run)),
                span(line, col, col + (e - i) - 1),
                e,
                line,
                col + (e - i),
            )
        } else if digits_val(run) < 0x1_0000_0000_0000_0000 {
            ScanStep::Emit(
                TokenV::Literal(LiteralV::Integer(digits_val(run) as u64)),
                span(line, col, col + (e - i) - 1),
                e,
                line,
                col + (e - i),
            )
        } else {
            ScanStep::Fail(
                ErrorV {
                    kind: ErrorKindV::InvalidToken,
                    position: span(line, col, col + (e - i) - 1),
                },
            )
        }
    } else if spec_is_space(c) {
        ScanStep::Skip(i + 1, line, col + 1)
    } else {
        ScanStep::Fail(ErrorV { kind: ErrorKindV::InvalidToken, position: span(line, col, col) })
    }
}

pub proof fn lemma_namer_end_bounds(s: Seq<char>, i: int)
    requires
        0 <= i <= s.len(),
    ensures
        i <= namer_end(s, i) <= s.len(),
    decreases s.len() - i,
{
    if i < s.len() && spec_is_valid_namer(s[i]) {
        lemma_namer_end_bounds(s, i + 1);
    }
}

pub proof fn lemma_number_end_bounds(s: Seq<char>, i: int, seen_dot: bool)
    requires
        0 <= i <= s.len(),
    ensures
        i <= number_end(s, i, seen_dot) <= s.len(),
    decreases s.len() - i,
{
    if i < s.len() {
        if spec_is_digit(s[i]) {
            lemma_number_end_bounds(s, i + 1, seen_dot);
        } else if s[i] == '.' && !seen_dot {
            lemma_number_end_bounds(s, i + 1, true);
        }
    }
}

pub proof fn lemma_string_end_bounds(s: Seq<char>, i: int)
    requires
        0 <= i <= s.len(),
    ensures
        i <= string_end(s, i) <= s.len(),
    decreases s.len() - i,
{
    if i < s.len() && s[i] != '"' && s[i] != '\n' {
        lemma_string_end_bounds(s, i + 1);
    }
}

pub proof fn lemma_comment_close_bounds(s: Seq<char>, p: int)
    requires
        0 <= p <= s.len(),
    ensures
        match comment_close(s, p) {
            Some(close) => p + 1 <= close <= s.len() - 1,
            None => true,
        },
    decreases s.len() - p,
{
    if p + 1 < s.len() && !(s[p] == '*' && s[p + 1] == '#') {
        lemma_comment_close_bounds(s, p + 1);
    }
}

/// Every scanner step at an in-range index consumes at least one character
/// and stays within the source.
pub proof fn lemma_scan_step_advances(s: Seq<char>, i: int, line: int, col: int)
    requires
        0 <= i < s.len(),
    ensures
        match scan_step(s, i, line, col) {
            ScanStep::Emit(_, _, i2, _, _) => i < i2 <= s.len(),
            ScanStep::Skip(i2, _, _) => i < i2 <= s.len(),
            ScanStep::Fail(_) => true,
        },
{
    let c = s[i];
    lemma_namer_end_bounds(s, i + 1);
    lemma_number_end_bounds(s, i + 1, false);
    lemma_number_end_bounds(s, i + 1, true);
    lemma_string_end_bounds(s, i + 1);
    if i + 2 <= s.len() {
        lemma_comment_close_bounds(s, i + 2);
    }
    crate::error::lemma_line_break_index_bounds(s, i + 1);
}

/// Prepend one token to a scan outcome: an error passes through unchanged.
pub open spec fn prefix_scan(
    head: (TokenV, Position),
    rest: Result<Seq<(TokenV, Position)>, ErrorV>,
) -> Result<Seq<(TokenV, Position)>, ErrorV> {
    match rest {
        Ok(ts) => Ok(seq![head] + ts),
        Err(e) => Err(e),
    }
}

/// The whole scan from index `i` with the given line and column cursors:
/// the remaining tokens ending with `EndOfInput`, or the first lexical error.
pub open spec fn scan_from(s: Seq<char>, i: int, line: int, col: int) -> Result<
    Seq<(TokenV, Position)>,
    ErrorV,
>
    decreases s.len() - i
        when 0 <= i <= s.len()
{
    if i >= s.len() {
        Ok(seq![(TokenV::EndOfInput, span(line, col, col))])
    } else {
        proof {
            lemma_scan_step_advances(s, i, line, col);
        }
        match scan_step(s, i, line, col) {
            ScanStep::Emit(t, p, i2, line2, col2) => prefix_scan((t, p), scan_from(s, i2, line2, col2)),
            ScanStep::Skip(i2, line2, col2) => scan_from(s, i2, line2, col2),
            ScanStep::Fail(e) => Err(e),
        }
    }
}

/// What scanning a whole source text yields: the token stream or the first
/// lexical error.
pub open spec fn scan_spec(s: Seq<char>) -> Result<Seq<(TokenV, Position)>, ErrorV> {
    scan_from(s, 0, 0, 0)
}

/// A successful scan ends with exactly one `EndOfInput`, always last.
pub proof fn lemma_scan_from_shape(s: Seq<char>, i: int, line: int, col: int)
    requires
        0 <= i <= s.len(),
    ensures
        match scan_from(s, i, line, col) {
            Ok(ts) => ts.len() > 0 && ts.last().0 == TokenV::EndOfInput && (forall|k: int|
                0 <= k < ts.len() - 1 ==> ts[k].0 != TokenV::EndOfInput),
            Err(_) => true,
        },
    decreases s.len() - i,
{
    if i < s.len() {
        lemma_scan_step_advances(s, i, line, col);
        match scan_step(s, i, line, col) {
            ScanStep::Emit(t, p, i2, line2, col2) => {
                lemma_scan_from_shape(s, i2, line2, col2);
                assert(t != TokenV::EndOfInput);
                match scan_from(s, i2, line2, col2) {
                    Ok(ts) => {
                        let whole = seq![(t, p)] + ts;
                        assert(whole.last() == ts.last());
                        assert(forall|k: int|
                            0 <= k < whole.len() - 1 ==> whole[k].0 != TokenV::EndOfInput);
                    },
                    Err(_) => {},
                }
            },
            ScanStep::Skip(i2, line2, col2) => {
                lemma_scan_from_shape(s, i2, line2, col2);
            },
            ScanStep::Fail(_) => {},
        }
    }
}

// ---------------------------------------------------------------------------
// The executable scanner
// ---------------------------------------------------------------------------

/// The mathematical model of a token stream: each token replaced by its view.
pub open spec fn stream_view(toks: Seq<(Token, Position)>) -> Seq<(TokenV, Position)> {
    Seq::new(toks.len(), |k: int| (toks[k].0@, toks[k].1))
}

/// The result of one scan: the ordered token stream, ending with exactly one
/// `EndOfInput`.
#[derive(Debug)]
pub struct Lexer {
    pub tokens: Vec<(Token, Position)>,
}

impl View for Lexer {
    type V = Seq<(TokenV, Position)>;

    open spec fn view(&self) -> Seq<(TokenV, Position)> {
        stream_view(self.tokens@)
    }
}

/// Append the tokens already emitted in front of the outcome of the rest of
/// the scan.
pub open spec fn scan_continuation(
    done: Seq<(TokenV, Position)>,
    rest: Result<Seq<(TokenV, Position)>, ErrorV>,
) -> Result<Seq<(TokenV, Position)>, ErrorV> {
    match rest {
        Ok(ts) => Ok(done + ts),
        Err(e) => Err(e),
    }
}

proof fn lemma_continuation_push(
    done: Seq<(TokenV, Position)>,
    head: (TokenV, Position),
    rest: Result<Seq<(TokenV, Position)>, ErrorV>,
)
    ensures
        scan_continuation(done, prefix_scan(head, rest)) == scan_continuation(
            done.push(head),
            rest,
        ),
{
    match rest {
        Ok(ts) => {
            assert(done + (seq![head] + ts) =~= done.push(head) + ts);
        },
        Err(_) => {},
    }
}

proof fn lemma_stream_view_push(toks: Seq<(Token, Position)>, t: Token, p: Position)
    ensures
        stream_view(toks.push((t, p))) == stream_view(toks).push((t@, p)),
{
    assert(stream_view(toks.push((t, p))) =~= stream_view(toks).push((t@, p)));
}

fn scan_namer_end(code: &str, start: usize, n: usize) -> (e: usize)
    requires
        n == code@.len(),
        start <= n,
    ensures
        e == namer_end(code@, start as int),
        start <= e <= n,
{
    let mut e = start;
    while e < n && is_valid_namer(code.get_char(e))
        invariant
            start <= e <= n,
            n == code@.len(),
            namer_end(code@, start as int) == namer_end(code@, e as int),
        decreases n - e,
    {
        e = e + 1;
    }
    e
}

fn scan_string_end(code: &str, start: usize, n: usize) -> (e: usize)
    requires
        n == code@.len(),
        start <= n,
    ensures
        e == string_end(code@, start as int),
        start <= e <= n,
{
    let mut e = start;
    while e < n && code.get_char(e) != '"' && code.get_char(e) != '\n'
        invariant
            start <= e <= n,
            n == code@.len(),
            string_end(code@, start as int) == string_end(code@, e as int),
        decreases n - e,
    {
        e = e + 1;
    }
    e
}

fn scan_comment_close(code: &str, start: usize, n: usize) -> (r: Option<usize>)
    requires
        n == code@.len(),
        start <= n,
    ensures
        match r {
            Some(close) => comment_close(code@, start as int) == Some(close as int) && start
                < close < n,
            None => comment_close(code@, start as int) is None,
        },
{
    let mut p = start;
    loop
        invariant
            start <= p <= n,
            n == code@.len(),
            comment_close(code@, start as int) == comment_close(code@, p as int),
        decreases n - p,
    {
        if n - p < 2 {
            return None;
        }
        if code.get_char(p) == '*' && code.get_char(p + 1) == '#' {
            proof {
                lemma_comment_close_bounds(code@, start as int);
            }
            return Some(p + 1);
        }
        p = p + 1;
    }
}

fn scan_number_end(code: &str, start: usize, n: usize) -> (res: (usize, bool))
    requires
        n == code@.len(),
        start <= n,
    ensures
        res.0 == number_end(code@, start as int, false),
        start <= res.0 <= n,
        res.1 == has_dot(code@.subrange(start as int, res.0 as int)),
        forall|j: int| start <= j < res.0 ==> spec_is_digit(code@[j]) || code@[j] == '.',
{
    let mut e = start;
    let mut seen = false;
    loop
        invariant
            start <= e <= n,
            n == code@.len(),
            number_end(code@, start as int, false) == number_end(code@, e as int, seen),
            seen == (exists|j: int| start <= j < e && code@[j] == '.'),
            forall|j: int| start <= j < e ==> spec_is_digit(code@[j]) || code@[j] == '.',
        ensures
            e == number_end(code@, start as int, false),
            start <= e <= n,
            seen == (exists|j: int| start <= j < e && code@[j] == '.'),
            forall|j: int| start <= j < e ==> spec_is_digit(code@[j]) || code@[j] == '.',
        decreases n - e,
    {
        if e >= n {
            break;
        }
        let c = code.get_char(e);
        if is_digit(c) {
            e = e + 1;
        } else if c == '.' && !seen {
            seen = true;
            e = e + 1;
        } else {
            break;
        }
    }
    proof {
        let run = code@.subrange(start as int, e as int);
        if seen {
            let j = choose|j: int| start <= j < e && code@[j] == '.';
            assert(run[j - start] == '.');
        } else {
            assert forall|k: int| 0 <= k < run.len() implies run[k] != '.' by {
                assert(run[k] == code@[start + k]);
            }
        }
    }
    (e, seen)
}

proof fn lemma_digits_val_bounds(s: Seq<char>)
    requires
        forall|j: int| 0 <= j < s.len() ==> spec_is_digit(s[j]),
    ensures
        digits_val(s) >= 0,
    decreases s.len(),
{
    if s.len() > 0 {
        lemma_digits_val_bounds(s.drop_last());
    }
}

proof fn lemma_digits_val_mono(s: Seq<char>, k: int)
    requires
        0 <= k <= s.len(),
        forall|j: int| 0 <= j < s.len() ==> spec_is_digit(s[j]),
    ensures
        digits_val(s) >= digits_val(s.take(k)),
    decreases s.len() - k,
{
    if k == s.len() {
        assert(s.take(k) =~= s);
    } else {
        let t = s.take(k + 1);
        assert(t.drop_last() =~= s.take(k));
        assert(t.last() == s[k]);
        lemma_digits_val_bounds(s.take(k));
        assert(forall|j: int| 0 <= j < s.take(k).len() ==> spec_is_digit(s.take(k)[j]));
        lemma_digits_val_mono(s, k + 1);
    }
}

fn digits_to_u64(code: &str, from: usize, to: usize, n: usize) -> (r: Option<u64>)
    requires
        n == code@.len(),
        from <= to <= n,
        forall|j: int| from <= j < to ==> spec_is_digit(code@[j]),
    ensures
        ({
            let run = code@.subrange(from as int, to as int);
            match r {
                Some(v) => digits_val(run) < 0x1_0000_0000_0000_0000 && v == digits_val(run),
                None => digits_val(run) >= 0x1_0000_0000_0000_0000,
            }
        }),
{
    let ghost run = code@.subrange(from as int, to as int);
    proof {
        assert(forall|j: int| 0 <= j < run.len() ==> spec_is_digit(run[j]));
    }
    let mut acc: u64 = 0;
    let mut j = from;
    while j < to
        invariant
            from <= j <= to <= n,
            n == code@.len(),
            forall|k: int| from <= k < to ==> spec_is_digit(code@[k]),
            run == code@.subrange(from as int, to as int),
            acc == digits_val(run.take(j - from)),
        decreases to - j,
    {
        let c = code.get_char(j);
        let ghost prefix = run.take(j - from);
        proof {
            let next = run.take(j - from + 1);
            assert(next.drop_last() =~= prefix);
            assert(next.last() == code@[j as int]);
        }
        let d = (c as u32 - 48) as u64;
        if acc > 1844674407370955161u64 {
            proof {
                assert(digits_val(run.take(j - from + 1)) >= 0x1_0000_0000_0000_0000);
                lemma_digits_val_mono(run, j - from + 1);
            }
            return None;
        }
        let acc10 = acc * 10;
        if d > u64::MAX - acc10 {
            proof {
                assert(digits_val(run.take(j - from + 1)) >= 0x1_0000_0000_0000_0000);
                lemma_digits_val_mono(run, j - from + 1);
            }
            return None;
        }
        acc = acc10 + d;
        j = j + 1;
    }
    proof {
        assert(run.take(to - from) =~= run);
    }
    Some(acc)
}

/// Classify the word `code[from..to]`: keyword, boolean literal, or
/// identifier.
fn classify_name(code: &str, from: usize, to: usize) -> (t: Token)
    requires
        from <= to <= code@.len(),
    ensures
        t@ == classify_word(code@.subrange(from as int, to as int)),
{
    let word = code.substring_char(from, to);
    let owned = String::from_str(word);
    if owned == String::from_str("true") {
        Token::Literal(Literal::True)
    } else if owned == String::from_str("false") {
        Token::Literal(Literal::False)
    } else if owned == String::from_str("func") {
        Token::Func
    } else {
        Token::Identifier(owned)
    }
}


/// The outcome of one executable scanner step: a token with the cursor state
/// after it, a silent advance, or a lexical error.
enum StepOutcome {
    Tok(Token, Position, usize, usize, usize),
    Advance(usize, usize, usize),
    Fault(Error),
}

/// One scanner step at index `i`, mirroring [`scan_step`] exactly.
#[verifier::rlimit(60)]
fn exec_step(code: &str, n: usize, i: usize, line: usize, col: usize) -> (r: StepOutcome)
    requires
        n == code@.len(),
        i < n,
        col <= i,
        line <= i,
    ensures
        match r {
            StepOutcome::Tok(t, p, i2, l2, c2) => scan_step(
                code@,
                i as int,
                line as int,
                col as int,
            ) == ScanStep::Emit(t@, p, i2 as int, l2 as int, c2 as int) && i < i2 <= n && c2 <= i2
                && l2 <= i2,
            StepOutcome::Advance(i2, l2, c2) => scan_step(
                code@,
                i as int,
                line as int,
                col as int,
            ) == ScanStep::Skip(i2 as int, l2 as int, c2 as int) && i < i2 <= n && c2 <= i2 && l2
                <= i2,
            StepOutcome::Fault(e) => scan_step(code@, i as int, line as int, col as int)
                == ScanStep::Fail(e@),
        },
{
    let ghost s = code@;
    let ghost gi = i as int;
    let c = code.get_char(i);
    if c == '=' {
        StepOutcome::Tok(
            Token::Operator(Operator::Equal),
            Position { line, columns: (col, col) },
            i + 1,
            line,
            col + 1,
        )
    } else if c == ':' {
        if i + 1 < n && code.get_char(i + 1) == ':' {
            StepOutcome::Tok(
                Token::Operator(Operator::ConstantEqual),
                Position { line, columns: (col, col + 1) },
                i + 2,
                line,
                col + 2,
            )
        } else {
            StepOutcome::Fault(
                Error::new(ErrorKind::InvalidToken, Position { line, columns: (col, col) }),
            )
        }
    } else if c == '\n' {
        StepOutcome::Tok(
            Token::LineBreak,
            Position { line, columns: (col, col) },
            i + 1,
            line + 1,
            0,
        )
    } else if c == '(' {
        StepOutcome::Tok(
            Token::OpenBracket,
            Position { line, columns: (col, col) },
            i + 1,
            line,
            col + 1,
        )
    } else if c == ')' {
        StepOutcome::Tok(
            Token::CloseBracket,
            Position { line, columns: (col, col) },
            i + 1,
            line,
            col + 1,
        )
    } else if c == '.' {
        StepOutcome::Tok(Token::Dot, Position { line, columns: (col, col) }, i + 1, line, col + 1)
    } else if c == '#' {
        if i + 1 < n && code.get_char(i + 1) == '*' {
            match scan_comment_close(code, i + 2, n) {
                Some(close) => {
                    proof {
                        lemma_comment_close_bounds(s, gi + 2);
                    }
                    StepOutcome::Advance(close + 1, line, col + (close + 1 - i))
                },
                None => StepOutcome::Fault(
                    Error::new(
                        ErrorKind::Unmatched(String::from_str("comment")),
                        Position { line, columns: (col, col + (n - i) - 1) },
                    ),
                ),
            }
        } else {
            let e = next_line_break(code, i + 1, n);
            StepOutcome::Advance(e, line, col + (e - i))
        }
    } else if c == '"' {
        let e = scan_string_end(code, i + 1, n);
        if e < n && code.get_char(e) == '"' {
            let text = String::from_str(code.substring_char(i + 1, e));
            StepOutcome::Tok(
                Token::Literal(Literal::Str(text)),
                Position { line, columns: (col, col + (e - i)) },
                e + 1,
                line,
                col + (e + 1 - i),
            )
        } else {
            StepOutcome::Fault(
                Error::new(
                    ErrorKind::Unmatched(String::from_str("quote")),
                    Position { line, columns: (col, col + (e - i) - 1) },
                ),
            )
        }
    } else if is_valid_namer(c) {
        let e = scan_namer_end(code, i, n);
        proof {
            assert(namer_end(s, gi) == namer_end(s, gi + 1));
            lemma_namer_end_bounds(s, gi + 1);
        }
        let tok = classify_name(code, i, e);
        StepOutcome::Tok(
            tok,
            Position { line, columns: (col, col + (e - i) - 1) },
            e,
            line,
            col + (e - i),
        )
    } else if is_digit(c) {
        let (e, is_float) = scan_number_end(code, i, n);
        proof {
            assert(number_end(s, gi, false) == number_end(s, gi + 1, false));
            lemma_number_end_bounds(s, gi + 1, false);
        }
        let pos = Position { line, columns: (col, col + (e - i) - 1) };
        if is_float {
            let text = String::from_str(code.substring_char(i, e));
            StepOutcome::Tok(Token::Literal(Literal::Float(text)), pos, e, line, col + (e - i))
        } else {
            proof {
                let run = s.subrange(gi, e as int);
                assert forall|j: int| gi <= j < e as int implies spec_is_digit(s[j]) by {
                    assert(run[j - gi] == s[j]);
                }
            }
            match digits_to_u64(code, i, e, n) {
                Some(value) => StepOutcome::Tok(
                    Token::Literal(Literal::Integer(value)),
                    pos,
                    e,
                    line,
                    col + (e - i),
                ),
                None => StepOutcome::Fault(Error::new(ErrorKind::InvalidToken, pos)),
            }
        }
    } else if is_space(c) {
        StepOutcome::Advance(i + 1, line, col + 1)
    } else {
        StepOutcome::Fault(
            Error::new(ErrorKind::InvalidToken, Position { line, columns: (col, col) }),
        )
    }
}

impl Lexer {
    /// Scan a whole source text into its token stream, or report the first
    /// lexical error. The result is exactly what [`scan_spec`] says; a
    /// successful stream ends with exactly one `EndOfInput`.
    pub fn parse(code: &str) -> (r: Result<Lexer, Error>)
        ensures
            match r {
                Ok(lexer) => scan_spec(code@) == Ok::<Seq<(TokenV, Position)>, ErrorV>(lexer@)
                    && lexer@.len() > 0 && lexer@.last().0 == TokenV::EndOfInput && (forall|k: int|
                    0 <= k < lexer@.len() - 1 ==> lexer@[k].0 != TokenV::EndOfInput),
                Err(e) => scan_spec(code@) == Err::<Seq<(TokenV, Position)>, ErrorV>(e@),
            },
    {
        let ghost s = code@;
        let n = code.unicode_len();
        let mut tokens: Vec<(Token, Position)> = Vec::new();
        let mut i: usize = 0;
        let mut line: usize = 0;
        let mut col: usize = 0;
        loop
            invariant
                n == s.len(),
                s == code@,
                i <= n,
                col <= i,
                line <= i,
                scan_spec(s) == scan_continuation(
                    stream_view(tokens@),
                    scan_from(s, i as int, line as int, col as int),
                ),
            decreases n - i,
        {
            if i == n {
                let pos = Position { line, columns: (col, col) };
                let ghost pre = tokens@;
                tokens.push((Token::EndOfInput, pos));
                proof {
                    lemma_stream_view_push(pre, Token::EndOfInput, pos);
                    assert(stream_view(pre) + seq![(TokenV::EndOfInput, pos)] =~= stream_view(
                        tokens@,
                    ));
                    lemma_scan_from_shape(s, 0, 0, 0);
                }
                return Ok(Lexer { tokens });
            }
            let ghost pre = tokens@;
            match exec_step(code, n, i, line, col) {
                StepOutcome::Tok(tok, pos, i2, line2, col2) => {
                    let ghost tokv = tok@;
                    proof {
                        lemma_continuation_push(
                            stream_view(pre),
                            (tokv, pos),
                            scan_from(s, i2 as int, line2 as int, col2 as int),
                        );
                        lemma_stream_view_push(pre, tok, pos);
                    }
                    tokens.push((tok, pos));
                    i = i2;
                    line = line2;
                    col = col2;
                },
                StepOutcome::Advance(i2, line2, col2) => {
                    i = i2;
                    line = line2;
                    col = col2;
                },
                StepOutcome::Fault(e) => {
                    return Err(e);
                },
            }
        }
    }
}


// ---------------------------------------------------------------------------
// Laws of the scanner
// ---------------------------------------------------------------------------

proof fn lemma_namer_end_all(s: Seq<char>, i: int)
    requires
        0 <= i <= s.len(),
        forall|j: int| i <= j < s.len() ==> spec_is_valid_namer(s[j]),
    ensures
        namer_end(s, i) == s.len(),
    decreases s.len() - i,
{
    if i < s.len() {
        lemma_namer_end_all(s, i + 1);
    }
}

proof fn lemma_number_end_all_digits(s: Seq<char>, i: int, seen_dot: bool)
    requires
        0 <= i <= s.len(),
        forall|j: int| i <= j < s.len() ==> spec_is_digit(s[j]),
    ensures
        number_end(s, i, seen_dot) == s.len(),
    decreases s.len() - i,
{
    if i < s.len() {
        lemma_number_end_all_digits(s, i + 1, seen_dot);
    }
}

proof fn lemma_number_end_to_dot(s: Seq<char>, i: int, dot: int)
    requires
        0 <= i <= dot < s.len(),
        s[dot] == '.',
        forall|j: int| 0 <= j < s.len() && j != dot ==> spec_is_digit(s[j]),
    ensures
        number_end(s, i, false) == s.len(),
    decreases dot - i,
{
    if i == dot {
        lemma_number_end_all_digits(s, i + 1, true);
    } else {
        lemma_number_end_to_dot(s, i + 1, dot);
    }
}

proof fn lemma_string_end_all(s: Seq<char>, i: int)
    requires
        0 <= i <= s.len(),
        forall|j: int| i <= j < s.len() ==> s[j] != '"' && s[j] != '\n',
    ensures
        string_end(s, i) == s.len(),
    decreases s.len() - i,
{
    if i < s.len() {
        lemma_string_end_all(s, i + 1);
    }
}

proof fn lemma_comment_close_none(s: Seq<char>, p: int)
    requires
        0 <= p <= s.len(),
        forall|q: int| p <= q < s.len() - 1 ==> !((#[trigger] s[q]) == '*' && s[q + 1] == '#'),
    ensures
        comment_close(s, p) is None,
    decreases s.len() - p,
{
    if p + 1 < s.len() {
        lemma_comment_close_none(s, p + 1);
    }
}

/// Law: scanning one identifier-shaped word (alphabetic characters and
/// underscores) alone yields exactly one token for the word — the keywords
/// `true`, `false` and `func` their own tokens, every other word an
/// `Identifier` carrying the word — followed by `EndOfInput`.
pub proof fn lemma_scan_single_word(s: Seq<char>)
    requires
        s.len() > 0,
        forall|j: int| 0 <= j < s.len() ==> spec_is_valid_namer(s[j]),
    ensures
        scan_spec(s) == Ok::<Seq<(TokenV, Position)>, ErrorV>(
            seq![
                (classify_word(s), Position { line: 0, columns: (0, (s.len() - 1) as usize) }),
                (
                    TokenV::EndOfInput,
                    Position { line: 0, columns: (s.len() as usize, s.len() as usize) },
                ),
            ],
        ),
{
    lemma_namer_end_all(s, 0);
    assert(s.subrange(0, s.len() as int) =~= s);
    let tok = classify_word(s);
    let pos = Position { line: 0, columns: (0, (s.len() - 1) as usize) };
    let eof = (
        TokenV::EndOfInput,
        Position { line: 0, columns: (s.len() as usize, s.len() as usize) },
    );
    assert(scan_step(s, 0, 0, 0) == ScanStep::Emit(tok, pos, s.len() as int, 0, s.len() as int));
    assert(scan_from(s, s.len() as int, 0, s.len() as int) == Ok::<
        Seq<(TokenV, Position)>,
        ErrorV,
    >(seq![eof]));
    assert(seq![(tok, pos)] + seq![eof] =~= seq![(tok, pos), eof]);
}

proof fn lemma_digit_char_inverse(c: char)
    requires
        spec_is_digit(c),
    ensures
        crate::error::decimal_digit(digit_of(c)) == c,
        digit_of(c) == 0 <==> c == '0',
{
    let u = c as u32;
    vstd::utf8::char_u32_cast(c, u);
    vstd::utf8::char_u32_cast('0', 48);
    vstd::utf8::char_u32_cast('1', 49);
    vstd::utf8::char_u32_cast('2', 50);
    vstd::utf8::char_u32_cast('3', 51);
    vstd::utf8::char_u32_cast('4', 52);
    vstd::utf8::char_u32_cast('5', 53);
    vstd::utf8::char_u32_cast('6', 54);
    vstd::utf8::char_u32_cast('7', 55);
    vstd::utf8::char_u32_cast('8', 56);
    vstd::utf8::char_u32_cast('9', 57);
}

proof fn lemma_digits_val_positive(s: Seq<char>)
    requires
        s.len() > 0,
        forall|j: int| 0 <= j < s.len() ==> spec_is_digit(s[j]),
        s[0] != '0',
    ensures
        digits_val(s) >= 1,
    decreases s.len(),
{
    assert(spec_is_digit(s[0]));
    assert(spec_is_digit(s[s.len() - 1]));
    assert(digits_val(Seq::<char>::empty()) == 0);
    if s.len() == 1 {
        assert(s.drop_last() =~= Seq::<char>::empty());
        lemma_digit_char_inverse(s[0]);
        assert(digit_of(s[0]) >= 1);
    } else {
        let prefix = s.drop_last();
        assert(prefix[0] == s[0]);
        assert(forall|j: int| 0 <= j < prefix.len() ==> spec_is_digit(#[trigger] prefix[j]));
        lemma_digits_val_positive(prefix);
        assert(digit_of(s.last()) >= 0);
    }
}

/// Law: a run of digits without leading zeroes round-trips through its scanned
/// integer value: writing the value back in decimal gives the run itself.
pub proof fn lemma_integer_text_round_trip(s: Seq<char>)
    requires
        s.len() > 0,
        forall|j: int| 0 <= j < s.len() ==> spec_is_digit(s[j]),
        s[0] != '0' || s.len() == 1,
    ensures
        digits_val(s) >= 0,
        crate::error::decimal_seq(digits_val(s)) == s,
    decreases s.len(),
{
    assert(spec_is_digit(s[0]));
    assert(spec_is_digit(s[s.len() - 1]));
    assert(digits_val(Seq::<char>::empty()) == 0);
    if s.len() == 1 {
        assert(s.drop_last() =~= Seq::<char>::empty());
        let d = digit_of(s[0]);
        assert(0 <= d <= 9);
        assert(digits_val(s) == d);
        assert(crate::error::decimal_seq(d) == seq![crate::error::decimal_digit(d)]);
        lemma_digit_char_inverse(s[0]);
        assert(crate::error::decimal_digit(d) == s[0]);
        assert(crate::error::decimal_seq(d) =~= s);
    } else {
        let prefix = s.drop_last();
        assert(prefix[0] == s[0]);
        assert(forall|j: int| 0 <= j < prefix.len() ==> spec_is_digit(#[trigger] prefix[j]));
        lemma_integer_text_round_trip(prefix);
        lemma_digits_val_positive(prefix);
        let a = digits_val(prefix);
        let d = digit_of(s.last());
        assert(0 <= d <= 9);
        let v = digits_val(s);
        assert(v == a * 10 + d);
        assert(v >= 10) by (nonlinear_arith)
            requires
                a >= 1,
                d >= 0,
                v == a * 10 + d,
        {
        }
        assert(v / 10 == a && v % 10 == d) by (nonlinear_arith)
            requires
                0 <= d <= 9,
                v == a * 10 + d,
        {
        }
        assert(crate::error::decimal_seq(v) == crate::error::decimal_seq(a).push(
            crate::error::decimal_digit(d),
        ));
        lemma_digit_char_inverse(s.last());
        assert(crate::error::decimal_digit(d) == s.last());
        assert(crate::error::decimal_seq(v) =~= s);
    }
}

/// Law: scanning a run of digits without a dot, whose value fits a `u64`,
/// yields exactly one `Integer` literal carrying that value, followed by
/// `EndOfInput`.
pub proof fn lemma_scan_integer_literal(s: Seq<char>)
    requires
        s.len() > 0,
        forall|j: int| 0 <= j < s.len() ==> spec_is_digit(s[j]),
        digits_val(s) < 0x1_0000_0000_0000_0000,
    ensures
        scan_spec(s) == Ok::<Seq<(TokenV, Position)>, ErrorV>(
            seq![
                (
                    TokenV::Literal(LiteralV::Integer(digits_val(s) as u64)),
                    Position { line: 0, columns: (0, (s.len() - 1) as usize) },
                ),
                (
                    TokenV::EndOfInput,
                    Position { line: 0, columns: (s.len() as usize, s.len() as usize) },
                ),
            ],
        ),
{
    lemma_number_end_all_digits(s, 0, false);
    assert(s.subrange(0, s.len() as int) =~= s);
    assert(!has_dot(s)) by {
        if has_dot(s) {
            let j = choose|j: int| 0 <= j < s.len() && s[j] == '.';
            assert(spec_is_digit(s[j]));
        }
    }
    let tok = TokenV::Literal(LiteralV::Integer(digits_val(s) as u64));
    let pos = Position { line: 0, columns: (0, (s.len() - 1) as usize) };
    let eof = (
        TokenV::EndOfInput,
        Position { line: 0, columns: (s.len() as usize, s.len() as usize) },
    );
    assert(scan_step(s, 0, 0, 0) == ScanStep::Emit(tok, pos, s.len() as int, 0, s.len() as int));
    assert(scan_from(s, s.len() as int, 0, s.len() as int) == Ok::<
        Seq<(TokenV, Position)>,
        ErrorV,
    >(seq![eof]));
    assert(seq![(tok, pos)] + seq![eof] =~= seq![(tok, pos), eof]);
}

/// Law: scanning a run of digits holding exactly one dot, beginning with a
/// digit, yields exactly one `Float` literal carrying the run itself — the
/// textual round trip is the identity — followed by `EndOfInput`.
pub proof fn lemma_scan_float_literal(s: Seq<char>, dot: int)
    requires
        0 < dot < s.len(),
        s[dot] == '.',
        forall|j: int| 0 <= j < s.len() && j != dot ==> spec_is_digit(s[j]),
    ensures
        scan_spec(s) == Ok::<Seq<(TokenV, Position)>, ErrorV>(
            seq![
                (
                    TokenV::Literal(LiteralV::Float(s)),
                    Position { line: 0, columns: (0, (s.len() - 1) as usize) },
                ),
                (
                    TokenV::EndOfInput,
                    Position { line: 0, columns: (s.len() as usize, s.len() as usize) },
                ),
            ],
        ),
{
    lemma_number_end_to_dot(s, 0, dot);
    assert(s.subrange(0, s.len() as int) =~= s);
    assert(has_dot(s));
    let tok = TokenV::Literal(LiteralV::Float(s));
    let pos = Position { line: 0, columns: (0, (s.len() - 1) as usize) };
    let eof = (
        TokenV::EndOfInput,
        Position { line: 0, columns: (s.len() as usize, s.len() as usize) },
    );
    assert(scan_step(s, 0, 0, 0) == ScanStep::Emit(tok, pos, s.len() as int, 0, s.len() as int));
    assert(scan_from(s, s.len() as int, 0, s.len() as int) == Ok::<
        Seq<(TokenV, Position)>,
        ErrorV,
    >(seq![eof]));
    assert(seq![(tok, pos)] + seq![eof] =~= seq![(tok, pos), eof]);
}

/// Law: scanning a string literal that is never closed — no further quote
/// before a line break or the end of the input — fails with
/// `Unmatched("quote")`.
pub proof fn lemma_unterminated_string(s: Seq<char>)
    requires
        s.len() > 0,
        s[0] == '"',
        forall|j: int| 1 <= j < s.len() ==> s[j] != '"' && s[j] != '\n',
    ensures
        scan_spec(s) == Err::<Seq<(TokenV, Position)>, ErrorV>(
            ErrorV {
                kind: ErrorKindV::Unmatched("quote"@),
                position: Position { line: 0, columns: (0, (s.len() - 1) as usize) },
            },
        ),
{
    lemma_string_end_all(s, 1);
}

/// Law: scanning a multi-line comment that is never closed — no adjacent
/// `*#` pair after the opener — fails with `Unmatched("comment")`; in
/// particular a lone `*` not immediately followed by `#` never closes it.
pub proof fn lemma_unterminated_comment(s: Seq<char>)
    requires
        s.len() >= 2,
        s[0] == '#',
        s[1] == '*',
        forall|p: int| 2 <= p < s.len() - 1 ==> !((#[trigger] s[p]) == '*' && s[p + 1] == '#'),
    ensures
        scan_spec(s) == Err::<Seq<(TokenV, Position)>, ErrorV>(
            ErrorV {
                kind: ErrorKindV::Unmatched("comment"@),
                position: Position { line: 0, columns: (0, (s.len() - 1) as usize) },
            },
        ),
{
    lemma_comment_close_none(s, 2);
}

} // verus!
