//! The mathematical model of scanning: what each position of the source
//! starts, and the token sequence (or error) a whole source yields.
use vstd::prelude::*;

verus! {

/// The kind of a token.
#[derive(Debug, Clone, Copy, PartialEq, Eq, Structural)]
pub enum TokenType {
    // Single-character tokens.
    LeftParen,
    RightParen,
    LeftBrace,
    RightBrace,
    Comma,
    Dot,
    Minus,
    Plus,
    Semicolon,
    Slash,
    Star,
    // One- or two-character tokens.
    Bang,
    BangEqual,
    Equal,
    EqualEqual,
    Greater,
    GreaterEqual,
    Less,
    LessEqual,
    // Literals.
    Identifier,
    String,
    Number,
    // Keywords.
    And,
    Class,
    Else,
    False,
    Fun,
    For,
    If,
    Nil,
    Or,
    Print,
    Return,
    Super,
    This,
    True,
    Var,
    While,
    // End of input.
    Eof,
}

/// The line number reported for the first line of the source.
pub const LINE_BASE: usize = 0;

/// Whether `char::is_alphanumeric` holds of `c` (Unicode Alphabetic or Numeric).
pub uninterp spec fn alphanumeric(c: char) -> bool;

/// Identifier continuation, as `char::is_alphanumeric` decides it: among
/// ASCII characters the letters and digits, beyond ASCII what it accepts.
pub open spec fn is_word_char(c: char) -> bool {
    if (c as u32) < 128 {
        ('a' <= c && c <= 'z') || ('A' <= c && c <= 'Z') || is_digit(c)
    } else {
        alphanumeric(c)
    }
}

pub open spec fn is_digit(c: char) -> bool {
    '0' <= c && c <= '9'
}

/// Characters that may begin an identifier or keyword.
pub open spec fn is_ident_start(c: char) -> bool {
    ('a' <= c && c <= 'z') || ('A' <= c && c <= 'Z') || c == '_'
}

/// Characters that separate tokens and yield none.
pub open spec fn is_space(c: char) -> bool {
    c == ' ' || c == '\r' || c == '\t' || c == '\n'
}

/// The kind of a punctuation character that always stands alone.
pub open spec fn single_kind(c: char) -> Option<TokenType> {
    if c == '(' {
        Some(TokenType::LeftParen)
    } else if c == ')' {
        Some(TokenType::RightParen)
    } else if c == '{' {
        Some(TokenType::LeftBrace)
    } else if c == '}' {
        Some(TokenType::RightBrace)
    } else if c == ',' {
        Some(TokenType::Comma)
    } else if c == '.' {
        Some(TokenType::Dot)
    } else if c == '-' {
        Some(TokenType::Minus)
    } else if c == '+' {
        Some(TokenType::Plus)
    } else if c == ';' {
        Some(TokenType::Semicolon)
    } else if c == '*' {
        Some(TokenType::Star)
    } else {
        None
    }
}

/// For `!`, `=`, `<` and `>`: the kind alone and the kind followed by `=`.
pub open spec fn operator_kinds(c: char) -> Option<(TokenType, TokenType)> {
    if c == '!' {
        Some((TokenType::Bang, TokenType::BangEqual))
    } else if c == '=' {
        Some((TokenType::Equal, TokenType::EqualEqual))
    } else if c == '<' {
        Some((TokenType::Less, TokenType::LessEqual))
    } else if c == '>' {
        Some((TokenType::Greater, TokenType::GreaterEqual))
    } else {
        None
    }
}

/// The reserved word spelled `w`, or `Identifier`.
pub open spec fn keyword_kind(w: Seq<char>) -> TokenType {
    if w == "and"@ {
        TokenType::And
    } else if w == "class"@ {
        TokenType::Class
    } else if w == "else"@ {
        TokenType::Else
    } else if w == "false"@ {
        TokenType::False
    } else if w == "for"@ {
        TokenType::For
    } else if w == "fun"@ {
        TokenType::Fun
    } else if w == "if"@ {
        TokenType::If
    } else if w == "nil"@ {
        TokenType::Nil
    } else if w == "or"@ {
        TokenType::Or
    } else if w == "print"@ {
        TokenType::Print
    } else if w == "return"@ {
        TokenType::Return
    } else if w == "super"@ {
        TokenType::Super
    } else if w == "this"@ {
        TokenType::This
    } else if w == "true"@ {
        TokenType::True
    } else if w == "var"@ {
        TokenType::Var
    } else if w == "while"@ {
        TokenType::While
    } else {
        TokenType::Identifier
    }
}

/// The runs of characters that the scanner consumes in one sweep.
pub enum RunKind {
    /// Decimal digits.
    Digits,
    /// Identifier continuation: what `char::is_alphanumeric` accepts.
    Word,
    /// The rest of a comment: anything but a line break.
    ToLineEnd,
    /// The body of a string literal: anything but a double quote.
    ToQuote,
}

/// Whether a run of kind `k` goes on over `c`.
pub open spec fn continues(k: RunKind, c: char) -> bool {
    match k {
        RunKind::Digits => is_digit(c),
        RunKind::Word => is_word_char(c),
        RunKind::ToLineEnd => c != '\n',
        RunKind::ToQuote => c != '"',
    }
}

/// The first index at or after `j` that is the end of `s` or holds a
/// character on which a run of kind `k` stops.
pub open spec fn run_end(s: Seq<char>, j: int, k: RunKind) -> int
    decreases s.len() - j,
{
    if 0 <= j < s.len() && continues(k, s[j]) {
        run_end(s, j + 1, k)
    } else {
        j
    }
}

pub proof fn lemma_run_end(s: Seq<char>, j: int, k: RunKind)
    requires
        0 <= j <= s.len(),
    ensures
        j <= run_end(s, j, k) <= s.len(),
        forall|m: int| j <= m < run_end(s, j, k) ==> continues(k, #[trigger] s[m]),
        run_end(s, j, k) < s.len() ==> !continues(k, s[run_end(s, j, k)]),
    decreases s.len() - j,
{
    if j < s.len() && continues(k, s[j]) {
        lemma_run_end(s, j + 1, k);
    }
}

/// A run that covers `[j, m)` and stops at `m` ends at `m`.
pub proof fn lemma_run_end_at(s: Seq<char>, j: int, m: int, k: RunKind)
    requires
        0 <= j <= m <= s.len(),
        forall|x: int| j <= x < m ==> continues(k, #[trigger] s[x]),
        m == s.len() || !continues(k, s[m]),
    ensures
        run_end(s, j, k) == m,
    decreases m - j,
{
    if j < m {
        lemma_run_end_at(s, j + 1, m, k);
    }
}

/// What the source holds at one position where a token may begin.
pub enum Step {
    /// Whitespace, a line break or a comment, ending before `end`.
    Blank { end: int },
    /// A token of kind `kind` whose lexeme ends before `end`.
    Emit { kind: TokenType, end: int },
    /// A string literal whose closing quote never comes.
    Unterminated,
    /// A character that begins no token.
    Unexpected,
}

/// The step taken at position `i` of `s`.
pub open spec fn lex_at(s: Seq<char>, i: int) -> Step {
    let c = s[i];
    if is_space(c) {
        Step::Blank { end: i + 1 }
    } else if single_kind(c) is Some {
        Step::Emit { kind: single_kind(c)->0, end: i + 1 }
    } else if operator_kinds(c) is Some {
        let (alone, with_equal) = operator_kinds(c)->0;
        if i + 1 < s.len() && s[i + 1] == '=' {
            Step::Emit { kind: with_equal, end: i + 2 }
        } else {
            Step::Emit { kind: alone, end: i + 1 }
        }
    } else if c == '/' {
        if i + 1 < s.len() && s[i + 1] == '/' {
            Step::Blank { end: run_end(s, i + 2, RunKind::ToLineEnd) }
        } else {
            Step::Emit { kind: TokenType::Slash, end: i + 1 }
        }
    } else if c == '"' {
        let k = run_end(s, i + 1, RunKind::ToQuote);
        if k < s.len() {
            Step::Emit { kind: TokenType::String, end: k + 1 }
        } else {
            Step::Unterminated
        }
    } else if is_digit(c) {
        let k = run_end(s, i + 1, RunKind::Digits);
        if k + 1 < s.len() && s[k] == '.' && is_digit(s[k + 1]) {
            Step::Emit { kind: TokenType::Number, end: run_end(s, k + 2, RunKind::Digits) }
        } else {
            Step::Emit { kind: TokenType::Number, end: k }
        }
    } else if is_ident_start(c) {
        let k = run_end(s, i + 1, RunKind::Word);
        Step::Emit { kind: keyword_kind(s.subrange(i, k)), end: k }
    } else {
        Step::Unexpected
    }
}

/// The position after a blank or an emitted token.
pub open spec fn step_end(st: Step) -> int {
    match st {
        Step::Blank { end } => end,
        Step::Emit { end, .. } => end,
        _ => 0,
    }
}

pub proof fn lemma_lex_at_end(s: Seq<char>, i: int)
    requires
        0 <= i < s.len(),
    ensures
        (lex_at(s, i) is Blank || lex_at(s, i) is Emit) ==> i < step_end(lex_at(s, i)) <= s.len(),
{
    let c = s[i];
    if c == '/' && i + 1 < s.len() && s[i + 1] == '/' {
        lemma_run_end(s, i + 2, RunKind::ToLineEnd);
    }
    if c == '"' {
        lemma_run_end(s, i + 1, RunKind::ToQuote);
    }
    if is_digit(c) {
        let k = run_end(s, i + 1, RunKind::Digits);
        lemma_run_end(s, i + 1, RunKind::Digits);
        if k + 1 < s.len() && s[k] == '.' && is_digit(s[k + 1]) {
            lemma_run_end(s, k + 2, RunKind::Digits);
        }
    }
    if is_ident_start(c) {
        lemma_run_end(s, i + 1, RunKind::Word);
    }
}

/// A token of the model: its kind and where its lexeme stands in the source.
pub struct SpecToken {
    pub kind: TokenType,
    pub start: int,
    pub end: int,
}

/// An error of the model: whether a string was left open (else a character
/// was unexpected), and the position whose line the error reports: the
/// unexpected character, or the end of the source that an open string ran
/// into.
pub struct SpecError {
    pub unterminated: bool,
    pub at: int,
}

/// The tokens that `s` yields from position `i` on, end marker excluded.
pub open spec fn scan_from(s: Seq<char>, i: int) -> Result<Seq<SpecToken>, SpecError>
    decreases s.len() - i,
    via scan_from_decreases
{
    if i < 0 || i >= s.len() {
        Ok(Seq::empty())
    } else {
        match lex_at(s, i) {
            Step::Blank { end } => scan_from(s, end),
            Step::Emit { kind, end } => match scan_from(s, end) {
                Ok(rest) => Ok(seq![SpecToken { kind, start: i, end }] + rest),
                Err(e) => Err(e),
            },
            Step::Unterminated => Err(SpecError { unterminated: true, at: s.len() as int }),
            Step::Unexpected => Err(SpecError { unterminated: false, at: i }),
        }
    }
}

#[via_fn]
proof fn scan_from_decreases(s: Seq<char>, i: int) {
    if 0 <= i < s.len() {
        lemma_lex_at_end(s, i);
    }
}

/// `done` followed by the tokens of `rest`, or the error of `rest`.
pub open spec fn prefixed(done: Seq<SpecToken>, rest: Result<Seq<SpecToken>, SpecError>) -> Result<Seq<SpecToken>, SpecError> {
    match rest {
        Ok(ts) => Ok(done + ts),
        Err(e) => Err(e),
    }
}


/// The whole result of scanning `s`: its tokens followed by the end marker.
pub open spec fn scan_result(s: Seq<char>) -> Result<Seq<SpecToken>, SpecError> {
    match scan_from(s, 0) {
        Ok(ts) => Ok(ts.push(SpecToken { kind: TokenType::Eof, start: s.len() as int, end: s.len() as int })),
        Err(e) => Err(e),
    }
}

/// The number of line breaks in `s`.
pub open spec fn newlines(s: Seq<char>) -> nat
    decreases s.len(),
{
    if s.len() == 0 {
        0
    } else {
        newlines(s.drop_last()) + if s.last() == '\n' { 1nat } else { 0nat }
    }
}

/// The line reported for something that begins at position `i` of `s`.
pub open spec fn line_at(s: Seq<char>, i: int) -> nat {
    LINE_BASE as nat + newlines(s.subrange(0, i))
}

pub proof fn lemma_line_at_next(s: Seq<char>, i: int)
    requires
        0 <= i < s.len(),
    ensures
        line_at(s, i + 1) == line_at(s, i) + if s[i] == '\n' { 1nat } else { 0nat },
{
    assert(s.subrange(0, i + 1).drop_last() =~= s.subrange(0, i));
}

/// Moving over text without line breaks keeps the line.
pub proof fn lemma_line_at_same(s: Seq<char>, i: int, j: int)
    requires
        0 <= i <= j <= s.len(),
        forall|k: int| i <= k < j ==> #[trigger] s[k] != '\n',
    ensures
        line_at(s, j) == line_at(s, i),
    decreases j - i,
{
    if i < j {
        lemma_line_at_same(s, i, j - 1);
        lemma_line_at_next(s, j - 1);
    }
}

pub proof fn lemma_line_at_bound(s: Seq<char>, i: int)
    requires
        0 <= i <= s.len(),
    ensures
        line_at(s, i) <= i,
    decreases i,
{
    if i > 0 {
        lemma_line_at_bound(s, i - 1);
        lemma_line_at_next(s, i - 1);
    }
}

} // verus!
