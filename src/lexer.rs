//! The scanner: turns source text into tokens, one lexeme at a time.
use vstd::prelude::*;
use vstd::std_specs::iter::IteratorSpec;
use crate::error::LoxError;
use crate::model::{
    alphanumeric, continues, is_digit, keyword_kind, lemma_line_at_bound, lemma_line_at_next,
    lemma_lex_at_end, lemma_line_at_same, lemma_run_end_at, lex_at, line_at, prefixed, run_end,
    scan_from,
    scan_result, RunKind, SpecError, SpecToken, Step, TokenType,
};

verus! {

/// The decoded value of a literal token.
#[derive(Debug, Clone)]
pub enum Literal {
    /// The text between the quotes of a string literal.
    String(String),
    /// The decimal numeral of a number literal: digits, then optionally a
    /// dot and more digits. Its value is the number the numeral denotes.
    Number(String),
}

/// A classified piece of source text.
#[derive(Debug, Clone)]
pub struct Token {
    pub token_type: TokenType,
    /// The exact source text of the token (empty for the end marker).
    pub lexeme: String,
    /// Present on string and number tokens only.
    pub literal: Option<Literal>,
    pub line: usize,
}

/// Whether `lit` is the literal owed to the model token `m` of source `s`.
pub open spec fn literal_matches(s: Seq<char>, lit: Option<Literal>, m: SpecToken) -> bool {
    if m.kind == TokenType::String {
        match lit {
            Some(Literal::String(v)) => v@ == s.subrange(m.start + 1, m.end - 1),
            _ => false,
        }
    } else if m.kind == TokenType::Number {
        match lit {
            Some(Literal::Number(v)) => v@ == s.subrange(m.start, m.end),
            _ => false,
        }
    } else {
        lit is None
    }
}

/// Whether the token `t` is the model token `m` of source `s`: same kind,
/// its lexeme the source between `m.start` and `m.end`, the line on which
/// that lexeme begins, and the literal that its kind calls for.
pub open spec fn token_matches(s: Seq<char>, t: Token, m: SpecToken) -> bool {
    &&& t.token_type == m.kind
    &&& t.lexeme@ == s.subrange(m.start, m.end)
    &&& t.line == line_at(s, m.start)
    &&& literal_matches(s, t.literal, m)
}

/// The message that goes with each error of the model.
pub open spec fn error_message(unterminated: bool) -> Seq<char> {
    if unterminated {
        "Unterminated string"@
    } else {
        "Unexpected character"@
    }
}

/// Whether `e` reports the model error `m` of source `s`.
pub open spec fn error_matches(s: Seq<char>, e: LoxError, m: SpecError) -> bool {
    &&& e.line == line_at(s, m.at)
    &&& e.message@ == error_message(m.unterminated)
}

/// Whether `r` is what scanning `s` yields.
pub open spec fn result_matches(s: Seq<char>, r: Result<Vec<Token>, LoxError>) -> bool {
    match (r, scan_result(s)) {
        (Ok(v), Ok(ms)) => v@.len() == ms.len() && forall|k: int|
            0 <= k < ms.len() ==> token_matches(s, #[trigger] v@[k], ms[k]),
        (Err(e), Err(m)) => error_matches(s, e, m),
        _ => false,
    }
}

/// Relies on `char::is_alphanumeric`: its answer depends on the character alone.
#[verifier::external_body]
fn is_alphanumeric(c: char) -> (r: bool)
    ensures
        r == alphanumeric(c),
        // Among ASCII characters, exactly the letters and digits are
        // alphabetic or numeric.
        (c as u32) < 128 ==> (r <==> (('a' <= c && c <= 'z') || ('A' <= c && c <= 'Z') || ('0' <= c
            && c <= '9'))),
{
    c.is_alphanumeric()
}

fn is_decimal_digit(c: char) -> (r: bool)
    ensures
        r == is_digit(c),
{
    '0' <= c && c <= '9'
}

/// Scans one source text. It holds the text, the tokens found so far, the
/// start of the lexeme being scanned, the position of the next character
/// and the current line.
pub struct Scanner {
    source: String,
    chars: Vec<char>,
    tokens: Vec<Token>,
    start: usize,
    current: usize,
    line: usize,
}

impl Scanner {
    /// The source text, as characters.
    pub closed spec fn source(&self) -> Seq<char> {
        self.chars@
    }

    /// The characters are those of the text, and the lexeme start and the
    /// next position lie in order within it.
    pub closed spec fn wf(&self) -> bool {
        &&& self.source@ == self.chars@
        &&& self.start <= self.current <= self.chars@.len()
    }

    /// A scanner that has not begun: the state that `scan_tokens` starts from.
    pub closed spec fn is_fresh(&self) -> bool {
        &&& self.wf()
        &&& self.current == 0
        &&& self.line == crate::model::LINE_BASE
        &&& self.tokens@.len() == 0
    }

    /// What one call of `scan_token` does to a scanner `a` whose lexeme
    /// begins at `a.start`, leaving it as `b` and returning `r`.
    spec fn stepped(a: &Scanner, b: &Scanner, r: Result<(), LoxError>) -> bool {
        let s = a.chars@;
        let i = a.start as int;
        &&& b.source == a.source
        &&& b.chars@ == s
        &&& b.start == a.start
        &&& b.wf()
        &&& match lex_at(s, i) {
            Step::Blank { end } => {
                &&& r is Ok
                &&& b.current == end
                &&& b.tokens@ == a.tokens@
                &&& b.line == line_at(s, end)
            },
            Step::Emit { kind, end } => {
                &&& r is Ok
                &&& b.current == end
                &&& b.tokens@ == a.tokens@.push(b.tokens@.last())
                &&& token_matches(s, b.tokens@.last(), SpecToken { kind, start: i, end })
                &&& b.line == line_at(s, end)
            },
            Step::Unterminated => {
                &&& r is Err
                &&& error_matches(s, r->Err_0, SpecError { unterminated: true, at: s.len() as int })
                &&& b.current == s.len()
                &&& b.tokens@ == a.tokens@
                &&& b.line == line_at(s, s.len() as int)
            },
            Step::Unexpected => {
                &&& r is Err
                &&& error_matches(s, r->Err_0, SpecError { unterminated: false, at: i })
                &&& b.current == i + 1
                &&& b.tokens@ == a.tokens@
                &&& b.line == line_at(s, i)
            },
        }
    }

    /// `b` is the scanner `a` but for the position of the next character.
    spec fn moved(a: &Scanner, b: &Scanner) -> bool {
        &&& b.source == a.source
        &&& b.chars@ == a.chars@
        &&& b.tokens@ == a.tokens@
        &&& b.start == a.start
        &&& b.line == a.line
    }

    /// A scanner at the beginning of `source`, on the first line.
    pub fn new(source: String) -> (r: Self)
        ensures
            r.is_fresh(),
            r.source() == source@,
    {
        let mut chars: Vec<char> = Vec::new();
        let mut it = source.as_str().chars();
        broadcast use vstd::string::axiom_spec_iter, vstd::string::next_postcondition;
        loop
            invariant
                chars@ + it.remaining() == source@,
                it.decrease() is Some,
            ensures
                chars@ == source@,
            decreases it.decrease()->0,
        {
            match it.next() {
                Some(c) => {
                    chars.push(c);
                },
                None => {
                    assert(chars@ =~= source@);
                    break ;
                },
            }
        }
        Self { source, chars, tokens: Vec::new(), start: 0, current: 0, line: crate::model::LINE_BASE }
    }

    fn is_at_end(&self) -> (r: bool)
        ensures
            r == (self.current >= self.chars@.len()),
            self.chars@.len() <= usize::MAX,
    {
        self.current >= self.chars.len()
    }

    fn advance(&mut self) -> (c: char)
        requires
            old(self).current < old(self).chars@.len() <= usize::MAX,
        ensures
            c == old(self).chars@[old(self).current as int],
            final(self).current == old(self).current + 1,
            Self::moved(old(self), final(self)),
    {
        let c = self.chars[self.current];
        self.current = self.current + 1;
        c
    }

    fn match_char(&mut self, expected: char) -> (r: bool)
        ensures
            r == (old(self).current < old(self).chars@.len() && old(self).chars@[old(
                self,
            ).current as int] == expected),
            final(self).current == old(self).current + if r { 1int } else { 0int },
            Self::moved(old(self), final(self)),
    {
        if self.current < self.chars.len() && self.chars[self.current] == expected {
            self.current = self.current + 1;
            true
        } else {
            false
        }
    }

    fn peek(&self) -> (c: char)
        ensures
            c == if self.current < self.chars@.len() {
                self.chars@[self.current as int]
            } else {
                '\0'
            },
    {
        if self.is_at_end() {
            '\0'
        } else {
            self.chars[self.current]
        }
    }

    fn peek_next(&self) -> (c: char)
        ensures
            c == if self.current + 1 < self.chars@.len() {
                self.chars@[self.current + 1]
            } else {
                '\0'
            },
    {
        if self.current >= self.chars.len() || self.current + 1 >= self.chars.len() {
            '\0'
        } else {
            self.chars[self.current + 1]
        }
    }

    /// The source text of the current lexeme.
    fn lexeme(&self) -> (r: String)
        requires
            self.wf(),
        ensures
            r@ == self.chars@.subrange(self.start as int, self.current as int),
    {
        self.source.as_str().substring_char(self.start, self.current).to_owned()
    }

    fn add_token_literal(&mut self, token_type: TokenType, literal: Option<Literal>) -> (r: Result<
        (),
        LoxError,
    >)
        requires
            old(self).wf(),
        ensures
            r is Ok,
            final(self).tokens@ == old(self).tokens@.push(final(self).tokens@.last()),
            final(self).tokens@.last().token_type == token_type,
            final(self).tokens@.last().lexeme@ == old(self).chars@.subrange(
                old(self).start as int,
                old(self).current as int,
            ),
            final(self).tokens@.last().line == old(self).line,
            final(self).tokens@.last().literal == literal,
            final(self).current == old(self).current,
            final(self).source == old(self).source,
            final(self).chars@ == old(self).chars@,
            final(self).start == old(self).start,
            final(self).line == old(self).line,
    {
        let lexeme = self.lexeme();
        self.tokens.push(Token { token_type, lexeme, literal, line: self.line });
        Ok(())
    }

    fn add_token(&mut self, token_type: TokenType) -> (r: Result<(), LoxError>)
        requires
            old(self).wf(),
        ensures
            r is Ok,
            final(self).tokens@ == old(self).tokens@.push(final(self).tokens@.last()),
            final(self).tokens@.last().token_type == token_type,
            final(self).tokens@.last().lexeme@ == old(self).chars@.subrange(
                old(self).start as int,
                old(self).current as int,
            ),
            final(self).tokens@.last().line == old(self).line,
            final(self).tokens@.last().literal is None,
            final(self).current == old(self).current,
            final(self).source == old(self).source,
            final(self).chars@ == old(self).chars@,
            final(self).start == old(self).start,
            final(self).line == old(self).line,
    {
        self.add_token_literal(token_type, None)
    }

    /// Whether the current lexeme is spelled `word`.
    fn lexeme_is(&self, word: &str) -> (r: bool)
        requires
            self.wf(),
        ensures
            r == (self.chars@.subrange(self.start as int, self.current as int) == word@),
    {
        let n = word.unicode_len();
        if self.current - self.start != n {
            return false;
        }
        let mut k: usize = 0;
        while k < n
            invariant
                self.wf(),
                k <= n,
                n == word@.len(),
                self.current - self.start == n,
                forall|j: int| 0 <= j < k ==> self.chars@[self.start + j] == word@[j],
            decreases n - k,
        {
            if self.chars[self.start + k] != word.get_char(k) {
                assert(self.chars@.subrange(self.start as int, self.current as int)[k as int]
                    != word@[k as int]);
                return false;
            }
            k = k + 1;
        }
        assert(self.chars@.subrange(self.start as int, self.current as int) =~= word@);
        true
    }

    /// The reserved word that the current lexeme spells, or `Identifier`.
    fn keyword_type(&self) -> (r: TokenType)
        requires
            self.wf(),
        ensures
            r == keyword_kind(self.chars@.subrange(self.start as int, self.current as int)),
    {
        if self.lexeme_is("and") {
            TokenType::And
        } else if self.lexeme_is("class") {
            TokenType::Class
        } else if self.lexeme_is("else") {
            TokenType::Else
        } else if self.lexeme_is("false") {
            TokenType::False
        } else if self.lexeme_is("for") {
            TokenType::For
        } else if self.lexeme_is("fun") {
            TokenType::Fun
        } else if self.lexeme_is("if") {
            TokenType::If
        } else if self.lexeme_is("nil") {
            TokenType::Nil
        } else if self.lexeme_is("or") {
            TokenType::Or
        } else if self.lexeme_is("print") {
            TokenType::Print
        } else if self.lexeme_is("return") {
            TokenType::Return
        } else if self.lexeme_is("super") {
            TokenType::Super
        } else if self.lexeme_is("this") {
            TokenType::This
        } else if self.lexeme_is("true") {
            TokenType::True
        } else if self.lexeme_is("var") {
            TokenType::Var
        } else if self.lexeme_is("while") {
            TokenType::While
        } else {
            TokenType::Identifier
        }
    }

    /// Scans an identifier or reserved word whose first character was consumed.
    fn identifier(&mut self) -> (r: Result<(), LoxError>)
        requires
            old(self).wf(),
            old(self).start < old(self).chars@.len() <= usize::MAX,
            old(self).current == old(self).start + 1,
            crate::model::is_ident_start(old(self).chars@[old(self).start as int]),
            old(self).line == line_at(old(self).chars@, old(self).start as int),
        ensures
            Self::stepped(old(self), final(self), r),
    {
        let ghost a = *self;
        let ghost s = self.chars@;
        let ghost i = self.start as int;
        loop
            invariant
                self.wf(),
                Self::moved(&a, self),
                self.chars@ == s,
                i + 1 <= self.current <= s.len() <= usize::MAX,
                s[i] != '\n',
                forall|k: int| i + 1 <= k < self.current ==> continues(RunKind::Word, #[trigger] s[k]),
                forall|k: int| i + 1 <= k < self.current ==> #[trigger] s[k] != '\n',
            ensures
                self.current == s.len() || !continues(RunKind::Word, s[self.current as int]),
            decreases s.len() - self.current,
        {
            if self.is_at_end() {
                break;
            }
            if !is_alphanumeric(self.peek()) {
                break;
            }
            self.advance();
        }
        proof {
            lemma_run_end_at(s, i + 1, self.current as int, RunKind::Word);
            lemma_line_at_same(s, i, self.current as int);
        }
        let kind = self.keyword_type();
        self.add_token(kind)
    }

    /// Scans a string literal whose opening quote was consumed. The token
    /// carries the line of that quote; the lines inside are counted after.
    /// An open string runs to the end of the source and is reported on the
    /// line reached there.
    fn string(&mut self) -> (r: Result<(), LoxError>)
        requires
            old(self).wf(),
            old(self).start < old(self).chars@.len() <= usize::MAX,
            old(self).current == old(self).start + 1,
            old(self).chars@[old(self).start as int] == '"',
            old(self).line == line_at(old(self).chars@, old(self).start as int),
        ensures
            Self::stepped(old(self), final(self), r),
    {
        let ghost a = *self;
        let ghost s = self.chars@;
        let ghost i = self.start as int;
        proof {
            lemma_line_at_next(s, i);
        }
        let mut lines: usize = 0;
        while self.peek() != '"' && !self.is_at_end()
            invariant
                self.wf(),
                Self::moved(&a, self),
                self.chars@ == s,
                i + 1 <= self.current <= s.len() <= usize::MAX,
                forall|k: int| i + 1 <= k < self.current ==> continues(RunKind::ToQuote, #[trigger] s[k]),
                line_at(s, self.current as int) == self.line + lines,
            decreases s.len() - self.current,
        {
            proof {
                lemma_line_at_next(s, self.current as int);
                lemma_line_at_bound(s, self.current + 1);
            }
            if self.peek() == '\n' {
                lines = lines + 1;
            }
            self.advance();
        }
        proof {
            lemma_run_end_at(s, i + 1, self.current as int, RunKind::ToQuote);
        }
        if self.is_at_end() {
            proof {
                lemma_line_at_bound(s, self.current as int);
            }
            self.line = self.line + lines;
            return Err(LoxError::new(self.line, "Unterminated string".to_owned()));
        }
        proof {
            lemma_line_at_next(s, self.current as int);
            lemma_line_at_bound(s, self.current + 1);
        }
        self.advance();
        let value = self.source.as_str().substring_char(self.start + 1, self.current - 1).to_owned();
        let r = self.add_token_literal(TokenType::String, Some(Literal::String(value)));
        self.line = self.line + lines;
        r
    }

    /// Scans a number literal whose first digit was consumed. A dot is taken
    /// only when a digit follows it.
    fn number(&mut self) -> (r: Result<(), LoxError>)
        requires
            old(self).wf(),
            old(self).start < old(self).chars@.len() <= usize::MAX,
            old(self).current == old(self).start + 1,
            is_digit(old(self).chars@[old(self).start as int]),
            old(self).line == line_at(old(self).chars@, old(self).start as int),
        ensures
            Self::stepped(old(self), final(self), r),
    {
        let ghost a = *self;
        let ghost s = self.chars@;
        let ghost i = self.start as int;
        while is_decimal_digit(self.peek())
            invariant
                self.wf(),
                Self::moved(&a, self),
                self.chars@ == s,
                i + 1 <= self.current <= s.len() <= usize::MAX,
                forall|k: int| i + 1 <= k < self.current ==> continues(RunKind::Digits, #[trigger] s[k]),
            decreases s.len() - self.current,
        {
            self.advance();
        }
        proof {
            lemma_run_end_at(s, i + 1, self.current as int, RunKind::Digits);
        }
        let ghost k = self.current as int;
        if self.peek() == '.' && is_decimal_digit(self.peek_next()) {
            self.advance();
            while is_decimal_digit(self.peek())
                invariant
                    self.wf(),
                    Self::moved(&a, self),
                    self.chars@ == s,
                    k + 1 <= self.current <= s.len() <= usize::MAX,
                    k + 1 < s.len(),
                    is_digit(s[k + 1]),
                    forall|x: int| k + 1 <= x < self.current ==> continues(RunKind::Digits, #[trigger] s[x]),
                decreases s.len() - self.current,
            {
                self.advance();
            }
            proof {
                lemma_run_end_at(s, k + 2, self.current as int, RunKind::Digits);
            }
        }
        proof {
            assert forall|x: int| i <= x < self.current implies #[trigger] s[x] != '\n' by {
                if x > i && x != k {
                    assert(continues(RunKind::Digits, s[x]));
                }
            }
            lemma_line_at_same(s, i, self.current as int);
        }
        let text = self.lexeme();
        self.add_token_literal(TokenType::Number, Some(Literal::Number(text)))
    }

    /// Scans one lexeme, beginning at `start`.
    #[verifier::rlimit(40)]
    fn scan_token(&mut self) -> (r: Result<(), LoxError>)
        requires
            old(self).wf(),
            old(self).start == old(self).current,
            old(self).current < old(self).chars@.len() <= usize::MAX,
            old(self).line == line_at(old(self).chars@, old(self).start as int),
        ensures
            Self::stepped(old(self), final(self), r),
    {
        let ghost a = *self;
        let ghost s = self.chars@;
        let ghost i = self.start as int;
        proof {
            lemma_line_at_next(s, i);
            lemma_line_at_bound(s, i + 1);
            if i + 1 < s.len() {
                lemma_line_at_next(s, i + 1);
            }
        }
        let c = self.advance();
        if c == '(' {
            self.add_token(TokenType::LeftParen)
        } else if c == ')' {
            self.add_token(TokenType::RightParen)
        } else if c == '{' {
            self.add_token(TokenType::LeftBrace)
        } else if c == '}' {
            self.add_token(TokenType::RightBrace)
        } else if c == ',' {
            self.add_token(TokenType::Comma)
        } else if c == '.' {
            self.add_token(TokenType::Dot)
        } else if c == '-' {
            self.add_token(TokenType::Minus)
        } else if c == '+' {
            self.add_token(TokenType::Plus)
        } else if c == ';' {
            self.add_token(TokenType::Semicolon)
        } else if c == '*' {
            self.add_token(TokenType::Star)
        } else if c == '!' {
            if self.match_char('=') {
                self.add_token(TokenType::BangEqual)
            } else {
                self.add_token(TokenType::Bang)
            }
        } else if c == '=' {
            if self.match_char('=') {
                self.add_token(TokenType::EqualEqual)
            } else {
                self.add_token(TokenType::Equal)
            }
        } else if c == '<' {
            if self.match_char('=') {
                self.add_token(TokenType::LessEqual)
            } else {
                self.add_token(TokenType::Less)
            }
        } else if c == '>' {
            if self.match_char('=') {
                self.add_token(TokenType::GreaterEqual)
            } else {
                self.add_token(TokenType::Greater)
            }
        } else if c == '/' {
            if self.match_char('/') {
                self.comment();
                Ok(())
            } else {
                self.add_token(TokenType::Slash)
            }
        } else if c == ' ' || c == '\r' || c == '\t' {
            Ok(())
        } else if c == '\n' {
            self.line = self.line + 1;
            Ok(())
        } else if c == '"' {
            self.string()
        } else if is_decimal_digit(c) {
            self.number()
        } else if ('a' <= c && c <= 'z') || ('A' <= c && c <= 'Z') || c == '_' {
            self.identifier()
        } else {
            Err(LoxError::new(self.line, "Unexpected character".to_owned()))
        }
    }

    /// Consumes the rest of a comment whose `//` was consumed, up to the
    /// line break or the end of the source.
    fn comment(&mut self)
        requires
            old(self).wf(),
            old(self).start + 2 == old(self).current <= old(self).chars@.len() <= usize::MAX,
            old(self).line == line_at(old(self).chars@, old(self).current as int),
        ensures
            final(self).current == run_end(old(self).chars@, old(self).current as int, RunKind::ToLineEnd),
            final(self).line == line_at(old(self).chars@, final(self).current as int),
            Self::moved(old(self), final(self)),
            final(self).wf(),
    {
        let ghost a = *self;
        let ghost s = self.chars@;
        let ghost j = self.current as int;
        while self.peek() != '\n' && !self.is_at_end()
            invariant
                self.wf(),
                Self::moved(&a, self),
                self.chars@ == s,
                j <= self.current <= s.len() <= usize::MAX,
                forall|k: int| j <= k < self.current ==> continues(RunKind::ToLineEnd, #[trigger] s[k]),
                self.line == line_at(s, self.current as int),
            decreases s.len() - self.current,
        {
            proof {
                lemma_line_at_next(s, self.current as int);
            }
            self.advance();
        }
        proof {
            lemma_run_end_at(s, j, self.current as int, RunKind::ToLineEnd);
        }
    }

    /// Scans the whole source: its tokens in order, followed by one `Eof`
    /// token with an empty lexeme, or the first error met.
    pub fn scan_tokens(&mut self) -> (r: Result<Vec<Token>, LoxError>)
        requires
            old(self).is_fresh(),
        ensures
            result_matches(old(self).source(), r),
    {
        let ghost s = self.chars@;
        let ghost mut done: Seq<SpecToken> = Seq::empty();
        proof {
            assert(s.subrange(0, 0) =~= Seq::<char>::empty());
            assert(done + scan_from(s, 0)->Ok_0 =~= scan_from(s, 0)->Ok_0);
        }
        while !self.is_at_end()
            invariant
                self.wf(),
                self.chars@ == s,
                old(self).chars@ == s,
                self.line == line_at(s, self.current as int),
                self.tokens@.len() == done.len(),
                forall|k: int| 0 <= k < done.len() ==> token_matches(s, #[trigger] self.tokens@[k], done[k]),
                scan_from(s, 0) == prefixed(done, scan_from(s, self.current as int)),
            decreases s.len() - self.current,
        {
            self.start = self.current;
            let ghost i = self.current as int;
            proof {
                lemma_lex_at_end(s, i);
            }
            match self.scan_token() {
                Ok(()) => {},
                Err(e) => {
                    proof {
                        if lex_at(s, i) is Unterminated {
                            assert(scan_from(s, i) == Err::<Seq<SpecToken>, SpecError>(
                                SpecError { unterminated: true, at: s.len() as int },
                            ));
                        } else {
                            assert(scan_from(s, i) == Err::<Seq<SpecToken>, SpecError>(
                                SpecError { unterminated: false, at: i },
                            ));
                        }

                    }
                    return Err(e);
                },
            }
            proof {
                if let Step::Emit { kind, end } = lex_at(s, i) {
                    let t = SpecToken { kind, start: i, end };
                    assert(done.push(t) + scan_from(s, end)->Ok_0 =~= done + (seq![t] + scan_from(s, end)->Ok_0));
                    done = done.push(t);
                }
            }
        }
        proof {
            assert(done + Seq::<SpecToken>::empty() =~= done);
            assert(s.subrange(s.len() as int, s.len() as int) =~= Seq::<char>::empty());
        }
        self.tokens.push(Token { token_type: TokenType::Eof, lexeme: String::new(), literal: None, line: self.line });
        let mut out: Vec<Token> = Vec::new();
        core::mem::swap(&mut out, &mut self.tokens);
        Ok(out)
    }
}

} // verus!
