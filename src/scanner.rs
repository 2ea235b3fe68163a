//! The scanner: source characters to tokens.
use vstd::prelude::*;

use crate::error::{diagnostic, ErrorReporter};
use crate::text::{chars_of, concat, push_char, string_of};
use crate::token::{Literal, Token, TokenType};

verus! {

/// The number of line breaks in `s`.
pub open spec fn newlines(s: Seq<char>) -> nat
    decreases s.len(),
{
    if s.len() == 0 {
        0
    } else {
        newlines(s.drop_last()) + if s.last() == '\n' {
            1nat
        } else {
            0nat
        }
    }
}

proof fn lemma_newlines_bound(s: Seq<char>)
    ensures
        newlines(s) <= s.len(),
    decreases s.len(),
{
    if s.len() > 0 {
        lemma_newlines_bound(s.drop_last());
    }
}

pub open spec fn is_digit(c: char) -> bool {
    '0' <= c <= '9'
}

pub open spec fn is_alpha(c: char) -> bool {
    ('a' <= c <= 'z') || ('A' <= c <= 'Z') || c == '_'
}

pub open spec fn is_alpha_numeric(c: char) -> bool {
    is_alpha(c) || is_digit(c)
}

/// The reserved words and their token kinds.
pub open spec fn keyword(s: Seq<char>) -> Option<TokenType> {
    if s == "and"@ {
        Some(TokenType::And)
    } else if s == "class"@ {
        Some(TokenType::Class)
    } else if s == "else"@ {
        Some(TokenType::Else)
    } else if s == "false"@ {
        Some(TokenType::False)
    } else if s == "fun"@ {
        Some(TokenType::Fun)
    } else if s == "for"@ {
        Some(TokenType::For)
    } else if s == "if"@ {
        Some(TokenType::If)
    } else if s == "nil"@ {
        Some(TokenType::Nil)
    } else if s == "or"@ {
        Some(TokenType::Or)
    } else if s == "print"@ {
        Some(TokenType::Print)
    } else if s == "return"@ {
        Some(TokenType::Return)
    } else if s == "super"@ {
        Some(TokenType::Super)
    } else if s == "this"@ {
        Some(TokenType::This)
    } else if s == "true"@ {
        Some(TokenType::True)
    } else if s == "var"@ {
        Some(TokenType::Var)
    } else if s == "while"@ {
        Some(TokenType::While)
    } else {
        None
    }
}

/// The kind of token a lexeme makes: operators and punctuation by their
/// characters, literals and words by their first character.
pub open spec fn lexeme_kind(s: Seq<char>) -> Option<TokenType> {
    if s.len() == 0 {
        None
    } else if s.len() == 1 && s[0] == '(' {
        Some(TokenType::LeftParen)
    } else if s.len() == 1 && s[0] == ')' {
        Some(TokenType::RightParen)
    } else if s.len() == 1 && s[0] == '{' {
        Some(TokenType::LeftBrace)
    } else if s.len() == 1 && s[0] == '}' {
        Some(TokenType::RightBrace)
    } else if s.len() == 1 && s[0] == ',' {
        Some(TokenType::Comma)
    } else if s.len() == 1 && s[0] == '.' {
        Some(TokenType::Dot)
    } else if s.len() == 1 && s[0] == '-' {
        Some(TokenType::Minus)
    } else if s.len() == 1 && s[0] == '+' {
        Some(TokenType::Plus)
    } else if s.len() == 1 && s[0] == ';' {
        Some(TokenType::Semicolon)
    } else if s.len() == 1 && s[0] == '*' {
        Some(TokenType::Star)
    } else if s.len() == 1 && s[0] == '/' {
        Some(TokenType::Slash)
    } else if s.len() == 1 && s[0] == '!' {
        Some(TokenType::Bang)
    } else if s.len() == 2 && s[0] == '!' && s[1] == '=' {
        Some(TokenType::BangEqual)
    } else if s.len() == 1 && s[0] == '=' {
        Some(TokenType::Equal)
    } else if s.len() == 2 && s[0] == '=' && s[1] == '=' {
        Some(TokenType::EqualEqual)
    } else if s.len() == 1 && s[0] == '<' {
        Some(TokenType::Less)
    } else if s.len() == 2 && s[0] == '<' && s[1] == '=' {
        Some(TokenType::LessEqual)
    } else if s.len() == 1 && s[0] == '>' {
        Some(TokenType::Greater)
    } else if s.len() == 2 && s[0] == '>' && s[1] == '=' {
        Some(TokenType::GreaterEqual)
    } else if is_digit(s[0]) {
        Some(TokenType::Number)
    } else if is_alpha(s[0]) {
        match keyword(s) {
            Some(k) => Some(k),
            None => Some(TokenType::Identifier),
        }
    } else if s.len() >= 2 && (s[0] == '"' || s[0] == '\'') && s.last() == s[0] {
        Some(TokenType::String)
    } else {
        None
    }
}

/// A token as the scanner makes it: its kind is what its lexeme spells, a
/// number carries its numeral, a string its text between the delimiters.
pub open spec fn scanned(t: Token) -> bool {
    &&& lexeme_kind(t.lexeme@) == Some(t.token_type)
    &&& t.line >= 1
    &&& t.token_type == TokenType::Number ==> (t.literal matches Some(Literal::Number(n)) && n@
        == t.lexeme@)
    &&& t.token_type == TokenType::String ==> (t.literal matches Some(Literal::String(v)) && v@
        == t.lexeme@.subrange(1, t.lexeme@.len() - 1))
    &&& t.token_type != TokenType::Number && t.token_type != TokenType::String ==> t.literal
        is None
}

/// The first position from `p` that holds `c`, or the end of `s`.
pub open spec fn find_char(s: Seq<char>, p: int, c: char) -> int
    decreases s.len() - p,
{
    if !(0 <= p < s.len()) || s[p] == c {
        if p < 0 { 0 } else if p > s.len() { s.len() as int } else { p }
    } else {
        find_char(s, p + 1, c)
    }
}

/// The first position from `p` that does not hold a digit, or the end.
pub open spec fn digits_end(s: Seq<char>, p: int) -> int
    decreases s.len() - p,
{
    if !(0 <= p < s.len()) || !is_digit(s[p]) {
        if p < 0 { 0 } else if p > s.len() { s.len() as int } else { p }
    } else {
        digits_end(s, p + 1)
    }
}

/// The first position from `p` that does not hold a letter, digit or `_`.
pub open spec fn word_end(s: Seq<char>, p: int) -> int
    decreases s.len() - p,
{
    if !(0 <= p < s.len()) || !is_alpha_numeric(s[p]) {
        if p < 0 { 0 } else if p > s.len() { s.len() as int } else { p }
    } else {
        word_end(s, p + 1)
    }
}

/// Where a number that starts before `p` ends: digits, then a point and
/// digits if a digit follows the point.
pub open spec fn number_end(s: Seq<char>, p: int) -> int {
    let e = digits_end(s, p);
    if e + 1 < s.len() && s[e] == '.' && is_digit(s[e + 1]) {
        digits_end(s, e + 1)
    } else {
        e
    }
}

/// What one scanning step from `pos` does: the token it emits, as its kind
/// and the end of its lexeme, where scanning goes on, and the lexical error
/// it reports.
pub struct ScanStep {
    pub emitted: Option<(TokenType, int)>,
    pub next: int,
    pub note: Option<Seq<char>>,
}

pub open spec fn emit(kind: TokenType, end: int) -> ScanStep {
    ScanStep { emitted: Some((kind, end)), next: end, note: None }
}

pub open spec fn skip(next: int) -> ScanStep {
    ScanStep { emitted: None, next, note: None }
}

/// The token kind of a character that makes a token by itself.
pub open spec fn single(c: char) -> Option<TokenType> {
    if c == '(' {
        Some(TokenType::LeftParen)
    } else if c == ')' {
        Some(TokenType::RightParen)
    } else if c == '{' {
        Some(TokenType::LeftBrace)
    } else if c == '}' {
        Some(TokenType::RightBrace)
    } else if c == ',' {
        Some(TokenType::Comma)
    } else if c == '.' {
        Some(TokenType::Dot)
    } else if c == '-' {
        Some(TokenType::Minus)
    } else if c == '+' {
        Some(TokenType::Plus)
    } else if c == ';' {
        Some(TokenType::Semicolon)
    } else if c == '*' {
        Some(TokenType::Star)
    } else {
        None
    }
}

/// The kinds of `!`, `=`, `<`, `>`: alone, and followed by `=`.
pub open spec fn paired(c: char) -> Option<(TokenType, TokenType)> {
    if c == '!' {
        Some((TokenType::Bang, TokenType::BangEqual))
    } else if c == '=' {
        Some((TokenType::Equal, TokenType::EqualEqual))
    } else if c == '<' {
        Some((TokenType::Less, TokenType::LessEqual))
    } else if c == '>' {
        Some((TokenType::Greater, TokenType::GreaterEqual))
    } else {
        None
    }
}

/// One scanning step at `pos`, a position inside `s`.
pub open spec fn step(s: Seq<char>, pos: int) -> ScanStep {
    let c = s[pos];
    if single(c) is Some {
        emit(single(c)->0, pos + 1)
    } else if paired(c) is Some {
        let (alone, with_equal) = paired(c)->0;
        if pos + 1 < s.len() && s[pos + 1] == '=' {
            emit(with_equal, pos + 2)
        } else {
            emit(alone, pos + 1)
        }
    } else if c == ' ' || c == '\r' || c == '\t' || c == '\n' {
        skip(pos + 1)
    } else if c == '/' {
        if pos + 1 < s.len() && s[pos + 1] == '/' {
            skip(find_char(s, pos + 2, '\n'))
        } else {
            emit(TokenType::Slash, pos + 1)
        }
    } else if c == '"' || c == '\'' {
        let e = find_char(s, pos + 1, c);
        if e < s.len() {
            emit(TokenType::String, e + 1)
        } else {
            ScanStep { emitted: None, next: s.len() as int, note: Some("Unterminated string."@) }
        }
    } else if is_digit(c) {
        emit(TokenType::Number, number_end(s, pos + 1))
    } else if is_alpha(c) {
        let e = word_end(s, pos + 1);
        emit(
            match keyword(s.subrange(pos, e)) {
                Some(k) => k,
                None => TokenType::Identifier,
            },
            e,
        )
    } else {
        ScanStep {
            emitted: None,
            next: pos + 1,
            note: Some("Unexpected character: '"@ + seq![c] + "'"@),
        }
    }
}

/// A token as kind, lexeme and line.
pub open spec fn token_view(t: Token) -> (TokenType, Seq<char>, nat) {
    (t.token_type, t.lexeme@, t.line as nat)
}

pub open spec fn views(ts: Seq<Token>) -> Seq<(TokenType, Seq<char>, nat)> {
    ts.map_values(|t: Token| token_view(t))
}

/// The line a position of `s` is on.
pub open spec fn line_at(s: Seq<char>, p: int) -> nat {
    1 + newlines(s.subrange(0, p))
}

/// The token a step from `pos` emits, if any, as kind, lexeme and line.
pub open spec fn step_tokens(s: Seq<char>, pos: int) -> Seq<(TokenType, Seq<char>, nat)> {
    match step(s, pos).emitted {
        Some((k, end)) => seq![(k, s.subrange(pos, end), line_at(s, end))],
        None => Seq::empty(),
    }
}

/// The diagnostic a step from `pos` reports, if any.
pub open spec fn step_notes(s: Seq<char>, pos: int) -> Seq<Seq<char>> {
    let st = step(s, pos);
    match st.note {
        Some(m) => seq![diagnostic(line_at(s, st.next), Seq::empty(), m)],
        None => Seq::empty(),
    }
}

/// What scanning `s` from `pos` to its end gives: the tokens before `Eof`, and
/// the lexical errors reported.
pub struct Lexed {
    pub tokens: Seq<(TokenType, Seq<char>, nat)>,
    pub notes: Seq<Seq<char>>,
}

pub open spec fn lexed(s: Seq<char>, pos: int) -> Lexed
    decreases s.len() - pos,
{
    if !(0 <= pos < s.len()) || !(pos < step(s, pos).next <= s.len()) {
        Lexed { tokens: Seq::empty(), notes: Seq::empty() }
    } else {
        let rest = lexed(s, step(s, pos).next);
        Lexed {
            tokens: step_tokens(s, pos) + rest.tokens,
            notes: step_notes(s, pos) + rest.notes,
        }
    }
}

/// Whether `chars[from..to]` spells `word`.
fn spells(chars: &Vec<char>, from: usize, to: usize, word: &str) -> (r: bool)
    requires
        from <= to <= chars@.len(),
    ensures
        r == (chars@.subrange(from as int, to as int) == word@),
{
    let n = word.unicode_len();
    if to - from != n {
        return false;
    }
    let mut i: usize = 0;
    while i < n
        invariant
            from <= to <= chars@.len(),
            to - from == n == word@.len(),
            i <= n,
            forall|j: int| 0 <= j < i ==> chars@[from + j] == word@[j],
        decreases n - i,
    {
        if chars[from + i] != word.get_char(i) {
            assert(chars@.subrange(from as int, to as int)[i as int] != word@[i as int]);
            return false;
        }
        i = i + 1;
    }
    assert(chars@.subrange(from as int, to as int) =~= word@);
    true
}

/// The keyword spelled by `chars[from..to]`, if any.
pub fn keyword_type(chars: &Vec<char>, from: usize, to: usize) -> (r: Option<TokenType>)
    requires
        from <= to <= chars@.len(),
    ensures
        r == keyword(chars@.subrange(from as int, to as int)),
{
    if spells(chars, from, to, "and") {
        Some(TokenType::And)
    } else if spells(chars, from, to, "class") {
        Some(TokenType::Class)
    } else if spells(chars, from, to, "else") {
        Some(TokenType::Else)
    } else if spells(chars, from, to, "false") {
        Some(TokenType::False)
    } else if spells(chars, from, to, "fun") {
        Some(TokenType::Fun)
    } else if spells(chars, from, to, "for") {
        Some(TokenType::For)
    } else if spells(chars, from, to, "if") {
        Some(TokenType::If)
    } else if spells(chars, from, to, "nil") {
        Some(TokenType::Nil)
    } else if spells(chars, from, to, "or") {
        Some(TokenType::Or)
    } else if spells(chars, from, to, "print") {
        Some(TokenType::Print)
    } else if spells(chars, from, to, "return") {
        Some(TokenType::Return)
    } else if spells(chars, from, to, "super") {
        Some(TokenType::Super)
    } else if spells(chars, from, to, "this") {
        Some(TokenType::This)
    } else if spells(chars, from, to, "true") {
        Some(TokenType::True)
    } else if spells(chars, from, to, "var") {
        Some(TokenType::Var)
    } else if spells(chars, from, to, "while") {
        Some(TokenType::While)
    } else {
        None
    }
}

/// Reads source text into tokens, reporting lexical errors as it goes.
pub struct Scanner {
    source: Vec<char>,
    tokens: Vec<Token>,
    reporter: ErrorReporter,
    start: usize,
    current: usize,
    line: usize,
}

impl Scanner {
    /// The characters being scanned.
    pub closed spec fn source(&self) -> Seq<char> {
        self.source@
    }

    /// How far scanning has got.
    pub closed spec fn position(&self) -> nat {
        self.current as nat
    }

    pub closed spec fn reporter(&self) -> ErrorReporter {
        self.reporter
    }

    /// The tokens scanned and not yet handed out.
    pub closed spec fn pending(&self) -> Seq<Token> {
        self.tokens@
    }

    pub closed spec fn wf(&self) -> bool {
        &&& self.start <= self.current <= self.source@.len() < usize::MAX
        &&& self.line == 1 + newlines(self.source@.subrange(0, self.current as int))
        &&& forall|i: int| 0 <= i < self.tokens@.len() ==> scanned(#[trigger] self.tokens@[i])
    }

    pub fn new(source: &str) -> (r: Scanner)
        requires
            source@.len() < usize::MAX,
        ensures
            r.wf(),
            r.source() == source@,
            r.position() == 0,
            r.pending() == Seq::<Token>::empty(),
            !r.reporter().had_error,
            !r.reporter().had_runtime_error,
    {
        let chars = chars_of(source);
        let r = Scanner {
            source: chars,
            tokens: Vec::new(),
            reporter: ErrorReporter::new(),
            start: 0,
            current: 0,
            line: 1,
        };
        assert(r.source@.subrange(0, 0) =~= Seq::<char>::empty());
        r
    }

    /// Makes `reporter` the sink of this scanner's diagnostics.
    pub fn set_error_reporter(&mut self, reporter: ErrorReporter)
        requires
            old(self).wf(),
        ensures
            final(self).wf(),
            final(self).source() == old(self).source(),
            final(self).position() == old(self).position(),
            final(self).reporter() == reporter,
            final(self).pending() == old(self).pending(),
    {
        self.reporter = reporter;
    }

    /// Hands back the reporter with what scanning reported.
    pub fn take_error_reporter(self) -> (r: ErrorReporter)
        ensures
            r == self.reporter(),
    {
        self.reporter
    }

    /// Scans the rest of the source. The result ends in the one `Eof` token,
    /// which stands at the last line of the source.
    pub fn scan_tokens(&mut self) -> (r: Vec<Token>)
        requires
            old(self).wf(),
        ensures
            final(self).wf(),
            final(self).source() == old(self).source(),
            final(self).position() == old(self).source().len(),
            r@.len() >= 1,
            r@.last().token_type == TokenType::Eof,
            r@.last().line == 1 + newlines(old(self).source()),
            r@.last().lexeme@ == Seq::<char>::empty(),
            views(r@) == views(old(self).pending()) + lexed(old(self).source(), old(self).position() as int).tokens
                + seq![(TokenType::Eof, Seq::<char>::empty(), line_at(old(self).source(), old(self).source().len() as int))],
            final(self).reporter().log() == old(self).reporter().log() + lexed(
                old(self).source(),
                old(self).position() as int,
            ).notes,
            final(self).reporter().had_error == (old(self).reporter().had_error || lexed(
                old(self).source(),
                old(self).position() as int,
            ).notes.len() > 0),
            forall|i: int| 0 <= i < r@.len() - 1 ==> scanned(#[trigger] r@[i]),
            forall|i: int| 0 <= i < r@.len() - 1 ==> #[trigger] r@[i].token_type != TokenType::Eof,
            forall|i: int| 0 <= i < r@.len() ==> #[trigger] r@[i].line >= 1,
            final(self).reporter().had_runtime_error == old(self).reporter().had_runtime_error,
            old(self).reporter().had_error ==> final(self).reporter().had_error,
    {
        let ghost src = self.source@;
        let ghost begin = self.current as int;
        let ghost mut emitted: Seq<(TokenType, Seq<char>, nat)> = Seq::empty();
        let ghost mut noted: Seq<Seq<char>> = Seq::empty();
        proof {
            assert(views(self.tokens@) =~= views(old(self).tokens@) + emitted);
            assert(self.reporter.log() =~= old(self).reporter.log() + noted);
        }
        while !self.is_at_end()
            invariant
                self.wf(),
                self.source@ == src,
                src == old(self).source@,
                begin == old(self).current,
                self.current >= begin,
                self.reporter.had_runtime_error == old(self).reporter.had_runtime_error,
                old(self).reporter.had_error ==> self.reporter.had_error,
                views(self.tokens@) == views(old(self).tokens@) + emitted,
                self.reporter.log() == old(self).reporter.log() + noted,
                lexed(src, begin).tokens == emitted + lexed(src, self.current as int).tokens,
                lexed(src, begin).notes == noted + lexed(src, self.current as int).notes,
                self.reporter.had_error == (old(self).reporter.had_error || noted.len() > 0),
            decreases self.source@.len() - self.current,
        {
            let ghost pos = self.current as int;
            // A new lexeme begins here.
            self.start = self.current;
            self.scan_token();
            proof {
                let rest = lexed(src, self.current as int);
                assert(lexed(src, pos).tokens == step_tokens(src, pos) + rest.tokens);
                assert(emitted + (step_tokens(src, pos) + rest.tokens) =~= (emitted + step_tokens(src, pos)) + rest.tokens);
                assert(noted + (step_notes(src, pos) + rest.notes) =~= (noted + step_notes(src, pos)) + rest.notes);
                assert(views(old(self).tokens@) + emitted + step_tokens(src, pos) =~= views(old(self).tokens@) + (emitted + step_tokens(src, pos)));
                assert(old(self).reporter.log() + noted + step_notes(src, pos) =~= old(self).reporter.log() + (noted + step_notes(src, pos)));
                emitted = emitted + step_tokens(src, pos);
                noted = noted + step_notes(src, pos);
            }
        }
        proof {
            assert(emitted =~= emitted + lexed(src, self.current as int).tokens);
            assert(noted =~= noted + lexed(src, self.current as int).notes);
        }
        assert(self.source@.subrange(0, self.current as int) =~= self.source@);
        let ghost scanned_tokens = self.tokens@;
        let mut r = Vec::new();
        std::mem::swap(&mut r, &mut self.tokens);
        r.push(Token::new(TokenType::Eof, "", None, self.line));
        proof {
            reveal_strlit("");
            assert(views(r@) =~= views(scanned_tokens).push(token_view(r@.last())));
            assert(token_view(r@.last()) == (TokenType::Eof, Seq::<char>::empty(), line_at(src, src.len() as int)));
            assert(views(scanned_tokens) == views(old(self).tokens@) + lexed(src, begin).tokens);
            assert(views(r@) =~= views(old(self).tokens@) + lexed(src, begin).tokens + seq![
                (TokenType::Eof, Seq::<char>::empty(), line_at(src, src.len() as int)),
            ]);
            assert forall|i: int| 0 <= i < r@.len() implies #[trigger] r@[i].line >= 1 by {
                if i < r@.len() - 1 {
                    assert(r@[i] == scanned_tokens[i]);
                    assert(scanned(scanned_tokens[i]));
                }
            }
            assert forall|i: int| 0 <= i < r@.len() - 1 implies #[trigger] r@[i].token_type
                != TokenType::Eof by {
                assert(r@[i] == scanned_tokens[i]);
                assert(scanned(scanned_tokens[i]));
            }
        }
        r
    }

    fn scan_token(&mut self)
        requires
            old(self).wf(),
            old(self).start == old(self).current < old(self).source@.len(),
        ensures
            final(self).wf(),
            final(self).source@ == old(self).source@,
            final(self).current > old(self).current,
            final(self).current == step(old(self).source@, old(self).current as int).next,
            views(final(self).tokens@) == views(old(self).tokens@) + step_tokens(
                old(self).source@,
                old(self).current as int,
            ),
            final(self).reporter.log() == old(self).reporter.log() + step_notes(
                old(self).source@,
                old(self).current as int,
            ),
            final(self).reporter.had_error == (old(self).reporter.had_error || step_notes(
                old(self).source@,
                old(self).current as int,
            ).len() > 0),
            final(self).reporter.had_runtime_error == old(self).reporter.had_runtime_error,
            old(self).reporter.had_error ==> final(self).reporter.had_error,
    {
        let c = self.advance();
        if c == '(' {
            self.add_token(TokenType::LeftParen);
        } else if c == ')' {
            self.add_token(TokenType::RightParen);
        } else if c == '{' {
            self.add_token(TokenType::LeftBrace);
        } else if c == '}' {
            self.add_token(TokenType::RightBrace);
        } else if c == ',' {
            self.add_token(TokenType::Comma);
        } else if c == '.' {
            self.add_token(TokenType::Dot);
        } else if c == '-' {
            self.add_token(TokenType::Minus);
        } else if c == '+' {
            self.add_token(TokenType::Plus);
        } else if c == ';' {
            self.add_token(TokenType::Semicolon);
        } else if c == '*' {
            self.add_token(TokenType::Star);
        } else if c == '!' {
            let t = if self.match_char('=') {
                TokenType::BangEqual
            } else {
                TokenType::Bang
            };
            self.add_token(t);
        } else if c == '=' {
            let t = if self.match_char('=') {
                TokenType::EqualEqual
            } else {
                TokenType::Equal
            };
            self.add_token(t);
        } else if c == '<' {
            let t = if self.match_char('=') {
                TokenType::LessEqual
            } else {
                TokenType::Less
            };
            self.add_token(t);
        } else if c == '>' {
            let t = if self.match_char('=') {
                TokenType::GreaterEqual
            } else {
                TokenType::Greater
            };
            self.add_token(t);
        } else if c == ' ' || c == '\r' || c == '\t' || c == '\n' {
            // Whitespace; `advance` has counted the line break.
        } else if c == '/' {
            if self.match_char('/') {
                self.ignore_until_newline();
            } else {
                self.add_token(TokenType::Slash);
            }
        } else if c == '"' || c == '\'' {
            self.scan_string(c);
        } else if '0' <= c && c <= '9' {
            self.scan_number();
        } else if ('a' <= c && c <= 'z') || ('A' <= c && c <= 'Z') || c == '_' {
            self.scan_identifier();
        } else {
            let mut message = String::from_str("Unexpected character: '");
            push_char(&mut message, c);
            push_char(&mut message, '\'');
            proof {
                reveal_strlit("");
                reveal_strlit("'");
                assert(message@ =~= "Unexpected character: '"@ + seq![c] + "'"@);
            }
            self.reporter.report(self.line, "", message.as_str());
        }
        proof {
            let src = self.source@;
            let st = step(src, old(self).current as int);
            if st.emitted is None {
                assert(views(self.tokens@) =~= views(old(self).tokens@) + step_tokens(src, old(self).current as int));
            } else {
                assert(views(self.tokens@) =~= views(old(self).tokens@) + step_tokens(src, old(self).current as int));
            }
            if st.note is None {
                assert(self.reporter.log() =~= old(self).reporter.log() + step_notes(src, old(self).current as int));
            } else {
                assert(self.reporter.log() =~= old(self).reporter.log() + step_notes(src, old(self).current as int));
            }
        }
    }

    /// Scans a string literal whose opening `delimiter` has been consumed.
    fn scan_string(&mut self, delimiter: char)
        requires
            old(self).wf(),
            old(self).start + 1 == old(self).current,
            old(self).source@[old(self).start as int] == delimiter,
            delimiter == '"' || delimiter == '\'',
        ensures
            final(self).wf(),
            ({
                let src = old(self).source@;
                let e = find_char(src, old(self).current as int, delimiter);
                if e < src.len() {
                    &&& final(self).current == e + 1
                    &&& views(final(self).tokens@) == views(old(self).tokens@).push(
                        (TokenType::String, src.subrange(old(self).start as int, e + 1), line_at(src, e + 1)),
                    )
                    &&& final(self).reporter == old(self).reporter
                } else {
                    &&& final(self).current == src.len()
                    &&& final(self).tokens == old(self).tokens
                    &&& final(self).reporter.log() == old(self).reporter.log().push(
                        diagnostic(line_at(src, src.len() as int), Seq::empty(), "Unterminated string."@),
                    )
                    &&& final(self).reporter.had_error
                }
            }),
            final(self).source@ == old(self).source@,
            final(self).current >= old(self).current,
            final(self).reporter.had_runtime_error == old(self).reporter.had_runtime_error,
            old(self).reporter.had_error ==> final(self).reporter.had_error,
    {
        while self.peek() != delimiter && !self.is_at_end()
            invariant
                self.wf(),
                self.source@ == old(self).source@,
                self.start == old(self).start,
                self.current >= old(self).current,
                self.tokens == old(self).tokens,
                self.reporter == old(self).reporter,
                find_char(self.source@, old(self).current as int, delimiter) == find_char(
                    self.source@,
                    self.current as int,
                    delimiter,
                ),
            decreases self.source@.len() - self.current,
        {
            self.advance();
        }
        if self.is_at_end() {
            proof {
                reveal_strlit("");
                assert(self.source@.subrange(0, self.current as int) =~= self.source@.subrange(0, self.source@.len() as int));
            }
            self.reporter.report(self.line, "", "Unterminated string.");
            return;
        }
        // The closing delimiter.
        let closing = self.advance();
        let value = string_of(&self.source, self.start + 1, self.current - 1);
        proof {
            let l = self.source@.subrange(self.start as int, self.current as int);
            assert(l[0] == delimiter);
            assert(l.last() == closing);
        }
        self.add_token_literal(TokenType::String, Some(Literal::String(value)));
    }

    fn scan_number(&mut self)
        requires
            old(self).wf(),
            old(self).start < old(self).current,
            is_digit(old(self).source@[old(self).start as int]),
        ensures
            final(self).wf(),
            final(self).current == number_end(old(self).source@, old(self).current as int),
            views(final(self).tokens@) == views(old(self).tokens@).push(
                (
                    TokenType::Number,
                    old(self).source@.subrange(old(self).start as int, final(self).current as int),
                    line_at(old(self).source@, final(self).current as int),
                ),
            ),
            final(self).source@ == old(self).source@,
            final(self).current >= old(self).current,
            final(self).reporter == old(self).reporter,
    {
        while '0' <= self.peek() && self.peek() <= '9'
            invariant
                self.wf(),
                self.source@ == old(self).source@,
                self.start == old(self).start,
                self.current >= old(self).current,
                self.tokens == old(self).tokens,
                self.reporter == old(self).reporter,
                digits_end(self.source@, old(self).current as int) == digits_end(
                    self.source@,
                    self.current as int,
                ),
            decreases self.source@.len() - self.current,
        {
            self.advance();
        }
        let ghost integral = self.current as int;
        // A fractional part needs a digit after the point.
        let next = self.peek_next();
        if self.peek() == '.' && '0' <= next && next <= '9' {
            self.advance();
            while '0' <= self.peek() && self.peek() <= '9'
                invariant
                    self.wf(),
                    self.source@ == old(self).source@,
                    self.start == old(self).start,
                    self.current >= old(self).current,
                    self.tokens == old(self).tokens,
                    self.reporter == old(self).reporter,
                    digits_end(self.source@, integral + 1) == digits_end(
                        self.source@,
                        self.current as int,
                    ),
                decreases self.source@.len() - self.current,
            {
                self.advance();
            }
        }
        let numeral = string_of(&self.source, self.start, self.current);
        assert(self.source@.subrange(self.start as int, self.current as int)[0] == self.source@[self.start as int]);
        self.add_token_literal(TokenType::Number, Some(Literal::Number(numeral)));
    }

    fn scan_identifier(&mut self)
        requires
            old(self).wf(),
            old(self).start < old(self).current,
            is_alpha(old(self).source@[old(self).start as int]),
        ensures
            final(self).wf(),
            final(self).current == word_end(old(self).source@, old(self).current as int),
            views(final(self).tokens@) == views(old(self).tokens@).push(
                (
                    match keyword(old(self).source@.subrange(old(self).start as int, final(self).current as int)) {
                        Some(k) => k,
                        None => TokenType::Identifier,
                    },
                    old(self).source@.subrange(old(self).start as int, final(self).current as int),
                    line_at(old(self).source@, final(self).current as int),
                ),
            ),
            final(self).source@ == old(self).source@,
            final(self).current >= old(self).current,
            final(self).reporter == old(self).reporter,
    {
        while self.is_identifier_char(self.peek())
            invariant
                self.wf(),
                self.source@ == old(self).source@,
                self.start == old(self).start,
                self.current >= old(self).current,
                self.tokens == old(self).tokens,
                self.reporter == old(self).reporter,
                word_end(self.source@, old(self).current as int) == word_end(
                    self.source@,
                    self.current as int,
                ),
            decreases self.source@.len() - self.current,
        {
            self.advance();
        }
        assert(self.source@.subrange(self.start as int, self.current as int)[0] == self.source@[self.start as int]);
        let t = match keyword_type(&self.source, self.start, self.current) {
            Some(k) => k,
            None => TokenType::Identifier,
        };
        self.add_token(t);
    }

    fn is_identifier_char(&self, c: char) -> (r: bool)
        ensures
            r == is_alpha_numeric(c),
    {
        ('a' <= c && c <= 'z') || ('A' <= c && c <= 'Z') || c == '_' || ('0' <= c && c <= '9')
    }

    /// Consumes one character, counting it if it breaks the line.
    fn advance(&mut self) -> (c: char)
        requires
            old(self).wf(),
            old(self).current < old(self).source@.len(),
        ensures
            final(self).wf(),
            c == old(self).source@[old(self).current as int],
            final(self).current == old(self).current + 1,
            final(self).start == old(self).start,
            final(self).source@ == old(self).source@,
            final(self).tokens == old(self).tokens,
            final(self).reporter == old(self).reporter,
    {
        let c = self.source[self.current];
        proof {
            let s = self.source@;
            assert(s.subrange(0, self.current + 1).drop_last() =~= s.subrange(
                0,
                self.current as int,
            ));
            lemma_newlines_bound(s.subrange(0, self.current + 1));
        }
        self.current = self.current + 1;
        if c == '\n' {
            self.line = self.line + 1;
        }
        c
    }

    fn match_char(&mut self, expected: char) -> (r: bool)
        requires
            old(self).wf(),
        ensures
            final(self).wf(),
            final(self).current == old(self).current + if r {
                1int
            } else {
                0int
            },
            r ==> old(self).source@[old(self).current as int] == expected,
            !r ==> !(old(self).current < old(self).source@.len() && old(self).source@[old(
                self,
            ).current as int] == expected),
            final(self).start == old(self).start,
            final(self).source@ == old(self).source@,
            final(self).tokens == old(self).tokens,
            final(self).reporter == old(self).reporter,
    {
        if self.is_at_end() {
            return false;
        }
        if self.source[self.current] != expected {
            return false;
        }
        self.advance();
        true
    }

    /// Skips a comment up to, not including, the line break.
    fn ignore_until_newline(&mut self)
        requires
            old(self).wf(),
        ensures
            final(self).wf(),
            final(self).current == find_char(old(self).source@, old(self).current as int, '\n'),
            final(self).current >= old(self).current,
            final(self).start == old(self).start,
            final(self).source@ == old(self).source@,
            final(self).tokens == old(self).tokens,
            final(self).reporter == old(self).reporter,
    {
        while self.peek() != '\n' && !self.is_at_end()
            invariant
                self.wf(),
                self.source@ == old(self).source@,
                self.start == old(self).start,
                self.current >= old(self).current,
                self.tokens == old(self).tokens,
                self.reporter == old(self).reporter,
                find_char(self.source@, old(self).current as int, '\n') == find_char(
                    self.source@,
                    self.current as int,
                    '\n',
                ),
            decreases self.source@.len() - self.current,
        {
            self.advance();
        }
    }

    fn peek(&self) -> (c: char)
        requires
            self.wf(),
        ensures
            self.current < self.source@.len() ==> c == self.source@[self.current as int],
            self.current >= self.source@.len() ==> c == '\0',
    {
        if self.is_at_end() {
            return '\0';
        }
        self.source[self.current]
    }

    fn peek_next(&self) -> (c: char)
        requires
            self.wf(),
        ensures
            self.current + 1 < self.source@.len() ==> c == self.source@[self.current + 1],
            self.current + 1 >= self.source@.len() ==> c == '\0',
    {
        if self.current + 1 >= self.source.len() {
            return '\0';
        }
        self.source[self.current + 1]
    }

    fn is_at_end(&self) -> (r: bool)
        requires
            self.wf(),
        ensures
            r == (self.current >= self.source@.len()),
    {
        self.current >= self.source.len()
    }

    fn add_token(&mut self, token_type: TokenType)
        requires
            old(self).wf(),
            lexeme_kind(old(self).source@.subrange(old(self).start as int, old(self).current as int))
                == Some(token_type),
            token_type != TokenType::Number && token_type != TokenType::String,
        ensures
            final(self).wf(),
            final(self).current == old(self).current,
            final(self).start == old(self).start,
            final(self).source@ == old(self).source@,
            final(self).reporter == old(self).reporter,
            views(final(self).tokens@) == views(old(self).tokens@).push(
                (
                    token_type,
                    old(self).source@.subrange(old(self).start as int, old(self).current as int),
                    line_at(old(self).source@, old(self).current as int),
                ),
            ),
    {
        self.add_token_literal(token_type, None);
    }

    /// Emits a token whose lexeme is the text from `start` to `current`.
    fn add_token_literal(&mut self, token_type: TokenType, literal: Option<Literal>)
        requires
            old(self).wf(),
            lexeme_kind(old(self).source@.subrange(old(self).start as int, old(self).current as int))
                == Some(token_type),
            token_type == TokenType::Number ==> (literal matches Some(Literal::Number(n)) && n@
                == old(self).source@.subrange(old(self).start as int, old(self).current as int)),
            token_type == TokenType::String ==> (literal matches Some(Literal::String(v)) && v@
                == old(self).source@.subrange(old(self).start + 1, old(self).current - 1)),
            token_type != TokenType::Number && token_type != TokenType::String ==> literal is None,
        ensures
            final(self).wf(),
            final(self).current == old(self).current,
            final(self).start == old(self).start,
            final(self).source@ == old(self).source@,
            final(self).reporter == old(self).reporter,
            views(final(self).tokens@) == views(old(self).tokens@).push(
                (
                    token_type,
                    old(self).source@.subrange(old(self).start as int, old(self).current as int),
                    line_at(old(self).source@, old(self).current as int),
                ),
            ),
    {
        let lexeme = string_of(&self.source, self.start, self.current);
        let token = Token { token_type, lexeme, literal, line: self.line };
        proof {
            let l = self.source@.subrange(self.start as int, self.current as int);
            if l.len() >= 2 {
                assert(l.subrange(1, l.len() - 1) =~= self.source@.subrange(
                    self.start + 1,
                    self.current - 1,
                ));
            }
        }
        let ghost before = self.tokens@;
        self.tokens.push(token);
        assert(views(self.tokens@) =~= views(before).push(token_view(token)));
    }
}

} // verus!
