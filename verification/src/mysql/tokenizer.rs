use vstd::prelude::*;
use super::token::{Token, TokenModel, Whitespace, WhitespaceModel};
use super::text::{
    CharClass, CharStream, span, lemma_span, is_digit, is_identifier_start,
    peeking_take_while, push_char,
};
use super::lexer::{
    LexError, Lexed, Lexeme, lex, lexeme_token, lex_error_message, quoted_rest, quoted_string,
    block_comment, line_comment, number, at, scan, Scan, counters_fit, advance, lemma_lex_progress,
};

verus! {

broadcast use vstd::seq_lib::lemma_seq_skip_of_skip;

/// Tokenizer error: a message and the line and column counters when it happened.
#[derive(Debug, PartialEq)]
pub struct TokenizerError {
    pub message: String,
    pub line: u64,
    pub col: u64,
}

/// SQL Tokenizer
pub struct Tokenizer<'a> {
    query: &'a str,
    line: u64,
    col: u64,
}

/// The model of a tokenizer: the text it reads and its line and column counters.
pub struct TokenizerState {
    pub query: Seq<char>,
    pub line: u64,
    pub col: u64,
}

impl<'a> View for Tokenizer<'a> {
    type V = TokenizerState;

    closed spec fn view(&self) -> TokenizerState {
        TokenizerState { query: self.query@, line: self.line, col: self.col }
    }
}

/// A text read `r`, with `pre` put in front of it and `skipped` more characters
/// counted as read.
spec fn extend(pre: Seq<char>, skipped: nat, r: Option<(Seq<char>, nat)>) -> Option<(Seq<char>, nat)> {
    match r {
        Some((t, n)) => Some((pre + t, n + skipped)),
        None => None,
    }
}

proof fn lemma_extend_extend(a: Seq<char>, i: nat, b: Seq<char>, j: nat, r: Option<(Seq<char>, nat)>)
    ensures
        extend(a, i, extend(b, j, r)) == extend(a + b, i + j, r),
{
    if let Some((t, n)) = r {
        assert(a + (b + t) =~= (a + b) + t);
    }
}

/// What `next_token` gives back for the outcome `l` of reading `before`, leaving `after`.
pub open spec fn reads_as(
    l: Lexed,
    r: Result<Option<Token>, TokenizerError>,
    before: Seq<char>,
    after: Seq<char>,
    line: u64,
    col: u64,
) -> bool {
    match l {
        Lexed::End => r matches Ok(None) && after == before,
        Lexed::Emit(x, n) => r matches Ok(Some(t)) && t@ == lexeme_token(x) && after == before.skip(
            n as int,
        ),
        Lexed::Fail(e) => r matches Err(err) && err.message@ == lex_error_message(e) && err.line
            == line && err.col == col && after.len() == 0,
    }
}

/// The run `r` of the tokenizer after `done` was read in front of it.
spec fn after_lexemes(done: Seq<Lexeme>, r: Scan) -> Scan {
    Scan { lexemes: done + r.lexemes, ..r }
}

/// What `tokenize` does to a tokenizer in state `before`, leaving it in `after`
/// and answering `r`: it reads the whole query as `scan` does from its counters;
/// the tokens are the lexemes read, and the error, if any, is the one that
/// stopped the run, with the counters at that point; the counters end where
/// the run ends.
pub open spec fn tokenized(
    before: TokenizerState,
    after: TokenizerState,
    r: Result<Vec<Token>, TokenizerError>,
) -> bool {
    let run = scan(before.query, before.line as int, before.col as int);
    &&& after.query == before.query
    &&& after.line == run.line
    &&& after.col == run.col
    &&& (r is Ok <==> run.error is None)
    &&& (r matches Ok(tokens) ==> tokens@.map_values(|t: Token| t@) == run.lexemes.map_values(
        |l: Lexeme| lexeme_token(l),
    ))
    &&& (r matches Err(e) ==> run.error matches Some(k) && e.message@ == lex_error_message(k)
        && e.line == run.line && e.col == run.col)
}

/// The character of the decimal digit `d`.
pub open spec fn digit_char(d: nat) -> char {
    (48 + d) as char
}

/// The decimal numeral of `n`, without leading zeros.
pub open spec fn decimal(n: nat) -> Seq<char>
    decreases n,
{
    if n < 10 {
        seq![digit_char(n)]
    } else {
        decimal(n / 10).push(digit_char(n % 10))
    }
}

/// Appends the decimal numeral of `n` to `s`.
fn push_decimal(s: &mut String, n: u64)
    ensures
        final(s)@ == old(s)@ + decimal(n as nat),
    decreases n,
{
    if n >= 10 {
        push_decimal(s, n / 10);
    }
    let d: u8 = (n % 10) as u8;
    let c: char = (48u8 + d) as char;
    assert(c == digit_char((n % 10) as nat));
    push_char(s, c);
    assert(s@ =~= old(s)@ + decimal(n as nat));
}

impl TokenizerError {
    /// The error as text: the message, then ` at Line: `, the line, `, Column `
    /// and the column.
    pub fn to_string(&self) -> (r: String)
        ensures
            r@ == self.message@ + " at Line: "@ + decimal(self.line as nat) + ", Column "@
                + decimal(self.col as nat),
    {
        let mut r = self.message.clone();
        r.append(" at Line: ");
        push_decimal(&mut r, self.line);
        r.append(", Column ");
        push_decimal(&mut r, self.col);
        r
    }
}

impl<'a> Tokenizer<'a> {
    /// Create a new tokenizer for `query`, at line 1, column 1.
    pub fn new(query: &'a str) -> (r: Self)
        ensures
            r@.query == query@,
            r@.line == 1,
            r@.col == 1,
    {
        Tokenizer { query, line: 1, col: 1 }
    }

    fn tokenizer_error<R>(&self, message: &str) -> (r: Result<R, TokenizerError>)
        ensures
            r matches Err(e) && e.message@ == message@ && e.line == self@.line && e.col
                == self@.col,
    {
        Err(TokenizerError { message: message.to_string(), col: self.col, line: self.line })
    }

    fn consume_and_return(&self, chars: &mut CharStream, t: Token) -> (r: Result<
        Option<Token>,
        TokenizerError,
    >)
        ensures
            r matches Ok(Some(u)) && u == t,
            final(chars)@ == (if old(chars)@.len() > 0 {
                old(chars)@.skip(1)
            } else {
                old(chars)@
            }),
    {
        chars.next();
        Ok(Some(t))
    }

    /// Reads a comment up to and including the next newline, or to the end.
    fn tokenize_single_line_comment(&self, chars: &mut CharStream) -> (s: String)
        ensures
            s@ == line_comment(old(chars)@).0,
            final(chars)@ == old(chars)@.skip(line_comment(old(chars)@).1 as int),
    {
        let ghost start = chars@;
        proof {
            lemma_span(start, CharClass::NotNewline);
        }
        let mut comment = peeking_take_while(chars, CharClass::NotNewline);
        if let Some(ch) = chars.next() {
            push_char(&mut comment, ch);
            proof {
                let k = span(start, CharClass::NotNewline);
                assert(comment@ =~= start.take((k + 1) as int));
            }
        } else {
            proof {
                assert(comment@ =~= start);
            }
        }
        comment
    }

    /// Reads the rest of an identifier or keyword whose first character was already read.
    fn tokenize_word(&self, first_char: char, chars: &mut CharStream) -> (s: String)
        ensures
            s@ == seq![first_char] + old(chars)@.take(span(old(chars)@, CharClass::IdentifierPart) as int),
            final(chars)@ == old(chars)@.skip(span(old(chars)@, CharClass::IdentifierPart) as int),
    {
        let mut s = String::new();
        push_char(&mut s, first_char);
        let rest = peeking_take_while(chars, CharClass::IdentifierPart);
        s.append(rest.as_str());
        s
    }

    /// Reads a quoted string, starting with its opening quote, and gives back its
    /// text without the quotes; a backslash keeps itself and the next character.
    pub fn tokenize_single_quoted_string(&self, chars: &mut CharStream) -> (r: Result<
        String,
        TokenizerError,
    >)
        requires
            old(chars)@.len() > 0,
        ensures
            match quoted_string(old(chars)@) {
                Some((t, n)) => r matches Ok(s) && s@ == t && final(chars)@ == old(chars)@.skip(
                    n as int,
                ),
                None => r matches Err(e) && e.message@ == lex_error_message(
                    LexError::UnterminatedString,
                ) && e.line == self@.line && e.col == self@.col && final(chars)@.len() == 0,
            },
    {
        let ghost start = chars@;
        let mut s = String::new();
        let quote_char = match chars.next() {
            Some(c) => c,
            None => {
                proof {
                    assert(false);
                }
                ' '
            },
        };
        let ghost body = chars@;
        let ghost mut k: nat = 0;
        loop
            invariant
                start == old(chars)@,
                body == start.skip(1),
                quote_char == start[0],
                start.len() > 0,
                k <= body.len(),
                chars@ == body.skip(k as int),
                quoted_rest(body, quote_char) == extend(s@, k, quoted_rest(chars@, quote_char)),
            decreases chars@.len(),
        {
            let ghost cur = chars@;
            match chars.peek() {
                Some(ch) => {
                    if ch == '\\' {
                        chars.next();
                        push_char(&mut s, ch);
                        if let Some(next_char) = chars.next() {
                            push_char(&mut s, next_char);
                            proof {
                                lemma_extend_extend(
                                    s@.drop_last().drop_last(),
                                    k,
                                    seq![ch, next_char],
                                    2,
                                    quoted_rest(cur.skip(2), quote_char),
                                );
                                assert(s@.drop_last().drop_last() + seq![ch, next_char] =~= s@);
                                k = k + 2;
                            }
                        } else {
                            proof {
                                k = k + 1;
                            }
                        }
                    } else if ch == quote_char {
                        chars.next();
                        proof {
                            assert(s@ + Seq::<char>::empty() =~= s@);
                        }
                        return Ok(s);
                    } else {
                        chars.next();
                        let ghost before = s@;
                        push_char(&mut s, ch);
                        proof {
                            lemma_extend_extend(before, k, seq![ch], 1, quoted_rest(cur.skip(1), quote_char));
                            assert(before + seq![ch] =~= s@);
                            k = k + 1;
                        }
                    }
                },
                None => {
                    return self.tokenizer_error("Unterminated string literal");
                },
            }
        }
    }

    /// Reads a number literal, `sign` being already read: digits, one optional
    /// `.` and digits, and an optional `L`; or a hexadecimal literal after `0x`,
    /// or a period when there is only a `.`.
    fn tokenize_number_literal(&self, chars: &mut CharStream, sign: Option<char>) -> (r: Result<
        Option<Token>,
        TokenizerError,
    >)
        requires
            sign is None || sign == Some('+') || sign == Some('-'),
        ensures
            r matches Ok(Some(t)) && t@ == number(old(chars)@, sign).0 && final(chars)@ == old(
                chars,
            )@.skip(number(old(chars)@, sign).1 as int),
    {
        let ghost start = chars@;
        proof {
            lemma_span(start, CharClass::Digit);
        }
        let ghost d1 = span(start, CharClass::Digit);
        let mut s = match sign {
            Some(ch) => {
                let mut s = String::new();
                push_char(&mut s, ch);
                let digits = peeking_take_while(chars, CharClass::Digit);
                s.append(digits.as_str());
                s
            },
            None => peeking_take_while(chars, CharClass::Digit),
        };
        let ghost head = s@;
        assert(head == match sign {
            Some(c) => seq![c] + start.take(d1 as int),
            None => start.take(d1 as int),
        });
        let is_zero = s.as_str().unicode_len() == 1 && s.as_str().get_char(0) == '0';
        assert(is_zero == (sign is None && d1 == 1 && start[0] == '0'));
        if is_zero && chars.peek_is('x') {
            assert(chars@ == start.skip(1));
            assert(chars@[0] == start[1]);
            assert(at(start, 1, 'x'));
            chars.next();
            assert(chars@ == start.skip(2));
            proof {
                lemma_span(start.skip(2), CharClass::HexDigit);
            }
            let s2 = peeking_take_while(chars, CharClass::HexDigit);
            return Ok(Some(Token::HexStringLiteral(s2)));
        }
        let ghost dot = chars@.len() > 0 && chars@[0] == '.';
        assert(dot == (d1 < start.len() && start[d1 as int] == '.'));
        if chars.peek_is('.') {
            push_char(&mut s, '.');
            chars.next();
        }
        let ghost after_dot: nat = if dot {
            d1 + 1
        } else {
            d1
        };
        assert(chars@ == start.skip(after_dot as int));
        let digits = peeking_take_while(chars, CharClass::Digit);
        s.append(digits.as_str());
        proof {
            let d2 = span(start.skip(after_dot as int), CharClass::Digit);
            let fraction: Seq<char> = if dot {
                seq!['.'] + start.skip(after_dot as int).take(d2 as int)
            } else {
                start.skip(after_dot as int).take(d2 as int)
            };
            assert(s@ =~= head + fraction);
            lemma_span(start.skip(after_dot as int), CharClass::Digit);
        }
        if s.as_str().unicode_len() == 1 && s.as_str().get_char(0) == '.' {
            return Ok(Some(Token::Period));
        }
        let long = if chars.peek_is('L') {
            chars.next();
            true
        } else {
            false
        };
        Ok(Some(Token::Number(s, long)))
    }

    /// Reads a `/* ... */` comment whose `/*` was already read.
    fn tokenize_multiline_comment(&self, chars: &mut CharStream) -> (r: Result<
        Option<Token>,
        TokenizerError,
    >)
        ensures
            match block_comment(old(chars)@, false) {
                Some((t, n)) => r matches Ok(Some(tok)) && tok@ == TokenModel::Whitespace(
                    WhitespaceModel::MultiLineComment(t),
                ) && final(chars)@ == old(chars)@.skip(n as int),
                None => r matches Err(e) && e.message@ == lex_error_message(
                    LexError::UnterminatedComment,
                ) && e.line == self@.line && e.col == self@.col && final(chars)@.len() == 0,
            },
    {
        let ghost start = chars@;
        let mut s = String::new();
        let mut maybe_closing_comment = false;
        let ghost mut k: nat = 0;
        loop
            invariant
                start == old(chars)@,
                k <= start.len(),
                chars@ == start.skip(k as int),
                block_comment(start, false) == extend(
                    s@,
                    k,
                    block_comment(chars@, maybe_closing_comment),
                ),
            decreases chars@.len(),
        {
            let ghost cur = chars@;
            let ghost before = s@;
            let ghost pending = maybe_closing_comment;
            match chars.next() {
                Some(ch) => {
                    if maybe_closing_comment {
                        if ch == '/' {
                            proof {
                                assert(s@ + Seq::<char>::empty() =~= s@);
                            }
                            return Ok(Some(Token::Whitespace(Whitespace::MultiLineComment(s))));
                        } else {
                            push_char(&mut s, '*');
                        }
                    }
                    maybe_closing_comment = ch == '*';
                    if !maybe_closing_comment {
                        push_char(&mut s, ch);
                    }
                    proof {
                        let star: Seq<char> = if pending {
                            seq!['*']
                        } else {
                            Seq::empty()
                        };
                        let kept: Seq<char> = if ch == '*' {
                            star
                        } else {
                            star.push(ch)
                        };
                        assert(s@ =~= before + kept);
                        lemma_extend_extend(
                            before,
                            k,
                            kept,
                            1,
                            block_comment(cur.skip(1), ch == '*'),
                        );
                        k = k + 1;
                    }
                },
                None => {
                    return self.tokenizer_error("Unexpected EOF while in a multi-line comment");
                },
            }
        }
    }

    /// Reads the next token, or `None` at the end of the input.
    fn next_token(&self, chars: &mut CharStream) -> (r: Result<Option<Token>, TokenizerError>)
        ensures
            reads_as(lex(old(chars)@), r, old(chars)@, final(chars)@, self@.line, self@.col),
    {
        let ghost s = chars@;
        proof {
            lemma_lex_progress(s);
        }
        match chars.peek() {
            None => Ok(None),
            Some(ch) => {
                if ch == ' ' {
                    self.consume_and_return(chars, Token::Whitespace(Whitespace::Space))
                } else if ch == '\t' {
                    self.consume_and_return(chars, Token::Whitespace(Whitespace::Tab))
                } else if ch == '\n' {
                    self.consume_and_return(chars, Token::Whitespace(Whitespace::Newline))
                } else if ch == '\r' {
                    // a single newline token for both \r and \r\n
                    chars.next();
                    if chars.peek_is('\n') {
                        chars.next();
                    }
                    Ok(Some(Token::Whitespace(Whitespace::Newline)))
                } else if ch == 'N' || ch == 'x' || ch == 'X' {
                    // N'...' is a national string literal, X'...' or x'...' a hexadecimal one
                    chars.next();
                    if chars.peek_is('\'') {
                        match self.tokenize_single_quoted_string(chars) {
                            Ok(text) => {
                                if ch == 'N' {
                                    Ok(Some(Token::NationalStringLiteral(text)))
                                } else {
                                    Ok(Some(Token::HexStringLiteral(text)))
                                }
                            },
                            Err(e) => Err(e),
                        }
                    } else {
                        self.word_token(ch, chars, Ghost(s))
                    }
                } else if is_identifier_start(ch) {
                    chars.next();
                    self.word_token(ch, chars, Ghost(s))
                } else if ch == '\'' || ch == '`' {
                    match self.tokenize_single_quoted_string(chars) {
                        Ok(text) => Ok(Some(Token::SingleQuotedString(text))),
                        Err(e) => Err(e),
                    }
                } else if ('0' <= ch && ch <= '9') || ch == '.' {
                    self.tokenize_number_literal(chars, None)
                } else if ch == '(' {
                    self.consume_and_return(chars, Token::LParen)
                } else if ch == ')' {
                    self.consume_and_return(chars, Token::RParen)
                } else if ch == ',' {
                    self.consume_and_return(chars, Token::Comma)
                } else if ch == '-' {
                    chars.next();
                    if chars.peek_is('-') {
                        chars.next();
                        let comment = self.tokenize_single_line_comment(chars);
                        let mut prefix = String::new();
                        push_char(&mut prefix, '-');
                        push_char(&mut prefix, '-');
                        assert(prefix@ =~= seq!['-', '-']);
                        Ok(Some(Token::Whitespace(Whitespace::SingleLineComment { comment, prefix })))
                    } else if self.next_is_digit(chars) {
                        self.tokenize_number_literal(chars, Some('-'))
                    } else {
                        Ok(Some(Token::Minus))
                    }
                } else if ch == '/' {
                    chars.next();
                    if chars.peek_is('*') {
                        chars.next();
                        self.tokenize_multiline_comment(chars)
                    } else {
                        Ok(Some(Token::Div))
                    }
                } else if ch == '+' {
                    chars.next();
                    if self.next_is_digit(chars) {
                        self.tokenize_number_literal(chars, Some('+'))
                    } else {
                        Ok(Some(Token::Plus))
                    }
                } else if ch == '*' {
                    self.consume_and_return(chars, Token::Mul)
                } else if ch == '%' {
                    self.consume_and_return(chars, Token::Mod)
                } else if ch == '=' {
                    chars.next();
                    if chars.peek_is('>') {
                        self.consume_and_return(chars, Token::RArrow)
                    } else {
                        Ok(Some(Token::Eq))
                    }
                } else if ch == '!' {
                    chars.next();
                    if chars.peek_is('=') {
                        self.consume_and_return(chars, Token::Neq)
                    } else if chars.peek_is('!') {
                        self.consume_and_return(chars, Token::DoubleExclamationMark)
                    } else if chars.peek_is('~') {
                        chars.next();
                        if chars.peek_is('*') {
                            self.consume_and_return(chars, Token::ExclamationMarkTildeAsterisk)
                        } else {
                            Ok(Some(Token::ExclamationMarkTilde))
                        }
                    } else {
                        Ok(Some(Token::ExclamationMark))
                    }
                } else if ch == '<' {
                    chars.next();
                    if chars.peek_is('=') {
                        chars.next();
                        if chars.peek_is('>') {
                            self.consume_and_return(chars, Token::Spaceship)
                        } else {
                            Ok(Some(Token::LtEq))
                        }
                    } else if chars.peek_is('>') {
                        self.consume_and_return(chars, Token::Neq)
                    } else if chars.peek_is('<') {
                        self.consume_and_return(chars, Token::ShiftLeft)
                    } else {
                        Ok(Some(Token::Lt))
                    }
                } else if ch == '>' {
                    chars.next();
                    if chars.peek_is('=') {
                        self.consume_and_return(chars, Token::GtEq)
                    } else if chars.peek_is('>') {
                        self.consume_and_return(chars, Token::ShiftRight)
                    } else {
                        Ok(Some(Token::Gt))
                    }
                } else if ch == ':' {
                    chars.next();
                    if chars.peek_is(':') {
                        self.consume_and_return(chars, Token::DoubleColon)
                    } else {
                        Ok(Some(Token::Colon))
                    }
                } else if ch == ';' {
                    self.consume_and_return(chars, Token::SemiColon)
                } else if ch == '\\' {
                    self.consume_and_return(chars, Token::Backslash)
                } else if ch == '[' {
                    self.consume_and_return(chars, Token::LBracket)
                } else if ch == ']' {
                    self.consume_and_return(chars, Token::RBracket)
                } else if ch == '&' {
                    self.consume_and_return(chars, Token::Ampersand)
                } else if ch == '^' {
                    self.consume_and_return(chars, Token::Caret)
                } else if ch == '{' {
                    self.consume_and_return(chars, Token::LBrace)
                } else if ch == '}' {
                    self.consume_and_return(chars, Token::RBrace)
                } else if ch == '~' {
                    chars.next();
                    if chars.peek_is('*') {
                        self.consume_and_return(chars, Token::TildeAsterisk)
                    } else {
                        Ok(Some(Token::Tilde))
                    }
                } else if ch == '#' {
                    self.consume_and_return(chars, Token::Sharp)
                } else if ch == '@' {
                    self.consume_and_return(chars, Token::AtSign)
                } else if ch == '?' {
                    let mut mark = String::new();
                    push_char(&mut mark, '?');
                    assert(mark@ =~= seq!['?']);
                    self.consume_and_return(chars, Token::Placeholder(mark))
                } else if ch == '$' {
                    chars.next();
                    let name = peeking_take_while(chars, CharClass::AsciiAlphanumeric);
                    let mut placeholder = String::new();
                    push_char(&mut placeholder, '$');
                    placeholder.append(name.as_str());
                    proof {
                        let k = span(s.skip(1), CharClass::AsciiAlphanumeric);
                        assert(placeholder@ =~= s.take((k + 1) as int));
                    }
                    Ok(Some(Token::Placeholder(placeholder)))
                } else {
                    self.consume_and_return(chars, Token::Char(ch))
                }
            },
        }
    }

    /// Whether the next character is a decimal digit.
    fn next_is_digit(&self, chars: &CharStream) -> (r: bool)
        ensures
            r == (chars@.len() > 0 && is_digit(chars@[0])),
    {
        match chars.peek() {
            Some(d) => '0' <= d && d <= '9',
            None => false,
        }
    }

    /// The word token that starts with `first`, already read from the front of `s`.
    fn word_token(&self, first: char, chars: &mut CharStream, Ghost(s): Ghost<Seq<char>>) -> (r:
        Result<Option<Token>, TokenizerError>)
        requires
            s.len() > 0,
            s[0] == first,
            old(chars)@ == s.skip(1),
        ensures
            r matches Ok(Some(t)) && t@ == lexeme_token(
                Lexeme::Word(s.take((1 + span(s.skip(1), CharClass::IdentifierPart)) as int)),
            ),
            final(chars)@ == s.skip((1 + span(s.skip(1), CharClass::IdentifierPart)) as int),
    {
        proof {
            lemma_span(s.skip(1), CharClass::IdentifierPart);
        }
        let word = self.tokenize_word(first, chars);
        proof {
            let k = span(s.skip(1), CharClass::IdentifierPart);
            assert(word@ =~= s.take((1 + k) as int));
        }
        Ok(Some(Token::make_word(word.as_str(), None)))
    }

    /// Tokenize the statement and produce a vector of tokens
    pub fn tokenize(&mut self) -> (r: Result<Vec<Token>, TokenizerError>)
        requires
            counters_fit(old(self)@.query, old(self)@.line as int, old(self)@.col as int),
        ensures
            tokenized(old(self)@, final(self)@, r),
    {
        let mut chars = CharStream::new(self.query);
        let mut tokens: Vec<Token> = Vec::new();
        let ghost mut done: Seq<Lexeme> = Seq::empty();
        let ghost run = scan(old(self)@.query, old(self)@.line as int, old(self)@.col as int);
        assert(done + run.lexemes =~= run.lexemes);
        loop
            invariant
                run == scan(old(self)@.query, old(self)@.line as int, old(self)@.col as int),
                self@.query == old(self)@.query,
                counters_fit(chars@, self@.line as int, self@.col as int),
                run == after_lexemes(done, scan(chars@, self@.line as int, self@.col as int)),
                tokens@.map_values(|t: Token| t@) == done.map_values(|l: Lexeme| lexeme_token(l)),
            decreases chars@.len(),
        {
            let ghost cur = chars@;
            let ghost line0 = self.line as int;
            let ghost col0 = self.col as int;
            proof {
                lemma_lex_progress(cur);
            }
            match self.next_token(&mut chars) {
                Ok(Some(token)) => {
                    let ghost l = lex(cur)->Emit_0;
                    let ghost n = lex(cur)->Emit_1;
                    let ghost tv = token;
                    let ghost before_tokens = tokens@;
                    match &token {
                        Token::Whitespace(Whitespace::Newline) => {
                            self.line += 1;
                            self.col = 1;
                        },
                        Token::Whitespace(Whitespace::Tab) => self.col += 4,
                        _ => self.col += 1,
                    }
                    tokens.push(token);
                    proof {
                        assert(advance(l, line0, col0) == (self.line as int, self.col as int));
                        assert(chars@ == cur.skip(n as int));
                        let rest = scan(chars@, self.line as int, self.col as int);
                        assert(scan(cur, line0, col0) == Scan {
                            lexemes: seq![l] + rest.lexemes,
                            ..rest
                        });
                        let done2 = done.push(l);
                        assert(done2 + rest.lexemes =~= done + (seq![l] + rest.lexemes));
                        assert(tokens@ == before_tokens.push(tv));
                        assert(tv@ == lexeme_token(l));
                        let tm = tokens@.map_values(|t: Token| t@);
                        let dm = done2.map_values(|x: Lexeme| lexeme_token(x));
                        let tm0 = before_tokens.map_values(|t: Token| t@);
                        let dm0 = done.map_values(|x: Lexeme| lexeme_token(x));
                        assert(tm0.len() == dm0.len());
                        assert(tm.len() == dm.len());
                        assert forall|i: int| 0 <= i < tm.len() implies #[trigger] tm[i] == dm[i] by {
                            if i < before_tokens.len() {
                                assert(tokens@[i] == before_tokens[i]);
                                assert(done2[i] == done[i]);
                                assert(tm0[i] == dm0[i]);
                            } else {
                                assert(tokens@[i] == tv);
                                assert(done2[i] == l);
                            }
                        }
                        assert(tm =~= dm);
                        done = done2;
                    }
                },
                Ok(None) => {
                    proof {
                        assert(done + Seq::<Lexeme>::empty() =~= done);
                    }
                    return Ok(tokens);
                },
                Err(e) => {
                    return Err(e);
                },
            }
        }
    }
}

} // verus!
