use vstd::prelude::*;
use super::token::{TokenModel, WhitespaceModel, word_token};
use super::text::{CharClass, span, lemma_span, is_digit, is_identifier_start_char};

verus! {

/// The ways reading a token can fail.
pub enum LexError {
    /// A quoted string reaches the end of the input before its closing quote.
    UnterminatedString,
    /// A `/* ... */` comment reaches the end of the input before `*/`.
    UnterminatedComment,
}

/// The message that a tokenizer error of kind `e` carries.
pub open spec fn lex_error_message(e: LexError) -> Seq<char> {
    match e {
        LexError::UnterminatedString => "Unterminated string literal"@,
        LexError::UnterminatedComment => "Unexpected EOF while in a multi-line comment"@,
    }
}

/// What one step of the tokenizer reads: an unquoted word, whose keyword is
/// recognised when the token is built, or any other token.
pub enum Lexeme {
    Word(Seq<char>),
    Other(TokenModel),
}

/// The token that a lexeme becomes.
pub open spec fn lexeme_token(l: Lexeme) -> TokenModel {
    match l {
        Lexeme::Word(v) => word_token(v, None),
        Lexeme::Other(t) => t,
    }
}

/// The outcome of reading one token from the front of the input: the input is
/// used up, or a lexeme is read from its first `n` characters, or it is malformed.
pub enum Lexed {
    End,
    Emit(Lexeme, nat),
    Fail(LexError),
}

/// `s[i]` exists and is `c`.
pub open spec fn at(s: Seq<char>, i: int, c: char) -> bool {
    0 <= i < s.len() && s[i] == c
}

/// The token `t` read from the first `n` characters.
pub open spec fn emit(t: TokenModel, n: nat) -> Lexed {
    Lexed::Emit(Lexeme::Other(t), n)
}

/// The body of a string quoted by `q`, read from `s`, which follows the opening
/// quote: the text up to the closing quote and the number of characters read,
/// closing quote included. A backslash keeps itself and the character after it,
/// so an escaped quote does not close the string. `None` when no closing quote comes.
pub open spec fn quoted_rest(s: Seq<char>, q: char) -> Option<(Seq<char>, nat)>
    decreases s.len(),
{
    if s.len() == 0 {
        None
    } else if s[0] == '\\' {
        if s.len() == 1 {
            None
        } else {
            match quoted_rest(s.skip(2), q) {
                Some((t, n)) => Some((seq![s[0], s[1]] + t, n + 2)),
                None => None,
            }
        }
    } else if s[0] == q {
        Some((Seq::empty(), 1))
    } else {
        match quoted_rest(s.skip(1), q) {
            Some((t, n)) => Some((seq![s[0]] + t, n + 1)),
            None => None,
        }
    }
}

/// A quoted string at the front of `s`, whose first character is the quote.
pub open spec fn quoted_string(s: Seq<char>) -> Option<(Seq<char>, nat)> {
    if s.len() == 0 {
        None
    } else {
        match quoted_rest(s.skip(1), s[0]) {
            Some((t, n)) => Some((t, n + 1)),
            None => None,
        }
    }
}

/// The body of a `/* ... */` comment read from `s`, which follows `/*`: the text
/// up to the closing `*/` and the number of characters read, `*/` included.
/// `pending_star` records that the character before `s` was a `*` not yet kept.
pub open spec fn block_comment(s: Seq<char>, pending_star: bool) -> Option<(Seq<char>, nat)>
    decreases s.len(),
{
    if s.len() == 0 {
        None
    } else if pending_star && s[0] == '/' {
        Some((Seq::empty(), 1))
    } else {
        let star: Seq<char> = if pending_star {
            seq!['*']
        } else {
            Seq::empty()
        };
        let kept: Seq<char> = if s[0] == '*' {
            star
        } else {
            star.push(s[0])
        };
        match block_comment(s.skip(1), s[0] == '*') {
            Some((t, n)) => Some((kept + t, n + 1)),
            None => None,
        }
    }
}

/// The text of a `--` comment read from `s`, which follows `--`: everything up
/// to and including the next newline, or to the end; and its length.
pub open spec fn line_comment(s: Seq<char>) -> (Seq<char>, nat) {
    let k = span(s, CharClass::NotNewline);
    if k < s.len() {
        (s.take((k + 1) as int), k + 1)
    } else {
        (s, k)
    }
}

/// The numeric token read from `s`, with `sign` already read before it, and the
/// number of characters read from `s`: digits, then one optional `.` and digits,
/// then an optional `L`. A lone `0` followed by `x` starts a hexadecimal literal
/// instead, and a lone `.` is a period.
pub open spec fn number(s: Seq<char>, sign: Option<char>) -> (TokenModel, nat) {
    let d1 = span(s, CharClass::Digit);
    let head: Seq<char> = match sign {
        Some(c) => seq![c] + s.take(d1 as int),
        None => s.take(d1 as int),
    };
    if sign is None && d1 == 1 && s[0] == '0' && at(s, 1, 'x') {
        let h = span(s.skip(2), CharClass::HexDigit);
        (TokenModel::HexStringLiteral(s.skip(2).take(h as int)), 2 + h)
    } else {
        let dot = at(s, d1 as int, '.');
        let after_dot: nat = if dot {
            d1 + 1
        } else {
            d1
        };
        let d2 = span(s.skip(after_dot as int), CharClass::Digit);
        let fraction: Seq<char> = if dot {
            seq!['.'] + s.skip(after_dot as int).take(d2 as int)
        } else {
            s.skip(after_dot as int).take(d2 as int)
        };
        let m = after_dot + d2;
        if sign is None && d1 == 0 && dot && d2 == 0 {
            (TokenModel::Period, m)
        } else {
            let long = at(s, m as int, 'L');
            (TokenModel::Number(head + fraction, long), if long {
                m + 1
            } else {
                m
            })
        }
    }
}

/// A word starting at the front of `s`: its first character and the identifier
/// characters after it.
pub open spec fn word_at(s: Seq<char>) -> Lexed {
    let n = 1 + span(s.skip(1), CharClass::IdentifierPart);
    Lexed::Emit(Lexeme::Word(s.take(n as int)), n)
}

/// A quoted string at the front of `s`, giving a token of kind `kind`;
/// `skipped` characters were read before `s`.
pub open spec fn quoted_at(s: Seq<char>, kind: QuoteKind, skipped: nat) -> Lexed {
    match quoted_string(s) {
        Some((t, n)) => emit(
            match kind {
                QuoteKind::Single => TokenModel::SingleQuotedString(t),
                QuoteKind::National => TokenModel::NationalStringLiteral(t),
                QuoteKind::Hex => TokenModel::HexStringLiteral(t),
            },
            n + skipped,
        ),
        None => Lexed::Fail(LexError::UnterminatedString),
    }
}

/// The token kinds that a quoted string can give.
pub enum QuoteKind {
    Single,
    National,
    Hex,
}

/// A token of one or two characters: `one` when the second character is not
/// `second`, `two` when it is.
pub open spec fn one_or_two(s: Seq<char>, second: char, one: TokenModel, two: TokenModel) -> Lexed {
    if at(s, 1, second) {
        emit(two, 2)
    } else {
        emit(one, 1)
    }
}

/// Reads one token from the front of `s`.
pub open spec fn lex(s: Seq<char>) -> Lexed {
    if s.len() == 0 {
        Lexed::End
    } else {
        let c = s[0];
        if c == ' ' {
            emit(TokenModel::Whitespace(WhitespaceModel::Space), 1)
        } else if c == '\t' {
            emit(TokenModel::Whitespace(WhitespaceModel::Tab), 1)
        } else if c == '\n' {
            emit(TokenModel::Whitespace(WhitespaceModel::Newline), 1)
        } else if c == '\r' {
            emit(TokenModel::Whitespace(WhitespaceModel::Newline), if at(s, 1, '\n') {
                2
            } else {
                1
            })
        } else if c == 'N' {
            if at(s, 1, '\'') {
                quoted_at(s.skip(1), QuoteKind::National, 1)
            } else {
                word_at(s)
            }
        } else if c == 'x' || c == 'X' {
            if at(s, 1, '\'') {
                quoted_at(s.skip(1), QuoteKind::Hex, 1)
            } else {
                word_at(s)
            }
        } else if is_identifier_start_char(c) {
            word_at(s)
        } else if c == '\'' || c == '`' {
            quoted_at(s, QuoteKind::Single, 0)
        } else if is_digit(c) || c == '.' {
            emit(number(s, None).0, number(s, None).1)
        } else if c == '(' {
            emit(TokenModel::LParen, 1)
        } else if c == ')' {
            emit(TokenModel::RParen, 1)
        } else if c == ',' {
            emit(TokenModel::Comma, 1)
        } else if c == '-' {
            if at(s, 1, '-') {
                let (comment, n) = line_comment(s.skip(2));
                emit(
                    TokenModel::Whitespace(
                        WhitespaceModel::SingleLineComment { comment, prefix: seq!['-', '-'] },
                    ),
                    n + 2,
                )
            } else if s.len() > 1 && is_digit(s[1]) {
                emit(number(s.skip(1), Some('-')).0, number(s.skip(1), Some('-')).1 + 1)
            } else {
                emit(TokenModel::Minus, 1)
            }
        } else if c == '/' {
            if at(s, 1, '*') {
                match block_comment(s.skip(2), false) {
                    Some((t, n)) => emit(
                        TokenModel::Whitespace(WhitespaceModel::MultiLineComment(t)),
                        n + 2,
                    ),
                    None => Lexed::Fail(LexError::UnterminatedComment),
                }
            } else {
                emit(TokenModel::Div, 1)
            }
        } else if c == '+' {
            if s.len() > 1 && is_digit(s[1]) {
                emit(number(s.skip(1), Some('+')).0, number(s.skip(1), Some('+')).1 + 1)
            } else {
                emit(TokenModel::Plus, 1)
            }
        } else if c == '*' {
            emit(TokenModel::Mul, 1)
        } else if c == '%' {
            emit(TokenModel::Mod, 1)
        } else if c == '=' {
            one_or_two(s, '>', TokenModel::Eq, TokenModel::RArrow)
        } else if c == '!' {
            if at(s, 1, '=') {
                emit(TokenModel::Neq, 2)
            } else if at(s, 1, '!') {
                emit(TokenModel::DoubleExclamationMark, 2)
            } else if at(s, 1, '~') {
                if at(s, 2, '*') {
                    emit(TokenModel::ExclamationMarkTildeAsterisk, 3)
                } else {
                    emit(TokenModel::ExclamationMarkTilde, 2)
                }
            } else {
                emit(TokenModel::ExclamationMark, 1)
            }
        } else if c == '<' {
            if at(s, 1, '=') {
                if at(s, 2, '>') {
                    emit(TokenModel::Spaceship, 3)
                } else {
                    emit(TokenModel::LtEq, 2)
                }
            } else if at(s, 1, '>') {
                emit(TokenModel::Neq, 2)
            } else if at(s, 1, '<') {
                emit(TokenModel::ShiftLeft, 2)
            } else {
                emit(TokenModel::Lt, 1)
            }
        } else if c == '>' {
            if at(s, 1, '=') {
                emit(TokenModel::GtEq, 2)
            } else if at(s, 1, '>') {
                emit(TokenModel::ShiftRight, 2)
            } else {
                emit(TokenModel::Gt, 1)
            }
        } else if c == ':' {
            one_or_two(s, ':', TokenModel::Colon, TokenModel::DoubleColon)
        } else if c == ';' {
            emit(TokenModel::SemiColon, 1)
        } else if c == '\\' {
            emit(TokenModel::Backslash, 1)
        } else if c == '[' {
            emit(TokenModel::LBracket, 1)
        } else if c == ']' {
            emit(TokenModel::RBracket, 1)
        } else if c == '&' {
            emit(TokenModel::Ampersand, 1)
        } else if c == '^' {
            emit(TokenModel::Caret, 1)
        } else if c == '{' {
            emit(TokenModel::LBrace, 1)
        } else if c == '}' {
            emit(TokenModel::RBrace, 1)
        } else if c == '~' {
            one_or_two(s, '*', TokenModel::Tilde, TokenModel::TildeAsterisk)
        } else if c == '#' {
            emit(TokenModel::Sharp, 1)
        } else if c == '@' {
            emit(TokenModel::AtSign, 1)
        } else if c == '?' {
            emit(TokenModel::Placeholder(seq!['?']), 1)
        } else if c == '$' {
            let k = span(s.skip(1), CharClass::AsciiAlphanumeric);
            emit(TokenModel::Placeholder(s.take((k + 1) as int)), k + 1)
        } else {
            emit(TokenModel::Char(c), 1)
        }
    }
}

proof fn lemma_quoted_rest_len(s: Seq<char>, q: char)
    ensures
        quoted_rest(s, q) matches Some((t, n)) ==> 1 <= n <= s.len(),
    decreases s.len(),
{
    if s.len() > 1 && s[0] == '\\' {
        lemma_quoted_rest_len(s.skip(2), q);
    } else if s.len() > 0 && s[0] != q {
        lemma_quoted_rest_len(s.skip(1), q);
    }
}

proof fn lemma_block_comment_len(s: Seq<char>, pending_star: bool)
    ensures
        block_comment(s, pending_star) matches Some((t, n)) ==> 1 <= n <= s.len(),
    decreases s.len(),
{
    if s.len() > 0 {
        lemma_block_comment_len(s.skip(1), s[0] == '*');
    }
}

proof fn lemma_number_len(s: Seq<char>, sign: Option<char>)
    requires
        s.len() > 0,
        is_digit(s[0]) || (sign is None && s[0] == '.'),
    ensures
        1 <= number(s, sign).1 <= s.len(),
{
    lemma_span(s, CharClass::Digit);
    let d1 = span(s, CharClass::Digit);
    if sign is None && d1 == 1 && s[0] == '0' && at(s, 1, 'x') {
        lemma_span(s.skip(2), CharClass::HexDigit);
    } else {
        let dot = at(s, d1 as int, '.');
        let after_dot: nat = if dot {
            d1 + 1
        } else {
            d1
        };
        lemma_span(s.skip(after_dot as int), CharClass::Digit);
    }
}

/// Reading stops only at the end of the input, and every token read uses up at
/// least one character and no more than there are.
pub proof fn lemma_lex_progress(s: Seq<char>)
    ensures
        lex(s) is End <==> s.len() == 0,
        lex(s) matches Lexed::Emit(l, n) ==> 1 <= n <= s.len(),
{
    if s.len() > 0 {
        lemma_span(s.skip(1), CharClass::IdentifierPart);
        lemma_span(s.skip(1), CharClass::AsciiAlphanumeric);
        if s.len() > 1 {
            lemma_quoted_rest_len(s.skip(2), s[1]);
            assert(s.skip(1).skip(1) =~= s.skip(2));
        }
        lemma_quoted_rest_len(s.skip(1), s[0]);
        if s.len() > 1 {
            lemma_span(s.skip(2), CharClass::NotNewline);
            lemma_block_comment_len(s.skip(2), false);
            if is_digit(s[1]) {
                lemma_number_len(s.skip(1), Some('-'));
                lemma_number_len(s.skip(1), Some('+'));
            }
        }
        if is_digit(s[0]) || s[0] == '.' {
            lemma_number_len(s, None);
        }
    }
}

/// The result of a whole tokenizer run: the lexemes read, the error that
/// stopped it if any, and the line and column counters at the end.
pub struct Scan {
    pub lexemes: Seq<Lexeme>,
    pub error: Option<LexError>,
    pub line: int,
    pub col: int,
}

/// How the line and column counters move past a token: a newline starts the
/// next line at column 1, a tab moves 4 columns, any other token 1.
pub open spec fn advance(l: Lexeme, line: int, col: int) -> (int, int) {
    match l {
        Lexeme::Other(TokenModel::Whitespace(WhitespaceModel::Newline)) => (line + 1, 1),
        Lexeme::Other(TokenModel::Whitespace(WhitespaceModel::Tab)) => (line, col + 4),
        _ => (line, col + 1),
    }
}

/// Tokenizes all of `s`, with the counters at `line` and `col` before it: token
/// after token, until the input is used up or a token is malformed.
pub open spec fn scan(s: Seq<char>, line: int, col: int) -> Scan
    decreases s.len(),
{
    match lex(s) {
        Lexed::End => Scan { lexemes: Seq::empty(), error: None, line, col },
        Lexed::Fail(e) => Scan { lexemes: Seq::empty(), error: Some(e), line, col },
        Lexed::Emit(l, n) => {
            proof {
                lemma_lex_progress(s);
            }
            let (line2, col2) = advance(l, line, col);
            let rest = scan(s.skip(n as int), line2, col2);
            Scan { lexemes: seq![l] + rest.lexemes, ..rest }
        },
    }
}

/// The counters stay within `u64` all through the run of `scan(s, line, col)`.
pub open spec fn counters_fit(s: Seq<char>, line: int, col: int) -> bool
    decreases s.len(),
{
    match lex(s) {
        Lexed::Emit(l, n) => {
            proof {
                lemma_lex_progress(s);
            }
            let (line2, col2) = advance(l, line, col);
            line2 <= u64::MAX && col2 <= u64::MAX && counters_fit(s.skip(n as int), line2, col2)
        },
        _ => true,
    }
}

} // verus!
