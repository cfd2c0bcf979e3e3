use vstd::prelude::*;
use super::token::{
    Keyword, Token, TokenModel, WhitespaceModel, WordModel, keyword_of_uppercase, unicode_uppercase,
    word_token,
};
use super::text::{CharClass, span, lemma_span, is_digit, is_identifier_start_char, is_identifier_part_char};
use super::lexer::{
    LexError, Lexed, Lexeme, lex, emit, at, number, Scan, block_comment, line_comment, quoted_rest, quoted_string, scan, counters_fit, advance,
    lemma_lex_progress,
};
use super::statement::{
    models, leading_whitespace, is_whitespace_model, next_paren, keyword_at, names_in, column_name, column_names,
    values_in, column_values,
};
use super::tokenizer::{TokenizerError, TokenizerState, tokenized};

verus! {

/// `b` with a backslash put before each quote `q` and each backslash.
pub open spec fn escaped(b: Seq<char>, q: char) -> Seq<char>
    decreases b.len(),
{
    if b.len() == 0 {
        Seq::empty()
    } else {
        let c = b[0];
        let first: Seq<char> = if c == q || c == '\\' {
            seq!['\\', c]
        } else {
            seq![c]
        };
        first + escaped(b.skip(1), q)
    }
}

proof fn lemma_quoted_rest_escaped(b: Seq<char>, q: char, rest: Seq<char>)
    requires
        q != '\\',
    ensures
        quoted_rest(escaped(b, q) + seq![q] + rest, q) == Some(
            (escaped(b, q), escaped(b, q).len() + 1),
        ),
    decreases b.len(),
{
    let e = escaped(b, q);
    let s = e + seq![q] + rest;
    if b.len() == 0 {
        assert(s[0] == q);
    } else {
        let c = b[0];
        let tail = escaped(b.skip(1), q);
        lemma_quoted_rest_escaped(b.skip(1), q, rest);
        if c == q || c == '\\' {
            assert(s.skip(2) =~= tail + seq![q] + rest);
            assert(e =~= seq![s[0], s[1]] + tail);
        } else {
            assert(s.skip(1) =~= tail + seq![q] + rest);
            assert(e =~= seq![s[0]] + tail);
        }
    }
}

/// A quoted string is read back as written: a body whose quotes and backslashes
/// are escaped by a backslash, between two quotes, is read up to its closing
/// quote, whatever follows, and its text is the body as written.
pub proof fn law_quoted_string_read_back(b: Seq<char>, q: char, rest: Seq<char>)
    requires
        q != '\\',
    ensures
        quoted_string(seq![q] + escaped(b, q) + seq![q] + rest) == Some(
            (escaped(b, q), escaped(b, q).len() + 2),
        ),
{
    let s = seq![q] + escaped(b, q) + seq![q] + rest;
    assert(s.skip(1) =~= escaped(b, q) + seq![q] + rest);
    lemma_quoted_rest_escaped(b, q, rest);
}

/// The tokenizer reads a single quoted or backquoted string as a
/// `SingleQuotedString` token whose text is the body as written.
pub proof fn law_single_quoted_token(b: Seq<char>, q: char, rest: Seq<char>)
    requires
        q == '\'' || q == '`',
    ensures
        lex(seq![q] + escaped(b, q) + seq![q] + rest) == emit(
            TokenModel::SingleQuotedString(escaped(b, q)),
            escaped(b, q).len() + 2,
        ),
{
    law_quoted_string_read_back(b, q, rest);
}

proof fn lemma_span_of_run(w: Seq<char>, rest: Seq<char>, class: CharClass)
    requires
        forall|i: int| 0 <= i < w.len() ==> class.includes(#[trigger] w[i]),
        rest.len() == 0 || !class.includes(rest[0]),
    ensures
        span(w + rest, class) == w.len(),
    decreases w.len(),
{
    if w.len() > 0 {
        assert((w + rest).skip(1) =~= w.skip(1) + rest);
        lemma_span_of_run(w.skip(1), rest, class);
    } else {
        assert(w + rest =~= rest);
    }
}

/// A word is read back as written: an identifier start followed by identifier
/// characters, and then by something that cannot continue it, is read as that
/// word; unless it is a lone `N`, `x` or `X` before a quote, which opens a
/// string literal.
pub proof fn law_word_read_back(w: Seq<char>, rest: Seq<char>)
    requires
        w.len() > 0,
        ('a' <= w[0] && w[0] <= 'z') || ('A' <= w[0] && w[0] <= 'Z') || w[0] == '_',
        forall|i: int|
            0 <= i < w.len() ==> ('a' <= #[trigger] w[i] && w[i] <= 'z') || ('A' <= w[i] && w[i]
                <= 'Z') || ('0' <= w[i] && w[i] <= '9') || w[i] == '$' || w[i] == '_',
        rest.len() == 0 || !(('a' <= rest[0] && rest[0] <= 'z') || ('A' <= rest[0] && rest[0]
            <= 'Z') || ('0' <= rest[0] && rest[0] <= '9') || rest[0] == '$' || rest[0] == '_'),
        !(w.len() == 1 && (w[0] == 'N' || w[0] == 'x' || w[0] == 'X') && rest.len() > 0 && rest[0]
            == '\''),
    ensures
        lex(w + rest) == Lexed::Emit(Lexeme::Word(w), w.len()),
{
    let s = w + rest;
    assert(s.skip(1) =~= w.skip(1) + rest);
    assert forall|i: int| 0 <= i < w.skip(1).len() implies CharClass::IdentifierPart.includes(
        #[trigger] w.skip(1)[i],
    ) by {
        assert(w.skip(1)[i] == w[i + 1]);
    }
    lemma_span_of_run(w.skip(1), rest, CharClass::IdentifierPart);
    assert(s.take(w.len() as int) =~= w);
}

/// An unsigned integer is read back as written: digits followed by something
/// that cannot continue them are read as a number with those digits, marked
/// long when an `L` follows; unless they are a lone `0` before `x`, which
/// opens a hexadecimal literal.
pub proof fn law_integer_read_back(d: Seq<char>, rest: Seq<char>)
    requires
        d.len() > 0,
        forall|i: int| 0 <= i < d.len() ==> '0' <= #[trigger] d[i] && d[i] <= '9',
        rest.len() == 0 || !(('0' <= rest[0] && rest[0] <= '9') || rest[0] == '.'),
        !(d == seq!['0'] && at(rest, 0, 'x')),
    ensures
        lex(d + rest) == emit(
            TokenModel::Number(d, at(rest, 0, 'L')),
            if at(rest, 0, 'L') {
                d.len() + 1
            } else {
                d.len()
            },
        ),
{
    let s = d + rest;
    assert forall|i: int| 0 <= i < d.len() implies CharClass::Digit.includes(#[trigger] d[i]) by {}
    lemma_span_of_run(d, rest, CharClass::Digit);
    assert(s.skip(d.len() as int) =~= rest);
    assert(s.take(d.len() as int) =~= d);
    lemma_span_of_run(Seq::empty(), rest, CharClass::Digit);
    assert(Seq::<char>::empty() + rest =~= rest);
    if d.len() == 1 && d[0] == '0' {
        assert(d =~= seq!['0']);
    }
    assert(rest.take(0) + Seq::<char>::empty() =~= Seq::<char>::empty());
    assert(d + rest.take(0) =~= d);
}

/// Whether a lexeme is a newline.
pub open spec fn is_newline(l: Lexeme) -> bool {
    l == Lexeme::Other(TokenModel::Whitespace(WhitespaceModel::Newline))
}

/// The number of newline lexemes in `ls`.
pub open spec fn newline_count(ls: Seq<Lexeme>) -> nat
    decreases ls.len(),
{
    if ls.len() == 0 {
        0
    } else {
        (if is_newline(ls[0]) {
            1nat
        } else {
            0nat
        }) + newline_count(ls.skip(1))
    }
}

/// The line counter counts newlines: a run ends on its first line plus the
/// number of newline tokens it read.
pub proof fn law_line_counts_newlines(s: Seq<char>, line: int, col: int)
    ensures
        scan(s, line, col).line == line + newline_count(scan(s, line, col).lexemes),
    decreases s.len(),
{
    lemma_lex_progress(s);
    if let Lexed::Emit(l, n) = lex(s) {
        let (line2, col2) = advance(l, line, col);
        law_line_counts_newlines(s.skip(n as int), line2, col2);
        let ls = scan(s, line, col).lexemes;
        assert(ls.skip(1) =~= scan(s.skip(n as int), line2, col2).lexemes);
    }
}

/// The counters cannot overflow on a short input: when the line counter has
/// room for one more per character and the column counter for four more per
/// character, a whole run keeps them within `u64`.
pub proof fn law_short_input_counters_fit(s: Seq<char>, line: int, col: int)
    requires
        0 <= line,
        0 <= col,
        line + s.len() <= u64::MAX,
        col + 4 * s.len() <= u64::MAX,
    ensures
        counters_fit(s, line, col),
    decreases s.len(),
{
    lemma_lex_progress(s);
    if let Lexed::Emit(l, n) = lex(s) {
        let (line2, col2) = advance(l, line, col);
        law_short_input_counters_fit(s.skip(n as int), line2, col2);
    }
}

proof fn lemma_leading_whitespace_after(ms: Seq<TokenModel>)
    ensures
        leading_whitespace(ms) <= ms.len(),
        leading_whitespace(ms.skip(leading_whitespace(ms) as int)) == 0,
    decreases ms.len(),
{
    if ms.len() > 0 && is_whitespace_model(ms[0]) {
        lemma_leading_whitespace_after(ms.skip(1));
        assert(ms.skip(1).skip(leading_whitespace(ms.skip(1)) as int) =~= ms.skip(
            leading_whitespace(ms) as int,
        ));
    } else {
        assert(ms.skip(0) =~= ms);
    }
}

/// Trimming the leading whitespace twice is trimming it once.
pub proof fn law_trim_idempotent(ts: Seq<Token>)
    ensures
        ({
            let once = ts.skip(leading_whitespace(models(ts)) as int);
            once.skip(leading_whitespace(models(once)) as int) == once
        }),
{
    let k = leading_whitespace(models(ts)) as int;
    lemma_leading_whitespace_after(models(ts));
    let once = ts.skip(k);
    assert(models(once) =~= models(ts).skip(k));
    assert(once.skip(0) =~= once);
}

/// The tokens a run reads, and the error that stops it, do not depend on where
/// the line and column counters start.
pub proof fn law_scan_independent_of_counters(s: Seq<char>, l1: int, c1: int, l2: int, c2: int)
    ensures
        scan(s, l1, c1).lexemes == scan(s, l2, c2).lexemes,
        scan(s, l1, c1).error == scan(s, l2, c2).error,
    decreases s.len(),
{
    lemma_lex_progress(s);
    if let Lexed::Emit(l, n) = lex(s) {
        let (la, ca) = advance(l, l1, c1);
        let (lb, cb) = advance(l, l2, c2);
        law_scan_independent_of_counters(s.skip(n as int), la, ca, lb, cb);
    }
}

/// The characters of a sign read before a number: none, or the sign itself.
pub open spec fn sign_text(sign: Option<char>) -> Seq<char> {
    match sign {
        Some(c) => seq![c],
        None => Seq::empty(),
    }
}

/// Digits, optionally followed by a `.` and more digits, with at least one
/// digit in all.
pub open spec fn is_unsigned_decimal(b: Seq<char>) -> bool {
    let d = span(b, CharClass::Digit);
    if d == b.len() {
        d > 0
    } else {
        &&& b[d as int] == '.'
        &&& span(b.skip((d + 1) as int), CharClass::Digit) == b.len() - d - 1
        &&& (d > 0 || b.len() > d + 1)
    }
}

/// The text of a number token: an optional `+` or `-`, then an unsigned decimal.
pub open spec fn is_number_text(t: Seq<char>) -> bool {
    if t.len() > 0 && (t[0] == '+' || t[0] == '-') {
        is_unsigned_decimal(t.skip(1))
    } else {
        is_unsigned_decimal(t)
    }
}

proof fn lemma_unsigned_decimal(digits: Seq<char>, more: Seq<char>, dot: bool)
    requires
        forall|i: int| 0 <= i < digits.len() ==> is_digit(#[trigger] digits[i]),
        forall|i: int| 0 <= i < more.len() ==> is_digit(#[trigger] more[i]),
        dot ==> digits.len() > 0 || more.len() > 0,
        !dot ==> digits.len() > 0 && more.len() == 0,
    ensures
        is_unsigned_decimal(digits + (if dot {
            seq!['.'] + more
        } else {
            more
        })),
{
    let fraction: Seq<char> = if dot {
        seq!['.'] + more
    } else {
        more
    };
    let body = digits + fraction;
    assert forall|i: int| 0 <= i < digits.len() implies CharClass::Digit.includes(
        #[trigger] digits[i],
    ) by {}
    lemma_span_of_run(digits, fraction, CharClass::Digit);
    if dot {
        assert(body[digits.len() as int] == '.');
        assert(body.skip((digits.len() + 1) as int) =~= more);
        assert(more + Seq::<char>::empty() =~= more);
        assert forall|i: int| 0 <= i < more.len() implies CharClass::Digit.includes(
            #[trigger] more[i],
        ) by {}
        lemma_span_of_run(more, Seq::empty(), CharClass::Digit);
    } else {
        assert(body =~= digits);
    }
}

/// A number literal read from `s`, after `sign`, has the expected shape: it is
/// a period exactly when only a `.` is read; a hexadecimal literal only after
/// `0x` and no sign, holding the hex digits read; otherwise a number whose text
/// is the sign and the characters read, but for a final `L` that marks it long,
/// and that text has at least one digit.
#[verifier::spinoff_prover]
#[verifier::rlimit(50)]
pub proof fn law_number_shape(s: Seq<char>, sign: Option<char>)
    requires
        s.len() > 0,
        is_digit(s[0]) || (sign is None && s[0] == '.'),
        sign is None || sign == Some('+') || sign == Some('-'),
    ensures
        ({
            let (t, n) = number(s, sign);
            let p = s.take(n as int);
            &&& n <= s.len()
            &&& (t is Period <==> (sign is None && p == seq!['.']))
            &&& (t matches TokenModel::HexStringLiteral(h) ==> sign is None && p == seq!['0', 'x']
                + h)
            &&& (t matches TokenModel::Number(text, long) ==> sign_text(sign) + p == text + (if long {
                seq!['L']
            } else {
                Seq::<char>::empty()
            }) && is_number_text(text))
            &&& (t is Period || t is HexStringLiteral || t is Number)
        }),
{
    lemma_span(s, CharClass::Digit);
    let d1 = span(s, CharClass::Digit);
    let (t, n) = number(s, sign);
    if sign is None && d1 == 1 && s[0] == '0' && at(s, 1, 'x') {
        let h = span(s.skip(2), CharClass::HexDigit);
        lemma_span(s.skip(2), CharClass::HexDigit);
        assert(s.take(n as int) =~= seq!['0', 'x'] + s.skip(2).take(h as int));
    } else {
        let dot = at(s, d1 as int, '.');
        let after_dot: nat = if dot {
            d1 + 1
        } else {
            d1
        };
        let rest = s.skip(after_dot as int);
        lemma_span(rest, CharClass::Digit);
        let d2 = span(rest, CharClass::Digit);
        let digits = s.take(d1 as int);
        let more = rest.take(d2 as int);
        let fraction: Seq<char> = if dot {
            seq!['.'] + more
        } else {
            more
        };
        let m = after_dot + d2;
        if !dot {
            assert(rest.len() == 0 || !is_digit(rest[0]));
        }
        let body = digits + fraction;
        assert(body =~= s.take(m as int));
        if sign is None && d1 == 0 && dot && d2 == 0 {
            assert(s.take(n as int) =~= seq!['.']);
        } else {
            assert forall|i: int| 0 <= i < digits.len() implies is_digit(#[trigger] digits[i]) by {
                assert(digits[i] == s[i]);
            }
            assert forall|i: int| 0 <= i < more.len() implies is_digit(#[trigger] more[i]) by {
                assert(more[i] == rest[i]);
            }
            lemma_unsigned_decimal(digits, more, dot);
            let long = at(s, m as int, 'L');
            let text = sign_text(sign) + body;
            let head: Seq<char> = match sign {
                Some(c) => seq![c] + digits,
                None => digits,
            };
            assert(text =~= head + fraction);
            if sign is None {
                assert(text =~= body);
                if body.len() > 0 {
                    assert(body[0] == s[0]);
                }
            } else {
                assert(text.skip(1) =~= body);
            }
            if long {
                assert(s.take(n as int) =~= body + seq!['L']);
                assert(sign_text(sign) + s.take(n as int) =~= text + seq!['L']);
            } else {
                assert(sign_text(sign) + s.take(n as int) =~= text + Seq::<char>::empty());
            }
            if sign is None && s.take(n as int) == seq!['.'] {
                assert(s.take(n as int)[0] == s[0]);
            }
        }
    }
}

/// The text of a word the tokenizer reads: an identifier start, then
/// identifier characters.
pub open spec fn is_word_text(v: Seq<char>) -> bool {
    &&& v.len() > 0
    &&& is_identifier_start_char(v[0])
    &&& forall|i: int| 0 <= i < v.len() ==> is_identifier_part_char(#[trigger] v[i])
}

/// A lexeme of the shape the tokenizer reads: a word with word text, a number
/// with number text, and never an end marker, `==`, `||`, `|` as an operator,
/// or a word that is not a lexeme word.
pub open spec fn well_formed_lexeme(l: Lexeme) -> bool {
    match l {
        Lexeme::Word(v) => is_word_text(v),
        Lexeme::Other(t) => match t {
            TokenModel::Number(text, _) => is_number_text(text),
            TokenModel::EOF => false,
            TokenModel::DoubleEq => false,
            TokenModel::StringConcat => false,
            TokenModel::Pipe => false,
            TokenModel::Word(_) => false,
            _ => true,
        },
    }
}

/// Every token read has the expected shape: words are identifiers, numbers
/// have number text, and no end marker, `==`, `||` or `|` operator is read.
#[verifier::spinoff_prover]
#[verifier::rlimit(50)]
pub proof fn law_lex_shape(s: Seq<char>)
    ensures
        lex(s) matches Lexed::Emit(l, n) ==> well_formed_lexeme(l),
{
    if s.len() > 0 {
        let c = s[0];
        lemma_span(s.skip(1), CharClass::IdentifierPart);
        let k = span(s.skip(1), CharClass::IdentifierPart);
        let w = s.take((k + 1) as int);
        if is_identifier_start_char(c) {
            assert forall|i: int| 0 <= i < w.len() implies is_identifier_part_char(#[trigger] w[i]) by {
                if i > 0 {
                    assert(w[i] == s.skip(1)[i - 1]);
                }
            }
        }
        if is_digit(c) || c == '.' {
            law_number_shape(s, None);
        }
        if s.len() > 1 && is_digit(s[1]) {
            law_number_shape(s.skip(1), Some('-'));
            law_number_shape(s.skip(1), Some('+'));
        }
    }
}

/// Every token of a run has the expected shape.
pub proof fn law_scan_shape(s: Seq<char>, line: int, col: int)
    ensures
        forall|i: int|
            0 <= i < scan(s, line, col).lexemes.len() ==> well_formed_lexeme(
                #[trigger] scan(s, line, col).lexemes[i],
            ),
    decreases s.len(),
{
    lemma_lex_progress(s);
    law_lex_shape(s);
    if let Lexed::Emit(l, n) = lex(s) {
        let (line2, col2) = advance(l, line, col);
        law_scan_shape(s.skip(n as int), line2, col2);
        let ls = scan(s, line, col).lexemes;
        let rest = scan(s.skip(n as int), line2, col2).lexemes;
        assert forall|i: int| 0 <= i < ls.len() implies well_formed_lexeme(#[trigger] ls[i]) by {
            if i > 0 {
                assert(ls[i] == rest[i - 1]);
            }
        }
    }
}

/// The body of a string quoted by `q` read as units, a backslash with the
/// character after it or else one character: it ends on a whole unit and no
/// unit is the quote.
pub open spec fn is_escaped_body(b: Seq<char>, q: char) -> bool
    decreases b.len(),
{
    if b.len() == 0 {
        true
    } else if b[0] == '\\' {
        b.len() >= 2 && is_escaped_body(b.skip(2), q)
    } else {
        b[0] != q && is_escaped_body(b.skip(1), q)
    }
}

proof fn lemma_quoted_rest_exact(r: Seq<char>, q: char, b: Seq<char>, rest: Seq<char>)
    requires
        q != '\\',
    ensures
        quoted_rest(r, q) matches Some((t, n)) ==> n == t.len() + 1 && n <= r.len() && r.take(
            n as int,
        ) == t + seq![q] && is_escaped_body(t, q),
        is_escaped_body(b, q) ==> quoted_rest(b + seq![q] + rest, q) == Some((b, b.len() + 1)),
    decreases r.len() + b.len(),
{
    if r.len() > 1 && r[0] == '\\' {
        lemma_quoted_rest_exact(r.skip(2), q, Seq::empty(), rest);
        if let Some((t, n)) = quoted_rest(r, q) {
            if let Some((t2, n2)) = quoted_rest(r.skip(2), q) {
                assert(t.skip(2) =~= t2);
            }
            assert(r.take(n as int) =~= seq![r[0], r[1]] + r.skip(2).take(n - 2));
        }
    } else if r.len() > 0 && r[0] != q {
        lemma_quoted_rest_exact(r.skip(1), q, Seq::empty(), rest);
        if let Some((t, n)) = quoted_rest(r, q) {
            if let Some((t2, n2)) = quoted_rest(r.skip(1), q) {
                assert(t.skip(1) =~= t2);
            }
            assert(r.take(n as int) =~= seq![r[0]] + r.skip(1).take(n - 1));
        }
    } else if r.len() > 0 {
        assert(r.take(1) =~= Seq::<char>::empty() + seq![q]);
    }
    let s = b + seq![q] + rest;
    if b.len() > 0 && is_escaped_body(b, q) {
        if b[0] == '\\' {
            lemma_quoted_rest_exact(Seq::empty(), q, b.skip(2), rest);
            assert(s.skip(2) =~= b.skip(2) + seq![q] + rest);
            assert(b =~= seq![s[0], s[1]] + b.skip(2));
        } else {
            lemma_quoted_rest_exact(Seq::empty(), q, b.skip(1), rest);
            assert(s.skip(1) =~= b.skip(1) + seq![q] + rest);
            assert(b =~= seq![s[0]] + b.skip(1));
        }
    } else if b.len() == 0 {
        assert(s[0] == q);
    }
}

/// A quoted string is read exactly when its text has the escaped form: what is
/// read is the opening quote, a body read as units none of which is the quote,
/// and the closing quote; and any such text is read that way, whatever follows.
pub proof fn law_quoted_string_exact(r: Seq<char>, q: char, b: Seq<char>, rest: Seq<char>)
    requires
        q != '\\',
    ensures
        (r.len() > 0 && r[0] == q) ==> (quoted_string(r) matches Some((t, n)) ==> n == t.len()
            + 2 && r.take(n as int) == seq![q] + t + seq![q] && is_escaped_body(t, q)),
        is_escaped_body(b, q) ==> quoted_string(seq![q] + b + seq![q] + rest) == Some(
            (b, b.len() + 2),
        ),
{
    if r.len() > 0 && r[0] == q {
        lemma_quoted_rest_exact(r.skip(1), q, Seq::empty(), rest);
        if let Some((t, n)) = quoted_string(r) {
            assert(r.take(n as int) =~= seq![q] + r.skip(1).take(n - 1));
        }
    }
    let s = seq![q] + b + seq![q] + rest;
    assert(s.skip(1) =~= b + seq![q] + rest);
    lemma_quoted_rest_exact(Seq::empty(), q, b, rest);
}

/// The index of the first `*/` in `r`, if any.
pub open spec fn close_at(r: Seq<char>) -> Option<nat>
    decreases r.len(),
{
    if r.len() < 2 {
        None
    } else if r[0] == '*' && r[1] == '/' {
        Some(0)
    } else {
        match close_at(r.skip(1)) {
            Some(p) => Some(p + 1),
            None => None,
        }
    }
}

proof fn lemma_close_at(r: Seq<char>)
    ensures
        close_at(r) matches Some(p) ==> p + 1 < r.len() && r[p as int] == '*' && r[(p + 1) as int] == '/',
        forall|i: int|
            0 <= i && i + 1 < r.len() && #[trigger] r[i] == '*' && r[i + 1] == '/' ==> (close_at(
                r,
            ) matches Some(p) && p <= i),
    decreases r.len(),
{
    if r.len() >= 2 && !(r[0] == '*' && r[1] == '/') {
        lemma_close_at(r.skip(1));
        assert forall|i: int|
            0 <= i && i + 1 < r.len() && #[trigger] r[i] == '*' && r[i + 1] == '/' implies (close_at(
                r,
            ) matches Some(p) && p <= i) by {
            if i > 0 {
                assert(r.skip(1)[i - 1] == r[i]);
                assert(r.skip(1)[i] == r[i + 1]);
            }
        }
    }
}

#[verifier::spinoff_prover]
#[verifier::rlimit(50)]
proof fn lemma_block_comment_close(r: Seq<char>)
    ensures
        block_comment(r, false) == (match close_at(r) {
            Some(p) => Some((r.take(p as int), p + 2)),
            None => None,
        }),
        block_comment(r, true) == (match close_at(seq!['*'] + r) {
            Some(p) => Some(((seq!['*'] + r).take(p as int), (p + 1) as nat)),
            None => None,
        }),
    decreases r.len(),
{
    let sr = seq!['*'] + r;
    assert(sr.skip(1) =~= r);
    lemma_close_at(r);
    lemma_close_at(sr);
    if r.len() > 0 {
        lemma_block_comment_close(r.skip(1));
        lemma_close_at(r.skip(1));
        let c = r[0];
        let t = r.skip(1);
        if c == '*' {
            assert(seq!['*'] + t =~= r);
        }
        if let Some(p) = close_at(t) {
            assert(r.take((p + 1) as int) =~= seq![c] + t.take(p as int));
            assert(sr.take((p + 2) as int) =~= seq!['*', c] + t.take(p as int));
        }
        if let Some(p) = close_at(r) {
            assert(sr.take((p + 1) as int) =~= seq!['*'] + r.take(p as int));
        }
    }
}

/// A `/* ... */` comment keeps exactly the text before the first `*/` and reads
/// through it; with no `*/` after the opening, reading it fails.
pub proof fn law_block_comment_first_close(r: Seq<char>)
    ensures
        block_comment(r, false) == (match close_at(r) {
            Some(p) => Some((r.take(p as int), p + 2)),
            None => None,
        }),
        close_at(r) matches Some(p) ==> p + 1 < r.len() && r[p as int] == '*' && r[(p + 1) as int] == '/',
        forall|i: int|
            0 <= i && i + 1 < r.len() && #[trigger] r[i] == '*' && r[i + 1] == '/' ==> (close_at(
                r,
            ) matches Some(p) && p <= i),
{
    lemma_block_comment_close(r);
    lemma_close_at(r);
}

/// A `--` comment keeps everything up to and including the first newline, or
/// all the rest when no newline comes.
pub proof fn law_line_comment_first_newline(r: Seq<char>)
    ensures
        (forall|i: int| 0 <= i < r.len() ==> r[i] != '\n') ==> line_comment(r) == (r, r.len()),
        forall|p: int|
            0 <= p < r.len() && #[trigger] r[p] == '\n' && (forall|i: int| 0 <= i < p ==> r[i]
                != '\n') ==> line_comment(r) == (r.take(p + 1), (p + 1) as nat),
{
    lemma_span(r, CharClass::NotNewline);
    let k = span(r, CharClass::NotNewline);
    assert forall|p: int|
        0 <= p < r.len() && #[trigger] r[p] == '\n' && (forall|i: int| 0 <= i < p ==> r[i]
            != '\n') implies line_comment(r) == (r.take(p + 1), (p + 1) as nat) by {
        if p < k {
            assert(CharClass::NotNewline.includes(r[p]));
        } else if p > k {
            assert(r[k as int] == '\n');
        }
    }
    if forall|i: int| 0 <= i < r.len() ==> r[i] != '\n' {
        if k < r.len() {
            assert(r[k as int] == '\n');
        }
    }
}

/// Reading a token fails only on an unterminated string or comment: a string
/// opened by `'` or a backquote, or by `N`, `X` or `x` before `'`, that is not
/// closed; or a `/*` that no `*/` follows.
pub proof fn law_lex_fails_only_when_unterminated(s: Seq<char>)
    ensures
        lex(s) == Lexed::Fail(LexError::UnterminatedString) <==> s.len() > 0 && (((s[0] == '\''
            || s[0] == '`') && quoted_string(s) is None) || ((s[0] == 'N' || s[0] == 'X' || s[0]
            == 'x') && at(s, 1, '\'') && quoted_string(s.skip(1)) is None)),
        lex(s) == Lexed::Fail(LexError::UnterminatedComment) <==> at(s, 0, '/') && at(s, 1, '*')
            && close_at(s.skip(2)) is None,
        lex(s) is Fail ==> lex(s) == Lexed::Fail(LexError::UnterminatedString) || lex(s)
            == Lexed::Fail(LexError::UnterminatedComment),
{
    if s.len() > 1 {
        lemma_block_comment_close(s.skip(2));
    }
}

proof fn lemma_span_extend(u: Seq<char>, t: Seq<char>, class: CharClass)
    ensures
        span(u, class) < u.len() ==> span(u + t, class) == span(u, class),
        span(u, class) == u.len() && u.len() > 0 ==> class.includes(u[u.len() - 1]),
    decreases u.len(),
{
    lemma_span(u, class);
    if u.len() > 0 && class.includes(u[0]) {
        assert((u + t).skip(1) =~= u.skip(1) + t);
        lemma_span_extend(u.skip(1), t, class);
    }
}

proof fn lemma_quoted_rest_extend(u: Seq<char>, t: Seq<char>, q: char)
    ensures
        quoted_rest(u, q) is Some ==> quoted_rest(u + t, q) == quoted_rest(u, q),
    decreases u.len(),
{
    if u.len() > 1 && u[0] == '\\' {
        assert((u + t).skip(2) =~= u.skip(2) + t);
        lemma_quoted_rest_extend(u.skip(2), t, q);
    } else if u.len() > 0 && u[0] != q && u[0] != '\\' {
        assert((u + t).skip(1) =~= u.skip(1) + t);
        lemma_quoted_rest_extend(u.skip(1), t, q);
    }
}

proof fn lemma_block_comment_extend(u: Seq<char>, t: Seq<char>, pending_star: bool)
    ensures
        block_comment(u, pending_star) is Some ==> block_comment(u + t, pending_star)
            == block_comment(u, pending_star),
        block_comment(u, pending_star) matches Some((c, n)) ==> n <= u.len() && u[n - 1] == '/',
    decreases u.len(),
{
    if u.len() > 0 {
        assert((u + t).skip(1) =~= u.skip(1) + t);
        lemma_block_comment_extend(u.skip(1), t, u[0] == '*');
    }
}

#[verifier::spinoff_prover]
#[verifier::rlimit(50)]
proof fn lemma_number_extend(u: Seq<char>, t: Seq<char>, sign: Option<char>)
    requires
        u.len() > 0,
        is_digit(u[0]) || (sign is None && u[0] == '.'),
        sign is None || sign == Some('+') || sign == Some('-'),
    ensures
        number(u, sign).1 < u.len() ==> number(u + t, sign) == number(u, sign),
        number(u, sign).1 == u.len() ==> u[u.len() - 1] != '\n',
{
    let ut = u + t;
    lemma_span(u, CharClass::Digit);
    lemma_span_extend(u, t, CharClass::Digit);
    let d1 = span(u, CharClass::Digit);
    assert(ut.take(d1 as int) =~= u.take(d1 as int));
    if u.len() >= 2 {
        assert(ut.skip(2) =~= u.skip(2) + t);
        lemma_span(u.skip(2), CharClass::HexDigit);
        lemma_span_extend(u.skip(2), t, CharClass::HexDigit);
        assert(ut.skip(2).take(span(u.skip(2), CharClass::HexDigit) as int) =~= u.skip(2).take(
            span(u.skip(2), CharClass::HexDigit) as int,
        ));
    }
    let dot = at(u, d1 as int, '.');
    let after_dot: nat = if dot {
        d1 + 1
    } else {
        d1
    };
    if after_dot <= u.len() {
        let rest = u.skip(after_dot as int);
        assert(ut.skip(after_dot as int) =~= rest + t);
        lemma_span(rest, CharClass::Digit);
        lemma_span_extend(rest, t, CharClass::Digit);
        let d2 = span(rest, CharClass::Digit);
        assert((rest + t).take(d2 as int) =~= rest.take(d2 as int));
    }
    law_number_shape(u, sign);
}

/// Reading a token looks no further than one character past it, so a token
/// that ends before the end of `s`, or at a final newline, is read the same
/// from `s` followed by anything.
#[verifier::spinoff_prover]
#[verifier::rlimit(50)]
proof fn lemma_lex_extend(s: Seq<char>, t: Seq<char>)
    requires
        lex(s) matches Lexed::Emit(l, n) && (n < s.len() || s[s.len() - 1] == '\n'),
    ensures
        lex(s + t) == lex(s),
{
    let st = s + t;
    lemma_lex_progress(s);
    assert(st.skip(1) =~= s.skip(1) + t);
    assert(st[0] == s[0]);
    // words and placeholders
    lemma_span(s.skip(1), CharClass::IdentifierPart);
    lemma_span_extend(s.skip(1), t, CharClass::IdentifierPart);
    lemma_span(s.skip(1), CharClass::AsciiAlphanumeric);
    lemma_span_extend(s.skip(1), t, CharClass::AsciiAlphanumeric);
    let k1 = span(s.skip(1), CharClass::IdentifierPart);
    let k2 = span(s.skip(1), CharClass::AsciiAlphanumeric);
    if k1 < s.len() {
        assert(st.take((k1 + 1) as int) =~= s.take((k1 + 1) as int));
    }
    if k2 < s.len() {
        assert(st.take((k2 + 1) as int) =~= s.take((k2 + 1) as int));
    }
    // quoted strings
    lemma_quoted_rest_extend(s.skip(1), t, s[0]);
    if s.len() > 1 {
        assert(st.skip(2) =~= s.skip(2) + t);
        assert(s.skip(1).skip(1) =~= s.skip(2));
        assert(st.skip(1).skip(1) =~= s.skip(2) + t);
        lemma_quoted_rest_extend(s.skip(2), t, s[1]);
        // comments
        lemma_span(s.skip(2), CharClass::NotNewline);
        lemma_span_extend(s.skip(2), t, CharClass::NotNewline);
        let k3 = span(s.skip(2), CharClass::NotNewline);
        if k3 < s.skip(2).len() {
            assert((s.skip(2) + t).take((k3 + 1) as int) =~= s.skip(2).take((k3 + 1) as int));
        }
        lemma_block_comment_extend(s.skip(2), t, false);
        if is_digit(s[1]) {
            lemma_number_extend(s.skip(1), t, Some('-'));
            lemma_number_extend(s.skip(1), t, Some('+'));
        }
    }
    if is_digit(s[0]) || s[0] == '.' {
        lemma_number_extend(s, t, None);
    }
}

/// A run over a text that ends in a newline and reads without error, followed
/// by more text, reads the tokens of the first text and then those of the
/// second, and stops on the error of the second, if any.
pub proof fn law_scan_concat(a: Seq<char>, b: Seq<char>, line: int, col: int)
    requires
        a.len() > 0,
        a[a.len() - 1] == '\n',
        scan(a, line, col).error is None,
    ensures
        scan(a + b, line, col).lexemes == scan(a, line, col).lexemes + scan(b, 1, 1).lexemes,
        scan(a + b, line, col).error == scan(b, 1, 1).error,
    decreases a.len(),
{
    lemma_lex_progress(a);
    if let Lexed::Emit(l, n) = lex(a) {
        lemma_lex_extend(a, b);
        let (line2, col2) = advance(l, line, col);
        lemma_lex_progress(a + b);
        if n < a.len() {
            assert((a + b).skip(n as int) =~= a.skip(n as int) + b);
            law_scan_concat(a.skip(n as int), b, line2, col2);
            let la = scan(a, line, col).lexemes;
            let lr = scan(a.skip(n as int), line2, col2).lexemes;
            assert(seq![l] + (lr + scan(b, 1, 1).lexemes) =~= (seq![l] + lr) + scan(b, 1, 1).lexemes);
        } else {
            assert((a + b).skip(n as int) =~= b);
            assert(a.skip(n as int).len() == 0);
            law_scan_independent_of_counters(b, line2, col2, 1, 1);
            assert(seq![l] + Seq::<Lexeme>::empty() =~= seq![l]);
        }
    }
}

/// Tokenizing the same query twice, from any counters (a second call on the
/// same tokenizer, say), succeeds or fails alike, with the same tokens or the
/// same message.
pub proof fn law_tokenize_repeatable(
    before1: TokenizerState,
    after1: TokenizerState,
    r1: Result<Vec<Token>, TokenizerError>,
    before2: TokenizerState,
    after2: TokenizerState,
    r2: Result<Vec<Token>, TokenizerError>,
)
    requires
        tokenized(before1, after1, r1),
        tokenized(before2, after2, r2),
        before1.query == before2.query,
    ensures
        r1 is Ok <==> r2 is Ok,
        r1 matches Ok(t1) ==> r2 matches Ok(t2) && models(t1@) == models(t2@),
        r1 matches Err(e1) ==> r2 matches Err(e2) && e1.message@ == e2.message@,
{
    law_scan_independent_of_counters(
        before1.query,
        before1.line as int,
        before1.col as int,
        before2.line as int,
        before2.col as int,
    );
}

/// After an unsigned `0x`, a hexadecimal literal takes the whole run of
/// hexadecimal digits of either case that follows.
pub proof fn law_hex_literal(h: Seq<char>, rest: Seq<char>)
    requires
        forall|i: int|
            0 <= i < h.len() ==> ('0' <= #[trigger] h[i] && h[i] <= '9') || ('A' <= h[i] && h[i]
                <= 'F') || ('a' <= h[i] && h[i] <= 'f'),
        rest.len() == 0 || !(('0' <= rest[0] && rest[0] <= '9') || ('A' <= rest[0] && rest[0]
            <= 'F') || ('a' <= rest[0] && rest[0] <= 'f')),
    ensures
        lex(seq!['0', 'x'] + h + rest) == emit(TokenModel::HexStringLiteral(h), h.len() + 2),
{
    let s = seq!['0', 'x'] + h + rest;
    assert(s[0] == '0');
    assert(s[1] == 'x');
    lemma_span(s, CharClass::Digit);
    assert(s.skip(1)[0] == 'x');
    assert(span(s, CharClass::Digit) == 1);
    assert(s.skip(2) =~= h + rest);
    assert forall|i: int| 0 <= i < h.len() implies CharClass::HexDigit.includes(#[trigger] h[i]) by {}
    lemma_span_of_run(h, rest, CharClass::HexDigit);
    assert((h + rest).take(h.len() as int) =~= h);
}

/// The keyword table: each of the sixteen keywords, spelled in capitals, is its
/// own keyword, and any other text is no keyword.
pub proof fn law_keyword_table(u: Seq<char>)
    ensures
        keyword_of_uppercase(seq!['A', 'L', 'T', 'E', 'R']) == Keyword::Alter,
        keyword_of_uppercase(seq!['C', 'R', 'E', 'A', 'T', 'E']) == Keyword::Create,
        keyword_of_uppercase(seq!['I', 'N', 'S', 'E', 'R', 'T']) == Keyword::Insert,
        keyword_of_uppercase(seq!['I', 'N', 'T', 'O']) == Keyword::Into,
        keyword_of_uppercase(seq!['C', 'O', 'P', 'Y']) == Keyword::Copy,
        keyword_of_uppercase(seq!['D', 'A', 'T', 'A', 'B', 'A', 'S', 'E']) == Keyword::Database,
        keyword_of_uppercase(seq!['T', 'A', 'B', 'L', 'E']) == Keyword::Table,
        keyword_of_uppercase(seq!['F', 'R', 'O', 'M']) == Keyword::From,
        keyword_of_uppercase(seq!['N', 'O', 'T']) == Keyword::Not,
        keyword_of_uppercase(seq!['N', 'U', 'L', 'L']) == Keyword::Null,
        keyword_of_uppercase(seq!['A', 'D', 'D']) == Keyword::Add,
        keyword_of_uppercase(seq!['C', 'O', 'N', 'S', 'T', 'R', 'A', 'I', 'N', 'T']) == Keyword::Constraint,
        keyword_of_uppercase(seq!['P', 'R', 'I', 'M', 'A', 'R', 'Y']) == Keyword::Primary,
        keyword_of_uppercase(seq!['F', 'O', 'R', 'E', 'I', 'G', 'N']) == Keyword::Foreign,
        keyword_of_uppercase(seq!['R', 'E', 'F', 'E', 'R', 'E', 'N', 'C', 'E', 'S']) == Keyword::References,
        keyword_of_uppercase(seq!['K', 'E', 'Y']) == Keyword::Key,
        keyword_of_uppercase(u) == Keyword::NoKeyword <==> (u != seq!['A', 'L', 'T', 'E', 'R'] && u != seq!['C', 'R', 'E', 'A', 'T', 'E'] && u != seq!['I', 'N', 'S', 'E', 'R', 'T'] && u != seq!['I', 'N', 'T', 'O'] && u != seq!['C', 'O', 'P', 'Y'] && u != seq!['D', 'A', 'T', 'A', 'B', 'A', 'S', 'E'] && u != seq!['T', 'A', 'B', 'L', 'E'] && u != seq!['F', 'R', 'O', 'M'] && u != seq!['N', 'O', 'T'] && u != seq!['N', 'U', 'L', 'L'] && u != seq!['A', 'D', 'D'] && u != seq!['C', 'O', 'N', 'S', 'T', 'R', 'A', 'I', 'N', 'T'] && u != seq!['P', 'R', 'I', 'M', 'A', 'R', 'Y'] && u != seq!['F', 'O', 'R', 'E', 'I', 'G', 'N'] && u != seq!['R', 'E', 'F', 'E', 'R', 'E', 'N', 'C', 'E', 'S'] && u != seq!['K', 'E', 'Y']),
{
    reveal_strlit("ALTER");
    assert("ALTER"@ =~= seq!['A', 'L', 'T', 'E', 'R']);
    reveal_strlit("CREATE");
    assert("CREATE"@ =~= seq!['C', 'R', 'E', 'A', 'T', 'E']);
    reveal_strlit("INSERT");
    assert("INSERT"@ =~= seq!['I', 'N', 'S', 'E', 'R', 'T']);
    reveal_strlit("INTO");
    assert("INTO"@ =~= seq!['I', 'N', 'T', 'O']);
    reveal_strlit("COPY");
    assert("COPY"@ =~= seq!['C', 'O', 'P', 'Y']);
    reveal_strlit("DATABASE");
    assert("DATABASE"@ =~= seq!['D', 'A', 'T', 'A', 'B', 'A', 'S', 'E']);
    reveal_strlit("TABLE");
    assert("TABLE"@ =~= seq!['T', 'A', 'B', 'L', 'E']);
    reveal_strlit("FROM");
    assert("FROM"@ =~= seq!['F', 'R', 'O', 'M']);
    reveal_strlit("NOT");
    assert("NOT"@ =~= seq!['N', 'O', 'T']);
    reveal_strlit("NULL");
    assert("NULL"@ =~= seq!['N', 'U', 'L', 'L']);
    reveal_strlit("ADD");
    assert("ADD"@ =~= seq!['A', 'D', 'D']);
    reveal_strlit("CONSTRAINT");
    assert("CONSTRAINT"@ =~= seq!['C', 'O', 'N', 'S', 'T', 'R', 'A', 'I', 'N', 'T']);
    reveal_strlit("PRIMARY");
    assert("PRIMARY"@ =~= seq!['P', 'R', 'I', 'M', 'A', 'R', 'Y']);
    reveal_strlit("FOREIGN");
    assert("FOREIGN"@ =~= seq!['F', 'O', 'R', 'E', 'I', 'G', 'N']);
    reveal_strlit("REFERENCES");
    assert("REFERENCES"@ =~= seq!['R', 'E', 'F', 'E', 'R', 'E', 'N', 'C', 'E', 'S']);
    reveal_strlit("KEY");
    assert("KEY"@ =~= seq!['K', 'E', 'Y']);
}

/// `next_paren` finds the first `(` (when `open`) or `)` (otherwise) at or
/// after `from`, or gives the length when there is none.
pub proof fn law_next_paren(ts: Seq<Token>, from: int, open: bool)
    requires
        0 <= from <= ts.len(),
    ensures
        from <= next_paren(ts, from, open) <= ts.len(),
        forall|i: int|
            from <= i < next_paren(ts, from, open) ==> !(if open {
                #[trigger] ts[i] is LParen
            } else {
                ts[i] is RParen
            }),
        next_paren(ts, from, open) < ts.len() ==> (if open {
            ts[next_paren(ts, from, open)] is LParen
        } else {
            ts[next_paren(ts, from, open)] is RParen
        }),
    decreases ts.len() - from,
{
    if from < ts.len() && !(if open {
        ts[from] is LParen
    } else {
        ts[from] is RParen
    }) {
        law_next_paren(ts, from + 1, open);
    }
}

proof fn lemma_names_in_filter_map(ts: Seq<Token>)
    ensures
        names_in(ts) == ts.filter_map(
            |t: Token|
                match t {
                    Token::Word(w) => Some(w.value@),
                    Token::SingleQuotedString(s) => Some(s@),
                    _ => None,
                },
        ),
    decreases ts.len(),
{
    if ts.len() > 0 {
        lemma_names_in_filter_map(ts.drop_last());
        let rest = names_in(ts.drop_last());
        if let Some(n) = column_name(ts.last()) {
            assert(rest.push(n) =~= rest + seq![n]);
        }
    }
}

/// The column names of an `INSERT INTO` statement are the texts of all the
/// words and single quoted strings from the first `(` to the next `)`, in
/// order; there are none when the tokens do not start `INSERT`, a token, `INTO`.
pub proof fn law_column_names(ts: Seq<Token>)
    ensures
        ({
            &&& ts.len() > 2
            &&& ts[0] matches Token::Word(w0)
            &&& w0.keyword == Keyword::Insert
            &&& ts[2] matches Token::Word(w2)
            &&& w2.keyword == Keyword::Into
        }) ==> column_names(ts) == ts.subrange(
            next_paren(ts, 0, true),
            next_paren(ts, next_paren(ts, 0, true), false),
        ).filter_map(
            |t: Token|
                match t {
                    Token::Word(w) => Some(w.value@),
                    Token::SingleQuotedString(s) => Some(s@),
                    _ => None,
                },
        ),
        !({
            &&& ts.len() > 2
            &&& ts[0] matches Token::Word(w0)
            &&& w0.keyword == Keyword::Insert
            &&& ts[2] matches Token::Word(w2)
            &&& w2.keyword == Keyword::Into
        }) ==> column_names(ts).len() == 0,
{
    law_next_paren(ts, 0, true);
    law_next_paren(ts, next_paren(ts, 0, true), false);
    lemma_names_in_filter_map(
        ts.subrange(next_paren(ts, 0, true), next_paren(ts, next_paren(ts, 0, true), false)),
    );
}

proof fn lemma_values_in_filter_map(ts: Seq<Token>)
    ensures
        values_in(ts) == ts.filter_map(
            |t: Token|
                if t is Comma || t is Whitespace || t is LParen || t is RParen {
                    None
                } else {
                    Some(t)
                },
        ),
    decreases ts.len(),
{
    if ts.len() > 0 {
        lemma_values_in_filter_map(ts.drop_last());
        let rest = values_in(ts.drop_last());
        assert(rest.push(ts.last()) =~= rest + seq![ts.last()]);
    }
}

/// The column values of an `INSERT INTO` statement are all the tokens, of
/// whatever kind, other than commas, whitespace and parentheses, from the first
/// `(` after the first `)` to the next `)`, in order; there are none when the
/// tokens do not start `INSERT`, a token, `INTO`.
pub proof fn law_column_values(ts: Seq<Token>)
    ensures
        ({
            &&& ts.len() > 2
            &&& ts[0] matches Token::Word(w0)
            &&& w0.keyword == Keyword::Insert
            &&& ts[2] matches Token::Word(w2)
            &&& w2.keyword == Keyword::Into
        }) ==> column_values(ts) == ts.subrange(
            next_paren(ts, next_paren(ts, 0, false), true),
            next_paren(ts, next_paren(ts, next_paren(ts, 0, false), true), false),
        ).filter_map(
            |t: Token|
                if t is Comma || t is Whitespace || t is LParen || t is RParen {
                    None
                } else {
                    Some(t)
                },
        ),
        !({
            &&& ts.len() > 2
            &&& ts[0] matches Token::Word(w0)
            &&& w0.keyword == Keyword::Insert
            &&& ts[2] matches Token::Word(w2)
            &&& w2.keyword == Keyword::Into
        }) ==> column_values(ts).len() == 0,
{
    let c1 = next_paren(ts, 0, false);
    law_next_paren(ts, 0, false);
    law_next_paren(ts, c1, true);
    let o = next_paren(ts, c1, true);
    law_next_paren(ts, o, false);
    lemma_values_in_filter_map(ts.subrange(o, next_paren(ts, o, false)));
}

/// Trimming removes exactly the longest run of whitespace and comment tokens,
/// of any kind, at the beginning: everything before the cut is whitespace, and
/// what remains does not start with whitespace.
pub proof fn law_trim_removes_leading_whitespace(ts: Seq<Token>)
    ensures
        leading_whitespace(models(ts)) <= ts.len(),
        forall|i: int| 0 <= i < leading_whitespace(models(ts)) ==> #[trigger] ts[i] is Whitespace,
        leading_whitespace(models(ts)) < ts.len() ==> !(ts[leading_whitespace(models(ts)) as int] is Whitespace),
{
    lemma_leading_run(models(ts));
    assert forall|i: int| 0 <= i < leading_whitespace(models(ts)) implies #[trigger] ts[i] is Whitespace by {
        assert(models(ts)[i] == ts[i]@);
    }
    if leading_whitespace(models(ts)) < ts.len() {
        assert(models(ts)[leading_whitespace(models(ts)) as int] == ts[leading_whitespace(models(ts)) as int]@);
    }
}

proof fn lemma_leading_run(ms: Seq<TokenModel>)
    ensures
        leading_whitespace(ms) <= ms.len(),
        forall|i: int| 0 <= i < leading_whitespace(ms) ==> #[trigger] ms[i] is Whitespace,
        leading_whitespace(ms) < ms.len() ==> !(ms[leading_whitespace(ms) as int] is Whitespace),
    decreases ms.len(),
{
    if ms.len() > 0 && is_whitespace_model(ms[0]) {
        lemma_leading_run(ms.skip(1));
        assert forall|i: int| 0 <= i < leading_whitespace(ms) implies #[trigger] ms[i] is Whitespace by {
            if i > 0 {
                assert(ms[i] == ms.skip(1)[i - 1]);
            }
        }
        if leading_whitespace(ms) < ms.len() {
            assert(ms[leading_whitespace(ms) as int] == ms.skip(1)[leading_whitespace(ms.skip(1)) as int]);
        }
    }
}

/// The one-character tokens: each of these characters, whatever follows it,
/// is read alone as its token.
pub proof fn law_single_char_tokens(rest: Seq<char>)
    ensures
        lex(seq![' '] + rest) == emit(TokenModel::Whitespace(WhitespaceModel::Space), 1),
        lex(seq!['\t'] + rest) == emit(TokenModel::Whitespace(WhitespaceModel::Tab), 1),
        lex(seq!['\n'] + rest) == emit(TokenModel::Whitespace(WhitespaceModel::Newline), 1),
        lex(seq!['('] + rest) == emit(TokenModel::LParen, 1),
        lex(seq![')'] + rest) == emit(TokenModel::RParen, 1),
        lex(seq![','] + rest) == emit(TokenModel::Comma, 1),
        lex(seq!['*'] + rest) == emit(TokenModel::Mul, 1),
        lex(seq!['%'] + rest) == emit(TokenModel::Mod, 1),
        lex(seq![';'] + rest) == emit(TokenModel::SemiColon, 1),
        lex(seq!['\\'] + rest) == emit(TokenModel::Backslash, 1),
        lex(seq!['['] + rest) == emit(TokenModel::LBracket, 1),
        lex(seq![']'] + rest) == emit(TokenModel::RBracket, 1),
        lex(seq!['&'] + rest) == emit(TokenModel::Ampersand, 1),
        lex(seq!['^'] + rest) == emit(TokenModel::Caret, 1),
        lex(seq!['{'] + rest) == emit(TokenModel::LBrace, 1),
        lex(seq!['}'] + rest) == emit(TokenModel::RBrace, 1),
        lex(seq!['#'] + rest) == emit(TokenModel::Sharp, 1),
        lex(seq!['@'] + rest) == emit(TokenModel::AtSign, 1),
        lex(seq!['?'] + rest) == emit(TokenModel::Placeholder(seq!['?']), 1),
        lex(seq!['|'] + rest) == emit(TokenModel::Char('|'), 1),
{
}

/// A carriage return, alone or before a newline, is one newline token.
#[verifier::spinoff_prover]
#[verifier::rlimit(50)]
pub proof fn law_operator_tokens_cr(rest: Seq<char>)
    ensures
        lex(seq!['\r', '\n'] + rest) == emit(TokenModel::Whitespace(WhitespaceModel::Newline), 2),
        (rest.len() == 0 || (rest[0] != '\n')) ==> lex(seq!['\r'] + rest) == emit(TokenModel::Whitespace(WhitespaceModel::Newline), 1),
{
}

/// `=>` is an arrow; `=` otherwise is equality.
#[verifier::spinoff_prover]
#[verifier::rlimit(50)]
pub proof fn law_operator_tokens_eq(rest: Seq<char>)
    ensures
        (rest.len() == 0 || (rest[0] != '>')) ==> lex(seq!['='] + rest) == emit(TokenModel::Eq, 1),
        lex(seq!['=', '>'] + rest) == emit(TokenModel::RArrow, 2),
{
}

/// The operators that start with `!`: the longest of `!=`, `!!`, `!~*`, `!~`, `!` is read.
#[verifier::spinoff_prover]
#[verifier::rlimit(50)]
pub proof fn law_operator_tokens_bang(rest: Seq<char>)
    ensures
        (rest.len() == 0 || (rest[0] != '=' && rest[0] != '!' && rest[0] != '~')) ==> lex(seq!['!'] + rest) == emit(TokenModel::ExclamationMark, 1),
        lex(seq!['!', '='] + rest) == emit(TokenModel::Neq, 2),
        lex(seq!['!', '!'] + rest) == emit(TokenModel::DoubleExclamationMark, 2),
        lex(seq!['!', '~', '*'] + rest) == emit(TokenModel::ExclamationMarkTildeAsterisk, 3),
        (rest.len() == 0 || (rest[0] != '*')) ==> lex(seq!['!', '~'] + rest) == emit(TokenModel::ExclamationMarkTilde, 2),
{
}

/// The operators that start with `<`: the longest of `<=>`, `<=`, `<>`, `<<`, `<` is read.
#[verifier::spinoff_prover]
#[verifier::rlimit(50)]
pub proof fn law_operator_tokens_lt(rest: Seq<char>)
    ensures
        (rest.len() == 0 || (rest[0] != '=' && rest[0] != '>' && rest[0] != '<')) ==> lex(seq!['<'] + rest) == emit(TokenModel::Lt, 1),
        lex(seq!['<', '=', '>'] + rest) == emit(TokenModel::Spaceship, 3),
        (rest.len() == 0 || (rest[0] != '>')) ==> lex(seq!['<', '='] + rest) == emit(TokenModel::LtEq, 2),
        lex(seq!['<', '>'] + rest) == emit(TokenModel::Neq, 2),
        lex(seq!['<', '<'] + rest) == emit(TokenModel::ShiftLeft, 2),
{
}

/// The operators that start with `>`: the longest of `>=`, `>>`, `>` is read.
#[verifier::spinoff_prover]
#[verifier::rlimit(50)]
pub proof fn law_operator_tokens_gt(rest: Seq<char>)
    ensures
        (rest.len() == 0 || (rest[0] != '=' && rest[0] != '>')) ==> lex(seq!['>'] + rest) == emit(TokenModel::Gt, 1),
        lex(seq!['>', '='] + rest) == emit(TokenModel::GtEq, 2),
        lex(seq!['>', '>'] + rest) == emit(TokenModel::ShiftRight, 2),
{
}

/// `::` is one token; `:` otherwise is a colon.
#[verifier::spinoff_prover]
#[verifier::rlimit(50)]
pub proof fn law_operator_tokens_colon(rest: Seq<char>)
    ensures
        (rest.len() == 0 || (rest[0] != ':')) ==> lex(seq![':'] + rest) == emit(TokenModel::Colon, 1),
        lex(seq![':', ':'] + rest) == emit(TokenModel::DoubleColon, 2),
{
}

/// `~*` is one token; `~` otherwise is a tilde.
#[verifier::spinoff_prover]
#[verifier::rlimit(50)]
pub proof fn law_operator_tokens_tilde(rest: Seq<char>)
    ensures
        (rest.len() == 0 || (rest[0] != '*')) ==> lex(seq!['~'] + rest) == emit(TokenModel::Tilde, 1),
        lex(seq!['~', '*'] + rest) == emit(TokenModel::TildeAsterisk, 2),
{
}

/// `/` not before `*` is division; `-` and `+` not before a digit (nor `-` before `-`) are
/// the minus and plus operators.
#[verifier::spinoff_prover]
#[verifier::rlimit(50)]
pub proof fn law_operator_tokens_sign(rest: Seq<char>)
    ensures
        (rest.len() == 0 || (rest[0] != '*')) ==> lex(seq!['/'] + rest) == emit(TokenModel::Div, 1),
        (rest.len() == 0 || !(rest[0] == '-' || ('0' <= rest[0] && rest[0] <= '9'))) ==> lex(seq!['-'] + rest) == emit(TokenModel::Minus, 1),
        (rest.len() == 0 || !('0' <= rest[0] && rest[0] <= '9')) ==> lex(seq!['+'] + rest) == emit(TokenModel::Plus, 1),
{
}

/// Any character that starts no token of its own, is not a letter, digit or
/// whitespace, is read alone as a `Char` token.
pub proof fn law_other_char(c: char, rest: Seq<char>)
    requires
        !(('a' <= c && c <= 'z') || ('A' <= c && c <= 'Z') || ('0' <= c && c <= '9') || c == ' ' || c == '\t' || c == '\n' || c == '\r' || c == '_' || c == '.' || c == '\'' || c == '`' || c == '(' || c == ')' || c == ',' || c == '-' || c == '/' || c == '+' || c == '*' || c == '%' || c == '=' || c == '!' || c == '<' || c == '>' || c == ':' || c == ';' || c == '\\' || c == '[' || c == ']' || c == '&' || c == '^' || c == '{' || c == '}' || c == '~' || c == '#' || c == '@' || c == '?' || c == '$'),
    ensures
        lex(seq![c] + rest) == emit(TokenModel::Char(c), 1),
{
}

/// A signed integer is read back as written: `+` or `-` directly before digits,
/// followed by something that cannot continue them, is read as a number with
/// the sign and the digits, marked long when an `L` follows.
pub proof fn law_signed_integer_read_back(sign: char, d: Seq<char>, rest: Seq<char>)
    requires
        sign == '+' || sign == '-',
        d.len() > 0,
        forall|i: int| 0 <= i < d.len() ==> '0' <= #[trigger] d[i] && d[i] <= '9',
        rest.len() == 0 || !(('0' <= rest[0] && rest[0] <= '9') || rest[0] == '.'),
    ensures
        lex(seq![sign] + d + rest) == emit(
            TokenModel::Number(seq![sign] + d, rest.len() > 0 && rest[0] == 'L'),
            if rest.len() > 0 && rest[0] == 'L' {
                d.len() + 2
            } else {
                d.len() + 1
            },
        ),
{
    let s = seq![sign] + d + rest;
    let u = d + rest;
    assert(s.skip(1) =~= u);
    assert(s[1] == d[0]);
    assert forall|i: int| 0 <= i < d.len() implies CharClass::Digit.includes(#[trigger] d[i]) by {}
    lemma_span_of_run(d, rest, CharClass::Digit);
    assert(u.skip(d.len() as int) =~= rest);
    assert(u.take(d.len() as int) =~= d);
    lemma_span_of_run(Seq::empty(), rest, CharClass::Digit);
    assert(Seq::<char>::empty() + rest =~= rest);
    assert(rest.take(0) =~= Seq::<char>::empty());
    assert(seq![sign] + d + Seq::<char>::empty() =~= seq![sign] + d);
}

/// A decimal is read back as written: digits, a `.` and digits, with at least
/// one digit, and then something that is not a digit, are read as a number with
/// that text, marked long when an `L` follows.
pub proof fn law_decimal_read_back(d1: Seq<char>, d2: Seq<char>, rest: Seq<char>)
    requires
        d1.len() + d2.len() > 0,
        forall|i: int| 0 <= i < d1.len() ==> '0' <= #[trigger] d1[i] && d1[i] <= '9',
        forall|i: int| 0 <= i < d2.len() ==> '0' <= #[trigger] d2[i] && d2[i] <= '9',
        rest.len() == 0 || !('0' <= rest[0] && rest[0] <= '9'),
    ensures
        lex(d1 + seq!['.'] + d2 + rest) == emit(
            TokenModel::Number(d1 + seq!['.'] + d2, rest.len() > 0 && rest[0] == 'L'),
            if rest.len() > 0 && rest[0] == 'L' {
                d1.len() + d2.len() + 2
            } else {
                d1.len() + d2.len() + 1
            },
        ),
{
    let s = d1 + seq!['.'] + d2 + rest;
    let after = seq!['.'] + d2 + rest;
    assert(s =~= d1 + after);
    assert forall|i: int| 0 <= i < d1.len() implies CharClass::Digit.includes(#[trigger] d1[i]) by {}
    assert forall|i: int| 0 <= i < d2.len() implies CharClass::Digit.includes(#[trigger] d2[i]) by {}
    lemma_span_of_run(d1, after, CharClass::Digit);
    lemma_span_of_run(d2, rest, CharClass::Digit);
    assert(s[d1.len() as int] == '.');
    assert(s.skip((d1.len() + 1) as int) =~= d2 + rest);
    assert((d2 + rest).take(d2.len() as int) =~= d2);
    assert(s.take(d1.len() as int) =~= d1);
    assert(d1 + (seq!['.'] + d2) =~= d1 + seq!['.'] + d2);
    if d1.len() > 0 {
        assert(s[0] == d1[0]);
    } else {
        assert(s[0] == '.');
    }
    assert(s[(d1.len() + d2.len() + 1) as int] == rest[0] || rest.len() == 0);
}

/// A `$` placeholder is read back as written: `$` and the ASCII letters and
/// digits after it.
pub proof fn law_placeholder_read_back(a: Seq<char>, rest: Seq<char>)
    requires
        forall|i: int|
            0 <= i < a.len() ==> ('a' <= #[trigger] a[i] && a[i] <= 'z') || ('A' <= a[i] && a[i]
                <= 'Z') || ('0' <= a[i] && a[i] <= '9'),
        rest.len() == 0 || !(('a' <= rest[0] && rest[0] <= 'z') || ('A' <= rest[0] && rest[0]
            <= 'Z') || ('0' <= rest[0] && rest[0] <= '9')),
    ensures
        lex(seq!['$'] + a + rest) == emit(TokenModel::Placeholder(seq!['$'] + a), a.len() + 1),
{
    let s = seq!['$'] + a + rest;
    assert(s.skip(1) =~= a + rest);
    assert forall|i: int| 0 <= i < a.len() implies CharClass::AsciiAlphanumeric.includes(
        #[trigger] a[i],
    ) by {}
    lemma_span_of_run(a, rest, CharClass::AsciiAlphanumeric);
    assert(s.take((a.len() + 1) as int) =~= seq!['$'] + a);
}

/// A `--` comment token holds the text after `--` up to and including the
/// first newline.
#[verifier::spinoff_prover]
#[verifier::rlimit(50)]
pub proof fn law_line_comment_token(c: Seq<char>, rest: Seq<char>)
    requires
        forall|i: int| 0 <= i < c.len() ==> #[trigger] c[i] != '\n',
    ensures
        lex(seq!['-', '-'] + c + seq!['\n'] + rest) == emit(
            TokenModel::Whitespace(
                WhitespaceModel::SingleLineComment { comment: c + seq!['\n'], prefix: seq!['-', '-'] },
            ),
            c.len() + 3,
        ),
{
    let s = seq!['-', '-'] + c + seq!['\n'] + rest;
    let r = c + seq!['\n'] + rest;
    assert(s[0] == '-' && s[1] == '-');
    assert(s.skip(2) =~= r);
    law_line_comment_first_newline(r);
    assert(r[c.len() as int] == '\n');
    assert(r.take((c.len() + 1) as int) =~= c + seq!['\n']);
    assert(line_comment(r) == (c + seq!['\n'], c.len() + 1));
}

/// A `--` comment with no newline after it holds all the rest of the text.
#[verifier::spinoff_prover]
#[verifier::rlimit(50)]
pub proof fn law_line_comment_token_at_end(c: Seq<char>)
    requires
        forall|i: int| 0 <= i < c.len() ==> #[trigger] c[i] != '\n',
    ensures
        lex(seq!['-', '-'] + c) == emit(
            TokenModel::Whitespace(
                WhitespaceModel::SingleLineComment { comment: c, prefix: seq!['-', '-'] },
            ),
            c.len() + 2,
        ),
{
    let s = seq!['-', '-'] + c;
    assert(s[0] == '-' && s[1] == '-');
    assert(s.skip(2) =~= c);
    law_line_comment_first_newline(c);
    assert(line_comment(c) == (c, c.len()));
}

/// A `/* ... */` comment token holds the text between `/*` and the first `*/`.
pub proof fn law_block_comment_token(c: Seq<char>, rest: Seq<char>)
    requires
        forall|i: int| 0 <= i && i + 1 < c.len() ==> !(#[trigger] c[i] == '*' && c[i + 1] == '/'),
    ensures
        lex(seq!['/', '*'] + c + seq!['*', '/'] + rest) == emit(
            TokenModel::Whitespace(WhitespaceModel::MultiLineComment(c)),
            c.len() + 4,
        ),
{
    let s = seq!['/', '*'] + c + seq!['*', '/'] + rest;
    let r = c + seq!['*', '/'] + rest;
    assert(s.skip(2) =~= r);
    law_block_comment_first_close(r);
    let n = c.len() as int;
    assert(r[n] == '*' && r[n + 1] == '/');
    if let Some(p) = close_at(r) {
        if p < n {
            if p + 1 < n {
                assert(c[p as int] == '*' && c[(p + 1) as int] == '/');
            } else {
                assert(r[(p + 1) as int] == '*');
            }
        }
    }
    assert(r.take(n) =~= c);
}

/// `N` before a quoted string opens a national string literal, and `X` or `x`
/// a hexadecimal one, holding the body as written.
pub proof fn law_prefixed_string_read_back(p: char, b: Seq<char>, rest: Seq<char>)
    requires
        p == 'N' || p == 'X' || p == 'x',
    ensures
        lex(seq![p, '\''] + escaped(b, '\'') + seq!['\''] + rest) == emit(
            if p == 'N' {
                TokenModel::NationalStringLiteral(escaped(b, '\''))
            } else {
                TokenModel::HexStringLiteral(escaped(b, '\''))
            },
            escaped(b, '\'').len() + 3,
        ),
{
    let s = seq![p, '\''] + escaped(b, '\'') + seq!['\''] + rest;
    assert(s.skip(1) =~= seq!['\''] + escaped(b, '\'') + seq!['\''] + rest);
    law_quoted_string_read_back(b, '\'', rest);
}

/// A word token holds its text and quote style; a quoted word is never a
/// keyword, and an unquoted one is the keyword its uppercase form spells.
pub proof fn law_make_word(v: Seq<char>, quote_style: Option<char>)
    ensures
        quote_style is Some ==> word_token(v, quote_style) == TokenModel::Word(
            WordModel { value: v, quote_style, keyword: Keyword::NoKeyword },
        ),
        quote_style is None ==> word_token(v, quote_style) == TokenModel::Word(
            WordModel {
                value: v,
                quote_style: None,
                keyword: keyword_of_uppercase(unicode_uppercase(v)),
            },
        ),
{
}

/// A position holds a keyword exactly when it lies in the list and holds a
/// word whose keyword it is.
pub proof fn law_keyword_at(ts: Seq<Token>, pos: int, keyword: Keyword)
    ensures
        keyword_at(ts, pos, keyword) <==> (0 <= pos < ts.len() && (ts[pos] matches Token::Word(w)
            && w.keyword == keyword)),
{
}

/// One step of a run: after a token is read, the run goes on from the rest of
/// the text with the line counter one up and the column back at 1 after a
/// newline, the column four on after a tab, and one on after any other token.
pub proof fn law_scan_step(s: Seq<char>, line: int, col: int)
    ensures
        lex(s) matches Lexed::Emit(l, n) ==> {
            let next = if l == Lexeme::Other(TokenModel::Whitespace(WhitespaceModel::Newline)) {
                (line + 1, 1int)
            } else if l == Lexeme::Other(TokenModel::Whitespace(WhitespaceModel::Tab)) {
                (line, col + 4)
            } else {
                (line, col + 1)
            };
            let rest = scan(s.skip(n as int), next.0, next.1);
            scan(s, line, col) == (Scan { lexemes: seq![l] + rest.lexemes, ..rest })
        },
        lex(s) is End ==> scan(s, line, col) == (Scan {
            lexemes: Seq::empty(),
            error: None,
            line,
            col,
        }),
        lex(s) matches Lexed::Fail(e) ==> scan(s, line, col) == (Scan {
            lexemes: Seq::empty(),
            error: Some(e),
            line,
            col,
        }),
{
}

} // verus!
