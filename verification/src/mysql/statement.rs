use vstd::prelude::*;
use super::token::{Keyword, Token, TokenModel};
use super::lexer::{scan, counters_fit, lexeme_token, Lexeme};
use super::tokenizer::Tokenizer;

verus! {

/// The models of a list of tokens.
pub open spec fn models(ts: Seq<Token>) -> Seq<TokenModel> {
    ts.map_values(|t: Token| t@)
}

/// `ts[pos]` is a word whose keyword is `keyword`.
pub open spec fn keyword_at(ts: Seq<Token>, pos: int, keyword: Keyword) -> bool {
    &&& 0 <= pos < ts.len()
    &&& ts[pos] matches Token::Word(w)
    &&& w.keyword == keyword
}

/// Whether the token at `pos` is a word whose keyword is `keyword`.
pub fn match_keyword_at_position(keyword: Keyword, tokens: &Vec<Token>, pos: usize) -> (r: bool)
    ensures
        r == keyword_at(tokens@, pos as int, keyword),
{
    if pos < tokens.len() {
        return match &tokens[pos] {
            Token::Word(word) => word.keyword == keyword,
            _ => false,
        };
    }
    false
}

/// The text of the word at `pos`, if there is a word there.
pub fn get_word_value_at_position(tokens: &Vec<Token>, pos: usize) -> (r: Option<&str>)
    ensures
        match r {
            Some(v) => {
                &&& pos < tokens@.len()
                &&& tokens@[pos as int] matches Token::Word(w)
                &&& v@ == w.value@
            },
            None => !(pos < tokens@.len() && tokens@[pos as int] is Word),
        },
{
    if pos < tokens.len() {
        return match &tokens[pos] {
            Token::Word(word) => Some(word.value.as_str()),
            _ => None,
        };
    }
    None
}

/// The text of the single quoted string at `pos`, if there is one there.
pub fn get_single_quoted_string_value_at_position(tokens: &Vec<Token>, pos: usize) -> (r: Option<
    &str,
>)
    ensures
        match r {
            Some(v) => {
                &&& pos < tokens@.len()
                &&& tokens@[pos as int] matches Token::SingleQuotedString(s)
                &&& v@ == s@
            },
            None => !(pos < tokens@.len() && tokens@[pos as int] is SingleQuotedString),
        },
{
    if pos < tokens.len() {
        return match &tokens[pos] {
            Token::SingleQuotedString(quoted_string) => Some(quoted_string.as_str()),
            _ => None,
        };
    }
    None
}

/// The tokens start `INSERT`, any token, `INTO`.
pub open spec fn is_insert_into(ts: Seq<Token>) -> bool {
    keyword_at(ts, 0, Keyword::Insert) && keyword_at(ts, 2, Keyword::Into)
}

/// `(` when `open`, `)` otherwise.
pub open spec fn is_paren(t: Token, open: bool) -> bool {
    if open {
        t is LParen
    } else {
        t is RParen
    }
}

/// The index of the first parenthesis of the kind `open` at or after `from`;
/// the length of `ts` when there is none.
pub open spec fn next_paren(ts: Seq<Token>, from: int, open: bool) -> int
    decreases ts.len() - from,
{
    if from < 0 || from >= ts.len() {
        ts.len() as int
    } else if is_paren(ts[from], open) {
        from
    } else {
        next_paren(ts, from + 1, open)
    }
}

proof fn lemma_next_paren(ts: Seq<Token>, from: int, open: bool)
    requires
        0 <= from <= ts.len(),
    ensures
        from <= next_paren(ts, from, open) <= ts.len(),
        forall|i: int| from <= i < next_paren(ts, from, open) ==> !is_paren(#[trigger] ts[i], open),
        next_paren(ts, from, open) < ts.len() ==> is_paren(ts[next_paren(ts, from, open)], open),
    decreases ts.len() - from,
{
    if from < ts.len() && !is_paren(ts[from], open) {
        lemma_next_paren(ts, from + 1, open);
    }
}

/// Finds the first parenthesis of the kind `open` at or after `from`.
fn find_paren(tokens: &Vec<Token>, from: usize, open: bool) -> (r: usize)
    requires
        from <= tokens@.len(),
    ensures
        r == next_paren(tokens@, from as int, open),
{
    let mut i: usize = from;
    while i < tokens.len()
        invariant
            from <= i <= tokens@.len(),
            next_paren(tokens@, from as int, open) == next_paren(tokens@, i as int, open),
        decreases tokens@.len() - i,
    {
        let found = match &tokens[i] {
            Token::LParen => open,
            Token::RParen => !open,
            _ => false,
        };
        if found {
            return i;
        }
        i = i + 1;
    }
    i
}

/// The name a token gives a column: the text of a word or of a quoted string.
pub open spec fn column_name(t: Token) -> Option<Seq<char>> {
    match t {
        Token::Word(w) => Some(w.value@),
        Token::SingleQuotedString(s) => Some(s@),
        _ => None,
    }
}

/// The column names that the tokens `ts` give, in order.
pub open spec fn names_in(ts: Seq<Token>) -> Seq<Seq<char>>
    decreases ts.len(),
{
    if ts.len() == 0 {
        Seq::empty()
    } else {
        let names = names_in(ts.drop_last());
        match column_name(ts.last()) {
            Some(n) => names.push(n),
            None => names,
        }
    }
}

/// The column names of an `INSERT INTO` statement: the words and quoted strings
/// from the first `(` to the next `)`. None when the tokens are not such a statement.
pub open spec fn column_names(ts: Seq<Token>) -> Seq<Seq<char>> {
    if is_insert_into(ts) {
        let open = next_paren(ts, 0, true);
        names_in(ts.subrange(open, next_paren(ts, open, false)))
    } else {
        Seq::empty()
    }
}

/// The column names of an `INSERT INTO` statement, in order; empty when the
/// tokens are not such a statement.
pub fn get_column_names_from_insert_into_query(tokens: &Vec<Token>) -> (names: Vec<&str>)
    ensures
        names@.map_values(|s: &str| s@) == column_names(tokens@),
{
    if !match_keyword_at_position(Keyword::Insert, &tokens, 0) || !match_keyword_at_position(
        Keyword::Into,
        &tokens,
        2,
    ) {
        // not an INSERT INTO statement
        let names: Vec<&str> = Vec::new();
        assert(names@.map_values(|s: &str| s@) =~= Seq::<Seq<char>>::empty());
        return names;
    }
    let open: usize = find_paren(tokens, 0, true);
    proof {
        lemma_next_paren(tokens@, 0, true);
    }
    let close: usize = find_paren(tokens, open, false);
    proof {
        lemma_next_paren(tokens@, open as int, false);
    }
    let mut names: Vec<&str> = Vec::new();
    let mut i: usize = open;
    while i < close
        invariant
            open <= i <= close <= tokens@.len(),
            close == next_paren(tokens@, open as int, false),
            names@.map_values(|s: &str| s@) == names_in(tokens@.subrange(open as int, i as int)),
        decreases close - i,
    {
        let ghost before = names@;
        match &tokens[i] {
            Token::Word(word) => names.push(word.value.as_str()),
            Token::SingleQuotedString(name) => names.push(name.as_str()),
            _ => {},
        }
        proof {
            let sub = tokens@.subrange(open as int, i + 1);
            assert(sub.drop_last() =~= tokens@.subrange(open as int, i as int));
            assert(sub.last() == tokens@[i as int]);
            assert(names@.map_values(|s: &str| s@) =~= names_in(sub));
        }
        i = i + 1;
    }
    names
}

/// A token that holds a value: not a comma, whitespace or a parenthesis.
pub open spec fn is_value_token(t: Token) -> bool {
    !(t is Comma || t is Whitespace || t is LParen || t is RParen)
}

/// The value tokens among `ts`, in order.
pub open spec fn values_in(ts: Seq<Token>) -> Seq<Token>
    decreases ts.len(),
{
    if ts.len() == 0 {
        Seq::empty()
    } else {
        let values = values_in(ts.drop_last());
        if is_value_token(ts.last()) {
            values.push(ts.last())
        } else {
            values
        }
    }
}

/// The values of an `INSERT INTO` statement: the value tokens from the first
/// `(` after the first `)` to the next `)`. None when the tokens are not such a statement.
pub open spec fn column_values(ts: Seq<Token>) -> Seq<Token> {
    if is_insert_into(ts) {
        let open = next_paren(ts, next_paren(ts, 0, false), true);
        values_in(ts.subrange(open, next_paren(ts, open, false)))
    } else {
        Seq::empty()
    }
}

/// The values of an `INSERT INTO` statement, in order; empty when the tokens
/// are not such a statement.
pub fn get_column_values_from_insert_into_query(tokens: &Vec<Token>) -> (values: Vec<&Token>)
    ensures
        values@.map_values(|t: &Token| *t) == column_values(tokens@),
{
    if !match_keyword_at_position(Keyword::Insert, &tokens, 0) || !match_keyword_at_position(
        Keyword::Into,
        &tokens,
        2,
    ) {
        // not an INSERT INTO statement
        let values: Vec<&Token> = Vec::new();
        assert(values@.map_values(|t: &Token| *t) =~= Seq::<Token>::empty());
        return values;
    }
    let first_close: usize = find_paren(tokens, 0, false);
    proof {
        lemma_next_paren(tokens@, 0, false);
    }
    let open: usize = find_paren(tokens, first_close, true);
    proof {
        lemma_next_paren(tokens@, first_close as int, true);
    }
    let close: usize = find_paren(tokens, open, false);
    proof {
        lemma_next_paren(tokens@, open as int, false);
    }
    let mut values: Vec<&Token> = Vec::new();
    let mut i: usize = open;
    while i < close
        invariant
            open <= i <= close <= tokens@.len(),
            close == next_paren(tokens@, open as int, false),
            values@.map_values(|t: &Token| *t) == values_in(
                tokens@.subrange(open as int, i as int),
            ),
        decreases close - i,
    {
        let token = &tokens[i];
        match token {
            Token::Comma | Token::Whitespace(_) | Token::LParen | Token::RParen => {},
            _ => values.push(token),
        }
        proof {
            let sub = tokens@.subrange(open as int, i + 1);
            assert(sub.drop_last() =~= tokens@.subrange(open as int, i as int));
            assert(sub.last() == tokens@[i as int]);
            assert(values@.map_values(|t: &Token| *t) =~= values_in(sub));
        }
        i = i + 1;
    }
    values
}

/// A whitespace or comment token.
pub open spec fn is_whitespace_model(t: TokenModel) -> bool {
    t is Whitespace
}

/// The number of whitespace and comment tokens at the front of `ms`.
pub open spec fn leading_whitespace(ms: Seq<TokenModel>) -> nat
    decreases ms.len(),
{
    if ms.len() > 0 && is_whitespace_model(ms[0]) {
        1 + leading_whitespace(ms.skip(1))
    } else {
        0
    }
}

proof fn lemma_leading_whitespace(ms: Seq<TokenModel>)
    ensures
        leading_whitespace(ms) <= ms.len(),
    decreases ms.len(),
{
    if ms.len() > 0 && is_whitespace_model(ms[0]) {
        lemma_leading_whitespace(ms.skip(1));
    }
}

fn is_whitespace_token(t: &Token) -> (r: bool)
    ensures
        r == is_whitespace_model(t@),
{
    match t {
        Token::Whitespace(_) => true,
        _ => false,
    }
}

/// Removes the whitespace and comment tokens at the beginning of `tokens`.
pub fn trim_pre_whitespaces(tokens: Vec<Token>) -> (r: Vec<Token>)
    ensures
        r@ == tokens@.skip(leading_whitespace(models(tokens@)) as int),
{
    let mut tokens = tokens;
    let ghost all = tokens@;
    let mut k: usize = 0;
    proof {
        assert(models(all).skip(0) =~= models(all));
    }
    while k < tokens.len() && is_whitespace_token(&tokens[k])
        invariant
            tokens@ == all,
            k <= all.len(),
            leading_whitespace(models(all)) == k + leading_whitespace(models(all).skip(k as int)),
        decreases all.len() - k,
    {
        proof {
            assert(models(all).skip(k as int).skip(1) =~= models(all).skip(k + 1));
        }
        k = k + 1;
    }
    proof {
        if k < all.len() {
            assert(models(all).skip(k as int)[0] == all[k as int]@);
        }
    }
    tokens.split_off(k)
}

/// The models of the tokens of `query` after the whitespace at its beginning.
pub open spec fn query_tokens(query: Seq<char>) -> Seq<TokenModel> {
    let all = scan(query, 1, 1).lexemes.map_values(|l: Lexeme| lexeme_token(l));
    all.skip(leading_whitespace(all) as int)
}

/// Tokenizes `query`, which must tokenize without error, and removes the
/// whitespace and comments at its beginning.
pub fn get_tokens_from_query_str(query: &str) -> (tokens: Vec<Token>)
    requires
        counters_fit(query@, 1, 1),
        scan(query@, 1, 1).error is None,
    ensures
        models(tokens@) == query_tokens(query@),
{
    let mut tokenizer = Tokenizer::new(query);
    let tokens = match tokenizer.tokenize() {
        Ok(tokens) => tokens,
        Err(_) => {
            proof {
                assert(false);
            }
            Vec::new()
        },
    };
    let trimmed = trim_pre_whitespaces(tokens);
    proof {
        let k = leading_whitespace(models(tokens@)) as int;
        lemma_leading_whitespace(models(tokens@));
        assert(models(trimmed@) =~= models(tokens@).skip(k));
    }
    trimmed
}

} // verus!
