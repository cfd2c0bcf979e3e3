use dump_parser::mysql::{
    get_column_names_from_insert_into_query, get_column_values_from_insert_into_query,
    get_word_value_at_position, match_keyword_at_position, trim_pre_whitespaces, CharStream,
    Keyword, Token, Tokenizer, Whitespace, Word,
};

fn tokens_of(q: &str) -> Vec<Token> {
    let mut tokenizer = Tokenizer::new(q);
    tokenizer.tokenize().unwrap()
}

#[test]
fn quoted_string_with_escapes_is_read_back() {
    assert_eq!(
        tokens_of("'it\\'s \\\\ ok',"),
        vec![Token::SingleQuotedString("it\\'s \\\\ ok".to_string()), Token::Comma]
    );
    assert_eq!(
        tokens_of("`a\\`b`)"),
        vec![Token::SingleQuotedString("a\\`b".to_string()), Token::RParen]
    );
}

#[test]
fn quoted_string_reader_leaves_the_rest() {
    let q = "'abc'def";
    let tokenizer = Tokenizer::new(q);
    let mut chars = CharStream::new(q);
    let s = tokenizer.tokenize_single_quoted_string(&mut chars).unwrap();
    assert_eq!(s, "abc".to_string());
    assert_eq!(chars.next(), Some('d'));
}

#[test]
fn words_are_read_back() {
    assert_eq!(
        tokens_of("customer_id,x1 N"),
        vec![
            Token::make_word("customer_id", None),
            Token::Comma,
            Token::make_word("x1", None),
            Token::Whitespace(Whitespace::Space),
            Token::make_word("N", None),
        ]
    );
}

#[test]
fn national_and_hex_strings() {
    assert_eq!(
        tokens_of("N'abc' X'ff' x'00'"),
        vec![
            Token::NationalStringLiteral("abc".to_string()),
            Token::Whitespace(Whitespace::Space),
            Token::HexStringLiteral("ff".to_string()),
            Token::Whitespace(Whitespace::Space),
            Token::HexStringLiteral("00".to_string()),
        ]
    );
}

#[test]
fn numbers_are_read_back() {
    assert_eq!(
        tokens_of("1234)"),
        vec![Token::Number("1234".to_string(), false), Token::RParen]
    );
    assert_eq!(tokens_of("20L"), vec![Token::Number("20".to_string(), true)]);
    assert_eq!(tokens_of("3.14"), vec![Token::Number("3.14".to_string(), false)]);
    assert_eq!(tokens_of(".5"), vec![Token::Number(".5".to_string(), false)]);
    assert_eq!(tokens_of("0x1Fg"), vec![
        Token::HexStringLiteral("1F".to_string()),
        Token::make_word("g", None),
    ]);
    assert_eq!(tokens_of("."), vec![Token::Period]);
    assert_eq!(
        tokens_of("-7 +8 - +"),
        vec![
            Token::Number("-7".to_string(), false),
            Token::Whitespace(Whitespace::Space),
            Token::Number("+8".to_string(), false),
            Token::Whitespace(Whitespace::Space),
            Token::Minus,
            Token::Whitespace(Whitespace::Space),
            Token::Plus,
        ]
    );
}

#[test]
fn comments() {
    assert_eq!(
        tokens_of("-- hi\nx"),
        vec![
            Token::Whitespace(Whitespace::SingleLineComment {
                comment: " hi\n".to_string(),
                prefix: "--".to_string(),
            }),
            Token::make_word("x", None),
        ]
    );
    assert_eq!(
        tokens_of("/* a ** b */x"),
        vec![
            Token::Whitespace(Whitespace::MultiLineComment(" a ** b ".to_string())),
            Token::make_word("x", None),
        ]
    );
    assert_eq!(
        tokens_of("--end"),
        vec![Token::Whitespace(Whitespace::SingleLineComment {
            comment: "end".to_string(),
            prefix: "--".to_string(),
        })]
    );
}

#[test]
fn operators() {
    assert_eq!(
        tokens_of("<=><=<><<<"),
        vec![Token::Spaceship, Token::LtEq, Token::Neq, Token::ShiftLeft, Token::Lt]
    );
    assert_eq!(tokens_of(">=>>>"), vec![Token::GtEq, Token::ShiftRight, Token::Gt]);
    assert_eq!(
        tokens_of("!=!!!~*!~!"),
        vec![
            Token::Neq,
            Token::DoubleExclamationMark,
            Token::ExclamationMarkTildeAsterisk,
            Token::ExclamationMarkTilde,
            Token::ExclamationMark,
        ]
    );
    assert_eq!(
        tokens_of("=>=::~*~:"),
        vec![Token::RArrow, Token::Eq, Token::DoubleColon, Token::TildeAsterisk, Token::Tilde, Token::Colon]
    );
    assert_eq!(
        tokens_of("*%/;\\[]&^{}#@|"),
        vec![
            Token::Mul,
            Token::Mod,
            Token::Div,
            Token::SemiColon,
            Token::Backslash,
            Token::LBracket,
            Token::RBracket,
            Token::Ampersand,
            Token::Caret,
            Token::LBrace,
            Token::RBrace,
            Token::Sharp,
            Token::AtSign,
            Token::Char('|'),
        ]
    );
}

#[test]
fn placeholders_and_other_chars() {
    assert_eq!(
        tokens_of("?$1abc,é"),
        vec![
            Token::Placeholder("?".to_string()),
            Token::Placeholder("$1abc".to_string()),
            Token::Comma,
            Token::Char('é'),
        ]
    );
}

#[test]
fn carriage_returns_are_one_newline() {
    assert_eq!(
        tokens_of("\r\n\r\t"),
        vec![
            Token::Whitespace(Whitespace::Newline),
            Token::Whitespace(Whitespace::Newline),
            Token::Whitespace(Whitespace::Tab),
        ]
    );
}

#[test]
fn unterminated_string_error() {
    let mut tokenizer = Tokenizer::new("a\n\t'oops");
    let err = tokenizer.tokenize().unwrap_err();
    assert_eq!(err.message, "Unterminated string literal".to_string());
    assert_eq!(err.line, 2);
    assert_eq!(err.col, 5);
    assert_eq!(err.to_string(), "Unterminated string literal at Line: 2, Column 5".to_string());
}

#[test]
fn unterminated_comment_error() {
    let mut tokenizer = Tokenizer::new("x /* never closed *");
    let err = tokenizer.tokenize().unwrap_err();
    assert_eq!(err.message, "Unexpected EOF while in a multi-line comment".to_string());
    assert_eq!(err.line, 1);
    assert_eq!(err.col, 3);
}

#[test]
fn line_counter_counts_newlines() {
    let mut tokenizer = Tokenizer::new("a\nb\r\nc d'");
    let err = tokenizer.tokenize().unwrap_err();
    assert_eq!(err.line, 3);
    assert_eq!(err.col, 4);

    let q = "\n\n\n\n\n\n\n\n\n\n\n\t\t\t'";
    let mut tokenizer = Tokenizer::new(q);
    let err = tokenizer.tokenize().unwrap_err();
    assert_eq!(err.to_string(), "Unterminated string literal at Line: 12, Column 13".to_string());
}

#[test]
fn counters_continue_across_runs() {
    let mut tokenizer = Tokenizer::new("a\n'");
    assert!(tokenizer.tokenize().is_err());
    let err = tokenizer.tokenize().unwrap_err();
    assert_eq!(err.line, 3);
    assert_eq!(err.col, 1);
}

#[test]
fn keywords_are_recognised_in_any_case() {
    match Token::make_word("insert", None) {
        Token::Word(w) => {
            assert_eq!(w.keyword, Keyword::Insert);
            assert_eq!(w.value, "insert".to_string());
        }
        _ => panic!("not a word"),
    }
    assert_eq!(
        Token::make_keyword("Into"),
        Token::Word(Word { value: "Into".to_string(), quote_style: None, keyword: Keyword::Into })
    );
    assert_eq!(
        Token::make_word("INSERT", Some('`')),
        Token::Word(Word {
            value: "INSERT".to_string(),
            quote_style: Some('`'),
            keyword: Keyword::NoKeyword,
        })
    );
    assert_eq!(
        Token::make_word("values", None),
        Token::Word(Word { value: "values".to_string(), quote_style: None, keyword: Keyword::NoKeyword })
    );
}

#[test]
fn trimming_twice_is_trimming_once() {
    let tokens = tokens_of("\n -- c\n/* d */ INSERT x");
    let once = trim_pre_whitespaces(tokens);
    assert_eq!(once[0], Token::make_keyword("INSERT"));
    let twice = trim_pre_whitespaces(once.clone());
    assert_eq!(once, twice);
    assert_eq!(trim_pre_whitespaces(tokens_of("  ")), Vec::<Token>::new());
}

#[test]
fn positions_outside_the_tokens() {
    let tokens = tokens_of("INSERT INTO t");
    assert!(match_keyword_at_position(Keyword::Insert, &tokens, 0));
    assert!(!match_keyword_at_position(Keyword::Into, &tokens, 0));
    assert!(!match_keyword_at_position(Keyword::Insert, &tokens, 99));
    assert_eq!(get_word_value_at_position(&tokens, 4), Some("t"));
    assert_eq!(get_word_value_at_position(&tokens, 1), None);
    assert_eq!(get_word_value_at_position(&tokens, 5), None);
}

#[test]
fn not_an_insert_statement() {
    let tokens = tokens_of("SELECT (a) VALUES (1)");
    assert!(get_column_names_from_insert_into_query(&tokens).is_empty());
    assert!(get_column_values_from_insert_into_query(&tokens).is_empty());
}

#[test]
fn insert_without_parentheses() {
    let tokens = tokens_of("INSERT INTO t VALUES 1");
    assert!(get_column_names_from_insert_into_query(&tokens).is_empty());
    assert!(get_column_values_from_insert_into_query(&tokens).is_empty());
}

#[test]
fn text_after_a_final_newline_reads_as_the_two_joined() {
    let a = "INSERT INTO t -- note\n";
    let b = "VALUES (1, 'x');";
    let mut joined = tokens_of(a);
    joined.extend(tokens_of(b));
    let ab = format!("{}{}", a, b);
    assert_eq!(tokens_of(&ab), joined);

    let mut tokenizer = Tokenizer::new("x\n'open");
    let err = tokenizer.tokenize().unwrap_err();
    let mut alone = Tokenizer::new("'open");
    assert_eq!(err.message, alone.tokenize().unwrap_err().message);
}

#[test]
fn a_second_run_reads_the_same_tokens() {
    let q = "a\n\tb";
    let mut tokenizer = Tokenizer::new(q);
    let first = tokenizer.tokenize().unwrap();
    let second = tokenizer.tokenize().unwrap();
    assert_eq!(first, second);
}

#[test]
fn comments_end_at_the_first_close() {
    assert_eq!(
        tokens_of("/* a */ b */"),
        vec![
            Token::Whitespace(Whitespace::MultiLineComment(" a ".to_string())),
            Token::Whitespace(Whitespace::Space),
            Token::make_word("b", None),
            Token::Whitespace(Whitespace::Space),
            Token::Mul,
            Token::Div,
        ]
    );
    assert_eq!(
        tokens_of("-- a\r\nb"),
        vec![
            Token::Whitespace(Whitespace::SingleLineComment {
                comment: " a\r\n".to_string(),
                prefix: "--".to_string(),
            }),
            Token::make_word("b", None),
        ]
    );
}

#[test]
fn a_string_without_its_close_fails() {
    let q = "'abc\\'";
    let tokenizer = Tokenizer::new(q);
    let mut chars = CharStream::new(q);
    let err = tokenizer.tokenize_single_quoted_string(&mut chars).unwrap_err();
    assert_eq!(err.message, "Unterminated string literal".to_string());
    assert_eq!(chars.next(), None);
    assert!(Tokenizer::new("X'ab").tokenize().is_err());
}

#[test]
fn number_shapes() {
    assert_eq!(
        tokens_of("-.5 1.L 0x"),
        vec![
            Token::Minus,
            Token::Number(".5".to_string(), false),
            Token::Whitespace(Whitespace::Space),
            Token::Number("1.".to_string(), true),
            Token::Whitespace(Whitespace::Space),
            Token::HexStringLiteral("".to_string()),
        ]
    );
}

#[test]
fn keyword_table() {
    assert_eq!(dump_parser::mysql::token::keyword_of_uppercase_exec(&"INTO".to_string()), Keyword::Into);
    assert_eq!(dump_parser::mysql::token::keyword_of_uppercase_exec(&"into".to_string()), Keyword::NoKeyword);
    assert_eq!(dump_parser::mysql::token::keyword_of_uppercase_exec(&"REFERENCES".to_string()), Keyword::References);
}
