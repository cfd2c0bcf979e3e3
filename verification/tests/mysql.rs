use dump_parser::mysql::{
    get_column_names_from_insert_into_query, get_column_values_from_insert_into_query,
    get_single_quoted_string_value_at_position, get_tokens_from_query_str,
    match_keyword_at_position, trim_pre_whitespaces, CharStream, Keyword, Token, Tokenizer,
    Whitespace,
};

#[test]
fn test_tokenize_single_quoted_string() {
    // single quoted strings must end with a commar or a closing parenthese.
    let q = "'People\\'sRepublic',";
    let tokenizer = Tokenizer::new(q);
    let mut chars = CharStream::new(q);
    let single_quoted_string = tokenizer.tokenize_single_quoted_string(&mut chars).unwrap();
    assert_eq!(single_quoted_string, "People\\'sRepublic".to_string());

    let q = "'People\\'sRepublic')";
    let tokenizer = Tokenizer::new(q);
    let mut chars = CharStream::new(q);
    let single_quoted_string = tokenizer.tokenize_single_quoted_string(&mut chars).unwrap();
    assert_eq!(single_quoted_string, "People\\'sRepublic".to_string());
}

#[test]
fn tokenizer_for_create_table_query() {
    let q = r"
CREATE TABLE `customer_store` (
  `store_id` int NOT NULL COMMENT 'Field sample comment',
  `customer_id` int NOT NULL,
  KEY `customer_store_store_id_customer_id_index` (`store_id`,`customer_id`)
) ENGINE=InnoDB DEFAULT CHARSET=utf8mb4 COLLATE=utf8mb4_unicode_ci COMMENT='Table sample comment';";

    let mut tokenizer = Tokenizer::new(q);
    let tokens_result = tokenizer.tokenize();
    assert!(tokens_result.is_ok());

    let expected = vec![
        Token::Whitespace(Whitespace::Newline),
        Token::make_keyword("CREATE"),
        Token::Whitespace(Whitespace::Space),
        Token::make_keyword("TABLE"),
        Token::Whitespace(Whitespace::Space),
        Token::SingleQuotedString("customer_store".to_string()),
        Token::Whitespace(Whitespace::Space),
        Token::LParen,
        Token::Whitespace(Whitespace::Newline),
        Token::Whitespace(Whitespace::Space),
        Token::Whitespace(Whitespace::Space),
        Token::SingleQuotedString("store_id".to_string()),
        Token::Whitespace(Whitespace::Space),
        Token::make_word("int", None),
        Token::Whitespace(Whitespace::Space),
        Token::make_word("NOT", None),
        Token::Whitespace(Whitespace::Space),
        Token::make_keyword("NULL"),
        Token::Whitespace(Whitespace::Space),
        Token::make_keyword("COMMENT"),
        Token::Whitespace(Whitespace::Space),
        Token::SingleQuotedString("Field sample comment".to_string()),
        Token::Comma,
        Token::Whitespace(Whitespace::Newline),
        Token::Whitespace(Whitespace::Space),
        Token::Whitespace(Whitespace::Space),
        Token::SingleQuotedString("customer_id".to_string()),
        Token::Whitespace(Whitespace::Space),
        Token::make_word("int", None),
        Token::Whitespace(Whitespace::Space),
        Token::make_word("NOT", None),
        Token::Whitespace(Whitespace::Space),
        Token::make_keyword("NULL"),
        Token::Comma,
        Token::Whitespace(Whitespace::Newline),
        Token::Whitespace(Whitespace::Space),
        Token::Whitespace(Whitespace::Space),
        Token::make_keyword("KEY"),
        Token::Whitespace(Whitespace::Space),
        Token::SingleQuotedString("customer_store_store_id_customer_id_index".to_string()),
        Token::Whitespace(Whitespace::Space),
        Token::LParen,
        Token::SingleQuotedString("store_id".to_string()),
        Token::Comma,
        Token::SingleQuotedString("customer_id".to_string()),
        Token::RParen,
        Token::Whitespace(Whitespace::Newline),
        Token::RParen,
        Token::Whitespace(Whitespace::Space),
        Token::make_keyword("ENGINE"),
        Token::Eq,
        Token::make_keyword("InnoDB"),
        Token::Whitespace(Whitespace::Space),
        Token::make_keyword("DEFAULT"),
        Token::Whitespace(Whitespace::Space),
        Token::make_keyword("CHARSET"),
        Token::Eq,
        Token::make_keyword("utf8mb4"),
        Token::Whitespace(Whitespace::Space),
        Token::make_keyword("COLLATE"),
        Token::Eq,
        Token::make_keyword("utf8mb4_unicode_ci"),
        Token::Whitespace(Whitespace::Space),
        Token::make_keyword("COMMENT"),
        Token::Eq,
        Token::SingleQuotedString("Table sample comment".to_string()),
        Token::SemiColon,
    ];

    assert_eq!(tokens_result.unwrap(), expected);
}

#[test]
fn tokenizer_for_insert_into_query() {
    let q = "INSERT INTO `images` VALUES (1,6,640,480,'https://via.placeholder.com/640x480.png/006633?text=animals+quo',1,'2022-04-13 19:21:30','2022-04-13 19:21:30');";
    let mut tokenizer = Tokenizer::new(q);
    let tokens_result = tokenizer.tokenize();
    assert!(tokens_result.is_ok());

    let expected = vec![
        Token::make_keyword("INSERT"),
        Token::Whitespace(Whitespace::Space),
        Token::make_keyword("INTO"),
        Token::Whitespace(Whitespace::Space),
        Token::SingleQuotedString("images".to_string()),
        Token::Whitespace(Whitespace::Space),
        Token::make_keyword("VALUES"),
        Token::Whitespace(Whitespace::Space),
        Token::LParen,
        Token::Number("1".to_string(), false),
        Token::Comma,
        Token::Number("6".to_string(), false),
        Token::Comma,
        Token::Number("640".to_string(), false),
        Token::Comma,
        Token::Number("480".to_string(), false),
        Token::Comma,
        Token::SingleQuotedString(
            "https://via.placeholder.com/640x480.png/006633?text=animals+quo".to_string(),
        ),
        Token::Comma,
        Token::Number("1".to_string(), false),
        Token::Comma,
        Token::SingleQuotedString("2022-04-13 19:21:30".to_string()),
        Token::Comma,
        Token::SingleQuotedString("2022-04-13 19:21:30".to_string()),
        Token::RParen,
        Token::SemiColon,
    ];
    assert_eq!(tokens_result.unwrap(), expected);
}

#[test]
fn tokenize_insert_into_with_special_chars() {
    let q = "INSERT INTO `country` VALUES ('CHN','China','Asia','Eastern Asia',9572900.00,-1523,+1277558000,71.4,982268.00,917719.00,'Zhongquo','People\\'sRepublic','Jiang Zemin',1891,'CN');";

    let mut tokenizer = Tokenizer::new(q);
    let tokens_result = tokenizer.tokenize();
    assert!(tokens_result.is_ok());

    let expected = vec![
        Token::make_keyword("INSERT"),
        Token::Whitespace(Whitespace::Space),
        Token::make_keyword("INTO"),
        Token::Whitespace(Whitespace::Space),
        Token::SingleQuotedString("country".to_string()),
        Token::Whitespace(Whitespace::Space),
        Token::make_keyword("VALUES"),
        Token::Whitespace(Whitespace::Space),
        Token::LParen,
        Token::SingleQuotedString("CHN".to_string()),
        Token::Comma,
        Token::SingleQuotedString("China".to_string()),
        Token::Comma,
        Token::SingleQuotedString("Asia".to_string()),
        Token::Comma,
        Token::SingleQuotedString("Eastern Asia".to_string()),
        Token::Comma,
        Token::Number("9572900.00".to_string(), false),
        Token::Comma,
        Token::Number("-1523".to_string(), false),
        Token::Comma,
        Token::Number("+1277558000".to_string(), false),
        Token::Comma,
        Token::Number("71.4".to_string(), false),
        Token::Comma,
        Token::Number("982268.00".to_string(), false),
        Token::Comma,
        Token::Number("917719.00".to_string(), false),
        Token::Comma,
        Token::SingleQuotedString("Zhongquo".to_string()),
        Token::Comma,
        Token::SingleQuotedString("People\\'sRepublic".to_string()),
        Token::Comma,
        Token::SingleQuotedString("Jiang Zemin".to_string()),
        Token::Comma,
        Token::Number("1891".to_string(), false),
        Token::Comma,
        Token::SingleQuotedString("CN".to_string()),
        Token::RParen,
        Token::SemiColon,
    ];
    assert_eq!(tokens_result.unwrap(), expected);
}

#[test]
fn test_get_column_names_from_insert_into_query() {
    let q = r"
INSERT INTO `customers` (`id`, `first_name`, `last_name`, `email`, `currency`, `accepts_marketing`, `created_at`, `updated_at`)
VALUES (1,'Stanford','Stiedemann','alaina.moore@example.net','EUR',1,'2022-04-13 20:29:23','2022-04-13 20:29:23');
";

    let mut tokenizer = Tokenizer::new(q);
    let tokens_result = tokenizer.tokenize();
    assert_eq!(tokens_result.is_ok(), true);

    let tokens = trim_pre_whitespaces(tokens_result.unwrap());
    let column_names = get_column_names_from_insert_into_query(&tokens);

    assert_eq!(
        column_names,
        vec![
            "id",
            "first_name",
            "last_name",
            "email",
            "currency",
            "accepts_marketing",
            "created_at",
            "updated_at"
        ]
    );
}

#[test]
fn test_get_column_values_from_insert_into_query() {
    let q = "INSERT INTO `customers` (`id`, `first_name`, `last_name`, `email`, `currency`, `accepts_marketing`, `birthdate`, `created_at`, `updated_at`) VALUES (1,'Stanford','People\\'sRepublic','alaina.moore@example.net','EUR',1,NULL,'2022-04-13 20:29:23','2022-04-13 20:29:23');";

    let mut tokenizer = Tokenizer::new(q);
    let tokens_result = tokenizer.tokenize();
    assert_eq!(tokens_result.is_ok(), true);

    let tokens = tokens_result.unwrap();
    let tokens = trim_pre_whitespaces(tokens);
    let column_values = get_column_values_from_insert_into_query(&tokens);

    assert_eq!(
        column_values,
        vec![
            &Token::Number("1".to_string(), false),
            &Token::SingleQuotedString("Stanford".to_string()),
            &Token::SingleQuotedString("People\\'sRepublic".to_string()),
            &Token::SingleQuotedString("alaina.moore@example.net".to_string()),
            &Token::SingleQuotedString("EUR".to_string()),
            &Token::Number("1".to_string(), false),
            &Token::make_keyword("NULL"),
            &Token::SingleQuotedString("2022-04-13 20:29:23".to_string()),
            &Token::SingleQuotedString("2022-04-13 20:29:23".to_string()),
        ]
    );
}

#[test]
fn test_match_keyword_at_position() {
    let q = r"
INSERT INTO `customers` (`id`, `first_name`, `last_name`, `email`, `currency`, `accepts_marketing`, `birthdate`, `created_at`, `updated_at`)
VALUES (1,'Stanford','Stiedemann','alaina.moore@example.net','EUR',1,NULL,'2022-04-13 20:29:23','2022-04-13 20:29:23');
";
    let tokens = get_tokens_from_query_str(q);

    assert_eq!(
        match_keyword_at_position(Keyword::Insert, &tokens, 0),
        true
    );

    assert_eq!(
        match_keyword_at_position(Keyword::Into, &tokens, 2),
        true
    );
}

#[test]
fn test_insert_into_with_boolean_column_type() {
    let q = r"
INSERT INTO `customers` (`first_name`, `is_valid`)
VALUES ('Romaric', true);
";

    let mut tokenizer = Tokenizer::new(q);
    let tokens_result = tokenizer.tokenize();
    assert_eq!(tokens_result.is_ok(), true);

    let tokens = trim_pre_whitespaces(tokens_result.unwrap());
    let column_values = get_column_values_from_insert_into_query(&tokens);

    assert_eq!(
        column_values,
        vec![
            &Token::SingleQuotedString("Romaric".to_string()),
            &Token::make_word("true", None),
        ]
    );
}

#[test]
fn test_get_single_quoted_string_value_at_position() {
    let q = r"
INSERT INTO `customers` (`first_name`, `is_valid`)
VALUES ('Romaric', true);
";

    let mut tokenizer = Tokenizer::new(q);
    let tokens_result = tokenizer.tokenize();
    assert_eq!(tokens_result.is_ok(), true);

    let tokens = trim_pre_whitespaces(tokens_result.unwrap());
    assert_eq!(
        "customers",
        get_single_quoted_string_value_at_position(&tokens, 4).unwrap()
    );
    assert!(get_single_quoted_string_value_at_position(&tokens, 0).is_none());
}

#[test]
fn test_insert_into_with_numbers() {
    let q = "INSERT INTO test (postive_number, negative_number, long_number) VALUES (+5.75, -10.20, 20L);";

    let mut tokenizer = Tokenizer::new(q);
    let tokens_result = tokenizer.tokenize();
    assert_eq!(tokens_result.is_ok(), true);

    let tokens = trim_pre_whitespaces(tokens_result.unwrap());
    let column_values = get_column_values_from_insert_into_query(&tokens);

    assert_eq!(
        column_values,
        vec![
            &Token::Number("+5.75".to_string(), false),
            &Token::Number("-10.20".to_string(), false),
            &Token::Number("20".to_string(), true),
        ]
    );
}
