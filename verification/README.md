# dump_parser

A tokenizer for MySQL dump statements, written in Verus, with helpers that read
the column names and values of `INSERT INTO` statements.

- `src/mysql/token.rs`: tokens, words, keywords and their models; `Token::make_word`.
- `src/mysql/text.rs`: character classes and `CharStream`, the cursor the tokenizer reads.
- `src/mysql/lexer.rs`: the specification: `lex` reads one token from the front of
  a text, `scan` a whole run with its line and column counters.
- `src/mysql/tokenizer.rs`: `Tokenizer`, proved to follow `lex` and `scan`.
- `src/mysql/statement.rs`: token-list helpers (`trim_pre_whitespaces`,
  `get_column_names_from_insert_into_query`, ...).
- `src/mysql/laws.rs`: properties across functions: quoted strings, words and
  unsigned integers are read back as written; a quoted string is read exactly when
  its body has the escaped form; number literals and words have the expected shape;
  comments end at the first `*/` or newline; reading fails only on an unterminated
  string or comment; the tokens of a run do not depend on the counters, and a text
  ending in a newline followed by more text reads as the two joined; the line
  counter counts newlines; trimming is idempotent.
- `app/lib.rs`: the printing and panicking shell, and a displayable error.
