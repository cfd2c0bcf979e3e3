use vstd::prelude::*;

verus! {

/// A token of a MySQL dump.
#[derive(Debug, Clone, PartialEq, Eq, Hash)]
pub enum Token {
    /// An end-of-file marker, not a real token
    EOF,
    /// A signed numeric literal; the flag is set when it ends in `L`
    Number(String, bool),
    /// A keyword or an identifier
    Word(Word),
    /// Whitespace (space, tab, newline) or a comment
    Whitespace(Whitespace),
    /// A character that could not be tokenized
    Char(char),
    /// Single quoted string: i.e: 'string' (also backquoted)
    SingleQuotedString(String),
    /// "National" string literal: i.e: N'string'
    NationalStringLiteral(String),
    /// Hexadecimal string literal: i.e.: X'deadbeef' or 0xdeadbeef
    HexStringLiteral(String),
    /// Comma
    Comma,
    /// Double equals sign `==`
    DoubleEq,
    /// Equality operator `=`
    Eq,
    /// Not Equals operator `<>` or `!=`
    Neq,
    /// Less Than operator `<`
    Lt,
    /// Greater Than operator `>`
    Gt,
    /// Less Than Or Equals operator `<=`
    LtEq,
    /// Greater Than Or Equals operator `>=`
    GtEq,
    /// Spaceship operator `<=>`
    Spaceship,
    /// Plus operator `+`
    Plus,
    /// Minus operator `-`
    Minus,
    /// Multiplication operator `*`
    Mul,
    /// Division operator `/`
    Div,
    /// Modulo Operator `%`
    Mod,
    /// String concatenation `||`
    StringConcat,
    /// Left parenthesis `(`
    LParen,
    /// Right parenthesis `)`
    RParen,
    /// Period `.`
    Period,
    /// Colon `:`
    Colon,
    /// DoubleColon `::`
    DoubleColon,
    /// SemiColon `;`
    SemiColon,
    /// Backslash `\\`
    Backslash,
    /// Left bracket `[`
    LBracket,
    /// Right bracket `]`
    RBracket,
    /// Ampersand `&`
    Ampersand,
    /// Pipe `|`
    Pipe,
    /// Caret `^`
    Caret,
    /// Left brace `{`
    LBrace,
    /// Right brace `}`
    RBrace,
    /// Right Arrow `=>`
    RArrow,
    /// Sharp `#`
    Sharp,
    /// Tilde `~`
    Tilde,
    /// `~*`
    TildeAsterisk,
    /// `!~`
    ExclamationMarkTilde,
    /// `!~*`
    ExclamationMarkTildeAsterisk,
    /// `<<`
    ShiftLeft,
    /// `>>`
    ShiftRight,
    /// Exclamation Mark `!`
    ExclamationMark,
    /// Double Exclamation Mark `!!`
    DoubleExclamationMark,
    /// AtSign `@`
    AtSign,
    /// `?` or `$name`, a prepared statement arg placeholder
    Placeholder(String),
}

/// A keyword (like CREATE) or an optionally quoted SQL identifier.
#[derive(Debug, Clone, PartialEq, Eq, Hash)]
pub struct Word {
    /// The text of the word, without enclosing quotes.
    pub value: String,
    /// The quote character of a quoted identifier, if any.
    pub quote_style: Option<char>,
    /// The keyword the word spells, when it is not quoted; `NoKeyword` otherwise.
    pub keyword: Keyword,
}

/// The keywords the tokenizer recognises.
#[derive(Debug, Clone, Copy, PartialEq, Eq, Hash, Structural)]
pub enum Keyword {
    Create,
    Alter,
    Insert,
    Into,
    Copy,
    Database,
    Table,
    From,
    Not,
    Null,
    Add,
    Constraint,
    Primary,
    Foreign,
    References,
    Key,
    NoKeyword,
}

/// Whitespace and comments.
#[derive(Debug, Clone, PartialEq, Eq, Hash)]
pub enum Whitespace {
    Space,
    Newline,
    Tab,
    SingleLineComment { comment: String, prefix: String },
    MultiLineComment(String),
}

/// The mathematical model of a `Token`: its strings are taken by their characters.
pub enum TokenModel {
    EOF,
    Number(Seq<char>, bool),
    Word(WordModel),
    Whitespace(WhitespaceModel),
    Char(char),
    SingleQuotedString(Seq<char>),
    NationalStringLiteral(Seq<char>),
    HexStringLiteral(Seq<char>),
    Comma,
    DoubleEq,
    Eq,
    Neq,
    Lt,
    Gt,
    LtEq,
    GtEq,
    Spaceship,
    Plus,
    Minus,
    Mul,
    Div,
    Mod,
    StringConcat,
    LParen,
    RParen,
    Period,
    Colon,
    DoubleColon,
    SemiColon,
    Backslash,
    LBracket,
    RBracket,
    Ampersand,
    Pipe,
    Caret,
    LBrace,
    RBrace,
    RArrow,
    Sharp,
    Tilde,
    TildeAsterisk,
    ExclamationMarkTilde,
    ExclamationMarkTildeAsterisk,
    ShiftLeft,
    ShiftRight,
    ExclamationMark,
    DoubleExclamationMark,
    AtSign,
    Placeholder(Seq<char>),
}

/// The model of a `Word`.
pub struct WordModel {
    pub value: Seq<char>,
    pub quote_style: Option<char>,
    pub keyword: Keyword,
}

/// The model of a `Whitespace`.
pub enum WhitespaceModel {
    Space,
    Newline,
    Tab,
    SingleLineComment { comment: Seq<char>, prefix: Seq<char> },
    MultiLineComment(Seq<char>),
}

impl View for Word {
    type V = WordModel;

    open spec fn view(&self) -> WordModel {
        WordModel { value: self.value@, quote_style: self.quote_style, keyword: self.keyword }
    }
}

impl View for Whitespace {
    type V = WhitespaceModel;

    open spec fn view(&self) -> WhitespaceModel {
        match self {
            Whitespace::Space => WhitespaceModel::Space,
            Whitespace::Newline => WhitespaceModel::Newline,
            Whitespace::Tab => WhitespaceModel::Tab,
            Whitespace::SingleLineComment { comment, prefix } => WhitespaceModel::SingleLineComment {
                comment: comment@,
                prefix: prefix@,
            },
            Whitespace::MultiLineComment(s) => WhitespaceModel::MultiLineComment(s@),
        }
    }
}

impl View for Token {
    type V = TokenModel;

    open spec fn view(&self) -> TokenModel {
        match self {
            Token::EOF => TokenModel::EOF,
            Token::Number(s, long) => TokenModel::Number(s@, *long),
            Token::Word(w) => TokenModel::Word(w@),
            Token::Whitespace(w) => TokenModel::Whitespace(w@),
            Token::Char(c) => TokenModel::Char(*c),
            Token::SingleQuotedString(s) => TokenModel::SingleQuotedString(s@),
            Token::NationalStringLiteral(s) => TokenModel::NationalStringLiteral(s@),
            Token::HexStringLiteral(s) => TokenModel::HexStringLiteral(s@),
            Token::Comma => TokenModel::Comma,
            Token::DoubleEq => TokenModel::DoubleEq,
            Token::Eq => TokenModel::Eq,
            Token::Neq => TokenModel::Neq,
            Token::Lt => TokenModel::Lt,
            Token::Gt => TokenModel::Gt,
            Token::LtEq => TokenModel::LtEq,
            Token::GtEq => TokenModel::GtEq,
            Token::Spaceship => TokenModel::Spaceship,
            Token::Plus => TokenModel::Plus,
            Token::Minus => TokenModel::Minus,
            Token::Mul => TokenModel::Mul,
            Token::Div => TokenModel::Div,
            Token::Mod => TokenModel::Mod,
            Token::StringConcat => TokenModel::StringConcat,
            Token::LParen => TokenModel::LParen,
            Token::RParen => TokenModel::RParen,
            Token::Period => TokenModel::Period,
            Token::Colon => TokenModel::Colon,
            Token::DoubleColon => TokenModel::DoubleColon,
            Token::SemiColon => TokenModel::SemiColon,
            Token::Backslash => TokenModel::Backslash,
            Token::LBracket => TokenModel::LBracket,
            Token::RBracket => TokenModel::RBracket,
            Token::Ampersand => TokenModel::Ampersand,
            Token::Pipe => TokenModel::Pipe,
            Token::Caret => TokenModel::Caret,
            Token::LBrace => TokenModel::LBrace,
            Token::RBrace => TokenModel::RBrace,
            Token::RArrow => TokenModel::RArrow,
            Token::Sharp => TokenModel::Sharp,
            Token::Tilde => TokenModel::Tilde,
            Token::TildeAsterisk => TokenModel::TildeAsterisk,
            Token::ExclamationMarkTilde => TokenModel::ExclamationMarkTilde,
            Token::ExclamationMarkTildeAsterisk => TokenModel::ExclamationMarkTildeAsterisk,
            Token::ShiftLeft => TokenModel::ShiftLeft,
            Token::ShiftRight => TokenModel::ShiftRight,
            Token::ExclamationMark => TokenModel::ExclamationMark,
            Token::DoubleExclamationMark => TokenModel::DoubleExclamationMark,
            Token::AtSign => TokenModel::AtSign,
            Token::Placeholder(s) => TokenModel::Placeholder(s@),
        }
    }
}

/// The uppercase form of a string, as `str::to_uppercase` computes it by the
/// Unicode case mapping.
pub uninterp spec fn unicode_uppercase(s: Seq<char>) -> Seq<char>;

/// Calls `str::to_uppercase`. The contract claims only that the result is a
/// function of the argument's characters, named `unicode_uppercase`.
#[verifier::external_body]
fn to_uppercase(s: &str) -> (r: String)
    ensures
        r@ == unicode_uppercase(s@),
{
    s.to_uppercase()
}

/// The keyword spelled by `upper`, an uppercased word; `NoKeyword` when it spells none.
pub open spec fn keyword_of_uppercase(upper: Seq<char>) -> Keyword {
    if upper == "ALTER"@ {
        Keyword::Alter
    } else if upper == "CREATE"@ {
        Keyword::Create
    } else if upper == "INSERT"@ {
        Keyword::Insert
    } else if upper == "INTO"@ {
        Keyword::Into
    } else if upper == "COPY"@ {
        Keyword::Copy
    } else if upper == "DATABASE"@ {
        Keyword::Database
    } else if upper == "TABLE"@ {
        Keyword::Table
    } else if upper == "FROM"@ {
        Keyword::From
    } else if upper == "NOT"@ {
        Keyword::Not
    } else if upper == "NULL"@ {
        Keyword::Null
    } else if upper == "ADD"@ {
        Keyword::Add
    } else if upper == "CONSTRAINT"@ {
        Keyword::Constraint
    } else if upper == "PRIMARY"@ {
        Keyword::Primary
    } else if upper == "FOREIGN"@ {
        Keyword::Foreign
    } else if upper == "REFERENCES"@ {
        Keyword::References
    } else if upper == "KEY"@ {
        Keyword::Key
    } else {
        Keyword::NoKeyword
    }
}

/// The keyword of a word with text `value` and quote style `quote_style`:
/// only an unquoted word can be a keyword.
pub open spec fn word_keyword(value: Seq<char>, quote_style: Option<char>) -> Keyword {
    if quote_style is None {
        keyword_of_uppercase(unicode_uppercase(value))
    } else {
        Keyword::NoKeyword
    }
}

/// The model of the token that `Token::make_word(value, quote_style)` builds.
pub open spec fn word_token(value: Seq<char>, quote_style: Option<char>) -> TokenModel {
    TokenModel::Word(
        WordModel { value, quote_style, keyword: word_keyword(value, quote_style) },
    )
}

/// Whether `s` holds the text of `lit`.
fn string_is(s: &String, lit: &str) -> (r: bool)
    ensures
        r == (s@ == lit@),
{
    let other = lit.to_string();
    *s == other
}

/// The keyword spelled by `upper`, an uppercased word.
pub fn keyword_of_uppercase_exec(upper: &String) -> (k: Keyword)
    ensures
        k == keyword_of_uppercase(upper@),
{
    if string_is(upper, "ALTER") {
        Keyword::Alter
    } else if string_is(upper, "CREATE") {
        Keyword::Create
    } else if string_is(upper, "INSERT") {
        Keyword::Insert
    } else if string_is(upper, "INTO") {
        Keyword::Into
    } else if string_is(upper, "COPY") {
        Keyword::Copy
    } else if string_is(upper, "DATABASE") {
        Keyword::Database
    } else if string_is(upper, "TABLE") {
        Keyword::Table
    } else if string_is(upper, "FROM") {
        Keyword::From
    } else if string_is(upper, "NOT") {
        Keyword::Not
    } else if string_is(upper, "NULL") {
        Keyword::Null
    } else if string_is(upper, "ADD") {
        Keyword::Add
    } else if string_is(upper, "CONSTRAINT") {
        Keyword::Constraint
    } else if string_is(upper, "PRIMARY") {
        Keyword::Primary
    } else if string_is(upper, "FOREIGN") {
        Keyword::Foreign
    } else if string_is(upper, "REFERENCES") {
        Keyword::References
    } else if string_is(upper, "KEY") {
        Keyword::Key
    } else {
        Keyword::NoKeyword
    }
}

impl Token {
    /// The word token for `keyword`, unquoted.
    pub fn make_keyword(keyword: &str) -> (t: Token)
        ensures
            t@ == word_token(keyword@, None),
    {
        Token::make_word(keyword, None)
    }

    /// The word token with text `word` and quote style `quote_style`; when it is
    /// unquoted, its keyword is the one its uppercase form spells.
    pub fn make_word(word: &str, quote_style: Option<char>) -> (t: Token)
        ensures
            t@ == word_token(word@, quote_style),
    {
        let word_uppercase = to_uppercase(word);
        let keyword = match quote_style {
            None => keyword_of_uppercase_exec(&word_uppercase),
            Some(_) => Keyword::NoKeyword,
        };
        Token::Word(Word { value: word.to_string(), quote_style, keyword })
    }
}

} // verus!
