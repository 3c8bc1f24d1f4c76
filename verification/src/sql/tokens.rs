//! The tokens of the SQL language.
use vstd::prelude::*;
use crate::text::str_eq;

verus! {

/// The kind of a lexed token, with its text where it has one.
#[derive(Debug, Clone, PartialEq)]
pub enum TokenType {
    /// Keyword SELECT
    Select,
    /// Keyword FROM
    From,
    /// Keyword WHERE
    Where,
    /// Keyword INSERT
    Insert,
    /// Keyword INTO
    Into,
    /// Keyword VALUES
    Values,
    /// Keyword UPDATE
    Update,
    /// Keyword SET
    SetKeyword,
    /// Keyword DELETE
    Delete,
    /// Keyword CREATE
    Create,
    /// Keyword TABLE
    Table,
    /// Keyword ORDER
    Order,
    /// Keyword BY
    By,
    /// Keyword GROUPBY
    GroupBy,
    /// Keyword GROUP
    Group,
    /// Keyword HAVING
    Having,
    /// Keyword LIMIT
    Limit,
    /// Keyword OFFSET
    Offset,
    /// Keyword AND
    And,
    /// Keyword OR
    Or,
    /// Keyword NOT
    Not,
    /// Keyword AS
    As,
    /// Keyword DISTINCT
    Distinct,
    /// Keyword JOIN
    Join,
    /// Keyword INNER
    Inner,
    /// Keyword LEFT
    Left,
    /// Keyword RIGHT
    Right,
    /// Keyword ON
    On,
    /// Keyword INTEGER
    Integer,
    /// Keyword REAL
    Real,
    /// Keyword TEXT
    Text,
    /// Keyword BLOB
    Blob,
    /// Numeric literal text
    Number(String),
    /// String literal contents
    String(String),
    /// Keyword NULL
    Null,
    /// Keyword TRUE
    True,
    /// Keyword FALSE
    False,
    /// Identifier
    Identifier(String),
    /// `=`
    Equal,
    /// `!=` or `<>`
    NotEqual,
    /// `<`
    Less,
    /// `<=`
    LessEqual,
    /// `>`
    Greater,
    /// `>=`
    GreaterEqual,
    /// `+`
    Plus,
    /// `-`
    Minus,
    /// `*`
    Star,
    /// `/`
    Slash,
    /// `%`
    Percent,
    /// `(`
    LeftParen,
    /// `)`
    RightParen,
    /// `,`
    Comma,
    /// `;`
    Semicolon,
    /// `.`
    Dot,
    /// End of input
    Eof,
    /// A character sequence that is not a token, with the reason
    Invalid(String),
}

/// The mathematical content of a token type: its kind and its text.
pub enum TokenTypeView {
    Select,
    From,
    Where,
    Insert,
    Into,
    Values,
    Update,
    SetKeyword,
    Delete,
    Create,
    Table,
    Order,
    By,
    GroupBy,
    Group,
    Having,
    Limit,
    Offset,
    And,
    Or,
    Not,
    As,
    Distinct,
    Join,
    Inner,
    Left,
    Right,
    On,
    Integer,
    Real,
    Text,
    Blob,
    Number(Seq<char>),
    String(Seq<char>),
    Null,
    True,
    False,
    Identifier(Seq<char>),
    Equal,
    NotEqual,
    Less,
    LessEqual,
    Greater,
    GreaterEqual,
    Plus,
    Minus,
    Star,
    Slash,
    Percent,
    LeftParen,
    RightParen,
    Comma,
    Semicolon,
    Dot,
    Eof,
    Invalid(Seq<char>),
}

impl View for TokenType {
    type V = TokenTypeView;

    open spec fn view(&self) -> TokenTypeView {
        match self {
            TokenType::Select => TokenTypeView::Select,
            TokenType::From => TokenTypeView::From,
            TokenType::Where => TokenTypeView::Where,
            TokenType::Insert => TokenTypeView::Insert,
            TokenType::Into => TokenTypeView::Into,
            TokenType::Values => TokenTypeView::Values,
            TokenType::Update => TokenTypeView::Update,
            TokenType::SetKeyword => TokenTypeView::SetKeyword,
            TokenType::Delete => TokenTypeView::Delete,
            TokenType::Create => TokenTypeView::Create,
            TokenType::Table => TokenTypeView::Table,
            TokenType::Order => TokenTypeView::Order,
            TokenType::By => TokenTypeView::By,
            TokenType::GroupBy => TokenTypeView::GroupBy,
            TokenType::Group => TokenTypeView::Group,
            TokenType::Having => TokenTypeView::Having,
            TokenType::Limit => TokenTypeView::Limit,
            TokenType::Offset => TokenTypeView::Offset,
            TokenType::And => TokenTypeView::And,
            TokenType::Or => TokenTypeView::Or,
            TokenType::Not => TokenTypeView::Not,
            TokenType::As => TokenTypeView::As,
            TokenType::Distinct => TokenTypeView::Distinct,
            TokenType::Join => TokenTypeView::Join,
            TokenType::Inner => TokenTypeView::Inner,
            TokenType::Left => TokenTypeView::Left,
            TokenType::Right => TokenTypeView::Right,
            TokenType::On => TokenTypeView::On,
            TokenType::Integer => TokenTypeView::Integer,
            TokenType::Real => TokenTypeView::Real,
            TokenType::Text => TokenTypeView::Text,
            TokenType::Blob => TokenTypeView::Blob,
            TokenType::Number(s) => TokenTypeView::Number(s@),
            TokenType::String(s) => TokenTypeView::String(s@),
            TokenType::Null => TokenTypeView::Null,
            TokenType::True => TokenTypeView::True,
            TokenType::False => TokenTypeView::False,
            TokenType::Identifier(s) => TokenTypeView::Identifier(s@),
            TokenType::Equal => TokenTypeView::Equal,
            TokenType::NotEqual => TokenTypeView::NotEqual,
            TokenType::Less => TokenTypeView::Less,
            TokenType::LessEqual => TokenTypeView::LessEqual,
            TokenType::Greater => TokenTypeView::Greater,
            TokenType::GreaterEqual => TokenTypeView::GreaterEqual,
            TokenType::Plus => TokenTypeView::Plus,
            TokenType::Minus => TokenTypeView::Minus,
            TokenType::Star => TokenTypeView::Star,
            TokenType::Slash => TokenTypeView::Slash,
            TokenType::Percent => TokenTypeView::Percent,
            TokenType::LeftParen => TokenTypeView::LeftParen,
            TokenType::RightParen => TokenTypeView::RightParen,
            TokenType::Comma => TokenTypeView::Comma,
            TokenType::Semicolon => TokenTypeView::Semicolon,
            TokenType::Dot => TokenTypeView::Dot,
            TokenType::Eof => TokenTypeView::Eof,
            TokenType::Invalid(s) => TokenTypeView::Invalid(s@),
        }
    }
}

/// Represents a lexed token with position information
#[derive(Debug, Clone, PartialEq)]
pub struct Token {
    /// The type of token
    pub token_type: TokenType,
    /// Line number in source
    pub line: usize,
    /// Column number in source
    pub column: usize,
}

impl Token {
    /// Create a new token
    pub fn new(token_type: TokenType, line: usize, column: usize) -> (t: Self)
        ensures
            t.token_type == token_type,
            t.line == line,
            t.column == column,
    {
        Token { token_type, line, column }
    }
}

/// The token type that an upper-cased word stands for, if it is a keyword.
pub open spec fn spec_keyword(u: Seq<char>) -> Option<TokenTypeView> {
    if u == "SELECT"@ { Some(TokenTypeView::Select) }
    else if u == "FROM"@ { Some(TokenTypeView::From) }
    else if u == "WHERE"@ { Some(TokenTypeView::Where) }
    else if u == "INSERT"@ { Some(TokenTypeView::Insert) }
    else if u == "INTO"@ { Some(TokenTypeView::Into) }
    else if u == "VALUES"@ { Some(TokenTypeView::Values) }
    else if u == "UPDATE"@ { Some(TokenTypeView::Update) }
    else if u == "SET"@ { Some(TokenTypeView::SetKeyword) }
    else if u == "DELETE"@ { Some(TokenTypeView::Delete) }
    else if u == "CREATE"@ { Some(TokenTypeView::Create) }
    else if u == "TABLE"@ { Some(TokenTypeView::Table) }
    else if u == "ORDER"@ { Some(TokenTypeView::Order) }
    else if u == "BY"@ { Some(TokenTypeView::By) }
    else if u == "GROUP"@ { Some(TokenTypeView::Group) }
    else if u == "HAVING"@ { Some(TokenTypeView::Having) }
    else if u == "LIMIT"@ { Some(TokenTypeView::Limit) }
    else if u == "OFFSET"@ { Some(TokenTypeView::Offset) }
    else if u == "AND"@ { Some(TokenTypeView::And) }
    else if u == "OR"@ { Some(TokenTypeView::Or) }
    else if u == "NOT"@ { Some(TokenTypeView::Not) }
    else if u == "AS"@ { Some(TokenTypeView::As) }
    else if u == "DISTINCT"@ { Some(TokenTypeView::Distinct) }
    else if u == "JOIN"@ { Some(TokenTypeView::Join) }
    else if u == "INNER"@ { Some(TokenTypeView::Inner) }
    else if u == "LEFT"@ { Some(TokenTypeView::Left) }
    else if u == "RIGHT"@ { Some(TokenTypeView::Right) }
    else if u == "ON"@ { Some(TokenTypeView::On) }
    else if u == "INTEGER"@ { Some(TokenTypeView::Integer) }
    else if u == "INT"@ { Some(TokenTypeView::Integer) }
    else if u == "REAL"@ { Some(TokenTypeView::Real) }
    else if u == "FLOAT"@ { Some(TokenTypeView::Real) }
    else if u == "TEXT"@ { Some(TokenTypeView::Text) }
    else if u == "VARCHAR"@ { Some(TokenTypeView::Text) }
    else if u == "BLOB"@ { Some(TokenTypeView::Blob) }
    else if u == "NULL"@ { Some(TokenTypeView::Null) }
    else if u == "TRUE"@ { Some(TokenTypeView::True) }
    else if u == "FALSE"@ { Some(TokenTypeView::False) }
    else { None }
}

/// Whether a token type is one of the statement and clause keywords.
pub open spec fn spec_is_keyword(t: TokenTypeView) -> bool {
    t is Select || t is From || t is Where || t is Insert || t is Into || t is Values || t is Update || t is SetKeyword || t is Delete || t is Create || t is Table || t is Order || t is By || t is Group || t is Having || t is Limit || t is Offset || t is And || t is Or || t is Not
}

/// What `str::to_uppercase` gives for a string: its Unicode upper case.
pub uninterp spec fn str_upper(s: Seq<char>) -> Seq<char>;

/// Whether every character of a string is ASCII.
pub open spec fn all_ascii(s: Seq<char>) -> bool {
    forall|i: int| 0 <= i < s.len() ==> (#[trigger] s[i] as u32) < 0x80
}

/// The ASCII upper case of a string: `a`-`z` become `A`-`Z`, every other
/// character stays.
pub open spec fn ascii_upper(s: Seq<char>) -> Seq<char> {
    Seq::new(s.len(), |i: int| if 'a' <= s[i] <= 'z' { ((s[i] as u32) - 32) as char } else { s[i] })
}

/// The upper case of a string, as `str::to_uppercase` gives it: the ASCII
/// upper case for an ASCII string, else the Unicode upper case.
pub open spec fn upper_case(s: Seq<char>) -> Seq<char> {
    if all_ascii(s) { ascii_upper(s) } else { str_upper(s) }
}

/// `str::to_uppercase`: the upper-case form of a string.  Its result is a
/// function of the string alone, named `str_upper`; on an ASCII string it
/// maps `a`-`z` to `A`-`Z` and keeps every other character, as the Unicode
/// case mapping does for ASCII.  The Unicode case tables behind it are not
/// restated here.
#[verifier::external_body]
pub(crate) fn to_uppercase(s: &str) -> (r: String)
    ensures
        r@ == str_upper(s@),
        all_ascii(s@) ==> r@ == ascii_upper(s@),
{
    s.to_uppercase()
}

/// The keyword named by a word that is already in upper case.
pub fn keyword_of_upper(upper: &str) -> (r: Option<TokenType>)
    ensures
        match r {
            Some(t) => spec_keyword(upper@) == Some(t@),
            None => spec_keyword(upper@) is None,
        },
{
    if str_eq(upper, "SELECT") {
        Some(TokenType::Select)
    } else if str_eq(upper, "FROM") {
        Some(TokenType::From)
    } else if str_eq(upper, "WHERE") {
        Some(TokenType::Where)
    } else if str_eq(upper, "INSERT") {
        Some(TokenType::Insert)
    } else if str_eq(upper, "INTO") {
        Some(TokenType::Into)
    } else if str_eq(upper, "VALUES") {
        Some(TokenType::Values)
    } else if str_eq(upper, "UPDATE") {
        Some(TokenType::Update)
    } else if str_eq(upper, "SET") {
        Some(TokenType::SetKeyword)
    } else if str_eq(upper, "DELETE") {
        Some(TokenType::Delete)
    } else if str_eq(upper, "CREATE") {
        Some(TokenType::Create)
    } else if str_eq(upper, "TABLE") {
        Some(TokenType::Table)
    } else if str_eq(upper, "ORDER") {
        Some(TokenType::Order)
    } else if str_eq(upper, "BY") {
        Some(TokenType::By)
    } else if str_eq(upper, "GROUP") {
        Some(TokenType::Group)
    } else if str_eq(upper, "HAVING") {
        Some(TokenType::Having)
    } else if str_eq(upper, "LIMIT") {
        Some(TokenType::Limit)
    } else if str_eq(upper, "OFFSET") {
        Some(TokenType::Offset)
    } else if str_eq(upper, "AND") {
        Some(TokenType::And)
    } else if str_eq(upper, "OR") {
        Some(TokenType::Or)
    } else if str_eq(upper, "NOT") {
        Some(TokenType::Not)
    } else if str_eq(upper, "AS") {
        Some(TokenType::As)
    } else if str_eq(upper, "DISTINCT") {
        Some(TokenType::Distinct)
    } else if str_eq(upper, "JOIN") {
        Some(TokenType::Join)
    } else if str_eq(upper, "INNER") {
        Some(TokenType::Inner)
    } else if str_eq(upper, "LEFT") {
        Some(TokenType::Left)
    } else if str_eq(upper, "RIGHT") {
        Some(TokenType::Right)
    } else if str_eq(upper, "ON") {
        Some(TokenType::On)
    } else if str_eq(upper, "INTEGER") {
        Some(TokenType::Integer)
    } else if str_eq(upper, "INT") {
        Some(TokenType::Integer)
    } else if str_eq(upper, "REAL") {
        Some(TokenType::Real)
    } else if str_eq(upper, "FLOAT") {
        Some(TokenType::Real)
    } else if str_eq(upper, "TEXT") {
        Some(TokenType::Text)
    } else if str_eq(upper, "VARCHAR") {
        Some(TokenType::Text)
    } else if str_eq(upper, "BLOB") {
        Some(TokenType::Blob)
    } else if str_eq(upper, "NULL") {
        Some(TokenType::Null)
    } else if str_eq(upper, "TRUE") {
        Some(TokenType::True)
    } else if str_eq(upper, "FALSE") {
        Some(TokenType::False)
    } else {
        None
    }
}

impl TokenType {
    /// Check if this is a keyword
    pub fn is_keyword(&self) -> (b: bool)
        ensures
            b == spec_is_keyword(self@),
    {
        matches!(
            self,
            TokenType::Select
            | TokenType::From
            | TokenType::Where
            | TokenType::Insert
            | TokenType::Into
            | TokenType::Values
            | TokenType::Update
            | TokenType::SetKeyword
            | TokenType::Delete
            | TokenType::Create
            | TokenType::Table
            | TokenType::Order
            | TokenType::By
            | TokenType::Group
            | TokenType::Having
            | TokenType::Limit
            | TokenType::Offset
            | TokenType::And
            | TokenType::Or
            | TokenType::Not
        )
    }

    /// Get keyword from string, whatever its case
    pub fn keyword(word: &str) -> (r: Option<TokenType>)
        ensures
            match r {
                Some(t) => spec_keyword(upper_case(word@)) == Some(t@),
                None => spec_keyword(upper_case(word@)) is None,
            },
    {
        let upper = to_uppercase(word);
        keyword_of_upper(upper.as_str())
    }
}

} // verus!
