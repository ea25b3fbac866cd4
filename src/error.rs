use vstd::prelude::*;

verus! {

/// Every way a parse can fail. The first failure met anywhere in the
/// descent ends the whole parse and reaches the caller unchanged.
#[derive(Debug, Clone, Copy, PartialEq, Eq, Structural)]
pub enum Error {
    /// A value position holds none of the leading characters of a value,
    /// or a required structural character is missing.
    UnexpectedCharacter,
    /// Non-whitespace content follows the top-level value.
    ExtraCharacters,
    /// The document does not start with `{` or `[`.
    NotObjectOrArray,
    /// The raw document ends with `,}` or `,]`.
    TrailingComma,
    /// A member is followed by neither `,` nor `}`.
    ExpectedCommaOrBrace,
    /// An element is followed by neither `,` nor `]`.
    ExpectedCommaOrBracket,
    /// A backslash in a string is followed by a character that starts no escape.
    InvalidEscape,
    /// A raw tab character inside a string.
    TabInString,
    /// A raw newline character inside a string.
    NewlineInString,
    /// The input ends inside a string.
    UnterminatedString,
    /// A numeric literal is not a number of the kind its characters imply.
    InvalidNumber,
    /// An integer literal starts with `0` and has more characters.
    LeadingZero,
    /// A literal that starts like `true` or `false` but is neither.
    InvalidBooleanValue,
    /// A literal that starts like `null` but is not.
    InvalidNullValue,
}

impl Error {
    /// The description of each kind of failure.
    pub open spec fn text(&self) -> Seq<char> {
        match self {
            Error::UnexpectedCharacter => "unexpected character"@,
            Error::ExtraCharacters => "extra characters after the document"@,
            Error::NotObjectOrArray => "a document must be an object or an array"@,
            Error::TrailingComma => "trailing comma detected"@,
            Error::ExpectedCommaOrBrace => "expected '}' or ','"@,
            Error::ExpectedCommaOrBracket => "expected ']' or ','"@,
            Error::InvalidEscape => "invalid escape character"@,
            Error::TabInString => "tab character in string"@,
            Error::NewlineInString => "line break in string"@,
            Error::UnterminatedString => "unterminated string"@,
            Error::InvalidNumber => "invalid number"@,
            Error::LeadingZero => "a number cannot start with 0"@,
            Error::InvalidBooleanValue => "invalid boolean value"@,
            Error::InvalidNullValue => "invalid null value"@,
        }
    }

    /// A short human-readable description of the failure.
    pub fn message(&self) -> (r: String)
        ensures
            r@ == self.text(),
    {
        let text = match self {
            Error::UnexpectedCharacter => "unexpected character",
            Error::ExtraCharacters => "extra characters after the document",
            Error::NotObjectOrArray => "a document must be an object or an array",
            Error::TrailingComma => "trailing comma detected",
            Error::ExpectedCommaOrBrace => "expected '}' or ','",
            Error::ExpectedCommaOrBracket => "expected ']' or ','",
            Error::InvalidEscape => "invalid escape character",
            Error::TabInString => "tab character in string",
            Error::NewlineInString => "line break in string",
            Error::UnterminatedString => "unterminated string",
            Error::InvalidNumber => "invalid number",
            Error::LeadingZero => "a number cannot start with 0",
            Error::InvalidBooleanValue => "invalid boolean value",
            Error::InvalidNullValue => "invalid null value",
        };
        String::from_str(text)
    }
}

} // verus!
