use vstd::prelude::*;
use vstd::string::StringExecFns;

use crate::tokenizer::Token;

verus! {

/// The model of a [`JsonError`]: the same variants, with every text payload
/// as a character sequence.
pub enum ErrModel {
    UnexpectedToken(Seq<char>),
    UnexpectedEndOfJson,
    InvalidType(Seq<char>),
    UndefinedField(Seq<char>),
    UnexpectedCharacter(char),
    InvalidNumber,
    ParsingFailed(Seq<char>),
}

/// Everything that can go wrong while reading JSON text.
///
/// `InvalidType` and `UndefinedField` are reserved for callers that project a
/// [`crate::JsonValue`] into a typed structure; the codec itself never
/// returns them.
#[derive(Debug, PartialEq)]
pub enum JsonError {
    UnexpectedToken(String),
    UnexpectedEndOfJson,
    InvalidType(String),
    UndefinedField(String),
    UnexpectedCharacter(char),
    InvalidNumber,
    ParsingFailed(String),
}

impl View for JsonError {
    type V = ErrModel;

    open spec fn view(&self) -> ErrModel {
        match self {
            JsonError::UnexpectedToken(s) => ErrModel::UnexpectedToken(s@),
            JsonError::UnexpectedEndOfJson => ErrModel::UnexpectedEndOfJson,
            JsonError::InvalidType(s) => ErrModel::InvalidType(s@),
            JsonError::UndefinedField(s) => ErrModel::UndefinedField(s@),
            JsonError::UnexpectedCharacter(c) => ErrModel::UnexpectedCharacter(*c),
            JsonError::InvalidNumber => ErrModel::InvalidNumber,
            JsonError::ParsingFailed(s) => ErrModel::ParsingFailed(s@),
        }
    }
}

impl JsonError {
    /// The error for a token that is grammatically out of place; its payload
    /// names the kind of the offending token.
    pub fn unexpected_token(token: Token) -> (r: JsonError)
        ensures
            r@ == ErrModel::UnexpectedToken(token@.describe()),
    {
        JsonError::UnexpectedToken(token.describe())
    }

    pub fn invalid_type(typ: String) -> (r: JsonError)
        ensures
            r@ == ErrModel::InvalidType(typ@),
    {
        JsonError::InvalidType(typ)
    }

    pub fn undefined_field(field: String) -> (r: JsonError)
        ensures
            r@ == ErrModel::UndefinedField(field@),
    {
        JsonError::UndefinedField(field)
    }

    /// The error for a byte that cannot begin any token, reported as the
    /// character with that scalar value.
    pub fn unexpected_character(byte: u8) -> (r: JsonError)
        ensures
            r@ == ErrModel::UnexpectedCharacter(((byte as u32) as char)),
    {
        match char::from_u32(byte as u32) {
            Some(c) => {
                proof {
                    vstd::utf8::char_u32_cast(c, byte as u32);
                }
                JsonError::UnexpectedCharacter(c)
            },
            None => JsonError::UnexpectedCharacter('?'),
        }
    }

    pub fn parsing_faild(err: String) -> (r: JsonError)
        ensures
            r@ == ErrModel::ParsingFailed(err@),
    {
        JsonError::ParsingFailed(err)
    }
}

} // verus!
