use vstd::prelude::*;

use super::token::TokenType;
use crate::text::{same_text, to_uppercase, uppercase};

verus! {

/// The keyword that an upper-case word spells, if it spells one.
pub open spec fn keyword_of(upper: Seq<char>) -> Option<TokenType> {
    if upper == "SELECT"@ {
        Some(TokenType::Select)
    } else if upper == "FROM"@ {
        Some(TokenType::From)
    } else if upper == "WHERE"@ {
        Some(TokenType::Where)
    } else if upper == "AND"@ {
        Some(TokenType::And)
    } else if upper == "OR"@ {
        Some(TokenType::Or)
    } else if upper == "INSERT"@ {
        Some(TokenType::Insert)
    } else if upper == "INTO"@ {
        Some(TokenType::Into)
    } else if upper == "VALUES"@ {
        Some(TokenType::Values)
    } else if upper == "CREATE"@ {
        Some(TokenType::Create)
    } else if upper == "TABLE"@ {
        Some(TokenType::Table)
    } else if upper == "DELETE"@ {
        Some(TokenType::Delete)
    } else if upper == "UPDATE"@ {
        Some(TokenType::Update)
    } else if upper == "SET"@ {
        Some(TokenType::SetKeyword)
    } else if upper == "AS"@ {
        Some(TokenType::As)
    } else {
        None
    }
}

/// Looks an upper-case word up in the keyword table.
pub fn lookup(upper: &str) -> (kind: Option<TokenType>)
    ensures
        kind == keyword_of(upper@),
{
    if same_text(upper, "SELECT") {
        Some(TokenType::Select)
    } else if same_text(upper, "FROM") {
        Some(TokenType::From)
    } else if same_text(upper, "WHERE") {
        Some(TokenType::Where)
    } else if same_text(upper, "AND") {
        Some(TokenType::And)
    } else if same_text(upper, "OR") {
        Some(TokenType::Or)
    } else if same_text(upper, "INSERT") {
        Some(TokenType::Insert)
    } else if same_text(upper, "INTO") {
        Some(TokenType::Into)
    } else if same_text(upper, "VALUES") {
        Some(TokenType::Values)
    } else if same_text(upper, "CREATE") {
        Some(TokenType::Create)
    } else if same_text(upper, "TABLE") {
        Some(TokenType::Table)
    } else if same_text(upper, "DELETE") {
        Some(TokenType::Delete)
    } else if same_text(upper, "UPDATE") {
        Some(TokenType::Update)
    } else if same_text(upper, "SET") {
        Some(TokenType::SetKeyword)
    } else if same_text(upper, "AS") {
        Some(TokenType::As)
    } else {
        None
    }
}

/// The keyword that `text` spells in any mix of upper and lower case.
pub fn get(text: &str) -> (kind: Option<TokenType>)
    ensures
        kind == keyword_of(uppercase(text@)),
{
    let upper = to_uppercase(text);
    lookup(upper.as_str())
}

} // verus!
