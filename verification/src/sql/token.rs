use vstd::prelude::*;

verus! {

/// The kinds of token that the lexer produces.
#[derive(Debug, Clone, Copy, PartialEq, Eq, Structural)]
pub enum TokenType {
    // Punctuation
    LeftParen,
    RightParen,
    Comma,
    Dot,
    Semicolon,
    Star,
    // Comparison operators
    Equal,
    NotEqual,
    Less,
    LessEqual,
    Greater,
    GreaterEqual,
    // Literals
    Identifier,
    String,
    Number,
    // Keywords
    Select,
    From,
    Where,
    And,
    Or,
    Insert,
    Into,
    Values,
    Create,
    Table,
    Delete,
    Update,
    SetKeyword,
    As,
    /// The end of the input.
    EOF,
}

/// One token: its kind, its text in the statement, the value of a string or
/// number literal, and the line it stands on.
#[derive(Debug, Clone)]
pub struct Token {
    pub token_type: TokenType,
    pub lexeme: String,
    pub literal: Option<String>,
    pub line: usize,
}

/// A token as a plain value.
pub ghost struct TokenView {
    pub token_type: TokenType,
    pub lexeme: Seq<char>,
    pub literal: Option<Seq<char>>,
    pub line: usize,
}

impl View for Token {
    type V = TokenView;

    open spec fn view(&self) -> TokenView {
        TokenView {
            token_type: self.token_type,
            lexeme: self.lexeme@,
            literal: match self.literal {
                Some(s) => Some(s@),
                None => None,
            },
            line: self.line,
        }
    }
}

impl Token {
    /// A token made of its parts.
    pub fn new(
        token_type: TokenType,
        lexeme: String,
        literal: Option<String>,
        line: usize,
    ) -> (token: Self)
        ensures
            token.token_type == token_type,
            token.lexeme == lexeme,
            token.literal == literal,
            token.line == line,
    {
        Token { token_type, lexeme, literal, line }
    }

    /// A copy of the token.
    pub fn duplicate(&self) -> (copy: Self)
        ensures
            copy@ == self@,
    {
        Token {
            token_type: self.token_type,
            lexeme: self.lexeme.clone(),
            literal: match &self.literal {
                Some(s) => Some(s.clone()),
                None => None,
            },
            line: self.line,
        }
    }
}

/// The tokens as plain values.
pub open spec fn tokens_view(tokens: Seq<Token>) -> Seq<TokenView> {
    Seq::new(tokens.len(), |i: int| tokens[i]@)
}

/// Copies tokens.
pub fn copy_tokens(tokens: &Vec<Token>) -> (copy: Vec<Token>)
    ensures
        tokens_view(copy@) == tokens_view(tokens@),
{
    let mut copy: Vec<Token> = Vec::new();
    let mut i: usize = 0;
    while i < tokens.len()
        invariant
            i <= tokens@.len(),
            copy@.len() == i,
            forall|j: int| 0 <= j < i ==> #[trigger] copy@[j]@ == tokens@[j]@,
        decreases tokens@.len() - i,
    {
        copy.push(tokens[i].duplicate());
        i = i + 1;
    }
    proof {
        assert(tokens_view(copy@) =~= tokens_view(tokens@));
    }
    copy
}

} // verus!
