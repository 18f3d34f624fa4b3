use vstd::prelude::*;
use vstd::string::*;

use super::keywords::{get, keyword_of};
use super::token::{tokens_view, Token, TokenType, TokenView};
use crate::text::{
    alphabetic, chars_of, digit, find_from, is_alphabetic, is_digit, lemma_find_from_bounds,
    text_of, uppercase,
};

verus! {

/// Whether a character can stand in an identifier after its first
/// character: a letter, which `letter` says, or an underscore.
pub open spec fn word_part(c: char, letter: bool) -> bool {
    letter || c == '_'
}

/// Whether a character can stand in an identifier after its first
/// character, given whether it is a letter.
pub fn identifier_part(c: char, letter: bool) -> (part: bool)
    ensures
        part == word_part(c, letter),
{
    letter || c == '_'
}

/// Whether the character at place `i` is a letter, as `letters` says.
pub open spec fn letter_at(letters: Seq<bool>, i: int) -> bool {
    0 <= i < letters.len() && letters[i]
}

/// For each character of a statement, whether it is a letter: whether it
/// has the Unicode property `Alphabetic`.
pub open spec fn classified(src: Seq<char>) -> Seq<bool> {
    Seq::new(src.len(), |i: int| alphabetic(src[i]))
}

/// The end of the identifier characters that start at `pos`.
pub open spec fn word_end(src: Seq<char>, letters: Seq<bool>, pos: int) -> int
    decreases src.len() - pos,
{
    if pos < 0 || pos >= src.len() || !word_part(src[pos], letter_at(letters, pos)) {
        pos
    } else {
        word_end(src, letters, pos + 1)
    }
}

/// The end of the digits that start at `pos`.
pub open spec fn digits_end(src: Seq<char>, pos: int) -> int
    decreases src.len() - pos,
{
    if pos < 0 || pos >= src.len() || !digit(src[pos]) {
        pos
    } else {
        digits_end(src, pos + 1)
    }
}

/// The end of the number that starts at `pos`: digits, and then a point and
/// more digits where a digit follows the point.
pub open spec fn number_end(src: Seq<char>, pos: int) -> int {
    let whole = digits_end(src, pos);
    if 0 <= whole && whole + 1 < src.len() && src[whole] == '.' && digit(src[whole + 1]) {
        digits_end(src, whole + 1)
    } else {
        whole
    }
}

/// The line number after one more line break; it stops at the largest
/// number that the machine holds.
pub open spec fn next_line(line: usize) -> usize {
    if line < usize::MAX {
        (line + 1) as usize
    } else {
        line
    }
}

/// The line number after `src[from..to]`, where `line` is the one before.
pub open spec fn line_after(src: Seq<char>, from: int, to: int, line: usize) -> usize
    decreases to - from,
{
    if from >= to || from < 0 || from >= src.len() {
        line
    } else {
        line_after(
            src,
            from + 1,
            to,
            if src[from] == '\n' {
                next_line(line)
            } else {
                line
            },
        )
    }
}

/// A token without a literal value.
pub open spec fn plain_token(
    kind: TokenType,
    src: Seq<char>,
    from: int,
    to: int,
    line: usize,
) -> TokenView {
    TokenView { token_type: kind, lexeme: src.subrange(from, to), literal: None, line }
}

/// The kind of token that a word is: a keyword, in any mix of upper and
/// lower case, or an identifier.
pub open spec fn word_kind(word: Seq<char>) -> TokenType {
    match keyword_of(uppercase(word)) {
        Some(kind) => kind,
        None => TokenType::Identifier,
    }
}

/// What the lexer does at `pos`, where the input has not ended and
/// `letters` says which of its characters are letters: where it
/// goes on, the line number there, and the token that it has read, if any.
/// White space separates tokens; a line break raises the line number, also
/// inside a string; a string without its closing quote is dropped; a
/// character that starts no token is passed over.
pub open spec fn scan_step(src: Seq<char>, letters: Seq<bool>, pos: int, line: usize) -> (
    int,
    usize,
    Option<TokenView>,
) {
    let c = src[pos];
    let followed = pos + 1 < src.len() && src[pos + 1] == '=';
    if c == '(' {
        (pos + 1, line, Some(plain_token(TokenType::LeftParen, src, pos, pos + 1, line)))
    } else if c == ')' {
        (pos + 1, line, Some(plain_token(TokenType::RightParen, src, pos, pos + 1, line)))
    } else if c == ',' {
        (pos + 1, line, Some(plain_token(TokenType::Comma, src, pos, pos + 1, line)))
    } else if c == '.' {
        (pos + 1, line, Some(plain_token(TokenType::Dot, src, pos, pos + 1, line)))
    } else if c == ';' {
        (pos + 1, line, Some(plain_token(TokenType::Semicolon, src, pos, pos + 1, line)))
    } else if c == '*' {
        (pos + 1, line, Some(plain_token(TokenType::Star, src, pos, pos + 1, line)))
    } else if c == '=' {
        (pos + 1, line, Some(plain_token(TokenType::Equal, src, pos, pos + 1, line)))
    } else if c == '!' {
        if followed {
            (pos + 2, line, Some(plain_token(TokenType::NotEqual, src, pos, pos + 2, line)))
        } else {
            (pos + 1, line, None)
        }
    } else if c == '<' {
        if followed {
            (pos + 2, line, Some(plain_token(TokenType::LessEqual, src, pos, pos + 2, line)))
        } else {
            (pos + 1, line, Some(plain_token(TokenType::Less, src, pos, pos + 1, line)))
        }
    } else if c == '>' {
        if followed {
            (pos + 2, line, Some(plain_token(TokenType::GreaterEqual, src, pos, pos + 2, line)))
        } else {
            (pos + 1, line, Some(plain_token(TokenType::Greater, src, pos, pos + 1, line)))
        }
    } else if c == '\n' {
        (pos + 1, next_line(line), None)
    } else if c == '"' || c == '\'' {
        let close = find_from(src, c, pos + 1);
        let ends = line_after(src, pos + 1, close, line);
        if close >= src.len() {
            (src.len() as int, ends, None)
        } else {
            (
                close + 1,
                ends,
                Some(
                    TokenView {
                        token_type: TokenType::String,
                        lexeme: src.subrange(pos, close + 1),
                        literal: Some(src.subrange(pos + 1, close)),
                        line: ends,
                    },
                ),
            )
        }
    } else if digit(c) {
        let end = number_end(src, pos + 1);
        (
            end,
            line,
            Some(
                TokenView {
                    token_type: TokenType::Number,
                    lexeme: src.subrange(pos, end),
                    literal: Some(src.subrange(pos, end)),
                    line,
                },
            ),
        )
    } else if letter_at(letters, pos) {
        let end = word_end(src, letters, pos + 1);
        (end, line, Some(plain_token(word_kind(src.subrange(pos, end)), src, pos, end, line)))
    } else {
        (pos + 1, line, None)
    }
}

/// The token that ends every input.
pub open spec fn end_token(line: usize) -> TokenView {
    TokenView { token_type: TokenType::EOF, lexeme: Seq::empty(), literal: None, line }
}

/// The tokens of `src[pos..]` after the tokens `acc`, and the end token.
pub open spec fn lex_from(
    src: Seq<char>,
    letters: Seq<bool>,
    pos: int,
    line: usize,
    acc: Seq<TokenView>,
) -> Seq<TokenView>
    decreases src.len() - pos,
{
    if pos < 0 || pos >= src.len() {
        acc.push(end_token(line))
    } else {
        let step = scan_step(src, letters, pos, line);
        if step.0 <= pos || step.0 > src.len() {
            acc.push(end_token(line))
        } else {
            lex_from(
                src,
                letters,
                step.0,
                step.1,
                match step.2 {
                    Some(token) => acc.push(token),
                    None => acc,
                },
            )
        }
    }
}

/// The tokens of a statement, and the end token.
pub open spec fn lex(src: Seq<char>) -> Seq<TokenView> {
    lex_from(src, classified(src), 0, 1, Seq::empty())
}

/// The tokens of a statement end with the end token, and with no other.
pub proof fn lemma_lex_ends(
    src: Seq<char>,
    letters: Seq<bool>,
    pos: int,
    line: usize,
    acc: Seq<TokenView>,
)
    ensures
        lex_from(src, letters, pos, line, acc).len() > 0,
        lex_from(src, letters, pos, line, acc).last().token_type == TokenType::EOF,
    decreases src.len() - pos,
{
    if 0 <= pos < src.len() {
        let step = scan_step(src, letters, pos, line);
        if !(step.0 <= pos || step.0 > src.len()) {
            lemma_lex_ends(
                src,
                letters,
                step.0,
                step.1,
                match step.2 {
                    Some(token) => acc.push(token),
                    None => acc,
                },
            );
        }
    }
}

/// Words, digits and numbers end at or after where they start, within the
/// input.
pub proof fn lemma_ends(src: Seq<char>, letters: Seq<bool>, pos: int)
    requires
        0 <= pos <= src.len(),
    ensures
        pos <= word_end(src, letters, pos) <= src.len(),
        pos <= digits_end(src, pos) <= src.len(),
        pos <= number_end(src, pos) <= src.len(),
    decreases src.len() - pos,
{
    if pos < src.len() {
        lemma_ends(src, letters, pos + 1);
    }
    let whole = digits_end(src, pos);
    if whole + 1 < src.len() {
        lemma_digits_end(src, whole + 1);
    }
}

/// Digits end at or after where they start, within the input.
proof fn lemma_digits_end(src: Seq<char>, pos: int)
    requires
        0 <= pos <= src.len(),
    ensures
        pos <= digits_end(src, pos) <= src.len(),
    decreases src.len() - pos,
{
    if pos < src.len() {
        lemma_digits_end(src, pos + 1);
    }
}

/// The lexer: the statement, the tokens read so far, where the token that
/// is being read starts, where the lexer stands, and the line number there.
pub struct Scanner {
    source: Vec<char>,
    letters: Vec<bool>,
    tokens: Vec<Token>,
    start: usize,
    current: usize,
    line: usize,
}

/// The state of the lexer as a plain value.
pub ghost struct ScannerView {
    pub source: Seq<char>,
    pub letters: Seq<bool>,
    pub tokens: Seq<TokenView>,
    pub start: int,
    pub current: int,
    pub line: usize,
}

impl View for Scanner {
    type V = ScannerView;

    closed spec fn view(&self) -> ScannerView {
        ScannerView {
            source: self.source@,
            letters: self.letters@,
            tokens: tokens_view(self.tokens@),
            start: self.start as int,
            current: self.current as int,
            line: self.line,
        }
    }
}

impl Scanner {
    /// The lexer stands within the statement, at or after the start of the
    /// token that is being read.
    pub closed spec fn wf(&self) -> bool {
        self.start <= self.current <= self.source@.len() == self.letters@.len()
    }

    /// A lexer at the start of a statement.
    pub fn new(source: String) -> (scanner: Self)
        ensures
            scanner.wf(),
            scanner@ == (ScannerView {
                source: source@,
                letters: classified(source@),
                tokens: Seq::empty(),
                start: 0,
                current: 0,
                line: 1,
            }),
    {
        let chars = chars_of(source.as_str());
        let mut letters: Vec<bool> = Vec::new();
        let mut i: usize = 0;
        while i < chars.len()
            invariant
                i <= chars@.len(),
                letters@.len() == i,
                forall|j: int| 0 <= j < i ==> letters@[j] == alphabetic(chars@[j]),
            decreases chars@.len() - i,
        {
            letters.push(is_alphabetic(chars[i]));
            i = i + 1;
        }
        proof {
            assert(letters@ =~= classified(chars@));
        }
        Scanner::with_letters(chars, letters)
    }

    /// A lexer at the start of a statement that is given by its characters,
    /// with the word for each of them whether it is a letter.
    pub fn with_letters(source: Vec<char>, letters: Vec<bool>) -> (scanner: Self)
        requires
            source@.len() == letters@.len(),
        ensures
            scanner.wf(),
            scanner@ == (ScannerView {
                source: source@,
                letters: letters@,
                tokens: Seq::empty(),
                start: 0,
                current: 0,
                line: 1,
            }),
    {
        let scanner = Scanner {
            source,
            letters,
            tokens: Vec::new(),
            start: 0,
            current: 0,
            line: 1,
        };
        proof {
            assert(scanner@.tokens =~= Seq::<TokenView>::empty());
        }
        scanner
    }

    /// Reads the rest of the statement, and returns all its tokens, the end
    /// token last.
    pub fn scan_tokens(&mut self) -> (tokens: &Vec<Token>)
        requires
            old(self).wf(),
        ensures
            final(self).wf(),
            tokens_view(tokens@) == lex_from(
                old(self)@.source,
                old(self)@.letters,
                old(self)@.current,
                old(self)@.line,
                old(self)@.tokens,
            ),
            final(self)@.tokens == tokens_view(tokens@),
            final(self)@.source == old(self)@.source,
            final(self)@.letters == old(self)@.letters,
    {
        let ghost whole = lex_from(
            self@.source,
            self@.letters,
            self@.current,
            self@.line,
            self@.tokens,
        );
        while !self.is_at_end()
            invariant
                self.wf(),
                self@.source == old(self)@.source,
                self@.letters == old(self)@.letters,
                whole == lex_from(
                    self@.source,
                    self@.letters,
                    self@.current,
                    self@.line,
                    self@.tokens,
                ),
            decreases self@.source.len() - self@.current,
        {
            self.start = self.current;
            self.scan_token();
        }
        let ghost before = self@.tokens;
        self.tokens.push(Token::new(TokenType::EOF, String::new(), None, self.line));
        proof {
            assert(self@.tokens =~= before.push(end_token(self.line)));
        }
        &self.tokens
    }

    /// Reads one token, or passes over what is none.
    fn scan_token(&mut self)
        requires
            old(self).wf(),
            old(self)@.current < old(self)@.source.len(),
            old(self)@.start == old(self)@.current,
        ensures
            final(self).wf(),
            final(self)@.source == old(self)@.source,
            final(self)@.letters == old(self)@.letters,
            final(self)@.current == scan_step(
                old(self)@.source,
                old(self)@.letters,
                old(self)@.current,
                old(self)@.line,
            ).0,
            final(self)@.current > old(self)@.current,
            final(self)@.line == scan_step(
                old(self)@.source,
                old(self)@.letters,
                old(self)@.current,
                old(self)@.line,
            ).1,
            final(self)@.tokens == match scan_step(
                old(self)@.source,
                old(self)@.letters,
                old(self)@.current,
                old(self)@.line,
            ).2 {
                Some(token) => old(self)@.tokens.push(token),
                None => old(self)@.tokens,
            },
    {
        proof {
            lemma_ends(self@.source, self@.letters, self@.current + 1);
            lemma_find_from_bounds(self@.source, '"', self@.current + 1);
            lemma_find_from_bounds(self@.source, '\'', self@.current + 1);
        }
        let c = self.advance();
        if c == '(' {
            self.add_token(TokenType::LeftParen, None);
        } else if c == ')' {
            self.add_token(TokenType::RightParen, None);
        } else if c == ',' {
            self.add_token(TokenType::Comma, None);
        } else if c == '.' {
            self.add_token(TokenType::Dot, None);
        } else if c == ';' {
            self.add_token(TokenType::Semicolon, None);
        } else if c == '*' {
            self.add_token(TokenType::Star, None);
        } else if c == '=' {
            self.add_token(TokenType::Equal, None);
        } else if c == '!' {
            if self.peek() == '=' && !self.is_at_end() {
                self.advance();
                self.add_token(TokenType::NotEqual, None);
            }
        } else if c == '<' {
            if self.peek() == '=' && !self.is_at_end() {
                self.advance();
                self.add_token(TokenType::LessEqual, None);
            } else {
                self.add_token(TokenType::Less, None);
            }
        } else if c == '>' {
            if self.peek() == '=' && !self.is_at_end() {
                self.advance();
                self.add_token(TokenType::GreaterEqual, None);
            } else {
                self.add_token(TokenType::Greater, None);
            }
        } else if c == '\n' {
            self.line = if self.line < usize::MAX {
                self.line + 1
            } else {
                self.line
            };
        } else if c == '"' || c == '\'' {
            self.string(c);
        } else if is_digit(c) {
            self.number();
        } else if self.letters[self.current - 1] {
            self.identifier();
        }
    }

    /// Reads a string to its closing quote.
    fn string(&mut self, quote: char)
        requires
            old(self).wf(),
            old(self)@.start + 1 == old(self)@.current,
        ensures
            final(self).wf(),
            final(self)@.source == old(self)@.source,
            final(self)@.letters == old(self)@.letters,
            final(self)@.line == line_after(
                old(self)@.source,
                old(self)@.current,
                find_from(old(self)@.source, quote, old(self)@.current),
                old(self)@.line,
            ),
            find_from(old(self)@.source, quote, old(self)@.current) >= old(self)@.source.len()
                ==> final(self)@.current == old(self)@.source.len() && final(self)@.tokens == old(
                self,
            )@.tokens,
            find_from(old(self)@.source, quote, old(self)@.current) < old(self)@.source.len()
                ==> final(self)@.current == find_from(
                old(self)@.source,
                quote,
                old(self)@.current,
            ) + 1 && final(self)@.tokens == old(self)@.tokens.push(
                TokenView {
                    token_type: TokenType::String,
                    lexeme: old(self)@.source.subrange(
                        old(self)@.start,
                        find_from(old(self)@.source, quote, old(self)@.current) + 1,
                    ),
                    literal: Some(
                        old(self)@.source.subrange(
                            old(self)@.current,
                            find_from(old(self)@.source, quote, old(self)@.current),
                        ),
                    ),
                    line: final(self)@.line,
                },
            ),
    {
        let ghost src = self@.source;
        let ghost from = self@.current;
        let ghost first = self@.line;
        let ghost close = find_from(src, quote, from);
        while !self.is_at_end() && self.peek() != quote
            invariant
                self.wf(),
                self@.source == src,
                self@.letters == old(self)@.letters,
                self@.start == old(self)@.start,
                self@.tokens == old(self)@.tokens,
                from <= self@.current <= src.len(),
                close == find_from(src, quote, self@.current),
                line_after(src, from, close, first) == line_after(
                    src,
                    self@.current,
                    close,
                    self@.line,
                ),
            decreases src.len() - self@.current,
        {
            proof {
                lemma_find_from_bounds(src, quote, self@.current + 1);
            }
            if self.peek() == '\n' {
                self.line = if self.line < usize::MAX {
                    self.line + 1
                } else {
                    self.line
                };
            }
            self.advance();
        }
        proof {
            lemma_find_from_bounds(src, quote, self@.current);
        }
        if self.is_at_end() {
            return ;
        }
        self.advance();
        let value = text_of(&self.source, self.start + 1, self.current - 1);
        self.add_token(TokenType::String, Some(value));
    }

    /// Reads a number to its end.
    fn number(&mut self)
        requires
            old(self).wf(),
        ensures
            final(self).wf(),
            final(self)@.source == old(self)@.source,
            final(self)@.letters == old(self)@.letters,
            final(self)@.line == old(self)@.line,
            final(self)@.current == number_end(old(self)@.source, old(self)@.current),
            final(self)@.tokens == old(self)@.tokens.push(
                TokenView {
                    token_type: TokenType::Number,
                    lexeme: old(self)@.source.subrange(old(self)@.start, final(self)@.current),
                    literal: Some(
                        old(self)@.source.subrange(old(self)@.start, final(self)@.current),
                    ),
                    line: old(self)@.line,
                },
            ),
    {
        let ghost src = self@.source;
        let ghost from = self@.current;
        self.digits();
        if !self.is_at_end() && self.peek() == '.' && is_digit(self.peek_next()) {
            self.advance();
            self.digits();
        }
        let literal = text_of(&self.source, self.start, self.current);
        let ghost before = self@.tokens;
        self.tokens.push(
            Token::new(TokenType::Number, literal.clone(), Some(literal), self.line),
        );
        proof {
            assert(self@.tokens =~= before.push(self.tokens@[self.tokens@.len() - 1]@));
        }
    }

    /// Passes over digits.
    fn digits(&mut self)
        requires
            old(self).wf(),
        ensures
            final(self).wf(),
            final(self)@.source == old(self)@.source,
            final(self)@.letters == old(self)@.letters,
            final(self)@.line == old(self)@.line,
            final(self)@.start == old(self)@.start,
            final(self)@.tokens == old(self)@.tokens,
            final(self)@.current == digits_end(old(self)@.source, old(self)@.current),
            final(self).current >= old(self).current,
    {
        let ghost src = self@.source;
        let ghost from = self@.current;
        while !self.is_at_end() && is_digit(self.peek())
            invariant
                self.wf(),
                self@.source == src,
                self@.letters == old(self)@.letters,
                self@.line == old(self)@.line,
                self@.start == old(self)@.start,
                self@.tokens == old(self)@.tokens,
                from <= self@.current <= src.len(),
                digits_end(src, from) == digits_end(src, self@.current),
            decreases src.len() - self@.current,
        {
            self.advance();
        }
    }

    /// Reads a word to its end: a keyword or an identifier.
    fn identifier(&mut self)
        requires
            old(self).wf(),
        ensures
            final(self).wf(),
            final(self)@.source == old(self)@.source,
            final(self)@.letters == old(self)@.letters,
            final(self)@.line == old(self)@.line,
            final(self)@.current == word_end(
                old(self)@.source,
                old(self)@.letters,
                old(self)@.current,
            ),
            final(self)@.tokens == old(self)@.tokens.push(
                plain_token(
                    word_kind(old(self)@.source.subrange(old(self)@.start, final(self)@.current)),
                    old(self)@.source,
                    old(self)@.start,
                    final(self)@.current,
                    old(self)@.line,
                ),
            ),
    {
        let ghost src = self@.source;
        let ghost from = self@.current;
        while !self.is_at_end() && identifier_part(self.peek(), self.letters[self.current])
            invariant
                self.wf(),
                self@.source == src,
                self@.letters == old(self)@.letters,
                self@.line == old(self)@.line,
                self@.start == old(self)@.start,
                self@.tokens == old(self)@.tokens,
                from <= self@.current <= src.len(),
                word_end(src, self@.letters, from) == word_end(src, self@.letters, self@.current),
            decreases src.len() - self@.current,
        {
            self.advance();
        }
        let text = text_of(&self.source, self.start, self.current);
        let kind = match get(text.as_str()) {
            Some(kind) => kind,
            None => TokenType::Identifier,
        };
        self.add_token(kind, None);
    }

    /// Whether the lexer stands at the end of the statement.
    fn is_at_end(&self) -> (ended: bool)
        requires
            self.wf(),
        ensures
            ended == (self@.current >= self@.source.len()),
    {
        self.current >= self.source.len()
    }

    /// Steps over one character, and returns it.
    fn advance(&mut self) -> (c: char)
        requires
            old(self).wf(),
            old(self)@.current < old(self)@.source.len(),
        ensures
            final(self).wf(),
            final(self)@ == (ScannerView { current: old(self)@.current + 1, ..old(self)@ }),
            c == old(self)@.source[old(self)@.current],
    {
        let len = self.source.len();
        self.current = self.current + 1;
        self.source[self.current - 1]
    }

    /// The character where the lexer stands; a zero character at the end.
    fn peek(&self) -> (c: char)
        requires
            self.wf(),
        ensures
            c == if self@.current < self@.source.len() {
                self@.source[self@.current]
            } else {
                '\0'
            },
    {
        if self.is_at_end() {
            '\0'
        } else {
            self.source[self.current]
        }
    }

    /// The character after the one where the lexer stands; a zero character
    /// at the end.
    fn peek_next(&self) -> (c: char)
        requires
            self.wf(),
        ensures
            c == if self@.current + 1 < self@.source.len() {
                self@.source[self@.current + 1]
            } else {
                '\0'
            },
    {
        if self.current >= self.source.len() || self.current + 1 >= self.source.len() {
            '\0'
        } else {
            self.source[self.current + 1]
        }
    }

    /// Adds the token that the lexer has just read.
    fn add_token(&mut self, token_type: TokenType, literal: Option<String>)
        requires
            old(self).wf(),
        ensures
            final(self).wf(),
            final(self)@ == (ScannerView {
                tokens: old(self)@.tokens.push(
                    TokenView {
                        token_type,
                        lexeme: old(self)@.source.subrange(old(self)@.start, old(self)@.current),
                        literal: match literal {
                            Some(s) => Some(s@),
                            None => None,
                        },
                        line: old(self)@.line,
                    },
                ),
                ..old(self)@
            }),
    {
        let text = text_of(&self.source, self.start, self.current);
        let ghost before = self@.tokens;
        self.tokens.push(Token::new(token_type, text, literal, self.line));
        proof {
            assert(self@.tokens =~= before.push(self.tokens@[self.tokens@.len() - 1]@));
        }
    }
}

} // verus!
