use vstd::prelude::*;

use vstd::string::*;

use super::token::{tokens_view, Token, TokenType, TokenView};

verus! {

/// A literal of a statement. A number is kept as it was written.
#[derive(Debug, Clone)]
pub enum Literal {
    String(String),
    Number(String),
    Boolean(bool),
    Null,
}

/// A literal as a plain value.
pub ghost enum LiteralView {
    String(Seq<char>),
    Number(Seq<char>),
    Boolean(bool),
    Null,
}

impl View for Literal {
    type V = LiteralView;

    open spec fn view(&self) -> LiteralView {
        match self {
            Literal::String(s) => LiteralView::String(s@),
            Literal::Number(s) => LiteralView::Number(s@),
            Literal::Boolean(b) => LiteralView::Boolean(*b),
            Literal::Null => LiteralView::Null,
        }
    }
}

/// An expression of a statement.
#[derive(Debug)]
pub enum Expr {
    Identifier(String),
    Literal(Literal),
    BinaryOp(Box<Expr>, Token, Box<Expr>),
    FunctionCall(Box<Expr>, Vec<Expr>),
    Wildcard,
    Aliased(Box<Expr>, String),
}

/// An expression as a plain value.
pub ghost enum ExprView {
    Identifier(Seq<char>),
    Literal(LiteralView),
    BinaryOp(Box<ExprView>, TokenView, Box<ExprView>),
    FunctionCall(Box<ExprView>, Seq<ExprView>),
    Wildcard,
    Aliased(Box<ExprView>, Seq<char>),
}

/// An expression as a plain value.
pub open spec fn expr_view(expr: Expr) -> ExprView
    decreases expr,
{
    match expr {
        Expr::Identifier(name) => ExprView::Identifier(name@),
        Expr::Literal(literal) => ExprView::Literal(literal@),
        Expr::BinaryOp(left, op, right) => ExprView::BinaryOp(
            Box::new(expr_view(*left)),
            op@,
            Box::new(expr_view(*right)),
        ),
        Expr::FunctionCall(name, args) => ExprView::FunctionCall(
            Box::new(expr_view(*name)),
            Seq::new(
                args@.len(),
                |i: int|
                    if 0 <= i < args@.len() {
                        expr_view(args@[i])
                    } else {
                        ExprView::Wildcard
                    },
            ),
        ),
        Expr::Wildcard => ExprView::Wildcard,
        Expr::Aliased(inner, alias) => ExprView::Aliased(Box::new(expr_view(*inner)), alias@),
    }
}

impl View for Expr {
    type V = ExprView;

    open spec fn view(&self) -> ExprView {
        expr_view(*self)
    }
}

/// The expressions as plain values.
pub open spec fn exprs_view(items: Seq<Expr>) -> Seq<ExprView> {
    Seq::new(items.len(), |i: int| items[i]@)
}

/// The table that a statement reads, and the name it gives it.
#[derive(Debug)]
pub struct TableReference {
    pub name: String,
    pub alias: Option<String>,
}

/// A table reference as a plain value.
pub ghost struct TableReferenceView {
    pub name: Seq<char>,
    pub alias: Option<Seq<char>>,
}

impl View for TableReference {
    type V = TableReferenceView;

    open spec fn view(&self) -> TableReferenceView {
        TableReferenceView {
            name: self.name@,
            alias: match self.alias {
                Some(alias) => Some(alias@),
                None => None,
            },
        }
    }
}

/// A statement: the selected expressions, the table, and the condition.
#[derive(Debug)]
pub enum Stmt {
    Select(Vec<Expr>, Option<TableReference>, Option<Expr>),
}

/// A statement as a plain value.
pub ghost enum StmtView {
    Select(Seq<ExprView>, Option<TableReferenceView>, Option<ExprView>),
}

impl View for Stmt {
    type V = StmtView;

    open spec fn view(&self) -> StmtView {
        match self {
            Stmt::Select(columns, from, condition) => StmtView::Select(
                exprs_view(columns@),
                match from {
                    Some(table) => Some(table@),
                    None => None,
                },
                match condition {
                    Some(expr) => Some(expr@),
                    None => None,
                },
            ),
        }
    }
}

/// Why a statement was rejected: a message, and the token at which the
/// parser stopped.
#[derive(Debug)]
pub struct SyntaxError {
    pub message: String,
    pub token: Token,
}

/// A rejection as a plain value.
pub ghost struct SyntaxErrorView {
    pub message: Seq<char>,
    pub token: TokenView,
}

impl View for SyntaxError {
    type V = SyntaxErrorView;

    open spec fn view(&self) -> SyntaxErrorView {
        SyntaxErrorView { message: self.message@, token: self.token@ }
    }
}

/// The token at `pos`; an end token where the tokens end before it.
pub open spec fn token_at(tokens: Seq<TokenView>, pos: int) -> TokenView {
    if 0 <= pos < tokens.len() {
        tokens[pos]
    } else {
        TokenView { token_type: TokenType::EOF, lexeme: Seq::empty(), literal: None, line: 0 }
    }
}

/// The kind of the token at `pos`.
pub open spec fn kind_at(tokens: Seq<TokenView>, pos: int) -> TokenType {
    token_at(tokens, pos).token_type
}

/// The rejection at `pos` with a message.
pub open spec fn rejected<T>(message: Seq<char>, tokens: Seq<TokenView>, pos: int) -> Result<
    T,
    SyntaxErrorView,
> {
    Err(SyntaxErrorView { message, token: token_at(tokens, pos) })
}

/// The value of a literal token: its literal, or nothing where it has
/// none.
pub open spec fn literal_of(token: TokenView) -> Seq<char> {
    match token.literal {
        Some(s) => s,
        None => Seq::empty(),
    }
}

/// `primary := IDENT | STRING | NUMBER | "*"`, read at `pos`: the
/// expression, and where the parser goes on.
pub open spec fn primary_at(tokens: Seq<TokenView>, pos: int) -> Result<
    (ExprView, int),
    SyntaxErrorView,
> {
    let token = token_at(tokens, pos);
    match token.token_type {
        TokenType::Identifier => Ok((ExprView::Identifier(token.lexeme), pos + 1)),
        TokenType::String => Ok(
            (ExprView::Literal(LiteralView::String(literal_of(token))), pos + 1),
        ),
        TokenType::Number => Ok(
            (ExprView::Literal(LiteralView::Number(literal_of(token))), pos + 1),
        ),
        TokenType::Star => Ok((ExprView::Wildcard, pos + 1)),
        _ => rejected("Expected expression"@, tokens, pos),
    }
}

/// Whether a function call starts at `pos`: an identifier and then `(`.
pub open spec fn call_starts(tokens: Seq<TokenView>, pos: int) -> bool {
    kind_at(tokens, pos) == TokenType::Identifier && kind_at(tokens, pos + 1)
        == TokenType::LeftParen
}

/// `expr := func_call | primary`, read at `pos`.
pub open spec fn expression_at(tokens: Seq<TokenView>, pos: int) -> Result<
    (ExprView, int),
    SyntaxErrorView,
>
    decreases tokens.len() - pos, 2nat,
{
    if call_starts(tokens, pos) {
        function_call_at(tokens, pos)
    } else {
        primary_at(tokens, pos)
    }
}

/// `func_call := IDENT "(" ( "*" | expr ("," expr)* )? ")"`, read at `pos`.
pub open spec fn function_call_at(tokens: Seq<TokenView>, pos: int) -> Result<
    (ExprView, int),
    SyntaxErrorView,
>
    decreases tokens.len() - pos, 1nat,
{
    if !call_starts(tokens, pos) {
        rejected("Expected '(' after function name"@, tokens, pos + 1)
    } else {
        let name = Box::new(ExprView::Identifier(token_at(tokens, pos).lexeme));
        let args = if kind_at(tokens, pos + 2) == TokenType::Star {
            Ok((seq![ExprView::Wildcard], pos + 3))
        } else if kind_at(tokens, pos + 2) == TokenType::RightParen {
            Ok((Seq::empty(), pos + 2))
        } else {
            expressions_at(tokens, pos + 2, Seq::empty())
        };
        match args {
            Err(e) => Err(e),
            Ok((args, end)) => if kind_at(tokens, end) == TokenType::RightParen {
                Ok((ExprView::FunctionCall(name, args), end + 1))
            } else {
                rejected("Expected ')' after function arguments"@, tokens, end)
            },
        }
    }
}

/// `expr ("," expr)*`, read at `pos`, after the expressions `acc`.
pub open spec fn expressions_at(tokens: Seq<TokenView>, pos: int, acc: Seq<ExprView>) -> Result<
    (Seq<ExprView>, int),
    SyntaxErrorView,
>
    decreases tokens.len() - pos, 3nat,
{
    match expression_at(tokens, pos) {
        Err(e) => Err(e),
        Ok((expr, end)) => if kind_at(tokens, end) == TokenType::Comma && pos < end
            < tokens.len() {
            expressions_at(tokens, end + 1, acc.push(expr))
        } else {
            Ok((acc.push(expr), end))
        },
    }
}

/// `table_ref := IDENT [ "AS" IDENT ]`, read at `pos`.
pub open spec fn table_reference_at(tokens: Seq<TokenView>, pos: int) -> Result<
    (TableReferenceView, int),
    SyntaxErrorView,
> {
    if kind_at(tokens, pos) != TokenType::Identifier {
        rejected("Expected table name"@, tokens, pos)
    } else if kind_at(tokens, pos + 1) != TokenType::As {
        Ok((TableReferenceView { name: token_at(tokens, pos).lexeme, alias: None }, pos + 1))
    } else if kind_at(tokens, pos + 2) != TokenType::Identifier {
        rejected("Expected table alias"@, tokens, pos + 2)
    } else {
        Ok(
            (
                TableReferenceView {
                    name: token_at(tokens, pos).lexeme,
                    alias: Some(token_at(tokens, pos + 2).lexeme),
                },
                pos + 3,
            ),
        )
    }
}

/// Whether a kind of token is a comparison operator.
pub open spec fn compares(kind: TokenType) -> bool {
    kind == TokenType::Equal || kind == TokenType::NotEqual || kind == TokenType::Less || kind
        == TokenType::LessEqual || kind == TokenType::Greater || kind == TokenType::GreaterEqual
}

/// The condition after `WHERE`, read at `pos`: `IDENT op expr`, where `op`
/// is one of `=`, `!=`, `<`, `<=`, `>` and `>=`.
pub open spec fn condition_at(tokens: Seq<TokenView>, pos: int) -> Result<
    (ExprView, int),
    SyntaxErrorView,
> {
    if kind_at(tokens, pos) != TokenType::Identifier {
        rejected("Expected column name after 'WHERE'"@, tokens, pos)
    } else if !compares(kind_at(tokens, pos + 1)) {
        rejected("Expected comparison operator"@, tokens, pos + 1)
    } else {
        match expression_at(tokens, pos + 2) {
            Err(e) => Err(e),
            Ok((right, end)) => Ok(
                (
                    ExprView::BinaryOp(
                        Box::new(ExprView::Identifier(token_at(tokens, pos).lexeme)),
                        token_at(tokens, pos + 1),
                        Box::new(right),
                    ),
                    end,
                ),
            ),
        }
    }
}

/// `select_list "FROM" table_ref [ "WHERE" condition ]`, read at `pos`,
/// which is after `SELECT`.
pub open spec fn select_at(tokens: Seq<TokenView>, pos: int) -> Result<
    (StmtView, int),
    SyntaxErrorView,
> {
    match expressions_at(tokens, pos, Seq::empty()) {
        Err(e) => Err(e),
        Ok((columns, end)) => if kind_at(tokens, end) != TokenType::From {
            rejected("Expected 'FROM' after select columns"@, tokens, end)
        } else {
            match table_reference_at(tokens, end + 1) {
                Err(e) => Err(e),
                Ok((table, end)) => if kind_at(tokens, end) != TokenType::Where {
                    Ok((StmtView::Select(columns, Some(table), None), end))
                } else {
                    match condition_at(tokens, end + 1) {
                        Err(e) => Err(e),
                        Ok((condition, end)) => Ok(
                            (StmtView::Select(columns, Some(table), Some(condition)), end),
                        ),
                    }
                },
            }
        },
    }
}

/// The statements from `pos` to the end token, after the statements `acc`.
/// Every statement starts with `SELECT`.
pub open spec fn statements_at(tokens: Seq<TokenView>, pos: int, acc: Seq<StmtView>) -> Result<
    Seq<StmtView>,
    SyntaxErrorView,
>
    decreases tokens.len() - pos,
{
    if kind_at(tokens, pos) == TokenType::EOF {
        Ok(acc)
    } else if kind_at(tokens, pos) != TokenType::Select {
        rejected("Expected 'SELECT'"@, tokens, pos)
    } else {
        match select_at(tokens, pos + 1) {
            Err(e) => Err(e),
            Ok((stmt, end)) => if pos < end {
                statements_at(tokens, end, acc.push(stmt))
            } else {
                Ok(acc.push(stmt))
            },
        }
    }
}

/// The statements that the tokens spell.
pub open spec fn parse_tokens(tokens: Seq<TokenView>) -> Result<Seq<StmtView>, SyntaxErrorView> {
    statements_at(tokens, 0, Seq::empty())
}

/// The statements as plain values.
pub open spec fn stmts_view(stmts: Seq<Stmt>) -> Seq<StmtView> {
    Seq::new(stmts.len(), |i: int| stmts[i]@)
}

/// The view of a call is made of the views of its parts.
pub proof fn lemma_call_view(name: Expr, args: Vec<Expr>)
    ensures
        Expr::FunctionCall(Box::new(name), args)@ == ExprView::FunctionCall(
            Box::new(name@),
            exprs_view(args@),
        ),
{
    reveal_with_fuel(expr_view, 2);
    assert(Expr::FunctionCall(Box::new(name), args)@->FunctionCall_1 =~= exprs_view(args@));
}

/// The parser: the tokens of the statements, and the place of the token
/// that it reads next.
pub struct Parser {
    tokens: Vec<Token>,
    current: usize,
}

/// The state of the parser as a plain value.
pub ghost struct ParserView {
    pub tokens: Seq<TokenView>,
    pub current: int,
}

impl View for Parser {
    type V = ParserView;

    closed spec fn view(&self) -> ParserView {
        ParserView { tokens: tokens_view(self.tokens@), current: self.current as int }
    }
}

/// The tokens with an end token after them, where they do not end with one.
pub open spec fn ended(tokens: Seq<TokenView>) -> Seq<TokenView> {
    if tokens.len() > 0 && tokens.last().token_type == TokenType::EOF {
        tokens
    } else {
        tokens.push(token_at(tokens, tokens.len() as int))
    }
}

impl Parser {
    /// The tokens end with an end token, and the parser stands at a token.
    pub closed spec fn wf(&self) -> bool {
        &&& self.current < self.tokens@.len()
        &&& self.tokens@[self.tokens@.len() - 1].token_type == TokenType::EOF
    }

    /// A parser at the first of the tokens. An end token is put after them
    /// where they do not end with one.
    pub fn new(tokens: Vec<Token>) -> (parser: Self)
        ensures
            parser.wf(),
            parser@ == (ParserView { tokens: ended(tokens_view(tokens@)), current: 0 }),
    {
        let mut tokens = tokens;
        let n = tokens.len();
        let ghost given = tokens_view(tokens@);
        let complete = n > 0 && tokens[n - 1].token_type == TokenType::EOF;
        if !complete {
            tokens.push(Token::new(TokenType::EOF, String::new(), None, 0));
            proof {
                assert(tokens_view(tokens@) =~= given.push(token_at(given, given.len() as int)));
            }
        } else {
            proof {
                assert(given.last() == tokens@[n - 1]@);
            }
        }
        Parser { tokens, current: 0 }
    }

    /// Reads all the statements.
    pub fn parse(&mut self) -> (res: Result<Vec<Stmt>, SyntaxError>)
        requires
            old(self).wf(),
        ensures
            final(self).wf(),
            final(self)@.tokens == old(self)@.tokens,
            match statements_at(old(self)@.tokens, old(self)@.current, Seq::empty()) {
                Ok(stmts) => res is Ok && stmts_view(res->Ok_0@) == stmts,
                Err(e) => res is Err && res->Err_0@ == e,
            },
    {
        let ghost tokens = self@.tokens;
        let ghost whole = statements_at(tokens, self@.current, Seq::empty());
        let mut stmts: Vec<Stmt> = Vec::new();
        proof {
            assert(stmts_view(stmts@) =~= Seq::<StmtView>::empty());
        }
        while !self.is_at_end()
            invariant
                self.wf(),
                self@.tokens == tokens,
                tokens == old(self)@.tokens,
                whole == statements_at(old(self)@.tokens, old(self)@.current, Seq::empty()),
                whole == statements_at(tokens, self@.current, stmts_view(stmts@)),
            decreases tokens.len() - self@.current,
        {
            let ghost before = stmts_view(stmts@);
            match self.parse_stmt() {
                Ok(stmt) => {
                    stmts.push(stmt);
                    proof {
                        assert(stmts_view(stmts@) =~= before.push(stmt@));
                    }
                },
                Err(e) => {
                    return Err(e);
                },
            }
        }
        Ok(stmts)
    }

    /// Reads one statement.
    fn parse_stmt(&mut self) -> (res: Result<Stmt, SyntaxError>)
        requires
            old(self).wf(),
        ensures
            final(self).wf(),
            final(self)@.tokens == old(self)@.tokens,
            res is Ok ==> final(self)@.current > old(self)@.current,
            if kind_at(old(self)@.tokens, old(self)@.current) != TokenType::Select {
                res is Err && Err::<(StmtView, int), SyntaxErrorView>(res->Err_0@) == rejected::<
                    (StmtView, int),
                >("Expected 'SELECT'"@, old(self)@.tokens, old(self)@.current)
            } else {
                match select_at(old(self)@.tokens, old(self)@.current + 1) {
                    Ok((stmt, end)) => res is Ok && res->Ok_0@ == stmt && final(self)@.current
                        == end,
                    Err(e) => res is Err && res->Err_0@ == e,
                }
            },
    {
        let select = [TokenType::Select];
        if self.matches(select.as_slice()) {
            return self.select_stmt();
        }
        Err(self.error("Expected 'SELECT'", 0))
    }

    /// Reads a statement after its `SELECT`.
    fn select_stmt(&mut self) -> (res: Result<Stmt, SyntaxError>)
        requires
            old(self).wf(),
        ensures
            final(self).wf(),
            final(self)@.tokens == old(self)@.tokens,
            res is Ok ==> final(self)@.current > old(self)@.current,
            match select_at(old(self)@.tokens, old(self)@.current) {
                Ok((stmt, end)) => res is Ok && res->Ok_0@ == stmt && final(self)@.current == end,
                Err(e) => res is Err && res->Err_0@ == e,
            },
    {
        let columns = match self.select_list() {
            Ok(columns) => columns,
            Err(e) => {
                return Err(e);
            },
        };
        match self.consume(TokenType::From, "Expected 'FROM' after select columns") {
            Ok(_) => {},
            Err(e) => {
                return Err(e);
            },
        }
        let from = match self.table_reference() {
            Ok(table) => table,
            Err(e) => {
                return Err(e);
            },
        };
        let wheres = [TokenType::Where];
        let condition = if self.matches(wheres.as_slice()) {
            match self.condition() {
                Ok(condition) => Some(condition),
                Err(e) => {
                    return Err(e);
                },
            }
        } else {
            None
        };
        Ok(Stmt::Select(columns, Some(from), condition))
    }

    /// Reads expressions with commas between them.
    fn select_list(&mut self) -> (res: Result<Vec<Expr>, SyntaxError>)
        requires
            old(self).wf(),
        ensures
            final(self).wf(),
            final(self)@.tokens == old(self)@.tokens,
            res is Ok ==> final(self)@.current > old(self)@.current,
            match expressions_at(old(self)@.tokens, old(self)@.current, Seq::empty()) {
                Ok((exprs, end)) => res is Ok && exprs_view(res->Ok_0@) == exprs
                    && final(self)@.current == end,
                Err(e) => res is Err && res->Err_0@ == e,
            },
        decreases old(self)@.tokens.len() - old(self)@.current, 3nat,
    {
        let ghost tokens = self@.tokens;
        let ghost whole = expressions_at(tokens, self@.current, Seq::empty());
        let mut columns: Vec<Expr> = Vec::new();
        proof {
            assert(exprs_view(columns@) =~= Seq::<ExprView>::empty());
        }
        loop
            invariant
                self.wf(),
                self@.tokens == tokens,
                tokens == old(self)@.tokens,
                self@.current >= old(self)@.current,
                columns@.len() > 0 ==> self@.current > old(self)@.current,
                whole == expressions_at(tokens, self@.current, exprs_view(columns@)),
                whole == expressions_at(old(self)@.tokens, old(self)@.current, Seq::empty()),
            decreases tokens.len() - self@.current,
        {
            let ghost before = exprs_view(columns@);
            let ghost start = self@.current;
            match self.expression() {
                Ok(expr) => {
                    columns.push(expr);
                    proof {
                        assert(exprs_view(columns@) =~= before.push(expr@));
                    }
                },
                Err(e) => {
                    return Err(e);
                },
            }
            let comma = [TokenType::Comma];
            if !self.matches(comma.as_slice()) {
                return Ok(columns);
            }
        }
    }

    /// Reads the name of a table, and the name that the statement gives it.
    fn table_reference(&mut self) -> (res: Result<TableReference, SyntaxError>)
        requires
            old(self).wf(),
        ensures
            final(self).wf(),
            final(self)@.tokens == old(self)@.tokens,
            res is Ok ==> final(self)@.current > old(self)@.current,
            match table_reference_at(old(self)@.tokens, old(self)@.current) {
                Ok((table, end)) => res is Ok && res->Ok_0@ == table && final(self)@.current
                    == end,
                Err(e) => res is Err && res->Err_0@ == e,
            },
    {
        let name = match self.consume(TokenType::Identifier, "Expected table name") {
            Ok(token) => token.lexeme.clone(),
            Err(e) => {
                return Err(e);
            },
        };
        let kinds = [TokenType::As];
        let alias = if self.matches(kinds.as_slice()) {
            match self.consume(TokenType::Identifier, "Expected table alias") {
                Ok(token) => Some(token.lexeme.clone()),
                Err(e) => {
                    return Err(e);
                },
            }
        } else {
            None
        };
        Ok(TableReference { name, alias })
    }

    /// Reads the condition after `WHERE`.
    fn condition(&mut self) -> (res: Result<Expr, SyntaxError>)
        requires
            old(self).wf(),
        ensures
            final(self).wf(),
            final(self)@.tokens == old(self)@.tokens,
            res is Ok ==> final(self)@.current > old(self)@.current,
            match condition_at(old(self)@.tokens, old(self)@.current) {
                Ok((expr, end)) => res is Ok && res->Ok_0@ == expr && final(self)@.current == end,
                Err(e) => res is Err && res->Err_0@ == e,
            },
    {
        let name = match self.consume(TokenType::Identifier, "Expected column name after 'WHERE'") {
            Ok(token) => token.lexeme.clone(),
            Err(e) => {
                return Err(e);
            },
        };
        let operators = [
            TokenType::Equal,
            TokenType::NotEqual,
            TokenType::Less,
            TokenType::LessEqual,
            TokenType::Greater,
            TokenType::GreaterEqual,
        ];
        if !self.matches(operators.as_slice()) {
            return Err(self.error("Expected comparison operator", 0));
        }
        let op = self.previous().duplicate();
        let right = match self.expression() {
            Ok(right) => right,
            Err(e) => {
                return Err(e);
            },
        };
        let expr = Expr::BinaryOp(Box::new(Expr::Identifier(name)), op, Box::new(right));
        proof {
            reveal_with_fuel(expr_view, 2);
        }
        Ok(expr)
    }

    /// Reads an expression.
    fn expression(&mut self) -> (res: Result<Expr, SyntaxError>)
        requires
            old(self).wf(),
        ensures
            final(self).wf(),
            final(self)@.tokens == old(self)@.tokens,
            res is Ok ==> final(self)@.current > old(self)@.current,
            match expression_at(old(self)@.tokens, old(self)@.current) {
                Ok((expr, end)) => res is Ok && res->Ok_0@ == expr && final(self)@.current == end,
                Err(e) => res is Err && res->Err_0@ == e,
            },
        decreases old(self)@.tokens.len() - old(self)@.current, 2nat,
    {
        if self.check(&TokenType::Identifier) {
            if self.peek_next().token_type == TokenType::LeftParen {
                return self.function_call();
            }
        }
        self.primary()
    }

    /// Reads a function call.
    fn function_call(&mut self) -> (res: Result<Expr, SyntaxError>)
        requires
            old(self).wf(),
            call_starts(old(self)@.tokens, old(self)@.current),
        ensures
            final(self).wf(),
            final(self)@.tokens == old(self)@.tokens,
            res is Ok ==> final(self)@.current > old(self)@.current,
            match function_call_at(old(self)@.tokens, old(self)@.current) {
                Ok((expr, end)) => res is Ok && res->Ok_0@ == expr && final(self)@.current == end,
                Err(e) => res is Err && res->Err_0@ == e,
            },
        decreases old(self)@.tokens.len() - old(self)@.current, 1nat,
    {
        let name = self.advance().lexeme.clone();
        match self.consume(TokenType::LeftParen, "Expected '(' after function name") {
            Ok(_) => {},
            Err(e) => {
                return Err(e);
            },
        }
        let star = [TokenType::Star];
        let args = if self.matches(star.as_slice()) {
            let mut args: Vec<Expr> = Vec::new();
            args.push(Expr::Wildcard);
            proof {
                reveal_with_fuel(expr_view, 2);
                assert(exprs_view(args@) =~= seq![ExprView::Wildcard]);
            }
            args
        } else if self.check(&TokenType::RightParen) {
            let args: Vec<Expr> = Vec::new();
            proof {
                assert(exprs_view(args@) =~= Seq::<ExprView>::empty());
            }
            args
        } else {
            match self.select_list() {
                Ok(args) => args,
                Err(e) => {
                    return Err(e);
                },
            }
        };
        match self.consume(TokenType::RightParen, "Expected ')' after function arguments") {
            Ok(_) => {},
            Err(e) => {
                return Err(e);
            },
        }
        proof {
            lemma_call_view(Expr::Identifier(name), args);
            reveal_with_fuel(expr_view, 2);
        }
        Ok(Expr::FunctionCall(Box::new(Expr::Identifier(name)), args))
    }

    /// Reads a name, a literal or a `*`.
    fn primary(&mut self) -> (res: Result<Expr, SyntaxError>)
        requires
            old(self).wf(),
        ensures
            final(self).wf(),
            final(self)@.tokens == old(self)@.tokens,
            res is Ok ==> final(self)@.current > old(self)@.current,
            match primary_at(old(self)@.tokens, old(self)@.current) {
                Ok((expr, end)) => res is Ok && res->Ok_0@ == expr && final(self)@.current == end,
                Err(e) => res is Err && res->Err_0@ == e,
            },
    {
        proof {
            reveal_with_fuel(expr_view, 2);
        }
        let identifier = [TokenType::Identifier];
        if self.matches(identifier.as_slice()) {
            return Ok(Expr::Identifier(self.previous().lexeme.clone()));
        }
        let string = [TokenType::String];
        if self.matches(string.as_slice()) {
            let value = match &self.previous().literal {
                Some(value) => value.clone(),
                None => String::new(),
            };
            return Ok(Expr::Literal(Literal::String(value)));
        }
        let number = [TokenType::Number];
        if self.matches(number.as_slice()) {
            let value = match &self.previous().literal {
                Some(value) => value.clone(),
                None => String::new(),
            };
            return Ok(Expr::Literal(Literal::Number(value)));
        }
        let star = [TokenType::Star];
        if self.matches(star.as_slice()) {
            return Ok(Expr::Wildcard);
        }
        Err(self.error("Expected expression", 0))
    }

    /// The rejection at the token `offset` places after the current one.
    fn error(&self, message: &str, offset: usize) -> (e: SyntaxError)
        requires
            self.wf(),
            offset <= 2,
        ensures
            e@ == (SyntaxErrorView {
                message: message@,
                token: token_at(self@.tokens, self@.current + offset),
            }),
    {
        let n = self.tokens.len();
        let token = if offset < n - self.current {
            self.tokens[self.current + offset].duplicate()
        } else {
            Token::new(TokenType::EOF, String::new(), None, 0)
        };
        SyntaxError { message: String::from_str(message), token }
    }

    /// Steps over the current token where its kind is one of `types`, and
    /// says whether it did.
    fn matches(&mut self, types: &[TokenType]) -> (matched: bool)
        requires
            old(self).wf(),
        ensures
            final(self).wf(),
            final(self)@.tokens == old(self)@.tokens,
            matched == (kind_at(old(self)@.tokens, old(self)@.current) != TokenType::EOF
                && exists|i: int|
                0 <= i < types@.len() && types@[i] == kind_at(
                    old(self)@.tokens,
                    old(self)@.current,
                )),
            final(self)@.current == if matched {
                old(self)@.current + 1
            } else {
                old(self)@.current
            },
    {
        let mut i: usize = 0;
        while i < types.len()
            invariant
                i <= types@.len(),
                self.wf(),
                *self == *old(self),
                forall|j: int|
                    0 <= j < i ==> !(kind_at(self@.tokens, self@.current) != TokenType::EOF
                        && types@[j] == kind_at(self@.tokens, self@.current)),
            decreases types@.len() - i,
        {
            if self.check(&types[i]) {
                self.advance();
                return true;
            }
            i = i + 1;
        }
        false
    }

    /// Whether the current token is of a kind, and not the end token.
    fn check(&self, token_type: &TokenType) -> (same: bool)
        requires
            self.wf(),
        ensures
            same == (kind_at(self@.tokens, self@.current) == *token_type && *token_type
                != TokenType::EOF),
    {
        if self.is_at_end() {
            return false;
        }
        self.peek().token_type == *token_type
    }

    /// Steps over the current token where it is of a kind, and returns it;
    /// else the rejection with the message.
    fn consume(&mut self, token_type: TokenType, message: &str) -> (res: Result<
        &Token,
        SyntaxError,
    >)
        requires
            old(self).wf(),
            token_type != TokenType::EOF,
        ensures
            final(self).wf(),
            final(self)@.tokens == old(self)@.tokens,
            if kind_at(old(self)@.tokens, old(self)@.current) == token_type {
                res is Ok && res->Ok_0@ == token_at(old(self)@.tokens, old(self)@.current)
                    && final(self)@.current == old(self)@.current + 1
            } else {
                res is Err && res->Err_0@ == (SyntaxErrorView {
                    message: message@,
                    token: token_at(old(self)@.tokens, old(self)@.current),
                }) && final(self)@.current == old(self)@.current
            },
    {
        if self.check(&token_type) {
            return Ok(self.advance());
        }
        Err(self.error(message, 0))
    }

    /// The current token.
    fn peek(&self) -> (token: &Token)
        requires
            self.wf(),
        ensures
            token@ == token_at(self@.tokens, self@.current),
    {
        &self.tokens[self.current]
    }

    /// The token after the current one; the end token where the current one
    /// is it.
    fn peek_next(&self) -> (token: &Token)
        requires
            self.wf(),
        ensures
            token@ == if kind_at(self@.tokens, self@.current) == TokenType::EOF {
                token_at(self@.tokens, self@.current)
            } else {
                token_at(self@.tokens, self@.current + 1)
            },
            kind_at(self@.tokens, self@.current) != TokenType::EOF ==> self@.current + 1
                < self@.tokens.len(),
    {
        let n = self.tokens.len();
        if self.is_at_end() {
            return &self.tokens[self.current];
        }
        &self.tokens[self.current + 1]
    }

    /// Steps over the current token, which is not the end token, and
    /// returns it.
    fn advance(&mut self) -> (token: &Token)
        requires
            old(self).wf(),
            kind_at(old(self)@.tokens, old(self)@.current) != TokenType::EOF,
        ensures
            final(self).wf(),
            final(self)@.tokens == old(self)@.tokens,
            final(self)@.current == old(self)@.current + 1,
            token@ == token_at(old(self)@.tokens, old(self)@.current),
    {
        let n = self.tokens.len();
        self.current = self.current + 1;
        self.previous()
    }

    /// The token before the current one.
    fn previous(&self) -> (token: &Token)
        requires
            self.wf(),
            self@.current >= 1,
        ensures
            token@ == token_at(self@.tokens, self@.current - 1),
    {
        &self.tokens[self.current - 1]
    }

    /// Whether the current token is the end token.
    fn is_at_end(&self) -> (ended: bool)
        requires
            self.wf(),
        ensures
            ended == (kind_at(self@.tokens, self@.current) == TokenType::EOF),
    {
        self.peek().token_type == TokenType::EOF
    }
}

} // verus!
