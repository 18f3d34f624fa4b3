use vstd::prelude::*;
use vstd::string::*;

use crate::error::DbError;
use crate::plan::{CompareOp, Filter, FilterView, Selected};
use crate::schema::{Column, ColumnView};
use crate::sql::parser::{expr_view, exprs_view, Expr, ExprView, Literal, LiteralView};
use crate::sql::token::TokenType;
use crate::text::{lowercase, same_text, to_lowercase};

verus! {

/// The first place at or after `from` of a column with the given name; the
/// number of columns where none has it.
pub open spec fn position(columns: Seq<ColumnView>, name: Seq<char>, from: int) -> int
    decreases columns.len() - from,
{
    if from >= columns.len() {
        columns.len() as int
    } else if from >= 0 && columns[from].name == name {
        from
    } else {
        position(columns, name, from + 1)
    }
}

/// The columns as plain values.
pub open spec fn columns_view(columns: Seq<Column>) -> Seq<ColumnView> {
    Seq::new(columns.len(), |i: int| columns[i]@)
}

/// Finds the first column whose name is `lowered`.
pub fn column_position(columns: &Vec<Column>, lowered: &str) -> (at: Option<usize>)
    ensures
        match at {
            Some(i) => i as int == position(columns_view(columns@), lowered@, 0) && i
                < columns@.len(),
            None => position(columns_view(columns@), lowered@, 0) == columns@.len(),
        },
{
    let mut i: usize = 0;
    while i < columns.len()
        invariant
            i <= columns@.len(),
            position(columns_view(columns@), lowered@, 0) == position(
                columns_view(columns@),
                lowered@,
                i as int,
            ),
        decreases columns@.len() - i,
    {
        if same_text(columns[i].name.as_str(), lowered) {
            return Some(i);
        }
        i = i + 1;
    }
    None
}

/// Finds the first column whose name is `name` in lower case. The names of
/// the columns are in lower case already.
pub fn column_index(columns: &Vec<Column>, name: &str) -> (at: Option<usize>)
    ensures
        match at {
            Some(i) => i as int == position(columns_view(columns@), lowercase(name@), 0) && i
                < columns@.len(),
            None => position(columns_view(columns@), lowercase(name@), 0) == columns@.len(),
        },
{
    let lowered = to_lowercase(name);
    column_position(columns, lowered.as_str())
}

/// What an item of a select list asks for: a column by its name, shown as
/// NULL where the table has none of that name, or a count of rows, written
/// as `count(*)` or `count(column)`. Anything else cannot be run.
pub open spec fn selected_of(expr: ExprView, columns: Seq<ColumnView>) -> Result<
    Selected,
    DbError,
> {
    match expr {
        ExprView::Identifier(name) => {
            let at = position(columns, lowercase(name), 0);
            if at < columns.len() {
                Ok(Selected::Column(at as usize))
            } else {
                Ok(Selected::Missing)
            }
        },
        ExprView::FunctionCall(function, args) => if count_argument(expr) is Some {
            Ok(Selected::Count)
        } else {
            Err(DbError::UnsupportedQuery)
        },
        _ => Err(DbError::UnsupportedQuery),
    }
}

/// What a call with the arguments `args` counts, where `lowered` is the
/// name of the function in lower case: `None` for all rows, or the name of
/// a column. `None` outside where the call is no call of `count` with one
/// argument that is `*` or a name.
pub open spec fn count_argument_for(args: Seq<ExprView>, lowered: Seq<char>) -> Option<
    Option<Seq<char>>,
> {
    if lowered == "count"@ && args.len() == 1 {
        match args[0] {
            ExprView::Wildcard => Some(None),
            ExprView::Identifier(column) => Some(Some(column)),
            _ => None,
        }
    } else {
        None
    }
}

/// What a call of `count` counts: `None` for all rows, or the name of a
/// column. `None` outside where the expression is no such call.
pub open spec fn count_argument(expr: ExprView) -> Option<Option<Seq<char>>> {
    match expr {
        ExprView::FunctionCall(function, args) => match *function {
            ExprView::Identifier(name) => count_argument_for(args, lowercase(name)),
            _ => None,
        },
        _ => None,
    }
}

/// What the items of a select list ask for, in order; the error of the
/// first that cannot be run.
pub open spec fn select_list(items: Seq<ExprView>, columns: Seq<ColumnView>, n: nat) -> Result<
    Seq<Selected>,
    DbError,
>
    decreases n,
{
    if n == 0 {
        Ok(Seq::empty())
    } else {
        match select_list(items, columns, (n - 1) as nat) {
            Err(e) => Err(e),
            Ok(selected) => match selected_of(items[n - 1], columns) {
                Err(e) => Err(e),
                Ok(item) => Ok(selected.push(item)),
            },
        }
    }
}

/// The comparison that an operator token stands for.
pub open spec fn op_of(kind: TokenType) -> Option<CompareOp> {
    match kind {
        TokenType::Equal => Some(CompareOp::Equal),
        TokenType::NotEqual => Some(CompareOp::NotEqual),
        TokenType::Less => Some(CompareOp::Less),
        TokenType::LessEqual => Some(CompareOp::LessEqual),
        TokenType::Greater => Some(CompareOp::Greater),
        TokenType::GreaterEqual => Some(CompareOp::GreaterEqual),
        _ => None,
    }
}

/// The text of a literal: a string without its quotes, a number as it was
/// written, `true` or `false`, or `NULL`.
pub open spec fn literal_text(literal: LiteralView) -> Seq<char> {
    match literal {
        LiteralView::String(s) => s,
        LiteralView::Number(s) => s,
        LiteralView::Boolean(b) => if b {
            "true"@
        } else {
            "false"@
        },
        LiteralView::Null => "NULL"@,
    }
}

/// The parts of a condition of the form `column op literal`: the name of
/// the column, the operator and the literal.
pub open spec fn condition_parts(condition: ExprView) -> Option<
    (Seq<char>, CompareOp, LiteralView),
> {
    match condition {
        ExprView::BinaryOp(left, op, right) => match (*left, op_of(op.token_type), *right) {
            (ExprView::Identifier(name), Some(op), ExprView::Literal(literal)) => Some(
                (name, op, literal),
            ),
            _ => None,
        },
        _ => None,
    }
}

/// The filter that a condition asks for. A statement without a condition
/// keeps all rows. A condition must have the form `column op literal`, else
/// it cannot be run; the column must be one of the table.
pub open spec fn filter_of(condition: Option<ExprView>, columns: Seq<ColumnView>) -> Result<
    FilterView,
    DbError,
> {
    match condition {
        None => Ok(FilterView::All),
        Some(expr) => match condition_parts(expr) {
            None => Err(DbError::UnsupportedQuery),
            Some((name, op, literal)) => {
                let at = position(columns, lowercase(name), 0);
                if at < columns.len() {
                    Ok(
                        FilterView::Compare {
                            column: at as usize,
                            op,
                            literal: literal_text(literal),
                        },
                    )
                } else {
                    Err(DbError::UnknownColumn)
                }
            },
        },
    }
}

/// The column and the text that a condition of the form
/// `column = 'text'` names: the one kind of condition that an index can
/// answer.
pub open spec fn index_key(condition: Option<ExprView>) -> Option<(Seq<char>, Seq<char>)> {
    match condition {
        None => None,
        Some(expr) => match condition_parts(expr) {
            Some((name, CompareOp::Equal, LiteralView::String(text))) => Some((name, text)),
            _ => None,
        },
    }
}

/// Reads what a call with the arguments `args` counts, where `lowered` is
/// the name of the function in lower case.
pub fn count_argument_with(args: &Vec<Expr>, lowered: &str) -> (argument: Option<Option<String>>)
    ensures
        match count_argument_for(exprs_view(args@), lowered@) {
            Some(Some(column)) => argument is Some && argument->Some_0 is Some
                && argument->Some_0->Some_0@ == column,
            Some(None) => argument == Some(None::<String>),
            None => argument is None,
        },
{
    reveal_with_fuel(expr_view, 2);
    if same_text(lowered, "count") && args.len() == 1 {
        assert(exprs_view(args@)[0] == args@[0]@);
        match &args[0] {
            Expr::Wildcard => Some(None),
            Expr::Identifier(column) => Some(Some(column.clone())),
            _ => None,
        }
    } else {
        None
    }
}

/// Reads what a call of `count` counts.
pub fn count_argument_of(expr: &Expr) -> (argument: Option<Option<String>>)
    ensures
        match count_argument(expr@) {
            Some(Some(column)) => argument is Some && argument->Some_0 is Some
                && argument->Some_0->Some_0@ == column,
            Some(None) => argument == Some(None::<String>),
            None => argument is None,
        },
{
    reveal_with_fuel(expr_view, 3);
    match expr {
        Expr::FunctionCall(function, args) => match &**function {
            Expr::Identifier(name) => {
                assert(expr@->FunctionCall_1 =~= exprs_view(args@));
                let lowered = to_lowercase(name.as_str());
                count_argument_with(args, lowered.as_str())
            },
            _ => None,
        },
        _ => None,
    }
}

/// Resolves an item of a select list against the columns of the table.
pub fn resolve_selected(expr: &Expr, columns: &Vec<Column>) -> (res: Result<Selected, DbError>)
    ensures
        res == selected_of(expr@, columns_view(columns@)),
{
    reveal_with_fuel(expr_view, 3);
    match expr {
        Expr::Identifier(name) => match column_index(columns, name.as_str()) {
            Some(at) => Ok(Selected::Column(at)),
            None => Ok(Selected::Missing),
        },
        Expr::FunctionCall(_, _) => match count_argument_of(expr) {
            Some(_) => Ok(Selected::Count),
            None => Err(DbError::UnsupportedQuery),
        },
        _ => Err(DbError::UnsupportedQuery),
    }
}

/// Resolves a select list against the columns of the table.
pub fn resolve_select_list(items: &Vec<Expr>, columns: &Vec<Column>) -> (res: Result<
    Vec<Selected>,
    DbError,
>)
    ensures
        match select_list(exprs_view(items@), columns_view(columns@), items@.len()) {
            Ok(selected) => res is Ok && res->Ok_0@ == selected,
            Err(e) => res == Err::<Vec<Selected>, DbError>(e),
        },
{
    let ghost views = exprs_view(items@);
    let ghost cols = columns_view(columns@);
    let mut selected: Vec<Selected> = Vec::new();
    let mut i: usize = 0;
    while i < items.len()
        invariant
            i <= items@.len(),
            views == exprs_view(items@),
            cols == columns_view(columns@),
            select_list(views, cols, i as nat) == Ok::<Seq<Selected>, DbError>(selected@),
        decreases items@.len() - i,
    {
        proof {
            lemma_select_list_fail(views, cols, (i + 1) as nat, items@.len() as nat);
        }
        match resolve_selected(&items[i], columns) {
            Ok(item) => {
                selected.push(item);
            },
            Err(e) => {
                return Err(e);
            },
        }
        i = i + 1;
    }
    Ok(selected)
}

/// Where the first `n` items cannot be resolved, more of them fail in the
/// same way.
pub proof fn lemma_select_list_fail(
    items: Seq<ExprView>,
    columns: Seq<ColumnView>,
    n: nat,
    m: nat,
)
    requires
        n <= m,
    ensures
        select_list(items, columns, n) matches Err(e) ==> select_list(items, columns, m) == Err::<
            Seq<Selected>,
            DbError,
        >(e),
    decreases m,
{
    if n < m {
        lemma_select_list_fail(items, columns, n, (m - 1) as nat);
    }
}

/// The comparison that an operator token stands for.
pub fn compare_op(kind: TokenType) -> (op: Option<CompareOp>)
    ensures
        op == op_of(kind),
{
    match kind {
        TokenType::Equal => Some(CompareOp::Equal),
        TokenType::NotEqual => Some(CompareOp::NotEqual),
        TokenType::Less => Some(CompareOp::Less),
        TokenType::LessEqual => Some(CompareOp::LessEqual),
        TokenType::Greater => Some(CompareOp::Greater),
        TokenType::GreaterEqual => Some(CompareOp::GreaterEqual),
        _ => None,
    }
}

/// The text of a literal.
pub fn text_of_literal(literal: &Literal) -> (text: String)
    ensures
        text@ == literal_text(literal@),
{
    match literal {
        Literal::String(s) => s.clone(),
        Literal::Number(s) => s.clone(),
        Literal::Boolean(b) => if *b {
            String::from_str("true")
        } else {
            String::from_str("false")
        },
        Literal::Null => String::from_str("NULL"),
    }
}

/// The parts of a condition, as they are needed to run it: the name of the
/// column, the operator, the text of the literal, and whether the literal
/// is a string.
pub struct Condition {
    pub column: String,
    pub op: CompareOp,
    pub literal: String,
    pub quoted: bool,
}

/// Takes a condition of the form `column op literal` apart.
pub fn split_condition(condition: &Expr) -> (parts: Option<Condition>)
    ensures
        match condition_parts(condition@) {
            Some((name, op, literal)) => parts is Some && parts->Some_0.column@ == name
                && parts->Some_0.op == op && parts->Some_0.literal@ == literal_text(literal)
                && parts->Some_0.quoted == (literal is String),
            None => parts is None,
        },
{
    reveal_with_fuel(expr_view, 3);
    match condition {
        Expr::BinaryOp(left, op, right) => match (&**left, compare_op(op.token_type), &**right) {
            (Expr::Identifier(name), Some(op), Expr::Literal(literal)) => Some(
                Condition {
                    column: name.clone(),
                    op,
                    literal: text_of_literal(literal),
                    quoted: match literal {
                        Literal::String(_) => true,
                        _ => false,
                    },
                },
            ),
            _ => None,
        },
        _ => None,
    }
}

/// Resolves the condition of a statement against the columns of the table.
pub fn resolve_filter(condition: &Option<Expr>, columns: &Vec<Column>) -> (res: Result<
    Filter,
    DbError,
>)
    ensures
        match filter_of(
            match condition {
                Some(expr) => Some(expr@),
                None => None,
            },
            columns_view(columns@),
        ) {
            Ok(filter) => res is Ok && res->Ok_0@ == filter,
            Err(e) => res == Err::<Filter, DbError>(e),
        },
{
    match condition {
        None => Ok(Filter::All),
        Some(expr) => match split_condition(expr) {
            None => Err(DbError::UnsupportedQuery),
            Some(parts) => match column_index(columns, parts.column.as_str()) {
                Some(at) => Ok(
                    Filter::Compare { column: at, op: parts.op, literal: parts.literal },
                ),
                None => Err(DbError::UnknownColumn),
            },
        },
    }
}

} // verus!
