use vstd::prelude::*;
use vstd::string::*;

use crate::page::{TableLeafCell, TableLeafCellView, TableLeafPage};
use crate::record::{display, signed64, to_signed, Value, ValueView};
use crate::text::{chars_of, integer_of, parse_integer, same_text};

verus! {

/// The comparisons that a condition can make.
#[derive(Debug, Clone, Copy, PartialEq, Eq, Structural)]
pub enum CompareOp {
    Equal,
    NotEqual,
    Less,
    LessEqual,
    Greater,
    GreaterEqual,
}

/// One item of a select list, resolved against the table: the column at a
/// place in the table, a name that no column has, or a count.
#[derive(Debug, Clone, Copy, PartialEq, Eq, Structural)]
pub enum Selected {
    Column(usize),
    Missing,
    Count,
}

/// Which rows a query keeps: all, those with a value in a column, those
/// whose column compares to a literal as asked, or those with one of the
/// given row ids.
#[derive(Debug, Clone)]
pub enum Filter {
    All,
    NotNull { column: usize },
    Compare { column: usize, op: CompareOp, literal: String },
    RowIds(Vec<i64>),
}

/// A filter as a plain value.
pub ghost enum FilterView {
    All,
    NotNull { column: usize },
    Compare { column: usize, op: CompareOp, literal: Seq<char> },
    RowIds(Seq<i64>),
}

impl View for Filter {
    type V = FilterView;

    open spec fn view(&self) -> FilterView {
        match self {
            Filter::All => FilterView::All,
            Filter::NotNull { column } => FilterView::NotNull { column: *column },
            Filter::Compare { column, op, literal } => FilterView::Compare {
                column: *column,
                op: *op,
                literal: literal@,
            },
            Filter::RowIds(ids) => FilterView::RowIds(ids@),
        }
    }
}

/// What a query does on each row: which rows it keeps, and what it shows of
/// them.
#[derive(Debug, Clone)]
pub struct Plan {
    pub selected: Vec<Selected>,
    pub filter: Filter,
}

/// A plan as a plain value.
pub ghost struct PlanView {
    pub selected: Seq<Selected>,
    pub filter: FilterView,
}

impl View for Plan {
    type V = PlanView;

    open spec fn view(&self) -> PlanView {
        PlanView { selected: self.selected@, filter: self.filter@ }
    }
}

/// A row of a result: the id of the table row that it was made from, and
/// the selected values.
#[derive(Debug, Clone, PartialEq)]
pub struct Row {
    pub row_id: u64,
    pub values: Vec<Value>,
}

/// A row of a result as a plain value.
pub ghost struct RowView {
    pub row_id: u64,
    pub values: Seq<ValueView>,
}

impl View for Row {
    type V = RowView;

    open spec fn view(&self) -> RowView {
        RowView {
            row_id: self.row_id,
            values: Seq::new(self.values@.len(), |i: int| self.values@[i]@),
        }
    }
}

/// The value in column `i` of a record; NULL where the record is too short
/// to have one.
pub open spec fn column_or_null(values: Seq<ValueView>, i: int) -> ValueView {
    if 0 <= i < values.len() {
        values[i]
    } else {
        ValueView::Null
    }
}

/// Whether two integers compare as an ordering asks.
pub open spec fn ordered(op: CompareOp, a: int, b: int) -> bool {
    match op {
        CompareOp::Equal => a == b,
        CompareOp::NotEqual => a != b,
        CompareOp::Less => a < b,
        CompareOp::LessEqual => a <= b,
        CompareOp::Greater => a > b,
        CompareOp::GreaterEqual => a >= b,
    }
}

/// Whether a value compares to a literal as asked. Equality is that of the
/// texts that the two show as; an ordering is that of the integers that the
/// two texts spell. A value that shows as no text, or a text that spells no
/// integer where one is needed, compares as false.
pub open spec fn compare(op: CompareOp, left: ValueView, literal: Seq<char>) -> bool {
    match display(left) {
        None => false,
        Some(text) => match op {
            CompareOp::Equal => text == literal,
            CompareOp::NotEqual => text != literal,
            _ => parse_integer(text) is Some && parse_integer(literal) is Some && ordered(
                op,
                parse_integer(text)->Some_0,
                parse_integer(literal)->Some_0,
            ),
        },
    }
}

/// Whether `id` is among `ids`.
pub open spec fn has_id(ids: Seq<i64>, id: int) -> bool {
    exists|i: int| 0 <= i < ids.len() && ids[i] == id
}

/// Whether a filter keeps a row.
pub open spec fn survives(filter: FilterView, cell: TableLeafCellView) -> bool {
    match filter {
        FilterView::All => true,
        FilterView::NotNull { column } => !(column_or_null(cell.record.values, column as int)
            is Null),
        FilterView::Compare { column, op, literal } => compare(
            op,
            column_or_null(cell.record.values, column as int),
            literal,
        ),
        FilterView::RowIds(ids) => has_id(ids, signed64(cell.row_id)),
    }
}

/// Whether a value compares to a literal as asked.
pub fn check(op: CompareOp, left: &Value, literal: &str) -> (holds: bool)
    ensures
        holds == compare(op, left@, literal@),
{
    let text = match left.to_text() {
        Some(text) => text,
        None => {
            return false;
        },
    };
    match op {
        CompareOp::Equal => same_text(text.as_str(), literal),
        CompareOp::NotEqual => !same_text(text.as_str(), literal),
        _ => {
            let a = match integer_of(&chars_of(text.as_str())) {
                Some(a) => a,
                None => {
                    return false;
                },
            };
            let b = match integer_of(&chars_of(literal)) {
                Some(b) => b,
                None => {
                    return false;
                },
            };
            match op {
                CompareOp::Less => a < b,
                CompareOp::LessEqual => a <= b,
                CompareOp::Greater => a > b,
                _ => a >= b,
            }
        },
    }
}

/// Whether `id` is among `ids`.
pub fn contains_id(ids: &Vec<i64>, id: i64) -> (found: bool)
    ensures
        found == has_id(ids@, id as int),
{
    let mut i: usize = 0;
    while i < ids.len()
        invariant
            i <= ids@.len(),
            forall|j: int| 0 <= j < i ==> ids@[j] != id,
        decreases ids@.len() - i,
    {
        if ids[i] == id {
            return true;
        }
        i = i + 1;
    }
    false
}

/// Whether a filter keeps a row.
pub fn where_clause_matches(filter: &Filter, cell: &TableLeafCell) -> (keeps: bool)
    ensures
        keeps == survives(filter@, cell@),
{
    match filter {
        Filter::All => true,
        Filter::NotNull { column } => {
            if *column < cell.record.body.len() {
                assert(cell@.record.values[*column as int] == cell.record.body@[*column as int]@);
                match cell.record.body[*column].value {
                    Value::Null => false,
                    _ => true,
                }
            } else {
                false
            }
        },
        Filter::Compare { column, op, literal } => {
            if *column < cell.record.body.len() {
                assert(cell@.record.values[*column as int] == cell.record.body@[*column as int]@);
                check(*op, &cell.record.body[*column].value, literal.as_str())
            } else {
                let null = Value::Null;
                check(*op, &null, literal.as_str())
            }
        },
        Filter::RowIds(ids) => contains_id(ids, to_signed(cell.row_id)),
    }
}

/// What a select item shows of a row.
pub open spec fn shown(item: Selected, values: Seq<ValueView>) -> ValueView {
    match item {
        Selected::Column(i) => column_or_null(values, i as int),
        _ => ValueView::Null,
    }
}

/// What the select items show of a row, in order.
pub open spec fn project(selected: Seq<Selected>, values: Seq<ValueView>) -> Seq<ValueView> {
    Seq::new(selected.len(), |i: int| shown(selected[i], values))
}

/// The place of the first count among the select items; their number where
/// none is a count.
pub open spec fn first_count(selected: Seq<Selected>) -> int
    decreases selected.len(),
{
    if selected.len() == 0 {
        0
    } else if selected[0] == Selected::Count {
        0
    } else {
        1 + first_count(selected.drop_first())
    }
}

/// The rows among the first `n` that the filter keeps.
pub open spec fn survivors(cells: Seq<TableLeafCellView>, filter: FilterView, n: int) -> Seq<
    TableLeafCellView,
>
    decreases n,
{
    if n <= 0 {
        Seq::empty()
    } else if survives(filter, cells[n - 1]) {
        survivors(cells, filter, n - 1).push(cells[n - 1])
    } else {
        survivors(cells, filter, n - 1)
    }
}

/// The result rows that a plan makes of the rows of one leaf page. Without
/// a count among the select items, each row that the filter keeps gives one
/// result row. With one, the page gives no row where the filter keeps none
/// of its rows, else one: the items before the count, read from the first
/// row kept, and then the number of rows kept.
pub open spec fn leaf_rows(cells: Seq<TableLeafCellView>, plan: PlanView) -> Seq<RowView> {
    let kept = survivors(cells, plan.filter, cells.len() as int);
    let k = first_count(plan.selected);
    if k < plan.selected.len() {
        if kept.len() == 0 {
            Seq::empty()
        } else {
            seq![
                RowView {
                    row_id: kept[0].row_id,
                    values: project(plan.selected.take(k), kept[0].record.values).push(
                        ValueView::I64(kept.len() as int),
                    ),
                },
            ]
        }
    } else {
        Seq::new(
            kept.len(),
            |i: int|
                RowView {
                    row_id: kept[i].row_id,
                    values: project(plan.selected, kept[i].record.values),
                },
        )
    }
}

/// The first count stands among the select items where one of them is a
/// count, and none stands before it.
pub proof fn lemma_first_count(selected: Seq<Selected>)
    ensures
        0 <= first_count(selected) <= selected.len(),
        first_count(selected) < selected.len() ==> selected[first_count(selected)]
            == Selected::Count,
        forall|i: int| 0 <= i < first_count(selected) ==> selected[i] != Selected::Count,
    decreases selected.len(),
{
    if selected.len() > 0 && selected[0] != Selected::Count {
        let rest = selected.drop_first();
        lemma_first_count(rest);
        assert forall|i: int| 0 <= i < first_count(selected) implies selected[i]
            != Selected::Count by {
            if i > 0 {
                assert(selected[i] == rest[i - 1]);
            }
        }
    }
}

/// Reads the items `selected[..k]` off a row.
fn project_row(selected: &Vec<Selected>, k: usize, cell: &TableLeafCell) -> (values: Vec<Value>)
    requires
        k <= selected@.len(),
    ensures
        Seq::new(values@.len(), |i: int| values@[i]@) == project(
            selected@.take(k as int),
            cell@.record.values,
        ),
{
    let mut values: Vec<Value> = Vec::new();
    let mut i: usize = 0;
    while i < k
        invariant
            i <= k <= selected@.len(),
            values@.len() == i,
            forall|j: int|
                0 <= j < i ==> #[trigger] values@[j]@ == shown(selected@[j], cell@.record.values),
        decreases k - i,
    {
        let value = match selected[i] {
            Selected::Column(c) => if c < cell.record.body.len() {
                cell.record.body[c].value.duplicate()
            } else {
                Value::Null
            },
            _ => Value::Null,
        };
        values.push(value);
        i = i + 1;
    }
    proof {
        assert(Seq::new(values@.len(), |i: int| values@[i]@) =~= project(
            selected@.take(k as int),
            cell@.record.values,
        ));
    }
    values
}

/// The rows of a result as plain values.
pub open spec fn rows_view(rows: Seq<Row>) -> Seq<RowView> {
    Seq::new(rows.len(), |i: int| rows[i]@)
}

/// Finds the first count among the select items.
fn find_count(selected: &Vec<Selected>) -> (k: usize)
    ensures
        k as int == first_count(selected@),
        k <= selected@.len(),
{
    let mut k: usize = 0;
    proof {
        lemma_first_count(selected@);
        assert(selected@.subrange(0, selected@.len() as int) =~= selected@);
    }
    while k < selected.len()
        invariant
            k <= selected@.len(),
            first_count(selected@) == k + first_count(
                selected@.subrange(k as int, selected@.len() as int),
            ),
        decreases selected@.len() - k,
    {
        let ghost rest = selected@.subrange(k as int, selected@.len() as int);
        proof {
            assert(rest[0] == selected@[k as int]);
            assert(rest.drop_first() =~= selected@.subrange(k + 1, selected@.len() as int));
        }
        match selected[k] {
            Selected::Count => {
                return k;
            },
            _ => {},
        }
        k = k + 1;
    }
    proof {
        assert(selected@.subrange(k as int, selected@.len() as int).len() == 0);
    }
    k
}

/// Makes the result rows of the rows of one leaf page.
#[verifier::loop_isolation(false)]
pub fn query_leaf_page(leaf: &TableLeafPage, plan: &Plan) -> (rows: Vec<Row>)
    requires
        leaf.cells@.len() <= i64::MAX,
    ensures
        rows_view(rows@) == leaf_rows(leaf@.cells, plan@),
{
    let ghost cells = leaf@.cells;
    let ghost filter = plan@.filter;
    let n = leaf.cells.len();
    let k = find_count(&plan.selected);
    let mut rows: Vec<Row> = Vec::new();
    if k < plan.selected.len() {
        let mut count: usize = 0;
        let mut first: usize = 0;
        let mut i: usize = 0;
        while i < n
            invariant
                i <= n,
                count == survivors(cells, filter, i as int).len(),
                count <= i,
                count > 0 ==> first < i && leaf.cells@[first as int]@ == survivors(
                    cells,
                    filter,
                    i as int,
                )[0],
            decreases n - i,
        {
            if where_clause_matches(&plan.filter, &leaf.cells[i]) {
                if count == 0 {
                    first = i;
                }
                count = count + 1;
            }
            i = i + 1;
        }
        if count > 0 {
            let mut values = project_row(&plan.selected, k, &leaf.cells[first]);
            let ghost before = Seq::new(values@.len(), |i: int| values@[i]@);
            values.push(Value::I64(count as i64));
            let row = Row { row_id: leaf.cells[first].row_id, values };
            proof {
                assert(row@.values =~= before.push(ValueView::I64(count as int)));
            }
            rows.push(row);
            proof {
                assert(rows_view(rows@) =~= leaf_rows(cells, plan@));
            }
        } else {
            proof {
                assert(rows_view(rows@) =~= leaf_rows(cells, plan@));
            }
        }
    } else {
        let mut i: usize = 0;
        while i < n
            invariant
                i <= n,
                rows@.len() == survivors(cells, filter, i as int).len(),
                forall|j: int|
                    0 <= j < rows@.len() ==> #[trigger] rows@[j]@ == (RowView {
                        row_id: survivors(cells, filter, i as int)[j].row_id,
                        values: project(
                            plan@.selected,
                            survivors(cells, filter, i as int)[j].record.values,
                        ),
                    }),
            decreases n - i,
        {
            if where_clause_matches(&plan.filter, &leaf.cells[i]) {
                let values = project_row(&plan.selected, k, &leaf.cells[i]);
                proof {
                    assert(plan@.selected.take(k as int) =~= plan@.selected);
                }
                rows.push(Row { row_id: leaf.cells[i].row_id, values });
            }
            i = i + 1;
        }
        proof {
            assert(rows_view(rows@) =~= leaf_rows(cells, plan@));
        }
    }
    rows
}

} // verus!
