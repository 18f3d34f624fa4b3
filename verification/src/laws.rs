use vstd::prelude::*;
use vstd::utf8::*;

use crate::btree::{
    after, all_cells, children_pages, count_rows, entry_key, entry_row_id, index_children,
    index_lookup, index_search, kept_of, key_order, leaf_matches, leaf_of, lemma_children_shape,
    lemma_key_order_range, lemma_text_order_range, lemma_walk_shape, lookup_from, missing_row_id,
    page_at, page_bytes, page_count, query_rows, steps_of, table_cells, table_children,
    table_walk, targets, unexpected_page, visits, visits_last, walk_pages, FileView, TargetView,
};
use crate::db::{index_for, run_scan};
use crate::error::DbError;
use crate::page::{
    lemma_index_integers_fit, IndexInteriorCellView, IndexLeafCellView, PageView,
    TableInteriorCell, TableLeafCellView,
};
use crate::plan::{
    column_or_null, compare, first_count, has_id, leaf_rows, project, survives, survivors,
    CompareOp, FilterView, PlanView, RowView, Selected,
};
use crate::query::{filter_of, index_key, position, select_list};
use crate::record::{display, integers_fit, signed64, RecordView, ValueView};
use crate::schema::SchemaView;
use crate::sql::parser::ExprView;
use crate::text::{
    bytes_order, lemma_bytes_order_equal, lemma_parse_decimal, lemma_text_order_equal,
    lowercase, text_order,
};

verus! {

/// A result with `f` applied to each of its items.
pub open spec fn mapped<A, B>(result: Result<Seq<A>, DbError>, f: spec_fn(A) -> B) -> Result<
    Seq<B>,
    DbError,
> {
    match result {
        Ok(items) => Ok(items.map_values(f)),
        Err(e) => Err(e),
    }
}

/// Where one walk makes of every leaf page what another makes of it, with
/// `f` applied to each item, the first gathers what the second gathers,
/// with `f` applied to each item.
pub proof fn lemma_walk_map<A, B>(
    file: FileView,
    page_num: nat,
    depth: nat,
    wanted: Option<Seq<i64>>,
    leaf_a: spec_fn(Seq<TableLeafCellView>) -> Seq<A>,
    leaf_b: spec_fn(Seq<TableLeafCellView>) -> Seq<B>,
    f: spec_fn(A) -> B,
)
    requires
        forall|cells: Seq<TableLeafCellView>| #[trigger]
            leaf_b(cells) == leaf_a(cells).map_values(f),
    ensures
        table_walk(file, page_num, depth, wanted, leaf_b) == mapped(
            table_walk(file, page_num, depth, wanted, leaf_a),
            f,
        ),
    decreases depth, 0nat,
{
    match page_at(file, page_num) {
        Ok(PageView::TableInterior(page)) => {
            if depth > 0 {
                let below = (depth - 1) as nat;
                lemma_children_map(
                    file,
                    page.cells,
                    page.cells.len(),
                    below,
                    wanted,
                    leaf_a,
                    leaf_b,
                    f,
                );
                lemma_walk_map(
                    file,
                    page.header.right_most_point as nat,
                    below,
                    wanted,
                    leaf_a,
                    leaf_b,
                    f,
                );
                let rows = table_children(
                    file,
                    page.cells,
                    page.cells.len(),
                    below,
                    wanted,
                    leaf_a,
                );
                let more = table_walk(
                    file,
                    page.header.right_most_point as nat,
                    below,
                    wanted,
                    leaf_a,
                );
                if rows is Ok && more is Ok {
                    assert((rows->Ok_0 + more->Ok_0).map_values(f) =~= rows->Ok_0.map_values(f)
                        + more->Ok_0.map_values(f));
                }
            }
        },
        _ => {},
    }
}

/// The same below the first `n` cells of an interior page.
pub proof fn lemma_children_map<A, B>(
    file: FileView,
    cells: Seq<TableInteriorCell>,
    n: nat,
    depth: nat,
    wanted: Option<Seq<i64>>,
    leaf_a: spec_fn(Seq<TableLeafCellView>) -> Seq<A>,
    leaf_b: spec_fn(Seq<TableLeafCellView>) -> Seq<B>,
    f: spec_fn(A) -> B,
)
    requires
        forall|cells: Seq<TableLeafCellView>| #[trigger]
            leaf_b(cells) == leaf_a(cells).map_values(f),
    ensures
        table_children(file, cells, n, depth, wanted, leaf_b) == mapped(
            table_children(file, cells, n, depth, wanted, leaf_a),
            f,
        ),
    decreases depth, 1 + n,
{
    if n == 0 {
        assert(Seq::<A>::empty().map_values(f) =~= Seq::<B>::empty());
    } else {
        lemma_children_map(file, cells, (n - 1) as nat, depth, wanted, leaf_a, leaf_b, f);
        lemma_walk_map(file, cells[n - 1].left_child as nat, depth, wanted, leaf_a, leaf_b, f);
        let rows = table_children(file, cells, (n - 1) as nat, depth, wanted, leaf_a);
        let more = table_walk(file, cells[n - 1].left_child as nat, depth, wanted, leaf_a);
        if rows is Ok && more is Ok {
            assert((rows->Ok_0 + more->Ok_0).map_values(f) =~= rows->Ok_0.map_values(f)
                + more->Ok_0.map_values(f));
        }
    }
}

/// A filter that keeps all rows keeps the first `n` rows as they are.
pub proof fn lemma_survivors_all(cells: Seq<TableLeafCellView>, n: int)
    requires
        0 <= n <= cells.len(),
    ensures
        survivors(cells, FilterView::All, n) == cells.take(n),
    decreases n,
{
    if n > 0 {
        lemma_survivors_all(cells, n - 1);
        assert(cells.take(n - 1).push(cells[n - 1]) =~= cells.take(n));
    } else {
        assert(cells.take(0) =~= Seq::<TableLeafCellView>::empty());
    }
}

/// The result row that a select list without a count makes of a row.
pub open spec fn row_of(selected: Seq<Selected>) -> spec_fn(TableLeafCellView) -> RowView {
    |cell: TableLeafCellView|
        RowView { row_id: cell.row_id, values: project(selected, cell.record.values) }
}

/// A scan without a condition gives one row for each row of the table, in
/// the order of the tree and with its row id, however deep the tree is.
pub proof fn lemma_scan_preserves_rows(
    file: FileView,
    page_num: nat,
    depth: nat,
    selected: Seq<Selected>,
)
    requires
        first_count(selected) == selected.len(),
    ensures
        query_rows(file, page_num, depth, PlanView { selected, filter: FilterView::All })
            == mapped(table_cells(file, page_num, depth), row_of(selected)),
        table_cells(file, page_num, depth) matches Ok(cells) ==> {
            let rows = query_rows(
                file,
                page_num,
                depth,
                PlanView { selected, filter: FilterView::All },
            )->Ok_0;
            &&& rows.len() == cells.len()
            &&& forall|i: int|
                0 <= i < cells.len() ==> (#[trigger] rows[i]).row_id == cells[i].row_id
        },
{
    let plan = PlanView { selected, filter: FilterView::All };
    assert forall|cells: Seq<TableLeafCellView>| #[trigger]
        leaf_of(plan)(cells) == all_cells()(cells).map_values(row_of(selected)) by {
        lemma_survivors_all(cells, cells.len() as int);
        assert(cells.take(cells.len() as int) =~= cells);
        assert(leaf_rows(cells, plan) =~= cells.map_values(row_of(selected)));
    }
    lemma_walk_map(file, page_num, depth, None, all_cells(), leaf_of(plan), row_of(selected));
}

/// Whether `leaf` makes of two runs of rows, one after the other, what it
/// makes of the one and then what it makes of the other.
pub open spec fn row_by_row<T>(leaf: spec_fn(Seq<TableLeafCellView>) -> Seq<T>) -> bool {
    forall|a: Seq<TableLeafCellView>, b: Seq<TableLeafCellView>| #[trigger]
        leaf(a + b) == leaf(a) + leaf(b)
}

/// What `leaf` makes of all the rows of a table; the failure of the walk
/// where the rows cannot be read.
pub open spec fn of_all<T>(
    cells: Result<Seq<TableLeafCellView>, DbError>,
    leaf: spec_fn(Seq<TableLeafCellView>) -> Seq<T>,
) -> Result<Seq<T>, DbError> {
    match cells {
        Ok(cells) => Ok(leaf(cells)),
        Err(e) => Err(e),
    }
}

/// A walk over all the leaf pages that works row by row gathers what it
/// would make of the rows of the table taken as one page.
pub proof fn lemma_walk_gathers<T>(
    file: FileView,
    page_num: nat,
    depth: nat,
    leaf: spec_fn(Seq<TableLeafCellView>) -> Seq<T>,
)
    requires
        row_by_row(leaf),
    ensures
        table_walk(file, page_num, depth, None, leaf) == of_all(
            table_cells(file, page_num, depth),
            leaf,
        ),
    decreases depth, 0nat,
{
    match page_at(file, page_num) {
        Ok(PageView::TableInterior(page)) => {
            if depth > 0 {
                let below = (depth - 1) as nat;
                lemma_children_gather(file, page.cells, page.cells.len(), below, leaf);
                lemma_walk_gathers(file, page.header.right_most_point as nat, below, leaf);
            }
        },
        _ => {},
    }
}

/// The same below the first `n` cells of an interior page.
pub proof fn lemma_children_gather<T>(
    file: FileView,
    cells: Seq<TableInteriorCell>,
    n: nat,
    depth: nat,
    leaf: spec_fn(Seq<TableLeafCellView>) -> Seq<T>,
)
    requires
        row_by_row(leaf),
    ensures
        table_children(file, cells, n, depth, None, leaf) == of_all(
            table_children(file, cells, n, depth, None, all_cells()),
            leaf,
        ),
    decreases depth, 1 + n,
{
    if n == 0 {
        let none = Seq::<TableLeafCellView>::empty();
        assert(none + none =~= none);
        assert(leaf(none + none) == leaf(none) + leaf(none));
        assert(leaf(none) =~= Seq::<T>::empty());
    } else {
        lemma_children_gather(file, cells, (n - 1) as nat, depth, leaf);
        lemma_walk_gathers(file, cells[n - 1].left_child as nat, depth, leaf);
    }
}

/// The rows that a filter keeps of two runs of rows, one after the other,
/// are those that it keeps of the one and then those that it keeps of the
/// other.
pub proof fn lemma_survivors_concat(
    a: Seq<TableLeafCellView>,
    b: Seq<TableLeafCellView>,
    filter: FilterView,
    n: int,
)
    requires
        0 <= n <= b.len(),
    ensures
        survivors(a + b, filter, a.len() + n) == survivors(a, filter, a.len() as int) + survivors(
            b,
            filter,
            n,
        ),
    decreases n,
{
    if n > 0 {
        lemma_survivors_concat(a, b, filter, n - 1);
        assert((a + b)[a.len() + n - 1] == b[n - 1]);
        let kept = survivors(a, filter, a.len() as int) + survivors(b, filter, n - 1);
        assert(kept.push(b[n - 1]) =~= survivors(a, filter, a.len() as int) + survivors(
            b,
            filter,
            n - 1,
        ).push(b[n - 1]));
    } else {
        lemma_survivors_prefix(a, a + b, filter, a.len() as int);
        assert(survivors(a, filter, a.len() as int) + Seq::<TableLeafCellView>::empty()
            =~= survivors(a, filter, a.len() as int));
    }
}

/// What a filter keeps of the first `n` rows depends on those rows alone.
pub proof fn lemma_survivors_prefix(
    a: Seq<TableLeafCellView>,
    b: Seq<TableLeafCellView>,
    filter: FilterView,
    n: int,
)
    requires
        n <= a.len(),
        n <= b.len(),
        forall|i: int| 0 <= i < n ==> a[i] == b[i],
    ensures
        survivors(a, filter, n) == survivors(b, filter, n),
    decreases n,
{
    if n > 0 {
        lemma_survivors_prefix(a, b, filter, n - 1);
    }
}

/// A scan with a condition gives one row for each row of the table that
/// the condition keeps, in the order of the tree and with its row id,
/// however deep the tree is. This is said of a scan that tries every row
/// and of a select list without a count.
pub proof fn lemma_filtered_scan(
    file: FileView,
    page_num: nat,
    depth: nat,
    selected: Seq<Selected>,
    filter: FilterView,
)
    requires
        first_count(selected) == selected.len(),
        !(filter is RowIds),
    ensures
        query_rows(file, page_num, depth, PlanView { selected, filter }) == match table_cells(
            file,
            page_num,
            depth,
        ) {
            Ok(cells) => Ok(
                survivors(cells, filter, cells.len() as int).map_values(row_of(selected)),
            ),
            Err(e) => Err(e),
        },
{
    let plan = PlanView { selected, filter };
    assert(row_by_row(leaf_of(plan))) by {
        assert forall|a: Seq<TableLeafCellView>, b: Seq<TableLeafCellView>| #[trigger]
            leaf_of(plan)(a + b) == leaf_of(plan)(a) + leaf_of(plan)(b) by {
            lemma_survivors_concat(a, b, filter, b.len() as int);
            assert(leaf_rows(a + b, plan) =~= leaf_rows(a, plan) + leaf_rows(b, plan));
        }
    }
    lemma_walk_gathers(file, page_num, depth, leaf_of(plan));
    if table_cells(file, page_num, depth) is Ok {
        let cells = table_cells(file, page_num, depth)->Ok_0;
        assert(leaf_rows(cells, plan) =~= survivors(cells, filter, cells.len() as int).map_values(
            row_of(selected),
        ));
    }
}

/// A count with a condition is the number of rows of the table that the
/// condition keeps.
pub proof fn lemma_filtered_count(file: FileView, page_num: nat, depth: nat, filter: FilterView)
    ensures
        count_rows(file, page_num, depth, filter) == match table_cells(file, page_num, depth) {
            Ok(cells) => Ok(survivors(cells, filter, cells.len() as int).len()),
            Err(e) => Err(e),
        },
{
    assert(row_by_row(kept_of(filter))) by {
        assert forall|a: Seq<TableLeafCellView>, b: Seq<TableLeafCellView>| #[trigger]
            kept_of(filter)(a + b) == kept_of(filter)(a) + kept_of(filter)(b) by {
            lemma_survivors_concat(a, b, filter, b.len() as int);
        }
    }
    lemma_walk_gathers(file, page_num, depth, kept_of(filter));
}

/// Where all the rows of a table can be read, a walk that looks for chosen
/// row ids reads no page of the table that the walk over all rows does not
/// read.
pub proof fn lemma_fetch_reads_no_more(file: FileView, page_num: nat, depth: nat, ids: Seq<i64>)
    requires
        table_cells(file, page_num, depth) is Ok,
    ensures
        walk_pages(file, page_num, depth, Some(ids)).subset_of(
            walk_pages(file, page_num, depth, None),
        ),
    decreases depth, 0nat,
{
    match page_at(file, page_num) {
        Ok(PageView::TableInterior(page)) => {
            if depth > 0 {
                let below = (depth - 1) as nat;
                lemma_children_read_no_more(file, page.cells, page.cells.len(), below, ids);
                lemma_fetch_reads_no_more(file, page.header.right_most_point as nat, below, ids);
            }
        },
        _ => {},
    }
}

/// The same below the first `n` cells of an interior page.
pub proof fn lemma_children_read_no_more(
    file: FileView,
    cells: Seq<TableInteriorCell>,
    n: nat,
    depth: nat,
    ids: Seq<i64>,
)
    requires
        table_children(file, cells, n, depth, None, all_cells()) is Ok,
    ensures
        children_pages(file, cells, n, depth, Some(ids)).subset_of(
            children_pages(file, cells, n, depth, None),
        ),
    decreases depth, 1 + n,
{
    if n > 0 {
        lemma_children_read_no_more(file, cells, (n - 1) as nat, depth, ids);
        lemma_fetch_reads_no_more(file, cells[n - 1].left_child as nat, depth, ids);
    }
}

/// `COUNT(*)` is the number of rows that a scan without a condition gives.
pub proof fn lemma_count_is_scan_length(
    file: FileView,
    page_num: nat,
    depth: nat,
    selected: Seq<Selected>,
)
    requires
        first_count(selected) == selected.len(),
    ensures
        match query_rows(file, page_num, depth, PlanView { selected, filter: FilterView::All }) {
            Ok(rows) => count_rows(file, page_num, depth, FilterView::All) == Ok::<nat, DbError>(
                rows.len(),
            ),
            Err(e) => count_rows(file, page_num, depth, FilterView::All) == Err::<nat, DbError>(e),
        },
{
    lemma_scan_preserves_rows(file, page_num, depth, selected);
    let same = |cell: TableLeafCellView| cell;
    assert forall|cells: Seq<TableLeafCellView>| #[trigger]
        kept_of(FilterView::All)(cells) == all_cells()(cells).map_values(same) by {
        lemma_survivors_all(cells, cells.len() as int);
        assert(cells.take(cells.len() as int) =~= cells);
        assert(cells.map_values(same) =~= cells);
    }
    lemma_walk_map(file, page_num, depth, None, all_cells(), kept_of(FilterView::All), same);
}

/// An entry of an index: its key, and the row id that it ends with.
pub ghost struct IndexEntry {
    pub key: ValueView,
    pub row_id: Option<i64>,
}

/// The entry that a record of an index holds.
pub open spec fn entry_of(record: RecordView) -> IndexEntry {
    IndexEntry { key: entry_key(record), row_id: entry_row_id(record) }
}

/// The entries of an index leaf page.
pub open spec fn leaf_entries(cells: Seq<IndexLeafCellView>) -> Seq<IndexEntry> {
    Seq::new(cells.len(), |i: int| entry_of(cells[i].record))
}

/// All the entries of the index whose tree starts at page `page_num`, in
/// the order of the tree: before the entry of an interior cell come those
/// of its child, and after the last cell those of the right-most child.
pub open spec fn index_entries(file: FileView, page_num: nat, depth: nat) -> Result<
    Seq<IndexEntry>,
    DbError,
>
    decreases depth, 0nat,
{
    match page_at(file, page_num) {
        Err(e) => Err(e),
        Ok(PageView::IndexLeaf(page)) => Ok(leaf_entries(page.cells)),
        Ok(PageView::IndexInterior(page)) => if depth == 0 {
            Err(DbError::CyclicTree)
        } else {
            interior_entries(
                file,
                page.cells,
                0,
                page.header.right_most_point,
                (depth - 1) as nat,
            )
        },
        Ok(_) => Err(unexpected_page(file, page_num)),
    }
}

/// The entries from cell `i` of an index interior page on.
pub open spec fn interior_entries(
    file: FileView,
    cells: Seq<IndexInteriorCellView>,
    i: nat,
    right: u32,
    depth: nat,
) -> Result<Seq<IndexEntry>, DbError>
    decreases depth,
        if i < cells.len() {
            1 + cells.len() - i
        } else {
            1
        },
{
    if i >= cells.len() {
        index_entries(file, right as nat, depth)
    } else {
        match index_entries(file, cells[i as int].left_child as nat, depth) {
            Err(e) => Err(e),
            Ok(below) => match interior_entries(file, cells, i + 1, right, depth) {
                Err(e) => Err(e),
                Ok(rest) => Ok(below.push(entry_of(cells[i as int].record)) + rest),
            },
        }
    }
}

/// Whether a key that comes first and one that comes later stand to the key
/// `q` as keys in order do: `q` does not stand further on to the second
/// than to the first. Nothing is asked where it is left open how `q` stands
/// to one of them.
pub open spec fn in_turn(q: TargetView, first: ValueView, second: ValueView) -> bool {
    key_order(q, first) != 2 && key_order(q, second) != 2 ==> key_order(q, first) >= key_order(
        q,
        second,
    )
}

/// Whether entries stand in the order of their keys, as far as the key `q`
/// can tell: an entry that `q` comes after never follows one that `q` is
/// equal to or comes before, nor does an entry that `q` is equal to follow
/// one that `q` comes before.
pub open spec fn in_order_for(entries: Seq<IndexEntry>, q: TargetView) -> bool {
    forall|i: int, j: int|
        0 <= i < j < entries.len() ==> in_turn(
            q,
            (#[trigger] entries[i]).key,
            (#[trigger] entries[j]).key,
        )
}

/// The class of a key in the order of an index: NULL comes first, then
/// numbers, then texts, then blobs.
pub open spec fn key_rank(key: ValueView) -> int {
    match key {
        ValueView::Null => 0,
        ValueView::String(_) => 2,
        ValueView::Blob(_) => 3,
        _ => 1,
    }
}

/// Whether a key comes no later than another in the order of an index, as
/// far as classes, the order of integers, the order of texts and the order
/// of blobs say. Of a double among the numbers nothing is asked.
pub open spec fn key_at_most(a: ValueView, b: ValueView) -> bool {
    key_rank(a) < key_rank(b) || (key_rank(a) == key_rank(b) && (a is String ==> text_order(
        a->String_0,
        b->String_0,
    ) <= 0) && (a is Blob ==> bytes_order(a->Blob_0, b->Blob_0) <= 0) && (a is I64 && b is I64
        ==> a->I64_0 <= b->I64_0))
}

/// Whether entries stand in the order of their keys.
pub open spec fn sorted_by_key(entries: Seq<IndexEntry>) -> bool {
    forall|i: int, j: int|
        0 <= i < j < entries.len() ==> key_at_most(
            (#[trigger] entries[i]).key,
            (#[trigger] entries[j]).key,
        )
}

/// A text that comes no later than another stands to any third text no
/// later than the other does.
pub proof fn lemma_text_order_monotone(q: Seq<char>, s: Seq<char>, t: Seq<char>)
    requires
        text_order(s, t) <= 0,
    ensures
        text_order(q, s) >= text_order(q, t),
    decreases q.len(),
{
    lemma_text_order_range(q, s);
    lemma_text_order_range(q, t);
    if q.len() > 0 && s.len() > 0 && t.len() > 0 {
        let a = q[0] as u32;
        let b = s[0] as u32;
        let c = t[0] as u32;
        if a == b && b == c {
            lemma_text_order_monotone(q.drop_first(), s.drop_first(), t.drop_first());
        }
    }
}

/// A run of bytes that comes no later than another stands to any third no
/// later than the other does.
pub proof fn lemma_bytes_order_monotone(q: Seq<u8>, s: Seq<u8>, t: Seq<u8>)
    requires
        bytes_order(s, t) <= 0,
    ensures
        bytes_order(q, s) >= bytes_order(q, t),
    decreases q.len(),
{
    lemma_bytes_order_equal(q, s);
    lemma_bytes_order_equal(q, t);
    if q.len() > 0 && s.len() > 0 && t.len() > 0 {
        if q[0] == s[0] && s[0] == t[0] {
            lemma_bytes_order_monotone(q.drop_first(), s.drop_first(), t.drop_first());
        }
    }
}

/// Entries that stand in the order of their keys stand in order as far as
/// any key that is looked for can tell.
pub proof fn lemma_sorted_is_in_order(entries: Seq<IndexEntry>, q: TargetView)
    requires
        sorted_by_key(entries),
    ensures
        in_order_for(entries, q),
{
    assert forall|i: int, j: int| 0 <= i < j < entries.len() implies in_turn(
        q,
        (#[trigger] entries[i]).key,
        (#[trigger] entries[j]).key,
    ) by {
        let a = entries[i].key;
        let b = entries[j].key;
        assert(key_at_most(a, b));
        lemma_key_order_range(q, a);
        lemma_key_order_range(q, b);
        match q {
            TargetView::Text(text) => {
                if a is String && b is String {
                    lemma_text_order_monotone(text, a->String_0, b->String_0);
                }
            },
            TargetView::Blob(bytes) => {
                if a is Blob && b is Blob {
                    lemma_bytes_order_monotone(bytes, a->Blob_0, b->Blob_0);
                }
            },
            _ => {},
        }
    }
}

/// Whether every entry ends with a row id.
pub open spec fn with_row_ids(entries: Seq<IndexEntry>) -> bool {
    forall|i: int| 0 <= i < entries.len() ==> (#[trigger] entries[i]).row_id is Some
}

/// The row ids of the entries with key `q`, in order.
pub open spec fn matching_ids(entries: Seq<IndexEntry>, q: TargetView) -> Seq<i64>
    decreases entries.len(),
{
    if entries.len() == 0 {
        Seq::empty()
    } else {
        let rest = matching_ids(entries.drop_last(), q);
        if key_order(q, entries.last().key) == 0 && entries.last().row_id is Some {
            rest.push(entries.last().row_id->Some_0)
        } else {
            rest
        }
    }
}

/// The matching row ids of two runs of entries are those of the first and
/// then those of the second.
pub proof fn lemma_matching_concat(a: Seq<IndexEntry>, b: Seq<IndexEntry>, q: TargetView)
    ensures
        matching_ids(a + b, q) == matching_ids(a, q) + matching_ids(b, q),
    decreases b.len(),
{
    if b.len() == 0 {
        assert(a + b =~= a);
        assert(matching_ids(a, q) + matching_ids(b, q) =~= matching_ids(a, q));
    } else {
        lemma_matching_concat(a, b.drop_last(), q);
        assert((a + b).drop_last() =~= a + b.drop_last());
        assert((a + b).last() == b.last());
        let rest = matching_ids(a, q) + matching_ids(b.drop_last(), q);
        if key_order(q, b.last().key) == 0 && b.last().row_id is Some {
            assert(rest.push(b.last().row_id->Some_0) =~= matching_ids(a, q) + matching_ids(
                b.drop_last(),
                q,
            ).push(b.last().row_id->Some_0));
        }
    }
}

/// Entries none of which has the key `q` give no matching row id.
pub proof fn lemma_matching_none(a: Seq<IndexEntry>, q: TargetView)
    requires
        forall|i: int| 0 <= i < a.len() ==> key_order(q, (#[trigger] a[i]).key) != 0,
    ensures
        matching_ids(a, q) == Seq::<i64>::empty(),
    decreases a.len(),
{
    if a.len() > 0 {
        let front = a.drop_last();
        assert forall|i: int| 0 <= i < front.len() implies key_order(q, (#[trigger] front[i]).key)
            != 0 by {
            assert(front[i] == a[i]);
        }
        lemma_matching_none(front, q);
        assert(a.last() == a[a.len() - 1]);
    }
}

/// What the search finds on a leaf page are the row ids of its entries with
/// key `q`.
pub proof fn lemma_leaf_search(
    cells: Seq<IndexLeafCellView>,
    q: TargetView,
    n: nat,
    missing: DbError,
)
    requires
        n <= cells.len(),
        with_row_ids(leaf_entries(cells)),
    ensures
        leaf_matches(cells, q, n, missing) == Ok::<Seq<i64>, DbError>(
            matching_ids(leaf_entries(cells).take(n as int), q),
        ),
    decreases n,
{
    let entries = leaf_entries(cells);
    if n > 0 {
        lemma_leaf_search(cells, q, (n - 1) as nat, missing);
        assert(entries.take(n as int).drop_last() =~= entries.take(n - 1));
        assert(entries.take(n as int).last() == entries[n - 1]);
        assert(entries[n - 1].row_id is Some);
    }
}

/// What the search finds in an index are the row ids of its entries with
/// key `q`, where the entries stand in the order of their keys and end with
/// row ids.
pub proof fn lemma_index_search(file: FileView, page_num: nat, depth: nat, q: TargetView)
    requires
        index_entries(file, page_num, depth) is Ok,
        in_order_for(index_entries(file, page_num, depth)->Ok_0, q),
        with_row_ids(index_entries(file, page_num, depth)->Ok_0),
    ensures
        index_search(file, page_num, depth, q) == Ok::<Seq<i64>, DbError>(
            matching_ids(index_entries(file, page_num, depth)->Ok_0, q),
        ),
    decreases depth, 0nat,
{
    match page_at(file, page_num) {
        Ok(PageView::IndexLeaf(page)) => {
            lemma_leaf_search(page.cells, q, page.cells.len(), missing_row_id(file, page_num));
            assert(leaf_entries(page.cells).take(page.cells.len() as int) =~= leaf_entries(
                page.cells,
            ));
        },
        Ok(PageView::IndexInterior(page)) => {
            lemma_interior_search(
                file,
                page.cells,
                0,
                page.header.right_most_point,
                (depth - 1) as nat,
                q,
                missing_row_id(file, page_num),
            );
        },
        _ => {},
    }
}

/// The same from cell `i` of an index interior page on.
pub proof fn lemma_interior_search(
    file: FileView,
    cells: Seq<IndexInteriorCellView>,
    i: nat,
    right: u32,
    depth: nat,
    q: TargetView,
    missing: DbError,
)
    requires
        interior_entries(file, cells, i, right, depth) is Ok,
        in_order_for(interior_entries(file, cells, i, right, depth)->Ok_0, q),
        with_row_ids(interior_entries(file, cells, i, right, depth)->Ok_0),
    ensures
        index_children(file, steps_of(cells, q), i, right, depth, q, missing) == Ok::<
            Seq<i64>,
            DbError,
        >(
            matching_ids(interior_entries(file, cells, i, right, depth)->Ok_0, q),
        ),
    decreases depth,
        if i < cells.len() {
            1 + cells.len() - i
        } else {
            1
        },
{
    let steps = steps_of(cells, q);
    if i >= cells.len() {
        lemma_index_search(file, right as nat, depth, q);
    } else {
        let all = interior_entries(file, cells, i, right, depth)->Ok_0;
        let below = index_entries(file, cells[i as int].left_child as nat, depth)->Ok_0;
        let entry = entry_of(cells[i as int].record);
        let rest = interior_entries(file, cells, i + 1, right, depth)->Ok_0;
        let at = below.len() as int;
        assert(all == below.push(entry) + rest);
        assert(all[at] == entry);
        assert forall|a: int| 0 <= a < below.len() implies #[trigger] all[a] == below[a] by {}
        assert forall|b: int| 0 <= b < rest.len() implies #[trigger] all[at + 1 + b]
            == rest[b] by {}
        assert(in_order_for(below, q)) by {
            assert forall|a: int, b: int| 0 <= a < b < below.len() implies in_turn(
                q,
                (#[trigger] below[a]).key,
                (#[trigger] below[b]).key,
            ) by {
                assert(all[a] == below[a] && all[b] == below[b]);
            }
        }
        assert(in_order_for(rest, q)) by {
            assert forall|a: int, b: int| 0 <= a < b < rest.len() implies in_turn(
                q,
                (#[trigger] rest[a]).key,
                (#[trigger] rest[b]).key,
            ) by {
                assert(all[at + 1 + a] == rest[a] && all[at + 1 + b] == rest[b]);
            }
        }
        assert(with_row_ids(below)) by {
            assert forall|a: int| 0 <= a < below.len() implies (#[trigger] below[a]).row_id
                is Some by {
                assert(all[a] == below[a]);
            }
        }
        assert(with_row_ids(rest)) by {
            assert forall|b: int| 0 <= b < rest.len() implies (#[trigger] rest[b]).row_id
                is Some by {
                assert(all[at + 1 + b] == rest[b]);
            }
        }
        let order = key_order(q, entry.key);
        assert(-1 <= order <= 2) by {
            lemma_key_order_range(q, entry.key);
        }
        assert(steps[i as int].order == order);
        assert(steps[i as int].row_id == entry.row_id);
        assert(steps[i as int].left_child == cells[i as int].left_child);
        lemma_matching_concat(below.push(entry), rest, q);
        lemma_matching_concat(below, seq![entry], q);
        assert(below.push(entry) =~= below + seq![entry]);
        assert(seq![entry].drop_last() =~= Seq::<IndexEntry>::empty());
        assert(seq![entry].last() == entry);
        assert(matching_ids(Seq::<IndexEntry>::empty(), q) =~= Seq::<i64>::empty());
        if order == 1 {
            lemma_interior_search(file, cells, i + 1, right, depth, q, missing);
            assert forall|a: int| 0 <= a < below.len() implies key_order(
                q,
                (#[trigger] below[a]).key,
            ) != 0 by {
                assert(all[a] == below[a]);
                assert(in_turn(q, all[a].key, all[at].key));
            }
            lemma_matching_none(below, q);
            assert(matching_ids(all, q) =~= matching_ids(rest, q));
        } else {
            lemma_index_search(file, cells[i as int].left_child as nat, depth, q);
            if order < 0 {
                assert forall|b: int| 0 <= b < rest.len() implies key_order(
                    q,
                    (#[trigger] rest[b]).key,
                ) != 0 by {
                    assert(all[at + 1 + b] == rest[b]);
                    assert(in_turn(q, all[at].key, all[at + 1 + b].key));
                }
                lemma_matching_none(rest, q);
                assert(matching_ids(all, q) =~= matching_ids(below, q));
            } else if order == 2 {
                lemma_interior_search(file, cells, i + 1, right, depth, q, missing);
                assert(matching_ids(all, q) =~= matching_ids(below, q) + matching_ids(rest, q));
            } else {
                lemma_interior_search(file, cells, i + 1, right, depth, q, missing);
                assert(entry.row_id is Some);
                assert(matching_ids(all, q) =~= matching_ids(below, q).push(
                    entry.row_id->Some_0,
                ) + matching_ids(rest, q));
            }
        }
    }
}

/// Whether every one of the rows has the quality `good`.
pub open spec fn all_good(
    cells: Seq<TableLeafCellView>,
    good: spec_fn(TableLeafCellView) -> bool,
) -> bool {
    forall|i: int| 0 <= i < cells.len() ==> good(#[trigger] cells[i])
}

/// Two walks over all the pages of a table gather the same, where they make
/// the same of every leaf page whose rows all have a quality that all the
/// rows of the table have.
pub proof fn lemma_walk_agree<T>(
    file: FileView,
    page_num: nat,
    depth: nat,
    leaf_a: spec_fn(Seq<TableLeafCellView>) -> Seq<T>,
    leaf_b: spec_fn(Seq<TableLeafCellView>) -> Seq<T>,
    good: spec_fn(TableLeafCellView) -> bool,
)
    requires
        table_cells(file, page_num, depth) is Ok,
        all_good(table_cells(file, page_num, depth)->Ok_0, good),
        forall|cells: Seq<TableLeafCellView>|
            all_good(cells, good) ==> #[trigger] leaf_a(cells) == leaf_b(cells),
    ensures
        table_walk(file, page_num, depth, None, leaf_a) == table_walk(
            file,
            page_num,
            depth,
            None,
            leaf_b,
        ),
    decreases depth, 0nat,
{
    match page_at(file, page_num) {
        Ok(PageView::TableInterior(page)) => {
            let below = (depth - 1) as nat;
            let right = page.header.right_most_point as nat;
            let rows = table_children(
                file,
                page.cells,
                page.cells.len(),
                below,
                None,
                all_cells(),
            )->Ok_0;
            let more = table_walk(file, right, below, None, all_cells())->Ok_0;
            let whole = table_cells(file, page_num, depth)->Ok_0;
            assert(whole == rows + more);
            assert(all_good(rows, good)) by {
                assert forall|i: int| 0 <= i < rows.len() implies good(#[trigger] rows[i]) by {
                    assert(whole[i] == rows[i]);
                }
            }
            assert(all_good(more, good)) by {
                assert forall|i: int| 0 <= i < more.len() implies good(#[trigger] more[i]) by {
                    assert(whole[rows.len() + i] == more[i]);
                }
            }
            lemma_children_agree(file, page.cells, page.cells.len(), below, leaf_a, leaf_b, good);
            lemma_walk_agree(file, right, below, leaf_a, leaf_b, good);
        },
        Ok(PageView::TableLeaf(page)) => {
            assert(all_cells()(page.cells) == page.cells);
        },
        _ => {},
    }
}

/// The same below the first `n` cells of an interior page.
pub proof fn lemma_children_agree<T>(
    file: FileView,
    cells: Seq<TableInteriorCell>,
    n: nat,
    depth: nat,
    leaf_a: spec_fn(Seq<TableLeafCellView>) -> Seq<T>,
    leaf_b: spec_fn(Seq<TableLeafCellView>) -> Seq<T>,
    good: spec_fn(TableLeafCellView) -> bool,
)
    requires
        table_children(file, cells, n, depth, None, all_cells()) is Ok,
        all_good(table_children(file, cells, n, depth, None, all_cells())->Ok_0, good),
        forall|cells: Seq<TableLeafCellView>|
            all_good(cells, good) ==> #[trigger] leaf_a(cells) == leaf_b(cells),
    ensures
        table_children(file, cells, n, depth, None, leaf_a) == table_children(
            file,
            cells,
            n,
            depth,
            None,
            leaf_b,
        ),
    decreases depth, 1 + n,
{
    if n > 0 {
        let child = cells[n - 1].left_child as nat;
        let rows = table_children(file, cells, (n - 1) as nat, depth, None, all_cells())->Ok_0;
        let more = table_walk(file, child, depth, None, all_cells())->Ok_0;
        let whole = table_children(file, cells, n, depth, None, all_cells())->Ok_0;
        assert(whole == rows + more);
        assert(all_good(rows, good)) by {
            assert forall|i: int| 0 <= i < rows.len() implies good(#[trigger] rows[i]) by {
                assert(whole[i] == rows[i]);
            }
        }
        assert(all_good(more, good)) by {
            assert forall|i: int| 0 <= i < more.len() implies good(#[trigger] more[i]) by {
                assert(whole[rows.len() + i] == more[i]);
            }
        }
        lemma_children_agree(file, cells, (n - 1) as nat, depth, leaf_a, leaf_b, good);
        lemma_walk_agree(file, child, depth, leaf_a, leaf_b, good);
    }
}

/// Whether the row ids of all the rows are at most `key`.
pub open spec fn all_at_most(cells: Seq<TableLeafCellView>, key: int) -> bool {
    forall|i: int| 0 <= i < cells.len() ==> signed64((#[trigger] cells[i]).row_id) <= key
}

/// Whether the row ids of all the rows are greater than `key`.
pub open spec fn all_above(cells: Seq<TableLeafCellView>, key: int) -> bool {
    forall|i: int| 0 <= i < cells.len() ==> signed64((#[trigger] cells[i]).row_id) > key
}

/// Whether the keys of the interior pages of a table tree bound the row ids
/// below them: the rows below the child of a cell have row ids up to the
/// key of the cell, and the rows below the right-most child of a page have
/// row ids above the key of its last cell.
pub open spec fn table_ordered(file: FileView, page_num: nat, depth: nat) -> bool
    decreases depth, 0nat,
{
    match page_at(file, page_num) {
        Ok(PageView::TableInterior(page)) => depth > 0 ==> {
            let below = (depth - 1) as nat;
            let right = page.header.right_most_point as nat;
            &&& children_ordered(file, page.cells, page.cells.len(), below)
            &&& table_ordered(file, right, below)
            &&& page.cells.len() > 0 ==> (table_cells(file, right, below) matches Ok(rows)
                ==> all_above(rows, signed64(page.cells.last().row_id)))
        },
        _ => true,
    }
}

/// The same for the first `n` cells of an interior page.
pub open spec fn children_ordered(
    file: FileView,
    cells: Seq<TableInteriorCell>,
    n: nat,
    depth: nat,
) -> bool
    decreases depth, 1 + n,
{
    n > 0 ==> {
        let child = cells[n - 1].left_child as nat;
        &&& children_ordered(file, cells, (n - 1) as nat, depth)
        &&& table_ordered(file, child, depth)
        &&& table_cells(file, child, depth) matches Ok(rows) ==> all_at_most(
            rows,
            signed64(cells[n - 1].row_id),
        )
    }
}

/// Whether a walk makes nothing of leaf pages without a wanted row.
pub open spec fn skips_unwanted<T>(
    leaf: spec_fn(Seq<TableLeafCellView>) -> Seq<T>,
    ids: Seq<i64>,
) -> bool {
    forall|cells: Seq<TableLeafCellView>|
        all_good(cells, unwanted(ids)) ==> #[trigger] leaf(cells) == Seq::<T>::empty()
}

/// The quality of a row not to be wanted.
pub open spec fn unwanted(ids: Seq<i64>) -> spec_fn(TableLeafCellView) -> bool {
    |cell: TableLeafCellView| !has_id(ids, signed64(cell.row_id))
}

/// What makes nothing of any leaf page.
pub open spec fn nothing<T>() -> spec_fn(Seq<TableLeafCellView>) -> Seq<T> {
    |cells: Seq<TableLeafCellView>| Seq::<T>::empty()
}

/// A walk that makes nothing of every leaf page gathers nothing.
pub proof fn lemma_walk_nothing<T>(file: FileView, page_num: nat, depth: nat)
    ensures
        table_walk(file, page_num, depth, None, nothing::<T>()) matches Ok(rows) ==> rows
            == Seq::<T>::empty(),
    decreases depth, 0nat,
{
    match page_at(file, page_num) {
        Ok(PageView::TableInterior(page)) => {
            if depth > 0 {
                let below = (depth - 1) as nat;
                lemma_children_nothing::<T>(file, page.cells, page.cells.len(), below);
                lemma_walk_nothing::<T>(file, page.header.right_most_point as nat, below);
                assert(Seq::<T>::empty() + Seq::<T>::empty() =~= Seq::<T>::empty());
            }
        },
        _ => {},
    }
}

/// The same below the first `n` cells of an interior page.
pub proof fn lemma_children_nothing<T>(
    file: FileView,
    cells: Seq<TableInteriorCell>,
    n: nat,
    depth: nat,
)
    ensures
        table_children(file, cells, n, depth, None, nothing::<T>()) matches Ok(rows) ==> rows
            == Seq::<T>::empty(),
    decreases depth, 1 + n,
{
    if n > 0 {
        lemma_children_nothing::<T>(file, cells, (n - 1) as nat, depth);
        lemma_walk_nothing::<T>(file, cells[n - 1].left_child as nat, depth);
        assert(Seq::<T>::empty() + Seq::<T>::empty() =~= Seq::<T>::empty());
    }
}

/// A walk gathers nothing below a page none of whose rows is wanted.
pub proof fn lemma_walk_unwanted<T>(
    file: FileView,
    page_num: nat,
    depth: nat,
    ids: Seq<i64>,
    leaf: spec_fn(Seq<TableLeafCellView>) -> Seq<T>,
)
    requires
        skips_unwanted(leaf, ids),
        table_cells(file, page_num, depth) is Ok,
        all_good(table_cells(file, page_num, depth)->Ok_0, unwanted(ids)),
    ensures
        table_walk(file, page_num, depth, None, leaf) == Ok::<Seq<T>, DbError>(Seq::empty()),
{
    lemma_walk_agree(file, page_num, depth, leaf, nothing::<T>(), unwanted(ids));
    lemma_walk_nothing::<T>(file, page_num, depth);
    lemma_walk_shape(file, page_num, depth, None, all_cells(), nothing::<T>());
}

/// A walk that looks for row ids gathers what a walk over all the pages
/// gathers, where the keys of the interior pages bound the row ids below
/// them and the walk makes nothing of leaf pages without a wanted row.
pub proof fn lemma_pruned_walk<T>(
    file: FileView,
    page_num: nat,
    depth: nat,
    ids: Seq<i64>,
    leaf: spec_fn(Seq<TableLeafCellView>) -> Seq<T>,
)
    requires
        skips_unwanted(leaf, ids),
        table_ordered(file, page_num, depth),
        table_cells(file, page_num, depth) is Ok,
    ensures
        table_walk(file, page_num, depth, Some(ids), leaf) == table_walk(
            file,
            page_num,
            depth,
            None,
            leaf,
        ),
    decreases depth, 0nat,
{
    match page_at(file, page_num) {
        Ok(PageView::TableInterior(page)) => {
            let below = (depth - 1) as nat;
            let right = page.header.right_most_point as nat;
            lemma_pruned_children(file, page.cells, page.cells.len(), below, ids, leaf);
            if visits_last(page.cells, Some(ids)) {
                lemma_pruned_walk(file, right, below, ids, leaf);
            } else {
                let rows = table_cells(file, right, below)->Ok_0;
                assert(all_good(rows, unwanted(ids))) by {
                    assert forall|i: int| 0 <= i < rows.len() implies unwanted(ids)(
                        #[trigger] rows[i],
                    ) by {
                        let id = signed64(rows[i].row_id);
                        if has_id(ids, id) {
                            let j = choose|j: int| 0 <= j < ids.len() && ids[j] == id;
                            if page.cells.len() > 0 {
                                assert(ids[j] > signed64(page.cells.last().row_id));
                            }
                        }
                    }
                }
                lemma_walk_unwanted(file, right, below, ids, leaf);
                let gathered = table_children(
                    file,
                    page.cells,
                    page.cells.len(),
                    below,
                    None,
                    leaf,
                );
                if gathered is Ok {
                    assert(gathered->Ok_0 + Seq::<T>::empty() =~= gathered->Ok_0);
                }
            }
            lemma_children_shape(
                file,
                page.cells,
                page.cells.len(),
                below,
                None,
                all_cells(),
                leaf,
            );
        },
        _ => {},
    }
}

/// The same below the first `n` cells of an interior page.
pub proof fn lemma_pruned_children<T>(
    file: FileView,
    cells: Seq<TableInteriorCell>,
    n: nat,
    depth: nat,
    ids: Seq<i64>,
    leaf: spec_fn(Seq<TableLeafCellView>) -> Seq<T>,
)
    requires
        skips_unwanted(leaf, ids),
        children_ordered(file, cells, n, depth),
        table_children(file, cells, n, depth, None, all_cells()) is Ok,
    ensures
        table_children(file, cells, n, depth, Some(ids), leaf) == table_children(
            file,
            cells,
            n,
            depth,
            None,
            leaf,
        ),
    decreases depth, 1 + n,
{
    if n > 0 {
        let child = cells[n - 1].left_child as nat;
        lemma_pruned_children(file, cells, (n - 1) as nat, depth, ids, leaf);
        if visits(cells[n - 1], Some(ids)) {
            lemma_pruned_walk(file, child, depth, ids, leaf);
        } else {
            let rows = table_cells(file, child, depth)->Ok_0;
            assert(all_good(rows, unwanted(ids))) by {
                assert forall|i: int| 0 <= i < rows.len() implies unwanted(ids)(
                    #[trigger] rows[i],
                ) by {
                    let id = signed64(rows[i].row_id);
                    if has_id(ids, id) {
                        let j = choose|j: int| 0 <= j < ids.len() && ids[j] == id;
                        assert(ids[j] <= signed64(cells[n - 1].row_id));
                    }
                }
            }
            lemma_walk_unwanted(file, child, depth, ids, leaf);
            let gathered = table_children(file, cells, (n - 1) as nat, depth, None, leaf);
            if gathered is Ok {
                assert(gathered->Ok_0 + Seq::<T>::empty() =~= gathered->Ok_0);
            }
        }
        lemma_children_shape(file, cells, (n - 1) as nat, depth, None, all_cells(), leaf);
    }
}

/// Two filters that keep the same of the first `n` rows have the same
/// survivors among them.
pub proof fn lemma_survivors_agree(
    cells: Seq<TableLeafCellView>,
    a: FilterView,
    b: FilterView,
    n: int,
)
    requires
        n <= cells.len(),
        forall|i: int|
            0 <= i < cells.len() ==> survives(a, #[trigger] cells[i]) == survives(b, cells[i]),
    ensures
        survivors(cells, a, n) == survivors(cells, b, n),
    decreases n,
{
    if n > 0 {
        lemma_survivors_agree(cells, a, b, n - 1);
    }
}

/// A filter that keeps none of the first `n` rows has no survivors among
/// them.
pub proof fn lemma_survivors_none(cells: Seq<TableLeafCellView>, filter: FilterView, n: int)
    requires
        n <= cells.len(),
        forall|i: int| 0 <= i < cells.len() ==> !survives(filter, #[trigger] cells[i]),
    ensures
        survivors(cells, filter, n) == Seq::<TableLeafCellView>::empty(),
    decreases n,
{
    if n > 0 {
        lemma_survivors_none(cells, filter, n - 1);
    }
}

/// Whether an index has an entry with key `q` for the row id `id`.
pub open spec fn has_entry(entries: Seq<IndexEntry>, q: TargetView, id: int) -> bool {
    exists|j: int|
        0 <= j < entries.len() && key_order(q, (#[trigger] entries[j]).key) == 0
            && entries[j].row_id == Some(id as i64) && i64::MIN <= id <= i64::MAX
}

/// The row ids that match are those of the entries with key `q`.
pub proof fn lemma_matching_has_entry(entries: Seq<IndexEntry>, q: TargetView, id: int)
    ensures
        has_id(matching_ids(entries, q), id) <==> has_entry(entries, q, id),
    decreases entries.len(),
{
    if entries.len() > 0 {
        let front = entries.drop_last();
        let last = entries.last();
        lemma_matching_has_entry(front, q, id);
        let ids = matching_ids(entries, q);
        let before = matching_ids(front, q);
        let hit = key_order(q, last.key) == 0 && last.row_id is Some;
        if has_id(ids, id) {
            let i = choose|i: int| 0 <= i < ids.len() && ids[i] == id;
            if hit && i == ids.len() - 1 {
                assert(entries[entries.len() - 1] == last);
            } else {
                assert(before[i] == ids[i]);
                assert(has_id(before, id));
                let j = choose|j: int|
                    0 <= j < front.len() && key_order(q, (#[trigger] front[j]).key) == 0
                        && front[j].row_id == Some(id as i64) && i64::MIN <= id <= i64::MAX;
                assert(entries[j] == front[j]);
            }
        }
        if has_entry(entries, q, id) {
            let j = choose|j: int|
                0 <= j < entries.len() && key_order(q, (#[trigger] entries[j]).key) == 0
                    && entries[j].row_id == Some(id as i64) && i64::MIN <= id <= i64::MAX;
            if j == entries.len() - 1 {
                assert(ids[ids.len() - 1] == id);
            } else {
                assert(front[j] == entries[j]);
                assert(has_entry(front, q, id));
                let i = choose|i: int| 0 <= i < before.len() && before[i] == id;
                assert(ids[i] == before[i]);
            }
        }
    }
}

/// Whether an index has an entry for the row id `id` whose key shows as
/// the text `q`.
pub open spec fn shows_entry(entries: Seq<IndexEntry>, q: Seq<char>, id: int) -> bool {
    exists|j: int|
        0 <= j < entries.len() && display((#[trigger] entries[j]).key) == Some(q)
            && entries[j].row_id == Some(id as i64) && i64::MIN <= id <= i64::MAX
}

/// Whether one of the first `n` of the keys is the key `key`.
pub open spec fn among(keys: Seq<Option<TargetView>>, key: ValueView, n: int) -> bool
    decreases n,
{
    n > 0 && (among(keys, key, n - 1) || (keys[n - 1] is Some && key_order(
        keys[n - 1]->Some_0,
        key,
    ) == 0))
}

/// A key shows as a text exactly where it is one of the keys that the
/// lookup for that text searches for.
pub proof fn lemma_shows_as(q: Seq<char>, key: ValueView)
    requires
        key is I64 ==> i64::MIN <= key->I64_0 <= i64::MAX,
    ensures
        display(key) == Some(q) <==> among(targets(q), key, 4),
{
    reveal_with_fuel(among, 5);
    match key {
        ValueView::String(s) => {
            lemma_text_order_equal(q, s);
        },
        ValueView::Blob(bytes) => {
            lemma_bytes_order_equal(encode_utf8(q), bytes);
            encode_utf8_valid_utf8(q);
            encode_utf8_decode_utf8(q);
            if valid_utf8(bytes) {
                decode_utf8_encode_utf8(bytes);
            }
        },
        ValueView::I64(n) => {
            lemma_parse_decimal(n);
        },
        _ => {},
    }
}

/// Whether the index has an entry for the row id `id` whose key is one of
/// the first `n` of the keys.
pub open spec fn found_by(
    entries: Seq<IndexEntry>,
    keys: Seq<Option<TargetView>>,
    n: int,
    id: int,
) -> bool
    decreases n,
{
    n > 0 && (found_by(entries, keys, n - 1, id) || (keys[n - 1] is Some && has_entry(
        entries,
        keys[n - 1]->Some_0,
        id,
    )))
}

/// A row id is among those of two runs exactly where it is among those of
/// one of them.
pub proof fn lemma_has_id_concat(a: Seq<i64>, b: Seq<i64>, id: int)
    ensures
        has_id(a + b, id) <==> has_id(a, id) || has_id(b, id),
{
    let both = a + b;
    if has_id(both, id) {
        let i = choose|i: int| 0 <= i < both.len() && both[i] == id;
        if i < a.len() {
            assert(a[i] == id);
        } else {
            assert(b[i - a.len()] == id);
        }
    }
    if has_id(a, id) {
        let i = choose|i: int| 0 <= i < a.len() && a[i] == id;
        assert(both[i] == id);
    }
    if has_id(b, id) {
        let i = choose|i: int| 0 <= i < b.len() && b[i] == id;
        assert(both[a.len() + i] == id);
    }
}

/// What the searches for the first `n` of the keys find are the row ids of
/// the entries whose key is one of them.
pub proof fn lemma_lookup_from(
    file: FileView,
    page_num: nat,
    depth: nat,
    keys: Seq<Option<TargetView>>,
    n: nat,
)
    requires
        n <= keys.len(),
        index_entries(file, page_num, depth) is Ok,
        sorted_by_key(index_entries(file, page_num, depth)->Ok_0),
        with_row_ids(index_entries(file, page_num, depth)->Ok_0),
    ensures
        lookup_from(file, page_num, depth, keys, n) is Ok,
        forall|id: int| #[trigger]
            has_id(lookup_from(file, page_num, depth, keys, n)->Ok_0, id) <==> found_by(
                index_entries(file, page_num, depth)->Ok_0,
                keys,
                n as int,
                id,
            ),
    decreases n,
{
    let entries = index_entries(file, page_num, depth)->Ok_0;
    if n > 0 {
        lemma_lookup_from(file, page_num, depth, keys, (n - 1) as nat);
        let before = lookup_from(file, page_num, depth, keys, (n - 1) as nat)->Ok_0;
        let now = lookup_from(file, page_num, depth, keys, n)->Ok_0;
        match keys[n - 1] {
            Some(key) => {
                lemma_sorted_is_in_order(entries, key);
                lemma_index_search(file, page_num, depth, key);
                assert forall|id: int| #[trigger] has_id(now, id) <==> found_by(
                    entries,
                    keys,
                    n as int,
                    id,
                ) by {
                    lemma_has_id_concat(before, matching_ids(entries, key), id);
                    lemma_matching_has_entry(entries, key, id);
                    assert(has_id(before, id) <==> found_by(entries, keys, n - 1, id));
                }
            },
            None => {
                assert forall|id: int| #[trigger] has_id(now, id) <==> found_by(
                    entries,
                    keys,
                    n as int,
                    id,
                ) by {
                    assert(has_id(before, id) <==> found_by(entries, keys, n - 1, id));
                }
            },
        }
    } else {
        assert forall|id: int| !(#[trigger] has_id(Seq::<i64>::empty(), id)) by {}
    }
}

/// Whether every integer key is one of 64 bits.
pub open spec fn keys_fit(entries: Seq<IndexEntry>) -> bool {
    forall|j: int|
        0 <= j < entries.len() ==> ((#[trigger] entries[j]).key is I64 ==> i64::MIN
            <= entries[j].key->I64_0 <= i64::MAX)
}

/// Every integer key of an index is one of 64 bits.
pub proof fn lemma_keys_fit(file: FileView, page_num: nat, depth: nat)
    ensures
        index_entries(file, page_num, depth) matches Ok(entries) ==> keys_fit(entries),
    decreases depth, 0nat,
{
    match page_bytes(file, page_num) {
        Some(bytes) => {
            lemma_index_integers_fit(bytes, page_num as int);
        },
        None => {},
    }
    match page_at(file, page_num) {
        Ok(PageView::IndexLeaf(page)) => {
            let entries = leaf_entries(page.cells);
            assert forall|j: int| 0 <= j < entries.len() && (#[trigger] entries[j]).key
                is I64 implies i64::MIN <= entries[j].key->I64_0 <= i64::MAX by {
                assert(integers_fit(page.cells[j].record.values));
            }
        },
        Ok(PageView::IndexInterior(page)) => {
            if depth > 0 {
                lemma_interior_keys_fit(
                    file,
                    page.cells,
                    0,
                    page.header.right_most_point,
                    (depth - 1) as nat,
                );
            }
        },
        _ => {},
    }
}

/// The same from cell `i` of an index interior page on.
pub proof fn lemma_interior_keys_fit(
    file: FileView,
    cells: Seq<IndexInteriorCellView>,
    i: nat,
    right: u32,
    depth: nat,
)
    requires
        forall|j: int| 0 <= j < cells.len() ==> integers_fit((#[trigger] cells[j]).record.values),
    ensures
        interior_entries(file, cells, i, right, depth) matches Ok(entries) ==> keys_fit(entries),
    decreases depth,
        if i < cells.len() {
            1 + cells.len() - i
        } else {
            1
        },
{
    if i >= cells.len() {
        lemma_keys_fit(file, right as nat, depth);
    } else {
        lemma_keys_fit(file, cells[i as int].left_child as nat, depth);
        lemma_interior_keys_fit(file, cells, i + 1, right, depth);
        if interior_entries(file, cells, i, right, depth) is Ok {
            let below = index_entries(file, cells[i as int].left_child as nat, depth)->Ok_0;
            let rest = interior_entries(file, cells, i + 1, right, depth)->Ok_0;
            let entry = entry_of(cells[i as int].record);
            let all = below.push(entry) + rest;
            assert(integers_fit(cells[i as int].record.values));
            assert forall|j: int| 0 <= j < all.len() && (#[trigger] all[j]).key
                is I64 implies i64::MIN <= all[j].key->I64_0 <= i64::MAX by {
                if j < below.len() {
                    assert(all[j] == below[j]);
                } else if j > below.len() {
                    assert(all[j] == rest[j - below.len() - 1]);
                }
            }
        }
    }
}

/// An entry is found by one of the first `n` keys exactly where its key is
/// one of them.
pub proof fn lemma_found_by(
    entries: Seq<IndexEntry>,
    keys: Seq<Option<TargetView>>,
    n: int,
    id: int,
)
    ensures
        found_by(entries, keys, n, id) <==> exists|j: int|
            0 <= j < entries.len() && among(keys, (#[trigger] entries[j]).key, n)
                && entries[j].row_id == Some(id as i64) && i64::MIN <= id <= i64::MAX,
    decreases n,
{
    if n > 0 {
        lemma_found_by(entries, keys, n - 1, id);
        if found_by(entries, keys, n - 1, id) {
            let j = choose|j: int|
                0 <= j < entries.len() && among(keys, (#[trigger] entries[j]).key, n - 1)
                    && entries[j].row_id == Some(id as i64) && i64::MIN <= id <= i64::MAX;
            assert(among(keys, entries[j].key, n));
        }
        if keys[n - 1] is Some && has_entry(entries, keys[n - 1]->Some_0, id) {
            let key = keys[n - 1]->Some_0;
            let j = choose|j: int|
                0 <= j < entries.len() && key_order(key, (#[trigger] entries[j]).key) == 0
                    && entries[j].row_id == Some(id as i64) && i64::MIN <= id <= i64::MAX;
            assert(among(keys, entries[j].key, n));
        }
        if exists|j: int|
            0 <= j < entries.len() && among(keys, (#[trigger] entries[j]).key, n)
                && entries[j].row_id == Some(id as i64) && i64::MIN <= id <= i64::MAX {
            let j = choose|j: int|
                0 <= j < entries.len() && among(keys, (#[trigger] entries[j]).key, n)
                    && entries[j].row_id == Some(id as i64) && i64::MIN <= id <= i64::MAX;
            if among(keys, entries[j].key, n - 1) {
                assert(found_by(entries, keys, n - 1, id));
            } else {
                assert(has_entry(entries, keys[n - 1]->Some_0, id));
            }
        }
    }
}

/// What an index gives for a text are the row ids of the entries whose key
/// shows as that text, whatever the text is. This holds of an index whose
/// entries stand in the order of their keys and end with row ids.
pub proof fn lemma_index_lookup(file: FileView, page_num: nat, depth: nat, q: Seq<char>)
    requires
        index_entries(file, page_num, depth) is Ok,
        sorted_by_key(index_entries(file, page_num, depth)->Ok_0),
        with_row_ids(index_entries(file, page_num, depth)->Ok_0),
    ensures
        index_lookup(file, page_num, depth, q) is Ok,
        forall|id: int| #[trigger]
            has_id(index_lookup(file, page_num, depth, q)->Ok_0, id) <==> shows_entry(
                index_entries(file, page_num, depth)->Ok_0,
                q,
                id,
            ),
{
    let entries = index_entries(file, page_num, depth)->Ok_0;
    let keys = targets(q);
    lemma_keys_fit(file, page_num, depth);
    lemma_lookup_from(file, page_num, depth, keys, 4);
    let ids = index_lookup(file, page_num, depth, q)->Ok_0;
    assert forall|id: int| #[trigger] has_id(ids, id) <==> shows_entry(entries, q, id) by {
        lemma_found_by(entries, keys, 4, id);
        assert(has_id(ids, id) <==> found_by(entries, keys, 4, id));
        if found_by(entries, keys, 4, id) {
            let j = choose|j: int|
                0 <= j < entries.len() && among(keys, (#[trigger] entries[j]).key, 4)
                    && entries[j].row_id == Some(id as i64) && i64::MIN <= id <= i64::MAX;
            lemma_shows_as(q, entries[j].key);
        }
        if shows_entry(entries, q, id) {
            let j = choose|j: int|
                0 <= j < entries.len() && display((#[trigger] entries[j]).key) == Some(q)
                    && entries[j].row_id == Some(id as i64) && i64::MIN <= id <= i64::MAX;
            lemma_shows_as(q, entries[j].key);
        }
    }
}

/// Whether the index at page `index_root` is one on column `column` of the
/// table at page `table_root`, as far as the text `q` goes: the interior
/// keys of the table bound the row ids below them; the entries of the index
/// stand in the order of their keys and end with row ids; and the index has
/// an entry whose key shows as `q` for exactly the rows whose column shows
/// as `q`.
pub open spec fn index_answers(
    file: FileView,
    table_root: nat,
    index_root: nat,
    depth: nat,
    column: usize,
    q: Seq<char>,
) -> bool {
    &&& table_cells(file, table_root, depth) is Ok
    &&& table_ordered(file, table_root, depth)
    &&& index_entries(file, index_root, depth) is Ok
    &&& sorted_by_key(index_entries(file, index_root, depth)->Ok_0)
    &&& with_row_ids(index_entries(file, index_root, depth)->Ok_0)
    &&& forall|i: int|
        #![trigger table_cells(file, table_root, depth)->Ok_0[i]]
        0 <= i < table_cells(file, table_root, depth)->Ok_0.len() ==> (shows_entry(
            index_entries(file, index_root, depth)->Ok_0,
            q,
            signed64(table_cells(file, table_root, depth)->Ok_0[i].row_id),
        ) <==> compare(
            CompareOp::Equal,
            column_or_null(
                table_cells(file, table_root, depth)->Ok_0[i].record.values,
                column as int,
            ),
            q,
        ))
}

/// An index gives the rows that trying every row gives. Where a table has
/// an index on a column, a statement with the condition `column = 'q'`
/// gives the same rows, in the same order, whether the engine looks the row
/// ids up in the index and fetches those rows, or tries the condition on
/// every row of the table, whatever the text `q` is.
pub proof fn lemma_index_agrees_with_scan(
    file: FileView,
    table_root: nat,
    index_root: nat,
    depth: nat,
    selected: Seq<Selected>,
    column: usize,
    q: Seq<char>,
)
    requires
        index_answers(file, table_root, index_root, depth, column, q),
    ensures
        index_lookup(file, index_root, depth, q) is Ok,
        query_rows(
            file,
            table_root,
            depth,
            PlanView {
                selected,
                filter: FilterView::RowIds(index_lookup(file, index_root, depth, q)->Ok_0),
            },
        ) == query_rows(
            file,
            table_root,
            depth,
            PlanView {
                selected,
                filter: FilterView::Compare { column, op: CompareOp::Equal, literal: q },
            },
        ),
{
    let entries = index_entries(file, index_root, depth)->Ok_0;
    let cells = table_cells(file, table_root, depth)->Ok_0;
    lemma_index_lookup(file, index_root, depth, q);
    let ids = index_lookup(file, index_root, depth, q)->Ok_0;
    let by_ids = PlanView { selected, filter: FilterView::RowIds(ids) };
    let by_scan = PlanView {
        selected,
        filter: FilterView::Compare { column, op: CompareOp::Equal, literal: q },
    };
    assert(skips_unwanted(leaf_of(by_ids), ids)) by {
        assert forall|page: Seq<TableLeafCellView>| all_good(page, unwanted(ids)) implies #[trigger]
            leaf_of(by_ids)(page) == Seq::<RowView>::empty() by {
            assert forall|i: int| 0 <= i < page.len() implies !survives(
                by_ids.filter,
                #[trigger] page[i],
            ) by {
                assert(unwanted(ids)(page[i]));
            }
            lemma_survivors_none(page, by_ids.filter, page.len() as int);
            assert(leaf_rows(page, by_ids) =~= Seq::<RowView>::empty());
        }
    }
    lemma_pruned_walk(file, table_root, depth, ids, leaf_of(by_ids));
    let good = |cell: TableLeafCellView|
        survives(by_ids.filter, cell) == survives(by_scan.filter, cell);
    assert(all_good(cells, good)) by {
        assert forall|i: int| 0 <= i < cells.len() implies good(#[trigger] cells[i]) by {
            assert(has_id(ids, signed64(cells[i].row_id)) <==> shows_entry(
                entries,
                q,
                signed64(cells[i].row_id),
            ));
        }
    }
    assert forall|page: Seq<TableLeafCellView>| all_good(page, good) implies #[trigger] leaf_of(
        by_ids,
    )(page) == leaf_of(by_scan)(page) by {
        assert forall|i: int| 0 <= i < page.len() implies survives(
            by_ids.filter,
            #[trigger] page[i],
        ) == survives(by_scan.filter, page[i]) by {
            assert(good(page[i]));
        }
        lemma_survivors_agree(page, by_ids.filter, by_scan.filter, page.len() as int);
    }
    lemma_walk_agree(file, table_root, depth, leaf_of(by_ids), leaf_of(by_scan), good);
}

/// A statement gives the same rows with an index as without one. Where the
/// engine answers a statement through an index, and that index is one on
/// the column of the condition, the rows are those that the statement gives
/// when the catalog holds no index and every row is tried.
pub proof fn lemma_statement_through_index(
    file: FileView,
    schema: SchemaView,
    indexes: Seq<SchemaView>,
    columns: Seq<ExprView>,
    table: Seq<char>,
    condition: Option<ExprView>,
)
    requires
        index_for(indexes, table, condition) >= 0 ==> index_answers(
            file,
            schema.root_page as nat,
            indexes[index_for(indexes, table, condition)].root_page as nat,
            page_count(file),
            position(schema.columns, lowercase(index_key(condition)->Some_0.0), 0) as usize,
            index_key(condition)->Some_0.1,
        ),
    ensures
        run_scan(file, schema, indexes, columns, table, condition) == run_scan(
            file,
            schema,
            Seq::empty(),
            columns,
            table,
            condition,
        ),
{
    let at = index_for(indexes, table, condition);
    let none = Seq::<SchemaView>::empty();
    assert(index_for(none, table, condition) == -1);
    if at >= 0 {
        let q = index_key(condition)->Some_0.1;
        let selected = select_list(columns, schema.columns, columns.len());
        let filter = filter_of(condition, schema.columns);
        if selected is Ok && filter is Ok {
            lemma_index_agrees_with_scan(
                file,
                schema.root_page as nat,
                indexes[at].root_page as nat,
                page_count(file),
                selected->Ok_0,
                position(schema.columns, lowercase(index_key(condition)->Some_0.0), 0) as usize,
                q,
            );
        }
    }
}

} // verus!
