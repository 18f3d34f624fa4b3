use vstd::prelude::*;
use vstd::string::*;
use vstd::utf8::*;

use crate::db::Pager;
use crate::error::{moved_result, offset_sum, DbError};
use crate::page::{
    header_offset, lemma_table_leaf_count, parse_page, IndexInteriorCell, IndexInteriorCellView,
    IndexLeafCellView, IndexLeafPage, Page, PageView, TableInteriorCell, TableLeafCellView,
    TableLeafPage,
};
use crate::plan::{
    leaf_rows, query_leaf_page, rows_view, survivors, where_clause_matches, Filter, FilterView,
    Plan, PlanView, Row, RowView, Selected,
};
use crate::record::{signed64, to_signed, Record, RecordView, Value, ValueView};
use crate::text::{
    bytes_order, chars_of, compare_bytes, compare_text, integer_shown_as,
    lemma_bytes_order_equal, same_text, shown_integer, text_order,
};

verus! {

/// A database file: its bytes, and the size of its pages.
pub ghost struct FileView {
    pub bytes: Seq<u8>,
    pub page_size: nat,
}

/// The number of whole pages in a file.
pub open spec fn page_count(file: FileView) -> nat {
    if file.page_size == 0 {
        0
    } else {
        file.bytes.len() / file.page_size
    }
}

/// The bytes of page number `page_num`: pages are numbered from 1 and
/// follow each other in the file.
pub open spec fn page_bytes(file: FileView, page_num: nat) -> Option<Seq<u8>> {
    if page_num >= 1 && page_num * file.page_size <= file.bytes.len() {
        Some(
            file.bytes.subrange(
                (page_num - 1) * file.page_size,
                (page_num * file.page_size) as int,
            ),
        )
    } else {
        None
    }
}

/// Where page number `page_num` starts in the file.
pub open spec fn page_start(file: FileView, page_num: nat) -> nat {
    if page_num >= 1 {
        ((page_num - 1) * file.page_size) as nat
    } else {
        0
    }
}

/// Page number `page_num` of a file, decoded. A page that the file does not
/// hold whole cannot be read. A failure to decode the page says where in
/// the file it stands.
pub open spec fn page_at(file: FileView, page_num: nat) -> Result<PageView, DbError> {
    match page_bytes(file, page_num) {
        None => Err(DbError::Io),
        Some(bytes) => moved_result(parse_page(bytes, page_num as int), page_start(file, page_num)),
    }
}

/// The failure of a walk that comes to a page of a kind that its tree
/// cannot hold: it stands at the header of that page.
pub open spec fn unexpected_page(file: FileView, page_num: nat) -> DbError {
    DbError::UnknownPageType {
        offset: offset_sum(header_offset(page_num as int) as usize, page_start(file, page_num)),
    }
}

/// The failure of a search that comes to an index entry without a row id:
/// it stands at the page that holds the entry.
pub open spec fn missing_row_id(file: FileView, page_num: nat) -> DbError {
    DbError::MalformedRecord { offset: offset_sum(0, page_start(file, page_num)) }
}

/// Whether `id` is among `ids`, or one of them is less.
pub open spec fn some_at_most(ids: Seq<i64>, key: int) -> bool {
    exists|i: int| 0 <= i < ids.len() && ids[i] <= key
}

/// Whether one of `ids` is greater than `key`.
pub open spec fn some_above(ids: Seq<i64>, key: int) -> bool {
    exists|i: int| 0 <= i < ids.len() && ids[i] > key
}

/// Whether a walk that looks for the row ids `wanted` (for all rows, where
/// it is `None`) goes into the child of an interior cell: it does where a
/// wanted row id is no greater than the cell's key.
pub open spec fn visits(cell: TableInteriorCell, wanted: Option<Seq<i64>>) -> bool {
    wanted matches Some(ids) ==> some_at_most(ids, signed64(cell.row_id))
}

/// Whether such a walk goes into the right-most child of an interior page:
/// it does where a wanted row id is greater than the key of the last cell.
pub open spec fn visits_last(cells: Seq<TableInteriorCell>, wanted: Option<Seq<i64>>) -> bool {
    wanted matches Some(ids) ==> if cells.len() == 0 {
        ids.len() > 0
    } else {
        some_above(ids, signed64(cells.last().row_id))
    }
}

/// What a walk over the table tree at page `page_num` gathers: `leaf` says
/// what each leaf page gives, and the leaves are taken from left to right.
/// The walk goes at most `depth` pages down from this one.
pub open spec fn table_walk<T>(
    file: FileView,
    page_num: nat,
    depth: nat,
    wanted: Option<Seq<i64>>,
    leaf: spec_fn(Seq<TableLeafCellView>) -> Seq<T>,
) -> Result<Seq<T>, DbError>
    decreases depth, 0nat,
{
    match page_at(file, page_num) {
        Err(e) => Err(e),
        Ok(PageView::TableLeaf(page)) => Ok(leaf(page.cells)),
        Ok(PageView::TableInterior(page)) => if depth == 0 {
            Err(DbError::CyclicTree)
        } else {
            match table_children(
                file,
                page.cells,
                page.cells.len(),
                (depth - 1) as nat,
                wanted,
                leaf,
            ) {
                Err(e) => Err(e),
                Ok(rows) => if visits_last(page.cells, wanted) {
                    match table_walk(
                        file,
                        page.header.right_most_point as nat,
                        (depth - 1) as nat,
                        wanted,
                        leaf,
                    ) {
                        Err(e) => Err(e),
                        Ok(more) => Ok(rows + more),
                    }
                } else {
                    Ok(rows)
                },
            }
        },
        Ok(_) => Err(unexpected_page(file, page_num)),
    }
}

/// What such a walk gathers below the first `n` cells of an interior page.
pub open spec fn table_children<T>(
    file: FileView,
    cells: Seq<TableInteriorCell>,
    n: nat,
    depth: nat,
    wanted: Option<Seq<i64>>,
    leaf: spec_fn(Seq<TableLeafCellView>) -> Seq<T>,
) -> Result<Seq<T>, DbError>
    decreases depth, 1 + n,
{
    if n == 0 {
        Ok(Seq::empty())
    } else {
        match table_children(file, cells, (n - 1) as nat, depth, wanted, leaf) {
            Err(e) => Err(e),
            Ok(rows) => if visits(cells[n - 1], wanted) {
                match table_walk(file, cells[n - 1].left_child as nat, depth, wanted, leaf) {
                    Err(e) => Err(e),
                    Ok(more) => Ok(rows + more),
                }
            } else {
                Ok(rows)
            },
        }
    }
}

/// Where the walk fails below the first `n` cells, it fails in the same way
/// below more of them.
pub proof fn lemma_table_children_fail<T>(
    file: FileView,
    cells: Seq<TableInteriorCell>,
    n: nat,
    m: nat,
    depth: nat,
    wanted: Option<Seq<i64>>,
    leaf: spec_fn(Seq<TableLeafCellView>) -> Seq<T>,
)
    requires
        n <= m,
    ensures
        table_children(file, cells, n, depth, wanted, leaf) matches Err(e) ==> table_children(
            file,
            cells,
            m,
            depth,
            wanted,
            leaf,
        ) == Err::<Seq<T>, DbError>(e),
    decreases m,
{
    if n < m {
        lemma_table_children_fail(file, cells, n, (m - 1) as nat, depth, wanted, leaf);
    }
}

/// What every leaf page gives where the walk gathers the rows themselves.
pub open spec fn all_cells() -> spec_fn(Seq<TableLeafCellView>) -> Seq<TableLeafCellView> {
    |cells: Seq<TableLeafCellView>| cells
}

/// The rows of the table whose tree starts at page `page_num`, in the order
/// of the tree.
pub open spec fn table_cells(file: FileView, page_num: nat, depth: nat) -> Result<
    Seq<TableLeafCellView>,
    DbError,
> {
    table_walk(file, page_num, depth, None, all_cells())
}

/// Whether a walk fails or not, and how, does not depend on what it makes
/// of the leaf pages.
pub proof fn lemma_walk_shape<A, B>(
    file: FileView,
    page_num: nat,
    depth: nat,
    wanted: Option<Seq<i64>>,
    leaf_a: spec_fn(Seq<TableLeafCellView>) -> Seq<A>,
    leaf_b: spec_fn(Seq<TableLeafCellView>) -> Seq<B>,
)
    ensures
        table_walk(file, page_num, depth, wanted, leaf_a) is Ok <==> table_walk(
            file,
            page_num,
            depth,
            wanted,
            leaf_b,
        ) is Ok,
        table_walk(file, page_num, depth, wanted, leaf_a) matches Err(e) ==> table_walk(
            file,
            page_num,
            depth,
            wanted,
            leaf_b,
        ) == Err::<Seq<B>, DbError>(e),
    decreases depth, 0nat,
{
    match page_at(file, page_num) {
        Ok(PageView::TableInterior(page)) => {
            if depth > 0 {
                let below = (depth - 1) as nat;
                lemma_children_shape(
                    file,
                    page.cells,
                    page.cells.len(),
                    below,
                    wanted,
                    leaf_a,
                    leaf_b,
                );
                lemma_walk_shape(
                    file,
                    page.header.right_most_point as nat,
                    below,
                    wanted,
                    leaf_a,
                    leaf_b,
                );
            }
        },
        _ => {},
    }
}

/// The same below the first `n` cells of an interior page.
pub proof fn lemma_children_shape<A, B>(
    file: FileView,
    cells: Seq<TableInteriorCell>,
    n: nat,
    depth: nat,
    wanted: Option<Seq<i64>>,
    leaf_a: spec_fn(Seq<TableLeafCellView>) -> Seq<A>,
    leaf_b: spec_fn(Seq<TableLeafCellView>) -> Seq<B>,
)
    ensures
        table_children(file, cells, n, depth, wanted, leaf_a) is Ok <==> table_children(
            file,
            cells,
            n,
            depth,
            wanted,
            leaf_b,
        ) is Ok,
        table_children(file, cells, n, depth, wanted, leaf_a) matches Err(e) ==> table_children(
            file,
            cells,
            n,
            depth,
            wanted,
            leaf_b,
        ) == Err::<Seq<B>, DbError>(e),
    decreases depth, 1 + n,
{
    if n > 0 {
        lemma_children_shape(file, cells, (n - 1) as nat, depth, wanted, leaf_a, leaf_b);
        lemma_walk_shape(file, cells[n - 1].left_child as nat, depth, wanted, leaf_a, leaf_b);
    }
}

/// The pages that a walk over the table tree at page `page_num` reads: the
/// page itself, where the file holds it and it can be decoded, and below an
/// interior page the pages that the walk reads in the children that it goes
/// into, from left to right, up to the first child in which it fails.
pub open spec fn walk_pages(
    file: FileView,
    page_num: nat,
    depth: nat,
    wanted: Option<Seq<i64>>,
) -> Set<usize>
    decreases depth, 0nat,
{
    match page_at(file, page_num) {
        Err(_) => Set::empty(),
        Ok(PageView::TableInterior(page)) => if depth == 0 {
            Set::empty().insert(page_num as usize)
        } else {
            interior_pages(
                file,
                page.cells,
                page.header.right_most_point,
                (depth - 1) as nat,
                wanted,
            ).insert(page_num as usize)
        },
        Ok(_) => Set::empty().insert(page_num as usize),
    }
}

/// The pages that the walk reads below an interior page with the given
/// cells and right-most child.
pub open spec fn interior_pages(
    file: FileView,
    cells: Seq<TableInteriorCell>,
    right: u32,
    depth: nat,
    wanted: Option<Seq<i64>>,
) -> Set<usize>
    decreases depth, 2 + cells.len(),
{
    let below = children_pages(file, cells, cells.len(), depth, wanted);
    if table_children(file, cells, cells.len(), depth, wanted, all_cells()) is Ok && visits_last(
        cells,
        wanted,
    ) {
        below.union(walk_pages(file, right as nat, depth, wanted))
    } else {
        below
    }
}

/// The pages that the walk reads below the first `n` cells of an interior
/// page: it goes into the child of a cell where the walk below the cells
/// before it has not failed, and a wanted row id can be below it.
pub open spec fn children_pages(
    file: FileView,
    cells: Seq<TableInteriorCell>,
    n: nat,
    depth: nat,
    wanted: Option<Seq<i64>>,
) -> Set<usize>
    decreases depth, 1 + n,
{
    if n == 0 {
        Set::empty()
    } else {
        let before = children_pages(file, cells, (n - 1) as nat, depth, wanted);
        if table_children(file, cells, (n - 1) as nat, depth, wanted, all_cells()) is Ok && visits(
            cells[n - 1],
            wanted,
        ) {
            before.union(walk_pages(file, cells[n - 1].left_child as nat, depth, wanted))
        } else {
            before
        }
    }
}

/// After a failure below the first `n` cells the walk reads no further
/// page.
pub proof fn lemma_children_pages_stop(
    file: FileView,
    cells: Seq<TableInteriorCell>,
    n: nat,
    m: nat,
    depth: nat,
    wanted: Option<Seq<i64>>,
)
    requires
        n <= m,
        table_children(file, cells, n, depth, wanted, all_cells()) is Err,
    ensures
        children_pages(file, cells, m, depth, wanted) == children_pages(
            file,
            cells,
            n,
            depth,
            wanted,
        ),
    decreases m,
{
    if n < m {
        lemma_children_pages_stop(file, cells, n, (m - 1) as nat, depth, wanted);
        lemma_table_children_fail(file, cells, n, (m - 1) as nat, depth, wanted, all_cells());
    }
}

/// The row ids that a walk looks for: those of the filter where it names
/// row ids, else none in particular.
pub open spec fn wanted_of(filter: FilterView) -> Option<Seq<i64>> {
    match filter {
        FilterView::RowIds(ids) => Some(ids),
        _ => None,
    }
}

/// What a plan makes of the rows of a leaf page.
pub open spec fn leaf_of(plan: PlanView) -> spec_fn(Seq<TableLeafCellView>) -> Seq<RowView> {
    |cells: Seq<TableLeafCellView>| leaf_rows(cells, plan)
}

/// The result rows of a plan on the table tree at page `page_num`.
pub open spec fn query_rows(file: FileView, page_num: nat, depth: nat, plan: PlanView) -> Result<
    Seq<RowView>,
    DbError,
> {
    table_walk(file, page_num, depth, wanted_of(plan.filter), leaf_of(plan))
}

/// The rows of a leaf page that a filter keeps.
pub open spec fn kept_of(filter: FilterView) -> spec_fn(Seq<TableLeafCellView>) -> Seq<
    TableLeafCellView,
> {
    |cells: Seq<TableLeafCellView>| survivors(cells, filter, cells.len() as int)
}

/// The number of rows, in the whole table tree at page `page_num`, that a
/// filter keeps.
pub open spec fn count_rows(
    file: FileView,
    page_num: nat,
    depth: nat,
    filter: FilterView,
) -> Result<nat, DbError> {
    match table_walk(file, page_num, depth, None, kept_of(filter)) {
        Ok(cells) => Ok(cells.len()),
        Err(e) => Err(e),
    }
}

/// Copies the cells of an interior page.
fn copy_cells(cells: &Vec<TableInteriorCell>) -> (copy: Vec<TableInteriorCell>)
    ensures
        copy@ == cells@,
{
    let mut copy: Vec<TableInteriorCell> = Vec::new();
    let mut i: usize = 0;
    while i < cells.len()
        invariant
            i <= cells@.len(),
            copy@ == cells@.subrange(0, i as int),
        decreases cells@.len() - i,
    {
        copy.push(cells[i]);
        proof {
            assert(copy@ =~= cells@.subrange(0, i + 1));
        }
        i = i + 1;
    }
    proof {
        assert(cells@.subrange(0, cells@.len() as int) =~= cells@);
    }
    copy
}

/// Whether one of `ids` is at most `key`.
fn any_at_most(ids: &Vec<i64>, key: i64) -> (found: bool)
    ensures
        found == some_at_most(ids@, key as int),
{
    let mut i: usize = 0;
    while i < ids.len()
        invariant
            i <= ids@.len(),
            forall|j: int| 0 <= j < i ==> ids@[j] > key,
        decreases ids@.len() - i,
    {
        if ids[i] <= key {
            return true;
        }
        i = i + 1;
    }
    false
}

/// Whether one of `ids` is greater than `key`.
fn any_above(ids: &Vec<i64>, key: i64) -> (found: bool)
    ensures
        found == some_above(ids@, key as int),
{
    let mut i: usize = 0;
    while i < ids.len()
        invariant
            i <= ids@.len(),
            forall|j: int| 0 <= j < i ==> ids@[j] <= key,
        decreases ids@.len() - i,
    {
        if ids[i] > key {
            return true;
        }
        i = i + 1;
    }
    false
}

/// Whether a walk with this filter goes into the child of an interior cell.
fn goes_into(cell: &TableInteriorCell, filter: &Filter) -> (goes: bool)
    ensures
        goes == visits(*cell, wanted_of(filter@)),
{
    match filter {
        Filter::RowIds(ids) => any_at_most(ids, to_signed(cell.row_id)),
        _ => true,
    }
}

/// Whether a walk with this filter goes into the right-most child of an
/// interior page.
fn goes_last(cells: &Vec<TableInteriorCell>, filter: &Filter) -> (goes: bool)
    ensures
        goes == visits_last(cells@, wanted_of(filter@)),
{
    match filter {
        Filter::RowIds(ids) => if cells.len() == 0 {
            ids.len() > 0
        } else {
            any_above(ids, to_signed(cells[cells.len() - 1].row_id))
        },
        _ => true,
    }
}

/// What the pages that were kept become when a walk reads page `page_num`:
/// nothing is added where the page cannot be read, the page alone where the
/// walk ends at it, and below an interior page what the walk reads there.
pub proof fn lemma_walk_pages_read(
    file: FileView,
    page_num: nat,
    depth: nat,
    wanted: Option<Seq<i64>>,
    before: Set<usize>,
)
    ensures
        page_at(file, page_num) is Err ==> before.union(walk_pages(file, page_num, depth, wanted))
            == before,
        page_at(file, page_num) is Ok ==> !(page_at(file, page_num)->Ok_0 is TableInterior
            && depth > 0) ==> before.union(walk_pages(file, page_num, depth, wanted))
            == before.insert(page_num as usize),
        page_at(file, page_num) matches Ok(PageView::TableInterior(page)) ==> depth > 0
            ==> before.union(walk_pages(file, page_num, depth, wanted)) == before.insert(
            page_num as usize,
        ).union(
            interior_pages(
                file,
                page.cells,
                page.header.right_most_point,
                (depth - 1) as nat,
                wanted,
            ),
        ),
{
    let pages = walk_pages(file, page_num, depth, wanted);
    match page_at(file, page_num) {
        Err(_) => {
            assert(before.union(pages) =~= before);
        },
        Ok(PageView::TableInterior(page)) => {
            if depth > 0 {
                let below = interior_pages(
                    file,
                    page.cells,
                    page.header.right_most_point,
                    (depth - 1) as nat,
                    wanted,
                );
                assert(before.union(pages) =~= before.insert(page_num as usize).union(below));
            } else {
                assert(before.union(pages) =~= before.insert(page_num as usize));
            }
        },
        Ok(_) => {
            assert(before.union(pages) =~= before.insert(page_num as usize));
        },
    }
}

/// What the pages that were kept become when the walk goes on from cell `i`
/// of an interior page: with the child of the cell where the walk goes into
/// it, and with nothing more after a failure in it.
pub proof fn lemma_children_pages_step<T>(
    file: FileView,
    cells: Seq<TableInteriorCell>,
    i: nat,
    depth: nat,
    wanted: Option<Seq<i64>>,
    leaf: spec_fn(Seq<TableLeafCellView>) -> Seq<T>,
    before: Set<usize>,
)
    requires
        i < cells.len(),
        table_children(file, cells, i, depth, wanted, leaf) is Ok,
    ensures
        !visits(cells[i as int], wanted) ==> children_pages(file, cells, i + 1, depth, wanted)
            == children_pages(file, cells, i, depth, wanted),
        visits(cells[i as int], wanted) ==> before.union(
            children_pages(file, cells, i + 1, depth, wanted),
        ) == before.union(children_pages(file, cells, i, depth, wanted)).union(
            walk_pages(file, cells[i as int].left_child as nat, depth, wanted),
        ),
        table_children(file, cells, i + 1, depth, wanted, leaf) is Err ==> forall|right: u32|
            #[trigger] interior_pages(file, cells, right, depth, wanted) == children_pages(
                file,
                cells,
                i + 1,
                depth,
                wanted,
            ),
{
    lemma_children_shape(file, cells, i, depth, wanted, leaf, all_cells());
    lemma_children_shape(file, cells, i + 1, depth, wanted, leaf, all_cells());
    let here = children_pages(file, cells, i, depth, wanted);
    let child = walk_pages(file, cells[i as int].left_child as nat, depth, wanted);
    if visits(cells[i as int], wanted) {
        assert(before.union(here.union(child)) =~= before.union(here).union(child));
    }
    if table_children(file, cells, i + 1, depth, wanted, leaf) is Err {
        lemma_children_pages_stop(file, cells, i + 1, cells.len(), depth, wanted);
        lemma_table_children_fail(file, cells, i + 1, cells.len(), depth, wanted, all_cells());
    }
}

/// What the pages that were kept become when the walk has gone below all
/// the cells of an interior page: with the right-most child where the walk
/// goes into it.
pub proof fn lemma_interior_pages_last<T>(
    file: FileView,
    cells: Seq<TableInteriorCell>,
    right: u32,
    depth: nat,
    wanted: Option<Seq<i64>>,
    leaf: spec_fn(Seq<TableLeafCellView>) -> Seq<T>,
    before: Set<usize>,
)
    requires
        table_children(file, cells, cells.len(), depth, wanted, leaf) is Ok,
    ensures
        !visits_last(cells, wanted) ==> interior_pages(file, cells, right, depth, wanted)
            == children_pages(file, cells, cells.len(), depth, wanted),
        visits_last(cells, wanted) ==> before.union(
            interior_pages(file, cells, right, depth, wanted),
        ) == before.union(children_pages(file, cells, cells.len(), depth, wanted)).union(
            walk_pages(file, right as nat, depth, wanted),
        ),
{
    lemma_children_shape(file, cells, cells.len(), depth, wanted, leaf, all_cells());
    let here = children_pages(file, cells, cells.len(), depth, wanted);
    let last = walk_pages(file, right as nat, depth, wanted);
    if visits_last(cells, wanted) {
        assert(before.union(here.union(last)) =~= before.union(here).union(last));
    }
}

/// Runs a plan on the table tree at page `page_num`, going at most `depth`
/// pages down from it.
pub fn query_page(pager: &mut Pager, page_num: u32, depth: usize, plan: &Plan) -> (res: Result<
    Vec<Row>,
    DbError,
>)
    requires
        old(pager).wf(),
    ensures
        final(pager).wf(),
        final(pager)@ == old(pager)@,
        match query_rows(old(pager)@, page_num as nat, depth as nat, plan@) {
            Ok(rows) => res is Ok && rows_view(res->Ok_0@) == rows,
            Err(e) => res == Err::<Vec<Row>, DbError>(e),
        },
        final(pager).cached() == old(pager).cached().union(
            walk_pages(old(pager)@, page_num as nat, depth as nat, wanted_of(plan@.filter)),
        ),
    decreases depth, 0nat,
{
    let ghost file = pager@;
    let ghost before = pager.cached();
    proof {
        if page_bytes(file, page_num as nat) is Some {
            lemma_table_leaf_count(page_bytes(file, page_num as nat)->Some_0, page_num as int);
        }
        lemma_walk_pages_read(
            file,
            page_num as nat,
            depth as nat,
            wanted_of(plan@.filter),
            before,
        );
    }
    let unexpected = pager.unexpected_page(page_num as usize);
    let (cells, right) = match pager.read_page(page_num as usize) {
        Err(e) => {
            return Err(e);
        },
        Ok(page) => match page {
            Page::TableLeaf(leaf_page) => {
                return Ok(query_leaf_page(leaf_page, plan));
            },
            Page::TableInterior(interior) => (
                copy_cells(&interior.cells),
                interior.header.right_most_point,
            ),
            _ => {
                return Err(unexpected);
            },
        },
    };
    if depth == 0 {
        return Err(DbError::CyclicTree);
    }
    query_interior_page(pager, &cells, right, depth - 1, plan)
}

/// Fetches the rows with the given row ids from the table tree at page
/// `page_num`, and shows of each what the select items ask for. The walk
/// leaves out the children that the keys of the interior pages rule out.
pub fn get_rows(
    pager: &mut Pager,
    page_num: u32,
    depth: usize,
    selected: Vec<Selected>,
    row_ids: Vec<i64>,
) -> (res: Result<Vec<Row>, DbError>)
    requires
        old(pager).wf(),
    ensures
        final(pager).wf(),
        final(pager)@ == old(pager)@,
        match query_rows(
            old(pager)@,
            page_num as nat,
            depth as nat,
            PlanView { selected: selected@, filter: FilterView::RowIds(row_ids@) },
        ) {
            Ok(rows) => res is Ok && rows_view(res->Ok_0@) == rows,
            Err(e) => res == Err::<Vec<Row>, DbError>(e),
        },
        final(pager).cached() == old(pager).cached().union(
            walk_pages(old(pager)@, page_num as nat, depth as nat, Some(row_ids@)),
        ),
{
    let plan = Plan { selected, filter: Filter::RowIds(row_ids) };
    query_page(pager, page_num, depth, &plan)
}

/// What the walk gathers below all the cells of an interior page, and then
/// below its right-most child where the walk goes there.
pub open spec fn interior_rows<T>(
    file: FileView,
    cells: Seq<TableInteriorCell>,
    right: u32,
    depth: nat,
    wanted: Option<Seq<i64>>,
    leaf: spec_fn(Seq<TableLeafCellView>) -> Seq<T>,
) -> Result<Seq<T>, DbError> {
    match table_children(file, cells, cells.len(), depth, wanted, leaf) {
        Err(e) => Err(e),
        Ok(rows) => if visits_last(cells, wanted) {
            match table_walk(file, right as nat, depth, wanted, leaf) {
                Err(e) => Err(e),
                Ok(more) => Ok(rows + more),
            }
        } else {
            Ok(rows)
        },
    }
}

/// Runs a plan below an interior page with the given cells and right-most
/// child: on the children from left to right, then on the right-most.
pub fn query_interior_page(
    pager: &mut Pager,
    cells: &Vec<TableInteriorCell>,
    right: u32,
    depth: usize,
    plan: &Plan,
) -> (res: Result<Vec<Row>, DbError>)
    requires
        old(pager).wf(),
    ensures
        final(pager).wf(),
        final(pager)@ == old(pager)@,
        match interior_rows(
            old(pager)@,
            cells@,
            right,
            depth as nat,
            wanted_of(plan@.filter),
            leaf_of(plan@),
        ) {
            Ok(rows) => res is Ok && rows_view(res->Ok_0@) == rows,
            Err(e) => res == Err::<Vec<Row>, DbError>(e),
        },
        final(pager).cached() == old(pager).cached().union(
            interior_pages(old(pager)@, cells@, right, depth as nat, wanted_of(plan@.filter)),
        ),
    decreases depth, 1nat,
{
    let ghost file = pager@;
    let ghost before = pager.cached();
    let ghost wanted = wanted_of(plan@.filter);
    let ghost leaf = leaf_of(plan@);
    let mut rows: Vec<Row> = Vec::new();
    let mut i: usize = 0;
    proof {
        assert(rows_view(rows@) =~= Seq::<RowView>::empty());
        assert(before.union(Set::empty()) =~= before);
    }
    while i < cells.len()
        invariant
            i <= cells@.len(),
            pager.wf(),
            pager@ == file,
            file == old(pager)@,
            before == old(pager).cached(),
            wanted == wanted_of(plan@.filter),
            leaf == leaf_of(plan@),
            table_children(file, cells@, i as nat, depth as nat, wanted, leaf) == Ok::<
                Seq<RowView>,
                DbError,
            >(rows_view(rows@)),
            pager.cached() == before.union(
                children_pages(file, cells@, i as nat, depth as nat, wanted),
            ),
        decreases cells@.len() - i,
    {
        let cell = cells[i];
        proof {
            lemma_table_children_fail(
                file,
                cells@,
                (i + 1) as nat,
                cells@.len() as nat,
                depth as nat,
                wanted,
                leaf,
            );
            lemma_children_pages_step(
                file,
                cells@,
                i as nat,
                depth as nat,
                wanted,
                leaf,
                before,
            );
        }
        if goes_into(&cell, &plan.filter) {
            match query_page(pager, cell.left_child, depth, plan) {
                Err(e) => {
                    return Err(e);
                },
                Ok(mut more) => {
                    let ghost before = rows_view(rows@);
                    let ghost added = rows_view(more@);
                    rows.append(&mut more);
                    proof {
                        assert(rows_view(rows@) =~= before + added);
                    }
                },
            }
        }
        i = i + 1;
    }
    proof {
        lemma_interior_pages_last(file, cells@, right, depth as nat, wanted, leaf, before);
    }
    if goes_last(cells, &plan.filter) {
        match query_page(pager, right, depth, plan) {
            Err(e) => {
                return Err(e);
            },
            Ok(mut more) => {
                let ghost before = rows_view(rows@);
                let ghost added = rows_view(more@);
                rows.append(&mut more);
                proof {
                    assert(rows_view(rows@) =~= before + added);
                }
            },
        }
    }
    Ok(rows)
}

/// The smaller of a number and the largest `usize`.
pub open spec fn capped(n: nat) -> usize {
    if n <= usize::MAX {
        n as usize
    } else {
        usize::MAX
    }
}

/// Counts the rows of a leaf page that a filter keeps.
fn count_leaf_page(leaf: &TableLeafPage, filter: &Filter) -> (count: usize)
    ensures
        count == survivors(leaf@.cells, filter@, leaf@.cells.len() as int).len(),
{
    let n = leaf.cells.len();
    let mut count: usize = 0;
    let mut i: usize = 0;
    while i < n
        invariant
            i <= n == leaf.cells@.len(),
            leaf@.cells.len() == n,
            count == survivors(leaf@.cells, filter@, i as int).len(),
            count <= i,
        decreases n - i,
    {
        if where_clause_matches(filter, &leaf.cells[i]) {
            count = count + 1;
        }
        i = i + 1;
    }
    count
}

/// Adds two counts, and stops at the largest `usize`.
fn add_capped(a: usize, b: usize) -> (sum: usize)
    ensures
        sum == capped((a + b) as nat),
{
    match a.checked_add(b) {
        Some(sum) => sum,
        None => usize::MAX,
    }
}

/// Counts the rows that a filter keeps in the whole table tree at page
/// `page_num`, going at most `depth` pages down from it. The count stops at
/// the largest `usize`.
pub fn count_page(pager: &mut Pager, page_num: u32, depth: usize, filter: &Filter) -> (res: Result<
    usize,
    DbError,
>)
    requires
        old(pager).wf(),
    ensures
        final(pager).wf(),
        final(pager)@ == old(pager)@,
        match count_rows(old(pager)@, page_num as nat, depth as nat, filter@) {
            Ok(n) => res == Ok::<usize, DbError>(capped(n)),
            Err(e) => res == Err::<usize, DbError>(e),
        },
        final(pager).cached() == old(pager).cached().union(
            walk_pages(old(pager)@, page_num as nat, depth as nat, None),
        ),
    decreases depth, 0nat,
{
    let ghost before = pager.cached();
    proof {
        lemma_walk_pages_read(pager@, page_num as nat, depth as nat, None, before);
    }
    let unexpected = pager.unexpected_page(page_num as usize);
    let (cells, right) = match pager.read_page(page_num as usize) {
        Err(e) => {
            return Err(e);
        },
        Ok(page) => match page {
            Page::TableLeaf(leaf_page) => {
                return Ok(count_leaf_page(leaf_page, filter));
            },
            Page::TableInterior(interior) => (
                copy_cells(&interior.cells),
                interior.header.right_most_point,
            ),
            _ => {
                return Err(unexpected);
            },
        },
    };
    if depth == 0 {
        return Err(DbError::CyclicTree);
    }
    count_interior_page(pager, &cells, right, depth - 1, filter)
}

/// Counts the rows that a filter keeps below an interior page with the
/// given cells and right-most child.
pub fn count_interior_page(
    pager: &mut Pager,
    cells: &Vec<TableInteriorCell>,
    right: u32,
    depth: usize,
    filter: &Filter,
) -> (res: Result<usize, DbError>)
    requires
        old(pager).wf(),
    ensures
        final(pager).wf(),
        final(pager)@ == old(pager)@,
        match interior_rows(old(pager)@, cells@, right, depth as nat, None, kept_of(filter@)) {
            Ok(rows) => res == Ok::<usize, DbError>(capped(rows.len())),
            Err(e) => res == Err::<usize, DbError>(e),
        },
        final(pager).cached() == old(pager).cached().union(
            interior_pages(old(pager)@, cells@, right, depth as nat, None),
        ),
    decreases depth, 1nat,
{
    let ghost file = pager@;
    let ghost before = pager.cached();
    let ghost leaf = kept_of(filter@);
    let mut count: usize = 0;
    let mut i: usize = 0;
    proof {
        assert(before.union(Set::empty()) =~= before);
    }
    while i < cells.len()
        invariant
            i <= cells@.len(),
            pager.wf(),
            pager@ == file,
            file == old(pager)@,
            before == old(pager).cached(),
            pager.cached() == before.union(
                children_pages(file, cells@, i as nat, depth as nat, None),
            ),
            leaf == kept_of(filter@),
            table_children(file, cells@, i as nat, depth as nat, None, leaf) is Ok,
            count == capped(
                table_children(file, cells@, i as nat, depth as nat, None, leaf)->Ok_0.len(),
            ),
        decreases cells@.len() - i,
    {
        let cell = cells[i];
        proof {
            lemma_table_children_fail(
                file,
                cells@,
                (i + 1) as nat,
                cells@.len() as nat,
                depth as nat,
                None,
                leaf,
            );
            lemma_children_pages_step(file, cells@, i as nat, depth as nat, None, leaf, before);
        }
        match count_page(pager, cell.left_child, depth, filter) {
            Err(e) => {
                return Err(e);
            },
            Ok(more) => {
                count = add_capped(count, more);
            },
        }
        i = i + 1;
    }
    proof {
        lemma_interior_pages_last(file, cells@, right, depth as nat, None, leaf, before);
    }
    match count_page(pager, right, depth, filter) {
        Err(e) => Err(e),
        Ok(more) => Ok(add_capped(count, more)),
    }
}

/// The key that a search looks for in an index: NULL, an integer, a text or
/// a blob.
#[derive(Debug, Clone)]
pub enum Target {
    Null,
    Int(i64),
    Text(Vec<char>),
    Blob(Vec<u8>),
}

/// The key that a search looks for, as a plain value.
pub ghost enum TargetView {
    Null,
    Int(i64),
    Text(Seq<char>),
    Blob(Seq<u8>),
}

impl View for Target {
    type V = TargetView;

    open spec fn view(&self) -> TargetView {
        match self {
            Target::Null => TargetView::Null,
            Target::Int(n) => TargetView::Int(*n),
            Target::Text(chars) => TargetView::Text(chars@),
            Target::Blob(bytes) => TargetView::Blob(bytes@),
        }
    }
}

/// How the key `q` stands to an index key: -1 before it, 0 equal to it, 1
/// after it, and 2 where that is left open. NULL comes before every number,
/// numbers before every text, and texts before every blob; integers stand
/// in their own order, texts in the order of their characters, blobs in
/// that of their bytes. How an integer stands to a double is left open: a
/// double is carried as its bits and never compared. It is not equal to the
/// integer, whose decimal text no double shows as.
pub open spec fn key_order(q: TargetView, key: ValueView) -> int {
    match q {
        TargetView::Null => match key {
            ValueView::Null => 0,
            _ => -1,
        },
        TargetView::Int(n) => match key {
            ValueView::Null => 1,
            ValueView::I64(m) => if n < m {
                -1
            } else if n > m {
                1
            } else {
                0
            },
            ValueView::Float(_) => 2,
            _ => -1,
        },
        TargetView::Text(text) => match key {
            ValueView::String(s) => text_order(text, s),
            ValueView::Blob(_) => -1,
            _ => 1,
        },
        TargetView::Blob(bytes) => match key {
            ValueView::Blob(b) => bytes_order(bytes, b),
            _ => 1,
        },
    }
}

/// A key stands to an index key as -1, 0, 1 or 2.
pub proof fn lemma_key_order_range(q: TargetView, key: ValueView)
    ensures
        -1 <= key_order(q, key) <= 2,
{
    match (q, key) {
        (TargetView::Text(text), ValueView::String(s)) => {
            lemma_text_order_range(text, s);
        },
        (TargetView::Blob(bytes), ValueView::Blob(b)) => {
            lemma_bytes_order_equal(bytes, b);
        },
        _ => {},
    }
}

/// The key of an index entry: its first column.
pub open spec fn entry_key(record: RecordView) -> ValueView {
    if record.values.len() > 0 {
        record.values[0]
    } else {
        ValueView::Null
    }
}

/// The row id of an index entry: its last column, where that is an
/// integer.
pub open spec fn entry_row_id(record: RecordView) -> Option<i64> {
    if record.values.len() > 0 && record.values.last() is I64 && i64::MIN
        <= record.values.last()->I64_0 <= i64::MAX {
        Some(record.values.last()->I64_0 as i64)
    } else {
        None
    }
}

/// The row ids of the entries with key `q` among the first `n` cells of an
/// index leaf page. An entry with that key and without a row id is the
/// failure `missing`.
pub open spec fn leaf_matches(
    cells: Seq<IndexLeafCellView>,
    q: TargetView,
    n: nat,
    missing: DbError,
) -> Result<Seq<i64>, DbError>
    decreases n,
{
    if n == 0 {
        Ok(Seq::empty())
    } else {
        match leaf_matches(cells, q, (n - 1) as nat, missing) {
            Err(e) => Err(e),
            Ok(ids) => if key_order(q, entry_key(cells[n - 1].record)) == 0 {
                match entry_row_id(cells[n - 1].record) {
                    Some(id) => Ok(ids.push(id)),
                    None => Err(missing),
                }
            } else {
                Ok(ids)
            },
        }
    }
}

/// What the search does at one cell of an index interior page: the child,
/// how the key that is looked for stands to the cell's key, and the cell's
/// row id.
#[derive(Debug, Clone, Copy, PartialEq, Eq, Structural)]
pub struct IndexStep {
    pub left_child: u32,
    pub order: i8,
    pub row_id: Option<i64>,
}

/// The steps at the cells of an index interior page.
pub open spec fn steps_of(cells: Seq<IndexInteriorCellView>, q: TargetView) -> Seq<IndexStep> {
    Seq::new(
        cells.len(),
        |i: int|
            IndexStep {
                left_child: cells[i].left_child,
                order: key_order(q, entry_key(cells[i].record)) as i8,
                row_id: entry_row_id(cells[i].record),
            },
    )
}

/// The row ids of the entries with key `q` in the index tree at page
/// `page_num`, in the order of the tree. The search goes at most `depth`
/// pages down from this one.
pub open spec fn index_search(file: FileView, page_num: nat, depth: nat, q: TargetView) -> Result<
    Seq<i64>,
    DbError,
>
    decreases depth, 0nat,
{
    match page_at(file, page_num) {
        Err(e) => Err(e),
        Ok(PageView::IndexLeaf(page)) => leaf_matches(
            page.cells,
            q,
            page.cells.len(),
            missing_row_id(file, page_num),
        ),
        Ok(PageView::IndexInterior(page)) => if depth == 0 {
            Err(DbError::CyclicTree)
        } else {
            index_children(
                file,
                steps_of(page.cells, q),
                0,
                page.header.right_most_point,
                (depth - 1) as nat,
                q,
                missing_row_id(file, page_num),
            )
        },
        Ok(_) => Err(unexpected_page(file, page_num)),
    }
}

/// The row ids that the search finds from cell `i` of an index interior
/// page on. Where `q` comes after the key of a cell, the search goes on to
/// the next cell. Where `q` is the key, it searches the cell's child, takes
/// the cell's own row id, and goes on. Where `q` comes before the key, it
/// searches the cell's child and stops. Where it is left open how `q`
/// stands to the key, it searches the cell's child and goes on. After the
/// last cell it searches the right-most child. A cell with the key `q` and
/// without a row id is the failure `missing`.
pub open spec fn index_children(
    file: FileView,
    steps: Seq<IndexStep>,
    i: nat,
    right: u32,
    depth: nat,
    q: TargetView,
    missing: DbError,
) -> Result<Seq<i64>, DbError>
    decreases depth,
        if i < steps.len() {
            1 + steps.len() - i
        } else {
            1
        },
{
    if i >= steps.len() {
        index_search(file, right as nat, depth, q)
    } else if steps[i as int].order == 1 {
        index_children(file, steps, i + 1, right, depth, q, missing)
    } else {
        match index_search(file, steps[i as int].left_child as nat, depth, q) {
            Err(e) => Err(e),
            Ok(below) => if steps[i as int].order < 0 {
                Ok(below)
            } else if steps[i as int].order != 0 {
                after(below, index_children(file, steps, i + 1, right, depth, q, missing))
            } else {
                match steps[i as int].row_id {
                    None => Err(missing),
                    Some(id) => after(
                        below.push(id),
                        index_children(file, steps, i + 1, right, depth, q, missing),
                    ),
                }
            },
        }
    }
}

/// The row ids `found`, and then those of a later part of the search.
pub open spec fn after(found: Seq<i64>, later: Result<Seq<i64>, DbError>) -> Result<
    Seq<i64>,
    DbError,
> {
    match later {
        Ok(rest) => Ok(found + rest),
        Err(e) => Err(e),
    }
}

/// Two texts compare as -1, 0 or 1.
pub proof fn lemma_text_order_range(a: Seq<char>, b: Seq<char>)
    ensures
        -1 <= text_order(a, b) <= 1,
    decreases a.len(),
{
    if a.len() > 0 && b.len() > 0 {
        lemma_text_order_range(a.drop_first(), b.drop_first());
    }
}

/// How the key `q` stands to the key of an index entry.
fn order_to_key(q: &Target, record: &Record) -> (order: i8)
    ensures
        order as int == key_order(q@, entry_key(record@)),
{
    if record.body.len() == 0 {
        return match q {
            Target::Null => 0,
            _ => 1,
        };
    }
    assert(record@.values[0] == record.body@[0]@);
    match q {
        Target::Null => match &record.body[0].value {
            Value::Null => 0,
            _ => -1,
        },
        Target::Int(n) => match &record.body[0].value {
            Value::Null => 1,
            Value::I64(m) => if *n < *m {
                -1
            } else if *n > *m {
                1
            } else {
                0
            },
            Value::Float(_) => 2,
            _ => -1,
        },
        Target::Text(text) => match &record.body[0].value {
            Value::String(s) => compare_text(text, &chars_of(s.as_str())),
            Value::Blob(_) => -1,
            _ => 1,
        },
        Target::Blob(bytes) => match &record.body[0].value {
            Value::Blob(b) => compare_bytes(bytes, b),
            _ => 1,
        },
    }
}

/// The row id of an index entry.
fn row_id_of(record: &Record) -> (id: Option<i64>)
    ensures
        id == entry_row_id(record@),
{
    let n = record.body.len();
    if n == 0 {
        return None;
    }
    assert(record@.values.last() == record.body@[n - 1]@);
    match &record.body[n - 1].value {
        Value::I64(id) => Some(*id),
        _ => None,
    }
}

/// Searches an index leaf page for the entries with key `q`.
fn search_leaf_page(leaf: &IndexLeafPage, q: &Target, missing: DbError) -> (res: Result<
    Vec<i64>,
    DbError,
>)
    ensures
        match leaf_matches(leaf@.cells, q@, leaf@.cells.len(), missing) {
            Ok(ids) => res is Ok && res->Ok_0@ == ids,
            Err(e) => res == Err::<Vec<i64>, DbError>(e),
        },
{
    let n = leaf.cells.len();
    let mut ids: Vec<i64> = Vec::new();
    let mut i: usize = 0;
    while i < n
        invariant
            i <= n == leaf.cells@.len(),
            leaf@.cells.len() == n,
            leaf_matches(leaf@.cells, q@, i as nat, missing) == Ok::<Seq<i64>, DbError>(ids@),
        decreases n - i,
    {
        proof {
            lemma_leaf_matches_fail(leaf@.cells, q@, (i + 1) as nat, n as nat, missing);
        }
        if order_to_key(q, &leaf.cells[i].record) == 0 {
            match row_id_of(&leaf.cells[i].record) {
                Some(id) => {
                    ids.push(id);
                },
                None => {
                    return Err(missing);
                },
            }
        }
        i = i + 1;
    }
    Ok(ids)
}

/// Where the first `n` cells of a leaf give an error, more of them give the
/// same.
pub proof fn lemma_leaf_matches_fail(
    cells: Seq<IndexLeafCellView>,
    q: TargetView,
    n: nat,
    m: nat,
    missing: DbError,
)
    requires
        n <= m,
    ensures
        leaf_matches(cells, q, n, missing) matches Err(e) ==> leaf_matches(cells, q, m, missing)
            == Err::<Seq<i64>, DbError>(e),
    decreases m,
{
    if n < m {
        lemma_leaf_matches_fail(cells, q, n, (m - 1) as nat, missing);
    }
}

/// Reads off the cells of an index interior page what the search does at
/// each.
fn steps_at(cells: &Vec<IndexInteriorCell>, q: &Target) -> (steps: Vec<IndexStep>)
    ensures
        steps@ == steps_of(Seq::new(cells@.len(), |i: int| cells@[i]@), q@),
{
    let mut steps: Vec<IndexStep> = Vec::new();
    let mut i: usize = 0;
    let ghost views = Seq::new(cells@.len(), |i: int| cells@[i]@);
    while i < cells.len()
        invariant
            i <= cells@.len(),
            views == Seq::new(cells@.len(), |i: int| cells@[i]@),
            steps@ == steps_of(views, q@).subrange(0, i as int),
        decreases cells@.len() - i,
    {
        let cell = &cells[i];
        proof {
            lemma_key_order_range(q@, entry_key(cell@.record));
        }
        steps.push(
            IndexStep {
                left_child: cell.left_child,
                order: order_to_key(q, &cell.record),
                row_id: row_id_of(&cell.record),
            },
        );
        proof {
            assert(steps@ =~= steps_of(views, q@).subrange(0, i + 1));
        }
        i = i + 1;
    }
    proof {
        assert(steps@ =~= steps_of(views, q@));
    }
    steps
}

/// The pages that a search of the index tree at page `page_num` reads: the
/// page itself, where the file holds it and it can be decoded, and below an
/// interior page the pages that the search reads in the children that it
/// goes into.
pub open spec fn search_pages(file: FileView, page_num: nat, depth: nat, q: TargetView) -> Set<
    usize,
>
    decreases depth, 0nat,
{
    match page_at(file, page_num) {
        Err(_) => Set::empty(),
        Ok(PageView::IndexInterior(page)) => if depth == 0 {
            Set::empty().insert(page_num as usize)
        } else {
            steps_pages(
                file,
                steps_of(page.cells, q),
                0,
                page.header.right_most_point,
                (depth - 1) as nat,
                q,
            ).insert(page_num as usize)
        },
        Ok(_) => Set::empty().insert(page_num as usize),
    }
}

/// The pages that the search reads from cell `i` of an index interior page
/// on. It reads nothing below a cell whose key `q` comes after. It reads
/// the child of every other cell that it comes to, and it comes to no
/// further cell, nor to the right-most child, after a cell whose key `q`
/// comes before, after a failure, or after a cell without a row id.
pub open spec fn steps_pages(
    file: FileView,
    steps: Seq<IndexStep>,
    i: nat,
    right: u32,
    depth: nat,
    q: TargetView,
) -> Set<usize>
    decreases depth,
        if i < steps.len() {
            1 + steps.len() - i
        } else {
            1
        },
{
    if i >= steps.len() {
        search_pages(file, right as nat, depth, q)
    } else if steps[i as int].order == 1 {
        steps_pages(file, steps, i + 1, right, depth, q)
    } else {
        let here = search_pages(file, steps[i as int].left_child as nat, depth, q);
        if index_search(file, steps[i as int].left_child as nat, depth, q) is Ok && (steps[
            i as int
        ].order > 0 || (steps[i as int].order == 0 && steps[i as int].row_id is Some)) {
            here.union(steps_pages(file, steps, i + 1, right, depth, q))
        } else {
            here
        }
    }
}

/// What the pages that were kept become when a search reads page
/// `page_num`.
pub proof fn lemma_search_pages_read(
    file: FileView,
    page_num: nat,
    depth: nat,
    q: TargetView,
    before: Set<usize>,
)
    ensures
        page_at(file, page_num) is Err ==> before.union(search_pages(file, page_num, depth, q))
            == before,
        page_at(file, page_num) is Ok ==> !(page_at(file, page_num)->Ok_0 is IndexInterior
            && depth > 0) ==> before.union(search_pages(file, page_num, depth, q))
            == before.insert(page_num as usize),
        page_at(file, page_num) matches Ok(PageView::IndexInterior(page)) ==> depth > 0
            ==> before.union(search_pages(file, page_num, depth, q)) == before.insert(
            page_num as usize,
        ).union(
            steps_pages(
                file,
                steps_of(page.cells, q),
                0,
                page.header.right_most_point,
                (depth - 1) as nat,
                q,
            ),
        ),
{
    let pages = search_pages(file, page_num, depth, q);
    match page_at(file, page_num) {
        Err(_) => {
            assert(before.union(pages) =~= before);
        },
        Ok(PageView::IndexInterior(page)) => {
            if depth > 0 {
                let below = steps_pages(
                    file,
                    steps_of(page.cells, q),
                    0,
                    page.header.right_most_point,
                    (depth - 1) as nat,
                    q,
                );
                assert(before.union(pages) =~= before.insert(page_num as usize).union(below));
            } else {
                assert(before.union(pages) =~= before.insert(page_num as usize));
            }
        },
        Ok(_) => {
            assert(before.union(pages) =~= before.insert(page_num as usize));
        },
    }
}

/// The keys that show as the text `q`, in the order of an index: NULL
/// where `q` is `NULL`; the integer that `q` spells as integers are shown;
/// the text `q`; and the blob that spells `q` in UTF-8.
pub open spec fn targets(q: Seq<char>) -> Seq<Option<TargetView>> {
    seq![
        if q == "NULL"@ {
            Some(TargetView::Null)
        } else {
            None
        },
        match shown_integer(q) {
            Some(n) => Some(TargetView::Int(n)),
            None => None,
        },
        Some(TargetView::Text(q)),
        Some(TargetView::Blob(encode_utf8(q))),
    ]
}

/// The row ids that the searches for the first `n` of the keys find, one
/// search after the other; the failure of the first search that fails.
pub open spec fn lookup_from(
    file: FileView,
    page_num: nat,
    depth: nat,
    keys: Seq<Option<TargetView>>,
    n: nat,
) -> Result<Seq<i64>, DbError>
    decreases n,
{
    if n == 0 {
        Ok(Seq::empty())
    } else {
        match lookup_from(file, page_num, depth, keys, (n - 1) as nat) {
            Err(e) => Err(e),
            Ok(ids) => match keys[n - 1] {
                None => Ok(ids),
                Some(key) => after(ids, index_search(file, page_num, depth, key)),
            },
        }
    }
}

/// The pages that the searches for the first `n` of the keys read: those
/// of each search up to the first that fails.
pub open spec fn lookup_pages_from(
    file: FileView,
    page_num: nat,
    depth: nat,
    keys: Seq<Option<TargetView>>,
    n: nat,
) -> Set<usize>
    decreases n,
{
    if n == 0 {
        Set::empty()
    } else {
        let before = lookup_pages_from(file, page_num, depth, keys, (n - 1) as nat);
        if lookup_from(file, page_num, depth, keys, (n - 1) as nat) is Ok && keys[n - 1] is Some {
            before.union(search_pages(file, page_num, depth, keys[n - 1]->Some_0))
        } else {
            before
        }
    }
}

/// The row ids that an index gives for the text `q`: those of the entries
/// whose key shows as `q`. The index is searched for each of the keys that
/// show as `q`, in the order of the index.
pub open spec fn index_lookup(file: FileView, page_num: nat, depth: nat, q: Seq<char>) -> Result<
    Seq<i64>,
    DbError,
> {
    lookup_from(file, page_num, depth, targets(q), targets(q).len())
}

/// The pages that a lookup in an index reads.
pub open spec fn lookup_pages(file: FileView, page_num: nat, depth: nat, q: Seq<char>) -> Set<
    usize,
> {
    lookup_pages_from(file, page_num, depth, targets(q), targets(q).len())
}

/// After a failure of one of the first `n` searches no further search is
/// made.
pub proof fn lemma_lookup_stop(
    file: FileView,
    page_num: nat,
    depth: nat,
    keys: Seq<Option<TargetView>>,
    n: nat,
    m: nat,
)
    requires
        n <= m,
        lookup_from(file, page_num, depth, keys, n) is Err,
    ensures
        lookup_from(file, page_num, depth, keys, m) == lookup_from(file, page_num, depth, keys, n),
        lookup_pages_from(file, page_num, depth, keys, m) == lookup_pages_from(
            file,
            page_num,
            depth,
            keys,
            n,
        ),
    decreases m,
{
    if n < m {
        lemma_lookup_stop(file, page_num, depth, keys, n, (m - 1) as nat);
    }
}

/// The keys as plain values.
pub open spec fn targets_view(keys: Seq<Option<Target>>) -> Seq<Option<TargetView>> {
    Seq::new(
        keys.len(),
        |i: int|
            match keys[i] {
                Some(key) => Some(key@),
                None => None,
            },
    )
}

/// Makes the keys that show as a text.
pub fn targets_of(q: &str) -> (keys: Vec<Option<Target>>)
    ensures
        targets_view(keys@) == targets(q@),
{
    let mut keys: Vec<Option<Target>> = Vec::new();
    keys.push(
        if same_text(q, "NULL") {
            Some(Target::Null)
        } else {
            None
        },
    );
    keys.push(
        match integer_shown_as(q) {
            Some(n) => Some(Target::Int(n)),
            None => None,
        },
    );
    keys.push(Some(Target::Text(chars_of(q))));
    keys.push(Some(Target::Blob(q.as_bytes_vec())));
    proof {
        assert(targets_view(keys@) =~= targets(q@));
    }
    keys
}

/// Searches the index tree at page `page_num` for the entries whose key
/// shows as the text `query_value`, and returns their row ids: those of
/// NULL, of the integer, of the text and of the blob that show as it, each
/// in the order of the tree.
pub fn get_row_ids(pager: &mut Pager, page_num: u32, depth: usize, query_value: &str) -> (res:
    Result<Vec<i64>, DbError>)
    requires
        old(pager).wf(),
    ensures
        final(pager).wf(),
        final(pager)@ == old(pager)@,
        match index_lookup(old(pager)@, page_num as nat, depth as nat, query_value@) {
            Ok(ids) => res is Ok && res->Ok_0@ == ids,
            Err(e) => res == Err::<Vec<i64>, DbError>(e),
        },
        final(pager).cached() == old(pager).cached().union(
            lookup_pages(old(pager)@, page_num as nat, depth as nat, query_value@),
        ),
{
    let ghost file = pager@;
    let ghost before = pager.cached();
    let keys = targets_of(query_value);
    let ghost views = targets_view(keys@);
    let mut ids: Vec<i64> = Vec::new();
    let mut i: usize = 0;
    proof {
        assert(before.union(Set::empty()) =~= before);
    }
    while i < keys.len()
        invariant
            i <= keys@.len(),
            views == targets_view(keys@),
            views == targets(query_value@),
            pager.wf(),
            pager@ == file,
            file == old(pager)@,
            before == old(pager).cached(),
            lookup_from(file, page_num as nat, depth as nat, views, i as nat) == Ok::<
                Seq<i64>,
                DbError,
            >(ids@),
            pager.cached() == before.union(
                lookup_pages_from(file, page_num as nat, depth as nat, views, i as nat),
            ),
        decreases keys@.len() - i,
    {
        proof {
            let next = lookup_from(file, page_num as nat, depth as nat, views, (i + 1) as nat);
            if next is Err {
                lemma_lookup_stop(
                    file,
                    page_num as nat,
                    depth as nat,
                    views,
                    (i + 1) as nat,
                    views.len(),
                );
            }
            if views[i as int] is Some {
                let here = lookup_pages_from(file, page_num as nat, depth as nat, views, i as nat);
                let read = search_pages(
                    file,
                    page_num as nat,
                    depth as nat,
                    views[i as int]->Some_0,
                );
                assert(before.union(here.union(read)) =~= before.union(here).union(read));
            }
        }
        match &keys[i] {
            Some(key) => {
                let mut more = match search_page(pager, page_num, depth, key) {
                    Ok(more) => more,
                    Err(e) => {
                        return Err(e);
                    },
                };
                ids.append(&mut more);
            },
            None => {},
        }
        i = i + 1;
    }
    Ok(ids)
}

/// Searches the index tree at page `page_num` for the entries with key `q`.
fn search_page(pager: &mut Pager, page_num: u32, depth: usize, q: &Target) -> (res: Result<
    Vec<i64>,
    DbError,
>)
    requires
        old(pager).wf(),
    ensures
        final(pager).wf(),
        final(pager)@ == old(pager)@,
        match index_search(old(pager)@, page_num as nat, depth as nat, q@) {
            Ok(ids) => res is Ok && res->Ok_0@ == ids,
            Err(e) => res == Err::<Vec<i64>, DbError>(e),
        },
        final(pager).cached() == old(pager).cached().union(
            search_pages(old(pager)@, page_num as nat, depth as nat, q@),
        ),
    decreases depth, 0nat,
{
    let ghost before = pager.cached();
    proof {
        lemma_search_pages_read(pager@, page_num as nat, depth as nat, q@, before);
    }
    let unexpected = pager.unexpected_page(page_num as usize);
    let missing = pager.missing_row_id(page_num as usize);
    let (steps, right) = match pager.read_page(page_num as usize) {
        Err(e) => {
            return Err(e);
        },
        Ok(page) => match page {
            Page::IndexLeaf(leaf_page) => {
                return search_leaf_page(leaf_page, q, missing);
            },
            Page::IndexInterior(interior) => (
                steps_at(&interior.cells, q),
                interior.header.right_most_point,
            ),
            _ => {
                return Err(unexpected);
            },
        },
    };
    if depth == 0 {
        return Err(DbError::CyclicTree);
    }
    search_interior_page(pager, &steps, right, depth - 1, q, missing)
}

/// Searches below an index interior page, given what the search does at
/// each of its cells.
fn search_interior_page(
    pager: &mut Pager,
    steps: &Vec<IndexStep>,
    right: u32,
    depth: usize,
    q: &Target,
    missing: DbError,
) -> (res: Result<Vec<i64>, DbError>)
    requires
        old(pager).wf(),
    ensures
        final(pager).wf(),
        final(pager)@ == old(pager)@,
        match index_children(old(pager)@, steps@, 0, right, depth as nat, q@, missing) {
            Ok(ids) => res is Ok && res->Ok_0@ == ids,
            Err(e) => res == Err::<Vec<i64>, DbError>(e),
        },
        final(pager).cached() == old(pager).cached().union(
            steps_pages(old(pager)@, steps@, 0, right, depth as nat, q@),
        ),
    decreases depth, 1nat,
{
    let ghost file = pager@;
    let ghost whole_pages = pager.cached().union(
        steps_pages(file, steps@, 0, right, depth as nat, q@),
    );
    let mut ids: Vec<i64> = Vec::new();
    let mut i: usize = 0;
    proof {
        let whole = index_children(file, steps@, 0, right, depth as nat, q@, missing);
        if whole is Ok {
            assert(Seq::<i64>::empty() + whole->Ok_0 =~= whole->Ok_0);
        }
    }
    while i < steps.len()
        invariant
            i <= steps@.len(),
            pager.wf(),
            pager@ == file,
            file == old(pager)@,
            index_children(file, steps@, 0, right, depth as nat, q@, missing) == after(
                ids@,
                index_children(file, steps@, i as nat, right, depth as nat, q@, missing),
            ),
            whole_pages == old(pager).cached().union(
                steps_pages(old(pager)@, steps@, 0, right, depth as nat, q@),
            ),
            whole_pages == pager.cached().union(
                steps_pages(file, steps@, i as nat, right, depth as nat, q@),
            ),
        decreases steps@.len() - i,
    {
        let step = steps[i];
        if step.order != 1 {
            proof {
                let kept = pager.cached();
                let here = search_pages(file, step.left_child as nat, depth as nat, q@);
                let rest = steps_pages(file, steps@, (i + 1) as nat, right, depth as nat, q@);
                assert(kept.union(here.union(rest)) =~= kept.union(here).union(rest));
            }
            let mut below = match search_page(pager, step.left_child, depth, q) {
                Ok(below) => below,
                Err(e) => {
                    return Err(e);
                },
            };
            let ghost before = ids@;
            let ghost found = below@;
            ids.append(&mut below);
            if step.order < 0 {
                return Ok(ids);
            }
            let ghost rest = index_children(
                file,
                steps@,
                (i + 1) as nat,
                right,
                depth as nat,
                q@,
                missing,
            );
            if step.order == 0 {
                match step.row_id {
                    Some(id) => {
                        ids.push(id);
                    },
                    None => {
                        return Err(missing);
                    },
                }
                proof {
                    if rest is Ok {
                        assert(before + (found.push(step.row_id->Some_0) + rest->Ok_0) =~= ids@
                            + rest->Ok_0);
                    }
                }
            } else {
                proof {
                    if rest is Ok {
                        assert(before + (found + rest->Ok_0) =~= ids@ + rest->Ok_0);
                    }
                }
            }
        }
        i = i + 1;
    }
    let mut last = match search_page(pager, right, depth, q) {
        Ok(last) => last,
        Err(e) => {
            return Err(e);
        },
    };
    ids.append(&mut last);
    Ok(ids)
}

} // verus!
