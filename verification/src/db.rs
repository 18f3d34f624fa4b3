use std::collections::HashMap;
use vstd::prelude::*;
use vstd::slice::*;
use vstd::string::*;

use crate::btree::{
    capped, count_page, count_rows, get_row_ids, get_rows, index_lookup, lookup_pages,
    missing_row_id, page_at, page_bytes, page_count, page_start, query_page, query_rows,
    unexpected_page, walk_pages, FileView,
};
use crate::error::{add_offsets, moved_result, offset_sum, DbError};
use crate::output::{ascending, sorted_table_names, table_names, texts_view};
use crate::page::{
    header_offset, page_header, Page, PageHeader, PageView, TableLeafCell, TableLeafCellView,
    TableLeafPage,
};
use crate::plan::{rows_view, Filter, FilterView, Plan, PlanView, Row, RowView};
use crate::query::{
    column_index, columns_view, count_argument, count_argument_of, filter_of,
    index_key, position, resolve_filter, resolve_select_list, select_list, split_condition,
};
use crate::record::{Value, ValueView};
use crate::schema::{
    create_index_columns, create_table_columns, find_index, find_table, index_table,
    lookup_index, lookup_table, parse_create_index_sql, parse_create_table_sql,
    parse_index_table_sql, schemas_view, Schema, SchemaView,
};
use crate::sql::parser::{
    exprs_view, parse_tokens, stmts_view, ExprView, Parser, Stmt, StmtView, SyntaxError,
    SyntaxErrorView,
};
use crate::sql::scanner::{classified, lemma_lex_ends, lex, Scanner};
use crate::sql::token::copy_tokens;
use crate::plan::CompareOp;
use crate::text::{lowercase, same_text};
use crate::utils::{be_word, read_be_word_at};

verus! {

broadcast use {vstd::std_specs::hash::group_hash_axioms, vstd::slice::group_slice_axioms};

/// The length of the file header, which stands before the page header on
/// the first page.
pub const HEADER_SIZE: usize = 100;

/// The page size that the value 1 in the file header stands for.
pub const PAGE_MAX_SIZE: u32 = 65_536;

/// What the engine reads from the file header: the size of a page.
#[derive(Debug, Clone, Copy, PartialEq, Eq, Structural)]
pub struct DbHeader {
    pub page_size: u32,
}

/// The sixteen bytes that every database file starts with: the text
/// `SQLite format 3` and a zero byte.
pub open spec fn magic() -> Seq<u8> {
    seq![
        0x53u8, 0x51u8, 0x4cu8, 0x69u8, 0x74u8, 0x65u8, 0x20u8, 0x66u8, 0x6fu8, 0x72u8, 0x6du8,
        0x61u8, 0x74u8, 0x20u8, 0x33u8, 0x00u8,
    ]
}

/// The page size that the field of the file header stands for: 65536 for 1,
/// and itself for every other power of two.
pub open spec fn page_size_of(raw: int) -> Option<u32> {
    if raw == 1 {
        Some(PAGE_MAX_SIZE)
    } else if raw == 2 || raw == 4 || raw == 8 || raw == 16 || raw == 32 || raw == 64 || raw == 128
        || raw == 256 || raw == 512 || raw == 1024 || raw == 2048 || raw == 4096 || raw == 8192
        || raw == 16384 || raw == 32768 {
        Some(raw as u32)
    } else {
        None
    }
}

/// The header of the file that starts with `buffer`.
pub open spec fn db_header(buffer: Seq<u8>) -> Result<DbHeader, DbError> {
    if buffer.len() < 18 || buffer.subrange(0, 16) != magic() {
        Err(DbError::InvalidHeader)
    } else {
        match page_size_of(be_word(buffer[16], buffer[17])) {
            Some(page_size) => Ok(DbHeader { page_size }),
            None => Err(DbError::InvalidHeader),
        }
    }
}

impl DbHeader {
    /// Reads the header of the file that starts with `buffer`.
    pub fn parse(buffer: &[u8]) -> (res: Result<Self, DbError>)
        ensures
            res == db_header(buffer@),
    {
        if buffer.len() < 18 {
            return Err(DbError::InvalidHeader);
        }
        let prefix: [u8; 16] = [
            0x53, 0x51, 0x4c, 0x69, 0x74, 0x65, 0x20, 0x66, 0x6f, 0x72, 0x6d, 0x61, 0x74, 0x20,
            0x33, 0x00,
        ];
        assert(prefix@ =~= magic());
        let mut i: usize = 0;
        while i < 16
            invariant
                i <= 16,
                buffer@.len() >= 18,
                prefix@ == magic(),
                forall|j: int| 0 <= j < i ==> buffer@[j] == magic()[j],
            decreases 16 - i,
        {
            if buffer[i] != prefix[i] {
                assert(buffer@.subrange(0, 16)[i as int] != magic()[i as int]);
                return Err(DbError::InvalidHeader);
            }
            i = i + 1;
        }
        assert(buffer@.subrange(0, 16) =~= magic());
        let raw = read_be_word_at(buffer, 16);
        let page_size: u32 = match raw {
            1 => PAGE_MAX_SIZE,
            2 | 4 | 8 | 16 | 32 | 64 | 128 | 256 | 512 | 1024 | 2048 | 4096 | 8192 | 16384
            | 32768 => raw as u32,
            _ => {
                return Err(DbError::InvalidHeader);
            },
        };
        Ok(DbHeader { page_size })
    }
}

/// The header of page number `page_num` of a file, read without the cells
/// of the page. A failure says where in the file it stands.
pub open spec fn header_at(file: FileView, page_num: nat) -> Result<PageHeader, DbError> {
    match page_bytes(file, page_num) {
        None => Err(DbError::Io),
        Some(bytes) => moved_result(
            page_header(bytes, header_offset(page_num as int)),
            page_start(file, page_num),
        ),
    }
}

/// The pages of a database file, decoded when they are first read and kept
/// from then on.
pub struct Pager {
    input: Vec<u8>,
    page_size: usize,
    pages: HashMap<usize, Page>,
}

impl View for Pager {
    type V = FileView;

    closed spec fn view(&self) -> FileView {
        FileView { bytes: self.input@, page_size: self.page_size as nat }
    }
}

impl Pager {
    /// Every page that is kept is the decoding of its bytes in the file.
    pub closed spec fn wf(&self) -> bool {
        forall|k: usize| #[trigger]
            self.pages@.contains_key(k) ==> page_at(self@, k as nat) == Ok::<PageView, DbError>(
                self.pages@[k]@,
            )
    }

    /// The numbers of the pages that are kept.
    pub closed spec fn cached(&self) -> Set<usize> {
        self.pages@.dom()
    }

    /// A pager over the bytes of a file, with no page read yet.
    pub fn new(input: Vec<u8>, page_size: usize) -> (pager: Self)
        ensures
            pager.wf(),
            pager@ == (FileView { bytes: input@, page_size: page_size as nat }),
            pager.cached() == Set::<usize>::empty(),
    {
        let pager = Pager { input, page_size, pages: HashMap::new() };
        assert(pager.cached() =~= Set::<usize>::empty());
        pager
    }

    /// The number of pages that were read and are kept.
    pub fn cached_pages(&self) -> (n: usize)
        ensures
            n == self.cached().len(),
    {
        self.pages.len()
    }

    /// The number of whole pages in the file.
    pub fn page_count(&self) -> (n: usize)
        ensures
            n == page_count(self@),
    {
        if self.page_size == 0 {
            0
        } else {
            self.input.len() / self.page_size
        }
    }

    /// Decodes page number `page_num` from the bytes of the file.
    pub fn load_page(&self, page_num: usize) -> (res: Result<Page, DbError>)
        ensures
            match page_at(self@, page_num as nat) {
                Ok(page) => res is Ok && res->Ok_0@ == page,
                Err(e) => res == Err::<Page, DbError>(e),
            },
    {
        let len = self.input.len();
        if page_num == 0 {
            return Err(DbError::Io);
        }
        let end = match page_num.checked_mul(self.page_size) {
            Some(end) => end,
            None => {
                return Err(DbError::Io);
            },
        };
        if end > len {
            return Err(DbError::Io);
        }
        assert((page_num - 1) * self.page_size == end - self.page_size) by (nonlinear_arith)
            requires
                end == page_num * self.page_size,
        ;
        assert(self.page_size <= end) by (nonlinear_arith)
            requires
                end == page_num * self.page_size,
                page_num >= 1,
        ;
        let start = end - self.page_size;
        match Page::parse(slice_subrange(self.input.as_slice(), start, end), page_num) {
            Ok(page) => Ok(page),
            Err(e) => Err(e.shifted(start)),
        }
    }

    /// Reads the header of page number `page_num` from the bytes of the
    /// file, and leaves the cells of the page alone.
    pub fn read_header(&self, page_num: usize) -> (res: Result<PageHeader, DbError>)
        ensures
            res == header_at(self@, page_num as nat),
    {
        let len = self.input.len();
        if page_num == 0 {
            return Err(DbError::Io);
        }
        let end = match page_num.checked_mul(self.page_size) {
            Some(end) => end,
            None => {
                return Err(DbError::Io);
            },
        };
        if end > len {
            return Err(DbError::Io);
        }
        assert((page_num - 1) * self.page_size == end - self.page_size) by (nonlinear_arith)
            requires
                end == page_num * self.page_size,
        ;
        assert(self.page_size <= end) by (nonlinear_arith)
            requires
                end == page_num * self.page_size,
                page_num >= 1,
        ;
        let start = end - self.page_size;
        let at: u16 = if page_num == 1 {
            HEADER_SIZE as u16
        } else {
            0
        };
        match PageHeader::parse(slice_subrange(self.input.as_slice(), start, end), at) {
            Ok(header) => Ok(header),
            Err(e) => Err(e.shifted(start)),
        }
    }

    /// Where page number `page_num` starts in the file; the largest offset
    /// that the machine holds where it starts beyond that.
    pub fn page_offset(&self, page_num: usize) -> (offset: usize)
        ensures
            offset == offset_sum(0, page_start(self@, page_num as nat)),
    {
        if page_num == 0 {
            return 0;
        }
        match (page_num - 1).checked_mul(self.page_size) {
            Some(offset) => offset,
            None => usize::MAX,
        }
    }

    /// The failure of a walk that comes to page number `page_num` and finds
    /// it to be of a kind that its tree cannot hold.
    pub fn unexpected_page(&self, page_num: usize) -> (e: DbError)
        ensures
            e == unexpected_page(self@, page_num as nat),
    {
        let at: usize = if page_num == 1 {
            HEADER_SIZE
        } else {
            0
        };
        let start = self.page_offset(page_num);
        DbError::UnknownPageType { offset: add_offsets(at, start) }
    }

    /// The failure of a search that finds an index entry without a row id
    /// on page number `page_num`.
    pub fn missing_row_id(&self, page_num: usize) -> (e: DbError)
        ensures
            e == missing_row_id(self@, page_num as nat),
    {
        DbError::MalformedRecord { offset: self.page_offset(page_num) }
    }

    /// Page number `page_num`, decoded: from the pages that are kept where
    /// it is among them, else from the bytes of the file, and then it is
    /// kept. The file stays as it is, so reading a page again gives the same
    /// page.
    pub fn read_page(&mut self, page_num: usize) -> (res: Result<&Page, DbError>)
        requires
            old(self).wf(),
        ensures
            final(self).wf(),
            final(self)@ == old(self)@,
            match page_at(old(self)@, page_num as nat) {
                Ok(page) => res is Ok && res->Ok_0@ == page && final(self).cached() == old(
                    self,
                ).cached().insert(page_num),
                Err(e) => res == Err::<&Page, DbError>(e) && final(self).cached() == old(
                    self,
                ).cached(),
            },
    {
        if !self.pages.contains_key(&page_num) {
            let page = match self.load_page(page_num) {
                Ok(page) => page,
                Err(e) => {
                    return Err(e);
                },
            };
            self.pages.insert(page_num, page);
        }
        match self.pages.get(&page_num) {
            Some(page) => Ok(page),
            None => Err(DbError::Io),
        }
    }
}

/// The page number that a value of the schema table's `rootpage` column
/// stands for.
pub open spec fn root_page_of(value: ValueView) -> Option<u32> {
    match value {
        ValueView::I64(n) => if 1 <= n <= u32::MAX {
            Some(n as u32)
        } else {
            None
        },
        _ => None,
    }
}

/// The table (where `tables` is set) or the index (where it is not) that a
/// row of the schema table describes; `None` for a row of the other kind,
/// of a kind that the engine does not know, or without the five columns
/// kind, name, table, root page and statement. An index belongs to the
/// table that its statement names, or else to the one in its third column.
pub open spec fn schema_of(cell: TableLeafCellView, tables: bool) -> Option<SchemaView> {
    let v = cell.record.values;
    if v.len() >= 5 && v[0] is String && v[1] is String && v[2] is String && root_page_of(v[3])
        is Some && v[4] is String {
        let sql = v[4]->String_0;
        if v[0]->String_0 == "table"@ && tables {
            Some(
                SchemaView {
                    schema_name: v[1]->String_0,
                    table_name: v[2]->String_0,
                    sql,
                    root_page: root_page_of(v[3])->Some_0,
                    columns: create_table_columns(lowercase(sql)),
                },
            )
        } else if v[0]->String_0 == "index"@ && !tables {
            Some(
                SchemaView {
                    schema_name: v[1]->String_0,
                    table_name: match index_table(lowercase(sql)) {
                        Some(table) => table,
                        None => v[2]->String_0,
                    },
                    sql,
                    root_page: root_page_of(v[3])->Some_0,
                    columns: create_index_columns(lowercase(sql)),
                },
            )
        } else {
            None
        }
    } else {
        None
    }
}

/// The tables, or the indexes, that the first `n` rows of the schema table
/// describe, in the order of the rows.
pub open spec fn catalog(cells: Seq<TableLeafCellView>, tables: bool, n: nat) -> Seq<SchemaView>
    decreases n,
{
    if n == 0 {
        Seq::empty()
    } else {
        match schema_of(cells[n - 1], tables) {
            Some(schema) => catalog(cells, tables, (n - 1) as nat).push(schema),
            None => catalog(cells, tables, (n - 1) as nat),
        }
    }
}

/// The rows of the schema table: the cells of the first page, which is a
/// table leaf page; none where it is a page of another kind.
pub open spec fn schema_cells(file: FileView) -> Result<Seq<TableLeafCellView>, DbError> {
    match page_at(file, 1) {
        Err(e) => Err(e),
        Ok(PageView::TableLeaf(page)) => Ok(page.cells),
        Ok(_) => Ok(Seq::empty()),
    }
}

/// Reads the table or the index that a row of the schema table describes.
pub fn read_schema(cell: &TableLeafCell, tables: bool) -> (schema: Option<Schema>)
    ensures
        match schema_of(cell@, tables) {
            Some(s) => schema is Some && schema->Some_0@ == s,
            None => schema is None,
        },
{
    let body = &cell.record.body;
    if body.len() < 5 {
        return None;
    }
    proof {
        assert(cell@.record.values[0] == body@[0]@);
        assert(cell@.record.values[1] == body@[1]@);
        assert(cell@.record.values[2] == body@[2]@);
        assert(cell@.record.values[3] == body@[3]@);
        assert(cell@.record.values[4] == body@[4]@);
    }
    let kind = match &body[0].value {
        Value::String(kind) => kind,
        _ => {
            return None;
        },
    };
    let schema_name = match &body[1].value {
        Value::String(name) => name.clone(),
        _ => {
            return None;
        },
    };
    let table_name = match &body[2].value {
        Value::String(name) => name.clone(),
        _ => {
            return None;
        },
    };
    let root_page: u32 = match &body[3].value {
        Value::I64(n) => if 1 <= *n && *n <= 0xffff_ffff {
            *n as u32
        } else {
            return None;
        },
        _ => {
            return None;
        },
    };
    let sql = match &body[4].value {
        Value::String(sql) => sql.clone(),
        _ => {
            return None;
        },
    };
    if tables && same_text(kind.as_str(), "table") {
        let columns = parse_create_table_sql(sql.as_str());
        let schema = Schema { schema_name, table_name, sql, root_page, columns };
        Some(schema)
    } else if !tables && same_text(kind.as_str(), "index") {
        let columns = parse_create_index_sql(sql.as_str());
        let table_name = match parse_index_table_sql(sql.as_str()) {
            Some(table) => table,
            None => table_name,
        };
        let schema = Schema { schema_name, table_name, sql, root_page, columns };
        Some(schema)
    } else {
        None
    }
}

/// Reads the tables, or the indexes, that the rows of the schema table
/// describe.
pub fn read_catalog(leaf: &TableLeafPage, tables: bool) -> (schemas: Vec<Schema>)
    ensures
        schemas_view(schemas@) == catalog(leaf@.cells, tables, leaf@.cells.len()),
{
    let n = leaf.cells.len();
    let mut schemas: Vec<Schema> = Vec::new();
    let mut i: usize = 0;
    proof {
        assert(schemas_view(schemas@) =~= Seq::<SchemaView>::empty());
    }
    while i < n
        invariant
            i <= n == leaf.cells@.len(),
            leaf@.cells.len() == n,
            schemas_view(schemas@) == catalog(leaf@.cells, tables, i as nat),
        decreases n - i,
    {
        let ghost before = schemas_view(schemas@);
        match read_schema(&leaf.cells[i], tables) {
            Some(schema) => {
                schemas.push(schema);
                proof {
                    assert(schemas_view(schemas@) =~= before.push(schema@));
                }
            },
            None => {},
        }
        i = i + 1;
    }
    schemas
}

/// A count as a value: it stops at the largest count that the machine
/// holds, and at the largest 64-bit integer.
pub open spec fn count_value(n: nat) -> int {
    if capped(n) <= i64::MAX {
        capped(n) as int
    } else {
        i64::MAX as int
    }
}

/// The one row of a statement that only counts: the number of rows of the
/// table, or of those with a value in the named column.
pub open spec fn run_count(
    file: FileView,
    schema: SchemaView,
    argument: Option<Seq<char>>,
) -> Result<Seq<RowView>, DbError> {
    let filter = match argument {
        None => Ok(FilterView::All),
        Some(column) => {
            let at = position(schema.columns, lowercase(column), 0);
            if at < schema.columns.len() {
                Ok(FilterView::NotNull { column: at as usize })
            } else {
                Err(DbError::UnknownColumn)
            }
        },
    };
    match filter {
        Err(e) => Err(e),
        Ok(filter) => match count_rows(file, schema.root_page as nat, page_count(file), filter) {
            Err(e) => Err(e),
            Ok(n) => Ok(seq![RowView { row_id: 0, values: seq![ValueView::I64(count_value(n))] }]),
        },
    }
}

/// The place of the index that answers a condition on a table; -1 where no
/// index does. An index answers a condition of the form `column = 'text'`
/// where it is an index on that one column of the table.
pub open spec fn index_for(
    indexes: Seq<SchemaView>,
    table: Seq<char>,
    condition: Option<ExprView>,
) -> int {
    match index_key(condition) {
        Some((column, text)) => find_index(indexes, table, column, indexes.len() as int),
        None => -1,
    }
}

/// The rows of a statement that shows rows of the table `schema`. Where an
/// index answers the condition, the rows are those whose row ids the index
/// gives for the text of the condition; else they are those that the
/// condition keeps when every row is tried.
pub open spec fn run_scan(
    file: FileView,
    schema: SchemaView,
    indexes: Seq<SchemaView>,
    columns: Seq<ExprView>,
    table: Seq<char>,
    condition: Option<ExprView>,
) -> Result<Seq<RowView>, DbError> {
    let depth = page_count(file);
    match select_list(columns, schema.columns, columns.len()) {
        Err(e) => Err(e),
        Ok(selected) => match filter_of(condition, schema.columns) {
            Err(e) => Err(e),
            Ok(filter) => {
                let at = index_for(indexes, table, condition);
                if at >= 0 {
                    match index_lookup(
                        file,
                        indexes[at].root_page as nat,
                        depth,
                        index_key(condition)->Some_0.1,
                    ) {
                        Err(e) => Err(e),
                        Ok(ids) => query_rows(
                            file,
                            schema.root_page as nat,
                            depth,
                            PlanView { selected, filter: FilterView::RowIds(ids) },
                        ),
                    }
                } else {
                    query_rows(
                        file,
                        schema.root_page as nat,
                        depth,
                        PlanView { selected, filter },
                    )
                }
            },
        },
    }
}

/// Whether a statement only counts: its select list is one call of `count`
/// and it has no condition.
pub open spec fn counts_only(columns: Seq<ExprView>, condition: Option<ExprView>) -> bool {
    condition is None && columns.len() == 1 && count_argument(columns[0]) is Some
}

/// The rows that a statement gives on a file. The catalog is read from the
/// first page; no tree is followed deeper than the file has pages.
pub open spec fn run(file: FileView, stmt: StmtView) -> Result<Seq<RowView>, DbError> {
    match stmt {
        StmtView::Select(columns, from, condition) => match from {
            None => Err(DbError::UnsupportedQuery),
            Some(table) => match schema_cells(file) {
                Err(e) => Err(e),
                Ok(cells) => {
                    let tables = catalog(cells, true, cells.len());
                    let indexes = catalog(cells, false, cells.len());
                    let at = find_table(tables, table.name, tables.len() as int);
                    if at < 0 {
                        Err(DbError::UnknownTable)
                    } else if counts_only(columns, condition) {
                        run_count(file, tables[at], count_argument(columns[0])->Some_0)
                    } else {
                        run_scan(file, tables[at], indexes, columns, table.name, condition)
                    }
                },
            },
        },
    }
}

/// The pages that reading the catalog reads: the first page, where the
/// file holds it and it can be decoded.
pub open spec fn schema_pages(file: FileView) -> Set<usize> {
    if page_at(file, 1) is Ok {
        Set::empty().insert(1usize)
    } else {
        Set::empty()
    }
}

/// The pages that a statement that only counts reads in its table.
pub open spec fn count_pages(
    file: FileView,
    schema: SchemaView,
    argument: Option<Seq<char>>,
) -> Set<usize> {
    if argument is Some && position(schema.columns, lowercase(argument->Some_0), 0)
        >= schema.columns.len() {
        Set::empty()
    } else {
        walk_pages(file, schema.root_page as nat, page_count(file), None)
    }
}

/// The pages that a statement that shows rows reads in its table and in the
/// index that answers its condition: through an index, those of the lookup
/// and those of the walk of the table that looks for the row ids found;
/// else those of the walk over the whole table.
pub open spec fn scan_pages(
    file: FileView,
    schema: SchemaView,
    indexes: Seq<SchemaView>,
    columns: Seq<ExprView>,
    table: Seq<char>,
    condition: Option<ExprView>,
) -> Set<usize> {
    let depth = page_count(file);
    let at = index_for(indexes, table, condition);
    if select_list(columns, schema.columns, columns.len()) is Err || filter_of(
        condition,
        schema.columns,
    ) is Err {
        Set::empty()
    } else if at >= 0 {
        let found = index_lookup(
            file,
            indexes[at].root_page as nat,
            depth,
            index_key(condition)->Some_0.1,
        );
        let read = lookup_pages(
            file,
            indexes[at].root_page as nat,
            depth,
            index_key(condition)->Some_0.1,
        );
        match found {
            Ok(ids) => read.union(walk_pages(file, schema.root_page as nat, depth, Some(ids))),
            Err(_) => read,
        }
    } else {
        walk_pages(file, schema.root_page as nat, depth, None)
    }
}

/// The pages that a statement reads: the first page for the catalog, and
/// then those of its table and index.
pub open spec fn run_pages(file: FileView, stmt: StmtView) -> Set<usize> {
    match stmt {
        StmtView::Select(columns, from, condition) => match from {
            None => Set::empty(),
            Some(table) => schema_pages(file).union(
                match schema_cells(file) {
                    Err(_) => Set::empty(),
                    Ok(cells) => {
                        let tables = catalog(cells, true, cells.len());
                        let indexes = catalog(cells, false, cells.len());
                        let at = find_table(tables, table.name, tables.len() as int);
                        if at < 0 {
                            Set::empty()
                        } else if counts_only(columns, condition) {
                            count_pages(file, tables[at], count_argument(columns[0])->Some_0)
                        } else {
                            scan_pages(file, tables[at], indexes, columns, table.name, condition)
                        }
                    },
                },
            ),
        },
    }
}

/// The pages that the first `n` of the statements read: those of each
/// statement up to the first that fails.
pub open spec fn run_all_pages(file: FileView, stmts: Seq<StmtView>, n: nat) -> Set<usize>
    decreases n,
{
    if n == 0 {
        Set::empty()
    } else {
        let before = run_all_pages(file, stmts, (n - 1) as nat);
        if run_all(file, stmts, (n - 1) as nat) is Ok {
            before.union(run_pages(file, stmts[n - 1]))
        } else {
            before
        }
    }
}

/// The pages that a text of statements reads; none where it is rejected.
pub open spec fn run_sql_pages(file: FileView, sql: Seq<char>) -> Set<usize> {
    match parse_tokens(lex(sql)) {
        Err(_) => Set::empty(),
        Ok(stmts) => run_all_pages(file, stmts, stmts.len()),
    }
}

/// After a failure among the first `n` statements no further page is read.
pub proof fn lemma_run_all_pages_stop(file: FileView, stmts: Seq<StmtView>, n: nat, m: nat)
    requires
        n <= m,
        run_all(file, stmts, n) is Err,
    ensures
        run_all_pages(file, stmts, m) == run_all_pages(file, stmts, n),
    decreases m,
{
    if n < m {
        lemma_run_all_pages_stop(file, stmts, n, (m - 1) as nat);
        lemma_run_all_fail(file, stmts, n, (m - 1) as nat);
    }
}

/// What the pages that were kept become when the catalog is read.
pub proof fn lemma_schema_pages(file: FileView, before: Set<usize>)
    ensures
        page_at(file, 1) is Ok ==> before.union(schema_pages(file)) == before.insert(1usize),
        page_at(file, 1) is Err ==> before.union(schema_pages(file)) == before,
{
    assert(before.union(Set::empty().insert(1usize)) =~= before.insert(1usize));
    assert(before.union(Set::empty()) =~= before);
}

/// Sets joined in either grouping are the same.
pub proof fn lemma_union_assoc(a: Set<usize>, b: Set<usize>, c: Set<usize>)
    ensures
        a.union(b).union(c) == a.union(b.union(c)),
        a.union(Set::empty()) == a,
        a.union(b.union(Set::empty())) == a.union(b),
{
    assert(a.union(b).union(c) =~= a.union(b.union(c)));
    assert(a.union(Set::empty()) =~= a);
    assert(a.union(b.union(Set::empty())) =~= a.union(b));
}

/// The rows that the first `n` of the statements give, statement by
/// statement; the error of the first that fails.
pub open spec fn run_all(file: FileView, stmts: Seq<StmtView>, n: nat) -> Result<
    Seq<Seq<RowView>>,
    DbError,
>
    decreases n,
{
    if n == 0 {
        Ok(Seq::empty())
    } else {
        match run_all(file, stmts, (n - 1) as nat) {
            Err(e) => Err(e),
            Ok(results) => match run(file, stmts[n - 1]) {
                Err(e) => Err(e),
                Ok(rows) => Ok(results.push(rows)),
            },
        }
    }
}

/// Why a text of statements gave no rows: it was rejected as a whole before
/// any of it ran, or one of its statements failed.
#[derive(Debug)]
pub enum QueryError {
    Syntax(SyntaxError),
    Engine(DbError),
}

/// A failure as a plain value.
pub ghost enum QueryErrorView {
    Syntax(SyntaxErrorView),
    Engine(DbError),
}

impl View for QueryError {
    type V = QueryErrorView;

    open spec fn view(&self) -> QueryErrorView {
        match self {
            QueryError::Syntax(e) => QueryErrorView::Syntax(e@),
            QueryError::Engine(e) => QueryErrorView::Engine(*e),
        }
    }
}

/// The rows that a text of statements gives on a file.
pub open spec fn run_sql(file: FileView, sql: Seq<char>) -> Result<
    Seq<Seq<RowView>>,
    QueryErrorView,
> {
    match parse_tokens(lex(sql)) {
        Err(e) => Err(QueryErrorView::Syntax(e)),
        Ok(stmts) => match run_all(file, stmts, stmts.len()) {
            Err(e) => Err(QueryErrorView::Engine(e)),
            Ok(results) => Ok(results),
        },
    }
}

/// The results as plain values.
pub open spec fn results_view(results: Seq<Vec<Row>>) -> Seq<Seq<RowView>> {
    Seq::new(results.len(), |i: int| rows_view(results[i]@))
}

/// Where the first `n` statements fail, more of them fail in the same way.
pub proof fn lemma_run_all_fail(file: FileView, stmts: Seq<StmtView>, n: nat, m: nat)
    requires
        n <= m,
    ensures
        run_all(file, stmts, n) matches Err(e) ==> run_all(file, stmts, m) == Err::<
            Seq<Seq<RowView>>,
            DbError,
        >(e),
    decreases m,
{
    if n < m {
        lemma_run_all_fail(file, stmts, n, (m - 1) as nat);
    }
}

/// A database: the header of its file, its pages, and its catalog as it was
/// last read.
pub struct Db {
    pub header: DbHeader,
    pub pager: Pager,
    pub table_schemas: Vec<Schema>,
    pub index_schemas: Vec<Schema>,
}

impl Db {
    /// Opens the database that the bytes of a file hold. A file shorter
    /// than the file header cannot be read.
    pub fn from_bytes(bytes: Vec<u8>) -> (res: Result<Self, DbError>)
        ensures
            match res {
                Ok(db) => bytes@.len() >= HEADER_SIZE && db_header(
                    bytes@.subrange(0, HEADER_SIZE as int),
                ) == Ok::<DbHeader, DbError>(db.header) && db.pager.wf() && db.pager@ == (FileView {
                    bytes: bytes@,
                    page_size: db.header.page_size as nat,
                }) && db.table_schemas@.len() == 0 && db.index_schemas@.len() == 0,
                Err(e) => if bytes@.len() < HEADER_SIZE {
                    e == DbError::Io
                } else {
                    db_header(bytes@.subrange(0, HEADER_SIZE as int)) == Err::<DbHeader, DbError>(e)
                },
            },
    {
        if bytes.len() < HEADER_SIZE {
            return Err(DbError::Io);
        }
        let header = match DbHeader::parse(slice_subrange(bytes.as_slice(), 0, HEADER_SIZE)) {
            Ok(header) => header,
            Err(e) => {
                return Err(e);
            },
        };
        let pager = Pager::new(bytes, header.page_size as usize);
        Ok(Db { header, pager, table_schemas: Vec::new(), index_schemas: Vec::new() })
    }

    /// The number of rows of the schema table: the cell count in the header
    /// of the first page. The cells themselves are not read.
    pub fn table_count(&self) -> (res: Result<u16, DbError>)
        ensures
            match header_at(self.pager@, 1) {
                Ok(header) => res == Ok::<u16, DbError>(header.cell_count),
                Err(e) => res == Err::<u16, DbError>(e),
            },
    {
        match self.pager.read_header(1) {
            Ok(header) => Ok(header.get_cell_count()),
            Err(e) => Err(e),
        }
    }

    /// The names of the tables in the schema table, in ascending order. The
    /// first page must be a table leaf page.
    pub fn table_names(&mut self) -> (res: Result<Vec<String>, DbError>)
        requires
            old(self).pager.wf(),
        ensures
            final(self).pager.wf(),
            final(self).pager@ == old(self).pager@,
            final(self).header == old(self).header,
            match page_at(old(self).pager@, 1) {
                Ok(PageView::TableLeaf(page)) => res is Ok && ascending(texts_view(res->Ok_0@))
                    && texts_view(res->Ok_0@).to_multiset() == table_names(
                    page.cells,
                    page.cells.len(),
                ).to_multiset(),
                Ok(_) => res == Err::<Vec<String>, DbError>(unexpected_page(old(self).pager@, 1)),
                Err(e) => res == Err::<Vec<String>, DbError>(e),
            },
            final(self).pager.cached() == old(self).pager.cached().union(
                schema_pages(old(self).pager@),
            ),
    {
        proof {
            lemma_schema_pages(self.pager@, self.pager.cached());
        }
        let unexpected = self.pager.unexpected_page(1);
        match self.pager.read_page(1) {
            Ok(page) => match page {
                Page::TableLeaf(leaf) => Ok(sorted_table_names(leaf)),
                _ => Err(unexpected),
            },
            Err(e) => Err(e),
        }
    }

    /// Reads the catalog from the first page.
    pub fn get_schemas(&mut self) -> (res: Result<(), DbError>)
        requires
            old(self).pager.wf(),
        ensures
            final(self).pager.wf(),
            final(self).pager@ == old(self).pager@,
            final(self).header == old(self).header,
            match schema_cells(old(self).pager@) {
                Ok(cells) => res is Ok && schemas_view(final(self).table_schemas@) == catalog(
                    cells,
                    true,
                    cells.len(),
                ) && schemas_view(final(self).index_schemas@) == catalog(
                    cells,
                    false,
                    cells.len(),
                ),
                Err(e) => res == Err::<(), DbError>(e) && final(self).table_schemas == old(
                    self,
                ).table_schemas && final(self).index_schemas == old(self).index_schemas,
            },
            final(self).pager.cached() == old(self).pager.cached().union(
                schema_pages(old(self).pager@),
            ),
    {
        proof {
            lemma_schema_pages(self.pager@, self.pager.cached());
        }
        let (tables, indexes) = match self.pager.read_page(1) {
            Err(e) => {
                return Err(e);
            },
            Ok(page) => match page {
                Page::TableLeaf(leaf) => (read_catalog(leaf, true), read_catalog(leaf, false)),
                _ => (Vec::new(), Vec::new()),
            },
        };
        proof {
            if !(page_at(old(self).pager@, 1) matches Ok(PageView::TableLeaf(_))) {
                assert(schemas_view(tables@) =~= Seq::<SchemaView>::empty());
                assert(schemas_view(indexes@) =~= Seq::<SchemaView>::empty());
            }
        }
        self.table_schemas = tables;
        self.index_schemas = indexes;
        Ok(())
    }

    /// Reads the catalog, and looks the table `table_name` up in it.
    pub fn get_table_schema(&mut self, table_name: &str) -> (res: Result<Option<Schema>, DbError>)
        requires
            old(self).pager.wf(),
        ensures
            final(self).pager.wf(),
            final(self).pager@ == old(self).pager@,
            final(self).header == old(self).header,
            match schema_cells(old(self).pager@) {
                Ok(cells) => {
                    let tables = catalog(cells, true, cells.len());
                    let at = find_table(tables, table_name@, tables.len() as int);
                    res is Ok && if at < 0 {
                        res->Ok_0 is None
                    } else {
                        res->Ok_0 is Some && res->Ok_0->Some_0@ == tables[at]
                    }
                },
                Err(e) => res == Err::<Option<Schema>, DbError>(e),
            },
            final(self).pager.cached() == old(self).pager.cached().union(
                schema_pages(old(self).pager@),
            ),
    {
        match self.get_schemas() {
            Ok(()) => {},
            Err(e) => {
                return Err(e);
            },
        }
        match lookup_table(&self.table_schemas, table_name) {
            Some(at) => Ok(Some(self.table_schemas[at].duplicate())),
            None => Ok(None),
        }
    }

    /// Reads the catalog, and looks up in it the index on the single column
    /// `column` of the table `table_name`.
    pub fn get_index_schema(&mut self, table_name: &str, column: &str) -> (res: Result<
        Option<Schema>,
        DbError,
    >)
        requires
            old(self).pager.wf(),
        ensures
            final(self).pager.wf(),
            final(self).pager@ == old(self).pager@,
            final(self).header == old(self).header,
            match schema_cells(old(self).pager@) {
                Ok(cells) => {
                    let indexes = catalog(cells, false, cells.len());
                    let at = find_index(indexes, table_name@, column@, indexes.len() as int);
                    res is Ok && if at < 0 {
                        res->Ok_0 is None
                    } else {
                        res->Ok_0 is Some && res->Ok_0->Some_0@ == indexes[at]
                    }
                },
                Err(e) => res == Err::<Option<Schema>, DbError>(e),
            },
            final(self).pager.cached() == old(self).pager.cached().union(
                schema_pages(old(self).pager@),
            ),
    {
        match self.get_schemas() {
            Ok(()) => {},
            Err(e) => {
                return Err(e);
            },
        }
        match lookup_index(&self.index_schemas, table_name, column) {
            Some(at) => Ok(Some(self.index_schemas[at].duplicate())),
            None => Ok(None),
        }
    }

    /// Runs one statement, and returns its rows.
    pub fn execute(&mut self, stmt: &Stmt) -> (res: Result<Vec<Row>, DbError>)
        requires
            old(self).pager.wf(),
        ensures
            final(self).pager.wf(),
            final(self).pager@ == old(self).pager@,
            final(self).header == old(self).header,
            match run(old(self).pager@, stmt@) {
                Ok(rows) => res is Ok && rows_view(res->Ok_0@) == rows,
                Err(e) => res == Err::<Vec<Row>, DbError>(e),
            },
            final(self).pager.cached() == old(self).pager.cached().union(
                run_pages(old(self).pager@, stmt@),
            ),
    {
        let ghost file = self.pager@;
        let ghost before = self.pager.cached();
        let ghost first = schema_pages(file);
        proof {
            lemma_union_assoc(before, first, Set::empty());
        }
        let (columns, table, condition) = match stmt {
            Stmt::Select(columns, from, condition) => match from {
                Some(table) => (columns, table, condition),
                None => {
                    return Err(DbError::UnsupportedQuery);
                },
            },
        };
        match self.get_schemas() {
            Ok(()) => {},
            Err(e) => {
                return Err(e);
            },
        }
        let at = match lookup_table(&self.table_schemas, table.name.as_str()) {
            Some(at) => at,
            None => {
                return Err(DbError::UnknownTable);
            },
        };
        let ghost schema = self.table_schemas@[at as int]@;
        let root = self.table_schemas[at].root_page;
        let depth = self.pager.page_count();
        proof {
            lemma_union_assoc(
                before,
                first,
                walk_pages(file, root as nat, depth as nat, None),
            );
            assert(schemas_view(self.table_schemas@)[at as int] == schema);
            assert(columns_view(self.table_schemas@[at as int].columns@) == schema.columns);
            assert(stmt@->Select_0 == exprs_view(columns@));
        }
        if condition.is_none() && columns.len() == 1 {
            assert(exprs_view(columns@)[0] == columns@[0]@);
            match count_argument_of(&columns[0]) {
                Some(argument) => {
                    let filter = match argument {
                        None => Filter::All,
                        Some(column) => match column_index(
                            &self.table_schemas[at].columns,
                            column.as_str(),
                        ) {
                            Some(at) => Filter::NotNull { column: at },
                            None => {
                                return Err(DbError::UnknownColumn);
                            },
                        },
                    };
                    let n = match count_page(&mut self.pager, root, depth, &filter) {
                        Ok(n) => n,
                        Err(e) => {
                            return Err(e);
                        },
                    };
                    let count: i64 = if n as u64 > 0x7fff_ffff_ffff_ffff {
                        0x7fff_ffff_ffff_ffff
                    } else {
                        n as i64
                    };
                    let mut values: Vec<Value> = Vec::new();
                    values.push(Value::I64(count));
                    let row = Row { row_id: 0, values };
                    let mut rows: Vec<Row> = Vec::new();
                    rows.push(row);
                    proof {
                        let expected = run(file, stmt@)->Ok_0;
                        assert(row@.values =~= expected[0].values);
                        assert(rows_view(rows@) =~= expected);
                    }
                    return Ok(rows);
                },
                None => {},
            }
        }
        let selected = match resolve_select_list(columns, &self.table_schemas[at].columns) {
            Ok(selected) => selected,
            Err(e) => {
                return Err(e);
            },
        };
        let filter = match resolve_filter(condition, &self.table_schemas[at].columns) {
            Ok(filter) => filter,
            Err(e) => {
                return Err(e);
            },
        };
        let by_index = match condition {
            Some(expr) => match split_condition(expr) {
                Some(parts) => match parts.op {
                    CompareOp::Equal => if parts.quoted {
                        match lookup_index(
                            &self.index_schemas,
                            table.name.as_str(),
                            parts.column.as_str(),
                        ) {
                            Some(ix) => Some((self.index_schemas[ix].root_page, parts.literal)),
                            None => None,
                        }
                    } else {
                        None
                    },
                    _ => None,
                },
                None => None,
            },
            None => None,
        };
        match by_index {
            Some((index_root, key)) => {
                let ghost read = lookup_pages(file, index_root as nat, depth as nat, key@);
                proof {
                    lemma_union_assoc(before, first, read);
                }
                let ids = match get_row_ids(&mut self.pager, index_root, depth, key.as_str()) {
                    Ok(ids) => ids,
                    Err(e) => {
                        return Err(e);
                    },
                };
                proof {
                    let walked = walk_pages(file, root as nat, depth as nat, Some(ids@));
                    lemma_union_assoc(before, first, read.union(walked));
                    lemma_union_assoc(before.union(first), read, walked);
                }
                get_rows(&mut self.pager, root, depth, selected, ids)
            },
            None => query_page(&mut self.pager, root, depth, &Plan { selected, filter }),
        }
    }

    /// Reads the statements that a text spells, and runs them one after
    /// the other.
    pub fn execute_sql(&mut self, sql: &str) -> (res: Result<Vec<Vec<Row>>, QueryError>)
        requires
            old(self).pager.wf(),
        ensures
            final(self).pager.wf(),
            final(self).pager@ == old(self).pager@,
            final(self).header == old(self).header,
            match run_sql(old(self).pager@, sql@) {
                Ok(results) => res is Ok && results_view(res->Ok_0@) == results,
                Err(e) => res is Err && res->Err_0@ == e,
            },
            final(self).pager.cached() == old(self).pager.cached().union(
                run_sql_pages(old(self).pager@, sql@),
            ),
    {
        let ghost file = self.pager@;
        let ghost kept = self.pager.cached();
        proof {
            lemma_union_assoc(kept, Set::empty(), Set::empty());
        }
        let mut scanner = Scanner::new(String::from_str(sql));
        let tokens = copy_tokens(scanner.scan_tokens());
        proof {
            lemma_lex_ends(sql@, classified(sql@), 0, 1, Seq::empty());
        }
        let mut parser = Parser::new(tokens);
        let stmts = match parser.parse() {
            Ok(stmts) => stmts,
            Err(e) => {
                return Err(QueryError::Syntax(e));
            },
        };
        let ghost views = stmts_view(stmts@);
        let mut results: Vec<Vec<Row>> = Vec::new();
        let mut i: usize = 0;
        proof {
            assert(results_view(results@) =~= Seq::<Seq<RowView>>::empty());
        }
        while i < stmts.len()
            invariant
                i <= stmts@.len(),
                views == stmts_view(stmts@),
                self.pager.wf(),
                self.pager@ == file,
                file == old(self).pager@,
                self.header == old(self).header,
                parse_tokens(lex(sql@)) == Ok::<Seq<StmtView>, SyntaxErrorView>(views),
                run_all(file, views, i as nat) == Ok::<Seq<Seq<RowView>>, DbError>(
                    results_view(results@),
                ),
                kept == old(self).pager.cached(),
                self.pager.cached() == kept.union(run_all_pages(file, views, i as nat)),
            decreases stmts@.len() - i,
        {
            proof {
                lemma_run_all_fail(file, views, (i + 1) as nat, stmts@.len() as nat);
                lemma_union_assoc(
                    kept,
                    run_all_pages(file, views, i as nat),
                    run_pages(file, views[i as int]),
                );
                assert(views[i as int] == stmts@[i as int]@);
                if run_all(file, views, (i + 1) as nat) is Err {
                    lemma_run_all_pages_stop(file, views, (i + 1) as nat, stmts@.len() as nat);
                }
            }
            let ghost before = results_view(results@);
            match self.execute(&stmts[i]) {
                Ok(rows) => {
                    results.push(rows);
                    proof {
                        assert(results_view(results@) =~= before.push(rows_view(rows@)));
                    }
                },
                Err(e) => {
                    return Err(QueryError::Engine(e));
                },
            }
            i = i + 1;
        }
        Ok(results)
    }
}

} // verus!
