use vstd::prelude::*;
use vstd::slice::*;

use crate::db::HEADER_SIZE;
use crate::error::DbError;
use crate::record::{
    be_unsigned, decode_record, integers_fit, lemma_decoded_integers_fit, parse_record,
    read_u32_at, Record, RecordView,
};
use crate::utils::{be_word, read_be_word_at, read_varint, varint_decode};

verus! {

broadcast use vstd::slice::group_slice_axioms;

/// The tag of a table leaf page.
pub const TABLE_LEAF_PAGE_ID: u8 = 0x0d;

/// The tag of a table interior page.
pub const TABLE_INTERIOR_PAGE_ID: u8 = 0x05;

/// The tag of an index leaf page.
pub const INDEX_LEAF_PAGE_ID: u8 = 0x0a;

/// The tag of an index interior page.
pub const INDEX_INTERIOR_PAGE_ID: u8 = 0x02;

/// The length of the header of a leaf page.
pub const PAGE_LEAF_HEADER_SIZE: usize = 8;

/// The length of the header of an interior page.
pub const PAGE_INTERIOR_HEADER_SIZE: usize = 12;

/// The four kinds of B-tree page.
#[derive(Debug, Clone, Copy, PartialEq, Eq, Structural)]
pub enum PageType {
    TableLeaf,
    TableInterior,
    IndexLeaf,
    IndexInterior,
}

/// The header of a B-tree page.
#[derive(Debug, Clone, Copy, PartialEq, Eq, Structural)]
pub struct PageHeader {
    pub page_type: PageType,
    pub first_freeblock: u16,
    pub cell_count: u16,
    pub cell_content_offset: u32,
    pub fragmented_bytes_count: u8,
    pub right_most_point: u32,
}

/// The page kind that a tag byte stands for.
pub open spec fn page_type_of(tag: u8) -> Option<PageType> {
    if tag == TABLE_LEAF_PAGE_ID {
        Some(PageType::TableLeaf)
    } else if tag == TABLE_INTERIOR_PAGE_ID {
        Some(PageType::TableInterior)
    } else if tag == INDEX_LEAF_PAGE_ID {
        Some(PageType::IndexLeaf)
    } else if tag == INDEX_INTERIOR_PAGE_ID {
        Some(PageType::IndexInterior)
    } else {
        None
    }
}

/// Whether pages of a kind have children.
pub open spec fn is_interior(kind: PageType) -> bool {
    kind == PageType::TableInterior || kind == PageType::IndexInterior
}

/// The length of the page header of a kind of page.
pub open spec fn header_size(kind: PageType) -> nat {
    if is_interior(kind) {
        12
    } else {
        8
    }
}

/// The page header that starts at byte `at` of a page. The start of the
/// cell content is 65536 where the field holds 0; leaf pages have no
/// right-most child, and 0 stands in its place.
pub open spec fn page_header(buffer: Seq<u8>, at: int) -> Result<PageHeader, DbError> {
    if at < 0 || at >= buffer.len() {
        Err(DbError::TruncatedPage { offset: at as usize })
    } else {
        match page_type_of(buffer[at]) {
            None => Err(DbError::UnknownPageType { offset: at as usize }),
            Some(kind) => if at + header_size(kind) > buffer.len() {
                Err(DbError::TruncatedPage { offset: at as usize })
            } else {
                let content = be_word(buffer[at + 5], buffer[at + 6]);
                Ok(
                    PageHeader {
                        page_type: kind,
                        first_freeblock: be_word(buffer[at + 1], buffer[at + 2]) as u16,
                        cell_count: be_word(buffer[at + 3], buffer[at + 4]) as u16,
                        cell_content_offset: if content == 0 {
                            65536
                        } else {
                            content as u32
                        },
                        fragmented_bytes_count: buffer[at + 7],
                        right_most_point: if is_interior(kind) {
                            be_unsigned(buffer.subrange(at + 8, at + 12)) as u32
                        } else {
                            0
                        },
                    },
                )
            },
        }
    }
}

impl PageHeader {
    /// Reads the page header that starts at byte `ptr_offset` of a page.
    pub fn parse(buffer: &[u8], ptr_offset: u16) -> (res: Result<Self, DbError>)
        ensures
            res == page_header(buffer@, ptr_offset as int),
    {
        let at = ptr_offset as usize;
        if at >= buffer.len() {
            return Err(DbError::TruncatedPage { offset: at });
        }
        let tag = buffer[at];
        let page_type = if tag == TABLE_LEAF_PAGE_ID {
            PageType::TableLeaf
        } else if tag == TABLE_INTERIOR_PAGE_ID {
            PageType::TableInterior
        } else if tag == INDEX_LEAF_PAGE_ID {
            PageType::IndexLeaf
        } else if tag == INDEX_INTERIOR_PAGE_ID {
            PageType::IndexInterior
        } else {
            return Err(DbError::UnknownPageType { offset: at });
        };
        let interior = match page_type {
            PageType::TableInterior | PageType::IndexInterior => true,
            _ => false,
        };
        let size = if interior {
            PAGE_INTERIOR_HEADER_SIZE
        } else {
            PAGE_LEAF_HEADER_SIZE
        };
        if size > buffer.len() - at {
            return Err(DbError::TruncatedPage { offset: at });
        }
        let first_freeblock = read_be_word_at(buffer, at + 1);
        let cell_count = read_be_word_at(buffer, at + 3);
        let content = read_be_word_at(buffer, at + 5);
        let cell_content_offset: u32 = if content == 0 {
            65536
        } else {
            content as u32
        };
        let fragmented_bytes_count = buffer[at + 7];
        let right_most_point = if interior {
            read_u32_at(buffer, at + 8)
        } else {
            0
        };
        Ok(
            PageHeader {
                page_type,
                first_freeblock,
                cell_count,
                cell_content_offset,
                fragmented_bytes_count,
                right_most_point,
            },
        )
    }

    /// The right-most child of an interior page; 0 on a leaf page.
    pub fn get_right_most_point(&self) -> (child: u32)
        ensures
            child == self.right_most_point,
    {
        self.right_most_point
    }

    /// The number of cells on the page.
    pub fn get_cell_count(&self) -> (count: u16)
        ensures
            count == self.cell_count,
    {
        self.cell_count
    }

    /// The kind of the page.
    pub fn get_page_type(&self) -> (kind: &PageType)
        ensures
            *kind == self.page_type,
    {
        &self.page_type
    }
}

/// The cell pointers of a page: `count` big-endian words from the start of
/// `area`.
pub open spec fn cell_pointers(area: Seq<u8>, count: nat) -> Seq<u16> {
    Seq::new(count, |i: int| be_word(area[2 * i], area[2 * i + 1]) as u16)
}

/// Reads the `cell_count` cell pointers that start `buffer`.
pub fn parse_cell_pointers(buffer: &[u8], cell_count: usize) -> (pointers: Vec<u16>)
    requires
        2 * cell_count <= buffer@.len(),
    ensures
        pointers@ == cell_pointers(buffer@, cell_count as nat),
{
    let len = buffer.len();
    let mut pointers: Vec<u16> = Vec::with_capacity(cell_count);
    let mut i: usize = 0;
    while i < cell_count
        invariant
            i <= cell_count,
            2 * cell_count <= buffer@.len() <= usize::MAX,
            pointers@ == cell_pointers(buffer@, i as nat),
        decreases cell_count - i,
    {
        let ptr = read_be_word_at(buffer, i * 2);
        pointers.push(ptr);
        proof {
            assert(pointers@ =~= cell_pointers(buffer@, (i + 1) as nat));
        }
        i = i + 1;
    }
    pointers
}

/// A cell of a table leaf page: the length of the payload, the row id, and
/// the row itself.
#[derive(Debug, Clone)]
pub struct TableLeafCell {
    pub size: u64,
    pub row_id: u64,
    pub record: Record,
}

/// A cell of a table leaf page as a plain value.
pub ghost struct TableLeafCellView {
    pub size: u64,
    pub row_id: u64,
    pub record: RecordView,
}

impl View for TableLeafCell {
    type V = TableLeafCellView;

    open spec fn view(&self) -> TableLeafCellView {
        TableLeafCellView { size: self.size, row_id: self.row_id, record: self.record@ }
    }
}

/// The table leaf cell that starts `cell`: the payload length and the row
/// id as varints, then the payload, which must end within `cell`.
pub open spec fn table_leaf_cell(cell: Seq<u8>) -> Result<TableLeafCellView, DbError> {
    match varint_decode(cell) {
        None => Err(DbError::MalformedVarint { offset: 0 }),
        Some((n, size)) => match varint_decode(cell.subrange(n as int, cell.len() as int)) {
            None => Err(DbError::MalformedVarint { offset: n as usize }),
            Some((m, row_id)) => if size > cell.len() - n - m {
                Err(DbError::TruncatedPage { offset: (n + m) as usize })
            } else {
                match parse_record(
                    cell.subrange((n + m) as int, (n + m + size) as int),
                    row_id as u64,
                ) {
                    Err(e) => Err(e.moved(n + m)),
                    Ok(record) => Ok(
                        TableLeafCellView { size: size as u64, row_id: row_id as u64, record },
                    ),
                }
            },
        },
    }
}

impl TableLeafCell {
    /// Reads the table leaf cell that starts `cell_buffer`.
    pub fn parse(cell_buffer: &[u8]) -> (res: Result<Self, DbError>)
        ensures
            match table_leaf_cell(cell_buffer@) {
                Ok(cell) => res is Ok && res->Ok_0@ == cell,
                Err(e) => res == Err::<Self, DbError>(e),
            },
    {
        let len = cell_buffer.len();
        let (n, payload_size) = match read_varint(cell_buffer) {
            Ok(pair) => pair,
            Err(e) => {
                return Err(e);
            },
        };
        let (m, row_id) = match read_varint(slice_subrange(cell_buffer, n, len)) {
            Ok(pair) => pair,
            Err(e) => {
                return Err(e.shifted(n));
            },
        };
        let start = n + m;
        if payload_size > (len - start) as u64 {
            return Err(DbError::TruncatedPage { offset: start });
        }
        let payload = slice_subrange(cell_buffer, start, start + payload_size as usize);
        match Record::parse(payload, row_id) {
            Ok(record) => Ok(TableLeafCell { size: payload_size, row_id, record }),
            Err(e) => Err(e.shifted(start)),
        }
    }
}

/// A cell of a table interior page: a child page, and the largest row id
/// in it.
#[derive(Debug, Clone, Copy, PartialEq, Eq, Structural)]
pub struct TableInteriorCell {
    pub row_id: u64,
    pub left_child: u32,
}

/// The table interior cell that starts `cell`: the child's page number in
/// four bytes, then the row id as a varint.
pub open spec fn table_interior_cell(cell: Seq<u8>) -> Result<TableInteriorCell, DbError> {
    if cell.len() < 4 {
        Err(DbError::TruncatedPage { offset: 0 })
    } else {
        match varint_decode(cell.subrange(4, cell.len() as int)) {
            None => Err(DbError::MalformedVarint { offset: 4 }),
            Some((n, row_id)) => Ok(
                TableInteriorCell {
                    row_id: row_id as u64,
                    left_child: be_unsigned(cell.subrange(0, 4)) as u32,
                },
            ),
        }
    }
}

impl TableInteriorCell {
    /// Reads the table interior cell that starts `cell_buffer`.
    pub fn parse(cell_buffer: &[u8]) -> (res: Result<Self, DbError>)
        ensures
            res == table_interior_cell(cell_buffer@),
    {
        let len = cell_buffer.len();
        if len < 4 {
            return Err(DbError::TruncatedPage { offset: 0 });
        }
        let left_child = read_u32_at(cell_buffer, 0);
        match read_varint(slice_subrange(cell_buffer, 4, len)) {
            Ok((_, row_id)) => Ok(TableInteriorCell { row_id, left_child }),
            Err(e) => Err(e.shifted(4)),
        }
    }
}

/// A cell of an index leaf page: the length of the payload, and the entry,
/// whose last column is a row id.
#[derive(Debug, Clone)]
pub struct IndexLeafCell {
    pub size: usize,
    pub record: Record,
}

/// A cell of an index leaf page as a plain value.
pub ghost struct IndexLeafCellView {
    pub size: usize,
    pub record: RecordView,
}

impl View for IndexLeafCell {
    type V = IndexLeafCellView;

    open spec fn view(&self) -> IndexLeafCellView {
        IndexLeafCellView { size: self.size, record: self.record@ }
    }
}

/// The index leaf cell that starts `cell`: the payload length as a varint,
/// then the payload, which must end within `cell`.
pub open spec fn index_leaf_cell(cell: Seq<u8>) -> Result<IndexLeafCellView, DbError> {
    match varint_decode(cell) {
        None => Err(DbError::MalformedVarint { offset: 0 }),
        Some((n, size)) => if size > cell.len() - n {
            Err(DbError::TruncatedPage { offset: n as usize })
        } else {
            match decode_record(cell.subrange(n as int, (n + size) as int)) {
                Err(e) => Err(e.moved(n)),
                Ok(record) => Ok(IndexLeafCellView { size: size as usize, record }),
            }
        },
    }
}

impl IndexLeafCell {
    /// Reads the index leaf cell that starts `cell_buffer`.
    pub fn parse(cell_buffer: &[u8]) -> (res: Result<Self, DbError>)
        ensures
            match index_leaf_cell(cell_buffer@) {
                Ok(cell) => res is Ok && res->Ok_0@ == cell,
                Err(e) => res == Err::<Self, DbError>(e),
            },
    {
        let len = cell_buffer.len();
        let (n, payload_size) = match read_varint(cell_buffer) {
            Ok(pair) => pair,
            Err(e) => {
                return Err(e);
            },
        };
        if payload_size > (len - n) as u64 {
            return Err(DbError::TruncatedPage { offset: n });
        }
        let size = payload_size as usize;
        match Record::decode(slice_subrange(cell_buffer, n, n + size)) {
            Ok(record) => Ok(IndexLeafCell { size, record }),
            Err(e) => Err(e.shifted(n)),
        }
    }
}

/// A cell of an index interior page: the length of the payload, a child
/// page, and an entry, whose last column is a row id.
#[derive(Debug, Clone)]
pub struct IndexInteriorCell {
    pub size: usize,
    pub left_child: u32,
    pub record: Record,
}

/// A cell of an index interior page as a plain value.
pub ghost struct IndexInteriorCellView {
    pub size: usize,
    pub left_child: u32,
    pub record: RecordView,
}

impl View for IndexInteriorCell {
    type V = IndexInteriorCellView;

    open spec fn view(&self) -> IndexInteriorCellView {
        IndexInteriorCellView {
            size: self.size,
            left_child: self.left_child,
            record: self.record@,
        }
    }
}

/// The index interior cell that starts `cell`: the child's page number in
/// four bytes, the payload length as a varint, then the payload, which must
/// end within `cell`.
pub open spec fn index_interior_cell(cell: Seq<u8>) -> Result<IndexInteriorCellView, DbError> {
    if cell.len() < 4 {
        Err(DbError::TruncatedPage { offset: 0 })
    } else {
        match index_leaf_cell(cell.subrange(4, cell.len() as int)) {
            Err(e) => Err(e.moved(4)),
            Ok(entry) => Ok(
                IndexInteriorCellView {
                    size: entry.size,
                    left_child: be_unsigned(cell.subrange(0, 4)) as u32,
                    record: entry.record,
                },
            ),
        }
    }
}

impl IndexInteriorCell {
    /// Reads the index interior cell that starts `buffer`.
    pub fn parse(buffer: &[u8]) -> (res: Result<Self, DbError>)
        ensures
            match index_interior_cell(buffer@) {
                Ok(cell) => res is Ok && res->Ok_0@ == cell,
                Err(e) => res == Err::<Self, DbError>(e),
            },
    {
        let len = buffer.len();
        if len < 4 {
            return Err(DbError::TruncatedPage { offset: 0 });
        }
        let left_child = read_u32_at(buffer, 0);
        match IndexLeafCell::parse(slice_subrange(buffer, 4, len)) {
            Ok(entry) => Ok(
                IndexInteriorCell { size: entry.size, left_child, record: entry.record },
            ),
            Err(e) => Err(e.shifted(4)),
        }
    }
}

/// The header of a page of the given kind and its cell pointers, which
/// follow the header.
pub open spec fn page_layout(buffer: Seq<u8>, at: int, kind: PageType) -> Result<
    (PageHeader, Seq<u16>),
    DbError,
> {
    match page_header(buffer, at) {
        Err(e) => Err(e),
        Ok(header) => if header.page_type != kind {
            Err(DbError::UnknownPageType { offset: at as usize })
        } else if at + header_size(kind) + 2 * header.cell_count > buffer.len() {
            Err(DbError::TruncatedPage { offset: (at + header_size(kind)) as usize })
        } else {
            Ok(
                (
                    header,
                    cell_pointers(
                        buffer.subrange(at + header_size(kind), buffer.len() as int),
                        header.cell_count as nat,
                    ),
                ),
            )
        },
    }
}

/// The first `n` cells of a page, each read from where its pointer says to
/// the end of the page; the failure of the first cell that cannot be read,
/// at its place in the page. A pointer to the end of the page or beyond it
/// is a failure.
pub open spec fn page_cells<C>(
    buffer: Seq<u8>,
    pointers: Seq<u16>,
    cell: spec_fn(Seq<u8>) -> Result<C, DbError>,
    n: nat,
) -> Result<Seq<C>, DbError>
    decreases n,
{
    if n == 0 {
        Ok(Seq::empty())
    } else {
        match page_cells(buffer, pointers, cell, (n - 1) as nat) {
            Err(e) => Err(e),
            Ok(cells) => if pointers[n - 1] >= buffer.len() {
                Err(DbError::TruncatedPage { offset: pointers[n - 1] as usize })
            } else {
                match cell(buffer.subrange(pointers[n - 1] as int, buffer.len() as int)) {
                    Err(e) => Err(e.moved(pointers[n - 1] as nat)),
                    Ok(c) => Ok(cells.push(c)),
                }
            },
        }
    }
}

/// Where the first `n` cells cannot be read, more cells fail in the same
/// way.
pub proof fn lemma_page_cells_fail<C>(
    buffer: Seq<u8>,
    pointers: Seq<u16>,
    cell: spec_fn(Seq<u8>) -> Result<C, DbError>,
    n: nat,
    m: nat,
)
    requires
        n <= m,
    ensures
        page_cells(buffer, pointers, cell, n) matches Err(e) ==> page_cells(
            buffer,
            pointers,
            cell,
            m,
        ) == Err::<Seq<C>, DbError>(e),
        page_cells(buffer, pointers, cell, n) matches Ok(cells) ==> cells.len() == n,
    decreases m,
{
    if n < m {
        lemma_page_cells_fail(buffer, pointers, cell, n, (m - 1) as nat);
    }
    if n > 0 {
        lemma_page_cells_fail(buffer, pointers, cell, (n - 1) as nat, (n - 1) as nat);
    }
}

/// Reads the header of a page of the given kind and its cell pointers.
fn read_layout(buffer: &[u8], ptr_offset: u16, kind: PageType) -> (res: Result<
    (PageHeader, Vec<u16>),
    DbError,
>)
    ensures
        match page_layout(buffer@, ptr_offset as int, kind) {
            Ok((header, pointers)) => res is Ok && res->Ok_0.0 == header && res->Ok_0.1@
                == pointers,
            Err(e) => res == Err::<(PageHeader, Vec<u16>), DbError>(e),
        },
{
    let len = buffer.len();
    let header = match PageHeader::parse(buffer, ptr_offset) {
        Ok(header) => header,
        Err(e) => {
            return Err(e);
        },
    };
    if header.page_type != kind {
        return Err(DbError::UnknownPageType { offset: ptr_offset as usize });
    }
    let interior = match kind {
        PageType::TableInterior | PageType::IndexInterior => true,
        _ => false,
    };
    let start = ptr_offset as usize + if interior {
        PAGE_INTERIOR_HEADER_SIZE
    } else {
        PAGE_LEAF_HEADER_SIZE
    };
    let count = header.cell_count as usize;
    if 2 * count > len - start {
        return Err(DbError::TruncatedPage { offset: start });
    }
    let pointers = parse_cell_pointers(slice_subrange(buffer, start, len), count);
    Ok((header, pointers))
}

/// A table leaf page: its header and its cells, in the order of the cell
/// pointers.
#[derive(Debug, Clone)]
pub struct TableLeafPage {
    pub header: PageHeader,
    pub cells: Vec<TableLeafCell>,
}

/// A table leaf page as a plain value.
pub ghost struct TableLeafPageView {
    pub header: PageHeader,
    pub cells: Seq<TableLeafCellView>,
}

impl View for TableLeafPage {
    type V = TableLeafPageView;

    open spec fn view(&self) -> TableLeafPageView {
        TableLeafPageView {
            header: self.header,
            cells: Seq::new(self.cells@.len(), |i: int| self.cells@[i]@),
        }
    }
}

/// The table leaf page whose header starts at byte `at` of `buffer`.
pub open spec fn table_leaf_page(buffer: Seq<u8>, at: int) -> Result<TableLeafPageView, DbError> {
    match page_layout(buffer, at, PageType::TableLeaf) {
        Err(e) => Err(e),
        Ok((header, pointers)) => match page_cells(
            buffer,
            pointers,
            |c: Seq<u8>| table_leaf_cell(c),
            pointers.len(),
        ) {
            Err(e) => Err(e),
            Ok(cells) => Ok(TableLeafPageView { header, cells }),
        },
    }
}

impl TableLeafPage {
    /// Reads the table leaf page whose header starts at byte `ptr_offset` of
    /// `buffer`.
    #[verifier::loop_isolation(false)]
    pub fn parse(buffer: &[u8], ptr_offset: u16) -> (res: Result<Self, DbError>)
        ensures
            match table_leaf_page(buffer@, ptr_offset as int) {
                Ok(page) => res is Ok && res->Ok_0@ == page,
                Err(e) => res == Err::<Self, DbError>(e),
            },
    {
        let len = buffer.len();
        let (header, pointers) = match read_layout(buffer, ptr_offset, PageType::TableLeaf) {
            Ok(pair) => pair,
            Err(e) => {
                return Err(e);
            },
        };
        let ghost cell = |c: Seq<u8>| table_leaf_cell(c);
        let mut cells: Vec<TableLeafCell> = Vec::new();
        let mut i: usize = 0;
        while i < pointers.len()
            invariant
                i <= pointers@.len(),
                cells@.len() == i,
                page_cells(buffer@, pointers@, cell, i as nat) is Ok,
                Seq::new(cells@.len(), |i: int| cells@[i]@) == page_cells(
                    buffer@,
                    pointers@,
                    cell,
                    i as nat,
                )->Ok_0,
            decreases pointers@.len() - i,
        {
            let ptr = pointers[i] as usize;
            proof {
                lemma_page_cells_fail(buffer@, pointers@, cell, (i + 1) as nat, pointers@.len());
            }
            if ptr >= len {
                return Err(DbError::TruncatedPage { offset: ptr });
            }
            let parsed = match TableLeafCell::parse(slice_subrange(buffer, ptr, len)) {
                Ok(parsed) => parsed,
                Err(e) => {
                    return Err(e.shifted(ptr));
                },
            };
            let ghost before = Seq::new(cells@.len(), |i: int| cells@[i]@);
            cells.push(parsed);
            proof {
                assert(Seq::new(cells@.len(), |i: int| cells@[i]@) =~= before.push(parsed@));
            }
            i = i + 1;
        }
        Ok(TableLeafPage { header, cells })
    }
}

/// A table interior page: its header and its cells, in the order of the cell
/// pointers.
#[derive(Debug, Clone)]
pub struct TableInteriorPage {
    pub header: PageHeader,
    pub cells: Vec<TableInteriorCell>,
}

/// A table interior page as a plain value.
pub ghost struct TableInteriorPageView {
    pub header: PageHeader,
    pub cells: Seq<TableInteriorCell>,
}

impl View for TableInteriorPage {
    type V = TableInteriorPageView;

    open spec fn view(&self) -> TableInteriorPageView {
        TableInteriorPageView { header: self.header, cells: self.cells@ }
    }
}

/// The table interior page whose header starts at byte `at` of `buffer`.
pub open spec fn table_interior_page(buffer: Seq<u8>, at: int) -> Result<
    TableInteriorPageView,
    DbError,
> {
    match page_layout(buffer, at, PageType::TableInterior) {
        Err(e) => Err(e),
        Ok((header, pointers)) => match page_cells(
            buffer,
            pointers,
            |c: Seq<u8>| table_interior_cell(c),
            pointers.len(),
        ) {
            Err(e) => Err(e),
            Ok(cells) => Ok(TableInteriorPageView { header, cells }),
        },
    }
}

impl TableInteriorPage {
    /// Reads the table interior page whose header starts at byte `ptr_offset` of
    /// `buffer`.
    #[verifier::loop_isolation(false)]
    pub fn parse(buffer: &[u8], ptr_offset: u16) -> (res: Result<Self, DbError>)
        ensures
            match table_interior_page(buffer@, ptr_offset as int) {
                Ok(page) => res is Ok && res->Ok_0@ == page,
                Err(e) => res == Err::<Self, DbError>(e),
            },
    {
        let len = buffer.len();
        let (header, pointers) = match read_layout(buffer, ptr_offset, PageType::TableInterior) {
            Ok(pair) => pair,
            Err(e) => {
                return Err(e);
            },
        };
        let ghost cell = |c: Seq<u8>| table_interior_cell(c);
        let mut cells: Vec<TableInteriorCell> = Vec::new();
        let mut i: usize = 0;
        while i < pointers.len()
            invariant
                i <= pointers@.len(),
                cells@.len() == i,
                page_cells(buffer@, pointers@, cell, i as nat) is Ok,
                cells@ == page_cells(
                    buffer@,
                    pointers@,
                    cell,
                    i as nat,
                )->Ok_0,
            decreases pointers@.len() - i,
        {
            let ptr = pointers[i] as usize;
            proof {
                lemma_page_cells_fail(buffer@, pointers@, cell, (i + 1) as nat, pointers@.len());
            }
            if ptr >= len {
                return Err(DbError::TruncatedPage { offset: ptr });
            }
            let parsed = match TableInteriorCell::parse(slice_subrange(buffer, ptr, len)) {
                Ok(parsed) => parsed,
                Err(e) => {
                    return Err(e.shifted(ptr));
                },
            };
            let ghost before = cells@;
            cells.push(parsed);
            proof {
                assert(cells@ =~= before.push(parsed));
            }
            i = i + 1;
        }
        Ok(TableInteriorPage { header, cells })
    }
}

/// A index leaf page: its header and its cells, in the order of the cell
/// pointers.
#[derive(Debug, Clone)]
pub struct IndexLeafPage {
    pub header: PageHeader,
    pub cells: Vec<IndexLeafCell>,
}

/// A index leaf page as a plain value.
pub ghost struct IndexLeafPageView {
    pub header: PageHeader,
    pub cells: Seq<IndexLeafCellView>,
}

impl View for IndexLeafPage {
    type V = IndexLeafPageView;

    open spec fn view(&self) -> IndexLeafPageView {
        IndexLeafPageView {
            header: self.header,
            cells: Seq::new(self.cells@.len(), |i: int| self.cells@[i]@),
        }
    }
}

/// The index leaf page whose header starts at byte `at` of `buffer`.
pub open spec fn index_leaf_page(buffer: Seq<u8>, at: int) -> Result<IndexLeafPageView, DbError> {
    match page_layout(buffer, at, PageType::IndexLeaf) {
        Err(e) => Err(e),
        Ok((header, pointers)) => match page_cells(
            buffer,
            pointers,
            |c: Seq<u8>| index_leaf_cell(c),
            pointers.len(),
        ) {
            Err(e) => Err(e),
            Ok(cells) => Ok(IndexLeafPageView { header, cells }),
        },
    }
}

impl IndexLeafPage {
    /// Reads the index leaf page whose header starts at byte `ptr_offset` of
    /// `buffer`.
    #[verifier::loop_isolation(false)]
    pub fn parse(buffer: &[u8], ptr_offset: u16) -> (res: Result<Self, DbError>)
        ensures
            match index_leaf_page(buffer@, ptr_offset as int) {
                Ok(page) => res is Ok && res->Ok_0@ == page,
                Err(e) => res == Err::<Self, DbError>(e),
            },
    {
        let len = buffer.len();
        let (header, pointers) = match read_layout(buffer, ptr_offset, PageType::IndexLeaf) {
            Ok(pair) => pair,
            Err(e) => {
                return Err(e);
            },
        };
        let ghost cell = |c: Seq<u8>| index_leaf_cell(c);
        let mut cells: Vec<IndexLeafCell> = Vec::new();
        let mut i: usize = 0;
        while i < pointers.len()
            invariant
                i <= pointers@.len(),
                cells@.len() == i,
                page_cells(buffer@, pointers@, cell, i as nat) is Ok,
                Seq::new(cells@.len(), |i: int| cells@[i]@) == page_cells(
                    buffer@,
                    pointers@,
                    cell,
                    i as nat,
                )->Ok_0,
            decreases pointers@.len() - i,
        {
            let ptr = pointers[i] as usize;
            proof {
                lemma_page_cells_fail(buffer@, pointers@, cell, (i + 1) as nat, pointers@.len());
            }
            if ptr >= len {
                return Err(DbError::TruncatedPage { offset: ptr });
            }
            let parsed = match IndexLeafCell::parse(slice_subrange(buffer, ptr, len)) {
                Ok(parsed) => parsed,
                Err(e) => {
                    return Err(e.shifted(ptr));
                },
            };
            let ghost before = Seq::new(cells@.len(), |i: int| cells@[i]@);
            cells.push(parsed);
            proof {
                assert(Seq::new(cells@.len(), |i: int| cells@[i]@) =~= before.push(parsed@));
            }
            i = i + 1;
        }
        Ok(IndexLeafPage { header, cells })
    }
}

/// A index interior page: its header and its cells, in the order of the cell
/// pointers.
#[derive(Debug, Clone)]
pub struct IndexInteriorPage {
    pub header: PageHeader,
    pub cells: Vec<IndexInteriorCell>,
}

/// A index interior page as a plain value.
pub ghost struct IndexInteriorPageView {
    pub header: PageHeader,
    pub cells: Seq<IndexInteriorCellView>,
}

impl View for IndexInteriorPage {
    type V = IndexInteriorPageView;

    open spec fn view(&self) -> IndexInteriorPageView {
        IndexInteriorPageView {
            header: self.header,
            cells: Seq::new(self.cells@.len(), |i: int| self.cells@[i]@),
        }
    }
}

/// The index interior page whose header starts at byte `at` of `buffer`.
pub open spec fn index_interior_page(buffer: Seq<u8>, at: int) -> Result<
    IndexInteriorPageView,
    DbError,
> {
    match page_layout(buffer, at, PageType::IndexInterior) {
        Err(e) => Err(e),
        Ok((header, pointers)) => match page_cells(
            buffer,
            pointers,
            |c: Seq<u8>| index_interior_cell(c),
            pointers.len(),
        ) {
            Err(e) => Err(e),
            Ok(cells) => Ok(IndexInteriorPageView { header, cells }),
        },
    }
}

impl IndexInteriorPage {
    /// Reads the index interior page whose header starts at byte `ptr_offset` of
    /// `buffer`.
    #[verifier::loop_isolation(false)]
    pub fn parse(buffer: &[u8], ptr_offset: u16) -> (res: Result<Self, DbError>)
        ensures
            match index_interior_page(buffer@, ptr_offset as int) {
                Ok(page) => res is Ok && res->Ok_0@ == page,
                Err(e) => res == Err::<Self, DbError>(e),
            },
    {
        let len = buffer.len();
        let (header, pointers) = match read_layout(buffer, ptr_offset, PageType::IndexInterior) {
            Ok(pair) => pair,
            Err(e) => {
                return Err(e);
            },
        };
        let ghost cell = |c: Seq<u8>| index_interior_cell(c);
        let mut cells: Vec<IndexInteriorCell> = Vec::new();
        let mut i: usize = 0;
        while i < pointers.len()
            invariant
                i <= pointers@.len(),
                cells@.len() == i,
                page_cells(buffer@, pointers@, cell, i as nat) is Ok,
                Seq::new(cells@.len(), |i: int| cells@[i]@) == page_cells(
                    buffer@,
                    pointers@,
                    cell,
                    i as nat,
                )->Ok_0,
            decreases pointers@.len() - i,
        {
            let ptr = pointers[i] as usize;
            proof {
                lemma_page_cells_fail(buffer@, pointers@, cell, (i + 1) as nat, pointers@.len());
            }
            if ptr >= len {
                return Err(DbError::TruncatedPage { offset: ptr });
            }
            let parsed = match IndexInteriorCell::parse(slice_subrange(buffer, ptr, len)) {
                Ok(parsed) => parsed,
                Err(e) => {
                    return Err(e.shifted(ptr));
                },
            };
            let ghost before = Seq::new(cells@.len(), |i: int| cells@[i]@);
            cells.push(parsed);
            proof {
                assert(Seq::new(cells@.len(), |i: int| cells@[i]@) =~= before.push(parsed@));
            }
            i = i + 1;
        }
        Ok(IndexInteriorPage { header, cells })
    }
}

/// A decoded B-tree page.
#[derive(Debug, Clone)]
pub enum Page {
    TableLeaf(TableLeafPage),
    TableInterior(TableInteriorPage),
    IndexLeaf(IndexLeafPage),
    IndexInterior(IndexInteriorPage),
}

/// A decoded B-tree page as a plain value.
pub ghost enum PageView {
    TableLeaf(TableLeafPageView),
    TableInterior(TableInteriorPageView),
    IndexLeaf(IndexLeafPageView),
    IndexInterior(IndexInteriorPageView),
}

impl View for Page {
    type V = PageView;

    open spec fn view(&self) -> PageView {
        match self {
            Page::TableLeaf(page) => PageView::TableLeaf(page@),
            Page::TableInterior(page) => PageView::TableInterior(page@),
            Page::IndexLeaf(page) => PageView::IndexLeaf(page@),
            Page::IndexInterior(page) => PageView::IndexInterior(page@),
        }
    }
}

impl PageView {
    /// The header of the page.
    pub open spec fn header(self) -> PageHeader {
        match self {
            PageView::TableLeaf(page) => page.header,
            PageView::TableInterior(page) => page.header,
            PageView::IndexLeaf(page) => page.header,
            PageView::IndexInterior(page) => page.header,
        }
    }
}

/// Where the page header starts on page number `page_num`: after the file
/// header on the first page, at the start of every other page.
pub open spec fn header_offset(page_num: int) -> int {
    if page_num == 1 {
        HEADER_SIZE as int
    } else {
        0
    }
}

/// The page that the bytes of page number `page_num` hold.
#[verifier::opaque]
pub open spec fn parse_page(buffer: Seq<u8>, page_num: int) -> Result<PageView, DbError> {
    let at = header_offset(page_num);
    match page_header(buffer, at) {
        Err(e) => Err(e),
        Ok(header) => match header.page_type {
            PageType::TableLeaf => match table_leaf_page(buffer, at) {
                Ok(page) => Ok(PageView::TableLeaf(page)),
                Err(e) => Err(e),
            },
            PageType::TableInterior => match table_interior_page(buffer, at) {
                Ok(page) => Ok(PageView::TableInterior(page)),
                Err(e) => Err(e),
            },
            PageType::IndexLeaf => match index_leaf_page(buffer, at) {
                Ok(page) => Ok(PageView::IndexLeaf(page)),
                Err(e) => Err(e),
            },
            PageType::IndexInterior => match index_interior_page(buffer, at) {
                Ok(page) => Ok(PageView::IndexInterior(page)),
                Err(e) => Err(e),
            },
        },
    }
}

impl Page {
    /// Decodes the bytes of page number `page_num`.
    pub fn parse(buffer: &[u8], page_num: usize) -> (res: Result<Self, DbError>)
        ensures
            match parse_page(buffer@, page_num as int) {
                Ok(page) => res is Ok && res->Ok_0@ == page,
                Err(e) => res == Err::<Self, DbError>(e),
            },
    {
        reveal(parse_page);
        let ptr_offset: u16 = if page_num == 1 {
            HEADER_SIZE as u16
        } else {
            0
        };
        let header = match PageHeader::parse(buffer, ptr_offset) {
            Ok(header) => header,
            Err(e) => {
                return Err(e);
            },
        };
        match header.page_type {
            PageType::TableLeaf => match TableLeafPage::parse(buffer, ptr_offset) {
                Ok(page) => Ok(Page::TableLeaf(page)),
                Err(e) => Err(e),
            },
            PageType::TableInterior => match TableInteriorPage::parse(buffer, ptr_offset) {
                Ok(page) => Ok(Page::TableInterior(page)),
                Err(e) => Err(e),
            },
            PageType::IndexLeaf => match IndexLeafPage::parse(buffer, ptr_offset) {
                Ok(page) => Ok(Page::IndexLeaf(page)),
                Err(e) => Err(e),
            },
            PageType::IndexInterior => match IndexInteriorPage::parse(buffer, ptr_offset) {
                Ok(page) => Ok(Page::IndexInterior(page)),
                Err(e) => Err(e),
            },
        }
    }

    /// The kind of the page.
    pub fn get_page_type(&self) -> (kind: &PageType)
        ensures
            *kind == self@.header().page_type,
    {
        match self {
            Page::TableLeaf(page) => page.header.get_page_type(),
            Page::TableInterior(page) => page.header.get_page_type(),
            Page::IndexLeaf(page) => page.header.get_page_type(),
            Page::IndexInterior(page) => page.header.get_page_type(),
        }
    }
}

/// Where `good` holds of every cell that can be read, it holds of all the
/// cells of a page.
pub proof fn lemma_page_cells_all<C>(
    buffer: Seq<u8>,
    pointers: Seq<u16>,
    cell: spec_fn(Seq<u8>) -> Result<C, DbError>,
    n: nat,
    good: spec_fn(C) -> bool,
)
    requires
        forall|c: Seq<u8>| (#[trigger] cell(c)) is Ok ==> good(cell(c)->Ok_0),
    ensures
        page_cells(buffer, pointers, cell, n) matches Ok(cells) ==> forall|i: int|
            0 <= i < cells.len() ==> good(#[trigger] cells[i]),
    decreases n,
{
    if n > 0 {
        lemma_page_cells_all(buffer, pointers, cell, (n - 1) as nat, good);
    }
}

/// Every integer in the entries of a decoded index page is one of 64 bits.
pub proof fn lemma_index_integers_fit(buffer: Seq<u8>, page_num: int)
    ensures
        parse_page(buffer, page_num) matches Ok(PageView::IndexLeaf(page)) ==> forall|i: int|
            0 <= i < page.cells.len() ==> integers_fit((#[trigger] page.cells[i]).record.values),
        parse_page(buffer, page_num) matches Ok(PageView::IndexInterior(page)) ==> forall|i: int|
            0 <= i < page.cells.len() ==> integers_fit((#[trigger] page.cells[i]).record.values),
{
    reveal(parse_page);
    let at = header_offset(page_num);
    assert forall|c: Seq<u8>| (#[trigger] index_leaf_cell(c)) is Ok implies integers_fit(
        index_leaf_cell(c)->Ok_0.record.values,
    ) by {
        let (n, size) = varint_decode(c)->Some_0;
        lemma_decoded_integers_fit(c.subrange(n as int, (n + size) as int));
    }
    if page_layout(buffer, at, PageType::IndexLeaf) is Ok {
        let pointers = page_layout(buffer, at, PageType::IndexLeaf)->Ok_0.1;
        lemma_page_cells_all(
            buffer,
            pointers,
            |c: Seq<u8>| index_leaf_cell(c),
            pointers.len(),
            |cell: IndexLeafCellView| integers_fit(cell.record.values),
        );
    }
    if page_layout(buffer, at, PageType::IndexInterior) is Ok {
        let pointers = page_layout(buffer, at, PageType::IndexInterior)->Ok_0.1;
        assert forall|c: Seq<u8>| (#[trigger] index_interior_cell(c)) is Ok implies integers_fit(
            index_interior_cell(c)->Ok_0.record.values,
        ) by {
            assert(index_leaf_cell(c.subrange(4, c.len() as int)) is Ok);
        }
        lemma_page_cells_all(
            buffer,
            pointers,
            |c: Seq<u8>| index_interior_cell(c),
            pointers.len(),
            |cell: IndexInteriorCellView| integers_fit(cell.record.values),
        );
    }
}

/// A decoded table leaf page has as many cells as its header says.
pub proof fn lemma_table_leaf_count(buffer: Seq<u8>, page_num: int)
    ensures
        parse_page(buffer, page_num) matches Ok(PageView::TableLeaf(page)) ==> page.cells.len()
            == page.header.cell_count,
{
    reveal(parse_page);
    let at = header_offset(page_num);
    if page_layout(buffer, at, PageType::TableLeaf) is Ok {
        let pointers = page_layout(buffer, at, PageType::TableLeaf)->Ok_0.1;
        lemma_page_cells_fail(
            buffer,
            pointers,
            |c: Seq<u8>| table_leaf_cell(c),
            pointers.len(),
            pointers.len(),
        );
    }
}

} // verus!
