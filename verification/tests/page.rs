use sqlite_reader::error::DbError;
use sqlite_reader::page::{
    parse_cell_pointers, IndexInteriorCell, IndexInteriorPage, IndexLeafCell, IndexLeafPage,
    Page, PageHeader, PageType, TableInteriorCell, TableInteriorPage, TableLeafCell,
    TableLeafPage,
};
use sqlite_reader::record::Value;

const SIZE: usize = 64;

fn blank(tag: u8, count: u16, at: usize) -> Vec<u8> {
    let mut page = vec![0u8; SIZE + at];
    page[at] = tag;
    page[at + 3..at + 5].copy_from_slice(&count.to_be_bytes());
    page
}

/// A table leaf page with the rows (1, 'a') and (2, 'b').
fn leaf() -> Vec<u8> {
    let mut page = blank(0x0d, 2, 0);
    page[5..7].copy_from_slice(&54u16.to_be_bytes());
    page[8..10].copy_from_slice(&59u16.to_be_bytes());
    page[10..12].copy_from_slice(&54u16.to_be_bytes());
    page[59..64].copy_from_slice(&[3, 1, 2, 15, b'a']);
    page[54..59].copy_from_slice(&[3, 2, 2, 15, b'b']);
    page
}

#[test]
fn header_of_a_leaf_page() {
    let header = PageHeader::parse(&leaf(), 0).unwrap();
    assert_eq!(*header.get_page_type(), PageType::TableLeaf);
    assert_eq!(header.get_cell_count(), 2);
    assert_eq!(header.cell_content_offset, 54);
    assert_eq!(header.first_freeblock, 0);
    assert_eq!(header.fragmented_bytes_count, 0);
    assert_eq!(header.get_right_most_point(), 0);
}

#[test]
fn header_of_an_interior_page() {
    let mut page = blank(0x05, 0, 0);
    page[1..3].copy_from_slice(&7u16.to_be_bytes());
    page[7] = 3;
    page[8..12].copy_from_slice(&0x0102_0304u32.to_be_bytes());
    let header = PageHeader::parse(&page, 0).unwrap();
    assert_eq!(header.page_type, PageType::TableInterior);
    assert_eq!(header.first_freeblock, 7);
    assert_eq!(header.fragmented_bytes_count, 3);
    assert_eq!(header.right_most_point, 0x0102_0304);
    assert_eq!(PageHeader::parse(&blank(0x02, 0, 0), 0).unwrap().page_type, PageType::IndexInterior);
    assert_eq!(PageHeader::parse(&blank(0x0a, 0, 0), 0).unwrap().page_type, PageType::IndexLeaf);
}

#[test]
fn content_start_of_zero_means_65536() {
    let header = PageHeader::parse(&blank(0x0d, 0, 0), 0).unwrap();
    assert_eq!(header.cell_content_offset, 65536);
}

#[test]
fn first_page_has_its_header_after_the_file_header() {
    let mut page = blank(0x0d, 1, 100);
    page[108..110].copy_from_slice(&159u16.to_be_bytes());
    page[159..164].copy_from_slice(&[3, 9, 2, 15, b'z']);
    match Page::parse(&page, 1).unwrap() {
        Page::TableLeaf(leaf) => {
            assert_eq!(leaf.cells.len(), 1);
            assert_eq!(leaf.cells[0].row_id, 9);
        }
        other => panic!("unexpected {:?}", other),
    }
    // Read as another page, the same bytes start with the file header.
    assert_eq!(Page::parse(&page, 2).err(), Some(DbError::UnknownPageType { offset: 0 }));
}

#[test]
fn unknown_tag_is_reported() {
    for tag in [0x00u8, 0x01, 0x03, 0x0b, 0x0e, 0xff] {
        assert_eq!(
            PageHeader::parse(&blank(tag, 0, 0), 0),
            Err(DbError::UnknownPageType { offset: 0 })
        );
        assert_eq!(
            Page::parse(&blank(tag, 0, 0), 2).err(),
            Some(DbError::UnknownPageType { offset: 0 })
        );
        assert_eq!(
            Page::parse(&blank(tag, 0, 100), 1).err(),
            Some(DbError::UnknownPageType { offset: 100 })
        );
    }
}

#[test]
fn header_beyond_the_page_is_truncated() {
    assert_eq!(PageHeader::parse(&[], 0), Err(DbError::TruncatedPage { offset: 0 }));
    assert_eq!(PageHeader::parse(&[0x0d, 0, 0], 0), Err(DbError::TruncatedPage { offset: 0 }));
    assert_eq!(PageHeader::parse(&[0x05; 11], 0), Err(DbError::TruncatedPage { offset: 0 }));
    assert_eq!(PageHeader::parse(&leaf(), 64), Err(DbError::TruncatedPage { offset: 64 }));
    assert_eq!(Page::parse(&[0u8; 50], 1).err(), Some(DbError::TruncatedPage { offset: 100 }));
}

#[test]
fn table_leaf_page_is_decoded() {
    let page = TableLeafPage::parse(&leaf(), 0).unwrap();
    assert_eq!(page.cells.len(), 2);
    assert_eq!(page.cells[0].row_id, 1);
    assert_eq!(page.cells[0].size, 3);
    assert_eq!(page.cells[0].record.body[0].value, Value::String("a".to_string()));
    assert_eq!(page.cells[1].row_id, 2);
    assert_eq!(page.cells[1].record.body[0].value, Value::String("b".to_string()));
    assert!(matches!(Page::parse(&leaf(), 2), Ok(Page::TableLeaf(_))));
    assert_eq!(*Page::parse(&leaf(), 2).unwrap().get_page_type(), PageType::TableLeaf);
}

#[test]
fn page_of_another_kind_is_refused() {
    let refused = Some(DbError::UnknownPageType { offset: 0 });
    assert_eq!(TableInteriorPage::parse(&leaf(), 0).err(), refused);
    assert_eq!(IndexLeafPage::parse(&leaf(), 0).err(), refused);
    assert_eq!(IndexInteriorPage::parse(&leaf(), 0).err(), refused);
}

#[test]
fn cell_pointer_beyond_the_page_is_truncated() {
    let mut page = leaf();
    page[10..12].copy_from_slice(&64u16.to_be_bytes());
    assert_eq!(TableLeafPage::parse(&page, 0).err(), Some(DbError::TruncatedPage { offset: 64 }));
    page[10..12].copy_from_slice(&1000u16.to_be_bytes());
    assert_eq!(Page::parse(&page, 2).err(), Some(DbError::TruncatedPage { offset: 1000 }));
}

#[test]
fn pointer_array_beyond_the_page_is_truncated() {
    let page = blank(0x0d, 40, 0);
    assert_eq!(TableLeafPage::parse(&page, 0).err(), Some(DbError::TruncatedPage { offset: 8 }));
}

#[test]
fn payload_beyond_the_page_is_truncated() {
    let mut page = leaf();
    page[59] = 6;
    assert_eq!(TableLeafPage::parse(&page, 0).err(), Some(DbError::TruncatedPage { offset: 61 }));
}

#[test]
fn varint_cut_short_by_the_end_of_the_page() {
    let mut page = leaf();
    page[8..10].copy_from_slice(&63u16.to_be_bytes());
    page[63] = 0x81;
    assert_eq!(
        TableLeafPage::parse(&page, 0).err(),
        Some(DbError::MalformedVarint { offset: 63 })
    );
}

#[test]
fn first_failing_cell_decides_the_error() {
    let mut page = leaf();
    // The first cell holds a record that is too short; the second points
    // beyond the page.
    page[59..64].copy_from_slice(&[3, 1, 4, 15, b'a']);
    page[10..12].copy_from_slice(&900u16.to_be_bytes());
    assert_eq!(
        TableLeafPage::parse(&page, 0).err(),
        Some(DbError::MalformedRecord { offset: 61 })
    );
}

#[test]
fn cell_pointers_are_big_endian_words() {
    assert_eq!(parse_cell_pointers(&[0x01, 0x02, 0xff, 0xfe, 0x00], 2), vec![0x0102, 0xfffe]);
    assert_eq!(parse_cell_pointers(&[], 0), Vec::<u16>::new());
}

#[test]
fn table_leaf_cell() {
    let cell = TableLeafCell::parse(&[3, 0x81, 0x00, 2, 15, b'q', 0xee]).unwrap();
    assert_eq!(cell.size, 3);
    assert_eq!(cell.row_id, 128);
    assert_eq!(cell.record.body[0].value, Value::String("q".to_string()));
    assert_eq!(TableLeafCell::parse(&[3, 1, 2]).err(), Some(DbError::TruncatedPage { offset: 2 }));
    assert_eq!(TableLeafCell::parse(&[3]).err(), Some(DbError::MalformedVarint { offset: 1 }));
    assert_eq!(TableLeafCell::parse(&[]).err(), Some(DbError::MalformedVarint { offset: 0 }));
    assert_eq!(
        TableLeafCell::parse(&[2, 1, 2, 15]).err(),
        Some(DbError::MalformedRecord { offset: 4 })
    );
}

#[test]
fn row_with_a_leading_null_shows_its_row_id() {
    let cell = TableLeafCell::parse(&[3, 77, 3, 0, 0]).unwrap();
    assert_eq!(cell.record.body[0].value, Value::I64(77));
    assert_eq!(cell.record.body[1].value, Value::Null);
}

#[test]
fn table_interior_cell() {
    assert_eq!(
        TableInteriorCell::parse(&[0, 0, 1, 2, 0x82, 0x2c, 9]),
        Ok(TableInteriorCell { row_id: 300, left_child: 258 })
    );
    assert_eq!(TableInteriorCell::parse(&[0, 0, 1]), Err(DbError::TruncatedPage { offset: 0 }));
    assert_eq!(
        TableInteriorCell::parse(&[0, 0, 1, 2]),
        Err(DbError::MalformedVarint { offset: 4 })
    );
}

#[test]
fn table_interior_page() {
    let mut page = blank(0x05, 2, 0);
    page[8..12].copy_from_slice(&9u32.to_be_bytes());
    page[12..14].copy_from_slice(&59u16.to_be_bytes());
    page[14..16].copy_from_slice(&54u16.to_be_bytes());
    page[59..64].copy_from_slice(&[0, 0, 0, 4, 10]);
    page[54..59].copy_from_slice(&[0, 0, 0, 5, 20]);
    let interior = TableInteriorPage::parse(&page, 0).unwrap();
    assert_eq!(
        interior.cells,
        vec![
            TableInteriorCell { row_id: 10, left_child: 4 },
            TableInteriorCell { row_id: 20, left_child: 5 }
        ]
    );
    assert_eq!(interior.header.get_right_most_point(), 9);
    assert!(matches!(Page::parse(&page, 3), Ok(Page::TableInterior(_))));
}

#[test]
fn index_cells_keep_nulls() {
    let leaf = IndexLeafCell::parse(&[4, 3, 0, 1, 0x05, 0xcc]).unwrap();
    assert_eq!(leaf.size, 4);
    assert_eq!(leaf.record.body[0].value, Value::Null);
    assert_eq!(leaf.record.body[1].value, Value::I64(5));
    let interior = IndexInteriorCell::parse(&[0, 0, 0, 7, 5, 3, 15, 1, b'k', 3]).unwrap();
    assert_eq!(interior.left_child, 7);
    assert_eq!(interior.size, 5);
    assert_eq!(interior.record.body[0].value, Value::String("k".to_string()));
    assert_eq!(interior.record.body[1].value, Value::I64(3));
    assert_eq!(
        IndexLeafCell::parse(&[9, 3, 0, 1, 5]).err(),
        Some(DbError::TruncatedPage { offset: 1 })
    );
    assert_eq!(
        IndexInteriorCell::parse(&[0, 0, 7]).err(),
        Some(DbError::TruncatedPage { offset: 0 })
    );
    assert_eq!(
        IndexInteriorCell::parse(&[0, 0, 0, 7, 9, 1]).err(),
        Some(DbError::TruncatedPage { offset: 5 })
    );
    assert_eq!(
        IndexInteriorCell::parse(&[0, 0, 0, 7, 2, 2, 15]).err(),
        Some(DbError::MalformedRecord { offset: 7 })
    );
}

#[test]
fn index_pages() {
    let mut leaf = blank(0x0a, 1, 0);
    leaf[8..10].copy_from_slice(&58u16.to_be_bytes());
    leaf[58..64].copy_from_slice(&[5, 3, 15, 1, b'k', 3]);
    let page = IndexLeafPage::parse(&leaf, 0).unwrap();
    assert_eq!(page.cells.len(), 1);
    assert_eq!(page.cells[0].record.body[1].value, Value::I64(3));
    assert!(matches!(Page::parse(&leaf, 2), Ok(Page::IndexLeaf(_))));
    let mut interior = blank(0x02, 1, 0);
    interior[8..12].copy_from_slice(&6u32.to_be_bytes());
    interior[12..14].copy_from_slice(&54u16.to_be_bytes());
    interior[54..64].copy_from_slice(&[0, 0, 0, 7, 5, 3, 15, 1, b'k', 3]);
    let page = IndexInteriorPage::parse(&interior, 0).unwrap();
    assert_eq!(page.cells.len(), 1);
    assert_eq!(page.cells[0].left_child, 7);
    assert_eq!(page.header.right_most_point, 6);
    assert!(matches!(Page::parse(&interior, 2), Ok(Page::IndexInterior(_))));
}
