use sqlite_reader::btree::get_row_ids;
use sqlite_reader::db::{Db, DbHeader, Pager, QueryError};
use sqlite_reader::error::DbError;
use sqlite_reader::output::{join_texts, render_row};
use sqlite_reader::page::Page;
use sqlite_reader::plan::Row;
use sqlite_reader::record::Value;
use sqlite_reader::utils::write_varint;

const PAGE_SIZE: usize = 512;

fn text(s: &str) -> Value {
    Value::String(s.to_string())
}

/// A record that holds the values, each under the shortest serial type.
fn record(values: &[Value]) -> Vec<u8> {
    let mut types: Vec<u8> = Vec::new();
    let mut body: Vec<u8> = Vec::new();
    for value in values {
        match value {
            Value::Null => types.extend(write_varint(0)),
            Value::I64(0) => types.extend(write_varint(8)),
            Value::I64(1) => types.extend(write_varint(9)),
            Value::I64(n) if -128 <= *n && *n <= 127 => {
                types.extend(write_varint(1));
                body.push(*n as u8);
            }
            Value::I64(n) if -32768 <= *n && *n <= 32767 => {
                types.extend(write_varint(2));
                body.extend((*n as i16).to_be_bytes());
            }
            Value::I64(n) => {
                types.extend(write_varint(6));
                body.extend(n.to_be_bytes());
            }
            Value::Float(bits) => {
                types.extend(write_varint(7));
                body.extend(bits.to_be_bytes());
            }
            Value::String(s) => {
                types.extend(write_varint(13 + 2 * s.len() as u64));
                body.extend(s.as_bytes());
            }
            Value::Blob(b) => {
                types.extend(write_varint(12 + 2 * b.len() as u64));
                body.extend(b);
            }
        }
    }
    let mut out = write_varint(types.len() as u64 + 1);
    out.extend(types);
    out.extend(body);
    out
}

/// A page of `size` bytes with the cells laid out from its end downward.
fn page_of(size: usize, tag: u8, right: Option<u32>, cells: &[Vec<u8>], first: bool) -> Vec<u8> {
    let mut bytes = vec![0u8; size];
    let at = if first { 100 } else { 0 };
    let header = if right.is_some() { 12 } else { 8 };
    let mut end = size;
    let mut pointers: Vec<u16> = Vec::new();
    for cell in cells {
        end -= cell.len();
        bytes[end..end + cell.len()].copy_from_slice(cell);
        pointers.push(end as u16);
    }
    bytes[at] = tag;
    bytes[at + 3..at + 5].copy_from_slice(&(cells.len() as u16).to_be_bytes());
    // The start of the cell content; 65536 is written as 0.
    bytes[at + 5..at + 7].copy_from_slice(&(end as u16).to_be_bytes());
    if let Some(right) = right {
        bytes[at + 8..at + 12].copy_from_slice(&right.to_be_bytes());
    }
    for (i, pointer) in pointers.iter().enumerate() {
        let p = at + header + 2 * i;
        bytes[p..p + 2].copy_from_slice(&pointer.to_be_bytes());
    }
    assert!(at + header + 2 * cells.len() <= end);
    bytes
}

fn page(tag: u8, right: Option<u32>, cells: &[Vec<u8>], first: bool) -> Vec<u8> {
    page_of(PAGE_SIZE, tag, right, cells, first)
}

fn row_cell(row_id: u64, values: &[Value]) -> Vec<u8> {
    let payload = record(values);
    let mut cell = write_varint(payload.len() as u64);
    cell.extend(write_varint(row_id));
    cell.extend(payload);
    cell
}

fn table_leaf(rows: &[(u64, Vec<Value>)], first: bool) -> Vec<u8> {
    let cells: Vec<Vec<u8>> =
        rows.iter().map(|(row_id, values)| row_cell(*row_id, values)).collect();
    page(0x0d, None, &cells, first)
}

fn table_interior(children: &[(u32, u64)], right: u32) -> Vec<u8> {
    let cells: Vec<Vec<u8>> = children
        .iter()
        .map(|(left, key)| {
            let mut cell = left.to_be_bytes().to_vec();
            cell.extend(write_varint(*key));
            cell
        })
        .collect();
    page(0x05, Some(right), &cells, false)
}

fn index_leaf(entries: &[(&str, i64)]) -> Vec<u8> {
    let cells: Vec<Vec<u8>> = entries
        .iter()
        .map(|(key, row_id)| {
            let payload = record(&[text(key), Value::I64(*row_id)]);
            let mut cell = write_varint(payload.len() as u64);
            cell.extend(payload);
            cell
        })
        .collect();
    page(0x0a, None, &cells, false)
}

fn index_interior(children: &[(u32, &str, i64)], right: u32) -> Vec<u8> {
    let cells: Vec<Vec<u8>> = children
        .iter()
        .map(|(left, key, row_id)| {
            let payload = record(&[text(key), Value::I64(*row_id)]);
            let mut cell = left.to_be_bytes().to_vec();
            cell.extend(write_varint(payload.len() as u64));
            cell.extend(payload);
            cell
        })
        .collect();
    page(0x02, Some(right), &cells, false)
}

fn schema_row(kind: &str, name: &str, table: &str, root: i64, sql: &str) -> Vec<Value> {
    vec![text(kind), text(name), text(table), Value::I64(root), text(sql)]
}

/// A file made of the pages, with the file header over the start of the
/// first.
fn file(pages: Vec<Vec<u8>>) -> Vec<u8> {
    let mut bytes: Vec<u8> = Vec::new();
    for page in pages {
        assert_eq!(page.len(), PAGE_SIZE);
        bytes.extend(page);
    }
    bytes[..16].copy_from_slice(b"SQLite format 3\0");
    bytes[16..18].copy_from_slice(&(PAGE_SIZE as u16).to_be_bytes());
    bytes
}

fn apple(name: &str, color: &str) -> Vec<Value> {
    vec![Value::Null, text(name), text(color)]
}

/// Three tables; `apples` (page 2) has four rows.
fn fruit_db() -> Vec<u8> {
    let schema = table_leaf(
        &[
            (
                1,
                schema_row(
                    "table",
                    "apples",
                    "apples",
                    2,
                    "CREATE TABLE apples\n(\n\tid integer primary key autoincrement,\n\tname text,\n\tcolor text\n)",
                ),
            ),
            (
                2,
                schema_row(
                    "table",
                    "sqlite_sequence",
                    "sqlite_sequence",
                    3,
                    "CREATE TABLE sqlite_sequence(name,seq)",
                ),
            ),
            (
                3,
                schema_row(
                    "table",
                    "oranges",
                    "oranges",
                    4,
                    "CREATE TABLE oranges\n(\n\tid integer primary key autoincrement,\n\tname text,\n\tdescription text\n)",
                ),
            ),
        ],
        true,
    );
    let apples = table_leaf(
        &[
            (1, apple("Granny Smith", "Light Green")),
            (2, apple("Fuji", "Red")),
            (3, apple("Honeycrisp", "Blush Red")),
            (4, apple("Golden Delicious", "Yellow")),
        ],
        false,
    );
    let sequence = table_leaf(&[(1, vec![text("apples"), Value::I64(4)])], false);
    let oranges = table_leaf(&[], false);
    file(vec![schema, apples, sequence, oranges])
}

const COUNTRIES: [&str; 16] = [
    "chad", "france", "ghana", "india", "japan", "kenya", "laos", "mali", "nepal", "oman", "peru",
    "qatar", "spain", "togo", "eritrea", "eritrea",
];

/// A table `companies` of sixteen rows on eight leaf pages below an
/// interior page (page 2), with an index on `country` (page 3).
fn company_db() -> Vec<u8> {
    let schema = table_leaf(
        &[
            (
                1,
                schema_row(
                    "table",
                    "companies",
                    "companies",
                    2,
                    "CREATE TABLE companies\n(\n\tid integer primary key autoincrement\n, name text, country text)",
                ),
            ),
            (
                2,
                schema_row(
                    "index",
                    "idx_companies_country",
                    "companies",
                    3,
                    "CREATE INDEX idx_companies_country\n\ton companies (country)",
                ),
            ),
        ],
        true,
    );
    let mut pages = vec![schema, Vec::new(), Vec::new()];
    // Table leaves on pages 4 to 11, two rows each.
    let mut children: Vec<(u32, u64)> = Vec::new();
    for leaf in 0..8u64 {
        let rows: Vec<(u64, Vec<Value>)> = (0..2u64)
            .map(|k| {
                let id = 2 * leaf + k + 1;
                (
                    id,
                    vec![
                        Value::Null,
                        text(&format!("company {}", id)),
                        text(COUNTRIES[(id - 1) as usize]),
                    ],
                )
            })
            .collect();
        pages.push(table_leaf(&rows, false));
        if leaf < 7 {
            children.push((4 + leaf as u32, 2 * leaf + 2));
        }
    }
    pages[1] = table_interior(&children, 11);
    // Index entries in the order of (country, row id).
    let mut entries: Vec<(&str, i64)> =
        COUNTRIES.iter().enumerate().map(|(i, c)| (*c, i as i64 + 1)).collect();
    entries.sort();
    // Leaves on pages 12 to 14; the entries between them stand in the root.
    pages.push(index_leaf(&entries[0..5]));
    pages.push(index_leaf(&entries[6..11]));
    pages.push(index_leaf(&entries[12..16]));
    pages[2] = index_interior(
        &[(12, entries[5].0, entries[5].1), (13, entries[11].0, entries[11].1)],
        14,
    );
    file(pages)
}

fn lines(results: &Vec<Vec<Row>>) -> Vec<String> {
    let mut out = Vec::new();
    for rows in results {
        for row in rows {
            let doubles: Vec<String> = row.values.iter().map(|_| String::new()).collect();
            out.push(String::from_utf8(render_row(&row.values, &doubles)).unwrap());
        }
    }
    out
}

fn run(file: Vec<u8>, sql: &str) -> Vec<String> {
    let mut db = Db::from_bytes(file).unwrap();
    lines(&db.execute_sql(sql).unwrap())
}

fn engine_error(file: Vec<u8>, sql: &str) -> DbError {
    let mut db = Db::from_bytes(file).unwrap();
    match db.execute_sql(sql) {
        Err(QueryError::Engine(e)) => e,
        other => panic!("expected an engine error, got {:?}", other),
    }
}

#[test]
fn dbinfo_page_size_and_table_count() {
    let mut bytes = Vec::new();
    for _ in 0..8 {
        bytes.extend(fruit_db());
    }
    // The same schema page in a file of 4096-byte pages.
    bytes.truncate(4096);
    let schema = fruit_db();
    bytes[..PAGE_SIZE].copy_from_slice(&schema[..PAGE_SIZE]);
    bytes[16..18].copy_from_slice(&4096u16.to_be_bytes());
    // Cells of the 512-byte page are reached through their pointers, which
    // still point into the first 512 bytes.
    let mut db = Db::from_bytes(bytes).unwrap();
    assert_eq!(db.header.page_size, 4096);
    assert_eq!(db.table_count(), Ok(3));
    let page_size = db.header.page_size;
    let tables = db.table_count().unwrap();
    assert_eq!(
        format!("database page size: {}\nnumber of tables: {}", page_size, tables),
        "database page size: 4096\nnumber of tables: 3"
    );
}

#[test]
fn tables_are_listed_in_ascending_order() {
    let mut db = Db::from_bytes(fruit_db()).unwrap();
    let names = db.table_names().unwrap();
    assert_eq!(join_texts(&names, " "), "apples oranges sqlite_sequence");
}

#[test]
fn count_star_counts_the_rows() {
    assert_eq!(run(fruit_db(), "SELECT COUNT(*) FROM apples"), vec!["4"]);
}

#[test]
fn count_is_case_insensitive() {
    assert_eq!(run(fruit_db(), "select count(*) from APPLES"), vec!["4"]);
}

#[test]
fn count_column_skips_nulls() {
    let schema = table_leaf(
        &[(1, schema_row("table", "t", "t", 2, "CREATE TABLE t (a text, b text)"))],
        true,
    );
    let rows = table_leaf(
        &[
            (1, vec![text("x"), Value::Null]),
            (2, vec![text("y"), text("z")]),
            (3, vec![text("w")]),
        ],
        false,
    );
    let bytes = file(vec![schema, rows]);
    assert_eq!(run(bytes.clone(), "SELECT COUNT(b) FROM t"), vec!["1"]);
    assert_eq!(run(bytes.clone(), "SELECT COUNT(a) FROM t"), vec!["3"]);
    assert_eq!(engine_error(bytes, "SELECT COUNT(c) FROM t"), DbError::UnknownColumn);
}

#[test]
fn select_two_columns() {
    assert_eq!(
        run(fruit_db(), "SELECT name, color FROM apples"),
        vec![
            "Granny Smith|Light Green",
            "Fuji|Red",
            "Honeycrisp|Blush Red",
            "Golden Delicious|Yellow"
        ]
    );
}

#[test]
fn select_with_equality() {
    assert_eq!(
        run(fruit_db(), "SELECT id, name FROM apples WHERE color = 'Yellow'"),
        vec!["4|Golden Delicious"]
    );
}

#[test]
fn select_with_orderings() {
    assert_eq!(run(fruit_db(), "SELECT name FROM apples WHERE id < 2"), vec!["Granny Smith"]);
    assert_eq!(
        run(fruit_db(), "SELECT name FROM apples WHERE id <= 2"),
        vec!["Granny Smith", "Fuji"]
    );
    assert_eq!(run(fruit_db(), "SELECT id FROM apples WHERE id > 3"), vec!["4"]);
    assert_eq!(run(fruit_db(), "SELECT id FROM apples WHERE id >= 3"), vec!["3", "4"]);
    assert_eq!(
        run(fruit_db(), "SELECT id FROM apples WHERE color != 'Red'"),
        vec!["1", "3", "4"]
    );
}

#[test]
fn ordering_on_text_that_is_no_number_keeps_no_row() {
    assert_eq!(run(fruit_db(), "SELECT id FROM apples WHERE name < 5"), Vec::<String>::new());
    assert_eq!(run(fruit_db(), "SELECT id FROM apples WHERE id < 'x'"), Vec::<String>::new());
}

#[test]
fn unknown_column_in_select_list_shows_null() {
    assert_eq!(run(fruit_db(), "SELECT id, taste FROM apples WHERE id = 1"), vec!["1|NULL"]);
}

#[test]
fn short_record_is_padded_with_null() {
    let schema = table_leaf(
        &[(1, schema_row("table", "t", "t", 2, "CREATE TABLE t (a text, b text)"))],
        true,
    );
    let rows = table_leaf(&[(7, vec![text("only")])], false);
    assert_eq!(run(file(vec![schema, rows]), "SELECT a, b FROM t"), vec!["only|NULL"]);
}

#[test]
fn count_in_a_filtered_statement_counts_the_rows_kept_on_the_page() {
    assert_eq!(run(fruit_db(), "SELECT COUNT(*) FROM apples WHERE color = 'Red'"), vec!["1"]);
    assert_eq!(run(fruit_db(), "SELECT name, COUNT(*) FROM apples WHERE id > 1"), vec!["Fuji|3"]);
    assert_eq!(
        run(fruit_db(), "SELECT COUNT(*) FROM apples WHERE color = 'Blue'"),
        Vec::<String>::new()
    );
}

#[test]
fn scan_of_a_deep_table_yields_every_row_once() {
    let mut db = Db::from_bytes(company_db()).unwrap();
    let results = db.execute_sql("SELECT id, country FROM companies").unwrap();
    let ids: Vec<u64> = results[0].iter().map(|row| row.row_id).collect();
    assert_eq!(ids, (1..=16).collect::<Vec<u64>>());
    assert_eq!(lines(&results)[14], "15|eritrea");
}

#[test]
fn count_equals_number_of_scanned_rows() {
    let mut db = Db::from_bytes(company_db()).unwrap();
    let scanned = db.execute_sql("SELECT id FROM companies").unwrap();
    let counted = db.execute_sql("SELECT COUNT(*) FROM companies").unwrap();
    assert_eq!(counted[0][0].values, vec![Value::I64(scanned[0].len() as i64)]);
    assert_eq!(scanned[0].len(), 16);
}

#[test]
fn index_lookup_agrees_with_full_scan_and_reads_fewer_pages() {
    let mut indexed = Db::from_bytes(company_db()).unwrap();
    let by_index =
        indexed.execute_sql("SELECT id, name FROM companies WHERE country = 'eritrea'").unwrap();
    // Without the index row in the schema table the engine tries every row.
    let mut bytes = company_db();
    let schema = table_leaf(
        &[(
            1,
            schema_row(
                "table",
                "companies",
                "companies",
                2,
                "CREATE TABLE companies\n(\n\tid integer primary key autoincrement\n, name text, country text)",
            ),
        )],
        true,
    );
    bytes[..PAGE_SIZE].copy_from_slice(&schema);
    bytes[..16].copy_from_slice(b"SQLite format 3\0");
    bytes[16..18].copy_from_slice(&(PAGE_SIZE as u16).to_be_bytes());
    let mut scanned = Db::from_bytes(bytes).unwrap();
    let by_scan =
        scanned.execute_sql("SELECT id, name FROM companies WHERE country = 'eritrea'").unwrap();
    assert_eq!(by_index, by_scan);
    assert_eq!(lines(&by_index), vec!["15|company 15", "16|company 16"]);
    assert!(indexed.pager.cached_pages() < scanned.pager.cached_pages());
    assert_eq!(scanned.pager.cached_pages(), 10);
}

#[test]
fn index_lookup_finds_keys_that_stand_in_interior_cells() {
    assert_eq!(run(company_db(), "SELECT id FROM companies WHERE country = 'kenya'"), vec!["6"]);
    assert_eq!(run(company_db(), "SELECT id FROM companies WHERE country = 'qatar'"), vec!["12"]);
    assert_eq!(
        run(company_db(), "SELECT id FROM companies WHERE country = 'nowhere'"),
        Vec::<String>::new()
    );
}

#[test]
fn reading_a_page_twice_gives_the_same_page() {
    let mut pager = Pager::new(fruit_db(), PAGE_SIZE);
    let first = format!("{:?}", pager.read_page(2).unwrap());
    assert_eq!(pager.cached_pages(), 1);
    let second = format!("{:?}", pager.read_page(2).unwrap());
    assert_eq!(first, second);
    assert_eq!(pager.cached_pages(), 1);
    let fresh = format!("{:?}", pager.load_page(2).unwrap());
    assert_eq!(first, fresh);
}

#[test]
fn page_beyond_the_file_cannot_be_read() {
    let mut pager = Pager::new(fruit_db(), PAGE_SIZE);
    assert_eq!(pager.read_page(5).err(), Some(DbError::Io));
    assert_eq!(pager.read_page(0).err(), Some(DbError::Io));
    assert_eq!(pager.cached_pages(), 0);
    assert_eq!(pager.page_count(), 4);
    assert!(matches!(pager.read_page(4), Ok(Page::TableLeaf(_))));
}

#[test]
fn header_is_checked() {
    let good = fruit_db();
    assert_eq!(DbHeader::parse(&good[..100]), Ok(DbHeader { page_size: 512 }));
    let mut bad_magic = good.clone();
    bad_magic[0] = b's';
    assert_eq!(DbHeader::parse(&bad_magic[..100]), Err(DbError::InvalidHeader));
    let mut bad_size = good.clone();
    bad_size[16..18].copy_from_slice(&3u16.to_be_bytes());
    assert_eq!(DbHeader::parse(&bad_size[..100]), Err(DbError::InvalidHeader));
    let mut largest = good.clone();
    largest[16..18].copy_from_slice(&1u16.to_be_bytes());
    assert_eq!(DbHeader::parse(&largest[..100]), Ok(DbHeader { page_size: 65536 }));
    assert_eq!(DbHeader::parse(&good[..17]), Err(DbError::InvalidHeader));
    assert!(matches!(Db::from_bytes(good[..99].to_vec()), Err(DbError::Io)));
    assert!(matches!(Db::from_bytes(bad_magic), Err(DbError::InvalidHeader)));
}

#[test]
fn unknown_table_is_reported() {
    assert_eq!(engine_error(fruit_db(), "SELECT id FROM pears"), DbError::UnknownTable);
}

#[test]
fn unknown_column_in_condition_is_reported() {
    assert_eq!(
        engine_error(fruit_db(), "SELECT id FROM apples WHERE taste = 'sour'"),
        DbError::UnknownColumn
    );
}

#[test]
fn unsupported_statements_are_reported() {
    assert_eq!(engine_error(fruit_db(), "SELECT * FROM apples"), DbError::UnsupportedQuery);
    assert_eq!(engine_error(fruit_db(), "SELECT max(id) FROM apples"), DbError::UnsupportedQuery);
    assert_eq!(
        engine_error(fruit_db(), "SELECT id FROM apples WHERE id = name"),
        DbError::UnsupportedQuery
    );
}

#[test]
fn syntax_errors_carry_message_and_token() {
    let mut db = Db::from_bytes(fruit_db()).unwrap();
    match db.execute_sql("SELECT id apples") {
        Err(QueryError::Syntax(e)) => {
            assert_eq!(e.message, "Expected 'FROM' after select columns");
            assert_eq!(e.token.lexeme, "apples");
        }
        other => panic!("expected a syntax error, got {:?}", other),
    }
}

#[test]
fn a_tree_that_holds_itself_is_reported() {
    let schema =
        table_leaf(&[(1, schema_row("table", "t", "t", 2, "CREATE TABLE t (a text)"))], true);
    let looped = table_interior(&[(2, 10)], 2);
    let bytes = file(vec![schema, looped]);
    assert_eq!(engine_error(bytes.clone(), "SELECT a FROM t"), DbError::CyclicTree);
    assert_eq!(engine_error(bytes, "SELECT COUNT(*) FROM t"), DbError::CyclicTree);
}

#[test]
fn an_index_page_in_a_table_tree_is_reported() {
    let schema =
        table_leaf(&[(1, schema_row("table", "t", "t", 2, "CREATE TABLE t (a text)"))], true);
    let bytes = file(vec![schema, index_leaf(&[("a", 1)])]);
    assert_eq!(
        engine_error(bytes.clone(), "SELECT a FROM t"),
        DbError::UnknownPageType { offset: 512 }
    );
    assert_eq!(
        engine_error(bytes, "SELECT COUNT(*) FROM t"),
        DbError::UnknownPageType { offset: 512 }
    );
}

#[test]
fn failures_say_where_in_the_file_they_stand() {
    let schema =
        table_leaf(&[(1, schema_row("table", "t", "t", 3, "CREATE TABLE t (a text)"))], true);
    let mut unknown = table_leaf(&[], false);
    unknown[0] = 0x77;
    let mut broken = table_leaf(&[(1, vec![text("abc")])], false);
    // The only cell is the last thing on the page; its text becomes bytes
    // that are no UTF-8.
    broken[PAGE_SIZE - 1] = 0xff;
    let bytes = file(vec![schema, unknown, broken]);
    let mut pager = Pager::new(bytes.clone(), PAGE_SIZE);
    assert_eq!(pager.read_page(2).err(), Some(DbError::UnknownPageType { offset: 512 }));
    assert_eq!(
        pager.read_page(3).err(),
        Some(DbError::MalformedRecord { offset: 3 * PAGE_SIZE - 3 })
    );
    assert_eq!(pager.load_page(2).err(), Some(DbError::UnknownPageType { offset: 512 }));
    assert_eq!(pager.page_offset(3), 1024);
    assert_eq!(pager.page_offset(1), 0);
    assert_eq!(
        engine_error(bytes, "SELECT a FROM t"),
        DbError::MalformedRecord { offset: 3 * PAGE_SIZE - 3 }
    );
    // The schema table itself: the header of the first page stands after
    // the file header.
    let mut first = file(vec![table_leaf(&[], true)]);
    first[100] = 0;
    let mut db = Db::from_bytes(first).unwrap();
    assert_eq!(db.table_count(), Err(DbError::UnknownPageType { offset: 100 }));
    assert_eq!(db.table_names().err(), Some(DbError::UnknownPageType { offset: 100 }));
    assert_eq!(db.get_schemas(), Err(DbError::UnknownPageType { offset: 100 }));
}

#[test]
fn an_index_entry_without_a_row_id_is_reported() {
    let schema = table_leaf(
        &[
            (1, schema_row("table", "t", "t", 2, "CREATE TABLE t (a text)")),
            (2, schema_row("index", "i", "t", 3, "CREATE INDEX i ON t (a)")),
        ],
        true,
    );
    let rows = table_leaf(&[(1, vec![text("x")])], false);
    let cell = {
        let payload = record(&[text("x"), text("no id")]);
        let mut cell = write_varint(payload.len() as u64);
        cell.extend(payload);
        cell
    };
    let index = page(0x0a, None, &[cell], false);
    let bytes = file(vec![schema, rows, index]);
    assert_eq!(
        engine_error(bytes.clone(), "SELECT a FROM t WHERE a = 'x'"),
        DbError::MalformedRecord { offset: 1024 }
    );
    // Entries with other keys are not looked at.
    assert_eq!(run(bytes, "SELECT a FROM t WHERE a = 'y'"), Vec::<String>::new());
}

#[test]
fn catalog_lookups_ignore_case() {
    let mut db = Db::from_bytes(company_db()).unwrap();
    let table = db.get_table_schema("COMPANIES").unwrap().unwrap();
    assert_eq!(table.root_page, 2);
    let names: Vec<&str> = table.columns.iter().map(|c| c.name.as_str()).collect();
    assert_eq!(names, vec!["id", "name", "country"]);
    assert_eq!(table.columns[0].declared_type, "integer primary key autoincrement");
    let index = db.get_index_schema("Companies", "COUNTRY").unwrap().unwrap();
    assert_eq!(index.root_page, 3);
    assert_eq!(index.schema_name, "idx_companies_country");
    assert_eq!(index.table_name, "companies");
    assert!(db.get_index_schema("companies", "name").unwrap().is_none());
    assert!(db.get_table_schema("idx_companies_country").unwrap().is_none());
}

#[test]
fn doubles_and_blobs_are_printed() {
    let values = vec![
        Value::Float(1.5f64.to_bits()),
        Value::Blob(vec![0xff, 0x00]),
        Value::Null,
        Value::I64(-12),
    ];
    let doubles: Vec<String> = values
        .iter()
        .map(|v| match v {
            Value::Float(bits) => format!("{}", f64::from_bits(*bits)),
            _ => String::new(),
        })
        .collect();
    let mut expected = b"1.5|".to_vec();
    expected.extend([0xff, 0x00]);
    expected.extend(b"|NULL|-12");
    assert_eq!(render_row(&values, &doubles), expected);
}

#[test]
fn pages_of_65536_bytes() {
    let size = 65536;
    let schema = page_of(
        size,
        0x0d,
        None,
        &[row_cell(1, &schema_row("table", "t", "t", 2, "CREATE TABLE t (id integer, a text)"))],
        true,
    );
    let rows = page_of(
        size,
        0x0d,
        None,
        &[row_cell(1, &[Value::Null, text("first")]), row_cell(2, &[Value::Null, text("second")])],
        false,
    );
    let empty = page_of(size, 0x0d, None, &[], false);
    let mut bytes = schema;
    bytes.extend(rows);
    bytes.extend(empty);
    bytes[..16].copy_from_slice(b"SQLite format 3\0");
    bytes[16..18].copy_from_slice(&1u16.to_be_bytes());
    let mut db = Db::from_bytes(bytes).unwrap();
    assert_eq!(db.header.page_size, 65536);
    assert_eq!(db.pager.page_count(), 3);
    assert_eq!(lines(&db.execute_sql("SELECT id, a FROM t").unwrap()), vec!["1|first", "2|second"]);
    match db.pager.read_page(3).unwrap() {
        Page::TableLeaf(leaf) => {
            assert_eq!(leaf.cells.len(), 0);
            assert_eq!(leaf.header.cell_content_offset, 65536);
        }
        other => panic!("unexpected {:?}", other),
    }
}

#[test]
fn several_statements_give_several_results() {
    let mut db = Db::from_bytes(fruit_db()).unwrap();
    let results =
        db.execute_sql("SELECT name FROM apples WHERE id = 2 SELECT COUNT(*) FROM oranges").unwrap();
    assert_eq!(results.len(), 2);
    assert_eq!(results[0], vec![Row { row_id: 2, values: vec![text("Fuji")] }]);
    assert_eq!(results[1], vec![Row { row_id: 0, values: vec![Value::I64(0)] }]);
    assert_eq!(db.execute_sql("").unwrap().len(), 0);
}

fn keyed_cell(left: Option<u32>, key: &Value, row_id: i64) -> Vec<u8> {
    let payload = record(&[key.clone(), Value::I64(row_id)]);
    let mut cell: Vec<u8> = Vec::new();
    if let Some(left) = left {
        cell.extend(left.to_be_bytes());
    }
    cell.extend(write_varint(payload.len() as u64));
    cell.extend(payload);
    cell
}

/// A table `t` whose column `n` holds numbers, texts, a blob and NULL, with
/// an index on it (page 3) where `indexed` is set.
fn mixed_db(indexed: bool) -> Vec<u8> {
    let mut catalog = vec![(1, schema_row("table", "t", "t", 2, "CREATE TABLE t (id, n)"))];
    if indexed {
        catalog.push((2, schema_row("index", "i", "t", 3, "CREATE INDEX i ON t (n)")));
    }
    let schema = table_leaf(&catalog, true);
    let rows = table_leaf(
        &[
            (1, vec![Value::Null, Value::I64(5)]),
            (2, vec![Value::Null, text("5")]),
            (3, vec![Value::Null, Value::Blob(b"abc".to_vec())]),
            (4, vec![Value::Null, text("abc")]),
            (5, vec![Value::Null, Value::I64(7)]),
            (6, vec![Value::Null, Value::Null]),
            (7, vec![Value::Null, text("NULL")]),
            (8, vec![Value::Null, Value::I64(-5)]),
        ],
        false,
    );
    // NULL, then numbers, then texts, then blobs.
    let entries: Vec<(Value, i64)> = vec![
        (Value::Null, 6),
        (Value::I64(-5), 8),
        (Value::I64(5), 1),
        (Value::I64(7), 5),
        (text("5"), 2),
        (text("NULL"), 7),
        (text("abc"), 4),
        (Value::Blob(b"abc".to_vec()), 3),
    ];
    let cells: Vec<Vec<u8>> =
        entries.iter().map(|(key, row_id)| keyed_cell(None, key, *row_id)).collect();
    let index = page(0x0a, None, &cells, false);
    file(vec![schema, rows, index])
}

fn ids_of(file: Vec<u8>, sql: &str) -> (Vec<u64>, usize) {
    let mut db = Db::from_bytes(file).unwrap();
    let results = db.execute_sql(sql).unwrap();
    (results[0].iter().map(|row| row.row_id).collect(), db.pager.cached_pages())
}

#[test]
fn an_index_gives_what_a_scan_gives_whatever_the_keys_are() {
    for literal in ["5", "abc", "NULL", "7", "6", "x", "", "-5", "05", "+5", "null", "-0"] {
        let sql = format!("SELECT n FROM t WHERE n = '{}'", literal);
        let (with_index, _) = ids_of(mixed_db(true), &sql);
        let (without, _) = ids_of(mixed_db(false), &sql);
        assert_eq!(with_index, without, "{}", sql);
    }
    assert_eq!(ids_of(mixed_db(true), "SELECT n FROM t WHERE n = '5'").0, vec![1, 2]);
    assert_eq!(ids_of(mixed_db(true), "SELECT n FROM t WHERE n = 'abc'").0, vec![3, 4]);
    assert_eq!(ids_of(mixed_db(true), "SELECT n FROM t WHERE n = 'NULL'").0, vec![6, 7]);
    assert_eq!(ids_of(mixed_db(true), "SELECT n FROM t WHERE n = '-5'").0, vec![8]);
    assert_eq!(ids_of(mixed_db(true), "SELECT n FROM t WHERE n = '7'").0, vec![5]);
    assert_eq!(ids_of(mixed_db(true), "SELECT n FROM t WHERE n = '6'").0, Vec::<u64>::new());
    assert_eq!(ids_of(mixed_db(true), "SELECT n FROM t WHERE n = '05'").0, Vec::<u64>::new());
}

#[test]
fn an_index_is_read_for_every_literal() {
    // The schema page, the index page and the table page.
    assert_eq!(ids_of(mixed_db(true), "SELECT n FROM t WHERE n = '5'").1, 3);
    assert_eq!(ids_of(mixed_db(true), "SELECT n FROM t WHERE n = 'NULL'").1, 3);
    assert_eq!(ids_of(mixed_db(true), "SELECT n FROM t WHERE n = 'abc'").1, 3);
    // The root of the table is read where no row id is found, too.
    assert_eq!(ids_of(mixed_db(true), "SELECT n FROM t WHERE n = 'x'").1, 3);
    // Without an index every row is tried.
    assert_eq!(ids_of(mixed_db(false), "SELECT n FROM t WHERE n = '5'").1, 2);
}

#[test]
fn index_search_finds_every_key_that_shows_as_the_text() {
    let mut pager = Pager::new(mixed_db(true), PAGE_SIZE);
    assert_eq!(pager.cached_pages(), 0);
    // The integer, then the text.
    assert_eq!(get_row_ids(&mut pager, 3, 3, "5"), Ok(vec![1, 2]));
    assert_eq!(pager.cached_pages(), 1);
    // The NULL, then the text.
    assert_eq!(get_row_ids(&mut pager, 3, 3, "NULL"), Ok(vec![6, 7]));
    // The text, then the blob.
    assert_eq!(get_row_ids(&mut pager, 3, 3, "abc"), Ok(vec![4, 3]));
    assert_eq!(get_row_ids(&mut pager, 3, 3, "-5"), Ok(vec![8]));
    assert_eq!(get_row_ids(&mut pager, 3, 3, "7"), Ok(vec![5]));
    // No integer shows as any of these.
    assert_eq!(get_row_ids(&mut pager, 3, 3, "05"), Ok(vec![]));
    assert_eq!(get_row_ids(&mut pager, 3, 3, "+5"), Ok(vec![]));
    assert_eq!(get_row_ids(&mut pager, 3, 3, "-0"), Ok(vec![]));
    assert_eq!(get_row_ids(&mut pager, 3, 3, "null"), Ok(vec![]));
    assert_eq!(get_row_ids(&mut pager, 3, 3, "99999999999999999999"), Ok(vec![]));
    assert_eq!(get_row_ids(&mut pager, 3, 3, "5a"), Ok(vec![]));
    assert_eq!(get_row_ids(&mut pager, 3, 3, "zzz"), Ok(vec![]));
    assert_eq!(get_row_ids(&mut pager, 3, 3, ""), Ok(vec![]));
    assert_eq!(pager.cached_pages(), 1);
    // A table page is no index page.
    assert_eq!(get_row_ids(&mut pager, 2, 3, "abc"), Err(DbError::UnknownPageType { offset: 512 }));
    assert_eq!(get_row_ids(&mut pager, 2, 3, "5"), Err(DbError::UnknownPageType { offset: 512 }));
}

/// An index of two leaves (pages 2 and 3) under a root (page 4) whose one
/// cell holds a double, with doubles among the integers of the leaves.
fn numbers_index() -> Vec<u8> {
    let double = |x: f64| Value::Float(x.to_bits());
    let schema = table_leaf(&[], true);
    let low: Vec<Vec<u8>> = vec![
        keyed_cell(None, &Value::Null, 20),
        keyed_cell(None, &Value::I64(4), 1),
        keyed_cell(None, &double(4.5), 2),
        keyed_cell(None, &Value::I64(5), 3),
        keyed_cell(None, &Value::I64(5), 4),
    ];
    let high: Vec<Vec<u8>> = vec![
        keyed_cell(None, &Value::I64(6), 6),
        keyed_cell(None, &double(6.5), 7),
        keyed_cell(None, &Value::I64(7), 8),
        keyed_cell(None, &text("5"), 9),
        keyed_cell(None, &Value::Blob(b"5".to_vec()), 10),
    ];
    let root = vec![keyed_cell(Some(2), &double(5.5), 5)];
    file(vec![
        schema,
        page(0x0a, None, &low, false),
        page(0x0a, None, &high, false),
        page(0x02, Some(3), &root, false),
    ])
}

#[test]
fn index_search_goes_past_doubles() {
    let mut pager = Pager::new(numbers_index(), PAGE_SIZE);
    // The integers below the double of the root, then the text and the blob
    // beyond it.
    assert_eq!(get_row_ids(&mut pager, 4, 4, "5"), Ok(vec![3, 4, 9, 10]));
    assert_eq!(pager.cached_pages(), 3);
    assert_eq!(get_row_ids(&mut pager, 4, 4, "4"), Ok(vec![1]));
    assert_eq!(get_row_ids(&mut pager, 4, 4, "6"), Ok(vec![6]));
    assert_eq!(get_row_ids(&mut pager, 4, 4, "7"), Ok(vec![8]));
    assert_eq!(get_row_ids(&mut pager, 4, 4, "NULL"), Ok(vec![20]));
    assert_eq!(get_row_ids(&mut pager, 4, 4, "8"), Ok(vec![]));
    assert_eq!(get_row_ids(&mut pager, 4, 4, "5.5"), Ok(vec![]));
}

#[test]
fn index_search_reads_the_pages_that_may_hold_the_key() {
    // A text comes after every number: only the right-most leaf is read.
    let mut pager = Pager::new(numbers_index(), PAGE_SIZE);
    assert_eq!(get_row_ids(&mut pager, 4, 4, "abc"), Ok(vec![]));
    assert_eq!(pager.cached_pages(), 2);
    // NULL comes before every number and the text `NULL` after: the search
    // for the one reads the first leaf, the search for the other the last.
    let mut pager = Pager::new(numbers_index(), PAGE_SIZE);
    assert_eq!(get_row_ids(&mut pager, 4, 1, "NULL"), Ok(vec![20]));
    assert_eq!(pager.cached_pages(), 3);
    // The tree is deeper than the walk may go.
    let mut pager = Pager::new(numbers_index(), PAGE_SIZE);
    assert_eq!(get_row_ids(&mut pager, 4, 0, "abc"), Err(DbError::CyclicTree));
}

#[test]
fn walks_read_the_pages_that_they_go_into() {
    // Through the index: the schema page, the index root and two of its
    // leaves, the table root and its right-most leaf.
    let mut indexed = Db::from_bytes(company_db()).unwrap();
    indexed.execute_sql("SELECT id FROM companies WHERE country = 'eritrea'").unwrap();
    assert_eq!(indexed.pager.cached_pages(), 6);
    // A key that stands in the first leaf: the search for the text stops at
    // the first cell of the index root, the search for the blob goes to the
    // last leaf; the walk of the table goes into every child of the root but
    // the right-most.
    let mut first = Db::from_bytes(company_db()).unwrap();
    first.execute_sql("SELECT id FROM companies WHERE country = 'chad'").unwrap();
    assert_eq!(first.pager.cached_pages(), 1 + 3 + 1 + 7);
    // A key that no entry has, after all the others.
    let mut none = Db::from_bytes(company_db()).unwrap();
    none.execute_sql("SELECT id FROM companies WHERE country = 'zambia'").unwrap();
    assert_eq!(none.pager.cached_pages(), 1 + 2 + 1);
}

#[test]
fn table_count_reads_the_header_only() {
    let mut bytes = fruit_db();
    // A cell pointer of the schema page that points beyond the page.
    bytes[108..110].copy_from_slice(&9999u16.to_be_bytes());
    let db = Db::from_bytes(bytes.clone()).unwrap();
    assert_eq!(db.table_count(), Ok(3));
    assert_eq!(db.pager.cached_pages(), 0);
    let pager = Pager::new(bytes, PAGE_SIZE);
    assert_eq!(pager.read_header(1).unwrap().get_cell_count(), 3);
    assert_eq!(pager.read_header(2).unwrap().get_cell_count(), 4);
    assert_eq!(pager.read_header(9), Err(DbError::Io));
    let mut db = Db::from_bytes(fruit_db()).unwrap();
    db.pager.read_page(2).unwrap();
    assert_eq!(db.table_names().err(), None);
}
