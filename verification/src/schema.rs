use vstd::prelude::*;

use crate::text::{
    chars_of, find_char, find_from, find_last, find_last_char, find_whitespace,
    find_whitespace_in, is_whitespace, lowercase, same_text, skip_whitespace, skip_whitespace_in,
    sub_chars, text_of, to_lowercase, trim, trimmed, whitespace,
};

verus! {

/// A column of a table or of an index: its name and its declared type.
#[derive(Debug, Clone)]
pub struct Column {
    pub name: String,
    pub declared_type: String,
}

/// A column as a plain value.
pub ghost struct ColumnView {
    pub name: Seq<char>,
    pub declared_type: Seq<char>,
}

impl View for Column {
    type V = ColumnView;

    open spec fn view(&self) -> ColumnView {
        ColumnView { name: self.name@, declared_type: self.declared_type@ }
    }
}

/// A row of the schema table: a table or an index, the table it belongs
/// to, the statement that made it, the page where its tree starts, and its
/// columns.
#[derive(Debug, Clone)]
pub struct Schema {
    pub schema_name: String,
    pub table_name: String,
    pub sql: String,
    pub root_page: u32,
    pub columns: Vec<Column>,
}

/// A row of the schema table as a plain value.
pub ghost struct SchemaView {
    pub schema_name: Seq<char>,
    pub table_name: Seq<char>,
    pub sql: Seq<char>,
    pub root_page: u32,
    pub columns: Seq<ColumnView>,
}

impl View for Schema {
    type V = SchemaView;

    open spec fn view(&self) -> SchemaView {
        SchemaView {
            schema_name: self.schema_name@,
            table_name: self.table_name@,
            sql: self.sql@,
            root_page: self.root_page,
            columns: Seq::new(self.columns@.len(), |i: int| self.columns@[i]@),
        }
    }
}

/// The place of the next comma at or after `from` that stands outside all
/// parentheses, where `depth` parentheses are open at `from`; the length of
/// `s` where there is none.
pub open spec fn next_comma(s: Seq<char>, from: int, depth: nat) -> int
    decreases s.len() - from,
{
    if from < 0 || from >= s.len() {
        s.len() as int
    } else if s[from] == ',' && depth == 0 {
        from
    } else if s[from] == '(' {
        next_comma(s, from + 1, depth + 1)
    } else if s[from] == ')' && depth > 0 {
        next_comma(s, from + 1, (depth - 1) as nat)
    } else {
        next_comma(s, from + 1, depth)
    }
}

/// The column that a definition declares; `None` where the definition is
/// empty. The name is what stands between the first two double quotes where
/// the definition starts with one, else its first word; the declared type
/// is the rest.
pub open spec fn column_of(definition: Seq<char>) -> Option<ColumnView> {
    let d = trim(definition);
    if d.len() == 0 {
        None
    } else if d[0] == '"' {
        let close = find_from(d, '"', 1);
        Some(
            ColumnView {
                name: d.subrange(1, close),
                declared_type: if close < d.len() {
                    trim(d.subrange(close + 1, d.len() as int))
                } else {
                    Seq::empty()
                },
            },
        )
    } else {
        let end = find_whitespace(d, 0);
        Some(
            ColumnView {
                name: d.subrange(0, end),
                declared_type: trim(d.subrange(end, d.len() as int)),
            },
        )
    }
}

/// The column without its declared type.
pub open spec fn untyped(column: ColumnView) -> ColumnView {
    ColumnView { name: column.name, declared_type: Seq::empty() }
}

/// The columns that the definitions in `list[from..]` declare, after the
/// columns `acc`. Commas outside parentheses separate the definitions.
pub open spec fn columns_from(list: Seq<char>, from: int, acc: Seq<ColumnView>, typed: bool) -> Seq<
    ColumnView,
>
    decreases list.len() - from,
{
    if from < 0 || from > list.len() {
        acc
    } else {
        let end = next_comma(list, from, 0);
        let next = match column_of(list.subrange(from, end)) {
            Some(column) => acc.push(
                if typed {
                    column
                } else {
                    untyped(column)
                },
            ),
            None => acc,
        };
        if from <= end < list.len() {
            columns_from(list, end + 1, next, typed)
        } else {
            next
        }
    }
}

/// What stands between the first `(` and the last `)` of a statement.
pub open spec fn column_list(lowered: Seq<char>) -> Option<Seq<char>> {
    let open = find_from(lowered, '(', 0);
    let close = find_last(lowered, ')', lowered.len() as int);
    if 0 <= open < close <= lowered.len() {
        Some(lowered.subrange(open + 1, close))
    } else {
        None
    }
}

/// The columns that a `CREATE TABLE` statement in lower case declares.
pub open spec fn create_table_columns(lowered: Seq<char>) -> Seq<ColumnView> {
    match column_list(lowered) {
        Some(list) => columns_from(list, 0, Seq::empty(), true),
        None => Seq::empty(),
    }
}

/// The columns that a `CREATE INDEX` statement in lower case names.
pub open spec fn create_index_columns(lowered: Seq<char>) -> Seq<ColumnView> {
    match column_list(lowered) {
        Some(list) => columns_from(list, 0, Seq::empty(), false),
        None => Seq::empty(),
    }
}

/// The next comma stands at or after `from`.
proof fn lemma_next_comma_bounds(s: Seq<char>, from: int, depth: nat)
    requires
        0 <= from <= s.len(),
    ensures
        from <= next_comma(s, from, depth) <= s.len(),
    decreases s.len() - from,
{
    if from < s.len() {
        if s[from] == ',' && depth == 0 {
        } else if s[from] == '(' {
            lemma_next_comma_bounds(s, from + 1, depth + 1);
        } else if s[from] == ')' && depth > 0 {
            lemma_next_comma_bounds(s, from + 1, (depth - 1) as nat);
        } else {
            lemma_next_comma_bounds(s, from + 1, depth);
        }
    }
}

/// Finds the next comma at or after `from` that stands outside all
/// parentheses.
fn find_comma(list: &Vec<char>, from: usize) -> (at: usize)
    requires
        from <= list@.len(),
    ensures
        at as int == next_comma(list@, from as int, 0),
        from <= at <= list@.len(),
{
    let len = list.len();
    let mut depth: usize = 0;
    let mut i: usize = from;
    proof {
        lemma_next_comma_bounds(list@, from as int, 0);
    }
    while i < len
        invariant
            from <= i <= len == list@.len(),
            depth <= i - from,
            next_comma(list@, from as int, 0) == next_comma(list@, i as int, depth as nat),
        decreases len - i,
    {
        let c = list[i];
        if c == ',' && depth == 0 {
            return i;
        } else if c == '(' {
            depth = depth + 1;
        } else if c == ')' && depth > 0 {
            depth = depth - 1;
        }
        i = i + 1;
    }
    i
}

/// Reads the column that a definition declares.
fn parse_column(definition: &Vec<char>) -> (column: Option<Column>)
    ensures
        match column_of(definition@) {
            Some(c) => column is Some && column->Some_0@ == c,
            None => column is None,
        },
{
    let d = trimmed(definition);
    let len = d.len();
    if len == 0 {
        return None;
    }
    if d[0] == '"' {
        let close = find_char(&d, '"', 1);
        let name = text_of(&d, 1, close);
        let declared_type = if close < len {
            let rest = trimmed(&sub_chars(&d, close + 1, len));
            text_of(&rest, 0, rest.len())
        } else {
            String::new()
        };
        proof {
            let rest = trim(d@.subrange(close + 1, len as int));
            assert(rest.subrange(0, rest.len() as int) =~= rest);
        }
        Some(Column { name, declared_type })
    } else {
        let end = find_whitespace_in(&d, 0);
        let name = text_of(&d, 0, end);
        let rest = trimmed(&sub_chars(&d, end, len));
        let declared_type = text_of(&rest, 0, rest.len());
        proof {
            assert(rest@.subrange(0, rest@.len() as int) =~= rest@);
        }
        Some(Column { name, declared_type })
    }
}

/// Reads the columns that the definitions between the first `(` and the
/// last `)` of a statement in lower case declare; with their declared types
/// where `typed` is set.
#[verifier::loop_isolation(false)]
pub fn parse_columns(lowered: &str, typed: bool) -> (columns: Vec<Column>)
    ensures
        Seq::new(columns@.len(), |i: int| columns@[i]@) == if typed {
            create_table_columns(lowered@)
        } else {
            create_index_columns(lowered@)
        },
{
    let chars = chars_of(lowered);
    let mut columns: Vec<Column> = Vec::new();
    let open = find_char(&chars, '(', 0);
    let close = match find_last_char(&chars, ')', chars.len()) {
        Some(close) => close,
        None => {
            assert(Seq::new(columns@.len(), |i: int| columns@[i]@) =~= Seq::<ColumnView>::empty());
            return columns;
        },
    };
    if open >= close {
        assert(Seq::new(columns@.len(), |i: int| columns@[i]@) =~= Seq::<ColumnView>::empty());
        return columns;
    }
    let list = sub_chars(&chars, open + 1, close);
    let len = list.len();
    let ghost whole = columns_from(list@, 0, Seq::empty(), typed);
    let mut from: usize = 0;
    assert(Seq::new(columns@.len(), |i: int| columns@[i]@) =~= Seq::<ColumnView>::empty());
    loop
        invariant
            from <= len == list@.len(),
            whole == columns_from(
                list@,
                from as int,
                Seq::new(columns@.len(), |i: int| columns@[i]@),
                typed,
            ),
        decreases len - from,
    {
        let end = find_comma(&list, from);
        let ghost before = Seq::new(columns@.len(), |i: int| columns@[i]@);
        match parse_column(&sub_chars(&list, from, end)) {
            Some(column) => {
                let column = if typed {
                    column
                } else {
                    Column { name: column.name, declared_type: String::new() }
                };
                columns.push(column);
                assert(Seq::new(columns@.len(), |i: int| columns@[i]@) =~= before.push(column@));
            },
            None => {},
        }
        if end >= len {
            return columns;
        }
        from = end + 1;
    }
}

/// Reads the columns that a `CREATE TABLE` statement declares.
pub fn parse_create_table_sql(sql: &str) -> (columns: Vec<Column>)
    ensures
        Seq::new(columns@.len(), |i: int| columns@[i]@) == create_table_columns(lowercase(sql@)),
{
    let lowered = to_lowercase(sql);
    parse_columns(lowered.as_str(), true)
}

/// Reads the columns that a `CREATE INDEX` statement names.
pub fn parse_create_index_sql(sql: &str) -> (columns: Vec<Column>)
    ensures
        Seq::new(columns@.len(), |i: int| columns@[i]@) == create_index_columns(lowercase(sql@)),
{
    let lowered = to_lowercase(sql);
    parse_columns(lowered.as_str(), false)
}

/// Whether the word `on` stands at place `p`, with white space or an end
/// of the text on either side.
pub open spec fn on_at(s: Seq<char>, p: int) -> bool {
    &&& 0 <= p
    &&& p + 2 <= s.len()
    &&& s[p] == 'o'
    &&& s[p + 1] == 'n'
    &&& (p == 0 || whitespace(s[p - 1]))
    &&& (p + 2 == s.len() || whitespace(s[p + 2]))
}

/// The first place at or after `from` where the word `on` stands; the
/// length of `s` where it stands nowhere there.
pub open spec fn find_on(s: Seq<char>, from: int) -> int
    decreases s.len() - from,
{
    if from >= s.len() {
        s.len() as int
    } else if on_at(s, from) {
        from
    } else {
        find_on(s, from + 1)
    }
}

/// The first place at or after `from` that holds white space or `(`; the
/// length of `s` where there is none.
pub open spec fn name_end(s: Seq<char>, from: int) -> int
    decreases s.len() - from,
{
    if from >= s.len() {
        s.len() as int
    } else if from >= 0 && (whitespace(s[from]) || s[from] == '(') {
        from
    } else {
        name_end(s, from + 1)
    }
}

/// The table that a `CREATE INDEX` statement in lower case names after the
/// word `on`: what stands between double quotes where a quote follows,
/// else what stands before the next white space or `(`.
pub open spec fn index_table(lowered: Seq<char>) -> Option<Seq<char>> {
    let p = find_on(lowered, 0);
    if p >= lowered.len() {
        None
    } else {
        let start = skip_whitespace(lowered, p + 2);
        if start >= lowered.len() {
            None
        } else if lowered[start] == '"' {
            Some(lowered.subrange(start + 1, find_from(lowered, '"', start + 1)))
        } else {
            Some(lowered.subrange(start, name_end(lowered, start)))
        }
    }
}

/// Reads the table that a `CREATE INDEX` statement in lower case names.
#[verifier::loop_isolation(false)]
pub fn parse_index_table(lowered: &str) -> (table: Option<String>)
    ensures
        match index_table(lowered@) {
            Some(name) => table is Some && table->Some_0@ == name,
            None => table is None,
        },
{
    let chars = chars_of(lowered);
    let len = chars.len();
    let mut p: usize = 0;
    while p < len
        invariant
            p <= len,
            find_on(chars@, 0) == find_on(chars@, p as int),
        decreases len - p,
    {
        let here = len - p >= 2 && chars[p] == 'o' && chars[p + 1] == 'n' && (p == 0
            || is_whitespace(chars[p - 1])) && (p + 2 == len || is_whitespace(chars[p + 2]));
        if here {
            let start = skip_whitespace_in(&chars, p + 2);
            if start >= len {
                return None;
            }
            if chars[start] == '"' {
                let close = find_char(&chars, '"', start + 1);
                return Some(text_of(&chars, start + 1, close));
            }
            let mut end: usize = start;
            while end < len && !(is_whitespace(chars[end]) || chars[end] == '(')
                invariant
                    start <= end <= len,
                    name_end(chars@, start as int) == name_end(chars@, end as int),
                decreases len - end,
            {
                end = end + 1;
            }
            return Some(text_of(&chars, start, end));
        }
        p = p + 1;
    }
    None
}

/// Reads the table that a `CREATE INDEX` statement names after `ON`.
pub fn parse_index_table_sql(sql: &str) -> (table: Option<String>)
    ensures
        match index_table(lowercase(sql@)) {
            Some(name) => table is Some && table->Some_0@ == name,
            None => table is None,
        },
{
    let lowered = to_lowercase(sql);
    parse_index_table(lowered.as_str())
}

impl Column {
    /// A copy of the column.
    pub fn duplicate(&self) -> (copy: Column)
        ensures
            copy@ == self@,
    {
        Column { name: self.name.clone(), declared_type: self.declared_type.clone() }
    }
}

impl Schema {
    /// A copy of the schema row.
    pub fn duplicate(&self) -> (copy: Schema)
        ensures
            copy@ == self@,
    {
        let mut columns: Vec<Column> = Vec::new();
        let mut i: usize = 0;
        while i < self.columns.len()
            invariant
                i <= self.columns@.len(),
                columns@.len() == i,
                forall|j: int| 0 <= j < i ==> #[trigger] columns@[j]@ == self.columns@[j]@,
            decreases self.columns@.len() - i,
        {
            columns.push(self.columns[i].duplicate());
            i = i + 1;
        }
        let copy = Schema {
            schema_name: self.schema_name.clone(),
            table_name: self.table_name.clone(),
            sql: self.sql.clone(),
            root_page: self.root_page,
            columns,
        };
        proof {
            assert(copy@.columns =~= self@.columns);
        }
        copy
    }
}

/// The schema rows as plain values.
pub open spec fn schemas_view(schemas: Seq<Schema>) -> Seq<SchemaView> {
    Seq::new(schemas.len(), |i: int| schemas[i]@)
}

/// Whether two names are the same but for upper and lower case.
pub open spec fn same_name(a: Seq<char>, b: Seq<char>) -> bool {
    lowercase(a) == lowercase(b)
}

/// The last place before `n` of a row for the table `name`; -1 where there
/// is none.
pub open spec fn find_table(schemas: Seq<SchemaView>, name: Seq<char>, n: int) -> int
    decreases n,
{
    if n <= 0 {
        -1
    } else if n <= schemas.len() && same_name(schemas[n - 1].table_name, name) {
        n - 1
    } else {
        find_table(schemas, name, n - 1)
    }
}

/// Whether an index is one on the single column `column` of the table
/// `table`.
pub open spec fn indexes(index: SchemaView, table: Seq<char>, column: Seq<char>) -> bool {
    same_name(index.table_name, table) && index.columns.len() == 1 && index.columns[0].name
        == lowercase(column)
}

/// The last place before `n` of an index on the column `column` of the
/// table `table`; -1 where there is none.
pub open spec fn find_index(
    schemas: Seq<SchemaView>,
    table: Seq<char>,
    column: Seq<char>,
    n: int,
) -> int
    decreases n,
{
    if n <= 0 {
        -1
    } else if n <= schemas.len() && indexes(schemas[n - 1], table, column) {
        n - 1
    } else {
        find_index(schemas, table, column, n - 1)
    }
}

/// The names as plain values.
pub open spec fn names_view(names: Seq<String>) -> Seq<Seq<char>> {
    Seq::new(names.len(), |i: int| names[i]@)
}

/// The last place before `n` where `names` holds `wanted`; -1 where it
/// holds it nowhere there.
pub open spec fn last_named(names: Seq<Seq<char>>, wanted: Seq<char>, n: int) -> int
    decreases n,
{
    if n <= 0 {
        -1
    } else if n <= names.len() && names[n - 1] == wanted {
        n - 1
    } else {
        last_named(names, wanted, n - 1)
    }
}

/// Finds the last of the names that is `wanted`.
pub fn find_named(names: &Vec<String>, wanted: &str) -> (at: Option<usize>)
    ensures
        match at {
            Some(i) => i as int == last_named(names_view(names@), wanted@, names@.len() as int)
                && i < names@.len(),
            None => last_named(names_view(names@), wanted@, names@.len() as int) == -1,
        },
{
    let ghost views = names_view(names@);
    let mut n: usize = names.len();
    while n > 0
        invariant
            n <= names@.len(),
            views == names_view(names@),
            last_named(views, wanted@, names@.len() as int) == last_named(views, wanted@, n as int),
        decreases n,
    {
        proof {
            assert(views[n - 1] == names@[n - 1]@);
        }
        if same_text(names[n - 1].as_str(), wanted) {
            return Some(n - 1);
        }
        n = n - 1;
    }
    None
}

/// The last place before `n` of an index with the single column `column`
/// whose table, as `tables` names it, is `table`; -1 where there is none.
pub open spec fn last_index_on(
    schemas: Seq<SchemaView>,
    tables: Seq<Seq<char>>,
    table: Seq<char>,
    column: Seq<char>,
    n: int,
) -> int
    decreases n,
{
    if n <= 0 {
        -1
    } else if n <= schemas.len() && n <= tables.len() && tables[n - 1] == table && schemas[n
        - 1].columns.len() == 1 && schemas[n - 1].columns[0].name == column {
        n - 1
    } else {
        last_index_on(schemas, tables, table, column, n - 1)
    }
}

/// Finds the last index with the single column `column` whose table, as
/// `tables` names it, is `table`.
pub fn find_index_on(schemas: &Vec<Schema>, tables: &Vec<String>, table: &str, column: &str) -> (at:
    Option<usize>)
    requires
        tables@.len() == schemas@.len(),
    ensures
        match at {
            Some(i) => i as int == last_index_on(
                schemas_view(schemas@),
                names_view(tables@),
                table@,
                column@,
                schemas@.len() as int,
            ) && i < schemas@.len(),
            None => last_index_on(
                schemas_view(schemas@),
                names_view(tables@),
                table@,
                column@,
                schemas@.len() as int,
            ) == -1,
        },
{
    let ghost views = schemas_view(schemas@);
    let ghost names = names_view(tables@);
    let mut n: usize = schemas.len();
    while n > 0
        invariant
            n <= schemas@.len() == tables@.len(),
            views == schemas_view(schemas@),
            names == names_view(tables@),
            last_index_on(views, names, table@, column@, schemas@.len() as int) == last_index_on(
                views,
                names,
                table@,
                column@,
                n as int,
            ),
        decreases n,
    {
        let index = &schemas[n - 1];
        proof {
            assert(views[n - 1] == index@);
            assert(names[n - 1] == tables@[n - 1]@);
            if index.columns@.len() == 1 {
                assert(index@.columns[0] == index.columns@[0]@);
            }
        }
        if same_text(tables[n - 1].as_str(), table) && index.columns.len() == 1 && same_text(
            index.columns[0].name.as_str(),
            column,
        ) {
            return Some(n - 1);
        }
        n = n - 1;
    }
    None
}

/// The names of the tables of the rows in lower case.
pub open spec fn lowered_tables(schemas: Seq<SchemaView>) -> Seq<Seq<char>> {
    Seq::new(schemas.len(), |i: int| lowercase(schemas[i].table_name))
}

/// Writes the names of the tables of the rows in lower case.
fn lower_tables(schemas: &Vec<Schema>) -> (names: Vec<String>)
    ensures
        names_view(names@) == lowered_tables(schemas_view(schemas@)),
{
    let mut names: Vec<String> = Vec::new();
    let mut i: usize = 0;
    while i < schemas.len()
        invariant
            i <= schemas@.len(),
            names@.len() == i,
            forall|j: int|
                0 <= j < i ==> #[trigger] names@[j]@ == lowercase(schemas@[j].table_name@),
        decreases schemas@.len() - i,
    {
        names.push(to_lowercase(schemas[i].table_name.as_str()));
        i = i + 1;
    }
    proof {
        assert(names_view(names@) =~= lowered_tables(schemas_view(schemas@)));
    }
    names
}

/// Looking a table up is looking its name in lower case up among the names
/// in lower case.
pub proof fn lemma_find_table(schemas: Seq<SchemaView>, name: Seq<char>, n: int)
    requires
        n <= schemas.len(),
    ensures
        find_table(schemas, name, n) == last_named(lowered_tables(schemas), lowercase(name), n),
    decreases n,
{
    if n > 0 {
        lemma_find_table(schemas, name, n - 1);
    }
}

/// The same for an index.
pub proof fn lemma_find_index(schemas: Seq<SchemaView>, table: Seq<char>, column: Seq<char>, n: int)
    requires
        n <= schemas.len(),
    ensures
        find_index(schemas, table, column, n) == last_index_on(
            schemas,
            lowered_tables(schemas),
            lowercase(table),
            lowercase(column),
            n,
        ),
    decreases n,
{
    if n > 0 {
        lemma_find_index(schemas, table, column, n - 1);
    }
}

/// Finds the last row for the table `name`.
pub fn lookup_table(schemas: &Vec<Schema>, name: &str) -> (at: Option<usize>)
    ensures
        match at {
            Some(i) => i as int == find_table(schemas_view(schemas@), name@, schemas@.len() as int)
                && i < schemas@.len(),
            None => find_table(schemas_view(schemas@), name@, schemas@.len() as int) == -1,
        },
{
    let tables = lower_tables(schemas);
    let wanted = to_lowercase(name);
    proof {
        lemma_find_table(schemas_view(schemas@), name@, schemas@.len() as int);
    }
    find_named(&tables, wanted.as_str())
}

/// Finds the last index on the single column `column` of the table
/// `table`.
pub fn lookup_index(schemas: &Vec<Schema>, table: &str, column: &str) -> (at: Option<usize>)
    ensures
        match at {
            Some(i) => i as int == find_index(
                schemas_view(schemas@),
                table@,
                column@,
                schemas@.len() as int,
            ) && i < schemas@.len(),
            None => find_index(schemas_view(schemas@), table@, column@, schemas@.len() as int)
                == -1,
        },
{
    let tables = lower_tables(schemas);
    let wanted_table = to_lowercase(table);
    let wanted_column = to_lowercase(column);
    proof {
        lemma_find_index(schemas_view(schemas@), table@, column@, schemas@.len() as int);
    }
    find_index_on(schemas, &tables, wanted_table.as_str(), wanted_column.as_str())
}

} // verus!
