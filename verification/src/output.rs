use vstd::prelude::*;
use vstd::slice::*;
use vstd::string::*;
use vstd::utf8::*;

use crate::page::{TableLeafCellView, TableLeafPage};
use crate::record::{display, values_view, Value, ValueView};
use crate::text::{same_text, text_order};

verus! {

/// The texts as plain values.
pub open spec fn texts_view(texts: Seq<String>) -> Seq<Seq<char>> {
    Seq::new(texts.len(), |i: int| texts[i]@)
}

/// Whether texts stand in ascending order, character by character.
pub open spec fn ascending(texts: Seq<Seq<char>>) -> bool {
    forall|i: int, j: int|
        0 <= i < j < texts.len() ==> text_order(#[trigger] texts[i], #[trigger] texts[j]) <= 0
}

/// `<[String]>::sort`: afterwards the texts are the same as before, each
/// as often as before, and they stand in ascending order of their bytes,
/// which is that of their characters.
#[verifier::external_body]
pub(crate) fn sort_texts(texts: &mut Vec<String>)
    ensures
        texts_view(final(texts)@).to_multiset() == texts_view(old(texts)@).to_multiset(),
        ascending(texts_view(final(texts)@)),
{
    texts.sort()
}

/// The name of the table that a row of the schema table is about, where the
/// row describes a table.
pub open spec fn table_name_of(cell: TableLeafCellView) -> Option<Seq<char>> {
    let v = cell.record.values;
    if v.len() >= 3 && v[0] == ValueView::String("table"@) && v[2] is String {
        Some(v[2]->String_0)
    } else {
        None
    }
}

/// The names of the tables that the first `n` rows of the schema table
/// describe, in the order of the rows.
pub open spec fn table_names(cells: Seq<TableLeafCellView>, n: nat) -> Seq<Seq<char>>
    decreases n,
{
    if n == 0 {
        Seq::empty()
    } else {
        match table_name_of(cells[n - 1]) {
            Some(name) => table_names(cells, (n - 1) as nat).push(name),
            None => table_names(cells, (n - 1) as nat),
        }
    }
}

/// Reads the names of the tables off the schema table, in the order of its
/// rows.
pub fn read_table_names(leaf: &TableLeafPage) -> (names: Vec<String>)
    ensures
        texts_view(names@) == table_names(leaf@.cells, leaf@.cells.len()),
{
    let n = leaf.cells.len();
    let mut names: Vec<String> = Vec::new();
    let mut i: usize = 0;
    proof {
        assert(texts_view(names@) =~= Seq::<Seq<char>>::empty());
    }
    while i < n
        invariant
            i <= n == leaf.cells@.len(),
            leaf@.cells.len() == n,
            texts_view(names@) == table_names(leaf@.cells, i as nat),
        decreases n - i,
    {
        let body = &leaf.cells[i].record.body;
        let ghost before = texts_view(names@);
        if body.len() >= 3 {
            proof {
                assert(leaf@.cells[i as int].record.values[0] == body@[0]@);
                assert(leaf@.cells[i as int].record.values[2] == body@[2]@);
            }
            match (&body[0].value, &body[2].value) {
                (Value::String(kind), Value::String(name)) => {
                    if same_text(kind.as_str(), "table") {
                        names.push(name.clone());
                        proof {
                            assert(texts_view(names@) =~= before.push(name@));
                        }
                    }
                },
                _ => {},
            }
        }
        i = i + 1;
    }
    names
}

/// The names of the tables of a schema table, in ascending order.
pub fn sorted_table_names(leaf: &TableLeafPage) -> (names: Vec<String>)
    ensures
        texts_view(names@).to_multiset() == table_names(
            leaf@.cells,
            leaf@.cells.len(),
        ).to_multiset(),
        ascending(texts_view(names@)),
{
    let mut names = read_table_names(leaf);
    sort_texts(&mut names);
    names
}

/// The first `n` texts, one after the other, with `separator` between
/// them.
pub open spec fn joined_texts(texts: Seq<Seq<char>>, separator: Seq<char>, n: nat) -> Seq<char>
    decreases n,
{
    if n == 0 {
        Seq::empty()
    } else if n == 1 {
        texts[0]
    } else {
        joined_texts(texts, separator, (n - 1) as nat) + separator + texts[n - 1]
    }
}

/// Writes texts one after the other, with `separator` between them.
pub fn join_texts(texts: &Vec<String>, separator: &str) -> (line: String)
    ensures
        line@ == joined_texts(texts_view(texts@), separator@, texts@.len()),
{
    let mut line = String::new();
    let mut i: usize = 0;
    while i < texts.len()
        invariant
            i <= texts@.len(),
            line@ == joined_texts(texts_view(texts@), separator@, i as nat),
        decreases texts@.len() - i,
    {
        if i > 0 {
            line.append(separator);
        }
        line.append(texts[i].as_str());
        proof {
            assert(texts_view(texts@)[i as int] == texts@[i as int]@);
            if i == 0 {
                assert(Seq::<char>::empty() + texts@[0]@ =~= texts@[0]@);
            }
        }
        i = i + 1;
    }
    line
}

/// The bytes that a value is printed as: the text that it shows as, in
/// UTF-8; a blob as it is; a double as the text that `double` gives for it.
pub open spec fn printed(value: ValueView, double: Seq<char>) -> Seq<u8> {
    match value {
        ValueView::Float(_) => encode_utf8(double),
        ValueView::Blob(bytes) => bytes,
        _ => encode_utf8(display(value)->Some_0),
    }
}

/// The text for the double at place `i`: the one that `doubles` holds at
/// that place, or nothing.
pub open spec fn double_at(doubles: Seq<Seq<char>>, i: int) -> Seq<char> {
    if 0 <= i < doubles.len() {
        doubles[i]
    } else {
        Seq::empty()
    }
}

/// The line that the first `n` values of a row are printed as: the values
/// in order, with `|` between them.
pub open spec fn row_line(values: Seq<ValueView>, doubles: Seq<Seq<char>>, n: nat) -> Seq<u8>
    decreases n,
{
    if n == 0 {
        Seq::empty()
    } else if n == 1 {
        printed(values[0], double_at(doubles, 0))
    } else {
        row_line(values, doubles, (n - 1) as nat).push(0x7cu8) + printed(
            values[n - 1],
            double_at(doubles, n - 1),
        )
    }
}

/// Writes the line that a row is printed as. The text of each double is
/// taken from the same place in `doubles`.
pub fn render_row(values: &Vec<Value>, doubles: &Vec<String>) -> (line: Vec<u8>)
    ensures
        line@ == row_line(values_view(values@), texts_view(doubles@), values@.len()),
{
    let mut line: Vec<u8> = Vec::new();
    let mut i: usize = 0;
    while i < values.len()
        invariant
            i <= values@.len(),
            line@ == row_line(values_view(values@), texts_view(doubles@), i as nat),
        decreases values@.len() - i,
    {
        if i > 0 {
            line.push(0x7c);
        }
        let ghost before = line@;
        proof {
            assert(values_view(values@)[i as int] == values@[i as int]@);
            if i < doubles@.len() {
                assert(texts_view(doubles@)[i as int] == doubles@[i as int]@);
            }
        }
        match &values[i] {
            Value::Float(_) => {
                if i < doubles.len() {
                    let mut bytes = doubles[i].as_str().as_bytes_vec();
                    line.append(&mut bytes);
                } else {
                    proof {
                        assert(encode_utf8(Seq::<char>::empty()) =~= Seq::<u8>::empty()) by {
                            reveal_with_fuel(encode_utf8, 1);
                        }
                    }
                }
            },
            Value::Blob(bytes) => {
                let mut copy = slice_to_vec(bytes.as_slice());
                line.append(&mut copy);
            },
            other => {
                match other.to_text() {
                    Some(text) => {
                        let mut bytes = text.as_str().as_bytes_vec();
                        line.append(&mut bytes);
                    },
                    None => {},
                }
            },
        }
        proof {
            let cell = printed(values@[i as int]@, double_at(texts_view(doubles@), i as int));
            assert(line@ =~= before + cell);
            if i == 0 {
                assert(Seq::<u8>::empty() + cell =~= cell);
            }
        }
        i = i + 1;
    }
    line
}

} // verus!
