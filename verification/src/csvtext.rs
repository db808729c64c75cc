//! Comma-separated text: what a row looks like in a file, and the calls that
//! write and read one.

use crate::text;
use vstd::prelude::*;
use vstd::utf8;

verus! {

/// What goes wrong when a row cannot be read.
#[verifier::external_type_specification]
#[verifier::external_body]
pub struct ExCsvError(csv::Error);

/// The field can only be written between quotes.
pub open spec fn needs_quotes(field: Seq<char>) -> bool {
    field.contains(',') || field.contains('"') || field.contains('\r') || field.contains('\n')
}

/// The field with each quote written twice.
pub open spec fn quotes_doubled(field: Seq<char>) -> Seq<char>
    decreases field.len(),
{
    if field.len() == 0 {
        field
    } else if field.last() == '"' {
        quotes_doubled(field.drop_last()).push('"').push('"')
    } else {
        quotes_doubled(field.drop_last()).push(field.last())
    }
}

/// The field as it stands in a row: between quotes only where it has to be.
pub open spec fn written_field(field: Seq<char>) -> Seq<char> {
    if needs_quotes(field) {
        seq!['"'] + quotes_doubled(field) + seq!['"']
    } else {
        field
    }
}

/// The row with its line end: the fields with commas between them. A row
/// that would be an empty line is a pair of quotes instead.
pub open spec fn written_row(fields: Seq<Seq<char>>) -> Seq<char> {
    let line = text::joined(fields.map_values(|f: Seq<char>| written_field(f)), seq![',']);
    if line.len() == 0 {
        seq!['"', '"', '\n']
    } else {
        line.push('\n')
    }
}

/// Rows, one after the other.
pub open spec fn written_rows(rows: Seq<Seq<Seq<char>>>) -> Seq<char>
    decreases rows.len(),
{
    if rows.len() == 0 {
        Seq::empty()
    } else {
        written_rows(rows.drop_last()) + written_row(rows.last())
    }
}

/// A heading and rows of as many fields, which do not start with the mark
/// that readers take for a byte order mark and drop.
pub open spec fn is_table(rows: Seq<Seq<Seq<char>>>) -> bool {
    &&& rows.len() > 0
    &&& rows[0].len() > 0
    &&& forall|i: int| 0 <= i < rows.len() ==> (#[trigger] rows[i]).len() == rows[0].len()
    &&& written_rows(rows)[0] != '\u{feff}'
}

/// The bytes of one row. Calls `csv::Writer::write_record` on a new writer
/// with the default settings; the contract claims that it quotes a field
/// exactly where the field holds a comma, a quote or a line break, doubles
/// the quotes in it, and ends the row with a line feed.
#[verifier::external_body]
pub(crate) fn write_row(fields: &[String; 6]) -> (bytes: Vec<u8>)
    ensures
        bytes@ == utf8::encode_utf8(written_row(text::texts(fields@))),
{
    let mut writer = csv::WriterBuilder::new().has_headers(false).from_writer(Vec::new());
    writer.write_record(fields).unwrap();
    writer.into_inner().unwrap()
}

/// The rows that `csv::Reader::records` yields for a file with a heading,
/// without the heading: `None` for a row that cannot be read.
pub uninterp spec fn rows_in(bytes: Seq<u8>) -> Seq<Option<Seq<Seq<char>>>>;

/// A row as it was read, by the views of its fields.
pub open spec fn row_view(row: Result<Vec<String>, csv::Error>) -> Option<Seq<Seq<char>>> {
    match row {
        Ok(fields) => Some(text::texts(fields@)),
        Err(_) => None,
    }
}

/// Rows as they were read.
pub open spec fn rows_view(rows: Seq<Result<Vec<String>, csv::Error>>) -> Seq<
    Option<Seq<Seq<char>>>,
> {
    rows.map_values(|row: Result<Vec<String>, csv::Error>| row_view(row))
}

/// Rows that can all be read.
pub open spec fn readable(rows: Seq<Seq<Seq<char>>>) -> Seq<Option<Seq<Seq<char>>>> {
    rows.map_values(|row: Seq<Seq<char>>| Some(row))
}

/// The rows of a file with a heading, without it. Calls
/// `csv::Reader::records` with the default settings; the contract claims
/// that the bytes alone decide what comes back, and that of a table written
/// row by row every row after the heading comes back as it was.
#[verifier::external_body]
pub(crate) fn read_rows(bytes: &[u8]) -> (rows: Vec<Result<Vec<String>, csv::Error>>)
    ensures
        rows_view(rows@) == rows_in(bytes@),
        forall|table: Seq<Seq<Seq<char>>>|
            is_table(table) && bytes@ == utf8::encode_utf8(#[trigger] written_rows(table))
                ==> rows_view(rows@) == readable(table.skip(1)),
{
    csv::ReaderBuilder::new()
        .has_headers(true)
        .from_reader(bytes)
        .records()
        .map(|row| row.map(|fields| fields.iter().map(String::from).collect()))
        .collect()
}

/// Text end to end is encoded end to end.
pub proof fn lemma_encoding_joins(a: Seq<char>, b: Seq<char>)
    ensures
        utf8::encode_utf8(a + b) == utf8::encode_utf8(a) + utf8::encode_utf8(b),
    decreases a.len(),
{
    if a.len() == 0 {
        assert(a + b =~= b);
        assert(utf8::encode_utf8(a) + utf8::encode_utf8(b) =~= utf8::encode_utf8(b));
    } else {
        lemma_encoding_joins(a.drop_first(), b);
        assert((a + b).drop_first() =~= a.drop_first() + b);
        assert((a + b)[0] == a[0]);
        assert(utf8::encode_utf8(a + b) =~= utf8::encode_utf8(a) + utf8::encode_utf8(b));
    }
}

/// A field is written between quotes exactly if it holds a comma, a quote
/// or a line break, and what is not written between quotes stands as it is.
pub proof fn law_fields_stand_as_they_are_where_they_can(field: Seq<char>)
    ensures
        (exists|i: int|
            0 <= i < field.len() && (#[trigger] field[i] == ',' || field[i] == '"' || field[i]
                == '\r' || field[i] == '\n')) ==> written_field(field) == seq!['"']
            + quotes_doubled(field) + seq!['"'],
        (forall|i: int|
            0 <= i < field.len() ==> #[trigger] field[i] != ',' && field[i] != '"' && field[i]
                != '\r' && field[i] != '\n') ==> written_field(field) == field,
{
}

/// Quotes are doubled character by character: a quote becomes two, and any
/// other character stays.
pub proof fn law_quotes_are_doubled_one_by_one(a: Seq<char>, b: Seq<char>, c: char)
    ensures
        quotes_doubled(a + b) == quotes_doubled(a) + quotes_doubled(b),
        c == '"' ==> quotes_doubled(seq![c]) == seq!['"', '"'],
        c != '"' ==> quotes_doubled(seq![c]) == seq![c],
        quotes_doubled(Seq::empty()) == Seq::<char>::empty(),
    decreases b.len(),
{
    let one = seq![c];
    assert(one.drop_last() =~= Seq::empty());
    assert(quotes_doubled(one.drop_last()) =~= Seq::empty());
    assert(c == '"' ==> quotes_doubled(one) =~= seq!['"', '"']);
    assert(c != '"' ==> quotes_doubled(one) =~= seq![c]);
    if b.len() == 0 {
        assert(a + b =~= a);
    } else {
        law_quotes_are_doubled_one_by_one(a, b.drop_last(), c);
        assert((a + b).drop_last() =~= a + b.drop_last());
        assert((a + b).last() == b.last());
    }
    assert(quotes_doubled(a + b) =~= quotes_doubled(a) + quotes_doubled(b));
}

/// A row is its fields as they are written, with commas between them, and a
/// line feed; where that would be an empty line, a pair of quotes stands in.
pub proof fn law_a_row_is_its_fields(fields: Seq<Seq<char>>, written: Seq<Seq<char>>)
    requires
        written.len() == fields.len(),
        forall|i: int|
            0 <= i < fields.len() ==> #[trigger] written[i] == written_field(fields[i]),
    ensures
        text::joined(written, seq![',']).len() > 0 ==> written_row(fields) == text::joined(
            written,
            seq![','],
        ) + seq!['\n'],
        text::joined(written, seq![',']).len() == 0 ==> written_row(fields) == seq!['"', '"', '\n'],
{
    assert(fields.map_values(|f: Seq<char>| written_field(f)) =~= written);
    let line = text::joined(written, seq![',']);
    assert(line.push('\n') =~= line + seq!['\n']);
}

/// Rows stand one after the other.
pub proof fn law_rows_stand_end_to_end(
    a: Seq<Seq<Seq<char>>>,
    b: Seq<Seq<Seq<char>>>,
    row: Seq<Seq<char>>,
)
    ensures
        written_rows(a + b) == written_rows(a) + written_rows(b),
        written_rows(seq![row]) == written_row(row),
        written_rows(Seq::empty()) == Seq::<char>::empty(),
    decreases b.len(),
{
    let one = seq![row];
    assert(one.drop_last() =~= Seq::empty());
    assert(written_rows(one.drop_last()) =~= Seq::empty());
    assert(written_rows(one) =~= written_row(row));
    if b.len() == 0 {
        assert(a + b =~= a);
    } else {
        law_rows_stand_end_to_end(a, b.drop_last(), row);
        assert((a + b).drop_last() =~= a + b.drop_last());
        assert((a + b).last() == b.last());
    }
    assert(written_rows(a + b) =~= written_rows(a) + written_rows(b));
}

/// Rows that were read say their fields, one for one, and a row that could
/// not be read says nothing.
pub proof fn law_read_rows_one_for_one(
    rows: Seq<Result<Vec<String>, csv::Error>>,
    plain: Seq<Seq<Seq<char>>>,
    i: int,
)
    ensures
        rows_view(rows).len() == rows.len(),
        readable(plain).len() == plain.len(),
        0 <= i < plain.len() ==> readable(plain)[i] == Some(plain[i]),
        0 <= i < rows.len() && rows[i] is Err ==> rows_view(rows)[i] is None,
        0 <= i < rows.len() && rows[i] is Ok ==> {
            &&& rows_view(rows)[i] is Some
            &&& rows_view(rows)[i]->0.len() == rows[i]->Ok_0@.len()
            &&& forall|j: int|
                0 <= j < rows[i]->Ok_0@.len() ==> #[trigger] rows_view(rows)[i]->0[j]
                    == rows[i]->Ok_0@[j]@
        },
{
}

} // verus!
