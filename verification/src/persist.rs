//! The operation log on disk.
//!
//! One row per accepted operation, local or received, appended as it is
//! accepted and never rewritten. What a replica reads and writes at run time
//! is in memory; the log is what it is rebuilt from at a restart.

use crate::clock::Hlc;
use crate::csvtext;
use crate::csvtext::{read_rows, write_row};
use crate::op;
use crate::op::{Op, OpKind, OpView};
use crate::text;
use crate::text::{decimal, parse_number, same_text, split_once};
use vstd::prelude::*;
use vstd::string::{StrSliceExecFns, StringExecFns};
use vstd::utf8;

verus! {

/// The word for a kind of operation in a row.
pub open spec fn kind_word(kind: OpKind) -> Seq<char> {
    match kind {
        OpKind::Upsert => "upsert"@,
        OpKind::Delete => "delete"@,
    }
}

/// The kind of operation that a word stands for.
pub open spec fn kind_of(word: Seq<char>) -> Option<OpKind> {
    if word == "upsert"@ {
        Some(OpKind::Upsert)
    } else if word == "delete"@ {
        Some(OpKind::Delete)
    } else {
        None
    }
}

/// A word stands for the kind that is written with it, and for no other.
pub proof fn law_kind_words_read_back(kind: OpKind)
    ensures
        kind_of(kind_word(kind)) == Some(kind),
        forall|word: Seq<char>| #[trigger] kind_of(word) == Some(kind) ==> word == kind_word(kind),
{
    reveal_strlit("upsert");
    reveal_strlit("delete");
    assert("upsert"@[0] != "delete"@[0]);
}

/// Writes the kind of an operation as a word.
pub fn kind_to_field(kind: OpKind) -> (word: &'static str)
    ensures
        word@ == kind_word(kind),
{
    match kind {
        OpKind::Upsert => "upsert",
        OpKind::Delete => "delete",
    }
}

/// Why a row is not an operation.
#[derive(Debug)]
pub enum RowError {
    /// A field is missing, or is not a number where one belongs.
    Malformed,
    /// The kind is not one of the known words.
    UnknownKind(String),
}

/// What a `RowError` says.
#[verifier::ext_equal]
pub enum Fault {
    Malformed,
    UnknownKind(Seq<char>),
}

impl View for RowError {
    type V = Fault;

    open spec fn view(&self) -> Fault {
        match self {
            RowError::Malformed => Fault::Malformed,
            RowError::UnknownKind(word) => Fault::UnknownKind(word@),
        }
    }
}

/// Reads the word for a kind of operation.
pub fn kind_from_field(s: &str) -> (kind: Result<OpKind, RowError>)
    ensures
        match kind {
            Ok(k) => kind_of(s@) == Some(k),
            Err(e) => kind_of(s@) is None && e@ == Fault::UnknownKind(s@),
        },
{
    if same_text(s, "upsert") {
        Ok(OpKind::Upsert)
    } else if same_text(s, "delete") {
        Ok(OpKind::Delete)
    } else {
        Err(RowError::UnknownKind(s.to_owned()))
    }
}

/// The clock reading as it stands in a row: time, point, counter.
pub open spec fn hlc_text(hlc: Hlc) -> Seq<char> {
    text::numeral(hlc.time as nat, 10).push('.') + text::numeral(hlc.counter as nat, 10)
}

/// The fields of an operation's row.
pub open spec fn record(o: OpView) -> Seq<Seq<char>> {
    seq![
        o.device,
        text::numeral(o.seq as nat, 10),
        o.entity,
        kind_word(o.kind),
        o.value,
        hlc_text(o.hlc),
    ]
}

/// The fields of the row for `op`.
pub fn to_record(op: &Op) -> (fields: [String; 6])
    ensures
        text::texts(fields@) == record(op@),
{
    let mut hlc = decimal(op.hlc.time);
    hlc.append(".");
    let counter = decimal(op.hlc.counter as u64);
    hlc.append(counter.as_str());
    proof {
        reveal_strlit(".");
    }
    assert(hlc@ =~= hlc_text(op.hlc));
    let fields = [
        op.device.clone(),
        decimal(op.seq),
        op.entity.clone(),
        kind_to_field(op.kind).to_owned(),
        op.value.clone(),
        hlc,
    ];
    assert(text::texts(fields@) =~= record(op@));
    fields
}

/// The clock reading that a field stands for.
pub open spec fn hlc_of(field: Seq<char>) -> Option<Hlc> {
    match text::cut(field, '.') {
        Some((time, counter)) => match (
            text::number(time, u64::MAX as nat),
            text::number(counter, u32::MAX as nat),
        ) {
            (Some(t), Some(c)) => Some(Hlc { time: t as u64, counter: c as u32 }),
            _ => None,
        },
        None => None,
    }
}

/// The operation that the fields of a row stand for, or what is wrong with
/// the first field that does not fit. Fields past the sixth do not count.
pub open spec fn parsed(fields: Seq<Seq<char>>) -> Result<OpView, Fault> {
    if fields.len() < 4 || text::number(fields[1], u64::MAX as nat) is None {
        Err(Fault::Malformed)
    } else if kind_of(fields[3]) is None {
        Err(Fault::UnknownKind(fields[3]))
    } else if fields.len() < 6 || hlc_of(fields[5]) is None {
        Err(Fault::Malformed)
    } else {
        Ok(
            OpView {
                device: fields[0],
                seq: text::number(fields[1], u64::MAX as nat)->0 as u64,
                entity: fields[2],
                kind: kind_of(fields[3])->0,
                value: fields[4],
                hlc: hlc_of(fields[5])->0,
            },
        )
    }
}

/// Reads a clock reading.
fn hlc_from_field(field: &str) -> (hlc: Option<Hlc>)
    ensures
        hlc == hlc_of(field@),
{
    match split_once(field, '.') {
        Some((time, counter)) => match parse_number(time.as_str(), u64::MAX) {
            Some(time) => match parse_number(counter.as_str(), 0xffff_ffff) {
                Some(counter) => Some(Hlc { time, counter: counter as u32 }),
                None => None,
            },
            None => None,
        },
        None => None,
    }
}

/// Reads the operation that a row stands for.
pub fn from_record(fields: &Vec<String>) -> (op: Result<Op, RowError>)
    ensures
        match op {
            Ok(o) => parsed(text::texts(fields@)) == Ok::<OpView, Fault>(o@),
            Err(e) => parsed(text::texts(fields@)) == Err::<OpView, Fault>(e@),
        },
{
    let ghost views = text::texts(fields@);
    assert(views.len() == fields.len());
    assert(forall|i: int| 0 <= i < views.len() ==> #[trigger] views[i] == fields@[i]@);
    if fields.len() < 4 {
        return Err(RowError::Malformed);
    }
    let seq = match parse_number(fields[1].as_str(), u64::MAX) {
        Some(seq) => seq,
        None => {
            return Err(RowError::Malformed);
        },
    };
    let kind = match kind_from_field(fields[3].as_str()) {
        Ok(kind) => kind,
        Err(e) => {
            return Err(e);
        },
    };
    if fields.len() < 6 {
        return Err(RowError::Malformed);
    }
    match hlc_from_field(fields[5].as_str()) {
        Some(hlc) => Ok(
            Op {
                device: fields[0].clone(),
                seq,
                entity: fields[2].clone(),
                kind,
                value: fields[4].clone(),
                hlc,
            },
        ),
        None => Err(RowError::Malformed),
    }
}

/// The row of an operation reads as that operation.
pub proof fn law_record_reads_back(o: OpView)
    ensures
        parsed(record(o)) == Ok::<OpView, Fault>(o),
{
    text::lemma_numeral_reads_back(o.seq as nat, u64::MAX as nat);
    text::lemma_numeral_reads_back(o.hlc.time as nat, u64::MAX as nat);
    text::lemma_numeral_reads_back(o.hlc.counter as nat, u32::MAX as nat);
    law_kind_words_read_back(o.kind);
    let time = text::numeral(o.hlc.time as nat, 10);
    let counter = text::numeral(o.hlc.counter as nat, 10);
    let field = hlc_text(o.hlc);
    let n = time.len() as int;
    assert forall|j: int| 0 <= j < n implies field[j] != '.' by {
        assert(field[j] == time[j]);
        assert(text::is_decimal_digit(time[j]));
    }
    assert(text::is_first_char(field, '.', n));
    text::lemma_cut_at(field, '.', n);
    assert(field.take(n) =~= time);
    assert(field.skip(n + 1) =~= counter);
}

/// The names of the fields.
pub open spec fn heading() -> Seq<Seq<char>> {
    seq!["device"@, "seq"@, "entity"@, "kind"@, "value"@, "hlc"@]
}

/// The rows of a log: the heading and one row for each operation.
pub open spec fn log_rows(ops: Seq<OpView>) -> Seq<Seq<Seq<char>>> {
    seq![heading()] + ops.map_values(|o: OpView| record(o))
}

/// A log as it stands on disk.
pub open spec fn log_bytes(ops: Seq<OpView>) -> Seq<u8> {
    utf8::encode_utf8(csvtext::written_rows(log_rows(ops)))
}

/// The bytes that one more operation adds to a log.
pub open spec fn row_bytes(o: OpView) -> Seq<u8> {
    utf8::encode_utf8(csvtext::written_row(record(o)))
}

/// Appending the row of an operation to a log gives the log with that
/// operation at its end: the file only ever grows.
pub proof fn law_append_extends_the_log(ops: Seq<OpView>, o: OpView)
    ensures
        log_bytes(ops.push(o)) == log_bytes(ops) + row_bytes(o),
{
    let rows = log_rows(ops.push(o));
    assert(rows.drop_last() =~= log_rows(ops));
    assert(rows.last() == record(o));
    csvtext::lemma_encoding_joins(
        csvtext::written_rows(log_rows(ops)),
        csvtext::written_row(record(o)),
    );
}

/// The bytes to append to a log for `op`.
pub fn encode_row(op: &Op) -> (bytes: Vec<u8>)
    ensures
        bytes@ == row_bytes(op@),
{
    write_row(&to_record(op))
}

proof fn lemma_heading_row()
    ensures
        csvtext::written_rows(log_rows(Seq::empty())) == "device,seq,entity,kind,value,hlc\n"@,
        csvtext::written_rows(log_rows(Seq::empty())).len() > 0,
        csvtext::written_rows(log_rows(Seq::empty()))[0] == 'd',
{
    reveal_strlit("device");
    reveal_strlit("seq");
    reveal_strlit("entity");
    reveal_strlit("kind");
    reveal_strlit("value");
    reveal_strlit("hlc");
    reveal_strlit("device,seq,entity,kind,value,hlc\n");
    reveal_with_fuel(text::joined, 7);
    let names = heading();
    let fields = names.map_values(|f: Seq<char>| csvtext::written_field(f));
    assert forall|i: int| 0 <= i < names.len() implies !csvtext::needs_quotes(
        #[trigger] names[i],
    ) by {}
    assert(fields =~= names);
    let line = text::joined(names, seq![',']);
    assert(line =~= "device"@ + seq![','] + "seq"@ + seq![','] + "entity"@ + seq![','] + "kind"@
        + seq![','] + "value"@ + seq![','] + "hlc"@);
    assert(csvtext::written_row(names) =~= "device,seq,entity,kind,value,hlc\n"@);
    let rows = log_rows(Seq::empty());
    assert(rows.drop_last() =~= Seq::empty());
    assert(csvtext::written_rows(rows.drop_last()) =~= Seq::empty());
    assert(rows.last() == names);
    assert(csvtext::written_rows(rows) =~= csvtext::written_row(names));
}

/// What to write to a log when it is opened: the heading to a new one, and
/// nothing to one that is there.
pub fn opening(present: bool) -> (bytes: Vec<u8>)
    ensures
        bytes@ == if present {
            Seq::<u8>::empty()
        } else {
            log_bytes(Seq::empty())
        },
{
    if present {
        Vec::new()
    } else {
        proof {
            lemma_heading_row();
        }
        "device,seq,entity,kind,value,hlc\n".as_bytes_vec()
    }
}

/// Why a log cannot be loaded.
#[derive(Debug)]
pub enum LoadError {
    /// The file has no such row, or the row is not text.
    Unreadable(csv::Error),
    /// The row is not an operation.
    Row(RowError),
}

/// What a `LoadError` says.
#[verifier::ext_equal]
pub enum LoadFault {
    Unreadable,
    Row(Fault),
}

impl View for LoadError {
    type V = LoadFault;

    open spec fn view(&self) -> LoadFault {
        match self {
            LoadError::Unreadable(_) => LoadFault::Unreadable,
            LoadError::Row(e) => LoadFault::Row(e@),
        }
    }
}

/// The operation that one row of a file stands for.
pub open spec fn row_op(row: Option<Seq<Seq<char>>>) -> Result<OpView, LoadFault> {
    match row {
        Some(fields) => match parsed(fields) {
            Ok(o) => Ok(o),
            Err(f) => Err(LoadFault::Row(f)),
        },
        None => Err(LoadFault::Unreadable),
    }
}

/// The operations that the rows of a file stand for, in order, or what is
/// wrong with the first row that stands for none.
pub open spec fn loaded(rows: Seq<Option<Seq<Seq<char>>>>) -> Result<Seq<OpView>, LoadFault>
    decreases rows.len(),
{
    if rows.len() == 0 {
        Ok(Seq::empty())
    } else {
        match loaded(rows.drop_last()) {
            Ok(ops) => match row_op(rows.last()) {
                Ok(o) => Ok(ops.push(o)),
                Err(f) => Err(f),
            },
            Err(f) => Err(f),
        }
    }
}

proof fn lemma_first_fault_stays(rows: Seq<Option<Seq<Seq<char>>>>, n: int)
    requires
        0 <= n <= rows.len(),
        loaded(rows.take(n)) is Err,
    ensures
        loaded(rows) == loaded(rows.take(n)),
    decreases rows.len(),
{
    if n == rows.len() {
        assert(rows.take(n) =~= rows);
    } else {
        assert(rows.drop_last().take(n) =~= rows.take(n));
        lemma_first_fault_stays(rows.drop_last(), n);
    }
}

/// The operations that rows stand for, in order. Stops at the first row
/// that stands for none.
pub fn ops_of_rows(rows: Vec<Result<Vec<String>, csv::Error>>) -> (ops: Result<Vec<Op>, LoadError>)
    ensures
        match ops {
            Ok(v) => loaded(csvtext::rows_view(rows@)) == Ok::<Seq<OpView>, LoadFault>(
                op::ops_view(v@),
            ),
            Err(e) => loaded(csvtext::rows_view(rows@)) == Err::<Seq<OpView>, LoadFault>(e@),
        },
        ops matches Err(LoadError::Unreadable(e)) ==> exists|i: int|
            0 <= i < rows@.len() && #[trigger] rows@[i] == Err::<Vec<String>, csv::Error>(e)
                && loaded(csvtext::rows_view(rows@).take(i)) is Ok,
{
    let ghost all = rows@;
    let ghost views = csvtext::rows_view(all);
    let mut ops: Vec<Op> = Vec::new();
    assert(views.take(0) =~= Seq::empty());
    assert(op::ops_view(ops@) =~= Seq::empty());
    for row in it: rows
        invariant
            it.seq() == all,
            views == csvtext::rows_view(all),
            loaded(views.take(it.index() as int)) == Ok::<Seq<OpView>, LoadFault>(
                op::ops_view(ops@),
            ),
    {
        let ghost i = it.index() as int;
        proof {
            assert(row == all[i]);
            assert(views[i] == csvtext::row_view(row));
            assert(views.take(i + 1).drop_last() =~= views.take(i));
            assert(views.take(i + 1).last() == views[i]);
            if loaded(views.take(i + 1)) is Err {
                lemma_first_fault_stays(views, i + 1);
            }
        }
        match row {
            Ok(fields) => match from_record(&fields) {
                Ok(op) => {
                    let ghost had = ops@;
                    ops.push(op);
                    assert(op::ops_view(ops@) =~= op::ops_view(had).push(op@));
                },
                Err(e) => {
                    return Err(LoadError::Row(e));
                },
            },
            Err(e) => {
                return Err(LoadError::Unreadable(e));
            },
        }
    }
    assert(views.take(views.len() as int) =~= views);
    Ok(ops)
}

/// The operations of a log, in the order in which they were appended. A log
/// that is not there yet holds none.
pub fn load(file: Option<&[u8]>) -> (ops: Result<Vec<Op>, LoadError>)
    ensures
        file is None ==> (ops matches Ok(v) && v@.len() == 0),
        file matches Some(bytes) ==> match ops {
            Ok(v) => loaded(csvtext::rows_in(bytes@)) == Ok::<Seq<OpView>, LoadFault>(
                op::ops_view(v@),
            ),
            Err(e) => loaded(csvtext::rows_in(bytes@)) == Err::<Seq<OpView>, LoadFault>(e@),
        },
        forall|kept: Seq<OpView>|
            file is Some && file->0@ == #[trigger] log_bytes(kept) ==> (ops matches Ok(v)
                && op::ops_view(v@) == kept),
{
    match file {
        Some(bytes) => {
            let rows = read_rows(bytes);
            proof {
                assert forall|kept: Seq<OpView>|
                    bytes@ == #[trigger] log_bytes(kept) implies loaded(
                    csvtext::rows_view(rows@),
                ) == Ok::<Seq<OpView>, LoadFault>(kept) by {
                    let table = log_rows(kept);
                    lemma_log_is_table(kept);
                    assert(csvtext::rows_view(rows@) == csvtext::readable(table.skip(1)));
                    assert(table.skip(1) =~= kept.map_values(|o: OpView| record(o)));
                    lemma_rows_read_back(kept);
                }
            }
            ops_of_rows(rows)
        },
        None => Ok(Vec::new()),
    }
}

proof fn lemma_log_is_table(ops: Seq<OpView>)
    ensures
        csvtext::is_table(log_rows(ops)),
        csvtext::written_rows(log_rows(ops)).len() > 0,
        csvtext::written_rows(log_rows(ops))[0] == 'd',
    decreases ops.len(),
{
    let rows = log_rows(ops);
    if ops.len() == 0 {
        assert(ops =~= Seq::empty());
        lemma_heading_row();
    } else {
        lemma_log_is_table(ops.drop_last());
        assert(rows.drop_last() =~= log_rows(ops.drop_last()));
    }
    assert forall|i: int| 0 <= i < rows.len() implies (#[trigger] rows[i]).len()
        == rows[0].len() by {
        if i > 0 {
            assert(rows[i] == record(ops[i - 1]));
        }
    }
}

proof fn lemma_rows_read_back(ops: Seq<OpView>)
    ensures
        loaded(csvtext::readable(ops.map_values(|o: OpView| record(o)))) == Ok::<
            Seq<OpView>,
            LoadFault,
        >(ops),
    decreases ops.len(),
{
    let rows = csvtext::readable(ops.map_values(|o: OpView| record(o)));
    if ops.len() == 0 {
        assert(ops =~= Seq::empty());
    } else {
        let init = ops.drop_last();
        lemma_rows_read_back(init);
        assert(rows.drop_last() =~= csvtext::readable(init.map_values(|o: OpView| record(o))));
        assert(rows.last() == Some(record(ops.last())));
        law_record_reads_back(ops.last());
        assert(init.push(ops.last()) =~= ops);
    }
}

/// The separators of path names.
pub open spec fn is_slash(c: char) -> bool {
    c == '/' || c == '\\'
}

/// A directory and a file name put together where `/` separates names: a
/// name that is absolute by itself stands alone.
pub open spec fn slash_joined(dir: Seq<char>, name: Seq<char>) -> Seq<char> {
    if dir.len() == 0 || (name.len() > 0 && name[0] == '/') {
        name
    } else if dir.last() == '/' {
        dir + name
    } else {
        dir.push('/') + name
    }
}

/// The directory is one that is written to be taken literally, in a form
/// that some machines know.
pub open spec fn is_verbatim(dir: Seq<char>) -> bool {
    dir.len() >= 3 && is_slash(dir[0]) && is_slash(dir[1]) && dir[2] == '?'
}

/// `path` is a directory and a file name put together by the rules of some
/// machine. Where `/` separates names, there is one rule for all names.
/// Elsewhere the two stand side by side, with a `\` between them unless the
/// directory ends in a separator or in a drive; a name that starts at the
/// root keeps at most the drive of the directory; and a name with a drive of
/// its own stands alone.
pub open spec fn machine_joined(dir: Seq<char>, name: Seq<char>, path: Seq<char>) -> bool {
    ||| path == slash_joined(dir, name)
    ||| path == dir + name && (dir.len() == 0 || is_slash(dir.last()) || dir.last() == ':')
    ||| path == dir.push('\\') + name && dir.len() > 0 && dir.last() != '\\'
    ||| name.len() > 0 && is_slash(name[0]) && exists|k: int|
        0 <= k <= dir.len() && path == #[trigger] dir.take(k) + name
    ||| path == name && name.contains(':')
}

/// A directory and a file name put together by the rules of the machine.
/// Calls `std::path::Path::join`; the contract claims that the path is put
/// together by the rules of one machine or another. For a directory that is
/// to be taken literally nothing is claimed: there some machines rewrite the
/// path.
#[verifier::external_body]
fn join_path(dir: &str, name: &str) -> (path: String)
    ensures
        !is_verbatim(dir@) ==> machine_joined(dir@, name@, path@),
{
    std::path::Path::new(dir).join(name).to_string_lossy().into_owned()
}

/// The path of the log file for `device` in `data_dir`, by the rules of the
/// machine.
pub fn default_path(data_dir: &str, device: &str) -> (path: String)
    ensures
        !is_verbatim(data_dir@) ==> machine_joined(data_dir@, device@ + ".csv"@, path@),
{
    let mut name = device.to_owned();
    name.append(".csv");
    join_path(data_dir, name.as_str())
}

/// The words for the kinds of operations.
pub proof fn law_kinds_are_named(word: Seq<char>)
    ensures
        kind_word(OpKind::Upsert) == "upsert"@,
        kind_word(OpKind::Delete) == "delete"@,
        kind_of(word) is Some <==> word == "upsert"@ || word == "delete"@,
{
}

/// What a fault of a row says is in the error.
pub proof fn law_faults_say_what_is_wrong(e: RowError, l: LoadError)
    ensures
        e is Malformed <==> e@ is Malformed,
        e is UnknownKind ==> e@ is UnknownKind && e@->UnknownKind_0 == e->UnknownKind_0@,
        l is Unreadable <==> l@ is Unreadable,
        l is Row ==> l@ is Row && l@->Row_0 == l->Row_0@,
{
}

/// A row holds the fields of the operation in their order, each in full.
pub proof fn law_a_row_holds_every_field(o: OpView)
    ensures
        record(o).len() == 6,
        record(o)[0] == o.device,
        record(o)[1] == text::numeral(o.seq as nat, 10),
        record(o)[2] == o.entity,
        record(o)[3] == kind_word(o.kind),
        record(o)[4] == o.value,
        record(o)[5] == text::numeral(o.hlc.time as nat, 10) + seq!['.'] + text::numeral(
            o.hlc.counter as nat,
            10,
        ),
{
    let time = text::numeral(o.hlc.time as nat, 10);
    assert(time.push('.') =~= time + seq!['.']);
}

/// A clock reading is two numbers with a point between them, the first
/// point that there is, and nothing else is one.
pub proof fn law_a_reading_is_two_numbers(time: Seq<char>, counter: Seq<char>, field: Seq<char>)
    ensures
        !time.contains('.') ==> ({
            let t = text::number(time, 0xffff_ffff_ffff_ffff);
            let c = text::number(counter, 0xffff_ffff);
            &&& hlc_of(time + seq!['.'] + counter) is Some <==> t is Some && c is Some
            &&& t is Some && c is Some ==> hlc_of(time + seq!['.'] + counter)->0.time == t->0
                && hlc_of(time + seq!['.'] + counter)->0.counter == c->0
        }),
        !field.contains('.') ==> hlc_of(field) is None,
{
    if !time.contains('.') {
        text::law_cuts_are_at_the_first_mark(time, '.', counter);
    }
    if !field.contains('.') {
        text::law_cuts_are_at_the_first_mark(field, '.', field);
    }
}

/// A row is an operation exactly if it has six fields or more, the second a
/// number, the fourth a kind and the sixth a clock reading; its fields are
/// then those of the operation. An unknown word where the kind belongs is
/// named, unless the row was malformed before it.
pub proof fn law_what_a_row_stands_for(fields: Seq<Seq<char>>)
    ensures
        parsed(fields) is Ok <==> {
            &&& fields.len() >= 6
            &&& text::number(fields[1], 0xffff_ffff_ffff_ffff) is Some
            &&& kind_of(fields[3]) is Some
            &&& hlc_of(fields[5]) is Some
        },
        parsed(fields) matches Ok(o) ==> {
            &&& o.device == fields[0]
            &&& text::number(fields[1], 0xffff_ffff_ffff_ffff) == Some(o.seq as nat)
            &&& o.entity == fields[2]
            &&& kind_of(fields[3]) == Some(o.kind)
            &&& o.value == fields[4]
            &&& hlc_of(fields[5]) == Some(o.hlc)
        },
        fields.len() >= 4 && text::number(fields[1], 0xffff_ffff_ffff_ffff) is Some && kind_of(
            fields[3],
        ) is None ==> parsed(fields) == Err::<OpView, Fault>(Fault::UnknownKind(fields[3])),
        parsed(fields) is Err && !(fields.len() >= 4 && text::number(
            fields[1],
            0xffff_ffff_ffff_ffff,
        ) is Some && kind_of(fields[3]) is None) ==> parsed(fields) == Err::<OpView, Fault>(
            Fault::Malformed,
        ),
{
}

/// A log is the heading and then the row of each operation, in order.
pub proof fn law_a_log_is_a_row_for_each_operation(ops: Seq<OpView>, i: int)
    ensures
        log_rows(ops).len() == ops.len() + 1,
        log_rows(ops)[0] == seq!["device"@, "seq"@, "entity"@, "kind"@, "value"@, "hlc"@],
        0 <= i < ops.len() ==> log_rows(ops)[i + 1] == record(ops[i]),
        log_bytes(ops) == utf8::encode_utf8(csvtext::written_rows(log_rows(ops))),
{
}

/// The log of no operations is the line with the names of the fields.
pub proof fn law_a_new_log_is_the_heading()
    ensures
        log_bytes(Seq::empty()) == utf8::encode_utf8("device,seq,entity,kind,value,hlc\n"@),
{
    lemma_heading_row();
}

/// A file loads exactly if every row stands for an operation, and then
/// gives those operations, one for one and in order; else the first row
/// that stands for none says why.
pub proof fn law_loading_goes_row_by_row(rows: Seq<Option<Seq<Seq<char>>>>)
    ensures
        loaded(rows) is Ok <==> forall|i: int|
            0 <= i < rows.len() ==> rows[i] is Some && parsed((#[trigger] rows[i])->0) is Ok,
        loaded(rows) matches Ok(ops) ==> {
            &&& ops.len() == rows.len()
            &&& forall|i: int|
                0 <= i < rows.len() ==> Ok::<OpView, Fault>(#[trigger] ops[i]) == parsed(rows[i]->0)
        },
        loaded(rows) matches Err(f) ==> exists|i: int|
            {
                &&& 0 <= i < rows.len()
                &&& forall|j: int|
                    0 <= j < i ==> rows[j] is Some && parsed((#[trigger] rows[j])->0) is Ok
                &&& match #[trigger] rows[i] {
                    None => f is Unreadable,
                    Some(fields) => parsed(fields) is Err && f == LoadFault::Row(
                        parsed(fields)->Err_0,
                    ),
                }
            },
    decreases rows.len(),
{
    if rows.len() > 0 {
        let init = rows.drop_last();
        let n = rows.len() - 1;
        law_loading_goes_row_by_row(init);
        assert forall|i: int| 0 <= i < n implies init[i] == #[trigger] rows[i] by {}
        assert(rows[n] == rows.last());
        if loaded(init) is Err {
            let i = choose|i: int|
                {
                    &&& 0 <= i < init.len()
                    &&& forall|j: int|
                        0 <= j < i ==> init[j] is Some && parsed((#[trigger] init[j])->0) is Ok
                    &&& match #[trigger] init[i] {
                        None => loaded(init)->Err_0 is Unreadable,
                        Some(fields) => parsed(fields) is Err && loaded(init)->Err_0
                            == LoadFault::Row(parsed(fields)->Err_0),
                    }
                };
            assert(rows[i] == init[i]);
            assert forall|j: int| 0 <= j < i implies rows[j] is Some && parsed(
                (#[trigger] rows[j])->0,
            ) is Ok by {
                assert(init[j] is Some);
            }
        } else {
            assert forall|j: int| 0 <= j < n implies rows[j] is Some && parsed(
                (#[trigger] rows[j])->0,
            ) is Ok by {
                assert(init[j] is Some);
            }
            if row_op(rows.last()) is Ok {
                let ops = loaded(rows)->Ok_0;
                assert forall|i: int| 0 <= i < rows.len() implies Ok::<OpView, Fault>(
                    #[trigger] ops[i],
                ) == parsed(rows[i]->0) by {
                    if i < n {
                        assert(ops[i] == loaded(init)->Ok_0[i]);
                    }
                }
            }
        }
    }
}

/// By the rules of whatever machine, the path ends in the file name, in full.
pub proof fn law_a_path_ends_in_its_file_name(dir: Seq<char>, name: Seq<char>, path: Seq<char>)
    requires
        machine_joined(dir, name, path),
    ensures
        path.len() >= name.len(),
        path.skip(path.len() - name.len()) == name,
{
    if name.len() > 0 && is_slash(name[0]) && exists|k: int|
        0 <= k <= dir.len() && path == #[trigger] dir.take(k) + name {
        let k = choose|k: int| 0 <= k <= dir.len() && path == #[trigger] dir.take(k) + name;
        assert((dir.take(k) + name).skip(k) =~= name);
    }
    assert((dir + name).skip(dir.len() as int) =~= name);
    assert((dir.push('/') + name).skip(dir.len() as int + 1) =~= name);
    assert((dir.push('\\') + name).skip(dir.len() as int + 1) =~= name);
    assert(name.skip(0) =~= name);
}

} // verus!
