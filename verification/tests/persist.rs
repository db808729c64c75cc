use syncd::clock::Hlc;
use syncd::op::{Op, OpKind};
use syncd::persist::{
    default_path, encode_row, from_record, kind_from_field, kind_to_field, load, opening,
    ops_of_rows, to_record, LoadError, RowError,
};

fn op(device: &str, seq: u64, entity: &str, kind: OpKind, value: &str, time: u64, counter: u32) -> Op {
    Op {
        device: device.to_string(),
        seq,
        entity: entity.to_string(),
        kind,
        value: value.to_string(),
        hlc: Hlc { time, counter },
    }
}

fn row(fields: &[&str]) -> Vec<String> {
    fields.iter().map(|f| f.to_string()).collect()
}

fn same(a: &Op, b: &Op) -> bool {
    a.device == b.device
        && a.seq == b.seq
        && a.entity == b.entity
        && a.kind == b.kind
        && a.value == b.value
        && a.hlc == b.hlc
}

#[test]
fn kinds_are_words() {
    assert_eq!(kind_to_field(OpKind::Upsert), "upsert");
    assert_eq!(kind_to_field(OpKind::Delete), "delete");
    assert_eq!(kind_from_field("upsert").unwrap(), OpKind::Upsert);
    assert_eq!(kind_from_field("delete").unwrap(), OpKind::Delete);
}

#[test]
fn other_words_are_no_kinds() {
    for word in ["", "Upsert", "upsert ", "del"] {
        match kind_from_field(word) {
            Err(RowError::UnknownKind(w)) => assert_eq!(w, word),
            other => panic!("{other:?}"),
        }
    }
}

#[test]
fn a_record_has_six_fields() {
    let o = op("dev", 42, "key", OpKind::Upsert, "val", 1700000000123, 7);
    assert_eq!(
        to_record(&o).to_vec(),
        row(&["dev", "42", "key", "upsert", "val", "1700000000123.7"])
    );
}

#[test]
fn a_record_reads_back() {
    let ops = [
        op("dev", 42, "key", OpKind::Upsert, "val", 1700000000123, 7),
        op("", 0, "", OpKind::Delete, "", 0, 0),
        op("a,b", u64::MAX, "x\"y", OpKind::Upsert, "line\nbreak", u64::MAX, u32::MAX),
    ];
    for o in &ops {
        let back = from_record(&to_record(o).to_vec()).unwrap();
        assert!(same(o, &back));
    }
}

#[test]
fn malformed_rows_are_refused() {
    let good = ["d", "1", "e", "upsert", "v", "5.6"];
    assert!(from_record(&row(&good)).is_ok());
    for n in 0..6 {
        assert!(matches!(from_record(&row(&good[..n])), Err(RowError::Malformed)), "{n} fields");
    }
    for (at, bad) in [
        (1, ""),
        (1, "-1"),
        (1, "x"),
        (1, " 1"),
        (1, "18446744073709551616"),
        (5, "5"),
        (5, "5."),
        (5, ".6"),
        (5, "5.6.7"),
        (5, "5.4294967296"),
        (5, "x.6"),
    ] {
        let mut fields = good;
        fields[at] = bad;
        assert!(matches!(from_record(&row(&fields)), Err(RowError::Malformed)), "{bad}");
    }
}

#[test]
fn a_plus_sign_and_further_fields_do_no_harm() {
    let o = from_record(&row(&["d", "+1", "e", "delete", "", "+5.+6", "more"])).unwrap();
    assert_eq!((o.seq, o.hlc), (1, Hlc { time: 5, counter: 6 }));
}

#[test]
fn an_unknown_kind_is_told_before_what_follows_it() {
    match from_record(&row(&["d", "1", "e", "merge"])) {
        Err(RowError::UnknownKind(word)) => assert_eq!(word, "merge"),
        other => panic!("{other:?}"),
    }
    assert!(matches!(from_record(&row(&["d", "x", "e", "merge"])), Err(RowError::Malformed)));
}

#[test]
fn rows_are_quoted_where_they_must_be() {
    let text = |o: &Op| String::from_utf8(encode_row(o)).unwrap();
    assert_eq!(text(&op("d", 1, "k", OpKind::Upsert, "v", 5, 6)), "d,1,k,upsert,v,5.6\n");
    assert_eq!(text(&op("d", 1, "k", OpKind::Delete, "", 5, 6)), "d,1,k,delete,,5.6\n");
    assert_eq!(
        text(&op("a,b", 1, "say \"hi\"", OpKind::Upsert, "two\nlines", 5, 6)),
        "\"a,b\",1,\"say \"\"hi\"\"\",upsert,\"two\nlines\",5.6\n"
    );
    assert_eq!(text(&op("d", 1, "k", OpKind::Upsert, "r\r", 5, 6)), "d,1,k,upsert,\"r\r\",5.6\n");
    assert_eq!(text(&op("d", 1, " k ", OpKind::Upsert, "é", 5, 6)), "d,1, k ,upsert,é,5.6\n");
}

#[test]
fn only_a_new_log_gets_a_heading() {
    assert_eq!(opening(false), b"device,seq,entity,kind,value,hlc\n".to_vec());
    assert!(opening(true).is_empty());
}

#[test]
fn a_log_that_is_not_there_is_empty() {
    assert!(load(None).unwrap().is_empty());
}

#[test]
fn a_log_reads_back() {
    let ops = [
        op("b", 1, "k", OpKind::Upsert, "v", 5, 6),
        op("a,b", 9, "say \"hi\"", OpKind::Upsert, "two\r\nlines", 7, 0),
        op("b", 2, "", OpKind::Delete, "", 8, 1),
        op("\u{feff}b", 3, "ünï", OpKind::Upsert, "\"", 8, 2),
    ];
    let mut file = opening(false);
    for o in &ops {
        file.extend(opening(true));
        file.extend(encode_row(o));
    }
    let back = load(Some(&file)).unwrap();
    assert_eq!(back.len(), ops.len());
    assert!(ops.iter().zip(&back).all(|(a, b)| same(a, b)));
}

#[test]
fn a_log_with_only_a_heading_is_empty() {
    assert!(load(Some(&opening(false))).unwrap().is_empty());
    assert!(load(Some(b"")).unwrap().is_empty());
}

#[test]
fn loading_stops_at_the_first_bad_row() {
    let file = b"device,seq,entity,kind,value,hlc\nd,1,k,upsert,v,5.6\nd,2,k,merge,v,5.6\nd,x,k,upsert,v,5.6\n";
    match load(Some(file)) {
        Err(LoadError::Row(RowError::UnknownKind(word))) => assert_eq!(word, "merge"),
        other => panic!("{other:?}"),
    }
    let file = b"device,seq,entity,kind,value,hlc\nd,x,k,upsert,v,5.6\nd,2,k,merge,v,5.6\n";
    assert!(matches!(load(Some(file)), Err(LoadError::Row(RowError::Malformed))));
}

#[test]
fn a_row_of_another_length_is_unreadable() {
    let file = b"device,seq,entity,kind,value,hlc\nd,1,k,upsert,v,5.6\nd,2,k\nd,2,k,merge,v,5.6\n";
    assert!(matches!(load(Some(file)), Err(LoadError::Unreadable(_))));
    let file = b"device,seq,entity,kind,value,hlc\nd,1,\xff,upsert,v,5.6\n";
    assert!(matches!(load(Some(file)), Err(LoadError::Unreadable(_))));
}

#[test]
fn rows_become_operations() {
    let rows = vec![
        Ok(row(&["d", "1", "e", "upsert", "v", "5.6"])),
        Ok(row(&["d", "2", "e", "delete", "", "5.7"])),
    ];
    let ops = ops_of_rows(rows).unwrap();
    assert_eq!(ops.len(), 2);
    assert_eq!((ops[1].seq, ops[1].kind), (2, OpKind::Delete));
    assert!(ops_of_rows(Vec::new()).unwrap().is_empty());
}

#[test]
fn a_log_has_its_place() {
    let sep = std::path::MAIN_SEPARATOR;
    assert_eq!(default_path("data", "laptop"), format!("data{sep}laptop.csv"));
    assert_eq!(default_path("data/", "laptop"), "data/laptop.csv");
    assert_eq!(default_path("/", "laptop"), "/laptop.csv");
    assert_eq!(default_path("", "laptop"), "laptop.csv");
    assert_eq!(default_path("data", "/laptop"), "/laptop.csv");
    assert_eq!(default_path("data", ""), format!("data{sep}.csv"));
}

#[test]
fn a_log_has_the_place_that_paths_join_to() {
    for (dir, device) in [("data", "x"), ("data/", "x"), ("", "x"), ("a/b", "/x"), ("/", "x"), ("/a:b", "x"), ("//a", "x"), ("a", "x:1")] {
        let joined = std::path::Path::new(dir).join(format!("{device}.csv"));
        assert_eq!(default_path(dir, device), joined.to_str().unwrap());
    }
}
