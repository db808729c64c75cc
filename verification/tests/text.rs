use syncd::json::Json;
use syncd::text::{
    contains_char, decimal, hexadecimal, join, parse_number, same_text, split_all, split_once,
    starts_with, strip_prefix, text_lt, trim,
};
use syncd::textmap::TextMap;

const WORDS: [&str; 12] =
    ["", "a", "b", "ab", "a.b", "é", "zz", "z", "=a", "a=b=c", "\u{10ffff}", "\u{ffff}"];

#[test]
fn texts_are_ordered_as_strings_are() {
    for a in WORDS {
        for b in WORDS {
            assert_eq!(text_lt(a, b), a < b, "{a:?} {b:?}");
            assert_eq!(same_text(a, b), a == b);
            assert_eq!(starts_with(a, b), a.starts_with(b));
            assert_eq!(strip_prefix(a, b), a.strip_prefix(b).map(String::from));
        }
    }
}

#[test]
fn texts_are_cut_as_strings_are() {
    for a in WORDS {
        for c in ['.', '=', 'é', 'z'] {
            let halves = a.split_once(c).map(|(h, t)| (h.to_string(), t.to_string()));
            assert_eq!(split_once(a, c), halves);
            assert_eq!(contains_char(a, c), a.contains(c));
            assert_eq!(split_all(a, c), a.split(c).map(String::from).collect::<Vec<_>>());
        }
    }
}

#[test]
fn texts_are_joined() {
    let parts = |list: &[&str]| list.iter().map(|p| p.to_string()).collect::<Vec<_>>();
    assert_eq!(join(&parts(&[]), ", "), "");
    assert_eq!(join(&parts(&["a"]), ", "), "a");
    assert_eq!(join(&parts(&["a", "", "b"]), ", "), "a, , b");
}

#[test]
fn numbers_are_written_and_read() {
    for n in [0, 7, 10, 65535, 1_700_000_000_123, u64::MAX] {
        assert_eq!(decimal(n), n.to_string());
        assert_eq!(hexadecimal(n as u128), format!("{n:x}"));
        assert_eq!(parse_number(&decimal(n), u64::MAX), Some(n));
    }
    for t in ["", "+", "-0", "1 ", "+7", "007", "0x1", "18446744073709551616", "٣"] {
        assert_eq!(parse_number(t, u64::MAX), t.parse::<u64>().ok(), "{t}");
    }
    assert_eq!(parse_number("256", 255), None);
    assert_eq!(parse_number("255", 255), Some(255));
}

#[test]
fn white_space_is_trimmed_as_of_strings() {
    for t in ["", " ", "a", " a b\t\r\n", "\u{a0}\u{3000}x\u{2028}", "\u{200b}x", "\u{85}é\u{1680}"] {
        assert_eq!(trim(t), t.trim(), "{t:?}");
    }
    for n in 0..0x11_0000u32 {
        if let Some(c) = char::from_u32(n) {
            assert_eq!(trim(&c.to_string()).is_empty(), c.is_whitespace(), "{n:x}");
        }
    }
}

#[test]
fn a_text_map_keeps_its_rows_in_order() {
    let mut map: TextMap<u64> = TextMap::new();
    for (n, k) in ["m", "a", "z", "m", "é", ""].iter().enumerate() {
        map.insert(k.to_string(), n as u64);
    }
    let rows: Vec<(String, u64)> =
        (0..map.len()).map(|i| (map.key_at(i).clone(), *map.value_at(i))).collect();
    let expected = [("", 5), ("a", 1), ("m", 3), ("z", 2), ("é", 4)];
    assert_eq!(rows, expected.map(|(k, v)| (k.to_string(), v)).to_vec());
    assert_eq!(map.get("m"), Some(&3));
    assert_eq!(map.get("n"), None);
    assert_eq!(map.copy().len(), 5);
}

#[test]
fn documents_are_parsed() {
    let json = Json::from_bytes(br#"{"b": [1.5, "x", null, true], "a": {"c": -7}}"#).unwrap();
    let b = json.member("b").unwrap().as_array().unwrap();
    assert_eq!(b.len(), 4);
    assert!(matches!(&b[0], Json::Number(n) if n == "1.5"));
    assert_eq!(b[1].as_text().unwrap(), "x");
    assert!(matches!(b[2], Json::Null));
    assert_eq!(b[3].as_bool(), Some(true));
    assert!(matches!(json.member("a").unwrap().member("c"), Some(Json::Number(n)) if n == "-7"));
    assert!(json.member("c").is_none());
    assert!(json.as_array().is_none() && json.as_text().is_none() && json.as_bool().is_none());
    assert!(Json::from_bytes(b"").is_none());
    assert!(Json::from_bytes(b"{} {}").is_none());
    assert!(Json::from_bytes(b"\"\xff\"").is_none());
}

#[test]
fn members_come_by_name() {
    match Json::from_bytes(br#"{"z": 1, "a": 2, "m": 3, "a": 4}"#) {
        Some(Json::Object(members)) => {
            let names: Vec<&str> = members.iter().map(|m| m.0.as_str()).collect();
            assert_eq!(names, vec!["a", "m", "z"]);
            assert!(matches!(&members[0].1, Json::Number(n) if n == "4"));
        }
        other => panic!("{other:?}"),
    }
}

#[test]
fn a_copy_says_the_same() {
    let json = Json::from_bytes(br#"{"b": [1, "x", null, true], "a": {"c": []}}"#).unwrap();
    assert_eq!(format!("{:?}", json.copy()), format!("{json:?}"));
}
