use tini::Ini;

#[test]
fn bool() {
    let ini = Ini::from_buffer("[string]\nabc = true");
    let abc: Option<bool> = ini.get("string", "abc");
    assert_eq!(abc, Some(true));
}

#[test]
fn bad_cast() {
    let ini = Ini::new().section("one").item("a", "3.14");
    let a: Option<u32> = ini.get("one", "a");
    assert_eq!(a, None);
}

#[test]
fn string_vec() {
    let ini = Ini::from_buffer("[section]\nname=a, b, c");
    let name: Vec<String> = ini.get_vec("section", "name").unwrap_or(vec![]);
    assert_eq!(name, ["a", "b", "c"]);
}

#[test]
fn parse_error() {
    let ini = Ini::from_buffer("[section]\nlist = 1, 2, --, 4");
    let name: Option<Vec<u8>> = ini.get_vec("section", "list");
    assert_eq!(name, None);
}

#[test]
fn get_or_macro() {
    let ini = Ini::from_buffer("[section]\nlist = 1, 2, --, 4");
    let with_value: Vec<u8> = ini.get_vec("section", "list").unwrap_or(vec![1, 2, 3, 4]);
    assert_eq!(with_value, [1, 2, 3, 4]);
}

#[test]
fn ordering_iter() {
    let ini = Ini::from_buffer("[a]\nc = 1\nb = 2\na = 3");
    let mut it = ini.iter_section("a").unwrap();
    let mut keys: Vec<String> = Vec::new();
    while let Some((k, _)) = it.next() {
        keys.push(k.clone());
    }
    assert_eq!(["c", "b", "a"], keys[..]);
}

#[test]
fn ordering_keys() {
    let ini = Ini::from_buffer("[a]\nc = 1\nb = 2\na = 3");
    let mut it = ini.iter_section("a").unwrap();
    let mut keys: Vec<String> = Vec::new();
    while let Some((k, _)) = it.next() {
        keys.push(k.clone());
    }
    assert_eq!(["c", "b", "a"], keys[..]);
}

#[test]
fn mutating() {
    let mut config = Ini::new()
        .section("items")
        .item("a", "1")
        .item("b", "2")
        .item("c", "3");

    // mutate items
    let mut it = config.iter_mut();
    while it.has_next(&config) {
        let (_, section) = it.next(&mut config);
        let mut jt = section.iter_mut();
        while jt.has_next(section) {
            let (_, value) = jt.next(section);
            let v: i32 = value.parse().unwrap();
            *value = format!("{}", v + 1);
        }
    }

    let a_val: Option<u8> = config.get("items", "a");
    let b_val: Option<u8> = config.get("items", "b");
    let c_val: Option<u8> = config.get("items", "c");

    assert_eq!(a_val, Some(2));
    assert_eq!(b_val, Some(3));
    assert_eq!(c_val, Some(4));
}

#[test]
fn redefine_item() {
    let config = Ini::new()
        .section("items")
        .item("one", "3")
        .item("two", "2")
        .item("one", "1");

    let one: Option<i32> = config.get("items", "one");
    assert_eq!(one, Some(1));
}

#[test]
fn redefine_section() {
    let config = Ini::new()
        .section("one")
        .item("a", "1")
        .section("two")
        .item("b", "2")
        .section("one")
        .item("c", "3");

    let a_val: Option<i32> = config.get("one", "a");
    let c_val: Option<i32> = config.get("one", "c");

    assert_eq!(a_val, Some(1));
    assert_eq!(c_val, Some(3));
}

#[test]
fn with_escaped_items() {
    let config = Ini::new()
        .section("default")
        .item("vector", r"1, 2, 3, 4, 5, 6, 7");

    let vector: Vec<String> = config.get_vec("default", "vector").unwrap();
    assert_eq!(vector, ["1", "2", "3", "4", "5", "6", "7"]);
}

#[test]
fn use_item_vec() {
    let parts: Vec<String> = vec!["a,b".to_string(), "c,d".to_string(), "e".to_string()];
    let config = Ini::new()
        .section("default")
        .item_vec_with_sep("a", &parts, "|");

    let v: Vec<String> = config.get_vec_with_sep("default", "a", '|').unwrap();
    assert_eq!(v, [r"a,b", "c,d", "e"]);
}

#[test]
fn to_buffer_single_section() {
    let conf = Ini::from_buffer("[section]\none = 1");
    let value: String = conf.to_buffer();
    assert_eq!(value, "[section]\none = 1");
}

#[test]
fn end_to_end_search() {
    let conf = Ini::from_buffer("[search]\ng = google.com\ndd = duckduckgo.com");
    let g: String = conf.get("search", "g").unwrap();
    let dd: String = conf.get("search", "dd").unwrap();
    assert_eq!(g, "google.com");
    assert_eq!(dd, "duckduckgo.com");
    let mut it = conf.iter_section("search").unwrap();
    let mut pairs: Vec<(String, String)> = Vec::new();
    while let Some((k, v)) = it.next() {
        pairs.push((k.clone(), v.clone()));
    }
    assert_eq!(
        pairs,
        [
            ("g".to_string(), "google.com".to_string()),
            ("dd".to_string(), "duckduckgo.com".to_string())
        ]
    );
    assert_eq!(conf.to_buffer(), "[search]\ng = google.com\ndd = duckduckgo.com");
}

#[test]
fn malformed_line_skipped() {
    let ini = Ini::from_buffer("[a]\nbadline\nk = v");
    let v: Option<String> = ini.get("a", "k");
    assert_eq!(v, Some("v".to_string()));
    let bad: Option<String> = ini.get("a", "badline");
    assert_eq!(bad, None);
    let report = tini::parse_report("[a]\nbadline\nk = v");
    assert_eq!(report.len(), 1);
    assert_eq!(report[0].0, 1);
    assert_eq!(report[0].1, "incorrect syntax");
}

#[test]
fn round_trip_buffer() {
    let conf = Ini::new()
        .section("alpha")
        .item("first", "one")
        .item("second", "2")
        .section("beta")
        .item("third", "x = y");
    let text = conf.to_buffer();
    let again = Ini::from_buffer(&text);
    assert_eq!(again.to_buffer(), text);
    let first: Option<String> = again.get("alpha", "first");
    let third: Option<String> = again.get("beta", "third");
    assert_eq!(first, Some("one".to_string()));
    assert_eq!(third, Some("x = y".to_string()));
}

#[test]
fn insert_twice_order() {
    let conf = Ini::new()
        .section("s")
        .item("a", "1")
        .item("b", "2")
        .item("a", "1");
    let mut it = conf.iter_section("s").unwrap();
    let mut pairs: Vec<(String, String)> = Vec::new();
    while let Some((k, v)) = it.next() {
        pairs.push((k.clone(), v.clone()));
    }
    assert_eq!(
        pairs,
        [("a".to_string(), "1".to_string()), ("b".to_string(), "2".to_string())]
    );
}

#[test]
fn update_keeps_order() {
    // distinct first insertions, then updates in another order
    let conf = Ini::new()
        .section("s")
        .item("x", "1")
        .item("y", "2")
        .item("z", "3")
        .item("z", "30")
        .item("x", "10");
    let mut it = conf.iter_section("s").unwrap();
    let mut keys: Vec<String> = Vec::new();
    while let Some((k, _)) = it.next() {
        keys.push(k.clone());
    }
    assert_eq!(keys, ["x", "y", "z"]);
    let x: Option<u8> = conf.get("s", "x");
    assert_eq!(x, Some(10));
}

#[test]
fn int_vec() {
    let ini = Ini::from_buffer("[section]\nlist = 1, 2, 3, 4");
    let list: Option<Vec<u8>> = ini.get_vec("section", "list");
    assert_eq!(list, Some(vec![1, 2, 3, 4]));
}

#[test]
fn typed_bounds() {
    let ini = Ini::from_buffer("[n]\nbig = 300\nhuge = 99999999999999999999999999");
    let as_u8: Option<u8> = ini.get("n", "big");
    assert_eq!(as_u8, None);
    let as_u16: Option<u16> = ini.get("n", "big");
    assert_eq!(as_u16, Some(300));
    let as_u64: Option<u64> = ini.get("n", "huge");
    assert_eq!(as_u64, None);
}

#[test]
fn signed_values() {
    let ini = Ini::from_buffer("[n]\nneg = -5\npos = +7\nmin = -2147483648");
    let neg: Option<i32> = ini.get("n", "neg");
    assert_eq!(neg, Some(-5));
    let neg_u: Option<u32> = ini.get("n", "neg");
    assert_eq!(neg_u, None);
    let pos: Option<u32> = ini.get("n", "pos");
    assert_eq!(pos, Some(7));
    let min: Option<i32> = ini.get("n", "min");
    assert_eq!(min, Some(i32::MIN));
    let min64: Option<i64> = ini.get("n", "min");
    assert_eq!(min64, Some(-2147483648i64));
}

#[test]
fn empty_value() {
    let ini = Ini::from_buffer("[s]\nk =");
    let v: Option<String> = ini.get("s", "k");
    assert_eq!(v, Some(String::new()));
}

#[test]
fn entry_before_header() {
    let ini = Ini::from_buffer("orphan = 1\n[s]\nk = v");
    let v: Option<u8> = ini.get("", "orphan");
    assert_eq!(v, Some(1));
}

#[test]
fn header_only_section() {
    let ini = Ini::from_buffer("[empty]");
    assert_eq!(ini.to_buffer(), "[empty]");
}

#[test]
fn comment_only_buffer() {
    let ini = Ini::from_buffer("; nothing here\n;-----");
    assert_eq!(ini.to_buffer(), "");
}

#[test]
fn crlf_lines() {
    let ini = Ini::from_buffer("[a]\r\nk = v\r\nm = w");
    let v: Option<String> = ini.get("a", "k");
    let w: Option<String> = ini.get("a", "m");
    assert_eq!(v, Some("v".to_string()));
    assert_eq!(w, Some("w".to_string()));
}

#[test]
fn missing_lookup() {
    let ini = Ini::from_buffer("[a]\nk = v");
    let no_section: Option<String> = ini.get("b", "k");
    let no_key: Option<String> = ini.get("a", "missing");
    assert_eq!(no_section, None);
    assert_eq!(no_key, None);
    assert!(ini.iter_section("b").is_none());
}
