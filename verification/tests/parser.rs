use tini::parser::{parse_line, Parsed};

#[test]
fn test_comment() {
    match parse_line(";------") {
        Parsed::Empty => assert!(true),
        _ => assert!(false),
    }
}

#[test]
fn test_entry() {
    match parse_line("name1 = 100 ; comment") {
        Parsed::Value(name, text) => {
            assert_eq!(name, String::from("name1"));
            assert_eq!(text, String::from("100"));
        }
        _ => assert!(false),
    }
}

#[test]
fn test_weird_name() {
    match parse_line("_.,:(){}-#@&*| = 100") {
        Parsed::Value(name, text) => {
            assert_eq!(name, String::from("_.,:(){}-#@&*|"));
            assert_eq!(text, String::from("100"));
        }
        _ => assert!(false),
    }
}

#[test]
fn test_text_entry() {
    match parse_line("text_name = hello world!") {
        Parsed::Value(name, text) => {
            assert_eq!(name, String::from("text_name"));
            assert_eq!(text, String::from("hello world!"));
        }
        _ => assert!(false),
    }
}

#[test]
fn test_incorrect_token() {
    match parse_line("[section = 1, 2 = value") {
        Parsed::Error(_) => assert!(true),
        _ => assert!(false),
    }
}

#[test]
fn test_incorrect_key_value_line() {
    match parse_line("= 3") {
        Parsed::Error(_) => assert!(true),
        _ => assert!(false),
    }
}

#[test]
fn error_messages() {
    match parse_line("[unterminated") {
        Parsed::Error(m) => assert_eq!(m, "incorrect section syntax"),
        _ => assert!(false),
    }
    match parse_line("= 3") {
        Parsed::Error(m) => assert_eq!(m, "empty key"),
        _ => assert!(false),
    }
    match parse_line("no separator here") {
        Parsed::Error(m) => assert_eq!(m, "incorrect syntax"),
        _ => assert!(false),
    }
}

#[test]
fn section_edges() {
    match parse_line("  [boxed]  ; note") {
        Parsed::Section(name) => assert_eq!(name, "boxed"),
        _ => assert!(false),
    }
    match parse_line("[]") {
        Parsed::Section(name) => assert_eq!(name, ""),
        _ => assert!(false),
    }
}

#[test]
fn value_keeps_equals() {
    match parse_line("key = a=b=c") {
        Parsed::Value(name, text) => {
            assert_eq!(name, "key");
            assert_eq!(text, "a=b=c");
        }
        _ => assert!(false),
    }
}
