use tini::tokenizer::Tokenizer;

fn collect(mut t: Tokenizer) -> Vec<String> {
    let mut items: Vec<String> = Vec::new();
    while let Some(tok) = t.next() {
        items.push(tok);
    }
    items
}

#[test]
fn items() {
    let s = "1,2,3,4,5";
    let items: Vec<_> = collect(Tokenizer::new(s));
    assert_eq!(items, ["1", "2", "3", "4", "5"]);
}

#[test]
fn escaped() {
    let s = "1,2,3\\,4,5,6";
    let items: Vec<_> = collect(Tokenizer::new(s));
    assert_eq!(items, ["1", "2", "3\\,4", "5", "6"]);
}

#[test]
fn last_quoted() {
    let s = "1,2,3\\,";
    let items: Vec<_> = collect(Tokenizer::new(s));
    assert_eq!(items, ["1", "2", "3\\,"]);
}

#[test]
fn one_escaped_item() {
    let s = "\\,\\,\\,";
    let items: Vec<_> = collect(Tokenizer::new(s));
    assert_eq!(items, [s]);
}

#[test]
fn empty_one() {
    let s = "1,,2,3";
    let items: Vec<_> = collect(Tokenizer::new(s));
    assert_eq!(items, ["1", "", "2", "3"]);
}

#[test]
fn empty_and_escape() {
    let s = "1,\\,,2,3";
    let items: Vec<_> = collect(Tokenizer::new(s));
    assert_eq!(items, ["1", "\\,", "2", "3"]);
}

#[test]
fn empty_last() {
    let s = "1,2,";
    let items: Vec<_> = collect(Tokenizer::new(s));
    assert_eq!(items, ["1", "2"]);
}

#[test]
fn other_separator() {
    let items: Vec<_> = collect(Tokenizer::with_sep("a,b|c,d| e ", '|'));
    assert_eq!(items, ["a,b", "c,d", "e"]);
}

#[test]
fn empty_input() {
    let items: Vec<_> = collect(Tokenizer::new(""));
    assert_eq!(items, Vec::<String>::new());
}

#[test]
fn trailing_backslash() {
    let items: Vec<_> = collect(Tokenizer::new("a,b\\"));
    assert_eq!(items, ["a", "b\\"]);
}
