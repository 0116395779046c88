use yuzu::store::Yuzu;

fn open(delimiter: &str, contents: &str) -> Result<Yuzu, String> {
    Yuzu::from_contents(
        String::from("db.txt"),
        String::from(delimiter),
        String::from(contents),
    )
}

#[test]
fn open_scenario() {
    let db = open("=", "a=1\nb=2\n").unwrap();
    assert_eq!(db.get(String::from("a")), Some(String::from("1")));
    assert_eq!(db.get(String::from("b")), Some(String::from("2")));
    assert_eq!(db.get(String::from("c")), None);
}

#[test]
fn set_then_reopen() {
    let mut db = open("=", "a=1\nb=2\n").unwrap();
    assert_eq!(db.set(String::from("c"), String::from("3")), None);
    assert_eq!(db.get(String::from("c")), Some(String::from("3")));

    let reopened = open("=", &db.parse_to_string()).unwrap();
    assert_eq!(reopened.get(String::from("a")), Some(String::from("1")));
    assert_eq!(reopened.get(String::from("b")), Some(String::from("2")));
    assert_eq!(reopened.get(String::from("c")), Some(String::from("3")));
}

#[test]
fn remove_then_reopen() {
    let mut db = open("=", "a=1\nb=2\nc=3\n").unwrap();
    assert_eq!(db.remove(String::from("a")), Some(String::from("1")));
    assert_eq!(db.get(String::from("a")), None);

    let reopened = open("=", &db.parse_to_string()).unwrap();
    assert_eq!(reopened.get(String::from("a")), None);
    assert_eq!(reopened.get(String::from("b")), Some(String::from("2")));
    assert_eq!(reopened.get(String::from("c")), Some(String::from("3")));
}

#[test]
fn set_overwrite() {
    let mut db = open("=", "").unwrap();
    assert_eq!(db.set(String::from("k"), String::from("v1")), None);
    assert_eq!(
        db.set(String::from("k"), String::from("v2")),
        Some(String::from("v1"))
    );
    assert_eq!(db.get(String::from("k")), Some(String::from("v2")));
}

#[test]
fn remove_absent_is_none() {
    let mut db = open("=", "a=1\n").unwrap();
    assert_eq!(db.remove(String::from("zzz")), None);
    assert_eq!(db.get(String::from("a")), Some(String::from("1")));
}

#[test]
fn remove_present_returns_previous() {
    let mut db = open("=", "a=1\n").unwrap();
    assert_eq!(db.remove(String::from("a")), Some(String::from("1")));
    assert_eq!(db.get(String::from("a")), None);
}

#[test]
fn last_write_wins_on_load() {
    let db = open("=", "a=1\na=2\n").unwrap();
    assert_eq!(db.get(String::from("a")), Some(String::from("2")));
}

#[test]
fn line_without_delimiter_fails() {
    let err = open("=", "a=1\nnodelim\n").unwrap_err();
    assert_eq!(err, "failed: parser error");
}

#[test]
fn line_with_two_delimiters_fails() {
    let err = open("=", "a=b=c\n").unwrap_err();
    assert_eq!(err, "failed: parser error");
}

#[test]
fn embedded_blank_line_fails() {
    let err = open("=", "a=1\n\nb=2\n").unwrap_err();
    assert_eq!(err, "failed: parser error");
}

#[test]
fn empty_file_is_empty_store() {
    let db = open("=", "").unwrap();
    assert_eq!(db.get(String::from("a")), None);
    assert_eq!(db.parse_to_string(), "");
}

#[test]
fn missing_trailing_newline_is_accepted() {
    let db = open("=", "a=1").unwrap();
    assert_eq!(db.get(String::from("a")), Some(String::from("1")));
}

#[test]
fn multi_character_delimiter() {
    let db = open("::", "key::value\nother::thing\n").unwrap();
    assert_eq!(db.get(String::from("key")), Some(String::from("value")));
    assert_eq!(db.get(String::from("other")), Some(String::from("thing")));
}

#[test]
fn serialized_record_format() {
    let db = open("=", "a=1\n").unwrap();
    assert_eq!(db.parse_to_string(), "a=1\n");
}

#[test]
fn empty_key_and_empty_value() {
    let db = open("=", "=\nk=\n=v\n").unwrap();
    assert_eq!(db.get(String::from("")), Some(String::from("v")));
    assert_eq!(db.get(String::from("k")), Some(String::from("")));
}

#[test]
fn round_trip_after_mutation() {
    let mut db = open("=", "").unwrap();
    db.set(String::from("alpha"), String::from("1"));
    db.set(String::from("beta"), String::from("2"));
    db.set(String::from("gamma"), String::from("3"));
    db.remove(String::from("beta"));
    db.set(String::from("alpha"), String::from("one"));

    let reopened = open("=", &db.parse_to_string()).unwrap();
    assert_eq!(reopened.get(String::from("alpha")), Some(String::from("one")));
    assert_eq!(reopened.get(String::from("beta")), None);
    assert_eq!(reopened.get(String::from("gamma")), Some(String::from("3")));
}

#[test]
fn parse_rows_directly() {
    let rows = Yuzu::parse(String::from("a=1\nb=2\n"), &String::from("=")).unwrap();
    assert_eq!(rows.len(), 2);
    assert_eq!(rows[0].key, "a");
    assert_eq!(rows[0].value, "1");
    assert_eq!(rows[1].key, "b");
    assert_eq!(rows[1].value, "2");
}

#[test]
fn parse_rejects_value_with_delimiter() {
    let err = Yuzu::parse(String::from("a=1=2\n"), &String::from("=")).unwrap_err();
    assert_eq!(err, "failed: parser error");
}
