use mc_console::digest::{generate_sha512_string, to_lower_hex};
use mc_console::text::{decimal_string, parse_entries, StringMap};

#[test]
fn sha512_of_empty_string() {
    assert_eq!(
        generate_sha512_string(String::new()),
        "cf83e1357eefb8bdf1542850d66d8007d620e4050b5715dc83f4a921d36ce9ce47d0d13c5d85f2b0ff8318d2877eec2f63b931bd47417a81a538327af927da3e"
    );
}

#[test]
fn sha512_of_abc() {
    assert_eq!(
        generate_sha512_string("abc".to_string()),
        "ddaf35a193617abacc417349ae20413112e6fa4e89a97ea20a9eeee64b55d39a2192992a274fc1a836ba3c23a3feebbd454d4423643ce80e2a9ac94fa54ca49f"
    );
}

#[test]
fn sha512_hex_has_128_digits() {
    let h = generate_sha512_string("hunter2".to_string());
    assert_eq!(h.len(), 128);
    assert!(h.chars().all(|c| c.is_ascii_digit() || ('a'..='f').contains(&c)));
}

#[test]
fn lower_hex_two_digits_per_byte() {
    assert_eq!(to_lower_hex(&vec![0x00, 0x0a, 0xff, 0x10]), "000aff10");
    assert_eq!(to_lower_hex(&vec![]), "");
}

#[test]
fn records_follow_str_lines() {
    for text in ["a:1\nb:2\r\nc:3", "a:1\n", "", "a:1\r", "x:\r\r\ny:z", "one:two:three", ":\n:\n"] {
        let expected: Vec<(String, String)> = text
            .lines()
            .map(|l| {
                let (k, v) = l.split_once(':').unwrap();
                (k.to_string(), v.to_string())
            })
            .collect();
        assert_eq!(parse_entries(text).unwrap(), expected, "text {:?}", text);
    }
    assert_eq!(
        parse_entries("a:1\r").unwrap(),
        vec![("a".to_string(), "1\r".to_string())]
    );
}

#[test]
fn entries_split_at_first_colon() {
    let es = parse_entries("u:p\nv:q:r\n").unwrap();
    assert_eq!(
        es,
        vec![
            ("u".to_string(), "p".to_string()),
            ("v".to_string(), "q:r".to_string())
        ]
    );
    assert_eq!(parse_entries("").unwrap(), vec![]);
}

#[test]
fn entries_refuse_a_line_without_colon() {
    assert!(parse_entries("u:p\nbad\n").is_none());
    assert!(parse_entries("u:p\n\n").is_none());
}

#[test]
fn string_map_later_value_wins() {
    let mut m = StringMap::new();
    m.insert("a".to_string(), "1".to_string());
    m.insert("b".to_string(), "2".to_string());
    m.insert("a".to_string(), "3".to_string());
    assert_eq!(m.get("a"), Some("3".to_string()));
    assert_eq!(m.get("b"), Some("2".to_string()));
    assert_eq!(m.get("c"), None);
    assert!(m.contains_key("b"));
    assert!(!m.contains_key("c"));
}

#[test]
fn decimal_strings() {
    assert_eq!(decimal_string(0), "0");
    assert_eq!(decimal_string(318), "318");
    assert_eq!(decimal_string(-42), "-42");
    assert_eq!(decimal_string(i64::MIN), i64::MIN.to_string());
    assert_eq!(decimal_string(i64::MAX), i64::MAX.to_string());
}
