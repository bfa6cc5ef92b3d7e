use coalesce_cache::record::{decode, Account, DecodeError};

fn account(id: u64, balance_cents: i64, name: &str) -> Account {
    Account { id, balance_cents, name: name.to_string() }
}

fn assert_round_trip(a: Account) {
    let text = a.encode();
    let back = decode(&text).expect("an encoded account decodes");
    assert_eq!(back.id, a.id);
    assert_eq!(back.balance_cents, a.balance_cents);
    assert_eq!(back.name, a.name);
}

#[test]
fn encodes_field_tagged_object() {
    let a = account(42, 1000, "John Doe");
    assert_eq!(a.encode(), r#"{"id":42,"balance_cents":1000,"name":"John Doe"}"#);
}

#[test]
fn encodes_negative_amount_and_escapes() {
    let a = account(7, -250, "a\"b\\c");
    assert_eq!(a.encode(), r#"{"id":7,"balance_cents":-250,"name":"a\"b\\c"}"#);
}

#[test]
fn round_trip_positive_zero_negative() {
    assert_round_trip(account(42, 1000, "John Doe"));
    assert_round_trip(account(0, 0, ""));
    assert_round_trip(account(1, -1, "x"));
}

#[test]
fn round_trip_extremes() {
    assert_round_trip(account(u64::MAX, i64::MIN, "Zoë \"Z\" \\ Ünal"));
    assert_round_trip(account(u64::MAX, i64::MAX, "\\\\\"\""));
}

#[test]
fn decodes_text_written_by_hand() {
    let a = decode(r#"{"id":5,"balance_cents":-3,"name":"Ann"}"#).unwrap();
    assert_eq!((a.id, a.balance_cents, a.name.as_str()), (5, -3, "Ann"));
}

#[test]
fn malformed_texts_are_rejected() {
    let bad = [
        "",
        "{}",
        "not json",
        r#"{"id":42,"balance_cents":1000,"name":"John Doe""#,
        r#"{"id":42,"balance_cents":1000,"name":"John Doe"} "#,
        r#"{"id":,"balance_cents":1000,"name":"x"}"#,
        r#"{"id":18446744073709551616,"balance_cents":1,"name":"x"}"#,
        r#"{"id":1,"balance_cents":9223372036854775808,"name":"x"}"#,
        r#"{"id":1,"balance_cents":-9223372036854775809,"name":"x"}"#,
        r#"{"id":1,"name":"x","balance_cents":1}"#,
        r#"{"id":1,"balance_cents":1,"name":"x\"}"#,
    ];
    for t in bad.iter() {
        assert!(matches!(decode(t), Err(DecodeError::Malformed)), "accepted {}", t);
    }
}

#[test]
fn control_characters_use_json_escapes() {
    let a = account(3, 0, "a\nb\r\t\u{8}\u{c}\u{1}\u{1f}");
    assert_eq!(
        a.encode(),
        r#"{"id":3,"balance_cents":0,"name":"a\nb\r\t\b\f\u0001\u001f"}"#
    );
    assert_round_trip(a);
}

#[test]
fn decodes_json_escapes() {
    let a = decode(r#"{"id":1,"balance_cents":2,"name":"a\nb\/c\u001FA\"\\"}"#).unwrap();
    assert_eq!(a.name, "a\nb/c\u{1f}A\"\\");
    assert!(matches!(
        decode(r#"{"id":1,"balance_cents":2,"name":"\q"}"#),
        Err(DecodeError::Malformed)
    ));
    assert!(matches!(
        decode(r#"{"id":1,"balance_cents":2,"name":"\u00g1"}"#),
        Err(DecodeError::Malformed)
    ));
}
