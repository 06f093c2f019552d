use asset_ledger::Entry;
use asset_ledger::KvTable;
use asset_ledger::parse_dec;
use asset_ledger::u128_to_dec;

fn record(pairs: &[(&str, &str)]) -> Entry {
    let mut e = Entry::new();
    for (k, v) in pairs {
        e.push_field(String::from(*k), String::from(*v));
    }
    e
}

#[test]
fn decimal_rendering_is_exact() {
    assert_eq!(u128_to_dec(0), "0");
    assert_eq!(u128_to_dec(7), "7");
    assert_eq!(u128_to_dec(10), "10");
    assert_eq!(u128_to_dec(12345), "12345");
    assert_eq!(
        u128_to_dec(u128::MAX),
        "340282366920938463463374607431768211455",
    );
}

#[test]
fn decimal_parsing_is_exact() {
    assert_eq!(parse_dec("0"), Some(0));
    assert_eq!(parse_dec("00042"), Some(42));
    assert_eq!(parse_dec("12345"), Some(12345));
    assert_eq!(
        parse_dec("340282366920938463463374607431768211455"),
        Some(u128::MAX),
    );
}

#[test]
fn decimal_parsing_rejects_bad_input() {
    assert_eq!(parse_dec(""), None);
    assert_eq!(parse_dec("12a3"), None);
    assert_eq!(parse_dec("-1"), None);
    assert_eq!(parse_dec(" 1"), None);
    // One past u128::MAX.
    assert_eq!(parse_dec("340282366920938463463374607431768211456"), None);
}

#[test]
fn decimal_round_trip() {
    for v in [0u128, 1, 9, 10, 99, 100, 4096, u128::MAX - 1, u128::MAX] {
        assert_eq!(parse_dec(u128_to_dec(v).as_str()), Some(v));
    }
}

#[test]
fn entry_reads_the_first_matching_field() {
    let e = record(&[("account", "alice"), ("asset_value", "100"), ("asset_value", "7")]);
    assert_eq!(e.get_field(&String::from("asset_value")), Some(&String::from("100")));
    assert_eq!(e.get_field(&String::from("account")), Some(&String::from("alice")));
    assert_eq!(e.get_field(&String::from("missing")), None);
}

#[test]
fn table_get_reads_what_insert_wrote() {
    let mut t = KvTable::new();
    assert!(t.get(&String::from("alice")).is_none());
    assert_eq!(t.insert(String::from("alice"), record(&[("asset_value", "5")])), 1);
    let e = t.get(&String::from("alice")).expect("row should exist");
    assert_eq!(e.get_field(&String::from("asset_value")), Some(&String::from("5")));
}

#[test]
fn table_insert_refuses_a_duplicate_key() {
    let mut t = KvTable::new();
    assert_eq!(t.insert(String::from("alice"), record(&[("asset_value", "5")])), 1);
    assert_eq!(t.insert(String::from("alice"), record(&[("asset_value", "9")])), 0);
    let e = t.get(&String::from("alice")).expect("row should exist");
    assert_eq!(e.get_field(&String::from("asset_value")), Some(&String::from("5")));
}

#[test]
fn table_update_rewrites_only_an_existing_row() {
    let mut t = KvTable::new();
    assert_eq!(t.update(&String::from("alice"), record(&[("asset_value", "9")])), 0);
    assert!(t.get(&String::from("alice")).is_none());
    assert_eq!(t.insert(String::from("alice"), record(&[("asset_value", "5")])), 1);
    assert_eq!(t.update(&String::from("alice"), record(&[("asset_value", "9")])), 1);
    let e = t.get(&String::from("alice")).expect("row should exist");
    assert_eq!(e.get_field(&String::from("asset_value")), Some(&String::from("9")));
}
