use disko_zfs::value::decimal_string;
use disko_zfs::PropertyValue;
use disko_zfs::StrMap;

#[test]
fn integer_renders_in_decimal() {
    assert_eq!(PropertyValue::new_integer(8192).to_string(), "8192");
    assert_eq!(PropertyValue::new_integer(0).to_string(), "0");
    assert_eq!(PropertyValue::new_integer(-42).to_string(), "-42");
}

#[test]
fn integer_extremes_render_like_display() {
    assert_eq!(decimal_string(i64::MAX), i64::MAX.to_string());
    assert_eq!(decimal_string(i64::MIN), i64::MIN.to_string());
    assert_eq!(decimal_string(-1), "-1");
    assert_eq!(decimal_string(10), "10");
    assert_eq!(decimal_string(1_000_000_007), "1000000007");
}

#[test]
fn string_renders_as_itself() {
    assert_eq!(PropertyValue::new_string("128K").to_string(), "128K");
    assert_eq!(PropertyValue::new_string("").to_string(), "");
}

#[test]
fn unsigned_numbers_wrap_into_signed() {
    assert_eq!(PropertyValue::from_unsigned(5), PropertyValue::Integer(5));
    assert_eq!(PropertyValue::from_unsigned(u64::MAX), PropertyValue::Integer(-1));
}

#[test]
fn values_compare_by_kind_and_content() {
    assert_eq!(PropertyValue::new_integer(1), PropertyValue::new_integer(1));
    assert_ne!(PropertyValue::new_integer(1), PropertyValue::new_integer(2));
    assert_ne!(PropertyValue::new_integer(1), PropertyValue::new_string("1"));
    assert_eq!(PropertyValue::new_string("on"), PropertyValue::new_string("on"));
    assert_ne!(PropertyValue::new_string("on"), PropertyValue::new_string("off"));
}

#[test]
fn clone_keeps_value() {
    let v = PropertyValue::new_string("lz4");
    assert_eq!(v.clone(), v);
}

#[test]
fn map_insert_replaces_in_place_and_appends_new_keys() {
    let mut m: StrMap<PropertyValue> = StrMap::new();
    m.insert("a".to_string(), PropertyValue::new_integer(1));
    m.insert("b".to_string(), PropertyValue::new_integer(2));
    m.insert("a".to_string(), PropertyValue::new_integer(3));
    assert_eq!(m.len(), 2);
    assert_eq!(m.key_at(0), "a");
    assert_eq!(m.value_at(0), &PropertyValue::new_integer(3));
    assert_eq!(m.key_at(1), "b");
    assert!(m.contains_key("b"));
    assert!(!m.contains_key("c"));
    assert_eq!(m.get("b"), Some(&PropertyValue::new_integer(2)));
    assert_eq!(m.get("c"), None);
}

#[test]
fn map_get_mut_changes_the_entry() {
    let mut m: StrMap<PropertyValue> = StrMap::new();
    m.insert("a".to_string(), PropertyValue::new_integer(1));
    if let Some(v) = m.get_mut("a") {
        *v = PropertyValue::new_string("x");
    }
    assert!(m.get_mut("missing").is_none());
    assert_eq!(m.get("a"), Some(&PropertyValue::new_string("x")));
}

#[test]
fn map_clone_keeps_entries_in_order() {
    let mut m: StrMap<PropertyValue> = StrMap::new();
    m.insert("z".to_string(), PropertyValue::new_integer(1));
    m.insert("a".to_string(), PropertyValue::new_string("q"));
    let c = m.clone();
    assert_eq!(c.len(), 2);
    assert_eq!(c.key_at(0), "z");
    assert_eq!(c.key_at(1), "a");
    assert_eq!(c.value_at(1), &PropertyValue::new_string("q"));
}

#[test]
fn map_read_gives_back_last_write_and_leaves_other_keys() {
    let mut m: StrMap<PropertyValue> = StrMap::new();
    m.insert("a".to_string(), PropertyValue::new_integer(1));
    m.insert("b".to_string(), PropertyValue::new_integer(2));
    m.insert("b".to_string(), PropertyValue::new_string("two"));
    assert_eq!(m.get("b"), Some(&PropertyValue::new_string("two")));
    assert_eq!(m.get("a"), Some(&PropertyValue::new_integer(1)));
    assert_eq!(m.len(), 2);
}

#[test]
fn integer_text_parses_back() {
    for i in [0i64, 7, -7, 10, -10, 123456789, i64::MAX, i64::MIN] {
        let t = PropertyValue::new_integer(i).to_string();
        assert_eq!(t.parse::<i64>().unwrap(), i);
        assert_eq!(t.starts_with('-'), i < 0);
        let digits = t.trim_start_matches('-');
        assert!(digits == "0" || !digits.starts_with('0'));
    }
}
