use lru_cache::persistence::{load, read_entry, save, split_line, write_entry};
use lru_cache::text::{read_digit, read_digits, read_int, write_digits, write_int};
use lru_cache::traits::{CacheTrait, Key, Text, Value};
use lru_cache::Cache;

#[test]
fn split_line_at_first_equals() {
    assert_eq!(split_line("a=b"), Some(("a", "b")));
    assert_eq!(split_line("key=va=lue"), Some(("key", "va=lue")));
    assert_eq!(split_line("k=="), Some(("k", "=")));
    assert_eq!(split_line("é=ü"), Some(("é", "ü")));
}

#[test]
fn split_line_rejects_missing_or_empty_parts() {
    assert_eq!(split_line(""), None);
    assert_eq!(split_line("abc"), None);
    assert_eq!(split_line("=b"), None);
    assert_eq!(split_line("a="), None);
    assert_eq!(split_line("="), None);
    assert_eq!(split_line("=="), None);
}

#[test]
fn write_entry_joins_with_equals() {
    assert_eq!(write_entry(&"A".to_string(), &"value_a".to_string()), "A=value_a");
    assert_eq!(write_entry(&-7i32, &42u64), "-7=42");
}

#[test]
fn read_entry_parses_both_parts() {
    assert_eq!(read_entry::<i32, i32>("1=10"), Some((1, 10)));
    assert_eq!(read_entry::<i32, String>("1=a=b"), Some((1, "a=b".to_string())));
    assert_eq!(read_entry::<i32, i32>("x=10"), None);
    assert_eq!(read_entry::<i32, i32>("1=y"), None);
    assert_eq!(read_entry::<i32, i32>("1"), None);
    assert_eq!(read_entry::<String, String>("k="), None);
}

#[test]
fn write_int_gives_decimal_text() {
    assert_eq!(write_int(0), "0");
    assert_eq!(write_int(7), "7");
    assert_eq!(write_int(10), "10");
    assert_eq!(write_int(-1), "-1");
    assert_eq!(write_int(1234567890), "1234567890");
    assert_eq!(write_int(i128::MAX), i128::MAX.to_string());
    assert_eq!(write_int(i128::MIN), i128::MIN.to_string());
    assert_eq!(write_digits(u128::MAX), u128::MAX.to_string());
    assert_eq!(write_digits(0), "0");
}

#[test]
fn read_digit_knows_the_ten_digits() {
    assert_eq!(read_digit('0'), Some(0));
    assert_eq!(read_digit('5'), Some(5));
    assert_eq!(read_digit('9'), Some(9));
    assert_eq!(read_digit('a'), None);
    assert_eq!(read_digit('='), None);
    assert_eq!(read_digit('٣'), None);
}

#[test]
fn read_digits_accepts_leading_zeros_and_checks_limit() {
    assert_eq!(read_digits("0", 0), Some(0));
    assert_eq!(read_digits("007", 10), Some(7));
    assert_eq!(read_digits("255", 255), Some(255));
    assert_eq!(read_digits("256", 255), None);
    assert_eq!(read_digits("", 255), None);
    assert_eq!(read_digits("12a", 255), None);
    assert_eq!(read_digits(&u128::MAX.to_string(), u128::MAX), Some(u128::MAX));
    assert_eq!(read_digits("340282366920938463463374607431768211456", u128::MAX), None);
    assert_eq!(read_digits("000000000000000000000000000000000000000000000001", 1), Some(1));
}

#[test]
fn read_int_accepts_signs_and_checks_bounds() {
    assert_eq!(read_int("0", -5, 5), Some(0));
    assert_eq!(read_int("-0", -5, 5), Some(0));
    assert_eq!(read_int("+3", -5, 5), Some(3));
    assert_eq!(read_int("-5", -5, 5), Some(-5));
    assert_eq!(read_int("-6", -5, 5), None);
    assert_eq!(read_int("6", -5, 5), None);
    assert_eq!(read_int("", -5, 5), None);
    assert_eq!(read_int("-", -5, 5), None);
    assert_eq!(read_int("+", -5, 5), None);
    assert_eq!(read_int("--1", -5, 5), None);
    assert_eq!(read_int(" 1", -5, 5), None);
    assert_eq!(read_int("3", 4, 9), None);
    assert_eq!(read_int("4", 4, 9), Some(4));
    assert_eq!(read_int("-3", -9, -4), None);
    assert_eq!(read_int("-4", -9, -4), Some(-4));
    assert_eq!(read_int("-0", 0, 0), Some(0));
    assert_eq!(read_int(&i128::MIN.to_string(), i128::MIN, i128::MAX), Some(i128::MIN));
    assert_eq!(read_int(&i128::MAX.to_string(), i128::MIN, i128::MAX), Some(i128::MAX));
    assert_eq!(read_int("170141183460469231731687303715884105728", i128::MIN, i128::MAX), None);
}

#[test]
fn integer_text_agrees_with_std() {
    for v in [0i32, 1, -1, 9, 10, 99, 100, -100, i32::MAX, i32::MIN] {
        assert_eq!(v.to_text(), v.to_string());
        assert_eq!(i32::from_text(&v.to_string()), Some(v));
    }
    for s in ["", "+", "-", "2147483648", "-2147483649", "1.0", "0x10", "1 ", "+-1"] {
        assert_eq!(i32::from_text(s), s.parse::<i32>().ok());
        assert_eq!(i32::from_text(s), None);
    }
    for s in ["+5", "-0", "0007", "2147483647", "-2147483648"] {
        assert_eq!(i32::from_text(s), s.parse::<i32>().ok());
    }
    assert_eq!(u32::from_text("-1"), None);
    assert_eq!(u32::from_text("-0"), Some(0));
    assert_eq!(u32::from_text("4294967295"), Some(u32::MAX));
    assert_eq!(u32::from_text("4294967296"), None);
    assert_eq!(i64::from_text("-9223372036854775808"), Some(i64::MIN));
    assert_eq!(i64::from_text("9223372036854775808"), None);
    assert_eq!(u64::from_text("18446744073709551615"), Some(u64::MAX));
    assert_eq!(u64::from_text("18446744073709551616"), None);
    assert_eq!(u64::MAX.to_text(), "18446744073709551615");
    assert_eq!(i64::MIN.to_text(), "-9223372036854775808");
}

#[test]
fn string_text_is_the_string() {
    assert_eq!("héllo".to_string().to_text(), "héllo");
    assert_eq!(String::from_text(""), Some(String::new()));
    assert_eq!(String::from_text("a=b"), Some("a=b".to_string()));
}

#[test]
fn keys_compare_by_content_and_values_copy() {
    assert!("a".to_string().same(&"a".to_string()));
    assert!(!"a".to_string().same(&"b".to_string()));
    assert!(5i32.same(&5));
    assert!(!5u64.same(&6));
    assert_eq!("v".to_string().duplicate(), "v");
    assert_eq!((-3i64).duplicate(), -3);
    assert_eq!(7u32.duplicate(), 7);
}

#[test]
fn save_lists_entries_oldest_first() {
    let mut cache: Cache<String, String> = Cache::new(3);
    cache.put("A".into(), "value_a".into());
    cache.put("B".into(), "value_b".into());
    cache.put("C".into(), "value_c".into());
    cache.put("D".into(), "value_d".into());
    cache.get(&"A".into());
    cache.get(&"D".into());
    cache.get(&"B".into());
    assert_eq!(save(&cache), vec!["C=value_c".to_string(), "D=value_d".to_string(), "B=value_b".to_string()]);
    assert_eq!(cache.save_as_strings(), save(&cache));
}

#[test]
fn load_skips_lines_that_stand_for_no_entry() {
    let lines: Vec<String> = ["1=10", "", "nonsense", "=5", "6=", "x=7", "8=y", "2=20", "+3=030", "99999999999=1"]
        .iter()
        .map(|s| s.to_string())
        .collect();
    let mut cache: Cache<i32, i32> = Cache::new(10);
    load(&lines, &mut cache);
    assert_eq!(save(&cache), vec!["1=10".to_string(), "2=20".to_string(), "3=30".to_string()]);
}

#[test]
fn load_keeps_values_with_equals_signs() {
    let lines = vec!["k=a=b=c".to_string()];
    let mut cache: Cache<String, String> = Cache::new(1);
    cache.load_from_strings(&lines);
    assert_eq!(cache.get(&"k".to_string()), Some("a=b=c".to_string()));
}

#[test]
fn load_of_no_lines_leaves_cache_unchanged() {
    let mut fresh: Cache<i32, i32> = Cache::new(3);
    load(&Vec::new(), &mut fresh);
    assert_eq!(fresh.len(), 0);

    let mut used: Cache<i32, i32> = Cache::new(3);
    used.put(1, 10);
    used.put(2, 20);
    used.load_from_strings(&Vec::new());
    assert_eq!(save(&used), vec!["1=10".to_string(), "2=20".to_string()]);
}

#[test]
fn load_puts_on_top_of_what_is_held() {
    let mut cache: Cache<i32, i32> = Cache::new(3);
    cache.put(1, 10);
    cache.put(2, 20);
    load(&vec!["1=11".to_string(), "3=30".to_string(), "4=40".to_string()], &mut cache);
    assert_eq!(save(&cache), vec!["1=11".to_string(), "3=30".to_string(), "4=40".to_string()]);
}

#[test]
fn load_into_smaller_cache_evicts_as_live_puts_do() {
    let mut big: Cache<i32, i32> = Cache::new(5);
    for k in 1..=5 {
        big.put(k, k * 10);
    }
    let lines = save(&big);
    let mut small: Cache<i32, i32> = Cache::new(2);
    load(&lines, &mut small);
    assert_eq!(save(&small), vec!["4=40".to_string(), "5=50".to_string()]);

    let mut none: Cache<i32, i32> = Cache::new(0);
    load(&lines, &mut none);
    assert_eq!(none.len(), 0);
}

#[test]
fn round_trip_keeps_entries_and_eviction_order() {
    let mut cache: Cache<String, i64> = Cache::new(4);
    cache.put("a".into(), -1);
    cache.put("b".into(), 2);
    cache.put("c".into(), -3);
    cache.get(&"a".to_string());
    let lines = save(&cache);
    assert_eq!(lines, vec!["b=2".to_string(), "c=-3".to_string(), "a=-1".to_string()]);

    let mut restored: Cache<String, i64> = Cache::new(3);
    load(&lines, &mut restored);
    assert_eq!(save(&restored), lines);

    let mut replayed: Cache<String, i64> = Cache::new(3);
    replayed.put("b".into(), 2);
    replayed.put("c".into(), -3);
    replayed.put("a".into(), -1);

    restored.put("d".into(), 4);
    replayed.put("d".into(), 4);
    assert_eq!(save(&restored), save(&replayed));
    assert_eq!(restored.get(&"b".to_string()), None);
    assert_eq!(restored.get(&"c".to_string()), Some(-3));
}

#[test]
fn narrow_and_pointer_sized_integers_read_within_their_range() {
    assert_eq!(u8::from_text("255"), Some(255));
    assert_eq!(u8::from_text("256"), None);
    assert_eq!(i8::from_text("-128"), Some(-128));
    assert_eq!(i8::from_text("128"), None);
    assert_eq!(u16::from_text("65535"), Some(65535));
    assert_eq!(i16::from_text("-32769"), None);
    assert_eq!(usize::from_text(&usize::MAX.to_string()), Some(usize::MAX));
    assert_eq!(isize::from_text(&isize::MIN.to_string()), Some(isize::MIN));
    assert_eq!(usize::from_text("-1"), None);
    assert_eq!(200u8.to_text(), "200");
    assert_eq!((-128i8).to_text(), "-128");
    assert_eq!(usize::MAX.to_text(), usize::MAX.to_string());

    let mut cache: Cache<u8, i16> = Cache::new(2);
    cache.put(1, -1);
    cache.put(2, -2);
    cache.put(3, -3);
    assert_eq!(cache.capacity(), 2);
    assert_eq!(save(&cache), vec!["2=-2".to_string(), "3=-3".to_string()]);
}
