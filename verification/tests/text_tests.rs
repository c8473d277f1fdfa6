use paperless_index::text::{chars_lt, chars_of, str_equal, u64_to_decimal};

#[test]
fn decimal_of_zero() {
    assert_eq!(u64_to_decimal(0), "0");
}

#[test]
fn decimal_of_numbers() {
    assert_eq!(u64_to_decimal(7), "7");
    assert_eq!(u64_to_decimal(10), "10");
    assert_eq!(u64_to_decimal(1234567890), "1234567890");
    assert_eq!(u64_to_decimal(u64::MAX), u64::MAX.to_string());
}

#[test]
fn chars_of_unicode() {
    assert_eq!(chars_of("Grüße"), vec!['G', 'r', 'ü', 'ß', 'e']);
    assert_eq!(chars_of(""), Vec::<char>::new());
}

#[test]
fn str_equal_compares_text() {
    assert!(str_equal("Title", "Title"));
    assert!(!str_equal("Title", "title"));
    assert!(!str_equal("Tit", "Title"));
    assert!(str_equal("", ""));
}

#[test]
fn chars_lt_matches_string_order() {
    let words = ["", "a", "ab", "b", "B", "Zebra", "äpfel", "apfel", "2024-01-02", "2024-01-10"];
    for a in words.iter() {
        for b in words.iter() {
            assert_eq!(chars_lt(&chars_of(a), &chars_of(b)), a < b, "{} < {}", a, b);
        }
    }
}
