use redips::digest::concat_bytes;
use redips::text::{owned, push_decimal, push_text, same_text};

#[test]
fn decimal_digits_are_appended() {
    let mut s = String::from("block:");
    push_decimal(&mut s, 0);
    assert_eq!(s, "block:0");
    let mut s = String::new();
    push_decimal(&mut s, 1234567890);
    assert_eq!(s, "1234567890");
    let mut s = String::from("x");
    push_decimal(&mut s, u64::MAX);
    assert_eq!(s, format!("x{}", u64::MAX));
}

#[test]
fn different_numbers_have_different_decimals() {
    let text = |n: u64| {
        let mut s = String::new();
        push_decimal(&mut s, n);
        s
    };
    let values = [0u64, 1, 9, 10, 11, 100, 101, 1000, 65535, u64::MAX];
    for a in values {
        for b in values {
            assert_eq!(text(a) == text(b), a == b);
        }
    }
}

#[test]
fn text_helpers() {
    assert!(same_text("abc", "abc"));
    assert!(!same_text("abc", "abd"));
    assert!(!same_text("abc", "ab"));
    assert_eq!(owned("héllo"), "héllo");
    let mut s = String::from("ab");
    push_text(&mut s, "cd");
    assert_eq!(s, "abcd");
    assert_eq!(concat_bytes(&[1, 2], &[3]), vec![1, 2, 3]);
    assert_eq!(concat_bytes(&[], &[]), Vec::<u8>::new());
}
