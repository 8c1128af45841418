//! Numbers and strings.

use bison::text::{chars_of, push_i32, push_padded, push_usize, read_digits};

fn decimal(n: usize) -> String {
    let mut s = String::new();
    push_usize(&mut s, n);
    s
}

#[test]
fn numbers_are_written_and_read_back() {
    for n in [0usize, 7, 9, 10, 42, 100, 1234567890, 2147483647] {
        let s = decimal(n);
        assert_eq!(s, n.to_string());
        let chars = chars_of(&s);
        assert_eq!(read_digits(&chars, 0, chars.len(), 10), n as i32);
    }
    assert_eq!(decimal(usize::MAX), usize::MAX.to_string());
}

#[test]
fn numbers_with_a_sign() {
    for i in [0i32, 5, -5, i32::MAX, i32::MIN] {
        let mut s = String::from("<");
        push_i32(&mut s, i);
        assert_eq!(s, format!("<{}", i));
    }
}

#[test]
fn numbers_in_a_field() {
    for n in [0usize, 12, 123, 1234, 12345] {
        let mut s = String::new();
        push_padded(&mut s, n);
        assert_eq!(s, format!("{:>4}", n));
    }
}

#[test]
fn digits_that_do_not_fit() {
    let chars = chars_of("2147483648");
    assert_eq!(read_digits(&chars, 0, 10, 10), 0);
    assert_eq!(read_digits(&chars, 0, 0, 10), 0);
    assert_eq!(read_digits(&chars, 1, 4, 10), 147);
    assert_eq!(read_digits(&chars_of("fF"), 0, 2, 16), 255);
}
