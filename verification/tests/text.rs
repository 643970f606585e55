use asap_sketchlib::text::{push_bytes, push_decimal};

#[test]
fn numbers_are_written_in_decimal() {
    for n in [0u64, 1, 9, 10, 11, 99, 100, 65536, u64::MAX] {
        let mut out = "n=".to_string();
        push_decimal(&mut out, n);
        assert_eq!(out, format!("n={n}"));
    }
}

#[test]
fn byte_lists_are_written_in_brackets() {
    for bytes in [&[][..], &[7], &[1, 2], &[0, 255, 10]] {
        let mut out = String::new();
        push_bytes(&mut out, bytes);
        assert_eq!(out, format!("{bytes:?}"));
    }
}
