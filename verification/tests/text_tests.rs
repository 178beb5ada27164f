use tinylang::text::{i64_text, u64_text};

#[test]
fn decimal_notation_matches_to_string() {
    for n in [0i64, 1, 9, 10, 99, 100, 12345, -1, -10, -987654321, i64::MAX, i64::MIN] {
        assert_eq!(i64_text(n), n.to_string());
    }
    for n in [0u64, 7, 10, 4294967295, u64::MAX] {
        assert_eq!(u64_text(n), n.to_string());
    }
}
