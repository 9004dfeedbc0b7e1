use zdb::order::{compare_bytes, compare_text, same_text, Position};

#[test]
fn bytes_compare_lexicographically() {
    assert_eq!(compare_bytes(b"", b""), Position::Same);
    assert_eq!(compare_bytes(b"", b"a"), Position::Before);
    assert_eq!(compare_bytes(b"a", b""), Position::After);
    assert_eq!(compare_bytes(b"abc", b"abc"), Position::Same);
    assert_eq!(compare_bytes(b"abc", b"abd"), Position::Before);
    assert_eq!(compare_bytes(b"abd", b"abc"), Position::After);
    assert_eq!(compare_bytes(b"ab", b"abc"), Position::Before);
    assert_eq!(compare_bytes(b"b", b"abc"), Position::After);
    assert_eq!(compare_bytes(&[0xff], &[0x7f, 0xff]), Position::After);
}

#[test]
fn texts_compare_as_strings_do() {
    let texts = ["", "a", "A", "ab", "b", "é", "z", "€", "\u{1F600}", "zz", "a\u{0}"];
    for a in texts {
        for b in texts {
            let expected = match a.cmp(b) {
                std::cmp::Ordering::Less => Position::Before,
                std::cmp::Ordering::Equal => Position::Same,
                std::cmp::Ordering::Greater => Position::After,
            };
            assert_eq!(compare_text(a, b), expected);
            assert_eq!(same_text(a, b), a == b);
        }
    }
}
