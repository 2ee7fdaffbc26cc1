use webimint::order::{bytes_eq, bytes_lt, starts_with};

#[test]
fn bytes_lt_is_the_lexicographic_order() {
    assert!(bytes_lt(&[], &[0x00]));
    assert!(bytes_lt(&[0x10], &[0x10, 0x01]));
    assert!(bytes_lt(&[0x10, 0x01], &[0x11]));
    assert!(bytes_lt(&[0x11], &[0x20]));
    assert!(bytes_lt(&[0x00, 0xff], &[0x01]));
    assert!(!bytes_lt(&[0x10], &[0x10]));
    assert!(!bytes_lt(&[], &[]));
    assert!(!bytes_lt(&[0x10, 0x01], &[0x10]));
    assert!(!bytes_lt(&[0x20], &[0x11, 0xff]));
}

#[test]
fn bytes_lt_agrees_with_the_order_of_slices() {
    let samples: Vec<Vec<u8>> = vec![
        vec![],
        vec![0x00],
        vec![0x00, 0x00],
        vec![0x01],
        vec![0x7f],
        vec![0x80],
        vec![0xff],
        vec![0xff, 0x00],
        vec![0x10, 0x20, 0x30],
        vec![0x10, 0x20],
    ];
    for a in &samples {
        for b in &samples {
            assert_eq!(bytes_lt(a, b), a < b);
            assert_eq!(bytes_eq(a, b), a == b);
        }
    }
}

#[test]
fn bytes_eq_compares_contents() {
    assert!(bytes_eq(&[], &[]));
    assert!(bytes_eq(&[1, 2, 3], &[1, 2, 3]));
    assert!(!bytes_eq(&[1, 2, 3], &[1, 2]));
    assert!(!bytes_eq(&[1, 2, 3], &[1, 2, 4]));
    assert!(!bytes_eq(&[], &[0]));
}

#[test]
fn starts_with_finds_prefixes() {
    assert!(starts_with(&[0x10, 0x01], &[0x10]));
    assert!(starts_with(&[0x10], &[0x10]));
    assert!(starts_with(&[0x10], &[]));
    assert!(starts_with(&[], &[]));
    assert!(!starts_with(&[0x10], &[0x10, 0x01]));
    assert!(!starts_with(&[0x11], &[0x10]));
    assert!(!starts_with(&[], &[0x00]));
}
