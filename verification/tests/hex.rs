use webimint::hex::{hex_decode, hex_encode};

#[test]
fn hex_encode_writes_two_lower_case_digits_per_byte() {
    assert_eq!(hex_encode(&[]), "");
    assert_eq!(hex_encode(&[0x00]), "00");
    assert_eq!(hex_encode(&[0x2f]), "2f");
    assert_eq!(hex_encode(&[0xff]), "ff");
    assert_eq!(hex_encode(&[0x01, 0x23, 0x45, 0x67, 0x89, 0xab, 0xcd, 0xef]), "0123456789abcdef");
    assert_eq!(hex_encode(&[0x10, 0x01]), "1001");
    assert_eq!(hex_encode(&[0x0a, 0xa0]), "0aa0");
}

#[test]
fn hex_decode_reads_digits_of_either_case() {
    assert_eq!(hex_decode(""), Some(vec![]));
    assert_eq!(hex_decode("00"), Some(vec![0x00]));
    assert_eq!(hex_decode("2f"), Some(vec![0x2f]));
    assert_eq!(hex_decode("2F"), Some(vec![0x2f]));
    assert_eq!(hex_decode("0123456789abcdef"), Some(vec![0x01, 0x23, 0x45, 0x67, 0x89, 0xab, 0xcd, 0xef]));
    assert_eq!(hex_decode("ABCDEF"), Some(vec![0xab, 0xcd, 0xef]));
    assert_eq!(hex_decode("aB"), Some(vec![0xab]));
}

#[test]
fn hex_decode_refuses_what_is_not_hexadecimal() {
    assert_eq!(hex_decode("0"), None);
    assert_eq!(hex_decode("abc"), None);
    assert_eq!(hex_decode("0g"), None);
    assert_eq!(hex_decode("g0"), None);
    assert_eq!(hex_decode("0x"), None);
    assert_eq!(hex_decode(" 0"), None);
    assert_eq!(hex_decode("0/"), None);
    assert_eq!(hex_decode("0:"), None);
    assert_eq!(hex_decode("0@"), None);
    assert_eq!(hex_decode("0G"), None);
    assert_eq!(hex_decode("0`"), None);
    assert_eq!(hex_decode("00zz"), None);
    assert_eq!(hex_decode("\u{e9}"), None);
    assert_eq!(hex_decode("0\u{e9}0"), None);
    assert_eq!(hex_decode("\u{ff11}\u{ff12}"), None);
}

#[test]
fn hex_round_trips_every_byte() {
    let mut all: Vec<u8> = Vec::new();
    for b in 0..=255u8 {
        all.push(b);
        assert_eq!(hex_decode(&hex_encode(&[b])), Some(vec![b]));
    }
    let text = hex_encode(&all);
    assert_eq!(text.len(), 512);
    assert_eq!(hex_decode(&text), Some(all));
}

#[test]
fn hex_round_trips_empty_and_zero_bytes() {
    assert_eq!(hex_decode(&hex_encode(&[])), Some(vec![]));
    assert_eq!(hex_decode(&hex_encode(&[0, 0, 0])), Some(vec![0, 0, 0]));
    assert_eq!(hex_decode(&hex_encode(&[1, 0, 2])), Some(vec![1, 0, 2]));
}

#[test]
fn hex_text_sorts_as_the_bytes_do() {
    let samples: Vec<Vec<u8>> = vec![
        vec![],
        vec![0x00],
        vec![0x09],
        vec![0x0a],
        vec![0x10],
        vec![0x10, 0x01],
        vec![0x10, 0xff],
        vec![0x11],
        vec![0x1f],
        vec![0x20],
        vec![0x9f],
        vec![0xa0],
        vec![0xff],
        vec![0xff, 0x00],
    ];
    for a in &samples {
        for b in &samples {
            assert_eq!(hex_encode(a) < hex_encode(b), a < b);
            assert_eq!(hex_encode(a) == hex_encode(b), a == b);
        }
    }
}
