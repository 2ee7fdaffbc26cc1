//! Hexadecimal text, the form in which keys and values are kept where only
//! text can be stored.
//!
//! A byte string is written as two lower-case digits per byte, the high half
//! first. Text written so sorts as the byte strings do, which is what lets a
//! prefix scan be asked for as a range of stored keys.

use vstd::prelude::*;
use vstd::string::{is_ascii_spec_bytes, StringExecFns};
use crate::order::{common_len, lemma_common_len, lemma_common_len_is, lex_lt};

verus! {

/// The lower-case hexadecimal digit for `n`, where `0 <= n < 16`.
pub open spec fn digit_char(n: int) -> char {
    if n < 10 {
        ('0' as int + n) as char
    } else {
        ('a' as int + n - 10) as char
    }
}

/// The value of a hexadecimal digit of either case; `None` for any other
/// character.
pub open spec fn digit_value(c: char) -> Option<int> {
    if '0' <= c <= '9' {
        Some(c as int - '0' as int)
    } else if 'a' <= c <= 'f' {
        Some(c as int - 'a' as int + 10)
    } else if 'A' <= c <= 'F' {
        Some(c as int - 'A' as int + 10)
    } else {
        None
    }
}

/// The hexadecimal text of `bytes`: for each byte the digit of its high half,
/// then the digit of its low half.
pub open spec fn hex_text(bytes: Seq<u8>) -> Seq<char> {
    Seq::new(
        2 * bytes.len(),
        |i: int|
            if i % 2 == 0 {
                digit_char(bytes[i / 2] as int / 16)
            } else {
                digit_char(bytes[i / 2] as int % 16)
            },
    )
}

/// `text` is hexadecimal: an even number of hexadecimal digits.
pub open spec fn is_hex_text(text: Seq<char>) -> bool {
    &&& text.len() % 2 == 0
    &&& forall|i: int| 0 <= i < text.len() ==> digit_value(#[trigger] text[i]) is Some
}

/// The bytes that hexadecimal text stands for.
pub open spec fn unhex(text: Seq<char>) -> Seq<u8> {
    Seq::new(
        text.len() / 2,
        |i: int|
            (16 * digit_value(text[2 * i]).unwrap() + digit_value(text[2 * i + 1]).unwrap()) as u8,
    )
}

/// `a` sorts strictly before `b` as text: at the first position where the
/// two differ, either `a` has ended or `a` holds the character with the
/// smaller code.
pub open spec fn text_lt(a: Seq<char>, b: Seq<char>) -> bool {
    let n = common_len(a, b) as int;
    n < b.len() && (n == a.len() || a[n] < b[n])
}

/// `a` sorts before `b` as text, or equals it.
pub open spec fn text_le(a: Seq<char>, b: Seq<char>) -> bool {
    !text_lt(b, a)
}

/// Reading back what was written gives the bytes that were written.
pub proof fn lemma_hex_round_trip(bytes: Seq<u8>)
    ensures
        is_hex_text(hex_text(bytes)),
        unhex(hex_text(bytes)) == bytes,
{
    let text = hex_text(bytes);
    assert forall|i: int| 0 <= i < text.len() implies digit_value(#[trigger] text[i]) is Some by {
        let b = bytes[i / 2] as int;
        assert(0 <= b / 16 < 16 && 0 <= b % 16 < 16);
    }
    assert forall|i: int| 0 <= i < bytes.len() implies unhex(text)[i] == bytes[i] by {
        let b = bytes[i] as int;
        assert(0 <= b / 16 < 16 && 0 <= b % 16 < 16);
        assert((2 * i) % 2 == 0 && (2 * i) / 2 == i);
        assert((2 * i + 1) % 2 == 1 && (2 * i + 1) / 2 == i);
        assert(digit_value(text[2 * i]) == Some(b / 16));
        assert(digit_value(text[2 * i + 1]) == Some(b % 16));
    }
    assert(unhex(text) =~= bytes);
}

/// Different byte strings are written as different text.
pub proof fn lemma_hex_injective(a: Seq<u8>, b: Seq<u8>)
    requires
        hex_text(a) == hex_text(b),
    ensures
        a == b,
{
    lemma_hex_round_trip(a);
    lemma_hex_round_trip(b);
}

/// The digits sort as their values do.
proof fn lemma_digits_ascend(x: int, y: int)
    requires
        0 <= x < 16,
        0 <= y < 16,
    ensures
        digit_char(x) < digit_char(y) <==> x < y,
        digit_char(x) == digit_char(y) <==> x == y,
{
}

/// Hexadecimal text sorts as the byte strings that it stands for.
pub proof fn lemma_hex_keeps_order(a: Seq<u8>, b: Seq<u8>)
    ensures
        text_lt(hex_text(a), hex_text(b)) <==> lex_lt(a, b),
{
    let ha = hex_text(a);
    let hb = hex_text(b);
    lemma_common_len(a, b);
    let n = common_len(a, b) as int;
    assert forall|j: int| 0 <= j < 2 * n implies ha[j] == hb[j] by {
        assert(a[j / 2] == b[j / 2]);
    }
    if n == a.len() || n == b.len() {
        lemma_common_len_is(ha, hb, 2 * n);
    } else {
        let x = a[n] as int;
        let y = b[n] as int;
        assert((2 * n) % 2 == 0 && (2 * n) / 2 == n);
        assert((2 * n + 1) % 2 == 1 && (2 * n + 1) / 2 == n);
        assert(ha[2 * n] == digit_char(x / 16) && hb[2 * n] == digit_char(y / 16));
        assert(ha[2 * n + 1] == digit_char(x % 16) && hb[2 * n + 1] == digit_char(y % 16));
        lemma_digits_ascend(x / 16, y / 16);
        lemma_digits_ascend(x % 16, y % 16);
        if x / 16 != y / 16 {
            lemma_common_len_is(ha, hb, 2 * n);
        } else {
            assert forall|j: int| 0 <= j < 2 * n + 1 implies ha[j] == hb[j] by {
                if j < 2 * n {
                    assert(a[j / 2] == b[j / 2]);
                }
            }
            lemma_common_len_is(ha, hb, 2 * n + 1);
        }
    }
}

/// The one-character text of the digit for `n`.
fn digit_str(n: u8) -> (s: &'static str)
    requires
        n < 16,
    ensures
        s@ == seq![digit_char(n as int)],
{
    proof {
        reveal_strlit("0");
        reveal_strlit("1");
        reveal_strlit("2");
        reveal_strlit("3");
        reveal_strlit("4");
        reveal_strlit("5");
        reveal_strlit("6");
        reveal_strlit("7");
        reveal_strlit("8");
        reveal_strlit("9");
        reveal_strlit("a");
        reveal_strlit("b");
        reveal_strlit("c");
        reveal_strlit("d");
        reveal_strlit("e");
        reveal_strlit("f");
    }
    let s: &'static str = if n == 0 {
        "0"
    } else if n == 1 {
        "1"
    } else if n == 2 {
        "2"
    } else if n == 3 {
        "3"
    } else if n == 4 {
        "4"
    } else if n == 5 {
        "5"
    } else if n == 6 {
        "6"
    } else if n == 7 {
        "7"
    } else if n == 8 {
        "8"
    } else if n == 9 {
        "9"
    } else if n == 10 {
        "a"
    } else if n == 11 {
        "b"
    } else if n == 12 {
        "c"
    } else if n == 13 {
        "d"
    } else if n == 14 {
        "e"
    } else {
        "f"
    };
    assert(s@ =~= seq![digit_char(n as int)]);
    s
}

/// Writes `bytes` as hexadecimal text.
pub fn hex_encode(bytes: &[u8]) -> (text: String)
    ensures
        text@ == hex_text(bytes@),
{
    let mut text = String::new();
    let mut i: usize = 0;
    assert(text@ =~= hex_text(bytes@.take(0)));
    while i < bytes.len()
        invariant
            i <= bytes.len(),
            text@ == hex_text(bytes@.take(i as int)),
        decreases bytes.len() - i,
    {
        let ghost before = text@;
        let b: u8 = bytes[i];
        text.append(digit_str(b / 16));
        text.append(digit_str(b % 16));
        i += 1;
        proof {
            let now = hex_text(bytes@.take(i as int));
            assert(text@ == before + seq![digit_char(b as int / 16)] + seq![
                digit_char(b as int % 16),
            ]);
            assert forall|j: int| 0 <= j < now.len() implies text@[j] == now[j] by {
                if j < 2 * (i - 1) {
                    assert(before[j] == hex_text(bytes@.take(i - 1))[j]);
                    assert(bytes@.take(i - 1)[j / 2] == bytes@.take(i as int)[j / 2]);
                }
            }
            assert(text@ =~= now);
        }
    }
    assert(bytes@.take(i as int) =~= bytes@);
    text
}

/// An ASCII character and its code stand for each other.
proof fn lemma_ascii_code(c: char, code: u8)
    requires
        c <= '\u{7f}',
        code == c as u8,
    ensures
        code < 128,
        code as char == c,
{
}

/// The value of the hexadecimal digit with the code `code`.
fn digit_of_code(code: u8) -> (r: Option<u8>)
    requires
        code < 128,
    ensures
        match r {
            Some(v) => digit_value(code as char) == Some(v as int),
            None => digit_value(code as char) is None,
        },
{
    if 0x30 <= code && code <= 0x39 {
        Some(code - 0x30)
    } else if 0x61 <= code && code <= 0x66 {
        Some(code - 0x61 + 10)
    } else if 0x41 <= code && code <= 0x46 {
        Some(code - 0x41 + 10)
    } else {
        None
    }
}

/// Reads hexadecimal text back into bytes. Digits of either case are
/// accepted. Text that is not hexadecimal gives `None`.
pub fn hex_decode(text: &str) -> (r: Option<Vec<u8>>)
    ensures
        match r {
            Some(bytes) => is_hex_text(text@) && bytes@ == unhex(text@),
            None => !is_hex_text(text@),
        },
{
    if !text.is_ascii() {
        return None;
    }
    let codes = text.as_bytes();
    proof {
        is_ascii_spec_bytes(text);
    }
    if codes.len() % 2 != 0 {
        return None;
    }
    let mut bytes: Vec<u8> = Vec::new();
    let mut i: usize = 0;
    while i < codes.len()
        invariant
            i <= codes.len(),
            i % 2 == 0,
            codes.len() % 2 == 0,
            codes@.len() == text@.len(),
            forall|j: int| 0 <= j < text@.len() ==> codes@[j] == (#[trigger] text@[j]) as u8,
            forall|j: int| 0 <= j < text@.len() ==> (#[trigger] text@[j]) <= '\u{7f}',
            bytes@.len() == i / 2,
            forall|j: int| 0 <= j < i ==> digit_value(#[trigger] text@[j]) is Some,
            forall|j: int| 0 <= j < i / 2 ==> bytes@[j] == unhex(text@)[j],
        decreases codes.len() - i,
    {
        proof {
            lemma_ascii_code(text@[i as int], codes@[i as int]);
            lemma_ascii_code(text@[i + 1], codes@[i + 1]);
        }
        let high = digit_of_code(codes[i]);
        let low = digit_of_code(codes[i + 1]);
        match (high, low) {
            (Some(h), Some(l)) => {
                bytes.push(h * 16 + l);
            },
            _ => {
                return None;
            },
        }
        assert(2 * (i as int / 2) == i);
        i += 2;
    }
    assert(bytes@ =~= unhex(text@));
    Some(bytes)
}

} // verus!
