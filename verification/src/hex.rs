//! Lowercase hexadecimal text, the external form of identifiers and digests.

use rustc_serialize::hex::ToHex;
use vstd::prelude::*;
use vstd::string::StringSliceAdditionalSpecFns;

verus! {

/// The lowercase hexadecimal digit for a value below sixteen.
pub open spec fn hex_digit(n: int) -> char {
    if n == 0 {
        '0'
    } else if n == 1 {
        '1'
    } else if n == 2 {
        '2'
    } else if n == 3 {
        '3'
    } else if n == 4 {
        '4'
    } else if n == 5 {
        '5'
    } else if n == 6 {
        '6'
    } else if n == 7 {
        '7'
    } else if n == 8 {
        '8'
    } else if n == 9 {
        '9'
    } else if n == 10 {
        'a'
    } else if n == 11 {
        'b'
    } else if n == 12 {
        'c'
    } else if n == 13 {
        'd'
    } else if n == 14 {
        'e'
    } else {
        'f'
    }
}

/// The hexadecimal text of a byte string: two digits per byte, high nibble
/// first.
pub open spec fn hex_string(bytes: Seq<u8>) -> Seq<char> {
    Seq::new(
        2 * bytes.len(),
        |i: int|
            if i % 2 == 0 {
                hex_digit(bytes[i / 2] as int / 16)
            } else {
                hex_digit(bytes[i / 2] as int % 16)
            },
    )
}

/// The value of a lowercase hexadecimal digit given as an ASCII code, if it
/// is one.
pub open spec fn hex_value(code: u8) -> Option<int> {
    if 48 <= code <= 57 {
        Some(code - 48)
    } else if 97 <= code <= 102 {
        Some(code - 87)
    } else {
        None
    }
}

/// Every digit that `hex_digit` produces is ASCII and reads back as the
/// value it was made from.
pub proof fn lemma_hex_digit_value(n: int)
    requires
        0 <= n < 16,
    ensures
        (hex_digit(n) as u32) < 128,
        hex_value(hex_digit(n) as u8) == Some(n),
{
}

/// `ToHex::to_hex` of rustc-serialize on a byte slice: for each byte it
/// pushes the digit of the high nibble and then of the low nibble, taken
/// from the table `0123456789abcdef`.
#[verifier::external_body]
pub(crate) fn to_hex_string(bytes: &[u8]) -> (text: String)
    ensures
        text@ == hex_string(bytes@),
{
    bytes.to_hex()
}

/// Formats bytes as lowercase hexadecimal text.
pub fn encode_hex(bytes: &[u8]) -> (text: String)
    ensures
        text@ == hex_string(bytes@),
        text@.len() == 2 * bytes@.len(),
{
    to_hex_string(bytes)
}

/// Reads one lowercase hexadecimal digit.
pub fn digit_value(code: u8) -> (value: Option<u8>)
    ensures
        match value {
            Some(v) => hex_value(code) == Some(v as int),
            None => hex_value(code).is_none(),
        },
{
    if 48 <= code && code <= 57 {
        Some(code - 48)
    } else if 97 <= code && code <= 102 {
        Some(code - 87)
    } else {
        None
    }
}

/// Whether `text` is the hexadecimal form of some byte string.
pub open spec fn is_hex_text(text: Seq<char>) -> bool {
    exists|bytes: Seq<u8>| text == hex_string(bytes)
}

/// Two byte strings with the same hexadecimal text are the same.
pub proof fn lemma_hex_string_injective(a: Seq<u8>, b: Seq<u8>)
    requires
        hex_string(a) == hex_string(b),
    ensures
        a == b,
{
    assert(hex_string(a).len() == 2 * a.len());
    assert(hex_string(b).len() == 2 * b.len());
    assert(a.len() == b.len());
    assert forall|k: int| 0 <= k < a.len() implies a[k] == b[k] by {
        let hi_a = a[k] as int / 16;
        let lo_a = a[k] as int % 16;
        let hi_b = b[k] as int / 16;
        let lo_b = b[k] as int % 16;
        assert(hex_string(a)[2 * k] == hex_digit(hi_a));
        assert(hex_string(a)[2 * k + 1] == hex_digit(lo_a));
        assert(hex_string(b)[2 * k] == hex_digit(hi_b));
        assert(hex_string(b)[2 * k + 1] == hex_digit(lo_b));
        lemma_hex_digit_value(hi_a);
        lemma_hex_digit_value(lo_a);
        lemma_hex_digit_value(hi_b);
        lemma_hex_digit_value(lo_b);
    }
    assert(a =~= b);
}

/// Parses lowercase hexadecimal text into the bytes it stands for.
///
/// Succeeds exactly on the texts that `encode_hex` can produce: an even
/// number of characters, each one of `0`-`9` or `a`-`f`.
pub fn decode_hex(text: &str) -> (decoded: Option<Vec<u8>>)
    ensures
        match decoded {
            Some(bytes) => text@ == hex_string(bytes@),
            None => !is_hex_text(text@),
        },
{
    broadcast use vstd::string::is_ascii_spec_bytes;

    if !text.is_ascii() {
        proof {
            if is_hex_text(text@) {
                let w = choose|bytes: Seq<u8>| text@ == hex_string(bytes);
                assert forall|i: int| 0 <= i < text@.len() implies (text@[i] as nat) < 128 by {
                    lemma_hex_digit_value(w[i / 2] as int / 16);
                    lemma_hex_digit_value(w[i / 2] as int % 16);
                }
            }
        }
        return None;
    }
    let raw = text.as_bytes();
    let n = raw.len();
    if n % 2 != 0 {
        return None;
    }
    let mut out: Vec<u8> = Vec::new();
    let mut i: usize = 0;
    while i < n
        invariant
            n == raw@.len(),
            n == text@.len(),
            n % 2 == 0,
            i % 2 == 0,
            i <= n,
            text.is_ascii(),
            raw@ == text.spec_bytes(),
            out@.len() == i / 2,
            forall|k: int| 0 <= k < i ==> #[trigger] text@[k] == hex_string(out@)[k],
        decreases n - i,
    {
        let hi = digit_value(raw[i]);
        let lo = digit_value(raw[i + 1]);
        match (hi, lo) {
            (Some(h), Some(l)) => {
                let ghost before = out@;
                out.push(h * 16 + l);
                proof {
                    let byte = (h * 16 + l) as u8;
                    assert(byte as int / 16 == h as int);
                    assert(byte as int % 16 == l as int);
                    lemma_hex_digit_value(h as int);
                    lemma_hex_digit_value(l as int);
                    assert(out@ == before.push(byte));
                    assert forall|k: int| 0 <= k < i + 2 implies #[trigger] text@[k] == hex_string(
                        out@,
                    )[k] by {
                        if k < i {
                            assert(out@[k / 2] == before[k / 2]);
                            assert(text@[k] == hex_string(before)[k]);
                        } else {
                            assert(out@[k / 2] == byte);
                            lemma_digit_from_code(text@[k], hex_digit(if k == i {
                                h as int
                            } else {
                                l as int
                            }));
                        }
                    }
                }
                i = i + 2;
            },
            _ => {
                proof {
                    if is_hex_text(text@) {
                        let w = choose|bytes: Seq<u8>| text@ == hex_string(bytes);
                        lemma_hex_digit_value(w[i as int / 2] as int / 16);
                        lemma_hex_digit_value(w[i as int / 2] as int % 16);
                        assert(text@[i as int] == hex_string(w)[i as int]);
                        assert(text@[i + 1] == hex_string(w)[i + 1]);
                    }
                }
                return None;
            },
        }
    }
    proof {
        assert(text@ =~= hex_string(out@));
    }
    Some(out)
}

/// Two ASCII characters with the same code are the same character.
proof fn lemma_digit_from_code(a: char, b: char)
    requires
        (a as nat) < 128,
        (b as nat) < 128,
        a as u8 == b as u8,
    ensures
        a == b,
{
}

} // verus!
