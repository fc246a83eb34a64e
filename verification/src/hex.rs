//! Hexadecimal text for keys and values on the command line.
use vstd::prelude::*;

verus! {

/// Why text is not hexadecimal.
#[derive(Clone, Copy, Debug, PartialEq, Eq, Structural)]
pub enum HexError {
    OddLength,
    Digit(u8),
}

/// The value of a hexadecimal digit.
pub open spec fn digit_value(byte: u8) -> Option<u8> {
    if 48 <= byte <= 57 {
        Some((byte - 48) as u8)
    } else if 97 <= byte <= 102 {
        Some((byte - 87) as u8)
    } else if 65 <= byte <= 70 {
        Some((byte - 55) as u8)
    } else {
        None
    }
}

/// The lower-case digit of a value.
pub open spec fn digit_of(value: u8) -> u8 {
    if value < 10 {
        (48 + value) as u8
    } else {
        (87 + value) as u8
    }
}

/// Bytes as text, two digits each.
pub open spec fn encoded(bytes: Seq<u8>) -> Seq<u8> {
    Seq::new(
        2 * bytes.len(),
        |i: int|
            if i % 2 == 0 {
                digit_of(bytes[i / 2] / 16)
            } else {
                digit_of(bytes[i / 2] % 16)
            },
    )
}

/// The bytes that text stands for.
pub open spec fn decoded(text: Seq<u8>) -> Seq<u8> {
    Seq::new(
        text.len() / 2,
        |i: int| (16 * digit_value(text[2 * i])->0 + digit_value(text[2 * i + 1])->0) as u8,
    )
}

/// Whether every byte up to `n` is a digit.
pub open spec fn all_digits(text: Seq<u8>, n: int) -> bool {
    forall|i: int| 0 <= i < n ==> digit_value(#[trigger] text[i]) is Some
}

pub fn digit(byte: u8) -> (r: Result<u8, HexError>)
    ensures
        match digit_value(byte) {
            Some(v) => r == Ok::<u8, HexError>(v) && v < 16,
            None => r == Err::<u8, HexError>(HexError::Digit(byte)),
        },
{
    if 48 <= byte && byte <= 57 {
        Ok(byte - 48)
    } else if 97 <= byte && byte <= 102 {
        Ok(byte - 87)
    } else if 65 <= byte && byte <= 70 {
        Ok(byte - 55)
    } else {
        Err(HexError::Digit(byte))
    }
}

/// The bytes that text stands for; the first byte that is no digit otherwise.
pub fn hex_decode(text: &[u8]) -> (r: Result<Vec<u8>, HexError>)
    ensures
        text@.len() % 2 != 0 ==> (r matches Err(e) && e == HexError::OddLength),
        text@.len() % 2 == 0 && all_digits(text@, text@.len() as int) ==> (r matches Ok(v) && v@
            == decoded(text@)),
        text@.len() % 2 == 0 && !all_digits(text@, text@.len() as int) ==> exists|i: int|
            0 <= i < text@.len() && all_digits(text@, i) && digit_value(#[trigger] text@[i]) is None
                && (r matches Err(e) && e == HexError::Digit(text@[i])),
{
    if text.len() % 2 != 0 {
        return Err(HexError::OddLength);
    }
    let total: usize = text.len();
    let mut out: Vec<u8> = Vec::new();
    let mut i: usize = 0;
    while i < total
        invariant
            total == text@.len(),
            total % 2 == 0,
            i <= total,
            i % 2 == 0,
            all_digits(text@, i as int),
            out@.len() == i / 2,
            forall|k: int| 0 <= k < out@.len() ==> out@[k] == #[trigger] decoded(text@)[k],
        decreases total - i,
    {
        let high = match digit(text[i]) {
            Ok(v) => v,
            Err(e) => {
                assert(digit_value(text@[i as int]) is None);
                return Err(e);
            },
        };
        let low = match digit(text[i + 1]) {
            Ok(v) => v,
            Err(e) => {
                assert(digit_value(text@[i + 1]) is None);
                return Err(e);
            },
        };
        let ghost had = out@;
        out.push(high * 16 + low);
        proof {
            let k = i as int / 2;
            assert(2 * k == i);
            assert(out@[k] == decoded(text@)[k]);
            assert forall|j: int| 0 <= j < out@.len() implies out@[j] == #[trigger] decoded(
                text@,
            )[j] by {
                if j < k {
                    assert(out@[j] == had[j]);
                }
            }
        }
        i = i + 2;
    }
    assert(out@ =~= decoded(text@));
    Ok(out)
}

pub fn hex_encode(bytes: &[u8]) -> (text: Vec<u8>)
    ensures
        text@ == encoded(bytes@),
{
    let total: usize = bytes.len();
    let mut out: Vec<u8> = Vec::new();
    let mut i: usize = 0;
    while i < total
        invariant
            total == bytes@.len(),
            i <= total,
            out@.len() == 2 * i,
            forall|k: int| 0 <= k < out@.len() ==> out@[k] == #[trigger] encoded(bytes@)[k],
        decreases total - i,
    {
        let high: u8 = bytes[i] / 16;
        let low: u8 = bytes[i] % 16;
        let ghost had = out@;
        out.push(
            if high < 10 {
                48 + high
            } else {
                87 + high
            },
        );
        out.push(
            if low < 10 {
                48 + low
            } else {
                87 + low
            },
        );
        proof {
            assert forall|k: int| 0 <= k < out@.len() implies out@[k] == #[trigger] encoded(
                bytes@,
            )[k] by {
                if k < had.len() {
                    assert(out@[k] == had[k]);
                } else {
                    assert(k / 2 == i);
                }
            }
        }
        i = i + 1;
    }
    assert(out@ =~= encoded(bytes@));
    out
}

/// What was encoded is decoded to the same bytes.
pub proof fn decoding_undoes_encoding(bytes: Seq<u8>)
    ensures
        encoded(bytes).len() % 2 == 0,
        all_digits(encoded(bytes), encoded(bytes).len() as int),
        decoded(encoded(bytes)) == bytes,
{
    let text = encoded(bytes);
    assert forall|i: int| 0 <= i < text.len() implies digit_value(#[trigger] text[i]) is Some
        && digit_value(text[i])->0 == (if i % 2 == 0 {
        bytes[i / 2] / 16
    } else {
        bytes[i / 2] % 16
    }) by {
        let b = bytes[i / 2];
        assert(0 <= b / 16 < 16);
        assert(0 <= b % 16 < 16);
    }
    let back = decoded(text);
    assert forall|i: int| 0 <= i < bytes.len() implies back[i] == bytes[i] by {
        assert((2 * i) / 2 == i);
        assert((2 * i + 1) / 2 == i);
        assert(digit_value(text[2 * i])->0 == bytes[i] / 16);
        assert(digit_value(text[2 * i + 1])->0 == bytes[i] % 16);
    }
    assert(back =~= bytes);
}

/// A digit in lower case.
pub open spec fn lowered(byte: u8) -> u8 {
    if 65 <= byte <= 70 {
        (byte + 32) as u8
    } else {
        byte
    }
}

/// What was decoded is encoded to the same text in lower case.
pub proof fn encoding_undoes_decoding(text: Seq<u8>)
    requires
        text.len() % 2 == 0,
        all_digits(text, text.len() as int),
    ensures
        encoded(decoded(text)) == text.map_values(|b: u8| lowered(b)),
{
    let bytes = decoded(text);
    let back = encoded(bytes);
    assert forall|i: int| 0 <= i < text.len() implies back[i] == lowered(#[trigger] text[i]) by {
        let k = i / 2;
        assert(digit_value(text[2 * k]) is Some && digit_value(text[2 * k + 1]) is Some);
        let (h, l) = (digit_value(text[2 * k])->0, digit_value(text[2 * k + 1])->0);
        assert(bytes[k] == 16 * h + l);
        assert(h < 16 && l < 16);
        assert(bytes[k] / 16 == h && bytes[k] % 16 == l);
        assert(i == 2 * k || i == 2 * k + 1);
        assert(digit_of(digit_value(text[i])->0) == lowered(text[i]));
    }
    assert(back =~= text.map_values(|b: u8| lowered(b)));
}

} // verus!
