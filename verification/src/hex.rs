//! Object names: 40 hexadecimal digits for 20 bytes.
use vstd::prelude::*;

use crate::text::chars_of;

verus! {

/// `c` is a hexadecimal digit, of either case.
pub open spec fn hex_digit(c: char) -> bool {
    '0' <= c <= '9' || 'a' <= c <= 'f' || 'A' <= c <= 'F'
}

/// The value of a hexadecimal digit.
pub open spec fn hex_value(c: char) -> int {
    if '0' <= c <= '9' {
        c as int - '0' as int
    } else if 'a' <= c <= 'f' {
        c as int - 'a' as int + 10
    } else {
        c as int - 'A' as int + 10
    }
}

/// All characters are hexadecimal digits.
pub open spec fn all_hex(s: Seq<char>) -> bool {
    forall|i: int| 0 <= i < s.len() ==> hex_digit(#[trigger] s[i])
}

/// The text is an object name.
pub open spec fn is_sha(s: Seq<char>) -> bool {
    s.len() == 40 && all_hex(s)
}

/// The bytes of an object name.
pub open spec fn sha_bytes(s: Seq<char>) -> Seq<u8> {
    Seq::new(20, |i: int| (16 * hex_value(s[2 * i]) + hex_value(s[2 * i + 1])) as u8)
}

/// The lower-case digit of a value below 16.
pub open spec fn hex_char(v: int) -> char {
    if v < 10 {
        ('0' as int + v) as char
    } else {
        ('a' as int + v - 10) as char
    }
}

/// Twenty bytes in hexadecimal digits.
pub open spec fn hex_text(bytes: Seq<u8>) -> Seq<char> {
    Seq::new(
        40,
        |i: int|
            if i % 2 == 0 {
                hex_char(bytes[i / 2] as int / 16)
            } else {
                hex_char(bytes[i / 2] as int % 16)
            },
    )
}

/// An object name that is written out in digits is read back.
pub proof fn sha_reads_back(bytes: Seq<u8>)
    requires
        bytes.len() == 20,
    ensures
        is_sha(hex_text(bytes)),
        sha_bytes(hex_text(bytes)) == bytes,
{
    let s = hex_text(bytes);
    assert forall|i: int| 0 <= i < 20 implies sha_bytes(s)[i] == bytes[i] by {
        assert(s[2 * i] == hex_char(bytes[i] as int / 16));
        assert(s[2 * i + 1] == hex_char(bytes[i] as int % 16));
    }
    assert(sha_bytes(s) == bytes);
}

/// The upper-case form of a hexadecimal digit.
pub open spec fn hex_upper(c: char) -> char {
    if 'a' <= c <= 'f' {
        (c as int - 32) as char
    } else {
        c
    }
}

/// An object name is read back whatever the case of its digits: upper case, or some of each.
pub proof fn case_of_digits_does_not_matter(bytes: Seq<u8>, text: Seq<char>)
    requires
        bytes.len() == 20,
        text.len() == 40,
        forall|i: int|
            0 <= i < 40 ==> (#[trigger] text[i] == hex_text(bytes)[i] || text[i] == hex_upper(
                hex_text(bytes)[i],
            )),
    ensures
        is_sha(text),
        sha_bytes(text) == bytes,
{
    let lower = hex_text(bytes);
    sha_reads_back(bytes);
    assert forall|i: int| 0 <= i < 40 implies hex_digit(#[trigger] text[i]) && hex_value(text[i])
        == hex_value(lower[i]) by {
        assert(hex_digit(lower[i]));
    }
    assert(sha_bytes(text) == sha_bytes(lower)) by {
        assert forall|i: int| 0 <= i < 20 implies sha_bytes(text)[i] == sha_bytes(lower)[i] by {
            assert(hex_value(text[2 * i]) == hex_value(lower[2 * i]));
            assert(hex_value(text[2 * i + 1]) == hex_value(lower[2 * i + 1]));
        }
    }
}

/// The value of a hexadecimal digit; `None` for another character.
fn digit_value(c: char) -> (r: Option<u8>)
    ensures
        r is Some == hex_digit(c),
        r matches Some(v) ==> v == hex_value(c) && v < 16,
{
    let code = c as u32;
    if '0' <= c && c <= '9' {
        Some((code - 48) as u8)
    } else if 'a' <= c && c <= 'f' {
        Some((code - 87) as u8)
    } else if 'A' <= c && c <= 'F' {
        Some((code - 55) as u8)
    } else {
        None
    }
}

/// Whether all characters are hexadecimal digits.
pub fn is_hex(chars: &[char]) -> (r: bool)
    ensures
        r == all_hex(chars@),
{
    let mut i: usize = 0;
    while i < chars.len()
        invariant
            i <= chars@.len(),
            forall|j: int| 0 <= j < i ==> hex_digit(#[trigger] chars@[j]),
        decreases chars@.len() - i,
    {
        if digit_value(chars[i]).is_none() {
            assert(!hex_digit(chars@[i as int]));
            return false;
        }
        i += 1;
    }
    true
}

/// The bytes of an object name; `None` where the text is none.
pub fn hex_to_sha(hex: &str) -> (r: Option<[u8; 20]>)
    ensures
        r is Some == is_sha(hex@),
        r matches Some(sha) ==> sha@ == sha_bytes(hex@),
{
    let chars = chars_of(hex);
    if chars.len() != 40 {
        return None;
    }
    let mut sha = [0u8; 20];
    let mut i: usize = 0;
    while i < 20
        invariant
            i <= 20,
            chars@ == hex@,
            chars@.len() == 40,
            forall|j: int| 0 <= j < 2 * i ==> hex_digit(#[trigger] chars@[j]),
            forall|j: int| 0 <= j < i ==> #[trigger] sha@[j] == sha_bytes(hex@)[j],
        decreases 20 - i,
    {
        let high = match digit_value(chars[2 * i]) {
            Some(v) => v,
            None => {
                assert(!hex_digit(hex@[2 * i]));
                return None;
            },
        };
        let low = match digit_value(chars[2 * i + 1]) {
            Some(v) => v,
            None => {
                assert(!hex_digit(hex@[2 * i + 1]));
                return None;
            },
        };
        sha[i] = 16 * high + low;
        i += 1;
    }
    assert(sha@ == sha_bytes(hex@));
    Some(sha)
}

} // verus!
