use vstd::prelude::*;
use vstd::string::StrSliceExecFns;

verus! {

/// Why a hexadecimal colour could not be read.
#[derive(Debug, Clone, Copy, PartialEq, Eq, Structural)]
pub enum HexError {
    /// The text is not six characters long; it holds `found` of them.
    WrongLength { found: usize },
    /// The character at `position` is not a hexadecimal digit.
    InvalidDigit { position: usize },
}

/// `0`-`9`, `a`-`f` or `A`-`F`.
pub open spec fn is_hex_digit(c: char) -> bool {
    let v = c as u32;
    (48 <= v <= 57) || (97 <= v <= 102) || (65 <= v <= 70)
}

/// The value of a hexadecimal digit.
pub open spec fn hex_digit_value(c: char) -> int {
    let v = c as u32;
    if 48 <= v <= 57 {
        v - 48
    } else if 97 <= v <= 102 {
        v - 87
    } else {
        v - 55
    }
}

/// The byte written by the two digits at `i` and `i + 1`, high digit first.
pub open spec fn hex_pair_value(s: Seq<char>, i: int) -> int {
    16 * hex_digit_value(s[i]) + hex_digit_value(s[i + 1])
}

/// Every character of `s` before `end` is a hexadecimal digit.
pub open spec fn all_hex_before(s: Seq<char>, end: int) -> bool {
    forall|k: int| 0 <= k < end ==> is_hex_digit(#[trigger] s[k])
}

fn digit_value(c: char) -> (r: Option<u8>)
    ensures
        r is Some <==> is_hex_digit(c),
        r is Some ==> r->0 == hex_digit_value(c) && r->0 < 16,
{
    let v = c as u32;
    if 48 <= v && v <= 57 {
        Some((v - 48) as u8)
    } else if 97 <= v && v <= 102 {
        Some((v - 87) as u8)
    } else if 65 <= v && v <= 70 {
        Some((v - 55) as u8)
    } else {
        None
    }
}

/// Reads a colour written as six hexadecimal digits, two for each of red,
/// green and blue (`"ff8000"`), into its three 8-bit channels.
pub fn parse_hex(s: &str) -> (r: Result<(u8, u8, u8), HexError>)
    ensures
        s@.len() != 6 <==> r == Err::<(u8, u8, u8), HexError>(
            HexError::WrongLength { found: s@.len() as usize },
        ),
        s@.len() == 6 && all_hex_before(s@, 6) ==> r == Ok::<(u8, u8, u8), HexError>(
            (
                hex_pair_value(s@, 0) as u8,
                hex_pair_value(s@, 2) as u8,
                hex_pair_value(s@, 4) as u8,
            ),
        ),
        forall|p: int|
            0 <= p < 6 && s@.len() == 6 && all_hex_before(s@, p) && !is_hex_digit(s@[p])
                ==> r == Err::<(u8, u8, u8), HexError>(
                HexError::InvalidDigit { position: p as usize },
            ),
{
    let n = s.unicode_len();
    if n != 6 {
        return Err(HexError::WrongLength { found: n });
    }
    let mut digits: Vec<u8> = Vec::new();
    let mut k: usize = 0;
    while k < 6
        invariant
            s@.len() == 6,
            0 <= k <= 6,
            digits@.len() == k,
            all_hex_before(s@, k as int),
            forall|j: int| 0 <= j < k ==> digits@[j] == hex_digit_value(#[trigger] s@[j]),
            forall|j: int| 0 <= j < k ==> #[trigger] digits@[j] < 16,
        decreases 6 - k,
    {
        let c = s.get_char(k);
        match digit_value(c) {
            Some(d) => {
                digits.push(d);
            },
            None => {
                assert(forall|p: int|
                    0 <= p < 6 && all_hex_before(s@, p) && !is_hex_digit(s@[p]) ==> p == k);
                return Err(HexError::InvalidDigit { position: k });
            },
        }
        k += 1;
    }
    assert(forall|p: int| 0 <= p < 6 ==> is_hex_digit(#[trigger] s@[p]));
    let red = 16 * digits[0] + digits[1];
    let green = 16 * digits[2] + digits[3];
    let blue = 16 * digits[4] + digits[5];
    Ok((red, green, blue))
}

} // verus!
