//! Identifiers: fresh random ids and the textual UUID form.
//!
//! An id is the 128-bit value of a UUID.  Fresh ids are drawn from a
//! version-4 UUID; the textual form accepted for `recipe_id` is the
//! hyphenated one — eight-four-four-four-twelve hexadecimal digits — and the
//! simple one of thirty-two plain digits.

use crate::text::subrange_vec;
use vstd::prelude::*;

verus! {

/// Relies on `uuid::Uuid::new_v4`, which draws a fresh random version-4 UUID
/// from the operating system's RNG; nothing is promised of the value.
#[verifier::external_body]
pub(crate) fn fresh_id() -> u128 {
    uuid::Uuid::new_v4().as_u128()
}

pub open spec fn is_hex(b: u8) -> bool {
    (48 <= b <= 57) || (97 <= b <= 102) || (65 <= b <= 70)
}

pub open spec fn hex_val(b: u8) -> int {
    if 48 <= b <= 57 {
        b as int - 48
    } else if 97 <= b <= 102 {
        b as int - 87
    } else {
        b as int - 55
    }
}

/// The value of a big-endian string of hexadecimal digits.
pub open spec fn hex_value(d: Seq<u8>) -> int
    decreases d.len(),
{
    if d.len() == 0 {
        0
    } else {
        hex_value(d.drop_last()) * 16 + hex_val(d.last())
    }
}

/// Sixteen to the given power.
pub open spec fn pow16(n: nat) -> int
    decreases n,
{
    if n == 0 {
        1
    } else {
        16 * pow16((n - 1) as nat)
    }
}

pub proof fn lemma_hex_value_bound(d: Seq<u8>)
    requires
        forall|j: int| 0 <= j < d.len() ==> is_hex(#[trigger] d[j]),
    ensures
        0 <= hex_value(d) < pow16(d.len()),
    decreases d.len(),
{
    if d.len() > 0 {
        lemma_hex_value_bound(d.drop_last());
        assert(0 <= hex_val(d.last()) <= 15);
    }
}

pub proof fn lemma_pow16_values()
    ensures
        pow16(31) == 0x10000000000000000000000000000000,
        pow16(32) == 0x100000000000000000000000000000000,
{
    reveal_with_fuel(pow16, 33);
}

/// The thirty-two hexadecimal digits of a hyphenated UUID string, the four
/// dashes dropped.
pub open spec fn uuid_digits(s: Seq<u8>) -> Seq<u8> {
    s.subrange(0, 8) + s.subrange(9, 13) + s.subrange(14, 18) + s.subrange(19, 23) + s.subrange(
        24,
        36,
    )
}

/// The value of a digit string where every byte is a hexadecimal digit;
/// nothing otherwise.
pub open spec fn digits_value(d: Seq<u8>) -> Option<u128> {
    if forall|j: int| 0 <= j < d.len() ==> is_hex(#[trigger] d[j]) {
        Some(hex_value(d) as u128)
    } else {
        None
    }
}

/// The id a byte string denotes: defined exactly on the hyphenated UUID form
/// — thirty-six bytes with dashes at positions eight, thirteen, eighteen and
/// twenty-three — and on the simple form of thirty-two plain digits.
pub open spec fn parse_uuid(s: Seq<u8>) -> Option<u128> {
    if s.len() == 36 && s[8] == 45 && s[13] == 45 && s[18] == 45 && s[23] == 45 {
        digits_value(uuid_digits(s))
    } else if s.len() == 32 {
        digits_value(s)
    } else {
        None
    }
}

/// Value of one hexadecimal digit byte, or 16 where the byte is no digit.
fn hex_digit(b: u8) -> (r: u8)
    ensures
        (r < 16) == is_hex(b),
        r < 16 ==> r as int == hex_val(b),
{
    if 48 <= b && b <= 57 {
        b - 48
    } else if 97 <= b && b <= 102 {
        b - 87
    } else if 65 <= b && b <= 70 {
        b - 55
    } else {
        16
    }
}

/// The value of thirty-two hexadecimal digit bytes; `None` where any byte is
/// no digit.
fn decode_hex_digits(d: &[u8]) -> (r: Option<u128>)
    requires
        d@.len() == 32,
    ensures
        r == digits_value(d@),
{
    let mut acc: u128 = 0;
    let mut k: usize = 0;
    proof {
        assert(d@.take(0) =~= Seq::<u8>::empty());
    }
    while k < 32
        invariant
            d@.len() == 32,
            k <= 32,
            acc as int == hex_value(d@.take(k as int)),
            forall|j: int| 0 <= j < k ==> is_hex(#[trigger] d@[j]),
        decreases 32 - k,
    {
        let v = hex_digit(d[k]);
        if v >= 16 {
            return None;
        }
        proof {
            lemma_hex_value_bound(d@.take(k as int));
            lemma_pow16_values();
            lemma_pow16_mono(k as nat, 31);
            assert(d@.take(k as int + 1).drop_last() =~= d@.take(k as int));
        }
        acc = acc * 16 + (v as u128);
        k = k + 1;
    }
    proof {
        assert(d@.take(32) =~= d@);
        lemma_hex_value_bound(d@);
        lemma_pow16_values();
    }
    Some(acc)
}

/// Decodes the hyphenated or the simple UUID form into an id; `None` on any
/// other byte string.
pub fn decode_uuid(s: &[u8]) -> (r: Option<u128>)
    ensures
        r == parse_uuid(s@),
{
    if s.len() == 36 {
        if !(s[8] == 45 && s[13] == 45 && s[18] == 45 && s[23] == 45) {
            return None;
        }
        let mut digits = subrange_vec(s, 0, 8);
        let mut part = subrange_vec(s, 9, 13);
        digits.append(&mut part);
        let mut part = subrange_vec(s, 14, 18);
        digits.append(&mut part);
        let mut part = subrange_vec(s, 19, 23);
        digits.append(&mut part);
        let mut part = subrange_vec(s, 24, 36);
        digits.append(&mut part);
        proof {
            assert(digits@ =~= uuid_digits(s@));
        }
        decode_hex_digits(digits.as_slice())
    } else if s.len() == 32 {
        decode_hex_digits(s)
    } else {
        None
    }
}

pub proof fn lemma_pow16_mono(a: nat, b: nat)
    requires
        a <= b,
    ensures
        pow16(a) <= pow16(b),
    decreases b,
{
    if a < b {
        lemma_pow16_mono(a, (b - 1) as nat);
        lemma_pow16_pos((b - 1) as nat);
    }
}

pub proof fn lemma_pow16_pos(n: nat)
    ensures
        pow16(n) >= 1,
    decreases n,
{
    if n > 0 {
        lemma_pow16_pos((n - 1) as nat);
    }
}

} // verus!
