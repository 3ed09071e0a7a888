//! Bit-field codec over 64-bit words.
//!
//! A field is a contiguous run of bits inside a word, described by a `width`
//! (number of bits, between 1 and 64) and an `lsb` (the index of its
//! least-significant bit). The codec extracts and inserts both unsigned and
//! signed (two's-complement) field values, and validates that a value is
//! representable in a given width.
//!
//! Contracts are stated arithmetically: a right shift by `n` is division by
//! `pow2(n)`, masking the low `n` bits is reduction modulo `pow2(n)`.

use vstd::prelude::*;

verus! {

use vstd::arithmetic::power2::{
    pow2,
    lemma_pow2_adds,
    lemma_pow2_pos,
    lemma_pow2_strictly_increases,
    lemma2_to64,
    lemma2_to64_rest,
};
use vstd::bits::{
    lemma_u64_pow2_no_overflow,
    lemma_u64_shl_is_mul,
    lemma_u64_shr_is_div,
    lemma_u64_low_bits_mask_is_mod,
    low_bits_mask,
};
use vstd::arithmetic::div_mod::{
    lemma_basic_div,
    lemma_fundamental_div_mod,
    lemma_fundamental_div_mod_converse,
    lemma_multiply_divide_lt,
    lemma_small_mod,
};
use vstd::arithmetic::mul::{
    lemma_mul_inequality,
    lemma_mul_is_associative,
    lemma_mul_is_commutative,
    lemma_mul_is_distributive_add_other_way,
    lemma_mul_is_distributive_sub_other_way,
};

/// A `width`-bit field whose least-significant bit is bit `lsb` lies within a
/// 64-bit word.
pub open spec fn valid_field(width: u64, lsb: u64) -> bool {
    1 <= width <= 64 && width + lsb <= 64
}

/// `value` is representable in `width` unsigned bits.
pub open spec fn fits_unsigned(value: u64, width: u64) -> bool {
    (value as nat) < pow2(width as nat)
}

/// `value` is representable in `width` signed two's-complement bits.
pub open spec fn fits_signed(value: i64, width: u64) -> bool
    recommends
        1 <= width <= 64,
{
    -(pow2((width - 1) as nat) as int) <= value as int
        && (value as int) < pow2((width - 1) as nat) as int
}

/// The unsigned value of the `width`-bit field of `word` starting at bit
/// `lsb`: shift right by `lsb`, then keep the low `width` bits.
pub open spec fn unsigned_field(word: u64, width: u64, lsb: u64) -> u64
    recommends
        valid_field(width, lsb),
{
    (((word as nat) / pow2(lsb as nat)) % pow2(width as nat)) as u64
}

/// `word` with its `width`-bit field at bit `lsb` replaced by `bits`: the bits
/// above the field and the bits below it are kept, and `bits` stands in the
/// field's place.
pub open spec fn replace_field(word: u64, width: u64, lsb: u64, bits: u64) -> u64
    recommends
        valid_field(width, lsb),
        fits_unsigned(bits, width),
{
    (((word as int) / (pow2((width + lsb) as nat) as int)) * (pow2((width + lsb) as nat) as int)
        + (bits as int) * (pow2(lsb as nat) as int) + (word as int) % (pow2(lsb as nat) as int)) as u64
}

/// The three summands of `replace_field` do not overlap: their sum lies below
/// `2^64`, so the spec's cast back to a word is exact.
proof fn lemma_replace_field_parts(word: u64, width: u64, lsb: u64, bits: u64)
    requires
        valid_field(width, lsb),
        fits_unsigned(bits, width),
    ensures
        ({
            let pt = pow2((width + lsb) as nat) as int;
            let pl = pow2(lsb as nat) as int;
            let total = (word as int / pt) * pt + (bits as int) * pl + (word as int) % pl;
            &&& 0 <= total < pow2(64)
            &&& replace_field(word, width, lsb, bits) as int == total
        }),
{
    let top = (width + lsb) as nat;
    let pt = pow2(top) as int;
    let pw = pow2(width as nat) as int;
    let pl = pow2(lsb as nat) as int;
    lemma_pow2_pos(top);
    lemma_pow2_pos(width as nat);
    lemma_pow2_pos(lsb as nat);
    lemma_pow2_adds(width as nat, lsb as nat);
    lemma2_to64_rest();
    let q = word as int / pt;
    let rest = pow2((64 - top) as nat) as int;
    lemma_pow2_adds(top, (64 - top) as nat);
    assert(pt * rest == pow2(64));
    // The high part is a multiple of pt that fits below 2^64 - pt.
    assert(word < pt * rest) by {
        lemma_mul_is_commutative(pt, rest);
    }
    lemma_multiply_divide_lt(word as int, pt, rest);
    lemma_mul_inequality(q, rest - 1, pt);
    lemma_mul_is_distributive_sub_other_way(pt, rest, 1);
    lemma_mul_is_commutative(rest, pt);
    assert(q * pt <= pow2(64) - pt);
    assert(q * pt >= 0) by {
        lemma_fundamental_div_mod(word as int, pt);
    }
    // The field part lies below pt - pl.
    lemma_mul_inequality(bits as int, pw - 1, pl);
    lemma_mul_is_distributive_sub_other_way(pl, pw, 1);
    assert(pw * pl == pt);
    assert((bits as int) * pl <= pt - pl);
    assert((bits as int) * pl >= 0) by {
        lemma_mul_is_commutative(bits as int, pl);
        lemma_mul_inequality(0, bits as int, pl);
    }
    // The low part lies below pl.
    assert(0 <= (word as int) % pl < pl);
}

/// 2^`exponent` as a 64-bit word.
fn pow2_u64(exponent: u64) -> (r: u64)
    requires
        exponent < 64,
    ensures
        r == pow2(exponent as nat),
{
    proof {
        lemma_u64_pow2_no_overflow(exponent as nat);
        lemma_u64_shl_is_mul(1u64, exponent);
    }
    1u64 << exponent
}

/// The signed value of the `width`-bit field of `word` starting at bit `lsb`:
/// the unsigned field value, reinterpreted as two's complement. If the field's
/// most-significant bit is set, the value is `field - 2^width`.
pub open spec fn signed_field(word: u64, width: u64, lsb: u64) -> int
    recommends
        valid_field(width, lsb),
{
    let field = unsigned_field(word, width, lsb);
    if pow2((width - 1) as nat) <= field as nat {
        field - pow2(width as nat)
    } else {
        field as int
    }
}

/// The unsigned field value is the shifted word reduced modulo `2^width`, and
/// in particular is below `2^width`.
pub proof fn lemma_unsigned_field_bound(word: u64, width: u64, lsb: u64)
    requires
        valid_field(width, lsb),
    ensures
        unsigned_field(word, width, lsb) as nat == ((word as nat) / pow2(lsb as nat)) % pow2(
            width as nat,
        ),
        (unsigned_field(word, width, lsb) as nat) < pow2(width as nat),
{
    lemma_pow2_pos(width as nat);
    lemma_pow2_pos(lsb as nat);
    if width < 64 {
        lemma_pow2_strictly_increases(width as nat, 64);
    }
    lemma2_to64_rest();
}

/// Returns true iff the unsigned `number` fits into `width` unsigned bits,
/// that is, iff `number < 2^width`.
pub fn fitsu(number: u64, width: u64) -> (r: bool)
    requires
        1 <= width <= 64,
    ensures
        r == fits_unsigned(number, width),
{
    if width == 64 {
        proof {
            lemma2_to64_rest();
        }
        true
    } else {
        number < pow2_u64(width)
    }
}

/// Returns true iff the signed `number` fits into `width` signed
/// two's-complement bits, that is, iff `-2^(width-1) <= number < 2^(width-1)`.
pub fn fitss(number: i64, width: u64) -> (r: bool)
    requires
        1 <= width <= 64,
    ensures
        r == fits_signed(number, width),
{
    if width == 64 {
        proof {
            lemma2_to64_rest();
        }
        true
    } else {
        let bound = pow2_u64(width - 1);
        proof {
            lemma_pow2_strictly_increases((width - 1) as nat, 63);
            lemma2_to64_rest();
        }
        let signed_bound = bound as i64;
        -signed_bound <= number && number < signed_bound
    }
}

/// Retrieves the unsigned value of the `width`-bit field of `word` starting
/// at least-significant bit `lsb`.
pub fn getu(word: u64, width: u64, lsb: u64) -> (r: u64)
    requires
        valid_field(width, lsb),
    ensures
        r == unsigned_field(word, width, lsb),
{
    let shifted = word >> lsb;
    proof {
        lemma_u64_shr_is_div(word, lsb);
        lemma_unsigned_field_bound(word, width, lsb);
    }
    if width == 64 {
        proof {
            lemma2_to64_rest();
            lemma_small_mod(shifted as nat, pow2(64));
        }
        shifted
    } else {
        let mask = pow2_u64(width) - 1;
        proof {
            lemma_pow2_pos(width as nat);
            assert(mask as nat == low_bits_mask(width as nat));
            lemma_u64_low_bits_mask_is_mod(shifted, width as nat);
        }
        shifted & mask
    }
}

/// Retrieves the signed value of the `width`-bit field of `word` starting at
/// least-significant bit `lsb`, sign-extending from the field's
/// most-significant bit.
pub fn gets(word: u64, width: u64, lsb: u64) -> (r: i64)
    requires
        valid_field(width, lsb),
    ensures
        r as int == signed_field(word, width, lsb),
{
    let field = getu(word, width, lsb);
    proof {
        lemma_unsigned_field_bound(word, width, lsb);
        lemma2_to64_rest();
    }
    if width == 64 {
        if field >= 0x8000_0000_0000_0000u64 {
            -((u64::MAX - field) as i64) - 1
        } else {
            field as i64
        }
    } else {
        let half = pow2_u64(width - 1);
        proof {
            lemma_pow2_adds((width - 1) as nat, 1);
            lemma2_to64();
            lemma_pow2_strictly_increases((width - 1) as nat, 63);
        }
        if field >= half {
            (field - half) as i64 - (half as i64)
        } else {
            field as i64
        }
    }
}

/// Builds `replace_field(word, width, lsb, bits)` from its three parts: the
/// word's bits above the field, the new field value shifted into place, and
/// the word's bits below the field.
fn insert_field(word: u64, width: u64, lsb: u64, bits: u64) -> (r: u64)
    requires
        valid_field(width, lsb),
        fits_unsigned(bits, width),
    ensures
        r == replace_field(word, width, lsb, bits),
{
    let top = width + lsb;
    let ghost pt = pow2(top as nat) as int;
    let ghost pl = pow2(lsb as nat) as int;
    proof {
        lemma_replace_field_parts(word, width, lsb, bits);
        lemma_pow2_pos(top as nat);
        lemma_pow2_pos(lsb as nat);
        lemma2_to64_rest();
    }
    let hi = if top == 64 {
        proof {
            lemma_basic_div(word as int, pt);
        }
        0u64
    } else {
        let shifted = word >> top;
        proof {
            lemma_u64_shr_is_div(word, top);
            lemma_fundamental_div_mod(word as int, pt);
            lemma_mul_is_commutative(pt, shifted as int);
            lemma_u64_shl_is_mul(shifted, top);
        }
        shifted << top
    };
    proof {
        assert(hi as int == (word as int / pt) * pt);
    }
    let mask = pow2_u64(lsb) - 1;
    proof {
        assert(mask as nat == low_bits_mask(lsb as nat));
        lemma_u64_low_bits_mask_is_mod(word, lsb as nat);
    }
    let lo = word & mask;
    proof {
        lemma_mul_inequality(bits as int, pow2(width as nat) - 1, pl);
        lemma_mul_is_distributive_sub_other_way(pow2(width as nat) as int, 1, pl);
        lemma_pow2_adds(width as nat, lsb as nat);
        lemma_u64_shl_is_mul(bits, lsb);
    }
    let field_in_place = bits << lsb;
    hi + field_in_place + lo
}

/// Returns `word` with the `width`-bit field at `lsb` replaced by the unsigned
/// `value`, leaving all other bits unchanged; `None` iff `value` does not fit
/// in `width` unsigned bits.
pub fn newu(word: u64, width: u64, lsb: u64, value: u64) -> (r: Option<u64>)
    requires
        valid_field(width, lsb),
    ensures
        r is Some <==> fits_unsigned(value, width),
        r matches Some(updated) ==> updated == replace_field(word, width, lsb, value),
{
    if fitsu(value, width) {
        Some(insert_field(word, width, lsb, value))
    } else {
        None
    }
}

/// The `width`-bit two's-complement encoding of a signed value: the value
/// itself when non-negative, `value + 2^width` when negative.
pub open spec fn field_bits(value: i64, width: u64) -> u64
    recommends
        1 <= width <= 64,
        fits_signed(value, width),
{
    if value < 0 {
        (value + pow2(width as nat)) as u64
    } else {
        value as u64
    }
}

/// The two's-complement encoding of a value that fits in `width` signed bits
/// fits in `width` unsigned bits, and sign-extending it gives the value back.
pub proof fn lemma_field_bits_inverts(value: i64, width: u64)
    requires
        1 <= width <= 64,
        fits_signed(value, width),
    ensures
        fits_unsigned(field_bits(value, width), width),
        field_bits(value, width) as int == if value < 0 {
            value + pow2(width as nat)
        } else {
            value as int
        },
        ({
            let bits = field_bits(value, width);
            let extended: int = if pow2((width - 1) as nat) <= bits as nat {
                bits - pow2(width as nat)
            } else {
                bits as int
            };
            extended == value
        }),
{
    lemma_pow2_adds((width - 1) as nat, 1);
    lemma2_to64();
    lemma2_to64_rest();
    if width < 64 {
        lemma_pow2_strictly_increases((width - 1) as nat, 63);
        lemma_pow2_strictly_increases(width as nat, 64);
    }
}

/// Returns `word` with the `width`-bit field at `lsb` replaced by the
/// two's-complement encoding of the signed `value`, leaving all other bits
/// unchanged; `None` iff `value` does not fit in `width` signed bits.
pub fn news(word: u64, width: u64, lsb: u64, value: i64) -> (r: Option<u64>)
    requires
        valid_field(width, lsb),
    ensures
        r is Some <==> fits_signed(value, width),
        r matches Some(updated) ==> updated == replace_field(
            word,
            width,
            lsb,
            field_bits(value, width),
        ),
{
    if fitss(value, width) {
        proof {
            lemma_field_bits_inverts(value, width);
            lemma2_to64_rest();
        }
        let bits: u64 = if value >= 0 {
            value as u64
        } else if width == 64 {
            u64::MAX - ((-(value + 1)) as u64)
        } else {
            let full = pow2_u64(width);
            proof {
                lemma_pow2_strictly_increases((width - 1) as nat, width as nat);
            }
            full - ((-value) as u64)
        };
        Some(insert_field(word, width, lsb, bits))
    } else {
        None
    }
}

/// Shifts the unsigned `left_value` right by `shift_amount` bits, dividing it
/// by `2^shift_amount`.
pub fn unsigned_right_shift(left_value: u64, shift_amount: u64) -> (r: u64)
    requires
        1 <= shift_amount < 64,
    ensures
        r as nat == (left_value as nat) / pow2(shift_amount as nat),
{
    proof {
        lemma_u64_shr_is_div(left_value, shift_amount);
    }
    left_value >> shift_amount
}

/// Shifts the signed `left_value` right by `shift_amount` bits arithmetically,
/// which rounds towards minus infinity: the result is the floor of
/// `left_value / 2^shift_amount`.
pub fn signed_right_shift(left_value: i64, shift_amount: u64) -> (r: i64)
    requires
        1 <= shift_amount < 64,
    ensures
        r as int == (left_value as int) / (pow2(shift_amount as nat) as int),
{
    let divisor = pow2_u64(shift_amount);
    proof {
        lemma_pow2_pos(shift_amount as nat);
        lemma_pow2_strictly_increases(0, shift_amount as nat);
        lemma2_to64();
    }
    if left_value >= 0 {
        let quotient = (left_value as u64) / divisor;
        proof {
            vstd::arithmetic::div_mod::lemma_div_basics_5(left_value as int, divisor as int);
        }
        quotient as i64
    } else {
        // Floor division of a negative value: negate the ceiling of the
        // magnitude's quotient.
        let magnitude: u64 = if left_value == i64::MIN {
            0x8000_0000_0000_0000u64
        } else {
            (-left_value) as u64
        };
        let quotient = (magnitude - 1) / divisor + 1;
        proof {
            vstd::arithmetic::div_mod::lemma_div_is_ordered_by_denominator(
                magnitude as int - 1,
                2,
                divisor as int,
            );
            vstd::arithmetic::div_mod::lemma_div_is_ordered(
                magnitude as int - 1,
                0x7fff_ffff_ffff_ffff,
                2,
            );
            let m = magnitude as int;
            let p = divisor as int;
            let d = (m - 1) / p;
            lemma_fundamental_div_mod(m - 1, p);
            let s = (m - 1) % p;
            assert(left_value as int == (-(d + 1)) * p + (p - 1 - s)) by (nonlinear_arith)
                requires
                    m - 1 == p * d + s,
                    left_value as int == -m,
            ;
            lemma_fundamental_div_mod_converse(left_value as int, p, -(d + 1), p - 1 - s);
        }
        -(quotient as i64)
    }
}

/// Law: for every base word, every valid field position, and every value that
/// fits in `width` unsigned bits, extracting the field that was just inserted
/// returns the inserted value.
pub proof fn lemma_unsigned_round_trip(word: u64, width: u64, lsb: u64, value: u64)
    requires
        valid_field(width, lsb),
        fits_unsigned(value, width),
    ensures
        unsigned_field(replace_field(word, width, lsb, value), width, lsb) == value,
{
    let pw = pow2(width as nat) as int;
    let pl = pow2(lsb as nat) as int;
    let pt = pow2((width + lsb) as nat) as int;
    lemma_pow2_pos(width as nat);
    lemma_pow2_pos(lsb as nat);
    lemma_pow2_pos((width + lsb) as nat);
    lemma_pow2_adds(width as nat, lsb as nat);
    lemma_replace_field_parts(word, width, lsb, value);
    let q = word as int / pt;
    let m = (word as int) % pl;
    let r = replace_field(word, width, lsb, value) as int;
    assert(r == (q * pw + value) * pl + m) by {
        lemma_mul_is_distributive_add_other_way(pl, q * pw, value as int);
        lemma_mul_is_associative(q, pw, pl);
    }
    assert(q >= 0) by {
        vstd::arithmetic::div_mod::lemma_div_basics_4(word as int, pt);
    }
    assert(q * pw >= 0) by {
        lemma_mul_inequality(0, q, pw);
    }
    lemma_fundamental_div_mod_converse(r, pl, q * pw + value, m);
    lemma_fundamental_div_mod_converse(q * pw + value, pw, q, value as int);
    assert(unsigned_field(replace_field(word, width, lsb, value), width, lsb) as int == (r / pl)
        % pw);
}

/// Law: for every base word, every valid field position, and every value that
/// fits in `width` signed bits, sign-extending the field that was just set to
/// the value's two's-complement encoding returns the value.
pub proof fn lemma_signed_round_trip(word: u64, width: u64, lsb: u64, value: i64)
    requires
        valid_field(width, lsb),
        fits_signed(value, width),
    ensures
        signed_field(replace_field(word, width, lsb, field_bits(value, width)), width, lsb)
            == value,
{
    lemma_field_bits_inverts(value, width);
    lemma_unsigned_round_trip(word, width, lsb, field_bits(value, width));
}

} // verus!
