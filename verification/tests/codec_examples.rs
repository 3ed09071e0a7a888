use rum::bitpack;

#[test]
fn unsigned_field_examples() {
    assert_eq!(bitpack::getu(0x3f4, 6, 2), 61);
    assert_eq!(bitpack::getu(0, 64, 0), 0);
    assert_eq!(bitpack::getu(u64::MAX, 64, 0), u64::MAX);
    assert_eq!(bitpack::getu(0b1011_0000, 4, 4), 0b1011);
    assert_eq!(bitpack::getu(1, 1, 63), 0);
    assert_eq!(bitpack::getu(1 << 63, 1, 63), 1);
}

#[test]
fn signed_field_examples() {
    // The field of 151 at width 5, lsb 2 is 0b00101 = 5; its top bit is clear,
    // so the signed reading is +5.
    assert_eq!(bitpack::gets(151, 5, 2), 5);
    // The field of 108 at width 5, lsb 2 is 0b11011 = 27; its top bit is set,
    // so the signed reading is 27 - 32 = -5.
    assert_eq!(bitpack::gets(108, 5, 2), -5);
    assert_eq!(bitpack::gets(u64::MAX, 64, 0), -1);
    assert_eq!(bitpack::gets(u64::MAX, 3, 10), -1);
    assert_eq!(bitpack::gets(0x80, 2, 6), -2);
}

#[test]
fn set_unsigned_examples() {
    assert_eq!(bitpack::newu(1024, 6, 2, 19), Some(1100));
    assert_eq!(bitpack::newu(0, 64, 0, 12345), Some(12345));
    // All other bits stay as they were.
    assert_eq!(bitpack::newu(0xff00ff, 8, 8, 0xab), Some(0xffabff));
    // The same value set at lsb 0 keeps the high bits.
    assert_eq!(bitpack::newu(0b1111, 2, 0, 0), Some(0b1100));
}

#[test]
fn set_signed_examples() {
    // -3 in 3 bits is 0b101 = 5, placed at lsb 2 over word 32: 32 | 20 = 52.
    assert_eq!(bitpack::news(32, 3, 2, -3), Some(52));
    assert_eq!(bitpack::news(0, 5, 13, -3), Some(29 << 13));
    assert_eq!(bitpack::news(0, 5, 8, -1), Some(31 << 8));
    assert_eq!(bitpack::news(7, 64, 0, -1), Some(u64::MAX));
    assert_eq!(bitpack::news(0, 1, 63, -1), Some(1 << 63));
    assert_eq!(bitpack::news(0, 4, 0, 6), Some(6));
}

#[test]
fn unsigned_round_trip_concrete() {
    assert_eq!(bitpack::getu(bitpack::newu(128, 5, 2, 3).unwrap(), 5, 2), 3);
    assert_eq!(bitpack::getu(bitpack::newu(u64::MAX, 7, 40, 77).unwrap(), 7, 40), 77);
    assert_eq!(bitpack::getu(bitpack::newu(0, 64, 0, 987654321).unwrap(), 64, 0), 987654321);
    // Bits outside the replaced field are untouched.
    assert_eq!(bitpack::getu(bitpack::newu(128, 5, 2, 6).unwrap(), 3, 8), bitpack::getu(128, 3, 8));
}

#[test]
fn signed_round_trip_concrete() {
    assert_eq!(bitpack::gets(bitpack::news(128, 5, 2, -4).unwrap(), 5, 2), -4);
    assert_eq!(bitpack::gets(bitpack::news(128, 4, 1, -4).unwrap(), 2, 5), bitpack::gets(128, 2, 5));
    assert_eq!(bitpack::gets(bitpack::news(0, 64, 0, -123456789).unwrap(), 64, 0), -123456789);
    assert_eq!(bitpack::gets(bitpack::news(0, 1, 7, -1).unwrap(), 1, 7), -1);
    assert_eq!(bitpack::gets(bitpack::news(0xabcdef, 9, 20, 255).unwrap(), 9, 20), 255);
}

#[test]
fn value_that_does_not_fit_is_refused() {
    // An unsigned value out of range is refused for every base word and lsb.
    assert_eq!(bitpack::newu(0, 5, 0, 32), None);
    assert_eq!(bitpack::newu(u64::MAX, 5, 13, 32), None);
    assert_eq!(bitpack::newu(77, 1, 63, 2), None);
    // A signed value out of range on either side is refused too.
    assert_eq!(bitpack::news(0, 3, 1, 4), None);
    assert_eq!(bitpack::news(12345, 3, 1, -5), None);
    assert_eq!(bitpack::news(0, 1, 0, 1), None);
    // The bounds themselves fit.
    assert_eq!(bitpack::newu(0, 5, 0, 31), Some(31));
    assert_eq!(bitpack::news(0, 3, 0, -4), Some(4));
    assert_eq!(bitpack::news(0, 3, 0, 3), Some(3));
}

#[test]
fn right_shift_examples() {
    assert_eq!(bitpack::unsigned_right_shift(1024, 3), 128);
    assert_eq!(bitpack::unsigned_right_shift(u64::MAX, 63), 1);
    assert_eq!(bitpack::unsigned_right_shift(7, 3), 0);
    // The signed shift rounds towards minus infinity.
    assert_eq!(bitpack::signed_right_shift(7, 1), 3);
    assert_eq!(bitpack::signed_right_shift(-5, 1), -3);
    assert_eq!(bitpack::signed_right_shift(-4, 2), -1);
    assert_eq!(bitpack::signed_right_shift(-1, 30), -1);
    assert_eq!(bitpack::signed_right_shift(i64::MIN, 1), -(1 << 62));
    assert_eq!(bitpack::signed_right_shift(i64::MAX, 62), 1);
}
