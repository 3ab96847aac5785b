use rust_annie::bytes::{get_le32, get_le64, put_le32, put_le64, to_signed, to_unsigned};
use rust_annie::scalar::{is_at_most_zero, key_of};

fn samples() -> Vec<f32> {
    vec![
        f32::NEG_INFINITY,
        f32::MIN,
        -1.0e10,
        -2.5,
        -1.0,
        -f32::MIN_POSITIVE,
        -1.0e-45,
        -0.0,
        0.0,
        1.0e-45,
        f32::MIN_POSITIVE,
        0.5,
        1.0,
        1.000_000_1,
        5.0,
        1.0e10,
        f32::MAX,
        f32::INFINITY,
    ]
}

#[test]
fn keys_order_as_the_numbers_do() {
    let xs = samples();
    for a in xs.iter() {
        for b in xs.iter() {
            let ka = key_of(a.to_bits());
            let kb = key_of(b.to_bits());
            assert_eq!(ka.cmp(&kb), a.partial_cmp(b).unwrap());
        }
    }
}

#[test]
fn keys_of_known_values() {
    assert_eq!(key_of(0.0f32.to_bits()), 0);
    assert_eq!(key_of((-0.0f32).to_bits()), 0);
    assert_eq!(key_of(1.0f32.to_bits()), 0x3f80_0000);
    assert_eq!(key_of((-1.0f32).to_bits()), -0x3f80_0000);
    assert_eq!(key_of(f32::INFINITY.to_bits()), 0x7f80_0000);
    assert_eq!(key_of(f32::NEG_INFINITY.to_bits()), -0x7f80_0000);
}

#[test]
fn every_pattern_that_is_no_number_has_the_top_key() {
    for bits in [f32::NAN.to_bits(), 0x7f80_0001, 0x7fff_ffff, 0xff80_0001, 0xffff_ffff, 0xffc0_0000]
    {
        assert!(f32::from_bits(bits).is_nan());
        assert_eq!(key_of(bits), 0x7f80_0001);
        assert!(key_of(bits) > key_of(f32::INFINITY.to_bits()));
    }
}

#[test]
fn at_most_zero_is_the_comparison_with_zero() {
    for x in samples() {
        assert_eq!(is_at_most_zero(x.to_bits()), x <= 0.0);
    }
    assert!(!is_at_most_zero(f32::NAN.to_bits()));
    assert!(!is_at_most_zero(0xffc0_0000));
}

#[test]
fn integers_are_written_lowest_byte_first() {
    for x in [0u32, 1, 255, 256, 0x0102_0304, 0xdead_beef, u32::MAX] {
        let mut out = vec![9u8];
        put_le32(&mut out, x);
        assert_eq!(&out[1..], &x.to_le_bytes());
        assert_eq!(get_le32(&out, 1), x);
    }
    for x in [0u64, 1, 0x0102_0304_0506_0708, 1 << 32, u64::MAX, 0x8000_0000_0000_0000] {
        let mut out = vec![9u8, 9];
        put_le64(&mut out, x);
        assert_eq!(&out[2..], &x.to_le_bytes());
        assert_eq!(get_le64(&out, 2), x);
    }
}

#[test]
fn signed_and_unsigned_share_their_bits() {
    for x in [0i64, 1, -1, 42, -42, i64::MAX, i64::MIN, i64::MIN + 1] {
        assert_eq!(to_unsigned(x), x as u64);
        assert_eq!(to_signed(x as u64), x);
    }
    assert_eq!(to_unsigned(-2), 0xffff_ffff_ffff_fffe);
    assert_eq!(to_signed(0x8000_0000_0000_0000), i64::MIN);
}
