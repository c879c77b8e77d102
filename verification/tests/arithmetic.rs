use shrink_oracle::babybear::{
    bb_add, bb_is_boolean, bb_mul, bb_one, bb_sub, is_canonical_row, BABYBEAR_P,
};
use shrink_oracle::bytes::{
    push_u16_le, push_u32_le, push_u64_le, read_u16_le, read_u32_le, read_u64_le, u64_le_at,
    ReadError,
};
use shrink_oracle::extension::{ext_eq, ext_from_base_u32, ext_from_block_u32, ext_from_row};
use shrink_oracle::modular::{mod_add, mod_mul, mod_mul_u64, mod_pow_u64};
use shrink_oracle::primality::is_prime_u64;
use shrink_oracle::sizing::{
    count_base_elements, div_ceil, estimate_trace, extended_bytes, fixed_trace, last_of_kind,
    merkle_height, next_pow2, parse_kind, power_of_two, total_bytes, ShapeKind,
};

#[test]
fn base_field_operations_wrap_at_the_modulus() {
    assert_eq!(BABYBEAR_P, 2013265921);
    assert_eq!(bb_one(), 1);
    assert_eq!(bb_add(BABYBEAR_P - 1, 5), 4);
    assert_eq!(bb_add(u32::MAX, u32::MAX), 536870906);
    assert_eq!(bb_sub(3, 5), 2013265919);
    assert_eq!(bb_sub(7, 7), 0);
    assert_eq!(bb_mul(123456789, 987654321), 6500116);
    assert_eq!(bb_mul(BABYBEAR_P - 1, BABYBEAR_P - 1), 1);
}

#[test]
fn booleans_are_zero_and_one() {
    assert!(bb_is_boolean(0));
    assert!(bb_is_boolean(1));
    assert!(!bb_is_boolean(2));
    assert!(!bb_is_boolean(BABYBEAR_P - 1));
}

#[test]
fn canonical_rows_stay_below_the_modulus() {
    assert!(is_canonical_row(&[]));
    assert!(is_canonical_row(&[0, 1, BABYBEAR_P - 1]));
    assert!(!is_canonical_row(&[0, BABYBEAR_P]));
}

#[test]
fn extension_elements_are_read_from_rows() {
    let a = ext_from_block_u32([1, 2, 3, 4]);
    assert_eq!((a.c0, a.c1, a.c2, a.c3), (1, 2, 3, 4));
    let b = ext_from_base_u32(9);
    assert_eq!((b.c0, b.c1, b.c2, b.c3), (9, 0, 0, 0));
    assert!(ext_eq(&ext_from_row(&[7, 1, 2, 3, 4, 8], 1), &a));
    assert!(!ext_eq(&a, &b));
}

#[test]
fn modular_arithmetic_does_not_overflow() {
    let p = 18446744073709551557u64;
    assert_eq!(mod_add(p, p - 1, p - 1), p - 2);
    assert_eq!(mod_mul(p, p - 1, p - 1), 1);
    assert_eq!(mod_mul_u64(p - 1, 2, p), p - 2);
    assert_eq!(mod_add(10, 7, 8), 5);
}

#[test]
fn powers_are_taken_modulo() {
    assert_eq!(mod_pow_u64(3, 1000003, 18446744073709551557), 9319315669122747275);
    assert_eq!(mod_pow_u64(2, 1000000000000000000, 1000000007), 719476260);
    assert_eq!(mod_pow_u64(5, 0, 7), 1);
    assert_eq!(mod_pow_u64(5, 0, 1), 1);
    assert_eq!(mod_pow_u64(5, 3, 1), 0);
}

#[test]
fn small_numbers_are_classified() {
    let primes: Vec<u64> = (0u64..1800)
        .filter(|n| *n >= 2 && (2..*n).all(|d| n % d != 0))
        .collect();
    for n in 0u64..1800 {
        assert_eq!(is_prime_u64(n), primes.contains(&n), "{}", n);
    }
}

#[test]
fn primes_pass_and_pseudoprimes_fail() {
    for p in [
        18446744069414584321u64,
        18446744073709551557,
        18446744073709551533,
        18446744073709551521,
        2013265921,
        41,
    ] {
        assert!(is_prime_u64(p), "{}", p);
    }
    // 41 * 41, 41 * 43, and numbers that fool some of the bases.
    for n in [
        561u64,
        1681,
        1763,
        1795265023,
        3215031751,
        4759123141,
        1122004669633,
        3825123056546413051,
    ] {
        assert!(!is_prime_u64(n), "{}", n);
    }
    assert!(!is_prime_u64(18446744073709551556));
}

#[test]
fn little_endian_numbers_round_trip() {
    let mut out: Vec<u8> = Vec::new();
    push_u16_le(&mut out, 0x0102);
    push_u32_le(&mut out, 0xa0b0c0d0);
    push_u64_le(&mut out, 0x1122334455667788);
    assert_eq!(
        out,
        vec![2, 1, 0xd0, 0xc0, 0xb0, 0xa0, 0x88, 0x77, 0x66, 0x55, 0x44, 0x33, 0x22, 0x11]
    );
    let mut at: usize = 0;
    assert_eq!(read_u16_le(&out, &mut at), Ok(0x0102));
    assert_eq!(read_u32_le(&out, &mut at), Ok(0xa0b0c0d0));
    assert_eq!(u64_le_at(&out, at), 0x1122334455667788);
    assert_eq!(read_u64_le(&out, &mut at), Ok(0x1122334455667788));
    assert_eq!(at, 14);
}

#[test]
fn reading_past_the_end_fails() {
    let bytes = [1u8];
    let mut at: usize = 0;
    assert_eq!(read_u16_le(&bytes, &mut at), Err(ReadError::UnexpectedEnd));
    assert_eq!(read_u32_le(&bytes, &mut at), Err(ReadError::UnexpectedEnd));
    assert_eq!(read_u64_le(&bytes, &mut at), Err(ReadError::UnexpectedEnd));
    assert_eq!(at, 0);
}

#[test]
fn divisions_round_up() {
    assert_eq!(div_ceil(0, 4), 0);
    assert_eq!(div_ceil(1, 4), 1);
    assert_eq!(div_ceil(8, 4), 2);
    assert_eq!(div_ceil(9, 4), 3);
    assert_eq!(div_ceil(usize::MAX, 2), usize::MAX / 2 + 1);
}

#[test]
fn powers_of_two_are_found() {
    assert_eq!(next_pow2(0), 1);
    assert_eq!(next_pow2(1), 1);
    assert_eq!(next_pow2(2), 2);
    assert_eq!(next_pow2(5), 8);
    assert_eq!(next_pow2(1 << 20), 1 << 20);
    for n in 0usize..300 {
        assert_eq!(merkle_height(n), n.next_power_of_two().ilog2() as usize);
    }
    assert_eq!(power_of_two(0), Some(1));
    assert_eq!(power_of_two(127), Some(1u128 << 127));
    assert_eq!(power_of_two(128), None);
}

#[test]
fn trace_sizes_are_estimated() {
    let s = estimate_trace(9, 4, 12).unwrap();
    assert_eq!((s.raw_rows, s.rows, s.bytes), (3, 4, 192));
    let t = fixed_trace(16, 1).unwrap();
    assert_eq!((t.raw_rows, t.rows, t.bytes), (16, 16, 64));
    assert_eq!(total_bytes(&[s, t]), Some(256));
    assert_eq!(total_bytes(&[]), Some(0));
    assert_eq!(estimate_trace(9, 0, 12), None);
    assert_eq!(estimate_trace(usize::MAX, 1, 1), None);
    assert_eq!(estimate_trace(1 << 40, 1, usize::MAX), None);
    assert_eq!(fixed_trace(usize::MAX, 2), None);
    let huge = fixed_trace(usize::MAX / 4, 1).unwrap();
    assert_eq!(total_bytes(&[huge, huge]), None);
}

#[test]
fn oracle_sizes_are_counted() {
    assert_eq!(count_base_elements(&[(3, 10), (0, 7)]), Some(87));
    assert_eq!(count_base_elements(&[(128, 1)]), None);
    assert_eq!(count_base_elements(&[(127, 2)]), None);
    assert_eq!(extended_bytes(348, 3), Some(2784));
    assert_eq!(extended_bytes(u128::MAX, 1), None);
    assert_eq!(extended_bytes(1, 128), None);
}

#[test]
fn kinds_are_parsed_and_selected() {
    assert_eq!(parse_kind("compress"), Some(ShapeKind::Compress));
    assert_eq!(parse_kind("shrink"), Some(ShapeKind::Shrink));
    assert_eq!(parse_kind("deferred"), Some(ShapeKind::Deferred));
    assert_eq!(parse_kind("recursion"), Some(ShapeKind::Recursion));
    assert_eq!(parse_kind("Shrink"), None);
    let kinds = [ShapeKind::Shrink, ShapeKind::Compress, ShapeKind::Shrink, ShapeKind::Deferred];
    assert_eq!(last_of_kind(&kinds, ShapeKind::Shrink), Some(2));
    assert_eq!(last_of_kind(&kinds, ShapeKind::Recursion), None);
}
