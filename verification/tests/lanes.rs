use simd_json::neon::intrinsics::{
    add_overflow, hamming, int32x4_t, int8x16_t, trailingzeroes, uint64x2_t, uint8x16_t, vandq_s8,
    vandq_u8, vdupq_n_s8, vdupq_n_u8, vmovq_n_u8, vorrq_s8, vorrq_u8, vqmovn_u64, vqsubq_u8,
    zeroi8x16, zerou8x16,
};

#[test]
fn constructors_keep_the_lane_order() {
    let v = uint8x16_t::new(0, 1, 2, 3, 4, 5, 6, 7, 8, 9, 10, 11, 12, 13, 14, 15);
    assert_eq!((v.0, v.1, v.7, v.8, v.15), (0, 1, 7, 8, 15));
    let v = int8x16_t::new(0, -1, 2, -3, 4, -5, 6, -7, 8, -9, 10, -11, 12, -13, 14, -15);
    assert_eq!((v.0, v.1, v.7, v.8, v.15), (0, -1, -7, 8, -15));
    let v = int32x4_t::new(1, -2, 3, -4);
    assert_eq!((v.0, v.1, v.2, v.3), (1, -2, 3, -4));
}

#[test]
fn broadcast_fills_every_lane() {
    let v = vdupq_n_u8(0x5c);
    assert_eq!((v.0, v.5, v.15), (0x5c, 0x5c, 0x5c));
    let v = vmovq_n_u8(7);
    assert_eq!((v.0, v.9, v.15), (7, 7, 7));
    let v = vdupq_n_s8(-3);
    assert_eq!((v.0, v.9, v.15), (-3, -3, -3));
    let v = zerou8x16();
    assert_eq!((v.0, v.9, v.15), (0, 0, 0));
    let v = zeroi8x16();
    assert_eq!((v.0, v.9, v.15), (0, 0, 0));
}

#[test]
fn add_overflow_reports_the_carry() {
    let mut out = 99u64;
    assert!(!add_overflow(1, 2, &mut out));
    assert_eq!(out, 99);
    assert!(add_overflow(u64::MAX, 2, &mut out));
    assert_eq!(out, 1);
    assert!(!add_overflow(u64::MAX, 0, &mut out));
    assert_eq!(out, 1);
    assert!(add_overflow(1 << 63, 1 << 63, &mut out));
    assert_eq!(out, 0);
}

#[test]
fn narrowing_keeps_the_low_half() {
    let v = vqmovn_u64(uint64x2_t(0x1_0000_0005, 7));
    assert_eq!((v.0, v.1), (5, 7));
    let v = vqmovn_u64(uint64x2_t(u64::MAX, 0xffff_ffff));
    assert_eq!((v.0, v.1), (0xffff_ffff, 0xffff_ffff));
}

#[test]
fn trailing_zero_count() {
    assert_eq!(trailingzeroes(1), 0);
    assert_eq!(trailingzeroes(0b1000), 3);
    assert_eq!(trailingzeroes(1 << 63), 63);
    assert_eq!(trailingzeroes(0), 64);
}

#[test]
fn count_of_set_bits() {
    assert_eq!(hamming(0), 0);
    assert_eq!(hamming(1), 1);
    assert_eq!(hamming(0b1011_0000), 3);
    assert_eq!(hamming(u64::MAX), 64);
    assert_eq!(hamming(1 << 63), 1);
    assert_eq!(hamming(0xAAAA_AAAA_AAAA_AAAA), 32);
}

#[test]
fn lanewise_bit_operations() {
    let a = uint8x16_t::new(0, 1, 2, 3, 4, 5, 6, 7, 8, 9, 10, 11, 12, 13, 14, 0xf0);
    let b = vdupq_n_u8(0x0a);
    let r = vandq_u8(a, b);
    assert_eq!((r.0, r.2, r.3, r.10, r.15), (0, 2, 2, 10, 0));
    let r = vorrq_u8(a, b);
    assert_eq!((r.0, r.1, r.4, r.10, r.15), (10, 11, 14, 10, 0xfa));
    let a = int8x16_t::new(-1, 1, 2, 3, 4, 5, 6, 7, 8, 9, 10, 11, 12, 13, 14, -128);
    let b = vdupq_n_s8(0x0c);
    let r = vandq_s8(a, b);
    assert_eq!((r.0, r.1, r.4, r.15), (12, 0, 4, 0));
    let r = vorrq_s8(a, b);
    assert_eq!((r.0, r.1, r.2, r.15), (-1, 13, 14, -116));
}

#[test]
fn lanewise_difference_wraps() {
    let a = uint8x16_t::new(0, 1, 2, 3, 4, 5, 6, 7, 8, 9, 10, 11, 12, 13, 14, 255);
    let r = vqsubq_u8(a, vdupq_n_u8(3));
    assert_eq!((r.0, r.2, r.3, r.4, r.15), (253, 255, 0, 1, 252));
}
