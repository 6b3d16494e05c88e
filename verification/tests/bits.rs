use mimz_core::bits::{
    bits_to_decimal_string, from_limbs, leading_ones, mask, natural_width, retag, shrink, to_limbs,
    top_bit_set, Bits,
};
use mimz_core::checker::consteval::clog2_bits;
use mimz_core::wide;

#[test]
fn mask_of_128_or_more_is_all_ones() {
    assert_eq!(mask(128), u128::MAX);
    assert_eq!(mask(200), u128::MAX);
}

#[test]
fn bits_to_decimal_string_renders_a_small_negative_value() {
    assert_eq!(bits_to_decimal_string(&Bits::Small(0xFF), 8, true), "-1");
}

#[test]
fn to_limbs_promotes_a_small_value() {
    let b = Bits::Small(0xFF);
    let limbs = to_limbs(&b, 200);
    assert_eq!(limbs.len(), wide::limb_count(200));
    assert_eq!(limbs[0], 0xFF);
}

#[test]
fn from_limbs_auto_narrows_at_128_bits_or_less() {
    let limbs = wide::from_u128(42, 96);
    let b = from_limbs(limbs, 96);
    assert_eq!(b, Bits::Small(42));
}

#[test]
fn from_limbs_stays_wide_past_128_bits() {
    let limbs = wide::from_u128(42, 200);
    let b = from_limbs(limbs, 200);
    assert!(matches!(b, Bits::Wide(_)));
}

#[test]
fn natural_width_of_zero_is_one() {
    assert_eq!(natural_width(&Bits::Small(0)), 1);
}

#[test]
fn natural_width_of_a_small_value_is_tight() {
    assert_eq!(natural_width(&Bits::Small(5)), 3);
}

#[test]
fn natural_width_of_a_wide_value_scans_limbs() {
    let mut limbs = wide::zeros(200);
    limbs[2] |= 1u64 << (130 - 128);
    assert_eq!(natural_width(&Bits::Wide(limbs)), 131);
}

#[test]
fn top_bit_set_reads_the_correct_position() {
    assert!(top_bit_set(&Bits::Small(0b100), 3));
    assert!(!top_bit_set(&Bits::Small(0b100), 4));
}

#[test]
fn from_u128_impl_matches_bits_small() {
    let b: Bits = 42u128.into();
    assert_eq!(b, Bits::Small(42));
}

#[test]
fn retag_trims_a_padded_wide_vector_to_the_new_widths_limb_count() {
    let padded = wide::from_u128(0xFF, 512);
    let retagged = retag(&Bits::Wide(padded), 200);
    match retagged {
        Bits::Wide(limbs) => assert_eq!(limbs.len(), wide::limb_count(200)),
        Bits::Small(_) => panic!("200 bits must stay Wide, not auto-narrow"),
    }
}

#[test]
fn leading_ones_counts_from_the_top_bit_down() {
    assert_eq!(leading_ones(&Bits::Small(0b1110), 4), 3);
}

#[test]
fn leading_ones_of_all_ones_is_the_full_width() {
    assert_eq!(leading_ones(&Bits::Small(u128::MAX), 8), 8);
}

#[test]
fn shrink_of_a_nonnegative_value_finds_the_tight_unsigned_width() {
    let (b, w, signed) = shrink(&Bits::Small(5), 8, false);
    assert_eq!(w, 3);
    assert!(!signed);
    assert_eq!(b, Bits::Small(5));
}

#[test]
fn shrink_of_negative_one_round_trips() {
    let (b, w, signed) = shrink(&Bits::Small(0xFF), 8, true);
    assert!(signed);
    let extended = wide::extend(&to_limbs(&b, w), w, 8, true);
    assert_eq!(from_limbs(extended, 8), Bits::Small(0xFF));
}

#[test]
fn shrink_of_negative_four_reproduces_the_same_value_at_a_smaller_width() {
    let (b, w, signed) = shrink(&Bits::Small(0b11111100), 8, true);
    assert!(signed);
    assert_eq!(w, 3);
    let extended = wide::extend(&to_limbs(&b, w), w, 8, true);
    assert_eq!(from_limbs(extended, 8), Bits::Small(0b11111100));
}

#[test]
fn shrink_of_zero_is_never_reported_negative() {
    let (b, w, signed) = shrink(&Bits::Small(0), 8, true);
    assert!(!signed);
    assert_eq!(w, 1);
    assert_eq!(b, Bits::Small(0));
}

#[test]
fn clog2_bits_matches_spec_table() {
    assert_eq!(clog2_bits(1), 1);
    assert_eq!(clog2_bits(2), 1);
    assert_eq!(clog2_bits(3), 2);
    assert_eq!(clog2_bits(4), 2);
    assert_eq!(clog2_bits(5), 3);
    assert_eq!(clog2_bits(8), 3);
    assert_eq!(clog2_bits(9), 4);
    assert_eq!(clog2_bits(1024), 10);
}

#[test]
fn from_u128_holds_its_value_cut_to_the_width() {
    let limbs = wide::from_u128(0x1_0000_0000_0000_0005, 64);
    assert_eq!(limbs, vec![5u64]);
    let limbs = wide::from_u128(0x3_0000_0000_0000_0007, 66);
    assert_eq!(limbs, vec![7u64, 3u64]);
}

#[test]
fn add_sub_mul_at_wrap_at_the_width() {
    assert_eq!(wide::add_at(&[u64::MAX], &[1], 65), vec![0u64, 1u64]);
    assert_eq!(wide::add_at(&[u64::MAX], &[1], 64), vec![0u64]);
    assert_eq!(wide::sub_at(&[0], &[1], 8), vec![0xffu64]);
    assert_eq!(wide::mul_at(&[1u64 << 63], &[4], 128), vec![0u64, 2u64]);
}

#[test]
fn shifts_move_bits_across_limbs() {
    assert_eq!(wide::shl(&[1u64 << 63], 1, 128), vec![0u64, 1u64]);
    assert_eq!(wide::shr(&[0, 1], 1), vec![1u64 << 63, 0u64]);
    assert_eq!(wide::bitxor(&[0b1100], &[0b1010]), vec![0b0110u64]);
}

#[test]
fn shrink_of_a_nonnegative_value_keeps_it_at_its_tight_width() {
    assert_eq!(shrink(&Bits::Small(5), 8, false), (Bits::Small(5), 3, false));
}

#[test]
fn shrink_of_minus_four_keeps_its_pattern() {
    let (b, w, neg) = shrink(&Bits::Small(0b1111_1100), 8, true);
    assert!(neg);
    assert_eq!(w, 3);
    assert_eq!(b, Bits::Small(0b100));
}
