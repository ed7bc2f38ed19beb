use ruler_bv::bv::BV;

type BV4 = BV<4>;

#[test]
fn test_bv() {
    assert_eq!(BV4::all_ones().value(), 0b1111);
    assert_eq!(BV4::max_value().value(), 0b0111);
    assert_eq!(BV4::min_value().value(), 0b1000);

    let one = BV4::new(1);

    assert_eq!(BV4::max_value().wrapping_add(one), BV4::min_value());
    assert_eq!(BV4::neg_one().wrapping_neg(), one);
    assert_eq!(BV4::min_value().wrapping_mul(BV4::neg_one()), BV4::min_value());
    assert_eq!(BV4::min_value().wrapping_neg(), BV4::min_value());
}

#[test]
fn new_masks_to_width() {
    assert_eq!(BV4::new(0xff).value(), 0xf);
    assert_eq!(BV4::new(0x12).value(), 0x2);
    assert_eq!(BV::<32>::new(u32::MAX).value(), u32::MAX);
    assert_eq!(BV::<1>::new(3).value(), 1);
    for x in 0..=0xffu32 {
        assert!(BV4::new(x).value() < 16);
    }
}

#[test]
fn constants_at_other_widths() {
    assert_eq!(BV::<8>::all_ones().value(), 0xff);
    assert_eq!(BV::<8>::min_value().value(), 0x80);
    assert_eq!(BV::<8>::max_value().value(), 0x7f);
    assert_eq!(BV::<32>::all_ones().value(), u32::MAX);
    assert_eq!(BV::<32>::min_value().value(), 0x8000_0000);
    assert_eq!(BV::<1>::min_value().value(), 1);
    assert_eq!(BV::<1>::max_value().value(), 0);
    assert_eq!(BV::<8>::all_ones().value().count_ones(), 8);
    assert_eq!(BV::<8>::neg_one().wrapping_neg(), BV::<8>::one());
    assert_eq!(BV::<8>::min_value().wrapping_mul(BV::<8>::neg_one()), BV::<8>::min_value());
}

#[test]
fn wrapping_arithmetic() {
    assert_eq!(BV4::new(9).wrapping_add(BV4::new(9)).value(), 2);
    assert_eq!(BV4::new(3).wrapping_sub(BV4::new(5)).value(), 14);
    assert_eq!(BV4::new(7).wrapping_mul(BV4::new(7)).value(), 1);
    assert_eq!(BV4::new(3).wrapping_neg().value(), 13);
    assert_eq!(BV4::zero().wrapping_neg().value(), 0);
    assert_eq!(BV::<32>::new(u32::MAX).wrapping_add(BV::<32>::one()).value(), 0);
    assert_eq!(BV::<32>::new(0x10000).wrapping_mul(BV::<32>::new(0x10000)).value(), 0);
}

#[test]
fn shifts_saturate_to_zero() {
    assert_eq!(BV4::new(0b0011).my_shl(BV4::new(2)).value(), 0b1100);
    assert_eq!(BV4::new(0b0111).my_shl(BV4::new(2)).value(), 0b1100);
    assert_eq!(BV4::new(0b1100).my_shr(BV4::new(2)).value(), 0b0011);
    assert_eq!(BV4::new(0b1000).my_shr(BV4::new(3)).value(), 1);
    for base in 0..16u32 {
        for amount in 4..16u32 {
            assert_eq!(BV4::new(base).my_shl(BV4::new(amount)), BV4::zero());
            assert_eq!(BV4::new(base).my_shr(BV4::new(amount)), BV4::zero());
        }
    }
    assert_eq!(BV::<32>::new(1).my_shl(BV::<32>::new(31)).value(), 0x8000_0000);
    assert_eq!(BV::<32>::new(1).my_shl(BV::<32>::new(32)).value(), 0);
}

#[test]
fn bitwise_operations() {
    assert_eq!(BV4::new(0b0101).not().value(), 0b1010);
    assert_eq!(BV4::zero().not(), BV4::all_ones());
    assert_eq!(BV4::new(0b1100).bitand(BV4::new(0b1010)).value(), 0b1000);
    assert_eq!(BV4::new(0b1100).bitor(BV4::new(0b1010)).value(), 0b1110);
    assert_eq!(BV4::new(0b1100).bitxor(BV4::new(0b1010)).value(), 0b0110);
}

#[test]
fn parse_and_print_decimal() {
    assert_eq!(BV4::parse_decimal("7").unwrap().value(), 7);
    assert_eq!(BV4::parse_decimal("17").unwrap().value(), 1);
    assert_eq!(BV4::parse_decimal("+12").unwrap().value(), 12);
    assert!(BV4::parse_decimal("+").is_err());
    assert!(BV4::parse_decimal("-1").is_err());
    assert!(BV4::parse_decimal(" 1").is_err());
    assert!(BV4::parse_decimal("x1").is_err());
    assert!(BV4::parse_decimal("").is_err());
    assert!(BV4::parse_decimal("4294967296").is_err());
    let printed: String = BV::<8>::new(203).to_chars().into_iter().collect();
    assert_eq!(printed, "203");
    let zero: String = BV4::zero().to_chars().into_iter().collect();
    assert_eq!(zero, "0");
}

#[test]
fn sample_stays_in_width() {
    for _ in 0..100 {
        assert!(BV4::sample().value() < 16);
    }
}

#[test]
fn ordering_by_magnitude() {
    assert!(BV4::new(3) < BV4::new(9));
    assert!(BV4::min_value() > BV4::max_value());
    assert!(BV4::new(19) == BV4::new(3));
    assert!(BV4::new(0) <= BV4::zero());
}
