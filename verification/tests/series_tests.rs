use resistor_calc::{RCalc, RSeries, RSet};

#[test]
fn new_expands_multiplier_major() {
    // One multiplier (1.5 ohm, written 15) scaled across the seven decades.
    let s = RSeries::new(&vec![15]);
    let mut expect: Vec<u32> = Vec::new();
    for p in [1u32, 10, 100, 1000, 10000, 100000, 1000000] {
        expect.push(15 * p);
    }
    assert_eq!(s.len(), 7);
    for i in 0..7 {
        assert_eq!(s.value_at(i), expect[i]);
    }
}

#[test]
fn series_size_is_multiplier_count_times_decades() {
    // Series size invariant: k multipliers and 7 decades give k*7 values.
    assert_eq!(RSeries::new(&vec![10]).len(), 7);
    assert_eq!(RSeries::new(&vec![10, 22, 47]).len(), 21);
    assert_eq!(RSeries::e3().len(), 21);
    assert_eq!(RSeries::e6().len(), 42);
    assert_eq!(RSeries::e12().len(), 84);
    assert_eq!(RSeries::e24().len(), 168);
}

#[test]
fn extend_keeps_base_as_prefix() {
    let e3 = RSeries::e3();
    let e6 = RSeries::e6();
    for i in 0..e3.len() {
        assert_eq!(e6.value_at(i), e3.value_at(i));
    }
    // The appended part is the expansion of the added multipliers.
    assert_eq!(e6.value_at(21), 15);
    assert_eq!(e6.value_at(22), 150);
    assert_eq!(e6.value_at(28), 33);
}

#[test]
fn e3_values_in_order() {
    let e3 = RSeries::e3();
    // Multiplier-major: all decades of 1.0 first, then 2.2, then 4.7.
    assert_eq!(e3.value_at(0), 10);
    assert_eq!(e3.value_at(6), 10_000_000);
    assert_eq!(e3.value_at(7), 22);
    assert_eq!(e3.value_at(13), 22_000_000);
    assert_eq!(e3.value_at(14), 47);
    assert_eq!(e3.value_at(20), 47_000_000);
}

#[test]
fn from_values_is_kept_exactly() {
    let s = RSeries::from_values(vec![100, 200, 50]);
    assert_eq!(s.len(), 3);
    assert_eq!(s.value_at(0), 100);
    assert_eq!(s.value_at(1), 200);
    assert_eq!(s.value_at(2), 50);
}

#[test]
fn combinations_is_product_of_lengths() {
    // Enumeration count invariant: the product of per-slot series lengths.
    let rc = RCalc::e24(3);
    assert_eq!(rc.combinations(), 168u128 * 168 * 168);
    let rc2 = RCalc::new(vec![
        RSeries::from_values(vec![100, 200]),
        RSeries::from_values(vec![50, 150, 250]),
    ]);
    assert_eq!(rc2.combinations(), 6);
    let rc3 = RCalc::new(vec![]);
    assert_eq!(rc3.combinations(), 1);
    let rc4 = RCalc::new(vec![
        RSeries::from_values(vec![]),
        RSeries::from_values(vec![10]),
    ]);
    assert_eq!(rc4.combinations(), 0);
}

#[test]
fn rset_accessors() {
    let rs = RSet::from_values(vec![100, 200, 300]);
    assert_eq!(rs.len(), 3);
    assert_eq!(rs.r(1), 100);
    assert_eq!(rs.r(2), 200);
    assert_eq!(rs.r(3), 300);
    assert_eq!(rs.sum(), 600u128);
}

#[test]
fn rset_sum_of_large_values() {
    let rs = RSet::from_values(vec![u32::MAX, u32::MAX]);
    assert_eq!(rs.sum(), 2u128 * (u32::MAX as u128));
}
