use resistor_calc::{RCalc, ROpBuilder, RSeries};

// Values are written in tenths of an ohm: 100 is 10 ohm.

#[test]
fn single_slot_hard_bound() {
    // Slots [{10, 20}] with "R1 > 15": exactly one accepted candidate,
    // R1 = 20, with error 0.
    let rc = RCalc::new(vec![RSeries::from_values(vec![100, 200])]);
    let score = ROpBuilder::new().bound("R1 > 15").unwrap().finish();
    let res = rc.calc(&score).expect("one candidate passes");
    let entries = res.iter();
    assert_eq!(entries.len(), 1);
    assert_eq!(entries[0].0, 0);
    assert_eq!(entries[0].1.r(1), 200);
}

#[test]
fn two_slot_tolerance_ranking() {
    // Slots [{10,20},{5,15}] with "R1+R2 ~ 25": all four candidates are
    // accepted. Their sums are 15, 25, 25, 35, so the errors are 10, 0,
    // 0, 10 ohm; the best matches both sum to exactly 25.
    let rc = RCalc::new(vec![
        RSeries::from_values(vec![100, 200]),
        RSeries::from_values(vec![50, 150]),
    ]);
    let score = ROpBuilder::new().bound("R1+R2 ~ 25").unwrap().finish();
    let res = rc.calc(&score).expect("all candidates accepted");
    let entries = res.iter();
    assert_eq!(entries.len(), 4);
    let keys: Vec<u64> = entries.iter().map(|e| e.0).collect();
    assert_eq!(keys, vec![0, 0, 10_000_000_000, 10_000_000_000]);
    assert_eq!(res.best_count(), 2);
    for e in entries.iter().take(2) {
        assert_eq!((e.1.r(1) + e.1.r(2)), 250);
    }
    // (10, 15) is among the best matches.
    assert!(entries
        .iter()
        .take(2)
        .any(|e| e.1.r(1) == 100 && e.1.r(2) == 150));
}

#[test]
fn no_slots_give_one_empty_candidate() {
    // With no slots configured the engine evaluates exactly one candidate,
    // the empty tuple.
    let rc = RCalc::new(vec![]);
    let score = ROpBuilder::new().finish();
    let res = rc.calc(&score).expect("the empty candidate is accepted");
    let entries = res.iter();
    assert_eq!(entries.len(), 1);
    assert_eq!(entries[0].0, 0);
    assert_eq!(entries[0].1.len(), 0);
}

#[test]
fn unbound_variable_rejects_candidate() {
    // A constraint referencing a slot that is not configured can never
    // evaluate: nothing is accepted.
    let rc = RCalc::new(vec![RSeries::from_values(vec![100])]);
    let score = ROpBuilder::new().bound("R2 > 0").unwrap().finish();
    assert!(rc.calc(&score).is_none());
}

#[test]
fn empty_result_is_absent_not_empty() {
    let rc = RCalc::new(vec![RSeries::from_values(vec![100, 200])]);
    let score = ROpBuilder::new().bound("R1 > 100").unwrap().finish();
    assert!(rc.calc(&score).is_none());
}

#[test]
fn sorted_ascending_by_quantized_error() {
    // Sorting invariant: quantized errors never decrease along iteration.
    let rc = RCalc::new(vec![RSeries::from_values(vec![400, 100, 300, 200])]);
    let score = ROpBuilder::new().bound("R1 ~ 25").unwrap().finish();
    let res = rc.calc(&score).expect("all accepted");
    let entries = res.iter();
    assert_eq!(entries.len(), 4);
    for w in entries.windows(2) {
        assert!(w[0].0 <= w[1].0);
    }
    // |25-40|, |25-10|, |25-30|, |25-20| -> sorted 5, 5, 15, 15 (in ohms).
    let keys: Vec<u64> = entries.iter().map(|e| e.0).collect();
    assert_eq!(
        keys,
        vec![5_000_000_000, 5_000_000_000, 15_000_000_000, 15_000_000_000]
    );
}

#[test]
fn best_count_is_the_tied_prefix() {
    let rc = RCalc::new(vec![RSeries::from_values(vec![100, 200, 400])]);
    let score = ROpBuilder::new()
        .bound("R1 >= 10")
        .unwrap()
        .bound("R1 ~ 30")
        .unwrap()
        .finish();
    let res = rc.calc(&score).expect("all candidates pass");
    // Errors in ohms: |30-10| = 20, |30-20| = 10, |30-40| = 10.
    assert_eq!(res.best_count(), 2);
    let entries = res.iter();
    assert_eq!(entries[0].0, 10_000_000_000);
    assert_eq!(entries[1].0, 10_000_000_000);
    assert_eq!(entries[2].0, 20_000_000_000);
}

#[test]
fn comparison_gates_and_tolerances_mix() {
    // A failed comparison rejects regardless of tolerances.
    let rc = RCalc::new(vec![
        RSeries::from_values(vec![100, 200]),
        RSeries::from_values(vec![50, 150]),
    ]);
    let score = ROpBuilder::new()
        .bound("R1+R2 ~ 25")
        .unwrap()
        .bound("R1 <= 15")
        .unwrap()
        .finish();
    let res = rc.calc(&score).expect("the 10-ohm R1 candidates pass");
    let entries = res.iter();
    assert_eq!(entries.len(), 2);
    for e in entries {
        assert_eq!(e.1.r(1), 100);
    }
}

#[test]
fn adding_a_comparison_never_accepts_more() {
    // Rejection monotonicity, on concrete values.
    let rc = RCalc::new(vec![
        RSeries::from_values(vec![100, 200, 300]),
        RSeries::from_values(vec![50, 150]),
    ]);
    let base = ROpBuilder::new().bound("R1+R2 ~ 30").unwrap().finish();
    let more = ROpBuilder::new()
        .bound("R1+R2 ~ 30")
        .unwrap()
        .bound("R1 < 25")
        .unwrap()
        .finish();
    let n_base = rc.calc(&base).map(|r| r.iter().len()).unwrap_or(0);
    let n_more = rc.calc(&more).map(|r| r.iter().len()).unwrap_or(0);
    assert!(n_more <= n_base);
    assert_eq!(n_base, 6);
    assert_eq!(n_more, 4);
}

#[test]
fn constraint_order_does_not_change_results() {
    // Tolerance additivity and order independence, on concrete values.
    let rc = RCalc::new(vec![
        RSeries::from_values(vec![100, 200]),
        RSeries::from_values(vec![50, 150]),
    ]);
    let ab = ROpBuilder::new()
        .bound("R1 ~ 12")
        .unwrap()
        .bound("R2 ~ 7")
        .unwrap()
        .finish();
    let ba = ROpBuilder::new()
        .bound("R2 ~ 7")
        .unwrap()
        .bound("R1 ~ 12")
        .unwrap()
        .finish();
    let res_ab = rc.calc(&ab).unwrap();
    let res_ba = rc.calc(&ba).unwrap();
    let ka: Vec<u64> = res_ab.iter().iter().map(|e| e.0).collect();
    let kb: Vec<u64> = res_ba.iter().iter().map(|e| e.0).collect();
    assert_eq!(ka, kb);
    // And the combined error is the exact sum of the two deviations:
    // best candidate (10, 5): |12-10| + |7-5| = 4 ohm = 4e9 ppb.
    assert_eq!(ka[0], 4_000_000_000);
}

#[test]
fn many_slots_use_multi_digit_names() {
    // Twelve slots of one value each: the variables R10..R12 resolve.
    let mut slots = Vec::new();
    for _ in 0..12 {
        slots.push(RSeries::from_values(vec![10]));
    }
    let rc = RCalc::new(slots);
    let score = ROpBuilder::new()
        .bound("R10 + R11 + R12 ~ 3")
        .unwrap()
        .finish();
    let res = rc.calc(&score).expect("accepted");
    assert_eq!(res.iter().len(), 1);
    assert_eq!(res.iter()[0].0, 0);
}

#[test]
fn standard_series_search_matches_divider() {
    // A small real search over E3 values: R1 + R2 close to 50 ohm.
    let rc = RCalc::e3(2);
    let score = ROpBuilder::new()
        .bound("R1 + R2 ~ 50")
        .unwrap()
        .bound("R1 <= 47")
        .unwrap()
        .bound("R2 <= 47")
        .unwrap()
        .finish();
    let res = rc.calc(&score).expect("candidates exist");
    // 47 + 2.2 = 49.2 and 2.2 + 47 give |50-49.2| = 0.8 ohm.
    assert_eq!(res.best_count(), 2);
    assert_eq!(res.iter()[0].0, 800_000_000);
}

#[test]
fn e3_pair_close_to_500() {
    let rc = RCalc::e3(2);
    let score = ROpBuilder::new().bound("R1 + R2 ~ 500").unwrap().finish();
    let res = rc.calc(&score).expect("candidates exist");
    // The closest E3 sums are 470 + 22 and 22 + 470, both 8 ohm off.
    assert_eq!(res.best_count(), 2);
    assert_eq!(res.iter()[0].0, 8_000_000_000);
    let top = &res.iter()[0].1;
    assert_eq!(top.sum(), 4920);
}
