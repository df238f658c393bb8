use resistor_calc::{RCalc, ROpBuilder, RSeries};

// The equality operators compare within the machine epsilon of 64-bit
// floats (an absolute threshold of 2^-52).

fn accepts(slot_tenths: u32, bound: &str) -> bool {
    let rc = RCalc::new(vec![RSeries::from_values(vec![slot_tenths])]);
    let score = ROpBuilder::new().bound(bound).unwrap().finish();
    rc.calc(&score).is_some()
}

#[test]
fn equality_within_epsilon_accepts() {
    // R1 is 0.5 exactly; the target differs by one unit in the last place
    // (about 1.1e-16), which is below the epsilon threshold.
    assert!(accepts(5, "R1 == 0.5"));
    assert!(accepts(5, "R1 == 0.5000000000000001"));
}

#[test]
fn equality_beyond_epsilon_rejects() {
    // A difference of 1e-10 is far above the threshold.
    assert!(!accepts(5, "R1 == 0.5000000001"));
    // A difference of exactly epsilon is not accepted either: the check
    // is strictly "less than epsilon".
    assert!(!accepts(5, "R1 == 0.5000000000000002"));
}

#[test]
fn inequality_mirrors_the_threshold() {
    // "!=" asks for a difference greater than epsilon.
    assert!(accepts(5, "R1 != 0.5000000001"));
    assert!(!accepts(5, "R1 != 0.5"));
    assert!(!accepts(5, "R1 != 0.5000000000000001"));
}

#[test]
fn quantization_is_idempotent() {
    // Re-quantizing an already-quantized error value changes nothing.
    for e in [0.0f64, 1.5e-9, 0.8, 10.0, 0.123456789, 1e-20, 123456.789] {
        let q = (e * 1e9).round();
        assert_eq!(q.round(), q);
        assert_eq!(q.round().round(), q);
    }
}

#[test]
fn quantized_errors_are_exact_parts_per_billion() {
    // |0 - 2.2| quantizes to exactly 2.2e9 parts per billion.
    let rc = RCalc::new(vec![RSeries::from_values(vec![22])]);
    let score = ROpBuilder::new().bound("R1 ~ 0").unwrap().finish();
    let res = rc.calc(&score).unwrap();
    assert_eq!(res.iter()[0].0, 2_200_000_000);
}

#[test]
fn expressions_use_evaluator_functions() {
    // The expression side goes through the arithmetic evaluator: built-in
    // functions are available.
    let rc = RCalc::new(vec![RSeries::from_values(vec![90])]);
    let score = ROpBuilder::new().bound("sqrt(R1) ~ 3").unwrap().finish();
    let res = rc.calc(&score).unwrap();
    assert_eq!(res.iter()[0].0, 0);
}
