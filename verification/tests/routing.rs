use rustflow::muskingum::{
    derive_coefficients, muskingum_routing, route_single, Advisory, ParameterFault, RoutingError,
    WeightPolicy,
};
use rustflow::rational::Rat;

fn rat(num: i64, den: i64) -> Rat {
    Rat::new(num, den).unwrap()
}

fn rats(values: &[i64]) -> Vec<Rat> {
    values.iter().map(|&v| Rat::from_int(v)).collect()
}

/// `r` denotes `num/den`, by cross multiplication.
fn assert_value(r: &Rat, num: i128, den: i128) {
    assert_eq!(r.numerator() * den, num * r.denominator());
}

#[test]
fn coefficients_of_the_reference_reach() {
    // k = 3600 s, x = 1/4, dt = 900 s: den = 2*3600*(3/4) + 900 = 6300,
    // c0 = (900 - 1800)/6300 = -1/7, c1 = 2700/6300 = 3/7,
    // c2 = (5400 - 900)/6300 = 5/7.
    let (c0, c1, c2) = derive_coefficients(3600, &rat(1, 4), 900).unwrap();
    assert_value(&c0, -1, 7);
    assert_value(&c1, 3, 7);
    assert_value(&c2, 5, 7);
}

#[test]
fn coefficients_sum_to_one() {
    let (c0, c1, c2) = derive_coefficients(3600, &rat(1, 4), 900).unwrap();
    let sum = c0.checked_add(&c1.checked_add(&c2).unwrap()).unwrap();
    assert_value(&sum, 1, 1);
    // another valid parameter set, x at the edge of the range
    let (d0, d1, d2) = derive_coefficients(50, &rat(1, 2), 7).unwrap();
    let sum2 = d0.checked_add(&d1.checked_add(&d2).unwrap()).unwrap();
    assert_value(&sum2, 1, 1);
}

#[test]
fn concrete_scenario_reference_hydrograph() {
    // inflow [1, 2, 3, 5, 4, 2, 1], k = 3600 s, x = 1/4, dt = 900 s, one reach,
    // coefficients (-1/7, 3/7, 5/7):
    // out[0] = 1
    // out[1] = -2/7 + 3/7 + 5/7         = 6/7
    // out[2] = -3/7 + 6/7 + 5/7 * 6/7   = 51/49
    // out[3] = -5/7 + 9/7 + 5/7 * 51/49 = 451/343
    // out[6] = 354785/117649
    let inflow = rats(&[1, 2, 3, 5, 4, 2, 1]);
    let out = muskingum_routing(&inflow, 3600, rat(1, 4), 900, 1, None, WeightPolicy::WarnAndProceed)
        .unwrap();
    assert_eq!(out.outflow.len(), 7);
    assert!(out.advisory.is_none());
    assert_value(&out.outflow[0], 1, 1);
    assert_value(&out.outflow[1], 6, 7);
    assert_value(&out.outflow[2], 51, 49);
    assert_value(&out.outflow[3], 451, 343);
    assert_value(&out.outflow[6], 354785, 117649);
}

#[test]
fn length_is_preserved_across_sub_reaches() {
    let inflow = rats(&[1, 4, 2, 8, 5]);
    for sub_reaches in 1..=4u64 {
        let out = muskingum_routing(
            &inflow,
            40,
            rat(1, 5),
            10,
            sub_reaches,
            None,
            WeightPolicy::WarnAndProceed,
        )
        .unwrap();
        assert_eq!(out.outflow.len(), inflow.len());
    }
}

#[test]
fn first_sample_defaults_to_first_inflow() {
    let inflow = rats(&[7, 2, 5]);
    let out = muskingum_routing(&inflow, 30, rat(1, 4), 10, 2, None, WeightPolicy::WarnAndProceed)
        .unwrap();
    assert_value(&out.outflow[0], 7, 1);
}

#[test]
fn first_sample_honours_explicit_seed() {
    let inflow = rats(&[7, 2, 5]);
    let seed = rat(3, 2);
    let out = muskingum_routing(
        &inflow,
        30,
        rat(1, 4),
        10,
        2,
        Some(seed),
        WeightPolicy::WarnAndProceed,
    )
    .unwrap();
    assert_value(&out.outflow[0], 3, 2);
}

#[test]
fn single_reach_cascade_equals_single_stage() {
    let inflow = rats(&[1, 2, 3, 5, 4, 2, 1]);
    let seed = Some(rat(5, 4));
    let cascade = muskingum_routing(
        &inflow,
        3600,
        rat(1, 4),
        900,
        1,
        seed,
        WeightPolicy::WarnAndProceed,
    )
    .unwrap();
    let (c0, c1, c2) = derive_coefficients(3600, &rat(1, 4), 900).unwrap();
    let single = route_single(&inflow, &c0, &c1, &c2, seed).unwrap();
    assert_eq!(cascade.outflow.len(), single.len());
    for (a, b) in cascade.outflow.iter().zip(single.iter()) {
        assert_eq!(a.numerator(), b.numerator());
        assert_eq!(a.denominator(), b.denominator());
    }
}

#[test]
fn two_sub_reaches_cascade_by_hand() {
    // k = 3600 s, x = 0, dt = 900 s, two stages: each stage has k' = 1800,
    // den = 2*3600*1 + 900*2 = 9000, c0 = c1 = 1/5, c2 = 3/5.
    // stage 1 on [5, 10]: [5, 10/5 + 5/5 + 15/5] = [5, 6]
    // stage 2 on [5, 6]:  [5, 6/5 + 5/5 + 15/5]  = [5, 26/5]
    let inflow = rats(&[5, 10]);
    let out = muskingum_routing(&inflow, 3600, rat(0, 1), 900, 2, None, WeightPolicy::WarnAndProceed)
        .unwrap();
    assert_eq!(out.outflow.len(), 2);
    assert_value(&out.outflow[0], 5, 1);
    assert_value(&out.outflow[1], 26, 5);
}

#[test]
fn steady_state_is_invariant() {
    let inflow = rats(&[3, 3, 3, 3, 3, 3]);
    for sub_reaches in 1..=3u64 {
        let out = muskingum_routing(
            &inflow,
            10,
            rat(1, 4),
            5,
            sub_reaches,
            None,
            WeightPolicy::WarnAndProceed,
        )
        .unwrap();
        for sample in out.outflow.iter() {
            assert_value(sample, 3, 1);
        }
    }
}

#[test]
fn validation_rejects_zero_storage_constant() {
    let inflow = rats(&[1, 2]);
    match muskingum_routing(&inflow, 0, rat(1, 4), 10, 1, None, WeightPolicy::WarnAndProceed) {
        Err(e) => assert_eq!(
            e,
            RoutingError::InvalidParameter(ParameterFault::NonPositiveStorageConstant)
        ),
        Ok(_) => panic!("a zero storage constant must be rejected"),
    }
}

#[test]
fn validation_rejects_zero_time_step() {
    let inflow = rats(&[1, 2]);
    match muskingum_routing(&inflow, 10, rat(1, 4), 0, 1, None, WeightPolicy::WarnAndProceed) {
        Err(e) => assert_eq!(e, RoutingError::InvalidParameter(ParameterFault::NonPositiveTimeStep)),
        Ok(_) => panic!("a zero time step must be rejected"),
    }
}

#[test]
fn validation_rejects_zero_sub_reaches() {
    let inflow = rats(&[1, 2]);
    match muskingum_routing(&inflow, 10, rat(1, 4), 5, 0, None, WeightPolicy::WarnAndProceed) {
        Err(e) => assert_eq!(e, RoutingError::InvalidParameter(ParameterFault::NoSubReaches)),
        Ok(_) => panic!("a zero sub-reach count must be rejected"),
    }
}

#[test]
fn validation_rejects_empty_inflow() {
    let inflow: Vec<Rat> = Vec::new();
    match muskingum_routing(&inflow, 10, rat(1, 4), 5, 1, None, WeightPolicy::WarnAndProceed) {
        Err(e) => assert_eq!(e, RoutingError::InvalidParameter(ParameterFault::EmptyInflow)),
        Ok(_) => panic!("an empty inflow must be rejected"),
    }
}

#[test]
fn route_single_rejects_empty_inflow() {
    let (c0, c1, c2) = derive_coefficients(10, &rat(1, 4), 5).unwrap();
    let inflow: Vec<Rat> = Vec::new();
    match route_single(&inflow, &c0, &c1, &c2, None) {
        Err(e) => assert_eq!(e, RoutingError::InvalidParameter(ParameterFault::EmptyInflow)),
        Ok(_) => panic!("an empty inflow must be rejected"),
    }
}

#[test]
fn out_of_range_weight_is_advisory_not_fatal() {
    let inflow = rats(&[1, 2, 3]);
    let out = muskingum_routing(&inflow, 30, rat(7, 10), 10, 1, None, WeightPolicy::WarnAndProceed)
        .unwrap();
    assert_eq!(out.outflow.len(), 3);
    assert_eq!(out.advisory, Some(Advisory::WeightOutsideRecommendedRange));
}

#[test]
fn out_of_range_weight_is_fatal_under_strict_policy() {
    let inflow = rats(&[1, 2, 3]);
    match muskingum_routing(&inflow, 30, rat(7, 10), 10, 1, None, WeightPolicy::Strict) {
        Err(e) => assert_eq!(
            e,
            RoutingError::InvalidParameter(ParameterFault::WeightOutsideRecommendedRange)
        ),
        Ok(_) => panic!("strict policy must reject an out-of-range weight"),
    }
}

#[test]
fn negative_weight_is_out_of_range_too() {
    let inflow = rats(&[1, 2, 3]);
    let out = muskingum_routing(
        &inflow,
        30,
        rat(-1, 10),
        10,
        1,
        None,
        WeightPolicy::WarnAndProceed,
    )
    .unwrap();
    assert_eq!(out.advisory, Some(Advisory::WeightOutsideRecommendedRange));
}

#[test]
fn zero_coefficient_denominator_is_degenerate() {
    // x = 2/1 gives den = 2*k*(1 - 2) + dt = dt - 2*k, zero for k = 5, dt = 10.
    let inflow = rats(&[1, 2, 3]);
    match muskingum_routing(&inflow, 5, rat(2, 1), 10, 1, None, WeightPolicy::WarnAndProceed) {
        Err(e) => assert_eq!(e, RoutingError::NumericDegenerate),
        Ok(_) => panic!("a zero coefficient denominator must be rejected"),
    }
}

#[test]
fn unrepresentable_coefficients_report_overflow() {
    let inflow = rats(&[1, 2, 3]);
    match muskingum_routing(
        &inflow,
        u64::MAX,
        rat(1, i64::MAX),
        u64::MAX,
        u64::MAX,
        None,
        WeightPolicy::WarnAndProceed,
    ) {
        Err(e) => assert_eq!(e, RoutingError::ArithmeticOverflow),
        Ok(_) => panic!("an unrepresentable derivation must be rejected"),
    }
}

#[test]
fn unrepresentable_routing_reports_overflow() {
    // a long non-constant series drives the exact denominators past i128
    let mut values: Vec<i64> = Vec::new();
    for i in 0..60 {
        values.push(1 + (i % 2));
    }
    let inflow = rats(&values);
    match muskingum_routing(&inflow, 3600, rat(1, 4), 900, 1, None, WeightPolicy::WarnAndProceed) {
        Err(e) => assert_eq!(e, RoutingError::ArithmeticOverflow),
        Ok(_) => panic!("an unrepresentable recurrence must be rejected"),
    }
}

#[test]
fn error_messages_name_the_fault() {
    assert_eq!(
        RoutingError::InvalidParameter(ParameterFault::EmptyInflow).message(),
        "`inflow` must hold at least one sample"
    );
    assert_eq!(
        RoutingError::NumericDegenerate.message(),
        "coefficient denominator `2*k*(1 - x) + dt` is zero"
    );
    assert!(!RoutingError::ArithmeticOverflow.message().is_empty());
}
