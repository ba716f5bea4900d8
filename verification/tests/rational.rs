use rustflow::rational::Rat;

fn rat(num: i64, den: i64) -> Rat {
    Rat::new(num, den).unwrap()
}

/// `r` denotes `num/den`, by cross multiplication.
fn assert_value(r: &Rat, num: i128, den: i128) {
    assert_eq!(r.numerator() * den, num * r.denominator());
}

#[test]
fn new_rejects_zero_denominator() {
    assert!(Rat::new(1, 0).is_none());
    assert!(Rat::new(0, 0).is_none());
    assert!(Rat::new(3, 7).is_some());
}

#[test]
fn new_normalises_sign_onto_numerator() {
    let r = rat(1, -2);
    assert_eq!(r.numerator(), -1);
    assert_eq!(r.denominator(), 2);
    let s = rat(-3, -4);
    assert_eq!(s.numerator(), 3);
    assert_eq!(s.denominator(), 4);
}

#[test]
fn from_int_has_denominator_one() {
    let r = Rat::from_int(-9);
    assert_eq!(r.numerator(), -9);
    assert_eq!(r.denominator(), 1);
}

#[test]
fn checked_add_is_exact() {
    let a = rat(1, 2);
    let b = rat(1, 3);
    let s = a.checked_add(&b).unwrap();
    assert_eq!(s.numerator(), 5);
    assert_eq!(s.denominator(), 6);
}

#[test]
fn checked_mul_is_exact() {
    let a = rat(2, 3);
    let b = rat(3, 4);
    let p = a.checked_mul(&b).unwrap();
    assert_eq!(p.numerator(), 6);
    assert_eq!(p.denominator(), 12);
    assert_value(&p, 1, 2);
}

#[test]
fn checked_mul_reports_overflow() {
    let big = rat(i64::MAX, 1);
    let sq = big.checked_mul(&big).unwrap();
    assert!(sq.checked_mul(&big).is_none());
}

#[test]
fn reduced_divides_out_the_common_factor() {
    let r = rat(-6, 12).reduced();
    assert_eq!(r.numerator(), -1);
    assert_eq!(r.denominator(), 2);
    let s = rat(5, 7).reduced();
    assert_eq!(s.numerator(), 5);
    assert_eq!(s.denominator(), 7);
    let z = rat(0, 9).reduced();
    assert_eq!(z.numerator(), 0);
    assert_eq!(z.denominator(), 1);
}

#[test]
fn same_value_compares_across_representations() {
    let a = rat(2, 4);
    let b = rat(1, 2);
    let c = rat(1, 3);
    assert!(a.same_value(&b));
    assert!(!a.same_value(&c));
}
