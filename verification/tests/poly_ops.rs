use groth16_rs::poly::Poly;
use groth16_rs::utils::{fr_from_i64, witness_to_scalar};

fn to_scalar(values: Vec<i64>) -> Vec<groth16_rs::field::Fr> {
    witness_to_scalar(&values)
}

#[test]
fn poly_add() {
    let a = Poly::new_from_i64(vec![1, 2, 3]);
    let b = Poly::new_from_i64(vec![2, 3]);
    assert_eq!(Poly::add(a, b), Poly::new_from_i64(vec![3, 5, 3]));
}

#[test]
fn poly_sub() {
    let a = Poly::new_from_i64(vec![1, 2, 3]);
    let b = Poly::new_from_i64(vec![2, 3]);
    assert_eq!(Poly::sub(a, b), Poly::new_from_i64(vec![-1, -1, 3]));
}

#[test]
fn poly_mul() {
    let a = Poly::new_from_i64(vec![1, 2, 3]);
    let b = Poly::new_from_i64(vec![2, 3]);
    assert_eq!(Poly::mul(a, b), Poly::new_from_i64(vec![2, 7, 12, 9]));
}

#[test]
fn poly_interpolate() {
    let domain = to_scalar(vec![1, 2, 3, 4]);
    let evaluations = to_scalar(vec![1, 2, 3, 4]);

    let poly = Poly::interpolate(domain, evaluations);
    assert_eq!(poly, Poly::new_from_i64(vec![0, 1]));

    let domain = to_scalar(vec![1, 2, 3, 4]);
    let evaluations = to_scalar(vec![3, 7, 13, 21]);

    let poly = Poly::interpolate(domain, evaluations);
    assert_eq!(poly, Poly::new_from_i64(vec![1, 1, 1]));
}

#[test]
fn poly_add_associative() {
    let a = Poly::new_from_i64(vec![1, 2, 3]);
    let b = Poly::new_from_i64(vec![4, 0, 5]);
    let c = Poly::new_from_i64(vec![-1, 7]);
    let left = Poly::add(Poly::add(a.clone(), b.clone()), c.clone());
    let right = Poly::add(a, Poly::add(b, c));
    assert_eq!(left, right);
}

#[test]
fn poly_mul_commutative() {
    let a = Poly::new_from_i64(vec![1, 2, 3]);
    let b = Poly::new_from_i64(vec![-4, 5]);
    assert_eq!(
        Poly::mul(a.clone(), b.clone()),
        Poly::mul(b, a),
    );
}

#[test]
fn poly_mul_associative() {
    let a = Poly::new_from_i64(vec![1, 2]);
    let b = Poly::new_from_i64(vec![3, -1, 4]);
    let c = Poly::new_from_i64(vec![0, 5]);
    let left = Poly::mul(Poly::mul(a.clone(), b.clone()), c.clone());
    let right = Poly::mul(a, Poly::mul(b, c));
    assert_eq!(left, right);
}

#[test]
fn poly_mul_distributive() {
    let a = Poly::new_from_i64(vec![2, 1]);
    let b = Poly::new_from_i64(vec![1, 3]);
    let c = Poly::new_from_i64(vec![-1, 0, 2]);
    let left = Poly::mul(a.clone(), Poly::add(b.clone(), c.clone()));
    let right = Poly::add(Poly::mul(a.clone(), b), Poly::mul(a, c));
    assert_eq!(left, right);
}

#[test]
fn poly_eval_is_additive_and_multiplicative() {
    let a = Poly::new_from_i64(vec![1, 2, 3]);
    let b = Poly::new_from_i64(vec![5, -1]);
    let x = fr_from_i64(7);
    let sum = Poly::add(a.clone(), b.clone());
    let prod = Poly::mul(a.clone(), b.clone());
    // 1 + 2*7 + 3*49 = 162, 5 - 7 = -2; 162 + (-2) = 160; 162 * (-2) = -324
    assert_eq!(a.eval(x), fr_from_i64(162));
    assert_eq!(b.eval(x), fr_from_i64(-2));
    assert_eq!(sum.eval(x), fr_from_i64(160));
    assert_eq!(prod.eval(x), fr_from_i64(-324));
}

#[test]
fn poly_degree_and_canonical_form() {
    let zero = Poly::new_from_i64(vec![]);
    assert_eq!(zero.degree(), -1);
    let padded = Poly::new_from_i64(vec![0]);
    assert_eq!(padded.degree(), -1);
    assert_eq!(zero, padded);
    // trailing zeros are stripped by every constructor
    let a = Poly::new_from_i64(vec![1, 2, 0, 0]);
    let b = Poly::new_from_i64(vec![1, 2]);
    assert_eq!(a.degree(), 1);
    assert_eq!(a, b);
}

#[test]
fn poly_add_zero_returns_other_operand() {
    let a = Poly::new_from_i64(vec![4, 0, 9]);
    let zero = Poly::new_from_i64(vec![]);
    assert_eq!(Poly::add(a.clone(), zero.clone()), a);
    assert_eq!(Poly::add(zero, a.clone()), a);
}

#[test]
fn poly_div_recovers_quotient() {
    let b = Poly::new_from_i64(vec![1, 1]);
    let q = Poly::new_from_i64(vec![-2, 0, 1]);
    let a = Poly::mul(b.clone(), q.clone());
    assert_eq!(Poly::div(a, b).unwrap(), q);
}

#[test]
fn poly_div_fails_on_remainder() {
    // x^2 + 1 is not divisible by x + 1
    let a = Poly::new_from_i64(vec![1, 0, 1]);
    let b = Poly::new_from_i64(vec![1, 1]);
    assert!(Poly::div(a, b).is_err());
}

#[test]
fn poly_div_fails_on_zero_divisor() {
    let a = Poly::new_from_i64(vec![1, 2]);
    let zero = Poly::new_from_i64(vec![]);
    assert!(Poly::div(a, zero).is_err());
}

#[test]
fn poly_interpolate_round_trip() {
    let domain = to_scalar(vec![2, 5, 11, 17, 23]);
    let values = vec![9, -4, 0, 100, 35];
    let evaluations = to_scalar(values.clone());
    let poly = Poly::interpolate(domain.clone(), evaluations);
    assert!(poly.degree() < 5);
    for (d, v) in domain.iter().zip(values.iter()) {
        assert_eq!(poly.eval(*d), fr_from_i64(*v));
    }
}

#[test]
fn negative_coercion_wraps_in_the_field() {
    // -(9) and 0 - 9 coerce to the same field element
    let a = Poly::new_from_i64(vec![-9]);
    let b = Poly::sub(Poly::new_from_i64(vec![]), Poly::new_from_i64(vec![9]));
    assert_eq!(a, b);
    let x = fr_from_i64(3);
    assert_eq!(a.eval(x), fr_from_i64(-9));
}

#[test]
fn min_i64_coerces_without_overflow() {
    let a = Poly::new_from_i64(vec![i64::MIN]);
    let b = Poly::add(
        Poly::new_from_i64(vec![i64::MIN + 1]),
        Poly::new_from_i64(vec![-1]),
    );
    assert_eq!(a, b);
    assert_eq!(a.degree(), 0);
}
