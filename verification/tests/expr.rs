//! Tests of the expression model: display notation and evaluation.

use delta_q::{CDFError, DeltaQ, Frac, Weight, CDF};

fn cdf(values: &[(u64, u64)], bin_num: u64, bin_den: u64) -> CDF {
    let data: Vec<Frac> = values.iter().map(|&(n, d)| Frac::new(n, d)).collect();
    CDF::new(data, Frac::new(bin_num, bin_den)).unwrap()
}

#[test]
fn test_display_name() {
    let dq = DeltaQ::name("A");
    assert_eq!(dq.to_string(), "A");
}

#[test]
fn test_display_cdf() {
    let cdf = cdf(&[(0, 1), (2, 10), (9, 10)], 1, 1);
    let dq = DeltaQ::cdf(cdf.clone());
    assert_eq!(dq.to_string(), cdf.to_string());
}

#[test]
fn test_display_seq() {
    let dq1 = DeltaQ::name("A");
    let dq2 = DeltaQ::name("B");
    let seq = DeltaQ::seq(dq1, dq2);
    assert_eq!(seq.to_string(), "A \u{2022}->-\u{2022} B");
}

#[test]
fn test_display_choice() {
    let dq1 = DeltaQ::name("A");
    let dq2 = DeltaQ::name("B");
    let choice = DeltaQ::choice(dq1, Weight::new(3, 1), dq2, Weight::new(7, 1));
    assert_eq!(choice.to_string(), "A 0.3\u{21cc}0.7 B");
}

#[test]
fn test_display_for_all() {
    let dq1 = DeltaQ::name("A");
    let dq2 = DeltaQ::name("B");
    let for_all = DeltaQ::for_all(dq1, dq2);
    assert_eq!(for_all.to_string(), "\u{2200}(A | B)");
}

#[test]
fn test_display_for_some() {
    let dq1 = DeltaQ::name("A");
    let dq2 = DeltaQ::name("B");
    let for_some = DeltaQ::for_some(dq1, dq2);
    assert_eq!(for_some.to_string(), "\u{2203}(A | B)");
}

#[test]
fn test_display_nested_seq() {
    let dq1 = DeltaQ::name("A");
    let dq2 = DeltaQ::name("B");
    let dq3 = DeltaQ::name("C");
    let nested_seq = DeltaQ::seq(DeltaQ::seq(dq1, dq2), dq3);
    assert_eq!(
        nested_seq.to_string(),
        "(A \u{2022}->-\u{2022} B) \u{2022}->-\u{2022} C"
    );
}

#[test]
fn test_display_nested_choice() {
    let dq1 = DeltaQ::name("A");
    let dq2 = DeltaQ::name("B");
    let dq3 = DeltaQ::name("C");
    let nested_choice = DeltaQ::choice(
        DeltaQ::choice(dq1, Weight::new(3, 1), dq2, Weight::new(7, 1)),
        Weight::new(5, 1),
        dq3,
        Weight::new(5, 1),
    );
    assert_eq!(
        nested_choice.to_string(),
        "(A 0.3\u{21cc}0.7 B) 0.5\u{21cc}0.5 C"
    );
}

#[test]
fn test_display_nested_for_all() {
    let dq1 = DeltaQ::name("A");
    let dq2 = DeltaQ::name("B");
    let dq3 = DeltaQ::name("C");
    let dq4 = DeltaQ::name("D");
    let nested_for_all = DeltaQ::for_all(DeltaQ::for_all(dq1, dq2), DeltaQ::seq(dq3, dq4));
    assert_eq!(
        nested_for_all.to_string(),
        "\u{2200}(\u{2200}(A | B) | C \u{2022}->-\u{2022} D)"
    );
}

#[test]
fn test_display_nested_for_some() {
    let dq1 = DeltaQ::name("A");
    let dq2 = DeltaQ::name("B");
    let dq3 = DeltaQ::name("C");
    let dq4 = DeltaQ::name("D");
    let nested_for_some = DeltaQ::for_some(
        DeltaQ::for_some(dq1, dq2),
        DeltaQ::choice(dq3, Weight::new(1, 0), dq4, Weight::new(2, 0)),
    );
    assert_eq!(
        nested_for_some.to_string(),
        "\u{2203}(\u{2203}(A | B) | C 1\u{21cc}2 D)"
    );
}

#[test]
fn display_black_box() {
    assert_eq!(DeltaQ::BlackBox.to_string(), "\u{25a0}");
}

#[test]
fn display_weight_trims_zeros() {
    let dq = DeltaQ::choice(
        DeltaQ::name("A"),
        Weight::new(2500, 3),
        DeltaQ::name("B"),
        Weight::new(0, 5),
    );
    assert_eq!(dq.to_string(), "A 2.5\u{21cc}0 B");
}

#[test]
fn eval_literal() {
    let c = cdf(&[(0, 1), (1, 2), (1, 1)], 1, 1);
    let dq = DeltaQ::cdf(c.clone());
    assert_eq!(dq.eval().unwrap(), c);
}

#[test]
fn eval_name_fails() {
    let dq = DeltaQ::name("undefined");
    assert_eq!(dq.eval(), Err(CDFError::UnresolvedName));
    assert_eq!(dq.eval().unwrap_err().message(), "Cannot evaluate a name");
}

#[test]
fn eval_black_box_fails() {
    assert_eq!(DeltaQ::BlackBox.eval(), Err(CDFError::UnresolvedName));
}

#[test]
fn eval_unresolved_anywhere_fails() {
    let lit = || DeltaQ::cdf(cdf(&[(0, 1), (1, 1)], 1, 1));
    let deep_name = DeltaQ::for_all(
        DeltaQ::seq(lit(), DeltaQ::for_some(lit(), DeltaQ::name("x"))),
        lit(),
    );
    assert_eq!(deep_name.eval(), Err(CDFError::UnresolvedName));
    let deep_hole = DeltaQ::choice(
        lit(),
        Weight::new(1, 0),
        DeltaQ::seq(DeltaQ::BlackBox, lit()),
        Weight::new(1, 0),
    );
    assert_eq!(deep_hole.eval(), Err(CDFError::UnresolvedName));
}

#[test]
fn eval_seq_convolves() {
    let left = cdf(&[(0, 1), (1, 1), (1, 1), (1, 1), (1, 1)], 1, 1);
    let right = cdf(&[(0, 1), (0, 1), (1, 1), (1, 1), (1, 1)], 1, 1);
    let expected = left.convolve(&right).unwrap();
    let dq = DeltaQ::seq(DeltaQ::cdf(left), DeltaQ::cdf(right));
    assert_eq!(dq.eval().unwrap(), expected);
}

#[test]
fn eval_choice_normalizes_weights() {
    // Weights 1 and 2 give the fraction 1/3; quantized multipliers are
    // 21845 and 43690.
    let a = cdf(&[(0, 1), (1, 1)], 1, 1);
    let b = cdf(&[(1, 1), (1, 1)], 1, 1);
    let dq = DeltaQ::choice(
        DeltaQ::cdf(a),
        Weight::new(1, 0),
        DeltaQ::cdf(b),
        Weight::new(2, 0),
    );
    let out = dq.eval().unwrap();
    assert_eq!(*out.data(), vec![43690u16, 65535]);
}

#[test]
fn eval_choice_mixed_scales() {
    // Weights 0.25 and 0.75 (different decimal scales than each other's
    // notation) give the fraction 1/4.
    let a = cdf(&[(1, 1)], 1, 1);
    let b = cdf(&[(0, 1)], 1, 1);
    let dq = DeltaQ::choice(
        DeltaQ::cdf(a),
        Weight::new(25, 2),
        DeltaQ::cdf(b),
        Weight::new(750, 3),
    );
    let out = dq.eval().unwrap();
    assert_eq!(*out.data(), vec![16384u16]);
}

#[test]
fn eval_choice_zero_weights_fails() {
    let lit = || DeltaQ::cdf(cdf(&[(0, 1), (1, 1)], 1, 1));
    let dq = DeltaQ::choice(lit(), Weight::new(0, 0), lit(), Weight::new(0, 3));
    assert_eq!(dq.eval(), Err(CDFError::ZeroWeightSum));
    assert_eq!(
        dq.eval().unwrap_err().message(),
        "Choice weights must not sum to zero"
    );
}

#[test]
fn eval_incompatible_operands_fail() {
    let a = DeltaQ::cdf(cdf(&[(0, 1), (1, 1)], 1, 1));
    let b = DeltaQ::cdf(cdf(&[(0, 1), (1, 1)], 1, 2));
    assert_eq!(
        DeltaQ::for_all(a, b).eval(),
        Err(CDFError::Incompatible)
    );
}

#[test]
fn eval_first_error_wins() {
    // Depth-first, left to right: the incompatibility in the left subtree is
    // reported before the unresolved name further right is reached.
    let a = DeltaQ::cdf(cdf(&[(0, 1), (1, 1)], 1, 1));
    let b = DeltaQ::cdf(cdf(&[(0, 1), (1, 1)], 1, 2));
    let dq = DeltaQ::seq(DeltaQ::seq(a, b), DeltaQ::name("later"));
    assert_eq!(dq.eval(), Err(CDFError::Incompatible));
}

#[test]
fn eval_for_all_for_some() {
    let left = cdf(&[(0, 1), (1, 2), (3, 4), (1, 1)], 1, 4);
    let right = cdf(&[(0, 1), (1, 4), (1, 2), (1, 1)], 1, 4);
    let both = DeltaQ::for_all(DeltaQ::cdf(left.clone()), DeltaQ::cdf(right.clone()));
    assert_eq!(both.eval().unwrap(), left.for_all(&right).unwrap());
    let either = DeltaQ::for_some(DeltaQ::cdf(left.clone()), DeltaQ::cdf(right.clone()));
    assert_eq!(either.eval().unwrap(), left.for_some(&right).unwrap());
}

#[test]
fn eval_choice_overflow_fails() {
    let one = || DeltaQ::cdf(cdf(&[(1, 1)], 1, 1));
    let dq = DeltaQ::choice(one(), Weight::new(1, 0), one(), Weight::new(1, 0));
    assert_eq!(dq.eval(), Err(CDFError::Overflow));
}
