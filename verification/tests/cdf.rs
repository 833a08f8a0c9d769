//! Tests of the distribution engine: construction, the four combinators, the
//! dominance order, and the fixed-point rounding modes.

use delta_q::{CDFError, Frac, CDF};

fn cdf(values: &[(u64, u64)], bin_num: u64, bin_den: u64) -> CDF {
    let data: Vec<Frac> = values.iter().map(|&(n, d)| Frac::new(n, d)).collect();
    CDF::new(data, Frac::new(bin_num, bin_den)).unwrap()
}

#[test]
fn test_new() {
    let data = vec![
        Frac::new(0, 1),
        Frac::new(25, 100),
        Frac::new(5, 10),
        Frac::new(75, 100),
        Frac::new(1, 1),
    ];
    let cdf = CDF::new(data, Frac::new(25, 100)).unwrap();
    assert_eq!(*cdf.data(), vec![0u16, 16383, 32767, 49151, 65535]);
    assert!(cdf.bin_size().same_value(&Frac::new(1, 4)));

    let data = vec![
        Frac::new(0, 1),
        Frac::new(25, 100),
        Frac::new(5, 10),
        Frac::new(75, 100),
        Frac::new(11, 10),
    ];
    let cdf = CDF::new(data, Frac::new(25, 100));
    assert_eq!(cdf, Err(CDFError::InvalidRange));
    assert_eq!(
        cdf.unwrap_err().message(),
        "Data vector must contain values between 0 and 1"
    );

    let data = vec![
        Frac::new(0, 1),
        Frac::new(25, 100),
        Frac::new(5, 10),
        Frac::new(75, 100),
        Frac::new(5, 10),
    ];
    let cdf = CDF::new(data, Frac::new(25, 100));
    assert_eq!(cdf, Err(CDFError::NotMonotone));
    assert_eq!(
        cdf.unwrap_err().message(),
        "Data vector must contain monotonically increasing values"
    );
}

#[test]
fn test_choice() {
    let left = cdf(&[(0, 1), (0, 1), (1, 2), (1, 1), (1, 1)], 1, 4);
    let right = cdf(&[(0, 1), (1, 1), (1, 1), (1, 1), (1, 1)], 1, 4);
    let added = left.choice(Frac::new(7, 10), &right).unwrap();
    assert_eq!(
        added,
        cdf(&[(0, 1), (3, 10), (65, 100), (1, 1), (1, 1)], 1, 4)
    );
    let added = left.choice(Frac::new(1, 1), &right).unwrap();
    assert_eq!(added, cdf(&[(0, 1), (0, 1), (1, 2), (1, 1), (1, 1)], 1, 4));
}

#[test]
fn test_convolve_step() {
    let left = cdf(&[(0, 1), (1, 1), (1, 1), (1, 1), (1, 1)], 1, 1);
    let right = cdf(&[(0, 1), (0, 1), (1, 1), (1, 1), (1, 1)], 1, 1);
    let convolved = left.convolve(&right).unwrap();
    assert_eq!(
        convolved,
        cdf(&[(0, 1), (0, 1), (0, 1), (1, 1), (1, 1)], 1, 1)
    );
}

#[test]
fn test_convolve_two() {
    let left = cdf(
        &[(0, 1), (3, 10), (3, 10), (1, 1), (1, 1), (1, 1), (1, 1)],
        1,
        1,
    );
    let right = cdf(
        &[(0, 1), (0, 1), (6, 10), (1, 1), (1, 1), (1, 1), (1, 1)],
        1,
        1,
    );
    let convolved = left.convolve(&right).unwrap();
    assert_eq!(
        convolved,
        cdf(
            &[
                (0, 1),
                (0, 1),
                (0, 1),
                (18, 100),
                (3, 10),
                (72, 100),
                (1, 1)
            ],
            1,
            1
        )
    );
}

#[test]
fn test_for_all() {
    let left = cdf(&[(0, 1), (1, 2), (3, 4), (1, 1)], 1, 4);
    let right = cdf(&[(0, 1), (1, 4), (1, 2), (1, 1)], 1, 4);
    let result = left.for_all(&right).unwrap();
    assert_eq!(result, cdf(&[(0, 1), (12501, 100000), (375, 1000), (1, 1)], 1, 4));
}

#[test]
fn test_for_some() {
    let left = cdf(&[(0, 1), (1, 2), (3, 4), (1, 1)], 1, 4);
    let right = cdf(&[(0, 1), (1, 4), (1, 2), (1, 1)], 1, 4);
    let result = left.for_some(&right).unwrap();
    assert_eq!(
        result,
        cdf(&[(0, 1), (62499, 100000), (875, 1000), (1, 1)], 1, 4)
    );
}

#[test]
fn partial_ord() {
    let left = cdf(&[(0, 1), (3, 10), (3, 10), (1, 1)], 1, 1);
    let right = cdf(&[(0, 1), (0, 1), (6, 10), (1, 1)], 1, 1);
    let top = cdf(&[(0, 1), (3, 10), (6, 10), (1, 1)], 1, 1);
    let bottom = cdf(&[(0, 1), (0, 1), (3, 10), (1, 1)], 1, 1);
    assert_ne!(left, right);
    assert!(!(left < right));
    assert!(!(right > left));
    assert!(!(left <= right));
    assert!(!(right >= left));
    assert!(left < top);
    assert!(top > left);
    assert!(left <= top);
    assert!(top >= left);
    assert!(right < top);
    assert!(top > right);
    assert!(right <= top);
    assert!(top >= right);
    assert!(left > bottom);
    assert!(bottom < left);
    assert!(left >= bottom);
    assert!(bottom <= left);
    assert!(right > bottom);
    assert!(bottom < right);
    assert!(right >= bottom);
    assert!(bottom <= right);
}

#[test]
fn construct_empty() {
    let empty = CDF::new(Vec::new(), Frac::new(1, 1)).unwrap();
    assert_eq!(*empty.data(), Vec::<u16>::new());
}

#[test]
fn construct_truncates() {
    // Construction quantizes by truncation: 0.5 * 65535 = 32767.5 -> 32767.
    let c = cdf(&[(1, 2)], 1, 1);
    assert_eq!(*c.data(), vec![32767u16]);
}

#[test]
fn mixture_fraction_rounds_differently() {
    // The mixture fraction quantizes against 65536: 0.5 -> 32768, one more
    // than the bin quantization of 0.5 above.
    let one = cdf(&[(1, 1)], 1, 1);
    let zero = cdf(&[(0, 1)], 1, 1);
    let mixed = one.choice(Frac::new(1, 2), &zero).unwrap();
    assert_eq!(*mixed.data(), vec![32768u16]);
}

#[test]
fn mixture_boundary_fractions() {
    let left = cdf(&[(0, 1), (1, 2), (1, 1)], 1, 4);
    let right = cdf(&[(1, 4), (1, 2), (3, 4)], 1, 4);
    assert_eq!(left.choice(Frac::new(1, 1), &right).unwrap(), left);
    assert_eq!(left.choice(Frac::new(0, 1), &right).unwrap(), right);
    assert_eq!(left.choice(Frac::new(5, 5), &right).unwrap(), left);
}

#[test]
fn mixture_errors() {
    let a = cdf(&[(0, 1), (1, 1)], 1, 4);
    let b = cdf(&[(0, 1), (1, 1)], 1, 2);
    assert_eq!(a.choice(Frac::new(1, 2), &b), Err(CDFError::Incompatible));
    let c = cdf(&[(0, 1)], 1, 4);
    assert_eq!(a.choice(Frac::new(1, 2), &c), Err(CDFError::Incompatible));
    let d = cdf(&[(0, 1), (1, 1)], 1, 4);
    assert_eq!(a.choice(Frac::new(3, 2), &d), Err(CDFError::InvalidRange));
    assert_eq!(
        a.choice(Frac::new(3, 2), &d).unwrap_err().message(),
        "Data vector must contain values between 0 and 1"
    );
}

#[test]
fn mixture_overflow_is_reported() {
    // Two complete single-bin distributions mixed evenly: both quantized
    // fractions are 32768, so the bin sum is 65536, one past the range.
    let one = cdf(&[(1, 1)], 1, 1);
    let other = cdf(&[(1, 1)], 1, 1);
    assert_eq!(one.choice(Frac::new(1, 2), &other), Err(CDFError::Overflow));
}

#[test]
fn compare_dominance_example() {
    let a = cdf(&[(0, 1), (0, 1), (1, 2), (1, 1), (1, 1)], 1, 4);
    let b = cdf(&[(0, 1), (3, 10), (65, 100), (1, 1), (1, 1)], 1, 4);
    assert_eq!(a.compare(&b), Some(std::cmp::Ordering::Less));
    assert!(a < b);
}

#[test]
fn compare_incomparable_and_equal() {
    let left = cdf(&[(0, 1), (3, 10), (3, 10), (1, 1)], 1, 1);
    let right = cdf(&[(0, 1), (0, 1), (6, 10), (1, 1)], 1, 1);
    assert_eq!(left.compare(&right), None);
    assert_eq!(left.compare(&left), Some(std::cmp::Ordering::Equal));
    // Different bin sizes are always incomparable, even with equal bins.
    let other_bins = cdf(&[(0, 1), (3, 10), (3, 10), (1, 1)], 1, 2);
    assert_eq!(left.compare(&other_bins), None);
}

#[test]
fn inclusion_exclusion_identity() {
    let left = cdf(&[(0, 1), (1, 2), (3, 4), (1, 1)], 1, 4);
    let right = cdf(&[(0, 1), (1, 4), (1, 2), (1, 1)], 1, 4);
    let both = left.for_all(&right).unwrap();
    let either = left.for_some(&right).unwrap();
    for i in 0..left.data().len() {
        let sum = both.data()[i] as u32 + either.data()[i] as u32;
        assert_eq!(sum, left.data()[i] as u32 + right.data()[i] as u32);
    }
}

#[test]
fn fixed_point_multiply() {
    // Bias-then-shift rounding: the fixed-point one and zero act as such.
    assert_eq!(delta_q::cdf::mul(12345, 65535), 12345);
    assert_eq!(delta_q::cdf::mul(12345, 0), 0);
    assert_eq!(delta_q::cdf::mul(32768, 32768), 16384);
    assert_eq!(delta_q::cdf::mul(65535, 32768), 32768);
}

#[test]
fn cdf_display_form() {
    let c = cdf(&[(0, 1), (1, 2), (1, 1)], 1, 4);
    assert_eq!(c.to_string(), "CDF { data: [0, 32767, 65535], bin_size: 1/4 }");
}
