use pdf_maker::{Distribution1D, DistributionError, Inversion1D};

const UNIT: f64 = 4294967296.0;

/// A small deterministic generator of uniform `u32` samples (xorshift64*).
struct Uniform(u64);

impl Uniform {
    fn next(&mut self) -> u32 {
        self.0 ^= self.0 >> 12;
        self.0 ^= self.0 << 25;
        self.0 ^= self.0 >> 27;
        (self.0.wrapping_mul(0x2545_F491_4F6C_DD1D) >> 32) as u32
    }
}

/// Draws `draws` samples and checks that the histogram of selected buckets matches the
/// normalized weights within sampling noise, and that each draw is self-consistent.
fn check_histogram(weights: &[u64], draws: usize) {
    let d = Inversion1D::build(weights).unwrap();
    let n = d.size();
    assert_eq!(n, weights.len());
    let total: u64 = weights.iter().sum();
    assert_eq!(d.integral(), total);
    let mut counts = vec![0usize; n];
    let mut rng = Uniform(0x9E37_79B9_7F4A_7C15);
    for _ in 0..draws {
        let u = rng.next();
        let (density, index) = d.sample_discrete(u);
        assert!(index < n);
        assert_eq!(d.pdf(index), density);
        counts[index] += 1;
    }
    for i in 0..n {
        let p = weights[i] as f64 / total as f64;
        let observed = counts[i] as f64 / draws as f64;
        let sigma = (p * (1.0 - p) / draws as f64).sqrt();
        assert!(
            (observed - p).abs() <= 6.0 * sigma + 1e-9,
            "bucket {}: observed {} expected {}",
            i,
            observed,
            p
        );
    }
}

#[test]
fn basic1d() {
    check_histogram(&[1, 1, 2, 4, 8], 1000);
}

#[test]
fn uniform1d() {
    check_histogram(&[1; 10_000], 1_000_000);
}

#[test]
fn increasing1d() {
    let mut distr = [0u64; 100];
    for (i, weight) in distr.iter_mut().enumerate() {
        *weight = 5 * (i as u64 + 1);
    }
    check_histogram(&distr, 100_000);
}

#[test]
fn integral_is_sum_of_weights() {
    let d = Inversion1D::build(&[3, 0, 7, 5]).unwrap();
    assert_eq!(d.integral(), 15);
    assert_eq!(d.size(), 4);
}

#[test]
fn pdf_is_weight() {
    let weights = [1u64, 1, 2, 4, 8];
    let d = Inversion1D::build(&weights).unwrap();
    for (i, w) in weights.iter().enumerate() {
        assert_eq!(d.pdf(i), *w);
    }
}

#[test]
fn build_errors() {
    assert_eq!(Inversion1D::build(&[]).err(), Some(DistributionError::Empty));
    assert_eq!(Inversion1D::build(&[0, 0, 0]).err(), Some(DistributionError::ZeroTotal));
    assert_eq!(Inversion1D::build(&[u64::MAX, 1]).err(), Some(DistributionError::Overflow));
    assert!(Inversion1D::build(&[u64::MAX]).is_ok());
}

#[test]
fn discrete_inversion_values() {
    // Normalized table: 0, 1/16, 2/16, 4/16, 8/16, 1.
    let d = Inversion1D::build(&[1, 1, 2, 4, 8]).unwrap();
    assert_eq!(d.sample_discrete(0), (1, 0));
    assert_eq!(d.sample_discrete(1 << 28), (1, 1));
    assert_eq!(d.sample_discrete((1 << 28) - 1), (1, 0));
    assert_eq!(d.sample_discrete(1 << 30), (4, 3));
    assert_eq!(d.sample_discrete(1 << 31), (8, 4));
    assert_eq!(d.sample_discrete(u32::MAX), (8, 4));
}

#[test]
fn zero_weight_buckets_are_never_selected() {
    let d = Inversion1D::build(&[0, 3, 0, 0, 1, 0]).unwrap();
    assert_eq!(d.sample_discrete(0).1, 1);
    assert_eq!(d.sample_discrete(3 << 30).1, 4);
    assert_eq!(d.sample_discrete(u32::MAX).1, 4);
    let mut rng = Uniform(7);
    for _ in 0..1000 {
        let (density, index) = d.sample_discrete(rng.next());
        assert!(density > 0);
        assert!(index == 1 || index == 4);
    }
}

#[test]
fn sampling_is_monotone() {
    let d = Inversion1D::build(&[2, 0, 5, 1, 9, 3]).unwrap();
    let mut last = 0usize;
    let mut u: u64 = 0;
    while u <= u32::MAX as u64 {
        let (_, index) = d.sample_discrete(u as u32);
        assert!(index >= last);
        last = index;
        u += 9_999_991;
    }
    assert_eq!(last, 5);
}

#[test]
fn continuous_inversion_values() {
    let d = Inversion1D::build(&[1, 1, 2, 4, 8]).unwrap();
    // u = 3/4 lies halfway through the last bucket: coordinate (4 + 1/2) / 5.
    let (density, position) = d.sample_continuous(3 << 30);
    assert_eq!(density, 8);
    assert_eq!(position, (4u128 << 32) + (1u128 << 31));
    let coordinate = position as f64 / (5.0 * UNIT);
    assert!((coordinate - 0.9).abs() < 1e-12);
    // u = 0 is the start of the first bucket.
    assert_eq!(d.sample_continuous(0), (1, 0));
}

#[test]
fn continuous_agrees_with_discrete() {
    let d = Inversion1D::build(&[7, 0, 1, 12, 3]).unwrap();
    let n = d.size() as f64;
    let mut rng = Uniform(12345);
    for _ in 0..10_000 {
        let u = rng.next();
        let (density, index) = d.sample_discrete(u);
        let (c_density, position) = d.sample_continuous(u);
        assert_eq!(density, c_density);
        assert_eq!((position >> 32) as usize, index);
        let coordinate = position as f64 / (n * UNIT);
        assert!((0.0..1.0).contains(&coordinate));
        assert_eq!((coordinate * n).floor() as usize, index);
    }
}
