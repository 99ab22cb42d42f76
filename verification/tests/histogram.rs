use poker_abstraction::error::Error;
use poker_abstraction::histogram::{
    agg, earth_movers, emd, mse, squared_error, Histogram, MAX_BINS, ONE, THRESHOLD,
};

fn raw(masses: &[u64]) -> Histogram {
    let mut h = Histogram::new(masses.len());
    for (i, m) in masses.iter().enumerate() {
        h.put(i, *m as i64);
    }
    h
}

#[test]
fn new_is_empty() {
    let h = Histogram::new(4);
    assert_eq!(h.n, 4);
    assert_eq!(h.s, 0);
    assert_eq!(h.x, vec![0, 0, 0, 0]);
    assert!(MAX_BINS >= 4);
}

#[test]
fn new_with_no_bins() {
    let h = Histogram::new(0);
    assert_eq!(h.n, 0);
    assert!(h.x.is_empty());
    assert_eq!(h.norm().unwrap_err(), Error::DegenerateHistogram);
}

#[test]
fn put_accumulates_bin_and_mass() {
    let mut h = Histogram::new(3);
    h.put(1, 5);
    h.put(1, 2);
    h.put(2, 3);
    assert_eq!(h.x, vec![0, 7, 3]);
    assert_eq!(h.s, 10);
    assert_eq!(h.n, 3);
}

#[test]
fn put_takes_negative_amounts() {
    let mut h = raw(&[4, 6]);
    h.put(1, -6);
    assert_eq!(h.x, vec![4, 0]);
    assert_eq!(h.s, 4);
    assert_eq!(h.get(0), Ok(ONE));
    assert_eq!(h.get(1), Ok(0));
}

#[test]
fn get_is_bin_over_mass() {
    let h = raw(&[2, 3, 5]);
    assert_eq!(h.get(0), Ok(200_000_000));
    assert_eq!(h.get(1), Ok(300_000_000));
    assert_eq!(h.get(2), Ok(500_000_000));
}

#[test]
fn get_rounds_down() {
    let h = raw(&[1, 2]);
    assert_eq!(h.get(0), Ok(333_333_333));
    assert_eq!(h.get(1), Ok(666_666_666));
}

#[test]
fn get_without_mass_is_degenerate() {
    let h = Histogram::new(2);
    assert_eq!(h.get(0), Err(Error::DegenerateHistogram));
    assert!(!h.has_mass());
}

#[test]
fn from_normalizes() {
    let h = Histogram::from(vec![1, 2, 3]).unwrap();
    assert_eq!(h.n, 3);
    assert_eq!(h.s, ONE as u128);
    assert_eq!(h.x, vec![166_666_666, 333_333_333, 500_000_000]);
    assert_eq!(h.get(1), Ok(333_333_333));
    assert!(h.has_mass());
}

#[test]
fn from_without_mass_is_degenerate() {
    assert_eq!(Histogram::from(vec![0, 0, 0]).unwrap_err(), Error::DegenerateHistogram);
    assert_eq!(Histogram::from(Vec::new()).unwrap_err(), Error::DegenerateHistogram);
}

#[test]
fn from_takes_the_largest_masses() {
    let h = Histogram::from(vec![u64::MAX, u64::MAX]).unwrap();
    assert_eq!(h.x, vec![500_000_000, 500_000_000]);
}

#[test]
fn norm_makes_unit_mass() {
    let h = raw(&[2, 3, 5]).norm().unwrap();
    assert_eq!(h.s, ONE as u128);
    assert_eq!(h.x, vec![200_000_000, 300_000_000, 500_000_000]);
    assert_eq!(h.get(2), Ok(h.x[2] as u64));
}

#[test]
fn norm_without_mass_is_degenerate() {
    assert_eq!(Histogram::new(3).norm().unwrap_err(), Error::DegenerateHistogram);
}

#[test]
fn norm_twice_is_norm_once() {
    let once = raw(&[1, 2, 4]).norm().unwrap();
    let twice = once.clone().norm().unwrap();
    assert_eq!(once.x, twice.x);
    assert_eq!(once.s, twice.s);
    assert_eq!(once.approx_eq(&twice), Ok(true));
}

#[test]
fn average_divides_bins_and_mass() {
    let mut h = raw(&[7, 9, 4]);
    assert_eq!(h.s, 20);
    h = h.average(2);
    assert_eq!(h.x, vec![3, 4, 2]);
    assert_eq!(h.s, 10);
}

#[test]
fn clone_keeps_everything() {
    let h = raw(&[7, 9, 4]);
    let c = h.clone();
    assert_eq!((c.n, c.s, c.x), (h.n, h.s, h.x));
}

#[test]
fn approx_eq_is_within_threshold() {
    let a = Histogram { n: 2, s: ONE as u128, x: vec![500_000_000, 500_000_000] };
    let near = Histogram {
        n: 2,
        s: ONE as u128,
        x: vec![500_000_000 + (THRESHOLD as u128 - 1), 500_000_000 - (THRESHOLD as u128 - 1)],
    };
    let far = Histogram {
        n: 2,
        s: ONE as u128,
        x: vec![500_000_000 + THRESHOLD as u128, 500_000_000 - THRESHOLD as u128],
    };
    assert_eq!(a.approx_eq(&near), Ok(true));
    assert_eq!(near.approx_eq(&a), Ok(true));
    assert_eq!(a.approx_eq(&far), Ok(false));
    assert_eq!(far.approx_eq(&a), Ok(false));
}

#[test]
fn approx_eq_needs_equal_bin_counts_and_mass() {
    let a = Histogram::from(vec![1, 1]).unwrap();
    let b = Histogram::from(vec![1, 1, 0]).unwrap();
    assert_eq!(a.approx_eq(&b), Ok(false));
    assert_eq!(a.approx_eq(&Histogram::new(2)), Err(Error::DegenerateHistogram));
    assert_eq!(Histogram::new(2).approx_eq(&a), Err(Error::DegenerateHistogram));
}

#[test]
fn mse_is_sum_of_squared_differences() {
    let a = Histogram::from(vec![1, 2, 3]).unwrap();
    let b = Histogram::from(vec![5, 7, 8]).unwrap();
    assert_eq!(mse(&a, &b), Ok(17_222_222_344_444_445));
    assert_eq!(squared_error(&a, &b), 17_222_222_344_444_445);
}

#[test]
fn emd_is_sum_of_cumulative_gaps() {
    let a = Histogram::from(vec![1, 2, 3]).unwrap();
    let b = Histogram::from(vec![5, 7, 8]).unwrap();
    assert_eq!(emd(&a, &b), Ok(183_333_336));
    assert_eq!(earth_movers(&a, &b), 183_333_336);
}

#[test]
fn distances_are_symmetric() {
    let a = Histogram::from(vec![1, 2, 3]).unwrap();
    let b = Histogram::from(vec![5, 7, 8]).unwrap();
    let c = Histogram::from(vec![1, 9, 1]).unwrap();
    for (p, q) in [(&a, &b), (&a, &c), (&b, &c)] {
        assert_eq!(mse(p, q), mse(q, p));
        assert_eq!(emd(p, q), emd(q, p));
    }
}

#[test]
fn distances_to_self_are_zero() {
    for v in [vec![1, 2, 3], vec![5, 7, 8], vec![0, 0, 9]] {
        let a = Histogram::from(v).unwrap();
        assert_eq!(mse(&a, &a), Ok(0));
        assert_eq!(emd(&a, &a), Ok(0));
    }
}

#[test]
fn emd_obeys_the_triangle_inequality() {
    let a = Histogram::from(vec![1, 2, 3]).unwrap();
    let b = Histogram::from(vec![5, 7, 8]).unwrap();
    let c = Histogram::from(vec![1, 9, 1]).unwrap();
    assert_eq!(emd(&a, &c), Ok(484_848_486));
    assert_eq!(emd(&b, &c), Ok(468_181_820));
    assert!(emd(&a, &c).unwrap() <= emd(&a, &b).unwrap() + emd(&b, &c).unwrap());
}

#[test]
fn distances_truncate_to_the_shorter_histogram() {
    let a = Histogram::from(vec![1, 2, 3]).unwrap();
    let d = Histogram::from(vec![1, 1]).unwrap();
    assert_eq!(mse(&a, &d), Ok(138_888_889_444_444_445));
    assert_eq!(mse(&d, &a), Ok(138_888_889_444_444_445));
    assert_eq!(emd(&a, &d), Ok(833_333_335));
    assert_eq!(emd(&d, &a), Ok(833_333_335));
}

#[test]
fn distances_without_mass_are_degenerate() {
    let a = Histogram::from(vec![1, 2, 3]).unwrap();
    let z = Histogram::new(3);
    assert_eq!(mse(&a, &z), Err(Error::DegenerateHistogram));
    assert_eq!(mse(&z, &a), Err(Error::DegenerateHistogram));
    assert_eq!(emd(&a, &z), Err(Error::DegenerateHistogram));
    assert_eq!(emd(&z, &a), Err(Error::DegenerateHistogram));
}

#[test]
fn agg_starts_from_the_normalized_values() {
    let a = raw(&[2, 3, 5]);
    let h = agg(None, &a).unwrap().unwrap();
    assert_eq!(h.x, vec![200_000_000, 300_000_000, 500_000_000]);
    assert_eq!(h.s, 1_000_000_000);
}

#[test]
fn agg_adds_the_normalized_values() {
    let a = Histogram::from(vec![1, 2, 3]).unwrap();
    let b = Histogram::from(vec![5, 7, 8]).unwrap();
    let h = agg(agg(None, &a).unwrap(), &b).unwrap().unwrap();
    assert_eq!(h.x, vec![416_666_666, 683_333_333, 900_000_000]);
    assert_eq!(h.s, 1_999_999_999);
    let c = h.norm().unwrap();
    assert_eq!(c.x, vec![208_333_333, 341_666_666, 450_000_000]);
}

#[test]
fn agg_without_mass_is_degenerate() {
    let a = Histogram::from(vec![1, 2, 3]).unwrap();
    assert_eq!(agg(None, &Histogram::new(3)).unwrap_err(), Error::DegenerateHistogram);
    assert_eq!(agg(Some(a), &Histogram::new(3)).unwrap_err(), Error::DegenerateHistogram);
}

#[test]
fn combining_copies_gives_the_histogram_back() {
    let a = Histogram::from(vec![1, 2, 3]).unwrap();
    for copies in 1..6 {
        let mut acc = None;
        for _ in 0..copies {
            acc = agg(acc, &a).unwrap();
        }
        let c = acc.unwrap().norm().unwrap();
        assert_eq!(c.approx_eq(&a), Ok(true));
    }
}

#[test]
fn combining_three_copies_exactly() {
    let a = Histogram::from(vec![1, 2, 3]).unwrap();
    let acc = agg(agg(agg(None, &a).unwrap(), &a).unwrap(), &a).unwrap().unwrap();
    assert_eq!(acc.x, vec![499_999_998, 999_999_999, 1_500_000_000]);
    assert_eq!(acc.s, 2_999_999_997);
    assert_eq!(acc.norm().unwrap().x, vec![166_666_666, 333_333_333, 500_000_000]);
}

#[test]
fn combining_copies_can_miss_a_histogram_that_holds_less_than_its_mass() {
    let h = Histogram { n: 1, s: 2, x: vec![1] };
    assert_eq!(h.get(0), Ok(500_000_000));
    let c = agg(None, &h).unwrap().unwrap().norm().unwrap();
    assert_eq!(c.get(0), Ok(ONE));
    assert_eq!(c.approx_eq(&h), Ok(false));
}

#[test]
fn has_mass_needs_a_normalized_value_above_zero() {
    assert!(raw(&[0, 1]).has_mass());
    let thin = Histogram { n: 1, s: 2 * ONE as u128, x: vec![1] };
    assert_eq!(thin.get(0), Ok(0));
    assert!(!thin.has_mass());
}

#[test]
fn error_messages() {
    assert_eq!(Error::InvalidArgument.message(), "invalid argument");
    assert_eq!(Error::DegenerateHistogram.message(), "degenerate histogram");
}
