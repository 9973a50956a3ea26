use glao_error_budget::stats;
use glao_error_budget::{Scalar, OPD};

#[derive(Clone, Copy, Debug, PartialEq)]
struct Real(f64);

impl Scalar for Real {
    fn zero() -> Self {
        Real(0.0)
    }
    fn nan() -> Self {
        Real(f64::NAN)
    }
    fn infinity() -> Self {
        Real(f64::INFINITY)
    }
    fn neg_infinity() -> Self {
        Real(f64::NEG_INFINITY)
    }
    fn from_count(n: usize) -> Self {
        Real(n as f64)
    }
    fn pow10(exponent: i32) -> Self {
        Real(10_f64.powi(exponent))
    }
    fn is_nan(self) -> bool {
        self.0.is_nan()
    }
    fn plus(self, rhs: Self) -> Self {
        Real(self.0 + rhs.0)
    }
    fn minus(self, rhs: Self) -> Self {
        Real(self.0 - rhs.0)
    }
    fn times(self, rhs: Self) -> Self {
        Real(self.0 * rhs.0)
    }
    fn over(self, rhs: Self) -> Self {
        Real(self.0 / rhs.0)
    }
    fn root(self) -> Self {
        Real(self.0.sqrt())
    }
    fn recip(self) -> Self {
        Real(self.0.recip())
    }
    fn abs(self) -> Self {
        Real(self.0.abs())
    }
}

fn reals(xs: &[f64]) -> Vec<Real> {
    xs.iter().map(|&x| Real(x)).collect()
}

fn floats(xs: &[Real]) -> Vec<f64> {
    xs.iter().map(|x| x.0).collect()
}

#[test]
fn sum_adds_from_the_left() {
    assert_eq!(stats::sum(&reals(&[1.0, 2.0, 3.5])), Real(6.5));
    assert_eq!(stats::sum(&reals(&[])), Real(0.0));
    // 1e16 + 1 is rounded to 1e16, so the order of the additions shows.
    assert_eq!(stats::sum(&reals(&[1e16, 1.0, -1e16])), Real(0.0));
    assert_eq!(stats::sum(&reals(&[1e16, -1e16, 1.0])), Real(1.0));
}

#[test]
fn dot_adds_the_products() {
    let xs = reals(&[1.0, 2.0, 3.0]);
    let ys = reals(&[4.0, -5.0, 6.0]);
    assert_eq!(stats::dot(&xs, &ys), Real(12.0));
    assert_eq!(stats::sum_of_squares(&xs), Real(14.0));
}

#[test]
fn mean_variance_and_rms_divide_by_the_number_of_samples() {
    let xs = reals(&[1.0, 2.0, 3.0, 4.0]);
    assert_eq!(stats::mean(&xs), Real(2.5));
    assert_eq!(stats::sum_sq_dev(&xs, Real(2.5)), Real(5.0));
    assert_eq!(stats::variance(&xs), Real(1.25));
    assert_eq!(stats::std_dev(&xs), Real(1.25f64.sqrt()));
    assert_eq!(stats::rms(&xs), Real(7.5f64.sqrt()));
    assert_eq!(stats::ratio(Real(3.0), 4), Real(0.75));
}

#[test]
fn statistics_of_nothing_are_undefined() {
    let xs: Vec<Real> = Vec::new();
    assert!(stats::mean(&xs).0.is_nan());
    assert!(stats::variance(&xs).0.is_nan());
    assert!(stats::std_dev(&xs).0.is_nan());
    assert!(stats::rms(&xs).0.is_nan());
}

#[test]
fn new_map_has_open_bounds() {
    let opd = OPD::new(reals(&[1.0, 2.0]));
    assert_eq!(opd.max(), Real(f64::INFINITY));
    assert_eq!(opd.min(), Real(f64::NEG_INFINITY));
    assert_eq!(floats(opd.map()), vec![1.0, 2.0]);
}

#[test]
fn map_with_bounds_keeps_them() {
    let opd = OPD::with_bounds(reals(&[1.0, -2.0]), Real(1.0), Real(-2.0));
    assert_eq!(opd.max(), Real(1.0));
    assert_eq!(opd.min(), Real(-2.0));
    let copy = opd.duplicate();
    assert_eq!(copy.max(), Real(1.0));
    assert_eq!(copy.min(), Real(-2.0));
    assert_eq!(floats(copy.map()), vec![1.0, -2.0]);
}

#[test]
fn mut_map_writes_into_the_map() {
    let mut opd = OPD::new(reals(&[1.0, 2.0, 3.0]));
    opd.mut_map()[1] = Real(-7.0);
    assert_eq!(floats(opd.map()), vec![1.0, -7.0, 3.0]);
}

#[test]
fn map_10e_scales_by_a_power_of_ten() {
    let opd = OPD::new(reals(&[1.5e-6, -2e-6, 0.0]));
    let micron = opd.map_10e(-6);
    assert_eq!(floats(&micron), vec![1.5e-6 * 1e6, -2e-6 * 1e6, 0.0]);
    let opd = OPD::new(reals(&[250.0]));
    assert_eq!(floats(&opd.map_10e(2)), vec![250.0 * 10_f64.powi(-2)]);
    assert_eq!(floats(&opd.map_10e(0)), vec![250.0]);
}

#[test]
fn map_10e_keeps_undefined_samples_undefined() {
    let opd = OPD::new(reals(&[f64::NAN, 1.0]));
    let scaled = opd.map_10e(-3);
    assert!(scaled[0].0.is_nan());
    assert_eq!(scaled[1], Real(1000.0));
}

#[test]
fn no_nan_opd_drops_the_undefined_samples() {
    let opd = OPD::new(reals(&[f64::NAN, 1.0, f64::NAN, 2.0, 3.0, f64::NAN]));
    assert_eq!(floats(&opd.no_nan_opd()), vec![1.0, 2.0, 3.0]);
}

#[test]
fn statistics_of_a_map_skip_the_undefined_samples() {
    let opd = OPD::new(reals(&[f64::NAN, 1.0, 2.0, f64::NAN, 3.0, 4.0]));
    assert_eq!(opd.mean(), Real(2.5));
    assert_eq!(opd.var(), Real(1.25));
    assert_eq!(opd.std_dev(), Real(1.25f64.sqrt()));
    assert_eq!(opd.rms(), Real(7.5f64.sqrt()));
}

#[test]
fn statistics_of_an_undefined_map_are_undefined() {
    let opd = OPD::new(vec![Real(f64::NAN); 512 * 512]);
    assert!(opd.mean().0.is_nan());
    assert!(opd.std_dev().0.is_nan());
    assert!(opd.var().0.is_nan());
    assert!(opd.rms().0.is_nan());
    assert!(opd.no_nan_opd().is_empty());
}

#[test]
fn masked_statistics_take_the_selected_samples() {
    let opd = OPD::new(reals(&[9.0, 1.0, 2.0, 9.0, 3.0, 4.0]));
    let mask = [false, true, true, false, true, true];
    assert_eq!(opd.masked_var(&mask), Real(1.25));
    assert_eq!(opd.masked_std(&mask), Real(1.25f64.sqrt()));
    assert_eq!(opd.masked_rms(&mask), Real(7.5f64.sqrt()));
    assert_eq!(opd.masked_sum_of_squares(&mask), Real(30.0));
}

#[test]
fn masked_statistics_do_not_skip_undefined_samples() {
    let opd = OPD::new(reals(&[f64::NAN, 1.0, 2.0]));
    assert!(opd.masked_rms(&[true, true, true]).0.is_nan());
    assert!(opd.masked_var(&[true, true, true]).0.is_nan());
    assert!(opd.masked_std(&[true, true, true]).0.is_nan());
    assert!(opd.masked_sum_of_squares(&[true, true, true]).0.is_nan());
    // the map-wide root mean square skips the undefined sample
    assert_eq!(opd.rms(), Real(2.5f64.sqrt()));
    // and so does a mask that leaves it out
    assert_eq!(opd.masked_rms(&[false, true, true]), Real(2.5f64.sqrt()));
}

#[test]
fn masked_rms_over_everything_is_the_rms_of_a_defined_map() {
    let samples = [0.5, -1.25, 3.0, 2.0, -0.125, 7.0, 1e-3];
    let opd = OPD::new(reals(&samples));
    assert_eq!(opd.masked_rms(&[true; 7]), opd.rms());
}

#[test]
fn masked_statistics_of_an_empty_selection_are_undefined() {
    let opd = OPD::new(reals(&[1.0, 2.0]));
    assert!(opd.masked_rms(&[false, false]).0.is_nan());
    assert!(opd.masked_var(&[false, false]).0.is_nan());
    assert_eq!(opd.masked_sum_of_squares(&[false, false]), Real(0.0));
}
