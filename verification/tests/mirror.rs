use glao_error_budget::{
    GlaoError, KarhunenLoeve, OpdRecord, OpdStats, PseudoInverse, Scalar, Segment, ASM, ASMS, GRID,
    OPD, SEGMENTS,
};
use rayon::prelude::{IntoParallelRefMutIterator, ParallelIterator};
use nalgebra::{DMatrix, DVector};

#[derive(Clone, Copy, Debug, PartialEq)]
struct Real(f64);

impl Scalar for Real {
    fn zero() -> Self {
        Real(0.0)
    }
    fn nan() -> Self {
        Real(f64::NAN)
    }
    fn infinity() -> Self {
        Real(f64::INFINITY)
    }
    fn neg_infinity() -> Self {
        Real(f64::NEG_INFINITY)
    }
    fn from_count(n: usize) -> Self {
        Real(n as f64)
    }
    fn pow10(exponent: i32) -> Self {
        Real(10_f64.powi(exponent))
    }
    fn is_nan(self) -> bool {
        self.0.is_nan()
    }
    fn plus(self, rhs: Self) -> Self {
        Real(self.0 + rhs.0)
    }
    fn minus(self, rhs: Self) -> Self {
        Real(self.0 - rhs.0)
    }
    fn times(self, rhs: Self) -> Self {
        Real(self.0 * rhs.0)
    }
    fn over(self, rhs: Self) -> Self {
        Real(self.0 / rhs.0)
    }
    fn root(self) -> Self {
        Real(self.0.sqrt())
    }
    fn recip(self) -> Self {
        Real(self.0.recip())
    }
    fn abs(self) -> Self {
        Real(self.0.abs())
    }
}

#[derive(Debug)]
struct Pinv(DMatrix<f64>);

impl PseudoInverse<Real> for Pinv {
    fn pseudo_inverse(modes: &Vec<Real>, n_point: usize, n_mode: usize) -> Result<Self, String> {
        let flat: Vec<f64> = modes.iter().map(|x| x.0).collect();
        DMatrix::from_column_slice(n_point, n_mode, &flat)
            .pseudo_inverse(0.0)
            .map(Pinv)
            .map_err(|e| e.to_string())
    }
    fn solve(&self, samples: &Vec<Real>) -> Vec<Real> {
        let flat: Vec<f64> = samples.iter().map(|x| x.0).collect();
        (&self.0 * DVector::from_column_slice(&flat))
            .as_slice()
            .iter()
            .map(|&x| Real(x))
            .collect()
    }
}

fn reals(xs: &[f64]) -> Vec<Real> {
    xs.iter().map(|&x| Real(x)).collect()
}

fn floats(xs: &[Real]) -> Vec<f64> {
    xs.iter().map(|x| x.0).collect()
}

/// A mask over the grid that selects the samples `first..first + n`.
fn window(first: usize, n: usize) -> Vec<bool> {
    let mut mask = vec![false; GRID];
    for m in mask.iter_mut().skip(first).take(n) {
        *m = true;
    }
    mask
}

fn close(a: f64, b: f64) -> bool {
    (a - b).abs() <= 1e-12 * (1.0 + a.abs().max(b.abs()))
}

/// A pseudo-inverse that can never be computed.
#[derive(Debug)]
struct NoInverse;

impl PseudoInverse<Real> for NoInverse {
    fn pseudo_inverse(_: &Vec<Real>, _: usize, _: usize) -> Result<Self, String> {
        Err("singular".to_string())
    }
    fn solve(&self, _: &Vec<Real>) -> Vec<Real> {
        Vec::new()
    }
}

/// Two modes over `n_point` points: the constant 1 and the ramp 0, 1, 2, ..
fn ramp_modes(n_point: usize) -> Vec<Real> {
    let mut modes = vec![Real(1.0); n_point];
    modes.extend((0..n_point).map(|p| Real(p as f64)));
    modes
}

/// Segment `k` (from 0) of the test mirror: `3 + k` points from sample
/// `100 * k` on, with the two ramp modes.
fn test_segment(k: usize) -> Segment<Real, Pinv> {
    Segment::new(2, ramp_modes(3 + k), window(100 * k, 3 + k)).unwrap()
}

fn test_mirror() -> ASMS<Real, Pinv> {
    let segments = (0..SEGMENTS)
        .map(|k| ASM::new(k + 1, test_segment(k)).unwrap())
        .collect();
    ASMS::new(segments).unwrap()
}

/// A map over the grid: sample `i` holds `1 + i / 8` within the first 1000
/// samples, and is undefined elsewhere.
fn test_map() -> OPD<Real> {
    let mut data = vec![Real(f64::NAN); GRID];
    for (i, x) in data.iter_mut().enumerate().take(1000) {
        *x = Real(1.0 + i as f64 / 8.0);
    }
    OPD::new(data)
}

/// Six cosine modes over eight points; they are orthogonal to each other.
fn cosine_basis() -> KarhunenLoeve<Real> {
    let (n_mode, n_point) = (6, 8);
    let mut modes = Vec::new();
    for j in 0..n_mode {
        for p in 0..n_point {
            let phase = std::f64::consts::PI * (p as f64 + 0.5) * j as f64 / n_point as f64;
            modes.push(Real(phase.cos()));
        }
    }
    KarhunenLoeve { modes, n_mode, mask: window(40, n_point) }
}

#[test]
fn unit_norm_then_project_recovers_the_closed_form() {
    let mut segment: Segment<Real, Pinv> =
        Segment::new(1, reals(&[1.0, 2.0, 3.0]), window(0, 3)).unwrap();
    segment.unit_norm();
    let expected: Vec<f64> = [1.0, 2.0, 3.0].iter().map(|x| x / 42f64.sqrt()).collect();
    for (m, e) in segment.modes.iter().zip(&expected) {
        assert!(close(m.0, *e));
    }
    segment.project(&reals(&[1.0, 2.0, 3.0])).unwrap();
    assert_eq!(segment.coefficients.len(), 1);
    assert!(close(segment.coefficients[0].0, 42f64.sqrt() / 3.0));
}

#[test]
fn unit_norm_scales_each_mode_by_its_own_factor() {
    let mut segment: Segment<Real, Pinv> =
        Segment::new(2, reals(&[3.0, 4.0, 0.0, 2.0]), window(7, 2)).unwrap();
    segment.unit_norm();
    let first = (25.0f64 * 2.0).sqrt().recip();
    let second = (4.0f64 * 2.0).sqrt().recip();
    assert_eq!(
        floats(&segment.modes),
        vec![3.0 * first, 4.0 * first, 0.0 * second, 2.0 * second]
    );
    assert_eq!(segment.n_mode, 2);
    assert_eq!(segment.mask, window(7, 2));
    assert!(segment.coefficients.is_empty());
}

#[test]
fn unit_norm_brings_every_mode_to_unit_norm() {
    for k in 0..SEGMENTS {
        let mut segment = test_segment(k);
        segment.modes[0] = Real(-2.5);
        segment.unit_norm();
        let n = segment.n_point();
        assert_eq!(n, 3 + k);
        for j in 0..segment.n_mode {
            let mode = segment.mode_samples(j);
            let norm: f64 = mode.iter().map(|x| x.0 * x.0).sum::<f64>() * n as f64;
            assert!(close(norm, 1.0));
        }
    }
}

#[test]
fn project_refuses_a_map_of_another_length() {
    let mut segment: Segment<Real, Pinv> =
        Segment::new(1, reals(&[1.0, 2.0, 3.0]), window(0, 3)).unwrap();
    let outcome = segment.project(&reals(&[1.0, 2.0, 3.0, 4.0, 5.0]));
    assert!(matches!(outcome, Err(GlaoError::Projection)));
    assert!(segment.coefficients.is_empty());
    assert!(matches!(
        segment.project_out(&reals(&[1.0, 2.0, 3.0, 4.0, 5.0])),
        Err(GlaoError::Projection)
    ));
    assert!(matches!(
        segment.least_square(&reals(&[1.0, 2.0, 3.0, 4.0, 5.0])),
        Err(GlaoError::Projection)
    ));
    assert!(matches!(
        segment.least_square_out(&reals(&[1.0, 2.0, 3.0, 4.0, 5.0])),
        Err(GlaoError::Projection)
    ));
    assert!(matches!(segment.local_samples(&[]), Err(GlaoError::Projection)));
}

#[test]
fn a_refused_fit_keeps_the_coefficients_of_the_last_one() {
    let mut segment: Segment<Real, Pinv> =
        Segment::new(1, reals(&[1.0, 2.0, 3.0]), window(0, 3)).unwrap();
    segment.project(&reals(&[1.0, 0.0, 0.0])).unwrap();
    let kept = floats(&segment.coefficients);
    assert!(segment.project(&reals(&[1.0, 2.0])).is_err());
    assert_eq!(floats(&segment.coefficients), kept);
    assert!(segment.least_square(&reals(&[1.0, 2.0, 3.0, 4.0])).is_err());
    assert_eq!(floats(&segment.coefficients), kept);
}

#[test]
fn project_divides_the_inner_product_by_the_norm() {
    let segment: Segment<Real, Pinv> =
        Segment::new(2, reals(&[1.0, 2.0, 3.0, 0.0, 1.0, 0.0]), window(5, 3)).unwrap();
    let coefficients = segment.project_out(&reals(&[1.0, 2.0, 3.0])).unwrap();
    let first = (14.0f64 * 3.0).sqrt().recip() * 14.0;
    let second = (1.0f64 * 3.0).sqrt().recip() * 2.0;
    assert_eq!(floats(&coefficients), vec![first, second]);
    // the segment itself is left without coefficients
    assert!(segment.coefficients.is_empty());
}

#[test]
fn project_takes_the_masked_samples_of_a_map_over_the_grid() {
    let mut segment: Segment<Real, Pinv> =
        Segment::new(2, reals(&[1.0, 2.0, 3.0, 0.0, 1.0, 0.0]), window(5, 3)).unwrap();
    let mut map = vec![Real(100.0); GRID];
    map[5] = Real(1.0);
    map[6] = Real(2.0);
    map[7] = Real(3.0);
    let over_grid = segment.project_out(&map).unwrap();
    let local = segment.project_out(&reals(&[1.0, 2.0, 3.0])).unwrap();
    assert_eq!(over_grid, local);
    assert_eq!(floats(&segment.local_samples(&map).unwrap()), vec![1.0, 2.0, 3.0]);
    segment.project(&map).unwrap();
    assert_eq!(segment.coefficients, local);
    segment.least_square(&map).unwrap();
    let fitted = floats(&segment.coefficients);
    let fitted_local = floats(&segment.least_square_out(&reals(&[1.0, 2.0, 3.0])).unwrap());
    assert_eq!(fitted, fitted_local);
}

#[test]
fn project_propagates_undefined_samples() {
    let segment: Segment<Real, Pinv> =
        Segment::new(1, reals(&[1.0, 2.0, 3.0]), window(0, 3)).unwrap();
    let coefficients = segment.project_out(&reals(&[1.0, f64::NAN, 3.0])).unwrap();
    assert!(coefficients[0].0.is_nan());
}

#[test]
fn least_square_solves_with_the_pseudo_inverse() {
    let modes = reals(&[1.0, 0.0, 0.0, 0.0, 1.0, 1.0, 0.0, 0.0]);
    let mut segment: Segment<Real, Pinv> = Segment::new(2, modes, window(3, 4)).unwrap();
    let coefficients = segment.least_square_out(&reals(&[1.0, 2.0, 3.0, 4.0])).unwrap();
    assert_eq!(coefficients.len(), 2);
    assert!((coefficients[0].0 + 1.0).abs() < 1e-12);
    assert!((coefficients[1].0 - 2.0).abs() < 1e-12);
    assert!(segment.coefficients.is_empty());
    segment.least_square(&reals(&[1.0, 2.0, 3.0, 4.0])).unwrap();
    assert_eq!(segment.coefficients, coefficients);
}

#[test]
fn least_square_leaves_no_more_than_project() {
    let modes = reals(&[1.0, 0.0, 0.0, 0.0, 1.0, 1.0, 0.0, 0.0]);
    let mut segment: Segment<Real, Pinv> = Segment::new(2, modes, window(3, 4)).unwrap();
    let map = [1.0, 2.0, 3.0, 4.0];
    let left = |segment: &Segment<Real, Pinv>| -> f64 {
        let shape = segment.shape(None);
        map.iter().zip(&shape).map(|(f, s)| (f - s.0) * (f - s.0)).sum()
    };
    segment.least_square(&reals(&map)).unwrap();
    let by_least_square = left(&segment);
    segment.project(&reals(&map)).unwrap();
    let by_projection = left(&segment);
    assert!((by_least_square - 25.0).abs() < 1e-9);
    assert!(by_least_square <= by_projection);
    assert!(by_projection > 26.0);
}

#[test]
fn shape_adds_the_modes_times_their_coefficients() {
    let mut segment = test_segment(0);
    // no fit yet: no coefficients, the shape is flat
    assert_eq!(floats(&segment.shape(None)), vec![0.0, 0.0, 0.0]);
    segment.coefficients = reals(&[2.0, 3.0]);
    assert_eq!(floats(&segment.shape(None)), vec![2.0, 5.0, 8.0]);
    assert_eq!(floats(&segment.shape(Some(&[1]))), vec![0.0, 3.0, 6.0]);
    assert_eq!(floats(&segment.shape(Some(&[0]))), vec![2.0, 2.0, 2.0]);
    assert_eq!(floats(&segment.shape(Some(&[1, 0]))), vec![2.0, 5.0, 8.0]);
    assert_eq!(floats(&segment.shape(Some(&[0, 0]))), vec![4.0, 4.0, 4.0]);
    assert_eq!(floats(&segment.shape(Some(&[]))), vec![0.0, 0.0, 0.0]);
    // a coefficient alone: only the modes that have one are taken
    segment.coefficients = reals(&[2.0]);
    assert_eq!(floats(&segment.shape(None)), vec![2.0, 2.0, 2.0]);
}

#[test]
fn shape_follows_the_order_of_the_chosen_modes() {
    let modes = reals(&[1e16, 1.0, -1e16]);
    let mut segment: Segment<Real, Pinv> = Segment::new(3, modes, window(9, 1)).unwrap();
    segment.coefficients = reals(&[1.0, 1.0, 1.0]);
    assert_eq!(floats(&segment.shape(None)), vec![0.0]);
    assert_eq!(floats(&segment.shape(Some(&[0, 2, 1]))), vec![1.0]);
}

#[test]
fn segment_counts_its_points() {
    let segment = test_segment(4);
    assert_eq!(segment.n_point(), 7);
    assert_eq!(segment.n_in_mask(), 7);
    assert_eq!(floats(segment.mode_samples(0)), vec![1.0; 7]);
    assert_eq!(floats(segment.mode_samples(1)), vec![0.0, 1.0, 2.0, 3.0, 4.0, 5.0, 6.0]);
}

#[test]
fn masked_reads_and_writes_in_the_order_of_the_mask() {
    let mut mask = vec![false; GRID];
    mask[2] = true;
    mask[5] = true;
    mask[GRID - 1] = true;
    let segment: Segment<Real, Pinv> =
        Segment::new(1, reals(&[1.0, 1.0, 1.0]), mask).unwrap();
    let mut data: Vec<Real> = (0..GRID).map(|i| Real(i as f64)).collect();
    assert_eq!(floats(&segment.masked(&data)), vec![2.0, 5.0, (GRID - 1) as f64]);
    segment.masked_sub(&mut data, reals(&[1.0, 2.0, 3.0]));
    assert_eq!(floats(&segment.masked(&data)), vec![1.0, 3.0, (GRID - 4) as f64]);
    assert_eq!(data[3], Real(3.0));
    segment.masked_replace(&mut data, reals(&[-1.0, -2.0, -3.0]));
    assert_eq!(floats(&segment.masked(&data)), vec![-1.0, -2.0, -3.0]);
    assert_eq!(data[0], Real(0.0));
    assert_eq!(data[4], Real(4.0));
    assert_eq!(data[GRID - 2], Real((GRID - 2) as f64));
}

#[test]
fn a_basis_is_valid_when_its_parts_agree() {
    let valid = |modes: usize, n_mode: usize, mask: Vec<bool>| {
        KarhunenLoeve { modes: vec![Real(1.0); modes], n_mode, mask }.is_valid()
    };
    assert!(valid(6, 2, window(0, 3)));
    assert!(valid(6, 6, window(GRID - 1, 1)));
    // no mode at all
    assert!(!valid(6, 0, window(0, 3)));
    // no point at all
    assert!(!valid(0, 2, vec![false; GRID]));
    // the modes do not all have the same number of samples
    assert!(!valid(7, 2, window(0, 3)));
    // the mask selects another number of points
    assert!(!valid(6, 2, window(0, 4)));
    // the mask does not cover the grid
    assert!(!valid(6, 2, vec![true; 3]));
}

#[test]
fn a_segment_is_made_without_coefficients() {
    let kl = KarhunenLoeve { modes: ramp_modes(3), n_mode: 2, mask: window(0, 3) };
    let segment: Segment<Real, Pinv> = Segment::from_kl(kl).unwrap();
    assert_eq!(segment.n_mode, 2);
    assert_eq!(segment.modes, ramp_modes(3));
    assert_eq!(segment.mask, window(0, 3));
    assert!(segment.coefficients.is_empty());
    assert_eq!(segment.modes_pinv.0.shape(), (2, 3));
}

#[test]
fn a_segment_without_pseudo_inverse_is_an_error() {
    let outcome: Result<Segment<Real, NoInverse>, _> =
        Segment::new(2, ramp_modes(3), window(0, 3));
    match outcome {
        Err(GlaoError::PseudoInverse(why)) => assert_eq!(why, "singular"),
        _ => panic!("a pseudo-inverse was expected to fail"),
    }
    let kl = KarhunenLoeve { modes: ramp_modes(3), n_mode: 2, mask: window(0, 3) };
    assert!(matches!(
        Segment::<Real, NoInverse>::from_kl(kl),
        Err(GlaoError::PseudoInverse(_))
    ));
    let assembled: Result<Segment<Real, Pinv>, _> =
        Segment::assemble(2, ramp_modes(3), window(0, 3), Err("no rank".to_string()));
    match assembled {
        Err(GlaoError::PseudoInverse(why)) => assert_eq!(why, "no rank"),
        _ => panic!("the failure was expected to be handed on"),
    }
    let pinv = Pinv::pseudo_inverse(&ramp_modes(3), 3, 2);
    let assembled = Segment::assemble(2, ramp_modes(3), window(0, 3), pinv).unwrap();
    assert_eq!(assembled.modes, ramp_modes(3));
}

#[test]
fn errors_describe_themselves() {
    assert_eq!(GlaoError::Projection.message(), "mode projection failed");
    assert_eq!(GlaoError::Bin2Asm.message(), "ASM from bincode failed");
    assert_eq!(
        GlaoError::PseudoInverse("no rank".to_string()).message(),
        "pseudo-inverse failed with no rank"
    );
}

#[test]
fn a_segment_identifier_is_one_of_seven() {
    for sid in 1..=7 {
        let tagged = ASM::new(sid, test_segment(0)).unwrap();
        assert_eq!(tagged.sid, sid);
        assert_eq!(tagged.tag(), format!("M2S{sid}"));
    }
    assert!(matches!(ASM::new(0, test_segment(0)), Err(GlaoError::Bin2Asm)));
    assert!(matches!(ASM::new(8, test_segment(0)), Err(GlaoError::Bin2Asm)));
    let kl = || KarhunenLoeve { modes: ramp_modes(3), n_mode: 2, mask: window(0, 3) };
    assert!(matches!(ASM::<Real, Pinv>::from_kl(0, kl()), Err(GlaoError::Bin2Asm)));
    // the identifier is looked at before the pseudo-inverse is computed
    assert!(matches!(ASM::<Real, NoInverse>::from_kl(9, kl()), Err(GlaoError::Bin2Asm)));
    assert!(matches!(
        ASM::<Real, NoInverse>::from_kl(7, kl()),
        Err(GlaoError::PseudoInverse(_))
    ));
    let tagged = ASM::<Real, Pinv>::from_kl(7, kl()).unwrap();
    assert_eq!(tagged.tag(), "M2S7");
    assert_eq!(tagged.n_point(), 3);
    assert_eq!(tagged.n_in_mask(), 3);
    assert_eq!(tagged.modes(), &ramp_modes(3)[..]);
    assert_eq!(tagged.mask(), &window(0, 3)[..]);
    assert!(tagged.coefficients().is_empty());
}

#[test]
fn a_tagged_segment_does_what_its_segment_does() {
    let mut tagged = ASM::new(2, test_segment(1)).unwrap();
    let plain = test_segment(1);
    let map = reals(&[1.0, -1.0, 2.0, 0.5]);
    assert_eq!(tagged.project_out(&map).unwrap(), plain.project_out(&map).unwrap());
    assert_eq!(
        tagged.least_square_out(&map).unwrap(),
        plain.least_square_out(&map).unwrap()
    );
    tagged.project(&map).unwrap();
    assert_eq!(tagged.coefficients(), &plain.project_out(&map).unwrap()[..]);
    tagged.least_square(&map).unwrap();
    assert_eq!(tagged.coefficients(), &plain.least_square_out(&map).unwrap()[..]);
    assert!(matches!(tagged.project(&map[..3]), Err(GlaoError::Projection)));
    assert!(matches!(tagged.least_square(&map[..3]), Err(GlaoError::Projection)));
    tagged.segment.coefficients = reals(&[1.0, 2.0]);
    assert_eq!(floats(&tagged.shape(None)), vec![1.0, 3.0, 5.0, 7.0]);
    assert_eq!(floats(&tagged.shape(Some(&[1]))), vec![0.0, 2.0, 4.0, 6.0]);
    let mut data = vec![Real(10.0); GRID];
    tagged.masked_sub(&mut data, reals(&[1.0, 2.0, 3.0, 4.0]));
    assert_eq!(floats(&data[99..105]), vec![10.0, 9.0, 8.0, 7.0, 6.0, 10.0]);
    tagged.masked_replace(&mut data, reals(&[1.0, 2.0, 3.0, 4.0]));
    assert_eq!(floats(&data[99..105]), vec![10.0, 1.0, 2.0, 3.0, 4.0, 10.0]);
}

#[test]
fn a_mirror_has_seven_segments_in_order() {
    let segments = |sids: &[usize]| -> Vec<ASM<Real, Pinv>> {
        sids.iter().map(|&sid| ASM::new(sid, test_segment(sid - 1)).unwrap()).collect()
    };
    assert!(ASMS::new(segments(&[1, 2, 3, 4, 5, 6, 7])).is_ok());
    assert!(matches!(ASMS::new(segments(&[1, 2, 3, 4, 5, 6])), Err(GlaoError::Bin2Asm)));
    assert!(matches!(ASMS::new(segments(&[])), Err(GlaoError::Bin2Asm)));
    assert!(matches!(
        ASMS::new(segments(&[1, 2, 3, 4, 5, 6, 7, 7])),
        Err(GlaoError::Bin2Asm)
    ));
    assert!(matches!(
        ASMS::new(segments(&[1, 2, 3, 4, 5, 7, 6])),
        Err(GlaoError::Bin2Asm)
    ));
    assert!(matches!(
        ASMS::new(segments(&[1, 1, 3, 4, 5, 6, 7])),
        Err(GlaoError::Bin2Asm)
    ));
}

#[test]
fn a_mirror_is_made_of_seven_stored_bases() {
    let kls = |n: usize| -> Vec<KarhunenLoeve<Real>> {
        (0..n)
            .map(|k| KarhunenLoeve {
                modes: ramp_modes(3 + k),
                n_mode: 2,
                mask: window(100 * k, 3 + k),
            })
            .collect()
    };
    let mirror: ASMS<Real, Pinv> = ASMS::from_kls(kls(7)).unwrap();
    assert_eq!(mirror.segments.len(), 7);
    for (k, tagged) in mirror.segments.iter().enumerate() {
        assert_eq!(tagged.sid, k + 1);
        assert_eq!(tagged.n_point(), 3 + k);
        assert_eq!(tagged.mask(), &window(100 * k, 3 + k)[..]);
        assert!(tagged.coefficients().is_empty());
    }
    assert!(matches!(
        ASMS::<Real, NoInverse>::from_kls(kls(7)),
        Err(GlaoError::PseudoInverse(_))
    ));
}

#[test]
fn the_mask_of_the_mirror_is_the_union_of_the_masks() {
    let mirror = test_mirror();
    let union = mirror.mask();
    assert_eq!(union.len(), GRID);
    for (i, covered) in union.iter().enumerate() {
        let k = i / 100;
        let expected = k < 7 && i % 100 < 3 + k;
        assert_eq!(*covered, expected);
    }
    assert_eq!(mirror.n_point(), 42);
}

#[test]
fn area_ratios_are_the_shares_of_the_points() {
    let mirror = test_mirror();
    let ratios = floats(&mirror.area_ratios());
    let expected: Vec<f64> = (0..7).map(|k| (3 + k) as f64 / 42.0).collect();
    assert_eq!(ratios, expected);
    assert!((ratios.iter().sum::<f64>() - 1.0).abs() < 1e-12);
}

#[test]
fn mirror_shape_is_undefined_outside_of_the_segments() {
    let mut mirror = test_mirror();
    for (k, tagged) in mirror.segments.iter_mut().enumerate() {
        tagged.segment.coefficients = reals(&[k as f64, 1.0]);
    }
    let shape = mirror.mirror_shape(None);
    assert_eq!(shape.max(), Real(f64::INFINITY));
    assert_eq!(shape.min(), Real(f64::NEG_INFINITY));
    let map = shape.map();
    assert_eq!(map.len(), GRID);
    for (i, x) in map.iter().enumerate() {
        let (k, p) = (i / 100, i % 100);
        if k < 7 && p < 3 + k {
            assert_eq!(x.0, k as f64 + p as f64);
        } else {
            assert!(x.0.is_nan());
        }
    }
    // the second mode alone
    let ramp = mirror.mirror_shape(Some(&[1]));
    assert_eq!(floats(&ramp.map()[600..609]), vec![0.0, 1.0, 2.0, 3.0, 4.0, 5.0, 6.0, 7.0, 8.0]);
    assert!(ramp.map()[609].0.is_nan());
    // no mode at all: flat within the segments, undefined outside
    let flat = mirror.mirror_shape(Some(&[]));
    assert_eq!(flat.map()[0], Real(0.0));
    assert!(flat.map()[3].0.is_nan());
}

#[test]
fn mirror_shape_of_overlapping_segments_keeps_the_last_one() {
    let mut segments: Vec<ASM<Real, Pinv>> = Vec::new();
    for k in 0..SEGMENTS {
        // every segment holds the samples 2k .. 2k + 3: neighbours share one
        let mut segment: Segment<Real, Pinv> =
            Segment::new(1, reals(&[1.0, 1.0, 1.0]), window(2 * k, 3)).unwrap();
        segment.coefficients = reals(&[(k + 1) as f64]);
        segments.push(ASM::new(k + 1, segment).unwrap());
    }
    let mirror = ASMS::new(segments).unwrap();
    let shape = mirror.mirror_shape(None);
    let expected = [
        1.0, 1.0, 2.0, 2.0, 3.0, 3.0, 4.0, 4.0, 5.0, 5.0, 6.0, 6.0, 7.0, 7.0, 7.0,
    ];
    assert_eq!(floats(&shape.map()[..15]), expected.to_vec());
    assert!(shape.map()[15].0.is_nan());
    // the residual subtracts both shapes where two segments overlap
    let mut map = OPD::new(vec![Real(100.0); GRID]);
    mirror.mirror_shape_sub(&mut map, None);
    assert_eq!(floats(&map.map()[..5]), vec![99.0, 99.0, 97.0, 98.0, 95.0]);
}

#[test]
fn mirror_shape_sub_clips_then_subtracts() {
    let mut mirror = test_mirror();
    for (k, tagged) in mirror.segments.iter_mut().enumerate() {
        tagged.segment.coefficients = reals(&[k as f64, 1.0]);
    }
    let mut map = OPD::with_bounds(vec![Real(50.0); GRID], Real(50.0), Real(-50.0));
    mirror.mirror_shape_sub(&mut map, None);
    assert_eq!(map.max(), Real(50.0));
    assert_eq!(map.min(), Real(-50.0));
    for (i, x) in map.map().iter().enumerate() {
        let (k, p) = (i / 100, i % 100);
        if k < 7 && p < 3 + k {
            assert_eq!(x.0, 50.0 - (k as f64 + p as f64));
        } else {
            assert!(x.0.is_nan());
        }
    }
    let mut map = OPD::new(vec![Real(50.0); GRID]);
    mirror.mirror_shape_sub(&mut map, Some(&[0]));
    assert_eq!(floats(&map.map()[300..306]), vec![47.0; 6]);
    assert!(map.map()[306].0.is_nan());
}

#[test]
fn the_residual_plus_the_mirror_shape_is_the_map() {
    let mut mirror = test_mirror();
    let mut data: Vec<Real> =
        (0..GRID).map(|i| Real(((i * 37) % 101) as f64 / 7.0 - 3.0)).collect();
    data[GRID - 1] = Real(f64::NAN);
    let map = OPD::new(data);
    mirror.least_square(&map).unwrap();
    let shape = mirror.mirror_shape(None);
    let residual = map.sub(&mirror);
    let union = mirror.mask();
    for i in 0..GRID {
        if union[i] {
            let back = residual.map()[i].0 + shape.map()[i].0;
            assert!((back - map.map()[i].0).abs() < 1e-12);
        } else {
            assert!(residual.map()[i].0.is_nan());
            assert!(shape.map()[i].0.is_nan());
        }
    }
    // the map itself is left as it was
    assert_eq!(map.map()[0], Real(-3.0));
    let mut same = map.duplicate();
    same.sub_assign(&mirror);
    for i in 0..GRID {
        let (a, b) = (same.map()[i].0, residual.map()[i].0);
        assert!(a == b || (a.is_nan() && b.is_nan()));
    }
}

#[test]
fn the_residual_of_a_least_squares_fit_has_no_part_in_the_modes() {
    let mut mirror = test_mirror();
    let map = test_map();
    mirror.least_square(&map).unwrap();
    let residual = map.sub(&mirror);
    // the map is a ramp over each segment, which the two modes reproduce
    for tagged in &mirror.segments {
        assert!(residual.masked_rms(tagged.mask()).0 < 1e-9);
    }
}

#[test]
fn fits_of_the_mirror_fit_every_segment() {
    let mut mirror = test_mirror();
    let map = test_map();
    let expected: Vec<Vec<Real>> =
        mirror.segments.iter().map(|tagged| tagged.project_out(map.map()).unwrap()).collect();
    let joined = mirror.project_out(&map).unwrap();
    assert_eq!(joined.len(), 14);
    assert_eq!(joined, expected.concat());
    mirror.project(&map).unwrap();
    for (tagged, coefficients) in mirror.segments.iter().zip(&expected) {
        assert_eq!(tagged.coefficients(), &coefficients[..]);
    }
    let expected: Vec<Vec<Real>> = mirror
        .segments
        .iter()
        .map(|tagged| tagged.least_square_out(map.map()).unwrap())
        .collect();
    assert_eq!(mirror.least_square_out(&map).unwrap(), expected.concat());
    mirror.least_square(&map).unwrap();
    for (tagged, coefficients) in mirror.segments.iter().zip(&expected) {
        assert_eq!(tagged.coefficients(), &coefficients[..]);
    }
}

#[test]
fn a_map_that_one_segment_refuses_is_an_error_for_the_mirror() {
    let mut mirror = test_mirror();
    // five samples: the number of points of the third segment alone
    let map = OPD::new(reals(&[1.0, 2.0, 3.0, 4.0, 5.0]));
    assert!(matches!(mirror.project_out(&map), Err(GlaoError::Projection)));
    assert!(matches!(mirror.least_square_out(&map), Err(GlaoError::Projection)));
    assert!(matches!(mirror.project(&map), Err(GlaoError::Projection)));
    for (k, tagged) in mirror.segments.iter().enumerate() {
        if k == 2 {
            assert_eq!(tagged.coefficients(), &tagged.project_out(map.map()).unwrap()[..]);
        } else {
            assert!(tagged.coefficients().is_empty());
        }
    }
    assert!(matches!(mirror.least_square(&map), Err(GlaoError::Projection)));
    for (k, tagged) in mirror.segments.iter().enumerate() {
        if k == 2 {
            assert_eq!(tagged.coefficients(), &tagged.least_square_out(map.map()).unwrap()[..]);
        } else {
            assert!(tagged.coefficients().is_empty());
        }
    }
}

#[test]
fn a_record_sums_up_the_fit_of_a_map() {
    let mirror = test_mirror();
    let map = test_map();
    let record = OpdRecord::new("first.npz".to_string(), &map, &mirror);
    assert_eq!(record.file, "first.npz");
    assert_eq!(record.var, map.var());
    assert_eq!(record.segment_sum_square.len(), 7);
    for (tagged, sum) in mirror.segments.iter().zip(&record.segment_sum_square) {
        assert_eq!(*sum, map.masked_sum_of_squares(tagged.mask()));
    }
    // the first segment holds the samples 1, 1.125 and 1.25
    assert_eq!(record.segment_sum_square[0], Real(1.0 + 1.125 * 1.125 + 1.25 * 1.25));
    assert_eq!(record.modal_coefficients, mirror.project_out(&map).unwrap());
    assert_eq!(record.ratios, mirror.area_ratios());
    // the mirror is left without coefficients
    assert!(mirror.segments[0].coefficients().is_empty());
}

fn test_record(var: f64, sum: f64, coefficient: f64) -> OpdRecord<Real> {
    OpdRecord {
        file: String::new(),
        var: Real(var),
        segment_sum_square: (0..7).map(|s| Real(sum + s as f64)).collect(),
        modal_coefficients: vec![Real(coefficient); 3500],
        ratios: vec![Real(1.0 / 7.0); 7],
    }
}

#[test]
fn averages_over_records() {
    let records = vec![test_record(4.0, 10.0, 1.0), test_record(12.0, 20.0, 2.0)];
    assert_eq!(records.mean_var(), Real(8.0));
    assert_eq!(records.mean_std(), Real(8.0f64.sqrt()));
    let sums = floats(&records.mean_segment_sum_square());
    assert_eq!(sums, vec![15.0, 16.0, 17.0, 18.0, 19.0, 20.0, 21.0]);
    let rss = floats(&records.mean_segment_rss());
    assert_eq!(rss, sums.iter().map(|x| x.sqrt()).collect::<Vec<f64>>());
    let squares = floats(&records.mean_modal_coefs_square());
    assert_eq!(squares, vec![2.5; 3500]);
}

#[test]
fn residual_power_of_a_record() {
    let record = test_record(0.0, 10.0, 2.0);
    let power = floats(&record.residual_power());
    assert_eq!(power.len(), 3500);
    for s in 0..7 {
        for j in 0..500 {
            let expected = (10.0 + s as f64 - 4.0 * (j + 1) as f64).abs();
            assert_eq!(power[s * 500 + j], expected);
        }
    }
    let some = floats(&glao_error_budget::record::residuals(&reals(&[1.0, 2.0, 3.0]), Real(6.0)));
    assert_eq!(some, vec![5.0, 1.0, 8.0]);
}

#[test]
fn averages_of_the_residual_power() {
    let records = vec![test_record(4.0, 10.0, 1.0), test_record(12.0, 20.0, 2.0)];
    let means = floats(&records.mean_segment_residual_sum_square());
    assert_eq!(means.len(), 3500);
    for s in 0..7 {
        for j in 0..500 {
            let n = (j + 1) as f64;
            let first = (10.0 + s as f64 - n).abs();
            let second = (20.0 + s as f64 - 4.0 * n).abs();
            assert_eq!(means[s * 500 + j], (first + second) / 2.0);
        }
    }
    let rss = floats(&records.mean_segment_residual_rss());
    assert_eq!(rss, means.iter().map(|x| x.sqrt()).collect::<Vec<f64>>());
}

#[test]
fn averages_over_no_record_are_undefined() {
    let records: Vec<OpdRecord<Real>> = Vec::new();
    assert!(records.mean_var().0.is_nan());
    assert!(records.mean_std().0.is_nan());
    assert!(records.mean_segment_sum_square().iter().all(|x| x.0.is_nan()));
    assert_eq!(records.mean_modal_coefs_square().len(), 3500);
}

#[test]
fn a_stored_basis_comes_back_bit_for_bit() {
    let kl = KarhunenLoeve {
        modes: reals(&[1.0, 2.0, 3.0]),
        n_mode: 3,
        mask: vec![true, false, true, false, false, true],
    };
    // the basis is stored as its three fields, one after the other
    let stored = bincode::serialize(&(floats(&kl.modes), kl.n_mode, &kl.mask)).unwrap();
    assert_eq!(stored.len(), 8 + 3 * 8 + 8 + 8 + 6);
    let (modes, n_mode, mask): (Vec<f64>, usize, Vec<bool>) =
        bincode::deserialize(&stored).unwrap();
    let back = KarhunenLoeve { modes: reals(&modes), n_mode, mask };
    assert_eq!(back.n_mode, 3);
    let bits = |xs: &[Real]| xs.iter().map(|x| x.0.to_bits()).collect::<Vec<u64>>();
    assert_eq!(bits(&back.modes), bits(&kl.modes));
    assert_eq!(back.mask, kl.mask);
    // three points selected for one point per mode: not the basis of a segment
    assert!(!back.is_valid());
}

#[test]
fn can_shape_tells_which_modes_can_be_chosen() {
    let mut segment = test_segment(0);
    // no coefficient yet: no mode can be chosen
    assert!(segment.can_shape(&[]));
    assert!(!segment.can_shape(&[0]));
    segment.coefficients = reals(&[2.0, 3.0]);
    assert!(segment.can_shape(&[0, 1, 1, 0]));
    assert!(!segment.can_shape(&[0, 2]));
    segment.coefficients = reals(&[2.0]);
    assert!(segment.can_shape(&[0]));
    assert!(!segment.can_shape(&[1]));
    let mut mirror = test_mirror();
    assert!(mirror.can_shape(None));
    assert!(mirror.can_shape(Some(&[])));
    assert!(!mirror.can_shape(Some(&[0])));
    for tagged in mirror.segments.iter_mut() {
        tagged.segment.coefficients = reals(&[1.0, 1.0]);
    }
    assert!(mirror.can_shape(Some(&[1, 0])));
    assert!(!mirror.can_shape(Some(&[2])));
    mirror.segments[6].segment.coefficients = reals(&[1.0]);
    assert!(!mirror.can_shape(Some(&[1])));
}

#[test]
fn is_valid_tells_whether_the_parts_agree() {
    let mut segment = test_segment(3);
    assert!(segment.is_valid());
    segment.mask[0] = true;
    assert!(!segment.is_valid());
    let mut segment = test_segment(3);
    segment.n_mode = 0;
    assert!(!segment.is_valid());
    let mut tagged = ASM::new(4, test_segment(3)).unwrap();
    assert!(tagged.is_valid());
    tagged.sid = 8;
    assert!(!tagged.is_valid());
    let mut mirror = test_mirror();
    assert!(mirror.is_valid());
    mirror.segments.swap(0, 1);
    assert!(!mirror.is_valid());
    mirror.segments.swap(0, 1);
    mirror.segments[5].segment.modes.pop();
    assert!(!mirror.is_valid());
    let mirror = ASMS { segments: test_mirror().segments.into_iter().take(6).collect() };
    assert!(!mirror.is_valid());
    let mut record = test_record(1.0, 1.0, 1.0);
    assert!(record.is_valid());
    record.modal_coefficients.pop();
    assert!(!record.is_valid());
    let mut record = test_record(1.0, 1.0, 1.0);
    record.segment_sum_square.push(Real(0.0));
    assert!(!record.is_valid());
}

#[test]
fn project() {
    let mut tagged: ASM<Real, Pinv> = ASM::from_kl(1, cosine_basis()).unwrap();
    let modes = tagged.modes().chunks(tagged.n_point()).nth(3).unwrap().to_vec();
    tagged.project(&modes).unwrap();
    println!("b: {:?}", &tagged.coefficients()[..5]);
    assert_eq!(tagged.coefficients().len(), 6);
    for (j, b) in tagged.coefficients().iter().enumerate() {
        let expected = if j == 3 { 0.5f64.sqrt() } else { 0.0 };
        assert!((b.0 - expected).abs() < 1e-12);
    }
}

#[test]
fn project_out() {
    let tagged: ASM<Real, Pinv> = ASM::from_kl(1, cosine_basis()).unwrap();
    let modes = tagged.modes().chunks(tagged.n_point()).nth(3).unwrap().to_vec();
    let b = tagged.project_out(&modes).unwrap();
    println!("b: {:?}", &b[..5]);
    assert_eq!(b.len(), 6);
    for (j, b) in b.iter().enumerate() {
        let expected = if j == 3 { 0.5f64.sqrt() } else { 0.0 };
        assert!((b.0 - expected).abs() < 1e-12);
    }
    assert!(tagged.coefficients().is_empty());
}

#[test]
fn least_square_out() {
    let tagged: ASM<Real, Pinv> = ASM::from_kl(1, cosine_basis()).unwrap();
    let modes = tagged.modes().chunks(tagged.n_point()).nth(3).unwrap().to_vec();
    let b = tagged.least_square_out(&modes).unwrap();
    println!("b: {:?}", &b[..5]);
    assert_eq!(b.len(), 6);
    for (j, b) in b.iter().enumerate() {
        let expected = if j == 3 { 1.0 } else { 0.0 };
        assert!((b.0 - expected).abs() < 1e-12);
    }
    assert!(tagged.coefficients().is_empty());
}

#[test]
fn asm_opd() {
    let opd = test_map();
    println!("{}/{}", opd.no_nan_opd().len(), 512 * 512);
    println!("mean: {:.0}nm", 1e9 * opd.mean().0);
    println!("std: {:.0}nm", 1e9 * opd.std_dev().0);
    assert_eq!(opd.no_nan_opd().len(), 1000);

    println!("Assembling the ASM segments ...");
    let mut asms = test_mirror();

    println!("Projection the opd on the ASM segments ...");
    let opd_map = opd.map();
    asms.segments.par_iter_mut().for_each(|tagged| {
        tagged.project(opd_map).unwrap();
    });
    let joined: Vec<Real> =
        asms.segments.iter().flat_map(|tagged| tagged.coefficients().to_vec()).collect();
    assert_eq!(joined, asms.project_out(&opd).unwrap());

    let vars: Vec<_> = asms
        .segments
        .iter()
        .map(|tagged| tagged.coefficients().iter().map(|x| x.0 * x.0).sum::<f64>())
        .collect();
    let stds: Vec<_> =
        asms.segments.iter().map(|tagged| 1e9 * opd.masked_rms(tagged.mask()).0).collect();
    println!("Segment WFE STD: {:.0?}nm", stds);
    println!(
        "Segment WFE RMS: {:.0?}nm",
        vars.iter().map(|x| 1e9 * x.sqrt()).collect::<Vec<_>>()
    );
    let var = asms
        .segments
        .iter()
        .map(|tagged| tagged.coefficients().iter().skip(1).map(|x| x.0 * x.0).sum::<f64>())
        .sum::<f64>();
    println!("WFE RMS: {:.0}nm/{:.0}nm", opd.rms().0 * 1e9, var.sqrt() * 1e9);
    assert!(stds.iter().all(|x| x.is_finite() && *x > 0.0));
    assert!(var.is_finite());
}
