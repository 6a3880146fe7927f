use newton::{attempt, evaluate, find_root, newtons, slope, Attempt, Error, Scalar, Search};
use num::complex::Complex;

#[derive(Clone, Copy, Debug, PartialEq)]
struct Number(Complex<f64>);

impl Scalar for Number {
    fn plus(self, rhs: Self) -> Self {
        Number(self.0 + rhs.0)
    }

    fn minus(self, rhs: Self) -> Self {
        Number(self.0 - rhs.0)
    }

    fn times(self, rhs: Self) -> Self {
        Number(self.0 * rhs.0)
    }

    fn over(self, rhs: Self) -> Self {
        Number(self.0 / rhs.0)
    }

    fn is_negligible(self) -> bool {
        num::abs(self.0.re) + num::abs(self.0.im) < 0.000_000_000_1
    }

    fn is_zero(self) -> bool {
        self.0.re == 0.0 && self.0.im == 0.0
    }

    fn from_decimal(text: &str) -> Option<Self> {
        text.parse::<f64>().ok().map(|c| Number(Complex::new(c, 0.0)))
    }
}

fn number(re: f64, im: f64) -> Number {
    Number(Complex::new(re, im))
}

fn polynomial(coefficients: &[f64]) -> Vec<Number> {
    coefficients.iter().map(|c| number(*c, 0.0)).collect()
}

fn value_at(coefficients: &[Number], x: Complex<f64>) -> Complex<f64> {
    coefficients.iter().fold(Complex::new(0.0, 0.0), |sum, c| sum * x + c.0)
}

fn l1(z: Complex<f64>) -> f64 {
    z.re.abs() + z.im.abs()
}

fn roots_of(coefficients: &[f64], guess: Number, iterations: usize) -> Vec<Number> {
    match newtons(polynomial(coefficients), guess, iterations) {
        Ok(roots) => roots,
        Err(_) => panic!("the search failed"),
    }
}

#[test]
fn quadratic_gives_both_known_roots() {
    let roots = roots_of(&[1.0, -5.0, 6.0], number(1.0, 1.0), 20);
    assert_eq!(roots.len(), 2);
    assert_eq!(format!("{:.5}", roots[0].0.re), "2.00000");
    assert_eq!(format!("{:.5}", roots[1].0.re), "3.00000");
    assert_eq!(format!("{:.5}", roots[0].0.im.abs()), "0.00000");
    assert_eq!(format!("{:.5}", roots[1].0.im.abs()), "0.00000");
    assert_eq!(format!("{:.5}", roots[0].0), "2.00000+0.00000i");
}

#[test]
fn search_near_a_root_converges_to_it() {
    let p = polynomial(&[1.0, -5.0, 6.0]);
    for (guess, known) in [(2.9, 3.0), (3.2, 3.0), (2.1, 2.0), (1.8, 2.0)] {
        match find_root(&p, number(guess, 0.0), 20) {
            Search::Found { root, quotient } => {
                assert_eq!(format!("{:.5}", root.0.re), format!("{:.5}", known));
                assert!(l1(value_at(&p, root.0)) < 1e-10);
                assert_eq!(quotient.len(), 2);
            }
            _ => panic!("no root from {}", guess),
        }
    }
}

#[test]
fn found_root_passes_the_threshold() {
    let p = polynomial(&[1.0, 0.0, -30.0, -36.0]);
    match find_root(&p, number(1.0, 1.0), 50) {
        Search::Found { root, .. } => {
            assert!(l1(value_at(&p, root.0)) < 1e-10);
            assert!(Number(value_at(&p, root.0)).is_negligible());
            assert!(!root.is_negligible());
        }
        _ => panic!("no root"),
    }
}

#[test]
fn deflated_quotient_times_linear_factor_is_the_polynomial() {
    let p = polynomial(&[1.0, -6.0, 11.0, -6.0]);
    let (r, q) = match find_root(&p, number(1.0, 1.0), 50) {
        Search::Found { root, quotient } => (root.0, quotient),
        _ => panic!("no root"),
    };
    assert_eq!(q.len(), 3);
    for x in [
        Complex::new(0.0, 0.0),
        Complex::new(1.5, 0.0),
        Complex::new(-2.0, 3.0),
        Complex::new(4.0, -1.0),
        Complex::new(10.0, 10.0),
    ] {
        let whole = value_at(&p, x);
        let product = (x - r) * value_at(&q, x);
        assert!(l1(whole - product) < 1e-8, "at {}: {} and {}", x, whole, product);
    }
}

#[test]
fn each_degree_gives_as_many_roots() {
    assert_eq!(roots_of(&[2.0, -4.0], number(1.0, 1.0), 20).len(), 1);
    assert_eq!(roots_of(&[1.0, -5.0, 6.0], number(1.0, 1.0), 20).len(), 2);
    assert_eq!(roots_of(&[1.0, -6.0, 11.0, -6.0], number(1.0, 1.0), 50).len(), 3);
    assert_eq!(roots_of(&[1.0, -10.0, 35.0, -50.0, 24.0], number(1.0, 1.0), 50).len(), 4);
}

#[test]
fn every_root_of_the_cubic_is_found_once() {
    let roots = roots_of(&[1.0, -6.0, 11.0, -6.0], number(1.0, 1.0), 50);
    let mut shown: Vec<String> = roots.iter().map(|r| format!("{:.5}", r.0.re)).collect();
    shown.sort();
    assert_eq!(shown, vec!["1.00000", "2.00000", "3.00000"]);
    for r in &roots {
        assert!(r.0.im.abs() < 1e-5);
    }
}

#[test]
fn complex_roots_are_found() {
    let roots = roots_of(&[1.0, 0.0, 1.0], number(1.0, 1.0), 20);
    assert_eq!(roots.len(), 2);
    assert!((roots[0].0 - Complex::new(0.0, 1.0)).norm() < 1e-5);
    assert!((roots[1].0 - Complex::new(0.0, -1.0)).norm() < 1e-5);
    assert_eq!(format!("{:.5}", roots[1].0), "0.00000-1.00000i");
}

#[test]
fn one_iteration_is_not_enough() {
    match newtons(polynomial(&[1.0, -5.0, 6.0]), number(1.0, 1.0), 1) {
        Err(Error::NonConvergence { roots }) => assert!(roots.is_empty()),
        _ => panic!("expected the search to run out of attempts"),
    }
}

#[test]
fn no_iterations_fail_at_once() {
    match newtons(polynomial(&[1.0, -5.0, 6.0]), number(2.0, 0.0), 0) {
        Err(Error::NonConvergence { roots }) => assert!(roots.is_empty()),
        _ => panic!("expected the search to run out of attempts"),
    }
    assert!(matches!(find_root(&polynomial(&[1.0, -2.0]), number(2.0, 0.0), 0), Search::Exhausted));
}

#[test]
fn failure_carries_the_roots_found_before() {
    // x^3 - x^2 + x - 1 = (x - 1)(x^2 + 1): on the real axis only the first pass can converge.
    match newtons(polynomial(&[1.0, -1.0, 1.0, -1.0]), number(2.0, 0.0), 40) {
        Err(Error::NonConvergence { roots }) => {
            assert_eq!(roots.len(), 1);
            assert_eq!(format!("{:.5}", roots[0].0), "1.00000+0.00000i");
        }
        _ => panic!("expected the second pass to run out of attempts"),
    }
}

#[test]
fn zero_slope_is_reported() {
    match newtons(polynomial(&[1.0, 0.0, 1.0]), number(0.0, 0.0), 20) {
        Err(Error::DegenerateDerivative { roots }) => assert!(roots.is_empty()),
        _ => panic!("expected a zero slope"),
    }
    assert!(matches!(
        attempt(&polynomial(&[1.0, 0.0, 1.0]), number(0.0, 0.0), &mut Vec::new()),
        Attempt::Degenerate
    ));
}

#[test]
fn zero_slope_after_a_root_keeps_the_root() {
    // From 1 the first pass converges at once; on x^2 + 1 the update of 1 is 0, and there
    // the slope is 0.
    match newtons(polynomial(&[1.0, -1.0, 1.0, -1.0]), number(1.0, 0.0), 20) {
        Err(Error::DegenerateDerivative { roots }) => {
            assert_eq!(roots, vec![number(1.0, 0.0)]);
        }
        _ => panic!("expected a zero slope in the second pass"),
    }
}

#[test]
fn fewer_than_two_coefficients_are_no_polynomial() {
    assert!(matches!(
        newtons(Vec::<Number>::new(), number(1.0, 1.0), 20),
        Err(Error::TooFewCoefficients { count: 0 })
    ));
    assert!(matches!(
        newtons(polynomial(&[3.0]), number(1.0, 1.0), 20),
        Err(Error::TooFewCoefficients { count: 1 })
    ));
}

#[test]
fn evaluation_twice_gives_the_same() {
    let p = polynomial(&[1.0, 0.0, -30.0, -36.0]);
    let x = number(0.3, -1.7);
    let mut first = Vec::new();
    let mut second = vec![number(9.0, 9.0)];
    evaluate(&p, x, &mut first);
    evaluate(&p, x, &mut second);
    assert_eq!(first, second);
    evaluate(&p, x, &mut first);
    assert_eq!(first, second);
    assert_eq!(first.len(), 4);
}

#[test]
fn horner_partial_values() {
    let mut buffer = Vec::new();
    evaluate(&polynomial(&[1.0, -5.0, 6.0]), number(2.0, 0.0), &mut buffer);
    assert_eq!(buffer, polynomial(&[1.0, -3.0, 0.0]));
    evaluate(&polynomial(&[1.0, -5.0, 6.0]), number(0.0, 1.0), &mut buffer);
    assert_eq!(buffer, vec![number(1.0, 0.0), number(-5.0, 1.0), number(5.0, -5.0)]);
    evaluate(&Vec::new(), number(2.0, 0.0), &mut buffer);
    assert!(buffer.is_empty());
    evaluate(&polynomial(&[7.0]), number(2.0, 0.0), &mut buffer);
    assert_eq!(buffer, polynomial(&[7.0]));
}

#[test]
fn slope_by_second_division() {
    // x^2 - 5x + 6 has the slope 2x - 5.
    assert_eq!(slope(&polynomial(&[1.0, -3.0]), number(2.0, 0.0)), number(-1.0, 0.0));
    // x^3 - 30x - 36 at 4: the quotient is x^2 + 4x - 14, the slope 3 * 16 - 30.
    assert_eq!(slope(&polynomial(&[1.0, 4.0, -14.0]), number(4.0, 0.0)), number(18.0, 0.0));
    assert_eq!(slope(&polynomial(&[5.0]), number(4.0, 0.0)), number(5.0, 0.0));
}

#[test]
fn one_attempt_is_one_newton_update() {
    let p = polynomial(&[1.0, -5.0, 6.0]);
    let mut buffer = Vec::new();
    match attempt(&p, number(1.0, 0.0), &mut buffer) {
        Attempt::Moved(next) => assert_eq!(next, number(1.0 - 2.0 / -3.0, 0.0)),
        _ => panic!("expected an update"),
    }
    match attempt(&p, number(3.0, 0.0), &mut buffer) {
        Attempt::Converged => assert_eq!(buffer, polynomial(&[1.0, -2.0])),
        _ => panic!("expected convergence"),
    }
}

#[test]
fn linear_polynomial_gives_its_root() {
    for (a, b) in [(2.0, -4.0), (1.0, 3.0), (-4.0, 1.0), (0.5, 0.25)] {
        let roots = roots_of(&[a, b], number(1.0, 1.0), 20);
        assert_eq!(roots.len(), 1);
        assert!((roots[0].0 - Complex::new(-b / a, 0.0)).norm() < 1e-10);
    }
    match find_root(&polynomial(&[2.0, -4.0]), number(1.0, 1.0), 2) {
        Search::Found { root, quotient } => {
            assert_eq!(root, number(2.0, 0.0));
            assert_eq!(quotient, polynomial(&[2.0]));
        }
        _ => panic!("two attempts are enough for a line"),
    }
    assert!(matches!(
        find_root(&polynomial(&[2.0, -4.0]), number(1.0, 1.0), 1),
        Search::Exhausted
    ));
}

#[test]
fn every_pass_starts_from_the_guess() {
    // With one attempt per pass a pass converges only where the guess itself is a root.
    let roots = roots_of(&[1.0, -4.0, 4.0], number(2.0, 0.0), 1);
    assert_eq!(roots, vec![number(2.0, 0.0), number(2.0, 0.0)]);
}
