use newton::{newtons, parse_poly, Error, Scalar, DEFAULT_ITERATIONS};
use num::complex::Complex;

#[derive(Clone, Copy, Debug, PartialEq)]
struct Number(Complex<f64>);

impl Scalar for Number {
    fn plus(self, rhs: Self) -> Self {
        Number(self.0 + rhs.0)
    }

    fn minus(self, rhs: Self) -> Self {
        Number(self.0 - rhs.0)
    }

    fn times(self, rhs: Self) -> Self {
        Number(self.0 * rhs.0)
    }

    fn over(self, rhs: Self) -> Self {
        Number(self.0 / rhs.0)
    }

    fn is_negligible(self) -> bool {
        num::abs(self.0.re) + num::abs(self.0.im) < 0.000_000_000_1
    }

    fn is_zero(self) -> bool {
        self.0.re == 0.0 && self.0.im == 0.0
    }

    fn from_decimal(text: &str) -> Option<Self> {
        text.parse::<f64>().ok().map(|c| Number(Complex::new(c, 0.0)))
    }
}

fn parsed(text: &str) -> Result<Vec<f64>, Error<Number>> {
    parse_poly::<Number>(text).map(|p| {
        p.iter()
            .map(|c| {
                assert_eq!(c.0.im, 0.0);
                c.0.re
            })
            .collect()
    })
}

#[test]
fn coefficients_in_order() {
    assert_eq!(parsed("1,-5,6").ok(), Some(vec![1.0, -5.0, 6.0]));
    assert_eq!(parsed("1,0,-30,-36").ok(), Some(vec![1.0, 0.0, -30.0, -36.0]));
    assert_eq!(parsed("2.5,1e3").ok(), Some(vec![2.5, 1000.0]));
    assert_eq!(parsed("-0.125,+4,.5").ok(), Some(vec![-0.125, 4.0, 0.5]));
}

#[test]
fn a_field_that_is_no_number() {
    assert!(matches!(parsed("1,x,3"), Err(Error::BadCoefficient { index: 1 })));
    assert!(matches!(parsed("a,b"), Err(Error::BadCoefficient { index: 0 })));
    assert!(matches!(parsed("1,2,three"), Err(Error::BadCoefficient { index: 2 })));
    assert!(matches!(parsed("1, 2"), Err(Error::BadCoefficient { index: 1 })));
    assert!(matches!(parsed("1;2"), Err(Error::BadCoefficient { index: 0 })));
    assert!(matches!(parsed("1,2é"), Err(Error::BadCoefficient { index: 1 })));
}

#[test]
fn empty_fields_are_no_numbers() {
    assert!(matches!(parsed(""), Err(Error::BadCoefficient { index: 0 })));
    assert!(matches!(parsed(","), Err(Error::BadCoefficient { index: 0 })));
    assert!(matches!(parsed("1,,2"), Err(Error::BadCoefficient { index: 1 })));
    assert!(matches!(parsed("1,2,"), Err(Error::BadCoefficient { index: 2 })));
    assert!(matches!(parsed(",1,2"), Err(Error::BadCoefficient { index: 0 })));
}

#[test]
fn one_coefficient_is_too_few() {
    assert!(matches!(parsed("7"), Err(Error::TooFewCoefficients { count: 1 })));
    assert!(matches!(parsed("-1.5"), Err(Error::TooFewCoefficients { count: 1 })));
}

#[test]
fn text_beyond_ascii_is_split_by_characters() {
    assert!(matches!(parsed("é,1,2"), Err(Error::BadCoefficient { index: 0 })));
    assert!(matches!(parsed("1,2,ü"), Err(Error::BadCoefficient { index: 2 })));
}

#[test]
fn default_budget() {
    assert_eq!(DEFAULT_ITERATIONS, 20);
}

#[test]
fn from_text_to_roots() {
    let polynomial = match parse_poly::<Number>("1,-5,6") {
        Ok(polynomial) => polynomial,
        Err(_) => panic!("three numbers"),
    };
    let guess = Number(Complex::new(1.0, 1.0));
    match newtons(polynomial, guess, DEFAULT_ITERATIONS) {
        Ok(roots) => {
            let shown: Vec<String> = roots.iter().map(|r| format!("{:.5}", r.0.re)).collect();
            assert_eq!(shown, vec!["2.00000", "3.00000"]);
        }
        Err(_) => panic!("twenty attempts are enough"),
    }
}
