use newton::{find_root, newtons, Error, Scalar, Search};

#[derive(Clone, Copy, Debug, PartialEq)]
struct Real(f64);

impl Scalar for Real {
    fn plus(self, rhs: Self) -> Self {
        Real(self.0 + rhs.0)
    }

    fn minus(self, rhs: Self) -> Self {
        Real(self.0 - rhs.0)
    }

    fn times(self, rhs: Self) -> Self {
        Real(self.0 * rhs.0)
    }

    fn over(self, rhs: Self) -> Self {
        Real(self.0 / rhs.0)
    }

    fn is_negligible(self) -> bool {
        self.0.abs() < 1e-10
    }

    fn is_zero(self) -> bool {
        self.0 == 0.0
    }

    fn from_decimal(text: &str) -> Option<Self> {
        text.parse::<f64>().ok().map(Real)
    }
}

#[test]
fn cubic_from_four_goes_to_six() {
    let p = vec![Real(1.0), Real(0.0), Real(-30.0), Real(-36.0)];
    match find_root(&p, Real(4.0), 20) {
        Search::Found { root, quotient } => {
            assert!((root.0 - 6.0).abs() < 1e-9);
            let f = ((root.0 * root.0) - 30.0) * root.0 - 36.0;
            assert!(f.abs() < 1e-10);
            assert_eq!(quotient.len(), 3);
        }
        _ => panic!("no root from 4"),
    }
    assert_eq!(6.0 * 6.0 * 6.0 - 30.0 * 6.0 - 36.0, 0.0);
}

#[test]
fn no_real_root_is_no_convergence() {
    match newtons(vec![Real(1.0), Real(0.0), Real(1.0)], Real(2.0), 20) {
        Err(Error::NonConvergence { roots }) => assert!(roots.is_empty()),
        _ => panic!("x^2 + 1 has no root on the real line"),
    }
}

#[test]
fn exact_whole_number_roots() {
    match newtons(vec![Real(1.0), Real(-3.0)], Real(3.0), 1) {
        Ok(roots) => assert_eq!(roots, vec![Real(3.0)]),
        Err(_) => panic!("3 is a root"),
    }
}
