use fem1d::rational::Rat;
use fem1d::base_function::{BaseFunction, SimpleBaseFunction};
use fem1d::fem::{solve_system, ComputedFunction, MaterialVibration, UnitFluxProblem};

fn r(n: i64, d: i64) -> Rat {
    Rat::new(n, d)
}

fn hat(index: usize, n: usize) -> SimpleBaseFunction {
    SimpleBaseFunction::new(index, n, r(0, 1), r(2, 1))
}

#[test]
fn basis_locality() {
    // n = 2 on [0, 2): h = 1, node position 1
    let b = hat(1, 2);
    assert!(b.regular(&r(1, 1)).unwrap().equal(&r(1, 1)));
    assert!(b.regular(&r(0, 1)).unwrap().equal(&r(0, 1)));
    assert!(b.regular(&r(2, 1)).unwrap().equal(&r(0, 1)));
    assert!(b.regular(&r(5, 2)).unwrap().equal(&r(0, 1)));
    assert!(b.regular(&r(-1, 2)).unwrap().equal(&r(0, 1)));
    assert!(b.regular(&r(3, 2)).unwrap().equal(&r(1, 2)));
}

#[test]
fn basis_derivative_sign() {
    // n = 4 on [0, 2): h = 1/2, index 1 peaks at 1/2
    let b = hat(1, 4);
    assert!(b.derivative(&r(3, 8)).unwrap().equal(&r(2, 1)));
    assert!(b.derivative(&r(5, 8)).unwrap().equal(&r(-2, 1)));
    // the node itself resolves to the rising half
    assert!(b.derivative(&r(1, 2)).unwrap().equal(&r(2, 1)));
    assert!(b.derivative(&r(2, 1)).unwrap().equal(&r(0, 1)));
}

#[test]
fn basis_support() {
    let b = hat(1, 4);
    let (lo, hi) = b.non_zero_range().unwrap();
    assert!(lo.equal(&r(0, 1)));
    assert!(hi.equal(&r(1, 1)));
}

#[test]
fn partition_of_unity_samples() {
    // all nodes 0..=n present (both boundary flags false)
    let n = 4usize;
    for (xn, xd) in [(3i64, 8i64), (1, 1), (7, 4), (1, 8)] {
        let x = r(xn, xd);
        let mut sum = r(0, 1);
        for i in 0..=n {
            let b = hat(i, n);
            sum = sum.add(&b.regular(&x).unwrap()).unwrap();
        }
        assert!(sum.equal(&r(1, 1)));
    }
}

#[test]
fn solver_solves_and_checks() {
    let a = vec![vec![r(1, 1), r(1, 1)], vec![r(1, 1), r(-1, 1)]];
    let b = vec![r(2, 1), r(0, 1)];
    let x = solve_system(&a, &b).unwrap();
    assert!(x[0].equal(&r(1, 1)));
    assert!(x[1].equal(&r(1, 1)));
}

#[test]
fn solver_reports_singular_matrix() {
    let a = vec![vec![r(0, 1)]];
    let b = vec![r(1, 1)];
    assert!(solve_system(&a, &b).is_none());
}

#[test]
fn get_bases_respects_boundary_flags() {
    // left pinned, right free: nodes 1..=n
    let problem = UnitFluxProblem::new(r(0, 1), r(2, 1));
    let bases = ComputedFunction::<SimpleBaseFunction>::get_bases(&problem, 4);
    assert_eq!(bases.len(), 4);
    let (lo0, hi0) = bases[0].non_zero_range().unwrap();
    assert!(lo0.equal(&r(0, 1)));
    assert!(hi0.equal(&r(1, 1)));
    let (lo3, hi3) = bases[3].non_zero_range().unwrap();
    assert!(lo3.equal(&r(3, 2)));
    assert!(hi3.equal(&r(5, 2)));
}

#[test]
fn unit_flux_solution_is_the_ramp() {
    // -u'' = 0, u(0) = 0, unit flux at 2: the exact solution is u(x) = x,
    // which the hat basis reproduces exactly
    let problem = UnitFluxProblem::new(r(0, 1), r(2, 1));
    let cf = ComputedFunction::<SimpleBaseFunction>::find_solution(&problem, 4).unwrap();
    assert!(cf.evalute(&r(1, 2)).unwrap().equal(&r(1, 2)));
    assert!(cf.evalute(&r(5, 4)).unwrap().equal(&r(5, 4)));
    assert!(cf.evalute(&r(2, 1)).unwrap().equal(&r(2, 1)));
    assert!(cf.evalute(&r(0, 1)).unwrap().equal(&r(0, 1)));
    // outside the union of supports the approximation vanishes
    assert!(cf.evalute(&r(4, 1)).unwrap().equal(&r(0, 1)));
}

#[test]
fn unit_flux_solution_refines() {
    let problem = UnitFluxProblem::new(r(0, 1), r(2, 1));
    for n in [1usize, 2, 3, 5] {
        let cf = ComputedFunction::<SimpleBaseFunction>::find_solution(&problem, n).unwrap();
        assert!(cf.evalute(&r(1, 1)).unwrap().equal(&r(1, 1)));
    }
}

#[test]
fn material_vibration_data() {
    let p = MaterialVibration;
    let (lo, hi) = p.range();
    assert!(lo.equal(&r(0, 1)));
    assert!(hi.equal(&r(2, 1)));
    assert!(p.left_zeros());
    assert!(!p.right_zeros());
}
