use ising_wolff::ising::Ising2D;
use ising_wolff::machines::{to_sigma, RBM};
use ising_wolff::sampler::{RandomSource, WolffSampler};
use ising_wolff::estimator::SmatrixBuilder;
use ising_wolff::SimError;
use ising_wolff::ising::Model;

#[test]
fn machine_dimensions_2x2() {
    let m = Ising2D { n1: 2, n2: 2 };
    let rbm = RBM::from_ising(&m);
    assert_eq!(rbm.get_num_visible(), 4);
    assert_eq!(rbm.get_num_hidden(), 4);
    assert_eq!(rbm.get_dim(), 16);
    assert_eq!(rbm.get_dim_full(), 24);
}

#[test]
fn bond_sums_and_derivatives_two_site_chain() {
    // 1x2 grid: two sites, one bond
    let m = Ising2D { n1: 1, n2: 2 };
    let rbm = RBM::from_ising(&m);
    assert_eq!(rbm.get_num_visible(), 2);
    assert_eq!(rbm.get_num_hidden(), 1);

    let aligned: Vec<i8> = vec![1, 1];
    assert_eq!(rbm.bond_sums(&aligned), vec![2]);
    assert_eq!(rbm.partial_der(&aligned), vec![1, 1]);
    assert_eq!(rbm.partial_der_full(&aligned), vec![1, 1, 1, 1, 1]);

    let split: Vec<i8> = vec![1, -1];
    assert_eq!(rbm.bond_sums(&split), vec![0]);
    assert_eq!(rbm.partial_der(&split), vec![0, 0]);
    assert_eq!(rbm.partial_der_full(&split), vec![1, -1, 0, 0, 0]);

    let down: Vec<i8> = vec![-1, -1];
    assert_eq!(rbm.bond_sums(&down), vec![-2]);
    assert_eq!(rbm.partial_der(&down), vec![1, 1]);
}

#[test]
fn builder_sums_two_site_chain() {
    let m = Ising2D { n1: 1, n2: 2 };
    let rbm = RBM::from_ising(&m);
    // patterns: [1, 1] for the aligned sample, [0, 0] for the split one
    let samples: Vec<Vec<i8>> = vec![vec![1, 1], vec![1, -1]];
    let b = SmatrixBuilder::construct_from_samples(&rbm, &samples).unwrap();
    assert_eq!(b.nsmp, 2);
    assert_eq!(b.dim, 2);
    assert_eq!(b.g, vec![1, 1]);
    assert_eq!(b.g2, vec![vec![1, 1], vec![1, 1]]);
    // smat = nsmp * g2 - g g^T
    let s = b.get_smat();
    assert_eq!(s, vec![vec![1, 1], vec![1, 1]]);
}

#[test]
fn builder_full_layout_two_site_chain() {
    let m = Ising2D { n1: 1, n2: 2 };
    let rbm = RBM::from_ising(&m);
    // full patterns: [1, 1, 1, 1, 1] and [1, -1, 0, 0, 0]
    let samples: Vec<Vec<i8>> = vec![vec![1, 1], vec![1, -1]];
    let b = SmatrixBuilder::construct_full_from_samples(&rbm, &samples).unwrap();
    assert_eq!(b.dim, 5);
    assert_eq!(b.g, vec![2, 0, 1, 1, 1]);
    assert_eq!(b.g2[0], vec![2, 0, 1, 1, 1]);
    assert_eq!(b.g2[1], vec![0, 2, 1, 1, 1]);
    assert_eq!(b.g2[2], vec![1, 1, 1, 1, 1]);
    let s = b.get_smat();
    // entry (0,0): 2*2 - 2*2 = 0; (1,1): 2*2 - 0 = 4; (0,1): 0 - 0 = 0
    assert_eq!(s[0][0], 0);
    assert_eq!(s[1][1], 4);
    assert_eq!(s[0][1], 0);
}

#[test]
fn builder_rejects_tiny_batches() {
    let m = Ising2D { n1: 1, n2: 2 };
    let rbm = RBM::from_ising(&m);
    let none: Vec<Vec<i8>> = Vec::new();
    assert!(matches!(
        SmatrixBuilder::construct_from_samples(&rbm, &none),
        Err(SimError::InvalidParameter)
    ));
    let one: Vec<Vec<i8>> = vec![vec![1, 1]];
    assert!(matches!(
        SmatrixBuilder::construct_full_from_samples(&rbm, &one),
        Err(SimError::InvalidParameter)
    ));
}

fn sampled_batch(n1: u32, n2: u32, num: u32, den: u32, count: usize) -> Vec<Vec<i8>> {
    let m = Ising2D { n1, n2 };
    let mut ws = WolffSampler::new(m).unwrap();
    let mut src = RandomSource::ratio(num, den).unwrap();
    for _ in 0..50 {
        ws.sweep(&mut src);
    }
    let mut batch = Vec::new();
    for _ in 0..count {
        batch.push(ws.getConf().clone());
        ws.sweep(&mut src);
    }
    batch
}

#[test]
fn smatrix_is_symmetric() {
    let m = Ising2D { n1: 3, n2: 3 };
    let rbm = RBM::from_ising(&m);
    let batch = sampled_batch(3, 3, 2, 5, 40);
    let b = SmatrixBuilder::construct_full_from_samples(&rbm, &batch).unwrap();
    let s = b.get_smat();
    let dim = b.dim as usize;
    for a in 0..dim {
        for c in 0..dim {
            assert_eq!(s[a][c], s[c][a]);
        }
    }
}

#[test]
fn smatrix_is_positive_semidefinite() {
    // scale the integer S-matrix back to floating point and check its
    // eigenvalues carry no more than numerical noise below zero
    let m = Ising2D { n1: 2, n2: 3 };
    let rbm = RBM::from_ising(&m);
    let batch = sampled_batch(2, 3, 1, 3, 60);
    let b = SmatrixBuilder::construct_full_from_samples(&rbm, &batch).unwrap();
    let s = b.get_smat();
    let dim = b.dim as usize;
    let n = rbm.get_num_visible() as usize;
    let beta: f64 = 0.44;
    let w = beta.exp().acosh() / 2.0;
    let c = (2.0 * w).tanh();
    let scale = |e: usize| -> f64 { if e < n { 1.0 } else { c } };
    let nsmp = b.nsmp as f64;
    let mat = nalgebra::DMatrix::<f64>::from_fn(dim, dim, |a, bb| {
        scale(a) * scale(bb) * (s[a][bb] as f64) / (nsmp * nsmp)
    });
    let eigs = mat.symmetric_eigen().eigenvalues;
    for ev in eigs.iter() {
        assert!(*ev >= -1e-8, "negative eigenvalue {}", ev);
    }
}

#[test]
fn coefficients_normalize_to_one() {
    // the amplitude of configuration k is prod_j 2 cosh(w * t_j); the
    // squared coefficients over all 2^N configurations renormalize to 1
    let m = Ising2D { n1: 2, n2: 2 };
    let rbm = RBM::from_ising(&m);
    let nvis = rbm.get_num_visible();
    let beta: f64 = 0.44;
    let w = beta.exp().acosh() / 2.0;
    let dim: u32 = 1 << nvis;
    let mut coeffs: Vec<f64> = Vec::new();
    for k in 0..dim {
        let sigma = to_sigma(nvis, k);
        let mut c: f64 = 1.0;
        for &t in rbm.bond_sums(&sigma).iter() {
            c *= 2.0 * (w * (t as f64)).cosh();
        }
        coeffs.push(c);
    }
    let sum_sq: f64 = coeffs.iter().map(|c| c * c).sum();
    assert!(sum_sq.is_finite() && sum_sq > 0.0);
    let norm = sum_sq.sqrt();
    let renorm: f64 = coeffs.iter().map(|c| (c / norm) * (c / norm)).sum();
    assert!((renorm - 1.0).abs() < 1e-9);
}

#[test]
fn coefficients_follow_boltzmann_weights() {
    // the analytic weights make coefficient^2 proportional to the
    // Boltzmann factor exp(-beta * E) of the same configuration
    let m = Ising2D { n1: 2, n2: 2 };
    let rbm = RBM::from_ising(&m);
    let beta: f64 = 0.7;
    let w = beta.exp().acosh() / 2.0;
    let mut ratios: Vec<f64> = Vec::new();
    for k in 0..16u32 {
        let sigma = to_sigma(4, k);
        let mut c: f64 = 1.0;
        for &t in rbm.bond_sums(&sigma).iter() {
            c *= 2.0 * (w * (t as f64)).cosh();
        }
        let e = m.energy(&sigma) as f64;
        ratios.push(c * c / (-beta * e).exp());
    }
    for r in ratios.iter() {
        assert!((r / ratios[0] - 1.0).abs() < 1e-9);
    }
}
