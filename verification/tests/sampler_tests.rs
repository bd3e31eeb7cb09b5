use ising_wolff::ising::Ising2D;
use ising_wolff::sampler::{RandomSource, WolffSampler};
use ising_wolff::SimError;

#[test]
fn all_reject_source_flips_only_the_seed() {
    // activation probability 0 (the beta = 0 limit): the cluster is the seed
    let m = Ising2D { n1: 3, n2: 3 };
    let mut ws = WolffSampler::from_conf(m, vec![1; 9]).unwrap();
    let mut src = RandomSource::scripted(vec![2], Vec::new());
    let cluster = ws.sweep(&mut src);
    assert_eq!(cluster, vec![2]);
    let conf = ws.getConf();
    for s in 0..9usize {
        assert_eq!(conf[s], if s == 2 { -1 } else { 1 });
    }
}

#[test]
fn zero_ratio_source_flips_only_the_seed() {
    let m = Ising2D { n1: 4, n2: 4 };
    let mut ws = WolffSampler::from_conf(m, vec![1; 16]).unwrap();
    let mut src = RandomSource::ratio(0, 1).unwrap();
    let cluster = ws.sweep(&mut src);
    assert_eq!(cluster.len(), 1);
}

#[test]
fn full_ratio_source_flips_aligned_lattice() {
    // activation probability 1 (the large-beta limit): the whole aligned
    // 2x2 lattice is one cluster
    let m = Ising2D { n1: 2, n2: 2 };
    let mut ws = WolffSampler::from_conf(m, vec![1, 1, 1, 1]).unwrap();
    let mut src = RandomSource::ratio(1, 1).unwrap();
    let cluster = ws.sweep(&mut src);
    assert_eq!(cluster.len(), 4);
    assert_eq!(ws.getConf(), &vec![-1, -1, -1, -1]);
}

#[test]
fn full_ratio_source_respects_alignment() {
    // an anti-aligned spin blocks the cluster even at activation 1
    let m = Ising2D { n1: 1, n2: 3 };
    let mut ws = WolffSampler::from_conf(m, vec![1, 1, -1]).unwrap();
    let mut src = RandomSource::scripted(vec![0], vec![true, true, true, true]);
    let cluster = ws.sweep(&mut src);
    assert_eq!(cluster, vec![0, 1]);
    assert_eq!(ws.getConf(), &vec![-1, -1, -1]);
}

#[test]
fn scripted_sweep_is_reproducible() {
    // a fixed draw sequence pins the exact cluster and flip
    let m = Ising2D { n1: 2, n2: 2 };
    let mut ws = WolffSampler::from_conf(m, vec![1, 1, 1, 1]).unwrap();
    // seed 0; accept the bond to site 1, reject the bond to site 2, then the
    // script is exhausted, so the bond from 1 to 3 is rejected too
    let mut src = RandomSource::scripted(vec![0], vec![true, false]);
    let cluster = ws.sweep(&mut src);
    assert_eq!(cluster, vec![0, 1]);
    assert_eq!(ws.getConf(), &vec![-1, -1, 1, 1]);

    // the same script on the same start gives the same outcome again
    let mut ws2 = WolffSampler::from_conf(m, vec![1, 1, 1, 1]).unwrap();
    let mut src2 = RandomSource::scripted(vec![0], vec![true, false]);
    let cluster2 = ws2.sweep(&mut src2);
    assert_eq!(cluster2, cluster);
    assert_eq!(ws2.getConf(), ws.getConf());
}

#[test]
fn scripted_seed_reduced_modulo_size() {
    let m = Ising2D { n1: 3, n2: 3 };
    let mut ws = WolffSampler::from_conf(m, vec![1; 9]).unwrap();
    let mut src = RandomSource::scripted(vec![11], Vec::new());
    let cluster = ws.sweep(&mut src);
    assert_eq!(cluster, vec![2]);
}

#[test]
fn sweep_with_middling_ratio_stays_valid() {
    let m = Ising2D { n1: 4, n2: 4 };
    let mut ws = WolffSampler::new(m).unwrap();
    let mut src = RandomSource::ratio(1, 2).unwrap();
    for _ in 0..20 {
        let cluster = ws.sweep(&mut src);
        assert!(1 <= cluster.len() && cluster.len() <= 16);
        let conf = ws.getConf();
        assert_eq!(conf.len(), 16);
        for &c in conf.iter() {
            assert!(c == 1 || c == -1);
        }
    }
}

#[test]
fn random_conf_is_valid() {
    let conf = ising_wolff::sampler::random_conf(50);
    assert_eq!(conf.len(), 50);
    for &c in conf.iter() {
        assert!(c == 1 || c == -1);
    }
}

#[test]
fn randomize_conf_keeps_shape() {
    let m = Ising2D { n1: 3, n2: 3 };
    let mut ws = WolffSampler::new(m).unwrap();
    ws.randomize_conf();
    assert_eq!(ws.size(), 9);
    assert_eq!(ws.getConf().len(), 9);
}

#[test]
fn constructors_reject_bad_input() {
    let m = Ising2D { n1: 2, n2: 2 };
    assert!(matches!(
        WolffSampler::from_conf(m, vec![1, 1, 1]),
        Err(SimError::InvalidParameter)
    ));
    assert!(matches!(
        WolffSampler::from_conf(m, vec![1, 1, 2, 1]),
        Err(SimError::InvalidParameter)
    ));
    assert!(matches!(RandomSource::ratio(2, 1), Err(SimError::InvalidParameter)));
    assert!(matches!(RandomSource::ratio(1, 0), Err(SimError::InvalidParameter)));
}

#[test]
fn seed_sites_drawn_below_size() {
    // the system-backed source must always hand back a site on the lattice
    let mut src = RandomSource::ratio(1, 2).unwrap();
    for _ in 0..200 {
        let s = src.next_site(7);
        assert!(s < 7);
    }
}

#[test]
fn sweep_flips_exactly_the_cluster_and_only_aligned_spins() {
    let m = Ising2D { n1: 3, n2: 3 };
    let start: Vec<i8> = vec![1, -1, 1, 1, 1, -1, -1, 1, 1];
    let mut ws = WolffSampler::from_conf(m, start.clone()).unwrap();
    let mut src = RandomSource::ratio(1, 1).unwrap();
    let cluster = ws.sweep(&mut src);
    let after = ws.getConf().clone();
    let seed_spin = start[cluster[0] as usize];
    for &s in &cluster {
        assert_eq!(start[s as usize], seed_spin, "cluster spans opposite spins");
    }
    for s in 0..9usize {
        if cluster.contains(&(s as u32)) {
            assert_eq!(after[s], -start[s]);
        } else {
            assert_eq!(after[s], start[s]);
        }
    }
}
