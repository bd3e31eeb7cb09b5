use ising_wolff::ising::{Ising2D, Model};
use ising_wolff::SimError;

#[test]
fn bond_count_3x2() {
    let m = Ising2D { n1: 3, n2: 2 };
    let bonds = m.all_neighbors();
    // r*(c-1) + c*(r-1) with r = 3 rows, c = 2 columns
    assert_eq!(bonds.len(), 3 * 1 + 2 * 2);
    for (idx, &(a, b)) in bonds.iter().enumerate() {
        assert!(a < b, "pair must be ordered");
        assert!((b as usize) < 6, "site out of range");
        assert!(m.neighbors(a).contains(&b), "bond must join neighbors");
        for (idx2, &p2) in bonds.iter().enumerate() {
            if idx != idx2 {
                assert_ne!((a, b), p2, "duplicate bond");
            }
        }
    }
}

#[test]
fn bond_count_2x2() {
    let m = Ising2D { n1: 2, n2: 2 };
    let bonds = m.all_neighbors();
    assert_eq!(bonds.len(), 4);
}

#[test]
fn bond_count_1x5() {
    let m = Ising2D { n1: 1, n2: 5 };
    let bonds = m.all_neighbors();
    assert_eq!(bonds.len(), 4);
    for &(a, b) in &bonds {
        assert_eq!(b, a + 1);
    }
}

#[test]
fn neighbors_symmetric_3x3() {
    let m = Ising2D { n1: 3, n2: 3 };
    for a in 0..9u32 {
        for b in 0..9u32 {
            let ab = m.neighbors(a).contains(&b);
            let ba = m.neighbors(b).contains(&a);
            assert_eq!(ab, ba, "asymmetry between {} and {}", a, b);
        }
    }
}

#[test]
fn neighbors_of_center_3x3() {
    let m = Ising2D { n1: 3, n2: 3 };
    // center site 4 = column 1, row 1; order: up, down, left, right
    assert_eq!(m.neighbors(4), vec![3, 5, 1, 7]);
    // corner site 0 has only two neighbors
    assert_eq!(m.neighbors(0), vec![1, 3]);
}

#[test]
fn coordinates_roundtrip() {
    let m = Ising2D { n1: 3, n2: 4 };
    for n in 0..12u32 {
        let (i, j) = m.to_coord(n);
        assert!(i < 3 && j < 4);
        assert_eq!(m.to_idx(i, j), n);
    }
}

#[test]
fn energy_2x2_all_up() {
    let m = Ising2D { n1: 2, n2: 2 };
    let conf: Vec<i8> = vec![1, 1, 1, 1];
    assert_eq!(m.energy(&conf), -4);
}

#[test]
fn energy_2x2_checkerboard() {
    let m = Ising2D { n1: 2, n2: 2 };
    // every bond joins opposite spins
    let conf: Vec<i8> = vec![1, -1, -1, 1];
    assert_eq!(m.energy(&conf), 4);
}

#[test]
fn magnetization_values() {
    let m = Ising2D { n1: 2, n2: 3 };
    let all_up: Vec<i8> = vec![1; 6];
    assert_eq!(m.magnetization(&all_up), 6);
    let mixed: Vec<i8> = vec![1, -1, 1, 1, -1, -1];
    assert_eq!(m.magnetization(&mixed), 0);
    let mostly_down: Vec<i8> = vec![-1, -1, -1, -1, 1, -1];
    assert_eq!(m.magnetization(&mostly_down), -4);
}

#[test]
fn rejects_degenerate_geometry() {
    assert_eq!(Ising2D::new(0, 5), Err(SimError::InvalidGeometry));
    assert_eq!(Ising2D::new(3, 0), Err(SimError::InvalidGeometry));
    let ok = Ising2D::new(3, 2).unwrap();
    assert_eq!(ok.size(), 6);
}

#[test]
fn bond_order_is_column_steps_then_row_steps() {
    let m = Ising2D { n1: 2, n2: 2 };
    assert_eq!(m.all_neighbors(), vec![(0, 2), (1, 3), (0, 1), (2, 3)]);
    let m2 = Ising2D { n1: 3, n2: 2 };
    assert_eq!(
        m2.all_neighbors(),
        vec![(0, 3), (1, 4), (2, 5), (0, 1), (3, 4), (1, 2), (4, 5)]
    );
}
