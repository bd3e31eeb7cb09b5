//! Lattice models: site geometry, neighbor adjacency, bond enumeration and
//! the two scalar observables (energy and magnetization) of a spin
//! configuration.
//!
//! The one concrete geometry is `Ising2D`, an open (non-periodic) rectangular
//! grid of `n1` rows and `n2` columns, sites numbered column-major:
//! site `(i, j)` has index `j * n1 + i`.
use vstd::prelude::*;
use crate::{valid_conf, lemma_push_contains};
use vstd::arithmetic::div_mod::{
    lemma_fundamental_div_mod, lemma_fundamental_div_mod_converse, lemma_mod_bound,
};

verus! {

pub type Index = u32;

/// Energy of a configuration over a bond list: each bond `(a, b)` contributes
/// `-(c[a] * c[b])` (ferromagnetic coupling of unit strength).
pub open spec fn spec_energy(bonds: Seq<(int, int)>, c: Seq<i8>) -> int
    decreases bonds.len(),
{
    if bonds.len() == 0 {
        0
    } else {
        spec_energy(bonds.drop_last(), c) - c[bonds.last().0] * c[bonds.last().1]
    }
}

/// Magnetization: the signed sum of all spins.
pub open spec fn spec_mag(c: Seq<i8>) -> int
    decreases c.len(),
{
    if c.len() == 0 {
        0
    } else {
        spec_mag(c.drop_last()) + c.last()
    }
}

/// A lattice model: a fixed geometry exposing adjacency, the list of
/// undirected bonds, and per-configuration observables.
pub trait Model: Sized {
    /// Geometry invariant (machine bounds included).
    spec fn wf(&self) -> bool;

    /// Number of sites.
    spec fn spec_size(&self) -> int;

    /// Neighbor indices of site `k`, in a fixed enumeration order.
    spec fn spec_neighbors(&self, k: int) -> Seq<int>;

    /// The undirected bonds, each listed once as `(a, b)` with `a < b`.
    spec fn spec_bonds(&self) -> Seq<(int, int)>;

    fn size(&self) -> (r: u32)
        requires
            self.wf(),
        ensures
            r as int == self.spec_size(),
    ;

    fn neighbors(&self, k: Index) -> (r: Vec<Index>)
        requires
            self.wf(),
            (k as int) < self.spec_size(),
        ensures
            r@.len() == self.spec_neighbors(k as int).len(),
            forall|t: int|
                0 <= t < r@.len() ==> #[trigger] r@[t] as int == self.spec_neighbors(k as int)[t],
            forall|t: int| 0 <= t < r@.len() ==> (#[trigger] r@[t] as int) < self.spec_size(),
    ;

    fn all_neighbors(&self) -> (r: Vec<(Index, Index)>)
        requires
            self.wf(),
        ensures
            r@.len() == self.spec_bonds().len(),
            forall|t: int|
                0 <= t < r@.len() ==> (#[trigger] r@[t].0 as int, r@[t].1 as int)
                    == self.spec_bonds()[t],
            forall|t: int|
                0 <= t < r@.len() ==> #[trigger] r@[t].0 < r@[t].1
                    && (r@[t].1 as int) < self.spec_size(),
    ;

    fn energy(&self, conf: &Vec<i8>) -> (r: i64)
        requires
            self.wf(),
            valid_conf(conf@, self.spec_size()),
            self.spec_bonds().len() <= u32::MAX,
        ensures
            r as int == spec_energy(self.spec_bonds(), conf@),
    ;

    fn magnetization(&self, conf: &Vec<i8>) -> (r: i64)
        requires
            self.wf(),
            valid_conf(conf@, self.spec_size()),
        ensures
            r as int == spec_mag(conf@),
    ;
}

/// An open rectangular grid, `n1` rows by `n2` columns, column-major site
/// indexing.
#[derive(Clone, Copy, Debug, PartialEq, Eq, Structural)]
pub struct Ising2D {
    pub n1: u32,
    pub n2: u32,
}

impl Ising2D {
    /// Both dimensions positive and the site count within machine range.
    pub open spec fn spec_wf(self) -> bool {
        &&& 1 <= self.n1
        &&& 1 <= self.n2
        &&& self.n1 * self.n2 <= u32::MAX
    }

    /// Rejects a degenerate geometry (a zero dimension) instead of building it.
    pub fn new(n1: u32, n2: u32) -> (r: Result<Ising2D, crate::SimError>)
        requires
            n1 * n2 <= u32::MAX,
        ensures
            match r {
                Ok(m) => m.n1 == n1 && m.n2 == n2 && m.spec_wf() && n1 >= 1 && n2 >= 1,
                Err(e) => e == crate::SimError::InvalidGeometry && (n1 == 0 || n2 == 0),
            },
    {
        if n1 == 0 || n2 == 0 {
            Err(crate::SimError::InvalidGeometry)
        } else {
            Ok(Ising2D { n1, n2 })
        }
    }

    #[inline]
    pub fn to_idx(&self, i: u32, j: u32) -> (r: u32)
        requires
            self.spec_wf(),
            i < self.n1,
            j < self.n2,
        ensures
            r as int == j * self.n1 + i,
            (r as int) < self.spec_size(),
    {
        proof {
            assert(j * self.n1 + i < self.n1 * self.n2) by (nonlinear_arith)
                requires i < self.n1, j < self.n2;
        }
        j * self.n1 + i
    }

    #[inline]
    pub fn to_coord(&self, n: u32) -> (r: (u32, u32))
        requires
            self.spec_wf(),
            (n as int) < self.spec_size(),
        ensures
            r.0 as int == n as int % (self.n1 as int),
            r.1 as int == n as int / (self.n1 as int),
            r.0 < self.n1,
            r.1 < self.n2,
            n as int == r.1 * self.n1 + r.0,
    {
        proof {
            lemma_fundamental_div_mod(n as int, self.n1 as int);
            assert(n as int / (self.n1 as int) < self.n2 as int) by (nonlinear_arith)
                requires
                    self.n1 >= 1,
                    (n as int) < self.n1 * self.n2,
                    n as int == self.n1 * (n as int / (self.n1 as int)) + n as int % (self.n1 as int),
                    n as int % (self.n1 as int) >= 0;
        }
        (n % self.n1, n / self.n1)
    }

    /// Adjacency condition of two site indices, written symmetrically over
    /// their coordinates: same column and rows one apart, or same row and
    /// columns one apart.
    pub open spec fn nbr_cond(self, a: int, b: int) -> bool {
        let n1 = self.n1 as int;
        let ai = a % n1;
        let aj = a / n1;
        let bi = b % n1;
        let bj = b / n1;
        ||| (aj == bj && (ai + 1 == bi || bi + 1 == ai))
        ||| (ai == bi && (aj + 1 == bj || bj + 1 == aj))
    }

    /// The neighbor list of site `k`: up, down, left, right, each when it
    /// exists within bounds.
    pub open spec fn spec_neighbors_of(self, k: int) -> Seq<int> {
        let n1 = self.n1 as int;
        let i = k % n1;
        let j = k / n1;
        let s = Seq::<int>::empty();
        let s = if i >= 1 { s.push(k - 1) } else { s };
        let s = if i + 1 < n1 { s.push(k + 1) } else { s };
        let s = if j >= 1 { s.push(k - n1) } else { s };
        let s = if j + 1 < self.n2 as int { s.push(k + n1) } else { s };
        s
    }

    /// Bond `t` of the grid: first the bonds towards the next column
    /// (`(n, n + n1)`), row by row, then the bonds towards the next row
    /// (`(n, n + 1)`), again row by row.
    pub open spec fn spec_bond_at(self, t: int) -> (int, int) {
        let n1 = self.n1 as int;
        let n2 = self.n2 as int;
        if t < n1 * (n2 - 1) {
            let i = t / (n2 - 1);
            let j = t % (n2 - 1);
            let n = j * n1 + i;
            (n, n + n1)
        } else {
            let t2 = t - n1 * (n2 - 1);
            let i = t2 / n2;
            let j = t2 % n2;
            let n = j * n1 + i;
            (n, n + 1)
        }
    }

    pub open spec fn spec_bond_count(self) -> int {
        let n1 = self.n1 as int;
        let n2 = self.n2 as int;
        n1 * (n2 - 1) + (n1 - 1) * n2
    }

    pub open spec fn spec_all_bonds(self) -> Seq<(int, int)> {
        Seq::new(self.spec_bond_count() as nat, |t: int| self.spec_bond_at(t))
    }
}

impl Model for Ising2D {
    open spec fn wf(&self) -> bool {
        self.spec_wf()
    }

    open spec fn spec_size(&self) -> int {
        self.n1 * self.n2
    }

    open spec fn spec_neighbors(&self, k: int) -> Seq<int> {
        self.spec_neighbors_of(k)
    }

    open spec fn spec_bonds(&self) -> Seq<(int, int)> {
        self.spec_all_bonds()
    }

    #[inline]
    fn size(&self) -> (r: u32) {
        proof {
            assert(self.n1 * self.n2 == (self.n1 * self.n2) as u32) by (nonlinear_arith)
                requires self.n1 * self.n2 <= u32::MAX;
        }
        self.n1 * self.n2
    }

    fn neighbors(&self, k: Index) -> (r: Vec<Index>) {
        let (i, j) = self.to_coord(k);
        let mut res: Vec<u32> = Vec::new();
        if i >= 1 {
            res.push(k - 1);
        }
        if i + 1 < self.n1 {
            proof {
                assert(k + 1 < self.n1 * self.n2) by (nonlinear_arith)
                    requires
                        k as int == j * self.n1 + i,
                        i + 1 < self.n1,
                        j < self.n2;
            }
            res.push(k + 1);
        }
        if j >= 1 {
            proof {
                assert(k >= self.n1) by (nonlinear_arith)
                    requires k as int == j * self.n1 + i, j >= 1, i >= 0;
            }
            res.push(k - self.n1);
        }
        if j + 1 < self.n2 {
            proof {
                assert(k + self.n1 < self.n1 * self.n2) by (nonlinear_arith)
                    requires
                        k as int == j * self.n1 + i,
                        i < self.n1,
                        j + 1 < self.n2;
            }
            res.push(k + self.n1);
        }
        proof {
            let s = self.spec_neighbors_of(k as int);
            assert(res@.map_values(|x: u32| x as int) =~= s);
            assert forall|t: int| 0 <= t < res@.len() implies (#[trigger] res@[t] as int)
                < self.spec_size() by {
                assert(res@.map_values(|x: u32| x as int)[t] == res@[t] as int);
            }
        }
        res
    }

    fn all_neighbors(&self) -> (r: Vec<(Index, Index)>) {
        let mut res: Vec<(u32, u32)> = Vec::new();
        let n1 = self.n1;
        let n2 = self.n2;
        let mut i: u32 = 0;
        while i < n1
            invariant
                self.spec_wf(),
                n1 == self.n1,
                n2 == self.n2,
                i <= n1,
                res@.len() == i as int * (n2 as int - 1),
                forall|t: int|
                    0 <= t < res@.len() ==> (#[trigger] res@[t].0 as int, res@[t].1 as int)
                        == self.spec_bond_at(t),
                forall|t: int|
                    0 <= t < res@.len() ==> #[trigger] res@[t].0 < res@[t].1
                        && (res@[t].1 as int) < self.spec_size(),
            decreases n1 - i,
        {
            let mut j: u32 = 0;
            while j < n2 - 1
                invariant
                    self.spec_wf(),
                    n1 == self.n1,
                    n2 == self.n2,
                    i < n1,
                    j <= n2 - 1,
                    res@.len() == i as int * (n2 as int - 1) + j as int,
                    forall|t: int|
                        0 <= t < res@.len() ==> (#[trigger] res@[t].0 as int, res@[t].1 as int)
                            == self.spec_bond_at(t),
                    forall|t: int|
                        0 <= t < res@.len() ==> #[trigger] res@[t].0 < res@[t].1
                            && (res@[t].1 as int) < self.spec_size(),
                decreases n2 - 1 - j,
            {
                let n = self.to_idx(i, j);
                proof {
                    let ii = i as int;
                    let jj = j as int;
                    let m1 = n1 as int;
                    let m2 = n2 as int;
                    let t = res@.len() as int;
                    assert(0 <= t && t < m1 * (m2 - 1) && n as int + m1 < m1 * m2)
                        by (nonlinear_arith)
                        requires
                            t == ii * (m2 - 1) + jj,
                            n as int == jj * m1 + ii,
                            0 <= ii < m1,
                            0 <= jj < m2 - 1,
                            1 <= m1,
                            2 <= m2;
                    lemma_fundamental_div_mod_converse(t, m2 - 1, ii, jj);
                }
                res.push((n, n + n1));
                j = j + 1;
            }
            proof {
                assert(i as int * (n2 as int - 1) + (n2 as int - 1) == (i as int + 1) * (n2
                    as int - 1)) by (nonlinear_arith);
            }
            i = i + 1;
        }
        let ghost nh = n1 as int * (n2 as int - 1);
        let mut i2: u32 = 0;
        while i2 + 1 < n1
            invariant
                self.spec_wf(),
                n1 == self.n1,
                n2 == self.n2,
                nh == n1 as int * (n2 as int - 1),
                i2 as int + 1 <= n1 as int,
                res@.len() == nh + i2 as int * n2 as int,
                forall|t: int|
                    0 <= t < res@.len() ==> (#[trigger] res@[t].0 as int, res@[t].1 as int)
                        == self.spec_bond_at(t),
                forall|t: int|
                    0 <= t < res@.len() ==> #[trigger] res@[t].0 < res@[t].1
                        && (res@[t].1 as int) < self.spec_size(),
            decreases n1 - i2,
        {
            let mut j: u32 = 0;
            while j < n2
                invariant
                    self.spec_wf(),
                    n1 == self.n1,
                    n2 == self.n2,
                    nh == n1 as int * (n2 as int - 1),
                    i2 as int + 1 < n1 as int,
                    j <= n2,
                    res@.len() == nh + i2 as int * n2 as int + j as int,
                    forall|t: int|
                        0 <= t < res@.len() ==> (#[trigger] res@[t].0 as int, res@[t].1 as int)
                            == self.spec_bond_at(t),
                    forall|t: int|
                        0 <= t < res@.len() ==> #[trigger] res@[t].0 < res@[t].1
                            && (res@[t].1 as int) < self.spec_size(),
                decreases n2 - j,
            {
                let n = self.to_idx(i2, j);
                proof {
                    let ii = i2 as int;
                    let jj = j as int;
                    let m1 = n1 as int;
                    let m2 = n2 as int;
                    let t = res@.len() as int;
                    let t2 = t - nh;
                    assert(0 <= t2 && t2 < (m1 - 1) * m2 && n as int + 1 < m1 * m2)
                        by (nonlinear_arith)
                        requires
                            t2 == ii * m2 + jj,
                            n as int == jj * m1 + ii,
                            0 <= ii,
                            ii + 1 < m1,
                            0 <= jj < m2,
                            1 <= m1,
                            1 <= m2;
                    lemma_fundamental_div_mod_converse(t2, m2, ii, jj);
                    assert(t >= m1 * (m2 - 1));
                }
                res.push((n, n + 1));
                j = j + 1;
            }
            proof {
                assert(i2 as int * n2 as int + n2 as int == (i2 as int + 1) * n2 as int)
                    by (nonlinear_arith);
            }
            i2 = i2 + 1;
        }
        proof {
            assert(res@.len() == self.spec_bond_count()) by (nonlinear_arith)
                requires
                    res@.len() == n1 as int * (n2 as int - 1) + (i2 as int) * n2 as int,
                    i2 as int == n1 as int - 1,
                    self.spec_bond_count() == n1 as int * (n2 as int - 1) + (n1 as int - 1) * (n2
                        as int);
        }
        res
    }

    fn energy(&self, conf: &Vec<i8>) -> (r: i64) {
        let bonds = self.all_neighbors();
        let mut res: i64 = 0;
        let ghost sb = self.spec_bonds();
        let n = bonds.len();
        for t in 0..n
            invariant
                self.spec_wf(),
                valid_conf(conf@, self.spec_size()),
                n == bonds.len(),
                n <= u32::MAX,
                sb == self.spec_bonds(),
                bonds@.len() == sb.len(),
                forall|u: int|
                    0 <= u < bonds@.len() ==> (#[trigger] bonds@[u].0 as int, bonds@[u].1 as int)
                        == sb[u],
                forall|u: int|
                    0 <= u < bonds@.len() ==> ((#[trigger] bonds@[u]).0 < bonds@[u].1
                        && (bonds@[u].1 as int) < self.spec_size()),
                res as int == spec_energy(sb.take(t as int), conf@),
                -(t as int) <= res as int <= t as int,
        {
            let (a, b) = bonds[t];
            let ca = conf[a as usize];
            let cb = conf[b as usize];
            assert(ca == 1i8 || ca == -1i8);
            assert(cb == 1i8 || cb == -1i8);
            let prod: i64 = if ca == cb { 1 } else { -1 };
            proof {
                assert(prod as int == ca as int * cb as int) by (nonlinear_arith)
                    requires
                        ca == 1i8 || ca == -1i8,
                        cb == 1i8 || cb == -1i8,
                        prod == (if ca == cb { 1i64 } else { -1i64 });
            }
            res = res - prod;
            proof {
                assert(sb.take(t as int + 1).drop_last() =~= sb.take(t as int));
                assert(sb.take(t as int + 1).last() == sb[t as int]);
            }
        }
        proof {
            assert(sb.take(n as int) =~= sb);
        }
        res
    }

    fn magnetization(&self, conf: &Vec<i8>) -> (r: i64) {
        let mut res: i64 = 0;
        let n = conf.len();
        for t in 0..n
            invariant
                self.spec_wf(),
                valid_conf(conf@, self.spec_size()),
                n == conf@.len(),
                n <= u32::MAX,
                res as int == spec_mag(conf@.take(t as int)),
                -(t as int) <= res as int <= t as int,
        {
            let c = conf[t];
            assert(c == 1i8 || c == -1i8);
            res = res + (c as i64);
            proof {
                assert(conf@.take(t as int + 1).drop_last() =~= conf@.take(t as int));
                assert(conf@.take(t as int + 1).last() == conf@[t as int]);
            }
        }
        proof {
            assert(conf@.take(n as int) =~= conf@);
        }
        res
    }
}

/// The magnetization of an all-up configuration is the site count.
pub proof fn lemma_mag_all_up(c: Seq<i8>)
    requires
        forall|i: int| 0 <= i < c.len() ==> c[i] == 1i8,
    ensures
        spec_mag(c) == c.len(),
    decreases c.len(),
{
    if c.len() > 0 {
        lemma_mag_all_up(c.drop_last());
    }
}

/// Which indices the neighbor list of `a` holds: exactly the four candidates
/// `a - 1`, `a + 1`, `a - n1`, `a + n1`, each under its boundary condition.
pub proof fn lemma_neighbors_elems(m: Ising2D, a: int, b: int)
    requires
        m.spec_wf(),
        0 <= a < m.spec_size(),
    ensures
        m.spec_neighbors_of(a).contains(b) <==> (
            (a % (m.n1 as int) >= 1 && b == a - 1)
            || (a % (m.n1 as int) + 1 < m.n1 as int && b == a + 1)
            || (a / (m.n1 as int) >= 1 && b == a - m.n1 as int)
            || (a / (m.n1 as int) + 1 < m.n2 as int && b == a + m.n1 as int)),
{
    let n1 = m.n1 as int;
    let i = a % n1;
    let j = a / n1;
    let s0 = Seq::<int>::empty();
    let s1 = if i >= 1 { s0.push(a - 1) } else { s0 };
    let s2 = if i + 1 < n1 { s1.push(a + 1) } else { s1 };
    let s3 = if j >= 1 { s2.push(a - n1) } else { s2 };
    let s4 = if j + 1 < m.n2 as int { s3.push(a + n1) } else { s3 };
    assert(m.spec_neighbors_of(a) == s4);
    assert(!s0.contains(b));
    if i >= 1 {
        lemma_push_contains(s0, a - 1, b);
    }
    if i + 1 < n1 {
        lemma_push_contains(s1, a + 1, b);
    }
    if j >= 1 {
        lemma_push_contains(s2, a - n1, b);
    }
    if j + 1 < m.n2 as int {
        lemma_push_contains(s3, a + n1, b);
    }
}

/// Adjacency is symmetric: `b` is listed among the neighbors of `a` exactly
/// when `a` is listed among the neighbors of `b`.
pub proof fn lemma_neighbors_symmetric(m: Ising2D, a: int, b: int)
    requires
        m.spec_wf(),
        0 <= a < m.spec_size(),
        0 <= b < m.spec_size(),
    ensures
        m.spec_neighbors_of(a).contains(b) <==> m.spec_neighbors_of(b).contains(a),
{
    lemma_neighbors_elems(m, a, b);
    lemma_neighbors_elems(m, b, a);
    let n1 = m.n1 as int;
    let n2 = m.n2 as int;
    lemma_fundamental_div_mod(a, n1);
    lemma_fundamental_div_mod(b, n1);
    lemma_mod_bound(a, n1);
    lemma_mod_bound(b, n1);
    assert(a / n1 < n2 && b / n1 < n2 && a / n1 >= 0 && b / n1 >= 0) by (nonlinear_arith)
        requires
            0 <= a < n1 * n2,
            0 <= b < n1 * n2,
            1 <= n1,
            a == n1 * (a / n1) + a % n1,
            b == n1 * (b / n1) + b % n1,
            0 <= a % n1 < n1,
            0 <= b % n1 < n1;
    assert((a / n1 - 1) * n1 == (a / n1) * n1 - n1 && (a / n1 + 1) * n1 == (a / n1) * n1 + n1
        && (a / n1) * n1 == n1 * (a / n1)) by (nonlinear_arith);
    assert((b / n1 - 1) * n1 == (b / n1) * n1 - n1 && (b / n1 + 1) * n1 == (b / n1) * n1 + n1
        && (b / n1) * n1 == n1 * (b / n1)) by (nonlinear_arith);
    if a % n1 >= 1 && b == a - 1 {
        lemma_fundamental_div_mod_converse(b, n1, a / n1, a % n1 - 1);
    }
    if a % n1 + 1 < n1 && b == a + 1 {
        lemma_fundamental_div_mod_converse(b, n1, a / n1, a % n1 + 1);
    }
    if a / n1 >= 1 && b == a - n1 {
        lemma_fundamental_div_mod_converse(b, n1, a / n1 - 1, a % n1);
    }
    if a / n1 + 1 < n2 && b == a + n1 {
        lemma_fundamental_div_mod_converse(b, n1, a / n1 + 1, a % n1);
    }
    if b % n1 >= 1 && a == b - 1 {
        lemma_fundamental_div_mod_converse(a, n1, b / n1, b % n1 - 1);
    }
    if b % n1 + 1 < n1 && a == b + 1 {
        lemma_fundamental_div_mod_converse(a, n1, b / n1, b % n1 + 1);
    }
    if b / n1 >= 1 && a == b - n1 {
        lemma_fundamental_div_mod_converse(a, n1, b / n1 - 1, b % n1);
    }
    if b / n1 + 1 < n2 && a == b + n1 {
        lemma_fundamental_div_mod_converse(a, n1, b / n1 + 1, b % n1);
    }
}

/// What one bond looks like: a pair `(a, b)` with `a < b < size`, `b` a
/// neighbor of `a`, a column step in the first block of the list and a row
/// step in the second.
proof fn lemma_bond_at_props(m: Ising2D, t: int)
    requires
        m.spec_wf(),
        0 <= t < m.spec_bond_count(),
    ensures
        0 <= m.spec_bond_at(t).0,
        m.spec_bond_at(t).0 < m.spec_bond_at(t).1,
        m.spec_bond_at(t).1 < m.spec_size(),
        m.spec_neighbors_of(m.spec_bond_at(t).0).contains(m.spec_bond_at(t).1),
        t < m.n1 as int * (m.n2 as int - 1) ==> m.spec_bond_at(t).1 == m.spec_bond_at(t).0
            + m.n1 as int,
        t >= m.n1 as int * (m.n2 as int - 1) ==> m.spec_bond_at(t).1 == m.spec_bond_at(t).0 + 1,
{
    let n1 = m.n1 as int;
    let n2 = m.n2 as int;
    if t < n1 * (n2 - 1) {
        let i = t / (n2 - 1);
        let j = t % (n2 - 1);
        let n = j * n1 + i;
        assert(n2 >= 2) by (nonlinear_arith)
            requires 0 <= t, t < n1 * (n2 - 1), 1 <= n1, 1 <= n2;
        lemma_fundamental_div_mod(t, n2 - 1);
        lemma_mod_bound(t, n2 - 1);
        assert(0 <= i < n1) by (nonlinear_arith)
            requires
                t == (n2 - 1) * i + j,
                0 <= j < n2 - 1,
                0 <= t,
                t < n1 * (n2 - 1),
                1 <= n1,
                2 <= n2;
        assert(0 <= n && n + n1 < n1 * n2) by (nonlinear_arith)
            requires n == j * n1 + i, 0 <= i < n1, 0 <= j < n2 - 1, 1 <= n1, 2 <= n2;
        lemma_fundamental_div_mod_converse(n, n1, j, i);
        lemma_neighbors_elems(m, n, n + n1);
    } else {
        let t2 = t - n1 * (n2 - 1);
        let i = t2 / n2;
        let j = t2 % n2;
        let n = j * n1 + i;
        lemma_fundamental_div_mod(t2, n2);
        lemma_mod_bound(t2, n2);
        assert(0 <= i && i + 1 < n1) by (nonlinear_arith)
            requires
                t2 == n2 * i + j,
                0 <= j < n2,
                0 <= t2,
                t2 < (n1 - 1) * n2,
                1 <= n1,
                1 <= n2;
        assert(0 <= n && n + 1 < n1 * n2) by (nonlinear_arith)
            requires n == j * n1 + i, 0 <= i, i + 1 < n1, 0 <= j < n2, 1 <= n1, 1 <= n2;
        lemma_fundamental_div_mod_converse(n, n1, j, i);
        lemma_neighbors_elems(m, n, n + 1);
    }
}

/// No two bond slots hold the same pair.
proof fn lemma_bond_at_inj(m: Ising2D, t1: int, t2: int)
    requires
        m.spec_wf(),
        0 <= t1 < m.spec_bond_count(),
        0 <= t2 < m.spec_bond_count(),
        t1 != t2,
    ensures
        m.spec_bond_at(t1) != m.spec_bond_at(t2),
{
    let n1 = m.n1 as int;
    let n2 = m.n2 as int;
    lemma_bond_at_props(m, t1);
    lemma_bond_at_props(m, t2);
    if m.spec_bond_at(t1) == m.spec_bond_at(t2) {
        if t1 < n1 * (n2 - 1) && t2 < n1 * (n2 - 1) {
            lemma_fundamental_div_mod(t1, n2 - 1);
            lemma_fundamental_div_mod(t2, n2 - 1);
            lemma_mod_bound(t1, n2 - 1);
            lemma_mod_bound(t2, n2 - 1);
            let i1 = t1 / (n2 - 1);
            let j1 = t1 % (n2 - 1);
            let i2 = t2 / (n2 - 1);
            let j2 = t2 % (n2 - 1);
            assert(0 <= i1 < n1 && 0 <= i2 < n1) by (nonlinear_arith)
                requires
                    t1 == (n2 - 1) * i1 + j1,
                    t2 == (n2 - 1) * i2 + j2,
                    0 <= j1 < n2 - 1,
                    0 <= j2 < n2 - 1,
                    0 <= t1,
                    t1 < n1 * (n2 - 1),
                    0 <= t2,
                    t2 < n1 * (n2 - 1),
                    1 <= n1;
            lemma_fundamental_div_mod_converse(j1 * n1 + i1, n1, j1, i1);
            lemma_fundamental_div_mod_converse(j2 * n1 + i2, n1, j2, i2);
            assert(j1 * n1 + i1 == j2 * n1 + i2);
            assert(i1 == i2 && j1 == j2);
        } else if t1 >= n1 * (n2 - 1) && t2 >= n1 * (n2 - 1) {
            let u1 = t1 - n1 * (n2 - 1);
            let u2 = t2 - n1 * (n2 - 1);
            lemma_fundamental_div_mod(u1, n2);
            lemma_fundamental_div_mod(u2, n2);
            lemma_mod_bound(u1, n2);
            lemma_mod_bound(u2, n2);
            let i1 = u1 / n2;
            let j1 = u1 % n2;
            let i2 = u2 / n2;
            let j2 = u2 % n2;
            assert(0 <= i1 && 0 <= i2 && i1 < n1 && i2 < n1) by (nonlinear_arith)
                requires
                    u1 == n2 * i1 + j1,
                    u2 == n2 * i2 + j2,
                    0 <= j1 < n2,
                    0 <= j2 < n2,
                    0 <= u1,
                    0 <= u2,
                    u1 < (n1 - 1) * n2,
                    u2 < (n1 - 1) * n2,
                    1 <= n1,
                    1 <= n2;
            lemma_fundamental_div_mod_converse(j1 * n1 + i1, n1, j1, i1);
            lemma_fundamental_div_mod_converse(j2 * n1 + i2, n1, j2, i2);
            assert(j1 * n1 + i1 == j2 * n1 + i2);
            assert(i1 == i2 && j1 == j2);
        } else {
            // one pair steps by a column (`+ n1`), the other by a row (`+ 1`),
            // so equality would force `n1 == 1`, where the row block is empty
            assert(n1 == 1);
            assert((n1 - 1) * n2 == 0) by (nonlinear_arith)
                requires n1 == 1;
            assert(m.spec_bond_count() == n1 * (n2 - 1));
            assert(false);
        }
    }
}

/// The bond list of an `n1` by `n2` grid: exactly
/// `n1*(n2-1) + (n1-1)*n2` pairs, each a valid neighbor pair `(a, b)` with
/// `a < b`, and no two slots alike.
pub proof fn lemma_bonds_form(m: Ising2D)
    requires
        m.spec_wf(),
    ensures
        m.spec_all_bonds().len() == m.n1 as int * (m.n2 as int - 1) + (m.n1 as int - 1) * (m.n2
            as int),
        forall|t: int|
            0 <= t < m.spec_all_bonds().len() ==> 0 <= (#[trigger] m.spec_all_bonds()[t]).0
                && m.spec_all_bonds()[t].0 < m.spec_all_bonds()[t].1
                && m.spec_all_bonds()[t].1 < m.spec_size(),
        forall|t: int|
            0 <= t < m.spec_all_bonds().len() ==> m.spec_neighbors_of(
                (#[trigger] m.spec_all_bonds()[t]).0).contains(m.spec_all_bonds()[t].1),
        forall|t1: int, t2: int|
            0 <= t1 < t2 < m.spec_all_bonds().len() ==> #[trigger] m.spec_all_bonds()[t1]
                != #[trigger] m.spec_all_bonds()[t2],
{
    assert(m.spec_bond_count() >= 0) by (nonlinear_arith)
        requires m.n1 >= 1, m.n2 >= 1,
            m.spec_bond_count() == m.n1 as int * (m.n2 as int - 1) + (m.n1 as int - 1) * (m.n2
                as int);
    assert forall|t: int| 0 <= t < m.spec_all_bonds().len() implies 0 <= (
        #[trigger] m.spec_all_bonds()[t]).0 && m.spec_all_bonds()[t].0 < m.spec_all_bonds()[t].1
        && m.spec_all_bonds()[t].1 < m.spec_size() && m.spec_neighbors_of(
        m.spec_all_bonds()[t].0).contains(m.spec_all_bonds()[t].1) by {
        lemma_bond_at_props(m, t);
    }
    assert forall|t1: int, t2: int| 0 <= t1 < t2 < m.spec_all_bonds().len() implies
        #[trigger] m.spec_all_bonds()[t1] != #[trigger] m.spec_all_bonds()[t2] by {
        lemma_bond_at_inj(m, t1, t2);
    }
}

} // verus!
