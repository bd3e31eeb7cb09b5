//! The variational ansatz: a restricted-Boltzmann-style amplitude built from
//! the lattice's bond structure, with one hidden unit per bond.
//!
//! For a bond `r = (a, b)` the weight matrix holds the same scalar
//! `w = acosh(exp(beta)) / 2` at columns `a` and `b` of row `r` and zero
//! elsewhere, so every quantity of the ansatz factors into that scalar and an
//! integer that depends only on the spins:
//!
//! * the hidden activation is `theta_j = w * t_j` with `t_j = s_a + s_b`
//!   (see [`RBM::bond_sums`]);
//! * `tanh(theta_j) = h_j * tanh(2 w)` with `h_j = t_j / 2` in `{-1, 0, 1}`;
//! * the log-derivative entries are `s_i * tanh(theta_j)`, so their integer
//!   factors `s_i * h_j` are what [`RBM::partial_der`] returns, each to be
//!   scaled by `tanh(2 w)` (the visible block of the full layout carries no
//!   scale, the hidden and coupling blocks carry `tanh(2 w)`);
//! * the amplitude `coefficient = prod_j 2 cosh(theta_j)` is a function of
//!   the `t_j` alone, so callers evaluate it from `bond_sums`.
use vstd::prelude::*;
use crate::valid_conf;
use crate::ising::Model;
use vstd::arithmetic::div_mod::lemma_fundamental_div_mod_converse;

verus! {

/// Spin encoded in bit `i` of `k`: a set bit is spin `-1`, a clear bit
/// (including every bit past the width of `k`) is spin `+1`.
pub open spec fn spec_spin_of(k: u32, i: int) -> i8 {
    if 0 <= i < 32 && ((k >> (i as u32)) & 1u32) == 1u32 {
        -1i8
    } else {
        1i8
    }
}

/// Decodes a configuration index into its spin sequence, site `i` from bit
/// `i`, bit `0` meaning spin `+1` and bit `1` meaning spin `-1`.
pub fn to_sigma(n: u32, k: u32) -> (r: Vec<i8>)
    ensures
        r@.len() == n,
        forall|i: int| 0 <= i < n ==> #[trigger] r@[i] == spec_spin_of(k, i),
        valid_conf(r@, n as int),
{
    let mut cur = k;
    let mut res: Vec<i8> = Vec::new();
    let mut i: u32 = 0;
    proof {
        assert(k >> 0u32 == k) by (bit_vector);
    }
    while i < n
        invariant
            i <= n,
            res@.len() == i as int,
            i < 32 ==> cur == k >> i,
            i >= 32 ==> cur == 0,
            forall|t: int| 0 <= t < i as int ==> #[trigger] res@[t] == spec_spin_of(k, t),
        decreases n - i,
    {
        let b: u32 = cur & 1;
        let spin: i8 = if b == 0 { 1 } else { -1 };
        proof {
            assert(cur & 1u32 == 0u32 || cur & 1u32 == 1u32) by (bit_vector);
            assert(0u32 & 1u32 == 0u32) by (bit_vector);
            if i < 31 {
                assert(i < 31 ==> ((k >> i) >> 1u32 == k >> (i + 1))) by (bit_vector);
            } else if i == 31 {
                assert((k >> 31u32) >> 1u32 == 0u32) by (bit_vector);
            } else {
                assert(0u32 >> 1u32 == 0u32) by (bit_vector);
            }
        }
        res.push(spin);
        cur = cur >> 1;
        i = i + 1;
    }
    res
}

/// Encodes a configuration as an integer, bit `i` set exactly when site `i`
/// holds spin `+1`; bits past the configuration's length stay clear.
pub fn to_int(conf: &Vec<i8>) -> (r: u32)
    requires
        valid_conf(conf@, conf@.len() as int),
        conf@.len() <= 32,
    ensures
        forall|i: int|
            0 <= i < conf@.len() ==> (((r >> (i as u32)) & 1u32) == 1u32 <==> conf@[i] == 1i8),
        forall|i: int| conf@.len() <= i < 32 ==> (#[trigger] (r >> (i as u32)) & 1u32) == 0u32,
{
    let mut res: u32 = 0;
    proof {
        assert(forall|t: u32| t < 32 ==> (0u32 >> t) & 1u32 == 0u32) by (bit_vector);
    }
    let n = conf.len();
    let mut i: usize = 0;
    while i < n
        invariant
            n == conf@.len(),
            n <= 32,
            i <= n,
            valid_conf(conf@, conf@.len() as int),
            forall|t: int|
                0 <= t < i ==> (((res >> (t as u32)) & 1u32) == 1u32 <==> conf@[t] == 1i8),
            forall|t: int| i <= t < 32 ==> (#[trigger] (res >> (t as u32)) & 1u32) == 0u32,
        decreases n - i,
    {
        let c = conf[i];
        assert(c == 1i8 || c == -1i8);
        if c == 1 {
            let iu = i as u32;
            let old_res: Ghost<u32> = Ghost(res);
            res = res | (1u32 << iu);
            proof {
                let prev = old_res@;
                assert forall|t: int| 0 <= t < 32 implies (#[trigger] (res >> (t as u32)) & 1u32)
                    == (if t == iu as int { 1u32 } else { (prev >> (t as u32)) & 1u32 }) by {
                    let tu = t as u32;
                    assert(tu < 32 && iu < 32 && tu == iu ==> ((prev | (1u32 << iu)) >> tu)
                        & 1u32 == 1u32) by (bit_vector);
                    assert(tu < 32 && iu < 32 && tu != iu ==> ((prev | (1u32 << iu)) >> tu)
                        & 1u32 == (prev >> tu) & 1u32) by (bit_vector);
                }
            }
        }
        i = i + 1;
    }
    res
}

/// The restricted-Boltzmann machine derived from a lattice: `n` visible
/// units (the sites), one hidden unit per bond, and the bond list standing
/// for the sparse weight matrix described in the module documentation.
pub struct RBM {
    n: u32,
    m: u32,
    bonds: Vec<(u32, u32)>,
}

impl RBM {
    pub closed spec fn spec_n(self) -> int {
        self.n as int
    }

    pub closed spec fn spec_m(self) -> int {
        self.m as int
    }

    pub closed spec fn spec_bonds(self) -> Seq<(int, int)> {
        self.bonds@.map_values(|p: (u32, u32)| (p.0 as int, p.1 as int))
    }

    pub open spec fn wf(self) -> bool {
        &&& self.spec_n() >= 1
        &&& self.spec_m() == self.spec_bonds().len()
        &&& forall|j: int|
            0 <= j < self.spec_bonds().len() ==> (0 <= (#[trigger] self.spec_bonds()[j]).0
                && self.spec_bonds()[j].0 < self.spec_bonds()[j].1
                && self.spec_bonds()[j].1 < self.spec_n())
        &&& self.spec_n() * self.spec_m() <= u32::MAX
        &&& self.spec_n() + self.spec_m() + self.spec_n() * self.spec_m() <= u32::MAX
    }

    /// Half of a bond's spin sum: the sign carried by hidden unit `j`, in
    /// `{-1, 0, 1}`.
    pub open spec fn spec_hidden(self, c: Seq<i8>, j: int) -> int {
        (c[self.spec_bonds()[j].0] + c[self.spec_bonds()[j].1]) / 2
    }

    /// Integer factor of log-derivative entry `e` in the visible-by-hidden
    /// layout: entry `(i, j)` flattened as `i * m + j` holds `s_i * h_j`.
    pub open spec fn spec_pd(self, c: Seq<i8>, e: int) -> int {
        c[e / self.spec_m()] * self.spec_hidden(c, e % self.spec_m())
    }

    /// Integer factor of entry `e` of the full layout
    /// `[sites | hidden | couplings]`.
    pub open spec fn spec_pd_full(self, c: Seq<i8>, e: int) -> int {
        if e < self.spec_n() {
            c[e] as int
        } else if e < self.spec_n() + self.spec_m() {
            self.spec_hidden(c, e - self.spec_n())
        } else {
            self.spec_pd(c, e - self.spec_n() - self.spec_m())
        }
    }

    /// Builds the machine for a lattice: one visible unit per site, one
    /// hidden unit per bond, coupled exactly along the bond list.
    pub fn from_ising<T: Model>(ising: &T) -> (r: RBM)
        requires
            ising.wf(),
            ising.spec_size() >= 1,
            ising.spec_size() * ising.spec_bonds().len() <= u32::MAX,
            ising.spec_size() + ising.spec_bonds().len() + ising.spec_size()
                * ising.spec_bonds().len() <= u32::MAX,
        ensures
            r.wf(),
            r.spec_n() == ising.spec_size(),
            r.spec_m() == ising.spec_bonds().len(),
            r.spec_bonds() == ising.spec_bonds(),
    {
        let n = ising.size();
        let bonds = ising.all_neighbors();
        let m = bonds.len() as u32;
        let r = RBM { n, m, bonds };
        proof {
            assert(r.spec_bonds() =~= ising.spec_bonds());
        }
        r
    }

    pub fn get_num_visible(&self) -> (r: u32)
        requires
            self.wf(),
        ensures
            r as int == self.spec_n(),
    {
        self.n
    }

    pub fn get_num_hidden(&self) -> (r: u32)
        requires
            self.wf(),
        ensures
            r as int == self.spec_m(),
    {
        self.m
    }

    /// Parameter dimension of the visible-by-hidden layout.
    pub fn get_dim(&self) -> (r: u32)
        requires
            self.wf(),
        ensures
            r as int == self.spec_n() * self.spec_m(),
    {
        self.n * self.m
    }

    /// Parameter dimension of the full layout.
    pub fn get_dim_full(&self) -> (r: u32)
        requires
            self.wf(),
        ensures
            r as int == self.spec_n() + self.spec_m() + self.spec_n() * self.spec_m(),
    {
        self.n + self.m + self.n * self.m
    }

    /// The spin sum `t_j = s_a + s_b` of each bond `j`: the hidden
    /// activations are `theta_j = w * t_j`, so this vector determines every
    /// hyperbolic factor of the amplitude and its derivatives.
    pub fn bond_sums(&self, sigma: &Vec<i8>) -> (r: Vec<i8>)
        requires
            self.wf(),
            valid_conf(sigma@, self.spec_n()),
        ensures
            r@.len() == self.spec_m(),
            forall|j: int|
                0 <= j < r@.len() ==> #[trigger] r@[j] as int == sigma@[self.spec_bonds()[j].0]
                    + sigma@[self.spec_bonds()[j].1],
    {
        let mut res: Vec<i8> = Vec::new();
        let mlen = self.bonds.len();
        let mut j: usize = 0;
        while j < mlen
            invariant
                self.wf(),
                valid_conf(sigma@, self.spec_n()),
                mlen == self.bonds@.len(),
                j <= mlen,
                res@.len() == j as int,
                forall|u: int|
                    0 <= u < res@.len() ==> #[trigger] res@[u] as int
                        == sigma@[self.spec_bonds()[u].0] + sigma@[self.spec_bonds()[u].1],
            decreases mlen - j,
        {
            let (a, b) = self.bonds[j];
            proof {
                assert(self.spec_bonds()[j as int] == (a as int, b as int));
            }
            let sa = sigma[a as usize];
            let sb = sigma[b as usize];
            assert(sa == 1i8 || sa == -1i8);
            assert(sb == 1i8 || sb == -1i8);
            res.push(sa + sb);
            j = j + 1;
        }
        res
    }

    /// Integer factors of the visible-by-hidden log-derivative: entry
    /// `i * m + j` is `s_i * h_j`; the caller multiplies by `tanh(2 w)` to
    /// obtain the derivative itself.
    pub fn partial_der(&self, sigma: &Vec<i8>) -> (r: Vec<i8>)
        requires
            self.wf(),
            valid_conf(sigma@, self.spec_n()),
        ensures
            r@.len() == self.spec_n() * self.spec_m(),
            forall|e: int|
                0 <= e < r@.len() ==> #[trigger] r@[e] as int == self.spec_pd(sigma@, e),
            forall|e: int| 0 <= e < r@.len() ==> -1i8 <= #[trigger] r@[e] <= 1i8,
    {
        let n = self.n;
        let m = self.m;
        let mut res: Vec<i8> = Vec::new();
        let mut i: u32 = 0;
        while i < n
            invariant
                self.wf(),
                valid_conf(sigma@, self.spec_n()),
                n == self.n,
                m == self.m,
                i <= n,
                res@.len() == i as int * m as int,
                forall|e: int|
                    0 <= e < res@.len() ==> #[trigger] res@[e] as int == self.spec_pd(sigma@, e),
                forall|e: int| 0 <= e < res@.len() ==> -1i8 <= #[trigger] res@[e] <= 1i8,
            decreases n - i,
        {
            let mut j: u32 = 0;
            while j < m
                invariant
                    self.wf(),
                    valid_conf(sigma@, self.spec_n()),
                    n == self.n,
                    m == self.m,
                    i < n,
                    j <= m,
                    res@.len() == i as int * m as int + j as int,
                    forall|e: int|
                        0 <= e < res@.len() ==> #[trigger] res@[e] as int == self.spec_pd(
                            sigma@, e),
                    forall|e: int| 0 <= e < res@.len() ==> -1i8 <= #[trigger] res@[e] <= 1i8,
                decreases m - j,
            {
                let v = self.der_entry(sigma, i, j);
                proof {
                    let e = res@.len() as int;
                    assert(0 <= e && e + 1 <= n as int * m as int) by (nonlinear_arith)
                        requires
                            e == i as int * m as int + j as int,
                            0 <= i as int && (i as int) < n as int,
                            0 <= j as int && (j as int) < m as int;
                    lemma_fundamental_div_mod_converse(e, m as int, i as int, j as int);
                }
                res.push(v);
                j = j + 1;
            }
            proof {
                assert(i as int * m as int + m as int == (i as int + 1) * m as int)
                    by (nonlinear_arith);
            }
            i = i + 1;
        }
        proof {
            assert(res@.len() == n as int * m as int);
        }
        res
    }

    /// One coupling-block factor: `s_i * h_j`.
    fn der_entry(&self, sigma: &Vec<i8>, i: u32, j: u32) -> (v: i8)
        requires
            self.wf(),
            valid_conf(sigma@, self.spec_n()),
            (i as int) < self.spec_n(),
            (j as int) < self.spec_m(),
        ensures
            v as int == sigma@[i as int] * self.spec_hidden(sigma@, j as int),
            -1i8 <= v <= 1i8,
    {
        let h = self.hidden_sign(sigma, j);
        let si = sigma[i as usize];
        assert(si == 1i8 || si == -1i8);
        si * h
    }

    /// The sign `h_j` of hidden unit `j`: the shared spin when the bond's
    /// endpoints agree, zero when they differ.
    fn hidden_sign(&self, sigma: &Vec<i8>, j: u32) -> (h: i8)
        requires
            self.wf(),
            valid_conf(sigma@, self.spec_n()),
            (j as int) < self.spec_m(),
        ensures
            h as int == self.spec_hidden(sigma@, j as int),
            h == 1i8 || h == 0i8 || h == -1i8,
    {
        let (a, b) = self.bonds[j as usize];
        proof {
            assert(self.spec_bonds()[j as int] == (a as int, b as int));
        }
        let sa = sigma[a as usize];
        let sb = sigma[b as usize];
        assert(sa == 1i8 || sa == -1i8);
        assert(sb == 1i8 || sb == -1i8);
        if sa == sb {
            sa
        } else {
            0
        }
    }

    /// Integer factors of the full log-derivative layout
    /// `[sites | hidden | couplings]`: sites carry `s_i` (no scale), the
    /// hidden block carries `h_j` and the coupling block `s_i * h_j` (each
    /// to be scaled by `tanh(2 w)`).
    pub fn partial_der_full(&self, sigma: &Vec<i8>) -> (r: Vec<i8>)
        requires
            self.wf(),
            valid_conf(sigma@, self.spec_n()),
        ensures
            r@.len() == self.spec_n() + self.spec_m() + self.spec_n() * self.spec_m(),
            forall|e: int|
                0 <= e < r@.len() ==> #[trigger] r@[e] as int == self.spec_pd_full(sigma@, e),
            forall|e: int| 0 <= e < r@.len() ==> -1i8 <= #[trigger] r@[e] <= 1i8,
    {
        let n = self.n;
        let m = self.m;
        let mut res: Vec<i8> = Vec::new();
        let mut i: u32 = 0;
        while i < n
            invariant
                self.wf(),
                valid_conf(sigma@, self.spec_n()),
                n == self.n,
                m == self.m,
                i <= n,
                res@.len() == i as int,
                forall|e: int|
                    0 <= e < res@.len() ==> #[trigger] res@[e] as int == self.spec_pd_full(
                        sigma@, e),
                forall|e: int| 0 <= e < res@.len() ==> -1i8 <= #[trigger] res@[e] <= 1i8,
            decreases n - i,
        {
            res.push(sigma[i as usize]);
            i = i + 1;
        }
        let mut j: u32 = 0;
        while j < m
            invariant
                self.wf(),
                valid_conf(sigma@, self.spec_n()),
                n == self.n,
                m == self.m,
                j <= m,
                res@.len() == n as int + j as int,
                forall|e: int|
                    0 <= e < res@.len() ==> #[trigger] res@[e] as int == self.spec_pd_full(
                        sigma@, e),
                forall|e: int| 0 <= e < res@.len() ==> -1i8 <= #[trigger] res@[e] <= 1i8,
            decreases m - j,
        {
            let h = self.hidden_sign(sigma, j);
            res.push(h);
            j = j + 1;
        }
        let mut i2: u32 = 0;
        while i2 < n
            invariant
                self.wf(),
                valid_conf(sigma@, self.spec_n()),
                n == self.n,
                m == self.m,
                i2 <= n,
                res@.len() == n as int + m as int + i2 as int * m as int,
                forall|e: int|
                    0 <= e < res@.len() ==> #[trigger] res@[e] as int == self.spec_pd_full(
                        sigma@, e),
                forall|e: int| 0 <= e < res@.len() ==> -1i8 <= #[trigger] res@[e] <= 1i8,
            decreases n - i2,
        {
            let mut j2: u32 = 0;
            while j2 < m
                invariant
                    self.wf(),
                    valid_conf(sigma@, self.spec_n()),
                    n == self.n,
                    m == self.m,
                    i2 < n,
                    j2 <= m,
                    res@.len() == n as int + m as int + i2 as int * m as int + j2 as int,
                    forall|e: int|
                        0 <= e < res@.len() ==> #[trigger] res@[e] as int == self.spec_pd_full(
                            sigma@, e),
                    forall|e: int| 0 <= e < res@.len() ==> -1i8 <= #[trigger] res@[e] <= 1i8,
                decreases m - j2,
            {
                let v = self.der_entry(sigma, i2, j2);
                proof {
                    let e = res@.len() as int;
                    let e2 = e - n as int - m as int;
                    assert(0 <= e2 && e2 + 1 <= n as int * m as int) by (nonlinear_arith)
                        requires
                            e2 == i2 as int * m as int + j2 as int,
                            0 <= i2 as int && (i2 as int) < n as int,
                            0 <= j2 as int && (j2 as int) < m as int;
                    lemma_fundamental_div_mod_converse(e2, m as int, i2 as int, j2 as int);
                }
                res.push(v);
                j2 = j2 + 1;
            }
            proof {
                assert(i2 as int * m as int + m as int == (i2 as int + 1) * m as int)
                    by (nonlinear_arith);
            }
            i2 = i2 + 1;
        }
        res
    }
}

} // verus!
