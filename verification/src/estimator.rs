//! The sensitivity estimator: turns a batch of sampled configurations into
//! the column sums and the Gram matrix of the ansatz's log-derivative
//! vectors, and from them the S-matrix (the covariance of the
//! log-derivative under the empirical sample distribution).
//!
//! Everything here is exact integer arithmetic over the derivative factors
//! of [`crate::machines::RBM`]. With `S` samples, derivative factors `p_s`
//! and the block scales `D` described in `machines`, the floating-point
//! quantities of the estimator are recovered as
//! `G2 = D (g2 / S) D`, `g_mean = D (g / S)` and
//! `S-matrix = D (get_smat() / S^2) D`.
use vstd::prelude::*;
use crate::valid_conf;
use crate::SimError;
use crate::machines::RBM;

verus! {

/// The views of a batch of stored configurations.
pub open spec fn views_of(samples: Seq<Vec<i8>>) -> Seq<Seq<i8>> {
    samples.map_values(|v: Vec<i8>| v@)
}

/// Derivative factor `e` of one configuration, in the layout selected by
/// `full`.
pub open spec fn spec_der(rbm: RBM, c: Seq<i8>, full: bool, e: int) -> int {
    if full {
        rbm.spec_pd_full(c, e)
    } else {
        rbm.spec_pd(c, e)
    }
}

/// Length of the selected derivative layout.
pub open spec fn spec_der_len(rbm: RBM, full: bool) -> int {
    if full {
        rbm.spec_n() + rbm.spec_m() + rbm.spec_n() * rbm.spec_m()
    } else {
        rbm.spec_n() * rbm.spec_m()
    }
}

/// Sum over the batch of derivative factor `a`.
pub open spec fn col_sum(rbm: RBM, sams: Seq<Seq<i8>>, full: bool, a: int) -> int
    decreases sams.len(),
{
    if sams.len() == 0 {
        0
    } else {
        col_sum(rbm, sams.drop_last(), full, a) + spec_der(rbm, sams.last(), full, a)
    }
}

/// Sum over the batch of the product of derivative factors `a` and `b`: one
/// entry of the (unnormalized) Gram matrix.
pub open spec fn gram_sum(rbm: RBM, sams: Seq<Seq<i8>>, full: bool, a: int, b: int) -> int
    decreases sams.len(),
{
    if sams.len() == 0 {
        0
    } else {
        gram_sum(rbm, sams.drop_last(), full, a, b) + spec_der(rbm, sams.last(), full, a)
            * spec_der(rbm, sams.last(), full, b)
    }
}

/// The Gram sum does not depend on the order of its two indices.
pub proof fn lemma_gram_sym(rbm: RBM, sams: Seq<Seq<i8>>, full: bool, a: int, b: int)
    ensures
        gram_sum(rbm, sams, full, a, b) == gram_sum(rbm, sams, full, b, a),
    decreases sams.len(),
{
    if sams.len() > 0 {
        lemma_gram_sym(rbm, sams.drop_last(), full, a, b);
    }
}

/// Accumulated second moments (`g2`, the Gram matrix as undivided sums) and
/// first moments (`g`, undivided column sums) of the derivative factors over
/// one sample batch.
pub struct SmatrixBuilder {
    pub g2: Vec<Vec<i64>>,
    pub g: Vec<i64>,
    pub dim: u32,
    pub nsmp: u32,
}

impl SmatrixBuilder {
    pub open spec fn wf(self) -> bool {
        &&& 2 <= self.nsmp
        &&& self.nsmp <= 0x4000_0000u32
        &&& self.g@.len() == self.dim as int
        &&& self.g2@.len() == self.dim as int
        &&& forall|a: int|
            0 <= a < self.dim as int ==> (#[trigger] self.g2@[a])@.len() == self.dim as int
        &&& forall|a: int|
            0 <= a < self.dim as int ==> -(self.nsmp as int) <= #[trigger] self.g@[a]
                <= self.nsmp as int
        &&& forall|a: int, b: int|
            0 <= a < self.dim as int && 0 <= b < self.dim as int ==> -(self.nsmp as int)
                <= #[trigger] self.g2@[a]@[b] <= self.nsmp as int
        &&& forall|a: int, b: int|
            0 <= a < self.dim as int && 0 <= b < self.dim as int ==> #[trigger] self.g2@[a]@[b]
                == self.g2@[b]@[a]
    }

    /// Builds the sums from a batch, in the visible-by-hidden layout.
    /// Rejects a batch of fewer than two samples (no covariance exists).
    pub fn construct_from_samples(machine: &RBM, samples: &Vec<Vec<i8>>) -> (r: Result<
        SmatrixBuilder, SimError>)
        requires
            machine.wf(),
            forall|s: int|
                0 <= s < samples@.len() ==> valid_conf((#[trigger] samples@[s])@,
                    machine.spec_n()),
            samples@.len() <= 0x4000_0000,
        ensures
            match r {
                Ok(b) => {
                    &&& samples@.len() >= 2
                    &&& b.wf()
                    &&& b.dim as int == spec_der_len(*machine, false)
                    &&& b.nsmp as int == samples@.len()
                    &&& forall|a: int|
                        0 <= a < b.dim as int ==> #[trigger] b.g@[a] as int == col_sum(*machine,
                            views_of(samples@), false, a)
                    &&& forall|a: int, b2: int|
                        0 <= a < b.dim as int && 0 <= b2 < b.dim as int
                            ==> #[trigger] b.g2@[a]@[b2] as int == gram_sum(*machine, views_of(
                            samples@), false, a, b2)
                },
                Err(e) => e == SimError::InvalidParameter && samples@.len() < 2,
            },
    {
        Self::construct(machine, samples, false)
    }

    /// Builds the sums from a batch, in the full layout
    /// `[sites | hidden | couplings]`.
    pub fn construct_full_from_samples(machine: &RBM, samples: &Vec<Vec<i8>>) -> (r: Result<
        SmatrixBuilder, SimError>)
        requires
            machine.wf(),
            forall|s: int|
                0 <= s < samples@.len() ==> valid_conf((#[trigger] samples@[s])@,
                    machine.spec_n()),
            samples@.len() <= 0x4000_0000,
        ensures
            match r {
                Ok(b) => {
                    &&& samples@.len() >= 2
                    &&& b.wf()
                    &&& b.dim as int == spec_der_len(*machine, true)
                    &&& b.nsmp as int == samples@.len()
                    &&& forall|a: int|
                        0 <= a < b.dim as int ==> #[trigger] b.g@[a] as int == col_sum(*machine,
                            views_of(samples@), true, a)
                    &&& forall|a: int, b2: int|
                        0 <= a < b.dim as int && 0 <= b2 < b.dim as int
                            ==> #[trigger] b.g2@[a]@[b2] as int == gram_sum(*machine, views_of(
                            samples@), true, a, b2)
                },
                Err(e) => e == SimError::InvalidParameter && samples@.len() < 2,
            },
    {
        Self::construct(machine, samples, true)
    }

    fn construct(machine: &RBM, samples: &Vec<Vec<i8>>, full: bool) -> (r: Result<SmatrixBuilder,
        SimError>)
        requires
            machine.wf(),
            forall|s: int|
                0 <= s < samples@.len() ==> valid_conf((#[trigger] samples@[s])@,
                    machine.spec_n()),
            samples@.len() <= 0x4000_0000,
        ensures
            match r {
                Ok(b) => {
                    &&& samples@.len() >= 2
                    &&& b.wf()
                    &&& b.dim as int == spec_der_len(*machine, full)
                    &&& b.nsmp as int == samples@.len()
                    &&& forall|a: int|
                        0 <= a < b.dim as int ==> #[trigger] b.g@[a] as int == col_sum(*machine,
                            views_of(samples@), full, a)
                    &&& forall|a: int, b2: int|
                        0 <= a < b.dim as int && 0 <= b2 < b.dim as int
                            ==> #[trigger] b.g2@[a]@[b2] as int == gram_sum(*machine, views_of(
                            samples@), full, a, b2)
                },
                Err(e) => e == SimError::InvalidParameter && samples@.len() < 2,
            },
    {
        let nsmp = samples.len();
        if nsmp < 2 {
            return Err(SimError::InvalidParameter);
        }
        let dim = if full {
            machine.get_dim_full()
        } else {
            machine.get_dim()
        };
        let dimu = dim as usize;
        let ghost sams = views_of(samples@);

        // one derivative-factor vector per sample
        let mut pats: Vec<Vec<i8>> = Vec::new();
        let mut s: usize = 0;
        while s < nsmp
            invariant
                machine.wf(),
                forall|u: int|
                    0 <= u < samples@.len() ==> valid_conf((#[trigger] samples@[u])@,
                        machine.spec_n()),
                nsmp == samples@.len(),
                sams == views_of(samples@),
                dim as int == spec_der_len(*machine, full),
                dimu == dim as usize,
                s <= nsmp,
                pats@.len() == s as int,
                forall|u: int|
                    0 <= u < pats@.len() ==> (#[trigger] pats@[u])@.len() == dim as int,
                forall|u: int, e: int|
                    0 <= u < pats@.len() && 0 <= e < dim as int ==> (#[trigger] pats@[u]@[e])
                        as int == spec_der(*machine, sams[u], full, e),
                forall|u: int, e: int|
                    0 <= u < pats@.len() && 0 <= e < dim as int ==> -1i8 <= #[trigger] pats@[
                        u]@[e] <= 1i8,
            decreases nsmp - s,
        {
            let p = if full {
                machine.partial_der_full(&samples[s])
            } else {
                machine.partial_der(&samples[s])
            };
            proof {
                assert(sams[s as int] == samples@[s as int]@);
            }
            pats.push(p);
            s = s + 1;
        }

        // column sums
        let mut g: Vec<i64> = Vec::new();
        let mut a: usize = 0;
        while a < dimu
            invariant
                nsmp == samples@.len(),
                2 <= nsmp <= 0x4000_0000,
                sams == views_of(samples@),
                sams.len() == nsmp,
                dimu == dim as usize,
                a <= dimu,
                pats@.len() == nsmp,
                forall|u: int|
                    0 <= u < pats@.len() ==> (#[trigger] pats@[u])@.len() == dim as int,
                forall|u: int, e: int|
                    0 <= u < pats@.len() && 0 <= e < dim as int ==> (#[trigger] pats@[u]@[e])
                        as int == spec_der(*machine, sams[u], full, e),
                forall|u: int, e: int|
                    0 <= u < pats@.len() && 0 <= e < dim as int ==> -1i8 <= #[trigger] pats@[
                        u]@[e] <= 1i8,
                g@.len() == a as int,
                forall|a2: int|
                    0 <= a2 < g@.len() ==> #[trigger] g@[a2] as int == col_sum(*machine, sams,
                        full, a2),
                forall|a2: int|
                    0 <= a2 < g@.len() ==> -(nsmp as int) <= #[trigger] g@[a2] <= nsmp as int,
            decreases dimu - a,
        {
            let mut acc: i64 = 0;
            let mut s2: usize = 0;
            while s2 < nsmp
                invariant
                    nsmp == samples@.len(),
                    2 <= nsmp <= 0x4000_0000,
                    sams.len() == nsmp,
                    dimu == dim as usize,
                    a < dimu,
                    s2 <= nsmp,
                    pats@.len() == nsmp,
                    forall|u: int|
                        0 <= u < pats@.len() ==> (#[trigger] pats@[u])@.len() == dim as int,
                    forall|u: int, e: int|
                        0 <= u < pats@.len() && 0 <= e < dim as int ==> (#[trigger] pats@[u]@[e])
                            as int == spec_der(*machine, sams[u], full, e),
                    forall|u: int, e: int|
                        0 <= u < pats@.len() && 0 <= e < dim as int ==> -1i8 <= #[trigger] pats@[
                            u]@[e] <= 1i8,
                    acc as int == col_sum(*machine, sams.take(s2 as int), full, a as int),
                    -(s2 as int) <= acc as int <= s2 as int,
                decreases nsmp - s2,
            {
                let pv = pats[s2][a];
                acc = acc + (pv as i64);
                proof {
                    assert(sams.take(s2 as int + 1).drop_last() =~= sams.take(s2 as int));
                    assert(sams.take(s2 as int + 1).last() == sams[s2 as int]);
                }
                s2 = s2 + 1;
            }
            proof {
                assert(sams.take(nsmp as int) =~= sams);
            }
            g.push(acc);
            a = a + 1;
        }

        // Gram sums, one row at a time
        let mut g2: Vec<Vec<i64>> = Vec::new();
        let mut a2: usize = 0;
        while a2 < dimu
            invariant
                nsmp == samples@.len(),
                2 <= nsmp <= 0x4000_0000,
                sams == views_of(samples@),
                sams.len() == nsmp,
                dimu == dim as usize,
                a2 <= dimu,
                pats@.len() == nsmp,
                forall|u: int|
                    0 <= u < pats@.len() ==> (#[trigger] pats@[u])@.len() == dim as int,
                forall|u: int, e: int|
                    0 <= u < pats@.len() && 0 <= e < dim as int ==> (#[trigger] pats@[u]@[e])
                        as int == spec_der(*machine, sams[u], full, e),
                forall|u: int, e: int|
                    0 <= u < pats@.len() && 0 <= e < dim as int ==> -1i8 <= #[trigger] pats@[
                        u]@[e] <= 1i8,
                g2@.len() == a2 as int,
                forall|x: int| 0 <= x < g2@.len() ==> (#[trigger] g2@[x])@.len() == dim as int,
                forall|x: int, y: int|
                    0 <= x < g2@.len() && 0 <= y < dim as int ==> #[trigger] g2@[x]@[y] as int
                        == gram_sum(*machine, sams, full, x, y),
                forall|x: int, y: int|
                    0 <= x < g2@.len() && 0 <= y < dim as int ==> -(nsmp as int) <= #[trigger] g2@[
                        x]@[y] <= nsmp as int,
            decreases dimu - a2,
        {
            let mut row: Vec<i64> = Vec::new();
            let mut b: usize = 0;
            while b < dimu
                invariant
                    nsmp == samples@.len(),
                    2 <= nsmp <= 0x4000_0000,
                    sams.len() == nsmp,
                    dimu == dim as usize,
                    a2 < dimu,
                    b <= dimu,
                    pats@.len() == nsmp,
                    forall|u: int|
                        0 <= u < pats@.len() ==> (#[trigger] pats@[u])@.len() == dim as int,
                    forall|u: int, e: int|
                        0 <= u < pats@.len() && 0 <= e < dim as int ==> (#[trigger] pats@[u]@[e])
                            as int == spec_der(*machine, sams[u], full, e),
                    forall|u: int, e: int|
                        0 <= u < pats@.len() && 0 <= e < dim as int ==> -1i8 <= #[trigger] pats@[
                            u]@[e] <= 1i8,
                    row@.len() == b as int,
                    forall|y: int|
                        0 <= y < row@.len() ==> #[trigger] row@[y] as int == gram_sum(*machine,
                            sams, full, a2 as int, y),
                    forall|y: int|
                        0 <= y < row@.len() ==> -(nsmp as int) <= #[trigger] row@[y] <= nsmp
                            as int,
                decreases dimu - b,
            {
                let mut acc: i64 = 0;
                let mut s3: usize = 0;
                while s3 < nsmp
                    invariant
                        nsmp == samples@.len(),
                        2 <= nsmp <= 0x4000_0000,
                        sams.len() == nsmp,
                        dimu == dim as usize,
                        a2 < dimu,
                        b < dimu,
                        s3 <= nsmp,
                        pats@.len() == nsmp,
                        forall|u: int|
                            0 <= u < pats@.len() ==> (#[trigger] pats@[u])@.len() == dim as int,
                        forall|u: int, e: int|
                            0 <= u < pats@.len() && 0 <= e < dim as int ==> (#[trigger] pats@[
                                u]@[e]) as int == spec_der(*machine, sams[u], full, e),
                        forall|u: int, e: int|
                            0 <= u < pats@.len() && 0 <= e < dim as int ==> -1i8
                                <= #[trigger] pats@[u]@[e] <= 1i8,
                        acc as int == gram_sum(*machine, sams.take(s3 as int), full, a2 as int,
                            b as int),
                        -(s3 as int) <= acc as int <= s3 as int,
                    decreases nsmp - s3,
                {
                    let pa = pats[s3][a2];
                    let pb = pats[s3][b];
                    proof {
                        assert(-1 <= pa as int * pb as int <= 1) by (nonlinear_arith)
                            requires -1 <= pa as int <= 1, -1 <= pb as int <= 1;
                    }
                    acc = acc + (pa as i64) * (pb as i64);
                    proof {
                        assert(sams.take(s3 as int + 1).drop_last() =~= sams.take(s3 as int));
                        assert(sams.take(s3 as int + 1).last() == sams[s3 as int]);
                    }
                    s3 = s3 + 1;
                }
                proof {
                    assert(sams.take(nsmp as int) =~= sams);
                }
                row.push(acc);
                b = b + 1;
            }
            g2.push(row);
            a2 = a2 + 1;
        }

        let b = SmatrixBuilder { g2, g, dim, nsmp: nsmp as u32 };
        proof {
            assert forall|x: int, y: int|
                0 <= x < b.dim as int && 0 <= y < b.dim as int implies #[trigger] b.g2@[x]@[y]
                == b.g2@[y]@[x] by {
                lemma_gram_sym(*machine, sams, full, x, y);
            }
        }
        Ok(b)
    }

    /// The integer S-matrix: entry `(a, b)` is
    /// `nsmp * g2[a][b] - g[a] * g[b]`, which is `nsmp^2` times the
    /// covariance `g2[a][b]/nsmp - (g[a]/nsmp)(g[b]/nsmp)` of the derivative
    /// factors. The result equals its own transpose exactly.
    pub fn get_smat(&self) -> (r: Vec<Vec<i64>>)
        requires
            self.wf(),
        ensures
            r@.len() == self.dim as int,
            forall|a: int| 0 <= a < r@.len() ==> (#[trigger] r@[a])@.len() == self.dim as int,
            forall|a: int, b: int|
                0 <= a < self.dim as int && 0 <= b < self.dim as int ==> #[trigger] r@[a]@[b]
                    as int == self.nsmp as int * self.g2@[a]@[b] as int - self.g@[a] as int
                    * self.g@[b] as int,
            forall|a: int, b: int|
                0 <= a < self.dim as int && 0 <= b < self.dim as int ==> #[trigger] r@[a]@[b]
                    == r@[b]@[a],
    {
        let dimu = self.dim as usize;
        let nsmp64 = self.nsmp as i64;
        let mut res: Vec<Vec<i64>> = Vec::new();
        let mut a: usize = 0;
        while a < dimu
            invariant
                self.wf(),
                dimu == self.dim as usize,
                nsmp64 == self.nsmp as i64,
                a <= dimu,
                res@.len() == a as int,
                forall|x: int| 0 <= x < res@.len() ==> (#[trigger] res@[x])@.len() == self.dim
                    as int,
                forall|x: int, y: int|
                    0 <= x < res@.len() && 0 <= y < self.dim as int ==> #[trigger] res@[x]@[y]
                        as int == self.nsmp as int * self.g2@[x]@[y] as int - self.g@[x] as int
                        * self.g@[y] as int,
            decreases dimu - a,
        {
            let mut row: Vec<i64> = Vec::new();
            let mut b: usize = 0;
            while b < dimu
                invariant
                    self.wf(),
                    dimu == self.dim as usize,
                    nsmp64 == self.nsmp as i64,
                    a < dimu,
                    b <= dimu,
                    row@.len() == b as int,
                    forall|y: int|
                        0 <= y < row@.len() ==> #[trigger] row@[y] as int == self.nsmp as int
                            * self.g2@[a as int]@[y] as int - self.g@[a as int] as int
                            * self.g@[y] as int,
                decreases dimu - b,
            {
                let g2v = self.g2[a][b];
                let ga = self.g[a];
                let gb = self.g[b];
                proof {
                    let nn = self.nsmp as int;
                    assert(-(nn * nn) <= nn * g2v as int <= nn * nn && -(nn * nn) <= ga as int
                        * gb as int <= nn * nn && nn * nn <= 0x1000_0000_0000_0000)
                        by (nonlinear_arith)
                        requires
                            0 <= nn <= 0x4000_0000,
                            -nn <= g2v as int <= nn,
                            -nn <= ga as int <= nn,
                            -nn <= gb as int <= nn;
                }
                row.push(nsmp64 * g2v - ga * gb);
                b = b + 1;
            }
            res.push(row);
            a = a + 1;
        }
        res
    }
}

/// Sum of a sequence of integers.
pub open spec fn int_sum(d: Seq<int>) -> int
    decreases d.len(),
{
    if d.len() == 0 {
        0
    } else {
        int_sum(d.drop_last()) + d.last()
    }
}

/// Sum of the squares of a sequence of integers.
pub open spec fn int_sum_sq(d: Seq<int>) -> int
    decreases d.len(),
{
    if d.len() == 0 {
        0
    } else {
        int_sum_sq(d.drop_last()) + d.last() * d.last()
    }
}

pub proof fn lemma_sum_sq_nonneg(d: Seq<int>)
    ensures
        int_sum_sq(d) >= 0,
    decreases d.len(),
{
    if d.len() > 0 {
        lemma_sum_sq_nonneg(d.drop_last());
        assert(d.last() * d.last() >= 0) by (nonlinear_arith);
    }
}

/// For every integer sequence `d`, `d.len() * sum d_i^2 >= (sum d_i)^2`:
/// the variance of an empirical distribution cannot be negative.
pub proof fn lemma_sum_square_bound(d: Seq<int>)
    ensures
        (d.len() as int) * int_sum_sq(d) >= int_sum(d) * int_sum(d),
    decreases d.len(),
{
    if d.len() == 0 {
    } else {
        let s = int_sum(d.drop_last());
        let q = int_sum_sq(d.drop_last());
        let k = d.len() as int - 1;
        let v = d.last();
        lemma_sum_square_bound(d.drop_last());
        lemma_sum_sq_nonneg(d.drop_last());
        if k == 0 {
            assert(s == 0 && q == 0);
            assert(1 * (q + v * v) >= (s + v) * (s + v)) by (nonlinear_arith)
                requires s == 0, q == 0;
        } else {
            assert((s - k * v) * (s - k * v) >= 0) by (nonlinear_arith);
            assert(k * (q + k * (v * v) - 2 * s * v) >= 0) by (nonlinear_arith)
                requires
                    k * q >= s * s,
                    (s - k * v) * (s - k * v) >= 0;
            assert(q + k * (v * v) - 2 * s * v >= 0) by (nonlinear_arith)
                requires
                    k * (q + k * (v * v) - 2 * s * v) >= 0,
                    k > 0;
            assert((k + 1) * (q + v * v) >= (s + v) * (s + v)) by (nonlinear_arith)
                requires
                    k * q >= s * s,
                    q + k * (v * v) - 2 * s * v >= 0;
        }
        assert(int_sum(d) == s + v);
        assert(int_sum_sq(d) == q + v * v);
    }
}

/// Partial dot product of a direction `x` with the derivative factors of
/// one configuration: `sum_{a < k} x[a] * der(c, a)`.
pub open spec fn dd(rbm: RBM, c: Seq<i8>, full: bool, x: Seq<int>, k: int) -> int
    decreases k,
{
    if k <= 0 {
        0
    } else {
        dd(rbm, c, full, x, k - 1) + x[k - 1] * spec_der(rbm, c, full, k - 1)
    }
}

/// Full dot product `x . p(c)` over the whole direction.
pub open spec fn dot_der(rbm: RBM, c: Seq<i8>, full: bool, x: Seq<int>) -> int {
    dd(rbm, c, full, x, x.len() as int)
}

/// Partial dot product of a direction with row `a` of the Gram sums:
/// `sum_{b < k} x[b] * gram_sum(a, b)`.
pub open spec fn row_dot(rbm: RBM, sams: Seq<Seq<i8>>, full: bool, a: int, x: Seq<int>, k: int)
    -> int
    decreases k,
{
    if k <= 0 {
        0
    } else {
        row_dot(rbm, sams, full, a, x, k - 1) + x[k - 1] * gram_sum(rbm, sams, full, a, k - 1)
    }
}

/// Partial quadratic form of the Gram sums:
/// `sum_{a < k} x[a] * (sum_b x[b] * gram_sum(a, b))`.
pub open spec fn qf_gram_upto(rbm: RBM, sams: Seq<Seq<i8>>, full: bool, x: Seq<int>, k: int)
    -> int
    decreases k,
{
    if k <= 0 {
        0
    } else {
        qf_gram_upto(rbm, sams, full, x, k - 1) + x[k - 1] * row_dot(rbm, sams, full, k - 1, x,
            x.len() as int)
    }
}

/// The quadratic form `x^T G2 x` of the Gram sums.
pub open spec fn qf_gram(rbm: RBM, sams: Seq<Seq<i8>>, full: bool, x: Seq<int>) -> int {
    qf_gram_upto(rbm, sams, full, x, x.len() as int)
}

/// Partial dot product of a direction with the column sums:
/// `sum_{a < k} x[a] * col_sum(a)`.
pub open spec fn cd(rbm: RBM, sams: Seq<Seq<i8>>, full: bool, x: Seq<int>, k: int) -> int
    decreases k,
{
    if k <= 0 {
        0
    } else {
        cd(rbm, sams, full, x, k - 1) + x[k - 1] * col_sum(rbm, sams, full, k - 1)
    }
}

/// The dot product `x . g` with the column sums.
pub open spec fn col_dot(rbm: RBM, sams: Seq<Seq<i8>>, full: bool, x: Seq<int>) -> int {
    cd(rbm, sams, full, x, x.len() as int)
}

/// The per-sample dot products `d_s = x . p_s` over the batch.
pub open spec fn der_dots(rbm: RBM, sams: Seq<Seq<i8>>, full: bool, x: Seq<int>) -> Seq<int> {
    sams.map_values(|c: Seq<i8>| dot_der(rbm, c, full, x))
}

proof fn lemma_row_dot_last(rbm: RBM, sams: Seq<Seq<i8>>, full: bool, a: int, x: Seq<int>,
    k: int)
    requires
        sams.len() > 0,
    ensures
        row_dot(rbm, sams, full, a, x, k) == row_dot(rbm, sams.drop_last(), full, a, x, k)
            + spec_der(rbm, sams.last(), full, a) * dd(rbm, sams.last(), full, x, k),
    decreases k,
{
    if k <= 0 {
    } else {
        lemma_row_dot_last(rbm, sams, full, a, x, k - 1);
        let p = spec_der(rbm, sams.last(), full, a);
        let xk = x[k - 1];
        let dk = spec_der(rbm, sams.last(), full, k - 1);
        let g0 = gram_sum(rbm, sams.drop_last(), full, a, k - 1);
        let d0 = dd(rbm, sams.last(), full, x, k - 1);
        assert(gram_sum(rbm, sams, full, a, k - 1) == g0 + p * dk);
        assert(xk * (g0 + p * dk) == xk * g0 + p * (xk * dk) && p * (d0 + xk * dk) == p * d0 + p
            * (xk * dk)) by (nonlinear_arith);
    }
}

proof fn lemma_cd_last(rbm: RBM, sams: Seq<Seq<i8>>, full: bool, x: Seq<int>, k: int)
    requires
        sams.len() > 0,
    ensures
        cd(rbm, sams, full, x, k) == cd(rbm, sams.drop_last(), full, x, k) + dd(rbm, sams.last(),
            full, x, k),
    decreases k,
{
    if k <= 0 {
    } else {
        lemma_cd_last(rbm, sams, full, x, k - 1);
        let xk = x[k - 1];
        let c0 = col_sum(rbm, sams.drop_last(), full, k - 1);
        let dk = spec_der(rbm, sams.last(), full, k - 1);
        assert(col_sum(rbm, sams, full, k - 1) == c0 + dk);
        assert(xk * (c0 + dk) == xk * c0 + xk * dk) by (nonlinear_arith);
    }
}

proof fn lemma_qf_last(rbm: RBM, sams: Seq<Seq<i8>>, full: bool, x: Seq<int>, k: int)
    requires
        sams.len() > 0,
    ensures
        qf_gram_upto(rbm, sams, full, x, k) == qf_gram_upto(rbm, sams.drop_last(), full, x, k)
            + dd(rbm, sams.last(), full, x, k) * dot_der(rbm, sams.last(), full, x),
    decreases k,
{
    if k <= 0 {
    } else {
        lemma_qf_last(rbm, sams, full, x, k - 1);
        lemma_row_dot_last(rbm, sams, full, k - 1, x, x.len() as int);
        let xk = x[k - 1];
        let r0 = row_dot(rbm, sams.drop_last(), full, k - 1, x, x.len() as int);
        let pk = spec_der(rbm, sams.last(), full, k - 1);
        let dot = dot_der(rbm, sams.last(), full, x);
        let d0 = dd(rbm, sams.last(), full, x, k - 1);
        assert(xk * (r0 + pk * dot) == xk * r0 + (xk * pk) * dot && (d0 + xk * pk) * dot == d0
            * dot + (xk * pk) * dot) by (nonlinear_arith);
    }
}

/// `x^T G2 x` is the sum of the squared per-sample dots, and `x . g` is
/// their plain sum.
proof fn lemma_moments_as_dots(rbm: RBM, sams: Seq<Seq<i8>>, full: bool, x: Seq<int>)
    ensures
        qf_gram(rbm, sams, full, x) == int_sum_sq(der_dots(rbm, sams, full, x)),
        col_dot(rbm, sams, full, x) == int_sum(der_dots(rbm, sams, full, x)),
    decreases sams.len(),
{
    let ds = der_dots(rbm, sams, full, x);
    if sams.len() == 0 {
        lemma_empty_moments(rbm, sams, full, x, x.len() as int);
        assert(ds.len() == 0);
    } else {
        lemma_moments_as_dots(rbm, sams.drop_last(), full, x);
        lemma_qf_last(rbm, sams, full, x, x.len() as int);
        lemma_cd_last(rbm, sams, full, x, x.len() as int);
        assert(der_dots(rbm, sams.drop_last(), full, x) =~= ds.drop_last());
        assert(ds.last() == dot_der(rbm, sams.last(), full, x));
    }
}

proof fn lemma_empty_moments(rbm: RBM, sams: Seq<Seq<i8>>, full: bool, x: Seq<int>, k: int)
    requires
        sams.len() == 0,
    ensures
        qf_gram_upto(rbm, sams, full, x, k) == 0,
        cd(rbm, sams, full, x, k) == 0,
    decreases k,
{
    if k > 0 {
        lemma_empty_moments(rbm, sams, full, x, k - 1);
        lemma_empty_row_dot(rbm, sams, full, x, x.len() as int);
    }
}

proof fn lemma_empty_row_dot(rbm: RBM, sams: Seq<Seq<i8>>, full: bool, x: Seq<int>, k: int)
    requires
        sams.len() == 0,
    ensures
        forall|a: int| row_dot(rbm, sams, full, a, x, k) == 0,
    decreases k,
{
    if k > 0 {
        lemma_empty_row_dot(rbm, sams, full, x, k - 1);
        assert forall|a: int| row_dot(rbm, sams, full, a, x, k) == 0 by {
            assert(row_dot(rbm, sams, full, a, x, k - 1) == 0);
        }
    }
}

/// The S-matrix is positive semidefinite: for any direction `x`, the
/// quadratic form of the integer S-matrix —
/// `S * (x^T G2 x) - (x . g)^2` with `S` the batch size, which by the
/// contracts of `construct_from_samples` / `construct_full_from_samples`
/// and `get_smat` is exactly `x^T get_smat() x` — is nonnegative.
pub proof fn lemma_smatrix_psd(rbm: RBM, sams: Seq<Seq<i8>>, full: bool, x: Seq<int>)
    ensures
        (sams.len() as int) * qf_gram(rbm, sams, full, x) - col_dot(rbm, sams, full, x) * col_dot(
            rbm, sams, full, x) >= 0,
{
    let ds = der_dots(rbm, sams, full, x);
    lemma_moments_as_dots(rbm, sams, full, x);
    lemma_sum_square_bound(ds);
    assert(ds.len() == sams.len());
}

} // verus!
