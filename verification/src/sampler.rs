//! The Wolff cluster sampler: holds one live spin configuration and updates
//! it by growing and flipping one aligned cluster per sweep.
//!
//! Randomness is an explicitly passed [`RandomSource`]: either a scripted
//! replay (for reproducible runs) or the process generator drawing each bond
//! activation with a probability given as an integer ratio. For the
//! ferromagnetic model at inverse temperature `beta` the caller supplies a
//! ratio approximating `1 - exp(-2 * beta)`, the activation probability that
//! enforces detailed balance.
use vstd::prelude::*;
use crate::{valid_conf, lemma_push_contains, SimError};
use crate::ising::{Model, Ising2D, lemma_neighbors_elems};
use vstd::arithmetic::div_mod::{
    lemma_fundamental_div_mod, lemma_fundamental_div_mod_converse, lemma_mod_bound,
};
use rand::Rng;

verus! {

/// Where a [`RandomSource`] takes its draws from.
#[derive(Clone, Copy, Debug, PartialEq, Eq, Structural)]
pub enum SourceMode {
    /// Replay the recorded site and activation scripts; past their ends the
    /// source yields site `0` and rejects every activation.
    Scripted,
    /// Draw from the process generator; a candidate bond activates with
    /// probability `num / den`.
    Ratio { num: u32, den: u32 },
}

/// An explicitly passed, restartable source of the two kinds of draws a
/// sweep makes: seed sites and bond activations.
pub struct RandomSource {
    pub mode: SourceMode,
    pub sites: Vec<u32>,
    pub draws: Vec<bool>,
    pub site_pos: usize,
    pub draw_pos: usize,
}

impl RandomSource {
    pub open spec fn wf(self) -> bool {
        match self.mode {
            SourceMode::Scripted => self.site_pos <= self.sites@.len() && self.draw_pos
                <= self.draws@.len(),
            SourceMode::Ratio { num, den } => 0 < den && num <= den,
        }
    }

    /// Every activation this source will ever yield is a rejection.
    pub open spec fn all_reject(self) -> bool {
        match self.mode {
            SourceMode::Scripted => forall|i: int|
                self.draw_pos <= i < self.draws@.len() ==> !(#[trigger] self.draws@[i]),
            SourceMode::Ratio { num, den } => num == 0,
        }
    }

    /// Every activation this source will ever yield is an acceptance.
    pub open spec fn all_accept(self) -> bool {
        match self.mode {
            SourceMode::Scripted => false,
            SourceMode::Ratio { num, den } => num == den,
        }
    }

    /// The site a scripted source yields next, reduced modulo `n`.
    pub open spec fn peek_site(self, n: int) -> int {
        if self.site_pos < self.sites@.len() {
            (self.sites@[self.site_pos as int] as int) % n
        } else {
            0
        }
    }

    /// The activation a scripted source yields next.
    pub open spec fn peek_draw(self) -> bool {
        if self.draw_pos < self.draws@.len() {
            self.draws@[self.draw_pos as int]
        } else {
            false
        }
    }

    /// A source that replays the given seed sites and activation decisions.
    pub fn scripted(sites: Vec<u32>, draws: Vec<bool>) -> (r: RandomSource)
        ensures
            r.wf(),
            r.mode == SourceMode::Scripted,
            r.sites == sites,
            r.draws == draws,
            r.site_pos == 0,
            r.draw_pos == 0,
    {
        RandomSource { mode: SourceMode::Scripted, sites, draws, site_pos: 0, draw_pos: 0 }
    }

    /// A source backed by the process generator, activating each candidate
    /// bond with probability `num / den`; rejects a ratio that is not a
    /// probability.
    pub fn ratio(num: u32, den: u32) -> (r: Result<RandomSource, SimError>)
        ensures
            match r {
                Ok(s) => 0 < den && num <= den && s.wf() && s.mode == (SourceMode::Ratio {
                    num, den }) && (s.all_reject() <==> num == 0) && (s.all_accept() <==> num
                    == den),
                Err(e) => e == SimError::InvalidParameter && (den == 0 || num > den),
            },
    {
        if den == 0 || num > den {
            Err(SimError::InvalidParameter)
        } else {
            Ok(RandomSource {
                mode: SourceMode::Ratio { num, den },
                sites: Vec::new(),
                draws: Vec::new(),
                site_pos: 0,
                draw_pos: 0,
            })
        }
    }

    /// The next seed site, below `n`.
    pub fn next_site(&mut self, n: u32) -> (r: u32)
        requires
            old(self).wf(),
            n > 0,
        ensures
            r < n,
            final(self).wf(),
            final(self).mode == old(self).mode,
            final(self).draws == old(self).draws,
            final(self).draw_pos == old(self).draw_pos,
            final(self).all_reject() == old(self).all_reject(),
            final(self).all_accept() == old(self).all_accept(),
            old(self).mode is Scripted ==> r as int == old(self).peek_site(n as int),
    {
        match self.mode {
            SourceMode::Scripted => {
                if self.site_pos < self.sites.len() {
                    let v = self.sites[self.site_pos] % n;
                    self.site_pos = self.site_pos + 1;
                    v
                } else {
                    0
                }
            }
            SourceMode::Ratio { .. } => draw_index(n),
        }
    }

    /// The next bond-activation decision.
    pub fn next_draw(&mut self) -> (r: bool)
        requires
            old(self).wf(),
        ensures
            final(self).wf(),
            final(self).mode == old(self).mode,
            final(self).sites == old(self).sites,
            final(self).site_pos == old(self).site_pos,
            old(self).all_reject() ==> final(self).all_reject(),
            old(self).all_accept() ==> final(self).all_accept(),
            old(self).all_reject() ==> !r,
            old(self).all_accept() ==> r,
            old(self).mode is Scripted ==> r == old(self).peek_draw(),
    {
        match self.mode {
            SourceMode::Scripted => {
                if self.draw_pos < self.draws.len() {
                    let v = self.draws[self.draw_pos];
                    self.draw_pos = self.draw_pos + 1;
                    v
                } else {
                    false
                }
            }
            SourceMode::Ratio { num, den } => draw_ratio(num, den),
        }
    }
}

/// Relies on rand's `Rng::gen_range` over `0..n`: a value uniform in the
/// range, in particular below `n`; the range is nonempty, so it cannot panic.
#[verifier::external_body]
fn draw_index(n: u32) -> (r: u32)
    requires
        n > 0,
    ensures
        r < n,
{
    rand::thread_rng().gen_range(0..n)
}

/// Relies on rand's `Rng::gen_ratio`: true with probability `num / den`,
/// guaranteed false when `num == 0` and guaranteed true when `num == den`;
/// `0 < den` and `num <= den` keep it from panicking.
#[verifier::external_body]
fn draw_ratio(num: u32, den: u32) -> (r: bool)
    requires
        0 < den,
        num <= den,
    ensures
        num == 0 ==> !r,
        num == den ==> r,
{
    rand::thread_rng().gen_ratio(num, den)
}

/// A configuration of `n` sites, each spin drawn independently and uniformly
/// from {-1, +1}.
pub fn random_conf(n: u32) -> (r: Vec<i8>)
    ensures
        valid_conf(r@, n as int),
{
    let mut conf: Vec<i8> = Vec::new();
    let mut i: u32 = 0;
    while i < n
        invariant
            i <= n,
            conf@.len() == i as int,
            forall|t: int| 0 <= t < conf@.len() ==> #[trigger] conf@[t] == 1i8 || conf@[t]
                == -1i8,
        decreases n - i,
    {
        let b = draw_index(2);
        conf.push(if b == 0 { 1i8 } else { -1i8 });
        i = i + 1;
    }
    conf
}

/// How many entries of a membership bitmap are set.
spec fn count_true(s: Seq<bool>) -> int
    decreases s.len(),
{
    if s.len() == 0 {
        0
    } else {
        count_true(s.drop_last()) + if s.last() { 1int } else { 0int }
    }
}

proof fn lemma_count_true_le(s: Seq<bool>)
    ensures
        0 <= count_true(s) <= s.len(),
    decreases s.len(),
{
    if s.len() > 0 {
        lemma_count_true_le(s.drop_last());
    }
}

proof fn lemma_count_true_update(s: Seq<bool>, i: int)
    requires
        0 <= i < s.len(),
        !s[i],
    ensures
        count_true(s.update(i, true)) == count_true(s) + 1,
    decreases s.len(),
{
    let t = s.update(i, true);
    if i == s.len() - 1 {
        assert(t.drop_last() =~= s.drop_last());
        assert(t.last());
    } else {
        assert(t.drop_last() =~= s.drop_last().update(i, true));
        lemma_count_true_update(s.drop_last(), i);
        assert(t.last() == s.last());
    }
}

/// One live Markov chain: a lattice and its current spin configuration.
pub struct WolffSampler<T: Model> {
    model: T,
    conf: Vec<i8>,
}

impl<T: Model> WolffSampler<T> {
    pub closed spec fn spec_model(self) -> T {
        self.model
    }

    pub closed spec fn spec_conf(self) -> Seq<i8> {
        self.conf@
    }

    pub open spec fn wf(self) -> bool {
        &&& self.spec_model().wf()
        &&& 1 <= self.spec_model().spec_size() <= u32::MAX
        &&& valid_conf(self.spec_conf(), self.spec_model().spec_size())
    }

    /// Rejects a lattice with no sites, else starts from a uniformly random
    /// configuration.
    pub fn new(model: T) -> (r: Result<WolffSampler<T>, SimError>)
        requires
            model.wf(),
        ensures
            match r {
                Ok(s) => model.spec_size() >= 1 && s.wf() && s.spec_model() == model,
                Err(e) => e == SimError::InvalidGeometry && model.spec_size() == 0,
            },
    {
        let n = model.size();
        if n == 0 {
            Err(SimError::InvalidGeometry)
        } else {
            let conf = random_conf(n);
            Ok(WolffSampler { model, conf })
        }
    }

    /// Starts from a caller-supplied configuration; rejects a degenerate
    /// lattice and a configuration whose length or entries do not fit it.
    pub fn from_conf(model: T, conf: Vec<i8>) -> (r: Result<WolffSampler<T>, SimError>)
        requires
            model.wf(),
        ensures
            match r {
                Ok(s) => model.spec_size() >= 1 && s.wf() && s.spec_model() == model
                    && s.spec_conf() == conf@,
                Err(e) => (e == SimError::InvalidGeometry && model.spec_size() == 0) || (e
                    == SimError::InvalidParameter && !valid_conf(conf@, model.spec_size())),
            },
    {
        let n = model.size();
        if n == 0 {
            return Err(SimError::InvalidGeometry);
        }
        if conf.len() != n as usize {
            return Err(SimError::InvalidParameter);
        }
        let mut i: usize = 0;
        while i < conf.len()
            invariant
                i <= conf@.len(),
                forall|t: int| 0 <= t < i ==> #[trigger] conf@[t] == 1i8 || conf@[t] == -1i8,
            decreases conf@.len() - i,
        {
            let c = conf[i];
            if c != 1 && c != -1 {
                return Err(SimError::InvalidParameter);
            }
            i = i + 1;
        }
        Ok(WolffSampler { model, conf })
    }

    /// Redraws the configuration uniformly at random, decorrelating
    /// independent runs.
    pub fn randomize_conf(&mut self)
        requires
            old(self).wf(),
        ensures
            final(self).wf(),
            final(self).spec_model() == old(self).spec_model(),
    {
        let n = self.model.size();
        self.conf = random_conf(n);
    }

    pub fn size(&self) -> (r: u32)
        requires
            self.wf(),
        ensures
            r as int == self.spec_model().spec_size(),
    {
        self.model.size()
    }

    /// Read-only view of the current configuration.
    #[allow(non_snake_case)]
    pub fn getConf(&self) -> (r: &Vec<i8>)
        requires
            self.wf(),
        ensures
            r@ == self.spec_conf(),
    {
        &self.conf
    }

    /// One Wolff cluster update. A seed site is drawn from the source; the
    /// cluster grows by breadth-first traversal, each candidate bond between
    /// a cluster site and an aligned outside neighbor activated by one
    /// independent draw (each such bond is examined at most once); finally
    /// every cluster spin is flipped. Returns the cluster as the list of
    /// flipped sites in visiting order, the seed first.
    ///
    /// A source that rejects every draw grows no bond, so the cluster is the
    /// seed alone; a source that accepts every draw closes the cluster under
    /// aligned adjacency.
    pub fn sweep(&mut self, src: &mut RandomSource) -> (cluster: Vec<u32>)
        requires
            old(self).wf(),
            old(src).wf(),
        ensures
            final(self).wf(),
            final(self).spec_model() == old(self).spec_model(),
            final(self).spec_conf().len() == old(self).spec_conf().len(),
            final(src).wf(),
            final(src).mode == old(src).mode,
            old(src).all_reject() ==> final(src).all_reject(),
            old(src).all_accept() ==> final(src).all_accept(),
            cluster@.len() >= 1,
            forall|t: int|
                0 <= t < cluster@.len() ==> (#[trigger] cluster@[t] as int) < old(
                    self).spec_model().spec_size(),
            forall|t1: int, t2: int|
                0 <= t1 < t2 < cluster@.len() ==> cluster@[t1] != cluster@[t2],
            forall|t: int|
                0 <= t < cluster@.len() ==> old(self).spec_conf()[#[trigger] cluster@[t] as int]
                    == old(self).spec_conf()[cluster@[0] as int],
            forall|s: int|
                0 <= s < old(self).spec_conf().len() ==> (#[trigger] final(
                    self).spec_conf()[s] as int) == (if cluster@.contains(s as u32) {
                    -(old(self).spec_conf()[s] as int)
                } else {
                    old(self).spec_conf()[s] as int
                }),
            old(src).mode is Scripted ==> cluster@[0] as int == old(src).peek_site(
                old(self).spec_model().spec_size()),
            old(src).all_reject() ==> cluster@.len() == 1,
            old(src).all_accept() ==> forall|t: int, x: int|
                0 <= t < cluster@.len() && (#[trigger] old(self).spec_model().spec_neighbors(
                    cluster@[t] as int).contains(x)) && old(self).spec_conf()[x] == old(
                    self).spec_conf()[cluster@[t] as int] ==> cluster@.contains(x as u32),
    {
        let n = self.model.size();
        let ghost c0 = self.conf@;
        let ghost m0 = self.spec_model();
        let seed = src.next_site(n);

        let mut in_cluster: Vec<bool> = Vec::new();
        let mut i0: u32 = 0;
        while i0 < n
            invariant
                i0 <= n,
                in_cluster@.len() == i0 as int,
                count_true(in_cluster@) == 0,
                forall|t: int| 0 <= t < in_cluster@.len() ==> !(#[trigger] in_cluster@[t]),
            decreases n - i0,
        {
            proof {
                assert(in_cluster@.push(false).drop_last() =~= in_cluster@);
            }
            in_cluster.push(false);
            i0 = i0 + 1;
        }

        let mut members: Vec<u32> = Vec::new();
        proof {
            lemma_count_true_update(in_cluster@, seed as int);
        }
        in_cluster.set(seed as usize, true);
        members.push(seed);
        proof {
            assert(members@[0] == seed);
            assert(members@.contains(seed));
        }
        let mut head: usize = 0;

        while head < members.len()
            invariant
                self.wf(),
                self.spec_conf() == c0,
                self.spec_model() == m0,
                m0 == old(self).spec_model(),
                n as int == m0.spec_size(),
                n >= 1,
                seed < n,
                src.wf(),
                src.mode == old(src).mode,
                old(src).all_reject() ==> src.all_reject(),
                old(src).all_accept() ==> src.all_accept(),
                in_cluster@.len() == n as int,
                members@.len() >= 1,
                members@[0] == seed,
                head <= members@.len(),
                count_true(in_cluster@) == members@.len(),
                forall|t: int| 0 <= t < members@.len() ==> (#[trigger] members@[t]) < n,
                forall|t: int|
                    0 <= t < members@.len() ==> in_cluster@[#[trigger] members@[t] as int],
                forall|s: int|
                    0 <= s < n ==> (#[trigger] in_cluster@[s] ==> members@.contains(s as u32)),
                forall|t1: int, t2: int|
                    0 <= t1 < t2 < members@.len() ==> members@[t1] != members@[t2],
                forall|t: int|
                    0 <= t < members@.len() ==> c0[#[trigger] members@[t] as int] == c0[
                        seed as int],
                old(src).all_reject() ==> members@.len() == 1,
                old(src).all_accept() ==> forall|t: int, x: int|
                    0 <= t < head && (#[trigger] m0.spec_neighbors(
                        members@[t] as int).contains(x)) && c0[x] == c0[members@[t] as int]
                        ==> members@.contains(x as u32),
            decreases n as int - head,
        {
            proof {
                lemma_count_true_le(in_cluster@);
            }
            let k = members[head];
            head = head + 1;
            let nbrs = self.model.neighbors(k);
            let ghost nb = m0.spec_neighbors(k as int);
            let mut t: usize = 0;
            while t < nbrs.len()
                invariant
                    self.wf(),
                    self.spec_conf() == c0,
                    self.spec_model() == m0,
                    m0 == old(self).spec_model(),
                    n as int == m0.spec_size(),
                    n >= 1,
                    seed < n,
                    k < n,
                    src.wf(),
                    src.mode == old(src).mode,
                    old(src).all_reject() ==> src.all_reject(),
                    old(src).all_accept() ==> src.all_accept(),
                    in_cluster@.len() == n as int,
                    members@.len() >= 1,
                    members@[0] == seed,
                    1 <= head <= members@.len(),
                    members@[head - 1] == k,
                    count_true(in_cluster@) == members@.len(),
                    nb == m0.spec_neighbors(k as int),
                    nbrs@.len() == nb.len(),
                    t <= nbrs@.len(),
                    forall|u: int| 0 <= u < nbrs@.len() ==> #[trigger] nbrs@[u] as int == nb[u],
                    forall|u: int| 0 <= u < nbrs@.len() ==> (#[trigger] nbrs@[u]) < n,
                    forall|u: int| 0 <= u < members@.len() ==> (#[trigger] members@[u]) < n,
                    forall|u: int|
                        0 <= u < members@.len() ==> in_cluster@[#[trigger] members@[u] as int],
                    forall|s: int|
                        0 <= s < n ==> (#[trigger] in_cluster@[s] ==> members@.contains(
                            s as u32)),
                    forall|t1: int, t2: int|
                        0 <= t1 < t2 < members@.len() ==> members@[t1] != members@[t2],
                    forall|u: int|
                        0 <= u < members@.len() ==> c0[#[trigger] members@[u] as int] == c0[
                            seed as int],
                    old(src).all_reject() ==> members@.len() == 1,
                    old(src).all_accept() ==> forall|u: int, x: int|
                        0 <= u < head - 1 && (#[trigger] m0.spec_neighbors(
                            members@[u] as int).contains(x)) && c0[x] == c0[members@[u] as int]
                            ==> members@.contains(x as u32),
                    old(src).all_accept() ==> forall|v: int|
                        0 <= v < t && c0[#[trigger] nb[v]] == c0[k as int] ==> members@.contains(
                            nb[v] as u32),
                decreases nbrs@.len() - t,
            {
                let x = nbrs[t];
                let ghost members_before = members@;
                if self.conf[k as usize] == self.conf[x as usize] {
                    if !in_cluster[x as usize] {
                        let accept = src.next_draw();
                        if accept {
                            proof {
                                lemma_count_true_update(in_cluster@, x as int);
                            }
                            in_cluster.set(x as usize, true);
                            members.push(x);
                            proof {
                                assert forall|s: int|
                                    0 <= s < n && #[trigger] in_cluster@[s] implies members@
                                    .contains(s as u32) by {
                                    lemma_push_contains(members_before, x, s as u32);
                                }
                                assert forall|u: int, y: int|
                                    old(src).all_accept() && 0 <= u < head - 1 && (
                                    #[trigger] m0.spec_neighbors(members@[u] as int).contains(y))
                                    && c0[y] == c0[members@[u] as int] implies members@.contains(
                                    y as u32) by {
                                    if 0 <= y < n {
                                        lemma_push_contains(members_before, x, y as u32);
                                    } else {
                                        lemma_push_contains(members_before, x, y as u32);
                                    }
                                }
                                assert forall|v: int|
                                    old(src).all_accept() && 0 <= v < t + 1 && c0[#[trigger] nb[
                                    v]] == c0[k as int] implies members@.contains(nb[v] as u32)
                                    by {
                                    lemma_push_contains(members_before, x, nb[v] as u32);
                                }
                            }
                        }
                    }
                }
                t = t + 1;
            }
            proof {
                if old(src).all_accept() {
                    assert forall|u: int, x: int|
                        0 <= u < head && (#[trigger] m0.spec_neighbors(
                            members@[u] as int).contains(x)) && c0[x] == c0[members@[u] as int]
                        implies members@.contains(x as u32) by {
                        if u == head - 1 {
                            let v = choose|v: int| 0 <= v < nb.len() && nb[v] == x;
                            assert(members@.contains(nb[v] as u32));
                        }
                    }
                }
            }
        }

        // flip every cluster spin
        let ghost memb = members@;
        let mlen = members.len();
        let mut idx: usize = 0;
        while idx < mlen
            invariant
                self.spec_model() == m0,
                m0 == old(self).spec_model(),
                m0.wf(),
                n as int == m0.spec_size(),
                1 <= n as int <= u32::MAX,
                members@ == memb,
                mlen == memb.len(),
                idx <= mlen,
                self.spec_conf().len() == n as int,
                valid_conf(c0, n as int),
                forall|t: int| 0 <= t < memb.len() ==> (#[trigger] memb[t] as int) < n as int,
                forall|t1: int, t2: int| 0 <= t1 < t2 < memb.len() ==> memb[t1] != memb[t2],
                forall|s: int|
                    0 <= s < n ==> (#[trigger] self.spec_conf()[s] as int) == (if memb.take(
                        idx as int).contains(s as u32) {
                        -(c0[s] as int)
                    } else {
                        c0[s] as int
                    }),
            decreases mlen - idx,
        {
            let s = members[idx];
            proof {
                if memb.take(idx as int).contains(memb[idx as int]) {
                    let w = choose|w: int|
                        0 <= w < idx as int && memb.take(idx as int)[w] == memb[idx as int];
                    assert(memb[w] == memb[idx as int]);
                    assert(false);
                }
            }
            let cur = self.conf[s as usize];
            assert(cur as int == c0[s as int] as int);
            assert(cur == 1i8 || cur == -1i8);
            let newv: i8 = if cur == 1 { -1 } else { 1 };
            self.conf.set(s as usize, newv);
            proof {
                assert(memb.take(idx as int + 1) =~= memb.take(idx as int).push(
                    memb[idx as int]));
                assert forall|q: int| 0 <= q < n implies (#[trigger] self.spec_conf()[q] as int)
                    == (if memb.take(idx as int + 1).contains(q as u32) {
                    -(c0[q] as int)
                } else {
                    c0[q] as int
                }) by {
                    lemma_push_contains(memb.take(idx as int), memb[idx as int], q as u32);
                }
            }
            idx = idx + 1;
        }
        proof {
            assert(memb.take(mlen as int) =~= memb);
            assert(valid_conf(self.spec_conf(), n as int));
        }
        members
    }
}

proof fn lemma_walk(m: Ising2D, cluster: Seq<u32>, c0: Seq<i8>, from: int, to: int)
    requires
        m.spec_wf(),
        c0.len() == m.spec_size(),
        forall|i: int| 0 <= i < c0.len() ==> #[trigger] c0[i] == c0[0],
        forall|t: int, x: int|
            0 <= t < cluster.len() && (#[trigger] m.spec_neighbors_of(
                cluster[t] as int).contains(x)) && c0[x] == c0[cluster[t] as int]
                ==> cluster.contains(x as u32),
        0 <= from < m.spec_size(),
        0 <= to < m.spec_size(),
        cluster.contains(from as u32),
    ensures
        cluster.contains(to as u32),
    decreases
        (if from % (m.n1 as int) <= to % (m.n1 as int) {
            to % (m.n1 as int) - from % (m.n1 as int)
        } else {
            from % (m.n1 as int) - to % (m.n1 as int)
        }) + (if from / (m.n1 as int) <= to / (m.n1 as int) {
            to / (m.n1 as int) - from / (m.n1 as int)
        } else {
            from / (m.n1 as int) - to / (m.n1 as int)
        }),
{
    let n1 = m.n1 as int;
    let n2 = m.n2 as int;
    lemma_fundamental_div_mod(from, n1);
    lemma_mod_bound(from, n1);
    lemma_fundamental_div_mod(to, n1);
    lemma_mod_bound(to, n1);
    let fi = from % n1;
    let fj = from / n1;
    let ti = to % n1;
    let tj = to / n1;
    assert(0 <= fj < n2 && 0 <= tj < n2) by (nonlinear_arith)
        requires
            0 <= from < n1 * n2,
            0 <= to < n1 * n2,
            1 <= n1,
            from == n1 * fj + fi,
            to == n1 * tj + ti,
            0 <= fi < n1,
            0 <= ti < n1;
    let t0 = choose|t: int| 0 <= t < cluster.len() && cluster[t] == from as u32;
    assert(cluster[t0] as int == from);
    if fi < ti {
        let nxt = from + 1;
        assert(nxt < n1 * n2) by (nonlinear_arith)
            requires nxt == n1 * fj + fi + 1, fi + 1 < n1, fj + 1 <= n2, 1 <= n1;
        lemma_neighbors_elems(m, from, nxt);
        assert(m.spec_neighbors_of(cluster[t0] as int).contains(nxt));
        assert(cluster.contains(nxt as u32));
        lemma_fundamental_div_mod_converse(nxt, n1, fj, fi + 1);
        lemma_walk(m, cluster, c0, nxt, to);
    } else if ti < fi {
        let nxt = from - 1;
        lemma_neighbors_elems(m, from, nxt);
        assert(m.spec_neighbors_of(cluster[t0] as int).contains(nxt));
        assert(cluster.contains(nxt as u32));
        lemma_fundamental_div_mod_converse(nxt, n1, fj, fi - 1);
        lemma_walk(m, cluster, c0, nxt, to);
    } else if fj < tj {
        let nxt = from + n1;
        assert((fj + 1) * n1 == fj * n1 + n1 && fj * n1 == n1 * fj && nxt < n1 * n2)
            by (nonlinear_arith)
            requires nxt == n1 * fj + fi + n1, fj + 1 < n2, 0 <= fi < n1, 1 <= n1;
        lemma_neighbors_elems(m, from, nxt);
        assert(m.spec_neighbors_of(cluster[t0] as int).contains(nxt));
        assert(cluster.contains(nxt as u32));
        lemma_fundamental_div_mod_converse(nxt, n1, fj + 1, fi);
        lemma_walk(m, cluster, c0, nxt, to);
    } else if tj < fj {
        let nxt = from - n1;
        assert((fj - 1) * n1 == fj * n1 - n1 && fj * n1 == n1 * fj && 0 <= nxt)
            by (nonlinear_arith)
            requires nxt == n1 * fj + fi - n1, 1 <= fj, 0 <= fi, 1 <= n1;
        lemma_neighbors_elems(m, from, nxt);
        assert(m.spec_neighbors_of(cluster[t0] as int).contains(nxt));
        assert(cluster.contains(nxt as u32));
        lemma_fundamental_div_mod_converse(nxt, n1, fj - 1, fi);
        lemma_walk(m, cluster, c0, nxt, to);
    } else {
        assert(from == to);
    }
}

/// The large-beta limit of a sweep on a fully aligned grid: a cluster that
/// is closed under aligned adjacency (as `sweep` guarantees of an
/// all-accepting source) and holds one site of a grid whose spins all agree
/// holds every site — the whole lattice flips as one cluster.
pub proof fn lemma_aligned_cluster_covers_grid(m: Ising2D, cluster: Seq<u32>, c0: Seq<i8>)
    requires
        m.spec_wf(),
        c0.len() == m.spec_size(),
        forall|i: int| 0 <= i < c0.len() ==> #[trigger] c0[i] == c0[0],
        cluster.len() >= 1,
        forall|t: int|
            0 <= t < cluster.len() ==> (#[trigger] cluster[t] as int) < m.spec_size(),
        forall|t: int, x: int|
            0 <= t < cluster.len() && (#[trigger] m.spec_neighbors_of(
                cluster[t] as int).contains(x)) && c0[x] == c0[cluster[t] as int]
                ==> cluster.contains(x as u32),
    ensures
        forall|q: int| 0 <= q < m.spec_size() ==> #[trigger] cluster.contains(q as u32),
{
    assert forall|q: int| 0 <= q < m.spec_size() implies #[trigger] cluster.contains(q as u32) by {
        assert(cluster[0] == cluster[0] && cluster.contains(cluster[0]));
        lemma_walk(m, cluster, c0, cluster[0] as int, q);
    }
}

} // verus!
