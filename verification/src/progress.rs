//! Weighted progress accounting.  Each level's completed-output count
//! is folded, with the geometric level weights, into a percentage in
//! basis points (hundredths of a percentage point); the percentage
//! never decreases within a run, and the reporting policy passes an
//! update to the observer only when it moved by more than one
//! percentage point, or at the terminal update.

use vstd::prelude::*;

verus! {

use vstd::arithmetic::div_mod::lemma_div_is_ordered;
use vstd::arithmetic::div_mod::lemma_div_by_multiple;
use crate::plan::pow8;
use crate::plan::lemma_pow8_le;
use crate::plan::lemma_pow8_bound;
use crate::plan::spec_weight_sum;
use crate::plan::lemma_weight_sum_bound;
use crate::plan::level_weight;
use crate::plan::weight_total;
use crate::plan::outputs_in_level;
use crate::plan::spec_outputs;

/// One level's contribution to the percentage, in basis points:
/// `10000 * (counts / outputs) * (weight / total)`, rounded down.
pub open spec fn spec_term(counts: int, outputs: int, weight: int, total: int) -> int {
    (10000 * counts * weight) / (outputs * total)
}

/// The sum of the first `l` levels' contributions.
pub open spec fn spec_bp_sum(
    counts: Seq<usize>,
    outputs: Seq<usize>,
    weights: Seq<u128>,
    total: u128,
    l: int,
) -> int
    decreases l,
{
    if l <= 0 {
        0
    } else {
        spec_bp_sum(counts, outputs, weights, total, l - 1) + spec_term(
            counts[l - 1] as int,
            outputs[l - 1] as int,
            weights[l - 1] as int,
            total as int,
        )
    }
}

/// The weighted-progress accumulator of one run: per-level completed
/// output counts against the planned output counts and time weights.
pub struct Progress {
    pub levels: usize,
    pub n: usize,
    pub outputs: Vec<usize>,
    pub weights: Vec<u128>,
    pub total: u128,
    pub counts: Vec<usize>,
}

impl Progress {
    pub open spec fn wf(&self) -> bool {
        &&& 1 <= self.levels <= 24
        &&& 1 <= self.n <= 0xFFFF_FFFF
        &&& self.outputs@.len() == self.levels
        &&& self.weights@.len() == self.levels
        &&& self.counts@.len() == self.levels
        &&& self.total == spec_weight_sum(self.levels as nat)
        &&& 1 <= self.total <= pow8(24)
        &&& forall|l: int| 0 <= l < self.levels ==>
            #[trigger] self.outputs@[l] == spec_outputs(self.n as nat, (l + 1) as nat)
        &&& forall|l: int| 0 <= l < self.levels ==> 1 <= #[trigger] self.outputs@[l] <= self.n
        &&& forall|l: int| 0 <= l < self.levels ==>
            #[trigger] self.weights@[l] == pow8((self.levels - 1 - l) as nat)
        &&& forall|l: int| 0 <= l < self.levels ==> #[trigger] self.counts@[l] <= self.outputs@[l]
    }

    /// The percentage completed so far, in basis points, capped at
    /// 10000.
    pub open spec fn spec_bp(&self) -> int {
        let s = spec_bp_sum(self.counts@, self.outputs@, self.weights@, self.total,
            self.levels as int);
        if s <= 10000 {
            s
        } else {
            10000
        }
    }

    /// A fresh accumulator: nothing completed yet.
    pub fn new(n: usize, levels: usize) -> (p: Progress)
        requires
            1 <= n <= 0xFFFF_FFFF,
            1 <= levels <= 24,
        ensures
            p.wf(),
            p.n == n,
            p.levels == levels,
            forall|l: int| 0 <= l < levels ==> #[trigger] p.counts@[l] == 0,
    {
        let total = weight_total(levels);
        proof {
            lemma_weight_sum_bound(levels as nat);
            lemma_pow8_le(levels as nat, 24);
        }
        let mut outputs: Vec<usize> = Vec::new();
        let mut weights: Vec<u128> = Vec::new();
        let mut counts: Vec<usize> = Vec::new();
        let mut l: usize = 1;
        while l <= levels
            invariant
                1 <= l <= levels + 1,
                levels <= 24,
                n <= 0xFFFF_FFFF,
                1 <= n,
                outputs@.len() == l - 1,
                weights@.len() == l - 1,
                counts@.len() == l - 1,
                forall|k: int| 0 <= k < l - 1 ==>
                    #[trigger] outputs@[k] == spec_outputs(n as nat, (k + 1) as nat),
                forall|k: int| 0 <= k < l - 1 ==> 1 <= #[trigger] outputs@[k] <= n,
                forall|k: int| 0 <= k < l - 1 ==>
                    #[trigger] weights@[k] == pow8((levels - 1 - k) as nat),
                forall|k: int| 0 <= k < l - 1 ==> #[trigger] counts@[k] == 0,
            decreases levels + 1 - l,
        {
            let o = outputs_in_level(n, l);
            let w = level_weight(levels, l);
            outputs.push(o);
            weights.push(w);
            counts.push(0);
            l = l + 1;
        }
        Progress { levels, n, outputs, weights, total, counts }
    }

    /// Records `k` more completed outputs at pyramid level `l`.
    pub fn complete(&mut self, l: usize, k: usize)
        requires
            old(self).wf(),
            1 <= l <= old(self).levels,
            old(self).counts@[l - 1] + k <= old(self).outputs@[l - 1],
        ensures
            final(self).wf(),
            final(self).levels == old(self).levels,
            final(self).n == old(self).n,
            final(self).outputs == old(self).outputs,
            final(self).weights == old(self).weights,
            final(self).total == old(self).total,
            final(self).counts@ == old(self).counts@.update(
                l - 1, (old(self).counts@[l - 1] + k) as usize),
            old(self).spec_bp() <= final(self).spec_bp() <= 10000,
    {
        let i: usize = l - 1;
        let c = self.counts[i];
        self.counts.set(i, c + k);
        proof {
            self.lemma_bp_bounds();
            lemma_bp_sum_monotone(old(self).counts@, self.counts@, self.outputs@, self.weights@,
                self.total, self.levels as int);
        }
    }

    /// The capped percentage in basis points, as a machine integer.
    pub fn percent_bp(&self) -> (r: u32)
        requires
            self.wf(),
        ensures
            r == self.spec_bp(),
            r <= 10000,
    {
        proof {
            self.lemma_bp_bounds();
        }
        let mut acc: u128 = 0;
        let mut l: usize = 0;
        while l < self.levels
            invariant
                self.wf(),
                l <= self.levels,
                acc == spec_bp_sum(self.counts@, self.outputs@, self.weights@, self.total, l as int),
                acc <= 10000 * l,
            decreases self.levels - l,
        {
            proof {
                self.lemma_term_bound(l as int);
                lemma_pow8_bound();
                lemma_pow8_le((self.levels - 1 - l) as nat, 24);
                assert(10000 * (self.counts@[l as int] as int) * (self.weights@[l as int] as int)
                    < 0x1_0000_0000_0000_0000_0000_0000_0000_0000) by (nonlinear_arith)
                    requires
                        0 <= self.counts@[l as int] <= 0xFFFF_FFFF,
                        0 <= self.weights@[l as int] <= pow8(24),
                        pow8(24) == 0x1000000000000000000,
                ;
                assert((self.outputs@[l as int] as int) * (self.total as int)
                    < 0x1_0000_0000_0000_0000_0000_0000_0000_0000 &&
                    (self.outputs@[l as int] as int) * (self.total as int) >= 1) by (nonlinear_arith)
                    requires
                        1 <= self.outputs@[l as int] <= 0xFFFF_FFFF,
                        1 <= self.total <= pow8(24),
                        pow8(24) == 0x1000000000000000000,
                ;
            }
            let num: u128 = 10000u128 * (self.counts[l] as u128) * self.weights[l];
            let den: u128 = (self.outputs[l] as u128) * self.total;
            let term: u128 = num / den;
            acc = acc + term;
            l = l + 1;
        }
        if acc > 10000 {
            10000
        } else {
            acc as u32
        }
    }

    /// Before any output is completed the percentage is exactly zero.
    pub proof fn lemma_bp_zero(&self)
        requires
            self.wf(),
            forall|l: int| 0 <= l < self.levels ==> #[trigger] self.counts@[l] == 0,
        ensures
            self.spec_bp() == 0,
    {
        self.lemma_bp_sum_zero(self.levels as int);
    }

    proof fn lemma_bp_sum_zero(&self, l: int)
        requires
            self.wf(),
            forall|k: int| 0 <= k < self.levels ==> #[trigger] self.counts@[k] == 0,
            0 <= l <= self.levels,
        ensures
            spec_bp_sum(self.counts@, self.outputs@, self.weights@, self.total, l) == 0,
        decreases l,
    {
        if l > 0 {
            self.lemma_bp_sum_zero(l - 1);
            let o = self.outputs@[l - 1] as int;
            let t = self.total as int;
            assert(o * t >= 1) by (nonlinear_arith)
                requires
                    1 <= o,
                    1 <= t,
            ;
            assert(self.counts@[l - 1] == 0);
            assert(10000 * (self.counts@[l - 1] as int) * (self.weights@[l - 1] as int) == 0)
                by (nonlinear_arith)
                requires
                    self.counts@[l - 1] == 0,
            ;
            lemma_div_by_multiple(0, o * t);
        }
    }

    /// The percentage is a true percentage: between zero and 10000
    /// basis points.
    pub proof fn lemma_bp_range(&self)
        requires
            self.wf(),
        ensures
            0 <= self.spec_bp() <= 10000,
    {
        self.lemma_bp_sum_bound(self.levels as int);
    }

    /// Each level's contribution is at most its share of 10000.
    proof fn lemma_term_bound(&self, l: int)
        requires
            self.wf(),
            0 <= l < self.levels,
        ensures
            0 <= spec_term(self.counts@[l] as int, self.outputs@[l] as int,
                self.weights@[l] as int, self.total as int) <= 10000,
    {
        let c = self.counts@[l] as int;
        let o = self.outputs@[l] as int;
        let w = self.weights@[l] as int;
        let t = self.total as int;
        lemma_weight_sum_bound(self.levels as nat);
        lemma_pow8_le((self.levels - 1 - l) as nat, 24);
        assert(w <= t) by {
            lemma_weight_le_total(self.levels as nat, l as nat);
            assert(self.weights@[l] == pow8((self.levels - 1 - l) as nat));
        }
        assert(10000 * c * w <= 10000 * o * t) by (nonlinear_arith)
            requires
                0 <= c <= o,
                0 <= w <= t,
        ;
        assert(10000 * o * t == 10000 * (o * t)) by (nonlinear_arith);
        assert(o * t >= 1) by (nonlinear_arith)
            requires
                1 <= o,
                1 <= t,
        ;
        lemma_div_is_ordered(10000 * c * w, 10000 * (o * t), o * t);
        lemma_div_by_multiple(10000, o * t);
        assert(10000 * c * w >= 0) by (nonlinear_arith)
            requires
                0 <= c,
                0 <= w,
        ;
        assert(spec_term(c, o, w, t) >= 0) by {
            lemma_div_is_ordered(0, 10000 * c * w, o * t);
        }
    }

    /// The running sum stays within `10000 * levels`.
    proof fn lemma_bp_bounds(&self)
        requires
            self.wf(),
        ensures
            forall|l: int| 0 <= l <= self.levels ==> 0 <= #[trigger] spec_bp_sum(
                self.counts@, self.outputs@, self.weights@, self.total, l) <= 10000 * l,
    {
        assert forall|l: int| 0 <= l <= self.levels implies 0 <= #[trigger] spec_bp_sum(
            self.counts@, self.outputs@, self.weights@, self.total, l) <= 10000 * l by {
            self.lemma_bp_sum_bound(l);
        }
    }

    proof fn lemma_bp_sum_bound(&self, l: int)
        requires
            self.wf(),
            0 <= l <= self.levels,
        ensures
            0 <= spec_bp_sum(self.counts@, self.outputs@, self.weights@, self.total, l)
                <= 10000 * l,
        decreases l,
    {
        if l > 0 {
            self.lemma_bp_sum_bound(l - 1);
            self.lemma_term_bound(l - 1);
        }
    }
}

/// The per-level weight never exceeds the total weight.
pub proof fn lemma_weight_le_total(levels: nat, l: nat)
    requires
        1 <= levels <= 24,
        l < levels,
    ensures
        pow8((levels - 1 - l) as nat) <= spec_weight_sum(levels),
    decreases levels,
{
    if l == 0 {
        lemma_weight_sum_bound((levels - 1) as nat);
        assert(spec_weight_sum(levels)
            == spec_weight_sum((levels - 1) as nat) + pow8((levels - 1) as nat));
    } else {
        lemma_weight_le_total((levels - 1) as nat, (l - 1) as nat);
        crate::plan::lemma_pow8_pos((levels - 1) as nat);
        assert(spec_weight_sum(levels)
            == spec_weight_sum((levels - 1) as nat) + pow8((levels - 1) as nat));
    }
}

/// More completed outputs never lower the percentage: the progress
/// figure is monotone in every level's count.
pub proof fn lemma_bp_sum_monotone(
    c1: Seq<usize>,
    c2: Seq<usize>,
    outputs: Seq<usize>,
    weights: Seq<u128>,
    total: u128,
    l: int,
)
    requires
        c1.len() == c2.len(),
        forall|k: int| 0 <= k < c1.len() ==> #[trigger] c1[k] <= c2[k],
        forall|k: int| 0 <= k < outputs.len() ==> 1 <= #[trigger] outputs[k],
        1 <= total,
        l <= c1.len(),
        l <= outputs.len(),
        l <= weights.len(),
    ensures
        spec_bp_sum(c1, outputs, weights, total, l) <= spec_bp_sum(c2, outputs, weights, total, l),
    decreases l,
{
    if l > 0 {
        lemma_bp_sum_monotone(c1, c2, outputs, weights, total, l - 1);
        let o = outputs[l - 1] as int;
        let w = weights[l - 1] as int;
        let t = total as int;
        assert(10000 * (c1[l - 1] as int) * w <= 10000 * (c2[l - 1] as int) * w)
            by (nonlinear_arith)
            requires
                0 <= c1[l - 1] <= c2[l - 1],
                0 <= w,
        ;
        assert(o * t >= 1) by (nonlinear_arith)
            requires
                1 <= o,
                1 <= t,
        ;
        lemma_div_is_ordered(10000 * (c1[l - 1] as int) * w, 10000 * (c2[l - 1] as int) * w, o * t);
    }
}

/// The reporting policy: an update reaches the observer only when it
/// moved by more than one percentage point (100 basis points) from the
/// last delivered value, or when it is the definitively last update.
pub open spec fn spec_report_due(bp: int, last: int, is_last: bool) -> bool {
    is_last || bp - last > 100 || last - bp > 100
}

/// Whether a progress update must be delivered.  `last` is the last
/// delivered value in basis points, or -100 when nothing was delivered
/// yet.
pub fn report_due(bp: u32, last: i64, is_last: bool) -> (r: bool)
    requires
        -100 <= last <= 10000,
        bp <= 10000,
    ensures
        r == spec_report_due(bp as int, last as int, is_last),
{
    if is_last {
        return true;
    }
    let b = bp as i64;
    b - last > 100 || last - b > 100
}

} // verus!
