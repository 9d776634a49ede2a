//! The resumable pyramid builder: an explicit decision machine that
//! walks the slice sequence group by group, reduces each group through
//! every planned level in memory, skips work whose outputs already
//! exist, accumulates weighted progress, and interprets the observer's
//! answers as continue-or-cancel signals.  The caller performs the
//! file reads and writes the machine asks for and feeds the outcomes
//! back as events.

use vstd::prelude::*;

verus! {

use vstd::arithmetic::power2::pow2;
use vstd::arithmetic::power2::lemma_pow2_pos;
use vstd::arithmetic::power2::lemma_pow2_adds;
use vstd::arithmetic::div_mod::lemma_fundamental_div_mod;
use vstd::arithmetic::div_mod::lemma_div_multiples_vanish_fancy;
use crate::codec::PixelBuf;
use crate::codec::spec_decodes;
use crate::codec::decoded_w;
use crate::codec::decoded_h;
use crate::kernel::spec_downscale8;
use crate::kernel::spec_downscale16;
use crate::kernel::spec_merge8;
use crate::kernel::spec_merge16;
use crate::kernel::downscale_half_u8;
use crate::kernel::downscale_half_u16;
use crate::kernel::avg_two_u8;
use crate::kernel::avg_two_u16;
use crate::plan::spec_outputs;
use crate::plan::spec_ceil_half;
use crate::plan::lemma_ceil_half_step;
use crate::error::ThumbError;
use crate::progress::Progress;
use crate::progress::report_due;

/// The reduction of a pair of adjacent 8-bit slices: each is spatially
/// downscaled, then the two are merged by rounded pairwise average.
pub open spec fn spec_reduced8(a: Seq<u8>, b: Seq<u8>, w: int, h: int) -> Seq<u8> {
    spec_merge8(spec_downscale8(a, w, h), spec_downscale8(b, w, h))
}

pub open spec fn spec_reduced16(a: Seq<u16>, b: Seq<u16>, w: int, h: int) -> Seq<u16> {
    spec_merge16(spec_downscale16(a, w, h), spec_downscale16(b, w, h))
}

/// `r` is exactly the reduction of the pair `(a, b)` of `w` by `h`
/// buffers.
pub open spec fn spec_pair_output(a: &PixelBuf, b: &PixelBuf, w: int, h: int, r: &PixelBuf) -> bool {
    match (a, b, r) {
        (PixelBuf::B8(x), PixelBuf::B8(y), PixelBuf::B8(z)) => z@ == spec_reduced8(x@, y@, w, h),
        (PixelBuf::B16(x), PixelBuf::B16(y), PixelBuf::B16(z)) => z@ == spec_reduced16(
            x@, y@, w, h),
        _ => false,
    }
}

/// `r` is exactly the spatial downscale of the lone trailing buffer
/// `a` (no merge partner at this level).
pub open spec fn spec_single_output(a: &PixelBuf, w: int, h: int, r: &PixelBuf) -> bool {
    match (a, r) {
        (PixelBuf::B8(x), PixelBuf::B8(z)) => z@ == spec_downscale8(x@, w, h),
        (PixelBuf::B16(x), PixelBuf::B16(z)) => z@ == spec_downscale16(x@, w, h),
        _ => false,
    }
}

/// Downscales both buffers of an adjacent pair and merges the results.
pub fn reduce_pair(a: &PixelBuf, b: &PixelBuf, w: u32, h: u32) -> (r: PixelBuf)
    requires
        a.spec_is16() == b.spec_is16(),
        a.buf_len() == w * h,
        b.buf_len() == w * h,
    ensures
        r.spec_is16() == a.spec_is16(),
        r.buf_len() == (w as int / 2) * (h as int / 2),
        spec_pair_output(a, b, w as int, h as int, &r),
{
    match (a, b) {
        (PixelBuf::B8(x), PixelBuf::B8(y)) => {
            let d0 = downscale_half_u8(x, w as usize, h as usize);
            let d1 = downscale_half_u8(y, w as usize, h as usize);
            PixelBuf::B8(avg_two_u8(&d0, &d1))
        },
        (PixelBuf::B16(x), PixelBuf::B16(y)) => {
            let d0 = downscale_half_u16(x, w as usize, h as usize);
            let d1 = downscale_half_u16(y, w as usize, h as usize);
            PixelBuf::B16(avg_two_u16(&d0, &d1))
        },
        _ => {
            proof {
                assert(false);
            }
            PixelBuf::B8(Vec::new())
        },
    }
}

/// Downscales a lone trailing buffer; it is carried to the next level
/// unmerged.
pub fn reduce_single(a: &PixelBuf, w: u32, h: u32) -> (r: PixelBuf)
    requires
        a.buf_len() == w * h,
    ensures
        r.spec_is16() == a.spec_is16(),
        r.buf_len() == (w as int / 2) * (h as int / 2),
        spec_single_output(a, w as int, h as int, &r),
{
    match a {
        PixelBuf::B8(x) => PixelBuf::B8(downscale_half_u8(x, w as usize, h as usize)),
        PixelBuf::B16(x) => PixelBuf::B16(downscale_half_u16(x, w as usize, h as usize)),
    }
}

/// `b` stands last among the in-flight buffers of the position `st`:
/// as the newest output of the level being produced, or, after a
/// level turned over, as the last input it seeded for the next level.
pub open spec fn spec_carried(st: &GroupSt, b: &PixelBuf) -> bool {
    ||| (st.next@.len() >= 1 && st.next@[st.next@.len() - 1] == *b)
    ||| (st.cur@.len() >= 1 && st.cur@[st.cur@.len() - 1] == *b)
}

/// A dimension after `l` halvings.
pub open spec fn halved(x: u32, l: nat) -> nat
    decreases l,
{
    if l == 0 {
        x as nat
    } else {
        halved(x, (l - 1) as nat) / 2
    }
}

/// `x` halved `l` times.
pub fn dims_at(x: u32, l: usize) -> (r: u32)
    ensures
        r == halved(x, l as nat),
{
    let mut r: u32 = x;
    let mut i: usize = 0;
    while i < l
        invariant
            i <= l,
            r == halved(x, i as nat),
        decreases l - i,
    {
        r = r / 2;
        i = i + 1;
    }
    r
}

/// More halvings never enlarge a dimension.
pub proof fn lemma_halved_antitone(x: u32, a: nat, b: nat)
    requires
        a <= b,
    ensures
        halved(x, b) <= halved(x, a),
    decreases b,
{
    if a < b {
        lemma_halved_antitone(x, a, (b - 1) as nat);
        assert(halved(x, b) == halved(x, (b - 1) as nat) / 2);
        assert(halved(x, (b - 1) as nat) / 2 <= halved(x, (b - 1) as nat)) by (nonlinear_arith);
    }
}

/// An output plane of any level holds at most a quarter of the
/// level-0 pixels: one halving of each dimension already does.
proof fn lemma_level_area(w0: u32, h0: u32, l: nat)
    requires
        1 <= l,
        (w0 as int) * (h0 as int) <= 0x2000_0000,
    ensures
        halved(w0, l) * halved(h0, l) <= 0x800_0000,
{
    lemma_halved_antitone(w0, 1, l);
    lemma_halved_antitone(h0, 1, l);
    reveal_with_fuel(halved, 2);
    assert(halved(w0, 1) == (w0 as nat) / 2);
    assert(halved(h0, 1) == (h0 as nat) / 2);
    lemma_fundamental_div_mod(w0 as int, 2);
    lemma_fundamental_div_mod(h0 as int, 2);
    assert(4 * (halved(w0, 1) * halved(h0, 1)) <= (w0 as int) * (h0 as int))
        by (nonlinear_arith)
        requires
            2 * halved(w0, 1) <= w0 as int,
            2 * halved(h0, 1) <= h0 as int,
            0 <= halved(w0, 1),
            0 <= halved(h0, 1),
    ;
    assert(halved(w0, l) * halved(h0, l) <= halved(w0, 1) * halved(h0, 1))
        by (nonlinear_arith)
        requires
            halved(w0, l) <= halved(w0, 1),
            halved(h0, l) <= halved(h0, 1),
            0 <= halved(w0, l),
            0 <= halved(h0, l),
    ;
}

/// The slice count of group `g` out of `n` slices in groups of
/// `gsize`: a full group, or what the tail leaves.
pub open spec fn spec_group_len(n: nat, gsize: nat, g: nat) -> nat {
    if (g + 1) * gsize <= n {
        gsize
    } else {
        (n - g * gsize) as nat
    }
}

/// The total output count, over all of a run's groups before group
/// `g`, at pyramid level `l`: full groups contribute an exact
/// `2^(levels - l)` outputs each; once the groups cover the stack the
/// count is the whole level's.
pub open spec fn done_upto(n: nat, levels: nat, l: nat, g: nat) -> nat {
    if g * pow2(levels) >= n {
        spec_outputs(n, l)
    } else {
        g * pow2((levels - l) as nat)
    }
}

/// Splitting off an exact multiple of `2^l` from a rounded-up
/// quotient.
proof fn lemma_outputs_add(q: nat, b: nat, l: nat)
    ensures
        spec_outputs(q * pow2(l) + b, l) == q + spec_outputs(b, l),
{
    let d = pow2(l) as int;
    lemma_pow2_pos(l);
    lemma_fundamental_div_mod(b + d - 1, d);
    let qq = (b + d - 1) / d;
    let r = (b + d - 1) % d;
    assert(q * pow2(l) + b + d - 1 == d * (q + qq) + r) by (nonlinear_arith)
        requires
            b + d - 1 == d * qq + r,
            d == pow2(l),
    ;
    lemma_div_multiples_vanish_fancy(q + qq, r, d);
}

/// One group's outputs at level `l` carry the completed count from
/// `done_upto(g)` to `done_upto(g + 1)`: the groups partition every
/// level's outputs.
pub proof fn lemma_group_partition(n: nat, levels: nat, l: nat, g: nat)
    requires
        1 <= l <= levels <= 24,
        g * pow2(levels) < n,
    ensures
        done_upto(n, levels, l, g) + spec_outputs(spec_group_len(n, pow2(levels), g), l)
            == done_upto(n, levels, l, g + 1),
{
    let gs = pow2(levels);
    let p = pow2((levels - l) as nat);
    let d = pow2(l);
    lemma_pow2_pos(levels);
    lemma_pow2_pos(l);
    lemma_pow2_pos((levels - l) as nat);
    lemma_pow2_adds((levels - l) as nat, l);
    assert(gs == p * d);
    if (g + 1) * gs <= n {
        // a full group: exactly p outputs
        assert(spec_outputs(gs, l) == p + spec_outputs(0, l)) by {
            assert(gs == p * d + 0);
            lemma_outputs_add(p, 0, l);
        }
        assert(spec_outputs(0, l) == 0) by {
            lemma_div_multiples_vanish_fancy(0, d as int - 1, d as int);
        }
        if (g + 1) * gs >= n {
            // the stack is exactly g + 1 full groups
            assert((g + 1) * gs == n);
            assert(n == ((g + 1) * p) * d + 0) by (nonlinear_arith)
                requires
                    n == (g + 1) * gs,
                    gs == p * d,
            ;
            lemma_outputs_add((g + 1) * p, 0, l);
            assert(done_upto(n, levels, l, g + 1) == (g + 1) * p);
            assert(g * p + p == (g + 1) * p) by (nonlinear_arith);
        } else {
            assert(done_upto(n, levels, l, g + 1) == (g + 1) * p);
            assert(g * p + p == (g + 1) * p) by (nonlinear_arith);
        }
    } else {
        // the tail group: the level total is reached
        let k = (n - g * gs) as nat;
        assert(n == (g * p) * d + k) by (nonlinear_arith)
            requires
                gs == p * d,
                n >= g * gs + 0,
                k == n - g * gs,
        ;
        lemma_outputs_add(g * p, k, l);
        assert(spec_group_len(n, gs, g) == k);
    }
}

/// The completed count never passes the level total.
pub proof fn lemma_done_le(n: nat, levels: nat, l: nat, g: nat)
    requires
        1 <= l <= levels <= 24,
    ensures
        done_upto(n, levels, l, g) <= spec_outputs(n, l),
        g * pow2(levels) < n ==> done_upto(n, levels, l, g) + spec_outputs(
            spec_group_len(n, pow2(levels), g), l) <= spec_outputs(n, l),
    decreases (if g * pow2(levels) < n { (n - g * pow2(levels)) as nat } else { 0 }),
{
    lemma_pow2_pos(levels);
    if g * pow2(levels) >= n {
    } else {
        lemma_group_partition(n, levels, l, g);
        assert((g + 1) * pow2(levels) > g * pow2(levels)) by (nonlinear_arith)
            requires
                pow2(levels) >= 1,
                0 <= g,
        ;
        lemma_done_le(n, levels, l, g + 1);
    }
}

/// What the machine asks its driver to do next.  `ReadSlice` and
/// `ReadOutput` expect the named file's bytes back; `WriteOutput`
/// expects a write confirmation; `Report` expects the observer's
/// continue-or-cancel answer; `Done` and `Fail` end the run.
pub enum Action {
    ReadSlice { slice: usize },
    ReadOutput { level: usize, index: u64 },
    WriteOutput { level: usize, index: u64, bytes: Vec<u8> },
    Report { percent_bp: u32, terminal: bool },
    Done { cancelled: bool },
    Fail { error: ThumbError },
}

/// The driver's answer to the previous action.
pub enum Event {
    Start,
    SliceBytes { bytes: Vec<u8> },
    OutputBytes { bytes: Vec<u8> },
    Written,
    Observer { go: bool },
}

/// The in-memory position inside one group's multi-level reduction:
/// the inputs of the current level, the outputs produced so far, and
/// the index of the output being worked on.
pub struct GroupSt {
    pub g: usize,
    pub level: usize,
    pub cur: Vec<PixelBuf>,
    pub next: Vec<PixelBuf>,
    pub j: usize,
    /// The slice payloads this group was loaded from (ghost record;
    /// it anchors the level-1 inputs to their slices' decodes).
    pub src: Ghost<Seq<Seq<u8>>>,
}

/// Where the machine stands, named by the event it awaits.
pub enum Phase {
    Begin,
    AwaitInitObserver,
    AwaitSlice { g: usize, got: Vec<PixelBuf>, src: Ghost<Seq<Seq<u8>>> },
    AwaitReadback { st: GroupSt },
    AwaitWritten { st: GroupSt, out: PixelBuf },
    AwaitMidObserver { st: GroupSt },
    AwaitSkipObserver { next_g: usize },
    AwaitFinalObserver,
    Finished,
}

/// The resumable pyramid builder.
pub struct Builder {
    pub n: usize,
    pub w0: u32,
    pub h0: u32,
    pub levels: usize,
    pub gsize: usize,
    pub want16: bool,
    pub existing: Vec<Vec<bool>>,
    pub progress: Progress,
    pub last_bp: i64,
    pub phase: Phase,
    pub trivial: bool,
}

impl Builder {

    /// Outputs the run has not yet credited: the machine's remaining
    /// work, which no step enlarges.
    pub open spec fn work_left(&self) -> int {
        sum_diff(self.progress.counts@, self.progress.outputs@, self.progress.counts@.len() as int)
    }

    /// A bounded rank of the phase, falling along the control path;
    /// slices still to load in the current group break ties.
    pub open spec fn stage_left(&self) -> int {
        match &self.phase {
            Phase::Begin => (5 * 0x2000000) as int,
            Phase::AwaitInitObserver => (4 * 0x2000000) as int,
            Phase::AwaitSkipObserver { .. } => (3 * 0x2000000) as int,
            Phase::AwaitMidObserver { .. } => (3 * 0x2000000) as int,
            Phase::AwaitSlice { g, got, .. } => 2 * 0x2000000 + (
                if self.kg(*g as nat) >= got@.len() {
                    self.kg(*g as nat) - got@.len()
                } else {
                    0
                }),
            Phase::AwaitReadback { .. } => 0x2000000 as int,
            Phase::AwaitWritten { .. } => 0x2000000 as int,
            Phase::AwaitFinalObserver => 0x2000000 as int,
            Phase::Finished => 0,
        }
    }

    /// A measure every step strictly lowers: the machine, and so a
    /// driver looping on it, always terminates.
    pub open spec fn spec_measure(&self) -> int {
        0x1_0000_0000 * self.work_left() + self.stage_left()
    }

    /// `b` holds exactly the supplied payload's decoded samples,
    /// rescaled to the run's canonical depth.
    pub open spec fn spec_slice_buf(bytes: Seq<u8>, want16: bool, b: &PixelBuf) -> bool {
        &&& spec_decodes(bytes)
        &&& b.spec_is16() == want16
        &&& (match b {
            PixelBuf::B8(v) => if crate::codec::decoded_is16(bytes) {
                v@ == crate::codec::spec_narrow(crate::codec::decoded16(bytes))
            } else {
                v@ == crate::codec::decoded8(bytes)
            },
            PixelBuf::B16(v) => if crate::codec::decoded_is16(bytes) {
                v@ == crate::codec::decoded16(bytes)
            } else {
                v@ == crate::codec::spec_widen(crate::codec::decoded8(bytes))
            },
        })
    }

    /// Output `i` of the level in flight is carried with its exact
    /// value: the reduction of its parents in `cur`, unless the
    /// pre-scan flagged it present (then its value came from the
    /// read-back payload of that output).
    pub open spec fn spec_child_ok(&self, st: &GroupSt, i: int) -> bool {
        ||| self.flag(st.level as int, (self.base_of(st.g as nat, st.level as nat) + i) as int)
        ||| (if 2 * i + 1 < st.cur@.len() {
            spec_pair_output(&st.cur@[2 * i], &st.cur@[2 * i + 1],
                halved(self.w0, (st.level - 1) as nat) as int,
                halved(self.h0, (st.level - 1) as nat) as int, &st.next@[i])
        } else {
            spec_single_output(&st.cur@[2 * i],
                halved(self.w0, (st.level - 1) as nat) as int,
                halved(self.h0, (st.level - 1) as nat) as int, &st.next@[i])
        })
    }

    /// The machine's group boundary: every group before it is
    /// settled (credited to the progress counters), none after it is.
    pub open spec fn group_mark(&self) -> int {
        match &self.phase {
            Phase::Begin => 0,
            Phase::AwaitInitObserver => 0,
            Phase::AwaitSlice { g, .. } => *g as int,
            Phase::AwaitReadback { st } => st.g as int,
            Phase::AwaitWritten { st, .. } => st.g as int,
            Phase::AwaitMidObserver { st } => st.g as int,
            Phase::AwaitSkipObserver { next_g } => *next_g as int,
            Phase::AwaitFinalObserver => self.group_count() as int,
            Phase::Finished => 0,
        }
    }

    /// The machine stands inside a group's in-memory reduction.
    pub open spec fn in_group(&self) -> bool {
        self.phase matches Phase::AwaitReadback { .. } || self.phase
            matches Phase::AwaitWritten { .. } || self.phase
            matches Phase::AwaitMidObserver { .. }
    }

    /// The run's fixed data: a step never changes the plan, the
    /// canonical depth or the pre-scanned flags.
    pub open spec fn same_plan(a: &Builder, b: &Builder) -> bool {
        &&& a.n == b.n
        &&& a.w0 == b.w0
        &&& a.h0 == b.h0
        &&& a.levels == b.levels
        &&& a.gsize == b.gsize
        &&& a.want16 == b.want16
        &&& a.existing == b.existing
        &&& a.trivial == b.trivial
    }

    /// The slice count of group `g`.
    pub open spec fn kg(&self, g: nat) -> nat {
        spec_group_len(self.n as nat, pow2(self.levels as nat), g)
    }

    /// The global index of group `g`'s first output at level `l`.
    pub open spec fn base_of(&self, g: nat, l: nat) -> nat {
        g * pow2((self.levels - l) as nat)
    }

    /// The pre-scanned existence flag of output `i` at level `l`.
    pub open spec fn flag(&self, l: int, i: int) -> bool {
        self.existing@[l - 1]@[i]
    }

    pub open spec fn group_count(&self) -> nat {
        spec_outputs(self.n as nat, self.levels as nat)
    }

    /// Every output this group would produce, at every level, already
    /// exists on disk.
    pub open spec fn group_complete(&self, g: nat) -> bool {
        forall|l: int, i: int|
            1 <= l <= self.levels && self.base_of(g, l as nat) <= i
                < self.base_of(g, l as nat) + spec_outputs(self.kg(g), l as nat)
            ==> #[trigger] self.flag(l, i)
    }

    /// The progress counters stand exactly at the boundary before
    /// group `g`.
    pub open spec fn counts_start_ok(&self, g: nat) -> bool {
        forall|i: int| 0 <= i < self.levels ==> #[trigger] self.progress.counts@[i]
            == done_upto(self.n as nat, self.levels as nat, (i + 1) as nat, g)
    }

    /// The progress counters stand exactly at position (`level`, `j`)
    /// inside group `st.g`: shallower levels of the group complete,
    /// deeper ones not started.
    pub open spec fn counts_mid_ok(&self, st: &GroupSt) -> bool {
        forall|i: int| 0 <= i < self.levels ==> #[trigger] self.progress.counts@[i]
            == done_upto(self.n as nat, self.levels as nat, (i + 1) as nat, st.g as nat) + (
            if i + 1 < st.level {
                spec_outputs(self.kg(st.g as nat), (i + 1) as nat)
            } else if i + 1 == st.level {
                st.j as nat
            } else {
                0
            })
    }

    /// The in-group position is consistent: the level is planned, the
    /// buffer counts follow the rounded-halving ladder, and every
    /// buffer has the canonical depth and its level's dimensions.
    pub open spec fn st_wf(&self, st: &GroupSt) -> bool {
        &&& st.g * self.gsize < self.n
        &&& 1 <= st.level <= self.levels
        &&& st.cur@.len() == spec_outputs(self.kg(st.g as nat), (st.level - 1) as nat)
        &&& st.next@.len() == st.j
        &&& st.j <= spec_ceil_half(st.cur@.len())
        &&& forall|i: int| 0 <= i < st.cur@.len() ==> (#[trigger] st.cur@[i]).spec_is16()
            == self.want16
        &&& forall|i: int| 0 <= i < st.cur@.len() ==> (#[trigger] st.cur@[i]).buf_len()
            == halved(self.w0, (st.level - 1) as nat) * halved(self.h0, (st.level - 1) as nat)
        &&& forall|i: int| 0 <= i < st.next@.len() ==> (#[trigger] st.next@[i]).spec_is16()
            == self.want16
        &&& forall|i: int| 0 <= i < st.next@.len() ==> (#[trigger] st.next@[i]).buf_len()
            == halved(self.w0, st.level as nat) * halved(self.h0, st.level as nat)
        &&& forall|i: int| 0 <= i < st.next@.len() ==> #[trigger] self.spec_child_ok(st, i)
        &&& (st.level == 1 ==> st.src@.len() == st.cur@.len())
        &&& (st.level == 1 ==> forall|i: int| 0 <= i < st.cur@.len()
            ==> #[trigger] Builder::spec_slice_buf(st.src@[i], self.want16, &st.cur@[i]))
    }

    pub open spec fn phase_wf(&self) -> bool {
        match &self.phase {
            Phase::Begin => self.counts_start_ok(0) && self.last_bp == -100,
            Phase::AwaitInitObserver => self.counts_start_ok(0) && self.last_bp == -100,
            Phase::AwaitSlice { g, got, src } => {
                &&& (*g as nat) * (self.gsize as nat) < self.n as nat
                &&& self.counts_start_ok(*g as nat)
                &&& !self.group_complete(*g as nat)
                &&& got@.len() < self.kg(*g as nat)
                &&& forall|i: int| 0 <= i < got@.len() ==> (#[trigger] got@[i]).spec_is16()
                    == self.want16
                &&& forall|i: int| 0 <= i < got@.len() ==> (#[trigger] got@[i]).buf_len()
                    == (self.w0 as nat) * (self.h0 as nat)
                &&& src@.len() == got@.len()
                &&& forall|i: int| 0 <= i < got@.len()
                    ==> #[trigger] Builder::spec_slice_buf(src@[i], self.want16, &got@[i])
            },
            Phase::AwaitReadback { st } => {
                &&& self.st_wf(st)
                &&& st.j < spec_ceil_half(st.cur@.len())
                &&& self.counts_mid_ok(st)
                &&& self.flag(st.level as int,
                    (self.base_of(st.g as nat, st.level as nat) + st.j) as int)
            },
            Phase::AwaitWritten { st, out } => {
                &&& self.st_wf(st)
                &&& st.j < spec_ceil_half(st.cur@.len())
                &&& self.counts_mid_ok(st)
                &&& !self.flag(st.level as int,
                    (self.base_of(st.g as nat, st.level as nat) + st.j) as int)
                &&& out.spec_is16() == self.want16
                &&& out.buf_len() == halved(self.w0, st.level as nat)
                    * halved(self.h0, st.level as nat)
                &&& (if 2 * st.j + 1 < st.cur@.len() {
                    spec_pair_output(&st.cur@[2 * st.j as int], &st.cur@[2 * st.j + 1],
                        halved(self.w0, (st.level - 1) as nat) as int,
                        halved(self.h0, (st.level - 1) as nat) as int, out)
                } else {
                    spec_single_output(&st.cur@[2 * st.j as int],
                        halved(self.w0, (st.level - 1) as nat) as int,
                        halved(self.h0, (st.level - 1) as nat) as int, out)
                })
            },
            Phase::AwaitMidObserver { st } => {
                &&& self.st_wf(st)
                &&& self.counts_mid_ok(st)
            },
            Phase::AwaitSkipObserver { next_g } => {
                &&& self.counts_start_ok(*next_g as nat)
                &&& *next_g as nat <= self.group_count()
            },
            Phase::AwaitFinalObserver => self.counts_start_ok(self.group_count()),
            Phase::Finished => true,
        }
    }

    pub open spec fn wf_main(&self) -> bool {
        &&& 1 <= self.n <= 0xFFFF_FFFF
        &&& 1 <= self.levels <= 24
        &&& self.gsize == pow2(self.levels as nat)
        &&& self.gsize <= 0x1000000
        &&& (self.w0 as int) * (self.h0 as int) <= 0x2000_0000
        &&& self.progress.wf()
        &&& self.progress.n == self.n
        &&& self.progress.levels == self.levels
        &&& self.existing@.len() == self.levels
        &&& forall|l: int| 0 <= l < self.levels ==> (#[trigger] self.existing@[l])@.len()
            == spec_outputs(self.n as nat, (l + 1) as nat)
        &&& -100 <= self.last_bp <= 10000
        &&& self.last_bp <= self.progress.spec_bp()
        &&& self.phase_wf()
    }

    pub open spec fn wf(&self) -> bool {
        &&& self.n <= 0xFFFF_FFFF
        &&& self.levels <= 24
        &&& (self.trivial <==> (self.n == 0 || self.levels == 0))
        &&& (self.trivial ==> {
            &&& (self.phase matches Phase::Begin || self.phase matches Phase::AwaitFinalObserver
                || self.phase matches Phase::Finished)
            &&& -100 <= self.last_bp <= 10000
        })
        &&& (!self.trivial ==> self.wf_main())
    }

    /// Which events the machine accepts in its current phase.
    pub open spec fn expects(&self, ev: &Event) -> bool {
        match (&self.phase, ev) {
            (Phase::Begin, Event::Start) => true,
            (Phase::AwaitInitObserver, Event::Observer { .. }) => true,
            (Phase::AwaitSlice { .. }, Event::SliceBytes { .. }) => true,
            (Phase::AwaitReadback { .. }, Event::OutputBytes { .. }) => true,
            (Phase::AwaitWritten { .. }, Event::Written) => true,
            (Phase::AwaitMidObserver { .. }, Event::Observer { .. }) => true,
            (Phase::AwaitSkipObserver { .. }, Event::Observer { .. }) => true,
            (Phase::AwaitFinalObserver, Event::Observer { .. }) => true,
            _ => false,
        }
    }

    /// The emitted write carries exactly the encoded reduction of the
    /// adjacent pair (or lone tail buffer) at the machine's position.
    pub open spec fn write_exact(&self, level: usize, index: u64, bytes: Seq<u8>) -> bool {
        match &self.phase {
            Phase::AwaitWritten { st, out } => {
                &&& level == st.level
                &&& index == self.base_of(st.g as nat, st.level as nat) + st.j
                &&& bytes == crate::codec::spec_encoded(out,
                    halved(self.w0, st.level as nat) as u32,
                    halved(self.h0, st.level as nat) as u32)
                &&& (if 2 * st.j + 1 < st.cur@.len() {
                    spec_pair_output(&st.cur@[2 * st.j as int], &st.cur@[2 * st.j + 1],
                        halved(self.w0, (st.level - 1) as nat) as int,
                        halved(self.h0, (st.level - 1) as nat) as int, out)
                } else {
                    spec_single_output(&st.cur@[2 * st.j as int],
                        halved(self.w0, (st.level - 1) as nat) as int,
                        halved(self.h0, (st.level - 1) as nat) as int, out)
                })
            },
            _ => false,
        }
    }

    /// The laws every step keeps: a report never falls below the last
    /// delivered value, stays capped, and the terminal one says
    /// exactly 100%; a write goes only to an output the pre-scan found
    /// missing, with exactly the reduced pair's encoded bytes; a slice
    /// is read only for a group with missing outputs; `Done` and
    /// `Fail` leave the machine finished.
    pub open spec fn step_laws(pre: &Builder, post: &Builder, a: &Action) -> bool {
        &&& (a matches Action::Report { percent_bp, terminal } ==> {
            &&& pre.last_bp <= *percent_bp <= 10000
            &&& (*terminal ==> *percent_bp == 10000)
            &&& (!*terminal ==> *percent_bp == post.progress.spec_bp())
            &&& (*terminal && !post.trivial ==> forall|l: int| 0 <= l < post.levels
                ==> #[trigger] post.progress.counts@[l] == post.progress.outputs@[l])
        })
        &&& (a matches Action::Report { .. } ==> (post.phase matches Phase::AwaitInitObserver
            || post.phase matches Phase::AwaitMidObserver { .. } || post.phase
            matches Phase::AwaitSkipObserver { .. } || post.phase
            matches Phase::AwaitFinalObserver))
        &&& (a matches Action::ReadOutput { level, index } ==> {
            &&& 1 <= *level <= post.levels
            &&& post.flag(*level as int, *index as int)
            &&& (post.phase matches Phase::AwaitReadback { st } && *level == st.level
                && *index == post.base_of(st.g as nat, st.level as nat) + st.j)
        })
        &&& (a matches Action::WriteOutput { level, index, bytes } ==> {
            &&& 1 <= *level <= post.levels
            &&& !post.flag(*level as int, *index as int)
            &&& post.write_exact(*level, *index, bytes@)
        })
        &&& (a matches Action::ReadSlice { slice } ==> (post.phase matches Phase::AwaitSlice {
            g, got, .. } && slice == g * post.gsize + got@.len() && !post.group_complete(g as nat)))
        &&& ((a matches Action::Done { .. } || a matches Action::Fail { .. })
            ==> post.phase matches Phase::Finished)
    }

    /// A machine for a run of `n` slices of `w0` by `h0` pixels, with
    /// `levels` planned reduction levels, the canonical bit depth of
    /// the run, and the pre-scanned existence flags of every level.
    /// A run with no slices or no levels only reports 100% and ends.
    /// The slice area bound is what the codec guarantees of every
    /// decodable slice (its allocation cap), as the first slice's
    /// dimensions come from a successful decode.
    pub fn new(n: usize, w0: u32, h0: u32, levels: usize, want16: bool,
        existing: Vec<Vec<bool>>) -> (b: Builder)
        requires
            n <= 0xFFFF_FFFF,
            levels <= 24,
            (w0 as int) * (h0 as int) <= 0x2000_0000,
            existing@.len() == levels,
            forall|l: int| 0 <= l < levels ==> (#[trigger] existing@[l])@.len()
                == spec_outputs(n as nat, (l + 1) as nat),
        ensures
            b.wf(),
            b.phase matches Phase::Begin,
            b.n == n && b.w0 == w0 && b.h0 == h0 && b.levels == levels && b.want16 == want16,
            b.existing == existing,
    {
        let trivial = n == 0 || levels == 0;
        let progress = if trivial {
            Progress::new(1, 1)
        } else {
            Progress::new(n, levels)
        };
        let gsize = crate::plan::group_size_for(levels);
        let b = Builder {
            n, w0, h0, levels, gsize, want16, existing, progress,
            last_bp: -100, phase: Phase::Begin, trivial,
        };
        proof {
            if !trivial {
                assert forall|i: int| 0 <= i < b.levels implies #[trigger] b.progress.counts@[i]
                    == done_upto(b.n as nat, b.levels as nat, (i + 1) as nat, 0) by {
                    assert(0 * pow2(b.levels as nat) == 0);
                    assert(0 * pow2((b.levels - i - 1) as nat) == 0);
                }
                b.progress.lemma_bp_range();
            }
        }
        b
    }

    /// The slice count of group `g` in executable form.
    fn group_len(&self, g: usize) -> (k: usize)
        requires
            self.wf(),
            !self.trivial,
            (g as nat) * (self.gsize as nat) < self.n as nat,
        ensures
            k == self.kg(g as nat),
            1 <= k <= self.gsize,
            g * self.gsize + k <= self.n,
    {
        proof {
            lemma_pow2_pos(self.levels as nat);
            assert(g <= g * self.gsize) by (nonlinear_arith)
                requires
                    1 <= self.gsize,
                    0 <= g,
            ;
            assert(((g as int) + 1) * (self.gsize as int) <= 0x100000001 * 0x1000000)
                by (nonlinear_arith)
                requires
                    0 <= g <= 0xFFFF_FFFF,
                    0 <= self.gsize <= 0x1000000,
            ;
        }
        let prod: u64 = (g as u64 + 1) * (self.gsize as u64);
        proof {
            assert(g * self.gsize + self.gsize == (g + 1) * self.gsize) by (nonlinear_arith);
        }
        if prod <= self.n as u64 {
            self.gsize
        } else {
            self.n - g * self.gsize
        }
    }

    /// The first global index of group `g` at `level`, with the proof
    /// that the group's outputs fit under the level's total.
    fn level_base(&self, g: usize, level: usize) -> (b: u64)
        requires
            self.wf(),
            !self.trivial,
            (g as nat) * (self.gsize as nat) < self.n as nat,
            1 <= level <= self.levels,
        ensures
            b == self.base_of(g as nat, level as nat),
            b + spec_outputs(self.kg(g as nat), level as nat)
                <= spec_outputs(self.n as nat, (level) as nat),
            b == done_upto(self.n as nat, self.levels as nat, level as nat, g as nat),
    {
        let p = crate::plan::pow2_u64(self.levels - level);
        proof {
            lemma_pow2_pos(self.levels as nat);
            assert(g <= g * self.gsize) by (nonlinear_arith)
                requires
                    1 <= self.gsize,
                    0 <= g,
            ;
            assert((g as int) * (p as int) <= 0xFFFF_FFFFu64 * 0x1000000u64) by (nonlinear_arith)
                requires
                    0 <= g <= 0xFFFF_FFFFu64,
                    0 <= p <= 0x1000000u64,
            ;
            lemma_done_le(self.n as nat, self.levels as nat, level as nat, g as nat);
        }
        let b: u64 = (g as u64) * p;
        b
    }

    /// Whether every output this group would produce already exists.
    fn group_all_exist(&self, g: usize) -> (r: bool)
        requires
            self.wf(),
            !self.trivial,
            (g as nat) * (self.gsize as nat) < self.n as nat,
        ensures
            r == self.group_complete(g as nat),
    {
        let k = self.group_len(g);
        let mut level: usize = 1;
        while level <= self.levels
            invariant
                self.wf(),
                !self.trivial,
                (g as nat) * (self.gsize as nat) < self.n as nat,
                k == self.kg(g as nat),
                k <= 0xFFFF_FFFF,
                1 <= level <= self.levels + 1,
                forall|l: int, i: int|
                    1 <= l < level && self.base_of(g as nat, l as nat) <= i
                        < self.base_of(g as nat, l as nat) + spec_outputs(self.kg(g as nat), l as nat)
                    ==> #[trigger] self.flag(l, i),
            decreases self.levels + 1 - level,
        {
            let base = self.level_base(g, level);
            let outs = crate::plan::outputs_in_level(k, level);
            proof {
                assert(self.progress.outputs@[level - 1]
                    == spec_outputs(self.n as nat, level as nat));
                assert(spec_outputs(self.n as nat, level as nat) <= self.n);
            }
            let mut j: usize = 0;
            while j < outs
                invariant
                    self.wf(),
                    !self.trivial,
                    (g as nat) * (self.gsize as nat) < self.n as nat,
                    k == self.kg(g as nat),
                    1 <= level <= self.levels,
                    base == self.base_of(g as nat, level as nat),
                    outs == spec_outputs(self.kg(g as nat), level as nat),
                    base + outs <= spec_outputs(self.n as nat, level as nat),
                    spec_outputs(self.n as nat, level as nat) <= self.n <= 0xFFFF_FFFF,
                    j <= outs,
                    forall|i: int| base <= i < base + j ==> #[trigger] self.flag(level as int, i),
                decreases outs - j,
            {
                let li: usize = level - 1;
                let idx64: u64 = base + j as u64;
                let rowlen: usize = self.existing[li].len();
                proof {
                    assert(rowlen == spec_outputs(self.n as nat, level as nat));
                    assert(idx64 < rowlen);
                }
                let idx: usize = idx64 as usize;
                if !self.existing[li][idx] {
                    proof {
                        assert(!self.flag(level as int, (base + j) as int));
                    }
                    return false;
                }
                proof {
                    assert(self.flag(level as int, (base + j) as int));
                }
                j = j + 1;
            }
            level = level + 1;
        }
        proof {
            assert forall|l: int, i: int|
                1 <= l <= self.levels && self.base_of(g as nat, l as nat) <= i
                    < self.base_of(g as nat, l as nat) + spec_outputs(self.kg(g as nat), l as nat)
                implies #[trigger] self.flag(l, i) by {}
        }
        true
    }

    /// Scans forward from group `g0`: groups whose outputs all exist
    /// are credited and skipped; at the first incomplete group the
    /// loading of its slices begins; past the last group the terminal
    /// 100% report goes out.
    fn start_groups(&mut self, g0: usize) -> (a: Action)
        requires
            old(self).wf(),
            !old(self).trivial,
            old(self).phase matches Phase::Finished,
            old(self).counts_start_ok(g0 as nat),
            g0 as nat <= old(self).group_count(),
        ensures
            final(self).wf(),
            Builder::step_laws(old(self), final(self), &a),
            final(self).last_bp == old(self).last_bp,
            final(self).trivial == old(self).trivial,
            a matches Action::ReadSlice { .. } || a matches Action::Report { .. },
            final(self).work_left() <= old(self).work_left(),
            final(self).work_left() == old(self).work_left() ==> final(self).stage_left()
                < 3 * 0x2000000,
            Builder::same_plan(old(self), final(self)),
            !(final(self).phase matches Phase::AwaitMidObserver { .. }),
            g0 <= final(self).group_mark(),
            forall|g2: int| g0 <= g2 < final(self).group_mark()
                ==> #[trigger] final(self).group_complete(g2 as nat),
        decreases old(self).group_count() - g0,
    {
        let gcount = crate::plan::outputs_in_level(self.n, self.levels);
        if g0 >= gcount {
            proof {
                assert(g0 as nat == self.group_count());
                lemma_gcount_covers(self.n as nat, self.levels as nat);
                // every level's completed count has reached its total
                assert forall|l: int| 0 <= l < self.levels
                    implies #[trigger] self.progress.counts@[l]
                        == self.progress.outputs@[l] by {
                    assert(self.progress.counts@[l] == done_upto(self.n as nat,
                        self.levels as nat, (l + 1) as nat, g0 as nat));
                    assert((g0 as nat) * pow2(self.levels as nat) >= self.n as nat);
                }
            }
            self.phase = Phase::AwaitFinalObserver;
            return Action::Report { percent_bp: 10000, terminal: true };
        }
        proof {
            lemma_before_count(self.n as nat, self.levels as nat, g0 as nat);
        }
        if !self.group_all_exist(g0) {
            proof {
                lemma_pow2_pos(self.levels as nat);
                assert(1 <= self.kg(g0 as nat));
                assert((g0 as int + 1) * (self.gsize as int)
                    == g0 as int * self.gsize + self.gsize) by (nonlinear_arith);
                assert(self.kg(g0 as nat) <= self.gsize);
            }
            let ghost pre = *self;
            self.phase = Phase::AwaitSlice { g: g0, got: Vec::new(), src: Ghost(Seq::empty()) };
            proof {
                lemma_group_complete_same(&pre, self, g0 as nat);
                lemma_counts_start_same(&pre, self, g0 as nat);
                assert(g0 * self.gsize + 0 < self.n);
            }
            return Action::ReadSlice { slice: g0 * self.gsize };
        }
        // every output of this group exists: credit its whole weight
        let ghost pre_skip = *self;
        let k = self.group_len(g0);
        let mut level: usize = 1;
        while level <= self.levels
            invariant
                self.wf(),
                !self.trivial,
                (g0 as nat) * (self.gsize as nat) < self.n as nat,
                k == self.kg(g0 as nat),
                1 <= k <= 0xFFFF_FFFF,
                1 <= level <= self.levels + 1,
                forall|i: int| 0 <= i < self.levels ==> #[trigger] self.progress.counts@[i] == (
                    if i + 1 < level {
                        done_upto(self.n as nat, self.levels as nat, (i + 1) as nat, (g0 + 1) as nat)
                    } else {
                        done_upto(self.n as nat, self.levels as nat, (i + 1) as nat, g0 as nat)
                    }),
                self.n == old(self).n,
                self.levels == old(self).levels,
                self.gsize == old(self).gsize,
                self.w0 == old(self).w0,
                self.h0 == old(self).h0,
                self.want16 == old(self).want16,
                self.existing == old(self).existing,
                self.trivial == old(self).trivial,
                self.last_bp == old(self).last_bp,
                self.phase matches Phase::Finished,
                old(self).progress.spec_bp() <= self.progress.spec_bp(),
                self.work_left() <= old(self).work_left(),
                level > 1 ==> self.work_left() < old(self).work_left(),
            decreases self.levels + 1 - level,
        {
            let c = crate::plan::outputs_in_level(k, level);
            proof {
                lemma_group_partition(self.n as nat, self.levels as nat, level as nat, g0 as nat);
                lemma_done_le(self.n as nat, self.levels as nat, level as nat, g0 as nat);
            }
            let ghost pre_counts = self.progress.counts@;
            self.progress.complete(level, c);
            proof {
                lemma_sum_diff_update(pre_counts, self.progress.outputs@,
                    pre_counts.len() as int, level - 1, c as int);
                assert forall|i: int| 0 <= i < self.levels implies #[trigger] self.progress.counts@[i] == (
                    if i + 1 < level + 1 {
                        done_upto(self.n as nat, self.levels as nat, (i + 1) as nat, (g0 + 1) as nat)
                    } else {
                        done_upto(self.n as nat, self.levels as nat, (i + 1) as nat, g0 as nat)
                    }) by {
                    if i + 1 == level {
                        assert(self.progress.counts@[i] == pre_counts[i] + c);
                    } else {
                        assert(self.progress.counts@[i] == pre_counts[i]);
                    }
                }
            }
            level = level + 1;
        }
        proof {
            assert forall|i: int| 0 <= i < self.levels implies #[trigger] self.progress.counts@[i]
                == done_upto(self.n as nat, self.levels as nat, (i + 1) as nat, (g0 + 1) as nat)
                by {}
        }
        let bp = self.progress.percent_bp();
        if report_due(bp, self.last_bp, false) {
            self.phase = Phase::AwaitSkipObserver { next_g: g0 + 1 };
            proof {
                lemma_count_step(self.n as nat, self.levels as nat, g0 as nat);
                assert forall|g2: int| g0 <= g2 < self.group_mark()
                    implies #[trigger] self.group_complete(g2 as nat) by {
                    lemma_group_complete_same(&pre_skip, self, g2 as nat);
                }
            }
            return Action::Report { percent_bp: bp, terminal: false };
        }
        proof {
            lemma_count_step(self.n as nat, self.levels as nat, g0 as nat);
            assert((self.group_count() - (g0 + 1)) < (self.group_count() - g0));
        }
        let a = self.start_groups(g0 + 1);
        proof {
            assert forall|g2: int| g0 <= g2 < self.group_mark()
                implies #[trigger] self.group_complete(g2 as nat) by {
                if g2 == g0 {
                    lemma_group_complete_same(&pre_skip, self, g2 as nat);
                }
            }
        }
        a
    }
}

/// The run's groups cover the whole stack.
proof fn lemma_gcount_covers(n: nat, levels: nat)
    requires
        1 <= levels <= 24,
        1 <= n,
    ensures
        spec_outputs(n, levels) * pow2(levels) >= n,
{
    lemma_pow2_pos(levels);
    let d = pow2(levels) as int;
    lemma_fundamental_div_mod(n + d - 1, d);
    assert(spec_outputs(n, levels) * d >= n) by (nonlinear_arith)
        requires
            n + d - 1 == d * ((n + d - 1) / d) + ((n + d - 1) % d),
            0 <= (n + d - 1) % d < d,
            0 < d,
            1 <= n,
            spec_outputs(n, levels) == (n + d - 1) as int / d,
    ;
}


/// Outputs still uncredited at the first `l` levels.
pub open spec fn sum_diff(counts: Seq<usize>, outputs: Seq<usize>, l: int) -> int
    decreases l,
{
    if l <= 0 {
        0
    } else {
        sum_diff(counts, outputs, l - 1) + (outputs[l - 1] - counts[l - 1])
    }
}

proof fn lemma_sum_diff_nonneg(counts: Seq<usize>, outputs: Seq<usize>, l: int)
    requires
        l <= counts.len(),
        l <= outputs.len(),
        forall|k: int| 0 <= k < l ==> #[trigger] counts[k] <= outputs[k],
    ensures
        sum_diff(counts, outputs, l) >= 0,
    decreases l,
{
    if l > 0 {
        lemma_sum_diff_nonneg(counts, outputs, l - 1);
    }
}

/// Crediting `k` more outputs at one level lowers the uncredited sum
/// by exactly `k`.
proof fn lemma_sum_diff_update(counts: Seq<usize>, outputs: Seq<usize>, l: int, i: int, k: int)
    requires
        0 <= i < l,
        l <= counts.len(),
        counts[i] + k <= usize::MAX,
        0 <= k,
    ensures
        sum_diff(counts.update(i, (counts[i] + k) as usize), outputs, l)
            == sum_diff(counts, outputs, l) - k,
    decreases l,
{
    let c2 = counts.update(i, (counts[i] + k) as usize);
    if i == l - 1 {
        lemma_sum_diff_same(counts, c2, outputs, l - 1);
    } else {
        lemma_sum_diff_update(counts, outputs, l - 1, i, k);
    }
}

/// The uncredited sum reads only the first `l` entries.
proof fn lemma_sum_diff_same(a: Seq<usize>, b: Seq<usize>, outputs: Seq<usize>, l: int)
    requires
        forall|k: int| 0 <= k < l ==> #[trigger] a[k] == b[k],
    ensures
        sum_diff(a, outputs, l) == sum_diff(b, outputs, l),
    decreases l,
{
    if l > 0 {
        lemma_sum_diff_same(a, b, outputs, l - 1);
    }
}


/// Under the invariant the remaining work is never negative and the
/// phase rank stays under its ceiling.
proof fn lemma_measure_bounds(b: &Builder)
    requires
        b.wf(),
        !b.trivial,
    ensures
        b.work_left() >= 0,
        0 <= b.stage_left() < 6 * 0x2000000,
{
    assert forall|k: int| 0 <= k < b.progress.counts@.len()
        implies #[trigger] b.progress.counts@[k] <= b.progress.outputs@[k] by {}
    lemma_sum_diff_nonneg(b.progress.counts@, b.progress.outputs@,
        b.progress.counts@.len() as int);
    match &b.phase {
        Phase::AwaitSlice { g, got, .. } => {
            assert((*g as int + 1) * (b.gsize as int)
                == *g as int * b.gsize + b.gsize) by (nonlinear_arith);
            assert(b.kg(*g as nat) <= b.gsize);
        },
        _ => {},
    }
}

/// A step that lowers the remaining work lowers the measure, whatever
/// the two phases.
proof fn lemma_measure_drop(pre: &Builder, post: &Builder)
    requires
        post.wf(),
        !post.trivial,
        post.work_left() < pre.work_left(),
        pre.stage_left() >= 0,
    ensures
        post.spec_measure() < pre.spec_measure(),
{
    lemma_measure_bounds(post);
}

/// A rounded-up quotient never exceeds its dividend.
proof fn lemma_outputs_le(m: nat, l: nat)
    ensures
        spec_outputs(m, l) <= m,
{
    lemma_pow2_pos(l);
    let d = pow2(l) as int;
    lemma_fundamental_div_mod(m + d - 1, d);
    assert(spec_outputs(m, l) <= m) by (nonlinear_arith)
        requires
            m + d - 1 == d * ((m + d - 1) / d) + ((m + d - 1) % d),
            0 <= (m + d - 1) % d < d,
            1 <= d,
            0 <= m,
            spec_outputs(m, l) == (m + d - 1) as int / d,
    ;
}

/// A group that starts strictly inside the stack is one of the run's
/// groups.
proof fn lemma_before_count(n: nat, levels: nat, g: nat)
    requires
        1 <= levels <= 24,
        1 <= n,
        g < spec_outputs(n, levels),
    ensures
        g * pow2(levels) < n,
{
    lemma_pow2_pos(levels);
    let d = pow2(levels) as int;
    if g * d >= n {
        // then the first g groups already cover the stack, so the
        // rounded-up group count is at most g
        lemma_fundamental_div_mod(n + d - 1, d);
        assert(spec_outputs(n, levels) <= g) by (nonlinear_arith)
            requires
                n + d - 1 == d * ((n + d - 1) / d) + ((n + d - 1) % d),
                0 <= (n + d - 1) % d < d,
                g * d >= n,
                1 <= n,
                0 < d,
                spec_outputs(n, levels) == (n + d - 1) as int / d,
        ;
    }
}

/// Within the stack, the next group boundary stays within the group
/// count.
proof fn lemma_count_step(n: nat, levels: nat, g: nat)
    requires
        1 <= levels <= 24,
        g * pow2(levels) < n,
    ensures
        g + 1 <= spec_outputs(n, levels),
        g < spec_outputs(n, levels),
    decreases n,
{
    lemma_pow2_pos(levels);
    let d = pow2(levels) as int;
    lemma_fundamental_div_mod(n + d - 1, d);
    assert(g + 1 <= spec_outputs(n, levels)) by (nonlinear_arith)
        requires
            n + d - 1 == d * ((n + d - 1) / d) + ((n + d - 1) % d),
            0 <= (n + d - 1) % d < d,
            g * d < n,
            0 <= g,
            0 < d,
            spec_outputs(n, levels) == (n + d - 1) as int / d,
    ;
}

/// Machines that agree on the plan and the pre-scanned flags agree on
/// which groups are complete.
proof fn lemma_group_complete_same(a: &Builder, b: &Builder, g: nat)
    requires
        a.n == b.n,
        a.levels == b.levels,
        a.gsize == b.gsize,
        a.existing == b.existing,
    ensures
        a.group_complete(g) == b.group_complete(g),
{
    if a.group_complete(g) {
        assert forall|l: int, i: int|
            1 <= l <= b.levels && b.base_of(g, l as nat) <= i
                < b.base_of(g, l as nat) + spec_outputs(b.kg(g), l as nat)
            implies #[trigger] b.flag(l, i) by {
            assert(a.flag(l, i));
        }
    }
    if b.group_complete(g) {
        assert forall|l: int, i: int|
            1 <= l <= a.levels && a.base_of(g, l as nat) <= i
                < a.base_of(g, l as nat) + spec_outputs(a.kg(g), l as nat)
            implies #[trigger] a.flag(l, i) by {
            assert(b.flag(l, i));
        }
    }
}

/// Machines that agree on the plan and the counters agree on the
/// boundary position.
proof fn lemma_counts_start_same(a: &Builder, b: &Builder, g: nat)
    requires
        a.n == b.n,
        a.levels == b.levels,
        a.progress.counts@ == b.progress.counts@,
    ensures
        a.counts_start_ok(g) == b.counts_start_ok(g),
{
    if a.counts_start_ok(g) {
        assert forall|i: int| 0 <= i < b.levels implies #[trigger] b.progress.counts@[i]
            == done_upto(b.n as nat, b.levels as nat, (i + 1) as nat, g) by {
            assert(a.progress.counts@[i] == done_upto(a.n as nat, a.levels as nat, (i + 1) as nat,
                g));
        }
    }
    if b.counts_start_ok(g) {
        assert forall|i: int| 0 <= i < a.levels implies #[trigger] a.progress.counts@[i]
            == done_upto(a.n as nat, a.levels as nat, (i + 1) as nat, g) by {
            assert(b.progress.counts@[i] == done_upto(b.n as nat, b.levels as nat, (i + 1) as nat,
                g));
        }
    }
}

/// Machines that agree on the plan and the counters agree on the
/// in-group position.
proof fn lemma_counts_mid_same(a: &Builder, b: &Builder, st: &GroupSt)
    requires
        a.n == b.n,
        a.levels == b.levels,
        a.gsize == b.gsize,
        a.progress.counts@ == b.progress.counts@,
    ensures
        a.counts_mid_ok(st) == b.counts_mid_ok(st),
{
    if a.counts_mid_ok(st) {
        assert forall|i: int| 0 <= i < b.levels implies #[trigger] b.progress.counts@[i]
            == done_upto(b.n as nat, b.levels as nat, (i + 1) as nat, st.g as nat) + (
            if i + 1 < st.level {
                spec_outputs(b.kg(st.g as nat), (i + 1) as nat)
            } else if i + 1 == st.level {
                st.j as nat
            } else {
                0
            }) by {
            assert(a.progress.counts@[i] == done_upto(a.n as nat, a.levels as nat, (i + 1) as nat,
                st.g as nat) + (
            if i + 1 < st.level {
                spec_outputs(a.kg(st.g as nat), (i + 1) as nat)
            } else if i + 1 == st.level {
                st.j as nat
            } else {
                0
            }));
        }
    }
    if b.counts_mid_ok(st) {
        assert forall|i: int| 0 <= i < a.levels implies #[trigger] a.progress.counts@[i]
            == done_upto(a.n as nat, a.levels as nat, (i + 1) as nat, st.g as nat) + (
            if i + 1 < st.level {
                spec_outputs(a.kg(st.g as nat), (i + 1) as nat)
            } else if i + 1 == st.level {
                st.j as nat
            } else {
                0
            }) by {
            assert(b.progress.counts@[i] == done_upto(b.n as nat, b.levels as nat, (i + 1) as nat,
                st.g as nat) + (
            if i + 1 < st.level {
                spec_outputs(b.kg(st.g as nat), (i + 1) as nat)
            } else if i + 1 == st.level {
                st.j as nat
            } else {
                0
            }));
        }
    }
}

/// Machines that agree on the plan agree on in-group consistency.
proof fn lemma_st_wf_same(a: &Builder, b: &Builder, st: &GroupSt)
    requires
        a.n == b.n,
        a.levels == b.levels,
        a.gsize == b.gsize,
        a.w0 == b.w0,
        a.h0 == b.h0,
        a.want16 == b.want16,
        a.existing == b.existing,
    ensures
        a.st_wf(st) == b.st_wf(st),
{
    if a.st_wf(st) {
        assert forall|i: int| 0 <= i < st.next@.len()
            implies #[trigger] b.spec_child_ok(st, i) by {
            assert(a.spec_child_ok(st, i));
        }
        if st.level == 1 {
            assert forall|i: int| 0 <= i < st.cur@.len()
                implies #[trigger] Builder::spec_slice_buf(st.src@[i], b.want16,
                    &st.cur@[i]) by {
                assert(Builder::spec_slice_buf(st.src@[i], a.want16, &st.cur@[i]));
            }
        }
    }
    if b.st_wf(st) {
        assert forall|i: int| 0 <= i < st.next@.len()
            implies #[trigger] a.spec_child_ok(st, i) by {
            assert(b.spec_child_ok(st, i));
        }
        if st.level == 1 {
            assert forall|i: int| 0 <= i < st.cur@.len()
                implies #[trigger] Builder::spec_slice_buf(st.src@[i], a.want16,
                    &st.cur@[i]) by {
                assert(Builder::spec_slice_buf(st.src@[i], b.want16, &st.cur@[i]));
            }
        }
    }
}

impl Builder {
    /// Moves past finished levels and groups, then asks for the one
    /// piece of outside work the current output needs: reading it
    /// back if it already exists, or writing its freshly reduced
    /// bytes.
    fn advance(&mut self, st: GroupSt) -> (a: Action)
        requires
            old(self).wf(),
            !old(self).trivial,
            old(self).phase matches Phase::Finished,
            old(self).st_wf(&st),
            old(self).counts_mid_ok(&st),
        ensures
            final(self).wf(),
            Builder::step_laws(old(self), final(self), &a),
            final(self).last_bp == old(self).last_bp,
            final(self).trivial == old(self).trivial,
            !(a matches Action::Done { .. }),
            (a matches Action::Fail { error } ==> error == ThumbError::Io && (halved(
                old(self).w0, old(self).levels as nat) == 0 || halved(old(self).h0,
                old(self).levels as nat) == 0)),
            final(self).work_left() <= old(self).work_left(),
            final(self).work_left() == old(self).work_left() ==> final(self).stage_left()
                < 3 * 0x2000000,
            st.j < spec_ceil_half(st.cur@.len()) ==> (a matches Action::ReadOutput { .. }
                || a matches Action::WriteOutput { .. } || a matches Action::Fail { .. }),
            Builder::same_plan(old(self), final(self)),
            !(final(self).phase matches Phase::AwaitMidObserver { .. }),
            !(final(self).phase matches Phase::Finished) ==> st.g <= final(self).group_mark(),
            forall|g2: int| st.g < g2 < final(self).group_mark()
                ==> #[trigger] final(self).group_complete(g2 as nat),
            st.j < spec_ceil_half(st.cur@.len()) && !(final(self).phase
                matches Phase::Finished) ==> final(self).group_mark() == st.g as int,
            st.j < spec_ceil_half(st.cur@.len()) ==> ((final(self).phase
                matches Phase::AwaitReadback { st: st2 } ==> st2 == st) && (final(self).phase
                matches Phase::AwaitWritten { st: st2, .. } ==> st2 == st)),
            st.next@.len() >= 1 ==> ((final(self).phase matches Phase::AwaitReadback {
                st: st2 } ==> spec_carried(&st2, &st.next@[st.next@.len() - 1])) && (
                final(self).phase matches Phase::AwaitWritten { st: st2, .. }
                ==> spec_carried(&st2, &st.next@[st.next@.len() - 1]))),
        decreases old(self).levels - st.level,
    {
        let k = st.cur.len();
        proof {
            lemma_outputs_le(self.kg(st.g as nat), (st.level - 1) as nat);
            assert((st.g as int + 1) * (self.gsize as int)
                == st.g as int * self.gsize + self.gsize) by (nonlinear_arith);
            assert(self.kg(st.g as nat) <= self.gsize);
            lemma_ceil_half_step(self.kg(st.g as nat), (st.level - 1) as nat);
        }
        let outs = (k + 1) / 2;
        proof {
            assert(outs == spec_outputs(self.kg(st.g as nat), st.level as nat));
        }
        if st.j == outs {
            if st.level == self.levels {
                proof {
                    assert forall|i: int| 0 <= i < self.levels
                        implies #[trigger] self.progress.counts@[i] == done_upto(
                            self.n as nat, self.levels as nat, (i + 1) as nat,
                            (st.g + 1) as nat) by {
                        lemma_group_partition(self.n as nat, self.levels as nat, (i + 1) as nat,
                            st.g as nat);
                    }
                    lemma_count_step(self.n as nat, self.levels as nat, st.g as nat);
                }
                return self.start_groups(st.g + 1);
            }
            let GroupSt { g, level, cur: _, next, j: _, src: _ } = st;
            let st2 = GroupSt {
                g, level: level + 1, cur: next, next: Vec::new(), j: 0,
                src: Ghost(Seq::empty()),
            };
            proof {
                assert(self.st_wf(&st2));
                assert(self.counts_mid_ok(&st2));
            }
            let a = self.advance(st2);
            proof {
                if st2.cur@.len() >= 1 {
                    assert(st2.j < spec_ceil_half(st2.cur@.len()));
                }
            }
            return a;
        }
        let base = self.level_base(st.g, st.level);
        proof {
            assert(self.progress.outputs@[st.level - 1]
                == spec_outputs(self.n as nat, st.level as nat));
            assert(base + st.j < spec_outputs(self.n as nat, st.level as nat));
        }
        let idx64: u64 = base + st.j as u64;
        let li: usize = st.level - 1;
        let rowlen: usize = self.existing[li].len();
        proof {
            assert(rowlen == spec_outputs(self.n as nat, st.level as nat));
        }
        let idx: usize = idx64 as usize;
        if self.existing[li][idx] {
            let ghost pre = *self;
            let level = st.level;
            self.phase = Phase::AwaitReadback { st };
            proof {
                lemma_st_wf_same(&pre, self, match &self.phase {
                    Phase::AwaitReadback { st } => st,
                    _ => arbitrary(),
                });
                lemma_counts_mid_same(&pre, self, match &self.phase {
                    Phase::AwaitReadback { st } => st,
                    _ => arbitrary(),
                });
            }
            return Action::ReadOutput { level, index: idx64 };
        }
        let w1 = dims_at(self.w0, st.level - 1);
        let h1 = dims_at(self.h0, st.level - 1);
        proof {
            assert(2 * st.j < k) by {
                lemma_fundamental_div_mod(k + 1, 2);
            }
        }
        let out = if 2 * st.j + 1 < k {
            reduce_pair(&st.cur[2 * st.j], &st.cur[2 * st.j + 1], w1, h1)
        } else {
            reduce_single(&st.cur[2 * st.j], w1, h1)
        };
        let wl = dims_at(self.w0, st.level);
        let hl = dims_at(self.h0, st.level);
        proof {
            assert(halved(self.w0, st.level as nat)
                == halved(self.w0, (st.level - 1) as nat) / 2);
            assert(halved(self.h0, st.level as nat)
                == halved(self.h0, (st.level - 1) as nat) / 2);
            lemma_level_area(self.w0, self.h0, st.level as nat);
        }
        let bytes = match crate::codec::encode_output(&out, wl, hl) {
            Ok(b) => b,
            Err(e) => {
                // only an empty output plane can make the encoder fail
                proof {
                    assert(wl == 0 || hl == 0);
                    lemma_halved_antitone(self.w0, st.level as nat, self.levels as nat);
                    lemma_halved_antitone(self.h0, st.level as nat, self.levels as nat);
                }
                self.phase = Phase::Finished;
                return Action::Fail { error: e };
            },
        };
        let level = st.level;
        let ghost pre = *self;
        self.phase = Phase::AwaitWritten { st, out };
        proof {
            lemma_st_wf_same(&pre, self, match &self.phase {
                Phase::AwaitWritten { st, .. } => st,
                _ => arbitrary(),
            });
            lemma_counts_mid_same(&pre, self, match &self.phase {
                Phase::AwaitWritten { st, .. } => st,
                _ => arbitrary(),
            });
        }
        return Action::WriteOutput { level, index: idx64, bytes };
    }

    /// Books one finished output (freshly written or read back),
    /// delivers a progress report when the policy asks for one, and
    /// moves on.
    fn complete_done(&mut self, st: GroupSt, out: PixelBuf) -> (a: Action)
        requires
            old(self).wf(),
            !old(self).trivial,
            old(self).phase matches Phase::Finished,
            old(self).st_wf(&st),
            st.j < spec_ceil_half(st.cur@.len()),
            old(self).counts_mid_ok(&st),
            out.spec_is16() == old(self).want16,
            out.buf_len() == halved(old(self).w0, st.level as nat)
                * halved(old(self).h0, st.level as nat),
            old(self).flag(st.level as int,
                (old(self).base_of(st.g as nat, st.level as nat) + st.j) as int) || (
                if 2 * st.j + 1 < st.cur@.len() {
                    spec_pair_output(&st.cur@[2 * st.j as int], &st.cur@[2 * st.j + 1],
                        halved(old(self).w0, (st.level - 1) as nat) as int,
                        halved(old(self).h0, (st.level - 1) as nat) as int, &out)
                } else {
                    spec_single_output(&st.cur@[2 * st.j as int],
                        halved(old(self).w0, (st.level - 1) as nat) as int,
                        halved(old(self).h0, (st.level - 1) as nat) as int, &out)
                }),
        ensures
            final(self).wf(),
            Builder::step_laws(old(self), final(self), &a),
            final(self).last_bp == old(self).last_bp,
            final(self).trivial == old(self).trivial,
            !(a matches Action::Done { .. }),
            (a matches Action::Fail { error } ==> error == ThumbError::Io && (halved(
                old(self).w0, old(self).levels as nat) == 0 || halved(old(self).h0,
                old(self).levels as nat) == 0)),
            final(self).work_left() < old(self).work_left(),
            !(final(self).phase matches Phase::Finished) ==> ((final(self).phase
                matches Phase::AwaitMidObserver { st: st2 } ==> (st2.next@.len() >= 1
                && st2.next@[st2.next@.len() - 1] == out)) && (final(self).phase
                matches Phase::AwaitReadback { st: st2 } ==> spec_carried(&st2, &out)) && (
                final(self).phase matches Phase::AwaitWritten { st: st2, .. }
                ==> spec_carried(&st2, &out))),
            Builder::same_plan(old(self), final(self)),
            !(final(self).phase matches Phase::Finished) ==> st.g <= final(self).group_mark(),
            forall|g2: int| st.g < g2 < final(self).group_mark()
                ==> #[trigger] final(self).group_complete(g2 as nat),
    {
        proof {
            let gz = old(self).gsize as int;
            lemma_outputs_le(old(self).kg(st.g as nat), (st.level - 1) as nat);
            assert((st.g as int + 1) * gz == st.g as int * gz + gz) by (nonlinear_arith);
            assert(old(self).kg(st.g as nat) <= old(self).gsize);
        }
        let ghost st0 = st;
        let mut st = st;
        st.next.push(out);
        st.j = st.j + 1;
        proof {
            lemma_ceil_half_step(self.kg(st.g as nat), (st.level - 1) as nat);
            lemma_done_le(self.n as nat, self.levels as nat, st.level as nat, st.g as nat);
            assert(self.progress.counts@[st.level - 1] == done_upto(self.n as nat,
                self.levels as nat, st.level as nat, st.g as nat) + st.j - 1);
            assert(self.progress.outputs@[st.level - 1]
                == spec_outputs(self.n as nat, st.level as nat));
        }
        let ghost pre_counts = self.progress.counts@;
        self.progress.complete(st.level, 1);
        proof {
            assert forall|i: int| 0 <= i < st.next@.len()
                implies #[trigger] self.spec_child_ok(&st, i) by {
                if i < st.next@.len() - 1 {
                    assert(old(self).spec_child_ok(&st0, i));
                    assert(st.next@[i] == st0.next@[i]);
                }
            }
            lemma_sum_diff_update(pre_counts, self.progress.outputs@,
                pre_counts.len() as int, st.level - 1, 1);
            assert forall|i: int| 0 <= i < self.levels
                implies #[trigger] self.progress.counts@[i] == done_upto(
                    self.n as nat, self.levels as nat, (i + 1) as nat, st.g as nat) + (
                if i + 1 < st.level {
                    spec_outputs(self.kg(st.g as nat), (i + 1) as nat)
                } else if i + 1 == st.level {
                    st.j as nat
                } else {
                    0
                }) by {
                if i + 1 == st.level {
                    assert(self.progress.counts@[i] == pre_counts[i] + 1);
                } else {
                    assert(self.progress.counts@[i] == pre_counts[i]);
                }
            }
        }
        let bp = self.progress.percent_bp();
        if report_due(bp, self.last_bp, false) {
            let ghost pre = *self;
            self.phase = Phase::AwaitMidObserver { st };
            proof {
                lemma_st_wf_same(&pre, self, match &self.phase {
                    Phase::AwaitMidObserver { st } => st,
                    _ => arbitrary(),
                });
                lemma_counts_mid_same(&pre, self, match &self.phase {
                    Phase::AwaitMidObserver { st } => st,
                    _ => arbitrary(),
                });
            }
            return Action::Report { percent_bp: bp, terminal: false };
        }
        self.advance(st)
    }

    /// Feeds the machine the answer to its previous action and gets
    /// the next one.
    pub fn next(&mut self, ev: Event) -> (a: Action)
        requires
            old(self).wf(),
            !(old(self).phase matches Phase::Finished),
            old(self).expects(&ev),
        ensures
            final(self).wf(),
            Builder::step_laws(old(self), final(self), &a),
            // a false observer answer to a mid-run report cancels the
            // run: the machine finishes at once, successfully
            ((old(self).phase matches Phase::AwaitMidObserver { .. } || old(self).phase
                matches Phase::AwaitSkipObserver { .. }) && (ev matches Event::Observer { go }
                && !go) ==> a matches Action::Done { cancelled: true }),
            // the machine never quits early: `Done` comes only from the
            // terminal report's acknowledgement or from a cancellation
            (a matches Action::Done { cancelled } ==> (!cancelled && old(self).phase
                matches Phase::AwaitFinalObserver) || (cancelled && (ev matches Event::Observer {
                go } && !go))),
            // the run opens with a single 0% report (100% when there is
            // nothing to build) and closes on the terminal report
            (old(self).phase matches Phase::Begin ==> (a matches Action::Report {
                percent_bp, terminal } && percent_bp == (if old(self).trivial { 10000int } else {
                0int }) && terminal == old(self).trivial)),
            (old(self).phase matches Phase::AwaitFinalObserver ==> a matches Action::Done {
                cancelled } && !cancelled),
            // after an observer answer the machine's last-delivered mark
            // equals the value it had reported
            (old(self).phase matches Phase::AwaitInitObserver ==> final(self).last_bp == 0),
            ((old(self).phase matches Phase::AwaitMidObserver { .. } || old(self).phase
                matches Phase::AwaitSkipObserver { .. })
                ==> final(self).last_bp == old(self).progress.spec_bp()),
            // a failure carries its cause ...
            (a matches Action::Fail { error } ==> error != ThumbError::Empty),
            ((a matches Action::Fail { error } && error == ThumbError::Decode) ==> ((ev matches
                Event::SliceBytes { bytes } && !spec_decodes(bytes@)) || (ev matches
                Event::OutputBytes { bytes } && !spec_decodes(bytes@)))),
            ((a matches Action::Fail { error } && error matches ThumbError::Dim { .. }) ==> ((
                ev matches Event::SliceBytes { bytes } && spec_decodes(bytes@) && (decoded_w(
                bytes@) != old(self).w0 || decoded_h(bytes@) != old(self).h0)) || (ev matches
                Event::OutputBytes { bytes } && old(self).phase matches Phase::AwaitReadback {
                st } && spec_decodes(bytes@) && (decoded_w(bytes@) != halved(old(self).w0,
                st.level as nat) || decoded_h(bytes@) != halved(old(self).h0,
                st.level as nat))))),
            ((a matches Action::Fail { error } && error == ThumbError::Io) ==> (halved(
                old(self).w0, old(self).levels as nat) == 0 || halved(old(self).h0,
                old(self).levels as nat) == 0)),
            // ... and only genuinely bad input fails
            (ev matches Event::SliceBytes { bytes } && !spec_decodes(bytes@)
                ==> a matches Action::Fail { error: ThumbError::Decode }),
            (ev matches Event::OutputBytes { bytes } && !spec_decodes(bytes@)
                ==> a matches Action::Fail { error: ThumbError::Decode }),
            (ev matches Event::SliceBytes { bytes } ==> ((spec_decodes(bytes@)
                && (decoded_w(bytes@) != old(self).w0 || decoded_h(bytes@) != old(self).h0))
                ==> (a == (Action::Fail { error: ThumbError::Dim { expected_w: old(self).w0,
                    expected_h: old(self).h0, got_w: decoded_w(bytes@),
                    got_h: decoded_h(bytes@) } })))),
            (ev matches Event::OutputBytes { bytes } ==> (old(self).phase
                matches Phase::AwaitReadback { st } ==> ((spec_decodes(bytes@)
                && (decoded_w(bytes@) != halved(old(self).w0, st.level as nat)
                || decoded_h(bytes@) != halved(old(self).h0, st.level as nat)))
                ==> (a == (Action::Fail { error: ThumbError::Dim {
                    expected_w: halved(old(self).w0, st.level as nat) as u32,
                    expected_h: halved(old(self).h0, st.level as nat) as u32,
                    got_w: decoded_w(bytes@), got_h: decoded_h(bytes@) } }))))),
            // every step strictly lowers a finite measure: the machine,
            // and so a driver looping on it, terminates
            final(self).spec_measure() < old(self).spec_measure(),
            Builder::same_plan(old(self), final(self)),
            // a freshly loaded buffer is the supplied payload's decode,
            // rescaled to the run's canonical depth; once loading
            // completes it stands last among the level-1 inputs
            (ev matches Event::SliceBytes { bytes } ==> (final(self).phase
                matches Phase::AwaitSlice { g, got, .. } ==> (got@.len() >= 1
                && Builder::spec_slice_buf(bytes@, final(self).want16,
                &got@[got@.len() - 1])))),
            (ev matches Event::SliceBytes { bytes } ==> (final(self).phase
                matches Phase::AwaitReadback { st } ==> (st.level == 1 && st.cur@.len() >= 1
                && Builder::spec_slice_buf(bytes@, final(self).want16,
                &st.cur@[st.cur@.len() - 1])))),
            (ev matches Event::SliceBytes { bytes } ==> (final(self).phase
                matches Phase::AwaitWritten { st, .. } ==> (st.level == 1
                && st.cur@.len() >= 1 && Builder::spec_slice_buf(bytes@, final(self).want16,
                &st.cur@[st.cur@.len() - 1])))),
            // a read-back output's decoded, rescaled samples join the
            // in-flight buffers: the newest output of the level being
            // produced, or, once that level turned over, the last
            // input seeding the next level
            (ev matches Event::OutputBytes { bytes } ==> (final(self).phase
                matches Phase::AwaitMidObserver { st } ==> (st.next@.len() >= 1
                && Builder::spec_slice_buf(bytes@, final(self).want16,
                &st.next@[st.next@.len() - 1])))),
            (ev matches Event::OutputBytes { bytes } ==> (final(self).phase
                matches Phase::AwaitReadback { st } ==> ((st.next@.len() >= 1
                && Builder::spec_slice_buf(bytes@, final(self).want16,
                &st.next@[st.next@.len() - 1])) || (st.cur@.len() >= 1
                && Builder::spec_slice_buf(bytes@, final(self).want16,
                &st.cur@[st.cur@.len() - 1]))))),
            (ev matches Event::OutputBytes { bytes } ==> (final(self).phase
                matches Phase::AwaitWritten { st, .. } ==> ((st.next@.len() >= 1
                && Builder::spec_slice_buf(bytes@, final(self).want16,
                &st.next@[st.next@.len() - 1])) || (st.cur@.len() >= 1
                && Builder::spec_slice_buf(bytes@, final(self).want16,
                &st.cur@[st.cur@.len() - 1]))))),
            // the progress counters move only with the work: a group
            // boundary is crossed only for the group just reduced in
            // memory, or for one whose every output the pre-scan found
            // present -- counters cannot be inflated past the work
            (!final(self).trivial && !(final(self).phase matches Phase::Finished)
                ==> old(self).group_mark() <= final(self).group_mark()
                    && forall|g2: int| old(self).group_mark() <= g2 < final(self).group_mark()
                        ==> #[trigger] final(self).group_complete(g2 as nat)
                            || (g2 == old(self).group_mark() && old(self).in_group())),
    {
        let ghost pre0 = *self;
        let mut ph = Phase::Finished;
        core::mem::swap(&mut self.phase, &mut ph);
        match (ph, ev) {
            (Phase::Begin, Event::Start) => {
                if self.trivial {
                    self.phase = Phase::AwaitFinalObserver;
                    Action::Report { percent_bp: 10000, terminal: true }
                } else {
                    self.phase = Phase::AwaitInitObserver;
                    proof {
                        lemma_counts_start_same(&pre0, self, 0);
                        assert forall|l: int| 0 <= l < self.progress.levels
                            implies #[trigger] self.progress.counts@[l] == 0 by {
                            assert(self.progress.counts@[l] == done_upto(self.n as nat,
                                self.levels as nat, (l + 1) as nat, 0));
                        }
                        self.progress.lemma_bp_zero();
                    }
                    Action::Report { percent_bp: 0, terminal: false }
                }
            },
            (Phase::AwaitInitObserver, Event::Observer { go: _ }) => {
                self.last_bp = 0;
                proof {
                    self.progress.lemma_bp_range();
                    lemma_counts_start_same(&pre0, self, 0);
                }
                let a = self.start_groups(0);
                proof {
                    if self.work_left() < old(self).work_left() {
                        lemma_measure_drop(old(self), self);
                    }
                }
                a
            },
            (Phase::AwaitSlice { g, got, src }, Event::SliceBytes { bytes }) => {
                proof {
                    lemma_counts_start_same(&pre0, self, g as nat);
                    lemma_group_complete_same(&pre0, self, g as nat);
                }
                let k = self.group_len(g);
                match crate::codec::decode_slice(&bytes) {
                    Err(_) => {
                        self.phase = Phase::Finished;
                        Action::Fail { error: ThumbError::Decode }
                    },
                    Ok((w, h, pb)) => {
                        if w != self.w0 || h != self.h0 {
                            self.phase = Phase::Finished;
                            Action::Fail { error: ThumbError::Dim {
                                expected_w: self.w0, expected_h: self.h0, got_w: w, got_h: h } }
                        } else {
                            let pb = crate::codec::convert_to(pb, self.want16);
                            proof {
                                assert(Builder::spec_slice_buf(bytes@, self.want16, &pb));
                            }
                            let mut got = got;
                            got.push(pb);
                            let ghost src2 = src@.push(bytes@);
                            if got.len() < k {
                                let slice: usize = g * self.gsize + got.len();
                                let ghost pre = *self;
                                self.phase = Phase::AwaitSlice { g, got, src: Ghost(src2) };
                                proof {
                                    lemma_counts_start_same(&pre, self, g as nat);
                                    lemma_group_complete_same(&pre, self, g as nat);
                                }
                                Action::ReadSlice { slice }
                            } else {
                                let st = GroupSt {
                                    g, level: 1, cur: got, next: Vec::new(), j: 0,
                                    src: Ghost(src2) };
                                proof {
                                    vstd::arithmetic::power2::lemma2_to64();
                                    assert(pow2(0) == 1);
                                    vstd::arithmetic::div_mod::lemma_div_basics(
                                        self.kg(g as nat) as int);
                                    assert(spec_outputs(self.kg(g as nat), 0)
                                        == self.kg(g as nat));
                                    assert(self.st_wf(&st));
                                    assert(self.counts_mid_ok(&st));
                                    lemma_ceil_half_step(self.kg(g as nat), 0);
                                    assert(st.j < spec_ceil_half(st.cur@.len()));
                                }
                                let a = self.advance(st);
                                proof {
                                    if self.work_left() < old(self).work_left() {
                                        lemma_measure_drop(old(self), self);
                                    } else {
                                        assert(old(self).stage_left() >= 2 * 0x2000000);
                                    }
                                }
                                a
                            }
                        }
                    },
                }
            },
            (Phase::AwaitReadback { st }, Event::OutputBytes { bytes }) => {
                proof {
                    lemma_st_wf_same(&pre0, self, &st);
                    lemma_counts_mid_same(&pre0, self, &st);
                }
                match crate::codec::decode_slice(&bytes) {
                    Err(_) => {
                        self.phase = Phase::Finished;
                        Action::Fail { error: ThumbError::Decode }
                    },
                    Ok((w, h, pb)) => {
                        let wl = dims_at(self.w0, st.level);
                        let hl = dims_at(self.h0, st.level);
                        if w != wl || h != hl {
                            self.phase = Phase::Finished;
                            Action::Fail { error: ThumbError::Dim {
                                expected_w: wl, expected_h: hl, got_w: w, got_h: h } }
                        } else {
                            let pb = crate::codec::convert_to(pb, self.want16);
                            proof {
                                assert(Builder::spec_slice_buf(bytes@, self.want16, &pb));
                            }
                            let a = self.complete_done(st, pb);
                            proof {
                                lemma_measure_drop(old(self), self);
                            }
                            a
                        }
                    },
                }
            },
            (Phase::AwaitWritten { st, out }, Event::Written) => {
                proof {
                    lemma_st_wf_same(&pre0, self, &st);
                    lemma_counts_mid_same(&pre0, self, &st);
                }
                let a = self.complete_done(st, out);
                proof {
                    lemma_measure_drop(old(self), self);
                }
                a
            },
            (Phase::AwaitMidObserver { st }, Event::Observer { go }) => {
                let bp = self.progress.percent_bp();
                self.last_bp = bp as i64;
                if !go {
                    self.phase = Phase::Finished;
                    Action::Done { cancelled: true }
                } else {
                    proof {
                        lemma_st_wf_same(&pre0, self, &st);
                        lemma_counts_mid_same(&pre0, self, &st);
                    }
                    let a = self.advance(st);
                    proof {
                        if self.work_left() < old(self).work_left() {
                            lemma_measure_drop(old(self), self);
                        }
                    }
                    a
                }
            },
            (Phase::AwaitSkipObserver { next_g }, Event::Observer { go }) => {
                let bp = self.progress.percent_bp();
                self.last_bp = bp as i64;
                if !go {
                    self.phase = Phase::Finished;
                    Action::Done { cancelled: true }
                } else {
                    proof {
                        lemma_counts_start_same(&pre0, self, next_g as nat);
                    }
                    let a = self.start_groups(next_g);
                    proof {
                        if self.work_left() < old(self).work_left() {
                            lemma_measure_drop(old(self), self);
                        }
                    }
                    a
                }
            },
            (Phase::AwaitFinalObserver, Event::Observer { go: _ }) => {
                self.phase = Phase::Finished;
                Action::Done { cancelled: false }
            },
            (_, _) => {
                proof {
                    assert(false);
                }
                Action::Done { cancelled: false }
            },
        }
    }
}

/// Idempotence of a completed tree, at the decision level: when the
/// pre-scan found every output of every level present, no step of the
/// machine writes a file or reads a slice, so a rerun over a complete
/// tree moves nothing but the progress figure.
pub proof fn lemma_complete_tree_rerun_writes_nothing(pre: &Builder, post: &Builder, a: &Action)
    requires
        Builder::step_laws(pre, post, a),
        forall|l: int, i: int| 1 <= l <= post.levels && 0 <= i
            < post.existing@[l - 1]@.len() ==> #[trigger] post.flag(l, i),
    ensures
        post.wf() && !post.trivial ==> !(a matches Action::WriteOutput { .. }),
        post.wf() && !post.trivial ==> !(a matches Action::ReadSlice { .. }),
{
    match a {
        Action::WriteOutput { level, index, bytes } => {
            if post.wf() && !post.trivial {
                match &post.phase {
                    Phase::AwaitWritten { st, out } => {
                        lemma_done_le(post.n as nat, post.levels as nat, st.level as nat,
                            st.g as nat);
                        lemma_ceil_half_step(post.kg(st.g as nat), (st.level - 1) as nat);
                        assert(post.existing@[st.level - 1]@.len()
                            == spec_outputs(post.n as nat, st.level as nat));
                        assert(*index < post.existing@[st.level - 1]@.len());
                        assert(!post.flag(*level as int, *index as int));
                        assert(post.flag(*level as int, *index as int));
                    },
                    _ => {},
                }
            }
        },
        _ => {},
    }
    if post.wf() && !post.trivial && (a matches Action::ReadSlice { .. }) {
        match &post.phase {
            Phase::AwaitSlice { g, got, .. } => {
                let gn = *g as nat;
                assert forall|l: int, i: int|
                    1 <= l <= post.levels && post.base_of(gn, l as nat) <= i
                        < post.base_of(gn, l as nat) + spec_outputs(post.kg(gn), l as nat)
                    implies #[trigger] post.flag(l, i) by {
                    lemma_done_le(post.n as nat, post.levels as nat, l as nat, gn);
                    assert(post.existing@[l - 1]@.len()
                        == spec_outputs(post.n as nat, l as nat));
                }
                assert(post.group_complete(gn));
                assert(!post.group_complete(gn));
            },
            _ => {},
        }
    }
}

} // verus!
