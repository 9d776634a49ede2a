//! Slice selection: the numeric-aware lexicographic ("natural") ordering
//! of file names, the case-insensitive extension filter of directory
//! mode, and the `{prefix}{zero-padded index}.{ext}` names of pattern
//! mode.

use vstd::prelude::*;

verus! {

use crate::error::ThumbError;
use crate::naming::all_digits;
use crate::naming::spec_padded;
use crate::naming::pad_decimal;

/// Outcome of a three-way comparison.
#[derive(Clone, Copy, PartialEq, Eq, Structural, Debug)]
pub enum Cmp {
    Lt,
    Eq,
    Gt,
}

pub open spec fn flip(c: Cmp) -> Cmp {
    match c {
        Cmp::Lt => Cmp::Gt,
        Cmp::Eq => Cmp::Eq,
        Cmp::Gt => Cmp::Lt,
    }
}

pub open spec fn is_digit(b: u8) -> bool {
    48 <= b <= 57
}

/// Length of the maximal digit run at the head of `s`.
pub open spec fn run_len(s: Seq<u8>) -> nat
    decreases s.len(),
{
    if s.len() > 0 && is_digit(s[0]) {
        1 + run_len(s.skip(1))
    } else {
        0
    }
}

pub proof fn lemma_run_len_bounds(s: Seq<u8>)
    ensures
        run_len(s) <= s.len(),
        s.len() > 0 && is_digit(s[0]) ==> run_len(s) >= 1,
    decreases s.len(),
{
    if s.len() > 0 && is_digit(s[0]) {
        lemma_run_len_bounds(s.skip(1));
    }
}

/// A digit run is exactly the distance to the first non-digit.
pub proof fn lemma_run_len_char(s: Seq<u8>, m: int)
    requires
        0 <= m <= s.len(),
        forall|k: int| 0 <= k < m ==> is_digit(#[trigger] s[k]),
        m == s.len() || !is_digit(s[m]),
    ensures
        run_len(s) == m,
    decreases m,
{
    if m == 0 {
    } else {
        let t = s.skip(1);
        assert(forall|k: int| 0 <= k < m - 1 ==> #[trigger] t[k] == s[k + 1]);
        lemma_run_len_char(t, m - 1);
    }
}

/// Plain byte-by-byte lexicographic comparison.
pub open spec fn lex_cmp(a: Seq<u8>, b: Seq<u8>) -> Cmp
    decreases a.len(),
{
    if a.len() == 0 && b.len() == 0 {
        Cmp::Eq
    } else if a.len() == 0 {
        Cmp::Lt
    } else if b.len() == 0 {
        Cmp::Gt
    } else if a[0] < b[0] {
        Cmp::Lt
    } else if a[0] > b[0] {
        Cmp::Gt
    } else {
        lex_cmp(a.skip(1), b.skip(1))
    }
}

pub proof fn lemma_lex_flip(a: Seq<u8>, b: Seq<u8>)
    ensures
        lex_cmp(b, a) == flip(lex_cmp(a, b)),
    decreases a.len(),
{
    if a.len() > 0 && b.len() > 0 && a[0] == b[0] {
        lemma_lex_flip(a.skip(1), b.skip(1));
    }
}

pub proof fn lemma_lex_eq(a: Seq<u8>, b: Seq<u8>)
    requires
        lex_cmp(a, b) == Cmp::Eq,
    ensures
        a == b,
    decreases a.len(),
{
    if a.len() > 0 && b.len() > 0 && a[0] == b[0] {
        lemma_lex_eq(a.skip(1), b.skip(1));
        assert(a =~= seq![a[0]] + a.skip(1));
        assert(b =~= seq![b[0]] + b.skip(1));
    }
}

/// If the first `t` bytes agree, the comparison is decided past them.
pub proof fn lemma_lex_skip(a: Seq<u8>, b: Seq<u8>, t: int)
    requires
        0 <= t <= a.len(),
        t <= b.len(),
        forall|k: int| 0 <= k < t ==> a[k] == #[trigger] b[k],
    ensures
        lex_cmp(a, b) == lex_cmp(a.skip(t), b.skip(t)),
    decreases t,
{
    if t == 0 {
        assert(a.skip(0) =~= a);
        assert(b.skip(0) =~= b);
    } else {
        let a1 = a.skip(1);
        let b1 = b.skip(1);
        assert(a[0] == b[0]);
        assert forall|k: int| 0 <= k < t - 1 implies a1[k] == #[trigger] b1[k] by {
            assert(a1[k] == a[k + 1]);
            assert(b1[k] == b[k + 1]);
            assert(a[k + 1] == b[k + 1]);
        }
        lemma_lex_skip(a1, b1, t - 1);
        assert(a1.skip(t - 1) =~= a.skip(t));
        assert(b1.skip(t - 1) =~= b.skip(t));
    }
}

/// Comparison of two digit runs: when neither has a leading zero, a
/// longer run is a larger number; otherwise (left-aligned matching)
/// the runs compare byte by byte.
pub open spec fn run_cmp(x: Seq<u8>, y: Seq<u8>) -> Cmp {
    if x.len() > 0 && y.len() > 0 && x[0] != 48 && y[0] != 48 && x.len() != y.len() {
        if x.len() < y.len() {
            Cmp::Lt
        } else {
            Cmp::Gt
        }
    } else {
        lex_cmp(x, y)
    }
}

pub proof fn lemma_run_flip(x: Seq<u8>, y: Seq<u8>)
    ensures
        run_cmp(y, x) == flip(run_cmp(x, y)),
{
    lemma_lex_flip(x, y);
}

pub proof fn lemma_run_eq(x: Seq<u8>, y: Seq<u8>)
    requires
        run_cmp(x, y) == Cmp::Eq,
    ensures
        x == y,
{
    lemma_lex_eq(x, y);
}

/// The natural ordering: digit runs compare as numbers, everything
/// else byte by byte.
pub open spec fn nat_cmp(a: Seq<u8>, b: Seq<u8>) -> Cmp
    decreases a.len() + b.len(),
    via nat_cmp_dec
{
    if a.len() == 0 && b.len() == 0 {
        Cmp::Eq
    } else if a.len() == 0 {
        Cmp::Lt
    } else if b.len() == 0 {
        Cmp::Gt
    } else if is_digit(a[0]) && is_digit(b[0]) {
        let ra = run_len(a) as int;
        let rb = run_len(b) as int;
        let c = run_cmp(a.take(ra), b.take(rb));
        if c != Cmp::Eq {
            c
        } else {
            nat_cmp(a.skip(ra), b.skip(rb))
        }
    } else if a[0] == b[0] {
        nat_cmp(a.skip(1), b.skip(1))
    } else if a[0] < b[0] {
        Cmp::Lt
    } else {
        Cmp::Gt
    }
}

#[via_fn]
proof fn nat_cmp_dec(a: Seq<u8>, b: Seq<u8>) {
    lemma_run_len_bounds(a);
    lemma_run_len_bounds(b);
}

/// The ordering is antisymmetric: swapping the arguments flips the
/// outcome.
pub proof fn lemma_nat_flip(a: Seq<u8>, b: Seq<u8>)
    ensures
        nat_cmp(b, a) == flip(nat_cmp(a, b)),
    decreases a.len() + b.len(),
{
    lemma_run_len_bounds(a);
    lemma_run_len_bounds(b);
    if a.len() == 0 || b.len() == 0 {
    } else if is_digit(a[0]) && is_digit(b[0]) {
        let ra = run_len(a) as int;
        let rb = run_len(b) as int;
        lemma_run_flip(a.take(ra), b.take(rb));
        let c = run_cmp(a.take(ra), b.take(rb));
        if c == Cmp::Eq {
            lemma_run_eq(a.take(ra), b.take(rb));
            lemma_nat_flip(a.skip(ra), b.skip(rb));
        }
    } else if a[0] == b[0] {
        lemma_nat_flip(a.skip(1), b.skip(1));
    }
}

/// `a` precedes or ties `b` in the natural ordering.
pub open spec fn nat_le(a: Seq<u8>, b: Seq<u8>) -> bool {
    nat_cmp(a, b) != Cmp::Gt
}

/// The ordering is total: of two names, one precedes (or ties) the
/// other.
pub proof fn lemma_nat_total(a: Seq<u8>, b: Seq<u8>)
    ensures
        nat_le(a, b) || nat_le(b, a),
{
    lemma_nat_flip(a, b);
}

/// Three-way natural comparison of the suffixes `a[i..]` and `b[j..]`.
fn natural_cmp_at(a: &Vec<u8>, b: &Vec<u8>, i: usize, j: usize) -> (r: Cmp)
    requires
        i <= a@.len(),
        j <= b@.len(),
    ensures
        r == nat_cmp(a@.skip(i as int), b@.skip(j as int)),
    decreases a@.len() - i + b@.len() - j,
{
    let ghost sa = a@.skip(i as int);
    let ghost sb = b@.skip(j as int);
    proof {
        assert(forall|k: int| 0 <= k < sa.len() ==> #[trigger] sa[k] == a@[i + k]);
        assert(forall|k: int| 0 <= k < sb.len() ==> #[trigger] sb[k] == b@[j + k]);
    }
    if i == a.len() {
        if j == b.len() {
            return Cmp::Eq;
        }
        return Cmp::Lt;
    }
    if j == b.len() {
        return Cmp::Gt;
    }
    let x = a[i];
    let y = b[j];
    if 48 <= x && x <= 57 && 48 <= y && y <= 57 {
        let ra = run_scan(a, i);
        let rb = run_scan(b, j);
        proof {
            lemma_run_len_bounds(sa);
            lemma_run_len_bounds(sb);
        }
        let ghost xa = sa.take(ra as int);
        let ghost xb = sb.take(rb as int);
        proof {
            assert(forall|k: int| 0 <= k < ra ==> #[trigger] xa[k] == a@[i + k]);
            assert(forall|k: int| 0 <= k < rb ==> #[trigger] xb[k] == b@[j + k]);
        }
        if x != 48 && y != 48 && ra != rb {
            if ra < rb {
                return Cmp::Lt;
            }
            return Cmp::Gt;
        }
        // left-aligned (or equal-length) matching: byte by byte
        let m: usize = if ra < rb { ra } else { rb };
        let alen: usize = a.len();
        let blen: usize = b.len();
        let mut t: usize = 0;
        while t < m && a[i + t] == b[j + t]
            invariant
                alen == a@.len(),
                blen == b@.len(),
                i + ra <= a@.len(),
                j + rb <= b@.len(),
                m <= ra,
                m <= rb,
                t <= m,
                ra == xa.len(),
                rb == xb.len(),
                forall|k: int| 0 <= k < ra ==> #[trigger] xa[k] == a@[i + k],
                forall|k: int| 0 <= k < rb ==> #[trigger] xb[k] == b@[j + k],
                forall|k: int| 0 <= k < t ==> #[trigger] xa[k] == xb[k],
            decreases m - t,
        {
            proof {
                assert(xa[t as int] == a@[i + t]);
                assert(xb[t as int] == b@[j + t]);
            }
            t = t + 1;
        }
        proof {
            lemma_lex_skip(xa, xb, t as int);
        }
        if t < m {
            // a difference inside both runs decides
            if a[i + t] < b[j + t] {
                return Cmp::Lt;
            }
            proof {
                assert(a@[i + t] != b@[j + t]);
            }
            return Cmp::Gt;
        }
        if ra < rb {
            proof {
                assert(xa.skip(t as int).len() == 0);
            }
            return Cmp::Lt;
        }
        if rb < ra {
            proof {
                assert(xb.skip(t as int).len() == 0);
            }
            return Cmp::Gt;
        }
        // the runs are identical: continue past them
        proof {
            assert(xa =~= xb);
            assert(run_cmp(xa, xb) == Cmp::Eq) by {
                lemma_lex_skip(xa, xb, t as int);
            }
            assert(sa.skip(ra as int) =~= a@.skip((i + ra) as int));
            assert(sb.skip(rb as int) =~= b@.skip((j + rb) as int));
        }
        natural_cmp_at(a, b, i + ra, j + rb)
    } else if x == y {
        proof {
            assert(sa.skip(1) =~= a@.skip(i + 1));
            assert(sb.skip(1) =~= b@.skip(j + 1));
        }
        natural_cmp_at(a, b, i + 1, j + 1)
    } else if x < y {
        Cmp::Lt
    } else {
        Cmp::Gt
    }
}

/// Length of the digit run of `a` starting at `i`.
fn run_scan(a: &Vec<u8>, i: usize) -> (r: usize)
    requires
        i <= a@.len(),
    ensures
        r == run_len(a@.skip(i as int)),
        i + r <= a@.len(),
{
    let ghost s = a@.skip(i as int);
    proof {
        assert(forall|k: int| 0 <= k < s.len() ==> #[trigger] s[k] == a@[i + k]);
    }
    let alen: usize = a.len();
    let mut r: usize = 0;
    while i + r < alen && 48 <= a[i + r] && a[i + r] <= 57
        invariant
            alen == a@.len(),
            i + r <= a@.len(),
            s == a@.skip(i as int),
            forall|k: int| 0 <= k < r ==> is_digit(#[trigger] s[k]),
        decreases a@.len() - i - r,
    {
        proof {
            assert(s[r as int] == a@[i + r]);
        }
        r = r + 1;
    }
    proof {
        assert(forall|k: int| 0 <= k < s.len() ==> #[trigger] s[k] == a@[i + k]);
        lemma_run_len_char(s, r as int);
    }
    r
}

/// Three-way natural comparison of two byte strings.
pub fn natural_cmp(a: &Vec<u8>, b: &Vec<u8>) -> (r: Cmp)
    ensures
        r == nat_cmp(a@, b@),
{
    proof {
        assert(a@.skip(0) =~= a@);
        assert(b@.skip(0) =~= b@);
    }
    natural_cmp_at(a, b, 0, 0)
}

/// Whether `a` precedes or ties `b` in the natural ordering.
pub fn natural_le(a: &Vec<u8>, b: &Vec<u8>) -> (r: bool)
    ensures
        r == nat_le(a@, b@),
{
    let c = natural_cmp(a, b);
    match c {
        Cmp::Gt => false,
        _ => true,
    }
}


pub proof fn lemma_lex_refl(a: Seq<u8>)
    ensures
        lex_cmp(a, a) == Cmp::Eq,
    decreases a.len(),
{
    if a.len() > 0 {
        lemma_lex_refl(a.skip(1));
    }
}

/// The ordering is reflexive: every name ties with itself.
pub proof fn lemma_nat_refl(a: Seq<u8>)
    ensures
        nat_cmp(a, a) == Cmp::Eq,
    decreases a.len(),
{
    lemma_run_len_bounds(a);
    if a.len() == 0 {
    } else if is_digit(a[0]) {
        let ra = run_len(a) as int;
        lemma_lex_refl(a.take(ra));
        lemma_nat_refl(a.skip(ra));
    } else {
        lemma_nat_refl(a.skip(1));
    }
}


/// Only identical names tie: the ordering is antisymmetric, so the
/// sorted selection is pinned uniquely by its contract.
pub proof fn lemma_nat_eq(a: Seq<u8>, b: Seq<u8>)
    requires
        nat_cmp(a, b) == Cmp::Eq,
    ensures
        a == b,
    decreases a.len() + b.len(),
{
    lemma_run_len_bounds(a);
    lemma_run_len_bounds(b);
    if a.len() == 0 && b.len() == 0 {
        assert(a =~= b);
    } else if a.len() == 0 || b.len() == 0 {
    } else if is_digit(a[0]) && is_digit(b[0]) {
        let ra = run_len(a) as int;
        let rb = run_len(b) as int;
        lemma_run_eq(a.take(ra), b.take(rb));
        lemma_nat_eq(a.skip(ra), b.skip(rb));
        assert(a =~= a.take(ra) + a.skip(ra));
        assert(b =~= b.take(rb) + b.skip(rb));
    } else {
        assert(a[0] == b[0]);
        lemma_nat_eq(a.skip(1), b.skip(1));
        assert(a =~= seq![a[0]] + a.skip(1));
        assert(b =~= seq![b[0]] + b.skip(1));
    }
}

proof fn lemma_lex_trans(a: Seq<u8>, b: Seq<u8>, c: Seq<u8>)
    requires
        lex_cmp(a, b) != Cmp::Gt,
        lex_cmp(b, c) != Cmp::Gt,
    ensures
        lex_cmp(a, c) != Cmp::Gt,
        lex_cmp(a, b) == Cmp::Lt || lex_cmp(b, c) == Cmp::Lt ==> lex_cmp(a, c) == Cmp::Lt,
    decreases a.len() + b.len() + c.len(),
{
    if a.len() == 0 {
    } else {
        // a is nonempty, so b and then c are nonempty as well
        if a.len() > 0 && b.len() > 0 && c.len() > 0 {
            if a[0] == b[0] && b[0] == c[0] {
                lemma_lex_trans(a.skip(1), b.skip(1), c.skip(1));
            }
        }
    }
}

/// Digit runs all hold digits.
proof fn lemma_run_digits(s: Seq<u8>)
    ensures
        all_digits(s.take(run_len(s) as int)),
    decreases s.len(),
{
    lemma_run_len_bounds(s);
    let r = run_len(s) as int;
    if s.len() > 0 && is_digit(s[0]) {
        lemma_run_digits(s.skip(1));
        let t = s.skip(1);
        let rt = run_len(t) as int;
        lemma_run_len_bounds(t);
        assert forall|i: int| 0 <= i < r implies 48 <= #[trigger] s.take(r)[i] <= 57 by {
            if i > 0 {
                assert(t.take(rt)[i - 1] == s[i]);
            }
        }
    }
}

proof fn lemma_run_trans(x: Seq<u8>, y: Seq<u8>, z: Seq<u8>)
    requires
        x.len() >= 1,
        y.len() >= 1,
        z.len() >= 1,
        all_digits(x),
        all_digits(y),
        all_digits(z),
        run_cmp(x, y) == Cmp::Lt,
        run_cmp(y, z) == Cmp::Lt,
    ensures
        run_cmp(x, z) == Cmp::Lt,
{
    let zx = x[0] == 48;
    let zy = y[0] == 48;
    let zz = z[0] == 48;
    assert(48 <= x[0] <= 57 && 48 <= y[0] <= 57 && 48 <= z[0] <= 57);
    // a run with a leading zero sits below every run without one, so
    // the leading-zero runs come first and a run never precedes one
    if !zx && zy {
        // then run_cmp(x, y) is byte-wise with x[0] > 48 == y[0]
        assert(run_cmp(x, y) == Cmp::Gt);
    }
    if !zy && zz {
        assert(run_cmp(y, z) == Cmp::Gt);
    }
    if zx && zz {
        // all three compare byte-wise
        lemma_lex_trans(x, y, z);
    } else if zx && !zz {
        // x leads with a zero and z does not: byte-wise, immediately
        assert(lex_cmp(x, z) == Cmp::Lt);
    } else {
        // none leads with a zero: by length, then byte-wise
        assert(!zx && !zy && !zz);
        if x.len() == z.len() {
            assert(x.len() == y.len() && y.len() == z.len());
            lemma_lex_trans(x, y, z);
        } else {
            assert(x.len() <= y.len() <= z.len());
        }
    }
}

/// The ordering is transitive.
pub proof fn lemma_nat_trans(a: Seq<u8>, b: Seq<u8>, c: Seq<u8>)
    requires
        nat_le(a, b),
        nat_le(b, c),
    ensures
        nat_le(a, c),
    decreases a.len() + b.len() + c.len(),
{
    lemma_run_len_bounds(a);
    lemma_run_len_bounds(b);
    lemma_run_len_bounds(c);
    if a.len() == 0 {
        // the empty name precedes everything
    } else if b.len() == 0 {
        assert(nat_cmp(a, b) == Cmp::Gt);
    } else if c.len() == 0 {
        assert(nat_cmp(b, c) == Cmp::Gt);
    } else {
        let da = is_digit(a[0]);
        let db = is_digit(b[0]);
        let dc = is_digit(c[0]);
        if da && db && dc {
            let ra = run_len(a) as int;
            let rb = run_len(b) as int;
            let rc = run_len(c) as int;
            let xa = a.take(ra);
            let xb = b.take(rb);
            let xc = c.take(rc);
            lemma_run_digits(a);
            lemma_run_digits(b);
            lemma_run_digits(c);
            if run_cmp(xa, xb) == Cmp::Eq && run_cmp(xb, xc) == Cmp::Eq {
                lemma_run_eq(xa, xb);
                lemma_run_eq(xb, xc);
                lemma_nat_trans(a.skip(ra), b.skip(rb), c.skip(rc));
            } else if run_cmp(xa, xb) == Cmp::Eq {
                lemma_run_eq(xa, xb);
                assert(run_cmp(xa, xc) == Cmp::Lt);
            } else if run_cmp(xb, xc) == Cmp::Eq {
                lemma_run_eq(xb, xc);
                assert(run_cmp(xa, xc) == Cmp::Lt);
            } else {
                assert(run_cmp(xa, xb) == Cmp::Lt && run_cmp(xb, xc) == Cmp::Lt);
                lemma_run_trans(xa, xb, xc);
            }
        } else if da && db && !dc {
            // b's digit head sits below c's non-digit head
            assert(b[0] < c[0] && c[0] > 57);
        } else if da && !db {
            // a's digit head sits below b's non-digit head, which sits
            // at or below c's head
            assert(a[0] < b[0] && b[0] > 57);
            if b[0] == c[0] {
            } else {
                assert(b[0] < c[0]);
            }
        } else {
            // a leads with a non-digit
            if a[0] == b[0] {
                if b[0] == c[0] {
                    lemma_nat_trans(a.skip(1), b.skip(1), c.skip(1));
                } else {
                    assert(b[0] < c[0]);
                }
            } else {
                assert(a[0] < b[0]);
                if db && dc {
                    assert(a[0] < 48);
                } else {
                    if b[0] == c[0] {
                    } else {
                        assert(b[0] < c[0]);
                    }
                }
            }
        }
    }
}

/// In a list whose adjacent pairs are in order, every pair is: the
/// natural ordering of the selector is total, reflexive and
/// transitive, so adjacent order is global order.
pub proof fn lemma_sorted_global(s: Seq<Seq<u8>>, i: int, j: int)
    requires
        sorted_nat(s),
        0 <= i <= j < s.len(),
    ensures
        nat_le(s[i], s[j]),
    decreases j - i,
{
    if i == j {
        lemma_nat_refl(s[i]);
    } else {
        lemma_sorted_global(s, i, j - 1);
        lemma_nat_trans(s[i], s[j - 1], s[j]);
    }
}

/// Index of the last `.` of `s`, or `-1` if there is none.
pub open spec fn last_dot(s: Seq<u8>) -> int
    decreases s.len(),
{
    if s.len() == 0 {
        -1
    } else if s.last() == 46 {
        s.len() - 1
    } else {
        last_dot(s.drop_last())
    }
}

pub proof fn lemma_last_dot_at(s: Seq<u8>, k: int)
    requires
        0 <= k < s.len(),
        s[k] == 46,
        forall|m: int| k < m < s.len() ==> #[trigger] s[m] != 46,
    ensures
        last_dot(s) == k,
    decreases s.len(),
{
    if k == s.len() - 1 {
    } else {
        let t = s.drop_last();
        assert(forall|m: int| k < m < t.len() ==> #[trigger] t[m] == s[m]);
        lemma_last_dot_at(t, k);
    }
}

pub proof fn lemma_last_dot_none(s: Seq<u8>)
    requires
        forall|m: int| 0 <= m < s.len() ==> #[trigger] s[m] != 46,
    ensures
        last_dot(s) == -1,
    decreases s.len(),
{
    if s.len() > 0 {
        let t = s.drop_last();
        assert(forall|m: int| 0 <= m < t.len() ==> #[trigger] t[m] == s[m]);
        lemma_last_dot_none(t);
    }
}

/// ASCII lowercase.
pub open spec fn to_lower(b: u8) -> u8 {
    if 65 <= b <= 90 {
        (b + 32) as u8
    } else {
        b
    }
}

pub open spec fn lower_seq(s: Seq<u8>) -> Seq<u8> {
    s.map_values(|b: u8| to_lower(b))
}

/// Whether a file name carries one of the recognized slice image
/// extensions (tif, tiff, bmp, jpg, jpeg, png), compared without case.
/// A name whose only dot leads it (a hidden file) has no extension.
pub open spec fn spec_ext_ok(s: Seq<u8>) -> bool {
    let k = last_dot(s);
    &&& k >= 1
    &&& {
        let e = lower_seq(s.skip(k + 1));
        ||| e == seq![116u8, 105u8, 102u8]
        ||| e == seq![116u8, 105u8, 102u8, 102u8]
        ||| e == seq![98u8, 109u8, 112u8]
        ||| e == seq![106u8, 112u8, 103u8]
        ||| e == seq![106u8, 112u8, 101u8, 103u8]
        ||| e == seq![112u8, 110u8, 103u8]
    }
}

fn lower_byte(b: u8) -> (r: u8)
    ensures
        r == to_lower(b),
{
    if 65 <= b && b <= 90 {
        b + 32
    } else {
        b
    }
}

/// Whether this directory entry is kept by the slice selector.
pub fn is_supported_slice(name: &Vec<u8>) -> (r: bool)
    ensures
        r == spec_ext_ok(name@),
{
    let n = name.len();
    // find the last dot
    let mut p: usize = n;
    while p > 0 && name[p - 1] != 46
        invariant
            p <= n,
            n == name@.len(),
            forall|m: int| p <= m < n ==> #[trigger] name@[m] != 46,
        decreases p,
    {
        p = p - 1;
    }
    if p == 0 {
        proof {
            lemma_last_dot_none(name@);
        }
        return false;
    }
    let k: usize = p - 1;
    proof {
        lemma_last_dot_at(name@, k as int);
    }
    if k == 0 {
        return false;
    }
    let el: usize = n - k - 1;
    let ghost e = lower_seq(name@.skip(k + 1));
    proof {
        assert(e.len() == el);
        assert(forall|m: int| 0 <= m < el ==> #[trigger] e[m] == to_lower(name@[k + 1 + m]));
    }
    if el == 3 {
        let c0 = lower_byte(name[k + 1]);
        let c1 = lower_byte(name[k + 2]);
        let c2 = lower_byte(name[k + 3]);
        proof {
            assert(e[0] == to_lower(name@[k + 1]));
            assert(e[1] == to_lower(name@[k + 2]));
            assert(e[2] == to_lower(name@[k + 3]));
        }
        let r = (c0 == 116 && c1 == 105 && c2 == 102) || (c0 == 98 && c1 == 109 && c2 == 112)
            || (c0 == 106 && c1 == 112 && c2 == 103) || (c0 == 112 && c1 == 110 && c2 == 103);
        proof {
            if r {
                if c0 == 116 {
                    assert(e =~= seq![116u8, 105u8, 102u8]);
                } else if c0 == 98 {
                    assert(e =~= seq![98u8, 109u8, 112u8]);
                } else if c0 == 106 {
                    assert(e =~= seq![106u8, 112u8, 103u8]);
                } else {
                    assert(e =~= seq![112u8, 110u8, 103u8]);
                }
            }
        }
        r
    } else if el == 4 {
        let c0 = lower_byte(name[k + 1]);
        let c1 = lower_byte(name[k + 2]);
        let c2 = lower_byte(name[k + 3]);
        let c3 = lower_byte(name[k + 4]);
        proof {
            assert(e[0] == to_lower(name@[k + 1]));
            assert(e[1] == to_lower(name@[k + 2]));
            assert(e[2] == to_lower(name@[k + 3]));
            assert(e[3] == to_lower(name@[k + 4]));
        }
        let r = (c0 == 116 && c1 == 105 && c2 == 102 && c3 == 102)
            || (c0 == 106 && c1 == 112 && c2 == 101 && c3 == 103);
        proof {
            if r {
                if c0 == 116 {
                    assert(e =~= seq![116u8, 105u8, 102u8, 102u8]);
                } else {
                    assert(e =~= seq![106u8, 112u8, 101u8, 103u8]);
                }
            }
        }
        r
    } else {
        false
    }
}

/// The views of a list of byte strings.
pub open spec fn views(s: Seq<Vec<u8>>) -> Seq<Seq<u8>> {
    s.map_values(|v: Vec<u8>| v@)
}

/// The subsequence of `s` whose names carry a recognized extension,
/// in their original order.
pub open spec fn spec_kept(s: Seq<Seq<u8>>) -> Seq<Seq<u8>>
    decreases s.len(),
{
    if s.len() == 0 {
        Seq::empty()
    } else if spec_ext_ok(s.last()) {
        spec_kept(s.drop_last()).push(s.last())
    } else {
        spec_kept(s.drop_last())
    }
}

/// Every adjacent pair respects the natural ordering.
pub open spec fn sorted_nat(s: Seq<Seq<u8>>) -> bool {
    forall|k: int| 0 <= k && k + 1 < s.len() ==> nat_le(#[trigger] s[k], s[k + 1])
}

/// A name inserted where its downward scan stopped keeps the prefix
/// in natural order.
proof fn lemma_insert_sorted(
    pre: Seq<Seq<u8>>,
    rem: Seq<Seq<u8>>,
    cur: Seq<Seq<u8>>,
    x: Seq<u8>,
    idx: int,
    pos: int,
)
    requires
        0 <= pos <= idx < pre.len(),
        rem == pre.remove(idx),
        cur == rem.insert(pos, x),
        x == pre[idx],
        sorted_nat(pre.take(idx)),
        forall|k: int| pos <= k < idx ==> nat_cmp(#[trigger] rem[k], x) == Cmp::Gt,
        pos > 0 ==> nat_cmp(rem[pos - 1], x) != Cmp::Gt,
    ensures
        sorted_nat(cur.take(idx + 1)),
{
    pre.remove_ensures(idx);
    rem.insert_ensures(pos, x);
    let t = cur.take(idx + 1);
    assert(forall|k: int| 0 <= k < idx + 1 ==> #[trigger] t[k] == cur[k]);
    assert(forall|k: int| 0 <= k < idx ==> #[trigger] pre.take(idx)[k] == pre[k]);
    assert forall|k: int| 0 <= k && k + 1 < t.len() implies nat_le(#[trigger] t[k], t[k + 1]) by {
        if k + 1 < pos {
            assert(cur[k] == rem[k] && cur[k + 1] == rem[k + 1]);
            assert(rem[k] == pre[k] && rem[k + 1] == pre[k + 1]);
            assert(nat_le(pre.take(idx)[k], pre.take(idx)[k + 1]));
        } else if k + 1 == pos {
            assert(cur[k] == rem[k] && cur[k + 1] == x);
            assert(nat_cmp(rem[pos - 1], x) != Cmp::Gt);
        } else if k + 1 == pos + 1 {
            assert(cur[k] == x);
            if pos < idx {
                assert(cur[k + 1] == rem[pos]);
                assert(nat_cmp(rem[pos], x) == Cmp::Gt);
                lemma_nat_flip(rem[pos], x);
            } else {
                assert(k + 1 == idx);
            }
        } else {
            assert(cur[k] == rem[k - 1] && cur[k + 1] == rem[k]);
            assert(rem[k - 1] == pre[k - 1] && rem[k] == pre[k]);
            assert(nat_le(pre.take(idx)[k - 1], pre.take(idx)[k]));
        }
    }
}

/// Reorders `v` into the natural order: the result holds exactly the
/// same names and every adjacent pair is in order.
#[verifier::rlimit(30)]
pub fn sort_names(v: &mut Vec<Vec<u8>>)
    ensures
        views(final(v)@).to_multiset() == views(old(v)@).to_multiset(),
        final(v)@.len() == old(v)@.len(),
        sorted_nat(views(final(v)@)),
{
    broadcast use vstd::seq_lib::group_to_multiset_ensures;
    broadcast use vstd::multiset::group_multiset_axioms;

    if v.len() <= 1 {
        return;
    }
    let mut idx: usize = 1;
    while idx < v.len()
        invariant
            1 <= idx <= v@.len(),
            v@.len() == old(v)@.len(),
            views(v@).to_multiset() == views(old(v)@).to_multiset(),
            sorted_nat(views(v@).take(idx as int)),
        decreases v@.len() - idx,
    {
        let ghost pre = views(v@);
        let x = v.remove(idx);
        let ghost rem = views(v@);
        proof {
            assert(rem =~= pre.remove(idx as int));
            pre.remove_ensures(idx as int);
            pre.to_multiset_ensures();
        }
        let mut pos: usize = idx;
        while pos > 0 && matches!(natural_cmp(&v[pos - 1], &x), Cmp::Gt)
            invariant
                pos <= idx,
                idx < rem.len() + 1,
                rem == views(v@),
                rem.len() + 1 == old(v)@.len(),
                forall|k: int| pos <= k < idx ==> nat_cmp(#[trigger] rem[k], x@) == Cmp::Gt,
            decreases pos,
        {
            pos = pos - 1;
        }
        v.insert(pos, x);
        proof {
            let cur = views(v@);
            assert(cur =~= rem.insert(pos as int, x@));
            rem.insert_ensures(pos as int, x@);
            vstd::seq_lib::to_multiset_insert(rem, pos as int, x@);
            assert(x@ == pre[idx as int]);
            assert(pre.contains(pre[idx as int]));
            assert(pre.to_multiset().count(pre[idx as int]) > 0);
            assert(pre.to_multiset().remove(pre[idx as int]).insert(pre[idx as int])
                =~= pre.to_multiset());
            lemma_insert_sorted(pre, rem, cur, x@, idx as int, pos as int);
        }
        idx = idx + 1;
    }
    proof {
        assert(views(v@).take(v@.len() as int) =~= views(v@));
    }
}

/// Directory-mode selection: keep the entries with a recognized image
/// extension and order them naturally.  Fails with `Empty` exactly
/// when nothing is kept.
pub fn select_directory(names: Vec<Vec<u8>>) -> (r: Result<Vec<Vec<u8>>, ThumbError>)
    ensures
        match r {
            Ok(v) => {
                &&& views(v@).to_multiset() == spec_kept(views(names@)).to_multiset()
                &&& sorted_nat(views(v@))
                &&& v@.len() == spec_kept(views(names@)).len() > 0
            },
            Err(e) => {
                &&& e == ThumbError::Empty
                &&& spec_kept(views(names@)).len() == 0
            },
        },
{
    let mut kept: Vec<Vec<u8>> = Vec::new();
    let mut j: usize = 0;
    while j < names.len()
        invariant
            j <= names@.len(),
            views(kept@) == spec_kept(views(names@).take(j as int)),
        decreases names@.len() - j,
    {
        let keep = is_supported_slice(&names[j]);
        let ghost prefix = views(names@).take(j as int);
        proof {
            assert(views(names@).take(j + 1).drop_last() =~= prefix);
            assert(views(names@).take(j + 1).last() == names@[j as int]@);
        }
        if keep {
            let ghost oldkept = views(kept@);
            kept.push(names[j].clone());
            proof {
                assert(names@[j as int].view() == names@[j as int]@);
                assert(views(kept@) =~= oldkept.push(names@[j as int]@));
            }
        }
        j = j + 1;
    }
    proof {
        assert(views(names@).take(names@.len() as int) =~= views(names@));
    }
    if kept.len() == 0 {
        return Err(ThumbError::Empty);
    }
    sort_names(&mut kept);
    Ok(kept)
}

/// The pattern-mode file name `{prefix}{index padded to width}.{ext}`.
pub open spec fn spec_pattern_name(prefix: Seq<u8>, ext: Seq<u8>, i: nat, width: nat) -> Seq<u8> {
    prefix + spec_padded(i, width) + seq![46u8] + ext
}

/// Pattern-mode selection: the candidate names of every index of the
/// inclusive range, in ascending order.  The caller keeps those that
/// exist on disk, which preserves the order.
pub fn pattern_names(prefix: &Vec<u8>, ext: &Vec<u8>, begin: u64, end: u64, width: usize) -> (r:
    Vec<Vec<u8>>)
    requires
        end - begin < 0xFFFF_FFFF,
    ensures
        begin > end ==> r@.len() == 0,
        begin <= end ==> r@.len() == end - begin + 1,
        forall|k: int| 0 <= k < r@.len() ==> #[trigger] r@[k]@ == spec_pattern_name(
            prefix@, ext@, (begin + k) as nat, width as nat),
{
    let mut r: Vec<Vec<u8>> = Vec::new();
    if begin > end {
        return r;
    }
    let mut i: u64 = begin;
    while i <= end
        invariant
            begin <= i <= end + 1,
            end - begin < 0xFFFF_FFFF,
            r@.len() == i - begin,
            forall|k: int| 0 <= k < r@.len() ==> #[trigger] r@[k]@ == spec_pattern_name(
                prefix@, ext@, (begin + k) as nat, width as nat),
        decreases end - i,
    {
        let mut name: Vec<u8> = Vec::new();
        let mut t: usize = 0;
        while t < prefix.len()
            invariant
                t <= prefix@.len(),
                name@ == prefix@.take(t as int),
            decreases prefix@.len() - t,
        {
            name.push(prefix[t]);
            proof {
                assert(name@ =~= prefix@.take(t + 1));
            }
            t = t + 1;
        }
        proof {
            assert(name@ =~= prefix@);
        }
        let mid = pad_decimal(i, width);
        let mut u: usize = 0;
        while u < mid.len()
            invariant
                u <= mid@.len(),
                name@ == prefix@ + mid@.take(u as int),
            decreases mid@.len() - u,
        {
            name.push(mid[u]);
            proof {
                assert(name@ =~= prefix@ + mid@.take(u + 1));
            }
            u = u + 1;
        }
        name.push(46);
        let mut w: usize = 0;
        while w < ext.len()
            invariant
                w <= ext@.len(),
                name@ == prefix@ + spec_padded(i as nat, width as nat) + seq![46u8]
                    + ext@.take(w as int),
            decreases ext@.len() - w,
        {
            name.push(ext[w]);
            proof {
                assert(name@ =~= prefix@ + spec_padded(i as nat, width as nat) + seq![46u8]
                    + ext@.take(w + 1));
            }
            w = w + 1;
        }
        proof {
            assert(name@ =~= spec_pattern_name(prefix@, ext@, i as nat, width as nat));
        }
        r.push(name);
        if i == end {
            return r;
        }
        i = i + 1;
    }
    r
}


} // verus!
