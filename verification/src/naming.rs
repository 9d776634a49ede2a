//! The global naming scheme of the pyramid outputs: decimal rendering,
//! zero-padding, the `<six-digit index>.tif` output file name, and the
//! exact recovery of an index from such a name, used to build the
//! existing-output index that resume depends on.

use vstd::prelude::*;

verus! {

/// The decimal digits of `n`, most significant first, no leading zeros
/// (`0` is rendered as a single `0`).
pub open spec fn spec_decimal(n: nat) -> Seq<u8>
    decreases n,
{
    if n < 10 {
        seq![(48 + n) as u8]
    } else {
        spec_decimal(n / 10).push((48 + n % 10) as u8)
    }
}

/// `width` columns: the decimal digits of `n`, left-filled with `0`
/// bytes when shorter (never truncated when longer).
pub open spec fn spec_padded(n: nat, width: nat) -> Seq<u8> {
    if spec_decimal(n).len() >= width {
        spec_decimal(n)
    } else {
        Seq::new((width - spec_decimal(n).len()) as nat, |i: int| 48u8) + spec_decimal(n)
    }
}

/// The file name of the output with global index `i`:
/// the index zero-padded to six digits, then `.tif`.
pub open spec fn spec_output_name(i: nat) -> Seq<u8> {
    spec_padded(i, 6) + seq![46u8, 116u8, 105u8, 102u8]
}

/// Every byte of `s` is an ASCII decimal digit.
pub open spec fn all_digits(s: Seq<u8>) -> bool {
    forall|i: int| 0 <= i < s.len() ==> 48 <= #[trigger] s[i] <= 57
}

/// The numeric value of a big-endian digit string.
pub open spec fn digits_val(s: Seq<u8>) -> int
    decreases s.len(),
{
    if s.len() == 0 {
        0
    } else {
        digits_val(s.drop_last()) * 10 + (s.last() - 48)
    }
}

pub proof fn lemma_decimal_digits(n: nat)
    ensures
        spec_decimal(n).len() >= 1,
        all_digits(spec_decimal(n)),
        n >= 10 ==> spec_decimal(n).len() >= 2,
    decreases n,
{
    if n >= 10 {
        lemma_decimal_digits(n / 10);
        assert forall|i: int| 0 <= i < spec_decimal(n).len()
            implies 48 <= #[trigger] spec_decimal(n)[i] <= 57 by {
            if i < spec_decimal(n).len() - 1 {
                assert(spec_decimal(n)[i] == spec_decimal(n / 10)[i]);
            }
        }
    }
}

pub proof fn lemma_decimal_value(n: nat)
    ensures
        digits_val(spec_decimal(n)) == n,
    decreases n,
{
    if n < 10 {
        reveal_with_fuel(digits_val, 2);
        assert(spec_decimal(n) == seq![(48 + n) as u8]);
        assert(spec_decimal(n).last() == (48 + n) as u8);
        assert(spec_decimal(n).drop_last() =~= Seq::<u8>::empty());
        assert(digits_val(spec_decimal(n))
            == digits_val(Seq::<u8>::empty()) * 10 + ((48 + n) as u8 - 48));
    } else {
        lemma_decimal_value(n / 10);
        assert(spec_decimal(n).last() == (48 + n % 10) as u8);
        assert(spec_decimal(n).drop_last() =~= spec_decimal(n / 10));
    }
}

/// Digit strings that differ only by left-filled zeros have the same
/// value.
pub proof fn lemma_zeros_value(k: nat, s: Seq<u8>)
    ensures
        digits_val(Seq::new(k, |i: int| 48u8) + s) == digits_val(s),
    decreases s.len(), k,
{
    let z = Seq::new(k, |i: int| 48u8);
    if s.len() == 0 {
        if k == 0 {
            assert(z + s =~= Seq::<u8>::empty());
        } else {
            let z1 = Seq::new((k - 1) as nat, |i: int| 48u8);
            assert((z + s).drop_last() =~= z1 + s);
            assert((z + s).last() == 48);
            lemma_zeros_value((k - 1) as nat, s);
        }
    } else {
        assert((z + s).drop_last() =~= z + s.drop_last());
        lemma_zeros_value(k, s.drop_last());
    }
}

pub proof fn lemma_padded_value(n: nat, width: nat)
    ensures
        digits_val(spec_padded(n, width)) == n,
        all_digits(spec_padded(n, width)),
        spec_padded(n, width).len() >= width,
        spec_padded(n, width).len() >= 1,
{
    lemma_decimal_digits(n);
    lemma_decimal_value(n);
    if spec_decimal(n).len() < width {
        lemma_zeros_value((width - spec_decimal(n).len()) as nat, spec_decimal(n));
    }
}

/// The value of a valid digit string never shrinks as the string
/// extends to the right.
pub proof fn lemma_value_nonneg(s: Seq<u8>)
    requires
        all_digits(s),
    ensures
        digits_val(s) >= 0,
    decreases s.len(),
{
    if s.len() > 0 {
        assert(all_digits(s.drop_last()));
        lemma_value_nonneg(s.drop_last());
    }
}

pub proof fn lemma_value_prefix_le(s: Seq<u8>, m: int)
    requires
        all_digits(s),
        0 <= m <= s.len(),
    ensures
        digits_val(s.take(m)) <= digits_val(s),
    decreases s.len() - m,
{
    if m == s.len() {
        assert(s.take(m) =~= s);
    } else {
        let t = s.take(m + 1);
        assert(t.drop_last() =~= s.take(m));
        assert(all_digits(t));
        assert(all_digits(s.take(m)));
        lemma_value_nonneg(s.take(m));
        assert(digits_val(t) == digits_val(s.take(m)) * 10 + (s[m] - 48));
        lemma_value_prefix_le(s, m + 1);
    }
}

/// The decimal digits of `n`, most significant first.
pub fn u64_to_decimal(n: u64) -> (v: Vec<u8>)
    ensures
        v@ == spec_decimal(n as nat),
    decreases n,
{
    if n < 10 {
        let mut v: Vec<u8> = Vec::new();
        v.push(48 + n as u8);
        v
    } else {
        let mut v = u64_to_decimal(n / 10);
        v.push(48 + (n % 10) as u8);
        v
    }
}

/// The decimal digits of `n`, left-filled with zeros to `width` columns.
pub fn pad_decimal(n: u64, width: usize) -> (v: Vec<u8>)
    ensures
        v@ == spec_padded(n as nat, width as nat),
        v@.len() >= width,
{
    let d = u64_to_decimal(n);
    proof {
        lemma_padded_value(n as nat, width as nat);
    }
    if d.len() >= width {
        d
    } else {
        let fill: usize = width - d.len();
        let mut v: Vec<u8> = Vec::new();
        let mut i: usize = 0;
        while i < fill
            invariant
                i <= fill,
                v@ =~= Seq::new(i as nat, |k: int| 48u8),
            decreases fill - i,
        {
            v.push(48);
            proof {
                assert(v@ =~= Seq::new((i + 1) as nat, |k: int| 48u8));
            }
            i = i + 1;
        }
        let mut j: usize = 0;
        while j < d.len()
            invariant
                j <= d@.len(),
                v@ =~= Seq::new(fill as nat, |k: int| 48u8) + d@.take(j as int),
            decreases d@.len() - j,
        {
            let b = d[j];
            v.push(b);
            proof {
                assert(v@ =~= Seq::new(fill as nat, |k: int| 48u8) + d@.take(j + 1));
            }
            j = j + 1;
        }
        proof {
            assert(d@.take(d@.len() as int) =~= d@);
            assert(v@ =~= spec_padded(n as nat, width as nat));
        }
        v
    }
}

/// The `.tif` file name of the output with global index `idx`.
pub fn output_name(idx: u64) -> (v: Vec<u8>)
    ensures
        v@ == spec_output_name(idx as nat),
{
    let mut v = pad_decimal(idx, 6);
    v.push(46);
    v.push(116);
    v.push(105);
    v.push(102);
    proof {
        assert(v@ =~= spec_output_name(idx as nat));
    }
    v
}

/// Byte-string equality.
pub fn bytes_eq(a: &Vec<u8>, b: &Vec<u8>) -> (r: bool)
    ensures
        r <==> a@ == b@,
{
    if a.len() != b.len() {
        return false;
    }
    let mut i: usize = 0;
    while i < a.len()
        invariant
            a@.len() == b@.len(),
            i <= a@.len(),
            forall|k: int| 0 <= k < i ==> a@[k] == b@[k],
        decreases a@.len() - i,
    {
        if a[i] != b[i] {
            return false;
        }
        i = i + 1;
    }
    proof {
        assert(a@ =~= b@);
    }
    true
}

/// Recovers the global index from an output file name: returns the
/// index `i` exactly when the name is `spec_output_name(i)` for some
/// machine-representable `i`, and nothing otherwise.
pub fn parse_output_index(name: &Vec<u8>) -> (r: Option<u64>)
    ensures
        match r {
            Some(i) => name@ == spec_output_name(i as nat),
            None => forall|i: u64| name@ != spec_output_name(i as nat),
        },
{
    proof {
        assert forall|i: u64| #[trigger] spec_output_name(i as nat).len() >= 10 by {
            lemma_padded_value(i as nat, 6);
        }
    }
    if name.len() < 10 {
        return None;
    }
    let dl: usize = name.len() - 4;
    let mut v: u64 = 0;
    let mut j: usize = 0;
    let mut ok: bool = true;
    while j < dl
        invariant
            10 <= name@.len(),
            dl == name@.len() - 4,
            j <= dl,
            ok ==> {
                &&& all_digits(name@.take(j as int))
                &&& v == digits_val(name@.take(j as int))
            },
            !ok ==> (forall|i: u64| name@ != spec_output_name(i as nat)),
        decreases dl - j,
    {
        let b = name[j];
        if b < 48 || b > 57 || !ok {
            proof {
                if ok {
                    assert forall|i: u64| name@ != spec_output_name(i as nat) by {
                        if name@ == spec_output_name(i as nat) {
                            lemma_output_name_digit(name@, i as nat, j as int);
                        }
                    }
                }
            }
            ok = false;
        } else {
            let d: u64 = (b - 48) as u64;
            proof {
                assert(name@.take(j + 1).drop_last() =~= name@.take(j as int));
                assert(name@.take(j + 1).last() == name@[j as int]);
                assert(all_digits(name@.take(j + 1)));
                assert(digits_val(name@.take(j + 1)) == v * 10 + d);
            }
            if v > 0xFFFF_FFFF_FFFF_FFFFu64 / 10
                || 10 * v > 0xFFFF_FFFF_FFFF_FFFFu64 - d {
                proof {
                    assert(v * 10 + d > 0xFFFF_FFFF_FFFF_FFFF);
                    assert forall|i: u64| name@ != spec_output_name(i as nat) by {
                        if name@ == spec_output_name(i as nat) {
                            lemma_output_name_overflow(name@, i as nat, j as int);
                        }
                    }
                }
                ok = false;
            } else {
                v = 10 * v + d;
            }
        }
        j = j + 1;
    }
    if !ok {
        return None;
    }
    let cand = output_name(v);
    if bytes_eq(name, &cand) {
        proof {
            assert(name@ == spec_output_name(v as nat));
        }
        Some(v)
    } else {
        proof {
            assert forall|i: u64| name@ != spec_output_name(i as nat) by {
                if name@ == spec_output_name(i as nat) {
                    lemma_output_name_value(name@, i as nat, v);
                }
            }
        }
        None
    }
}

/// Two distinct indices never share an output name: the digit value of
/// the padded stem recovers the index.
pub proof fn lemma_output_name_injective(a: nat, b: nat)
    requires
        spec_output_name(a) == spec_output_name(b),
    ensures
        a == b,
{
    lemma_padded_value(a, 6);
    lemma_padded_value(b, 6);
    let na = spec_output_name(a);
    let nb = spec_output_name(b);
    assert(na.take(na.len() - 4) =~= spec_padded(a, 6));
    assert(nb.take(nb.len() - 4) =~= spec_padded(b, 6));
}

/// If `name` is an output name, every byte before the `.tif` suffix is
/// a digit.
proof fn lemma_output_name_digit(name: Seq<u8>, i: nat, j: int)
    requires
        name == spec_output_name(i),
        0 <= j < name.len() - 4,
    ensures
        48 <= name[j] <= 57,
{
    lemma_padded_value(i, 6);
    assert(name[j] == spec_padded(i, 6)[j]);
}

/// If `name` is the output name of a machine-representable index, no
/// digit prefix of it exceeds that index.
proof fn lemma_output_name_overflow(name: Seq<u8>, i: nat, j: int)
    requires
        name == spec_output_name(i),
        i <= 0xFFFF_FFFF_FFFF_FFFF,
        0 <= j < name.len() - 4,
        all_digits(name.take(j + 1)),
    ensures
        digits_val(name.take(j + 1)) <= i,
{
    lemma_padded_value(i, 6);
    let d = spec_padded(i, 6);
    assert(name.take(d.len() as int) =~= d);
    assert(name.take(j + 1) =~= d.take(j + 1));
    lemma_value_prefix_le(d, j + 1);
}

/// If `name` is the output name of index `i` and a digit scan of its
/// stem produced the value `v`, then `v == i`.
proof fn lemma_output_name_value(name: Seq<u8>, i: nat, v: u64)
    requires
        name == spec_output_name(i),
        all_digits(name.take(name.len() - 4)),
        v == digits_val(name.take(name.len() - 4)),
    ensures
        v == i,
{
    lemma_padded_value(i, 6);
    let d = spec_padded(i, 6);
    assert(name.take(name.len() - 4) =~= d);
}

/// The per-level existing-output index: `flags[k]` says whether the
/// name of global output `k` occurs in the directory listing `names`.
pub fn existing_flags(names: &Vec<Vec<u8>>, outputs: usize) -> (flags: Vec<bool>)
    ensures
        flags@.len() == outputs,
        forall|k: int| 0 <= k < outputs ==> (flags@[k] <==> exists|j: int|
            #![auto] 0 <= j < names@.len() && names@[j]@ == spec_output_name(k as nat)),
{
    let mut flags: Vec<bool> = Vec::new();
    let mut k: usize = 0;
    while k < outputs
        invariant
            k <= outputs,
            flags@.len() == k,
            forall|t: int| 0 <= t < k ==> !flags@[t],
        decreases outputs - k,
    {
        flags.push(false);
        k = k + 1;
    }
    let mut j: usize = 0;
    while j < names.len()
        invariant
            flags@.len() == outputs,
            j <= names@.len(),
            forall|t: int| 0 <= t < outputs ==> (flags@[t] <==> exists|m: int|
                #![auto] 0 <= m < j && names@[m]@ == spec_output_name(t as nat)),
        decreases names@.len() - j,
    {
        let parsed = parse_output_index(&names[j]);
        match parsed {
            Some(i) => {
                proof {
                    assert forall|t: int| 0 <= t < outputs && t != i
                        implies names@[j as int]@ != #[trigger] spec_output_name(t as nat) by {
                        if names@[j as int]@ == spec_output_name(t as nat) {
                            lemma_output_name_injective(i as nat, t as nat);
                        }
                    }
                }
                if i < outputs as u64 {
                    let iu: usize = i as usize;
                    flags.set(iu, true);
                }
            },
            None => {
                proof {
                    assert forall|t: int| 0 <= t < outputs
                        implies names@[j as int]@ != #[trigger] spec_output_name(t as nat) by {
                        assert(names@[j as int]@ != spec_output_name((t as u64) as nat));
                    }
                }
            },
        }
        j = j + 1;
    }
    flags
}

} // verus!
