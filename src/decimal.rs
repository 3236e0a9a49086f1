//! Natural numbers of any size as decimal digit strings (most significant
//! digit first), with the few operations duration parsing needs: scaling by a
//! small factor, dropping leading zeros, comparing, and reading back a value
//! that fits in a machine word.

use vstd::arithmetic::power2::{lemma2_to64, lemma_pow2_adds, pow2};
use vstd::prelude::*;

verus! {

pub open spec fn pow10(k: nat) -> nat
    decreases k,
{
    if k == 0 {
        1
    } else {
        10 * pow10((k - 1) as nat)
    }
}

/// Every element is a decimal digit.
pub open spec fn is_digits(s: Seq<u8>) -> bool {
    forall|i: int| 0 <= i < s.len() ==> #[trigger] s[i] <= 9
}

/// The value of a digit string.
pub open spec fn dnum(s: Seq<u8>) -> nat
    decreases s.len(),
{
    if s.len() == 0 {
        0
    } else {
        dnum(s.drop_last()) * 10 + s.last() as nat
    }
}

/// No leading zero (the empty string stands for zero).
pub open spec fn is_stripped(s: Seq<u8>) -> bool {
    s.len() == 0 || s[0] != 0
}

pub proof fn lemma_pow10_pos(k: nat)
    ensures
        pow10(k) >= 1,
    decreases k,
{
    if k > 0 {
        lemma_pow10_pos((k - 1) as nat);
    }
}

pub proof fn lemma_pow10_add(a: nat, b: nat)
    ensures
        pow10(a + b) == pow10(a) * pow10(b),
    decreases b,
{
    if b > 0 {
        lemma_pow10_add(a, (b - 1) as nat);
        assert((a + b - 1) as nat == a + (b - 1) as nat);
        assert(pow10(a + b) == 10 * pow10((a + b - 1) as nat));
        assert(pow10(b) == 10 * pow10((b - 1) as nat));
        assert(10 * (pow10(a) * pow10((b - 1) as nat)) == pow10(a) * (10 * pow10(
            (b - 1) as nat,
        ))) by (nonlinear_arith);
    } else {
        assert(pow10(0) == 1);
        assert(a + b == a);
    }
}

pub proof fn lemma_pow10_mono(a: nat, b: nat)
    requires
        a <= b,
    ensures
        pow10(a) <= pow10(b),
{
    lemma_pow10_add(a, (b - a) as nat);
    lemma_pow10_pos((b - a) as nat);
    lemma_pow10_pos(a);
    assert(pow10(a) * pow10((b - a) as nat) >= pow10(a)) by (nonlinear_arith)
        requires
            pow10((b - a) as nat) >= 1,
    ;
}

pub proof fn lemma_dnum_bound(s: Seq<u8>)
    requires
        is_digits(s),
    ensures
        dnum(s) < pow10(s.len()),
    decreases s.len(),
{
    if s.len() > 0 {
        let t = s.drop_last();
        assert(is_digits(t)) by {
            assert forall|i: int| 0 <= i < t.len() implies #[trigger] t[i] <= 9 by {
                assert(t[i] == s[i]);
            }
        }
        lemma_dnum_bound(t);
        assert(s.last() <= 9);
        assert(dnum(t) * 10 + s.last() < pow10(t.len()) * 10) by (nonlinear_arith)
            requires
                dnum(t) < pow10(t.len()),
                s.last() <= 9,
        ;
    }
}

/// A digit string is its first `j` digits shifted left, plus the rest.
pub proof fn lemma_dnum_split(s: Seq<u8>, j: int)
    requires
        0 <= j <= s.len(),
    ensures
        dnum(s) == dnum(s.subrange(0, j)) * pow10((s.len() - j) as nat) + dnum(
            s.subrange(j, s.len() as int),
        ),
    decreases s.len(),
{
    if j == s.len() {
        assert(s.subrange(0, j) =~= s);
        assert(s.subrange(j, s.len() as int) =~= Seq::<u8>::empty());
        assert(dnum(Seq::<u8>::empty()) == 0);
        assert((s.len() - j) as nat == 0);
        assert(pow10(0) == 1);
        assert(dnum(s.subrange(0, j)) * pow10((s.len() - j) as nat) == dnum(s));
    } else {
        let t = s.drop_last();
        lemma_dnum_split(t, j);
        assert(t.subrange(0, j) =~= s.subrange(0, j));
        let r = s.subrange(j, s.len() as int);
        assert(r.drop_last() =~= t.subrange(j, t.len() as int));
        assert(r.last() == s.last());
        let a = dnum(s.subrange(0, j));
        let p = pow10((t.len() - j) as nat);
        assert(((s.len() - j) as nat - 1) as nat == (t.len() - j) as nat);
        assert(pow10((s.len() - j) as nat) == 10 * p);
        assert(dnum(t) == a * p + dnum(t.subrange(j, t.len() as int)));
        assert(dnum(s) == dnum(t) * 10 + s.last());
        assert(dnum(r) == dnum(t.subrange(j, t.len() as int)) * 10 + s.last());
        assert((a * p + dnum(t.subrange(j, t.len() as int))) * 10 + s.last() == a * (10 * p) + (
        dnum(t.subrange(j, t.len() as int)) * 10 + s.last())) by (nonlinear_arith);
        assert(dnum(s) == a * pow10((s.len() - j) as nat) + dnum(r));
    }
}

pub proof fn lemma_dnum_lower(s: Seq<u8>)
    requires
        s.len() > 0,
        s[0] != 0,
    ensures
        dnum(s) >= pow10((s.len() - 1) as nat),
{
    lemma_dnum_split(s, 1);
    let h = s.subrange(0, 1);
    assert(h.drop_last() =~= Seq::<u8>::empty());
    assert(dnum(Seq::<u8>::empty()) == 0);
    assert(h.last() == s[0]);
    assert(dnum(h) == s[0] as nat);
    lemma_pow10_pos((s.len() - 1) as nat);
    assert(dnum(h) * pow10((s.len() - 1) as nat) >= pow10((s.len() - 1) as nat)) by (
    nonlinear_arith)
        requires
            dnum(h) >= 1,
    ;
}

pub proof fn lemma_zeros_value(s: Seq<u8>)
    requires
        forall|i: int| 0 <= i < s.len() ==> #[trigger] s[i] == 0,
    ensures
        dnum(s) == 0,
    decreases s.len(),
{
    if s.len() > 0 {
        lemma_zeros_value(s.drop_last());
    }
}

/// The digits of `v` from `a` up to `b`.
pub fn sub_digits(v: &Vec<u8>, a: usize, b: usize) -> (r: Vec<u8>)
    requires
        a <= b <= v@.len(),
    ensures
        r@ == v@.subrange(a as int, b as int),
{
    let mut r: Vec<u8> = Vec::new();
    let mut i: usize = a;
    while i < b
        invariant
            a <= i <= b <= v@.len(),
            r@ == v@.subrange(a as int, i as int),
        decreases b - i,
    {
        r.push(v[i]);
        i += 1;
        assert(r@ =~= v@.subrange(a as int, i as int));
    }
    r
}

/// Powers of two stay below the powers of ten of the same exponent.
pub proof fn lemma_pow2_below_pow10(n: nat)
    requires
        n >= 1,
    ensures
        pow2(n) < pow10(n),
    decreases n,
{
    lemma2_to64();
    assert(pow10(n) == 10 * pow10((n - 1) as nat));
    if n > 1 {
        lemma_pow2_below_pow10((n - 1) as nat);
        lemma_pow2_adds((n - 1) as nat, 1);
        assert(((n - 1) as nat + 1) as nat == n);
        assert(pow2(n) == pow2((n - 1) as nat) * 2);
    } else {
        assert(pow10(0) == 1);
    }
}

/// `v` with leading zeros removed; the value is unchanged.
pub fn strip(v: &Vec<u8>) -> (r: Vec<u8>)
    requires
        is_digits(v@),
    ensures
        dnum(r@) == dnum(v@),
        is_digits(r@),
        is_stripped(r@),
        r@.len() <= v@.len(),
{
    let mut z: usize = 0;
    while z < v.len() && v[z] == 0
        invariant
            z <= v@.len(),
            forall|i: int| 0 <= i < z ==> #[trigger] v@[i] == 0,
        decreases v@.len() - z,
    {
        z += 1;
    }
    let mut r: Vec<u8> = Vec::new();
    let mut i: usize = z;
    while i < v.len()
        invariant
            z <= i <= v@.len(),
            r@ == v@.subrange(z as int, i as int),
        decreases v@.len() - i,
    {
        r.push(v[i]);
        i += 1;
        assert(r@ =~= v@.subrange(z as int, i as int));
    }
    proof {
        lemma_dnum_split(v@, z as int);
        lemma_zeros_value(v@.subrange(0, z as int));
    }
    r
}

/// `v` scaled by `a`, as a digit string.
pub fn mul_small(v: &Vec<u8>, a: u64) -> (r: Vec<u8>)
    requires
        is_digits(v@),
        1 <= a <= 100_000_000,
    ensures
        dnum(r@) == dnum(v@) * a,
        is_digits(r@),
        r@.len() == v@.len() + 9,
{
    let mut w: Vec<u8> = Vec::new();
    let mut i: usize = 0;
    while i < 9
        invariant
            i <= 9,
            w@.len() == i,
            forall|k: int| 0 <= k < i ==> #[trigger] w@[k] == 0,
        decreases 9 - i,
    {
        w.push(0);
        i += 1;
    }
    let ghost zeros = w@;
    let mut j: usize = 0;
    while j < v.len()
        invariant
            j <= v@.len(),
            w@ == zeros + v@.subrange(0, j as int),
        decreases v@.len() - j,
    {
        w.push(v[j]);
        j += 1;
        assert(w@ =~= zeros + v@.subrange(0, j as int));
    }
    assert(v@.subrange(0, v@.len() as int) =~= v@);
    let n = w.len();
    proof {
        lemma_dnum_split(w@, 9);
        assert(w@.subrange(0, 9) =~= zeros);
        assert(w@.subrange(9, n as int) =~= v@);
        lemma_zeros_value(zeros);
    }
    let ghost wv = w@;
    let mut out: Vec<u8> = w.clone();
    let mut carry: u64 = 0;
    let mut j: usize = n;
    proof {
        assert(out@.subrange(n as int, n as int) =~= Seq::<u8>::empty());
        assert(wv.subrange(n as int, n as int) =~= Seq::<u8>::empty());
        assert(pow10(0) == 1);
        assert(dnum(Seq::<u8>::empty()) == 0);
    }
    while j > 0
        invariant
            j <= n == wv.len() == out@.len(),
            w@ == wv,
            1 <= a <= 100_000_000,
            carry < a,
            is_digits(wv),
            forall|k: int| j <= k < n ==> #[trigger] out@[k] <= 9,
            dnum(wv.subrange(j as int, n as int)) * a == carry * pow10((n - j) as nat) + dnum(
                out@.subrange(j as int, n as int),
            ),
        decreases j,
    {
        let ghost l = (n - j) as nat;
        let ghost tail = out@.subrange(j as int, n as int);
        let ghost src = wv.subrange(j as int, n as int);
        let d = wv_digit(&w, j - 1);
        assert(d as nat == wv[j - 1] as nat);
        assert(d <= 9);
        assert(d * a <= 900_000_000) by (nonlinear_arith)
            requires
                d <= 9,
                a <= 100_000_000,
        ;
        let t = d * a + carry;
        assert(t < 10 * a) by (nonlinear_arith)
            requires
                d <= 9,
                carry < a,
                t == d * a + carry,
        ;
        let nd = (t % 10) as u8;
        out.set(j - 1, nd);
        proof {
            let p = pow10(l);
            lemma_pow10_pos(l);
            let s2 = wv.subrange(j - 1, n as int);
            lemma_dnum_split(s2, 1);
            assert(s2.subrange(1, s2.len() as int) =~= src);
            assert(s2.subrange(0, 1).drop_last() =~= Seq::<u8>::empty());
            assert(dnum(Seq::<u8>::empty()) == 0);
            assert(s2.subrange(0, 1).last() == wv[j - 1]);
            assert(dnum(s2.subrange(0, 1)) == d as nat);
            let o2 = out@.subrange(j - 1, n as int);
            lemma_dnum_split(o2, 1);
            assert(o2.subrange(1, o2.len() as int) =~= tail);
            assert(o2.subrange(0, 1).drop_last() =~= Seq::<u8>::empty());
            assert(o2.subrange(0, 1).last() == nd);
            assert(dnum(o2.subrange(0, 1)) == nd as nat);
            assert((d * p + dnum(src)) * a == (t / 10) * (10 * p) + (t % 10) * p + dnum(tail))
                by (nonlinear_arith)
                requires
                    dnum(src) * a == carry * p + dnum(tail),
                    t == d * a + carry,
            ;
            assert(pow10(l + 1) == 10 * p);
        }
        carry = t / 10;
        j -= 1;
    }
    proof {
        assert(wv.subrange(0, n as int) =~= wv);
        assert(out@.subrange(0, n as int) =~= out@);
        lemma_dnum_bound(v@);
        assert(pow10((v@.len() + 9) as nat) == pow10(v@.len()) * pow10(9)) by {
            lemma_pow10_add(v@.len(), 9);
        }
        assert(pow10(9) == 1_000_000_000) by {
            reveal_with_fuel(pow10, 10);
        }
        if carry > 0 {
            assert(dnum(v@) * a < pow10(v@.len()) * 1_000_000_000) by (nonlinear_arith)
                requires
                    dnum(v@) < pow10(v@.len()),
                    a <= 100_000_000,
            ;
            assert(carry * pow10(n as nat) >= pow10(n as nat)) by (nonlinear_arith)
                requires
                    carry >= 1,
            ;
        }
    }
    out
}

fn wv_digit(w: &Vec<u8>, i: usize) -> (d: u64)
    requires
        i < w@.len(),
    ensures
        d == w@[i as int] as u64,
{
    w[i] as u64
}

/// Whether one stripped digit string is at least another.
pub fn ge_digits(a: &Vec<u8>, b: &Vec<u8>) -> (r: bool)
    requires
        is_digits(a@),
        is_digits(b@),
        is_stripped(a@),
        is_stripped(b@),
    ensures
        r == (dnum(a@) >= dnum(b@)),
{
    proof {
        lemma_dnum_bound(a@);
        lemma_dnum_bound(b@);
        if a@.len() > 0 {
            lemma_dnum_lower(a@);
        }
        if b@.len() > 0 {
            lemma_dnum_lower(b@);
        }
    }
    if a.len() != b.len() {
        proof {
            if a@.len() > b@.len() {
                lemma_pow10_mono(b@.len(), (a@.len() - 1) as nat);
            } else {
                lemma_pow10_mono(a@.len(), (b@.len() - 1) as nat);
            }
        }
        return a.len() > b.len();
    }
    let n = a.len();
    let mut i: usize = 0;
    while i < n
        invariant
            i <= n == a@.len() == b@.len(),
            is_digits(a@),
            is_digits(b@),
            a@.subrange(0, i as int) == b@.subrange(0, i as int),
        decreases n - i,
    {
        if a[i] != b[i] {
            proof {
                let r = (n - i - 1) as nat;
                lemma_dnum_split(a@, i + 1);
                lemma_dnum_split(b@, i + 1);
                let ah = a@.subrange(0, i + 1);
                let bh = b@.subrange(0, i + 1);
                assert(ah.drop_last() =~= a@.subrange(0, i as int));
                assert(bh.drop_last() =~= b@.subrange(0, i as int));
                let at = a@.subrange(i + 1, n as int);
                let bt = b@.subrange(i + 1, n as int);
                assert(is_digits(at)) by {
                    assert forall|k: int| 0 <= k < at.len() implies #[trigger] at[k] <= 9 by {
                        assert(at[k] == a@[i + 1 + k]);
                    }
                }
                assert(is_digits(bt)) by {
                    assert forall|k: int| 0 <= k < bt.len() implies #[trigger] bt[k] <= 9 by {
                        assert(bt[k] == b@[i + 1 + k]);
                    }
                }
                lemma_dnum_bound(at);
                lemma_dnum_bound(bt);
                let p = pow10(r);
                if a@[i as int] > b@[i as int] {
                    assert(dnum(ah) >= dnum(bh) + 1);
                    assert(dnum(ah) * p + dnum(at) > dnum(bh) * p + dnum(bt)) by (nonlinear_arith)
                        requires
                            dnum(ah) >= dnum(bh) + 1,
                            dnum(bt) < p,
                    ;
                } else {
                    assert(dnum(bh) >= dnum(ah) + 1);
                    assert(dnum(bh) * p + dnum(bt) > dnum(ah) * p + dnum(at)) by (nonlinear_arith)
                        requires
                            dnum(bh) >= dnum(ah) + 1,
                            dnum(at) < p,
                    ;
                }
            }
            return a[i] > b[i];
        }
        i += 1;
        assert(a@.subrange(0, i as int) =~= a@.subrange(0, i - 1).push(a@[i - 1]));
        assert(b@.subrange(0, i as int) =~= b@.subrange(0, i - 1).push(b@[i - 1]));
    }
    assert(a@.subrange(0, n as int) =~= a@);
    assert(b@.subrange(0, n as int) =~= b@);
    true
}

/// The value of a digit string of at most 20 digits.
pub fn small_value(v: &Vec<u8>) -> (r: u128)
    requires
        is_digits(v@),
        v@.len() <= 20,
    ensures
        r == dnum(v@),
{
    let mut r: u128 = 0;
    let mut i: usize = 0;
    proof {
        lemma_dnum_bound(v@);
        reveal_with_fuel(pow10, 21);
        assert(v@.subrange(0, 0) =~= Seq::<u8>::empty());
    }
    while i < v.len()
        invariant
            i <= v@.len() <= 20,
            is_digits(v@),
            r == dnum(v@.subrange(0, i as int)),
            r < pow10(i as nat),
            pow10(20) == 100_000_000_000_000_000_000,
        decreases v@.len() - i,
    {
        assert(v@.subrange(0, i + 1).drop_last() =~= v@.subrange(0, i as int));
        proof {
            lemma_pow10_mono(i as nat, 19);
            reveal_with_fuel(pow10, 21);
        }
        assert(v@[i as int] <= 9);
        r = r * 10 + v[i] as u128;
        i += 1;
    }
    assert(v@.subrange(0, v@.len() as int) =~= v@);
    r
}

/// The digits of `2^1024`, the least magnitude a binary64 float overflows at.
pub fn overflow_bound() -> (r: Vec<u8>)
    ensures
        dnum(r@) == pow2(1024),
        is_digits(r@),
        is_stripped(r@),
{
    let mut v: Vec<u8> = vec![1];
    assert(v@.drop_last() =~= Seq::<u8>::empty());
    assert(dnum(Seq::<u8>::empty()) == 0);
    assert(v@.last() == 1);
    proof {
        lemma2_to64();
    }
    let mut i: usize = 0;
    while i < 1024
        invariant
            i <= 1024,
            dnum(v@) == pow2(i as nat),
            is_digits(v@),
            v@.len() <= 1 + 9 * i,
        decreases 1024 - i,
    {
        let w = mul_small(&v, 2);
        v = strip(&w);
        proof {
            lemma_pow2_adds(i as nat, 1);
            lemma2_to64();
        }
        i += 1;
    }
    strip(&v)
}

} // verus!
