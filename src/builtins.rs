//! The two cancellation-aware builtins: `sleep` (a delay that stops when the
//! run is cancelled) and `timeout` (runs a nested command line for at most a
//! given time).
//!
//! Their argument parsing, the re-quoting of the nested command, and the
//! status each ending maps to are decided here; the host races the timers.

use vstd::prelude::*;

use vstd::arithmetic::power2::pow2;

use crate::chars::{
    chars_of, join, lead_count, lemma_lead_count, push_str_chars, string_from_chars, sub_chars,
    trim, trim_chars,
};
use crate::decimal::{
    dnum, ge_digits, is_digits, is_stripped, lemma_dnum_bound, lemma_dnum_lower, lemma_dnum_split,
    lemma_pow10_add, lemma_pow10_mono, lemma_pow10_pos, lemma_zeros_value, mul_small,
    overflow_bound, pow10, small_value, strip, sub_digits,
};
use crate::coordinator::{ControlFlow, ExecutionResult, ExitStatus};

verus! {

pub open spec fn is_digit(c: char) -> bool {
    '0' <= c && c <= '9'
}

pub open spec fn digit(c: char) -> nat {
    (c as u32 - '0' as u32) as nat
}

pub open spec fn all_digits(s: Seq<char>) -> bool {
    forall|i: int| 0 <= i < s.len() ==> is_digit(#[trigger] s[i])
}

/// The value of a digit string, most significant digit first.
pub open spec fn int_value(s: Seq<char>) -> nat
    decreases s.len(),
{
    if s.len() == 0 {
        0
    } else {
        int_value(s.drop_last()) * 10 + digit(s.last())
    }
}

pub open spec fn is_ascii_alpha(c: char) -> bool {
    ('a' <= c && c <= 'z') || ('A' <= c && c <= 'Z')
}

/// Milliseconds per unit for a unit suffix.
pub open spec fn unit_ms(c: char) -> nat {
    if c == 's' {
        1000
    } else if c == 'm' {
        60_000
    } else if c == 'h' {
        3_600_000
    } else {
        86_400_000
    }
}

pub open spec fn is_unit(c: char) -> bool {
    c == 's' || c == 'm' || c == 'h' || c == 'd'
}

/// The digit values of a string of decimal digit characters.
pub open spec fn digit_vals(s: Seq<char>) -> Seq<u8> {
    s.map_values(|c: char| (c as u32 - '0' as u32) as u8)
}

/// A number as a binary64 float literal reads it, without sign: digits, an
/// optional `.` and digits (at least one digit in all), then optionally `e` or
/// `E`, an optional sign and at least one digit. A leading `+` is allowed.
/// Yields the integer digits, the fraction digits, whether the exponent is
/// negative, and the exponent digits.
pub open spec fn number_parts(num: Seq<char>) -> Option<(Seq<char>, Seq<char>, bool, Seq<char>)> {
    let b = if num.len() > 0 && num[0] == '+' {
        num.drop_first()
    } else {
        num
    };
    let p = lead_count(b, |c: char| is_digit(c));
    let ip = b.subrange(0, p as int);
    let r1 = b.subrange(p as int, b.len() as int);
    let fp = if r1.len() > 0 && r1[0] == '.' {
        r1.drop_first().subrange(0, lead_count(r1.drop_first(), |c: char| is_digit(c)) as int)
    } else {
        seq![]
    };
    let r2 = if r1.len() > 0 && r1[0] == '.' {
        r1.drop_first().subrange(
            lead_count(r1.drop_first(), |c: char| is_digit(c)) as int,
            r1.drop_first().len() as int,
        )
    } else {
        r1
    };
    if ip.len() + fp.len() == 0 {
        None
    } else {
        match exponent_parts(r2) {
            Some((neg, ed)) => Some((ip, fp, neg, ed)),
            None => None,
        }
    }
}

/// What follows the digits of a number: nothing (exponent zero), or `e`/`E`,
/// an optional sign and at least one digit. Yields whether the exponent is
/// negative, and its digits.
pub open spec fn exponent_parts(r2: Seq<char>) -> Option<(bool, Seq<char>)> {
    if r2.len() == 0 {
        Some((false, seq![]))
    } else if r2[0] == 'e' || r2[0] == 'E' {
        let r3 = r2.drop_first();
        let signed = r3.len() > 0 && (r3[0] == '+' || r3[0] == '-');
        let ed = if signed {
            r3.drop_first()
        } else {
            r3
        };
        if ed.len() > 0 && all_digits(ed) {
            Some((signed && r3[0] == '-', ed))
        } else {
            None
        }
    } else {
        None
    }
}

/// The milliseconds in `a * 10^p` (an exact rational), rounded to the nearest
/// integer with halves up; `None` when the value reaches `2^1024`, where a
/// binary64 float is no longer finite.
pub open spec fn scaled_millis(a: nat, p: int) -> Option<nat> {
    if p >= 0 {
        let x = a * pow10(p as nat);
        if x >= pow2(1024) {
            None
        } else {
            Some(x)
        }
    } else {
        let d = pow10((-p) as nat);
        if a >= pow2(1024) * d {
            None
        } else {
            Some((2 * a + d) / (2 * d))
        }
    }
}

/// A duration token `<number>[s|m|h|d]` (bare means seconds), surrounding
/// white space ignored, in milliseconds, capped at `u64::MAX`. `None` for an
/// empty token, a negative or malformed number, another letter as unit, or a
/// value that is not finite as a binary64 float.
pub open spec fn duration_millis(s: Seq<char>) -> Option<nat> {
    let t = trim(s);
    if t.len() == 0 {
        None
    } else {
        let c = t.last();
        let split = if is_unit(c) {
            Some((t.drop_last(), unit_ms(c)))
        } else if is_ascii_alpha(c) {
            None
        } else {
            Some((t, 1000nat))
        };
        match split {
            None => None,
            Some((num, unit)) => match number_parts(num) {
                None => None,
                Some((ip, fp, neg, ed)) => {
                    let e = if neg {
                        -int_value(ed)
                    } else {
                        int_value(ed) as int
                    };
                    match scaled_millis(dnum(digit_vals(ip + fp)) * unit, e - fp.len()) {
                        None => None,
                        Some(m) => Some(
                            if m > u64::MAX {
                                u64::MAX as nat
                            } else {
                                m
                            },
                        ),
                    }
                },
            },
        }
    }
}
pub fn unit_of(c: char) -> (r: Option<u64>)
    ensures
        is_unit(c) ==> r == Some(unit_ms(c) as u64),
        !is_unit(c) ==> r is None,
{
    if c == 's' {
        Some(1000)
    } else if c == 'm' {
        Some(60_000)
    } else if c == 'h' {
        Some(3_600_000)
    } else if c == 'd' {
        Some(86_400_000)
    } else {
        None
    }
}

fn digits_only(s: &[char]) -> (r: bool)
    ensures
        r == all_digits(s@),
{
    let mut k: usize = 0;
    while k < s.len()
        invariant
            k <= s@.len(),
            forall|j: int| 0 <= j < k ==> is_digit(#[trigger] s@[j]),
        decreases s@.len() - k,
    {
        if !('0' <= s[k] && s[k] <= '9') {
            return false;
        }
        k += 1;
    }
    true
}

/// Exponents are tracked exactly up to this magnitude; any larger one puts
/// the value far past the overflow bound or far below half a millisecond.
const EXP_CAP: u128 = 0x1_0000_0000_0000_0000_0000;

/// The leading digits of `b`, and where they end.
fn lead_digits(b: &[char]) -> (p: usize)
    ensures
        p == lead_count(b@, |c: char| is_digit(c)),
        p <= b@.len(),
        forall|j: int| 0 <= j < p ==> is_digit(#[trigger] b@[j]),
{
    let mut p: usize = 0;
    while p < b.len() && '0' <= b[p] && b[p] <= '9'
        invariant
            p <= b@.len(),
            forall|j: int| 0 <= j < p ==> is_digit(#[trigger] b@[j]),
        decreases b@.len() - p,
    {
        p += 1;
    }
    proof {
        lemma_lead_count(b@, |c: char| is_digit(c), p as int);
    }
    p
}

/// The value of an exponent's digits, capped at [`EXP_CAP`].
fn exponent_value(ed: &[char]) -> (r: u128)
    requires
        all_digits(ed@),
    ensures
        r == (if int_value(ed@) > EXP_CAP {
            EXP_CAP as nat
        } else {
            int_value(ed@)
        }),
{
    let mut acc: u128 = 0;
    let mut i: usize = 0;
    assert(ed@.subrange(0, 0) =~= Seq::<char>::empty());
    while i < ed.len()
        invariant
            i <= ed@.len(),
            all_digits(ed@),
            acc as nat == (if int_value(ed@.subrange(0, i as int)) > EXP_CAP {
                EXP_CAP as nat
            } else {
                int_value(ed@.subrange(0, i as int))
            }),
        decreases ed@.len() - i,
    {
        let ghost prev = int_value(ed@.subrange(0, i as int));
        assert(ed@.subrange(0, i as int + 1).drop_last() =~= ed@.subrange(0, i as int));
        assert(is_digit(ed@[i as int]));
        let d = (ed[i] as u32 - '0' as u32) as u128;
        assert(int_value(ed@.subrange(0, i as int + 1)) == prev * 10 + d);
        if acc >= EXP_CAP {
            acc = EXP_CAP;
        } else {
            acc = acc * 10 + d;
            if acc > EXP_CAP {
                acc = EXP_CAP;
            }
        }
        i += 1;
    }
    assert(ed@.subrange(0, ed@.len() as int) =~= ed@);
    acc
}

/// The digit values of the characters of `a` followed by those of `b`.
fn digit_values(a: &[char], b: &[char]) -> (r: Vec<u8>)
    requires
        all_digits(a@),
        all_digits(b@),
    ensures
        r@ == digit_vals(a@ + b@),
        is_digits(r@),
{
    let ghost ab = a@ + b@;
    let mut r: Vec<u8> = Vec::new();
    let mut i: usize = 0;
    while i < a.len()
        invariant
            i <= a@.len(),
            all_digits(a@),
            r@ == digit_vals(ab).subrange(0, i as int),
            ab == a@ + b@,
        decreases a@.len() - i,
    {
        assert(is_digit(a@[i as int]));
        r.push((a[i] as u32 - '0' as u32) as u8);
        i += 1;
        assert(r@ =~= digit_vals(ab).subrange(0, i as int));
    }
    let mut j: usize = 0;
    while j < b.len()
        invariant
            j <= b@.len(),
            all_digits(b@),
            ab == a@ + b@,
            r@ == digit_vals(ab).subrange(0, a@.len() + j),
        decreases b@.len() - j,
    {
        assert(is_digit(b@[j as int]));
        r.push((b[j] as u32 - '0' as u32) as u8);
        j += 1;
        assert(r@ =~= digit_vals(ab).subrange(0, a@.len() + j));
    }
    assert(r@ =~= digit_vals(ab));
    assert forall|i: int| 0 <= i < r@.len() implies #[trigger] r@[i] <= 9 by {
        assert(is_digit(ab[i]));
    }
    r
}

proof fn lemma_exact_shift(a: nat, g: nat, t: nat, dg: nat, t2: nat, pw1: nat, b: nat)
    requires
        pw1 >= 1,
        a == g * (10 * pw1) + t,
        t == dg * pw1 + t2,
        t2 < pw1,
        dg <= 9,
    ensures
        (2 * a + 10 * pw1) / (2 * (10 * pw1)) == g + (if dg >= 5 {
            1nat
        } else {
            0
        }),
        (a >= b * (10 * pw1)) == (g >= b),
{
    let pw = 10 * pw1;
    let r: nat = if dg >= 5 {
        1
    } else {
        0
    };
    if dg >= 5 {
        assert(2 * a + pw == (g + 1) * (2 * pw) + (2 * t - pw)) by (nonlinear_arith)
            requires
                a == g * pw + t,
        ;
        assert(2 * t >= pw && 2 * t - pw < 2 * pw) by (nonlinear_arith)
            requires
                t == dg * pw1 + t2,
                dg >= 5,
                dg <= 9,
                t2 < pw1,
                pw == 10 * pw1,
        ;
        vstd::arithmetic::div_mod::lemma_fundamental_div_mod_converse(
            (2 * a + pw) as int,
            (2 * pw) as int,
            (g + 1) as int,
            (2 * t - pw) as int,
        );
    } else {
        assert(2 * a + pw == g * (2 * pw) + (2 * t + pw)) by (nonlinear_arith)
            requires
                a == g * pw + t,
        ;
        assert(2 * t + pw < 2 * pw) by (nonlinear_arith)
            requires
                t == dg * pw1 + t2,
                dg <= 4,
                t2 < pw1,
                pw == 10 * pw1,
        ;
        vstd::arithmetic::div_mod::lemma_fundamental_div_mod_converse(
            (2 * a + pw) as int,
            (2 * pw) as int,
            g as int,
            (2 * t + pw) as int,
        );
    }
    assert(t < pw) by (nonlinear_arith)
        requires
            t == dg * pw1 + t2,
            dg <= 9,
            t2 < pw1,
            pw == 10 * pw1,
    ;
    if g >= b {
        assert(a >= b * pw) by (nonlinear_arith)
            requires
                a == g * pw + t,
                g >= b,
        ;
    } else {
        assert(a < b * pw) by (nonlinear_arith)
            requires
                a == g * pw + t,
                g + 1 <= b,
                t < pw,
        ;
    }
}

/// Saturates a value to `u64::MAX`.
fn clamp_u64(v: u128) -> (r: u64)
    ensures
        r as nat == (if v > u64::MAX {
            u64::MAX as nat
        } else {
            v as nat
        }),
{
    if v > u64::MAX as u128 {
        u64::MAX
    } else {
        v as u64
    }
}

/// The result for `a * 10^p` milliseconds, `a` given by its stripped digits.
fn scaled(a: &Vec<u8>, p: i128) -> (r: Option<u64>)
    requires
        is_digits(a@),
        is_stripped(a@),
        -0x2_0000_0000_0000_0000_0000 <= p <= 0x2_0000_0000_0000_0000_0000,
    ensures
        match scaled_millis(dnum(a@), p as int) {
            None => r is None,
            Some(m) => r == Some(
                (if m > u64::MAX {
                    u64::MAX as nat
                } else {
                    m
                }) as u64,
            ),
        },
{
    let l = a.len();
    proof {
        vstd::arithmetic::power2::lemma_pow2_pos(1024);
    }
    if l == 0 {
        proof {
            assert(a@ =~= Seq::<u8>::empty());
            assert(dnum(Seq::<u8>::empty()) == 0);
            if p >= 0 {
                assert(dnum(a@) * pow10(p as nat) == 0) by (nonlinear_arith)
                    requires
                        dnum(a@) == 0,
                ;
            }
            if p < 0 {
                let d = pow10((-p) as nat);
                lemma_pow10_pos((-p) as nat);
                assert(pow2(1024) * d >= 1) by (nonlinear_arith)
                    requires
                        pow2(1024) >= 1,
                        d >= 1,
                ;
                assert((2 * 0 + d) / (2 * d) == 0) by (nonlinear_arith)
                    requires
                        d >= 1,
                ;
            }
        }
        return Some(0);
    }
    if p >= 0 {
        scaled_up(a, p)
    } else {
        scaled_down(a, p)
    }
}

/// [`scaled`] for a non-negative power of ten.
#[verifier::rlimit(50)]
fn scaled_up(a: &Vec<u8>, p: i128) -> (r: Option<u64>)
    requires
        is_digits(a@),
        is_stripped(a@),
        -0x2_0000_0000_0000_0000_0000 <= p <= 0x2_0000_0000_0000_0000_0000,
        a@.len() > 0,
        p >= 0,
    ensures
        match scaled_millis(dnum(a@), p as int) {
            None => r is None,
            Some(m) => r == Some(
                (if m > u64::MAX {
                    u64::MAX as nat
                } else {
                    m
                }) as u64,
            ),
        },
{
    let bound = overflow_bound();
    let bl = bound.len();
    let l = a.len();
    proof {
        vstd::arithmetic::power2::lemma_pow2_pos(1024);
        lemma_dnum_bound(bound@);
        lemma_dnum_bound(a@);
        if l > 0 {
            lemma_dnum_lower(a@);
        }
        lemma_pow10_pos(l as nat);
    }
    if (l as i128) + p > bl as i128 {
        proof {
            let x = dnum(a@) * pow10(p as nat);
            lemma_pow10_add((l - 1) as nat, p as nat);
            lemma_pow10_mono(bl as nat, (l - 1 + p) as nat);
            assert(x >= pow10((l - 1) as nat) * pow10(p as nat)) by (nonlinear_arith)
                requires
                    dnum(a@) >= pow10((l - 1) as nat),
                    x == dnum(a@) * pow10(p as nat),
            ;
        }
        return None;
    }
    let shift = p as usize;
    let mut f: Vec<u8> = a.clone();
    let mut i: usize = 0;
    while i < shift
        invariant
            i <= shift,
            f@ == a@ + Seq::new(i as nat, |k: int| 0u8),
        decreases shift - i,
    {
        f.push(0);
        i += 1;
        assert(f@ =~= a@ + Seq::new(i as nat, |k: int| 0u8));
    }
    proof {
        let z = Seq::new(shift as nat, |k: int| 0u8);
        lemma_dnum_split(f@, l as int);
        assert(f@.subrange(0, l as int) =~= a@);
        assert(f@.subrange(l as int, f@.len() as int) =~= z);
        lemma_zeros_value(z);
        assert(is_digits(f@)) by {
            assert forall|k: int| 0 <= k < f@.len() implies #[trigger] f@[k] <= 9 by {
                if k < l {
                    assert(f@[k] == a@[k]);
                }
            }
        }
        assert(f@[0] == a@[0]);
    }
    if ge_digits(&f, &bound) {
        return None;
    }
    if f.len() > 20 {
        proof {
            lemma_dnum_lower(f@);
            lemma_pow10_mono(20, (f@.len() - 1) as nat);
            reveal_with_fuel(pow10, 21);
        }
        return Some(u64::MAX);
    }
    Some(clamp_u64(small_value(&f)))
}

/// [`scaled`] for a negative power of ten.
#[verifier::rlimit(50)]
fn scaled_down(a: &Vec<u8>, p: i128) -> (r: Option<u64>)
    requires
        is_digits(a@),
        is_stripped(a@),
        -0x2_0000_0000_0000_0000_0000 <= p <= 0x2_0000_0000_0000_0000_0000,
        a@.len() > 0,
        p < 0,
    ensures
        match scaled_millis(dnum(a@), p as int) {
            None => r is None,
            Some(m) => r == Some(
                (if m > u64::MAX {
                    u64::MAX as nat
                } else {
                    m
                }) as u64,
            ),
        },
{
    let bound = overflow_bound();
    let bl = bound.len();
    let l = a.len();
    proof {
        vstd::arithmetic::power2::lemma_pow2_pos(1024);
        lemma_dnum_bound(bound@);
        lemma_dnum_bound(a@);
        if l > 0 {
            lemma_dnum_lower(a@);
        }
        lemma_pow10_pos(l as nat);
    }
    if -p > l as i128 {
        proof {
            let q = (-p) as nat;
            let d = pow10(q);
            lemma_pow10_mono(l as nat, (q - 1) as nat);
            assert(d == 10 * pow10((q - 1) as nat));
            assert((2 * dnum(a@) + d) / (2 * d) == 0) by (nonlinear_arith)
                requires
                    dnum(a@) < pow10((q - 1) as nat),
                    d == 10 * pow10((q - 1) as nat),
            ;
            assert(pow2(1024) * d >= d) by (nonlinear_arith)
                requires
                    pow2(1024) >= 1,
            ;
            lemma_pow10_mono((q - 1) as nat, q);
        }
        return Some(0);
    }
    let q = (-p) as usize;
    let cut = l - q;
    let g = sub_digits(a, 0, cut);
    let dg = a[cut];
    proof {
        lemma_dnum_split(a@, cut as int);
        let t = a@.subrange(cut as int, l as int);
        lemma_dnum_split(t, 1);
        let t2 = t.subrange(1, t.len() as int);
        assert(t.subrange(0, 1).drop_last() =~= Seq::<u8>::empty());
        assert(dnum(Seq::<u8>::empty()) == 0);
        assert(t.subrange(0, 1).last() == dg);
        assert(is_digits(t2)) by {
            assert forall|k: int| 0 <= k < t2.len() implies #[trigger] t2[k] <= 9 by {
                assert(t2[k] == a@[cut + 1 + k]);
            }
        }
        lemma_dnum_bound(t2);
        assert(pow10(q as nat) == 10 * pow10((q - 1) as nat));
        lemma_pow10_pos((q - 1) as nat);
        lemma_exact_shift(
            dnum(a@),
            dnum(g@),
            dnum(t),
            dg as nat,
            dnum(t2),
            pow10((q - 1) as nat),
            pow2(1024),
        );
        assert(is_digits(g@)) by {
            assert forall|k: int| 0 <= k < g@.len() implies #[trigger] g@[k] <= 9 by {
                assert(g@[k] == a@[k]);
            }
        }
        if cut > 0 {
            assert(g@[0] == a@[0]);
        }
    }
    if ge_digits(&g, &bound) {
        return None;
    }
    let up: u128 = if dg >= 5 {
        1
    } else {
        0
    };
    if g.len() > 20 {
        proof {
            lemma_dnum_lower(g@);
            lemma_pow10_mono(20, (g@.len() - 1) as nat);
            reveal_with_fuel(pow10, 21);
        }
        return Some(u64::MAX);
    }
    let gv = small_value(&g);
    proof {
        lemma_dnum_bound(g@);
        lemma_pow10_mono(g@.len() as nat, 20);
        reveal_with_fuel(pow10, 21);
    }
    Some(clamp_u64(gv + up))
}

/// An exponent too large to track leaves the result as it is: past the
/// overflow bound when positive, below half a millisecond when negative.
proof fn lemma_saturated_exponent(a: nat, len: nat, pe: int, pt: int)
    requires
        a < pow10(len),
        len < 0x1_0000_0000_0000_0000,
        (pe >= 0x8000_0000_0000_0000_0000 && pt >= pe) || (pe <= -0x8000_0000_0000_0000_0000
            && pt <= pe),
    ensures
        scaled_millis(a, pe) == scaled_millis(a, pt),
{
    vstd::arithmetic::power2::lemma_pow2_pos(1024);
    if pe >= 0 {
        if a > 0 {
            crate::decimal::lemma_pow2_below_pow10(1024);
            lemma_pow10_mono(1024, pe as nat);
            lemma_pow10_mono(1024, pt as nat);
            assert(a * pow10(pe as nat) >= pow10(pe as nat)) by (nonlinear_arith)
                requires
                    a >= 1,
            ;
            assert(a * pow10(pt as nat) >= pow10(pt as nat)) by (nonlinear_arith)
                requires
                    a >= 1,
            ;
        } else {
            assert(0 * pow10(pe as nat) == 0);
            assert(0 * pow10(pt as nat) == 0);
        }
    } else {
        let qe = (-pe) as nat;
        let qt = (-pt) as nat;
        lemma_pow10_mono(len, (qe - 1) as nat);
        lemma_pow10_mono(len, (qt - 1) as nat);
        lemma_pow10_mono((qe - 1) as nat, qe);
        lemma_pow10_mono((qt - 1) as nat, qt);
        assert(pow10(qe) == 10 * pow10((qe - 1) as nat));
        assert(pow10(qt) == 10 * pow10((qt - 1) as nat));
        assert((2 * a + pow10(qe)) / (2 * pow10(qe)) == 0) by (nonlinear_arith)
            requires
                a < pow10((qe - 1) as nat),
                pow10(qe) == 10 * pow10((qe - 1) as nat),
        ;
        assert((2 * a + pow10(qt)) / (2 * pow10(qt)) == 0) by (nonlinear_arith)
            requires
                a < pow10((qt - 1) as nat),
                pow10(qt) == 10 * pow10((qt - 1) as nat),
        ;
        assert(pow2(1024) * pow10(qe) >= pow10(qe)) by (nonlinear_arith)
            requires
                pow2(1024) >= 1,
        ;
        assert(pow2(1024) * pow10(qt) >= pow10(qt)) by (nonlinear_arith)
            requires
                pow2(1024) >= 1,
        ;
    }
}

/// Reads an exponent (see [`exponent_parts`]).
fn parse_exponent(r2: &Vec<char>) -> (r: Option<(bool, Vec<char>)>)
    ensures
        match exponent_parts(r2@) {
            None => r is None,
            Some((neg, ed)) => r matches Some((n, e)) && n == neg && e@ == ed,
        },
{
    let (neg, ed): (bool, Vec<char>) = if r2.len() == 0 {
        (false, Vec::new())
    } else if r2[0] == 'e' || r2[0] == 'E' {
        let r3 = sub_chars(r2.as_slice(), 1, r2.len());
        assert(r3@ =~= r2@.drop_first());
        let signed = r3.len() > 0 && (r3[0] == '+' || r3[0] == '-');
        let ed = if signed {
            let e = sub_chars(r3.as_slice(), 1, r3.len());
            assert(e@ =~= r3@.drop_first());
            e
        } else {
            r3.clone()
        };
        if ed.len() == 0 || !digits_only(ed.as_slice()) {
            return None;
        }
        (signed && r3[0] == '-', ed)
    } else {
        return None;
    };
    proof {
        if r2@.len() == 0 {
            assert(ed@ =~= Seq::<char>::empty());
        }
    }
    Some((neg, ed))
}

/// Splits a number into its parts (see [`number_parts`]).
fn parse_number(num: &Vec<char>) -> (r: Option<(Vec<char>, Vec<char>, bool, Vec<char>)>)
    ensures
        match number_parts(num@) {
            None => r is None,
            Some((ip, fp, neg, ed)) => r matches Some((i, f, n, e)) && i@ == ip && f@ == fp && n
                == neg && e@ == ed && all_digits(ip) && all_digits(fp) && all_digits(ed),
        },
{
    let start: usize = if num.len() > 0 && num[0] == '+' {
        1
    } else {
        0
    };
    let b = sub_chars(num.as_slice(), start, num.len());
    proof {
        if start == 1 {
            assert(b@ =~= num@.drop_first());
        } else {
            assert(b@ =~= num@);
        }
    }
    let bl = b.len();
    let p = lead_digits(b.as_slice());
    let ip = sub_chars(b.as_slice(), 0, p);
    let r1 = sub_chars(b.as_slice(), p, bl);
    let dotted = r1.len() > 0 && r1[0] == '.';
    let (fp, r2) = if dotted {
        let r1t = sub_chars(r1.as_slice(), 1, r1.len());
        assert(r1t@ =~= r1@.drop_first());
        let f = lead_digits(r1t.as_slice());
        let fd = sub_chars(r1t.as_slice(), 0, f);
        assert forall|j: int| 0 <= j < fd@.len() implies is_digit(#[trigger] fd@[j]) by {
            assert(fd@[j] == r1t@[j]);
        }
        (fd, sub_chars(r1t.as_slice(), f, r1t.len()))
    } else {
        (Vec::new(), r1)
    };
    proof {
        if !dotted {
            assert(fp@ =~= Seq::<char>::empty());
        }
        assert forall|j: int| 0 <= j < ip@.len() implies is_digit(#[trigger] ip@[j]) by {
            assert(ip@[j] == b@[j]);
        }
        assert(all_digits(fp@));
    }
    if ip.len() + fp.len() == 0 {
        assert(number_parts(num@) is None);
        return None;
    }
    let (neg, ed) = match parse_exponent(&r2) {
        Some(x) => x,
        None => {
            return None;
        },
    };
    proof {
        assert(number_parts(num@) == Some((ip@, fp@, neg, ed@)));
    }
    Some((ip, fp, neg, ed))
}

/// Parses one duration token into milliseconds (see [`duration_millis`]).
pub fn parse_duration(input: &str) -> (r: Option<u64>)
    ensures
        match duration_millis(input@) {
            Some(m) => r == Some(m as u64),
            None => r is None,
        },
{
    let raw = chars_of(input);
    let t = trim_chars(raw.as_slice());
    let n = t.len();
    if n == 0 {
        return None;
    }
    let c = t[n - 1];
    let (num_end, unit): (usize, u64) = match unit_of(c) {
        Some(u) => (n - 1, u),
        None => {
            if ('a' <= c && c <= 'z') || ('A' <= c && c <= 'Z') {
                return None;
            }
            (n, 1000)
        },
    };
    let ghost num = t@.subrange(0, num_end as int);
    proof {
        if is_unit(c) {
            assert(num =~= t@.drop_last());
        } else {
            assert(num =~= t@);
        }
    }
    let numv = sub_chars(t.as_slice(), 0, num_end);
    assert(numv@ == num);
    let (ip, fp, neg, ed) = match parse_number(&numv) {
        Some(parts) => parts,
        None => {
            return None;
        },
    };
    let m = digit_values(ip.as_slice(), fp.as_slice());
    let am = mul_small(&m, unit);
    let a = strip(&am);
    let e = exponent_value(ed.as_slice());
    let k = fp.len() as i128;
    let pe: i128 = if neg {
        -(e as i128) - k
    } else {
        e as i128 - k
    };
    proof {
        assert(dnum(a@) == dnum(digit_vals(ip@ + fp@)) * unit);
    }
    let r = scaled(&a, pe);
    let al = a.len();
    proof {
        assert(al as nat == a@.len());
        let ev = int_value(ed@);
        let p_true: int = (if neg {
            -ev
        } else {
            ev as int
        }) - fp@.len();
        if ev > EXP_CAP {
            lemma_dnum_bound(a@);
            lemma_saturated_exponent(dnum(a@), a@.len() as nat, pe as int, p_true);
        }
    }
    r
}
/// Characters that a nested command token may hold and still pass unquoted.
pub open spec fn is_plain(c: char) -> bool {
    ('a' <= c && c <= 'z') || ('A' <= c && c <= 'Z') || ('0' <= c && c <= '9') || c == '-' || c
        == '_' || c == '.' || c == '/' || c == ':' || c == '+'
}

/// `s` with each `'` written as `rep`.
pub open spec fn replace_quotes(s: Seq<char>, rep: Seq<char>) -> Seq<char>
    decreases s.len(),
{
    if s.len() == 0 {
        seq![]
    } else {
        replace_quotes(s.drop_last(), rep) + if s.last() == '\'' {
            rep
        } else {
            seq![s.last()]
        }
    }
}

/// The token with each `'` written as `'"'"'`.
pub open spec fn escaped(s: Seq<char>) -> Seq<char> {
    replace_quotes(s, seq!['\'', '"', '\'', '"', '\''])
}

fn push_replacing_quotes(out: &mut Vec<char>, a: &[char], rep: &[char])
    ensures
        final(out)@ == old(out)@ + replace_quotes(a@, rep@),
{
    let ghost start = out@;
    let mut k: usize = 0;
    while k < a.len()
        invariant
            k <= a@.len(),
            out@ == start + replace_quotes(a@.subrange(0, k as int), rep@),
        decreases a@.len() - k,
    {
        let ghost before = out@;
        assert(a@.subrange(0, k as int + 1).drop_last() =~= a@.subrange(0, k as int));
        if a[k] == '\'' {
            push_str_chars(out, rep);
        } else {
            out.push(a[k]);
            assert(out@ =~= before + seq![a@[k as int]]);
        }
        k += 1;
        assert(out@ =~= start + replace_quotes(a@.subrange(0, k as int), rep@));
    }
    assert(a@.subrange(0, a@.len() as int) =~= a@);
}

/// A token as the engine must read it back: `''` when empty, itself when all
/// its characters are plain, else single-quoted.
pub open spec fn quoted(s: Seq<char>) -> Seq<char> {
    if s.len() == 0 {
        seq!['\'', '\'']
    } else if forall|i: int| 0 <= i < s.len() ==> is_plain(#[trigger] s[i]) {
        s
    } else {
        seq!['\''] + escaped(s) + seq!['\'']
    }
}

fn plain(c: char) -> (r: bool)
    ensures
        r == is_plain(c),
{
    ('a' <= c && c <= 'z') || ('A' <= c && c <= 'Z') || ('0' <= c && c <= '9') || c == '-' || c
        == '_' || c == '.' || c == '/' || c == ':' || c == '+'
}

fn quote_into(out: &mut Vec<char>, a: &[char])
    ensures
        final(out)@ == old(out)@ + quoted(a@),
{
    let ghost start = out@;
    if a.len() == 0 {
        out.push('\'');
        out.push('\'');
        assert(out@ =~= start + quoted(a@));
        return;
    }
    let mut all_plain = true;
    let mut i: usize = 0;
    while i < a.len()
        invariant
            i <= a@.len(),
            all_plain == (forall|j: int| 0 <= j < i ==> is_plain(#[trigger] a@[j])),
        decreases a@.len() - i,
    {
        if !plain(a[i]) {
            all_plain = false;
        }
        i += 1;
    }
    if all_plain {
        push_str_chars(out, a);
        return;
    }
    out.push('\'');
    let rep: Vec<char> = vec!['\'', '"', '\'', '"', '\''];
    assert(rep@ =~= seq!['\'', '"', '\'', '"', '\'']);
    push_replacing_quotes(out, a, rep.as_slice());
    out.push('\'');
    assert(out@ =~= start + quoted(a@));
}

/// Quotes one token of a nested command so that the engine reads it back as
/// that same single word.
pub fn quote_arg(arg: &str) -> (r: String)
    ensures
        r@ == quoted(arg@),
{
    let a = chars_of(arg);
    let mut out: Vec<char> = Vec::new();
    quote_into(&mut out, a.as_slice());
    assert(out@ =~= quoted(arg@));
    string_from_chars(out.as_slice())
}

pub open spec fn texts(v: Seq<String>) -> Seq<Seq<char>> {
    v.map_values(|s: String| s@)
}

/// The nested command line: the quoted tokens separated by single spaces.
pub open spec fn command_line_of(tokens: Seq<Seq<char>>) -> Seq<char> {
    join(tokens.map_values(|t: Seq<char>| quoted(t)), ' ')
}

pub fn command_line(tokens: &Vec<String>) -> (r: String)
    ensures
        r@ == command_line_of(texts(tokens@)),
{
    let ghost q = texts(tokens@).map_values(|t: Seq<char>| quoted(t));
    let mut out: Vec<char> = Vec::new();
    let mut i: usize = 0;
    while i < tokens.len()
        invariant
            i <= tokens@.len(),
            q == texts(tokens@).map_values(|t: Seq<char>| quoted(t)),
            out@ == join(q.subrange(0, i as int), ' '),
        decreases tokens@.len() - i,
    {
        let ghost before = out@;
        if i > 0 {
            out.push(' ');
        }
        let a = chars_of(tokens[i].as_str());
        quote_into(&mut out, a.as_slice());
        let ghost next = q.subrange(0, i as int + 1);
        assert(next.drop_last() =~= q.subrange(0, i as int));
        assert(next.last() == quoted(tokens@[i as int]@));
        if i == 0 {
            assert(out@ =~= next[0]);
        } else {
            assert(out@ =~= join(q.subrange(0, i as int), ' ') + seq![' '] + next.last());
        }
        i += 1;
    }
    assert(q.subrange(0, tokens@.len() as int) =~= q);
    string_from_chars(out.as_slice())
}

/// `<name>: invalid time interval '<token>'`
pub open spec fn interval_message(name: Seq<char>, token: Seq<char>) -> Seq<char> {
    name + ": invalid time interval '"@ + token + "'"@
}

fn invalid_interval(name: &str, token: &str) -> (r: String)
    ensures
        r@ == interval_message(name@, token@),
{
    let mut out = chars_of(name);
    let a = chars_of(": invalid time interval '");
    let b = chars_of(token);
    let c = chars_of("'");
    push_str_chars(&mut out, a.as_slice());
    push_str_chars(&mut out, b.as_slice());
    push_str_chars(&mut out, c.as_slice());
    string_from_chars(out.as_slice())
}

/// An execution result with normal control flow.
pub open spec fn finished(status: ExitStatus) -> ExecutionResult {
    ExecutionResult { next_control_flow: ControlFlow::Normal, exit_code: status }
}

fn finish_with(status: ExitStatus) -> (r: ExecutionResult)
    ensures
        r == finished(status),
{
    ExecutionResult { next_control_flow: ControlFlow::Normal, exit_code: status }
}

/// What the `sleep` builtin does once its arguments are read.
pub enum DelayPlan {
    /// The run was already cancelled: report an interruption at once.
    Interrupted,
    /// A token is not a duration: print the message, report the status.
    Invalid { message: String, status: ExitStatus },
    /// Sleep this long, unless cancelled first.
    Sleep { millis: u64 },
}

pub open spec fn millis_or_zero(t: Seq<char>) -> nat {
    match duration_millis(t) {
        Some(m) => m,
        None => 0,
    }
}

/// The sum of the tokens' durations, capped at `u64::MAX` milliseconds.
pub open spec fn total_millis(tokens: Seq<Seq<char>>) -> nat
    decreases tokens.len(),
{
    if tokens.len() == 0 {
        0
    } else {
        let a = total_millis(tokens.drop_last()) + millis_or_zero(tokens.last());
        if a > u64::MAX {
            u64::MAX as nat
        } else {
            a
        }
    }
}

/// Reads the `sleep` builtin's duration tokens: the first invalid one is
/// reported (status 1); otherwise the delay is their sum.
pub fn plan_delay(already_cancelled: bool, durations: &Vec<String>) -> (p: DelayPlan)
    ensures
        already_cancelled ==> p is Interrupted,
        !already_cancelled && (forall|i: int|
            0 <= i < durations@.len() ==> duration_millis((#[trigger] durations@[i])@) is Some)
            ==> p == (DelayPlan::Sleep { millis: total_millis(texts(durations@)) as u64 }),
        !already_cancelled ==> forall|i: int|
            0 <= i < durations@.len() && duration_millis((#[trigger] durations@[i])@) is None && (
            forall|j: int| 0 <= j < i ==> duration_millis(durations@[j]@) is Some) ==> (
            p matches DelayPlan::Invalid { message, status } && message@ == interval_message(
                "sleep"@,
                durations@[i]@,
            ) && status == ExitStatus::GeneralError),
{
    if already_cancelled {
        return DelayPlan::Interrupted;
    }
    let mut total: u64 = 0;
    let mut i: usize = 0;
    while i < durations.len()
        invariant
            !already_cancelled,
            i <= durations@.len(),
            forall|j: int| 0 <= j < i ==> duration_millis(durations@[j]@) is Some,
            total == total_millis(texts(durations@).subrange(0, i as int)),
        decreases durations@.len() - i,
    {
        assert(texts(durations@).subrange(0, i as int + 1).drop_last() =~= texts(
            durations@,
        ).subrange(0, i as int));
        match parse_duration(durations[i].as_str()) {
            Some(m) => {
                total = total.saturating_add(m);
            },
            None => {
                return DelayPlan::Invalid {
                    message: invalid_interval("sleep", durations[i].as_str()),
                    status: ExitStatus::GeneralError,
                };
            },
        }
        i += 1;
    }
    assert(texts(durations@).subrange(0, durations@.len() as int) =~= texts(durations@));
    DelayPlan::Sleep { millis: total }
}

/// The `sleep` builtin's result: interrupted when cancelled during the delay.
pub fn delay_result(cancelled: bool) -> (r: ExecutionResult)
    ensures
        r == finished(
            if cancelled {
                ExitStatus::Interrupted
            } else {
                ExitStatus::Success
            },
        ),
{
    if cancelled {
        finish_with(ExitStatus::Interrupted)
    } else {
        finish_with(ExitStatus::Success)
    }
}

/// What the `timeout` builtin does once its arguments are read.
pub enum BoundedRunPlan {
    /// The run was already cancelled: report an interruption at once.
    Interrupted,
    /// Bad arguments: print the message, report the status.
    Invalid { message: String, status: ExitStatus },
    /// Run this command line for at most this long.
    Run { millis: u64, command_line: String },
}

/// Reads the `timeout` builtin's arguments: a duration and the nested command
/// tokens (status 125 when either is unusable).
pub fn plan_bounded_run(already_cancelled: bool, duration: &str, command: &Vec<String>) -> (p:
    BoundedRunPlan)
    ensures
        already_cancelled ==> p is Interrupted,
        !already_cancelled && duration_millis(duration@) is None ==> (p matches BoundedRunPlan::Invalid {
            message,
            status,
        } && message@ == interval_message("timeout"@, duration@) && status == ExitStatus::Custom(
            125,
        )),
        !already_cancelled && duration_millis(duration@) is Some && command@.len() == 0 ==> (
        p matches BoundedRunPlan::Invalid { message, status } && message@
            == "timeout: missing command"@ && status == ExitStatus::Custom(125)),
        !already_cancelled && duration_millis(duration@) is Some && command@.len() > 0 ==> (
        p matches BoundedRunPlan::Run { millis, command_line } && millis == duration_millis(
            duration@,
        )->0 && command_line@ == command_line_of(texts(command@))),
{
    if already_cancelled {
        return BoundedRunPlan::Interrupted;
    }
    let millis = match parse_duration(duration) {
        Some(m) => m,
        None => {
            return BoundedRunPlan::Invalid {
                message: invalid_interval("timeout", duration),
                status: ExitStatus::Custom(125),
            };
        },
    };
    if command.len() == 0 {
        let m = chars_of("timeout: missing command");
        return BoundedRunPlan::Invalid {
            message: string_from_chars(m.as_slice()),
            status: ExitStatus::Custom(125),
        };
    }
    BoundedRunPlan::Run { millis, command_line: command_line(command) }
}

/// How the nested run of `timeout` ended.
pub enum BoundedRunEnd {
    /// The nested command line completed first.
    Completed(Result<ExecutionResult, String>),
    /// The duration elapsed first; the nested run was cancelled.
    Elapsed,
    /// The outer run was cancelled first; the nested run was cancelled.
    OuterCancelled,
}

/// The `timeout` builtin's result: the nested result when it completed, 124
/// when the duration elapsed, an interruption when the outer run was cancelled.
pub fn bounded_run_result(end: BoundedRunEnd) -> (r: Result<ExecutionResult, String>)
    ensures
        end matches BoundedRunEnd::Completed(x) ==> r == x,
        end is Elapsed ==> r == Ok::<ExecutionResult, String>(finished(ExitStatus::Custom(124))),
        end is OuterCancelled ==> r == Ok::<ExecutionResult, String>(
            finished(ExitStatus::Interrupted),
        ),
{
    match end {
        BoundedRunEnd::Completed(x) => x,
        BoundedRunEnd::Elapsed => Ok(finish_with(ExitStatus::Custom(124))),
        BoundedRunEnd::OuterCancelled => Ok(finish_with(ExitStatus::Interrupted)),
    }
}


/// The command that sources a snapshot file: `source '<path>'`, each `'` in
/// the path written as `'\''`.
pub open spec fn snapshot_command_of(path: Seq<char>) -> Seq<char> {
    "source '"@ + replace_quotes(path, seq!['\'', '\\', '\'', '\'']) + "'"@
}

pub fn snapshot_command(snapshot_path: &str) -> (r: String)
    ensures
        r@ == snapshot_command_of(snapshot_path@),
{
    let mut out = chars_of("source '");
    let p = chars_of(snapshot_path);
    let rep: Vec<char> = vec!['\'', '\\', '\'', '\''];
    assert(rep@ =~= seq!['\'', '\\', '\'', '\'']);
    push_replacing_quotes(&mut out, p.as_slice(), rep.as_slice());
    let close = chars_of("'");
    push_str_chars(&mut out, close.as_slice());
    string_from_chars(out.as_slice())
}

} // verus!
