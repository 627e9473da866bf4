//! Narrowing a decimal number token to an unsigned 32-bit integer by
//! truncation toward zero, saturating at the type's bounds: negative
//! values give 0 and values beyond the range give the maximum. The token
//! is interpreted exactly, digit by digit, not through an intermediate
//! binary float.

use vstd::prelude::*;
use vstd::arithmetic::div_mod::lemma_fundamental_div_mod_converse;
use vstd::string::StrSliceExecFns;
use crate::jsondoc::{digits_end_s, is_digit_char, num_end_s};

verus! {

/// Index of the first occurrence of `c1` or `c2` at or after `i`, or the
/// length when neither occurs.
pub open spec fn find_char_s(t: Seq<char>, c1: char, c2: char, i: int) -> int
    decreases t.len() - i,
{
    if 0 <= i && i < t.len() {
        if t[i] == c1 || t[i] == c2 {
            i
        } else {
            find_char_s(t, c1, c2, i + 1)
        }
    } else {
        t.len() as int
    }
}

fn find_two(t: &str, n: usize, c1: char, c2: char, i: usize) -> (j: usize)
    requires
        n == t@.len(),
        i <= n,
    ensures
        j == find_char_s(t@, c1, c2, i as int),
        i <= j <= n,
        j < n ==> (t@[j as int] == c1 || t@[j as int] == c2),
    decreases n - i,
{
    if i < n {
        let c = t.get_char(i);
        if c == c1 || c == c2 {
            i
        } else {
            find_two(t, n, c1, c2, i + 1)
        }
    } else {
        i
    }
}

/// Position of the exponent marker, or the length when there is none.
pub open spec fn tok_exp_idx(t: Seq<char>) -> int {
    find_char_s(t, 'e', 'E', 0)
}

/// Position of the decimal point, or the length when there is none.
pub open spec fn tok_dot_idx(t: Seq<char>) -> int {
    find_char_s(t, '.', '.', 0)
}

/// First index of the exponent's digits, skipping an optional sign.
pub open spec fn exp_begin(t: Seq<char>, ei: int) -> int {
    if ei + 1 < t.len() && (t[ei + 1] == '+' || t[ei + 1] == '-') {
        ei + 2
    } else {
        ei + 1
    }
}

/// Every character in `[a, b)` is a decimal digit.
pub open spec fn all_digits(t: Seq<char>, a: int, b: int) -> bool {
    forall|m: int| a <= m < b ==> is_digit_char(t[m])
}

/// Shape of an unsigned number token: a nonempty run of digits, an
/// optional fraction introduced by the only dot, and an optional signed
/// exponent after the only `e` marker.
pub open spec fn wf_unsigned_token(t: Seq<char>) -> bool {
    let ei = tok_exp_idx(t);
    let di = tok_dot_idx(t);
    &&& (if di < ei {
        1 <= di && di + 2 <= ei && all_digits(t, 0, di) && all_digits(t, di + 1, ei)
    } else {
        1 <= ei && all_digits(t, 0, ei) && di == t.len()
    })
    &&& (ei < t.len() ==> {
        let xb = exp_begin(t, ei);
        xb < t.len() && all_digits(t, xb, t.len() as int)
    })
}

/// Shape of a number token as the document grammar produces it: either
/// it opens with a minus, or it is a well-formed unsigned token.
pub open spec fn wf_number_token(t: Seq<char>) -> bool {
    t.len() > 0 && (t[0] == '-' || wf_unsigned_token(t))
}

/// Value of `0`–`9` as a digit.
pub open spec fn digit_val(c: char) -> int {
    c as u32 - 48
}

/// Value of a string of decimal digits.
pub open spec fn digits_val_s(ds: Seq<char>) -> int
    decreases ds.len(),
{
    if ds.len() == 0 {
        0
    } else {
        digits_val_s(ds.drop_last()) * 10 + digit_val(ds.last())
    }
}

/// The mantissa's digits with the decimal point removed.
pub open spec fn mant_digits(t: Seq<char>) -> Seq<char> {
    let ei = tok_exp_idx(t);
    let di = tok_dot_idx(t);
    if di < ei {
        t.subrange(0, di) + t.subrange(di + 1, ei)
    } else {
        t.subrange(0, ei)
    }
}

/// How many of the mantissa's digits lie behind the decimal point.
pub open spec fn frac_len(t: Seq<char>) -> int {
    let ei = tok_exp_idx(t);
    let di = tok_dot_idx(t);
    if di < ei {
        ei - (di + 1)
    } else {
        0
    }
}

/// The signed value of the exponent part, or 0 when there is none.
pub open spec fn exp_of(t: Seq<char>) -> int {
    let ei = tok_exp_idx(t);
    if ei < t.len() {
        let v = digits_val_s(t.subrange(exp_begin(t, ei), t.len() as int));
        if ei + 1 < t.len() && t[ei + 1] == '-' {
            -v
        } else {
            v
        }
    } else {
        0
    }
}

/// The mantissa's digits with leading zeros removed.
pub open spec fn strip_zeros(ds: Seq<char>) -> Seq<char>
    decreases ds.len(),
{
    if ds.len() > 0 && ds[0] == '0' {
        strip_zeros(ds.skip(1))
    } else {
        ds
    }
}

/// The digits before the decimal point once the exponent has been
/// applied: the first `k` of the stripped mantissa digits, extended with
/// zeros when the exponent shifts the point past them.
pub open spec fn int_digits(ds: Seq<char>, k: int) -> Seq<char> {
    if k <= ds.len() {
        ds.take(k)
    } else {
        ds + Seq::new((k - ds.len()) as nat, |m: int| '0')
    }
}

/// Decimal truncation toward zero of a number token, saturated into
/// `u32`: a negative token gives 0; a value with no integer digits gives
/// 0; more than ten integer digits (the first nonzero) always exceeds
/// the range and gives the maximum; otherwise the integer digits' value,
/// capped at the maximum.
pub open spec fn trunc_u32_s(t: Seq<char>) -> u32 {
    if t.len() > 0 && t[0] == '-' {
        0u32
    } else {
        let ds = strip_zeros(mant_digits(t));
        let k = ds.len() + exp_of(t) - frac_len(t);
        if ds.len() == 0 || k <= 0 {
            0u32
        } else if k > 10 {
            0xFFFF_FFFFu32
        } else {
            let v = digits_val_s(int_digits(ds, k));
            if v > 0xFFFF_FFFF {
                0xFFFF_FFFFu32
            } else {
                v as u32
            }
        }
    }
}

proof fn lemma_digits_end_props(s: Seq<char>, i: int)
    requires
        0 <= i <= s.len(),
    ensures
        i <= digits_end_s(s, i) <= s.len(),
        forall|m: int| i <= m < digits_end_s(s, i) ==> is_digit_char(s[m]),
        digits_end_s(s, i) < s.len() ==> !is_digit_char(s[digits_end_s(s, i)]),
        i < s.len() && is_digit_char(s[i]) ==> i < digits_end_s(s, i),
    decreases s.len() - i,
{
    if i < s.len() && is_digit_char(s[i]) {
        lemma_digits_end_props(s, i + 1);
    }
}

proof fn lemma_find_char_from(t: Seq<char>, c1: char, c2: char, i: int, p: int)
    requires
        0 <= i <= p <= t.len(),
        forall|m: int| i <= m < p ==> t[m] != c1 && t[m] != c2,
        p < t.len() ==> (t[p] == c1 || t[p] == c2),
    ensures
        find_char_s(t, c1, c2, i) == if p < t.len() {
            p
        } else {
            t.len() as int
        },
    decreases p - i,
{
    if i < p {
        lemma_find_char_from(t, c1, c2, i + 1, p);
    }
}

/// A span the number grammar accepts is a well-formed number token.
pub proof fn lemma_num_token_wf(s: Seq<char>, i: int, j: int)
    requires
        0 <= i,
        i < j,
        j <= s.len(),
        num_end_s(s, i) == Some(j),
    ensures
        wf_number_token(s.subrange(i, j)),
{
    let t = s.subrange(i, j);
    if s[i] == '-' {
        assert(t[0] == '-');
    } else {
        let j0 = i;
        assert(is_digit_char(s[j0]));
        let j1 = if s[j0] == '0' {
            j0 + 1
        } else {
            digits_end_s(s, j0)
        };
        lemma_digits_end_props(s, j0);
        assert(j0 < j1 <= s.len());
        assert(forall|m: int| j0 <= m < j1 ==> is_digit_char(s[m]));
        // the fraction part
        let has_dot = 0 <= j1 && j1 < s.len() && s[j1] == '.';
        let j2 = if has_dot {
            digits_end_s(s, j1 + 1)
        } else {
            j1
        };
        if has_dot {
            assert(j1 + 1 < s.len() && is_digit_char(s[j1 + 1]));
            lemma_digits_end_props(s, j1 + 1);
            assert(j1 + 2 <= j2 <= s.len());
            assert(forall|m: int| j1 + 1 <= m < j2 ==> is_digit_char(s[m]));
        }
        assert(frac_end_s_is(s, j1, j2, has_dot));
        // the exponent part
        let has_exp = 0 <= j2 && j2 < s.len() && (s[j2] == 'e' || s[j2] == 'E');
        if has_exp {
            let k = if j2 + 1 < s.len() && (s[j2 + 1] == '+' || s[j2 + 1] == '-') {
                j2 + 2
            } else {
                j2 + 1
            };
            assert(k < s.len() && is_digit_char(s[k]));
            lemma_digits_end_props(s, k);
            assert(j == digits_end_s(s, k));
            assert(k < j);
            assert(forall|m: int| k <= m < j ==> is_digit_char(s[m]));
            // locate the markers inside the token
            lemma_find_char_from(t, 'e', 'E', 0, j2 - i);
            if has_dot {
                lemma_find_char_from(t, '.', '.', 0, j1 - i);
            } else {
                lemma_find_char_from(t, '.', '.', 0, t.len() as int);
            }
            assert(exp_begin(t, j2 - i) == k - i);
            assert(wf_unsigned_token(t));
        } else {
            assert(j == j2);
            lemma_find_char_from(t, 'e', 'E', 0, t.len() as int);
            if has_dot {
                lemma_find_char_from(t, '.', '.', 0, j1 - i);
            } else {
                lemma_find_char_from(t, '.', '.', 0, t.len() as int);
            }
            assert(wf_unsigned_token(t));
        }
    }
}

/// What the fraction part of the grammar pinned down, restated so the
/// main proof can case on it.
spec fn frac_end_s_is(s: Seq<char>, j1: int, j2: int, has_dot: bool) -> bool {
    crate::jsondoc::frac_end_s(s, j1) == Some(j2) && (has_dot <==> (0 <= j1 && j1 < s.len() && s[j1]
        == '.'))
}

proof fn lemma_dv_nonneg(ds: Seq<char>)
    requires
        all_digits(ds, 0, ds.len() as int),
    ensures
        digits_val_s(ds) >= 0,
    decreases ds.len(),
{
    if ds.len() > 0 {
        assert(all_digits(ds.drop_last(), 0, ds.len() - 1)) by {
            assert(forall|m: int| 0 <= m < ds.len() - 1 ==> ds.drop_last()[m] == ds[m]);
        }
        lemma_dv_nonneg(ds.drop_last());
    }
}

proof fn lemma_dv_take_step(ds: Seq<char>, p: int)
    requires
        0 <= p < ds.len(),
    ensures
        digits_val_s(ds.take(p + 1)) == digits_val_s(ds.take(p)) * 10 + digit_val(ds[p]),
{
    assert(ds.take(p + 1).drop_last() =~= ds.take(p));
    assert(ds.take(p + 1).last() == ds[p]);
}

proof fn lemma_dv_take_mono(ds: Seq<char>, p: int, q: int)
    requires
        0 <= p <= q <= ds.len(),
        all_digits(ds, 0, ds.len() as int),
    ensures
        digits_val_s(ds.take(q)) >= digits_val_s(ds.take(p)),
    decreases q - p,
{
    if p < q {
        lemma_dv_take_mono(ds, p, q - 1);
        lemma_dv_take_step(ds, q - 1);
        assert(all_digits(ds.take(q - 1), 0, q - 1)) by {
            assert(forall|m: int| 0 <= m < q - 1 ==> ds.take(q - 1)[m] == ds[m]);
        }
        lemma_dv_nonneg(ds.take(q - 1));
    }
}

proof fn lemma_strip_zeros_skip(ds: Seq<char>, z: int)
    requires
        0 <= z <= ds.len(),
        forall|m: int| 0 <= m < z ==> ds[m] == '0',
        z < ds.len() ==> ds[z] != '0',
    ensures
        strip_zeros(ds) == ds.skip(z),
    decreases z,
{
    if z == 0 {
        if ds.len() > 0 && ds[0] == '0' {
            assert(false);
        }
        assert(ds.skip(0) =~= ds);
    } else {
        assert(ds[0] == '0');
        let tail = ds.skip(1);
        assert(forall|m: int| 0 <= m < z - 1 ==> tail[m] == '0');
        lemma_strip_zeros_skip(tail, z - 1);
        assert(tail.skip(z - 1) =~= ds.skip(z));
    }
}

/// Ten to a power; nonpositive powers count as one.
pub open spec fn pow10(e: int) -> int
    decreases e,
{
    if e <= 0 {
        1
    } else {
        10 * pow10(e - 1)
    }
}

proof fn lemma_pow10_pos(e: int)
    ensures
        pow10(e) >= 1,
    decreases e,
{
    if e > 0 {
        lemma_pow10_pos(e - 1);
    }
}

proof fn lemma_pow10_add(a: int, b: int)
    requires
        a >= 0,
        b >= 0,
    ensures
        pow10(a + b) == pow10(a) * pow10(b),
    decreases a,
{
    if a > 0 {
        lemma_pow10_add(a - 1, b);
        assert(pow10(a + b) == 10 * pow10((a - 1) + b));
        assert(10 * (pow10(a - 1) * pow10(b)) == (10 * pow10(a - 1)) * pow10(b))
            by (nonlinear_arith);
    }
}

proof fn lemma_pow10_mono(a: int, b: int)
    requires
        a <= b,
    ensures
        pow10(a) <= pow10(b),
    decreases b - a,
{
    if a < b {
        lemma_pow10_mono(a, b - 1);
        lemma_pow10_pos(b - 1);
    }
}

proof fn lemma_dv_bounds(ds: Seq<char>)
    requires
        all_digits(ds, 0, ds.len() as int),
    ensures
        0 <= digits_val_s(ds) < pow10(ds.len() as int),
    decreases ds.len(),
{
    if ds.len() > 0 {
        assert(all_digits(ds.drop_last(), 0, ds.len() - 1)) by {
            assert(forall|m: int| 0 <= m < ds.len() - 1 ==> ds.drop_last()[m] == ds[m]);
        }
        lemma_dv_bounds(ds.drop_last());
        assert(pow10(ds.len() as int) == 10 * pow10(ds.len() - 1));
        assert(0 <= digit_val(ds.last()) <= 9);
    }
}

proof fn lemma_dv_front(ds: Seq<char>)
    requires
        ds.len() > 0,
    ensures
        digits_val_s(ds) == digit_val(ds[0]) * pow10(ds.len() - 1) + digits_val_s(ds.skip(1)),
    decreases ds.len(),
{
    if ds.len() == 1 {
        assert(ds.drop_last() =~= Seq::<char>::empty());
        assert(ds.skip(1) =~= Seq::<char>::empty());
    } else {
        let dl = ds.drop_last();
        lemma_dv_front(dl);
        assert(dl[0] == ds[0]);
        assert(dl.skip(1) =~= ds.skip(1).drop_last());
        assert(ds.skip(1).last() == ds.last());
        let p1 = pow10(ds.len() - 1);
        let p2 = pow10(ds.len() - 2);
        assert(p1 == 10 * p2);
        assert((digit_val(ds[0]) * p2) * 10 == digit_val(ds[0]) * p1) by (nonlinear_arith)
            requires
                p1 == 10 * p2,
        ;
    }
}

proof fn lemma_dv_strip(ds: Seq<char>)
    requires
        all_digits(ds, 0, ds.len() as int),
    ensures
        digits_val_s(strip_zeros(ds)) == digits_val_s(ds),
        all_digits(strip_zeros(ds), 0, strip_zeros(ds).len() as int),
        strip_zeros(ds).len() > 0 ==> strip_zeros(ds)[0] != '0',
        strip_zeros(ds).len() <= ds.len(),
    decreases ds.len(),
{
    if ds.len() > 0 && ds[0] == '0' {
        assert(all_digits(ds.skip(1), 0, ds.len() - 1)) by {
            assert(forall|m: int| 0 <= m < ds.len() - 1 ==> ds.skip(1)[m] == ds[m + 1]);
        }
        lemma_dv_strip(ds.skip(1));
        lemma_dv_front(ds);
        assert(digit_val('0') == 0);
    }
}

proof fn lemma_dv_append_zeros(ds: Seq<char>, m: int)
    requires
        m >= 0,
    ensures
        digits_val_s(ds + Seq::new(m as nat, |i: int| '0')) == digits_val_s(ds) * pow10(m),
    decreases m,
{
    let zs = Seq::new(m as nat, |i: int| '0');
    if m == 0 {
        assert(ds + zs =~= ds);
    } else {
        let zs1 = Seq::new((m - 1) as nat, |i: int| '0');
        assert((ds + zs).drop_last() =~= ds + zs1);
        assert((ds + zs).last() == '0');
        lemma_dv_append_zeros(ds, m - 1);
        let p = pow10(m - 1);
        assert(pow10(m) == 10 * p);
        assert((digits_val_s(ds) * p) * 10 == digits_val_s(ds) * (10 * p)) by (nonlinear_arith);
        assert(digit_val('0') == 0);
    }
}

proof fn lemma_dv_split(ds: Seq<char>, p: int)
    requires
        0 <= p <= ds.len(),
    ensures
        digits_val_s(ds) == digits_val_s(ds.take(p)) * pow10(ds.len() - p) + digits_val_s(
            ds.skip(p),
        ),
    decreases ds.len() - p,
{
    if p == ds.len() {
        assert(ds.take(p) =~= ds);
        assert(ds.skip(p) =~= Seq::<char>::empty());
    } else {
        lemma_dv_split(ds, p + 1);
        lemma_dv_take_step(ds, p);
        lemma_dv_front(ds.skip(p));
        assert(ds.skip(p)[0] == ds[p]);
        assert(ds.skip(p).skip(1) =~= ds.skip(p + 1));
        let q = pow10(ds.len() - p - 1);
        assert(pow10(ds.len() - p) == 10 * q);
        let a = digits_val_s(ds.take(p));
        let d = digit_val(ds[p]);
        assert((a * 10 + d) * q == a * (10 * q) + d * q) by (nonlinear_arith);
    }
}

proof fn lemma_dv_leading(ds: Seq<char>)
    requires
        all_digits(ds, 0, ds.len() as int),
        ds.len() > 0,
        ds[0] != '0',
    ensures
        digits_val_s(ds) >= pow10(ds.len() - 1),
{
    lemma_dv_front(ds);
    assert(all_digits(ds.skip(1), 0, ds.len() - 1)) by {
        assert(forall|m: int| 0 <= m < ds.len() - 1 ==> ds.skip(1)[m] == ds[m + 1]);
    }
    lemma_dv_bounds(ds.skip(1));
    lemma_pow10_pos(ds.len() - 1);
    assert(is_digit_char(ds[0]));
    assert(digit_val(ds[0]) >= 1) by {
        if ds[0] as u32 == 48 {
            vstd::utf8::char_u32_cast(ds[0], ds[0] as u32);
            vstd::utf8::char_u32_cast('0', '0' as u32);
        }
    }
    assert(digit_val(ds[0]) * pow10(ds.len() - 1) >= 1 * pow10(ds.len() - 1)) by {
        vstd::arithmetic::mul::lemma_mul_inequality(1, digit_val(ds[0]), pow10(ds.len() - 1));
    }
}

proof fn lemma_pow10_ten()
    ensures
        pow10(10) == 10_000_000_000,
{
    assert(pow10(0) == 1);
    assert(pow10(1) == 10);
    assert(pow10(2) == 100);
    assert(pow10(3) == 1000);
    assert(pow10(4) == 10000);
    assert(pow10(5) == 100000);
    assert(pow10(6) == 1000000);
    assert(pow10(7) == 10000000);
    assert(pow10(8) == 100000000);
    assert(pow10(9) == 1000000000);
    assert(pow10(10) == 10000000000);
}

proof fn lemma_find_bounds(t: Seq<char>, c1: char, c2: char, i: int)
    requires
        0 <= i <= t.len(),
    ensures
        i <= find_char_s(t, c1, c2, i) <= t.len(),
    decreases t.len() - i,
{
    if i < t.len() && !(t[i] == c1 || t[i] == c2) {
        lemma_find_bounds(t, c1, c2, i + 1);
    }
}

/// The mantissa's digits are decimal digits whenever the token is a
/// well-formed unsigned token.
proof fn lemma_mant_digits_are_digits(t: Seq<char>)
    requires
        wf_number_token(t),
        t[0] != '-',
    ensures
        all_digits(mant_digits(t), 0, mant_digits(t).len() as int),
{
    lemma_find_bounds(t, 'e', 'E', 0);
    lemma_find_bounds(t, '.', '.', 0);
    let m = mant_digits(t);
    if tok_dot_idx(t) < tok_exp_idx(t) {
        let di = tok_dot_idx(t);
        assert(forall|i: int|
            0 <= i < m.len() ==> m[i] == if i < di {
                t[i]
            } else {
                t[i + 1]
            });
    } else {
        assert(forall|i: int| 0 <= i < m.len() ==> m[i] == t[i]);
    }
}

/// What the digit expansion stands for: `trunc_u32_s` is the truncation
/// toward zero of the token's numeric value — the mantissa's digits
/// shifted by the signed exponent, divided out when the shift is
/// negative — saturated into the `u32` range. Stated for unsigned
/// tokens; a token with a minus sign saturates to 0 by definition.
pub proof fn lemma_trunc_is_value(t: Seq<char>)
    requires
        wf_number_token(t),
        t[0] != '-',
    ensures
        ({
            let dv = digits_val_s(mant_digits(t));
            let shift = exp_of(t) - frac_len(t);
            let v = if shift >= 0 {
                dv * pow10(shift)
            } else {
                dv / pow10(-shift)
            };
            trunc_u32_s(t) == if v > 0xFFFF_FFFF {
                0xFFFF_FFFFu32
            } else {
                v as u32
            }
        }),
{
    let m = mant_digits(t);
    lemma_mant_digits_are_digits(t);
    lemma_dv_strip(m);
    let ds = strip_zeros(m);
    let dv = digits_val_s(m);
    let shift = exp_of(t) - frac_len(t);
    let k = ds.len() + shift;
    if ds.len() == 0 {
        assert(dv == 0);
        if shift >= 0 {
            assert(0 * pow10(shift) == 0);
        } else {
            lemma_pow10_pos(-shift);
            lemma_fundamental_div_mod_converse(0, pow10(-shift), 0, 0);
        }
    } else if k <= 0 {
        // no integer digits at all: the value is below one
        let mm = -shift;
        lemma_dv_bounds(ds);
        lemma_pow10_mono(ds.len() as int, mm);
        lemma_pow10_pos(mm);
        lemma_fundamental_div_mod_converse(dv, pow10(mm), 0, dv);
    } else if k > 10 {
        // more integer digits than the range can ever hold
        lemma_dv_leading(ds);
        lemma_pow10_ten();
        lemma_pow10_mono(10, k - 1);
        if shift >= 0 {
            lemma_pow10_add(ds.len() - 1, shift);
            lemma_pow10_pos(shift);
            assert(dv * pow10(shift) >= pow10(ds.len() - 1) * pow10(shift)) by {
                vstd::arithmetic::mul::lemma_mul_inequality(
                    pow10(ds.len() - 1),
                    dv,
                    pow10(shift),
                );
            }
        } else {
            let mm = -shift;
            lemma_pow10_add(mm, k - 1);
            lemma_pow10_pos(mm);
            lemma_pow10_pos(k - 1);
            assert(pow10(mm) * pow10(k - 1) <= dv);
            assert((pow10(mm) * pow10(k - 1)) / pow10(mm) <= dv / pow10(mm)) by {
                vstd::arithmetic::div_mod::lemma_div_is_ordered(
                    pow10(mm) * pow10(k - 1),
                    dv,
                    pow10(mm),
                );
            }
            lemma_fundamental_div_mod_converse(
                pow10(mm) * pow10(k - 1),
                pow10(mm),
                pow10(k - 1),
                0,
            );
        }
    } else {
        // between one and ten integer digits: the expansion's value
        if shift >= 0 {
            if shift == 0 {
                assert(int_digits(ds, k) =~= ds);
            } else {
                assert(k > ds.len());
                assert(Seq::new((k - ds.len()) as nat, |i: int| '0') =~= Seq::new(
                    shift as nat,
                    |i: int| '0',
                ));
                lemma_dv_append_zeros(ds, shift);
            }
        } else {
            let mm = -shift;
            assert(int_digits(ds, k) =~= ds.take(k));
            lemma_dv_split(ds, k);
            assert(all_digits(ds.skip(k), 0, mm)) by {
                assert(forall|i: int| 0 <= i < mm ==> ds.skip(k)[i] == ds[i + k]);
            }
            lemma_dv_bounds(ds.skip(k));
            lemma_pow10_pos(mm);
            lemma_fundamental_div_mod_converse(
                dv,
                pow10(mm),
                digits_val_s(ds.take(k)),
                digits_val_s(ds.skip(k)),
            );
        }
    }
}

/// Truncates a well-formed number token toward zero into a `u32`,
/// saturating at the bounds.
#[verifier::rlimit(60)]
pub fn trunc_u32(t: &str) -> (r: u32)
    requires
        wf_number_token(t@),
    ensures
        r == trunc_u32_s(t@),
{
    let n = t.unicode_len();
    if t.get_char(0) == '-' {
        return 0;
    }
    let ei = find_two(t, n, 'e', 'E', 0);
    let di = find_two(t, n, '.', '.', 0);
    // collect the mantissa digits with the dot removed
    let mut mant: Vec<char> = Vec::new();
    let m_end = if di < ei {
        di
    } else {
        ei
    };
    let mut p: usize = 0;
    while p < m_end
        invariant
            n == t@.len(),
            m_end <= n,
            p <= m_end,
            mant@ == t@.subrange(0, p as int),
        decreases m_end - p,
    {
        mant.push(t.get_char(p));
        p += 1;
        proof {
            assert(mant@ =~= t@.subrange(0, p as int));
        }
    }
    if di < ei {
        let mut q: usize = di + 1;
        while q < ei
            invariant
                n == t@.len(),
                di < ei <= n,
                di + 1 <= q <= ei,
                mant@ == t@.subrange(0, di as int) + t@.subrange(di as int + 1, q as int),
            decreases ei - q,
        {
            mant.push(t.get_char(q));
            q += 1;
            proof {
                assert(mant@ =~= t@.subrange(0, di as int) + t@.subrange(
                    di as int + 1,
                    q as int,
                ));
            }
        }
    }
    proof {
        if (di as int) < ei as int {
            assert(mant@ =~= mant_digits(t@));
        } else {
            assert(mant@ =~= t@.subrange(0, ei as int));
            assert(mant@ =~= mant_digits(t@));
        }
    }
    // strip leading zeros
    let mut z: usize = 0;
    while z < mant.len() && mant[z] == '0'
        invariant
            z <= mant@.len(),
            forall|m: int| 0 <= m < z ==> mant@[m] == '0',
        decreases mant@.len() - z,
    {
        z += 1;
    }
    proof {
        lemma_strip_zeros_skip(mant@, z as int);
    }
    let ds_len = mant.len() - z;
    let ghost ds = strip_zeros(mant_digits(t@));
    proof {
        assert(ds == mant@.skip(z as int));
        assert(ds.len() == ds_len);
    }
    if ds_len == 0 {
        return 0;
    }
    // the fraction length
    let fl: usize = if di < ei {
        ei - (di + 1)
    } else {
        0
    };
    // the exponent value, saturated far beyond any reachable length
    let mut exp_mag: i128 = 0;
    let mut exp_neg: bool = false;
    if ei < n {
        let xb = if ei + 1 < n {
            let sg = t.get_char(ei + 1);
            if sg == '+' || sg == '-' {
                exp_neg = sg == '-';
                ei + 2
            } else {
                ei + 1
            }
        } else {
            ei + 1
        };
        proof {
            assert(xb == exp_begin(t@, ei as int));
        }
        let ghost xd = t@.subrange(xb as int, n as int);
        let mut q: usize = xb;
        while q < n
            invariant
                n == t@.len(),
                xb <= q <= n,
                xd == t@.subrange(xb as int, n as int),
                all_digits(t@, xb as int, n as int),
                0 <= exp_mag <= 1_000_000_000_000_000_000_000_000_000_000i128,
                digits_val_s(xd.take(q - xb)) <= 1_000_000_000_000_000_000_000_000_000_000i128
                    ==> exp_mag == digits_val_s(xd.take(q - xb)),
                digits_val_s(xd.take(q - xb)) > 1_000_000_000_000_000_000_000_000_000_000i128
                    ==> exp_mag == 1_000_000_000_000_000_000_000_000_000_000i128,
            decreases n - q,
        {
            let d = t.get_char(q) as u32 - 48;
            proof {
                lemma_dv_take_step(xd, q - xb);
                assert(xd[q - xb] == t@[q as int]);
                assert(all_digits(xd, 0, xd.len() as int)) by {
                    assert(forall|m: int| 0 <= m < xd.len() ==> xd[m] == t@[xb + m]);
                }
                assert(all_digits(xd.take(q - xb), 0, q - xb)) by {
                    assert(forall|m: int| 0 <= m < q - xb ==> xd.take(q - xb)[m] == xd[m]);
                }
                lemma_dv_nonneg(xd.take(q - xb));
            }
            exp_mag = exp_mag * 10 + d as i128;
            if exp_mag > 1_000_000_000_000_000_000_000_000_000_000i128 {
                exp_mag = 1_000_000_000_000_000_000_000_000_000_000i128;
            }
            q += 1;
        }
        proof {
            assert(xd.take(n as int - xb as int) =~= xd);
        }
    }
    // integer-digit count of the decimal expansion
    let ghost k_true = ds.len() + exp_of(t@) - frac_len(t@);
    let exp_signed: i128 = if exp_neg {
        -exp_mag
    } else {
        exp_mag
    };
    let k: i128 = ds_len as i128 + exp_signed - fl as i128;
    proof {
        assert(frac_len(t@) == fl as int);
        assert(k == k_true || (k <= 0 && k_true <= 0) || (10 < k && 10 < k_true)) by {
            let cap = 1_000_000_000_000_000_000_000_000_000_000i128 as int;
            if ei < n {
                let xd = t@.subrange(exp_begin(t@, ei as int), n as int);
                if digits_val_s(xd) <= cap {
                    assert(exp_mag == digits_val_s(xd));
                    assert(k == k_true);
                } else {
                    assert(exp_mag == cap);
                    if exp_neg {
                        assert(k <= 0 && k_true <= 0);
                    } else {
                        assert(k > 10 && k_true > 10);
                    }
                }
            } else {
                assert(exp_of(t@) == 0);
                assert(k == k_true);
            }
        }
    }
    if k <= 0 {
        return 0;
    }
    if k > 10 {
        return 0xFFFF_FFFF;
    }
    let ku = k as usize;
    // value of the first k digits of the expansion
    let ghost ids = int_digits(ds, k_true);
    proof {
        assert(k == k_true);
        assert(all_digits(mant@, 0, mant@.len() as int)) by {
            if tok_dot_idx(t@) < tok_exp_idx(t@) {
                assert(forall|m: int|
                    0 <= m < mant@.len() ==> mant@[m] == if m < tok_dot_idx(t@) {
                        t@[m]
                    } else {
                        t@[m + 1]
                    });
            } else {
                assert(forall|m: int| 0 <= m < mant@.len() ==> mant@[m] == t@[m]);
            }
        }
        assert(all_digits(ds, 0, ds.len() as int)) by {
            assert(forall|m: int| 0 <= m < ds.len() ==> ds[m] == mant@[z + m]);
        }
        assert(all_digits(ids, 0, ids.len() as int)) by {
            if k_true <= ds.len() {
                assert(forall|m: int| 0 <= m < ids.len() ==> ids[m] == ds[m]);
            } else {
                assert(forall|m: int|
                    0 <= m < ids.len() ==> ids[m] == if m < ds.len() {
                        ds[m]
                    } else {
                        '0'
                    });
            }
        }
        assert(ids.len() == k_true);
    }
    let mant_len: usize = mant.len();
    let mut acc: u64 = 0;
    let mut p2: usize = 0;
    while p2 < ku
        invariant
            ku == k_true,
            ku <= 10,
            k_true == ds.len() + exp_of(t@) - frac_len(t@),
            ids == int_digits(ds, k_true),
            ids.len() == k_true,
            all_digits(ids, 0, ids.len() as int),
            ds == strip_zeros(mant_digits(t@)),
            ds.len() == ds_len,
            0 < ds_len,
            mant_len == mant@.len(),
            z <= mant_len,
            ds_len == mant_len - z,
            mant@ == mant_digits(t@),
            n == t@.len(),
            t@.len() > 0,
            t@[0] != '-',
            forall|m: int| 0 <= m < ds.len() ==> ds[m] == mant@[z + m],
            p2 <= ku,
            acc <= 0xFFFF_FFFFu64,
            acc == digits_val_s(ids.take(p2 as int)),
        decreases ku - p2,
    {
        let d: u32 = if p2 < ds_len {
            let c = mant_char(&mant, z + p2);
            proof {
                assert(ids[p2 as int] == ds[p2 as int]);
                assert(ds[p2 as int] == mant@[z + p2]);
                assert(is_digit_char(c));
            }
            c as u32 - 48
        } else {
            0
        };
        proof {
            lemma_dv_take_step(ids, p2 as int);
            if p2 < ds_len {
                assert(ids[p2 as int] == ds[p2 as int]);
                assert(ds[p2 as int] == mant@[z + p2]);
            } else {
                assert(ids[p2 as int] == '0');
            }
            assert(digit_val(ids[p2 as int]) == d);
            assert(0 <= digit_val(ids[p2 as int]) <= 9);
        }
        let next: u64 = acc * 10 + d as u64;
        if next > 0xFFFF_FFFF {
            proof {
                lemma_dv_take_mono(ids, p2 as int + 1, ids.len() as int);
                assert(ids.take(ids.len() as int) =~= ids);
                assert(digits_val_s(ids) > 0xFFFF_FFFF);
            }
            return 0xFFFF_FFFF;
        }
        acc = next;
        p2 += 1;
    }
    proof {
        assert(ids.take(ids.len() as int) =~= ids);
        assert(acc == digits_val_s(ids));
    }
    acc as u32
}

fn mant_char(mant: &Vec<char>, i: usize) -> (c: char)
    requires
        i < mant@.len(),
    ensures
        c == mant@[i as int],
{
    mant[i]
}

} // verus!
