//! SPICE numeric literals with SI suffixes, and the exact numbers they denote.
//!
//! A [`Value`] keeps the literal as written (the part a float parser reads)
//! and the power of ten of its SI suffix. [`Value::number`] decodes it into an
//! exact decimal [`Number`]; comparisons on values are exact. Exponents are
//! held within ±[`EXP_LIMIT`], far beyond the range of any float.
use vstd::prelude::*;

use crate::decimal::{
    is_digits, is_normal, lemma_p10_add, lemma_p10_pos, lemma_val_bound, p10, sum_exceeds, val,
};
use crate::text::{
    all_digits, chars_eq, chars_of, digit_value, digits_value, is_alpha, is_ascii_alphabetic,
    is_ascii_digit, is_digit, lower, lower_seq, lowercase, slice_vec, string_of, to_lower, trim,
    trim_chars,
};
use vstd::string::StringExecFns;

verus! {

/// Decimal exponents are held within this bound.
pub const EXP_LIMIT: i64 = 100000;

/// A number on the extended line: not-a-number, an infinity, or the exact
/// decimal `m * 10^e`.
pub enum Ext {
    NaN,
    Inf(bool),
    Fin(int, int),
}

pub open spec fn clamp_exp(e: int) -> int {
    if e > EXP_LIMIT {
        EXP_LIMIT as int
    } else if e < -EXP_LIMIT {
        -EXP_LIMIT
    } else {
        e
    }
}

// ─── The float literal grammar ───────────────────────────────────────────────

/// Number of ASCII digits at the front of `s`.
pub open spec fn lead_digits(s: Seq<char>) -> nat
    decreases s.len(),
{
    if s.len() == 0 || !is_digit(s[0]) {
        0
    } else {
        1 + lead_digits(s.drop_first())
    }
}

pub proof fn lemma_lead_digits(s: Seq<char>)
    ensures
        lead_digits(s) <= s.len(),
        forall|i: int| 0 <= i < lead_digits(s) ==> is_digit(s[i]),
        lead_digits(s) < s.len() ==> !is_digit(s[lead_digits(s) as int]),
    decreases s.len(),
{
    if s.len() > 0 && is_digit(s[0]) {
        lemma_lead_digits(s.drop_first());
        assert forall|i: int| 0 <= i < lead_digits(s) implies is_digit(s[i]) by {
            if i > 0 {
                assert(s[i] == s.drop_first()[i - 1]);
            }
        }
    }
}

proof fn lemma_lead_digits_run(s: Seq<char>, k: int)
    requires
        0 <= k <= s.len(),
        forall|j: int| 0 <= j < k ==> is_digit(s[j]),
        k == s.len() || !is_digit(s[k]),
    ensures
        lead_digits(s) == k,
    decreases k,
{
    if k > 0 {
        lemma_lead_digits_run(s.drop_first(), k - 1);
    }
}

/// An optional leading sign: whether it is `-`, and what follows it.
pub open spec fn split_sign(s: Seq<char>) -> (bool, Seq<char>) {
    if s.len() > 0 && (s[0] == '+' || s[0] == '-') {
        (s[0] == '-', s.drop_first())
    } else {
        (false, s)
    }
}

pub open spec fn word_inf() -> Seq<char> {
    seq!['i', 'n', 'f']
}

pub open spec fn word_infinity() -> Seq<char> {
    seq!['i', 'n', 'f', 'i', 'n', 'i', 't', 'y']
}

pub open spec fn word_nan() -> Seq<char> {
    seq!['n', 'a', 'n']
}

/// The digits and the exponent of an unsigned decimal literal
/// `digits [. digits] [(e|E) [sign] digits]` with at least one mantissa digit.
pub open spec fn decimal_parts(t: Seq<char>) -> Option<(Seq<char>, int)> {
    let a = lead_digits(t);
    let ip = t.take(a as int);
    let r1 = t.skip(a as int);
    let has_dot = r1.len() > 0 && r1[0] == '.';
    let after_dot = if has_dot {
        r1.drop_first()
    } else {
        r1
    };
    let b = if has_dot {
        lead_digits(after_dot)
    } else {
        0
    };
    let fp = after_dot.take(b as int);
    let r2 = after_dot.skip(b as int);
    if ip.len() + fp.len() == 0 {
        None
    } else if r2.len() == 0 {
        Some((ip + fp, -(fp.len() as int)))
    } else if r2[0] == 'e' || r2[0] == 'E' {
        let (eneg, c) = split_sign(r2.drop_first());
        if c.len() > 0 && all_digits(c) {
            let ev = if eneg {
                -(digits_value(c) as int)
            } else {
                digits_value(c) as int
            };
            Some((ip + fp, ev - fp.len()))
        } else {
            None
        }
    } else {
        None
    }
}

/// What `f64::from_str` reads from `s`, as an exact number; `None` where it
/// fails.
pub open spec fn literal_ext(s: Seq<char>) -> Option<Ext> {
    let (neg, t) = split_sign(s);
    let w = lower_seq(t);
    if w == word_inf() || w == word_infinity() {
        Some(Ext::Inf(neg))
    } else if w == word_nan() {
        Some(Ext::NaN)
    } else {
        match decimal_parts(t) {
            Some((d, e)) => Some(
                Ext::Fin(
                    if neg {
                        -(digits_value(d) as int)
                    } else {
                        digits_value(d) as int
                    },
                    e,
                ),
            ),
            None => None,
        }
    }
}

/// Multiplying by `10^k` (exponents held within the limit).
pub open spec fn scale_ext(x: Ext, k: int) -> Ext {
    match x {
        Ext::Fin(m, e) => Ext::Fin(m, clamp_exp(e + k)),
        _ => x,
    }
}

// ─── Exact numbers ───────────────────────────────────────────────────────────

/// An exact decimal: little-endian magnitude digits without high zeros.
pub enum Number {
    NaN,
    Inf { negative: bool },
    Finite { negative: bool, mag: Vec<u8>, exp: i64 },
}

impl Number {
    pub open spec fn ext(&self) -> Ext {
        match self {
            Number::NaN => Ext::NaN,
            Number::Inf { negative } => Ext::Inf(*negative),
            Number::Finite { negative, mag, exp } => Ext::Fin(
                if *negative {
                    -(val(mag@) as int)
                } else {
                    val(mag@) as int
                },
                *exp as int,
            ),
        }
    }

    pub open spec fn wf(&self) -> bool {
        match self {
            Number::Finite { mag, exp, .. } => is_normal(mag@) && -EXP_LIMIT <= *exp
                <= EXP_LIMIT,
            _ => true,
        }
    }
}

fn lead_digits_at(s: &[char], i: usize) -> (j: usize)
    requires
        i <= s.len(),
    ensures
        j == i + lead_digits(s@.skip(i as int)),
        j <= s.len(),
{
    let mut j = i;
    while j < s.len() && is_ascii_digit(s[j])
        invariant
            i <= j <= s.len(),
            forall|m: int| i <= m < j ==> is_digit(s@[m]),
        decreases s.len() - j,
    {
        j += 1;
    }
    proof {
        let t = s@.skip(i as int);
        assert forall|m: int| 0 <= m < j - i implies is_digit(t[m]) by {
            assert(t[m] == s@[m + i]);
        }
        if j < s.len() {
            assert(t[j - i] == s@[j as int]);
        }
        lemma_lead_digits_run(t, j - i);
    }
    j
}

/// Little-endian, normalised magnitude of the ASCII digits `s[from..to]`.
fn magnitude_of(s: &[char], from: usize, to: usize) -> (mag: Vec<u8>)
    requires
        from <= to <= s.len(),
        all_digits(s@.subrange(from as int, to as int)),
    ensures
        is_normal(mag@),
        val(mag@) == digits_value(s@.subrange(from as int, to as int)),
{
    let ghost d = s@.subrange(from as int, to as int);
    // Skip leading zeros; they add nothing.
    let mut a = from;
    while a < to && s[a] == '0'
        invariant
            from <= a <= to <= s.len(),
            forall|m: int| from <= m < a ==> s@[m] == '0',
        decreases to - a,
    {
        a += 1;
    }
    proof {
        lemma_digits_value_leading_zeros(d, a - from);
    }
    let ghost t = s@.subrange(a as int, to as int);
    assert(t =~= d.skip(a - from));
    let mut mag: Vec<u8> = Vec::new();
    let mut k = to;
    // mag holds the digits s[k..to], least significant first.
    while k > a
        invariant
            a <= k <= to <= s.len(),
            t == s@.subrange(a as int, to as int),
            all_digits(t),
            mag.len() == to - k,
            is_digits(mag@),
            forall|m: int| 0 <= m < mag.len() ==> mag@[m] as nat == digit_value(t[t.len() - 1 - m]),
            val(mag@) == digits_value(t.skip(k - a)),
        decreases k,
    {
        let c = s[k - 1];
        assert(c == t[k - 1 - a]);
        assert(is_digit(c));
        let dv: u32 = c as u32 - '0' as u32;
        let dd: u8 = dv as u8;
        let ghost old_mag = mag@;
        mag.push(dd);
        proof {
            let suf = t.skip(k - 1 - a);
            assert(suf.drop_first() =~= t.skip(k - a));
            lemma_digits_value_front(suf);
            lemma_val_push(old_mag, dd);
            assert(mag@ =~= old_mag.push(dd));
            assert(old_mag.len() == suf.len() - 1);
        }
        k -= 1;
    }
    assert(t.skip(0) =~= t);
    proof {
        if mag.len() > 0 {
            assert(mag@.last() as nat == digit_value(t[0]));
            assert(t[0] == s@[a as int]);
        }
    }
    mag
}

/// Front-digit form of [`digits_value`].
proof fn lemma_digits_value_front(s: Seq<char>)
    requires
        s.len() > 0,
    ensures
        digits_value(s) == digit_value(s[0]) * p10((s.len() - 1) as nat) + digits_value(
            s.drop_first(),
        ),
    decreases s.len(),
{
    if s.len() == 1 {
        assert(s.drop_last() =~= Seq::<char>::empty());
        assert(s.drop_first() =~= Seq::<char>::empty());
        assert(digits_value(Seq::<char>::empty()) == 0);
        assert(p10(0) == 1);
        assert(s.last() == s[0]);
        assert(digits_value(s) == digits_value(s.drop_last()) * 10 + digit_value(s.last()));
        assert(digits_value(s) == digit_value(s[0]));
        assert(digit_value(s[0]) * p10(0) == digit_value(s[0])) by (nonlinear_arith)
            requires
                p10(0) == 1,
        ;
    } else {
        let t = s.drop_last();
        lemma_digits_value_front(t);
        assert(t[0] == s[0]);
        assert(t.drop_first() =~= s.drop_first().drop_last());
        assert(s.drop_first().last() == s.last());
        let n = (s.len() - 2) as nat;
        assert(p10((s.len() - 1) as nat) == 10 * p10(n));
        assert(digits_value(s) == digits_value(t) * 10 + digit_value(s.last()));
        assert(digits_value(s.drop_first()) == digits_value(t.drop_first()) * 10 + digit_value(
            s.last(),
        ));
        assert(digits_value(t) * 10 == digit_value(s[0]) * p10((s.len() - 1) as nat)
            + digits_value(t.drop_first()) * 10) by (nonlinear_arith)
            requires
                digits_value(t) == digit_value(s[0]) * p10(n) + digits_value(t.drop_first()),
                p10((s.len() - 1) as nat) == 10 * p10(n),
        ;
    }
}

proof fn lemma_digits_value_leading_zeros(s: Seq<char>, k: int)
    requires
        0 <= k <= s.len(),
        forall|m: int| 0 <= m < k ==> s[m] == '0',
    ensures
        digits_value(s) == digits_value(s.skip(k)),
    decreases k,
{
    if k > 0 {
        lemma_digits_value_front(s);
        assert(digit_value(s[0]) == 0);
        assert(digit_value(s[0]) * p10((s.len() - 1) as nat) == 0) by (nonlinear_arith)
            requires
                digit_value(s[0]) == 0,
        ;
        assert(s.drop_first().skip(k - 1) =~= s.skip(k));
        lemma_digits_value_leading_zeros(s.drop_first(), k - 1);
    } else {
        assert(s.skip(0) =~= s);
    }
}

proof fn lemma_val_push(s: Seq<u8>, d: u8)
    ensures
        val(s.push(d)) == val(s) + (d as nat) * p10(s.len()),
{
    assert(s.push(d).drop_last() =~= s);
}

/// Exponent digits `s[from..to]`, saturated far above any exponent that
/// survives clamping.
fn exponent_of(s: &[char], from: usize, to: usize) -> (e: i128)
    requires
        from <= to <= s.len(),
        all_digits(s@.subrange(from as int, to as int)),
    ensures
        0 <= e <= EXP_SATURATION,
        e == digits_value(s@.subrange(from as int, to as int)) || (e == EXP_SATURATION
            && digits_value(s@.subrange(from as int, to as int)) >= EXP_SATURATION),
{
    let mut acc: i128 = 0;
    let mut i = from;
    let ghost d = s@.subrange(from as int, to as int);
    while i < to
        invariant
            from <= i <= to <= s.len(),
            d == s@.subrange(from as int, to as int),
            all_digits(d),
            0 <= acc <= EXP_SATURATION,
            acc == digits_value(d.take(i - from)) || (acc == EXP_SATURATION && digits_value(
                d.take(i - from),
            ) >= EXP_SATURATION),
        decreases to - i,
    {
        let c = s[i];
        assert(c == d[i - from]);
        assert(is_digit(c));
        let dv: u32 = c as u32 - '0' as u32;
        let ghost next = d.take(i + 1 - from);
        assert(next.drop_last() =~= d.take(i - from));
        assert(next.last() == c);
        assert(digits_value(next) == digits_value(d.take(i - from)) * 10 + dv);
        if acc >= EXP_SATURATION {
            acc = EXP_SATURATION;
        } else {
            acc = acc * 10 + dv as i128;
            if acc > EXP_SATURATION {
                acc = EXP_SATURATION;
            }
        }
        i += 1;
    }
    assert(d.take(to - from) =~= d);
    acc
}

/// Exponent values from this size on all clamp alike.
pub const EXP_SATURATION: i128 = 0x1_0000_0000_0000_0000_0000;

fn clamp_i128(e: i128) -> (r: i64)
    ensures
        r == clamp_exp(e as int),
{
    if e > EXP_LIMIT as i128 {
        EXP_LIMIT
    } else if e < -(EXP_LIMIT as i128) {
        -EXP_LIMIT
    } else {
        e as i64
    }
}

/// The exponent part `[(e|E) [sign] digits]` at the front of `r`, if well formed.
pub open spec fn exponent_part(r: Seq<char>) -> Option<int> {
    if r.len() == 0 {
        Some(0)
    } else if r[0] == 'e' || r[0] == 'E' {
        let (eneg, c) = split_sign(r.drop_first());
        if c.len() > 0 && all_digits(c) {
            Some(
                if eneg {
                    -(digits_value(c) as int)
                } else {
                    digits_value(c) as int
                },
            )
        } else {
            None
        }
    } else {
        None
    }
}

proof fn lemma_decimal_parts_split(t: Seq<char>)
    ensures
        decimal_parts(t) == ({
            let a = lead_digits(t);
            let ip = t.take(a as int);
            let r1 = t.skip(a as int);
            let has_dot = r1.len() > 0 && r1[0] == '.';
            let after_dot = if has_dot {
                r1.drop_first()
            } else {
                r1
            };
            let b = if has_dot {
                lead_digits(after_dot)
            } else {
                0
            };
            let fp = after_dot.take(b as int);
            let r2 = after_dot.skip(b as int);
            if ip.len() + fp.len() == 0 {
                None
            } else {
                match exponent_part(r2) {
                    Some(ev) => Some((ip + fp, ev - fp.len())),
                    None => None,
                }
            }
        }),
{
}

/// Reads the exponent part that starts at `s[from]`; saturated values stand
/// for everything at or beyond the saturation point.
fn scan_exponent(s: &[char], from: usize) -> (r: Option<i128>)
    requires
        from <= s.len(),
    ensures
        r is Some <==> exponent_part(s@.skip(from as int)) is Some,
        r matches Some(e) ==> -EXP_SATURATION <= e <= EXP_SATURATION,
        r matches Some(e) ==> {
            let x = exponent_part(s@.skip(from as int)).unwrap();
            e == x || (e == EXP_SATURATION && x >= EXP_SATURATION) || (e == -EXP_SATURATION && x
                <= -EXP_SATURATION)
        },
{
    let ghost r = s@.skip(from as int);
    if from == s.len() {
        return Some(0);
    }
    assert(r[0] == s@[from as int]);
    if s[from] != 'e' && s[from] != 'E' {
        return None;
    }
    let mut k = from + 1;
    let mut eneg = false;
    if k < s.len() && (s[k] == '+' || s[k] == '-') {
        eneg = s[k] == '-';
        k += 1;
    }
    let ghost c = s@.skip(k as int);
    proof {
        let rest = r.drop_first();
        assert(rest =~= s@.skip(from + 1));
        if k == from + 2 {
            assert(rest[0] == s@[from + 1]);
            assert(c =~= rest.drop_first());
        } else {
            assert(c =~= rest);
        }
        assert(split_sign(rest) == (eneg, c));
    }
    if k == s.len() {
        assert(c.len() == 0);
        return None;
    }
    let mut m = k;
    while m < s.len()
        invariant
            k <= m <= s.len(),
            c == s@.skip(k as int),
            r == s@.skip(from as int),
            r.len() > 0,
            r[0] == 'e' || r[0] == 'E',
            split_sign(r.drop_first()) == (eneg, c),
            forall|j: int| k <= j < m ==> is_digit(s@[j]),
        decreases s.len() - m,
    {
        if !is_ascii_digit(s[m]) {
            assert(c[m - k] == s@[m as int]);
            assert(!is_digit(c[m - k]));
            assert(!all_digits(c));
            return None;
        }
        m += 1;
    }
    assert(s@.subrange(k as int, s.len() as int) =~= c);
    assert(all_digits(c)) by {
        assert forall|j: int| 0 <= j < c.len() implies is_digit(c[j]) by {
            assert(c[j] == s@[j + k]);
        }
    }
    let ev = exponent_of(s, k, s.len());
    if eneg {
        Some(-ev)
    } else {
        Some(ev)
    }
}

/// Where the integer digits end, where the fraction digits start and end.
fn scan_mantissa(s: &[char], i: usize) -> (r: (usize, usize, usize))
    requires
        i <= s.len(),
    ensures
        ({
            let (a, fs, fe) = r;
            let t = s@.skip(i as int);
            let la = lead_digits(t);
            let r1 = t.skip(la as int);
            let has_dot = r1.len() > 0 && r1[0] == '.';
            let after_dot = if has_dot {
                r1.drop_first()
            } else {
                r1
            };
            let b = if has_dot {
                lead_digits(after_dot)
            } else {
                0
            };
            &&& i <= a <= fs <= fe <= s.len()
            &&& a == i + la
            &&& t.take(la as int) == s@.subrange(i as int, a as int)
            &&& after_dot.take(b as int) == s@.subrange(fs as int, fe as int)
            &&& after_dot.skip(b as int) == s@.skip(fe as int)
            &&& all_digits(s@.subrange(i as int, a as int))
            &&& all_digits(s@.subrange(fs as int, fe as int))
        }),
{
    let ghost t = s@.skip(i as int);
    let a = lead_digits_at(s, i);
    let ghost r1 = t.skip(a - i);
    assert(r1 =~= s@.skip(a as int));
    assert(t.take(a - i) =~= s@.subrange(i as int, a as int));
    let has_dot = a < s.len() && s[a] == '.';
    proof {
        if a < s.len() {
            assert(r1[0] == s@[a as int]);
        }
    }
    let fs: usize = if has_dot {
        a + 1
    } else {
        a
    };
    let fe: usize = lead_digits_at(s, fs);
    proof {
        let after_dot = if has_dot {
            r1.drop_first()
        } else {
            r1
        };
        assert(after_dot =~= s@.skip(fs as int));
        let b = if has_dot {
            lead_digits(after_dot)
        } else {
            0
        };
        lemma_lead_digits(t);
        lemma_lead_digits(after_dot);
        if !has_dot {
            if a < s.len() {
                assert(!is_digit(t[a - i]));
                assert(after_dot[0] == t[a - i]);
            }
            lemma_lead_digits_run(after_dot, 0);
        }
        assert(fe == fs + b);
        assert(after_dot.take(b as int) =~= s@.subrange(fs as int, fe as int));
        assert(after_dot.skip(b as int) =~= s@.skip(fe as int));
        assert forall|m: int| 0 <= m < a - i implies is_digit(s@.subrange(i as int, a as int)[m]) by {
            assert(s@.subrange(i as int, a as int)[m] == t[m]);
        }
        assert forall|m: int| 0 <= m < fe - fs implies is_digit(
            s@.subrange(fs as int, fe as int)[m],
        ) by {
            assert(s@.subrange(fs as int, fe as int)[m] == after_dot[m]);
        }
    }
    (a, fs, fe)
}

/// `v[a..b] ++ v[c..d]`.
fn concat_ranges(v: &[char], a: usize, b: usize, c: usize, d: usize) -> (out: Vec<char>)
    requires
        a <= b <= v.len(),
        c <= d <= v.len(),
    ensures
        out@ == v@.subrange(a as int, b as int) + v@.subrange(c as int, d as int),
{
    let mut out = slice_vec(v, a, b);
    let ghost first = out@;
    let mut m = c;
    while m < d
        invariant
            c <= m <= d <= v.len(),
            out@ == first + v@.subrange(c as int, m as int),
        decreases d - m,
    {
        out.push(v[m]);
        assert(out@ =~= first + v@.subrange(c as int, m + 1));
        m += 1;
    }
    out
}

/// Reads `s` as `f64::from_str` would, scaled by `10^scale`, exactly.
pub fn decode(s: &[char], scale: i32) -> (r: Option<Number>)
    ensures
        r is Some <==> literal_ext(s@) is Some,
        r matches Some(n) ==> n.wf() && n.ext() == scale_ext(literal_ext(s@).unwrap(), scale as int),
{
    let mut i: usize = 0;
    let mut neg = false;
    if s.len() > 0 && (s[0] == '+' || s[0] == '-') {
        neg = s[0] == '-';
        i = 1;
    }
    let ghost t = s@.skip(i as int);
    proof {
        if i == 1 {
            assert(t =~= s@.drop_first());
        } else {
            assert(t =~= s@);
        }
        assert(split_sign(s@) == (neg, t));
    }
    let w = lowercase(&slice_vec(s, i, s.len()));
    assert(s@.subrange(i as int, s.len() as int) =~= t);
    if chars_eq(&w, &['i', 'n', 'f']) || chars_eq(&w, &['i', 'n', 'f', 'i', 'n', 'i', 't', 'y']) {
        return Some(Number::Inf { negative: neg });
    }
    if chars_eq(&w, &['n', 'a', 'n']) {
        return Some(Number::NaN);
    }
    let (a, fs, fe) = scan_mantissa(s, i);
    proof {
        lemma_decimal_parts_split(t);
    }
    if a == i && fe == fs {
        return None;
    }
    let e = match scan_exponent(s, fe) {
        Some(e) => e,
        None => {
            return None;
        },
    };
    let frac_len: usize = fe - fs;
    let total: i128 = e - frac_len as i128 + scale as i128;
    let exp = clamp_i128(total);
    let digits = concat_ranges(s, i, a, fs, fe);
    let ghost ip = s@.subrange(i as int, a as int);
    let ghost fp = s@.subrange(fs as int, fe as int);
    assert(digits@.subrange(0, digits.len() as int) =~= ip + fp);
    assert(all_digits(ip + fp)) by {
        assert forall|m: int| 0 <= m < (ip + fp).len() implies is_digit((ip + fp)[m]) by {
            if m < ip.len() {
                assert((ip + fp)[m] == ip[m]);
            } else {
                assert((ip + fp)[m] == fp[m - ip.len()]);
            }
        }
    }
    let mag = magnitude_of(&digits, 0, digits.len());
    proof {
        let x = exponent_part(s@.skip(fe as int)).unwrap();
        let ee = x - fp.len();
        assert(decimal_parts(t) == Some((ip + fp, ee)));
        assert(clamp_exp(ee + scale) == exp as int);
    }
    Some(Number::Finite { negative: neg, mag, exp })
}

// ─── Order and sums on the extended line ────────────────────────────────────

pub open spec fn min_int(a: int, b: int) -> int {
    if a <= b {
        a
    } else {
        b
    }
}

/// `m * 10^e` written over the finer grid `10^b` (`b <= e`).
pub open spec fn on_grid(m: int, e: int, b: int) -> int {
    m * p10((e - b) as nat)
}

/// `x < y` as IEEE comparison decides it: false whenever a NaN is involved.
pub open spec fn ext_lt(x: Ext, y: Ext) -> bool {
    match (x, y) {
        (Ext::NaN, _) => false,
        (_, Ext::NaN) => false,
        (Ext::Inf(nx), Ext::Inf(ny)) => nx && !ny,
        (Ext::Inf(nx), Ext::Fin(_, _)) => nx,
        (Ext::Fin(_, _), Ext::Inf(ny)) => !ny,
        (Ext::Fin(m1, e1), Ext::Fin(m2, e2)) => {
            let b = min_int(e1, e2);
            on_grid(m1, e1, b) < on_grid(m2, e2, b)
        },
    }
}

/// `x + y`, exactly; opposite infinities give NaN.
pub open spec fn ext_add(x: Ext, y: Ext) -> Ext {
    match (x, y) {
        (Ext::NaN, _) => Ext::NaN,
        (_, Ext::NaN) => Ext::NaN,
        (Ext::Inf(nx), Ext::Inf(ny)) => if nx == ny {
            Ext::Inf(nx)
        } else {
            Ext::NaN
        },
        (Ext::Inf(nx), Ext::Fin(_, _)) => Ext::Inf(nx),
        (Ext::Fin(_, _), Ext::Inf(ny)) => Ext::Inf(ny),
        (Ext::Fin(m1, e1), Ext::Fin(m2, e2)) => {
            let b = min_int(e1, e2);
            Ext::Fin(on_grid(m1, e1, b) + on_grid(m2, e2, b), b)
        },
    }
}

/// `x < 0.0`.
pub open spec fn ext_lt_zero(x: Ext) -> bool {
    match x {
        Ext::NaN => false,
        Ext::Inf(n) => n,
        Ext::Fin(m, _) => m < 0,
    }
}

/// `x <= 0.0`.
pub open spec fn ext_le_zero(x: Ext) -> bool {
    match x {
        Ext::NaN => false,
        Ext::Inf(n) => n,
        Ext::Fin(m, _) => m <= 0,
    }
}

/// `x > 0.0`.
pub open spec fn ext_gt_zero(x: Ext) -> bool {
    match x {
        Ext::NaN => false,
        Ext::Inf(n) => !n,
        Ext::Fin(m, _) => m > 0,
    }
}

proof fn lemma_normal_zero(mag: Seq<u8>)
    requires
        is_normal(mag),
    ensures
        (val(mag) == 0) == (mag.len() == 0),
{
    lemma_val_bound(mag);
    if mag.len() > 0 {
        lemma_p10_pos((mag.len() - 1) as nat);
    }
}

impl Number {
    pub fn lt_zero(&self) -> (r: bool)
        requires
            self.wf(),
        ensures
            r == ext_lt_zero(self.ext()),
    {
        match self {
            Number::NaN => false,
            Number::Inf { negative } => *negative,
            Number::Finite { negative, mag, .. } => {
                proof {
                    lemma_normal_zero(mag@);
                }
                *negative && mag.len() > 0
            },
        }
    }

    pub fn le_zero(&self) -> (r: bool)
        requires
            self.wf(),
        ensures
            r == ext_le_zero(self.ext()),
    {
        match self {
            Number::NaN => false,
            Number::Inf { negative } => *negative,
            Number::Finite { negative, mag, .. } => {
                proof {
                    lemma_normal_zero(mag@);
                }
                *negative || mag.len() == 0
            },
        }
    }

    pub fn gt_zero(&self) -> (r: bool)
        requires
            self.wf(),
        ensures
            r == ext_gt_zero(self.ext()),
    {
        match self {
            Number::NaN => false,
            Number::Inf { negative } => !*negative,
            Number::Finite { negative, mag, .. } => {
                proof {
                    lemma_normal_zero(mag@);
                }
                !*negative && mag.len() > 0
            },
        }
    }
}

proof fn lemma_on_grid_refine(m: int, e: int, b: int, b2: int)
    requires
        b2 <= b <= e,
    ensures
        on_grid(m, e, b2) == on_grid(m, e, b) * p10((b - b2) as nat),
{
    lemma_p10_add((e - b) as nat, (b - b2) as nat);
    assert(((e - b) as nat + (b - b2) as nat) as nat == (e - b2) as nat);
    assert(m * (p10((e - b) as nat) * p10((b - b2) as nat)) == (m * p10((e - b) as nat)) * p10(
        (b - b2) as nat,
    )) by (nonlinear_arith);
}

proof fn lemma_pos_times_pos(a: int, b: int)
    requires
        a > 0,
        b > 0,
    ensures
        a * b > 0,
{
    assert(a * b > 0) by (nonlinear_arith)
        requires
            a > 0,
            b > 0,
    ;
}

/// Shift of exponent `e` above the grid `b`, for the digit machinery.
fn grid_shift(e: i64, b: i64) -> (s: u128)
    requires
        -EXP_LIMIT <= b <= e <= EXP_LIMIT,
    ensures
        s == e - b,
        s < 0x1_0000_0000_0000_0000,
{
    (e as i128 - b as i128) as u128
}

/// `x < y` on exact numbers.
pub fn num_lt(x: &Number, y: &Number) -> (r: bool)
    requires
        x.wf(),
        y.wf(),
    ensures
        r == ext_lt(x.ext(), y.ext()),
{
    match (x, y) {
        (Number::NaN, _) => false,
        (_, Number::NaN) => false,
        (Number::Inf { negative: nx }, Number::Inf { negative: ny }) => *nx && !*ny,
        (Number::Inf { negative: nx }, Number::Finite { .. }) => *nx,
        (Number::Finite { .. }, Number::Inf { negative: ny }) => !*ny,
        (
            Number::Finite { negative: nx, mag: mx, exp: ex },
            Number::Finite { negative: ny, mag: my, exp: ey },
        ) => {
            let b: i64 = if *ex <= *ey {
                *ex
            } else {
                *ey
            };
            let sx = grid_shift(*ex, b);
            let sy = grid_shift(*ey, b);
            let empty: Vec<u8> = Vec::new();
            let xneg = *nx && mx.len() > 0;
            let yneg = *ny && my.len() > 0;
            proof {
                lemma_normal_zero(mx@);
                lemma_normal_zero(my@);
                lemma_p10_pos(sx as nat);
                lemma_p10_pos(sy as nat);
                assert(val(empty@) == 0);
                assert(0 * p10(0) == 0);
                if mx.len() > 0 {
                    lemma_pos_times_pos(val(mx@) as int, p10(sx as nat) as int);
                }
                if my.len() > 0 {
                    lemma_pos_times_pos(val(my@) as int, p10(sy as nat) as int);
                }
                assert(val(mx@) * p10(sx as nat) >= 0) by (nonlinear_arith);
                assert(val(my@) * p10(sy as nat) >= 0) by (nonlinear_arith);
                assert(((*ex - b) as nat) == sx as nat);
                let vv = val(mx@) as int;
                let pp = p10(sx as nat) as int;
                assert(on_grid(-vv, *ex as int, b as int) == (-vv) * pp);
                assert((-vv) * pp == -(vv * pp)) by (nonlinear_arith);
                assert(on_grid(vv, *ex as int, b as int) == vv * pp);
                assert(((*ey - b) as nat) == sy as nat);
                let vv = val(my@) as int;
                let pp = p10(sy as nat) as int;
                assert(on_grid(-vv, *ey as int, b as int) == (-vv) * pp);
                assert((-vv) * pp == -(vv * pp)) by (nonlinear_arith);
                assert(on_grid(vv, *ey as int, b as int) == vv * pp);
            }
            if xneg && !yneg {
                true
            } else if !xneg && yneg {
                false
            } else if !xneg {
                sum_exceeds(my, sy, &empty, 0, &empty, 0, mx, sx)
            } else {
                sum_exceeds(mx, sx, &empty, 0, &empty, 0, my, sy)
            }
        },
    }
}

/// The signed mantissa of a finite number that is not below zero.
proof fn lemma_nonneg_mantissa(n: &Number)
    requires
        n.wf(),
        n is Finite,
        !ext_lt_zero(n.ext()),
    ensures
        n.ext() == Ext::Fin(val(n->mag@) as int, n->exp as int),
{
    lemma_normal_zero(n->mag@);
}

proof fn lemma_distribute(x: int, y: int, p: nat)
    ensures
        (x + y) * p == x * p + y * p,
{
    assert((x + y) * p == x * p + y * p) by (nonlinear_arith);
}

/// `per > 0.0 && per < tr + pw + tf` (sum taken left to right), for terms
/// none of which is below zero.
pub fn period_too_short(per: &Number, tr: &Number, pw: &Number, tf: &Number) -> (r: bool)
    requires
        per.wf(),
        tr.wf(),
        pw.wf(),
        tf.wf(),
        !ext_lt_zero(tr.ext()),
        !ext_lt_zero(pw.ext()),
        !ext_lt_zero(tf.ext()),
    ensures
        r == (ext_gt_zero(per.ext()) && ext_lt(
            per.ext(),
            ext_add(ext_add(tr.ext(), pw.ext()), tf.ext()),
        )),
{
    if !per.gt_zero() {
        return false;
    }
    if matches!(tr, Number::NaN) || matches!(pw, Number::NaN) || matches!(tf, Number::NaN) {
        return false;
    }
    if matches!(tr, Number::Inf { .. }) || matches!(pw, Number::Inf { .. }) || matches!(
        tf,
        Number::Inf { .. }
    ) {
        return matches!(per, Number::Finite { .. });
    }
    match (per, tr, pw, tf) {
        (
            Number::Finite { mag: mp, exp: ep, .. },
            Number::Finite { mag: ma, exp: ea, .. },
            Number::Finite { mag: mb, exp: eb, .. },
            Number::Finite { mag: mc, exp: ec, .. },
        ) => {
            let mut base: i64 = *ep;
            if *ea < base {
                base = *ea;
            }
            if *eb < base {
                base = *eb;
            }
            if *ec < base {
                base = *ec;
            }
            let sp = grid_shift(*ep, base);
            let sa = grid_shift(*ea, base);
            let sb = grid_shift(*eb, base);
            let sc = grid_shift(*ec, base);
            proof {
                lemma_nonneg_mantissa(per);
                lemma_nonneg_mantissa(tr);
                lemma_nonneg_mantissa(pw);
                lemma_nonneg_mantissa(tf);
                let (va, vb, vc, vp) = (
                    val(ma@) as int,
                    val(mb@) as int,
                    val(mc@) as int,
                    val(mp@) as int,
                );
                let (ia, ib, ic, ip) = (*ea as int, *eb as int, *ec as int, *ep as int);
                let b1 = min_int(ia, ib);
                let b2 = min_int(b1, ic);
                let bb = base as int;
                assert(min_int(ip, b2) == bb);
                let sum1 = on_grid(va, ia, b1) + on_grid(vb, ib, b1);
                let sum2 = on_grid(sum1, b1, b2) + on_grid(vc, ic, b2);
                lemma_on_grid_refine(va, ia, b1, b2);
                lemma_on_grid_refine(vb, ib, b1, b2);
                lemma_distribute(on_grid(va, ia, b1), on_grid(vb, ib, b1), p10((b1 - b2) as nat));
                assert(on_grid(sum1, b1, b2) == on_grid(va, ia, b2) + on_grid(vb, ib, b2));
                lemma_on_grid_refine(va, ia, b2, bb);
                lemma_on_grid_refine(vb, ib, b2, bb);
                lemma_on_grid_refine(vc, ic, b2, bb);
                lemma_distribute(on_grid(va, ia, b2), on_grid(vb, ib, b2), p10((b2 - bb) as nat));
                lemma_distribute(
                    on_grid(va, ia, b2) + on_grid(vb, ib, b2),
                    on_grid(vc, ic, b2),
                    p10((b2 - bb) as nat),
                );
                assert(on_grid(sum2, b2, bb) == on_grid(va, ia, bb) + on_grid(vb, ib, bb) + on_grid(
                    vc,
                    ic,
                    bb,
                ));
                assert(((ia - bb) as nat) == sa as nat);
                assert(((ib - bb) as nat) == sb as nat);
                assert(((ic - bb) as nat) == sc as nat);
                assert(((ip - bb) as nat) == sp as nat);
            }
            sum_exceeds(ma, sa, mb, sb, mc, sc, mp, sp)
        },
        _ => false,
    }
}

// ─── Values ──────────────────────────────────────────────────────────────────

/// A numeric literal as written in a netlist: the part a float parser reads,
/// and the power of ten of its SI suffix (0 when there is none).
#[derive(Debug)]
pub struct Value {
    pub literal: String,
    pub scale: i32,
}

pub struct ValueView {
    pub literal: Seq<char>,
    pub scale: i32,
}

impl View for Value {
    type V = ValueView;

    open spec fn view(&self) -> ValueView {
        ValueView { literal: self.literal@, scale: self.scale }
    }
}

/// The number a value stands for; a literal a float parser rejects stands
/// for NaN.
pub open spec fn value_ext(v: ValueView) -> Ext {
    match literal_ext(v.literal) {
        Some(x) => scale_ext(x, v.scale as int),
        None => Ext::NaN,
    }
}

impl Value {
    /// The literal `lit` with no suffix.
    pub fn plain(lit: &str) -> (v: Value)
        ensures
            v@ == (ValueView { literal: lit@, scale: 0 }),
    {
        Value { literal: String::from_str(lit), scale: 0 }
    }

    pub fn copy(&self) -> (v: Value)
        ensures
            v@ == self@,
    {
        Value { literal: self.literal.clone(), scale: self.scale }
    }

    /// The exact number this value stands for.
    pub fn number(&self) -> (n: Number)
        ensures
            n.wf(),
            n.ext() == value_ext(self@),
    {
        let chars = chars_of(self.literal.as_str());
        match decode(&chars, self.scale) {
            Some(n) => n,
            None => Number::NaN,
        }
    }
}

/// Power of ten of an SI suffix letter (either case).
pub open spec fn suffix_scale(c: char) -> Option<i32> {
    let l = lower(c);
    if l == 'f' {
        Some(-15i32)
    } else if l == 'p' {
        Some(-12i32)
    } else if l == 'n' {
        Some(-9i32)
    } else if l == 'u' {
        Some(-6i32)
    } else if l == 'm' {
        Some(-3i32)
    } else if l == 'k' {
        Some(3i32)
    } else if l == 'g' {
        Some(9i32)
    } else if l == 't' {
        Some(12i32)
    } else {
        None
    }
}

pub open spec fn unknown_suffix_text(c: char) -> Seq<char> {
    "unknown suffix '"@ + seq![c] + "'"@
}

pub open spec fn invalid_number_text(t: Seq<char>) -> Seq<char> {
    "invalid number '"@ + t + "'"@
}

/// The power of ten that an SI suffix stands for.
pub fn suffix_multiplier(suffix: char) -> (r: Result<i32, String>)
    ensures
        match suffix_scale(suffix) {
            Some(k) => r == Ok::<i32, String>(k),
            None => r matches Err(m) && m@ == unknown_suffix_text(suffix),
        },
{
    let l = to_lower(suffix);
    if l == 'f' {
        Ok(-15)
    } else if l == 'p' {
        Ok(-12)
    } else if l == 'n' {
        Ok(-9)
    } else if l == 'u' {
        Ok(-6)
    } else if l == 'm' {
        Ok(-3)
    } else if l == 'k' {
        Ok(3)
    } else if l == 'g' {
        Ok(9)
    } else if l == 't' {
        Ok(12)
    } else {
        let mut m = String::from_str("unknown suffix '");
        m.push(suffix);
        m.append("'");
        assert(m@ =~= unknown_suffix_text(suffix));
        Err(m)
    }
}

/// What `parse_value` makes of a token.
pub open spec fn parse_value_spec(token: Seq<char>) -> Result<ValueView, Seq<char>> {
    let t = trim(token);
    if t.len() == 0 {
        Err("empty value"@)
    } else if is_alpha(t.last()) {
        match suffix_scale(t.last()) {
            None => Err(unknown_suffix_text(t.last())),
            Some(k) => if literal_ext(t.drop_last()) is Some {
                Ok(ValueView { literal: t.drop_last(), scale: k })
            } else {
                Err(invalid_number_text(t))
            },
        }
    } else if literal_ext(t) is Some {
        Ok(ValueView { literal: t, scale: 0 })
    } else {
        Err(invalid_number_text(t))
    }
}

/// Whether a parse result agrees with its specification.
pub open spec fn value_result_is(r: Result<Value, String>, s: Result<ValueView, Seq<char>>) -> bool {
    match (r, s) {
        (Ok(v), Ok(w)) => v@ == w,
        (Err(m), Err(n)) => m@ == n,
        _ => false,
    }
}

/// Parses a SPICE numeric literal with an optional SI suffix.
pub fn parse_value(token: &str) -> (r: Result<Value, String>)
    ensures
        value_result_is(r, parse_value_spec(token@)),
{
    let chars = chars_of(token);
    parse_value_chars(&chars)
}

pub fn parse_value_chars(token: &[char]) -> (r: Result<Value, String>)
    ensures
        value_result_is(r, parse_value_spec(token@)),
{
    let t = trim_chars(token);
    if t.len() == 0 {
        return Err(String::from_str("empty value"));
    }
    let last = t[t.len() - 1];
    let (num_len, scale): (usize, i32) = if is_ascii_alphabetic(last) {
        match suffix_multiplier(last) {
            Ok(k) => (t.len() - 1, k),
            Err(m) => {
                return Err(m);
            },
        }
    } else {
        (t.len(), 0)
    };
    let num = slice_vec(&t, 0, num_len);
    proof {
        if num_len < t.len() {
            assert(num@ =~= t@.drop_last());
        } else {
            assert(num@ =~= t@);
        }
    }
    match decode(&num, scale) {
        Some(_) => Ok(Value { literal: string_of(&num), scale }),
        None => {
            let mut m = String::from_str("invalid number '");
            m.append(string_of(&t).as_str());
            m.append("'");
            Err(m)
        },
    }
}

} // verus!
