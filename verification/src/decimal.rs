//! Exact arithmetic on decimal magnitudes: little-endian digit vectors
//! (index 0 holds the units digit).
use vstd::prelude::*;

verus! {

pub open spec fn p10(n: nat) -> nat
    decreases n,
{
    if n == 0 {
        1
    } else {
        10 * p10((n - 1) as nat)
    }
}

/// The value of little-endian decimal digits.
pub open spec fn val(s: Seq<u8>) -> nat
    decreases s.len(),
{
    if s.len() == 0 {
        0
    } else {
        val(s.drop_last()) + (s.last() as nat) * p10((s.len() - 1) as nat)
    }
}

pub open spec fn is_digits(s: Seq<u8>) -> bool {
    forall|i: int| 0 <= i < s.len() ==> s[i] < 10
}

/// Digits with no zero at the most significant end.
pub open spec fn is_normal(s: Seq<u8>) -> bool {
    is_digits(s) && (s.len() == 0 || s.last() != 0)
}

pub proof fn lemma_p10_pos(n: nat)
    ensures
        p10(n) >= 1,
    decreases n,
{
    if n > 0 {
        lemma_p10_pos((n - 1) as nat);
    }
}

pub proof fn lemma_p10_add(a: nat, b: nat)
    ensures
        p10(a + b) == p10(a) * p10(b),
    decreases a,
{
    if a > 0 {
        lemma_p10_add((a - 1) as nat, b);
        assert(p10(a + b) == 10 * p10((a - 1 + b) as nat));
        assert(p10(a + b) == p10(a) * p10(b)) by (nonlinear_arith)
            requires
                p10(a) == 10 * p10((a - 1) as nat),
                p10(a + b) == 10 * p10((a - 1 + b) as nat),
                p10((a - 1 + b) as nat) == p10((a - 1) as nat) * p10(b),
        ;
    } else {
        assert(p10(a) == 1);
        assert(a + b == b);
    }
}

pub proof fn lemma_p10_mono(a: nat, b: nat)
    requires
        a <= b,
    ensures
        p10(a) <= p10(b),
    decreases b,
{
    if a < b {
        lemma_p10_mono(a, (b - 1) as nat);
        lemma_p10_pos((b - 1) as nat);
    }
}

pub proof fn lemma_val_bound(s: Seq<u8>)
    requires
        is_digits(s),
    ensures
        val(s) < p10(s.len()),
        s.len() > 0 && s.last() != 0 ==> val(s) >= p10((s.len() - 1) as nat),
    decreases s.len(),
{
    if s.len() > 0 {
        let n = (s.len() - 1) as nat;
        lemma_val_bound(s.drop_last());
        assert(val(s.drop_last()) + (s.last() as nat) * p10(n) < p10(s.len())) by (nonlinear_arith)
            requires
                val(s.drop_last()) < p10(n),
                s.last() < 10,
                p10(s.len()) == 10 * p10(n),
        ;
        lemma_p10_pos(n);
        if s.last() != 0 {
            assert((s.last() as nat) * p10(n) >= p10(n)) by (nonlinear_arith)
                requires
                    s.last() >= 1,
            ;
        }
    }
}

/// Splitting a digit string at `k`.
pub proof fn lemma_val_split(s: Seq<u8>, k: int)
    requires
        0 <= k <= s.len(),
    ensures
        val(s) == val(s.take(k)) + val(s.skip(k)) * p10(k as nat),
    decreases s.len(),
{
    if k == s.len() {
        assert(s.take(k) =~= s);
        assert(s.skip(k) =~= Seq::<u8>::empty());
        assert(val(s.skip(k)) == 0);
    } else {
        let n = (s.len() - 1) as nat;
        lemma_val_split(s.drop_last(), k);
        assert(s.drop_last().take(k) =~= s.take(k));
        let hi = s.skip(k);
        assert(hi.drop_last() =~= s.drop_last().skip(k));
        assert(hi.last() == s.last());
        lemma_p10_add((n - k) as nat, k as nat);
        assert(val(hi) == val(hi.drop_last()) + (s.last() as nat) * p10((n - k) as nat));
        assert(val(s) == val(s.drop_last()) + (s.last() as nat) * p10(n));
        assert(val(hi) * p10(k as nat) == val(hi.drop_last()) * p10(k as nat) + (s.last() as nat)
            * p10(n)) by (nonlinear_arith)
            requires
                val(hi) == val(hi.drop_last()) + (s.last() as nat) * p10((n - k) as nat),
                p10(n) == p10((n - k) as nat) * p10(k as nat),
        ;
    }
}

pub open spec fn zeros(n: nat) -> Seq<u8> {
    Seq::new(n, |i: int| 0u8)
}

pub proof fn lemma_val_zeros(n: nat)
    ensures
        val(zeros(n)) == 0,
    decreases n,
{
    if n > 0 {
        assert(zeros(n).drop_last() =~= zeros((n - 1) as nat));
        lemma_val_zeros((n - 1) as nat);
    }
}

/// `mag` shifted up by `shift` places and padded with zeros to `len` digits.
pub open spec fn placed(mag: Seq<u8>, shift: nat, len: nat) -> Seq<u8> {
    Seq::new(
        len,
        |j: int|
            if shift <= j < shift + mag.len() {
                mag[j - shift]
            } else {
                0u8
            },
    )
}

pub proof fn lemma_val_placed(mag: Seq<u8>, shift: nat, len: nat)
    requires
        shift + mag.len() <= len,
    ensures
        val(placed(mag, shift, len)) == val(mag) * p10(shift),
{
    let s = placed(mag, shift, len);
    lemma_val_split(s, shift as int);
    assert(s.take(shift as int) =~= zeros(shift));
    lemma_val_zeros(shift);
    let hi = s.skip(shift as int);
    lemma_val_split(hi, mag.len() as int);
    assert(hi.take(mag.len() as int) =~= mag);
    assert(hi.skip(mag.len() as int) =~= zeros((len - shift - mag.len()) as nat));
    lemma_val_zeros((len - shift - mag.len()) as nat);
}

/// The digit that `mag * 10^shift` has at place `j`.
fn digit_at(mag: &Vec<u8>, shift: u128, j: u128) -> (d: u8)
    requires
        is_digits(mag@),
    ensures
        d < 10,
        d == (if shift <= j < shift + mag.len() {
            mag@[j - shift]
        } else {
            0u8
        }),
{
    if shift <= j && j - shift < mag.len() as u128 {
        mag[(j - shift) as usize]
    } else {
        0
    }
}

/// Whether `a + b + c > d`, each magnitude `m` standing for `m * 10^shift`.
///
/// The digits of the sum minus `d` are formed from the lowest place up, so
/// nothing longer than the inputs is ever built.
pub fn sum_exceeds(
    a: &Vec<u8>,
    sa: u128,
    b: &Vec<u8>,
    sb: u128,
    c: &Vec<u8>,
    sc: u128,
    d: &Vec<u8>,
    sd: u128,
) -> (r: bool)
    requires
        is_digits(a@),
        is_digits(b@),
        is_digits(c@),
        is_digits(d@),
        sa < 0x1_0000_0000_0000_0000,
        sb < 0x1_0000_0000_0000_0000,
        sc < 0x1_0000_0000_0000_0000,
        sd < 0x1_0000_0000_0000_0000,
    ensures
        r == (val(a@) * p10(sa as nat) + val(b@) * p10(sb as nat) + val(c@) * p10(sc as nat) > val(
            d@,
        ) * p10(sd as nat)),
{
    let la: u128 = sa + a.len() as u128;
    let lb: u128 = sb + b.len() as u128;
    let lc: u128 = sc + c.len() as u128;
    let ld: u128 = sd + d.len() as u128;
    let mut n: u128 = la;
    if lb > n {
        n = lb;
    }
    if lc > n {
        n = lc;
    }
    if ld > n {
        n = ld;
    }
    let ghost ga = placed(a@, sa as nat, n as nat);
    let ghost gb = placed(b@, sb as nat, n as nat);
    let ghost gc = placed(c@, sc as nat, n as nat);
    let ghost gd = placed(d@, sd as nat, n as nat);
    let ghost mut digits: Seq<u8> = Seq::empty();
    let mut carry: i8 = 0;
    let mut nonzero = false;
    let mut j: u128 = 0;
    while j < n
        invariant
            j <= n,
            is_digits(a@),
            is_digits(b@),
            is_digits(c@),
            is_digits(d@),
            ga == placed(a@, sa as nat, n as nat),
            gb == placed(b@, sb as nat, n as nat),
            gc == placed(c@, sc as nat, n as nat),
            gd == placed(d@, sd as nat, n as nat),
            -1 <= carry <= 2,
            digits.len() == j,
            is_digits(digits),
            nonzero == (val(digits) > 0),
            val(digits) + carry * p10(j as nat) == val(ga.take(j as int)) + val(gb.take(j as int))
                + val(gc.take(j as int)) - val(gd.take(j as int)),
        decreases n - j,
    {
        let da = digit_at(a, sa, j);
        let db = digit_at(b, sb, j);
        let dc = digit_at(c, sc, j);
        let dd = digit_at(d, sd, j);
        let t: i8 = da as i8 + db as i8 + dc as i8 - dd as i8 + carry;
        let q: i8 = if t >= 0 {
            t / 10
        } else {
            -((9 - t) / 10)
        };
        let digit: i8 = t - 10 * q;
        assert(0 <= digit < 10) by (nonlinear_arith)
            requires
                -10 <= t <= 29,
                q == (if t >= 0 {
                    t / 10
                } else {
                    -((9 - t) / 10)
                }),
                digit == t - 10 * q,
        ;
        assert(-1 <= q <= 2) by (nonlinear_arith)
            requires
                -10 <= t <= 29,
                q == (if t >= 0 {
                    t / 10
                } else {
                    -((9 - t) / 10)
                }),
        ;
        let ghost old_digits = digits;
        let ghost old_carry = carry;
        proof {
            let jj = j as int;
            assert(ga[jj] == da);
            assert(gb[jj] == db);
            assert(gc[jj] == dc);
            assert(gd[jj] == dd);
            assert(ga.take(jj + 1).drop_last() =~= ga.take(jj));
            assert(gb.take(jj + 1).drop_last() =~= gb.take(jj));
            assert(gc.take(jj + 1).drop_last() =~= gc.take(jj));
            assert(gd.take(jj + 1).drop_last() =~= gd.take(jj));
            digits = digits.push(digit as u8);
            assert(digits.drop_last() =~= old_digits);
            let p = p10(j as nat);
            assert(p10((j + 1) as nat) == 10 * p);
            assert((digit as int) * p + (q as int) * (10 * p) == ((da as int) + (db as int) + (
            dc as int) - (dd as int) + (old_carry as int)) * p) by (nonlinear_arith)
                requires
                    digit == t - 10 * q,
                    t == da + db + dc - dd + old_carry,
            ;
            assert(((da as int) + (db as int) + (dc as int) - (dd as int) + (old_carry as int))
                * p == (da as int) * p + (db as int) * p + (dc as int) * p - (dd as int) * p
                + (old_carry as int) * p) by (nonlinear_arith);
            lemma_p10_pos(j as nat);
            if digit > 0 {
                assert((digit as nat) * p > 0) by (nonlinear_arith)
                    requires
                        digit > 0,
                        p >= 1,
                ;
            } else {
                assert((digit as nat) * p == 0) by (nonlinear_arith)
                    requires
                        digit == 0,
                ;
            }
            assert(val(digits) == val(old_digits) + (digit as nat) * p);
        }
        nonzero = nonzero || digit > 0;
        carry = q;
        j += 1;
    }
    proof {
        assert(ga.take(n as int) =~= ga);
        assert(gb.take(n as int) =~= gb);
        assert(gc.take(n as int) =~= gc);
        assert(gd.take(n as int) =~= gd);
        lemma_val_placed(a@, sa as nat, n as nat);
        lemma_val_placed(b@, sb as nat, n as nat);
        lemma_val_placed(c@, sc as nat, n as nat);
        lemma_val_placed(d@, sd as nat, n as nat);
        lemma_val_bound(digits);
        lemma_p10_pos(n as nat);
        let p = p10(n as nat);
        if carry >= 1 {
            assert((carry as int) * p >= p) by (nonlinear_arith)
                requires
                    carry >= 1,
                    p >= 1,
            ;
        } else if carry == 0 {
            assert((carry as int) * p == 0);
        } else if carry == -1 {
            assert((carry as int) * p == -p) by (nonlinear_arith)
                requires
                    carry == -1,
            ;
        }
    }
    carry >= 1 || (carry == 0 && nonzero)
}

} // verus!
