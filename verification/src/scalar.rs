//! Fixed-point scalars for offsets, scales, line intervals and canvas sizes.
//!
//! A scalar value `v` is stored as `v * 1_000_000` truncated to an `i64`
//! (six decimal digits of fraction). All arithmetic saturates at the `i64`
//! bounds, and quotients round toward negative infinity.

use crate::text::{
    all_digits, char_of_digit, dec_str, digit_char, digit_of, digit_val, digits_val, find_char,
    find_from, is_digit, lemma_digit_char_val, lemma_digits_val_bounds, lemma_digits_val_push,
    lemma_find_char, lemma_padded_digits, lemma_pow10_adds, lemma_pow10_mono, lemma_pow10_pos,
    padded, padded_chars,
    pow10, string_of_chars, u64_dec_chars,
};
use vstd::prelude::*;

verus! {

/// Scale of the fixed-point representation: one unit is a millionth.
pub const MICROS: i64 = 1_000_000;

/// Largest integer part a scalar can carry without saturating.
pub const INT_CAP: i64 = 9_223_372_036_854;

/// `v` clamped to the `i64` range.
pub open spec fn sat64(v: int) -> int {
    if v > i64::MAX {
        i64::MAX as int
    } else if v < i64::MIN {
        i64::MIN as int
    } else {
        v
    }
}

/// A fixed-point scalar value.
#[derive(Clone, Copy, PartialEq, Eq, Debug, Structural)]
pub struct Scalar {
    pub micros: i64,
}

impl Scalar {
    /// The mathematical value times one million.
    pub open spec fn spec_micros(self) -> int {
        self.micros as int
    }

    pub fn zero() -> (r: Scalar)
        ensures
            r.micros == 0,
    {
        Scalar { micros: 0 }
    }

    pub fn one() -> (r: Scalar)
        ensures
            r.micros == MICROS,
    {
        Scalar { micros: MICROS }
    }

    pub fn from_micros(m: i64) -> (r: Scalar)
        ensures
            r.micros == m,
    {
        Scalar { micros: m }
    }

    /// The larger of the two scalars.
    pub fn max(self, other: Scalar) -> (r: Scalar)
        ensures
            r.micros == if self.micros >= other.micros {
                self.micros
            } else {
                other.micros
            },
    {
        if self.micros >= other.micros {
            self
        } else {
            other
        }
    }

    /// Saturating sum.
    pub fn sat_add(self, other: Scalar) -> (r: Scalar)
        ensures
            r.micros as int == sat64(self.micros + other.micros),
    {
        match self.micros.checked_add(other.micros) {
            Some(v) => Scalar { micros: v },
            None => {
                if self.micros > 0 {
                    Scalar { micros: i64::MAX }
                } else {
                    Scalar { micros: i64::MIN }
                }
            },
        }
    }

    /// Saturating product of two scalars (the result is again in micros).
    pub fn sat_mul(self, other: Scalar) -> (r: Scalar)
        ensures
            r.micros as int == sat64((self.micros * other.micros) / (MICROS as int)),
    {
        proof {
            let a = self.micros as int;
            let b = other.micros as int;
            assert(a * b <= i128::MAX && i128::MIN <= a * b) by (nonlinear_arith)
                requires
                    i64::MIN <= a <= i64::MAX,
                    i64::MIN <= b <= i64::MAX,
            ;
        }
        let wide: i128 = (self.micros as i128) * (other.micros as i128);
        let q: i128 = wide.checked_div_euclid(MICROS as i128).unwrap();
        if q > i64::MAX as i128 {
            Scalar { micros: i64::MAX }
        } else if q < i64::MIN as i128 {
            Scalar { micros: i64::MIN }
        } else {
            Scalar { micros: q as i64 }
        }
    }

    /// Text of the scalar: minus sign for negative values, decimal integer
    /// part, and a fractional part with trailing zeros removed; faithful to
    /// `scalar_text`.
    pub fn to_text(self) -> (r: String)
        ensures
            r@ == scalar_text(self.micros as int),
    {
        let neg = self.micros < 0;
        let mag: u64 = if self.micros < 0 {
            (-(self.micros as i128)) as u64
        } else {
            self.micros as u64
        };
        let ip: u64 = mag / 1_000_000;
        let fr: u64 = mag % 1_000_000;
        let mut chars: Vec<char> = Vec::new();
        if neg {
            chars.push('-');
        }
        let mut d = u64_dec_chars(ip);
        chars.append(&mut d);
        if fr != 0 {
            chars.push('.');
            let mut f = padded_chars(fr, 6);
            let ghost orig = f@;
            while f.len() > 0 && *f.last().unwrap() == '0'
                invariant
                    strip_zeros(f@) == strip_zeros(orig),
                decreases f@.len(),
            {
                f.pop();
            }
            proof {
                assert(strip_zeros(f@) == f@);
            }
            chars.append(&mut f);
        }
        proof {
            let m = self.micros as int;
            let mg = if m < 0 {
                -m
            } else {
                m
            };
            assert(mag == mg);
            assert(ip == mg / 1_000_000 && fr == mg % 1_000_000);
            assert(chars@ =~= scalar_text(m));
        }
        string_of_chars(chars.as_slice())
    }

    /// Saturating product with a plain count (a tree depth).
    pub fn sat_mul_count(self, k: usize) -> (r: Scalar)
        ensures
            r.micros as int == sat64(self.micros * k),
    {
        proof {
            let a = self.micros as int;
            let b = k as int;
            assert(a * b <= i128::MAX && i128::MIN <= a * b) by (nonlinear_arith)
                requires
                    i64::MIN <= a <= i64::MAX,
                    0 <= b <= usize::MAX,
            ;
        }
        let wide: i128 = (self.micros as i128) * (k as i128);
        if wide > i64::MAX as i128 {
            Scalar { micros: i64::MAX }
        } else if wide < i64::MIN as i128 {
            Scalar { micros: i64::MIN }
        } else {
            Scalar { micros: wide as i64 }
        }
    }
}

/// Digits after the point, scaled to millionths: only the first six count.
pub open spec fn frac_scaled(f: Seq<char>) -> int {
    let k = if f.len() >= 6 {
        6
    } else {
        f.len() as int
    };
    digits_val(f.take(k)) * pow10((6 - k) as nat)
}

/// The exact signed value in millionths, before saturation.
pub open spec fn scalar_exact(neg: bool, ip: Seq<char>, fp: Seq<char>) -> int {
    let v = digits_val(ip) * (MICROS as int) + frac_scaled(fp);
    if neg {
        -v
    } else {
        v
    }
}

/// The number grammar of the command language: an optional sign, then
/// decimal digits with at most one point and at least one digit. The value
/// saturates at the `i64` micro bounds. `None` when `s` is not a number.
pub open spec fn scalar_micros_of(s: Seq<char>) -> Option<int> {
    let neg = s.len() > 0 && s[0] == '-';
    let body = if s.len() > 0 && (s[0] == '-' || s[0] == '+') {
        s.drop_first()
    } else {
        s
    };
    let d = find_char(body, '.');
    let ip = body.take(d);
    let fp = if d < body.len() {
        body.subrange(d + 1, body.len() as int)
    } else {
        Seq::empty()
    };
    if all_digits(ip) && all_digits(fp) && ip.len() + fp.len() > 0 {
        Some(sat64(scalar_exact(neg, ip, fp)))
    } else {
        None
    }
}

/// Text of a scalar in millionths: sign, then magnitude.
pub open spec fn scalar_text(m: int) -> Seq<char> {
    if m < 0 {
        seq!['-'] + scalar_mag_text(-m)
    } else {
        scalar_mag_text(m)
    }
}

/// Magnitude text: integer part, then the nonzero fraction if any.
pub open spec fn scalar_mag_text(m: int) -> Seq<char> {
    dec_str(m / 1_000_000) + scalar_frac_text(m % 1_000_000)
}

/// Fraction text: empty for a whole value, else a point and the six-digit
/// fraction with trailing zeros removed.
pub open spec fn scalar_frac_text(f: int) -> Seq<char> {
    if f == 0 {
        Seq::empty()
    } else {
        seq!['.'] + strip_zeros(padded(f, 6))
    }
}

/// `s` without trailing `'0'` characters.
pub open spec fn strip_zeros(s: Seq<char>) -> Seq<char>
    decreases s.len(),
{
    if s.len() > 0 && s.last() == '0' {
        strip_zeros(s.drop_last())
    } else {
        s
    }
}

pub proof fn lemma_frac_scaled_range(f: Seq<char>)
    requires
        all_digits(f),
    ensures
        0 <= frac_scaled(f) < 1_000_000,
{
    let k = if f.len() >= 6 {
        6
    } else {
        f.len() as int
    };
    let t = f.take(k);
    assert(all_digits(t)) by {
        assert(forall|i: int| 0 <= i < t.len() ==> t[i] == f[i]);
    }
    lemma_digits_val_bounds(t);
    lemma_pow10_pos((6 - k) as nat);
    lemma_pow10_adds(k as nat, (6 - k) as nat);
    let a = digits_val(t);
    let p = pow10(k as nat);
    let q = pow10((6 - k) as nat);
    assert(0 <= a * q && a * q <= (p - 1) * q) by (nonlinear_arith)
        requires
            0 <= a <= p - 1,
            q >= 1,
    ;
    assert((p - 1) * q == p * q - q) by (nonlinear_arith);
    assert(p * q == 1_000_000) by {
        reveal_with_fuel(pow10, 7);
    }
}

/// Scans a window of digit characters, saturating just above `INT_CAP`.
/// `None` when a non-digit stands in the window.
fn scan_int_sat(v: &Vec<char>, lo: usize, hi: usize) -> (r: Option<i64>)
    requires
        lo <= hi <= v@.len(),
    ensures
        ({
            let w = v@.subrange(lo as int, hi as int);
            match r {
                Some(acc) => all_digits(w) && 0 <= acc <= INT_CAP + 1 && (digits_val(w) <= INT_CAP
                    ==> acc == digits_val(w)) && (digits_val(w) > INT_CAP ==> acc == INT_CAP + 1),
                None => !all_digits(w),
            }
        }),
{
    let ghost w = v@.subrange(lo as int, hi as int);
    let mut acc: i64 = 0;
    let mut i: usize = lo;
    while i < hi
        invariant
            lo <= i <= hi <= v@.len(),
            w == v@.subrange(lo as int, hi as int),
            all_digits(w.take(i - lo)),
            0 <= acc <= INT_CAP + 1,
            digits_val(w.take(i - lo)) <= INT_CAP ==> acc == digits_val(w.take(i - lo)),
            digits_val(w.take(i - lo)) > INT_CAP ==> acc == INT_CAP + 1,
        decreases hi - i,
    {
        let ghost pref = w.take(i - lo);
        match digit_of(v[i]) {
            Some(d) => {
                proof {
                    assert(w.take(i + 1 - lo) =~= pref.push(w[i - lo]));
                    lemma_digits_val_push(pref, w[i - lo]);
                    lemma_digits_val_bounds(pref);
                }
                if acc <= INT_CAP {
                    let next = acc * 10 + (d as i64);
                    if next > INT_CAP {
                        acc = INT_CAP + 1;
                    } else {
                        acc = next;
                    }
                } else {
                    proof {
                        let dv = digits_val(pref);
                        assert(dv * 10 + digit_val(w[i - lo]) > INT_CAP) by (nonlinear_arith)
                            requires
                                dv > INT_CAP,
                                INT_CAP > 0,
                                digit_val(w[i - lo]) >= 0,
                        ;
                    }
                }
            },
            None => {
                proof {
                    assert(!is_digit(w[i - lo]));
                }
                return None;
            },
        }
        i = i + 1;
    }
    proof {
        assert(w.take(hi - lo) =~= w);
    }
    Some(acc)
}

/// Scans a fraction window (the digits after the point) and returns its
/// value in millionths. `None` when a non-digit stands in the window.
fn scan_frac(v: &Vec<char>, lo: usize, hi: usize) -> (r: Option<u64>)
    requires
        lo <= hi <= v@.len(),
    ensures
        ({
            let w = v@.subrange(lo as int, hi as int);
            match r {
                Some(f) => all_digits(w) && f == frac_scaled(w) && 0 <= f < 1_000_000,
                None => !all_digits(w),
            }
        }),
{
    let ghost w = v@.subrange(lo as int, hi as int);
    let mut facc: u64 = 0;
    let mut count: usize = 0;
    let mut j: usize = lo;
    while j < hi
        invariant
            lo <= j <= hi <= v@.len(),
            w == v@.subrange(lo as int, hi as int),
            all_digits(w.take(j - lo)),
            count == if j - lo >= 6 {
                6int
            } else {
                j - lo
            },
            facc == digits_val(w.take(count as int)),
            0 <= facc < 1_000_000,
        decreases hi - j,
    {
        match digit_of(v[j]) {
            Some(d) => {
                proof {
                    assert(w.take(j + 1 - lo) =~= w.take((j - lo) as int).push(w[j - lo]));
                }
                if count < 6 {
                    proof {
                        assert(w.take(count + 1) =~= w.take(count as int).push(w[count as int]));
                        lemma_digits_val_push(w.take(count as int), w[count as int]);
                        assert(all_digits(w.take(count + 1)));
                        lemma_digits_val_bounds(w.take(count + 1));
                        lemma_pow10_mono((count + 1) as nat, 6);
                        assert(pow10(6) == 1_000_000) by {
                            reveal_with_fuel(pow10, 7);
                        }
                    }
                    facc = facc * 10 + (d as u64);
                    count = count + 1;
                }
            },
            None => {
                proof {
                    assert(!is_digit(w[j - lo]));
                }
                return None;
            },
        }
        j = j + 1;
    }
    proof {
        assert(w.take(hi - lo) =~= w);
    }
    let scale: u64 = pow10_small(6 - (count as u64));
    proof {
        let k = if w.len() >= 6 {
            6int
        } else {
            w.len() as int
        };
        assert(count == k);
        lemma_digits_val_bounds(w.take(k));
        lemma_pow10_adds(k as nat, (6 - k) as nat);
        lemma_pow10_pos((6 - k) as nat);
        let a = digits_val(w.take(k));
        let p = pow10(k as nat);
        let q = pow10((6 - k) as nat);
        assert(0 <= a * q && a * q <= (p - 1) * q && (p - 1) * q < p * q) by (nonlinear_arith)
            requires
                0 <= a <= p - 1,
                q >= 1,
                p >= 1,
        ;
        assert(p * q == 1_000_000) by {
            reveal_with_fuel(pow10, 7);
        }
    }
    Some(facc * scale)
}

/// Reads the window `lo .. hi` of `v` as a scalar; faithful to
/// `scalar_micros_of` on that window.
pub fn parse_scalar(v: &Vec<char>, lo: usize, hi: usize) -> (r: Option<Scalar>)
    requires
        lo <= hi <= v@.len(),
    ensures
        ({
            let m = scalar_micros_of(v@.subrange(lo as int, hi as int));
            match r {
                Some(x) => m == Some(x.micros as int),
                None => m is None,
            }
        }),
{
    let ghost s = v@.subrange(lo as int, hi as int);
    let (neg, p) = if lo < hi && v[lo] == '-' {
        (true, lo + 1)
    } else if lo < hi && v[lo] == '+' {
        (false, lo + 1)
    } else {
        (false, lo)
    };
    let ghost body = if s.len() > 0 && (s[0] == '-' || s[0] == '+') {
        s.drop_first()
    } else {
        s
    };
    proof {
        assert(body =~= v@.subrange(p as int, hi as int));
        lemma_find_char(body, '.');
    }
    let dot = find_from(v, p, hi, '.');
    let ghost ip = body.take(find_char(body, '.'));
    let ghost fp = if find_char(body, '.') < body.len() {
        body.subrange(find_char(body, '.') + 1, body.len() as int)
    } else {
        Seq::<char>::empty()
    };
    let fstart = if dot < hi {
        dot + 1
    } else {
        hi
    };
    proof {
        assert(ip =~= v@.subrange(p as int, dot as int));
        assert(fp =~= v@.subrange(fstart as int, hi as int));
    }
    let acc = match scan_int_sat(v, p, dot) {
        Some(a) => a,
        None => {
            return None;
        },
    };
    let scaled = match scan_frac(v, fstart, hi) {
        Some(f) => f,
        None => {
            return None;
        },
    };
    if dot == p && fstart == hi {
        proof {
            assert(ip.len() + fp.len() == 0);
        }
        return None;
    }
    let mag: i128 = if acc > INT_CAP {
        (i64::MAX as i128) + 1
    } else {
        (acc as i128) * (MICROS as i128) + (scaled as i128)
    };
    proof {
        lemma_frac_scaled_range(fp);
        let ex = digits_val(ip) * (MICROS as int) + frac_scaled(fp);
        if acc > INT_CAP {
            assert(digits_val(ip) >= INT_CAP + 1);
            assert(digits_val(ip) * (MICROS as int) >= (INT_CAP + 1) * (MICROS as int))
                by (nonlinear_arith)
                requires
                    digits_val(ip) >= INT_CAP + 1,
                    (MICROS as int) > 0,
            ;
            assert(ex > i64::MAX);
            assert(mag > i64::MAX);
        } else {
            assert(mag == ex);
        }
    }
    let m: i64 = if neg {
        if -mag < (i64::MIN as i128) {
            i64::MIN
        } else {
            (-mag) as i64
        }
    } else {
        if mag > (i64::MAX as i128) {
            i64::MAX
        } else {
            mag as i64
        }
    };
    proof {
        let ex = scalar_exact(neg, ip, fp);
        assert(m as int == sat64(ex));
    }
    Some(Scalar { micros: m })
}

/// Ten to the `k` for the small exponents the fraction scaling needs.
pub fn pow10_small(k: u64) -> (r: u64)
    requires
        k <= 6,
    ensures
        r == pow10(k as nat),
{
    proof {
        reveal_with_fuel(pow10, 7);
    }
    match k {
        0 => 1,
        1 => 10,
        2 => 100,
        3 => 1_000,
        4 => 10_000,
        5 => 100_000,
        _ => 1_000_000,
    }
}

} // verus!
