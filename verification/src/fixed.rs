//! Fixed-point representation of the decimal quantities in a trajectory.
//!
//! Coordinates and times are held in thousandths of their file units, so a
//! value `v` stands for the decimal number `v / 1000`.  Trajectory files
//! carry three decimal places, so this representation is exact; further
//! fractional digits are truncated.  A token is a number when it is an
//! optional sign followed by decimal digits with at most one decimal point
//! and at least one digit; exponent and other float notations are rejected.

use vstd::prelude::*;
use crate::text::{find_byte_from, lemma_find_byte_bounds, lemma_find_byte_ge, lemma_find_byte_hits};

verus! {

/// One file unit (nanometre, picosecond) in fixed-point steps.
pub const UNIT: i64 = 1000;

/// Largest magnitude accepted for a coordinate, in fixed-point steps
/// (five hundred file units).  Records beyond it are rejected, which keeps
/// every later square and product inside `i64`/`u64` range.
pub const COORD_LIMIT: i64 = 500_000;

/// Largest magnitude accepted for a time value, in fixed-point steps.
pub const TIME_LIMIT: i64 = 1_000_000_000_000_000;

/// Byte value of `-`.
pub const BYTE_MINUS: u8 = 45;

/// Byte value of `+`.
pub const BYTE_PLUS: u8 = 43;

/// Byte value of `.`.
pub const BYTE_DOT: u8 = 46;

/// Byte value of `0`.
pub const BYTE_ZERO: u8 = 48;

/// An ASCII decimal digit.
pub open spec fn is_digit(b: u8) -> bool {
    48 <= b <= 57
}

/// Executable mirror of [`is_digit`].
pub fn byte_is_digit(b: u8) -> (r: bool)
    ensures
        r == is_digit(b),
{
    48 <= b && b <= 57
}

/// Every byte is a decimal digit.
pub open spec fn all_digits(s: Seq<u8>) -> bool {
    forall|i: int| 0 <= i < s.len() ==> is_digit(s[i])
}

/// The number written by a run of decimal digits, most significant first.
pub open spec fn dec_val(s: Seq<u8>) -> int
    decreases s.len(),
{
    if s.len() == 0 {
        0
    } else {
        dec_val(s.drop_last()) * 10 + (s.last() - BYTE_ZERO)
    }
}

/// Index of the first `.`, or the length if there is none.
pub open spec fn dot_pos(s: Seq<u8>) -> int {
    find_byte_from(s, BYTE_DOT, 0)
}

/// Value of the fractional digits, in thousandths: the first three digits
/// count, shorter runs are padded with zeros, further digits are truncated.
pub open spec fn frac_val(s: Seq<u8>) -> int {
    if s.len() >= 3 {
        dec_val(s.take(3))
    } else if s.len() == 2 {
        dec_val(s) * 10
    } else if s.len() == 1 {
        dec_val(s) * 100
    } else {
        0
    }
}

/// The fixed-point value of an unsigned decimal token: digits, at most one
/// point, at least one digit in all.
pub open spec fn unsigned_fixed_of(s: Seq<u8>) -> Option<int> {
    let d = dot_pos(s);
    let ip = s.take(d);
    let fp = if d == s.len() {
        Seq::<u8>::empty()
    } else {
        s.skip(d + 1)
    };
    if all_digits(ip) && all_digits(fp) && ip.len() + fp.len() >= 1 {
        Some(dec_val(ip) * 1000 + frac_val(fp))
    } else {
        None
    }
}

/// The fixed-point value of a decimal token with an optional sign.
pub open spec fn fixed_of(s: Seq<u8>) -> Option<int> {
    if s.len() == 0 {
        None
    } else if s[0] == BYTE_MINUS {
        match unsigned_fixed_of(s.drop_first()) {
            Some(v) => Some(-v),
            None => None,
        }
    } else if s[0] == BYTE_PLUS {
        unsigned_fixed_of(s.drop_first())
    } else {
        unsigned_fixed_of(s)
    }
}

/// Digit runs denote nonnegative numbers.
proof fn lemma_dec_val_nonneg(s: Seq<u8>)
    requires
        all_digits(s),
    ensures
        dec_val(s) >= 0,
    decreases s.len(),
{
    if s.len() > 0 {
        let t = s.drop_last();
        assert forall|i: int| 0 <= i < t.len() implies is_digit(t[i]) by {
            assert(t[i] == s[i]);
        }
        lemma_dec_val_nonneg(t);
    }
}

/// Extending a digit run to the right never shrinks its value.
proof fn lemma_dec_val_prefix(s: Seq<u8>, n: int)
    requires
        all_digits(s),
        0 <= n <= s.len(),
    ensures
        dec_val(s) >= dec_val(s.take(n)),
    decreases s.len(),
{
    if n == s.len() {
        assert(s.take(n) =~= s);
    } else {
        let t = s.drop_last();
        assert forall|i: int| 0 <= i < t.len() implies is_digit(t[i]) by {
            assert(t[i] == s[i]);
        }
        lemma_dec_val_nonneg(t);
        lemma_dec_val_prefix(t, n);
        assert(t.take(n) =~= s.take(n));
    }
}

/// Fraction digits denote a nonnegative number of thousandths.
proof fn lemma_frac_val_nonneg(s: Seq<u8>)
    requires
        all_digits(s),
    ensures
        frac_val(s) >= 0,
{
    if s.len() >= 3 {
        let t = s.take(3);
        assert forall|i: int| 0 <= i < t.len() implies is_digit(t[i]) by {
            assert(t[i] == s[i]);
        }
        lemma_dec_val_nonneg(t);
    } else {
        lemma_dec_val_nonneg(s);
    }
}

/// Executable mirror of [`fixed_of`], guarded by a magnitude limit: returns
/// the token's value when the token is a plain decimal number of magnitude
/// at most `limit`, and nothing when the token is malformed or too large.
pub fn parse_fixed(t: &[u8], limit: i64) -> (r: Option<i64>)
    requires
        1 <= limit <= TIME_LIMIT,
    ensures
        match r {
            Some(v) => fixed_of(t@) == Some(v as int) && -limit <= v <= limit,
            None => match fixed_of(t@) {
                Some(w) => w < -limit || w > limit,
                None => true,
            },
        },
{
    if t.len() == 0 {
        return None;
    }
    let neg = t[0] == BYTE_MINUS;
    let off: usize = if t[0] == BYTE_MINUS || t[0] == BYTE_PLUS {
        1
    } else {
        0
    };
    proof {
        if off == 0 {
            assert(t@.skip(0) =~= t@);
        } else {
            assert(t@.skip(1) =~= t@.drop_first());
        }
    }
    match parse_unsigned(t, off, limit) {
        Some(v) => if neg {
            Some(-v)
        } else {
            Some(v)
        },
        None => None,
    }
}

/// Parses the unsigned decimal body `t[start..]` against [`unsigned_fixed_of`].
fn parse_unsigned(t: &[u8], start: usize, limit: i64) -> (r: Option<i64>)
    requires
        start <= t@.len(),
        1 <= limit <= TIME_LIMIT,
    ensures
        match r {
            Some(v) => unsigned_fixed_of(t@.skip(start as int)) == Some(v as int) && 0 <= v
                <= limit,
            None => match unsigned_fixed_of(t@.skip(start as int)) {
                Some(w) => w > limit,
                None => true,
            },
        },
{
    let ghost body = t@.skip(start as int);
    let n = t.len();
    let mut j = start;
    let mut acc: i64 = 0;
    proof {
        assert(body.take(0) =~= Seq::<u8>::empty());
    }
    while j < n && byte_is_digit(t[j])
        invariant
            start <= j <= n,
            n == t@.len(),
            1 <= limit <= TIME_LIMIT,
            body == t@.skip(start as int),
            forall|k: int| 0 <= k < j - start ==> is_digit(body[k]),
            acc == dec_val(body.take(j - start)),
            0 <= acc <= limit,
        decreases n - j,
    {
        let d = (t[j] - BYTE_ZERO) as i64;
        proof {
            assert(body.take(j - start + 1).drop_last() =~= body.take(j - start));
            assert(body.take(j - start + 1).last() == body[j - start]);
            assert(body[j - start] == t@[j as int]);
        }
        let na = acc * 10 + d;
        if na > limit {
            proof {
                lemma_integer_overrun(body, j - start + 1, na as int, limit as int);
            }
            return None;
        }
        acc = na;
        j = j + 1;
    }
    if j == n {
        if j == start {
            // No digits at all: the body is empty.
            proof {
                assert(body.len() == 0);
                assert(body.take(dot_pos(body)) =~= Seq::<u8>::empty());
            }
            return None;
        }
        // The whole body is digits: no point, no fraction.
        proof {
            lemma_find_byte_ge(body, BYTE_DOT, 0, body.len() as int);
            lemma_find_byte_bounds(body, BYTE_DOT, 0);
            assert(dot_pos(body) == body.len());
            assert(body.take(body.len() as int) =~= body);
        }
        let v = acc * 1000;
        if v > limit {
            return None;
        }
        return Some(v);
    }
    if t[j] != BYTE_DOT {
        // A byte that is neither digit nor point: malformed.
        proof {
            lemma_find_byte_ge(body, BYTE_DOT, 0, j - start + 1);
            lemma_find_byte_bounds(body, BYTE_DOT, 0);
            let d = dot_pos(body);
            assert(body.take(d)[j - start] == body[j - start]);
            assert(!is_digit(body.take(d)[j - start]));
        }
        return None;
    }
    // Fraction digits after the point at `j`.
    let ghost dpos = j - start;
    proof {
        lemma_find_byte_ge(body, BYTE_DOT, 0, j - start);
        lemma_find_byte_hits(body, BYTE_DOT, 0, j - start);
        assert(dot_pos(body) == dpos);
    }
    let ghost ip = body.take(dpos as int);
    let ghost fp = body.skip(dpos + 1);
    proof {
        assert(ip =~= body.take(j - start));
        assert(acc == dec_val(ip));
        assert(fp.len() == n - (j + 1));
        assert(fp.take(0) =~= Seq::<u8>::empty());
    }
    let mut k = j + 1;
    let mut facc: i64 = 0;
    let mut fcnt: usize = 0;
    while k < n && byte_is_digit(t[k])
        invariant
            j + 1 <= k <= n,
            n == t@.len(),
            j < n,
            start <= j,
            body == t@.skip(start as int),
            fp == body.skip(j - start + 1),
            fp.len() == n - (j + 1),
            forall|q: int| 0 <= q < k - (j + 1) ==> is_digit(fp[q]),
            fcnt <= 3,
            k - (j + 1) >= 3 ==> fcnt == 3,
            k - (j + 1) < 3 ==> fcnt == k - (j + 1),
            facc == dec_val(fp.take(fcnt as int)),
            0 <= facc <= 999,
            fcnt < 3 ==> facc <= 99,
            fcnt < 2 ==> facc <= 9,
            fcnt == 0 ==> facc == 0,
        decreases n - k,
    {
        proof {
            assert(fp[k - (j + 1)] == t@[k as int]);
        }
        if fcnt < 3 {
            proof {
                assert(fp.take(fcnt + 1).drop_last() =~= fp.take(fcnt as int));
                assert(fp.take(fcnt + 1).last() == fp[fcnt as int]);
            }
            facc = facc * 10 + (t[k] - BYTE_ZERO) as i64;
            fcnt = fcnt + 1;
        }
        k = k + 1;
    }
    if k < n {
        // A non-digit inside the fraction: malformed.
        proof {
            assert(fp[k - (j + 1)] == t@[k as int]);
            assert(!is_digit(fp[k - (j + 1)]));
        }
        return None;
    }
    if j == start && fcnt == 0 && k == j + 1 {
        // A bare point with no digits on either side.
        proof {
            assert(ip.len() + fp.len() == 0);
        }
        return None;
    }
    let fval: i64 = if fcnt == 3 {
        facc
    } else if fcnt == 2 {
        facc * 10
    } else if fcnt == 1 {
        facc * 100
    } else {
        0
    };
    proof {
        if fp.len() >= 3 {
            assert(fval == frac_val(fp));
        } else {
            assert(fp.take(fp.len() as int) =~= fp);
            assert(fval == frac_val(fp));
        }
        assert forall|q: int| 0 <= q < ip.len() implies is_digit(ip[q]) by {
            assert(ip[q] == body[q]);
        }
    }
    let v = acc * 1000 + fval;
    if v > limit {
        return None;
    }
    Some(v)
}

/// Once the scanned leading digits already exceed the limit, any
/// well-formed completion of the token exceeds it too.
proof fn lemma_integer_overrun(body: Seq<u8>, p: int, seen: int, limit: int)
    requires
        0 < p <= body.len(),
        forall|k: int| 0 <= k < p ==> is_digit(body[k]),
        seen == dec_val(body.take(p)),
        seen > limit,
        limit >= 1,
    ensures
        match unsigned_fixed_of(body) {
            Some(w) => w > limit,
            None => true,
        },
{
    let d = dot_pos(body);
    let ip = body.take(d);
    if unsigned_fixed_of(body) is Some {
        assert forall|k: int| 0 <= k < p implies body[k] != BYTE_DOT by {
            assert(is_digit(body[k]));
        }
        lemma_find_byte_ge(body, BYTE_DOT, 0, p);
        lemma_find_byte_bounds(body, BYTE_DOT, 0);
        assert(p <= d <= body.len());
        let fp = if d == body.len() {
            Seq::<u8>::empty()
        } else {
            body.skip(d + 1)
        };
        assert(ip.take(p) =~= body.take(p));
        lemma_dec_val_prefix(ip, p);
        lemma_frac_val_nonneg(fp);
        assert(dec_val(ip) >= seen);
        assert(dec_val(ip) * 1000 >= dec_val(ip)) by (nonlinear_arith)
            requires
                dec_val(ip) >= 0;
    }
}

} // verus!
