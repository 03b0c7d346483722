//! Filter bank generation: the fractional position sequencer and the
//! fixed-point windowed-sinc coefficients.

use vstd::prelude::*;
use vstd::arithmetic::div_mod::*;
use crate::arith::{spec_gcd, lemma_gcd_pos, lemma_gcd_divides, lemma_gcd_reduced_coprime,
    lemma_coprime_cancel, spec_round_div, spec_sat32, round_div128, lemma_abs_mul_le,
    lemma_round_div_bound};
use crate::sample::{FRAC_ONE, requant};

verus! {

/// A restartable finite sequence of the fractional input positions of each
/// filter phase.  Over a rate ratio `num / denom` it yields the numerators
/// `0, num, 2*num, ... (mod denom)` until the remainder returns to zero,
/// using exact integer accumulation so the cycle is exact.
pub struct FractionalPosition {
    /// Step numerator, reduced modulo `denom`.
    pub num: u32,
    /// Step denominator.
    pub denom: u32,
    /// Numerator of the next fractional position to yield.
    pub frac: u32,
    /// Whether the cycle has completed.
    pub end: bool,
}

impl FractionalPosition {
    /// Structural invariant of the sequencer.
    pub open spec fn wf(&self) -> bool {
        &&& self.denom > 0
        &&& self.num < self.denom
        &&& self.frac < self.denom
    }

    /// Start the cycle of fractional positions for the ratio `num / denom`.
    pub fn new(num: u32, denom: u32) -> (r: FractionalPosition)
        requires
            denom > 0,
        ensures
            r.wf(),
            r.num == num % denom,
            r.denom == denom,
            r.frac == 0,
            !r.end,
    {
        FractionalPosition { num: num % denom, denom, frac: 0, end: false }
    }

    /// Yield the numerator of the next fractional position, or `None` once
    /// the remainder has cycled back to zero.
    pub fn next(&mut self) -> (r: Option<u32>)
        requires
            old(self).wf(),
        ensures
            final(self).wf(),
            final(self).num == old(self).num,
            final(self).denom == old(self).denom,
            old(self).end ==> r is None && *final(self) == *old(self),
            !old(self).end ==> {
                &&& r == Some(old(self).frac)
                &&& final(self).frac == (old(self).frac + old(self).num) % (old(self).denom as int)
                &&& final(self).end == (final(self).frac == 0)
            },
    {
        if self.end {
            return None;
        }
        let f = self.frac;
        proof {
            if self.frac + self.num < self.denom {
                lemma_small_mod((self.frac + self.num) as nat, self.denom as nat);
            } else {
                lemma_mod_sub_multiples_vanish(
                    (self.frac + self.num) as int,
                    self.denom as int,
                );
                lemma_small_mod(
                    (self.frac + self.num - self.denom) as nat,
                    self.denom as nat,
                );
            }
        }
        let t: u64 = self.frac as u64 + self.num as u64;
        if t >= self.denom as u64 {
            self.frac = (t - self.denom as u64) as u32;
        } else {
            self.frac = t as u32;
        }
        self.end = self.frac == 0;
        Some(f)
    }
}

/// The number of fractional positions in one full cycle of the ratio
/// `num / denom`: `denom / gcd(num, denom)`.
pub open spec fn spec_period(num: int, denom: int) -> int {
    denom / spec_gcd((num % denom) as nat, denom as nat) as int
}

/// The sequencer's cycle length law: the running remainder `k * num % denom`
/// first returns to zero at exactly `k == denom / gcd(num, denom)`.
pub proof fn lemma_period_properties(num: int, denom: int)
    requires
        denom > 0,
        0 <= num < denom,
    ensures
        1 <= spec_period(num, denom) <= denom,
        (spec_period(num, denom) * num) % denom == 0,
        forall|k: int|
            0 < k < spec_period(num, denom) ==> #[trigger] ((k * num) % denom) != 0,
{
    lemma_small_mod(num as nat, denom as nat);
    let n = num as nat;
    let d = denom as nat;
    lemma_gcd_pos(n, d);
    lemma_gcd_divides(n, d);
    let g = spec_gcd(n, d);
    let p = spec_period(num, denom);
    lemma_fundamental_div_mod(d as int, g as int);
    lemma_fundamental_div_mod(n as int, g as int);
    let d1 = d as int / g as int;
    let n1 = n as int / g as int;
    assert(d as int == g as int * d1);
    assert(n as int == g as int * n1);
    assert(p == d1);
    assert(d1 >= 1 && d1 <= denom) by (nonlinear_arith)
        requires
            d as int == g as int * d1,
            d > 0,
            g >= 1,
            d == denom,
            d1 >= 0,
    ;
    // The period itself cancels: p * num == denom * n1.
    assert(p * num == denom * n1) by (nonlinear_arith)
        requires
            d as int == g as int * d1,
            n as int == g as int * n1,
            p == d1,
            num == n,
            denom == d,
    ;
    lemma_mod_multiples_basic(n1, denom);
    assert((denom * n1) % denom == 0) by {
        assert(n1 * denom == denom * n1) by (nonlinear_arith);
    }
    // Minimality: no smaller positive k cancels.
    lemma_gcd_reduced_coprime(n, d);
    assert forall|k: int| 0 < k < p implies #[trigger] ((k * num) % denom) != 0 by {
        if (k * num) % denom == 0 {
            lemma_fundamental_div_mod(k * num, denom);
            let q = (k * num) / denom;
            assert((k * n1) % d1 == 0) by {
                assert(k * n1 == d1 * q) by (nonlinear_arith)
                    requires
                        k * num == denom * q,
                        num == g as int * n1,
                        denom as int == g as int * d1,
                        g >= 1,
                ;
                assert(d1 * q == q * d1) by (nonlinear_arith);
                lemma_mod_multiples_basic(q, d1);
            }
            assert(n1 >= 0 && d1 >= 1);
            lemma_coprime_cancel(n1 as nat, d1 as nat, k as nat);
            lemma_small_mod(k as nat, d1 as nat);
            assert(false);
        }
    }
}

/// Absolute value of a mathematical integer.
pub open spec fn spec_abs(p: int) -> int {
    if p >= 0 {
        p
    } else {
        -p
    }
}

/// Fixed-point approximation of `sin(pi * r / q)` for `0 <= r < q`, as the
/// rational function `16 t / (5 - 4 t)` of `t = (r/q) * (1 - r/q)`.
pub open spec fn spec_sin_q(r: int, q: int) -> int {
    spec_round_div(16 * r * (q - r) * (FRAC_ONE as int), 5 * q * q - 4 * r * (q - r))
}

/// Fixed-point approximation of `sin(pi * pa / q)` for `pa >= 0`: the
/// fractional part goes through `spec_sin_q`, the integer part flips the sign.
pub open spec fn spec_sin_pi(pa: int, q: int) -> int {
    if (pa / q) % 2 == 0 {
        spec_sin_q(pa % q, q)
    } else {
        -spec_sin_q(pa % q, q)
    }
}

/// Fixed-point approximation of `sinc(pi * p / q)`, with `pi` taken as
/// `355 / 113`.  Exactly one at zero, exactly zero at nonzero integers.
pub open spec fn spec_sinc_q(p: int, q: int) -> int {
    let pa = spec_abs(p);
    if pa == 0 {
        FRAC_ONE as int
    } else {
        spec_round_div(spec_sin_pi(pa, q) * 113 * q, 355 * pa)
    }
}

/// Fixed-point Hann window value at position `p / q` of an `m`-tap filter:
/// `0.5 * (1 + cos(2 pi p / (q m)))`, computed as `1 - sin(pi u)^2` with
/// `u` the fractional part of `|p| / (q m)`.
pub open spec fn spec_hann_q(p: int, q: int, m: int) -> int {
    let qq = q * m;
    let r = spec_abs(p) % qq;
    FRAC_ONE - spec_round_div(spec_sin_q(r, qq) * spec_sin_q(r, qq), FRAC_ONE as int)
}

/// The windowed-sinc coefficient of tap `s` for the phase whose fractional
/// shift is `frac / denom`, in an `m`-tap filter centered at `center`.
pub open spec fn spec_coeff(s: int, center: int, frac: int, denom: int, m: int) -> i32 {
    let p = (s - center) * denom - frac;
    spec_sat32(
        spec_round_div(spec_sinc_q(p, denom) * spec_hann_q(p, denom, m), FRAC_ONE as int),
    )
}

/// The full filter bank for the reduced ratio `num / denom`: one `m`-tap
/// phase per fractional position of the sequencer cycle, flattened.
pub open spec fn spec_bank(m: int, num: int, denom: int) -> Seq<i32> {
    Seq::new(
        (spec_period(num, denom) * m) as nat,
        |i: int| spec_coeff(i % m, (m - 1) / 2, ((i / m) * num) % denom, denom, m),
    )
}

/// Fixed-point sine approximation; see `spec_sin_q`.
fn sin_q(r: u64, q: u64) -> (s: i64)
    requires
        0 < q <= 0x1_0000_0000_0000,
        r < q,
    ensures
        s == spec_sin_q(r as int, q as int),
        0 <= s <= FRAC_ONE,
{
    proof {
        lemma_abs_mul_le(r as int, (q - r) as int, 0x1_0000_0000_0000, 0x1_0000_0000_0000);
        lemma_abs_mul_le(q as int, q as int, 0x1_0000_0000_0000, 0x1_0000_0000_0000);
        assert(0 <= (r as int) * ((q - r) as int)
            && 4 * ((r as int) * ((q - r) as int)) <= (q as int) * (q as int))
            by (nonlinear_arith)
            requires
                0 <= r < q,
        ;
        lemma_abs_mul_le(5 * (q as int), q as int, 5 * 0x1_0000_0000_0000int, 0x1_0000_0000_0000int);
    }
    let t: i128 = (r as i128) * ((q - r) as i128);
    let num: i128 = 16 * t * (FRAC_ONE as i128);
    let den: i128 = 5 * (q as i128) * (q as i128) - 4 * t;
    proof {
        assert(num <= (FRAC_ONE as int) * den && den > 0 && 0 <= num) by (nonlinear_arith)
            requires
                num == 16 * t * (FRAC_ONE as int),
                den == 5 * (q as int) * (q as int) - 4 * t,
                0 <= 4 * t <= (q as int) * (q as int),
                q > 0,
        ;
        assert(num == 16 * (r as int) * ((q - r) as int) * (FRAC_ONE as int)
            && den == 5 * (q as int) * (q as int) - 4 * (r as int) * ((q - r) as int))
            by (nonlinear_arith)
            requires
                num == 16 * t * (FRAC_ONE as int),
                den == 5 * (q as int) * (q as int) - 4 * t,
                t == (r as int) * ((q - r) as int),
        ;
        lemma_round_div_bound(num as int, den as int, FRAC_ONE as int);
        lemma_div_pos_is_pos(2 * num + den, 2 * den);
    }
    let s = round_div128(num, den);
    s as i64
}

/// One windowed-sinc coefficient; see `spec_coeff`.
fn coeff_q(s_idx: u64, center: u64, frac: u64, denom: u64, m: u64) -> (c: i32)
    requires
        0 < denom <= 0x1_0000_0000,
        1 <= m <= 0x1_0000,
        s_idx < m,
        center < m,
        frac < denom,
    ensures
        c == spec_coeff(s_idx as int, center as int, frac as int, denom as int, m as int),
{
    proof {
        lemma_abs_mul_le(
            s_idx as int - center as int,
            denom as int,
            0x1_0000,
            0x1_0000_0000,
        );
    }
    let p: i128 = (s_idx as i128 - center as i128) * (denom as i128) - frac as i128;
    let pa: i128 = if p >= 0 {
        p
    } else {
        -p
    };
    assert(pa == spec_abs(p as int));
    assert(pa <= 0x2_0000_0000_0000);
    let sinc: i128 = if pa == 0 {
        FRAC_ONE as i128
    } else {
        let pau: u64 = pa as u64;
        let k: u64 = pau / denom;
        let r: u64 = pau % denom;
        let s1: i64 = sin_q(r, denom);
        let sn: i128 = if k % 2 == 0 {
            s1 as i128
        } else {
            -(s1 as i128)
        };
        proof {
            lemma_abs_mul_le(sn as int * 113, denom as int, 113 * (FRAC_ONE as int),
                0x1_0000_0000);
            lemma_abs_mul_le(FRAC_ONE as int, denom as int, FRAC_ONE as int, 0x1_0000_0000);
        }
        let snum: i128 = sn * 113 * (denom as i128);
        let sden: i128 = 355 * pa;
        proof {
            assert(0 <= (FRAC_ONE as int) * (denom as int)) by (nonlinear_arith)
                requires
                    denom > 0,
            ;
            assert(-(((FRAC_ONE as int) * (denom as int)) * sden) <= snum
                && snum <= ((FRAC_ONE as int) * (denom as int)) * sden) by (nonlinear_arith)
                requires
                    snum == sn * 113 * (denom as int),
                    -(FRAC_ONE as int) <= sn <= FRAC_ONE as int,
                    denom > 0,
                    sden == 355 * pa,
                    pa >= 1,
            ;
            lemma_round_div_bound(
                snum as int,
                sden as int,
                (FRAC_ONE as int) * (denom as int),
            );
        }
        round_div128(snum, sden)
    };
    assert(-(FRAC_ONE as int) * 0x1_0000_0000 <= sinc <= (FRAC_ONE as int) * 0x1_0000_0000);
    assert(sinc == spec_sinc_q(p as int, denom as int));
    proof {
        lemma_abs_mul_le(denom as int, m as int, 0x1_0000_0000, 0x1_0000);
        assert((denom as int) * (m as int) >= 1) by (nonlinear_arith)
            requires
                denom >= 1,
                m >= 1,
        ;
    }
    let qq: u64 = denom * m;
    let r2: u64 = (pa as u64) % qq;
    let s2: i64 = sin_q(r2, qq);
    proof {
        lemma_abs_mul_le(s2 as int, s2 as int, FRAC_ONE as int, FRAC_ONE as int);
        lemma_round_div_bound(
            s2 as int * s2 as int,
            FRAC_ONE as int,
            FRAC_ONE as int,
        );
        lemma_div_pos_is_pos(2 * (s2 as int * s2 as int) + FRAC_ONE as int, 2 * FRAC_ONE as int);
    }
    let hann: i128 = FRAC_ONE as i128 - round_div128((s2 as i128) * (s2 as i128), FRAC_ONE as i128);
    assert(0 <= hann <= FRAC_ONE as int);
    assert(hann == spec_hann_q(p as int, denom as int, m as int));
    proof {
        lemma_abs_mul_le(
            sinc as int,
            hann as int,
            (FRAC_ONE as int) * 0x1_0000_0000,
            FRAC_ONE as int,
        );
    }
    let prod: i128 = sinc * hann;
    requant(prod)
}

/// Build the flat windowed-sinc filter bank for converting `from_rate` to
/// `to_rate`: one `filter_length`-tap phase per fractional position of the
/// sequencer cycle, in cycle order.
pub fn build_sinc(filter_length: usize, from_rate: u32, to_rate: u32) -> (filters: Vec<i32>)
    requires
        to_rate > 0,
        1 <= filter_length <= 0x1_0000,
    ensures
        filters@ == spec_bank(
            filter_length as int,
            (from_rate % to_rate) as int,
            to_rate as int,
        ),
        filters@.len() == spec_period((from_rate % to_rate) as int, to_rate as int)
            * filter_length,
{
    let ghost num = (from_rate % to_rate) as int;
    let ghost denom = to_rate as int;
    let ghost m = filter_length as int;
    let ghost p = spec_period(num, denom);
    let ghost bank = spec_bank(m, num, denom);
    proof {
        lemma_period_properties(num, denom);
    }
    let mut filters: Vec<i32> = Vec::new();
    let center: usize = (filter_length - 1) / 2;
    let mut fp = FractionalPosition::new(from_rate, to_rate);
    let ghost mut k: int = 0;
    proof {
        lemma_small_mod(0nat, denom as nat);
        assert(bank.take(0) =~= filters@);
    }
    while !fp.end
        invariant
            1 <= filter_length <= 0x1_0000,
            to_rate > 0,
            center == (filter_length - 1) / 2,
            fp.wf(),
            fp.num == from_rate % to_rate,
            fp.denom == to_rate,
            num == (from_rate % to_rate) as int,
            denom == to_rate as int,
            m == filter_length as int,
            p == spec_period(num, denom),
            bank == spec_bank(m, num, denom),
            1 <= p <= denom,
            (p * num) % denom == 0,
            forall|j: int| 0 < j < p ==> #[trigger] ((j * num) % denom) != 0,
            0 <= k <= p,
            k < p ==> !fp.end && fp.frac == (k * num) % denom,
            k == p ==> fp.end,
            filters@.len() == k * m,
            filters@ == bank.take(k * m),
        decreases p - k,
    {
        let fopt = fp.next();
        let f: u32 = fopt.unwrap();
        assert(f == (k * num) % denom);
        let mut s: usize = 0;
        proof {
            lemma_mod_bound(k * num, denom);
        }
        while s < filter_length
            invariant
                1 <= filter_length <= 0x1_0000,
                to_rate > 0,
                center == (filter_length - 1) / 2,
                m == filter_length as int,
                denom == to_rate as int,
                bank == spec_bank(m, num, denom),
                0 <= k < p,
                p * m == bank.len(),
                f == (k * num) % denom,
                0 <= f < denom,
                0 <= s <= filter_length,
                filters@.len() == k * m + s,
                filters@ == bank.take(k * m + s),
            decreases filter_length - s,
        {
            proof {
                assert(k * m + s < p * m) by (nonlinear_arith)
                    requires
                        0 <= k < p,
                        0 <= s < m,
                ;
                lemma_fundamental_div_mod_converse(k * m + s as int, m, k, s as int);
            }
            let c = coeff_q(
                s as u64,
                center as u64,
                f as u64,
                to_rate as u64,
                filter_length as u64,
            );
            assert(c == bank[k * m + s]);
            filters.push(c);
            proof {
                assert(bank.take(k * m + s + 1) =~= bank.take(k * m + s).push(bank[k * m + s]));
            }
            s = s + 1;
        }
        proof {
            // The sequencer has moved on to position k + 1.
            lemma_small_mod(fp.num as nat, denom as nat);
            lemma_add_mod_noop((k * num), num, denom);
            assert((k * num) % denom + num % denom == (k * num) % denom + num);
            assert(k * num + num == (k + 1) * num) by (nonlinear_arith);
            assert(fp.frac == ((k + 1) * num) % denom) by {
                assert(fp.frac == ((k * num) % denom + num) % ((denom) as int));
                assert((((k * num) % denom) + (num % denom)) % denom == (k * num + num) % denom);
            }
            k = k + 1;
            lemma_mod_bound((k * num), denom);
            if k < p {
                assert((k * num) % denom != 0);
                assert(!fp.end);
            } else {
                assert((p * num) % denom == 0);
                assert(fp.end);
            }
            assert(filters@.len() == k * m) by (nonlinear_arith)
                requires
                    filters@.len() == (k - 1) * m + m,
            ;
        }
    }
    proof {
        assert(k == p);
        assert(bank.take(p * m) =~= bank);
    }
    filters
}

} // verus!
