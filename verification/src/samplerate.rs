//! Streaming sample-rate conversion with an overlap-save buffer around the
//! polyphase filtering engine.

use vstd::prelude::*;
use vstd::slice::slice_subrange;
use crate::arith::{spec_gcd, lemma_gcd_pos};
use crate::error::Error;
use crate::filtering::{FilteringContext, lemma_run_same_config};
use crate::filters::{build_sinc, spec_bank, spec_period, lemma_period_properties};

verus! {

/// Relies on num::integer::gcd (Stein's algorithm on u32): returns the
/// greatest common divisor, non-negative, with gcd(a, 0) == a and
/// gcd(0, b) == b.
#[verifier::external_body]
fn gcd_u32(a: u32, b: u32) -> (r: u32)
    ensures
        r == spec_gcd(a as nat, b as nat),
{
    num::integer::gcd(a, b)
}

/// Drop the first `k` samples of a buffer, keeping the order of the rest.
fn drop_front(v: &mut Vec<i32>, k: usize)
    requires
        k <= old(v)@.len(),
    ensures
        final(v)@ == old(v)@.skip(k as int),
{
    let mut nv: Vec<i32> = Vec::new();
    let mut i: usize = k;
    while i < v.len()
        invariant
            k <= i <= v@.len(),
            v@ == old(v)@,
            nv@ == old(v)@.subrange(k as int, i as int),
        decreases v@.len() - i,
    {
        let x = v[i];
        nv.push(x);
        i = i + 1;
        proof {
            assert(nv@ =~= old(v)@.subrange(k as int, i as int));
        }
    }
    proof {
        assert(old(v)@.subrange(k as int, old(v)@.len() as int) =~= old(v)@.skip(k as int));
    }
    *v = nv;
}

/// Append `n` samples of silence to a buffer.
fn push_zeros(v: &mut Vec<i32>, n: usize)
    requires
        old(v)@.len() + n <= usize::MAX,
    ensures
        final(v)@ == old(v)@ + Seq::new(n as nat, |i: int| 0i32),
{
    let mut i: usize = 0;
    while i < n
        invariant
            i <= n,
            v@ == old(v)@ + Seq::new(i as nat, |j: int| 0i32),
        decreases n - i,
    {
        v.push(0i32);
        i = i + 1;
        proof {
            assert(v@ =~= old(v)@ + Seq::new(i as nat, |j: int| 0i32));
        }
    }
}

/// Samplerate conversion state.
///
/// Resampling is done with a sequence of precalculated filters.  The number
/// of filters depends on the rates but is never more than the output rate:
/// doubling the rate needs two filters, converting 44100 to 48000 needs 160.
#[derive(Debug)]
pub struct Samplerate {
    /// The polyphase convolution engine.
    pub filtering: FilteringContext,
    /// Input samples retained between blocks for overlap-save.
    pub overlap: Vec<i32>,
    /// Leading frames of silence that align the filter's group delay.
    pub filter_offset: usize,
}

impl Samplerate {
    /// Structural invariant of the converter.
    pub open spec fn wf(&self) -> bool {
        &&& self.filtering.wf()
        &&& self.filter_offset < self.filtering.filter_length
        &&& self.overlap@.len() as int % (self.filtering.channels as int) == 0
        &&& self.overlap@.len() <= (self.filtering.filter_length - 1) * self.filtering.channels
    }

    /// The engine's mutable state as a triple: phase, position, accumulator.
    pub open spec fn eng(&self) -> (int, int, int) {
        (
            self.filtering.filter_index as int,
            self.filtering.input_start as int,
            self.filtering.step_acc as int,
        )
    }

    /// What one `process_buffer` call does, at the level of sequences:
    /// the emitted samples, the engine state after, and the new overlap.
    pub open spec fn process_spec(&self, input: Seq<i32>) -> (Seq<i32>, (int, int, int), Seq<i32>) {
        let c = &self.filtering;
        let l = c.filter_length as int;
        let ch = c.channels as int;
        let rest_len = (l - 1) * ch;
        let min_len = l * ch;
        if input.len() == 0 {
            (Seq::empty(), self.eng(), self.overlap@)
        } else {
            let copy = if input.len() < rest_len {
                input.len() as int
            } else {
                rest_len
            };
            let ov1 = self.overlap@ + input.take(copy);
            let (fi, pos, acc) = self.eng();
            let out1 = if ov1.len() >= min_len {
                c.run_out(fi, pos, acc, ov1)
            } else {
                Seq::<i32>::empty()
            };
            let st1 = if ov1.len() >= min_len {
                c.run_st(fi, pos, acc, ov1)
            } else {
                self.eng()
            };
            if input.len() < min_len {
                let ov2 = if ov1.len() > rest_len {
                    ov1.skip(ov1.len() - rest_len)
                } else {
                    ov1
                };
                (out1, st1, ov2)
            } else {
                let out2 = c.run_out(st1.0, st1.1, st1.2, input);
                let st2 = c.run_st(st1.0, st1.1, st1.2, input);
                (out1 + out2, st2, input.skip(input.len() - rest_len))
            }
        }
    }

    /// What one `process_last_buffer` call does: process the final block,
    /// then pad the overlap with silence and drain the trailing latency.
    pub open spec fn flush_spec(&self, input: Seq<i32>) -> (Seq<i32>, (int, int, int), Seq<i32>) {
        let c = &self.filtering;
        let ch = c.channels as int;
        let (out1, st1, ov1) = self.process_spec(input);
        let pad = (c.filter_length - self.filter_offset - 1) * ch;
        let ov2 = ov1 + Seq::new(pad as nat, |i: int| 0i32);
        let out2 = c.run_out(st1.0, st1.1, st1.2, ov2);
        let st2 = c.run_st(st1.0, st1.1, st1.2, ov2);
        (out1 + out2, st2, Seq::new((self.filter_offset * ch) as nat, |i: int| 0i32))
    }

    /// The caller's sizing rule for `process_buffer`, in machine form.  One
    /// call emits at most
    /// `channels * ((input_len + 2 * channels) * denom + 2 * frame_weight)`
    /// divided by `frame_weight` samples; for a converter built from rates
    /// the weight is `channels * from_rate` and `denom` is `to_rate`, so per
    /// channel this is the documented bound of roughly the input frames
    /// scaled by `to_rate / from_rate` plus a filter length of slack.
    pub proof fn lemma_process_len_bound(s: &Samplerate, input: Seq<i32>)
        requires
            s.wf(),
        ensures
            s.process_spec(input).0.len() * s.filtering.frame_weight() <= (
            s.filtering.channels as int) * ((input.len() + 2 * s.filtering.channels)
                * s.filtering.denom + 2 * s.filtering.frame_weight()),
    {
        let c = &s.filtering;
        let ch = c.channels as int;
        let denom = c.denom as int;
        let l = c.filter_length as int;
        let k = c.frame_weight();
        let rest_len = (l - 1) * ch;
        assert(k >= 0 && 0 <= rest_len) by (nonlinear_arith)
            requires
                k == c.input_step_low * denom + c.nom * ch,
                c.input_step_low >= 0,
                c.nom >= 0,
                denom >= 1,
                ch >= 1,
                rest_len == (l - 1) * ch,
                l >= 1,
        ;
        let out = s.process_spec(input).0;
        if input.len() == 0 {
            assert(out.len() * k <= ch * ((input.len() + 2 * ch) * denom + 2 * k))
                by (nonlinear_arith)
                requires
                    out.len() == 0,
                    k >= 0,
                    ch >= 1,
                    denom >= 1,
                    input.len() == 0,
            ;
        } else {
            let copy = if input.len() < rest_len {
                input.len() as int
            } else {
                rest_len
            };
            let ov1 = s.overlap@ + input.take(copy);
            let (fi, pos, acc) = s.eng();
            let room1 = c.room(pos, ov1.len() as int);
            assert(room1 <= copy);
            let st1 = if ov1.len() >= l * ch {
                c.run_st(fi, pos, acc, ov1)
            } else {
                s.eng()
            };
            let out1 = if ov1.len() >= l * ch {
                c.run_out(fi, pos, acc, ov1)
            } else {
                Seq::<i32>::empty()
            };
            if ov1.len() >= l * ch {
                c.lemma_run_len_bound(fi, pos, acc, ov1);
                c.lemma_run_st_bounds(fi, pos, acc, ov1);
            }
            assert(out1.len() * k <= ch * (copy * denom + denom * ch + k)) by (nonlinear_arith)
                requires
                    out1.len() * k <= ch * (room1 * denom + (denom - acc) * ch + k) || (
                    out1.len() == 0 && k >= 0),
                    0 <= room1 <= copy,
                    0 <= acc,
                    denom >= 1,
                    ch >= 1,
                    k >= 0,
                    copy >= 0,
            ;
            assert(0 <= st1.2 < denom && 0 <= st1.1);
            if input.len() < l * ch {
                assert(out == out1);
                assert(out.len() * k <= ch * ((input.len() + 2 * ch) * denom + 2 * k))
                    by (nonlinear_arith)
                    requires
                        out.len() * k <= ch * (copy * denom + denom * ch + k),
                        copy <= input.len(),
                        denom >= 1,
                        ch >= 1,
                        k >= 0,
                ;
            } else {
                assert(copy == rest_len) by (nonlinear_arith)
                    requires
                        copy == if input.len() < rest_len {
                            input.len() as int
                        } else {
                            rest_len
                        },
                        input.len() >= l * ch,
                        rest_len == (l - 1) * ch,
                        l >= 1,
                        ch >= 1,
                ;
                let out2 = c.run_out(st1.0, st1.1, st1.2, input);
                let room2 = c.room(st1.1, input.len() as int);
                c.lemma_run_len_bound(st1.0, st1.1, st1.2, input);
                assert(room2 <= input.len() - rest_len);
                assert(out == out1 + out2);
                assert(out.len() * k <= ch * ((input.len() + 2 * ch) * denom + 2 * k))
                    by (nonlinear_arith)
                    requires
                        out.len() == out1.len() + out2.len(),
                        out1.len() * k <= ch * (copy * denom + denom * ch + k),
                        out2.len() * k <= ch * (room2 * denom + (denom - st1.2) * ch + k),
                        0 <= room2 <= input.len() - rest_len,
                        copy == rest_len,
                        0 <= st1.2,
                        denom >= 1,
                        ch >= 1,
                        k >= 0,
                ;
            }
        }
    }

    /// The caller's sizing rule for `process_last_buffer`: the flush adds at
    /// most one filter length of padded frames, so one terminal call emits at
    /// most `channels * ((input_len + filter_length * channels + 3 * channels)
    /// * denom + 3 * frame_weight)` divided by `frame_weight` samples.
    pub proof fn lemma_flush_len_bound(s: &Samplerate, input: Seq<i32>)
        requires
            s.wf(),
        ensures
            s.flush_spec(input).0.len() * s.filtering.frame_weight() <= (
            s.filtering.channels as int) * ((input.len() + s.filtering.filter_length
                * s.filtering.channels + 3 * s.filtering.channels) * s.filtering.denom + 3
                * s.filtering.frame_weight()),
    {
        let c = &s.filtering;
        let ch = c.channels as int;
        let denom = c.denom as int;
        let l = c.filter_length as int;
        let k = c.frame_weight();
        let rest_len = (l - 1) * ch;
        assert(k >= 0 && 0 <= rest_len) by (nonlinear_arith)
            requires
                k == c.input_step_low * denom + c.nom * ch,
                c.input_step_low >= 0,
                c.nom >= 0,
                denom >= 1,
                ch >= 1,
                rest_len == (l - 1) * ch,
                l >= 1,
        ;
        Self::lemma_process_len_bound(s, input);
        let (out1, st1, ov1) = s.process_spec(input);
        // The retained overlap never exceeds its resting size.
        assert(ov1.len() <= rest_len) by {
            if input.len() == 0 {
            } else {
                let copy = if input.len() < rest_len {
                    input.len() as int
                } else {
                    rest_len
                };
                if input.len() >= l * ch {
                    assert(input.len() >= rest_len) by (nonlinear_arith)
                        requires
                            input.len() >= l * ch,
                            rest_len == (l - 1) * ch,
                            l >= 1,
                            ch >= 1,
                    ;
                }
            }
        }
        // The engine state after processing is still within bounds.
        assert(0 <= st1.2 < denom && 0 <= st1.1) by {
            if input.len() == 0 {
            } else {
                let copy = if input.len() < rest_len {
                    input.len() as int
                } else {
                    rest_len
                };
                let ova = s.overlap@ + input.take(copy);
                if ova.len() >= l * ch {
                    c.lemma_run_st_bounds(s.eng().0, s.eng().1, s.eng().2, ova);
                }
                if input.len() >= l * ch {
                    let mid = if ova.len() >= l * ch {
                        c.run_st(s.eng().0, s.eng().1, s.eng().2, ova)
                    } else {
                        s.eng()
                    };
                    c.lemma_run_st_bounds(mid.0, mid.1, mid.2, input);
                }
            }
        }
        let pad = (l - s.filter_offset - 1) * ch;
        assert(0 <= pad <= l * ch) by (nonlinear_arith)
            requires
                pad == (l - s.filter_offset - 1) * ch,
                0 <= s.filter_offset < l,
                ch >= 1,
        ;
        let ov2 = ov1 + Seq::new(pad as nat, |i: int| 0i32);
        let room3 = c.room(st1.1, ov2.len() as int);
        assert(room3 <= pad);
        c.lemma_run_len_bound(st1.0, st1.1, st1.2, ov2);
        let out2 = c.run_out(st1.0, st1.1, st1.2, ov2);
        assert(s.flush_spec(input).0 == out1 + out2);
        assert((out1.len() + out2.len()) * k <= ch * ((input.len() + l * ch + 3 * ch) * denom + 3
            * k)) by (nonlinear_arith)
            requires
                out1.len() * k <= ch * ((input.len() + 2 * ch) * denom + 2 * k),
                out2.len() * k <= ch * (room3 * denom + (denom - st1.2) * ch + k),
                0 <= room3 <= pad <= l * ch,
                0 <= st1.2,
                denom >= 1,
                ch >= 1,
                k >= 0,
        ;
    }

    /// The configurations that construction accepts: positive rates, a
    /// positive channel count, a well-formed filter bank, and sizes small
    /// enough that index arithmetic cannot overflow the machine word.
    pub open spec fn valid_config(
        bank_len: int,
        filter_length: int,
        filter_offset: int,
        from_rate: int,
        to_rate: int,
        channels: int,
    ) -> bool {
        &&& from_rate > 0
        &&& to_rate > 0
        &&& channels > 0
        &&& filter_length > 0
        &&& bank_len > 0
        &&& bank_len % filter_length == 0
        &&& filter_offset < filter_length
        &&& filter_length * channels <= usize::MAX / 8
        &&& (from_rate / to_rate) * channels <= usize::MAX / 8
    }

    /// Create a new samplerate converter using a sinc filter of length 8.
    ///
    /// There is no low pass filtering, so there may be aliasing when
    /// downsampling.  Zero rates or a zero channel count are rejected.
    pub fn new(from_rate: u32, to_rate: u32, channels: usize) -> (r: Result<Samplerate, Error>)
        ensures
            (from_rate == 0 || to_rate == 0) <==> r == Err::<Samplerate, Error>(Error::BadRate),
            (from_rate > 0 && to_rate > 0 && channels == 0) <==> r == Err::<Samplerate, Error>(
                Error::BadChannels,
            ),
            (from_rate > 0 && to_rate > 0 && channels > 0) ==> (r is Ok <==> (8 * (
            channels as int) <= usize::MAX / 8 && ((from_rate as int) / (to_rate as int)) * (
            channels as int) <= usize::MAX / 8)),
            r is Ok ==> ({
                let s = r.unwrap();
                &&& s.wf()
                &&& s.filtering.filters@ == spec_bank(
                    8,
                    (from_rate % to_rate) as int,
                    to_rate as int,
                )
                &&& s.filtering.filters@.len() == 8 * (to_rate as int / spec_gcd(
                    from_rate as nat,
                    to_rate as nat,
                ) as int)
                &&& s.filtering.filter_length == 8
                &&& s.filter_offset == 3
                &&& s.filtering.channels == channels
                &&& s.filtering.nom == from_rate as int % to_rate as int
                &&& s.filtering.denom == to_rate
                &&& s.filtering.input_step_low == (from_rate as int / to_rate as int) * channels
                &&& s.eng() == (0int, 0int, 0int)
                &&& s.overlap@ == Seq::new((3 * channels) as nat, |i: int| 0i32)
            }),
    {
        if from_rate == 0 || to_rate == 0 {
            return Err(Error::BadRate);
        }
        if channels == 0 {
            return Err(Error::BadChannels);
        }
        let filter_count = Self::filter_count(from_rate, to_rate);
        let filters = build_sinc(8, from_rate, to_rate);
        proof {
            lemma_period_properties((from_rate % to_rate) as int, to_rate as int);
            vstd::arithmetic::div_mod::lemma_mod_bound(from_rate as int, to_rate as int);
            vstd::arithmetic::div_mod::lemma_small_mod(
                (from_rate % to_rate) as nat,
                to_rate as nat,
            );
            assert(spec_gcd(from_rate as nat, to_rate as nat) == spec_gcd(
                to_rate as nat,
                (from_rate % to_rate) as nat,
            ));
            assert(spec_gcd((from_rate % to_rate) as nat, to_rate as nat) == spec_gcd(
                to_rate as nat,
                (from_rate % to_rate) as nat,
            ));
            assert(filters@.len() == filter_count * 8);
        }
        Self::from_filters(filters, 8, 3, from_rate, to_rate, channels)
    }

    /// How many filter phases `new` builds for a rate pair:
    /// `to_rate / gcd(from_rate, to_rate)`.
    pub fn filter_count(from_rate: u32, to_rate: u32) -> (n: u32)
        requires
            from_rate > 0,
            to_rate > 0,
        ensures
            n as int == spec_period((from_rate % to_rate) as int, to_rate as int),
    {
        let g = gcd_u32(from_rate, to_rate);
        proof {
            lemma_gcd_pos(from_rate as nat, to_rate as nat);
            vstd::arithmetic::div_mod::lemma_mod_bound(from_rate as int, to_rate as int);
            vstd::arithmetic::div_mod::lemma_small_mod(
                (from_rate % to_rate) as nat,
                to_rate as nat,
            );
            assert(spec_gcd(from_rate as nat, to_rate as nat) == spec_gcd(
                to_rate as nat,
                (from_rate % to_rate) as nat,
            ));
            assert(spec_gcd((from_rate % to_rate) as nat, to_rate as nat) == spec_gcd(
                to_rate as nat,
                (from_rate % to_rate) as nat,
            ));
        }
        to_rate / g
    }

    /// Create a new samplerate converter that uses the supplied filter bank.
    ///
    /// The bank must hold at least one whole `filter_length`-tap phase, the
    /// offset must lie inside a phase, rates and channel count must be
    /// positive, and the configuration must be small enough for index
    /// arithmetic; each violation is rejected with its own error.
    pub fn from_filters(
        filters: Vec<i32>,
        filter_length: usize,
        filter_offset: usize,
        from_rate: u32,
        to_rate: u32,
        channels: usize,
    ) -> (r: Result<Samplerate, Error>)
        ensures
            r is Ok <==> Self::valid_config(
                filters@.len() as int,
                filter_length as int,
                filter_offset as int,
                from_rate as int,
                to_rate as int,
                channels as int,
            ),
            (from_rate == 0 || to_rate == 0) <==> r == Err::<Samplerate, Error>(Error::BadRate),
            (from_rate > 0 && to_rate > 0 && channels == 0) <==> r == Err::<Samplerate, Error>(
                Error::BadChannels,
            ),
            (from_rate > 0 && to_rate > 0 && channels > 0 && (filter_length == 0
                || filters@.len() == 0 || filters@.len() as int % (filter_length as int) != 0
                || filter_offset >= filter_length)) <==> r == Err::<Samplerate, Error>(
                Error::BadFilter,
            ),
            (from_rate > 0 && to_rate > 0 && channels > 0 && filter_length > 0
                && filters@.len() > 0 && filters@.len() as int % (filter_length as int) == 0
                && filter_offset < filter_length && !((filter_length as int) * (channels as int)
                <= usize::MAX / 8 && ((from_rate as int) / (to_rate as int)) * (channels as int)
                <= usize::MAX / 8)) <==> r == Err::<Samplerate, Error>(Error::TooLarge),
            r is Ok ==> ({
                let s = r.unwrap();
                &&& s.wf()
                &&& s.filtering.filters == filters
                &&& s.filtering.filter_length == filter_length
                &&& s.filter_offset == filter_offset
                &&& s.filtering.channels == channels
                &&& s.filtering.nom == from_rate as int % to_rate as int
                &&& s.filtering.denom == to_rate
                &&& s.filtering.input_step_low == (from_rate as int / to_rate as int) * channels
                &&& s.filtering.frame_weight() == (channels as int) * (from_rate as int)
                &&& s.eng() == (0int, 0int, 0int)
                &&& s.overlap@ == Seq::new((filter_offset * channels) as nat, |i: int| 0i32)
            }),
    {
        if from_rate == 0 || to_rate == 0 {
            return Err(Error::BadRate);
        }
        if channels == 0 {
            return Err(Error::BadChannels);
        }
        if filter_length == 0 || filters.len() == 0 || filters.len() % filter_length != 0
            || filter_offset >= filter_length {
            return Err(Error::BadFilter);
        }
        let lc = match filter_length.checked_mul(channels) {
            Some(lc) => lc,
            None => {
                return Err(Error::TooLarge);
            },
        };
        if lc > usize::MAX / 8 {
            return Err(Error::TooLarge);
        }
        let step = match (from_rate as usize / to_rate as usize).checked_mul(channels) {
            Some(s) => s,
            None => {
                return Err(Error::TooLarge);
            },
        };
        if step > usize::MAX / 8 {
            return Err(Error::TooLarge);
        }
        proof {
            assert(8 * (filter_length as int) * (channels as int) <= usize::MAX)
                by (nonlinear_arith)
                requires
                    (filter_length as int) * (channels as int) <= usize::MAX / 8,
            ;
        }
        let filtering = FilteringContext::new(
            filters,
            filter_length,
            from_rate as usize,
            to_rate as usize,
            channels,
        );
        let mut overlap: Vec<i32> = Vec::new();
        proof {
            assert(filter_offset * channels <= filter_length * channels) by (nonlinear_arith)
                requires
                    0 <= filter_offset <= filter_length,
                    channels >= 0,
            ;
        }
        let seed = filter_offset * channels;
        proof {
            assert(filter_offset * channels % (channels as int) == 0) by {
                vstd::arithmetic::div_mod::lemma_mod_multiples_basic(
                    filter_offset as int,
                    channels as int,
                );
            }
            assert((filter_offset * channels) as int <= (filter_length - 1) * (channels as int))
                by (nonlinear_arith)
                requires
                    0 <= filter_offset < filter_length,
                    channels >= 1,
            ;
        }
        push_zeros(&mut overlap, seed);
        proof {
            assert(overlap@ =~= Seq::new((filter_offset * channels) as nat, |i: int| 0i32));
            vstd::arithmetic::div_mod::lemma_fundamental_div_mod(
                from_rate as int,
                to_rate as int,
            );
            assert(filtering.frame_weight() == (channels as int) * (from_rate as int))
                by (nonlinear_arith)
                requires
                    filtering.frame_weight() == filtering.input_step_low * filtering.denom
                        + filtering.nom * filtering.channels,
                    filtering.input_step_low == (from_rate as int / to_rate as int) * (
                    channels as int),
                    filtering.nom == from_rate as int % to_rate as int,
                    filtering.denom == to_rate as int,
                    filtering.channels == channels,
                    from_rate as int == to_rate as int * (from_rate as int / to_rate as int)
                        + from_rate as int % to_rate as int,
            ;
        }
        Ok(Samplerate { filtering, overlap, filter_offset })
    }

    /// Process a block of samples.
    ///
    /// Channels are interleaved, so `input` must hold whole frames.  Output
    /// samples are written at `output[from..]`; the caller provides room for
    /// at least the input length scaled by the conversion ratio plus the
    /// filter length.  Returns how many samples were written.
    pub fn process_buffer(&mut self, input: &[i32], output: &mut Vec<i32>, from: usize) -> (count:
        usize)
        requires
            old(self).wf(),
            input@.len() as int % (old(self).filtering.channels as int) == 0,
            input@.len() <= usize::MAX / 2,
            from + old(self).process_spec(input@).0.len() <= old(output)@.len(),
        ensures
            final(self).wf(),
            old(self).filtering.same_config(&final(self).filtering),
            final(self).filter_offset == old(self).filter_offset,
            count == old(self).process_spec(input@).0.len(),
            final(self).eng() == old(self).process_spec(input@).1,
            final(self).overlap@ == old(self).process_spec(input@).2,
            final(output)@.len() == old(output)@.len(),
            from + count <= final(output)@.len(),
            final(output)@.subrange(from as int, from as int + count) == old(self).process_spec(
                input@,
            ).0,
            forall|i: int|
                0 <= i < final(output)@.len() && !(from <= i < from + count)
                    ==> final(output)@[i] == old(output)@[i],
    {
        let ghost s0 = *self;
        let ghost spec3 = s0.process_spec(input@);
        if input.len() == 0 {
            proof {
                assert(output@.subrange(from as int, from as int) =~= spec3.0);
            }
            return 0;
        }
        let channels = self.filtering.channels;
        let filter_length = self.filtering.filter_length;
        proof {
            assert((filter_length as int) * (channels as int) <= usize::MAX / 8 && 0 <= (
            filter_length - 1) * (channels as int) && (filter_length - 1) * (channels as int) + (
            channels as int) == (filter_length as int) * (channels as int)) by (nonlinear_arith)
                requires
                    8 * (filter_length as int) * (channels as int) <= usize::MAX,
                    filter_length >= 1,
                    channels >= 1,
            ;
        }
        let min_input_length = filter_length * channels;
        let overlap_length = (filter_length - 1) * channels;
        let copy_length = if input.len() < overlap_length {
            input.len()
        } else {
            overlap_length
        };
        let pre = slice_subrange(input, 0, copy_length);
        self.overlap.extend_from_slice(pre);
        let ghost ov1 = s0.overlap@ + input@.take(copy_length as int);
        proof {
            assert(pre@ =~= input@.take(copy_length as int));
            assert(self.overlap@ =~= ov1);
            // The combined buffer still holds whole frames.
            vstd::arithmetic::div_mod::lemma_mod_multiples_basic(
                filter_length as int - 1,
                channels as int,
            );
            vstd::arithmetic::div_mod::lemma_add_mod_noop(
                s0.overlap@.len() as int,
                copy_length as int,
                channels as int,
            );
            vstd::arithmetic::div_mod::lemma_small_mod(0nat, channels as nat);
            assert(ov1.len() as int % (channels as int) == 0);
        }
        let mut count: usize = 0;
        if self.overlap.len() >= min_input_length {
            proof {
                assert(ov1.len() + (filter_length as int + 2) * (channels as int)
                    + s0.filtering.input_step_low <= usize::MAX) by (nonlinear_arith)
                    requires
                        ov1.len() <= 2 * ((filter_length as int - 1) * (channels as int)),
                        8 * (filter_length as int) * (channels as int) <= usize::MAX,
                        8 * (s0.filtering.input_step_low as int) <= usize::MAX,
                        filter_length >= 1,
                        channels >= 1,
                ;
            }
            let ft = &mut self.filtering;
            let ov = self.overlap.as_slice();
            count = ft.apply_filters(ov, output, from);
        }
        let ghost mid = if ov1.len() >= min_input_length as int {
            s0.filtering.run_st(s0.eng().0, s0.eng().1, s0.eng().2, ov1)
        } else {
            s0.eng()
        };
        if input.len() < min_input_length {
            if self.overlap.len() > overlap_length {
                let excess = self.overlap.len() - overlap_length;
                drop_front(&mut self.overlap, excess);
            }
            proof {
                assert(count == spec3.0.len());
                assert(output@.subrange(from as int, from as int + count as int) == spec3.0);
                assert(self.overlap@ == spec3.2);
            }
        } else {
            proof {
                assert(input@.len() + (filter_length as int + 2) * (channels as int)
                    + s0.filtering.input_step_low <= usize::MAX) by (nonlinear_arith)
                    requires
                        input@.len() <= usize::MAX / 2,
                        8 * (filter_length as int) * (channels as int) <= usize::MAX,
                        8 * (s0.filtering.input_step_low as int) <= usize::MAX,
                        filter_length >= 1,
                        channels >= 1,
                ;
            }
            let ghost out1 = output@.subrange(from as int, from as int + count as int);
            proof {
                assert(output.len() == output@.len());
                lemma_run_same_config(
                    &self.filtering,
                    &s0.filtering,
                    self.filtering.filter_index as int,
                    self.filtering.input_start as int,
                    self.filtering.step_acc as int,
                    input@,
                );
                assert(self.eng() == mid);
                assert(spec3.0 == out1 + s0.filtering.run_out(mid.0, mid.1, mid.2, input@));
                assert(spec3.1 == s0.filtering.run_st(mid.0, mid.1, mid.2, input@));
            }
            let c2 = self.filtering.apply_filters(input, output, from + count);
            proof {
                assert(output@.subrange(from as int, from as int + count as int) =~= out1);
                assert(output@.subrange(
                    from as int,
                    from as int + count as int + c2 as int,
                ) =~= out1 + output@.subrange(
                    from as int + count as int,
                    from as int + count as int + c2 as int,
                ));
            }
            count = count + c2;
            self.overlap.clear();
            let tail = slice_subrange(input, input.len() - overlap_length, input.len());
            self.overlap.extend_from_slice(tail);
            proof {
                assert(self.overlap@ =~= input@.skip(input@.len() - overlap_length as int));
            }
        }
        count
    }

    /// Process the last block of samples of a stream.
    ///
    /// Same as `process_buffer`, but afterwards pads the retained overlap
    /// with silence and drains it, so the trailing samples whose convolution
    /// window extends past the end of the stream are emitted too.  The
    /// overlap is then reset to `filter_offset` frames of silence.
    pub fn process_last_buffer(
        &mut self,
        input: &[i32],
        output: &mut Vec<i32>,
        from: usize,
    ) -> (count: usize)
        requires
            old(self).wf(),
            input@.len() as int % (old(self).filtering.channels as int) == 0,
            input@.len() <= usize::MAX / 2,
            from + old(self).flush_spec(input@).0.len() <= old(output)@.len(),
        ensures
            final(self).wf(),
            old(self).filtering.same_config(&final(self).filtering),
            final(self).filter_offset == old(self).filter_offset,
            count == old(self).flush_spec(input@).0.len(),
            final(self).eng() == old(self).flush_spec(input@).1,
            final(self).overlap@ == old(self).flush_spec(input@).2,
            final(output)@.len() == old(output)@.len(),
            from + count <= final(output)@.len(),
            final(output)@.subrange(from as int, from as int + count) == old(self).flush_spec(
                input@,
            ).0,
            forall|i: int|
                0 <= i < final(output)@.len() && !(from <= i < from + count)
                    ==> final(output)@[i] == old(output)@[i],
    {
        let ghost s0 = *self;
        let ghost fspec = s0.flush_spec(input@);
        let ghost pspec = s0.process_spec(input@);
        let count1 = self.process_buffer(input, output, from);
        let channels = self.filtering.channels;
        let filter_length = self.filtering.filter_length;
        proof {
            assert(0 <= (filter_length - self.filter_offset - 1) * (channels as int) && (
            filter_length - self.filter_offset - 1) * (channels as int) <= (filter_length as int)
                * (channels as int) && (filter_length as int) * (channels as int) <= usize::MAX / 8
                && 0 <= (filter_length - 1) * (channels as int) <= (filter_length as int) * (
            channels as int)) by (nonlinear_arith)
                requires
                    8 * (filter_length as int) * (channels as int) <= usize::MAX,
                    0 <= self.filter_offset < filter_length,
                    channels >= 1,
            ;
        }
        let pad = (filter_length - self.filter_offset - 1) * channels;
        let ghost ov2 = pspec.2 + Seq::new(pad as nat, |i: int| 0i32);
        push_zeros(&mut self.overlap, pad);
        proof {
            assert(self.overlap@ == ov2);
            vstd::arithmetic::div_mod::lemma_mod_multiples_basic(
                filter_length as int - self.filter_offset - 1,
                channels as int,
            );
            vstd::arithmetic::div_mod::lemma_add_mod_noop(
                pspec.2.len() as int,
                pad as int,
                channels as int,
            );
            vstd::arithmetic::div_mod::lemma_small_mod(0nat, channels as nat);
            assert(ov2.len() as int % (channels as int) == 0);
            assert(ov2.len() + (filter_length as int + 2) * (channels as int)
                + s0.filtering.input_step_low <= usize::MAX) by (nonlinear_arith)
                requires
                    ov2.len() <= 2 * ((filter_length as int) * (channels as int)),
                    8 * (filter_length as int) * (channels as int) <= usize::MAX,
                    8 * (s0.filtering.input_step_low as int) <= usize::MAX,
                    filter_length >= 1,
                    channels >= 1,
            ;
        }
        let ghost out1 = output@.subrange(from as int, from as int + count1 as int);
        proof {
            assert(output.len() == output@.len());
            lemma_run_same_config(
                &self.filtering,
                &s0.filtering,
                self.filtering.filter_index as int,
                self.filtering.input_start as int,
                self.filtering.step_acc as int,
                ov2,
            );
            assert(self.eng() == pspec.1);
            assert(fspec.0 == pspec.0 + s0.filtering.run_out(pspec.1.0, pspec.1.1, pspec.1.2, ov2));
        }
        let ft = &mut self.filtering;
        let ov = self.overlap.as_slice();
        let c2 = ft.apply_filters(ov, output, from + count1);
        proof {
            assert(output@.subrange(from as int, from as int + count1 as int) =~= out1);
            assert(output@.subrange(
                from as int,
                from as int + count1 as int + c2 as int,
            ) =~= out1 + output@.subrange(
                from as int + count1 as int,
                from as int + count1 as int + c2 as int,
            ));
        }
        proof {
            assert(output.len() == output@.len());
        }
        let count = count1 + c2;
        self.overlap.clear();
        proof {
            assert(0 <= self.filter_offset * (channels as int) <= (filter_length - 1) * (
            channels as int)) by (nonlinear_arith)
                requires
                    0 <= self.filter_offset < filter_length,
                    channels >= 1,
            ;
            vstd::arithmetic::div_mod::lemma_mod_multiples_basic(
                self.filter_offset as int,
                channels as int,
            );
        }
        let seed = self.filter_offset * channels;
        push_zeros(&mut self.overlap, seed);
        proof {
            assert(self.overlap@ =~= Seq::new(
                (self.filter_offset * channels) as nat,
                |i: int| 0i32,
            ));
        }
        count
    }
}

} // verus!
