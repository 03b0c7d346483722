//! The resumable polyphase convolution engine.
//!
//! The engine owns the flat filter bank and a small mutable state — active
//! phase, rational step accumulator and input position — that persists
//! between calls so a stream can be processed in blocks.

use vstd::prelude::*;
use vstd::arithmetic::div_mod::*;
use crate::arith::lemma_abs_mul_le;
use crate::sample::{spec_requant, requant};

verus! {

/// Dot product of `n` filter taps starting at `fi` against input samples
/// starting at `ii` with stride `stride`, as a mathematical integer.
pub open spec fn spec_dot(
    filters: Seq<i32>,
    fi: int,
    input: Seq<i32>,
    ii: int,
    stride: int,
    n: nat,
) -> int
    decreases n,
{
    if n == 0 {
        0
    } else {
        filters[fi] * input[ii] + spec_dot(filters, fi + 1, input, ii + stride, stride, (n - 1) as nat)
    }
}

/// Appending one more tap to a dot product.
pub proof fn lemma_dot_snoc(
    filters: Seq<i32>,
    fi: int,
    input: Seq<i32>,
    ii: int,
    stride: int,
    n: nat,
)
    ensures
        spec_dot(filters, fi, input, ii, stride, (n + 1) as nat) == spec_dot(
            filters,
            fi,
            input,
            ii,
            stride,
            n,
        ) + filters[fi + n] * input[ii + n * stride],
    decreases n,
{
    if n == 0 {
        assert(0 * stride == 0);
        assert(spec_dot(filters, fi + 1, input, ii + stride, stride, 0) == 0);
        assert(spec_dot(filters, fi, input, ii, stride, 1) == filters[fi] * input[ii]
            + spec_dot(filters, fi + 1, input, ii + stride, stride, 0));
    } else {
        lemma_dot_snoc(filters, fi + 1, input, ii + stride, stride, (n - 1) as nat);
        assert(ii + stride + (n - 1) * stride == ii + n * stride) by (nonlinear_arith);
        assert(fi + 1 + (n - 1) == fi + n);
    }
}


/// If `a` and `b` are both multiples of `l` and `a < b`, the gap is at
/// least `l`.
pub proof fn lemma_aligned_lt(a: int, l: int, b: int)
    requires
        l > 0,
        a % l == 0,
        b % l == 0,
        0 <= a < b,
    ensures
        a + l <= b,
{
    lemma_fundamental_div_mod(a, l);
    lemma_fundamental_div_mod(b, l);
    assert(a + l <= b) by (nonlinear_arith)
        requires
            a == l * (a / l),
            b == l * (b / l),
            0 <= a < b,
            l > 0,
    ;
}


/// A run depends only on the engine configuration, never on the stored
/// mutable state: two engines with equal configuration run identically.
pub proof fn lemma_run_same_config(
    a: &FilteringContext,
    b: &FilteringContext,
    fi: int,
    pos: int,
    acc: int,
    input: Seq<i32>,
)
    requires
        a.same_config(b),
    ensures
        a.run_out(fi, pos, acc, input) == b.run_out(fi, pos, acc, input),
        a.run_st(fi, pos, acc, input) == b.run_st(fi, pos, acc, input),
    decreases a.room(pos, input.len() as int), a.denom - acc,
{
    if a.run_ok(acc) && input.len() >= (a.filter_length - 1) * a.channels && pos < a.limit(
        input.len() as int,
    ) {
        assert(a.frame_out(fi, pos, input) =~= b.frame_out(fi, pos, input));
        lemma_run_same_config(a, b, a.next_fi(fi), a.next_pos(pos, acc), a.next_acc(acc), input);
    } else {
        assert(a.run_out(fi, pos, acc, input) =~= b.run_out(fi, pos, acc, input));
    }
}

/// The polyphase convolution engine and its resumable state.
#[derive(Debug)]
pub struct FilteringContext {
    /// Fractional step numerator, reduced modulo `denom`.
    pub nom: usize,
    /// Fractional step denominator.
    pub denom: usize,
    /// Whole input samples consumed per output frame, channel-scaled.
    pub input_step_low: usize,
    /// Running remainder of the fractional step, always below `denom`.
    pub step_acc: usize,
    /// Start of the active phase inside `filters`.
    pub filter_index: usize,
    /// Taps per phase.
    pub filter_length: usize,
    /// All phases consecutively; length is a multiple of `filter_length`.
    pub filters: Vec<i32>,
    /// Interleaved channels per frame.
    pub channels: usize,
    /// Where to start processing the next input block.
    pub input_start: usize,
}

impl FilteringContext {
    /// Structural invariant of the engine.
    pub open spec fn wf(&self) -> bool {
        &&& 0 < self.denom <= 0x1_0000_0000
        &&& self.nom < self.denom
        &&& self.channels > 0
        &&& self.filter_length > 0
        &&& self.filters@.len() > 0
        &&& self.filters@.len() as int % (self.filter_length as int) == 0
        &&& self.filter_index < self.filters@.len()
        &&& self.filter_index as int % (self.filter_length as int) == 0
        &&& self.step_acc < self.denom
        &&& (self.nom > 0 || self.input_step_low > 0)
        &&& self.input_step_low as int % (self.channels as int) == 0
        &&& self.input_start as int % (self.channels as int) == 0
        &&& 8 * (self.filter_length as int) * (self.channels as int) <= usize::MAX
        &&& 8 * (self.input_step_low as int) <= usize::MAX
    }

    /// The engine configuration, without the mutable state.
    pub open spec fn same_config(&self, other: &Self) -> bool {
        &&& self.nom == other.nom
        &&& self.denom == other.denom
        &&& self.input_step_low == other.input_step_low
        &&& self.filter_length == other.filter_length
        &&& self.filters == other.filters
        &&& self.channels == other.channels
    }

    /// Index arithmetic on a block of `n` samples stays within the machine word.
    pub open spec fn fits(&self, n: int) -> bool {
        n + (self.filter_length as int + 2) * (self.channels as int) + self.input_step_low
            <= usize::MAX
    }

    /// First input position with too few samples ahead for a full window.
    pub open spec fn limit(&self, n: int) -> int {
        n - (self.filter_length - 1) * self.channels
    }

    /// Termination measure of a run: how far the position is from the limit.
    pub open spec fn room(&self, pos: int, n: int) -> int {
        if self.limit(n) >= pos {
            self.limit(n) - pos
        } else {
            0
        }
    }

    /// Whether the fractional step overflows at accumulator value `acc`.
    pub open spec fn carry(&self, acc: int) -> bool {
        acc + self.nom >= self.denom
    }

    /// The configurations and accumulator values on which a run is defined.
    pub open spec fn run_ok(&self, acc: int) -> bool {
        &&& 0 <= acc < self.denom
        &&& self.nom < self.denom
        &&& self.channels > 0
        &&& (self.nom > 0 || self.input_step_low > 0)
    }

    /// Phase index for the next output frame.
    pub open spec fn next_fi(&self, fi: int) -> int {
        if fi + self.filter_length == self.filters@.len() {
            0
        } else {
            fi + self.filter_length
        }
    }

    /// Input position for the next output frame.
    pub open spec fn next_pos(&self, pos: int, acc: int) -> int {
        pos + self.input_step_low + if self.carry(acc) {
            self.channels as int
        } else {
            0
        }
    }

    /// Step accumulator for the next output frame.
    pub open spec fn next_acc(&self, acc: int) -> int {
        if self.carry(acc) {
            acc + self.nom - self.denom
        } else {
            acc + self.nom
        }
    }

    /// The output frame produced at phase `fi` and input position `pos`:
    /// one requantized dot product per channel.
    pub open spec fn frame_out(&self, fi: int, pos: int, input: Seq<i32>) -> Seq<i32> {
        Seq::new(
            self.channels as nat,
            |c: int|
                spec_requant(
                    spec_dot(
                        self.filters@,
                        fi,
                        input,
                        pos + c,
                        self.channels as int,
                        self.filter_length as nat,
                    ),
                ),
        )
    }

    /// Everything one engine run emits over `input` from state
    /// `(fi, pos, acc)`: frames in order until the window no longer fits.
    pub open spec fn run_out(&self, fi: int, pos: int, acc: int, input: Seq<i32>) -> Seq<i32>
        decreases self.room(pos, input.len() as int), self.denom - acc,
    {
        if !self.run_ok(acc) || input.len() < (self.filter_length - 1) * self.channels
            || pos >= self.limit(input.len() as int) {
            Seq::empty()
        } else {
            self.frame_out(fi, pos, input) + self.run_out(
                self.next_fi(fi),
                self.next_pos(pos, acc),
                self.next_acc(acc),
                input,
            )
        }
    }

    /// The engine state after one run over `input` from `(fi, pos, acc)`:
    /// the position is rebased against the start of the next block.
    pub open spec fn run_st(&self, fi: int, pos: int, acc: int, input: Seq<i32>) -> (int, int, int)
        decreases self.room(pos, input.len() as int), self.denom - acc,
    {
        if !self.run_ok(acc) || input.len() < (self.filter_length - 1) * self.channels {
            (fi, pos, acc)
        } else if pos >= self.limit(input.len() as int) {
            (fi, pos - self.limit(input.len() as int), acc)
        } else {
            self.run_st(self.next_fi(fi), self.next_pos(pos, acc), self.next_acc(acc), input)
        }
    }

    /// The exact amount one output frame adds to the scaled input position
    /// `pos * denom + acc * channels`: for a converter built from rates it
    /// equals `channels * from_rate`.
    pub open spec fn frame_weight(&self) -> int {
        self.input_step_low * self.denom + self.nom * self.channels
    }

    /// How much one run can emit: each frame advances the scaled position by
    /// exactly `frame_weight`, so the output length times the weight is
    /// bounded by the available input, scaled by `denom * channels`.
    pub proof fn lemma_run_len_bound(&self, fi: int, pos: int, acc: int, input: Seq<i32>)
        requires
            self.wf(),
            0 <= acc <= self.denom,
        ensures
            self.run_out(fi, pos, acc, input).len() * self.frame_weight() <= (
            self.channels as int) * (self.room(pos, input.len() as int) * self.denom + (
            self.denom - acc) * self.channels + self.frame_weight()),
        decreases self.room(pos, input.len() as int), self.denom - acc,
    {
        let ch = self.channels as int;
        let denom = self.denom as int;
        let k = self.frame_weight();
        let room = self.room(pos, input.len() as int);
        assert(k >= 0 && room * denom >= 0 && (denom - acc) * ch >= 0) by (nonlinear_arith)
            requires
                k == self.input_step_low * denom + self.nom * ch,
                self.input_step_low >= 0,
                self.nom >= 0,
                denom >= 1,
                ch >= 1,
                room >= 0,
                acc <= denom,
        ;
        if !self.run_ok(acc) || input.len() < (self.filter_length - 1) * self.channels || pos
            >= self.limit(input.len() as int) {
            assert(self.run_out(fi, pos, acc, input).len() == 0);
        } else {
            let limit = self.limit(input.len() as int);
            let pos2 = self.next_pos(pos, acc);
            let acc2 = self.next_acc(acc);
            let rest = self.run_out(self.next_fi(fi), pos2, acc2, input);
            let out = self.run_out(fi, pos, acc, input);
            assert(out.len() == ch + rest.len());
            // One frame moves the scaled position by exactly the weight.
            assert((pos2 - pos) * denom + (acc2 - acc) * ch == k) by (nonlinear_arith)
                requires
                    k == self.input_step_low * denom + self.nom * ch,
                    pos2 == pos + self.input_step_low + if self.carry(acc) {
                        ch
                    } else {
                        0int
                    },
                    acc2 == if self.carry(acc) {
                        acc + self.nom - denom
                    } else {
                        acc + self.nom
                    },
                    self.carry(acc) <==> acc + self.nom >= denom,
            ;
            lemma_run_same_config(self, self, fi, pos, acc, input);
            self.lemma_run_len_bound(self.next_fi(fi), pos2, acc2, input);
            if pos2 >= limit {
                assert(rest.len() == 0);
                assert(out.len() * k <= ch * (room * denom + (denom - acc) * ch + k))
                    by (nonlinear_arith)
                    requires
                        out.len() == ch,
                        room * denom >= 0,
                        (denom - acc) * ch >= 0,
                        k >= 0,
                        ch >= 1,
                ;
            } else {
                let room2 = self.room(pos2, input.len() as int);
                assert(room2 == limit - pos2 && room == limit - pos);
                assert(out.len() * k <= ch * (room * denom + (denom - acc) * ch + k))
                    by (nonlinear_arith)
                    requires
                        out.len() == ch + rest.len(),
                        rest.len() * k <= ch * (room2 * denom + (denom - acc2) * ch + k),
                        (pos2 - pos) * denom + (acc2 - acc) * ch == k,
                        room2 == room - (pos2 - pos),
                        ch >= 1,
                        k >= 0,
                ;
            }
        }
    }

    /// The state a run leaves behind stays well formed: the accumulator
    /// remains below `denom` and the rebased position is never negative.
    pub proof fn lemma_run_st_bounds(&self, fi: int, pos: int, acc: int, input: Seq<i32>)
        requires
            self.wf(),
            0 <= acc < self.denom,
            0 <= pos,
        ensures
            ({
                let (fi2, pos2, acc2) = self.run_st(fi, pos, acc, input);
                0 <= acc2 < self.denom && 0 <= pos2
            }),
        decreases self.room(pos, input.len() as int), self.denom - acc,
    {
        if self.run_ok(acc) && input.len() >= (self.filter_length - 1) * self.channels && pos
            < self.limit(input.len() as int) {
            self.lemma_run_st_bounds(
                self.next_fi(fi),
                self.next_pos(pos, acc),
                self.next_acc(acc),
                input,
            );
        }
    }

    /// Create an engine over the given flat filter bank for the input/output
    /// rate ratio `nom / denom` on `channels` interleaved channels.
    pub fn new(
        filters: Vec<i32>,
        filter_length: usize,
        nom: usize,
        denom: usize,
        channels: usize,
    ) -> (r: FilteringContext)
        requires
            0 < denom <= 0x1_0000_0000,
            0 < nom <= 0x1_0000_0000,
            channels > 0,
            filter_length > 0,
            filters@.len() > 0,
            filters@.len() as int % (filter_length as int) == 0,
            (nom as int / denom as int) * channels <= usize::MAX / 8,
            8 * (filter_length as int) * (channels as int) <= usize::MAX,
        ensures
            r.wf(),
            r.nom == nom % denom,
            r.denom == denom,
            r.input_step_low == (nom as int / denom as int) * channels,
            r.step_acc == 0,
            r.filter_index == 0,
            r.filter_length == filter_length,
            r.filters == filters,
            r.channels == channels,
            r.input_start == 0,
    {
        let input_step_low = (nom / denom) * channels;
        proof {
            lemma_fundamental_div_mod(nom as int, denom as int);
            lemma_mod_bound(nom as int, denom as int);
            if nom % denom == 0 {
                assert(nom as int == denom as int * (nom as int / denom as int));
                assert(nom as int / denom as int >= 1) by (nonlinear_arith)
                    requires
                        nom as int == denom as int * (nom as int / denom as int),
                        nom > 0,
                        denom > 0,
                ;
                assert(input_step_low >= channels) by (nonlinear_arith)
                    requires
                        input_step_low == (nom as int / denom as int) * channels,
                        nom as int / denom as int >= 1,
                        channels > 0,
                ;
            }
            lemma_mod_multiples_basic(nom as int / denom as int, channels as int);
            assert((nom as int / denom as int) * channels % (channels as int) == 0);
            lemma_small_mod(0nat, channels as nat);
        }
        FilteringContext {
            nom: nom % denom,
            denom,
            input_step_low,
            step_acc: 0,
            filter_index: 0,
            filter_length,
            filters,
            channels,
            input_start: 0,
        }
    }

    /// Apply the filter bank to a block of `input` samples, writing output
    /// samples at `output[from..]` and returning how many were written.
    ///
    /// The run produces one frame per step of the rational position until
    /// fewer than `filter_length` frames remain ahead of the input position;
    /// the phase, accumulator and (rebased) position persist for the next
    /// block.  A block shorter than `filter_length - 1` frames produces
    /// nothing and leaves the state untouched.
    #[verifier::loop_isolation(false)]
    pub fn apply_filters(&mut self, input: &[i32], output: &mut Vec<i32>, from: usize) -> (count:
        usize)
        requires
            old(self).wf(),
            old(self).fits(input@.len() as int),
            input@.len() as int % (old(self).channels as int) == 0,
            from + old(self).run_out(
                old(self).filter_index as int,
                old(self).input_start as int,
                old(self).step_acc as int,
                input@,
            ).len() <= old(output)@.len(),
        ensures
            final(self).wf(),
            old(self).same_config(final(self)),
            ({
                let (fi, pos, acc) = old(self).run_st(
                    old(self).filter_index as int,
                    old(self).input_start as int,
                    old(self).step_acc as int,
                    input@,
                );
                final(self).filter_index == fi && final(self).input_start == pos
                    && final(self).step_acc == acc
            }),
            count == old(self).run_out(
                old(self).filter_index as int,
                old(self).input_start as int,
                old(self).step_acc as int,
                input@,
            ).len(),
            from + count <= final(output)@.len(),
            final(output)@.len() == old(output)@.len(),
            final(output)@.subrange(from as int, from as int + count) == old(self).run_out(
                old(self).filter_index as int,
                old(self).input_start as int,
                old(self).step_acc as int,
                input@,
            ),
            forall|i: int|
                0 <= i < final(output)@.len() && !(from <= i < from + count)
                    ==> final(output)@[i] == old(output)@[i],
    {
        let ghost c0 = *self;
        let ghost ofi = c0.filter_index as int;
        let ghost opos = c0.input_start as int;
        let ghost oacc = c0.step_acc as int;
        let ghost total = c0.run_out(ofi, opos, oacc, input@);
        let channels = self.channels;
        let filter_length = self.filter_length;
        proof {
            assert((filter_length - 1) * (channels as int) <= 8 * (filter_length as int) * (
            channels as int) && 0 <= (filter_length - 1) * (channels as int))
                by (nonlinear_arith)
                requires
                    filter_length >= 1,
                    channels >= 1,
            ;
        }
        let head = (filter_length - 1) * channels;
        if input.len() < head {
            proof {
                assert(total =~= output@.subrange(from as int, from as int));
            }
            return 0;
        }
        let input_length = input.len() - head;
        let mut input_index = self.input_start;
        let mut filter_index = self.filter_index;
        let mut step_acc = self.step_acc;
        let nom = self.nom;
        let denom = self.denom;
        let input_step_low = self.input_step_low;
        let mut output_index = from;
        proof {
            lemma_mod_multiples_basic(filter_length as int - 1, channels as int);
            lemma_sub_mod_noop(input@.len() as int, head as int, channels as int);
            lemma_small_mod(0nat, channels as nat);
            assert(input_length as int % (channels as int) == 0);
            assert(total == output@.subrange(from as int, from as int) + c0.run_out(
                filter_index as int, input_index as int, step_acc as int, input@));
        }
        while input_index < input_length
            invariant
                *self == c0,
                c0.wf(),
                c0.fits(input@.len() as int),
                input@.len() as int % (c0.channels as int) == 0,
                channels == c0.channels,
                filter_length == c0.filter_length,
                nom == c0.nom,
                denom == c0.denom,
                input_step_low == c0.input_step_low,
                input_length == c0.limit(input@.len() as int),
                step_acc < denom,
                filter_index < c0.filters@.len(),
                filter_index as int % (filter_length as int) == 0,
                input_index as int % (channels as int) == 0,
                c0.run_st(ofi, opos, oacc, input@) == c0.run_st(
                    filter_index as int,
                    input_index as int,
                    step_acc as int,
                    input@,
                ),
                total == output@.subrange(from as int, output_index as int) + c0.run_out(
                    filter_index as int,
                    input_index as int,
                    step_acc as int,
                    input@,
                ),
                from <= output_index,
                output_index - from + c0.run_out(
                    filter_index as int,
                    input_index as int,
                    step_acc as int,
                    input@,
                ).len() == total.len(),
                output@.len() == old(output)@.len(),
                forall|i: int|
                    0 <= i < output@.len() && !(from <= i < output_index)
                        ==> output@[i] == old(output)@[i],
            decreases c0.room(input_index as int, input@.len() as int), denom - step_acc,
        {
            let ghost frame = c0.frame_out(filter_index as int, input_index as int, input@);
            let ghost rest = c0.run_out(
                c0.next_fi(filter_index as int),
                c0.next_pos(input_index as int, step_acc as int),
                c0.next_acc(step_acc as int),
                input@,
            );
            proof {
                assert(c0.run_out(filter_index as int, input_index as int, step_acc as int, input@)
                    == frame + rest);
                assert(c0.filters.len() == c0.filters@.len());
                lemma_aligned_lt(input_index as int, channels as int, input_length as int);
                lemma_aligned_lt(
                    filter_index as int,
                    filter_length as int,
                    c0.filters@.len() as int,
                );
            }
            let ghost oi0 = output_index;
            let ghost out0 = output@;
            proof {
                assert(output.len() == output@.len());
            }
            let mut c: usize = 0;
            while c < channels
                invariant
                    *self == c0,
                    c0.wf(),
                    c0.fits(input@.len() as int),
                    channels == c0.channels,
                    filter_length == c0.filter_length,
                    input_length == c0.limit(input@.len() as int),
                    input_index + channels <= input_length,
                    filter_index + filter_length <= c0.filters@.len(),
                    c0.filters@.len() <= usize::MAX,
                    frame == c0.frame_out(filter_index as int, input_index as int, input@),
                    from <= oi0,
                    oi0 - from + channels + rest.len() == total.len(),
                    from + total.len() <= output@.len(),
                    output@.len() <= usize::MAX,
                    c <= channels,
                    output_index == oi0 + c,
                    output@.len() == old(output)@.len(),
                    forall|i: int|
                        0 <= i < output@.len() && !(oi0 <= i < output_index) ==> output@[i]
                            == out0[i],
                    output@.subrange(oi0 as int, output_index as int) == frame.take(c as int),
                decreases channels - c,
            {
                let mut fi = filter_index;
                let mut ii = input_index + c;
                let mut acc: i128 = 0;
                let mut t: usize = 0;
                while t < filter_length
                    invariant
                        *self == c0,
                        c0.wf(),
                        c0.fits(input@.len() as int),
                        channels == c0.channels,
                        filter_length == c0.filter_length,
                        input_length == c0.limit(input@.len() as int),
                        input_index + channels <= input_length,
                        c < channels,
                        t <= filter_length,
                        filter_index + filter_length <= c0.filters@.len(),
                        c0.filters@.len() <= usize::MAX,
                        fi == filter_index + t,
                        ii == input_index + c + t * channels,
                        acc == spec_dot(
                            c0.filters@,
                            filter_index as int,
                            input@,
                            input_index + c,
                            channels as int,
                            t as nat,
                        ),
                        -(t as int) * 0x4000_0000_0000_0000 <= acc <= (t as int)
                            * 0x4000_0000_0000_0000,
                    decreases filter_length - t,
                {
                    proof {
                        assert(ii < input@.len() && ii + channels <= input@.len() + channels)
                            by (nonlinear_arith)
                            requires
                                ii == input_index + c + t * channels,
                                input_index + channels <= input_length,
                                input_length == input@.len() - (filter_length - 1) * (
                                channels as int),
                                0 <= t < filter_length,
                                0 <= c < channels,
                        ;
                        assert((filter_length as int + 2) * (channels as int) >= channels as int)
                            by (nonlinear_arith)
                            requires
                                filter_length >= 1,
                                channels >= 0,
                        ;
                        lemma_dot_snoc(
                            c0.filters@,
                            filter_index as int,
                            input@,
                            input_index + c,
                            channels as int,
                            t as nat,
                        );
                    }
                    let fv = self.filters[fi];
                    let xv = input[ii];
                    proof {
                        lemma_abs_mul_le(fv as int, xv as int, 0x8000_0000, 0x8000_0000);
                        assert((t + 1) * 0x4000_0000_0000_0000int == t * 0x4000_0000_0000_0000int
                            + 0x4000_0000_0000_0000) by (nonlinear_arith);
                        assert((filter_length as int) * 0x4000_0000_0000_0000int
                            <= 0x1000_0000_0000_0000_0000_0000_0000_0000int) by (nonlinear_arith)
                            requires
                                8 * (filter_length as int) * (channels as int) <= usize::MAX,
                                channels >= 1,
                        ;
                        assert((t + 1) * 0x4000_0000_0000_0000int
                            <= (filter_length as int) * 0x4000_0000_0000_0000int)
                            by (nonlinear_arith)
                            requires
                                t + 1 <= filter_length,
                        ;
                    }
                    let prod: i128 = (fv as i128) * (xv as i128);
                    proof {
                        assert((t + 1) * (channels as int) == t * (channels as int)
                            + channels) by (nonlinear_arith);
                    }
                    acc = acc + prod;
                    fi = fi + 1;
                    ii = ii + channels;
                    t = t + 1;
                }
                proof {
                    assert((filter_length as int) * 0x4000_0000_0000_0000int
                        <= 0x1000_0000_0000_0000_0000_0000_0000_0000int) by (nonlinear_arith)
                        requires
                            8 * (filter_length as int) * (channels as int) <= usize::MAX,
                            channels >= 1,
                    ;
                }
                let v = requant(acc);
                assert(v == frame[c as int]);
                output.set(output_index, v);
                output_index = output_index + 1;
                c = c + 1;
                proof {
                    assert(output@.subrange(oi0 as int, output_index as int) =~= frame.take(
                        c as int));
                }
            }
            proof {
                assert(output@.subrange(from as int, oi0 as int) =~= out0.subrange(
                    from as int, oi0 as int));
                assert(frame.take(channels as int) =~= frame);
                assert(output@.subrange(from as int, output_index as int) =~= output@.subrange(
                    from as int, oi0 as int) + frame);
            }
            let ghost prev_fi = filter_index as int;
            let ghost prev_pos = input_index as int;
            let ghost prev_acc = step_acc as int;
            proof {
                lemma_aligned_lt(
                    filter_index as int,
                    filter_length as int,
                    c0.filters@.len() as int,
                );
                assert(c0.filters.len() == c0.filters@.len());
                assert((filter_length as int + 2) * (channels as int) >= 2 * (channels as int))
                    by (nonlinear_arith)
                    requires
                        filter_length >= 1,
                        channels >= 0,
                ;
            }
            filter_index = filter_index + filter_length;
            if filter_index == self.filters.len() {
                filter_index = 0;
            }
            input_index = input_index + input_step_low;
            let t2: u64 = step_acc as u64 + nom as u64;
            if t2 >= denom as u64 {
                step_acc = (t2 - denom as u64) as usize;
                input_index = input_index + channels;
            } else {
                step_acc = t2 as usize;
            }
            proof {
                // The new execution state is exactly one spec step ahead.
                assert(filter_index as int == c0.next_fi(prev_fi));
                assert(step_acc as int == c0.next_acc(prev_acc));
                assert(input_index as int == c0.next_pos(prev_pos, prev_acc));
                // Phase alignment.
                lemma_mod_add_multiples_vanish(prev_fi, filter_length as int);
                lemma_small_mod(0nat, filter_length as nat);
                // Position alignment.
                lemma_small_mod(0nat, channels as nat);
                lemma_add_mod_noop(prev_pos, input_step_low as int, channels as int);
                if input_index as int == prev_pos + input_step_low + channels {
                    lemma_mod_add_multiples_vanish(
                        prev_pos + input_step_low,
                        channels as int,
                    );
                }
                // The written frame extends the output decomposition.
                assert(total == output@.subrange(from as int, output_index as int) + c0.run_out(
                    filter_index as int,
                    input_index as int,
                    step_acc as int,
                    input@,
                ));
            }
        }
        proof {
            assert(c0.run_out(filter_index as int, input_index as int, step_acc as int, input@)
                =~= Seq::<i32>::empty());
            assert(total =~= output@.subrange(from as int, output_index as int));
        }
        self.filter_index = filter_index;
        self.step_acc = step_acc;
        self.input_start = input_index - input_length;
        proof {
            lemma_sub_mod_noop(input_index as int, input_length as int, channels as int);
        }
        output_index - from
    }
}

} // verus!
