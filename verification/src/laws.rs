//! Laws of the converter: what particular filter banks compute, stated over
//! the engine's run semantics and proved once and for all.

use vstd::prelude::*;
use vstd::arithmetic::div_mod::*;
use crate::filtering::{FilteringContext, spec_dot};
use crate::sample::{FRAC_ONE, FRAC_HALF, spec_requant};
use crate::samplerate::Samplerate;

verus! {

/// Requantizing a unit-coefficient product gives the sample back unchanged.
pub proof fn lemma_requant_one(x: i32)
    ensures
        spec_requant(FRAC_ONE as int * x) == x,
{
    let one = FRAC_ONE as int;
    assert(2 * (one * x) + one == (x as int) * (2 * one) + one) by (nonlinear_arith);
    lemma_fundamental_div_mod_converse(2 * (one * x) + one, 2 * one, x as int, one);
}

/// The rounded average of two samples, halves up.
pub open spec fn spec_avg2(x: i32, y: i32) -> int {
    (x + y + 1) / 2
}

/// Requantizing a half-and-half tap pair is exactly the rounded average.
pub proof fn lemma_requant_avg(x: i32, y: i32)
    ensures
        spec_requant(FRAC_HALF as int * x + FRAC_HALF as int * y) == spec_avg2(x, y),
        i32::MIN <= spec_avg2(x, y) <= i32::MAX,
{
    let one = FRAC_ONE as int;
    let half = FRAC_HALF as int;
    let a = half * x + half * y;
    lemma_fundamental_div_mod(x + y + 1, 2);
    lemma_mod_bound(x + y + 1, 2);
    let q = (x + y + 1) / 2;
    let r = (x + y + 1) % 2;
    assert(2 * a + one == q * (2 * one) + r * one) by (nonlinear_arith)
        requires
            a == half * x + half * y,
            x + y + 1 == 2 * q + r,
            one == 2 * half,
    ;
    lemma_fundamental_div_mod_converse(2 * a + one, 2 * one, q, r * one);
}

/// The identity configuration: a single phase holding the single unit
/// coefficient, at equal rates.
pub open spec fn identity_cfg(c: &FilteringContext) -> bool {
    &&& c.wf()
    &&& c.filter_length == 1
    &&& c.filters@ == seq![FRAC_ONE]
    &&& c.nom == 0
    &&& c.input_step_low == c.channels
}

/// An identity engine reproduces its input exactly and returns to its
/// starting state, from any frame-aligned position.
pub proof fn lemma_identity_run(c: &FilteringContext, pos: int, input: Seq<i32>)
    requires
        identity_cfg(c),
        0 <= pos <= input.len(),
        pos % (c.channels as int) == 0,
        input.len() as int % (c.channels as int) == 0,
    ensures
        c.run_out(0, pos, 0, input) == input.skip(pos),
        c.run_st(0, pos, 0, input) == (0int, 0int, 0int),
    decreases input.len() - pos,
{
    let ch = c.channels as int;
    assert((c.filter_length - 1) * (c.channels as int) == 0) by (nonlinear_arith)
        requires
            c.filter_length == 1,
    ;
    assert(c.limit(input.len() as int) == input.len());
    if pos >= input.len() {
        assert(c.run_out(0, pos, 0, input) =~= input.skip(pos));
    } else {
        crate::filtering::lemma_aligned_lt(pos, ch, input.len() as int);
        let frame = c.frame_out(0, pos, input);
        assert forall|cc: int| 0 <= cc < ch implies frame[cc] == input[pos + cc] by {
            assert(spec_dot(c.filters@, 0, input, pos + cc, ch, 1) == FRAC_ONE as int * input[pos
                + cc] + spec_dot(c.filters@, 1, input, pos + cc + ch, ch, 0));
            lemma_requant_one(input[pos + cc]);
        }
        assert(!c.carry(0));
        assert(c.next_pos(pos, 0) == pos + ch);
        assert(c.next_fi(0) == 0);
        lemma_mod_add_multiples_vanish(pos, ch);
        lemma_identity_run(c, pos + ch, input);
        assert(c.run_out(0, pos, 0, input) =~= input.skip(pos)) by {
            assert(frame =~= input.skip(pos).take(ch));
            assert(input.skip(pos) =~= input.skip(pos).take(ch) + input.skip(pos + ch));
        }
    }
}

/// An identity converter: identity engine, no group-delay padding, fresh
/// engine state and an empty overlap buffer.
pub open spec fn identity_converter(s: &Samplerate) -> bool {
    &&& identity_cfg(&s.filtering)
    &&& s.filter_offset == 0
    &&& s.overlap@ == Seq::<i32>::empty()
    &&& s.eng() == (0int, 0int, 0int)
}

/// One call of an identity converter emits exactly the block it was fed and
/// leaves the converter in the state it started in.
pub proof fn lemma_identity_process(s: &Samplerate, input: Seq<i32>)
    requires
        identity_converter(s),
        input.len() as int % (s.filtering.channels as int) == 0,
    ensures
        s.process_spec(input).0 == input,
        s.process_spec(input).1 == (0int, 0int, 0int),
        s.process_spec(input).2 == Seq::<i32>::empty(),
    decreases 0int,
{
    let ch = s.filtering.channels as int;
    lemma_small_mod(0nat, ch as nat);
    if input.len() == 0 {
        assert(s.process_spec(input).0 =~= input);
    } else {
        assert(input.len() >= ch) by {
            if input.len() < ch {
                lemma_small_mod(input.len() as nat, ch as nat);
            }
        }
        let ov1 = s.overlap@ + input.take(0);
        assert(ov1 =~= Seq::<i32>::empty());
        lemma_identity_run(&s.filtering, 0, input);
        assert(input.skip(0) =~= input);
        assert(input.skip(input.len() as int) =~= Seq::<i32>::empty());
    }
}

/// The outputs of feeding a sequence of blocks, one call each, to a
/// converter whose state is restored by every call.
pub open spec fn process_all(s: &Samplerate, blocks: Seq<Seq<i32>>) -> Seq<i32>
    decreases blocks.len(),
{
    if blocks.len() == 0 {
        Seq::empty()
    } else {
        s.process_spec(blocks[0]).0 + process_all(s, blocks.skip(1))
    }
}

/// Blocking law of the identity converter: however a stream is cut into
/// frame-aligned blocks, the concatenated outputs reproduce the stream.
pub proof fn lemma_identity_blocking(s: &Samplerate, blocks: Seq<Seq<i32>>)
    requires
        identity_converter(s),
        forall|i: int|
            0 <= i < blocks.len() ==> (#[trigger] blocks[i]).len() as int % (
            s.filtering.channels as int) == 0,
    ensures
        process_all(s, blocks) == blocks.flatten(),
    decreases blocks.len(),
{
    if blocks.len() == 0 {
        assert(process_all(s, blocks) =~= blocks.flatten());
    } else {
        lemma_identity_process(s, blocks[0]);
        lemma_identity_blocking(s, blocks.skip(1));
        assert(blocks.flatten() =~= blocks[0] + blocks.skip(1).flatten());
    }
}

/// The moving-average configuration: one two-tap phase of half-weight
/// coefficients, at equal rates.
pub open spec fn average_cfg(c: &FilteringContext) -> bool {
    &&& c.wf()
    &&& c.filter_length == 2
    &&& c.filters@ == seq![FRAC_HALF, FRAC_HALF]
    &&& c.nom == 0
    &&& c.input_step_low == c.channels
}

/// A moving-average engine emits, at every offset, the rounded average of a
/// sample and the corresponding sample of the next frame.
pub proof fn lemma_average_run(c: &FilteringContext, pos: int, input: Seq<i32>)
    requires
        average_cfg(c),
        0 <= pos <= c.limit(input.len() as int) || pos == 0,
        pos % (c.channels as int) == 0,
        input.len() as int % (c.channels as int) == 0,
    ensures
        c.run_out(0, pos, 0, input).len() == if pos <= c.limit(input.len() as int) && input.len()
            >= c.channels {
            c.limit(input.len() as int) - pos
        } else {
            0
        },
        forall|k: int|
            0 <= k < c.run_out(0, pos, 0, input).len() ==> #[trigger] c.run_out(
                0,
                pos,
                0,
                input,
            )[k] == spec_avg2(input[pos + k], input[pos + k + c.channels]),
        input.len() >= c.channels ==> c.run_st(0, pos, 0, input) == (0int, 0int, 0int),
    decreases input.len() - pos,
{
    let ch = c.channels as int;
    let limit = c.limit(input.len() as int);
    assert((c.filter_length - 1) * (c.channels as int) == ch) by (nonlinear_arith)
        requires
            c.filter_length == 2,
            ch == c.channels as int,
    ;
    assert(limit == input.len() - ch);
    lemma_mod_multiples_basic(1, ch);
    lemma_mod_self_0(ch);
    lemma_small_mod(0nat, ch as nat);
    lemma_sub_mod_noop(input.len() as int, ch, ch);
    assert(limit % ch == (input.len() - ch) % ch);
    if input.len() < ch {
        // Too short for even one window: nothing is emitted.
        assert(c.run_out(0, pos, 0, input).len() == 0);
    } else if pos >= limit {
        assert(pos == limit);
        assert(c.run_st(0, pos, 0, input) == (0int, pos - limit, 0int));
    } else {
        crate::filtering::lemma_aligned_lt(pos, ch, limit);
        let frame = c.frame_out(0, pos, input);
        assert forall|cc: int| 0 <= cc < ch implies frame[cc] == spec_avg2(
            input[pos + cc],
            input[pos + cc + ch],
        ) by {
            reveal_with_fuel(spec_dot, 3);
            assert(spec_dot(c.filters@, 0, input, pos + cc, ch, 2) == FRAC_HALF as int * input[pos
                + cc] + (FRAC_HALF as int * input[pos + cc + ch] + spec_dot(
                c.filters@,
                2,
                input,
                pos + cc + 2 * ch,
                ch,
                0,
            )));
            lemma_requant_avg(input[pos + cc], input[pos + cc + ch]);
        }
        assert(!c.carry(0));
        assert(c.next_pos(pos, 0) == pos + ch);
        assert(c.next_fi(0) == 0);
        lemma_mod_add_multiples_vanish(pos, ch);
        lemma_average_run(c, pos + ch, input);
        let out = c.run_out(0, pos, 0, input);
        let rest = c.run_out(0, pos + ch, 0, input);
        assert(out == frame + rest);
        assert forall|k: int| 0 <= k < out.len() implies #[trigger] out[k] == spec_avg2(
            input[pos + k],
            input[pos + k + ch],
        ) by {
            if k < ch {
                assert(out[k] == frame[k]);
            } else {
                assert(out[k] == rest[k - ch]);
                assert(rest[k - ch] == spec_avg2(input[pos + k], input[pos + k + ch]));
            }
        }
    }
}

/// Boundary-independence of the moving average: one call, on a block of any
/// frame-aligned size, emits the rounded pairwise averages of consecutive
/// frames of the stream made of the retained overlap followed by the block,
/// retains exactly the stream's last frame, and restores the engine state —
/// so where the block boundaries fall cannot change the output.
pub proof fn lemma_average_process(s: &Samplerate, input: Seq<i32>)
    requires
        average_cfg(&s.filtering),
        s.filter_offset == 0,
        s.eng() == (0int, 0int, 0int),
        s.overlap@.len() == 0 || s.overlap@.len() == s.filtering.channels,
        input.len() as int % (s.filtering.channels as int) == 0,
    ensures
        ({
            let ch = s.filtering.channels as int;
            let combined = s.overlap@ + input;
            let out = s.process_spec(input).0;
            &&& out.len() == if combined.len() >= ch {
                combined.len() - ch
            } else {
                0int
            }
            &&& forall|k: int|
                0 <= k < out.len() ==> #[trigger] out[k] == spec_avg2(
                    combined[k],
                    combined[k + ch],
                )
            &&& s.process_spec(input).1 == (0int, 0int, 0int)
            &&& s.process_spec(input).2 == if combined.len() >= ch {
                combined.skip(combined.len() - ch)
            } else {
                combined
            }
        }),
{
    let c = &s.filtering;
    let ch = c.channels as int;
    let combined = s.overlap@ + input;
    lemma_mod_multiples_basic(1, ch);
    lemma_mod_multiples_basic(2, ch);
    lemma_small_mod(0nat, ch as nat);
    if input.len() == 0 {
        assert(s.process_spec(input).2 == combined) by {
            assert(s.overlap@ =~= combined);
            if combined.len() >= ch {
                assert(combined.len() == ch);
                assert(combined.skip(0) =~= combined);
            }
        }
    } else {
        assert(input.len() >= ch) by {
            if input.len() < ch {
                lemma_small_mod(input.len() as nat, ch as nat);
            }
        }
        let copy = if input.len() < ch {
            input.len() as int
        } else {
            ch as int
        };
        assert(copy == ch);
        let ov1 = s.overlap@ + input.take(ch);
        let out = s.process_spec(input).0;
        if s.overlap@.len() == 0 {
            assert(ov1.len() < 2 * ch);
            if input.len() < 2 * ch {
                // A single fresh frame: nothing can be emitted yet; the
                // frame is retained whole.
                assert(input.len() == ch) by {
                    lemma_sub_mod_noop(input.len() as int, ch, ch);
                    if ch < input.len() < 2 * ch {
                        lemma_small_mod((input.len() - ch) as nat, ch as nat);
                    }
                }
                assert(ov1 =~= input);
                assert(out.len() == 0);
                assert(s.process_spec(input).2 == combined.skip(0)) by {
                    assert(ov1 =~= combined.skip(0));
                }
            } else {
                lemma_average_run(c, 0, input);
                assert(out =~= c.run_out(0, 0, 0, input));
                assert forall|k: int| 0 <= k < out.len() implies #[trigger] out[k] == spec_avg2(
                    combined[k],
                    combined[k + ch],
                ) by {
                    assert(combined[k] == input[k] && combined[k + ch] == input[k + ch]);
                    assert(out[k] == spec_avg2(input[0 + k], input[0 + k + ch]));
                }
                assert(s.process_spec(input).2 =~= combined.skip(combined.len() - ch));
            }
        } else {
            assert(ov1.len() == 2 * ch);
            lemma_add_mod_noop(ch, ch, ch);
            lemma_average_run(c, 0, ov1);
            let out1 = c.run_out(0, 0, 0, ov1);
            assert(c.limit(ov1.len() as int) == ch);
            assert(out1.len() == ch);
            if input.len() < 2 * ch {
                // One frame against the retained frame: the boundary pair is
                // emitted, the new frame replaces the old.
                assert(input.len() == ch) by {
                    lemma_sub_mod_noop(input.len() as int, ch, ch);
                    if ch < input.len() < 2 * ch {
                        lemma_small_mod((input.len() - ch) as nat, ch as nat);
                    }
                }
                assert(ov1 =~= combined);
                assert(out =~= out1);
                assert forall|k: int| 0 <= k < out.len() implies #[trigger] out[k] == spec_avg2(
                    combined[k],
                    combined[k + ch],
                ) by {
                    assert(out1[k] == spec_avg2(ov1[0 + k], ov1[0 + k + ch]));
                }
                assert(s.process_spec(input).2 == combined.skip(combined.len() - ch)) by {
                    assert(ov1.skip(ch) =~= combined.skip(combined.len() - ch));
                }
            } else {
                lemma_average_run(c, 0, input);
                let out2 = c.run_out(0, 0, 0, input);
                assert(out == out1 + out2);
                assert forall|k: int| 0 <= k < out.len() implies #[trigger] out[k] == spec_avg2(
                    combined[k],
                    combined[k + ch],
                ) by {
                    if k < ch {
                        assert(out[k] == out1[k]);
                        assert(out1[k] == spec_avg2(ov1[0 + k], ov1[0 + k + ch]));
                        assert(ov1[k] == combined[k] && ov1[k + ch] == combined[k + ch]);
                    } else {
                        assert(out[k] == out2[k - ch]);
                        assert(out2[k - ch] == spec_avg2(input[k - ch], input[k - ch + ch]));
                        assert(combined[k] == input[k - ch] && combined[k + ch] == input[k]);
                    }
                }
                assert(s.process_spec(input).2 =~= combined.skip(combined.len() - ch));
            }
        }
    }
}

/// The rounded pairwise frame averages of a whole stream: one output per
/// sample that has a successor frame.
pub open spec fn avg_windows(stream: Seq<i32>, ch: int) -> Seq<i32> {
    Seq::new(
        if stream.len() >= ch {
            (stream.len() - ch) as nat
        } else {
            0
        },
        |k: int| spec_avg2(stream[k], stream[k + ch]) as i32,
    )
}

/// The trailing frame a moving-average converter retains after a block.
pub open spec fn avg_tail(stream: Seq<i32>, ch: int) -> Seq<i32> {
    if stream.len() >= ch {
        stream.skip(stream.len() - ch)
    } else {
        stream
    }
}

/// One call is one fold step: the per-call law restated over
/// `avg_windows`/`avg_tail`, so that `lemma_average_blocking` applies to the
/// converter's actual calls.
pub proof fn lemma_average_process_windows(s: &Samplerate, input: Seq<i32>)
    requires
        average_cfg(&s.filtering),
        s.filter_offset == 0,
        s.eng() == (0int, 0int, 0int),
        s.overlap@.len() == 0 || s.overlap@.len() == s.filtering.channels,
        input.len() as int % (s.filtering.channels as int) == 0,
    ensures
        s.process_spec(input).0 == avg_windows(s.overlap@ + input, s.filtering.channels as int),
        s.process_spec(input).1 == (0int, 0int, 0int),
        s.process_spec(input).2 == avg_tail(s.overlap@ + input, s.filtering.channels as int),
{
    lemma_average_process(s, input);
    let ch = s.filtering.channels as int;
    let combined = s.overlap@ + input;
    let out = s.process_spec(input).0;
    assert(out =~= avg_windows(combined, ch)) by {
        assert forall|k: int| 0 <= k < out.len() implies out[k] == avg_windows(combined, ch)[k] by {
            lemma_requant_avg(combined[k], combined[k + ch]);
            assert(out[k] == spec_avg2(combined[k], combined[k + ch]));
        }
    }
}

/// What feeding a sequence of blocks to a moving-average converter emits,
/// one `process_buffer` call per block, tracked through the retained
/// overlap: each step is exactly what `lemma_average_process` proves of one
/// call.
pub open spec fn avg_fold_out(o: Seq<i32>, ch: int, blocks: Seq<Seq<i32>>) -> Seq<i32>
    decreases blocks.len(),
{
    if blocks.len() == 0 {
        Seq::empty()
    } else {
        avg_windows(o + blocks[0], ch) + avg_fold_out(
            avg_tail(o + blocks[0], ch),
            ch,
            blocks.skip(1),
        )
    }
}

/// Blocking law of the moving average: however a stream is cut into
/// frame-aligned blocks, the calls together emit exactly the window
/// averages of the whole stream.
pub proof fn lemma_average_blocking(o: Seq<i32>, ch: int, blocks: Seq<Seq<i32>>)
    requires
        ch >= 1,
        o.len() == 0 || o.len() == ch,
        forall|i: int|
            0 <= i < blocks.len() ==> (#[trigger] blocks[i]).len() as int % ch == 0,
    ensures
        avg_fold_out(o, ch, blocks) == avg_windows(o + blocks.flatten(), ch),
    decreases blocks.len(),
{
    if blocks.len() == 0 {
        assert(o + blocks.flatten() =~= o);
        assert(avg_fold_out(o, ch, blocks) =~= avg_windows(o, ch));
    } else {
        let b0 = blocks[0];
        let c0 = o + b0;
        let t = avg_tail(c0, ch);
        let flat2 = blocks.skip(1).flatten();
        let whole = o + blocks.flatten();
        assert(blocks.flatten() =~= b0 + flat2) by {
            assert(blocks.flatten() == blocks[0] + blocks.skip(1).flatten());
        }
        assert(whole =~= c0 + flat2);
        if c0.len() < ch {
            // Frame-aligned pieces below one frame are empty.
            assert(b0.len() == 0) by {
                if 0 < b0.len() < ch {
                    lemma_small_mod(b0.len() as nat, ch as nat);
                }
            }
            assert(o.len() == 0);
            assert(c0 =~= Seq::<i32>::empty());
            assert(t =~= Seq::<i32>::empty());
            assert(t.len() == 0);
            lemma_average_blocking(t, ch, blocks.skip(1));
            assert(avg_windows(c0, ch) =~= Seq::<i32>::empty());
            assert(t + flat2 =~= whole);
            assert(avg_fold_out(o, ch, blocks) =~= avg_windows(whole, ch));
        } else {
            assert(t =~= c0.skip(c0.len() - ch));
            assert(t.len() == ch);
            lemma_average_blocking(t, ch, blocks.skip(1));
            assert(t + flat2 =~= whole.skip(c0.len() - ch));
            let left = avg_windows(c0, ch);
            let right = avg_windows(t + flat2, ch);
            assert(avg_fold_out(o, ch, blocks) == left + avg_fold_out(t, ch, blocks.skip(1)));
            assert(left + right =~= avg_windows(whole, ch)) by {
                assert(right.len() == flat2.len());
                assert forall|j: int| 0 <= j < left.len() + right.len() implies (left + right)[j]
                    == avg_windows(whole, ch)[j] by {
                    if j < left.len() {
                        assert(whole[j] == c0[j] && whole[j + ch] == c0[j + ch]);
                    } else {
                        let j2 = j - (c0.len() - ch);
                        assert((t + flat2)[j2] == whole[j] && (t + flat2)[j2 + ch] == whole[j
                            + ch]);
                        assert(right[j2] == avg_windows(t + flat2, ch)[j2]);
                    }
                }
            }
        }
    }
}

/// A dot product only reads the window it covers: equal windows in two
/// inputs give equal products.
pub proof fn lemma_dot_window(
    filters: Seq<i32>,
    fi: int,
    a: Seq<i32>,
    ia: int,
    b: Seq<i32>,
    ib: int,
    stride: int,
    n: nat,
)
    requires
        stride >= 0,
        forall|t: int| 0 <= t < n ==> a[ia + #[trigger] (t * stride)] == b[ib + t * stride],
    ensures
        spec_dot(filters, fi, a, ia, stride, n) == spec_dot(filters, fi, b, ib, stride, n),
    decreases n,
{
    if n > 0 {
        assert(a[ia + 0 * stride] == b[ib + 0 * stride]);
        assert forall|t: int| 0 <= t < n - 1 implies a[ia + stride + #[trigger] (t * stride)]
            == b[ib + stride + t * stride] by {
            assert((t + 1) * stride == t * stride + stride) by (nonlinear_arith);
            assert(a[ia + (t + 1) * stride] == b[ib + (t + 1) * stride]);
        }
        lemma_dot_window(filters, fi + 1, a, ia + stride, b, ib + stride, stride, (n - 1) as nat);
    }
}

/// A single-phase configuration: one `filter_length`-tap phase at equal
/// rates, an arbitrary bank.
pub open spec fn single_phase_cfg(c: &FilteringContext) -> bool {
    &&& c.wf()
    &&& c.filters@.len() == c.filter_length
    &&& c.nom == 0
    &&& c.input_step_low == c.channels
}

/// The sample a single-phase engine emits at stream offset `k`: the bank
/// applied to the window of frames starting there.
pub open spec fn spec_window_out(c: &FilteringContext, stream: Seq<i32>, k: int) -> i32 {
    spec_requant(
        spec_dot(c.filters@, 0, stream, k, c.channels as int, c.filter_length as nat),
    )
}

/// A single-phase engine at equal rates emits, at every offset, the bank
/// applied to the window starting there, and returns to its starting state.
pub proof fn lemma_single_phase_run(c: &FilteringContext, pos: int, input: Seq<i32>)
    requires
        single_phase_cfg(c),
        0 <= pos <= c.limit(input.len() as int) || pos == 0,
        pos % (c.channels as int) == 0,
        input.len() as int % (c.channels as int) == 0,
    ensures
        c.run_out(0, pos, 0, input).len() == if pos <= c.limit(input.len() as int)
            && input.len() >= (c.filter_length - 1) * c.channels {
            c.limit(input.len() as int) - pos
        } else {
            0
        },
        forall|k: int|
            0 <= k < c.run_out(0, pos, 0, input).len() ==> #[trigger] c.run_out(
                0,
                pos,
                0,
                input,
            )[k] == spec_window_out(c, input, pos + k),
        input.len() >= (c.filter_length - 1) * c.channels ==> c.run_st(0, pos, 0, input) == (
        0int,
        if pos <= c.limit(input.len() as int) {
            0int
        } else {
            pos - c.limit(input.len() as int)
        },
        0int,
        ),
    decreases input.len() - pos,
{
    let ch = c.channels as int;
    let limit = c.limit(input.len() as int);
    lemma_mod_multiples_basic(c.filter_length as int - 1, ch);
    lemma_sub_mod_noop(input.len() as int, (c.filter_length - 1) * ch, ch);
    lemma_small_mod(0nat, ch as nat);
    if input.len() < (c.filter_length - 1) * c.channels {
    } else if pos >= limit {
        assert(c.run_st(0, pos, 0, input) == (0int, pos - limit, 0int));
        if pos <= limit {
            assert(pos == limit);
        }
    } else {
        crate::filtering::lemma_aligned_lt(pos, ch, limit);
        let frame = c.frame_out(0, pos, input);
        assert forall|cc: int| 0 <= cc < ch implies frame[cc] == spec_window_out(
            c,
            input,
            pos + cc,
        ) by {}
        assert(!c.carry(0));
        assert(c.next_pos(pos, 0) == pos + ch);
        assert(c.next_fi(0) == 0);
        lemma_mod_add_multiples_vanish(pos, ch);
        lemma_single_phase_run(c, pos + ch, input);
        let out = c.run_out(0, pos, 0, input);
        let rest = c.run_out(0, pos + ch, 0, input);
        assert(out == frame + rest);
        assert forall|k: int| 0 <= k < out.len() implies #[trigger] out[k] == spec_window_out(
            c,
            input,
            pos + k,
        ) by {
            if k < ch {
                assert(out[k] == frame[k]);
            } else {
                assert(out[k] == rest[k - ch]);
                assert(rest[k - ch] == spec_window_out(c, input, pos + k));
            }
        }
    }
}

/// Boundary-independence at equal rates, for any single-phase bank: one call
/// emits the bank applied to every window of the stream made of the retained
/// overlap followed by the block, and retains exactly the stream's trailing
/// `filter_length - 1` frames.  Where the block boundaries fall therefore
/// cannot change what is emitted over the whole stream.
pub proof fn lemma_single_phase_process(s: &Samplerate, input: Seq<i32>)
    requires
        single_phase_cfg(&s.filtering),
        s.eng() == (0int, 0int, 0int),
        s.overlap@.len() == 0 || s.overlap@.len() == (s.filtering.filter_length - 1)
            * s.filtering.channels,
        input.len() as int % (s.filtering.channels as int) == 0,
        input.len() >= s.filtering.filter_length * s.filtering.channels,
        s.wf(),
    ensures
        ({
            let combined = s.overlap@ + input;
            let out = s.process_spec(input).0;
            &&& out.len() == combined.len() - (s.filtering.filter_length - 1)
                * s.filtering.channels
            &&& forall|k: int|
                0 <= k < out.len() ==> #[trigger] out[k] == spec_window_out(
                    &s.filtering,
                    combined,
                    k,
                )
            &&& s.process_spec(input).1 == (0int, 0int, 0int)
            &&& s.process_spec(input).2 == input.skip(
                input.len() - ((s.filtering.filter_length - 1) * s.filtering.channels) as int,
            )
        }),
{
    let c = &s.filtering;
    let ch = c.channels as int;
    let l = c.filter_length as int;
    let rest_len = (l - 1) * ch;
    let combined = s.overlap@ + input;
    let ov1 = s.overlap@ + input.take(rest_len);
    lemma_mod_multiples_basic(l - 1, ch);
    lemma_mod_multiples_basic(l, ch);
    lemma_small_mod(0nat, ch as nat);
    lemma_add_mod_noop(s.overlap@.len() as int, rest_len, ch);
    assert(rest_len + ch == l * ch) by (nonlinear_arith)
        requires
            rest_len == (l - 1) * ch,
    ;
    let out = s.process_spec(input).0;
    if s.overlap@.len() == 0 {
        assert(ov1.len() < l * ch);
        lemma_single_phase_run(c, 0, input);
        assert(out =~= c.run_out(0, 0, 0, input));
        assert forall|k: int| 0 <= k < out.len() implies #[trigger] out[k] == spec_window_out(
            c,
            combined,
            k,
        ) by {
            assert(out[k] == spec_window_out(c, input, 0 + k));
            lemma_dot_window(c.filters@, 0, input, k, combined, k, ch, l as nat);
        }
    } else {
        assert(s.overlap@.len() == rest_len);
        assert(ov1.len() == 2 * rest_len);
        assert(rest_len > 0);
        assert(ov1.len() >= l * ch) by (nonlinear_arith)
            requires
                l >= 1,
                ch >= 1,
                ov1.len() == 2 * rest_len,
                rest_len == (l - 1) * ch,
                rest_len + ch == l * ch,
                rest_len > 0,
        ;
        lemma_sub_mod_noop(ov1.len() as int, rest_len, ch);
        assert(ov1.len() as int % ch == 0);
        lemma_single_phase_run(c, 0, ov1);
        lemma_single_phase_run(c, 0, input);
        let out1 = c.run_out(0, 0, 0, ov1);
        let out2 = c.run_out(0, 0, 0, input);
        assert(c.limit(ov1.len() as int) == rest_len);
        assert(out1.len() == rest_len);
        assert(out == out1 + out2);
        assert forall|k: int| 0 <= k < out.len() implies #[trigger] out[k] == spec_window_out(
            c,
            combined,
            k,
        ) by {
            if k < rest_len {
                assert(out[k] == out1[k]);
                assert(out1[k] == spec_window_out(c, ov1, 0 + k));
                assert forall|t: int| 0 <= t < l implies ov1[k + #[trigger] (t * ch)] == combined[k + t * ch] by {
                    assert(0 <= t * ch <= (l - 1) * ch) by (nonlinear_arith)
                        requires
                            0 <= t <= l - 1,
                            ch >= 1,
                    ;
                    assert(k + t * ch < ov1.len());
                }
                lemma_dot_window(c.filters@, 0, ov1, k, combined, k, ch, l as nat);
            } else {
                assert(out[k] == out2[k - rest_len]);
                assert(out2[k - rest_len] == spec_window_out(c, input, 0 + (k - rest_len)));
                assert forall|t: int| 0 <= t < l implies input[(k - rest_len) + #[trigger] (t
                    * ch)] == combined[k + t * ch] by {
                    assert(0 <= t * ch <= (l - 1) * ch) by (nonlinear_arith)
                        requires
                            0 <= t <= l - 1,
                            ch >= 1,
                    ;
                    assert(combined[k + t * ch] == input[k + t * ch - rest_len]);
                }
                lemma_dot_window(
                    c.filters@,
                    0,
                    input,
                    k - rest_len,
                    combined,
                    k,
                    ch,
                    l as nat,
                );
            }
        }
    }
}

/// Flush correctness at equal rates, for any single-phase bank: ending the
/// stream emits the bank applied to every window of the retained overlap,
/// the final block, and the silence padding that drains the filter latency.
/// Together with the blocking law above, cutting a stream differently before
/// the final call cannot change what the whole session emits.
pub proof fn lemma_single_phase_flush(s: &Samplerate, input: Seq<i32>)
    requires
        single_phase_cfg(&s.filtering),
        s.eng() == (0int, 0int, 0int),
        s.overlap@.len() == 0 || s.overlap@.len() == (s.filtering.filter_length - 1)
            * s.filtering.channels,
        input.len() as int % (s.filtering.channels as int) == 0,
        input.len() >= s.filtering.filter_length * s.filtering.channels,
        s.wf(),
    ensures
        ({
            let pad = (s.filtering.filter_length - s.filter_offset - 1) * s.filtering.channels;
            let padded = s.overlap@ + input + Seq::new(pad as nat, |i: int| 0i32);
            let out = s.flush_spec(input).0;
            &&& out.len() == padded.len() - (s.filtering.filter_length - 1)
                * s.filtering.channels
            &&& forall|k: int|
                0 <= k < out.len() ==> #[trigger] out[k] == spec_window_out(
                    &s.filtering,
                    padded,
                    k,
                )
        }),
{
    let c = &s.filtering;
    let ch = c.channels as int;
    let l = c.filter_length as int;
    let rest_len = (l - 1) * ch;
    let pad = (l - s.filter_offset - 1) * ch;
    let combined = s.overlap@ + input;
    let padded = combined + Seq::new(pad as nat, |i: int| 0i32);
    lemma_single_phase_process(s, input);
    let out1 = s.process_spec(input).0;
    let ov1 = s.process_spec(input).2;
    let ov2 = ov1 + Seq::new(pad as nat, |i: int| 0i32);
    lemma_mod_multiples_basic(l - 1, ch);
    lemma_mod_multiples_basic(l - s.filter_offset as int - 1, ch);
    lemma_small_mod(0nat, ch as nat);
    lemma_add_mod_noop(ov1.len() as int, pad, ch);
    assert(rest_len <= l * ch) by (nonlinear_arith)
        requires
            rest_len == (l - 1) * ch,
            l >= 1,
            ch >= 1,
    ;
    assert(input.len() >= rest_len);
    assert(ov1.len() == rest_len);
    assert(0 <= pad) by (nonlinear_arith)
        requires
            pad == (l - s.filter_offset - 1) * ch,
            s.filter_offset < l,
            ch >= 1,
    ;
    assert(ov2.len() as int % ch == 0);
    lemma_single_phase_run(c, 0, ov2);
    let out2 = c.run_out(0, 0, 0, ov2);
    assert(c.limit(ov2.len() as int) == pad);
    assert(out2.len() == pad);
    let out = s.flush_spec(input).0;
    assert(out == out1 + out2);
    assert(padded =~= s.overlap@ + input + Seq::new(pad as nat, |i: int| 0i32));
    assert(out.len() == padded.len() - rest_len);
    assert forall|k: int| 0 <= k < out.len() implies #[trigger] out[k] == spec_window_out(
        c,
        padded,
        k,
    ) by {
        if k < out1.len() {
            assert(out[k] == out1[k]);
            assert(out1[k] == spec_window_out(c, combined, k));
            assert forall|t: int| 0 <= t < l implies combined[k + #[trigger] (t * ch)]
                == padded[k + t * ch] by {
                assert(0 <= t * ch <= (l - 1) * ch) by (nonlinear_arith)
                    requires
                        0 <= t <= l - 1,
                        ch >= 1,
                ;
                assert(k + t * ch < combined.len());
            }
            lemma_dot_window(c.filters@, 0, combined, k, padded, k, ch, l as nat);
        } else {
            let k2 = k - out1.len();
            assert(out[k] == out2[k2]);
            assert(out2[k2] == spec_window_out(c, ov2, 0 + k2));
            // ov2 is exactly the tail of the padded stream.
            assert forall|t: int| 0 <= t < l implies ov2[k2 + #[trigger] (t * ch)] == padded[k + t
                * ch] by {
                assert(0 <= t * ch <= (l - 1) * ch) by (nonlinear_arith)
                    requires
                        0 <= t <= l - 1,
                        ch >= 1,
                ;
                let i = k2 + t * ch;
                if i < rest_len {
                    assert(ov1[i] == input[input.len() - rest_len + i]);
                    assert(padded[k + t * ch] == combined[combined.len() - rest_len + i]);
                } else {
                    assert(ov2[i] == 0i32);
                    assert(padded[k + t * ch] == 0i32);
                }
            }
            lemma_dot_window(c.filters@, 0, ov2, k2, padded, k, ch, l as nat);
        }
    }
}

} // verus!
