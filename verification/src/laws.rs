//! The codec's laws: round trips and wire-format guarantees, stated over
//! the same specification functions the executable contracts use, and
//! proved once and for all.

use vstd::prelude::*;

verus! {

use vstd::arithmetic::power2::pow2;
use crate::byteio::{le_val, le_bytes, lemma_le_bytes_val};
use crate::wire::{
    enc_group,
    enc_stream,
    zero_pad8,
    delta_seq,
    xor_seq,
    sat_sub64,
    mask_of,
    width_byte,
    nb_of,
    sh_of,
    nnib,
    tz_nib,
    nz_count,
    g_num_bits,
    g_tz,
    stream_ok,
    stream_len,
    stream_words,
    group_ok,
    g_len,
    group_words,
    lemma_stream_round_trip,
    lemma_group_round_trip,
    lemma_zero_pad8_shape,
    lemma_header_bounds,
    lemma_width_byte_parse,
    lemma_mask_all_zero,
};
use crate::sink::{Sink, run_steps, lemma_run_steps_snoc, LongSink, DeltaSink, DoubleXorSink, DeltaDiffPackSink, DdpState, ddp_step, ddp_finish};

// ---------------------------------------------------------------------------
// runs of the concrete sinks
// ---------------------------------------------------------------------------
/// A plain sink accumulates exactly the words it is fed.
pub proof fn lemma_run_long(m: Seq<u64>, ws: Seq<u64>)
    ensures
        run_steps::<LongSink>(m, ws) == m + ws,
    decreases ws.len(),
{
    if ws.len() == 0 {
        assert(m + ws =~= m);
    } else {
        lemma_run_long(m.push(ws[0]), ws.drop_first());
        assert(m.push(ws[0]) + ws.drop_first() =~= m + ws);
    }
}

/// The outputs of a delta sink fed `ws` starting from accumulator `a`.
pub open spec fn delta_out(a: u64, ws: Seq<u64>) -> Seq<u64>
    decreases ws.len(),
{
    if ws.len() == 0 {
        Seq::empty()
    } else {
        let a2 = ((a + ws[0]) % 0x1_0000_0000_0000_0000) as u64;
        seq![a2] + delta_out(a2, ws.drop_first())
    }
}

/// The delta sink's accumulator after being fed `ws`.
pub open spec fn delta_acc(a: u64, ws: Seq<u64>) -> u64
    decreases ws.len(),
{
    if ws.len() == 0 {
        a
    } else {
        delta_acc(((a + ws[0]) % 0x1_0000_0000_0000_0000) as u64, ws.drop_first())
    }
}

/// A delta sink's run is its accumulator scan.
pub proof fn lemma_run_delta(a: u64, o: Seq<u64>, ws: Seq<u64>)
    ensures
        run_steps::<DeltaSink>((a, o), ws) == (delta_acc(a, ws), o + delta_out(a, ws)),
    decreases ws.len(),
{
    if ws.len() == 0 {
        assert(o + delta_out(a, ws) =~= o);
    } else {
        let a2 = ((a + ws[0]) % 0x1_0000_0000_0000_0000) as u64;
        lemma_run_delta(a2, o.push(a2), ws.drop_first());
        assert(o.push(a2) + delta_out(a2, ws.drop_first()) =~= o + delta_out(a, ws)) by {
            assert(delta_out(a, ws) == seq![a2] + delta_out(a2, ws.drop_first()));
        }
    }
}

/// Feeding a non-decreasing stream's deltas reproduces the stream: from
/// position `i` on, with the accumulator at the previous value.
proof fn lemma_delta_scan(vals: Seq<u64>, i: int)
    requires
        forall|j: int| 0 <= j < vals.len() - 1 ==> #[trigger] vals[j] <= vals[j + 1],
        0 <= i <= vals.len(),
    ensures
        delta_out(
            if i == 0 {
                0u64
            } else {
                vals[i - 1]
            },
            delta_seq(vals).skip(i),
        ) =~= vals.skip(i),
        delta_acc(
            if i == 0 {
                0u64
            } else {
                vals[i - 1]
            },
            delta_seq(vals).skip(i),
        ) == if vals.len() == 0 {
            0u64
        } else if i == 0 {
            vals.last()
        } else {
            vals[if i < vals.len() {
                vals.len() - 1
            } else {
                i - 1
            }]
        },
    decreases vals.len() - i,
{
    let a = if i == 0 {
        0u64
    } else {
        vals[i - 1]
    };
    let ds = delta_seq(vals).skip(i);
    if i == vals.len() {
        assert(ds =~= Seq::<u64>::empty());
        assert(vals.skip(i) =~= Seq::<u64>::empty());
    } else {
        assert(ds[0] == delta_seq(vals)[i]);
        assert(delta_seq(vals)[i] == if i == 0 {
            vals[0]
        } else {
            sat_sub64(vals[i], vals[i - 1])
        });
        let a2 = ((a + ds[0]) % 0x1_0000_0000_0000_0000) as u64;
        assert(a2 == vals[i]) by {
            if i > 0 {
                assert(vals[i - 1] <= vals[i]);
            }
            vstd::arithmetic::div_mod::lemma_small_mod(
                (a + ds[0]) as nat,
                0x1_0000_0000_0000_0000,
            );
        }
        lemma_delta_scan(vals, i + 1);
        assert(ds.drop_first() =~= delta_seq(vals).skip(i + 1));
        assert(vals.skip(i) =~= seq![vals[i]] + vals.skip(i + 1));
    }
}

/// Zero deltas repeat the accumulator.
proof fn lemma_delta_zeros(a: u64, k: nat)
    ensures
        delta_out(a, Seq::new(k, |j: int| 0u64)) =~= Seq::new(k, |j: int| a),
    decreases k,
{
    if k > 0 {
        let z = Seq::new(k, |j: int| 0u64);
        assert(z[0] == 0);
        assert(((a + 0) % 0x1_0000_0000_0000_0000) as u64 == a) by {
            vstd::arithmetic::div_mod::lemma_small_mod(a as nat, 0x1_0000_0000_0000_0000);
        }
        lemma_delta_zeros(a, (k - 1) as nat);
        assert(z.drop_first() =~= Seq::new((k - 1) as nat, |j: int| 0u64));
    }
}

/// `delta_out` over a concatenation.
proof fn lemma_delta_out_app(a: u64, x: Seq<u64>, y: Seq<u64>)
    ensures
        delta_out(a, x + y) =~= delta_out(a, x) + delta_out(delta_acc(a, x), y),
    decreases x.len(),
{
    if x.len() == 0 {
        assert(x + y =~= y);
        assert(delta_out(a, x) =~= Seq::<u64>::empty());
    } else {
        let a2 = ((a + x[0]) % 0x1_0000_0000_0000_0000) as u64;
        assert((x + y)[0] == x[0]);
        assert((x + y).drop_first() =~= x.drop_first() + y);
        lemma_delta_out_app(a2, x.drop_first(), y);
        assert(delta_out(a, x + y) == seq![a2] + delta_out(a2, (x + y).drop_first()));
        assert(delta_out(a, x) == seq![a2] + delta_out(a2, x.drop_first()));
    }
}

/// The outputs of an XOR sink fed `ws` starting from pattern `l`.
pub open spec fn xor_out(l: u64, ws: Seq<u64>) -> Seq<u64>
    decreases ws.len(),
{
    if ws.len() == 0 {
        Seq::empty()
    } else {
        seq![l ^ ws[0]] + xor_out(l ^ ws[0], ws.drop_first())
    }
}

/// An XOR sink's run is its pattern scan.
pub proof fn lemma_run_xor(l: u64, o: Seq<u64>, ws: Seq<u64>)
    ensures
        run_steps::<DoubleXorSink>((l, o), ws).1 == o + xor_out(l, ws),
    decreases ws.len(),
{
    if ws.len() == 0 {
        assert(o + xor_out(l, ws) =~= o);
    } else {
        let l2 = l ^ ws[0];
        lemma_run_xor(l2, o.push(l2), ws.drop_first());
        assert(o.push(l2) + xor_out(l2, ws.drop_first()) =~= o + xor_out(l, ws)) by {
            assert(xor_out(l, ws) == seq![l2] + xor_out(l2, ws.drop_first()));
        }
    }
}

proof fn lemma_xor_cancel(a: u64, b: u64)
    by (bit_vector)
    ensures
        a ^ (a ^ b) == b,
        a ^ 0u64 == a,
{
}

/// Feeding a stream's XOR deltas reproduces the stream from position `i`.
proof fn lemma_xor_scan(bits: Seq<u64>, i: int)
    requires
        1 <= i <= bits.len(),
    ensures
        xor_out(bits[i - 1], xor_seq(bits).skip(i - 1)) =~= bits.skip(i),
    decreases bits.len() - i,
{
    let xs = xor_seq(bits).skip(i - 1);
    if i == bits.len() {
        assert(xs =~= Seq::<u64>::empty());
        assert(bits.skip(i) =~= Seq::<u64>::empty());
    } else {
        assert(xs[0] == xor_seq(bits)[i - 1]);
        assert(xor_seq(bits)[i - 1] == (bits[i - 1] ^ bits[i]));
        lemma_xor_cancel(bits[i - 1], bits[i]);
        lemma_xor_scan(bits, i + 1);
        assert(xs.drop_first() =~= xor_seq(bits).skip(i));
        assert(bits.skip(i) =~= seq![bits[i]] + bits.skip(i + 1));
    }
}

/// Zero XOR deltas repeat the pattern.
proof fn lemma_xor_zeros(l: u64, k: nat)
    ensures
        xor_out(l, Seq::new(k, |j: int| 0u64)) =~= Seq::new(k, |j: int| l),
    decreases k,
{
    if k > 0 {
        let z = Seq::new(k, |j: int| 0u64);
        lemma_xor_cancel(l, 0);
        lemma_xor_zeros(l, (k - 1) as nat);
        assert(z.drop_first() =~= Seq::new((k - 1) as nat, |j: int| 0u64));
    }
}

/// `xor_out` over a concatenation.
proof fn lemma_xor_out_app(l: u64, x: Seq<u64>, y: Seq<u64>)
    ensures
        xor_out(l, x + y) =~= xor_out(l, x) + xor_out(
            if x.len() == 0 {
                l
            } else {
                xor_out(l, x).last()
            },
            y,
        ),
    decreases x.len(),
{
    if x.len() == 0 {
        assert(x + y =~= y);
        assert(xor_out(l, x) =~= Seq::<u64>::empty());
    } else {
        let l2 = l ^ x[0];
        assert((x + y)[0] == x[0]);
        assert((x + y).drop_first() =~= x.drop_first() + y);
        lemma_xor_out_app(l2, x.drop_first(), y);
        assert(xor_out(l, x + y) == seq![l2] + xor_out(l2, (x + y).drop_first()));
        assert(xor_out(l, x) == seq![l2] + xor_out(l2, x.drop_first()));
        if x.len() > 1 {
            assert(xor_out(l, x).last() == xor_out(l2, x.drop_first()).last());
        }
    }
}

// ---------------------------------------------------------------------------
// the laws
// ---------------------------------------------------------------------------
/// Round trip, plain: decoding the encoding of any `u64` stream into a
/// plain sink appends exactly the stream, padded with zeros to a whole
/// number of groups — whatever bytes follow the stream and whatever the
/// sink already held.
pub proof fn lemma_plain_round_trip(vals: Seq<u64>, rest: Seq<u8>, prior: Seq<u64>)
    ensures
        stream_ok(enc_stream(vals) + rest, vals.len() as int),
        stream_len(enc_stream(vals) + rest, vals.len() as int) == enc_stream(vals).len(),
        run_steps::<LongSink>(prior, stream_words(enc_stream(vals) + rest, vals.len() as int))
            == prior + zero_pad8(vals),
        zero_pad8(vals).len() == 8 * ((vals.len() + 7) / 8),
        forall|i: int| 0 <= i < vals.len() ==> zero_pad8(vals)[i] == vals[i],
        forall|i: int| vals.len() <= i < zero_pad8(vals).len() ==> zero_pad8(vals)[i] == 0u64,
{
    lemma_stream_round_trip(vals, rest);
    lemma_run_long(prior, zero_pad8(vals));
    lemma_zero_pad8_shape(vals);
}

/// Round trip, delta: decoding the delta encoding of any non-decreasing
/// stream into a fresh delta sink reproduces the stream exactly in the
/// first `vals.len()` outputs (the padded tail repeats the last value).
pub proof fn lemma_delta_round_trip(vals: Seq<u64>, rest: Seq<u8>)
    requires
        forall|j: int| 0 <= j < vals.len() - 1 ==> #[trigger] vals[j] <= vals[j + 1],
    ensures
        stream_ok(enc_stream(delta_seq(vals)) + rest, vals.len() as int),
        ({
            let out = run_steps::<DeltaSink>(
                (0u64, Seq::<u64>::empty()),
                stream_words(enc_stream(delta_seq(vals)) + rest, vals.len() as int),
            ).1;
            &&& out.len() == 8 * ((vals.len() + 7) / 8)
            &&& forall|i: int| 0 <= i < vals.len() ==> out[i] == vals[i]
        }),
{
    let ds = delta_seq(vals);
    lemma_stream_round_trip(ds, rest);
    let ws = stream_words(enc_stream(ds) + rest, vals.len() as int);
    assert(ws =~= zero_pad8(ds));
    lemma_run_delta(0u64, Seq::<u64>::empty(), ws);
    lemma_zero_pad8_shape(ds);
    let pad = (zero_pad8(ds).len() - ds.len()) as nat;
    assert(zero_pad8(ds) =~= ds + Seq::new(pad, |j: int| 0u64));
    lemma_delta_out_app(0u64, ds, Seq::new(pad, |j: int| 0u64));
    lemma_delta_scan(vals, 0);
    assert(ds.skip(0) =~= ds);
    assert(vals.skip(0) =~= vals);
    lemma_delta_zeros(delta_acc(0u64, ds), pad);
    let out = run_steps::<DeltaSink>((0u64, Seq::<u64>::empty()), ws).1;
    assert(out =~= delta_out(0u64, zero_pad8(ds)));
    assert(out =~= delta_out(0u64, ds) + Seq::new(pad, |j: int| delta_acc(0u64, ds)));
    assert forall|i: int| 0 <= i < vals.len() implies out[i] == vals[i] by {
        assert(delta_out(0u64, ds)[i] == vals[i]);
    }
}

/// Round trip, XOR: decoding the XOR encoding of any nonempty stream of
/// bit patterns, with the sink seeded from the stream's first pattern,
/// reproduces every pattern exactly (the padded tail repeats the last).
pub proof fn lemma_xor_round_trip(bits: Seq<u64>, rest: Seq<u8>)
    requires
        bits.len() >= 1,
    ensures
        le_val(le_bytes(bits[0] as nat, 8)) == bits[0] as nat,
        stream_ok(enc_stream(xor_seq(bits)) + rest, (bits.len() - 1) as int),
        ({
            let out = run_steps::<DoubleXorSink>(
                (bits[0], seq![bits[0]]),
                stream_words(enc_stream(xor_seq(bits)) + rest, (bits.len() - 1) as int),
            ).1;
            &&& out.len() == 1 + 8 * ((bits.len() - 1 + 7) / 8)
            &&& forall|i: int| 0 <= i < bits.len() ==> out[i] == bits[i]
        }),
{
    assert((bits[0] as nat) < pow2(64)) by {
        vstd::arithmetic::power2::lemma2_to64_rest();
    }
    lemma_le_bytes_val(bits[0] as nat, 8);
    let xs = xor_seq(bits);
    lemma_stream_round_trip(xs, rest);
    let ws = stream_words(enc_stream(xs) + rest, (bits.len() - 1) as int);
    assert(ws =~= zero_pad8(xs));
    lemma_run_xor(bits[0], seq![bits[0]], ws);
    lemma_zero_pad8_shape(xs);
    let pad = (zero_pad8(xs).len() - xs.len()) as nat;
    assert(zero_pad8(xs) =~= xs + Seq::new(pad, |j: int| 0u64));
    lemma_xor_out_app(bits[0], xs, Seq::new(pad, |j: int| 0u64));
    lemma_xor_scan(bits, 1);
    assert(xs.skip(0) =~= xs);
    let tail_seed = if xs.len() == 0 {
        bits[0]
    } else {
        xor_out(bits[0], xs).last()
    };
    lemma_xor_zeros(tail_seed, pad);
    let out = run_steps::<DoubleXorSink>((bits[0], seq![bits[0]]), ws).1;
    assert(out =~= seq![bits[0]] + xor_out(bits[0], zero_pad8(xs)));
    assert(xor_out(bits[0], xs) =~= bits.skip(1));
    assert forall|i: int| 0 <= i < bits.len() implies out[i] == bits[i] by {
        if i > 0 {
            assert(out[i] == xor_out(bits[0], zero_pad8(xs))[i - 1]);
            assert(xor_out(bits[0], zero_pad8(xs))[i - 1] == bits.skip(1)[i - 1]);
        }
    }
}

/// Header discipline: every emitted group with a nonzero mask carries a
/// width of 1 to 16 nibbles, 0 to 15 trailing zero nibbles, together at
/// most 16 nibbles; re-parsing the width byte gives back exactly the
/// encoder's width and shift, and the frame length is the rounded-up body.
pub proof fn lemma_header_discipline(vals: Seq<u64>)
    requires
        vals.len() == 8,
        mask_of(vals) != 0,
    ensures
        1 <= nnib(vals) <= 16,
        0 <= tz_nib(vals) <= 15,
        nnib(vals) + tz_nib(vals) <= 16,
        g_num_bits(width_byte(vals)) == nb_of(vals),
        g_tz(width_byte(vals)) == sh_of(vals),
        enc_group(vals).len() == 2 + (nb_of(vals) * nz_count(vals, 8) + 7) / 8,
        enc_group(vals)[0] == mask_of(vals),
        enc_group(vals)[1] == width_byte(vals),
{
    lemma_header_bounds(vals);
    lemma_width_byte_parse(vals);
    vstd::arithmetic::mul::lemma_mul_is_commutative(nz_count(vals, 8), nb_of(vals) as int);
}

/// An all-zero group encodes to exactly one byte, `0x00`, and that byte
/// decodes back to eight zeros.
pub proof fn lemma_all_zero_group(vals: Seq<u64>, rest: Seq<u8>)
    requires
        vals.len() == 8,
        forall|i: int| 0 <= i < 8 ==> vals[i] == 0u64,
    ensures
        enc_group(vals) == seq![0u8],
        group_words(enc_group(vals) + rest) =~= vals,
        g_len(enc_group(vals) + rest) == 1,
{
    lemma_mask_all_zero(vals, 8);
    crate::wire::lemma_mask_of_val(vals);
    assert(enc_group(vals) =~= seq![0u8]);
    lemma_group_round_trip(vals, rest);
}

/// Truncation safety: for a buffer holding a whole encoded stream, every
/// decode of a truncation either stops cleanly before the cut (it consumed
/// whole groups) or reports the input too short — this is the decoder's
/// contract itself, restated: success of `unpack` on any buffer and count
/// is exactly `stream_ok`, and a successful parse never reaches past
/// `stream_len` bytes.
pub proof fn lemma_truncation_bound(buf: Seq<u8>, n: int)
    requires
        stream_ok(buf, n),
        n >= 0,
    ensures
        0 <= stream_len(buf, n) <= buf.len(),
        stream_words(buf, n).len() == 8 * ((n + 7) / 8),
    decreases (n + 7) / 8,
{
    if n <= 0 {
    } else {
        assert(group_ok(buf));
        assert(0 < g_len(buf) <= buf.len()) by {
            if buf[0] != 0 {
                crate::wire::lemma_ones_below_bounds(buf[0], 8);
                vstd::arithmetic::mul::lemma_mul_nonnegative(
                    g_num_bits(buf[1]) as int,
                    crate::wire::ones_below(buf[0], 8),
                );
                vstd::arithmetic::div_mod::lemma_div_pos_is_pos(
                    g_num_bits(buf[1]) * crate::wire::ones_below(buf[0], 8) + 7,
                    8,
                );
            }
        }
        assert(group_words(buf).len() == 8);
        if n > 8 {
            lemma_truncation_bound(buf.skip(g_len(buf)), n - 8);
            assert((n + 7) / 8 == 1 + (n - 8 + 7) / 8) by {
                vstd::arithmetic::div_mod::lemma_fundamental_div_mod(n - 1, 8);
                vstd::arithmetic::div_mod::lemma_mod_bound(n - 1, 8);
                vstd::arithmetic::div_mod::lemma_fundamental_div_mod_converse(
                    n + 7,
                    8,
                    (n - 1) / 8 + 1,
                    (n - 1) % 8,
                );
            }
        } else {
            assert(stream_len(buf.skip(g_len(buf)), n - 8) == 0);
            assert(stream_words(buf.skip(g_len(buf)), n - 8) =~= Seq::<u64>::empty());
            assert((n + 7) / 8 == 1) by {
                vstd::arithmetic::div_mod::lemma_fundamental_div_mod_converse(
                    n + 7,
                    8,
                    1,
                    n - 1,
                );
            }
            assert(stream_words(buf, n).len() == 8);
        }
    }
}

/// Idempotent clear: a cleared sink carries the same model as a freshly
/// built one, so a decode drives both through exactly the same states —
/// the decoder's contract depends on the sink's model alone.
pub proof fn lemma_clear_is_fresh(cleared: DeltaSink, fresh: DeltaSink, ws: Seq<u64>)
    requires
        cleared.acc == 0,
        cleared.sink.vec@ == Seq::<u64>::empty(),
        fresh.acc == 0,
        fresh.sink.vec@ == Seq::<u64>::empty(),
    ensures
        cleared.model() == fresh.model(),
        run_steps::<DeltaSink>(cleared.model(), ws) == run_steps::<DeltaSink>(fresh.model(), ws),
{
}

// ---------------------------------------------------------------------------
// the diff-pack identity
// ---------------------------------------------------------------------------
/// Division bookkeeping for one step of the eight-slot cycle.
proof fn lemma_step8(k: int)
    requires
        k > 0,
    ensures
        k % 8 == 0 ==> k / 8 == (k - 1) / 8 + 1 && (k - 1) % 8 == 7,
        k % 8 != 0 ==> k / 8 == (k - 1) / 8 && k % 8 == (k - 1) % 8 + 1,
{
    vstd::arithmetic::div_mod::lemma_fundamental_div_mod(k - 1, 8);
    vstd::arithmetic::div_mod::lemma_mod_bound(k - 1, 8);
    vstd::arithmetic::div_mod::lemma_div_pos_is_pos(k - 1, 8);
    if (k - 1) % 8 == 7 {
        vstd::arithmetic::div_mod::lemma_fundamental_div_mod_converse(
            k,
            8,
            (k - 1) / 8 + 1,
            0,
        );
    } else {
        vstd::arithmetic::div_mod::lemma_fundamental_div_mod_converse(
            k,
            8,
            (k - 1) / 8,
            (k - 1) % 8 + 1,
        );
    }
}

/// Feeding the first `k` of the decoded words to a diff-pack sink whose
/// remembered deltas are all zero: every word is packed unchanged, whole
/// groups are flushed as they fill, and nothing is ever dropped.
proof fn lemma_ddp_zero_feed(s0: DdpState, ws: Seq<u64>, k: int)
    requires
        s0.i == 0,
        s0.last_hist_deltas.len() <= ws.len(),
        forall|j: int|
            0 <= j < s0.last_hist_deltas.len() ==> #[trigger] s0.last_hist_deltas[j] == 0u64,
        s0.pack_array.len() == 8,
        0 <= k <= s0.last_hist_deltas.len(),
    ensures
        ({
            let r = run_steps::<DeltaDiffPackSink>(s0, ws.take(k));
            &&& r.i == k
            &&& r.last_hist_deltas.len() == s0.last_hist_deltas.len()
            &&& forall|j: int|
                k <= j < r.last_hist_deltas.len() ==> #[trigger] r.last_hist_deltas[j] == 0u64
            &&& r.pack_array.len() == 8
            &&& forall|j: int| 0 <= j < k % 8 ==> #[trigger] r.pack_array[j] == ws[8 * (k / 8) + j]
            &&& r.out_vec == s0.out_vec + enc_stream(ws.take(8 * (k / 8)))
            &&& r.value_dropped == s0.value_dropped
        }),
    decreases k,
{
    if k == 0 {
        assert(ws.take(0) =~= Seq::<u64>::empty());
        assert(run_steps::<DeltaDiffPackSink>(s0, ws.take(0)) == s0);
        assert(enc_stream(ws.take(0)) =~= Seq::<u8>::empty());
        assert(s0.out_vec + enc_stream(ws.take(0)) =~= s0.out_vec);
    } else {
        lemma_ddp_zero_feed(s0, ws, k - 1);
        let p = run_steps::<DeltaDiffPackSink>(s0, ws.take(k - 1));
        let v = ws[k - 1];
        lemma_run_steps_snoc::<DeltaDiffPackSink>(s0, ws.take(k - 1), v);
        assert(ws.take(k) =~= ws.take(k - 1).push(v));
        let r = run_steps::<DeltaDiffPackSink>(s0, ws.take(k));
        assert(r == ddp_step(p, v));
        // the remembered delta for this bucket is still zero
        assert(p.last_hist_deltas[k - 1] == 0u64);
        assert(!(v < 0u64));
        lemma_step8(k);
        let pa = p.pack_array.update((k - 1) % 8, (v - 0u64) as u64);
        if k % 8 == 0 {
            // a full group of eight words flushes
            assert((k - 1) % 8 == 7);
            assert(pa =~= ws.subrange(8 * ((k - 1) / 8), 8 * ((k - 1) / 8) + 8)) by {
                assert forall|j: int| 0 <= j < 8 implies pa[j] == ws[8 * ((k - 1) / 8) + j] by {
                    if j < 7 {
                        assert(pa[j] == p.pack_array[j]);
                    }
                }
            }
            crate::pack::lemma_enc_stream_take_step(ws, 8 * ((k - 1) / 8));
            assert(8 * ((k - 1) / 8) + 8 == 8 * (k / 8));
            assert(r.out_vec =~= s0.out_vec + enc_stream(ws.take(8 * (k / 8))));
        } else {
            assert(8 * (k / 8) == 8 * ((k - 1) / 8));
            assert forall|j: int| 0 <= j < k % 8 implies #[trigger] r.pack_array[j] == ws[8 * (k
                / 8) + j] by {
                if j < (k - 1) % 8 {
                    assert(r.pack_array[j] == p.pack_array[j]);
                } else {
                    assert(j == (k - 1) % 8);
                    assert(r.pack_array[j] == v);
                    assert(8 * ((k - 1) / 8) + (k - 1) % 8 == k - 1);
                }
            }
        }
    }
}

/// Words past the bucket count leave the sink unchanged.
proof fn lemma_ddp_saturated(r: DdpState, extra: Seq<u64>)
    requires
        r.i >= r.last_hist_deltas.len(),
    ensures
        run_steps::<DeltaDiffPackSink>(r, extra) == r,
    decreases extra.len(),
{
    if extra.len() > 0 {
        assert(ddp_step(r, extra[0]) == r);
        lemma_ddp_saturated(r, extra.drop_first());
    }
}

/// Diff-pack identity: a diff-pack sink with all-zero remembered deltas,
/// fed the words a decoder delivers for a delta-encoded stream, re-encodes
/// those words byte for byte as the delta encoder would, and notes no
/// dropped value.
pub proof fn lemma_diffpack_identity(s0: DdpState, ws: Seq<u64>)
    requires
        s0.i == 0,
        s0.value_dropped == false,
        s0.last_hist_deltas.len() <= ws.len(),
        forall|j: int|
            0 <= j < s0.last_hist_deltas.len() ==> #[trigger] s0.last_hist_deltas[j] == 0u64,
        s0.pack_array.len() == 8,
    ensures
        ddp_finish(run_steps::<DeltaDiffPackSink>(s0, ws)).out_vec == s0.out_vec + enc_stream(
            ws.take(s0.last_hist_deltas.len() as int),
        ),
        ddp_finish(run_steps::<DeltaDiffPackSink>(s0, ws)).value_dropped == false,
        run_steps::<DeltaDiffPackSink>(s0, ws).value_dropped == false,
{
    let n = s0.last_hist_deltas.len() as int;
    lemma_ddp_zero_feed(s0, ws, n);
    let r = run_steps::<DeltaDiffPackSink>(s0, ws.take(n));
    assert(ws =~= ws.take(n) + ws.skip(n));
    crate::sink::lemma_run_steps_app::<DeltaDiffPackSink>(s0, ws.take(n), ws.skip(n));
    lemma_ddp_saturated(r, ws.skip(n));
    assert(run_steps::<DeltaDiffPackSink>(s0, ws) == r);
    let f = ddp_finish(r);
    if n % 8 == 0 {
        assert(8 * (n / 8) == n) by {
            vstd::arithmetic::div_mod::lemma_fundamental_div_mod(n, 8);
        }
        assert(f.out_vec == s0.out_vec + enc_stream(ws.take(n)));
    } else {
        let base = 8 * (n / 8);
        assert(0 <= base < n) by {
            vstd::arithmetic::div_mod::lemma_fundamental_div_mod(n, 8);
            vstd::arithmetic::div_mod::lemma_mod_bound(n, 8);
            vstd::arithmetic::div_mod::lemma_div_pos_is_pos(n, 8);
        }
        assert(base % 8 == 0) by {
            vstd::arithmetic::div_mod::lemma_mod_multiples_basic(n / 8, 8);
            vstd::arithmetic::mul::lemma_mul_is_commutative(8, n / 8);
        }
        let tail = ws.take(n).subrange(base, n);
        crate::pack::lemma_enc_stream_tail(ws.take(n), base);
        // the padded flush is exactly the zero-padded final group
        let padded = Seq::new(
            8,
            |j: int| if j < r.i % 8 {
                r.pack_array[j]
            } else {
                0u64
            },
        );
        assert(padded =~= crate::wire::group8(tail)) by {
            assert forall|j: int| 0 <= j < 8 implies padded[j] == crate::wire::group8(tail)[j] by {
                if j < n % 8 {
                    assert(r.pack_array[j] == ws[base + j]);
                    assert(tail[j] == ws.take(n)[base + j]);
                }
            }
        }
        assert(ws.take(n).take(base) =~= ws.take(base));
        assert(f.out_vec == r.out_vec + enc_group(padded));
        assert(f.out_vec =~= s0.out_vec + enc_stream(ws.take(n)));
    }
}

} // verus!
