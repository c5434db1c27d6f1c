//! Sinks: consumers of decoded words that apply inverse predictors or
//! re-encode.
//!
//! Each sink carries an abstract model and a pure transition function
//! `step`; its methods are specified exactly as folds of `step`, so the
//! decoder's contract pins the final sink state as a function of the decoded
//! words alone.

use vstd::prelude::*;

verus! {

use crate::wire::enc_group;
use crate::pack::nibble_pack8;

/// A consumer of decoded `u64` words.
///
/// `model` abstracts the sink's state; `step` is the exact effect of
/// consuming one word. `process8` is the bulk path the decoder takes for an
/// all-zero group, so it is only ever handed zero.
pub trait Sink: Sized {
    /// The abstract state of the sink.
    type M;

    /// The sink's current abstract state.
    spec fn model(&self) -> Self::M;

    /// The effect of consuming one word.
    spec fn step(m: Self::M, v: u64) -> Self::M;

    /// Advises the sink of incoming items; never changes the state.
    fn reserve(&mut self, num_items: usize)
        ensures
            final(self).model() == old(self).model(),
    ;

    /// Consumes one decoded word.
    fn process(&mut self, data: u64)
        ensures
            final(self).model() == Self::step(old(self).model(), data),
    ;

    /// Consumes eight zero words at once: the decoder's fast path for an
    /// all-zero group.
    fn process8(&mut self, data: u64)
        requires
            data == 0,
        ensures
            final(self).model() == Self::step(
                Self::step(
                    Self::step(
                        Self::step(
                            Self::step(
                                Self::step(
                                    Self::step(Self::step(old(self).model(), 0), 0),
                                    0,
                                ),
                                0,
                            ),
                            0,
                        ),
                        0,
                    ),
                    0,
                ),
                0,
            ),
    ;
}

/// Folding `step` over a sequence of words.
pub open spec fn run_steps<S: Sink>(m: S::M, ws: Seq<u64>) -> S::M
    decreases ws.len(),
{
    if ws.len() == 0 {
        m
    } else {
        run_steps::<S>(S::step(m, ws[0]), ws.drop_first())
    }
}

/// A fold over a concatenation is the composition of the folds.
pub proof fn lemma_run_steps_app<S: Sink>(m: S::M, a: Seq<u64>, b: Seq<u64>)
    ensures
        run_steps::<S>(m, a + b) == run_steps::<S>(run_steps::<S>(m, a), b),
    decreases a.len(),
{
    if a.len() == 0 {
        assert(a + b =~= b);
    } else {
        assert((a + b).drop_first() =~= a.drop_first() + b);
        assert((a + b)[0] == a[0]);
        lemma_run_steps_app::<S>(S::step(m, a[0]), a.drop_first(), b);
    }
}

/// Eight zero words, one step at a time.
pub proof fn lemma_run8_zeros<S: Sink>(m: S::M)
    ensures
        run_steps::<S>(m, seq![0u64; 8]) == S::step(
            S::step(
                S::step(
                    S::step(S::step(S::step(S::step(S::step(m, 0), 0), 0), 0), 0), 0,
                ),
                0,
            ),
            0,
        ),
{
    let z = seq![0u64; 8];
    assert(z.drop_first() =~= seq![0u64; 7]);
    assert(seq![0u64; 7].drop_first() =~= seq![0u64; 6]);
    assert(seq![0u64; 6].drop_first() =~= seq![0u64; 5]);
    assert(seq![0u64; 5].drop_first() =~= seq![0u64; 4]);
    assert(seq![0u64; 4].drop_first() =~= seq![0u64; 3]);
    assert(seq![0u64; 3].drop_first() =~= seq![0u64; 2]);
    assert(seq![0u64; 2].drop_first() =~= seq![0u64; 1]);
    assert(seq![0u64; 1].drop_first() =~= Seq::<u64>::empty());
    let m1 = S::step(m, 0);
    let m2 = S::step(m1, 0);
    let m3 = S::step(m2, 0);
    let m4 = S::step(m3, 0);
    let m5 = S::step(m4, 0);
    let m6 = S::step(m5, 0);
    let m7 = S::step(m6, 0);
    let m8 = S::step(m7, 0);
    assert(run_steps::<S>(m, z) == run_steps::<S>(m1, seq![0u64; 7]));
    assert(run_steps::<S>(m1, seq![0u64; 7]) == run_steps::<S>(m2, seq![0u64; 6]));
    assert(run_steps::<S>(m2, seq![0u64; 6]) == run_steps::<S>(m3, seq![0u64; 5]));
    assert(run_steps::<S>(m3, seq![0u64; 5]) == run_steps::<S>(m4, seq![0u64; 4]));
    assert(run_steps::<S>(m4, seq![0u64; 4]) == run_steps::<S>(m5, seq![0u64; 3]));
    assert(run_steps::<S>(m5, seq![0u64; 3]) == run_steps::<S>(m6, seq![0u64; 2]));
    assert(run_steps::<S>(m6, seq![0u64; 2]) == run_steps::<S>(m7, seq![0u64; 1]));
    assert(run_steps::<S>(m7, seq![0u64; 1]) == run_steps::<S>(m8, Seq::<u64>::empty()));
    assert(run_steps::<S>(m8, Seq::<u64>::empty()) == m8);
}

/// Extending a fold by one word on the right.
pub proof fn lemma_run_steps_snoc<S: Sink>(m: S::M, a: Seq<u64>, v: u64)
    ensures
        run_steps::<S>(m, a.push(v)) == S::step(run_steps::<S>(m, a), v),
{
    lemma_run_steps_app::<S>(m, a, seq![v]);
    assert(a.push(v) =~= a + seq![v]);
    let r = run_steps::<S>(m, a);
    assert(seq![v][0] == v);
    assert(run_steps::<S>(r, seq![v]) == run_steps::<S>(S::step(r, v), seq![v].drop_first()));
    assert(seq![v].drop_first() =~= Seq::<u64>::empty());
    assert(run_steps::<S>(S::step(r, v), Seq::<u64>::empty()) == S::step(r, v));
}

/// A sink which appends each decoded word to a `u64` list.
#[derive(Debug)]
pub struct LongSink {
    pub vec: Vec<u64>,
}

impl LongSink {
    /// An empty sink.
    pub fn new() -> (s: LongSink)
        ensures
            s.vec@ == Seq::<u64>::empty(),
    {
        LongSink { vec: Vec::new() }
    }

    /// Empties the sink, as if freshly constructed.
    pub fn clear(&mut self)
        ensures
            final(self).vec@ == Seq::<u64>::empty(),
    {
        self.vec.clear()
    }
}

impl Sink for LongSink {
    type M = Seq<u64>;

    open spec fn model(&self) -> Seq<u64> {
        self.vec@
    }

    open spec fn step(m: Seq<u64>, v: u64) -> Seq<u64> {
        m.push(v)
    }

    fn reserve(&mut self, num_items: usize) {
        self.vec.reserve(num_items)
    }

    fn process(&mut self, data: u64) {
        self.vec.push(data)
    }

    fn process8(&mut self, data: u64) {
        self.process(data);
        self.process(data);
        self.process(data);
        self.process(data);
        self.process(data);
        self.process(data);
        self.process(data);
        self.process(data);
    }
}

/// A sink which turns a delta-encoded stream back into the running values:
/// each decoded word is added to an accumulator, and the accumulator is
/// appended. Addition wraps on overflow.
#[derive(Debug)]
pub struct DeltaSink {
    pub acc: u64,
    pub sink: LongSink,
}

impl DeltaSink {
    /// Wraps an existing output sink, starting the accumulator at zero.
    pub fn with_sink(inner_sink: LongSink) -> (s: DeltaSink)
        ensures
            s.acc == 0,
            s.sink == inner_sink,
    {
        DeltaSink { acc: 0, sink: inner_sink }
    }

    /// An empty sink with a zero accumulator.
    pub fn new() -> (s: DeltaSink)
        ensures
            s.acc == 0,
            s.sink.vec@ == Seq::<u64>::empty(),
    {
        DeltaSink::with_sink(LongSink::new())
    }

    /// Resets the state of the sink so it can be re-used for another
    /// unpacking; afterwards it is indistinguishable from a fresh sink.
    pub fn clear(&mut self)
        ensures
            final(self).acc == 0,
            final(self).sink.vec@ == Seq::<u64>::empty(),
    {
        self.acc = 0;
        self.sink.clear()
    }
}

impl Sink for DeltaSink {
    type M = (u64, Seq<u64>);

    open spec fn model(&self) -> (u64, Seq<u64>) {
        (self.acc, self.sink.vec@)
    }

    open spec fn step(m: (u64, Seq<u64>), v: u64) -> (u64, Seq<u64>) {
        let a = ((m.0 + v) % 0x1_0000_0000_0000_0000) as u64;
        (a, m.1.push(a))
    }

    fn reserve(&mut self, num_items: usize) {
        self.sink.reserve(num_items)
    }

    fn process(&mut self, data: u64) {
        proof {
            lemma_wrapping_add_is_mod(self.acc, data);
        }
        self.acc = self.acc.wrapping_add(data);
        self.sink.process(self.acc);
    }

    fn process8(&mut self, data: u64) {
        self.process(data);
        self.process(data);
        self.process(data);
        self.process(data);
        self.process(data);
        self.process(data);
        self.process(data);
        self.process(data);
    }
}

/// Wrapping addition is addition modulo `2^64`.
proof fn lemma_wrapping_add_is_mod(a: u64, b: u64)
    ensures
        a.wrapping_add(b) == ((a + b) % 0x1_0000_0000_0000_0000) as u64,
{
    if a + b > u64::MAX {
        assert((a + b) % 0x1_0000_0000_0000_0000 == (a + b - 0x1_0000_0000_0000_0000) % 0x1_0000_0000_0000_0000) by {
            vstd::arithmetic::div_mod::lemma_mod_sub_multiples_vanish(
                a + b,
                0x1_0000_0000_0000_0000,
            );
        }
        assert((a + b - 0x1_0000_0000_0000_0000) % 0x1_0000_0000_0000_0000 == a + b
            - 0x1_0000_0000_0000_0000) by {
            vstd::arithmetic::div_mod::lemma_small_mod(
                (a + b - 0x1_0000_0000_0000_0000) as nat,
                0x1_0000_0000_0000_0000,
            );
        }
    } else {
        assert((a + b) % 0x1_0000_0000_0000_0000 == a + b) by {
            vstd::arithmetic::div_mod::lemma_small_mod((a + b) as nat, 0x1_0000_0000_0000_0000);
        }
    }
}

/// A sink which undoes successive XOR encoding of `f64` bit patterns: each
/// decoded word is XORed with the previous pattern, and the restored pattern
/// is appended. The caller converts patterns to floats with
/// `f64::from_bits` at the boundary.
#[derive(Debug)]
pub struct DoubleXorSink {
    pub last: u64,
    pub vec: Vec<u64>,
}

impl DoubleXorSink {
    /// Creates a new sink that appends restored bit patterns to `the_vec`.
    pub fn new(the_vec: Vec<u64>) -> (s: DoubleXorSink)
        ensures
            s.last == 0,
            s.vec == the_vec,
    {
        DoubleXorSink { last: 0, vec: the_vec }
    }

    /// Starts a fresh decoding from the stream's seed pattern.
    pub(crate) fn reset(&mut self, init_value: u64)
        ensures
            final(self).last == init_value,
            final(self).vec@ == seq![init_value],
    {
        self.vec.clear();
        self.vec.push(init_value);
        self.last = init_value;
        proof {
            assert(self.vec@ =~= seq![init_value]);
        }
    }
}

impl Sink for DoubleXorSink {
    type M = (u64, Seq<u64>);

    open spec fn model(&self) -> (u64, Seq<u64>) {
        (self.last, self.vec@)
    }

    open spec fn step(m: (u64, Seq<u64>), v: u64) -> (u64, Seq<u64>) {
        let b = m.0 ^ v;
        (b, m.1.push(b))
    }

    fn reserve(&mut self, num_items: usize) {
        self.vec.reserve(num_items)
    }

    fn process(&mut self, data: u64) {
        let numbits = self.last ^ data;
        self.vec.push(numbits);
        self.last = numbits;
    }

    fn process8(&mut self, data: u64) {
        self.process(data);
        self.process(data);
        self.process(data);
        self.process(data);
        self.process(data);
        self.process(data);
        self.process(data);
        self.process(data);
    }
}

/// The abstract state of a `DeltaDiffPackSink`.
pub struct DdpState {
    pub value_dropped: bool,
    pub i: int,
    pub last_hist_deltas: Seq<u64>,
    pub pack_array: Seq<u64>,
    pub out_vec: Seq<u8>,
}

/// The exact effect of one decoded word on a `DeltaDiffPackSink`: subtract
/// the remembered delta (or keep the word and note the drop), remember the
/// word, and flush a group every eight buckets. Words beyond the bucket
/// count are ignored.
pub open spec fn ddp_step(m: DdpState, v: u64) -> DdpState {
    if m.i < m.last_hist_deltas.len() {
        let lastv = m.last_hist_deltas[m.i];
        let packed = if v < lastv {
            v
        } else {
            (v - lastv) as u64
        };
        let pa = m.pack_array.update(m.i % 8, packed);
        let out = if (m.i + 1) % 8 == 0 {
            m.out_vec + enc_group(pa)
        } else {
            m.out_vec
        };
        DdpState {
            value_dropped: m.value_dropped || v < lastv,
            i: m.i + 1,
            last_hist_deltas: m.last_hist_deltas.update(m.i, v),
            pack_array: pa,
            out_vec: out,
        }
    } else {
        m
    }
}

/// The effect of `finish`: flush a zero-padded partial group, if any, and
/// rewind for the next pass.
pub open spec fn ddp_finish(m: DdpState) -> DdpState {
    if m.i % 8 != 0 {
        DdpState {
            value_dropped: false,
            i: 0,
            last_hist_deltas: m.last_hist_deltas,
            pack_array: Seq::new(8, |j: int| if j < m.i % 8 {
                m.pack_array[j]
            } else {
                0u64
            }),
            out_vec: m.out_vec + enc_group(
                Seq::new(8, |j: int| if j < m.i % 8 {
                    m.pack_array[j]
                } else {
                    0u64
                }),
            ),
        }
    } else {
        DdpState {
            value_dropped: false,
            i: 0,
            last_hist_deltas: m.last_hist_deltas,
            pack_array: m.pack_array,
            out_vec: m.out_vec,
        }
    }
}

/// A sink for streams of increasing histogram counters. In one pass it
/// unpacks a delta-encoded histogram, subtracts the previous histogram's
/// deltas bucket by bucket (noting a counter reset when a value dropped),
/// re-packs the differences, and remembers the new deltas for the next pass.
#[derive(Debug)]
pub struct DeltaDiffPackSink {
    pub value_dropped: bool,
    pub i: usize,
    pub last_hist_deltas: Vec<u64>,
    pub pack_array: [u64; 8],
    pub out_vec: Vec<u8>,
}

impl DeltaDiffPackSink {
    /// Creates a new sink for `num_buckets` buckets, taking ownership of
    /// `out_vec` as the re-encoding output.
    pub fn new(num_buckets: usize, out_vec: Vec<u8>) -> (s: DeltaDiffPackSink)
        ensures
            s.value_dropped == false,
            s.i == 0,
            s.last_hist_deltas@ == Seq::new(num_buckets as nat, |j: int| 0u64),
            s.pack_array@ == Seq::new(8, |j: int| 0u64),
            s.out_vec == out_vec,
    {
        let mut last_hist_deltas: Vec<u64> = Vec::new();
        let mut j: usize = 0;
        while j < num_buckets
            invariant
                j <= num_buckets,
                last_hist_deltas@ =~= Seq::new(j as nat, |k: int| 0u64),
            decreases num_buckets - j,
        {
            last_hist_deltas.push(0);
            proof {
                assert(last_hist_deltas@ =~= Seq::new((j + 1) as nat, |k: int| 0u64));
            }
            j += 1;
        }
        let s = DeltaDiffPackSink {
            value_dropped: false,
            i: 0,
            last_hist_deltas,
            pack_array: [0u64; 8],
            out_vec,
        };
        proof {
            assert(s.pack_array@ =~= Seq::new(8, |j: int| 0u64));
        }
        s
    }

    /// Resets everything, including the output buffer.
    pub fn reset(&mut self)
        ensures
            final(self).value_dropped == false,
            final(self).i == 0,
            final(self).last_hist_deltas@ == Seq::new(
                old(self).last_hist_deltas@.len(),
                |j: int| 0u64,
            ),
            final(self).pack_array@ == old(self).pack_array@,
            final(self).out_vec@ == Seq::<u8>::empty(),
    {
        self.i = 0;
        self.value_dropped = false;
        let n = self.last_hist_deltas.len();
        let mut j: usize = 0;
        while j < n
            invariant
                j <= n,
                self.last_hist_deltas@.len() == n,
                self.pack_array@ == old(self).pack_array@,
                self.i == 0,
                self.value_dropped == false,
                self.out_vec@ == old(self).out_vec@,
                forall|k: int| 0 <= k < j ==> self.last_hist_deltas@[k] == 0u64,
            decreases n - j,
        {
            self.last_hist_deltas.set(j, 0);
            j += 1;
        }
        self.out_vec.truncate(0);
        proof {
            assert(final(self).last_hist_deltas@ =~= Seq::new(
                old(self).last_hist_deltas@.len(),
                |j: int| 0u64,
            ));
        }
    }

    /// Finishes the pass: packs the remaining partial group, zero-padded,
    /// and rewinds the bucket index for the next pass.
    pub fn finish(&mut self)
        ensures
            final(self).model() == ddp_finish(old(self).model()),
    {
        if self.i % 8 != 0 {
            let mut j: usize = self.i % 8;
            while j < 8
                invariant
                    old(self).i % 8 < 8,
                    old(self).i % 8 <= j <= 8,
                    self.value_dropped == old(self).value_dropped,
                    self.i == old(self).i,
                    self.last_hist_deltas@ == old(self).last_hist_deltas@,
                    self.out_vec@ == old(self).out_vec@,
                    self.pack_array@.len() == 8,
                    forall|k: int|
                        0 <= k < 8 ==> self.pack_array@[k] == (if k < old(self).i % 8 || k >= j {
                            old(self).pack_array@[k]
                        } else {
                            0u64
                        }),
                decreases 8 - j,
            {
                self.pack_array[j] = 0;
                j += 1;
            }
            proof {
                assert(self.pack_array@ =~= Seq::new(
                    8,
                    |k: int| if k < old(self).i % 8 {
                        old(self).pack_array@[k]
                    } else {
                        0u64
                    },
                ));
            }
            nibble_pack8(self.pack_array.as_slice(), &mut self.out_vec);
        }
        self.i = 0;
        self.value_dropped = false;
        proof {
            assert((old(self).i % 8) as int == (old(self).model().i % 8));
        }
    }
}

impl Sink for DeltaDiffPackSink {
    type M = DdpState;

    open spec fn model(&self) -> DdpState {
        DdpState {
            value_dropped: self.value_dropped,
            i: self.i as int,
            last_hist_deltas: self.last_hist_deltas@,
            pack_array: self.pack_array@,
            out_vec: self.out_vec@,
        }
    }

    open spec fn step(m: DdpState, v: u64) -> DdpState {
        ddp_step(m, v)
    }

    fn reserve(&mut self, num_items: usize) {
    }

    fn process(&mut self, data: u64) {
        if self.i < self.last_hist_deltas.len() {
            let last_value = self.last_hist_deltas[self.i];
            // a drop from the previous pass means a counter reset: keep the
            // raw value instead of the difference
            if data < last_value {
                self.value_dropped = true;
                self.pack_array[self.i % 8] = data;
            } else {
                self.pack_array[self.i % 8] = data - last_value;
            }
            self.last_hist_deltas.set(self.i, data);
            self.i = self.i + 1;
            if self.i % 8 == 0 {
                nibble_pack8(self.pack_array.as_slice(), &mut self.out_vec);
            }
        }
    }

    fn process8(&mut self, data: u64) {
        self.process(data);
        self.process(data);
        self.process(data);
        self.process(data);
        self.process(data);
        self.process(data);
        self.process(data);
        self.process(data);
    }
}

} // verus!
