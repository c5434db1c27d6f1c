//! The NibblePack decoders: the group decoder and the stream driver over it.

use vstd::prelude::*;

verus! {

use vstd::arithmetic::power2::*;
use vstd::arithmetic::div_mod::*;
use vstd::arithmetic::mul::*;
use vstd::bits::*;
use crate::NibblePackError;
use crate::byteio::{
    le_val,
    read_le_clipped,
    lemma_le_val_take,
    lemma_le_val_skip,
    lemma_le_val_bound,
    lemma_u64_one_shl,
    lemma_u64_shl_is_mul_mod,
    lemma_truncate_middle_div,
};
use crate::wire::{
    bit8,
    ones_below,
    g_num_bits,
    g_tz,
    g_len,
    group_ok,
    g_body,
    g_field,
    g_word,
    group_words,
    lemma_ones_below_bounds,
    lemma_mod_mul_pow2,
    lemma_add_mul_mod_vanish,
    lemma_pow2_le,
    lemma_ceil_div8,
};
use crate::sink::{Sink, run_steps, lemma_run_steps_snoc, lemma_run_steps_app, lemma_run8_zeros};

/// Bitwise AND with a contiguous low mask is reduction modulo a power of
/// two; covers the full-width mask as well.
proof fn lemma_and_mask_is_mod(x: u64, mask: u64, nb: nat)
    requires
        0 < nb <= 64,
        nb < 64 ==> mask as nat == pow2(nb) - 1,
        nb == 64 ==> mask == u64::MAX,
    ensures
        (x & mask) as nat == (x as nat) % pow2(nb),
{
    if nb == 64 {
        assert(x & 0xffff_ffff_ffff_ffffu64 == x) by (bit_vector);
        assert(pow2(64) == 0x1_0000_0000_0000_0000) by {
            lemma2_to64_rest();
        }
        lemma_small_mod(x as nat, pow2(64));
    } else {
        lemma_u64_pow2_no_overflow(nb);
        assert(mask == low_bits_mask(nb) as u64);
        lemma_u64_low_bits_mask_is_mod(x, nb);
    }
}

/// Disjoint bitwise OR is addition: the low `c` bits of `m` are clear and
/// `a` fits in them.
proof fn lemma_u64_or_disjoint(a: u64, m: u64, c: u64)
    by (bit_vector)
    requires
        c < 64,
        a < (1u64 << c),
        m & (((1u64 << c) - 1) as u64) == 0,
    ensures
        a | m == a + m,
{
}

/// The little-endian value of an eight-byte window of `bs` at `a`, clipped
/// to the end of `bs`, is the middle word of the whole value.
proof fn lemma_le_val_word(bs: Seq<u8>, a: int)
    requires
        0 <= a <= bs.len(),
    ensures
        le_val(
            bs.subrange(
                a,
                if a + 8 <= bs.len() {
                    a + 8
                } else {
                    bs.len() as int
                },
            ),
        ) == (le_val(bs) / pow2((8 * a) as nat)) % pow2(64),
{
    let ln = bs.len() as int;
    let e = if a + 8 <= ln {
        a + 8
    } else {
        ln
    };
    let tl = bs.skip(a);
    lemma_le_val_skip(bs, a);
    assert(bs.subrange(a, e) =~= tl.take(e - a));
    lemma_le_val_take(tl, e - a);
    if a + 8 <= ln {
        assert(8 * (e - a) == 64);
    } else {
        // the window is the whole tail and already fits 64 bits
        assert(tl.take(e - a) =~= tl);
        lemma_le_val_bound(tl);
        lemma_pow2_le((8 * (ln - a)) as nat, 64);
        lemma_pow2_pos(64);
        lemma_small_mod(le_val(tl), pow2(64));
        lemma_pow2_pos((8 * (e - a)) as nat);
        lemma_small_mod(le_val(tl), pow2((8 * (e - a)) as nat));
    }
}

/// The low part of a field, read from the rolling word.
///
/// `iw` is the 64-bit word that starts `64w` bits into the body value `bn`;
/// a field begins `bc` bits into it. Shifting and masking the word yields
/// the field bits that fall inside the word.
proof fn lemma_extract_low(bn: nat, knb: nat, bc: nat, w: int, nb: nat)
    requires
        w >= 0,
        knb == 64 * w + bc,
        bc < 64,
        0 < nb <= 64,
    ensures
        nb <= 64 - bc ==> (((bn / pow2((64 * w) as nat)) % pow2(64)) / pow2(bc)) % pow2(nb) == (bn
            / pow2(knb)) % pow2(nb),
        64 - bc < nb ==> (((bn / pow2((64 * w) as nat)) % pow2(64)) / pow2(bc)) % pow2(nb) == (bn
            / pow2(knb)) % pow2((64 - bc) as nat),
{
    let r = (64 - bc) as nat;
    let iw = (bn / pow2((64 * w) as nat)) % pow2(64);
    lemma_pow2_pos((64 * w) as nat);
    lemma_pow2_pos(bc);
    lemma_pow2_pos(r);
    lemma_pow2_pos(nb);
    // iw / 2^bc == (bn / 2^knb) % 2^r
    assert(pow2(64) == pow2(bc) * pow2(r)) by {
        lemma_pow2_adds(bc, r);
    }
    assert(iw / pow2(bc) == ((bn / pow2((64 * w) as nat)) / pow2(bc)) % pow2(r)) by {
        lemma_truncate_middle_div(bn / pow2((64 * w) as nat), pow2(bc), pow2(r));
    }
    assert((bn / pow2((64 * w) as nat)) / pow2(bc) == bn / pow2(knb)) by {
        lemma_div_denominator(bn as int, pow2((64 * w) as nat) as int, pow2(bc) as int);
        lemma_pow2_adds((64 * w) as nat, bc);
    }
    let y = bn / pow2(knb);
    if nb <= r {
        // reduce the mask after the wider remainder
        assert(pow2(r) == pow2(nb) * pow2((r - nb) as nat)) by {
            lemma_pow2_adds(nb, (r - nb) as nat);
        }
        assert((y % pow2(r)) % pow2(nb) == y % pow2(nb)) by {
            lemma_pow2_pos((r - nb) as nat);
            lemma_mod_mod(y as int, pow2(nb) as int, pow2((r - nb) as nat) as int);
        }
    } else {
        // the remainder is narrower than the mask, so the mask is a no-op
        assert((y % pow2(r)) % pow2(nb) == y % pow2(r)) by {
            lemma_mod_bound(y as int, pow2(r) as int);
            lemma_pow2_strictly_increases(r, nb);
            lemma_small_mod((y % pow2(r)) as nat, pow2(nb));
        }
    }
}

/// The high part of a field that spills into the next word, and how it
/// recombines with the low part.
proof fn lemma_extract_high(bn: nat, knb: nat, bc: nat, w: int, nb: nat)
    requires
        w >= 0,
        knb == 64 * w + bc,
        bc < 64,
        64 - bc < nb <= 64,
    ensures
        ({
            let r = (64 - bc) as nat;
            let h = bn / pow2((64 * (w + 1)) as nat);
            let nw = h % pow2(64);
            let lowv = (bn / pow2(knb)) % pow2(r);
            ((nw * pow2(r)) % pow2(64)) % pow2(nb) == pow2(r) * (h % pow2((nb - r) as nat))
                && lowv + pow2(r) * (h % pow2((nb - r) as nat)) == (bn / pow2(knb)) % pow2(nb)
                && (pow2(r) * (h % pow2((nb - r) as nat))) % pow2(r) == 0
        }),
{
    let r = (64 - bc) as nat;
    let y = bn / pow2(knb);
    let h = bn / pow2((64 * (w + 1)) as nat);
    let nw = h % pow2(64);
    lemma_pow2_pos(r);
    lemma_pow2_pos(nb);
    lemma_pow2_pos(64);
    lemma_pow2_pos((nb - r) as nat);
    lemma_pow2_pos(knb);
    lemma_pow2_pos((64 * (w + 1)) as nat);
    lemma_div_pos_is_pos(bn as int, pow2(knb) as int);
    lemma_div_pos_is_pos(bn as int, pow2((64 * (w + 1)) as nat) as int);
    // h is y shifted down by the bits still in the current word
    assert(64 * (w + 1) == knb + r) by {
        lemma_mul_is_distributive_add(64, w, 1);
        lemma_mul_basics(64);
    }
    assert(h == y / pow2(r)) by {
        lemma_pow2_pos(knb);
        lemma_pow2_adds(knb, r);
        lemma_div_denominator(bn as int, pow2(knb) as int, pow2(r) as int);
    }
    // the masked, shifted next word is exactly the high part of the field
    assert((nw * pow2(r)) % pow2(64) == (h * pow2(r)) % pow2(64)) by {
        lemma_mod_mul_pow2(h, 64, r);
        assert((h % pow2(64)) * pow2(r) == (h * pow2(r)) % pow2((64 + r) as nat));
        assert(pow2((64 + r) as nat) == pow2(64) * pow2(r)) by {
            lemma_pow2_adds(64, r);
        }
        assert(((h * pow2(r)) % (pow2(64) * pow2(r))) % pow2(64) == (h * pow2(r)) % pow2(64)) by {
            lemma_pow2_pos(r);
            lemma_mod_mod((h * pow2(r)) as int, pow2(64) as int, pow2(r) as int);
        }
        lemma_mul_strictly_positive(pow2(64) as int, pow2(r) as int);
        lemma_mod_bound((h * pow2(r)) as int, (pow2(64) * pow2(r)) as int);
        lemma_pow2_pos((64 + r) as nat);
        assert(nw * pow2(r) == (h * pow2(r)) % pow2((64 + r) as nat));
    }
    assert(((h * pow2(r)) % pow2(64)) % pow2(nb) == (h * pow2(r)) % pow2(nb)) by {
        assert(pow2(64) == pow2(nb) * pow2((64 - nb) as nat)) by {
            lemma_pow2_adds(nb, (64 - nb) as nat);
        }
        lemma_pow2_pos((64 - nb) as nat);
        lemma_mod_mod((h * pow2(r)) as int, pow2(nb) as int, pow2((64 - nb) as nat) as int);
    }
    assert((h * pow2(r)) % pow2(nb) == (h % pow2((nb - r) as nat)) * pow2(r)) by {
        lemma_mod_mul_pow2(h, (nb - r) as nat, r);
    }
    lemma_mul_is_commutative((h % pow2((nb - r) as nat)) as int, pow2(r) as int);
    // recombination: y mod 2^nb splits at bit r
    assert(pow2(nb) == pow2(r) * pow2((nb - r) as nat)) by {
        lemma_pow2_adds(r, (nb - r) as nat);
    }
    assert(0 <= y as int);
    assert(0 < pow2(r) as int);
    assert(0 < pow2((nb - r) as nat) as int);
    lemma_mod_breakdown(y as int, pow2(r) as int, pow2((nb - r) as nat) as int);
    assert(y % pow2(nb) == y % pow2(r) + pow2(r) * ((y / pow2(r)) % pow2((nb - r) as nat)));
    // the high part has no low bits
    assert((pow2(r) * (h % pow2((nb - r) as nat))) % pow2(r) == 0) by {
        lemma_mod_multiples_basic((h % pow2((nb - r) as nat)) as int, pow2(r) as int);
        lemma_mul_is_commutative(pow2(r) as int, (h % pow2((nb - r) as nat)) as int);
    }
}

/// Decodes one NibblePack group from the head of `inbuf`, feeding exactly
/// eight words to the sink, and returns the remaining bytes.
///
/// Fails with `InputTooShort` exactly when the buffer does not hold the
/// whole group frame; the sink is then untouched. No byte past the frame is
/// read.
#[verifier::rlimit(100)]
pub fn nibble_unpack8<'a, Output: Sink>(inbuf: &'a [u8], output: &mut Output) -> (res: Result<
    &'a [u8],
    NibblePackError,
>)
    ensures
        group_ok(inbuf@) <==> res is Ok,
        res matches Ok(rem) ==> rem@ == inbuf@.skip(g_len(inbuf@)) && final(output).model()
            == run_steps::<Output>(old(output).model(), group_words(inbuf@)),
        res matches Err(e) ==> e == NibblePackError::InputTooShort && final(output).model() == old(
            output,
        ).model(),
{
    let blen = inbuf.len();
    if blen == 0 {
        return Result::Err(NibblePackError::InputTooShort);
    }
    let nonzero_mask = inbuf[0];
    if nonzero_mask == 0 {
        output.process8(0);
        proof {
            lemma_run8_zeros::<Output>(old(output).model());
            assert(group_words(inbuf@) =~= seq![0u64; 8]);
            assert(g_len(inbuf@) == 1);
        }
        return Result::Ok(vstd::slice::slice_subrange(inbuf, 1, blen));
    }
    if blen < 2 {
        return Result::Err(NibblePackError::InputTooShort);
    }
    let width = inbuf[1];
    let num_bits: u32 = ((width >> 4u8) as u32 + 1) * 4;
    let trailing_zeros: u32 = ((width & 0x0fu8) as u32) * 4;
    let ghost nb = g_num_bits(inbuf@[1]);
    proof {
        lemma_u8_shr_is_div(width, 4);
        lemma_u8_low_bits_mask_is_mod(width, 4);
        lemma_low_bits_mask_values();
        assert(pow2(4) == 16) by {
            lemma2_to64();
        }
        assert(num_bits as nat == nb);
        assert(trailing_zeros as nat == g_tz(inbuf@[1]));
        assert((width as nat) / 16 <= 15);
        assert((width as nat) % 16 <= 15) by {
            lemma_mod_bound(width as int, 16);
        }
    }
    let mut cnt: u32 = 0;
    let mut b: usize = 0;
    while b < 8
        invariant
            b <= 8,
            inbuf@.len() == blen,
            blen >= 1,
            inbuf@[0] == nonzero_mask,
            cnt as int == ones_below(nonzero_mask, b as int),
        decreases 8 - b,
    {
        proof {
            lemma_ones_below_bounds(nonzero_mask, b as int);
            lemma_u8_shr_is_div(nonzero_mask, b as u8);
            lemma_u8_low_bits_mask_is_mod(nonzero_mask >> (b as u8), 1);
            lemma_low_bits_mask_values();
            assert(pow2(1) == 2) by {
                lemma2_to64();
            }
        }
        if ((nonzero_mask >> (b as u8)) & 1u8) == 1 {
            cnt += 1;
        }
        b += 1;
    }
    proof {
        lemma_ones_below_bounds(nonzero_mask, 8);
        assert((num_bits as int) * (cnt as int) <= 512) by {
            lemma_mul_upper_bound(num_bits as int, 64, cnt as int, 8);
        }
        lemma_mul_nonnegative(num_bits as int, cnt as int);
        assert(((num_bits as int) * (cnt as int) + 7) / 8 <= 64) by {
            lemma_div_is_ordered((num_bits as int) * (cnt as int) + 7, 519, 8);
        }
        lemma_div_pos_is_pos((num_bits as int) * (cnt as int) + 7, 8);
    }
    let total_bytes: usize = 2 + ((num_bits as usize) * (cnt as usize) + 7) / 8;
    proof {
        assert(total_bytes as int == g_len(inbuf@));
        assert(total_bytes <= 66);
    }
    if blen < total_bytes {
        proof {
            assert(!group_ok(inbuf@));
        }
        return Result::Err(NibblePackError::InputTooShort);
    }
    proof {
        assert(group_ok(inbuf@));
    }
    let mask64: u64 = if num_bits == 64 {
        u64::MAX
    } else {
        proof {
            lemma_u64_one_shl(num_bits as u64);
        }
        (1u64 << (num_bits as u64)) - 1
    };
    let ghost bodyq = inbuf@.subrange(2, total_bytes as int);
    let ghost bn = g_body(inbuf@);
    let ghost ll = total_bytes - 2;
    proof {
        assert(bn == le_val(bodyq));
        lemma_le_val_bound(bodyq);
        lemma_ceil_div8((cnt as int) * (nb as int));
        assert((cnt as int) * (nb as int) == (num_bits as int) * (cnt as int)) by {
            lemma_mul_is_commutative(cnt as int, nb as int);
        }
    }
    let mut buf_index: usize = 2;
    let mut in_word: u64 = read_le_clipped(inbuf, 2, total_bytes);
    proof {
        assert(inbuf@.subrange(
            2,
            if 2 + 8 <= total_bytes as int {
                2 + 8int
            } else {
                total_bytes as int
            },
        ) =~= bodyq.subrange(
            0,
            if 0 + 8 <= bodyq.len() {
                0 + 8int
            } else {
                bodyq.len() as int
            },
        ));
        lemma_le_val_word(bodyq, 0);
        assert(pow2(0) == 1) by {
            lemma2_to64();
        }
        lemma_pow2_pos(0);
        assert(bn / pow2(0) == bn) by {
            lemma_div_basics(bn as int);
        }
        assert(in_word as nat == (bn / pow2((64 * 0) as nat)) % pow2(64));
    }
    buf_index = 10;
    proof {
        assert(ones_below(nonzero_mask, 0) == 0);
        assert(0 * (nb as int) == 0);
        assert(0int / 64 == 0) by {
            lemma_div_basics_1(64);
        }
        assert(0int % 64 == 0) by {
            lemma_small_mod(0nat, 64nat);
        }
    }
    output.reserve(8);
    let mut bit_cursor: u32 = 0;
    let mut bit: usize = 0;
    while bit < 8
        invariant
            bit <= 8,
            inbuf@.len() == blen,
            blen >= total_bytes,
            2 <= total_bytes,
            total_bytes as int == g_len(inbuf@),
            inbuf@[0] == nonzero_mask,
            nonzero_mask != 0,
            blen >= 2,
            inbuf@[1] == width,
            nb == g_num_bits(inbuf@[1]),
            num_bits as nat == nb,
            4 <= num_bits <= 64,
            trailing_zeros as nat == g_tz(inbuf@[1]),
            trailing_zeros <= 60,
            num_bits == 64 ==> mask64 == u64::MAX,
            num_bits < 64 ==> mask64 as nat == pow2(nb) - 1,
            cnt as int == ones_below(nonzero_mask, 8),
            cnt <= 8,
            bodyq == inbuf@.subrange(2, total_bytes as int),
            bn == g_body(inbuf@),
            bn == le_val(bodyq),
            ll == total_bytes - 2,
            bn < pow2((8 * ll) as nat),
            (cnt as int) * (nb as int) <= 8 * ll,
            8 * ll <= (cnt as int) * (nb as int) + 7,
            total_bytes <= 66,
            2 <= buf_index <= total_bytes + 8,
            bit_cursor < 64,
            bit_cursor as int == (ones_below(nonzero_mask, bit as int) * (nb as int)) % 64,
            ones_below(nonzero_mask, bit as int) == cnt as int || (buf_index as int == 10 + 8 * (
            (ones_below(nonzero_mask, bit as int) * (nb as int)) / 64) && in_word as nat == (bn
                / pow2((64 * ((ones_below(nonzero_mask, bit as int) * (nb as int)) / 64)) as nat))
                % pow2(64)),
            output.model() == run_steps::<Output>(
                old(output).model(),
                group_words(inbuf@).take(bit as int),
            ),
        decreases 8 - bit,
    {
        let ghost k = ones_below(nonzero_mask, bit as int);
        let ghost words = group_words(inbuf@);
        proof {
            lemma_ones_below_bounds(nonzero_mask, bit as int);
            lemma_u8_shr_is_div(nonzero_mask, bit as u8);
            lemma_u8_low_bits_mask_is_mod(nonzero_mask >> (bit as u8), 1);
            lemma_low_bits_mask_values();
            assert(pow2(1) == 2) by {
                lemma2_to64();
            }
            assert(words.len() == 8);
        }
        if ((nonzero_mask >> (bit as u8)) & 1u8) != 0 {
            proof {
                assert(bit8(nonzero_mask, bit as int));
                assert(ones_below(nonzero_mask, bit + 1) == k + 1);
                assert(k + 1 <= cnt as int) by {
                    lemma_ones_below_mono(nonzero_mask, bit + 1, 8);
                }
                // so the rolling word is live
                assert(buf_index as int == 10 + 8 * ((k * (nb as int)) / 64));
            }
            let ghost knb = k * (nb as int);
            let ghost w = knb / 64;
            let ghost bc = knb % 64;
            proof {
                lemma_mul_nonnegative(k, nb as int);
                lemma_div_pos_is_pos(knb, 64);
                lemma_fundamental_div_mod(knb, 64);
                lemma_mod_bound(knb, 64);
                assert(bc == bit_cursor as int);
                // the field fits in the body bits
                assert((k + 1) * (nb as int) <= (cnt as int) * (nb as int)) by {
                    lemma_mul_inequality(k + 1, cnt as int, nb as int);
                    lemma_mul_is_commutative(k + 1, nb as int);
                    lemma_mul_is_commutative(cnt as int, nb as int);
                }
                assert((k + 1) * (nb as int) == knb + nb) by {
                    lemma_mul_is_distributive_add_other_way(nb as int, k, 1);
                    lemma_mul_basics(nb as int);
                }
            }
            let remaining: u32 = 64 - bit_cursor;
            let shifted_in: u64 = in_word >> (bit_cursor as u64);
            let mut out_word: u64 = shifted_in & mask64;
            proof {
                lemma_u64_shr_is_div(in_word, bit_cursor as u64);
                lemma_and_mask_is_mod(shifted_in, mask64, nb);
                lemma_extract_low(bn, knb as nat, bc as nat, w, nb);
                lemma_pow2_pos(nb);
                lemma_pow2_pos(bc as nat);
            }
            if remaining <= num_bits && buf_index < total_bytes {
                in_word = read_le_clipped(inbuf, buf_index, total_bytes);
                proof {
                    assert(inbuf@.subrange(
                        buf_index as int,
                        if buf_index + 8 <= total_bytes as int {
                            buf_index + 8
                        } else {
                            total_bytes as int
                        },
                    ) =~= bodyq.subrange(
                        buf_index - 2,
                        if buf_index - 2 + 8 <= bodyq.len() {
                            buf_index - 2 + 8
                        } else {
                            bodyq.len() as int
                        },
                    ));
                    lemma_le_val_word(bodyq, buf_index - 2);
                    assert(buf_index - 2 == 8 * (w + 1));
                    assert(8 * (8 * (w + 1)) == 64 * (w + 1)) by {
                        lemma_mul_is_associative(8, 8, w + 1);
                    }
                    assert(in_word as nat == (bn / pow2((64 * (w + 1)) as nat)) % pow2(64));
                }
                buf_index = buf_index + 8;
                if remaining < num_bits {
                    proof {
                        lemma_spill_combine(
                            bn,
                            knb as nat,
                            bc as nat,
                            w,
                            nb,
                            out_word,
                            in_word,
                            remaining,
                            mask64,
                            num_bits,
                        );
                    }
                    out_word = out_word | ((in_word << (remaining as u64)) & mask64);
                }
            } else {
                proof {
                    if remaining < num_bits {
                        // no next word in the frame: the spilled bits are
                        // all beyond the body, hence zero
                        assert(!(buf_index < total_bytes));
                        assert(8 * (w + 1) >= ll);
                        lemma_pow2_le((8 * ll) as nat, (64 * (w + 1)) as nat) ;
                        assert(bn < pow2((64 * (w + 1)) as nat));
                        lemma_pow2_pos((64 * (w + 1)) as nat);
                        lemma_basic_div_unpack(bn as int, pow2((64 * (w + 1)) as nat) as int);
                        // the low part is already the whole field
                        let r = (64 - bc) as nat;
                        let y = bn / pow2(knb as nat);
                        assert(64 * (w + 1) == knb + r) by {
                            lemma_mul_is_distributive_add(64, w, 1);
                            lemma_mul_basics(64);
                        }
                        assert(y / pow2(r) == 0) by {
                            lemma_pow2_adds(knb as nat, r);
                            lemma_div_denominator(bn as int, pow2(knb as nat) as int, pow2(
                                r,
                            ) as int);
                        }
                        lemma_pow2_pos(r);
                        lemma_fundamental_div_mod(y as int, pow2(r) as int);
                        assert(y < pow2(r));
                        lemma_small_mod(y, pow2(r));
                        assert(y < pow2(nb)) by {
                            lemma_pow2_strictly_increases(r, nb);
                        }
                        lemma_small_mod(y, pow2(nb));
                        assert(out_word as nat == (bn / pow2(knb as nat)) % pow2(nb));
                    }
                }
            }
            proof {
                assert(out_word as nat == g_field(inbuf@, k)) by {
                    assert((nb as int) * k == knb) by {
                        lemma_mul_is_commutative(nb as int, k);
                    }
                }
                lemma_u64_shl_is_mul_mod(out_word, trailing_zeros as u64);
                assert(words[bit as int] == g_word(inbuf@, bit as int));
                assert((out_word << (trailing_zeros as u64)) == words[bit as int]);
                lemma_run_steps_snoc::<Output>(
                    old(output).model(),
                    words.take(bit as int),
                    words[bit as int],
                );
                assert(words.take(bit + 1) =~= words.take(bit as int).push(words[bit as int]));
            }
            output.process(out_word << (trailing_zeros as u64));
            bit_cursor = (bit_cursor + num_bits) % 64;
            proof {
                // the cursor tracks the next field's start
                let b2 = (k + 1) * (nb as int);
                assert(b2 == 64 * w + (bc + nb)) by {
                    lemma_mul_is_distributive_add_other_way(nb as int, k, 1);
                    lemma_mul_basics(nb as int);
                }
                if bc + nb < 64 {
                    lemma_word_split_unpack(b2, w, bc + nb);
                } else {
                    lemma_word_split_unpack(b2, w + 1, bc + nb - 64);
                    assert(64 * (w + 1) == 64 * w + 64) by {
                        lemma_mul_is_distributive_add(64, w, 1);
                        lemma_mul_basics(64);
                    }
                }
                assert(bit_cursor as int == b2 % 64) by {
                    lemma_add_mul_mod_vanish((bit_cursor as int + num_bits as int - 64) as nat
                        + if bc + nb < 64 {
                        64nat
                    } else {
                        0nat
                    }, 0, 64);
                }
                // the live-word invariant for the next position
                if k + 1 < cnt as int {
                    if bc + nb >= 64 {
                        assert(8 * (w + 1) < ll) by {
                            assert(64 * (w + 1) <= b2);
                            assert((k + 2) * (nb as int) <= (cnt as int) * (nb as int)) by {
                                lemma_mul_inequality(k + 2, cnt as int, nb as int);
                                lemma_mul_is_commutative(k + 2, nb as int);
                                lemma_mul_is_commutative(cnt as int, nb as int);
                            }
                            assert((k + 2) * (nb as int) == b2 + nb) by {
                                lemma_mul_is_distributive_add_other_way(nb as int, k + 1, 1);
                                lemma_mul_basics(nb as int);
                            }
                            assert(64 * (w + 1) + nb <= 8 * ll);
                        }
                        assert(b2 / 64 == w + 1);
                    } else {
                        assert(b2 / 64 == w);
                    }
                }
            }
        } else {
            proof {
                assert(!bit8(nonzero_mask, bit as int));
                assert(ones_below(nonzero_mask, bit + 1) == k);
                assert(words[bit as int] == 0);
                lemma_run_steps_snoc::<Output>(
                    old(output).model(),
                    words.take(bit as int),
                    words[bit as int],
                );
                assert(words.take(bit + 1) =~= words.take(bit as int).push(words[bit as int]));
            }
            output.process(0);
        }
        bit += 1;
    }
    proof {
        assert(group_words(inbuf@).take(8) =~= group_words(inbuf@));
    }
    Result::Ok(vstd::slice::slice_subrange(inbuf, total_bytes, blen))
}

/// `ones_below` grows with its bound.
proof fn lemma_ones_below_mono(m: u8, k1: int, k2: int)
    requires
        0 <= k1 <= k2,
    ensures
        ones_below(m, k1) <= ones_below(m, k2),
    decreases k2 - k1,
{
    if k1 < k2 {
        lemma_ones_below_mono(m, k1, k2 - 1);
    }
}

proof fn lemma_basic_div_unpack(x: int, d: int)
    requires
        0 <= x < d,
    ensures
        x / d == 0,
{
    lemma_fundamental_div_mod_converse(x, d, 0, x);
}

proof fn lemma_word_split_unpack(b: int, w: int, r: int)
    requires
        w >= 0,
        0 <= r < 64,
        b == 64 * w + r,
    ensures
        b / 64 == w,
        b % 64 == r,
{
    lemma_fundamental_div_mod_converse(b, 64, w, r);
}

/// Combining the spilled high part with the low part of a field.
proof fn lemma_spill_combine(
    bn: nat,
    knb: nat,
    bc: nat,
    w: int,
    nb: nat,
    low: u64,
    nw: u64,
    remaining: u32,
    mask64: u64,
    num_bits: u32,
)
    requires
        w >= 0,
        knb == 64 * w + bc,
        bc < 64,
        64 - bc < nb <= 64,
        num_bits as nat == nb,
        remaining as int == 64 - bc,
        num_bits == 64 ==> mask64 == u64::MAX,
        num_bits < 64 ==> mask64 as nat == pow2(nb) - 1,
        low as nat == (bn / pow2(knb)) % pow2((64 - bc) as nat),
        nw as nat == (bn / pow2((64 * (w + 1)) as nat)) % pow2(64),
    ensures
        (low | ((nw << (remaining as u64)) & mask64)) as nat == (bn / pow2(knb)) % pow2(nb),
{
    let r = (64 - bc) as nat;
    let h = bn / pow2((64 * (w + 1)) as nat);
    lemma_extract_high(bn, knb, bc, w, nb);
    let hi = (nw << (remaining as u64)) & mask64;
    lemma_u64_shl_is_mul_mod(nw, remaining as u64);
    lemma_and_mask_is_mod((nw << (remaining as u64)), mask64, nb);
    assert(hi as nat == ((nw as nat * pow2(r)) % pow2(64)) % pow2(nb)) by {
        assert(((nw as nat * pow2(r)) % pow2(64)) % pow2(nb) == ((nw << (remaining as u64)) as nat)
            % pow2(nb));
    }
    assert(hi as nat == pow2(r) * (h % pow2((nb - r) as nat)));
    // the OR is disjoint
    lemma_pow2_pos(r);
    lemma_u64_one_shl(remaining as u64);
    assert(low < (1u64 << (remaining as u64))) by {
        lemma_mod_bound((bn / pow2(knb)) as int, pow2(r) as int);
    }
    assert(hi & (((1u64 << (remaining as u64)) - 1) as u64) == 0) by {
        lemma_u64_pow2_no_overflow(r);
        lemma_u64_low_bits_mask_is_mod(hi, r);
        assert((hi as nat) % pow2(r) == 0);
    }
    lemma_u64_or_disjoint(low, hi, remaining as u64);
}

/// Unpacks `num_values` values (rounded up to whole groups of eight) from a
/// compressed buffer into the sink, returning the remaining bytes.
///
/// Succeeds exactly when the buffer holds all `ceil(num_values/8)` group
/// frames; the sink then receives exactly the frames' words, in order. On
/// failure the sink may hold the words of a prefix of the groups, which the
/// caller discards.
pub fn unpack<'a, Output: Sink>(
    encoded: &'a [u8],
    output: &mut Output,
    num_values: usize,
) -> (res: Result<&'a [u8], NibblePackError>)
    ensures
        crate::wire::stream_ok(encoded@, num_values as int) <==> res is Ok,
        res matches Ok(rem) ==> rem@ == encoded@.skip(
            crate::wire::stream_len(encoded@, num_values as int),
        ) && final(output).model() == run_steps::<Output>(
            old(output).model(),
            crate::wire::stream_words(encoded@, num_values as int),
        ),
        res matches Err(e) ==> e == NibblePackError::InputTooShort,
{
    let ghost n0: int = num_values as int;
    let mut values_left: usize = num_values;
    let ghost mut nrem: int = n0;
    let ghost mut sl_done: int = 0;
    let ghost mut done: Seq<u64> = Seq::empty();
    let mut inbuf: &[u8] = encoded;
    proof {
        assert(encoded@.skip(0) =~= encoded@);
        assert(done + crate::wire::stream_words(inbuf@, nrem) =~= crate::wire::stream_words(
            inbuf@,
            nrem,
        ));
        assert(run_steps::<Output>(old(output).model(), Seq::empty()) == old(output).model());
    }
    while values_left > 0
        invariant
            n0 == num_values as int,
            values_left as int == if nrem > 0 {
                nrem
            } else {
                0
            },
            crate::wire::stream_ok(encoded@, n0) == crate::wire::stream_ok(inbuf@, nrem),
            crate::wire::stream_ok(encoded@, n0) ==> {
                &&& crate::wire::stream_words(encoded@, n0) == done + crate::wire::stream_words(
                    inbuf@,
                    nrem,
                )
                &&& crate::wire::stream_len(encoded@, n0) == sl_done + crate::wire::stream_len(
                    inbuf@,
                    nrem,
                )
                &&& 0 <= sl_done <= encoded@.len()
                &&& inbuf@ == encoded@.skip(sl_done)
                &&& output.model() == run_steps::<Output>(old(output).model(), done)
            },
        decreases values_left,
    {
        let ghost pre = inbuf@;
        let r = nibble_unpack8(inbuf, output);
        match r {
            Result::Ok(rest) => {
                proof {
                    // one whole group was consumed
                    assert(crate::wire::group_ok(pre));
                    assert(0 < g_len(pre) <= pre.len()) by {
                        if pre[0] != 0 {
                            lemma_ones_below_bounds(pre[0], 8);
                            lemma_mul_nonnegative(
                                g_num_bits(pre[1]) as int,
                                ones_below(pre[0], 8),
                            );
                            lemma_div_pos_is_pos(
                                g_num_bits(pre[1]) * ones_below(pre[0], 8) + 7,
                                8,
                            );
                        }
                    }
                    if crate::wire::stream_ok(encoded@, n0) {
                        lemma_run_steps_app::<Output>(
                            old(output).model(),
                            done,
                            crate::wire::group_words(pre),
                        );
                        done = done + crate::wire::group_words(pre);
                        sl_done = sl_done + g_len(pre);
                        assert(rest@ =~= encoded@.skip(sl_done)) by {
                            assert(pre.skip(g_len(pre)) =~= encoded@.skip(sl_done));
                        }
                        assert(crate::wire::stream_words(pre, nrem)
                            =~= crate::wire::group_words(pre) + crate::wire::stream_words(
                            pre.skip(g_len(pre)),
                            nrem - 8,
                        ));
                    }
                    nrem = nrem - 8;
                }
                inbuf = rest;
            },
            Result::Err(e) => {
                proof {
                    assert(nrem > 0);
                    assert(!crate::wire::group_ok(inbuf@));
                    assert(!crate::wire::stream_ok(inbuf@, nrem));
                    assert(!crate::wire::stream_ok(encoded@, n0));
                }
                return Result::Err(e);
            },
        }
        values_left = if values_left >= 8 {
            values_left - 8
        } else {
            0
        };
    }
    proof {
        assert(crate::wire::stream_ok(inbuf@, nrem));
        assert(crate::wire::stream_len(inbuf@, nrem) == 0);
        assert(crate::wire::stream_words(inbuf@, nrem) =~= Seq::<u64>::empty());
        assert(crate::wire::stream_ok(encoded@, n0));
        assert(done =~= crate::wire::stream_words(encoded@, n0));
    }
    Result::Ok(inbuf)
}

/// Unpacks a buffer produced by XOR encoding: reads the eight-byte seed
/// pattern, resets the sink with it, and unpacks the remaining
/// `num_values - 1` XOR deltas.
///
/// Fails with `InputTooShort` when fewer than eight bytes are present, or
/// when the delta stream is truncated.
pub fn unpack_f64_xor<'a>(
    encoded: &'a [u8],
    sink: &mut crate::sink::DoubleXorSink,
    num_values: usize,
) -> (res: Result<&'a [u8], NibblePackError>)
    requires
        num_values >= 1,
    ensures
        res is Ok <==> (encoded@.len() >= 8 && crate::wire::stream_ok(
            encoded@.skip(8),
            num_values - 1,
        )),
        res matches Ok(rem) ==> ({
            let seed = le_val(encoded@.subrange(0, 8)) as u64;
            &&& rem@ == encoded@.skip(8).skip(
                crate::wire::stream_len(encoded@.skip(8), num_values - 1),
            )
            &&& final(sink).model() == run_steps::<crate::sink::DoubleXorSink>(
                (seed, seq![seed]),
                crate::wire::stream_words(encoded@.skip(8), num_values - 1),
            )
        }),
        res matches Err(e) ==> e == NibblePackError::InputTooShort,
{
    if encoded.len() < 8 {
        return Result::Err(NibblePackError::InputTooShort);
    }
    let init_value = read_le_clipped(encoded, 0, 8);
    proof {
        assert(encoded@.subrange(0, if 0 + 8 <= 8 {
            0 + 8int
        } else {
            8int
        }) =~= encoded@.subrange(0, 8));
        lemma_le_val_bound(encoded@.subrange(0, 8));
        lemma_pow2_le((8 * 8) as nat, 64);
    }
    sink.reset(init_value);
    let rest = vstd::slice::slice_subrange(encoded, 8, encoded.len());
    proof {
        assert(rest@ =~= encoded@.skip(8));
    }
    unpack(rest, sink, num_values - 1)
}

} // verus!
