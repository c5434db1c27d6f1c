//! The NibblePack encoders: the group encoder and the stream encoders built
//! on it.

use vstd::prelude::*;

verus! {

use vstd::arithmetic::power2::*;
use vstd::arithmetic::div_mod::*;
use vstd::arithmetic::mul::*;
use vstd::bits::*;
use crate::byteio::{
    le_bytes,
    write_le,
    lemma_le_bytes_split,
    lemma_u64_one_shl,
    lemma_u64_or_is_add,
};
use crate::wire::{
    enc_group,
    mask_of,
    mask_prefix,
    width_byte,
    min_lz,
    min_tz,
    nnib,
    tz_nib,
    sh_of,
    nb_of,
    body_len,
    nz_count,
    nz_fields,
    fields_nat,
    lemma_mask_prefix_bound,
    lemma_mask_of_val,
    lemma_min_zeros_bounds,
    lemma_header_bounds,
    lemma_width_byte_parse,
    lemma_field_facts,
    lemma_nz_fields_take_step,
    lemma_nz_fields_all_bound,
    lemma_nz_fields_len,
    lemma_nz_count_same_on_prefix,
    lemma_fields_nat_bound,
    lemma_add_mul_pow2_div,
    lemma_add_mul_mod_vanish,
    lemma_pow2_le,
};

proof fn lemma_u8_set_bit(m: u8, c: u8)
    by (bit_vector)
    requires
        c < 8,
        m < (1u8 << c),
    ensures
        m | (1u8 << c) == m + (1u8 << c),
{
}

proof fn lemma_u8_one_shl(c: u8)
    requires
        c < 8,
    ensures
        (1u8 << c) as nat == pow2(c as nat),
{
    lemma2_to64();
    lemma_u8_shl_is_mul(1u8, c);
}

proof fn lemma_u32_pack_width(w: u32, t: u32)
    by (bit_vector)
    requires
        w <= 15,
        t <= 15,
    ensures
        ((w << 4u32) | t) == 16 * w + t,
{
}

/// A truncating left shift keeps only the low part of its operand.
#[verifier::rlimit(100)]
proof fn lemma_u64_shl_lo(s: u64, c: u64)
    by (bit_vector)
    requires
        0 < c < 64,
    ensures
        (s << c) == (s & (((1u64 << ((64 - c) as u64)) - 1) as u64)) << c,
{
}

/// The rolling word after the OR is the middle of the grown body, mod 2^64.
proof fn lemma_or_word_mod(owo: nat, s: nat, bc: int, nb: nat, ow_new: nat)
    requires
        0 <= bc < 64,
        0 < nb <= 64,
        s < pow2(nb),
        owo < pow2(bc as nat),
        (bc + nb <= 64 && ow_new == owo + s * pow2(bc as nat)) || (bc + nb > 64 && ow_new == owo
            + (s % pow2((64 - bc) as nat)) * pow2(bc as nat)),
    ensures
        ow_new == (owo + s * pow2(bc as nat)) % pow2(64),
{
    lemma_pow2_pos(bc as nat);
    lemma_pow2_pos(nb);
    lemma_pow2_pos(64);
    if bc + nb <= 64 {
        assert(s * pow2(bc as nat) <= (pow2((64 - bc) as nat) - 1) * pow2(bc as nat)) by {
            lemma_pow2_le(nb, (64 - bc) as nat);
            lemma_pow2_pos((64 - bc) as nat);
            lemma_mul_inequality(s as int, pow2((64 - bc) as nat) as int - 1, pow2(
                bc as nat,
            ) as int);
        }
        assert((pow2((64 - bc) as nat) - 1) * pow2(bc as nat) == pow2((64 - bc) as nat) * pow2(
            bc as nat,
        ) - pow2(bc as nat)) by {
            lemma_mul_is_distributive_sub_other_way(
                pow2(bc as nat) as int,
                pow2((64 - bc) as nat) as int,
                1,
            );
            lemma_mul_basics(pow2(bc as nat) as int);
        }
        lemma_pow2_adds((64 - bc) as nat, bc as nat);
        lemma_small_mod(ow_new, pow2(64));
    } else {
        let r = (64 - bc) as nat;
        let slo = s % pow2(r);
        let shi = s / pow2(r);
        lemma_pow2_pos(r);
        lemma_fundamental_div_mod(s as int, pow2(r) as int);
        // s * 2^bc == slo * 2^bc + shi * 2^64
        assert(s * pow2(bc as nat) == slo * pow2(bc as nat) + shi * pow2(64)) by {
            assert(s == pow2(r) * shi + slo);
            lemma_mul_is_distributive_add_other_way(
                pow2(bc as nat) as int,
                (pow2(r) * shi) as int,
                slo as int,
            );
            assert((pow2(r) * shi) * pow2(bc as nat) == shi * (pow2(r) * pow2(bc as nat))) by {
                lemma_mul_is_associative(pow2(r) as int, shi as int, pow2(bc as nat) as int);
                lemma_mul_is_commutative(pow2(r) as int, shi as int);
                lemma_mul_is_associative(shi as int, pow2(r) as int, pow2(bc as nat) as int);
            }
            lemma_pow2_adds(r, bc as nat);
        }
        assert(ow_new < pow2(64)) by {
            lemma_mod_bound(s as int, pow2(r) as int);
            assert(slo * pow2(bc as nat) <= (pow2(r) - 1) * pow2(bc as nat)) by {
                lemma_mul_inequality(slo as int, pow2(r) as int - 1, pow2(bc as nat) as int);
            }
            assert((pow2(r) - 1) * pow2(bc as nat) == pow2(r) * pow2(bc as nat) - pow2(
                bc as nat,
            )) by {
                lemma_mul_is_distributive_sub_other_way(
                    pow2(bc as nat) as int,
                    pow2(r) as int,
                    1,
                );
                lemma_mul_basics(pow2(bc as nat) as int);
            }
            lemma_pow2_adds(r, bc as nat);
        }
        lemma_add_mul_mod_vanish(ow_new, shi, pow2(64));
        lemma_small_mod(ow_new, pow2(64));
    }
}

/// Division facts for the rolling word bookkeeping: `64w + r` divided by 64.
proof fn lemma_word_split(b: int, w: int, r: int)
    requires
        w >= 0,
        0 <= r < 64,
        b == 64 * w + r,
    ensures
        b / 64 == w,
        b % 64 == r,
{
    lemma_fundamental_div_mod_converse(b, 64, w, r);
}

/// Byte-count bookkeeping: `64w + c + 7` divided by 8 for `0 <= c < 64`.
proof fn lemma_byte_split(b: int, w: int, c: int)
    requires
        w >= 0,
        0 <= c < 64,
        b == 64 * w + c,
    ensures
        (b + 7) / 8 == 8 * w + (c + 7) / 8,
        0 <= (c + 7) / 8 <= 8,
{
    lemma_fundamental_div_mod(c + 7, 8);
    lemma_mod_bound(c + 7, 8);
    lemma_div_pos_is_pos(c + 7, 8);
    assert((c + 7) / 8 <= 8) by {
        if (c + 7) / 8 > 8 {
            lemma_mul_inequality(9, (c + 7) / 8, 8);
        }
    }
    lemma_fundamental_div_mod_converse(b + 7, 8, 8 * w + (c + 7) / 8, (c + 7) % 8);
}

/// Encodes exactly eight `u64` values as one NibblePack group, appending the
/// frame to `out_buffer`.
///
/// The frame is the nonzero-mask byte; if any input is nonzero, the width
/// byte and the packed body follow.
pub fn nibble_pack8(inputs: &[u64], out_buffer: &mut Vec<u8>)
    requires
        inputs@.len() == 8,
    ensures
        final(out_buffer)@ == old(out_buffer)@ + enc_group(inputs@),
{
    let mut nonzero_mask: u8 = 0;
    let mut i: usize = 0;
    while i < 8
        invariant
            i <= 8,
            inputs@.len() == 8,
            nonzero_mask as nat == mask_prefix(inputs@, i as int),
        decreases 8 - i,
    {
        if inputs[i] != 0 {
            proof {
                lemma_mask_prefix_bound(inputs@, i as int);
                lemma_u8_one_shl(i as u8);
                lemma_u8_set_bit(nonzero_mask, i as u8);
            }
            nonzero_mask = nonzero_mask | (1u8 << (i as u8));
        }
        i += 1;
    }
    proof {
        lemma_mask_of_val(inputs@);
        assert(nonzero_mask == mask_of(inputs@));
    }
    out_buffer.push(nonzero_mask);

    if nonzero_mask != 0 {
        let mut min_leading_zeros: u32 = 64;
        let mut min_trailing_zeros: u32 = 64;
        let mut j: usize = 0;
        while j < 8
            invariant
                j <= 8,
                inputs@.len() == 8,
                min_leading_zeros as int == min_lz(inputs@, j as int),
                min_trailing_zeros as int == min_tz(inputs@, j as int),
            decreases 8 - j,
        {
            proof {
                lemma_min_zeros_bounds(inputs@, j as int);
                vstd::std_specs::bits::axiom_u64_leading_zeros(inputs@[j as int]);
                vstd::std_specs::bits::axiom_u64_trailing_zeros(inputs@[j as int]);
            }
            let lz = inputs[j].leading_zeros();
            if lz < min_leading_zeros {
                min_leading_zeros = lz;
            }
            let tz = inputs[j].trailing_zeros();
            if tz < min_trailing_zeros {
                min_trailing_zeros = tz;
            }
            j += 1;
        }
        proof {
            lemma_header_bounds(inputs@);
        }
        let trailing_nibbles: u32 = min_trailing_zeros / 4;
        let num_nibbles: u32 = 16 - min_leading_zeros / 4 - trailing_nibbles;
        proof {
            lemma_u32_pack_width((num_nibbles - 1) as u32, trailing_nibbles);
            lemma_width_byte_parse(inputs@);
        }
        let nibble_word: u8 = (((num_nibbles - 1) << 4u32) | trailing_nibbles) as u8;
        proof {
            assert(nibble_word == width_byte(inputs@));
        }
        out_buffer.push(nibble_word);

        if num_nibbles % 2 == 0 {
            pack_to_even_nibbles(inputs, out_buffer, num_nibbles, trailing_nibbles);
        } else {
            pack_universal(inputs, out_buffer, num_nibbles, trailing_nibbles);
        }
        proof {
            assert(out_buffer@ =~= old(out_buffer)@ + enc_group(inputs@));
        }
    } else {
        proof {
            assert(enc_group(inputs@) =~= seq![0u8]);
            assert(out_buffer@ =~= old(out_buffer)@ + enc_group(inputs@));
        }
    }
}

/// The even-width path: each packed field is a whole number of bytes, so
/// every nonzero input is written on its own, little-endian.
fn pack_to_even_nibbles(
    inputs: &[u64],
    out_buffer: &mut Vec<u8>,
    num_nibbles: u32,
    trailing_zero_nibbles: u32,
)
    requires
        inputs@.len() == 8,
        mask_of(inputs@) != 0,
        num_nibbles as int == nnib(inputs@),
        trailing_zero_nibbles as int == tz_nib(inputs@),
        num_nibbles % 2 == 0,
    ensures
        final(out_buffer)@ == old(out_buffer)@ + le_bytes(
            fields_nat(nz_fields(inputs@, sh_of(inputs@)), nb_of(inputs@)),
            body_len(inputs@),
        ),
{
    proof {
        lemma_header_bounds(inputs@);
    }
    let shift: u64 = (trailing_zero_nibbles as u64) * 4;
    let num_bytes_each: usize = (num_nibbles / 2) as usize;
    let ghost sh = sh_of(inputs@);
    let ghost nb = nb_of(inputs@);
    let ghost ne = num_bytes_each as int;
    proof {
        assert(shift as nat == sh);
        // nb == 8 * ne, using evenness
        lemma_fundamental_div_mod(num_nibbles as int, 2);
        assert(nb == 8 * ne);
    }
    let mut i: usize = 0;
    while i < 8
        invariant
            i <= 8,
            inputs@.len() == 8,
            mask_of(inputs@) != 0,
            num_nibbles as int == nnib(inputs@),
            trailing_zero_nibbles as int == tz_nib(inputs@),
            sh == sh_of(inputs@),
            nb == nb_of(inputs@),
            shift as nat == sh,
            shift <= 60,
            ne == num_bytes_each as int,
            1 <= ne <= 8,
            nb == 8 * ne,
            out_buffer@ == old(out_buffer)@ + le_bytes(
                fields_nat(nz_fields(inputs@.take(i as int), sh), nb),
                (nz_count(inputs@, i as int) * ne) as nat,
            ),
        decreases 8 - i,
    {
        let ghost prefix = inputs@.take(i as int);
        let ghost fi = fields_nat(nz_fields(prefix, sh), nb);
        let ghost ci = nz_count(inputs@, i as int);
        let x = inputs[i];
        proof {
            lemma_nz_fields_take_step(inputs@, sh, i as int);
            crate::wire::lemma_nz_count_bounds(inputs@, i as int);
            crate::wire::lemma_nz_count_bounds(inputs@, i + 1);
            vstd::arithmetic::mul::lemma_mul_nonnegative(ci, ne);
        }
        if x != 0 {
            let s: u64 = x >> shift;
            proof {
                lemma_field_facts(inputs@, i as int);
                lemma_nz_fields_all_bound(prefix, sh, nb, inputs@);
                lemma_fields_nat_bound(nz_fields(prefix, sh), nb);
                lemma_nz_fields_len(prefix, sh);
                lemma_nz_count_same_on_prefix(prefix, inputs@, i as int);
                assert(nz_fields(prefix, sh).len() == ci);
                // the field lands on top of the packed prefix
                let fs2 = nz_fields(inputs@.take(i + 1), sh);
                assert(fs2 =~= nz_fields(prefix, sh).push(s));
                assert(fs2.drop_last() =~= nz_fields(prefix, sh));
                assert(fields_nat(fs2, nb) == fi + (s as nat) * pow2((nb * ci) as nat));
                assert(nb * ci == nb * nz_fields(prefix, sh).len());
            }
            write_le(out_buffer, s, num_bytes_each);
            proof {
                let f2 = fields_nat(nz_fields(inputs@.take(i + 1), sh), nb);
                let e = (nb * ci) as nat;
                let li = (ci * ne) as nat;
                assert(8 * li == e) by {
                    lemma_mul_is_associative(8, ci, ne);
                    lemma_mul_is_commutative(8, ci);
                    lemma_mul_is_associative(ci, 8, ne);
                }
                lemma_pow2_pos(e);
                // split the grown body at the old boundary
                lemma_le_bytes_split(f2, li, ne as nat);
                assert(f2 % pow2(8 * li) == fi) by {
                    lemma_add_mul_mod_vanish(fi, s as nat, pow2(e));
                    assert((s as nat) * pow2(e) == (s as nat) * pow2(e));
                    lemma_small_mod(fi, pow2(e));
                }
                assert(f2 / pow2(8 * li) == s as nat) by {
                    lemma_add_mul_pow2_div(fi, s as nat, e, e);
                    assert(pow2(0) == 1) by {
                        lemma2_to64();
                    }
                    lemma_mul_basics(s as int);
                    assert(fi / pow2(e) == 0) by {
                        lemma_basic_div_local(fi as int, pow2(e) as int);
                    }
                }
                assert(le_bytes(f2, (li + ne as nat) as nat) =~= le_bytes(fi, li) + le_bytes(
                    s as nat,
                    ne as nat,
                ));
                assert(nz_count(inputs@, i + 1) * ne == ci * ne + ne) by {
                    lemma_mul_is_distributive_add_other_way(ne, ci, 1);
                    lemma_mul_basics(ne);
                }
                assert(out_buffer@ =~= old(out_buffer)@ + le_bytes(
                    fields_nat(nz_fields(inputs@.take(i + 1), sh), nb),
                    (nz_count(inputs@, i + 1) * ne) as nat,
                ));
            }
        } else {
            proof {
                assert(nz_fields(inputs@.take(i + 1), sh) =~= nz_fields(prefix, sh));
                assert(nz_count(inputs@, i + 1) == ci);
            }
        }
        i += 1;
    }
    proof {
        assert(inputs@.take(8) =~= inputs@);
        // the byte count matches the rounded-up body length
        let cnt = nz_count(inputs@, 8);
        assert(cnt * nb == 8 * (cnt * ne)) by {
            lemma_mul_is_associative(cnt, 8, ne);
            lemma_mul_is_associative(8, cnt, ne);
            lemma_mul_is_commutative(cnt, 8);
        }
        assert((cnt * nb + 7) / 8 == cnt * ne) by {
            lemma_div_multiples_vanish_fancy(cnt * ne, 7, 8);
        }
    }
}

proof fn lemma_basic_div_local(x: int, d: int)
    requires
        0 <= x < d,
    ensures
        x / d == 0,
{
    lemma_fundamental_div_mod_converse(x, d, 0, x);
}

/// The universal path: fields are packed bit-adjacent through a rolling
/// 64-bit word, spilling full words as they fill.
fn pack_universal(
    inputs: &[u64],
    out_buffer: &mut Vec<u8>,
    num_nibbles: u32,
    trailing_zero_nibbles: u32,
)
    requires
        inputs@.len() == 8,
        mask_of(inputs@) != 0,
        num_nibbles as int == nnib(inputs@),
        trailing_zero_nibbles as int == tz_nib(inputs@),
    ensures
        final(out_buffer)@ == old(out_buffer)@ + le_bytes(
            fields_nat(nz_fields(inputs@, sh_of(inputs@)), nb_of(inputs@)),
            body_len(inputs@),
        ),
{
    proof {
        lemma_header_bounds(inputs@);
    }
    let trailing_shift: u64 = (trailing_zero_nibbles as u64) * 4;
    let num_bits: u32 = num_nibbles * 4;
    let mut out_word: u64 = 0;
    let mut bit_cursor: u32 = 0;
    let ghost sh = sh_of(inputs@);
    let ghost nb = nb_of(inputs@);
    proof {
        assert(trailing_shift as nat == sh);
        assert(num_bits as nat == nb);
        assert(pow2(0) == 1) by {
            lemma2_to64();
        }
        assert(le_bytes(0nat, 0nat) =~= Seq::<u8>::empty());
        assert(out_buffer@ =~= old(out_buffer)@ + le_bytes(0nat, 0nat));
    }
    let mut i: usize = 0;
    while i < 8
        invariant
            i <= 8,
            inputs@.len() == 8,
            mask_of(inputs@) != 0,
            num_nibbles as int == nnib(inputs@),
            trailing_zero_nibbles as int == tz_nib(inputs@),
            sh == sh_of(inputs@),
            nb == nb_of(inputs@),
            trailing_shift as nat == sh,
            trailing_shift <= 60,
            num_bits as nat == nb,
            4 <= num_bits <= 64,
            bit_cursor < 64,
            bit_cursor as int == (nz_count(inputs@, i as int) * nb) % 64,
            out_buffer@ == old(out_buffer)@ + le_bytes(
                fields_nat(nz_fields(inputs@.take(i as int), sh), nb) % pow2(
                    (64 * ((nz_count(inputs@, i as int) * nb) / 64)) as nat,
                ),
                (8 * ((nz_count(inputs@, i as int) * nb) / 64)) as nat,
            ),
            out_word as nat == fields_nat(nz_fields(inputs@.take(i as int), sh), nb) / pow2(
                (64 * ((nz_count(inputs@, i as int) * nb) / 64)) as nat,
            ),
            fields_nat(nz_fields(inputs@.take(i as int), sh), nb) < pow2(
                (nz_count(inputs@, i as int) * nb) as nat,
            ),
        decreases 8 - i,
    {
        let ghost prefix = inputs@.take(i as int);
        let ghost fi = fields_nat(nz_fields(prefix, sh), nb);
        let ghost ci = nz_count(inputs@, i as int);
        let ghost bi = ci * nb;
        let ghost wi = bi / 64;
        let ghost bc = bi % 64;
        proof {
            lemma_nz_fields_take_step(inputs@, sh, i as int);
            crate::wire::lemma_nz_count_bounds(inputs@, i as int);
            crate::wire::lemma_nz_count_bounds(inputs@, i + 1);
            vstd::arithmetic::mul::lemma_mul_nonnegative(ci, nb as int);
            lemma_div_pos_is_pos(bi, 64);
        }
        let x = inputs[i];
        if x != 0 {
            let remaining: u32 = 64 - bit_cursor;
            let shifted_input: u64 = x >> trailing_shift;
            let ghost s = shifted_input as nat;
            let ghost f2 = fields_nat(nz_fields(inputs@.take(i + 1), sh), nb);
            let ghost b2 = nz_count(inputs@, i + 1) * nb;
            proof {
                lemma_field_facts(inputs@, i as int);
                lemma_nz_fields_all_bound(prefix, sh, nb, inputs@);
                lemma_nz_fields_all_bound(inputs@.take(i + 1), sh, nb, inputs@);
                lemma_fields_nat_bound(nz_fields(inputs@.take(i + 1), sh), nb);
                lemma_nz_fields_len(prefix, sh);
                lemma_nz_count_same_on_prefix(prefix, inputs@, i as int);
                let fs2 = nz_fields(inputs@.take(i + 1), sh);
                assert(fs2 =~= nz_fields(prefix, sh).push(shifted_input));
                assert(fs2.drop_last() =~= nz_fields(prefix, sh));
                assert(nb * ci == bi) by {
                    lemma_mul_is_commutative(nb as int, ci);
                }
                assert(f2 == fi + s * pow2(bi as nat));
                assert(b2 == bi + nb) by {
                    lemma_mul_is_distributive_add_other_way(nb as int, ci, 1);
                    lemma_mul_basics(nb as int);
                }
                assert(f2 < pow2(b2 as nat)) by {
                    lemma_nz_fields_len(inputs@.take(i + 1), sh);
                    lemma_nz_count_same_on_prefix(inputs@.take(i + 1), inputs@, i + 1);
                    lemma_mul_is_commutative(nb as int, nz_count(inputs@, i + 1));
                }
                // out_word sits below the cursor
                assert(bi == 64 * wi + bc) by {
                    lemma_fundamental_div_mod(bi, 64);
                }
                assert((out_word as nat) < pow2(bc as nat)) by {
                    lemma_pow2_adds((64 * wi) as nat, bc as nat);
                    lemma_pow2_pos((64 * wi) as nat);
                    lemma_pow2_pos(bc as nat);
                    lemma_multiply_divide_lt(fi as int, pow2((64 * wi) as nat) as int, pow2(
                        bc as nat,
                    ) as int);
                }
                // the whole word after the OR is (f2 / 2^(64 wi)) mod 2^64
                lemma_add_mul_pow2_div(fi, s, (64 * wi) as nat, bi as nat);
                assert(fi / pow2((64 * wi) as nat) + s * pow2((bi - 64 * wi) as nat) == out_word
                    + s * pow2(bc as nat));
                lemma_u64_one_shl(bit_cursor as u64);
                lemma_u64_or_is_add(out_word, shifted_input, bit_cursor as u64);
                if bc + nb <= 64 {
                    // no truncation
                    assert(s * pow2(bc as nat) < pow2(64)) by {
                        lemma_pow2_adds(nb, bc as nat);
                        lemma_mul_strict_inequality(s as int, pow2(nb) as int, pow2(
                            bc as nat,
                        ) as int);
                        lemma_pow2_le((nb + bc) as nat, 64);
                        lemma_mul_is_commutative(pow2(nb) as int, pow2(bc as nat) as int);
                    }
                    assert(pow2(64) == 0x1_0000_0000_0000_0000) by {
                        lemma2_to64_rest();
                    }
                    lemma_u64_shl_is_mul(shifted_input, bit_cursor as u64);
                    assert((shifted_input << (bit_cursor as u64)) as nat == s * pow2(bc as nat));
                } else {
                    // the shift truncates; split s at the word boundary
                    lemma_u64_shl_lo(shifted_input, bit_cursor as u64);
                    lemma_u64_one_shl(remaining as u64);
                    let slo: u64 = shifted_input & (((1u64 << (remaining as u64)) - 1) as u64);
                    assert(slo as nat == s % pow2((64 - bc) as nat)) by {
                        lemma_u64_low_bits_mask_is_mod(shifted_input, remaining as nat);
                        lemma_u64_pow2_no_overflow(remaining as nat);
                    }
                    assert((slo as nat) * pow2(bc as nat) < pow2(64)) by {
                        lemma_pow2_adds((64 - bc) as nat, bc as nat);
                        lemma_pow2_pos((64 - bc) as nat);
                        lemma_mod_bound(s as int, pow2((64 - bc) as nat) as int);
                        lemma_mul_strict_inequality(
                            slo as int,
                            pow2((64 - bc) as nat) as int,
                            pow2(bc as nat) as int,
                        );
                        lemma_mul_is_commutative(
                            pow2((64 - bc) as nat) as int,
                            pow2(bc as nat) as int,
                        );
                    }
                    assert(pow2(64) == 0x1_0000_0000_0000_0000) by {
                        lemma2_to64_rest();
                    }
                    lemma_u64_shl_is_mul(slo, bit_cursor as u64);
                    assert((shifted_input << (bit_cursor as u64)) as nat == (s % pow2(
                        (64 - bc) as nat,
                    )) * pow2(bc as nat));
                }
            }
            let ghost owo = out_word as nat;
            out_word = out_word | (shifted_input << (bit_cursor as u64));
            proof {
                lemma_or_word_mod(owo, s, bc, nb, out_word as nat);
                assert(out_word as nat == (f2 / pow2((64 * wi) as nat)) % pow2(64));
            }
            if remaining <= num_bits {
                proof {
                    lemma_universal_spill(
                        fi,
                        s,
                        out_word as nat,
                        wi,
                        bc,
                        nb,
                        bi,
                        f2,
                        b2,
                    );
                }
                write_le(out_buffer, out_word, 8);
                if remaining < num_bits {
                    out_word = shifted_input >> (remaining as u64);
                    proof {
                        lemma_u64_shr_is_div(shifted_input, remaining as u64);
                        lemma_universal_carry(fi, s, wi, bc, nb, bi, f2);
                    }
                } else {
                    out_word = 0;
                    proof {
                        lemma_pow2_pos((64 * (wi + 1)) as nat);
                        assert(f2 < pow2((64 * (wi + 1)) as nat)) by {
                            lemma_pow2_le(b2 as nat, (64 * (wi + 1)) as nat);
                        }
                        lemma_basic_div_local(f2 as int, pow2((64 * (wi + 1)) as nat) as int);
                    }
                }
                proof {
                    lemma_word_split(b2, wi + 1, bc + nb - 64);
                    lemma_le_bytes_split(
                        f2 % pow2((64 * (wi + 1)) as nat),
                        (8 * wi) as nat,
                        8,
                    );
                    assert(8 * (8 * wi) == 64 * wi) by {
                        lemma_mul_is_associative(8, 8, wi);
                    }
                    assert(8 * (wi + 1) == 8 * wi + 8) by {
                        lemma_mul_is_distributive_add(8, wi, 1);
                        lemma_mul_basics(8);
                    }
                    assert(64 * (wi + 1) == 64 * wi + 64) by {
                        lemma_mul_is_distributive_add(64, wi, 1);
                        lemma_mul_basics(64);
                    }
                    assert(f2 % pow2((64 * (wi + 1)) as nat) < pow2((64 * (wi + 1)) as nat)) by {
                        lemma_pow2_pos((64 * (wi + 1)) as nat);
                        lemma_mod_bound(f2 as int, pow2((64 * (wi + 1)) as nat) as int);
                    }
                    assert(out_buffer@ =~= old(out_buffer)@ + le_bytes(
                        f2 % pow2((64 * (b2 / 64)) as nat),
                        (8 * (b2 / 64)) as nat,
                    ));
                }
            } else {
                proof {
                    // no spill: the cursor stays inside the current word
                    lemma_word_split(b2, wi, bc + nb);
                    assert(f2 / pow2((64 * wi) as nat) == out_word as nat) by {
                        lemma_no_spill_word(fi, s, out_word as nat, wi, bc, nb, bi, f2);
                    }
                    assert(f2 % pow2((64 * wi) as nat) == fi % pow2((64 * wi) as nat)) by {
                        lemma_body_low_stable(fi, s, wi, bi);
                    }
                }
            }
            bit_cursor = (bit_cursor + num_bits) % 64;
        } else {
            proof {
                assert(nz_fields(inputs@.take(i + 1), sh) =~= nz_fields(prefix, sh));
                assert(nz_count(inputs@, i + 1) == ci);
            }
        }
        i += 1;
    }
    proof {
        assert(inputs@.take(8) =~= inputs@);
    }
    let ghost ff = fields_nat(nz_fields(inputs@, sh), nb);
    let ghost bt = nz_count(inputs@, 8) * nb;
    let ghost wt = bt / 64;
    proof {
        lemma_fundamental_div_mod(bt, 64);
        lemma_mod_bound(bt, 64);
        lemma_div_pos_is_pos(bt, 64);
        vstd::arithmetic::mul::lemma_mul_nonnegative(nz_count(inputs@, 8), nb as int);
        lemma_byte_split(bt, wt, bt % 64);
    }
    if bit_cursor > 0 {
        let num_final_bytes: usize = ((bit_cursor + 7) / 8) as usize;
        write_le(out_buffer, out_word, num_final_bytes);
        proof {
            lemma_le_bytes_split(ff, (8 * wt) as nat, num_final_bytes as nat);
            assert(8 * (8 * wt) == 64 * wt) by {
                lemma_mul_is_associative(8, 8, wt);
            }
            assert(out_buffer@ =~= old(out_buffer)@ + le_bytes(ff, body_len(inputs@)));
        }
    } else {
        proof {
            lemma_pow2_pos((64 * wt) as nat);
            assert(ff % pow2((64 * wt) as nat) == ff) by {
                lemma_small_mod(ff, pow2((64 * wt) as nat));
            }
            assert(out_buffer@ =~= old(out_buffer)@ + le_bytes(ff, body_len(inputs@)));
        }
    }
}

/// Packs a stream of plain `u64` values: eight at a time through the group
/// encoder, the final partial group zero-padded.
pub fn pack_u64(inputs: &[u64], out_buffer: &mut Vec<u8>)
    ensures
        final(out_buffer)@ == old(out_buffer)@ + crate::wire::enc_stream(inputs@),
{
    let n = inputs.len();
    let mut i: usize = 0;
    while n - i >= 8
        invariant
            inputs@.len() == n,
            i <= n,
            i % 8 == 0,
            out_buffer@ == old(out_buffer)@ + crate::wire::enc_stream(inputs@.take(i as int)),
        decreases n - i,
    {
        let chunk = vstd::slice::slice_subrange(inputs, i, i + 8);
        nibble_pack8(chunk, out_buffer);
        proof {
            lemma_enc_stream_take_step(inputs@, i as int);
            assert(chunk@ =~= inputs@.subrange(i as int, i + 8));
        }
        i += 8;
    }
    if i < n {
        let mut tail: Vec<u64> = Vec::new();
        let mut j: usize = 0;
        while j < 8
            invariant
                inputs@.len() == n,
                i < n,
                i + 8 > n,
                j <= 8,
                tail@.len() == j,
                forall|k: int|
                    0 <= k < j ==> tail@[k] == (if i + k < n {
                        inputs@[i + k]
                    } else {
                        0u64
                    }),
            decreases 8 - j,
        {
            if j < n - i {
                tail.push(inputs[i + j]);
            } else {
                tail.push(0u64);
            }
            j += 1;
        }
        nibble_pack8(tail.as_slice(), out_buffer);
        proof {
            let rest = inputs@.subrange(i as int, n as int);
            assert(tail@ =~= crate::wire::group8(rest));
            lemma_enc_stream_tail(inputs@, i as int);
            assert(out_buffer@ =~= old(out_buffer)@ + crate::wire::enc_stream(inputs@));
        }
    } else {
        proof {
            assert(inputs@.take(i as int) =~= inputs@);
        }
    }
}

/// Splitting one whole group off the front of the remaining stream.
pub proof fn lemma_enc_stream_take_step(vals: Seq<u64>, i: int)
    requires
        0 <= i,
        i % 8 == 0,
        i + 8 <= vals.len(),
    ensures
        crate::wire::enc_stream(vals.take(i + 8)) =~= crate::wire::enc_stream(vals.take(i))
            + enc_group(vals.subrange(i, i + 8)),
{
    let a = vals.take(i);
    let b = vals.subrange(i, i + 8);
    assert(vals.take(i + 8) =~= a + b);
    crate::wire::lemma_enc_stream_concat(a, b);
    assert(crate::wire::group8(b) =~= b);
    assert(crate::wire::rest8(b) =~= Seq::<u64>::empty());
    assert(crate::wire::enc_stream(Seq::<u64>::empty()) =~= Seq::<u8>::empty());
    assert(crate::wire::enc_stream(b) =~= enc_group(b));
}

/// The final partial group: the whole stream is the processed prefix plus
/// one zero-padded group.
pub proof fn lemma_enc_stream_tail(vals: Seq<u64>, i: int)
    requires
        0 <= i < vals.len(),
        i % 8 == 0,
        i + 8 > vals.len(),
    ensures
        crate::wire::enc_stream(vals) =~= crate::wire::enc_stream(vals.take(i)) + enc_group(
            crate::wire::group8(vals.subrange(i, vals.len() as int)),
        ),
{
    let a = vals.take(i);
    let b = vals.subrange(i, vals.len() as int);
    assert(vals =~= a + b);
    crate::wire::lemma_enc_stream_concat(a, b);
    assert(crate::wire::rest8(b) =~= Seq::<u64>::empty());
    assert(crate::wire::enc_stream(Seq::<u64>::empty()) =~= Seq::<u8>::empty());
    assert(crate::wire::enc_stream(b) =~= enc_group(crate::wire::group8(b)));
}

/// Packs a non-decreasing stream by delta encoding: each value minus the one
/// before it goes through the plain path. A decreasing step is clamped to a
/// zero delta and is lost.
pub fn pack_u64_delta(inputs: &[u64], out_buffer: &mut Vec<u8>)
    ensures
        final(out_buffer)@ == old(out_buffer)@ + crate::wire::enc_stream(
            crate::wire::delta_seq(inputs@),
        ),
{
    let n = inputs.len();
    let mut deltas: Vec<u64> = Vec::new();
    let mut last: u64 = 0;
    let mut i: usize = 0;
    while i < n
        invariant
            inputs@.len() == n,
            i <= n,
            deltas@ =~= crate::wire::delta_seq(inputs@).take(i as int),
            last == (if i == 0 {
                0u64
            } else {
                inputs@[i - 1]
            }),
        decreases n - i,
    {
        let v = inputs[i];
        let delta = v.saturating_sub(last);
        deltas.push(delta);
        proof {
            assert(delta == crate::wire::sat_sub64(v, last));
            assert(crate::wire::delta_seq(inputs@).take(i + 1) =~= crate::wire::delta_seq(
                inputs@,
            ).take(i as int).push(crate::wire::delta_seq(inputs@)[i as int]));
        }
        last = v;
        i += 1;
    }
    proof {
        assert(deltas@ =~= crate::wire::delta_seq(inputs@));
    }
    pack_u64(deltas.as_slice(), out_buffer);
}

/// Packs a stream of IEEE-754 double bit patterns by XOR encoding: the first
/// pattern is written raw, little-endian; each later pattern is XORed with
/// its predecessor and the deltas go through the plain path.
///
/// The bit patterns are those of `f64::to_bits`; the caller converts at the
/// boundary. Fails with `InputTooShort` exactly when the stream is empty.
pub fn pack_f64_xor(bits: &[u64], out_buffer: &mut Vec<u8>) -> (res: Result<
    (),
    crate::NibblePackError,
>)
    ensures
        bits@.len() == 0 <==> res is Err,
        res is Err ==> res == Result::<(), crate::NibblePackError>::Err(
            crate::NibblePackError::InputTooShort,
        ) && final(out_buffer)@ == old(out_buffer)@,
        res is Ok ==> final(out_buffer)@ == old(out_buffer)@ + le_bytes(bits@[0] as nat, 8)
            + crate::wire::enc_stream(crate::wire::xor_seq(bits@)),
{
    let n = bits.len();
    if n == 0 {
        return Result::Err(crate::NibblePackError::InputTooShort);
    }
    write_le(out_buffer, bits[0], 8);
    let mut xs: Vec<u64> = Vec::new();
    let mut last: u64 = bits[0];
    let mut i: usize = 1;
    while i < n
        invariant
            bits@.len() == n,
            n >= 1,
            1 <= i <= n,
            xs@ =~= crate::wire::xor_seq(bits@).take(i - 1),
            last == bits@[i - 1],
        decreases n - i,
    {
        let b = bits[i];
        xs.push(last ^ b);
        proof {
            assert(crate::wire::xor_seq(bits@).take(i as int) =~= crate::wire::xor_seq(
                bits@,
            ).take(i - 1).push(crate::wire::xor_seq(bits@)[i - 1]));
        }
        last = b;
        i += 1;
    }
    proof {
        assert(xs@ =~= crate::wire::xor_seq(bits@));
    }
    pack_u64(xs.as_slice(), out_buffer);
    Result::Ok(())
}

/// After a spill, the written word is the middle 64 bits of the body.
proof fn lemma_universal_spill(
    fi: nat,
    s: nat,
    ow: nat,
    wi: int,
    bc: int,
    nb: nat,
    bi: int,
    f2: nat,
    b2: int,
)
    requires
        wi >= 0,
        0 <= bc < 64,
        bi == 64 * wi + bc,
        b2 == bi + nb,
        64 <= bc + nb,
        nb <= 64,
        f2 == fi + s * pow2(bi as nat),
        fi < pow2(bi as nat),
        s < pow2(nb),
        ow == (fi / pow2((64 * wi) as nat) + s * pow2(bc as nat)) % pow2(64),
    ensures
        ow == (f2 / pow2((64 * wi) as nat)) % pow2(64),
        f2 % pow2((64 * (wi + 1)) as nat) % pow2((64 * wi) as nat) == fi % pow2(
            (64 * wi) as nat,
        ),
        f2 % pow2((64 * (wi + 1)) as nat) / pow2((64 * wi) as nat) == ow,
        f2 % pow2((64 * wi) as nat) == fi % pow2((64 * wi) as nat),
{
    lemma_pow2_pos((64 * wi) as nat);
    lemma_pow2_pos(64);
    lemma_pow2_pos(bi as nat);
    // f2 / 2^(64 wi) == fi / 2^(64 wi) + s * 2^bc
    lemma_add_mul_pow2_div(fi, s, (64 * wi) as nat, bi as nat);
    // low bytes unchanged
    lemma_body_low_stable(fi, s, wi, bi);
    // the middle word
    assert(64 * (wi + 1) == 64 * wi + 64) by {
        lemma_mul_is_distributive_add(64, wi, 1);
        lemma_mul_basics(64);
    }
    lemma_pow2_adds((64 * wi) as nat, 64);
    assert(f2 % pow2((64 * (wi + 1)) as nat) % pow2((64 * wi) as nat) == f2 % pow2(
        (64 * wi) as nat,
    )) by {
        lemma_mod_mod(f2 as int, pow2((64 * wi) as nat) as int, pow2(64) as int);
    }
    assert(f2 % pow2((64 * (wi + 1)) as nat) / pow2((64 * wi) as nat) == (f2 / pow2(
        (64 * wi) as nat,
    )) % pow2(64)) by {
        crate::byteio::lemma_truncate_middle_div(f2, pow2((64 * wi) as nat), pow2(64));
    }
}

/// Adding a field above the written words leaves their bytes unchanged.
proof fn lemma_body_low_stable(fi: nat, s: nat, wi: int, bi: int)
    requires
        wi >= 0,
        64 * wi <= bi,
    ensures
        (fi + s * pow2(bi as nat)) % pow2((64 * wi) as nat) == fi % pow2((64 * wi) as nat),
{
    lemma_pow2_pos((64 * wi) as nat);
    lemma_pow2_adds((64 * wi) as nat, (bi - 64 * wi) as nat);
    assert(s * pow2(bi as nat) == (s * pow2((bi - 64 * wi) as nat)) * pow2((64 * wi) as nat)) by {
        lemma_mul_is_associative(
            s as int,
            pow2((bi - 64 * wi) as nat) as int,
            pow2((64 * wi) as nat) as int,
        );
        lemma_mul_is_commutative(pow2((64 * wi) as nat) as int, pow2((bi - 64 * wi) as nat) as int);
    }
    lemma_add_mul_mod_vanish(fi, s * pow2((bi - 64 * wi) as nat), pow2((64 * wi) as nat));
}

/// The carried-over high part of a spilled field.
proof fn lemma_universal_carry(fi: nat, s: nat, wi: int, bc: int, nb: nat, bi: int, f2: nat)
    requires
        wi >= 0,
        0 <= bc < 64,
        bi == 64 * wi + bc,
        64 < bc + nb,
        nb <= 64,
        f2 == fi + s * pow2(bi as nat),
        fi < pow2(bi as nat),
        s < pow2(nb),
    ensures
        f2 / pow2((64 * (wi + 1)) as nat) == s / pow2((64 - bc) as nat),
{
    lemma_pow2_pos((64 * wi) as nat);
    lemma_pow2_pos(64);
    let r = (64 - bc) as nat;
    let slo = s % pow2(r);
    let shi = s / pow2(r);
    lemma_pow2_pos(r);
    lemma_fundamental_div_mod(s as int, pow2(r) as int);
    // f2 == (fi + slo * 2^bi) + shi * 2^(64 (wi+1))
    assert(64 * (wi + 1) == 64 * wi + 64) by {
        lemma_mul_is_distributive_add(64, wi, 1);
        lemma_mul_basics(64);
    }
    assert(s * pow2(bi as nat) == slo * pow2(bi as nat) + shi * pow2((64 * (wi + 1)) as nat)) by {
        assert(s == pow2(r) * shi + slo);
        lemma_mul_is_distributive_add_other_way(
            pow2(bi as nat) as int,
            (pow2(r) * shi) as int,
            slo as int,
        );
        assert((pow2(r) * shi) * pow2(bi as nat) == shi * (pow2(r) * pow2(bi as nat))) by {
            lemma_mul_is_associative(pow2(r) as int, shi as int, pow2(bi as nat) as int);
            lemma_mul_is_commutative(pow2(r) as int, shi as int);
            lemma_mul_is_associative(shi as int, pow2(r) as int, pow2(bi as nat) as int);
        }
        lemma_pow2_adds(r, bi as nat);
        assert(r + bi == 64 * (wi + 1));
    }
    // the remainder below 2^(64 (wi+1)) is fi + slo * 2^bi
    assert(fi + slo * pow2(bi as nat) < pow2((64 * (wi + 1)) as nat)) by {
        lemma_pow2_adds(bi as nat, r);
        assert(slo * pow2(bi as nat) <= (pow2(r) - 1) * pow2(bi as nat)) by {
            lemma_mod_bound(s as int, pow2(r) as int);
            lemma_mul_inequality(slo as int, pow2(r) as int - 1, pow2(bi as nat) as int);
        }
        assert((pow2(r) - 1) * pow2(bi as nat) == pow2(r) * pow2(bi as nat) - pow2(bi as nat)) by {
            lemma_mul_is_distributive_sub_other_way(pow2(bi as nat) as int, pow2(r) as int, 1);
            lemma_mul_basics(pow2(bi as nat) as int);
        }
        lemma_mul_is_commutative(pow2(r) as int, pow2(bi as nat) as int);
        assert(bi + r == 64 * (wi + 1));
    }
    lemma_pow2_pos((64 * (wi + 1)) as nat);
    lemma_fundamental_div_mod_converse(
        f2 as int,
        pow2((64 * (wi + 1)) as nat) as int,
        shi as int,
        (fi + slo * pow2(bi as nat)) as int,
    );
}

/// Without a spill the rolling word simply grows.
proof fn lemma_no_spill_word(
    fi: nat,
    s: nat,
    ow: nat,
    wi: int,
    bc: int,
    nb: nat,
    bi: int,
    f2: nat,
)
    requires
        wi >= 0,
        0 <= bc < 64,
        bi == 64 * wi + bc,
        bc + nb < 64,
        f2 == fi + s * pow2(bi as nat),
        fi < pow2(bi as nat),
        s < pow2(nb),
        ow == (fi / pow2((64 * wi) as nat) + s * pow2(bc as nat)) % pow2(64),
    ensures
        f2 / pow2((64 * wi) as nat) == ow,
{
    lemma_pow2_pos((64 * wi) as nat);
    lemma_add_mul_pow2_div(fi, s, (64 * wi) as nat, bi as nat);
    let t = fi / pow2((64 * wi) as nat) + s * pow2(bc as nat);
    assert(t < pow2(64)) by {
        assert(fi / pow2((64 * wi) as nat) < pow2(bc as nat)) by {
            lemma_pow2_adds((64 * wi) as nat, bc as nat);
            lemma_pow2_pos(bc as nat);
            lemma_multiply_divide_lt(fi as int, pow2((64 * wi) as nat) as int, pow2(
                bc as nat,
            ) as int);
        }
        assert(s * pow2(bc as nat) <= (pow2(nb) - 1) * pow2(bc as nat)) by {
            lemma_mul_inequality(s as int, pow2(nb) as int - 1, pow2(bc as nat) as int);
        }
        assert((pow2(nb) - 1) * pow2(bc as nat) == pow2(nb) * pow2(bc as nat) - pow2(
            bc as nat,
        )) by {
            lemma_mul_is_distributive_sub_other_way(pow2(bc as nat) as int, pow2(nb) as int, 1);
            lemma_mul_basics(pow2(bc as nat) as int);
        }
        lemma_pow2_adds(nb, bc as nat);
        lemma_pow2_le((nb + bc) as nat, 64);
    }
    lemma_small_mod(t, pow2(64));
}

} // verus!
