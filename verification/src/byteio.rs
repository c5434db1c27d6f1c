//! Little-endian byte I/O: the mathematical meaning of a byte sequence as an
//! unsigned value, and the executable routines that write and read such
//! values at the edge of the encoded stream.

use vstd::prelude::*;

verus! {

use vstd::arithmetic::power2::*;
use vstd::arithmetic::div_mod::*;
use vstd::bits::*;

/// The value of a little-endian byte sequence: byte `i` has weight `256^i`.
pub open spec fn le_val(bs: Seq<u8>) -> nat
    decreases bs.len(),
{
    if bs.len() == 0 {
        0
    } else {
        bs[0] as nat + 256 * le_val(bs.drop_first())
    }
}

/// The `n` low-order bytes of `v`, least significant first.
pub open spec fn le_bytes(v: nat, n: nat) -> Seq<u8> {
    Seq::new(n as nat, |i: int| ((v / pow2((8 * i) as nat)) % 256) as u8)
}

pub proof fn lemma_le_val_bound(bs: Seq<u8>)
    ensures
        le_val(bs) < pow2(8 * bs.len()),
    decreases bs.len(),
{
    if bs.len() == 0 {
        assert(pow2(0) == 1) by {
            lemma2_to64();
        }
    } else {
        lemma_le_val_bound(bs.drop_first());
        assert(pow2(8 * bs.len()) == 256 * pow2((8 * (bs.len() - 1)) as nat)) by {
            lemma_pow2_adds(8, (8 * (bs.len() - 1)) as nat);
            assert(pow2(8) == 256) by {
                lemma2_to64();
            }
        }
    }
}

/// Dropping the first byte divides the represented value by 256.
proof fn lemma_le_bytes_drop_first(v: nat, n: nat)
    requires
        n > 0,
    ensures
        le_bytes(v, n).drop_first() =~= le_bytes(v / 256, (n - 1) as nat),
{
    assert forall|i: int| 0 <= i < n - 1 implies le_bytes(v, n).drop_first()[i] == le_bytes(
        v / 256,
        (n - 1) as nat,
    )[i] by {
        assert(le_bytes(v, n).drop_first()[i] == ((v / pow2((8 * (i + 1)) as nat)) % 256) as u8);
        assert(pow2((8 * (i + 1)) as nat) == 256 * pow2((8 * i) as nat)) by {
            lemma_pow2_adds(8, (8 * i) as nat);
            lemma2_to64();
        }
        assert(v / (256 * pow2((8 * i) as nat)) == (v / 256) / pow2((8 * i) as nat)) by {
            lemma_pow2_pos((8 * i) as nat);
            lemma_div_denominator(v as int, 256, pow2((8 * i) as nat) as int);
        }
    }
}

pub proof fn lemma_le_bytes_val(v: nat, n: nat)
    requires
        v < pow2(8 * n),
    ensures
        le_val(le_bytes(v, n)) == v,
    decreases n,
{
    if n == 0 {
        assert(pow2(0) == 1) by {
            lemma2_to64();
        }
    } else {
        assert(pow2(8 * n) == 256 * pow2((8 * (n - 1)) as nat)) by {
            lemma_pow2_adds(8, (8 * (n - 1)) as nat);
            lemma2_to64();
        }
        assert(v / 256 < pow2((8 * (n - 1)) as nat)) by {
            lemma_div_strict_ordering(256, v as int, pow2((8 * (n - 1)) as nat) as int);
        }
        lemma_le_bytes_drop_first(v, n);
        lemma_le_bytes_val(v / 256, (n - 1) as nat);
        assert(le_bytes(v, n)[0] == ((v / pow2(0)) % 256) as u8);
        assert(pow2(0) == 1) by {
            lemma2_to64();
        }
        lemma_fundamental_div_mod(v as int, 256);
    }
}

/// Helper: strict upper bound survives division.
proof fn lemma_div_strict_ordering(d: int, x: int, b: int)
    requires
        d > 0,
        b >= 0,
        0 <= x < d * b,
    ensures
        x / d < b,
{
    lemma_multiply_divide_lt(x, d, b);
}

/// A byte sequence splits at any position into a low and a high part.
pub proof fn lemma_le_val_split(bs: Seq<u8>, a: int)
    requires
        0 <= a <= bs.len(),
    ensures
        le_val(bs) == le_val(bs.take(a)) + pow2((8 * a) as nat) * le_val(bs.skip(a)),
    decreases a,
{
    if a == 0 {
        assert(bs.take(0) =~= Seq::<u8>::empty());
        assert(bs.skip(0) =~= bs);
        assert(pow2(0) == 1) by {
            lemma2_to64();
        }
        assert(le_val(bs.take(0)) == 0);
        vstd::arithmetic::mul::lemma_mul_basics(le_val(bs.skip(a)) as int);
        assert(le_val(bs) == le_val(bs.take(a)) + pow2((8 * a) as nat) * le_val(bs.skip(a)));
    } else {
        let df = bs.drop_first();
        lemma_le_val_split(df, a - 1);
        assert(bs.take(a).drop_first() =~= df.take(a - 1));
        assert(bs.skip(a) =~= df.skip(a - 1));
        assert(le_val(bs.take(a)) == bs[0] as nat + 256 * le_val(df.take(a - 1)));
        assert(pow2((8 * a) as nat) == 256 * pow2((8 * (a - 1)) as nat)) by {
            lemma_pow2_adds(8, (8 * (a - 1)) as nat);
            lemma2_to64();
        }
        assert(le_val(bs) == bs[0] as nat + 256 * le_val(df));
        assert(256 * (pow2((8 * (a - 1)) as nat) * le_val(df.skip(a - 1))) == (256 * pow2(
            (8 * (a - 1)) as nat,
        )) * le_val(df.skip(a - 1))) by {
            vstd::arithmetic::mul::lemma_mul_is_associative(
                256,
                pow2((8 * (a - 1)) as nat) as int,
                le_val(df.skip(a - 1)) as int,
            );
        }
        assert(le_val(df) == le_val(df.take(a - 1)) + pow2((8 * (a - 1)) as nat) * le_val(
            df.skip(a - 1),
        ));
        assert(le_val(bs) == bs[0] as nat + 256 * le_val(df.take(a - 1)) + 256 * (pow2(
            (8 * (a - 1)) as nat,
        ) * le_val(df.skip(a - 1))));
        assert(pow2((8 * a) as nat) * le_val(bs.skip(a)) == (256 * pow2((8 * (a - 1)) as nat))
            * le_val(df.skip(a - 1)));
        assert(le_val(bs) == le_val(bs.take(a)) + pow2((8 * a) as nat) * le_val(bs.skip(a)));
    }
}

/// The low `a` bytes carry the value modulo `2^(8a)`.
pub proof fn lemma_le_val_take(bs: Seq<u8>, a: int)
    requires
        0 <= a <= bs.len(),
    ensures
        le_val(bs.take(a)) == le_val(bs) % pow2((8 * a) as nat),
{
    lemma_le_val_split(bs, a);
    lemma_le_val_bound(bs.take(a));
    lemma_pow2_pos((8 * a) as nat);
    assert(le_val(bs.take(a)) < pow2((8 * a) as nat));
    vstd::arithmetic::mul::lemma_mul_is_commutative(
        pow2((8 * a) as nat) as int,
        le_val(bs.skip(a)) as int,
    );
    assert(le_val(bs) as int == le_val(bs.skip(a)) as int * pow2((8 * a) as nat) as int + le_val(
        bs.take(a),
    ) as int);
    lemma_fundamental_div_mod_converse(
        le_val(bs) as int,
        pow2((8 * a) as nat) as int,
        le_val(bs.skip(a)) as int,
        le_val(bs.take(a)) as int,
    );
}

/// The bytes from position `a` on carry the value divided by `2^(8a)`.
pub proof fn lemma_le_val_skip(bs: Seq<u8>, a: int)
    requires
        0 <= a <= bs.len(),
    ensures
        le_val(bs.skip(a)) == le_val(bs) / pow2((8 * a) as nat),
{
    lemma_le_val_split(bs, a);
    lemma_le_val_bound(bs.take(a));
    lemma_pow2_pos((8 * a) as nat);
    assert(le_val(bs.take(a)) < pow2((8 * a) as nat));
    vstd::arithmetic::mul::lemma_mul_is_commutative(
        pow2((8 * a) as nat) as int,
        le_val(bs.skip(a)) as int,
    );
    assert(le_val(bs) as int == le_val(bs.skip(a)) as int * pow2((8 * a) as nat) as int + le_val(
        bs.take(a),
    ) as int);
    lemma_fundamental_div_mod_converse(
        le_val(bs) as int,
        pow2((8 * a) as nat) as int,
        le_val(bs.skip(a)) as int,
        le_val(bs.take(a)) as int,
    );
}

/// `le_bytes` splits at any byte position.
pub proof fn lemma_le_bytes_split(v: nat, a: nat, b: nat)
    ensures
        le_bytes(v, a + b) =~= le_bytes(v % pow2(8 * a), a) + le_bytes(v / pow2(8 * a), b),
{
    let lhs = le_bytes(v, a + b);
    let rhs = le_bytes(v % pow2(8 * a), a) + le_bytes(v / pow2(8 * a), b);
    assert forall|i: int| 0 <= i < a + b implies lhs[i] == rhs[i] by {
        if i < a {
            // low part: (v % 2^(8a)) / 2^(8i) % 256 == v / 2^(8i) % 256
            lemma_pow2_pos((8 * i) as nat);
            lemma_pow2_pos((8 * (a - i)) as nat);
            assert(pow2(8 * a) == pow2((8 * i) as nat) * pow2((8 * (a - i)) as nat)) by {
                lemma_pow2_adds((8 * i) as nat, (8 * (a - i)) as nat);
            }
            assert((v % pow2(8 * a)) / pow2((8 * i) as nat) == (v / pow2((8 * i) as nat)) % pow2(
                (8 * (a - i)) as nat,
            )) by {
                lemma_truncate_middle_div(
                    v,
                    pow2((8 * i) as nat),
                    pow2((8 * (a - i)) as nat),
                );
            }
            // and reducing mod 256 is unaffected because 256 divides 2^(8(a-i))
            assert(pow2((8 * (a - i)) as nat) == 256 * pow2((8 * (a - i - 1)) as nat)) by {
                lemma_pow2_adds(8, (8 * (a - i - 1)) as nat);
                lemma2_to64();
            }
            assert(((v / pow2((8 * i) as nat)) % (256 * pow2((8 * (a - i - 1)) as nat))) % 256 == (
            v / pow2((8 * i) as nat)) % 256) by {
                lemma_pow2_pos((8 * (a - i - 1)) as nat);
                lemma_mod_mod(
                    (v / pow2((8 * i) as nat)) as int,
                    256,
                    pow2((8 * (a - i - 1)) as nat) as int,
                );
            }
        } else {
            assert(rhs[i] == (((v / pow2(8 * a)) / pow2((8 * (i - a)) as nat)) % 256) as u8);
            assert((v / pow2(8 * a)) / pow2((8 * (i - a)) as nat) == v / pow2((8 * i) as nat)) by {
                lemma_pow2_pos(8 * a);
                lemma_pow2_pos((8 * (i - a)) as nat);
                lemma_div_denominator(
                    v as int,
                    pow2(8 * a) as int,
                    pow2((8 * (i - a)) as nat) as int,
                );
                lemma_pow2_adds(8 * a, (8 * (i - a)) as nat);
            }
        }
    }
}

/// Helper: `(v % (d*m)) / d == (v / d) % m` for positive `d`, `m`.
pub proof fn lemma_truncate_middle_div(v: nat, d: nat, m: nat)
    requires
        d > 0,
        m > 0,
    ensures
        (v % (d * m)) / d == (v / d) % m,
{
    lemma_mod_breakdown(v as int, d as int, m as int);
    // v % (d*m) == d * ((v/d) % m) + v % d
    lemma_mod_bound(v as int, d as int);
    vstd::arithmetic::mul::lemma_mul_is_commutative(d as int, ((v / d) % m) as int);
    lemma_fundamental_div_mod_converse(
        (v % (d * m)) as int,
        d as int,
        ((v / d) % m) as int,
        (v % d) as int,
    );
}

/// `(1u64 << c)` is `pow2(c)`.
pub proof fn lemma_u64_one_shl(c: u64)
    requires
        c < 64,
    ensures
        (1u64 << c) as nat == pow2(c as nat),
        1u64 << c >= 1,
{
    lemma_u64_pow2_no_overflow(c as nat);
    lemma_u64_shl_is_mul(1u64, c);
}

/// Bitwise OR acts as addition when the low `c` bits of one operand are zero.
pub proof fn lemma_u64_or_is_add(a: u64, b: u64, c: u64)
    by (bit_vector)
    requires
        c < 64,
        a < (1u64 << c),
    ensures
        a | (b << c) == a + (b << c),
{
}

/// Appends the `num_bytes` low-order bytes of `value`, least significant
/// first.
pub fn write_le(out: &mut Vec<u8>, value: u64, num_bytes: usize)
    requires
        num_bytes <= 8,
    ensures
        final(out)@ == old(out)@ + le_bytes(value as nat, num_bytes as nat),
{
    let mut i: usize = 0;
    while i < num_bytes
        invariant
            i <= num_bytes <= 8,
            out@ == old(out)@ + le_bytes(value as nat, i as nat),
        decreases num_bytes - i,
    {
        let sh: u64 = 8 * (i as u64);
        let b: u8 = ((value >> sh) & 0xff) as u8;
        out.push(b);
        proof {
            lemma_u64_shr_is_div(value, sh);
            lemma_u64_low_bits_mask_is_mod(value >> sh, 8);
            lemma_low_bits_mask_values();
            assert(pow2(8) == 256) by {
                lemma2_to64();
            }
            assert(b as nat == (value as nat / pow2((8 * i) as nat)) % 256);
            assert(le_bytes(value as nat, (i + 1) as nat) =~= le_bytes(value as nat, i as nat)
                + seq![b]);
            assert(out@ =~= old(out)@ + le_bytes(value as nat, (i + 1) as nat));
        }
        i += 1;
    }
    assert(out@ =~= old(out)@ + le_bytes(value as nat, num_bytes as nat));
}

/// Reads up to eight bytes at `offset`, stopping at `end`; bytes past `end`
/// are taken as zero. The result is the little-endian value of the window.
pub fn read_le_clipped(buf: &[u8], offset: usize, end: usize) -> (r: u64)
    requires
        offset <= end,
        end <= buf@.len(),
    ensures
        r as nat == le_val(
            buf@.subrange(offset as int, if offset + 8 <= end { offset + 8 } else { end as int }),
        ),
{
    let avail: usize = end - offset;
    let n: usize = if avail >= 8 {
        8
    } else {
        avail
    };
    let ghost window = buf@.subrange(offset as int, offset + n);
    let mut r: u64 = 0;
    let mut j: usize = 0;
    while j < n
        invariant
            j <= n <= 8,
            offset + n <= end <= buf@.len(),
            window == buf@.subrange(offset as int, offset + n),
            r as nat == le_val(window.take(j as int)),
        decreases n - j,
    {
        let b: u8 = buf[offset + j];
        let sh: u64 = 8 * (j as u64);
        proof {
            lemma_le_val_bound(window.take(j as int));
            lemma_u64_one_shl(sh);
            assert((b as u64) * pow2(sh as nat) < pow2(64)) by {
                lemma_pow2_adds(8, sh as nat);
                assert(pow2(8) == 256) by {
                    lemma2_to64();
                }
                vstd::arithmetic::mul::lemma_mul_inequality(
                    b as int,
                    255,
                    pow2(sh as nat) as int,
                );
                lemma_pow2_pos(sh as nat);
                if sh as nat + 8 < 64 {
                    lemma_pow2_strictly_increases(sh as nat + 8, 64);
                }
            }
            assert(pow2(64) == 0x1_0000_0000_0000_0000) by {
                lemma2_to64_rest();
            }
            lemma_u64_shl_is_mul(b as u64, sh);
            lemma_u64_or_is_add(r, b as u64, sh);
            assert(window.take(j + 1) =~= window.take(j as int) + seq![window[j as int]]);
            lemma_le_val_split(window.take(j + 1), j as int);
            assert(window.take(j + 1).take(j as int) =~= window.take(j as int));
            assert(window.take(j + 1).skip(j as int) =~= seq![window[j as int]]);
            vstd::arithmetic::mul::lemma_mul_is_commutative(
                pow2(sh as nat) as int,
                b as int,
            );
            assert(le_val(seq![window[j as int]]) == b as nat) by {
                let single = seq![window[j as int]];
                assert(single.drop_first() =~= Seq::<u8>::empty());
                assert(le_val(single.drop_first()) == 0);
                assert(window[j as int] == b);
            }
        }
        r = r | ((b as u64) << sh);
        j += 1;
    }
    proof {
        assert(window.take(n as int) =~= window);
    }
    r
}

/// A truncating left shift keeps only the low part of its operand.
#[verifier::rlimit(100)]
proof fn lemma_u64_shl_keeps_low(s: u64, c: u64)
    by (bit_vector)
    requires
        0 < c < 64,
    ensures
        (s << c) == (s & (((1u64 << ((64 - c) as u64)) - 1) as u64)) << c,
{
}

/// The value of a truncating left shift: multiplication modulo `2^64`.
pub proof fn lemma_u64_shl_is_mul_mod(x: u64, c: u64)
    requires
        c < 64,
    ensures
        (x << c) as nat == ((x as nat) * pow2(c as nat)) % pow2(64),
{
    assert(pow2(64) == 0x1_0000_0000_0000_0000) by {
        lemma2_to64_rest();
    }
    if c == 0 {
        assert(x << 0u64 == x) by (bit_vector);
        assert(pow2(0) == 1) by {
            lemma2_to64();
        }
        vstd::arithmetic::mul::lemma_mul_basics(x as int);
        lemma_small_mod(x as nat, pow2(64));
    } else {
        lemma_u64_shl_keeps_low(x, c);
        lemma_u64_one_shl((64 - c) as u64);
        lemma_u64_pow2_no_overflow((64 - c) as nat);
        lemma_u64_low_bits_mask_is_mod(x, (64 - c) as nat);
        let xlo = x & ((((1u64 << ((64 - c) as u64)) - 1)) as u64);
        assert(xlo as nat == (x as nat) % pow2((64 - c) as nat));
        crate::wire::lemma_mod_mul_pow2(x as nat, (64 - c) as nat, c as nat);
        assert((64 - c) as nat + c as nat == 64);
        assert((xlo as nat) * pow2(c as nat) < pow2(64)) by {
            lemma_pow2_pos(64);
            lemma_mod_bound(((x as nat) * pow2(c as nat)) as int, pow2(64) as int);
        }
        lemma_u64_shl_is_mul(xlo, c);
    }
}

} // verus!
