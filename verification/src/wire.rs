//! The NibblePack wire format, stated mathematically.
//!
//! A group frame holds a nonzero-bitmask byte; when the mask is nonzero, a
//! width byte and a body follow. The body is the bit-adjacent little-endian
//! concatenation of the nonzero inputs, each stripped of the trailing zero
//! nibbles common to the group and stored in the group's nibble width.
//! `enc_group` gives the exact bytes emitted for a group of eight values;
//! `group_ok`, `g_len` and `group_words` give the exact parse of arbitrary
//! bytes. The lemmas relate the two: parsing an encoded group returns the
//! original values.

use vstd::prelude::*;

verus! {

use vstd::arithmetic::power2::*;
use vstd::arithmetic::div_mod::*;
use vstd::arithmetic::mul::*;
use vstd::bits::*;
use vstd::std_specs::bits::{u64_leading_zeros, u64_trailing_zeros};
use vstd::std_specs::bits::{axiom_u64_leading_zeros, axiom_u64_trailing_zeros};
use crate::byteio::{le_val, le_bytes, lemma_u64_one_shl};

// ---------------------------------------------------------------------------
// small arithmetic helpers
// ---------------------------------------------------------------------------
/// `(x + c * 2^e2) / 2^e1 == x / 2^e1 + c * 2^(e2-e1)` when `e1 <= e2`.
pub proof fn lemma_add_mul_pow2_div(x: nat, c: nat, e1: nat, e2: nat)
    requires
        e1 <= e2,
    ensures
        (x + c * pow2(e2)) / pow2(e1) == x / pow2(e1) + c * pow2((e2 - e1) as nat),
{
    lemma_pow2_pos(e1);
    lemma_pow2_pos(e2);
    lemma_pow2_pos((e2 - e1) as nat);
    lemma_pow2_adds(e1, (e2 - e1) as nat);
    // x + c*2^e2 == (x/2^e1 + c*2^(e2-e1)) * 2^e1 + x % 2^e1
    lemma_fundamental_div_mod(x as int, pow2(e1) as int);
    assert(c * pow2(e2) == (c * pow2((e2 - e1) as nat)) * pow2(e1)) by {
        lemma_mul_is_associative(c as int, pow2((e2 - e1) as nat) as int, pow2(e1) as int);
    }
    lemma_mod_bound(x as int, pow2(e1) as int);
    assert((x / pow2(e1) + c * pow2((e2 - e1) as nat)) * pow2(e1) == (x / pow2(e1)) * pow2(e1) + (c
        * pow2((e2 - e1) as nat)) * pow2(e1)) by {
        lemma_mul_is_distributive_add_other_way(
            pow2(e1) as int,
            (x / pow2(e1)) as int,
            (c * pow2((e2 - e1) as nat)) as int,
        );
    }
    assert((x / pow2(e1)) * pow2(e1) == pow2(e1) * (x / pow2(e1)));
    lemma_fundamental_div_mod_converse(
        (x + c * pow2(e2)) as int,
        pow2(e1) as int,
        (x / pow2(e1) + c * pow2((e2 - e1) as nat)) as int,
        (x % pow2(e1)) as int,
    );
}

/// `(x + c * m) % m == x % m`.
pub proof fn lemma_add_mul_mod_vanish(x: nat, c: nat, m: nat)
    requires
        m > 0,
    ensures
        (x + c * m) % m == x % m,
{
    lemma_mod_multiples_vanish(c as int, x as int, m as int);
    lemma_mul_is_commutative(c as int, m as int);
}

/// An exact multiple of `d` is recovered by dividing and re-multiplying.
pub proof fn lemma_div_exact_mul(v: nat, d: nat)
    requires
        d > 0,
        v % d == 0,
    ensures
        (v / d) * d == v,
{
    lemma_fundamental_div_mod(v as int, d as int);
    lemma_mul_is_commutative((v / d) as int, d as int);
}

/// Divisibility by `2^s` implies divisibility by any smaller power.
pub proof fn lemma_mod_pow2_weaken(v: nat, s1: nat, s2: nat)
    requires
        s1 <= s2,
        v % pow2(s2) == 0,
    ensures
        v % pow2(s1) == 0,
{
    lemma_pow2_pos(s1);
    lemma_pow2_pos(s2);
    lemma_pow2_adds(s1, (s2 - s1) as nat);
    lemma_div_exact_mul(v, pow2(s2));
    lemma_mul_is_commutative(pow2(s1) as int, pow2((s2 - s1) as nat) as int);
    // v == (v / 2^s2) * (2^(s2-s1) * 2^s1)
    assert(v == ((v / pow2(s2)) * pow2((s2 - s1) as nat)) * pow2(s1)) by {
        lemma_mul_is_associative(
            (v / pow2(s2)) as int,
            pow2((s2 - s1) as nat) as int,
            pow2(s1) as int,
        );
    }
    lemma_mod_multiples_basic(((v / pow2(s2)) * pow2((s2 - s1) as nat)) as int, pow2(s1) as int);
    lemma_mul_is_commutative(((v / pow2(s2)) * pow2((s2 - s1) as nat)) as int, pow2(s1) as int);
}

// ---------------------------------------------------------------------------
// bits of a mask byte
// ---------------------------------------------------------------------------
/// Bit `i` of the mask byte, as arithmetic.
pub open spec fn bit8(m: u8, i: int) -> bool {
    (m as nat / pow2(i as nat)) % 2 == 1
}

/// The number of set bits among bits `0 .. k` of `m`.
pub open spec fn ones_below(m: u8, k: int) -> int
    decreases k,
{
    if k <= 0 {
        0
    } else {
        ones_below(m, k - 1) + if bit8(m, k - 1) {
            1int
        } else {
            0int
        }
    }
}

pub proof fn lemma_ones_below_bounds(m: u8, k: int)
    requires
        k >= 0,
    ensures
        0 <= ones_below(m, k) <= k,
    decreases k,
{
    if k > 0 {
        lemma_ones_below_bounds(m, k - 1);
    }
}

// ---------------------------------------------------------------------------
// the nonzero mask of a group
// ---------------------------------------------------------------------------
/// The mask restricted to the first `k` inputs.
pub open spec fn mask_prefix(vals: Seq<u64>, k: int) -> nat
    decreases k,
{
    if k <= 0 {
        0
    } else {
        mask_prefix(vals, k - 1) + if vals[k - 1] != 0 {
            pow2((k - 1) as nat)
        } else {
            0nat
        }
    }
}

/// The nonzero-mask byte: bit `i` is set exactly when input `i` is nonzero.
pub open spec fn mask_of(vals: Seq<u64>) -> u8 {
    mask_prefix(vals, 8) as u8
}

pub proof fn lemma_mask_prefix_bound(vals: Seq<u64>, k: int)
    requires
        k >= 0,
    ensures
        mask_prefix(vals, k) < pow2(k as nat),
    decreases k,
{
    if k == 0 {
        lemma2_to64();
    } else {
        lemma_mask_prefix_bound(vals, k - 1);
        lemma_pow2_unfold(k as nat);
    }
}

/// Bit `i` of `mask_prefix(vals, k)` records whether `vals[i]` is nonzero.
proof fn lemma_mask_prefix_bit(vals: Seq<u64>, k: int, i: int)
    requires
        0 <= i < k,
    ensures
        (mask_prefix(vals, k) / pow2(i as nat)) % 2 == if vals[i] != 0 {
            1nat
        } else {
            0nat
        },
    decreases k,
{
    lemma_pow2_pos(i as nat);
    let p = pow2(i as nat);
    if k - 1 == i {
        let x = mask_prefix(vals, k - 1);
        lemma_mask_prefix_bound(vals, k - 1);
        if vals[i] != 0 {
            // (x + 2^i) / 2^i == x/2^i + 1 == 1
            lemma_add_mul_pow2_div(x, 1, i as nat, i as nat);
            lemma_mul_basics(p as int);
            lemma_basic_div(x as int, p as int);
            assert(pow2(0) == 1) by {
                lemma2_to64();
            }
        } else {
            lemma_basic_div(x as int, p as int);
        }
    } else {
        lemma_mask_prefix_bit(vals, k - 1, i);
        let x = mask_prefix(vals, k - 1);
        if vals[k - 1] != 0 {
            // adding 2^(k-1) leaves bit i unchanged since k-1 >= i+1
            lemma_add_mul_pow2_div(x, 1, i as nat, (k - 1) as nat);
            lemma_mul_basics(pow2((k - 1) as nat) as int);
            assert(pow2((k - 1 - i) as nat) == 2 * pow2((k - 2 - i) as nat)) by {
                lemma_pow2_unfold((k - 1 - i) as nat);
            }
            assert((x / p + 1 * pow2((k - 1 - i) as nat)) % 2 == (x / p) % 2) by {
                lemma_mul_basics(pow2((k - 1 - i) as nat) as int);
                lemma_add_mul_mod_vanish(x / p, pow2((k - 2 - i) as nat), 2);
                lemma_mul_is_commutative(pow2((k - 2 - i) as nat) as int, 2);
            }
        }
    }
}

/// A zero quotient: `x / d == 0` for `0 <= x < d`.
proof fn lemma_basic_div(x: int, d: int)
    requires
        0 <= x < d,
    ensures
        x / d == 0,
{
    lemma_fundamental_div_mod_converse(x, d, 0, x);
}

/// Bit `i` of the mask byte is set exactly when input `i` is nonzero.
pub proof fn lemma_mask_bit(vals: Seq<u64>, i: int)
    requires
        0 <= i < 8,
    ensures
        bit8(mask_of(vals), i) == (vals[i] != 0),
{
    lemma_mask_prefix_bound(vals, 8);
    lemma2_to64();
    lemma_mask_prefix_bit(vals, 8, i);
}

/// A zero mask means every input of the group is zero.
pub proof fn lemma_mask_zero(vals: Seq<u64>, k: int)
    requires
        k >= 0,
        mask_prefix(vals, k) == 0,
    ensures
        forall|i: int| 0 <= i < k ==> vals[i] == 0,
    decreases k,
{
    if k > 0 {
        lemma_pow2_pos((k - 1) as nat);
        lemma_mask_zero(vals, k - 1);
    }
}

// ---------------------------------------------------------------------------
// nonzero counts and fields
// ---------------------------------------------------------------------------
/// How many of the first `k` inputs are nonzero.
pub open spec fn nz_count(vals: Seq<u64>, k: int) -> int
    decreases k,
{
    if k <= 0 {
        0
    } else {
        nz_count(vals, k - 1) + if vals[k - 1] != 0 {
            1int
        } else {
            0int
        }
    }
}

pub proof fn lemma_nz_count_bounds(vals: Seq<u64>, k: int)
    requires
        k >= 0,
    ensures
        0 <= nz_count(vals, k) <= k,
    decreases k,
{
    if k > 0 {
        lemma_nz_count_bounds(vals, k - 1);
    }
}

/// Counting set mask bits is counting nonzero inputs.
pub proof fn lemma_ones_below_is_nz_count(vals: Seq<u64>, k: int)
    requires
        0 <= k <= 8,
    ensures
        ones_below(mask_of(vals), k) == nz_count(vals, k),
    decreases k,
{
    if k > 0 {
        lemma_ones_below_is_nz_count(vals, k - 1);
        lemma_mask_bit(vals, k - 1);
    }
}

/// The nonzero inputs among the first `vals.len()`, each shifted right by
/// `sh` bits, in input order.
pub open spec fn nz_fields(vals: Seq<u64>, sh: nat) -> Seq<u64>
    decreases vals.len(),
{
    if vals.len() == 0 {
        Seq::empty()
    } else if vals.last() != 0 {
        nz_fields(vals.drop_last(), sh).push(vals.last() >> (sh as u64))
    } else {
        nz_fields(vals.drop_last(), sh)
    }
}

pub proof fn lemma_nz_fields_len(vals: Seq<u64>, sh: nat)
    ensures
        nz_fields(vals, sh).len() == nz_count(vals, vals.len() as int),
    decreases vals.len(),
{
    if vals.len() > 0 {
        lemma_nz_fields_len(vals.drop_last(), sh);
        assert(nz_count(vals.drop_last(), vals.len() - 1) == nz_count(vals, vals.len() - 1)) by {
            lemma_nz_count_same_on_prefix(vals.drop_last(), vals, vals.len() - 1);
        }
    }
}

/// `nz_count` only looks at the first `k` entries.
pub proof fn lemma_nz_count_same_on_prefix(a: Seq<u64>, b: Seq<u64>, k: int)
    requires
        0 <= k,
        forall|i: int| 0 <= i < k ==> a[i] == b[i],
    ensures
        nz_count(a, k) == nz_count(b, k),
    decreases k,
{
    if k > 0 {
        lemma_nz_count_same_on_prefix(a, b, k - 1);
    }
}

/// `mask_prefix` only looks at the first `k` entries.
pub proof fn lemma_mask_prefix_same_on_prefix(a: Seq<u64>, b: Seq<u64>, k: int)
    requires
        0 <= k,
        forall|i: int| 0 <= i < k ==> a[i] == b[i],
    ensures
        mask_prefix(a, k) == mask_prefix(b, k),
    decreases k,
{
    if k > 0 {
        lemma_mask_prefix_same_on_prefix(a, b, k - 1);
    }
}

/// Position of a nonzero input among the fields: input `i`, when nonzero,
/// lands at field index `nz_count(vals, i)`.
pub proof fn lemma_nz_fields_index(vals: Seq<u64>, sh: nat, i: int)
    requires
        0 <= i < vals.len(),
        vals[i] != 0,
    ensures
        nz_count(vals, i) < nz_fields(vals, sh).len(),
        nz_fields(vals, sh)[nz_count(vals, i)] == vals[i] >> (sh as u64),
    decreases vals.len(),
{
    lemma_nz_fields_len(vals, sh);
    lemma_nz_count_bounds(vals, i);
    let d = vals.drop_last();
    if i == vals.len() - 1 {
        lemma_nz_fields_len(d, sh);
        lemma_nz_count_same_on_prefix(d, vals, i);
    } else {
        lemma_nz_fields_index(d, sh, i);
        lemma_nz_count_same_on_prefix(d, vals, i);
    }
}

// ---------------------------------------------------------------------------
// the packed body as one natural number
// ---------------------------------------------------------------------------
/// The body value: field `k` occupies bits `k*nb .. (k+1)*nb`.
pub open spec fn fields_nat(fs: Seq<u64>, nb: nat) -> nat
    decreases fs.len(),
{
    if fs.len() == 0 {
        0
    } else {
        fields_nat(fs.drop_last(), nb) + (fs.last() as nat) * pow2((nb * (fs.len() - 1)) as nat)
    }
}

pub proof fn lemma_fields_nat_bound(fs: Seq<u64>, nb: nat)
    requires
        forall|i: int| 0 <= i < fs.len() ==> (fs[i] as nat) < pow2(nb),
    ensures
        fields_nat(fs, nb) < pow2(nb * fs.len()),
    decreases fs.len(),
{
    if fs.len() == 0 {
        lemma2_to64();
    } else {
        let d = fs.drop_last();
        let e = (nb * (fs.len() - 1)) as nat;
        lemma_fields_nat_bound(d, nb);
        assert(nb * d.len() == e);
        // fields_nat(fs) < 2^e + (2^nb - 1) * 2^e == 2^nb * 2^e == 2^(nb*len)
        assert((fs.last() as nat) * pow2(e) <= (pow2(nb) - 1) * pow2(e)) by {
            lemma_mul_inequality(fs.last() as int, pow2(nb) as int - 1, pow2(e) as int);
        }
        assert((pow2(nb) - 1) * pow2(e) == pow2(nb) * pow2(e) - pow2(e)) by {
            lemma_mul_is_distributive_sub_other_way(pow2(e) as int, pow2(nb) as int, 1);
            lemma_mul_basics(pow2(e) as int);
        }
        lemma_pow2_adds(nb, e);
        assert(nb * fs.len() == nb + e) by {
            lemma_mul_is_distributive_add(nb as int, fs.len() - 1, 1);
            lemma_mul_basics(nb as int);
        }
    }
}

/// Extracting field `k` from the body value.
pub proof fn lemma_fields_nat_extract(fs: Seq<u64>, nb: nat, k: int)
    requires
        0 <= k < fs.len(),
        forall|i: int| 0 <= i < fs.len() ==> (fs[i] as nat) < pow2(nb),
    ensures
        (fields_nat(fs, nb) / pow2((nb * k) as nat)) % pow2(nb) == fs[k] as nat,
    decreases fs.len(),
{
    let d = fs.drop_last();
    let e = (nb * (fs.len() - 1)) as nat;
    let ek = (nb * k) as nat;
    lemma_pow2_pos(nb);
    lemma_pow2_pos(ek);
    lemma_fields_nat_bound(d, nb);
    assert(nb * d.len() == e);
    assert(ek <= e) by {
        lemma_mul_inequality(k, fs.len() - 1, nb as int);
        lemma_mul_is_commutative(k, nb as int);
        lemma_mul_is_commutative(fs.len() - 1, nb as int);
    }
    if k == fs.len() - 1 {
        // fields_nat(fs)/2^ek == d-part/2^ek + last, and the d-part vanishes
        lemma_add_mul_pow2_div(fields_nat(d, nb), fs.last() as nat, ek, e);
        assert(pow2((e - ek) as nat) == pow2(0)) by {
        }
        assert(pow2(0) == 1) by {
            lemma2_to64();
        }
        lemma_mul_basics(fs.last() as int);
        lemma_basic_div(fields_nat(d, nb) as int, pow2(ek) as int);
        lemma_mod_bound(fs.last() as int, pow2(nb) as int);
        assert((fs.last() as nat) % pow2(nb) == fs.last() as nat) by {
            lemma_small_mod(fs.last() as nat, pow2(nb));
        }
    } else {
        lemma_fields_nat_extract(d, nb, k);
        // adding the last field on top does not disturb bits below e
        lemma_add_mul_pow2_div(fields_nat(d, nb), fs.last() as nat, ek, e);
        let c = (fs.last() as nat) * pow2((e - ek) as nat);
        assert((fields_nat(d, nb) / pow2(ek) + c) % pow2(nb) == (fields_nat(d, nb) / pow2(ek))
            % pow2(nb)) by {
            // c is a multiple of 2^nb because e - ek >= nb
            assert(e - ek >= nb) by {
                assert(e - ek == nb * (fs.len() - 1) - nb * k);
                lemma_mul_is_distributive_sub(nb as int, fs.len() - 1, k);
                assert(nb * (fs.len() - 1 - k) >= nb * 1) by {
                    lemma_mul_inequality(1, fs.len() - 1 - k, nb as int);
                    lemma_mul_is_commutative(1, nb as int);
                    lemma_mul_is_commutative(fs.len() - 1 - k, nb as int);
                }
                lemma_mul_basics(nb as int);
            }
            assert(pow2((e - ek) as nat) == pow2((e - ek - nb) as nat) * pow2(nb)) by {
                lemma_pow2_adds((e - ek - nb) as nat, nb);
            }
            assert(c == ((fs.last() as nat) * pow2((e - ek - nb) as nat)) * pow2(nb)) by {
                lemma_mul_is_associative(
                    fs.last() as int,
                    pow2((e - ek - nb) as nat) as int,
                    pow2(nb) as int,
                );
            }
            lemma_add_mul_mod_vanish(
                fields_nat(d, nb) / pow2(ek),
                (fs.last() as nat) * pow2((e - ek - nb) as nat),
                pow2(nb),
            );
        }
    }
}

// ---------------------------------------------------------------------------
// the group header: nibble width and trailing-zero nibbles
// ---------------------------------------------------------------------------
/// Minimum leading-zero count over the first `k` inputs (64 for none).
pub open spec fn min_lz(vals: Seq<u64>, k: int) -> int
    decreases k,
{
    if k <= 0 {
        64
    } else {
        let rest = min_lz(vals, k - 1);
        let cur = u64_leading_zeros(vals[k - 1]);
        if cur < rest {
            cur
        } else {
            rest
        }
    }
}

/// Minimum trailing-zero count over the first `k` inputs (64 for none).
pub open spec fn min_tz(vals: Seq<u64>, k: int) -> int
    decreases k,
{
    if k <= 0 {
        64
    } else {
        let rest = min_tz(vals, k - 1);
        let cur = u64_trailing_zeros(vals[k - 1]) as int;
        if cur < rest {
            cur
        } else {
            rest
        }
    }
}

/// Trailing zero nibbles common to the whole group.
pub open spec fn tz_nib(vals: Seq<u64>) -> int {
    min_tz(vals, 8) / 4
}

/// Width of the packed fields, in nibbles.
pub open spec fn nnib(vals: Seq<u64>) -> int {
    16 - min_lz(vals, 8) / 4 - tz_nib(vals)
}

/// The right-shift applied to every nonzero input, in bits.
pub open spec fn sh_of(vals: Seq<u64>) -> nat {
    (4 * tz_nib(vals)) as nat
}

/// Width of the packed fields, in bits.
pub open spec fn nb_of(vals: Seq<u64>) -> nat {
    (4 * nnib(vals)) as nat
}

/// The width byte: high nibble `nnib - 1`, low nibble `tz_nib`.
pub open spec fn width_byte(vals: Seq<u64>) -> u8 {
    (16 * (nnib(vals) - 1) + tz_nib(vals)) as u8
}

/// Body length in bytes: the packed bits, rounded up to whole bytes.
pub open spec fn body_len(vals: Seq<u64>) -> nat {
    ((nz_count(vals, 8) * nb_of(vals) + 7) / 8) as nat
}

/// The exact bytes emitted for one group of eight values.
pub open spec fn enc_group(vals: Seq<u64>) -> Seq<u8> {
    if mask_of(vals) == 0 {
        seq![0u8]
    } else {
        seq![mask_of(vals), width_byte(vals)] + le_bytes(
            fields_nat(nz_fields(vals, sh_of(vals)), nb_of(vals)),
            body_len(vals),
        )
    }
}

pub proof fn lemma_mask_of_val(vals: Seq<u64>)
    ensures
        mask_of(vals) as nat == mask_prefix(vals, 8),
{
    lemma_mask_prefix_bound(vals, 8);
    lemma2_to64();
}

pub proof fn lemma_min_lz_le(vals: Seq<u64>, k: int, i: int)
    requires
        0 <= i < k,
    ensures
        min_lz(vals, k) <= u64_leading_zeros(vals[i]),
    decreases k,
{
    if i < k - 1 {
        lemma_min_lz_le(vals, k - 1, i);
    }
}

pub proof fn lemma_min_tz_le(vals: Seq<u64>, k: int, i: int)
    requires
        0 <= i < k,
    ensures
        min_tz(vals, k) <= u64_trailing_zeros(vals[i]) as int,
    decreases k,
{
    if i < k - 1 {
        lemma_min_tz_le(vals, k - 1, i);
    }
}

pub proof fn lemma_min_zeros_bounds(vals: Seq<u64>, k: int)
    requires
        k >= 0,
    ensures
        0 <= min_lz(vals, k) <= 64,
        0 <= min_tz(vals, k) <= 64,
    decreases k,
{
    if k > 0 {
        lemma_min_zeros_bounds(vals, k - 1);
        axiom_u64_leading_zeros(vals[k - 1]);
        axiom_u64_trailing_zeros(vals[k - 1]);
    }
}

/// A value is bounded by the power of two its leading zeros leave room for.
pub proof fn lemma_u64_lz_bound(x: u64)
    ensures
        (x as nat) < pow2((64 - u64_leading_zeros(x)) as nat),
{
    axiom_u64_leading_zeros(x);
    let lz = u64_leading_zeros(x);
    if lz == 64 {
        lemma_pow2_pos(0);
    } else if lz == 0 {
        assert(pow2(64) == 0x1_0000_0000_0000_0000) by {
            lemma2_to64_rest();
        }
    } else {
        let e = (64 - lz) as nat;
        assert(x >> ((64 - lz) as u64) == 0) by {
            assert(x >> (64u64 - (lz as u64)) as u64 == 0);
        }
        lemma_u64_shr_is_div(x, e as u64);
        lemma_pow2_pos(e);
        lemma_fundamental_div_mod(x as int, pow2(e) as int);
        lemma_mod_bound(x as int, pow2(e) as int);
    }
}

proof fn lemma_shl_zero_means_low_bits_zero(x: u64, t: u64)
    by (bit_vector)
    requires
        0 < t < 64,
        x << ((64 - t) as u64) == 0,
    ensures
        x & (((1u64 << t) - 1) as u64) == 0,
{
}

/// A value is divisible by the power of two given by its trailing zeros.
pub proof fn lemma_u64_tz_divides(x: u64)
    ensures
        (x as nat) % pow2(u64_trailing_zeros(x) as nat) == 0,
{
    axiom_u64_trailing_zeros(x);
    let tz = u64_trailing_zeros(x);
    if x == 0 {
        lemma_pow2_pos(tz as nat);
        lemma_mod_self_0(pow2(tz as nat) as int);
        lemma_small_mod(0, pow2(tz as nat));
    } else if tz == 0 {
        lemma2_to64();
        assert(pow2(0) == 1);
        lemma_small_mod(0, 1);
        lemma_mod_self_0(1);
        assert((x as nat) % 1nat == 0) by {
            lemma_mod_of_one(x as nat);
        }
    } else {
        let t = tz as u64;
        assert(x << ((64 - t) as u64) == 0) by {
            assert(x << (64u64 - t) as u64 == 0);
        }
        lemma_shl_zero_means_low_bits_zero(x, t);
        lemma_u64_one_shl(t);
        lemma_u64_pow2_no_overflow(t as nat);
        assert(((1u64 << t) - 1) as u64 == low_bits_mask(t as nat) as u64);
        lemma_u64_low_bits_mask_is_mod(x, t as nat);
    }
}

/// A nonzero value is at least the power of two of its trailing zeros.
pub proof fn lemma_u64_tz_le(x: u64)
    requires
        x != 0,
    ensures
        pow2(u64_trailing_zeros(x) as nat) <= x as nat,
{
    lemma_u64_tz_divides(x);
    let p = pow2(u64_trailing_zeros(x) as nat);
    lemma_pow2_pos(u64_trailing_zeros(x) as nat);
    lemma_div_exact_mul(x as nat, p);
    if (x as nat) / p == 0 {
        lemma_mul_basics(p as int);
        assert(x as nat == 0nat * p);
        lemma_mul_basics(p as int);
    } else {
        lemma_mul_inequality(1, ((x as nat) / p) as int, p as int);
        lemma_mul_is_commutative(1, p as int);
        lemma_mul_is_commutative(((x as nat) / p) as int, p as int);
    }
}

/// Non-strict monotonicity of `pow2`.
pub proof fn lemma_pow2_le(e1: nat, e2: nat)
    requires
        e1 <= e2,
    ensures
        pow2(e1) <= pow2(e2),
{
    if e1 < e2 {
        lemma_pow2_strictly_increases(e1, e2);
    }
}

/// Floor division by 4 loses at most 3.
proof fn lemma_div4_bounds(a: int)
    requires
        a >= 0,
    ensures
        4 * (a / 4) <= a,
        a / 4 >= 0,
{
    lemma_fundamental_div_mod(a, 4);
    lemma_mod_bound(a, 4);
    lemma_div_pos_is_pos(a, 4);
}

/// Everything the header promises for a group with a nonzero mask.
pub proof fn lemma_header_bounds(vals: Seq<u64>)
    requires
        vals.len() == 8,
        mask_of(vals) != 0,
    ensures
        1 <= nnib(vals) <= 16,
        0 <= tz_nib(vals) <= 15,
        nnib(vals) + tz_nib(vals) <= 16,
        4 <= nb_of(vals) <= 64,
        sh_of(vals) <= 60,
        sh_of(vals) + nb_of(vals) <= 64,
        1 <= nz_count(vals, 8) <= 8,
{
    lemma_mask_of_val(vals);
    // some input is nonzero
    let w = choose|i: int| 0 <= i < 8 && vals[i] != 0;
    assert(exists|i: int| 0 <= i < 8 && vals[i] != 0) by {
        if forall|i: int| 0 <= i < 8 ==> vals[i] == 0 {
            lemma_mask_all_zero(vals, 8);
        }
    }
    let mlz = min_lz(vals, 8);
    let mtz = min_tz(vals, 8);
    lemma_min_zeros_bounds(vals, 8);
    lemma_min_lz_le(vals, 8, w);
    lemma_min_tz_le(vals, 8, w);
    axiom_u64_leading_zeros(vals[w]);
    axiom_u64_trailing_zeros(vals[w]);
    // lz(v) + tz(v) <= 63 for the nonzero witness
    let v = vals[w];
    let lzv = u64_leading_zeros(v);
    let tzv = u64_trailing_zeros(v) as int;
    lemma_u64_lz_bound(v);
    lemma_u64_tz_le(v);
    assert(tzv < 64 - lzv) by {
        if tzv >= 64 - lzv {
            lemma_pow2_le((64 - lzv) as nat, tzv as nat);
        }
    }
    // floor-division bookkeeping
    lemma_div4_bounds(mlz);
    lemma_div4_bounds(mtz);
    assert(4 * (mlz / 4 + mtz / 4) <= mlz + mtz);
    assert(mlz + mtz <= 63);
    assert(mlz / 4 + mtz / 4 <= 15);
    lemma_nz_count_bounds(vals, 8);
    assert(nz_count(vals, 8) >= 1) by {
        lemma_nz_count_at_least_one(vals, 8, w);
    }
}

/// If every input among the first `k` is zero, the mask prefix is zero.
pub proof fn lemma_mask_all_zero(vals: Seq<u64>, k: int)
    requires
        k >= 0,
        forall|i: int| 0 <= i < k ==> vals[i] == 0,
    ensures
        mask_prefix(vals, k) == 0,
    decreases k,
{
    if k > 0 {
        lemma_mask_all_zero(vals, k - 1);
    }
}

/// A nonzero input among the first `k` makes the count positive.
pub proof fn lemma_nz_count_at_least_one(vals: Seq<u64>, k: int, i: int)
    requires
        0 <= i < k,
        vals[i] != 0,
    ensures
        nz_count(vals, k) >= 1,
    decreases k,
{
    lemma_nz_count_bounds(vals, k);
    if i < k - 1 {
        lemma_nz_count_at_least_one(vals, k - 1, i);
        lemma_nz_count_bounds(vals, k - 1);
    } else {
        lemma_nz_count_bounds(vals, k - 1);
    }
}

/// Each nonzero input, shifted, fits the field width, and the shift is
/// reversible.
pub proof fn lemma_field_facts(vals: Seq<u64>, i: int)
    requires
        vals.len() == 8,
        mask_of(vals) != 0,
        0 <= i < 8,
        vals[i] != 0,
    ensures
        ((vals[i] >> (sh_of(vals) as u64)) as nat) < pow2(nb_of(vals)),
        ((vals[i] >> (sh_of(vals) as u64)) as nat) * pow2(sh_of(vals)) == vals[i] as nat,
{
    lemma_header_bounds(vals);
    let v = vals[i];
    let sh = sh_of(vals);
    let nb = nb_of(vals);
    let mlz = min_lz(vals, 8);
    let mtz = min_tz(vals, 8);
    lemma_min_zeros_bounds(vals, 8);
    lemma_min_lz_le(vals, 8, i);
    lemma_min_tz_le(vals, 8, i);
    axiom_u64_leading_zeros(v);
    axiom_u64_trailing_zeros(v);
    let lzv = u64_leading_zeros(v);
    let tzv = u64_trailing_zeros(v) as nat;
    lemma_u64_lz_bound(v);
    lemma_u64_tz_divides(v);
    lemma_u64_shr_is_div(v, sh as u64);
    lemma_div4_bounds(mlz);
    lemma_div4_bounds(mtz);
    // v < 2^(64 - mlz)
    lemma_pow2_le((64 - lzv) as nat, (64 - mlz) as nat);
    // bound after the shift
    let room = (64 - mlz - sh) as nat;
    assert(sh + room == (64 - mlz) as nat);
    lemma_pow2_adds(sh, room);
    lemma_pow2_pos(sh);
    lemma_pow2_pos(room);
    assert((v as nat) / pow2(sh) < pow2(room)) by {
        lemma_multiply_divide_lt(v as int, pow2(sh) as int, pow2(room) as int);
    }
    assert(room <= nb);
    lemma_pow2_le(room, nb);
    // exactness of the shift
    lemma_mod_pow2_weaken(v as nat, sh, tzv);
    lemma_div_exact_mul(v as nat, pow2(sh));
}

// ---------------------------------------------------------------------------
// parsing a group frame
// ---------------------------------------------------------------------------
/// Field width in bits, read back from a width byte.
pub open spec fn g_num_bits(w: u8) -> nat {
    ((w as nat) / 16 + 1) * 4
}

/// Trailing-zero shift in bits, read back from a width byte.
pub open spec fn g_tz(w: u8) -> nat {
    ((w as nat) % 16) * 4
}

/// The length in bytes of the group frame that starts the buffer.
pub open spec fn g_len(buf: Seq<u8>) -> int {
    if buf.len() == 0 {
        1
    } else if buf[0] == 0 {
        1
    } else if buf.len() < 2 {
        2
    } else {
        2 + (g_num_bits(buf[1]) * ones_below(buf[0], 8) + 7) / 8
    }
}

/// Whether a whole group frame is present at the head of the buffer.
pub open spec fn group_ok(buf: Seq<u8>) -> bool {
    buf.len() >= 1 && (buf[0] == 0 || (buf.len() >= 2 && g_len(buf) <= buf.len()))
}

/// The body of the frame, as one natural number.
pub open spec fn g_body(buf: Seq<u8>) -> nat {
    le_val(buf.subrange(2, g_len(buf)))
}

/// Field `k` of the body.
pub open spec fn g_field(buf: Seq<u8>, k: int) -> nat {
    (g_body(buf) / pow2((g_num_bits(buf[1]) * k) as nat)) % pow2(g_num_bits(buf[1]))
}

/// The word handed to the sink for group position `i`.
pub open spec fn g_word(buf: Seq<u8>, i: int) -> u64 {
    if !bit8(buf[0], i) {
        0u64
    } else {
        ((g_field(buf, ones_below(buf[0], i)) * pow2(g_tz(buf[1]))) % pow2(64)) as u64
    }
}

/// The eight words a decoded group delivers, for any frame.
pub open spec fn group_words(buf: Seq<u8>) -> Seq<u64> {
    if buf.len() >= 1 && buf[0] != 0 && buf.len() >= 2 {
        Seq::new(8, |i: int| g_word(buf, i))
    } else {
        seq![0u64; 8]
    }
}

/// Reading the width byte back yields the encoder's width and shift.
pub proof fn lemma_width_byte_parse(vals: Seq<u64>)
    requires
        vals.len() == 8,
        mask_of(vals) != 0,
    ensures
        width_byte(vals) as nat == 16 * (nnib(vals) - 1) + tz_nib(vals),
        g_num_bits(width_byte(vals)) == nb_of(vals),
        g_tz(width_byte(vals)) == sh_of(vals),
{
    lemma_header_bounds(vals);
    let nn = nnib(vals);
    let tzn = tz_nib(vals);
    assert(0 <= 16 * (nn - 1) + tzn <= 255);
    let w = width_byte(vals) as nat;
    assert(w as int == 16 * (nn - 1) + tzn);
    assert(w / 16 == nn - 1) by {
        lemma_div_multiples_vanish_fancy(nn - 1, tzn, 16);
    }
    assert(w % 16 == tzn) by {
        lemma_mod_multiples_vanish(nn - 1, tzn, 16);
        lemma_small_mod(tzn as nat, 16);
    }
}

/// All fields of an encoded group are bounded by the field width.
pub proof fn lemma_nz_fields_all_bound(vals: Seq<u64>, sh: nat, nb: nat, orig: Seq<u64>)
    requires
        orig.len() == 8,
        mask_of(orig) != 0,
        sh == sh_of(orig),
        nb == nb_of(orig),
        vals.len() <= 8,
        forall|i: int| 0 <= i < vals.len() ==> vals[i] == orig[i],
    ensures
        forall|j: int|
            0 <= j < nz_fields(vals, sh).len() ==> (nz_fields(vals, sh)[j] as nat) < pow2(nb),
    decreases vals.len(),
{
    if vals.len() > 0 {
        let d = vals.drop_last();
        lemma_nz_fields_all_bound(d, sh, nb, orig);
        let fs = nz_fields(vals, sh);
        let fd = nz_fields(d, sh);
        if vals.last() != 0 {
            lemma_field_facts(orig, vals.len() - 1);
            assert(fs =~= fd.push(vals.last() >> (sh as u64)));
            assert forall|j: int| 0 <= j < fs.len() implies (fs[j] as nat) < pow2(nb) by {
                if j < fd.len() {
                    assert(fs[j] == fd[j]);
                } else {
                    assert(fs[j] == vals.last() >> (sh as u64));
                    assert(vals.last() == orig[vals.len() - 1]);
                }
            }
        } else {
            assert(fs =~= fd);
        }
    }
}

/// Rounding up to whole bytes never loses bits.
pub proof fn lemma_ceil_div8(x: int)
    requires
        x >= 0,
    ensures
        x <= 8 * ((x + 7) / 8),
        8 * ((x + 7) / 8) <= x + 7,
        (x + 7) / 8 >= 0,
{
    lemma_fundamental_div_mod(x + 7, 8);
    lemma_mod_bound(x + 7, 8);
    lemma_div_pos_is_pos(x + 7, 8);
}

/// Parsing an encoded group recovers the group: the frame is whole, its
/// length is the encoded length, and the eight decoded words are the eight
/// inputs.
pub proof fn lemma_group_round_trip(vals: Seq<u64>, rest: Seq<u8>)
    requires
        vals.len() == 8,
    ensures
        group_ok(enc_group(vals) + rest),
        g_len(enc_group(vals) + rest) == enc_group(vals).len(),
        group_words(enc_group(vals) + rest) =~= vals,
{
    let buf = enc_group(vals) + rest;
    if mask_of(vals) == 0 {
        assert(buf[0] == 0);
        lemma_mask_of_val(vals);
        lemma_mask_zero(vals, 8);
        assert(group_words(buf) =~= vals);
    } else {
        let m = mask_of(vals);
        let sh = sh_of(vals);
        let nb = nb_of(vals);
        let cnt = nz_count(vals, 8);
        let fs = nz_fields(vals, sh);
        let ff = fields_nat(fs, nb);
        let bl = body_len(vals);
        lemma_header_bounds(vals);
        lemma_width_byte_parse(vals);
        lemma_ones_below_is_nz_count(vals, 8);
        lemma_nz_fields_len(vals, sh);
        lemma_nz_fields_all_bound(vals, sh, nb, vals);
        lemma_fields_nat_bound(fs, nb);
        // frame length bookkeeping
        assert(buf[0] == m && buf[1] == width_byte(vals));
        assert(g_num_bits(buf[1]) * ones_below(buf[0], 8) == cnt * nb) by {
            lemma_mul_is_commutative(nb as int, cnt);
        }
        assert(g_len(buf) == 2 + bl);
        assert(enc_group(vals).len() == 2 + bl);
        assert(group_ok(buf));
        // the body parses back to the packed value
        lemma_ceil_div8(cnt * nb);
        assert(nb * fs.len() == cnt * nb) by {
            lemma_mul_is_commutative(nb as int, cnt);
        }
        assert(ff < pow2(8 * bl)) by {
            lemma_pow2_le((nb * fs.len()) as nat, (8 * bl) as nat);
        }
        assert(buf.subrange(2, g_len(buf)) =~= le_bytes(ff, bl));
        crate::byteio::lemma_le_bytes_val(ff, bl);
        assert(g_body(buf) == ff);
        // each position decodes to the original input
        assert forall|i: int| 0 <= i < 8 implies group_words(buf)[i] == vals[i] by {
            lemma_mask_bit(vals, i);
            if vals[i] == 0 {
                assert(!bit8(buf[0], i));
            } else {
                let k = ones_below(m, i);
                lemma_ones_below_is_nz_count(vals, i as int);
                lemma_nz_fields_index(vals, sh, i);
                lemma_nz_count_bounds(vals, i);
                assert(k < fs.len()) by {
                    lemma_nz_count_mono(vals, i, 8);
                }
                assert((nb * k) as nat == nb * k) by {
                    lemma_mul_nonnegative(nb as int, k);
                }
                lemma_fields_nat_extract(fs, nb, k);
                assert(g_field(buf, k) == fs[k] as nat);
                assert(fs[k] == vals[i] >> (sh as u64));
                lemma_field_facts(vals, i);
                // (field * 2^sh) mod 2^64 == vals[i]
                assert((fs[k] as nat) * pow2(sh) == vals[i] as nat);
                assert((vals[i] as nat) < pow2(64)) by {
                    lemma2_to64_rest();
                }
                lemma_small_mod(vals[i] as nat, pow2(64));
            }
        }
    }
}

/// The nonzero count grows with the prefix.
pub proof fn lemma_nz_count_mono(vals: Seq<u64>, k1: int, k2: int)
    requires
        0 <= k1 <= k2,
        exists|i: int| k1 <= i < k2 && vals[i] != 0,
    ensures
        nz_count(vals, k1) < nz_count(vals, k2),
    decreases k2 - k1,
{
    let i = choose|i: int| k1 <= i < k2 && vals[i] != 0;
    if i == k2 - 1 {
        lemma_nz_count_mono_weak(vals, k1, k2 - 1);
    } else {
        lemma_nz_count_mono(vals, k1, k2 - 1);
    }
}

pub proof fn lemma_nz_count_mono_weak(vals: Seq<u64>, k1: int, k2: int)
    requires
        0 <= k1 <= k2,
    ensures
        nz_count(vals, k1) <= nz_count(vals, k2),
    decreases k2 - k1,
{
    if k1 < k2 {
        lemma_nz_count_mono_weak(vals, k1, k2 - 1);
    }
}

// ---------------------------------------------------------------------------
// streams of groups
// ---------------------------------------------------------------------------
/// The first group of a stream: up to eight values, zero-padded to eight.
pub open spec fn group8(vals: Seq<u64>) -> Seq<u64> {
    Seq::new(8, |i: int| if i < vals.len() { vals[i] } else { 0u64 })
}

/// What remains of a stream after its first group.
pub open spec fn rest8(vals: Seq<u64>) -> Seq<u64> {
    if vals.len() <= 8 {
        Seq::empty()
    } else {
        vals.skip(8)
    }
}

/// The bytes emitted for a whole stream: one group frame per eight values,
/// the last group zero-padded.
pub open spec fn enc_stream(vals: Seq<u64>) -> Seq<u8>
    decreases vals.len(),
{
    if vals.len() == 0 {
        Seq::empty()
    } else {
        enc_group(group8(vals)) + enc_stream(rest8(vals))
    }
}

/// The stream zero-padded to a whole number of groups: exactly the words a
/// decoder hands to its sink.
pub open spec fn zero_pad8(vals: Seq<u64>) -> Seq<u64>
    decreases vals.len(),
{
    if vals.len() == 0 {
        Seq::empty()
    } else {
        group8(vals) + zero_pad8(rest8(vals))
    }
}

/// Whether `ceil(n/8)` whole group frames are present at the head of `buf`.
pub open spec fn stream_ok(buf: Seq<u8>, n: int) -> bool
    decreases (n + 7) / 8,
{
    if n <= 0 {
        true
    } else {
        group_ok(buf) && stream_ok(buf.skip(g_len(buf)), n - 8)
    }
}

/// Total length in bytes of those frames.
pub open spec fn stream_len(buf: Seq<u8>, n: int) -> int
    decreases (n + 7) / 8,
{
    if n <= 0 {
        0
    } else {
        g_len(buf) + stream_len(buf.skip(g_len(buf)), n - 8)
    }
}

/// All words the frames deliver, in order: eight per group.
pub open spec fn stream_words(buf: Seq<u8>, n: int) -> Seq<u64>
    decreases (n + 7) / 8,
{
    if n <= 0 {
        Seq::empty()
    } else {
        group_words(buf) + stream_words(buf.skip(g_len(buf)), n - 8)
    }
}

/// `enc_stream` distributes over splitting off whole groups.
pub proof fn lemma_enc_stream_concat(a: Seq<u64>, b: Seq<u64>)
    requires
        a.len() % 8 == 0,
    ensures
        enc_stream(a + b) =~= enc_stream(a) + enc_stream(b),
    decreases a.len(),
{
    if a.len() == 0 {
        assert(a + b =~= b);
        assert(enc_stream(a) =~= Seq::<u8>::empty());
    } else {
        assert(a.len() >= 8);
        assert(group8(a + b) =~= group8(a));
        if (a + b).len() <= 8 {
            assert(a.len() == 8 && b.len() == 0);
            assert(rest8(a + b) =~= rest8(a) + b);
        } else {
            assert(rest8(a + b) =~= rest8(a) + b);
        }
        lemma_enc_stream_concat(rest8(a), b);
        assert(enc_stream(a + b) == enc_group(group8(a + b)) + enc_stream(rest8(a + b)));
        assert(enc_stream(rest8(a + b)) == enc_stream(rest8(a) + b));
        assert(enc_stream(a) == enc_group(group8(a)) + enc_stream(rest8(a)));
    }
}

/// `zero_pad8` distributes the same way.
pub proof fn lemma_zero_pad8_concat(a: Seq<u64>, b: Seq<u64>)
    requires
        a.len() % 8 == 0,
    ensures
        zero_pad8(a + b) =~= zero_pad8(a) + zero_pad8(b),
    decreases a.len(),
{
    if a.len() == 0 {
        assert(a + b =~= b);
        assert(zero_pad8(a) =~= Seq::<u64>::empty());
    } else {
        assert(a.len() >= 8);
        assert(group8(a + b) =~= group8(a));
        assert(rest8(a + b) =~= rest8(a) + b);
        lemma_zero_pad8_concat(rest8(a), b);
        assert(zero_pad8(a + b) == group8(a + b) + zero_pad8(rest8(a + b)));
        assert(zero_pad8(rest8(a + b)) == zero_pad8(rest8(a) + b));
        assert(zero_pad8(a) == group8(a) + zero_pad8(rest8(a)));
    }
}

/// The padded stream keeps the original values as its prefix and pads with
/// zeros to the next multiple of eight.
pub proof fn lemma_zero_pad8_shape(vals: Seq<u64>)
    ensures
        zero_pad8(vals).len() == 8 * ((vals.len() + 7) / 8),
        forall|i: int| 0 <= i < vals.len() ==> zero_pad8(vals)[i] == vals[i],
        forall|i: int| vals.len() <= i < zero_pad8(vals).len() ==> zero_pad8(vals)[i] == 0u64,
    decreases vals.len(),
{
    if vals.len() == 0 {
    } else if vals.len() <= 8 {
        assert(rest8(vals) =~= Seq::<u64>::empty());
        assert(zero_pad8(Seq::<u64>::empty()) =~= Seq::<u64>::empty());
        assert(zero_pad8(vals) =~= group8(vals));
    } else {
        lemma_zero_pad8_shape(rest8(vals));
        assert((vals.len() + 7) / 8 == 1 + (vals.len() - 8 + 7) / 8) by {
            lemma_dividing_sums_helper(vals.len() - 8 + 7, 8);
        }
        assert forall|i: int| 0 <= i < vals.len() implies zero_pad8(vals)[i] == vals[i] by {
            if i < 8 {
                assert(zero_pad8(vals)[i] == group8(vals)[i]);
            } else {
                assert(zero_pad8(vals)[i] == zero_pad8(rest8(vals))[i - 8]);
                assert(rest8(vals)[i - 8] == vals[i]);
            }
        }
        assert forall|i: int| vals.len() <= i < zero_pad8(vals).len() implies zero_pad8(vals)[i]
            == 0u64 by {
            assert(zero_pad8(vals)[i] == zero_pad8(rest8(vals))[i - 8]);
        }
    }
}

/// `(x + 8) / 8 == x / 8 + 1` for `x >= 0`.
proof fn lemma_dividing_sums_helper(x: int, d: int)
    requires
        x >= 0,
        d == 8,
    ensures
        (x + d) / d == x / d + 1,
{
    lemma_fundamental_div_mod(x, 8);
    lemma_mod_bound(x, 8);
    lemma_fundamental_div_mod_converse(x + 8, 8, x / 8 + 1, x % 8);
}

/// Decoding an encoded stream: every frame is whole, the frames span exactly
/// the encoded bytes, and the words delivered are the zero-padded stream.
pub proof fn lemma_stream_round_trip(vals: Seq<u64>, rest: Seq<u8>)
    ensures
        stream_ok(enc_stream(vals) + rest, vals.len() as int),
        stream_len(enc_stream(vals) + rest, vals.len() as int) == enc_stream(vals).len(),
        stream_words(enc_stream(vals) + rest, vals.len() as int) =~= zero_pad8(vals),
    decreases vals.len(),
{
    let n = vals.len() as int;
    let buf = enc_stream(vals) + rest;
    if n == 0 {
        assert(stream_words(buf, 0) =~= Seq::<u64>::empty());
        assert(zero_pad8(vals) =~= Seq::<u64>::empty());
    } else {
        let g = group8(vals);
        let tail = rest8(vals);
        lemma_group_round_trip(g, enc_stream(tail) + rest);
        assert(buf =~= enc_group(g) + (enc_stream(tail) + rest));
        assert(group_ok(buf));
        assert(g_len(buf) == enc_group(g).len());
        assert(buf.skip(g_len(buf)) =~= enc_stream(tail) + rest);
        lemma_stream_round_trip(tail, rest);
        if n <= 8 {
            assert(tail =~= Seq::<u64>::empty());
            assert(stream_ok(buf.skip(g_len(buf)), n - 8));
            assert(stream_len(buf.skip(g_len(buf)), n - 8) == 0);
            assert(stream_words(buf.skip(g_len(buf)), n - 8) =~= Seq::<u64>::empty());
            assert(stream_words(buf, n) =~= group_words(buf));
            assert(group_words(buf) =~= g);
            assert(zero_pad8(Seq::<u64>::empty()) =~= Seq::<u64>::empty());
            assert(zero_pad8(vals) =~= g);
        } else {
            assert(tail.len() as int == n - 8);
            assert(group_words(buf) =~= g);
            assert(stream_words(buf, n) =~= g + stream_words(buf.skip(g_len(buf)), n - 8));
            assert(stream_words(buf.skip(g_len(buf)), n - 8) =~= zero_pad8(tail));
            assert(zero_pad8(vals) == group8(vals) + zero_pad8(rest8(vals)));
        }
    }
}

/// `nz_fields` over a growing prefix.
pub proof fn lemma_nz_fields_take_step(vals: Seq<u64>, sh: nat, i: int)
    requires
        0 <= i < vals.len(),
    ensures
        vals[i] != 0 ==> nz_fields(vals.take(i + 1), sh) =~= nz_fields(vals.take(i), sh).push(
            vals[i] >> (sh as u64),
        ),
        vals[i] == 0 ==> nz_fields(vals.take(i + 1), sh) =~= nz_fields(vals.take(i), sh),
{
    let a = vals.take(i + 1);
    assert(a.drop_last() =~= vals.take(i));
    assert(a.last() == vals[i]);
}

// ---------------------------------------------------------------------------
// predictor transforms
// ---------------------------------------------------------------------------
/// Saturating subtraction on `u64`.
pub open spec fn sat_sub64(a: u64, b: u64) -> u64 {
    if a >= b {
        (a - b) as u64
    } else {
        0u64
    }
}

/// The delta stream: each value minus its predecessor, clamped at zero, the
/// first value taken as is.
pub open spec fn delta_seq(vals: Seq<u64>) -> Seq<u64> {
    Seq::new(vals.len(), |i: int| if i == 0 {
        vals[0]
    } else {
        sat_sub64(vals[i], vals[i - 1])
    })
}

/// The XOR delta stream over raw bit patterns: each pattern XORed with its
/// predecessor. The first pattern is carried separately.
pub open spec fn xor_seq(bits: Seq<u64>) -> Seq<u64>
    recommends
        bits.len() >= 1,
{
    Seq::new((bits.len() - 1) as nat, |i: int| bits[i] ^ bits[i + 1])
}

/// `(x % 2^a) * 2^b == (x * 2^b) % 2^(a+b)`.
pub proof fn lemma_mod_mul_pow2(x: nat, a: nat, b: nat)
    ensures
        (x % pow2(a)) * pow2(b) == (x * pow2(b)) % pow2(a + b),
{
    lemma_pow2_pos(a);
    lemma_pow2_pos(b);
    lemma_pow2_adds(a, b);
    lemma_fundamental_div_mod(x as int, pow2(a) as int);
    // x * 2^b == (x/2^a) * 2^(a+b) + (x % 2^a) * 2^b
    assert(x * pow2(b) == (x / pow2(a)) * pow2(a + b) + (x % pow2(a)) * pow2(b)) by {
        assert(x == pow2(a) * (x / pow2(a)) + x % pow2(a));
        lemma_mul_is_distributive_add_other_way(
            pow2(b) as int,
            (pow2(a) * (x / pow2(a))) as int,
            (x % pow2(a)) as int,
        );
        assert((pow2(a) * (x / pow2(a))) * pow2(b) == (x / pow2(a)) * (pow2(a) * pow2(b))) by {
            lemma_mul_is_commutative(pow2(a) as int, (x / pow2(a)) as int);
            lemma_mul_is_associative((x / pow2(a)) as int, pow2(a) as int, pow2(b) as int);
        }
    }
    assert((x % pow2(a)) * pow2(b) < pow2(a + b)) by {
        lemma_mod_bound(x as int, pow2(a) as int);
        assert((x % pow2(a)) * pow2(b) <= (pow2(a) - 1) * pow2(b)) by {
            lemma_mul_inequality((x % pow2(a)) as int, pow2(a) as int - 1, pow2(b) as int);
        }
        assert((pow2(a) - 1) * pow2(b) == pow2(a) * pow2(b) - pow2(b)) by {
            lemma_mul_is_distributive_sub_other_way(pow2(b) as int, pow2(a) as int, 1);
            lemma_mul_basics(pow2(b) as int);
        }
    }
    lemma_pow2_pos(a + b);
    lemma_fundamental_div_mod_converse(
        (x * pow2(b)) as int,
        pow2(a + b) as int,
        (x / pow2(a)) as int,
        ((x % pow2(a)) * pow2(b)) as int,
    );
}

proof fn lemma_mod_of_one(x: nat)
    ensures
        x % 1nat == 0,
{
    lemma_fundamental_div_mod_converse(x as int, 1, x as int, 0);
}
} // verus!
