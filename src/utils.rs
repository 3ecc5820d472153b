//! Bit decomposition, arithmetic sharing of leaves, and the AES-MMO generator.
use aes::cipher::generic_array::GenericArray;
use aes::{BlockEncrypt, NewBlockCipher};
use vstd::prelude::*;

use crate::stream::{ExpandFn, Prg};

verus! {

/// The residue of `v` modulo 2^32.
pub open spec fn wrap(v: int) -> u32 {
    (v % 0x1_0000_0000) as u32
}

/// `b - a + share_bit`, negated when `flip_bit` is 1, modulo 2^32.
pub open spec fn spec_share_leaf(mask_a: u32, mask_b: u32, share_bit: u8, flip_bit: u8) -> u32 {
    let r = mask_b - mask_a + share_bit;
    if flip_bit == 1 {
        wrap(-r)
    } else {
        wrap(r)
    }
}

/// `mask + leaf` when `tau` is 1 (else `mask`), negated when `flip_bit` is 1, modulo 2^32.
pub open spec fn spec_compute_out(mask: u32, leaf: u32, tau: u8, flip_bit: u8) -> u32 {
    let v = if tau == 1 {
        mask + leaf
    } else {
        mask as int
    };
    if flip_bit == 1 {
        wrap(-v)
    } else {
        wrap(v)
    }
}

/// Bit `sh` of `x`, counting from the least significant bit.
pub open spec fn bit_at(x: u32, sh: u32) -> u8 {
    ((x >> sh) & 1u32) as u8
}

/// Bit `i` of `x`, counting from the most significant bit (`i` in `0..32`).
pub open spec fn bit_of(x: u32, i: int) -> u8 {
    bit_at(x, (31 - i) as u32)
}

/// `x` and `y` agree on their `i` most significant bits (`i` in `0..=32`).
pub open spec fn prefix_eq(x: u32, y: u32, i: int) -> bool {
    (x >> ((32 - i) as u32)) == (y >> ((32 - i) as u32))
}

proof fn lemma_bit_at(x: u32, sh: u32)
    by (bit_vector)
    ensures
        bit_at(x, sh) <= 1,
{
}

proof fn lemma_prefix_step_bv(x: u32, y: u32, sh: u32, sh1: u32)
    by (bit_vector)
    requires
        1 <= sh <= 32,
        sh1 == sh - 1,
    ensures
        (x >> sh1) == (y >> sh1) <==> ((x >> sh) == (y >> sh) && bit_at(x, sh1) == bit_at(y, sh1)),
        ((x >> sh) == (y >> sh) && bit_at(x, sh1) != bit_at(y, sh1)) ==> (x < y <==> bit_at(y, sh1)
            == 1),
{
}

proof fn lemma_prefix_ends_bv(x: u32, y: u32)
    by (bit_vector)
    ensures
        (x >> 32u32) == (y >> 32u32),
        (x >> 0u32) == (y >> 0u32) <==> x == y,
{
}

/// Facts on the bits of `x` and `y` at level `i` of the tree (`i` in `0..32`):
/// each is 0 or 1; the prefixes of length `i + 1` agree exactly when those of
/// length `i` agree and so do the bits at `i`; and where the prefixes of length
/// `i` agree and the bits at `i` differ, `x < y` exactly when `y`'s bit is 1.
pub proof fn lemma_prefix_step(x: u32, y: u32, i: int)
    requires
        0 <= i < 32,
    ensures
        bit_of(x, i) <= 1,
        bit_of(y, i) <= 1,
        prefix_eq(x, y, i + 1) <==> (prefix_eq(x, y, i) && bit_of(x, i) == bit_of(y, i)),
        (prefix_eq(x, y, i) && bit_of(x, i) != bit_of(y, i)) ==> (x < y <==> bit_of(y, i) == 1),
{
    let sh = (32 - i) as u32;
    let sh1 = (31 - i) as u32;
    assert((32 - (i + 1)) as u32 == sh1);
    lemma_bit_at(x, sh1);
    lemma_bit_at(y, sh1);
    lemma_prefix_step_bv(x, y, sh, sh1);
}

/// Every pair agrees on the empty prefix, and agrees on all 32 bits exactly when equal.
pub proof fn lemma_prefix_ends(x: u32, y: u32)
    ensures
        prefix_eq(x, y, 0),
        prefix_eq(x, y, 32) <==> x == y,
{
    lemma_prefix_ends_bv(x, y);
}

/// Where two parties hold the same mask and control bit, their output shares cancel.
pub proof fn lemma_out_cancels(mask: u32, leaf: u32, tau: u8)
    ensures
        wrap(spec_compute_out(mask, leaf, tau, 0) + spec_compute_out(mask, leaf, tau, 1)) == 0,
{
}

/// Where the control bits of the two parties are distinct bits and the leaf
/// shares `share_bit` between their masks, their output shares sum to `share_bit`.
pub proof fn lemma_out_shares(mask_a: u32, mask_b: u32, t_a: u8, t_b: u8, share_bit: u8)
    requires
        t_a <= 1,
        t_b <= 1,
        t_a != t_b,
        share_bit <= 1,
    ensures
        ({
            let leaf = spec_share_leaf(mask_a, mask_b, share_bit, t_b);
            wrap(spec_compute_out(mask_a, leaf, t_a, 0) + spec_compute_out(mask_b, leaf, t_b, 1))
                == share_bit
        }),
{
    let m: int = 0x1_0000_0000;
    let r = mask_b - mask_a + share_bit;
    let leaf = spec_share_leaf(mask_a, mask_b, share_bit, t_b);
    let out_a = spec_compute_out(mask_a, leaf, t_a, 0);
    let out_b = spec_compute_out(mask_b, leaf, t_b, 1);
    if t_b == 1 {
        lemma_wrap_quotient(-r);
        let q1 = (-r) / m;
        assert(leaf == -r - m * q1);
        lemma_wrap_quotient(-(mask_b + leaf));
        let q2 = (-(mask_b + leaf)) / m;
        assert(out_a == mask_a);
        assert(out_b == -(mask_b + leaf) - m * q2);
        assert(out_a + out_b == share_bit + m * (q1 - q2)) by (nonlinear_arith)
            requires
                out_a == mask_a,
                out_b == -(mask_b + leaf) - m * q2,
                leaf == -r - m * q1,
                r == mask_b - mask_a + share_bit,
        ;
        lemma_wrap_shift(share_bit as int, q1 - q2);
    } else {
        lemma_wrap_quotient(r);
        let q1 = r / m;
        assert(leaf == r - m * q1);
        lemma_wrap_quotient(mask_a + leaf);
        let q2 = (mask_a + leaf) / m;
        lemma_wrap_quotient(-(mask_b as int));
        let q3 = (-(mask_b as int)) / m;
        assert(out_a == mask_a + leaf - m * q2);
        assert(out_b == -(mask_b as int) - m * q3);
        assert(out_a + out_b == share_bit + m * (-q1 - q2 - q3)) by (nonlinear_arith)
            requires
                out_a == mask_a + leaf - m * q2,
                out_b == -(mask_b as int) - m * q3,
                leaf == r - m * q1,
                r == mask_b - mask_a + share_bit,
        ;
        lemma_wrap_shift(share_bit as int, -q1 - q2 - q3);
    }
}

/// Adding two shares of two sums is adding the two sums.
pub proof fn lemma_wrap_sum(oa: u32, ob: u32, ca: u32, cb: u32)
    ensures
        wrap(wrap(oa + ca) + wrap(ob + cb)) == wrap(wrap(oa + ob) + wrap(ca + cb)),
{
    let m: int = 0x1_0000_0000;
    lemma_wrap_quotient(oa + ca);
    lemma_wrap_quotient(ob + cb);
    lemma_wrap_quotient(oa + ob);
    lemma_wrap_quotient(ca + cb);
    let q1 = (oa + ca) / m;
    let q2 = (ob + cb) / m;
    let q3 = (oa + ob) / m;
    let q4 = (ca + cb) / m;
    let v = oa + ob + ca + cb;
    assert(wrap(oa + ca) + wrap(ob + cb) == v + m * (-q1 - q2)) by (nonlinear_arith)
        requires
            wrap(oa + ca) == oa + ca - m * q1,
            wrap(ob + cb) == ob + cb - m * q2,
            v == oa + ob + ca + cb,
    ;
    assert(wrap(oa + ob) + wrap(ca + cb) == v + m * (-q3 - q4)) by (nonlinear_arith)
        requires
            wrap(oa + ob) == oa + ob - m * q3,
            wrap(ca + cb) == ca + cb - m * q4,
            v == oa + ob + ca + cb,
    ;
    lemma_wrap_shift(v, -q1 - q2);
    lemma_wrap_shift(v, -q3 - q4);
}

proof fn lemma_wrap_quotient(v: int)
    ensures
        wrap(v) == v - 0x1_0000_0000 * (v / 0x1_0000_0000),
{
    vstd::arithmetic::div_mod::lemma_fundamental_div_mod(v, 0x1_0000_0000);
}

proof fn lemma_wrap_shift(v: int, k: int)
    ensures
        wrap(v + 0x1_0000_0000 * k) == wrap(v),
{
    vstd::arithmetic::div_mod::lemma_mod_multiples_vanish(k, v, 0x1_0000_0000);
}

/// `wrapping_add` is addition modulo 2^32.
pub proof fn lemma_wrap_add(a: u32, b: u32)
    ensures
        wrap(a + b) == vstd::wrapping::u32_specs::wrapping_add(a, b),
{
}

proof fn lemma_wrap_sub_add(a: u32, b: u32)
    ensures
        wrap(b - a) == vstd::wrapping::u32_specs::wrapping_sub(b, a),
        wrap(a + b) == vstd::wrapping::u32_specs::wrapping_add(a, b),
        wrap(-(a as int)) == vstd::wrapping::u32_specs::wrapping_sub(0, a),
{
}

/// Shares `mask_b - mask_a + share_bit` modulo 2^32, negated when `flip_bit` is 1.
pub fn share_leaf(mask_a: u32, mask_b: u32, share_bit: u8, flip_bit: u8) -> (r: u32)
    ensures
        r == spec_share_leaf(mask_a, mask_b, share_bit, flip_bit),
{
    let mut leaf = mask_b.wrapping_sub(mask_a).wrapping_add(share_bit as u32);
    proof {
        let d = vstd::wrapping::u32_specs::wrapping_sub(mask_b, mask_a);
        lemma_wrap_sub_add(mask_a, mask_b);
        lemma_wrap_sub_add(d, share_bit as u32);
        assert(leaf == wrap(mask_b - mask_a + share_bit));
    }
    if flip_bit == 1 {
        proof {
            lemma_wrap_sub_add(leaf, 0);
        }
        leaf = 0u32.wrapping_sub(leaf);
    }
    leaf
}

/// The output share of a party: `mask`, plus `leaf` when `tau` is 1, negated
/// modulo 2^32 when `flip_bit` is 1.
pub fn compute_out(mask: u32, leaf: u32, tau: u8, flip_bit: u8) -> (r: u32)
    ensures
        r == spec_compute_out(mask, leaf, tau, flip_bit),
{
    proof {
        lemma_wrap_sub_add(mask, leaf);
    }
    let mut out: u32 = match tau {
        1 => leaf.wrapping_add(mask),
        _ => mask,
    };
    if flip_bit == 1 {
        proof {
            lemma_wrap_sub_add(out, 0);
        }
        out = 0u32.wrapping_sub(out);
    }
    out
}

/// The 32 bits of `alpha`, most significant first, one per byte.
pub fn bit_decomposition_u32(alpha: u32) -> (r: Vec<u8>)
    ensures
        r@.len() == 32,
        forall|i: int| 0 <= i < 32 ==> #[trigger] r@[i] == bit_of(alpha, i),
{
    let mut alpha_bits: Vec<u8> = Vec::new();
    let mut j: u32 = 32;
    while j > 0
        invariant
            j <= 32,
            alpha_bits@.len() == 32 - j,
            forall|i: int| 0 <= i < 32 - j ==> #[trigger] alpha_bits@[i] == bit_of(alpha, i),
        decreases j,
    {
        j = j - 1;
        alpha_bits.push(((alpha >> j) & 1u32) as u8);
    }
    alpha_bits
}

/// Relies on rand::random (drawn from the thread-local generator): nothing is
/// known of the value it returns.
pub assume_specification<T>[ rand::random::<T> ]() -> (r: T)
    where
        rand::distributions::Standard: rand::distributions::Distribution<T>,
;

/// What AES-128 makes of `block` under `key`, each read as 16 little-endian bytes,
/// with the ciphertext read back the same way.
pub uninterp spec fn aes128_encrypt(key: u128, block: u128) -> u128;

/// Relies on aes::Aes128 (`NewBlockCipher::new`, `BlockEncrypt::encrypt_block`):
/// one AES-128 encryption of one block, which depends on the key and the block alone.
#[verifier::external_body]
fn aes128_encrypt_block(key: u128, block: u128) -> (r: u128)
    ensures
        r == aes128_encrypt(key, block),
{
    let cipher = aes::Aes128::new(GenericArray::from_slice(&key.to_le_bytes()));
    let mut b = GenericArray::clone_from_slice(&block.to_le_bytes());
    cipher.encrypt_block(&mut b);
    let mut out = [0u8; 16];
    out.copy_from_slice(&b);
    u128::from_le_bytes(out)
}

/// Matyas-Meyer-Oseas output block for one subkey: `E_key(seed) XOR seed`.
pub open spec fn mmo_block(key: u128, seed: u128) -> u128 {
    aes128_encrypt(key, seed) ^ seed
}

/// The generator for the subkeys `keys`: one MMO block per subkey.
pub open spec fn mmo_expand(keys: Seq<u128>) -> ExpandFn {
    |seed: u128| Seq::new(keys.len(), |i: int| mmo_block(keys[i], seed))
}

/// Keyed length-expanding generator: one AES-128 subkey per output block.
/// The subkeys are held as integers; each block is one encryption under its subkey.
pub struct Mmo {
    pub keys: Vec<u128>,
}

impl Prg for Mmo {
    open spec fn spec_subkeys(&self) -> Seq<u128> {
        self.keys@
    }

    open spec fn spec_expand(&self) -> ExpandFn {
        mmo_expand(self.keys@)
    }

    fn from_slice(aes_keys: &[u128]) -> (r: Mmo) {
        let mut keys: Vec<u128> = Vec::new();
        let mut i: usize = 0;
        while i < aes_keys.len()
            invariant
                i <= aes_keys@.len(),
                keys@ == aes_keys@.subrange(0, i as int),
            decreases aes_keys@.len() - i,
        {
            keys.push(aes_keys[i]);
            i = i + 1;
        }
        assert(keys@ == aes_keys@);
        Mmo { keys }
    }

    fn from_vec(aes_keys: &Vec<u128>) -> (r: Mmo) {
        Mmo::from_slice(aes_keys.as_slice())
    }

    fn expand(&mut self, seed: u128) -> (r: Vec<u128>) {
        let mut output: Vec<u128> = Vec::new();
        let mut i: usize = 0;
        while i < self.keys.len()
            invariant
                i <= self.keys@.len(),
                output@ == self.spec_expand()(seed).subrange(0, i as int),
            decreases self.keys@.len() - i,
        {
            let block = aes128_encrypt_block(self.keys[i], seed);
            output.push(block ^ seed);
            i = i + 1;
        }
        assert(output@ == self.spec_expand()(seed));
        output
    }
}

/// The four little-endian bytes of `x`.
pub open spec fn le_bytes_u32(x: u32) -> Seq<u8> {
    seq![x as u8, (x >> 8u32) as u8, (x >> 16u32) as u8, (x >> 24u32) as u8]
}

/// The integer whose little-endian bytes are the first four of `b`.
pub open spec fn le_u32_of(b: Seq<u8>) -> u32 {
    (b[0] as u32) | ((b[1] as u32) << 8u32) | ((b[2] as u32) << 16u32) | ((b[3] as u32) << 24u32)
}

/// The sixteen little-endian bytes of `x`.
pub open spec fn le_bytes_u128(x: u128) -> Seq<u8> {
    Seq::new(16, |k: int| (x >> ((8 * k) as u32)) as u8)
}

/// The integer whose little-endian bytes are the first sixteen of `b`.
pub open spec fn le_u128_of(b: Seq<u8>) -> u128 {
    ((b[0] as u128) << 0u32) | ((b[1] as u128) << 8u32) | ((b[2] as u128) << 16u32) | ((b[3] as u128) << 24u32) | ((b[4] as u128) << 32u32) | ((b[5] as u128) << 40u32) | ((b[6] as u128) << 48u32) | ((b[7] as u128) << 56u32) | ((b[8] as u128) << 64u32) | ((b[9] as u128) << 72u32) | ((b[10] as u128) << 80u32) | ((b[11] as u128) << 88u32) | ((b[12] as u128) << 96u32) | ((b[13] as u128) << 104u32) | ((b[14] as u128) << 112u32) | ((b[15] as u128) << 120u32)
}

proof fn lemma_le_u32_bv(x: u32, b0: u8, b1: u8, b2: u8, b3: u8)
    by (bit_vector)
    requires
        b0 == x as u8,
        b1 == (x >> 8u32) as u8,
        b2 == (x >> 16u32) as u8,
        b3 == (x >> 24u32) as u8,
    ensures
        (b0 as u32) | ((b1 as u32) << 8u32) | ((b2 as u32) << 16u32) | ((b3 as u32) << 24u32) == x,
{
}

/// Reading back the little-endian bytes of a 32-bit integer gives it again.
pub proof fn lemma_le_u32_round_trip(x: u32)
    ensures
        le_bytes_u32(x).len() == 4,
        le_u32_of(le_bytes_u32(x)) == x,
{
    let b = le_bytes_u32(x);
    lemma_le_u32_bv(x, b[0], b[1], b[2], b[3]);
}

proof fn lemma_le_u128_bv(x: u128, b: Seq<u8>)
    requires
        b.len() == 16,
        forall|k: int| 0 <= k < 16 ==> #[trigger] b[k] == (x >> ((8 * k) as u32)) as u8,
    ensures
        le_u128_of(b) == x,
{
    let b0 = b[0];
    assert(b0 == (x >> 0u32) as u8);
    let b1 = b[1];
    assert(b1 == (x >> 8u32) as u8);
    let b2 = b[2];
    assert(b2 == (x >> 16u32) as u8);
    let b3 = b[3];
    assert(b3 == (x >> 24u32) as u8);
    let b4 = b[4];
    assert(b4 == (x >> 32u32) as u8);
    let b5 = b[5];
    assert(b5 == (x >> 40u32) as u8);
    let b6 = b[6];
    assert(b6 == (x >> 48u32) as u8);
    let b7 = b[7];
    assert(b7 == (x >> 56u32) as u8);
    let b8 = b[8];
    assert(b8 == (x >> 64u32) as u8);
    let b9 = b[9];
    assert(b9 == (x >> 72u32) as u8);
    let b10 = b[10];
    assert(b10 == (x >> 80u32) as u8);
    let b11 = b[11];
    assert(b11 == (x >> 88u32) as u8);
    let b12 = b[12];
    assert(b12 == (x >> 96u32) as u8);
    let b13 = b[13];
    assert(b13 == (x >> 104u32) as u8);
    let b14 = b[14];
    assert(b14 == (x >> 112u32) as u8);
    let b15 = b[15];
    assert(b15 == (x >> 120u32) as u8);
    assert(((b0 as u128) << 0u32) | ((b1 as u128) << 8u32) | ((b2 as u128) << 16u32) | ((b3 as u128) << 24u32) | ((b4 as u128) << 32u32) | ((b5 as u128) << 40u32) | ((b6 as u128) << 48u32) | ((b7 as u128) << 56u32) | ((b8 as u128) << 64u32) | ((b9 as u128) << 72u32) | ((b10 as u128) << 80u32) | ((b11 as u128) << 88u32) | ((b12 as u128) << 96u32) | ((b13 as u128) << 104u32) | ((b14 as u128) << 112u32) | ((b15 as u128) << 120u32) == x) by (bit_vector)
        requires
            b0 == (x >> 0u32) as u8,
            b1 == (x >> 8u32) as u8,
            b2 == (x >> 16u32) as u8,
            b3 == (x >> 24u32) as u8,
            b4 == (x >> 32u32) as u8,
            b5 == (x >> 40u32) as u8,
            b6 == (x >> 48u32) as u8,
            b7 == (x >> 56u32) as u8,
            b8 == (x >> 64u32) as u8,
            b9 == (x >> 72u32) as u8,
            b10 == (x >> 80u32) as u8,
            b11 == (x >> 88u32) as u8,
            b12 == (x >> 96u32) as u8,
            b13 == (x >> 104u32) as u8,
            b14 == (x >> 112u32) as u8,
            b15 == (x >> 120u32) as u8,
    ;
}

/// Reading back the little-endian bytes of a 128-bit integer gives it again.
pub proof fn lemma_le_u128_round_trip(x: u128)
    ensures
        le_bytes_u128(x).len() == 16,
        le_u128_of(le_bytes_u128(x)) == x,
{
    lemma_le_u128_bv(x, le_bytes_u128(x));
}

/// Writes the little-endian bytes of `x` at `at`; the other bytes stay.
pub fn put_u32(buf: &mut [u8], at: usize, x: u32)
    requires
        at + 4 <= old(buf)@.len(),
    ensures
        final(buf)@.len() == old(buf)@.len(),
        final(buf)@.subrange(at as int, at + 4) == le_bytes_u32(x),
        forall|j: int|
            0 <= j < old(buf)@.len() && !(at <= j < at + 4) ==> #[trigger] final(buf)@[j] == old(
                buf,
            )@[j],
{
    buf[at] = x as u8;
    buf[at + 1] = (x >> 8u32) as u8;
    buf[at + 2] = (x >> 16u32) as u8;
    buf[at + 3] = (x >> 24u32) as u8;
    assert(buf@.subrange(at as int, at + 4) =~= le_bytes_u32(x));
}

/// Writes the little-endian bytes of `x` at `at`; the other bytes stay.
pub fn put_u128(buf: &mut [u8], at: usize, x: u128)
    requires
        at + 16 <= old(buf)@.len(),
    ensures
        final(buf)@.len() == old(buf)@.len(),
        final(buf)@.subrange(at as int, at + 16) == le_bytes_u128(x),
        forall|j: int|
            0 <= j < old(buf)@.len() && !(at <= j < at + 16) ==> #[trigger] final(buf)@[j] == old(
                buf,
            )@[j],
{
    let ghost b0 = buf@;
    let n = buf.len();
    let mut k: usize = 0;
    while k < 16
        invariant
            k <= 16,
            at + 16 <= b0.len(),
            n == b0.len(),
            buf@.len() == b0.len(),
            forall|m: int| 0 <= m < k ==> #[trigger] buf@[at + m] == (x >> ((8 * m) as u32)) as u8,
            forall|j: int| 0 <= j < b0.len() && !(at <= j < at + k) ==> #[trigger] buf@[j] == b0[j],
        decreases 16 - k,
    {
        buf[at + k] = (x >> ((8 * k) as u32)) as u8;
        k = k + 1;
    }
    assert forall|m: int| 0 <= m < 16 implies #[trigger] buf@.subrange(at as int, at + 16)[m]
        == le_bytes_u128(x)[m] by {
        assert(buf@[at + m] == (x >> ((8 * m) as u32)) as u8);
    }
    assert(buf@.subrange(at as int, at + 16) =~= le_bytes_u128(x));
}

/// Reads a little-endian 32-bit integer at `at`.
pub fn get_u32(buf: &[u8], at: usize) -> (r: u32)
    requires
        at + 4 <= buf@.len(),
    ensures
        r == le_u32_of(buf@.subrange(at as int, at + 4)),
{
    (buf[at] as u32) | ((buf[at + 1] as u32) << 8u32) | ((buf[at + 2] as u32) << 16u32) | ((buf[at
        + 3] as u32) << 24u32)
}

/// Reads a little-endian 128-bit integer at `at`.
pub fn get_u128(buf: &[u8], at: usize) -> (r: u128)
    requires
        at + 16 <= buf@.len(),
    ensures
        r == le_u128_of(buf@.subrange(at as int, at + 16)),
{
    ((buf[at] as u128) << 0u32) | ((buf[at + 1] as u128) << 8u32) | ((buf[at + 2] as u128) << 16u32) | ((buf[at + 3] as u128) << 24u32) | ((buf[at + 4] as u128) << 32u32) | ((buf[at + 5] as u128) << 40u32) | ((buf[at + 6] as u128) << 48u32) | ((buf[at + 7] as u128) << 56u32) | ((buf[at + 8] as u128) << 64u32) | ((buf[at + 9] as u128) << 72u32) | ((buf[at + 10] as u128) << 80u32) | ((buf[at + 11] as u128) << 88u32) | ((buf[at + 12] as u128) << 96u32) | ((buf[at + 13] as u128) << 104u32) | ((buf[at + 14] as u128) << 112u32) | ((buf[at + 15] as u128) << 120u32)
}

} // verus!
