//!
//! Distributed interval functions: correction words and tree evaluation.
//!
use vstd::prelude::*;

use crate::stream::{ExpandFn, Prg};
use crate::utils::{
    bit_decomposition_u32, bit_of, compute_out, lemma_out_cancels, lemma_out_shares,
    lemma_prefix_ends, lemma_prefix_step, lemma_wrap_add, lemma_wrap_sum, prefix_eq, share_leaf,
    spec_compute_out, spec_share_leaf, wrap,
};

verus! {

/// A level's correction, or the expansion of a seed: a seed `s`, a control
/// bit `t`, a value `z` and a value bit `u` for each child.
#[derive(Debug, Copy, Clone, PartialEq)]
pub struct CorrectionWord {
    pub z_l: u32,
    pub u_l: u8,
    pub s_l: u128,
    pub t_l: u8,
    pub z_r: u32,
    pub u_r: u8,
    pub s_r: u128,
    pub t_r: u8,
}

/// A level's correction as keys hold it: one value and one seed for both children.
#[derive(Debug, Copy, Clone, PartialEq)]
pub struct CompressedCorrectionWord {
    pub u_l: u8,
    pub t_l: u8,
    pub u_r: u8,
    pub t_r: u8,
    pub z: u32,
    pub s: u128,
}

/// The state of both parties at one level of key generation: `(s_a, t_a, s_b, t_b)`.
pub type GenState = (u128, u8, u128, u8);

/// The expansion of `seed`: two seeds from the first two blocks, two values
/// from the low 64 bits of the third, and four bits from its bits 64 to 67.
pub open spec fn spec_h(prg: ExpandFn, seed: u128) -> CorrectionWord {
    let out = prg(seed);
    CorrectionWord {
        s_l: out[0],
        s_r: out[1],
        z_l: out[2] as u32,
        z_r: (out[2] >> 32u32) as u32,
        t_l: ((out[2] >> 64u32) as u8) & 1u8,
        u_l: ((out[2] >> 65u32) as u8) & 1u8,
        t_r: ((out[2] >> 66u32) as u8) & 1u8,
        u_r: ((out[2] >> 67u32) as u8) & 1u8,
    }
}

/// Field-wise exclusive or of two words.
pub open spec fn spec_xor2(u: CorrectionWord, v: CorrectionWord) -> CorrectionWord {
    CorrectionWord {
        s_l: u.s_l ^ v.s_l,
        t_l: u.t_l ^ v.t_l,
        s_r: u.s_r ^ v.s_r,
        t_r: u.t_r ^ v.t_r,
        z_l: u.z_l ^ v.z_l,
        u_l: u.u_l ^ v.u_l,
        z_r: u.z_r ^ v.z_r,
        u_r: u.u_r ^ v.u_r,
    }
}

/// Field-wise exclusive or of three words.
pub open spec fn spec_xor3(u: CorrectionWord, v: CorrectionWord, w: CorrectionWord) -> CorrectionWord {
    CorrectionWord {
        s_l: u.s_l ^ v.s_l ^ w.s_l,
        t_l: u.t_l ^ v.t_l ^ w.t_l,
        s_r: u.s_r ^ v.s_r ^ w.s_r,
        t_r: u.t_r ^ v.t_r ^ w.t_r,
        z_l: u.z_l ^ v.z_l ^ w.z_l,
        u_l: u.u_l ^ v.u_l ^ w.u_l,
        z_r: u.z_r ^ v.z_r ^ w.z_r,
        u_r: u.u_r ^ v.u_r ^ w.u_r,
    }
}

/// Keeps the value of the branch `alpha_i` selects and the seed of the other.
pub open spec fn spec_compress(w: CorrectionWord, alpha_i: u8) -> CompressedCorrectionWord {
    CompressedCorrectionWord {
        z: if alpha_i == 1 {
            w.z_r
        } else {
            w.z_l
        },
        s: if alpha_i == 1 {
            w.s_l
        } else {
            w.s_r
        },
        t_l: w.t_l,
        u_l: w.u_l,
        t_r: w.t_r,
        u_r: w.u_r,
    }
}

/// Uses the one value and the one seed for both children.
pub open spec fn spec_decompress(w: CompressedCorrectionWord) -> CorrectionWord {
    CorrectionWord {
        z_l: w.z,
        s_l: w.s,
        z_r: w.z,
        s_r: w.s,
        t_l: w.t_l,
        u_l: w.u_l,
        t_r: w.t_r,
        u_r: w.u_r,
    }
}

/// The correction of a level before the two expansions are mixed in, for the bit `b`.
pub open spec fn dif_template(wa: CorrectionWord, wb: CorrectionWord, b: u8) -> CorrectionWord {
    if b == 1 {
        CorrectionWord {
            z_l: wa.z_l ^ wb.z_l,
            u_l: 1,
            s_l: 0,
            t_l: 0,
            z_r: 0,
            u_r: 0,
            s_r: wa.s_l ^ wb.s_l,
            t_r: 1,
        }
    } else {
        CorrectionWord {
            z_l: 0,
            u_l: 0,
            s_l: wa.s_r ^ wb.s_r,
            t_l: 1,
            z_r: wa.z_r ^ wb.z_r,
            u_r: 1,
            s_r: 0,
            t_r: 0,
        }
    }
}

/// The correction word of a level for the states `st` and the bit `b`.
pub open spec fn dif_level_cw(prg: ExpandFn, st: GenState, b: u8) -> CompressedCorrectionWord {
    let wa = spec_h(prg, st.0);
    let wb = spec_h(prg, st.2);
    spec_compress(spec_xor3(dif_template(wa, wb, b), wa, wb), b)
}

/// The expansion of a seed, corrected by `cw` when the control bit `t` is set.
pub open spec fn dif_corrected(prg: ExpandFn, s: u128, t: u8, cw: CompressedCorrectionWord) -> CorrectionWord {
    let w = spec_h(prg, s);
    if t == 0 {
        w
    } else {
        spec_xor2(w, spec_decompress(cw))
    }
}

/// The states of the next level, along the branch that `b` keeps.
pub open spec fn dif_gen_step(prg: ExpandFn, st: GenState, b: u8) -> GenState {
    let cw = dif_level_cw(prg, st, b);
    let na = dif_corrected(prg, st.0, st.1, cw);
    let nb = dif_corrected(prg, st.2, st.3, cw);
    if b == 0 {
        (na.s_l, na.t_l, nb.s_l, nb.t_l)
    } else {
        (na.s_r, na.t_r, nb.s_r, nb.t_r)
    }
}

/// The leaf correction of a level: shares `b` between the values of the branch
/// that `b` does not keep.
pub open spec fn dif_level_leaf(prg: ExpandFn, st: GenState, b: u8) -> u32 {
    let cw = dif_level_cw(prg, st, b);
    let na = dif_corrected(prg, st.0, st.1, cw);
    let nb = dif_corrected(prg, st.2, st.3, cw);
    if b == 0 {
        spec_share_leaf(na.z_r, nb.z_r, b, nb.u_r)
    } else {
        spec_share_leaf(na.z_l, nb.z_l, b, nb.u_l)
    }
}

/// The states after `i` levels of key generation.
pub open spec fn dif_gen_state(prg: ExpandFn, alpha: u32, s_a: u128, s_b: u128, i: nat) -> GenState
    decreases i,
{
    if i == 0 {
        (s_a, 0u8, s_b, 1u8)
    } else {
        dif_gen_step(prg, dif_gen_state(prg, alpha, s_a, s_b, (i - 1) as nat), bit_of(alpha, i - 1))
    }
}

/// The correction word of level `i`.
pub open spec fn dif_cw_at(prg: ExpandFn, alpha: u32, s_a: u128, s_b: u128, i: int) -> CompressedCorrectionWord {
    dif_level_cw(prg, dif_gen_state(prg, alpha, s_a, s_b, i as nat), bit_of(alpha, i))
}

/// The leaf correction of level `i`; the one of index 32 shares 1 between the
/// low 32 bits of the final seeds.
pub open spec fn dif_leaf_at(prg: ExpandFn, alpha: u32, s_a: u128, s_b: u128, i: int) -> u32 {
    if i < 32 {
        dif_level_leaf(prg, dif_gen_state(prg, alpha, s_a, s_b, i as nat), bit_of(alpha, i))
    } else {
        let st = dif_gen_state(prg, alpha, s_a, s_b, 32);
        spec_share_leaf(st.0 as u32, st.2 as u32, 1, st.3)
    }
}

/// The correction words `cw` and leaves `cw_leaf` are those that key generation
/// derives from `alpha` and the root seeds `s_a`, `s_b`.
pub open spec fn dif_corrections(
    prg: ExpandFn,
    alpha: u32,
    s_a: u128,
    s_b: u128,
    cw: Seq<CompressedCorrectionWord>,
    cw_leaf: Seq<u32>,
) -> bool {
    &&& cw.len() == 32
    &&& cw_leaf.len() == 33
    &&& forall|i: int| 0 <= i < 32 ==> #[trigger] cw[i] == dif_cw_at(prg, alpha, s_a, s_b, i)
    &&& forall|i: int| 0 <= i < 33 ==> #[trigger] cw_leaf[i] == dif_leaf_at(prg, alpha, s_a, s_b, i)
}

/// The word a party reads at a level: its expansion, corrected when `t` is 1.
pub open spec fn dif_eval_word(prg: ExpandFn, s: u128, t: u8, cw: CompressedCorrectionWord) -> CorrectionWord {
    let w = spec_h(prg, s);
    if t == 1 {
        spec_xor2(w, spec_decompress(cw))
    } else {
        w
    }
}

/// Seed, control bit and running output of a party after `i` levels on `x`.
pub open spec fn dif_eval_state(
    prg: ExpandFn,
    s: u128,
    cw: Seq<CompressedCorrectionWord>,
    cw_leaf: Seq<u32>,
    party_id: u8,
    x: u32,
    i: nat,
) -> (u128, u8, u32)
    decreases i,
{
    if i == 0 {
        (s, party_id, 0u32)
    } else {
        let p = dif_eval_state(prg, s, cw, cw_leaf, party_id, x, (i - 1) as nat);
        let w = dif_eval_word(prg, p.0, p.1, cw[i - 1]);
        if bit_of(x, i - 1) == 0 {
            (w.s_l, w.t_l, wrap(p.2 + spec_compute_out(w.z_l, cw_leaf[i - 1], w.u_l, party_id)))
        } else {
            (w.s_r, w.t_r, wrap(p.2 + spec_compute_out(w.z_r, cw_leaf[i - 1], w.u_r, party_id)))
        }
    }
}

/// The output share of a party on `x`.
pub open spec fn dif_eval(
    prg: ExpandFn,
    s: u128,
    cw: Seq<CompressedCorrectionWord>,
    cw_leaf: Seq<u32>,
    party_id: u8,
    x: u32,
) -> u32 {
    let st = dif_eval_state(prg, s, cw, cw_leaf, party_id, x, 32);
    wrap(st.2 + spec_compute_out(st.0 as u32, cw_leaf[32], st.1, party_id))
}

proof fn lemma_h_bits_bv(v: u128)
    by (bit_vector)
    ensures
        ((v >> 64u32) as u8) & 1u8 <= 1,
        ((v >> 65u32) as u8) & 1u8 <= 1,
        ((v >> 66u32) as u8) & 1u8 <= 1,
        ((v >> 67u32) as u8) & 1u8 <= 1,
{
}

proof fn lemma_h_bits(prg: ExpandFn, seed: u128)
    ensures
        ({
            let w = spec_h(prg, seed);
            w.t_l <= 1 && w.u_l <= 1 && w.t_r <= 1 && w.u_r <= 1
        }),
{
    lemma_h_bits_bv(prg(seed)[2]);
}

proof fn lemma_field_u8(c0: u8, ka: u8, kb: u8, ta: u8, tb: u8)
    by (bit_vector)
    requires
        ta <= 1,
        tb <= 1,
        ta != tb,
    ensures
        c0 == 0 ==> (if ta == 0 {
            ka
        } else {
            ka ^ (c0 ^ ka ^ kb)
        }) == (if tb == 0 {
            kb
        } else {
            kb ^ (c0 ^ ka ^ kb)
        }),
        (c0 == 1 && ka <= 1 && kb <= 1) ==> ((if ta == 0 {
            ka
        } else {
            ka ^ (c0 ^ ka ^ kb)
        }) <= 1 && (if tb == 0 {
            kb
        } else {
            kb ^ (c0 ^ ka ^ kb)
        }) <= 1 && (if ta == 0 {
            ka
        } else {
            ka ^ (c0 ^ ka ^ kb)
        }) != (if tb == 0 {
            kb
        } else {
            kb ^ (c0 ^ ka ^ kb)
        })),
{
}

proof fn lemma_field_u32(ka: u32, kb: u32, ta: u8, tb: u8)
    by (bit_vector)
    requires
        ta <= 1,
        tb <= 1,
        ta != tb,
    ensures
        (if ta == 0 {
            ka
        } else {
            ka ^ (0u32 ^ ka ^ kb)
        }) == (if tb == 0 {
            kb
        } else {
            kb ^ (0u32 ^ ka ^ kb)
        }),
{
}

proof fn lemma_field_u128(ka: u128, kb: u128, ta: u8, tb: u8)
    by (bit_vector)
    requires
        ta <= 1,
        tb <= 1,
        ta != tb,
    ensures
        (if ta == 0 {
            ka
        } else {
            ka ^ (0u128 ^ ka ^ kb)
        }) == (if tb == 0 {
            kb
        } else {
            kb ^ (0u128 ^ ka ^ kb)
        }),
{
}

/// What one level of key generation does on states whose control bits are
/// distinct bits: on the kept branch the two parties get distinct control
/// bits and equal values and value bits; on the other branch equal seeds and
/// control bits, and value bits that are distinct bits.
proof fn lemma_level(prg: ExpandFn, st: GenState, b: u8)
    requires
        st.1 <= 1,
        st.3 <= 1,
        st.1 != st.3,
        b <= 1,
    ensures
        ({
            let cw = dif_level_cw(prg, st, b);
            let na = dif_corrected(prg, st.0, st.1, cw);
            let nb = dif_corrected(prg, st.2, st.3, cw);
            &&& na == dif_eval_word(prg, st.0, st.1, cw)
            &&& nb == dif_eval_word(prg, st.2, st.3, cw)
            &&& if b == 1 {
                &&& na.t_r <= 1 && nb.t_r <= 1 && na.t_r != nb.t_r
                &&& na.z_r == nb.z_r && na.u_r == nb.u_r
                &&& na.s_l == nb.s_l && na.t_l == nb.t_l
                &&& na.u_l <= 1 && nb.u_l <= 1 && na.u_l != nb.u_l
            } else {
                &&& na.t_l <= 1 && nb.t_l <= 1 && na.t_l != nb.t_l
                &&& na.z_l == nb.z_l && na.u_l == nb.u_l
                &&& na.s_r == nb.s_r && na.t_r == nb.t_r
                &&& na.u_r <= 1 && nb.u_r <= 1 && na.u_r != nb.u_r
            }
        }),
{
    let wa = spec_h(prg, st.0);
    let wb = spec_h(prg, st.2);
    lemma_h_bits(prg, st.0);
    lemma_h_bits(prg, st.2);
    let (ta, tb) = (st.1, st.3);
    if b == 1 {
        lemma_field_u8(1u8, wa.t_r, wb.t_r, ta, tb);
        lemma_field_u32(wa.z_r, wb.z_r, ta, tb);
        lemma_field_u8(0u8, wa.u_r, wb.u_r, ta, tb);
        lemma_field_u128(wa.s_l, wb.s_l, ta, tb);
        lemma_field_u8(0u8, wa.t_l, wb.t_l, ta, tb);
        lemma_field_u8(1u8, wa.u_l, wb.u_l, ta, tb);
    } else {
        lemma_field_u8(1u8, wa.t_l, wb.t_l, ta, tb);
        lemma_field_u32(wa.z_l, wb.z_l, ta, tb);
        lemma_field_u8(0u8, wa.u_l, wb.u_l, ta, tb);
        lemma_field_u128(wa.s_r, wb.s_r, ta, tb);
        lemma_field_u8(0u8, wa.t_r, wb.t_r, ta, tb);
        lemma_field_u8(1u8, wa.u_r, wb.u_r, ta, tb);
    }
}

/// Along key generation the two control bits are distinct bits.
proof fn lemma_gen_bits(prg: ExpandFn, alpha: u32, s_a: u128, s_b: u128, i: nat)
    requires
        i <= 32,
    ensures
        ({
            let st = dif_gen_state(prg, alpha, s_a, s_b, i);
            st.1 <= 1 && st.3 <= 1 && st.1 != st.3
        }),
    decreases i,
{
    if i > 0 {
        let j = (i - 1) as nat;
        lemma_gen_bits(prg, alpha, s_a, s_b, j);
        lemma_prefix_step(alpha, alpha, j as int);
        lemma_level(prg, dif_gen_state(prg, alpha, s_a, s_b, j), bit_of(alpha, j as int));
    }
}

/// The evaluation of both parties after `i` levels: on the secret point's path
/// they hold their key-generation states and outputs that cancel; off it they
/// hold the same state, and outputs that sum to 1 exactly when `x < alpha`.
#[verifier::rlimit(40)]
proof fn lemma_dif_path(
    prg: ExpandFn,
    alpha: u32,
    s_a: u128,
    s_b: u128,
    cw: Seq<CompressedCorrectionWord>,
    cw_leaf: Seq<u32>,
    x: u32,
    i: nat,
)
    requires
        i <= 32,
        dif_corrections(prg, alpha, s_a, s_b, cw, cw_leaf),
    ensures
        ({
            let ea = dif_eval_state(prg, s_a, cw, cw_leaf, 0, x, i);
            let eb = dif_eval_state(prg, s_b, cw, cw_leaf, 1, x, i);
            let st = dif_gen_state(prg, alpha, s_a, s_b, i);
            if prefix_eq(x, alpha, i as int) {
                ea.0 == st.0 && ea.1 == st.1 && eb.0 == st.2 && eb.1 == st.3 && wrap(ea.2 + eb.2)
                    == 0
            } else {
                ea.0 == eb.0 && ea.1 == eb.1 && wrap(ea.2 + eb.2) == if x < alpha {
                    1u32
                } else {
                    0u32
                }
            }
        }),
    decreases i,
{
    lemma_prefix_ends(x, alpha);
    if i > 0 {
        let j = (i - 1) as nat;
        lemma_dif_path(prg, alpha, s_a, s_b, cw, cw_leaf, x, j);
        lemma_prefix_step(x, alpha, j as int);
        let pa = dif_eval_state(prg, s_a, cw, cw_leaf, 0, x, j);
        let pb = dif_eval_state(prg, s_b, cw, cw_leaf, 1, x, j);
        let ea = dif_eval_state(prg, s_a, cw, cw_leaf, 0, x, i);
        let eb = dif_eval_state(prg, s_b, cw, cw_leaf, 1, x, i);
        let c = cw[j as int];
        let l = cw_leaf[j as int];
        let wa = dif_eval_word(prg, pa.0, pa.1, c);
        let wb = dif_eval_word(prg, pb.0, pb.1, c);
        let (za, ua, zb, ub) = if bit_of(x, j as int) == 0 {
            (wa.z_l, wa.u_l, wb.z_l, wb.u_l)
        } else {
            (wa.z_r, wa.u_r, wb.z_r, wb.u_r)
        };
        let ca = spec_compute_out(za, l, ua, 0);
        let cb = spec_compute_out(zb, l, ub, 1);
        assert(ea.2 == wrap(pa.2 + ca) && eb.2 == wrap(pb.2 + cb));
        lemma_wrap_sum(pa.2, pb.2, ca, cb);
        if prefix_eq(x, alpha, j as int) {
            let st = dif_gen_state(prg, alpha, s_a, s_b, j);
            let b = bit_of(alpha, j as int);
            lemma_gen_bits(prg, alpha, s_a, s_b, j);
            lemma_level(prg, st, b);
            assert(c == dif_cw_at(prg, alpha, s_a, s_b, j as int));
            assert(l == dif_leaf_at(prg, alpha, s_a, s_b, j as int));
            if bit_of(x, j as int) == b {
                lemma_out_cancels(za, l, ua);
            } else {
                lemma_out_shares(za, zb, ua, ub, b);
            }
        } else {
            lemma_out_cancels(za, l, ua);
        }
    }
}

/// Correctness of an interval-function key pair: for correction words derived
/// from `alpha` and the root seeds `s_a` (party 0) and `s_b` (party 1), the two
/// output shares on any `x` sum modulo 2^32 to 1 when `x <= alpha` and to 0 otherwise.
pub proof fn lemma_dif_correct(
    prg: ExpandFn,
    alpha: u32,
    s_a: u128,
    s_b: u128,
    cw: Seq<CompressedCorrectionWord>,
    cw_leaf: Seq<u32>,
    x: u32,
)
    requires
        dif_corrections(prg, alpha, s_a, s_b, cw, cw_leaf),
    ensures
        wrap(dif_eval(prg, s_a, cw, cw_leaf, 0, x) + dif_eval(prg, s_b, cw, cw_leaf, 1, x)) == if x
            <= alpha {
            1u32
        } else {
            0u32
        },
{
    lemma_prefix_ends(x, alpha);
    lemma_dif_path(prg, alpha, s_a, s_b, cw, cw_leaf, x, 32);
    let ea = dif_eval_state(prg, s_a, cw, cw_leaf, 0, x, 32);
    let eb = dif_eval_state(prg, s_b, cw, cw_leaf, 1, x, 32);
    let fa = spec_compute_out(ea.0 as u32, cw_leaf[32], ea.1, 0);
    let fb = spec_compute_out(eb.0 as u32, cw_leaf[32], eb.1, 1);
    lemma_wrap_sum(ea.2, eb.2, fa, fb);
    assert(cw_leaf[32] == dif_leaf_at(prg, alpha, s_a, s_b, 32));
    if x == alpha {
        lemma_gen_bits(prg, alpha, s_a, s_b, 32);
        let st = dif_gen_state(prg, alpha, s_a, s_b, 32);
        lemma_out_shares(st.0 as u32, st.2 as u32, st.1, st.3, 1);
    } else {
        lemma_out_cancels(ea.0 as u32, cw_leaf[32], ea.1);
    }
}

/// Expands `seed` into the two children's seeds, values and bits.
pub fn h<P: Prg>(prg: &mut P, seed: u128) -> (r: CorrectionWord)
    requires
        old(prg).spec_subkeys().len() >= 3,
    ensures
        r == spec_h(old(prg).spec_expand(), seed),
        *final(prg) == *old(prg),
{
    let out = prg.expand(seed);

    // Two seeds, two values, then the control and value bits.
    let s_l = out[0];
    let s_r = out[1];
    let z_l = out[2] as u32;
    let z_r = (out[2] >> 32u32) as u32;
    let t_l = ((out[2] >> 64u32) as u8) & 1u8;
    let u_l = ((out[2] >> 65u32) as u8) & 1u8;
    let t_r = ((out[2] >> 66u32) as u8) & 1u8;
    let u_r = ((out[2] >> 67u32) as u8) & 1u8;
    CorrectionWord { s_l, t_l, z_l, u_l, s_r, t_r, z_r, u_r }
}

/// Field-wise exclusive or of two words.
pub fn xor_2_words(u: &CorrectionWord, v: &CorrectionWord) -> (r: CorrectionWord)
    ensures
        r == spec_xor2(*u, *v),
{
    CorrectionWord {
        s_l: u.s_l ^ v.s_l,
        t_l: u.t_l ^ v.t_l,
        s_r: u.s_r ^ v.s_r,
        t_r: u.t_r ^ v.t_r,
        z_l: u.z_l ^ v.z_l,
        u_l: u.u_l ^ v.u_l,
        z_r: u.z_r ^ v.z_r,
        u_r: u.u_r ^ v.u_r,
    }
}

/// Field-wise exclusive or of three words.
fn xor_3_words(u: &CorrectionWord, v: &CorrectionWord, w: &CorrectionWord) -> (r: CorrectionWord)
    ensures
        r == spec_xor3(*u, *v, *w),
{
    CorrectionWord {
        s_l: u.s_l ^ v.s_l ^ w.s_l,
        t_l: u.t_l ^ v.t_l ^ w.t_l,
        s_r: u.s_r ^ v.s_r ^ w.s_r,
        t_r: u.t_r ^ v.t_r ^ w.t_r,
        z_l: u.z_l ^ v.z_l ^ w.z_l,
        u_l: u.u_l ^ v.u_l ^ w.u_l,
        z_r: u.z_r ^ v.z_r ^ w.z_r,
        u_r: u.u_r ^ v.u_r ^ w.u_r,
    }
}

/// Keeps the value of the branch `alpha_i` selects and the seed of the other.
fn compress_word(w: &CorrectionWord, alpha_i: u8) -> (r: CompressedCorrectionWord)
    ensures
        r == spec_compress(*w, alpha_i),
{
    let (z, s) = match alpha_i {
        1 => (w.z_r, w.s_l),
        _ => (w.z_l, w.s_r),
    };
    CompressedCorrectionWord { z, s, t_l: w.t_l, u_l: w.u_l, t_r: w.t_r, u_r: w.u_r }
}

/// Uses the one value and the one seed of `w` for both children.
pub fn decompress_word(w: &CompressedCorrectionWord) -> (r: CorrectionWord)
    ensures
        r == spec_decompress(*w),
{
    CorrectionWord {
        z_l: w.z,
        s_l: w.s,
        z_r: w.z,
        s_r: w.s,
        t_l: w.t_l,
        u_l: w.u_l,
        t_r: w.t_r,
        u_r: w.u_r,
    }
}

/// Derives the correction words and the 33 leaf corrections of an
/// interval-function key pair for `alpha` from the root seeds `s_a` (party 0)
/// and `s_b` (party 1).
pub fn generate_cw_from_seeds<P: Prg>(prg: &mut P, alpha: u32, s_a: u128, s_b: u128) -> (r: (
    [CompressedCorrectionWord; 32],
    [u32; 33],
))
    requires
        old(prg).spec_subkeys().len() >= 3,
    ensures
        *final(prg) == *old(prg),
        dif_corrections(old(prg).spec_expand(), alpha, s_a, s_b, r.0@, r.1@),
{
    let ghost prg0 = *prg;
    let ghost e = prg0.spec_expand();
    let mut cw = [CompressedCorrectionWord { s: 0, z: 0, t_l: 0, t_r: 0, u_l: 0, u_r: 0 }; 32];
    let mut cw_leaf = [0u32; 33];

    // Control bits and seeds at level i.
    let mut t_a_i = 0u8;
    let mut t_b_i = 1u8;
    let mut s_a_i: u128 = s_a;
    let mut s_b_i: u128 = s_b;

    let alpha_bits = bit_decomposition_u32(alpha);
    let mut i: usize = 0;
    while i < 32
        invariant
            i <= 32,
            *prg == prg0,
            e == prg0.spec_expand(),
            prg0.spec_subkeys().len() >= 3,
            alpha_bits@.len() == 32,
            forall|k: int| 0 <= k < 32 ==> #[trigger] alpha_bits@[k] == bit_of(alpha, k),
            (s_a_i, t_a_i, s_b_i, t_b_i) == dif_gen_state(e, alpha, s_a, s_b, i as nat),
            forall|k: int| 0 <= k < i ==> #[trigger] cw@[k] == dif_cw_at(e, alpha, s_a, s_b, k),
            forall|k: int|
                0 <= k < i ==> #[trigger] cw_leaf@[k] == dif_leaf_at(e, alpha, s_a, s_b, k),
        decreases 32 - i,
    {
        proof {
            lemma_prefix_step(alpha, alpha, i as int);
        }
        let b = alpha_bits[i];
        let w_a = h(prg, s_a_i);
        let w_b = h(prg, s_b_i);

        let cw_i = match b {
            1 => CorrectionWord {
                z_l: w_a.z_l ^ w_b.z_l,
                u_l: 1,
                s_l: 0,
                t_l: 0,
                z_r: 0,
                u_r: 0,
                s_r: w_a.s_l ^ w_b.s_l,
                t_r: 1,
            },
            _ => CorrectionWord {
                z_l: 0,
                u_l: 0,
                s_l: w_a.s_r ^ w_b.s_r,
                t_l: 1,
                z_r: w_a.z_r ^ w_b.z_r,
                u_r: 1,
                s_r: 0,
                t_r: 0,
            },
        };
        let cw_i = xor_3_words(&cw_i, &w_a, &w_b);
        let c = compress_word(&cw_i, b);
        cw[i] = c;
        let cw_i = decompress_word(&c);

        let w_a_next = match t_a_i {
            0 => w_a,
            _ => xor_2_words(&w_a, &cw_i),
        };
        let w_b_next = match t_b_i {
            0 => w_b,
            _ => xor_2_words(&w_b, &cw_i),
        };

        // The kept branch seeds the next level; the other one feeds the leaf.
        let (z_a_i, z_b_i, u_b_i);
        if b == 0 {
            s_a_i = w_a_next.s_l;
            t_a_i = w_a_next.t_l;
            z_a_i = w_a_next.z_r;
            s_b_i = w_b_next.s_l;
            t_b_i = w_b_next.t_l;
            z_b_i = w_b_next.z_r;
            u_b_i = w_b_next.u_r;
        } else {
            s_a_i = w_a_next.s_r;
            t_a_i = w_a_next.t_r;
            z_a_i = w_a_next.z_l;
            s_b_i = w_b_next.s_r;
            t_b_i = w_b_next.t_r;
            z_b_i = w_b_next.z_l;
            u_b_i = w_b_next.u_l;
        }
        cw_leaf[i] = share_leaf(z_a_i, z_b_i, b, u_b_i);
        i = i + 1;
    }
    cw_leaf[32] = share_leaf(s_a_i as u32, s_b_i as u32, 1, t_b_i);
    (cw, cw_leaf)
}

/// Evaluates one party's interval-function key, given as its fields, on `x`.
fn eval_tree<P: Prg>(
    prg: &mut P,
    s: u128,
    cw: &[CompressedCorrectionWord; 32],
    cw_leaf: &[u32; 33],
    party_id: u8,
    x: u32,
) -> (r: u32)
    requires
        old(prg).spec_subkeys().len() >= 3,
    ensures
        r == dif_eval(old(prg).spec_expand(), s, cw@, cw_leaf@, party_id, x),
        *final(prg) == *old(prg),
{
    let ghost prg0 = *prg;
    let ghost e = prg0.spec_expand();
    let mut t_i: u8 = party_id;
    let mut s_i: u128 = s;
    let mut out = 0u32;
    let x_bits: Vec<u8> = bit_decomposition_u32(x);
    let mut i: usize = 0;
    while i < 32
        invariant
            i <= 32,
            *prg == prg0,
            e == prg0.spec_expand(),
            prg0.spec_subkeys().len() >= 3,
            x_bits@.len() == 32,
            forall|k: int| 0 <= k < 32 ==> #[trigger] x_bits@[k] == bit_of(x, k),
            (s_i, t_i, out) == dif_eval_state(e, s, cw@, cw_leaf@, party_id, x, i as nat),
        decreases 32 - i,
    {
        let mut w = h(prg, s_i);
        if t_i == 1 {
            w = xor_2_words(&w, &decompress_word(&cw[i]));
        }
        let (z_i, u_i);
        if x_bits[i] == 0 {
            z_i = w.z_l;
            u_i = w.u_l;
            s_i = w.s_l;
            t_i = w.t_l;
        } else {
            z_i = w.z_r;
            u_i = w.u_r;
            s_i = w.s_r;
            t_i = w.t_r;
        }
        // Mask and sum modulo 2^32.
        let out_i = compute_out(z_i, cw_leaf[i], u_i, party_id);
        proof {
            lemma_wrap_add(out, out_i);
        }
        out = out.wrapping_add(out_i);
        i = i + 1;
    }
    let out_n = compute_out(s_i as u32, cw_leaf[32], t_i, party_id);
    proof {
        lemma_wrap_add(out, out_n);
    }
    // A share of (x <= alpha) modulo 2^32.
    out.wrapping_add(out_n)
}

/// Interval-function key for a point given at key generation, with output 1 up to it.
#[derive(Debug)]
pub struct DIFKeyAlpha1 {
    pub s: u128,
    pub cw: [CompressedCorrectionWord; 32],
    pub cw_leaf: [u32; 33],
}

/// An interval-function key pair for a point chosen by the caller.
pub trait DIFKey1: Sized {
    /// The output share of this key, as party `party_id`, on `x`.
    spec fn spec_eval(&self, prg: ExpandFn, party_id: u8, x: u32) -> u32;

    /// `a` (party 0) and `b` (party 1) are the pair that key generation makes
    /// for `alpha` from their root seeds.
    spec fn spec_generated(prg: ExpandFn, alpha: u32, a: Self, b: Self) -> bool;

    fn eval<P: Prg>(&self, prg: &mut P, party_id: u8, x: u32) -> (r: u32)
        requires
            party_id <= 1,
            old(prg).spec_subkeys().len() >= 3,
        ensures
            r == self.spec_eval(old(prg).spec_expand(), party_id, x),
            *final(prg) == *old(prg),
    ;

    /// A fresh pair whose shares on `x` sum to 1 when `x <= alpha`, else to 0.
    fn generate_keypair<P: Prg>(prg: &mut P, alpha: u32) -> (r: (Self, Self))
        requires
            old(prg).spec_subkeys().len() >= 3,
        ensures
            *final(prg) == *old(prg),
            Self::spec_generated(old(prg).spec_expand(), alpha, r.0, r.1),
            forall|x: u32|
                wrap(#[trigger] r.0.spec_eval(old(prg).spec_expand(), 0, x) + r.1.spec_eval(
                    old(prg).spec_expand(),
                    1,
                    x,
                )) == if x <= alpha {
                    1u32
                } else {
                    0u32
                },
    ;
}

impl DIFKeyAlpha1 {
    /// The key pair for `alpha` with root seeds `s_a` (party 0) and `s_b` (party 1).
    pub fn generate_keypair_from_seeds<P: Prg>(prg: &mut P, alpha: u32, s_a: u128, s_b: u128) -> (r: (
        DIFKeyAlpha1,
        DIFKeyAlpha1,
    ))
        requires
            old(prg).spec_subkeys().len() >= 3,
        ensures
            *final(prg) == *old(prg),
            r.0.s == s_a,
            r.1.s == s_b,
            r.0.cw == r.1.cw && r.0.cw_leaf == r.1.cw_leaf,
            dif_corrections(old(prg).spec_expand(), alpha, s_a, s_b, r.0.cw@, r.0.cw_leaf@),
    {
        let (cw, cw_leaf) = generate_cw_from_seeds(prg, alpha, s_a, s_b);
        (DIFKeyAlpha1 { s: s_a, cw, cw_leaf }, DIFKeyAlpha1 { s: s_b, cw, cw_leaf })
    }
}

impl DIFKey1 for DIFKeyAlpha1 {
    open spec fn spec_eval(&self, prg: ExpandFn, party_id: u8, x: u32) -> u32 {
        dif_eval(prg, self.s, self.cw@, self.cw_leaf@, party_id, x)
    }

    open spec fn spec_generated(prg: ExpandFn, alpha: u32, a: Self, b: Self) -> bool {
        &&& a.cw == b.cw
        &&& a.cw_leaf == b.cw_leaf
        &&& dif_corrections(prg, alpha, a.s, b.s, a.cw@, a.cw_leaf@)
    }

    fn eval<P: Prg>(&self, prg: &mut P, party_id: u8, x: u32) -> (r: u32) {
        eval_tree(prg, self.s, &self.cw, &self.cw_leaf, party_id, x)
    }

    fn generate_keypair<P: Prg>(prg: &mut P, alpha: u32) -> (r: (Self, Self)) {
        let ghost e = prg.spec_expand();
        let s_a: u128 = rand::random::<u128>();
        let s_b: u128 = rand::random::<u128>();
        let pair = DIFKeyAlpha1::generate_keypair_from_seeds(prg, alpha, s_a, s_b);
        proof {
            assert forall|x: u32|
                wrap(#[trigger] pair.0.spec_eval(e, 0, x) + pair.1.spec_eval(e, 1, x)) == if x
                    <= alpha {
                    1u32
                } else {
                    0u32
                } by {
                lemma_dif_correct(e, alpha, s_a, s_b, pair.0.cw@, pair.0.cw_leaf@, x);
            }
        }
        pair
    }
}

} // verus!
