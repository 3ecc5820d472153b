//!
//! Distributed point functions: correction words and tree evaluation.
//!
use vstd::prelude::*;

use crate::stream::{ExpandFn, Prg};
use crate::utils::{
    bit_decomposition_u32, bit_of, compute_out, lemma_out_cancels, lemma_out_shares,
    lemma_prefix_ends, lemma_prefix_step, prefix_eq, share_leaf, spec_compute_out,
    spec_share_leaf, wrap,
};

verus! {

/// The state of both parties at one level of key generation: `(s_a, t_a, s_b, t_b)`.
pub type GenState = (u128, u8, u128, u8);

/// The two children of `seed`: `(s_l, t_l, s_r, t_r)`, where each control bit is
/// the low bit of an output block and each child seed is that block with it cleared.
pub open spec fn spec_g(prg: ExpandFn, seed: u128) -> (u128, u8, u128, u8) {
    let out = prg(seed);
    (out[0] >> 1u32 << 1u32, (out[0] as u8) & 1u8, out[1] >> 1u32 << 1u32, (out[1] as u8) & 1u8)
}

/// The correction of one level, `(s_cw, t_cw_l, t_cw_r)`, for the states `st`
/// and the bit `b` of the secret point.
pub open spec fn dpf_level_cw(prg: ExpandFn, st: GenState, b: u8) -> (u128, u8, u8) {
    let ga = spec_g(prg, st.0);
    let gb = spec_g(prg, st.2);
    let s_cw = if b == 0 {
        ga.2 ^ gb.2
    } else {
        ga.0 ^ gb.0
    };
    (s_cw, ga.1 ^ gb.1 ^ b ^ 1u8, ga.3 ^ gb.3 ^ b)
}

/// The states of the next level, along the branch that `b` keeps.
pub open spec fn dpf_gen_step(prg: ExpandFn, st: GenState, b: u8) -> GenState {
    let ga = spec_g(prg, st.0);
    let gb = spec_g(prg, st.2);
    let cw = dpf_level_cw(prg, st, b);
    let t_cw_keep = if b == 0 {
        cw.1
    } else {
        cw.2
    };
    let (s_a_keep, t_a_keep) = if b == 0 {
        (ga.0, ga.1)
    } else {
        (ga.2, ga.3)
    };
    let (s_b_keep, t_b_keep) = if b == 0 {
        (gb.0, gb.1)
    } else {
        (gb.2, gb.3)
    };
    let (s_a, t_a) = if st.1 == 0 {
        (s_a_keep, t_a_keep)
    } else {
        (s_a_keep ^ cw.0, t_a_keep ^ t_cw_keep)
    };
    let (s_b, t_b) = if st.3 == 0 {
        (s_b_keep, t_b_keep)
    } else {
        (s_b_keep ^ cw.0, t_b_keep ^ t_cw_keep)
    };
    (s_a, t_a, s_b, t_b)
}

/// The states after `i` levels of key generation for the point `alpha` and the
/// root seeds `s_a`, `s_b`.
pub open spec fn dpf_gen_state(prg: ExpandFn, alpha: u32, s_a: u128, s_b: u128, i: nat) -> GenState
    decreases i,
{
    if i == 0 {
        (s_a, 0u8, s_b, 1u8)
    } else {
        dpf_gen_step(
            prg,
            dpf_gen_state(prg, alpha, s_a, s_b, (i - 1) as nat),
            bit_of(alpha, i - 1),
        )
    }
}

/// The correction word of level `i`.
pub open spec fn dpf_cw_at(prg: ExpandFn, alpha: u32, s_a: u128, s_b: u128, i: int) -> (
    u128,
    u8,
    u8,
) {
    dpf_level_cw(prg, dpf_gen_state(prg, alpha, s_a, s_b, i as nat), bit_of(alpha, i))
}

/// The leaf correction: a sharing of 1 between the low 32 bits of the final seeds.
pub open spec fn dpf_leaf(prg: ExpandFn, alpha: u32, s_a: u128, s_b: u128) -> u32 {
    let st = dpf_gen_state(prg, alpha, s_a, s_b, 32);
    spec_share_leaf(st.0 as u32, st.2 as u32, 1, st.3)
}

/// The correction words `cw`, `t_l`, `t_r` and the leaf `cw_leaf` are those that
/// key generation derives from `alpha` and the root seeds `s_a`, `s_b`.
pub open spec fn dpf_corrections(
    prg: ExpandFn,
    alpha: u32,
    s_a: u128,
    s_b: u128,
    cw: Seq<u128>,
    t_l: Seq<u8>,
    t_r: Seq<u8>,
    cw_leaf: u32,
) -> bool {
    &&& cw.len() == 32
    &&& t_l.len() == 32
    &&& t_r.len() == 32
    &&& forall|i: int|
        0 <= i < 32 ==> {
            let c = #[trigger] dpf_cw_at(prg, alpha, s_a, s_b, i);
            cw[i] == c.0 && t_l[i] == c.1 && t_r[i] == c.2
        }
    &&& cw_leaf == dpf_leaf(prg, alpha, s_a, s_b)
}

/// One level of evaluation: the child of `(s, t)` that the input bit `xb` selects,
/// corrected when `t` is set.
pub open spec fn dpf_eval_step(
    prg: ExpandFn,
    s: u128,
    t: u8,
    xb: u8,
    s_cw: u128,
    t_cw_l: u8,
    t_cw_r: u8,
) -> (u128, u8) {
    let g = spec_g(prg, s);
    if xb == 0 {
        if t == 0 {
            (g.0, g.1)
        } else {
            (g.0 ^ s_cw, g.1 ^ t_cw_l)
        }
    } else {
        if t == 0 {
            (g.2, g.3)
        } else {
            (g.2 ^ s_cw, g.3 ^ t_cw_r)
        }
    }
}

/// The seed and control bit of a party after `i` levels of evaluation on `x`.
pub open spec fn dpf_eval_state(
    prg: ExpandFn,
    s: u128,
    cw: Seq<u128>,
    t_l: Seq<u8>,
    t_r: Seq<u8>,
    party_id: u8,
    x: u32,
    i: nat,
) -> (u128, u8)
    decreases i,
{
    if i == 0 {
        (s, party_id)
    } else {
        let p = dpf_eval_state(prg, s, cw, t_l, t_r, party_id, x, (i - 1) as nat);
        dpf_eval_step(prg, p.0, p.1, bit_of(x, i - 1), cw[i - 1], t_l[i - 1], t_r[i - 1])
    }
}

/// The output share of a party on `x`.
pub open spec fn dpf_eval(
    prg: ExpandFn,
    s: u128,
    cw: Seq<u128>,
    t_l: Seq<u8>,
    t_r: Seq<u8>,
    cw_leaf: u32,
    party_id: u8,
    x: u32,
) -> u32 {
    let st = dpf_eval_state(prg, s, cw, t_l, t_r, party_id, x, 32);
    spec_compute_out(st.0 as u32, cw_leaf, st.1, party_id)
}

proof fn lemma_g_bits(l: u128, r: u128)
    by (bit_vector)
    ensures
        (l as u8) & 1u8 <= 1,
        (r as u8) & 1u8 <= 1,
{
}

proof fn lemma_keep_bits(ka: u8, kb: u8, b: u8, c: u8, ta: u8, tb: u8)
    by (bit_vector)
    requires
        ka <= 1,
        kb <= 1,
        ta <= 1,
        tb <= 1,
        ta != tb,
        (b == 0 && c == ka ^ kb ^ b ^ 1u8) || (b == 1 && c == ka ^ kb ^ b),
    ensures
        (if ta == 0 {
            ka
        } else {
            ka ^ c
        }) <= 1,
        (if tb == 0 {
            kb
        } else {
            kb ^ c
        }) <= 1,
        (if ta == 0 {
            ka
        } else {
            ka ^ c
        }) != (if tb == 0 {
            kb
        } else {
            kb ^ c
        }),
{
}

proof fn lemma_lose_bits(ka: u8, kb: u8, b: u8, c: u8, ta: u8, tb: u8)
    by (bit_vector)
    requires
        ta <= 1,
        tb <= 1,
        ta != tb,
        (b == 1 && c == ka ^ kb ^ b ^ 1u8) || (b == 0 && c == ka ^ kb ^ b),
    ensures
        (if ta == 0 {
            ka
        } else {
            ka ^ c
        }) == (if tb == 0 {
            kb
        } else {
            kb ^ c
        }),
{
}

proof fn lemma_lose_seeds(la: u128, lb: u128, ta: u8, tb: u8)
    by (bit_vector)
    requires
        ta <= 1,
        tb <= 1,
        ta != tb,
    ensures
        (if ta == 0 {
            la
        } else {
            la ^ (la ^ lb)
        }) == (if tb == 0 {
            lb
        } else {
            lb ^ (la ^ lb)
        }),
{
}

/// Along key generation the two control bits are distinct bits.
proof fn lemma_gen_bits(prg: ExpandFn, alpha: u32, s_a: u128, s_b: u128, i: nat)
    requires
        i <= 32,
    ensures
        ({
            let st = dpf_gen_state(prg, alpha, s_a, s_b, i);
            st.1 <= 1 && st.3 <= 1 && st.1 != st.3
        }),
    decreases i,
{
    if i > 0 {
        let j = (i - 1) as nat;
        lemma_gen_bits(prg, alpha, s_a, s_b, j);
        let st = dpf_gen_state(prg, alpha, s_a, s_b, j);
        let b = bit_of(alpha, j as int);
        lemma_prefix_step(alpha, alpha, j as int);
        let oa = prg(st.0);
        let ob = prg(st.2);
        lemma_g_bits(oa[0], oa[1]);
        lemma_g_bits(ob[0], ob[1]);
        let ga = spec_g(prg, st.0);
        let gb = spec_g(prg, st.2);
        let cw = dpf_level_cw(prg, st, b);
        if b == 0 {
            lemma_keep_bits(ga.1, gb.1, b, cw.1, st.1, st.3);
        } else {
            lemma_keep_bits(ga.3, gb.3, b, cw.2, st.1, st.3);
        }
    }
}

/// On inputs that follow the secret point for `i` levels, each party's evaluation
/// state is its key-generation state.
proof fn lemma_on_path(
    prg: ExpandFn,
    alpha: u32,
    s_a: u128,
    s_b: u128,
    cw: Seq<u128>,
    t_l: Seq<u8>,
    t_r: Seq<u8>,
    cw_leaf: u32,
    x: u32,
    i: nat,
)
    requires
        i <= 32,
        dpf_corrections(prg, alpha, s_a, s_b, cw, t_l, t_r, cw_leaf),
        prefix_eq(x, alpha, i as int),
    ensures
        ({
            let st = dpf_gen_state(prg, alpha, s_a, s_b, i);
            dpf_eval_state(prg, s_a, cw, t_l, t_r, 0, x, i) == (st.0, st.1) && dpf_eval_state(
                prg,
                s_b,
                cw,
                t_l,
                t_r,
                1,
                x,
                i,
            ) == (st.2, st.3)
        }),
    decreases i,
{
    if i > 0 {
        let j = (i - 1) as nat;
        lemma_prefix_step(x, alpha, j as int);
        lemma_on_path(prg, alpha, s_a, s_b, cw, t_l, t_r, cw_leaf, x, j);
        let c = dpf_cw_at(prg, alpha, s_a, s_b, j as int);
        assert(cw[j as int] == c.0 && t_l[j as int] == c.1 && t_r[j as int] == c.2);
    }
}

/// Once an input has left the secret point's path, both parties hold the same state.
proof fn lemma_off_path(
    prg: ExpandFn,
    alpha: u32,
    s_a: u128,
    s_b: u128,
    cw: Seq<u128>,
    t_l: Seq<u8>,
    t_r: Seq<u8>,
    cw_leaf: u32,
    x: u32,
    i: nat,
)
    requires
        i <= 32,
        dpf_corrections(prg, alpha, s_a, s_b, cw, t_l, t_r, cw_leaf),
        !prefix_eq(x, alpha, i as int),
    ensures
        dpf_eval_state(prg, s_a, cw, t_l, t_r, 0, x, i) == dpf_eval_state(
            prg,
            s_b,
            cw,
            t_l,
            t_r,
            1,
            x,
            i,
        ),
    decreases i,
{
    lemma_prefix_ends(x, alpha);
    if i > 0 {
        let j = (i - 1) as nat;
        lemma_prefix_step(x, alpha, j as int);
        if prefix_eq(x, alpha, j as int) {
            lemma_on_path(prg, alpha, s_a, s_b, cw, t_l, t_r, cw_leaf, x, j);
            lemma_gen_bits(prg, alpha, s_a, s_b, j);
            let st = dpf_gen_state(prg, alpha, s_a, s_b, j);
            let b = bit_of(alpha, j as int);
            let c = dpf_cw_at(prg, alpha, s_a, s_b, j as int);
            assert(cw[j as int] == c.0 && t_l[j as int] == c.1 && t_r[j as int] == c.2);
            let ga = spec_g(prg, st.0);
            let gb = spec_g(prg, st.2);
            if b == 0 {
                lemma_lose_seeds(ga.2, gb.2, st.1, st.3);
                lemma_lose_bits(ga.3, gb.3, b, c.2, st.1, st.3);
            } else {
                lemma_lose_seeds(ga.0, gb.0, st.1, st.3);
                lemma_lose_bits(ga.1, gb.1, b, c.1, st.1, st.3);
            }
        } else {
            lemma_off_path(prg, alpha, s_a, s_b, cw, t_l, t_r, cw_leaf, x, j);
        }
    }
}

/// Correctness of a point-function key pair: for correction words derived from
/// `alpha` and the root seeds `s_a` (party 0) and `s_b` (party 1), the two output
/// shares on any `x` sum modulo 2^32 to 1 when `x == alpha` and to 0 otherwise.
pub proof fn lemma_dpf_correct(
    prg: ExpandFn,
    alpha: u32,
    s_a: u128,
    s_b: u128,
    cw: Seq<u128>,
    t_l: Seq<u8>,
    t_r: Seq<u8>,
    cw_leaf: u32,
    x: u32,
)
    requires
        dpf_corrections(prg, alpha, s_a, s_b, cw, t_l, t_r, cw_leaf),
    ensures
        wrap(dpf_eval(prg, s_a, cw, t_l, t_r, cw_leaf, 0, x) + dpf_eval(
            prg,
            s_b,
            cw,
            t_l,
            t_r,
            cw_leaf,
            1,
            x,
        )) == if x == alpha {
            1u32
        } else {
            0u32
        },
{
    lemma_prefix_ends(x, alpha);
    if x == alpha {
        lemma_on_path(prg, alpha, s_a, s_b, cw, t_l, t_r, cw_leaf, x, 32);
        lemma_gen_bits(prg, alpha, s_a, s_b, 32);
        let st = dpf_gen_state(prg, alpha, s_a, s_b, 32);
        lemma_out_shares(st.0 as u32, st.2 as u32, st.1, st.3, 1);
    } else {
        lemma_off_path(prg, alpha, s_a, s_b, cw, t_l, t_r, cw_leaf, x, 32);
        let st = dpf_eval_state(prg, s_a, cw, t_l, t_r, 0, x, 32);
        lemma_out_cancels(st.0 as u32, cw_leaf, st.1);
    }
}

/// Splits the two output blocks of the generator on `seed` into `(s_l, t_l, s_r, t_r)`.
pub fn g<P: Prg>(prg: &mut P, seed: u128) -> (r: (u128, u8, u128, u8))
    requires
        old(prg).spec_subkeys().len() >= 2,
    ensures
        r == spec_g(old(prg).spec_expand(), seed),
        *final(prg) == *old(prg),
{
    let out = prg.expand(seed);
    let t_l = (out[0] as u8) & 1u8;
    let t_r = (out[1] as u8) & 1u8;
    let s_l = out[0] >> 1u32 << 1u32;
    let s_r = out[1] >> 1u32 << 1u32;
    (s_l, t_l, s_r, t_r)
}

/// Derives the correction words of a point-function key pair for the point
/// `alpha` from the root seeds `s_a` (party 0) and `s_b` (party 1), writing
/// them into `cw`, `t_l`, `t_r`, and returns the leaf correction.
pub fn generate_cw_from_seeds<P: Prg>(
    prg: &mut P,
    alpha: u32,
    s_a: u128,
    s_b: u128,
    cw: &mut [u128; 32],
    t_l: &mut [u8; 32],
    t_r: &mut [u8; 32],
) -> (r: u32)
    requires
        old(prg).spec_subkeys().len() >= 2,
    ensures
        *final(prg) == *old(prg),
        dpf_corrections(old(prg).spec_expand(), alpha, s_a, s_b, final(cw)@, final(t_l)@, final(t_r)@, r),
{
    let ghost prg0 = *prg;
    // Control bits and seeds at level i.
    let mut t_a_i = 0u8;
    let mut t_b_i = 1u8;
    let mut s_a_i: u128 = s_a;
    let mut s_b_i: u128 = s_b;

    let alpha_bits = bit_decomposition_u32(alpha);
    let mut i: usize = 0;
    while i < 32
        invariant
            i <= 32,
            *prg == prg0,
            prg0.spec_subkeys().len() >= 2,
            alpha_bits@.len() == 32,
            forall|k: int| 0 <= k < 32 ==> #[trigger] alpha_bits@[k] == bit_of(alpha, k),
            (s_a_i, t_a_i, s_b_i, t_b_i) == dpf_gen_state(prg0.spec_expand(), alpha, s_a, s_b, i as nat),
            forall|k: int|
                0 <= k < i ==> {
                    let c = #[trigger] dpf_cw_at(prg0.spec_expand(), alpha, s_a, s_b, k);
                    cw@[k] == c.0 && t_l@[k] == c.1 && t_r@[k] == c.2
                },
        decreases 32 - i,
    {
        proof {
            lemma_prefix_step(alpha, alpha, i as int);
        }
        let (s_a_l, t_a_l, s_a_r, t_a_r) = g(prg, s_a_i);
        let (s_b_l, t_b_l, s_b_r, t_b_r) = g(prg, s_b_i);
        let b = alpha_bits[i];

        // Keep left if the bit is 0, right if it is 1.
        let (s_a_keep, s_a_lose, t_a_keep) = match b {
            0u8 => (s_a_l, s_a_r, t_a_l),
            _ => (s_a_r, s_a_l, t_a_r),
        };
        let (s_b_keep, s_b_lose, t_b_keep) = match b {
            0u8 => (s_b_l, s_b_r, t_b_l),
            _ => (s_b_r, s_b_l, t_b_r),
        };

        let t_cw_l = t_a_l ^ t_b_l ^ b ^ 1u8;
        let t_cw_r = t_a_r ^ t_b_r ^ b;
        let t_cw_keep = match b {
            0u8 => t_cw_l,
            _ => t_cw_r,
        };

        // The randomness that is not kept seeds the correction.
        let s_cw = s_a_lose ^ s_b_lose;
        cw[i] = s_cw;
        t_l[i] = t_cw_l;
        t_r[i] = t_cw_r;

        if t_a_i == 0 {
            s_a_i = s_a_keep;
            t_a_i = t_a_keep;
        } else {
            s_a_i = s_a_keep ^ s_cw;
            t_a_i = t_a_keep ^ t_cw_keep;
        }
        if t_b_i == 0 {
            s_b_i = s_b_keep;
            t_b_i = t_b_keep;
        } else {
            s_b_i = s_b_keep ^ s_cw;
            t_b_i = t_b_keep ^ t_cw_keep;
        }
        i = i + 1;
    }
    // 32 bits of the final seeds are enough to share 1.
    share_leaf(s_a_i as u32, s_b_i as u32, 1, t_b_i)
}

/// Evaluates one party's point-function key, given as its fields, on `x`.
fn eval_tree<P: Prg>(
    prg: &mut P,
    s: u128,
    cw: &[u128; 32],
    t_l: &[u8; 32],
    t_r: &[u8; 32],
    cw_leaf: u32,
    party_id: u8,
    x: u32,
) -> (r: u32)
    requires
        old(prg).spec_subkeys().len() >= 2,
    ensures
        r == dpf_eval(old(prg).spec_expand(), s, cw@, t_l@, t_r@, cw_leaf, party_id, x),
        *final(prg) == *old(prg),
{
    let ghost prg0 = *prg;
    let mut t_i: u8 = party_id;
    let mut s_i: u128 = s;

    // Follow the bits of x down the tree.
    let x_bits: Vec<u8> = bit_decomposition_u32(x);
    let mut i: usize = 0;
    while i < 32
        invariant
            i <= 32,
            *prg == prg0,
            prg0.spec_subkeys().len() >= 2,
            x_bits@.len() == 32,
            forall|k: int| 0 <= k < 32 ==> #[trigger] x_bits@[k] == bit_of(x, k),
            (s_i, t_i) == dpf_eval_state(prg0.spec_expand(), s, cw@, t_l@, t_r@, party_id, x, i as nat),
        decreases 32 - i,
    {
        let (s_l, t_l_i, s_r, t_r_i) = g(prg, s_i);
        let s_cw = cw[i];
        let t_cw_l = t_l[i];
        let t_cw_r = t_r[i];

        // The correction is applied on the kept side only.
        if x_bits[i] == 0u8 {
            if t_i == 0u8 {
                s_i = s_l;
                t_i = t_l_i;
            } else {
                s_i = s_l ^ s_cw;
                t_i = t_l_i ^ t_cw_l;
            }
        } else {
            if t_i == 0u8 {
                s_i = s_r;
                t_i = t_r_i;
            } else {
                s_i = s_r ^ s_cw;
                t_i = t_r_i ^ t_cw_r;
            }
        }
        i = i + 1;
    }
    compute_out(s_i as u32, cw_leaf, t_i, party_id)
}

/// Point-function key for a point given at key generation, with output 1 on it.
#[derive(Debug)]
pub struct DPFKeyAlpha1 {
    pub s: u128,
    pub cw: [u128; 32],
    pub t_l: [u8; 32],
    pub t_r: [u8; 32],
    pub cw_leaf: u32,
}

/// A point-function key pair for a point chosen by the caller.
pub trait DPFKey1: Sized {
    /// The output share of this key, as party `party_id`, on `x`.
    spec fn spec_eval(&self, prg: ExpandFn, party_id: u8, x: u32) -> u32;

    /// `a` (party 0) and `b` (party 1) are the pair that key generation makes
    /// for `alpha` from their root seeds.
    spec fn spec_generated(prg: ExpandFn, alpha: u32, a: Self, b: Self) -> bool;

    fn eval<P: Prg>(&self, prg: &mut P, party_id: u8, x: u32) -> (r: u32)
        requires
            party_id <= 1,
            old(prg).spec_subkeys().len() >= 2,
        ensures
            r == self.spec_eval(old(prg).spec_expand(), party_id, x),
            *final(prg) == *old(prg),
    ;

    /// A fresh pair whose shares on `x` sum to 1 when `x == alpha`, else to 0.
    fn generate_keypair<P: Prg>(prg: &mut P, alpha: u32) -> (r: (Self, Self))
        requires
            old(prg).spec_subkeys().len() >= 2,
        ensures
            *final(prg) == *old(prg),
            Self::spec_generated(old(prg).spec_expand(), alpha, r.0, r.1),
            forall|x: u32|
                wrap(#[trigger] r.0.spec_eval(old(prg).spec_expand(), 0, x) + r.1.spec_eval(old(prg).spec_expand(), 1, x))
                    == if x == alpha {
                    1u32
                } else {
                    0u32
                },
    ;
}

impl DPFKeyAlpha1 {
    /// The key pair for `alpha` with root seeds `s_a` (party 0) and `s_b` (party 1).
    pub fn generate_keypair_from_seeds<P: Prg>(prg: &mut P, alpha: u32, s_a: u128, s_b: u128) -> (r: (
        DPFKeyAlpha1,
        DPFKeyAlpha1,
    ))
        requires
            old(prg).spec_subkeys().len() >= 2,
        ensures
            *final(prg) == *old(prg),
            r.0.s == s_a,
            r.1.s == s_b,
            r.0.cw == r.1.cw && r.0.t_l == r.1.t_l && r.0.t_r == r.1.t_r && r.0.cw_leaf
                == r.1.cw_leaf,
            dpf_corrections(old(prg).spec_expand(), alpha, s_a, s_b, r.0.cw@, r.0.t_l@, r.0.t_r@, r.0.cw_leaf),
    {
        let mut cw = [0u128; 32];
        let mut t_l = [0u8; 32];
        let mut t_r = [0u8; 32];
        let cw_leaf = generate_cw_from_seeds(prg, alpha, s_a, s_b, &mut cw, &mut t_l, &mut t_r);
        (
            DPFKeyAlpha1 { s: s_a, cw, t_l, t_r, cw_leaf },
            DPFKeyAlpha1 { s: s_b, cw, t_l, t_r, cw_leaf },
        )
    }
}

impl DPFKey1 for DPFKeyAlpha1 {
    open spec fn spec_eval(&self, prg: ExpandFn, party_id: u8, x: u32) -> u32 {
        dpf_eval(prg, self.s, self.cw@, self.t_l@, self.t_r@, self.cw_leaf, party_id, x)
    }

    open spec fn spec_generated(prg: ExpandFn, alpha: u32, a: Self, b: Self) -> bool {
        &&& a.cw == b.cw
        &&& a.t_l == b.t_l
        &&& a.t_r == b.t_r
        &&& a.cw_leaf == b.cw_leaf
        &&& dpf_corrections(prg, alpha, a.s, b.s, a.cw@, a.t_l@, a.t_r@, a.cw_leaf)
    }

    fn eval<P: Prg>(&self, prg: &mut P, party_id: u8, x: u32) -> (r: u32) {
        eval_tree(prg, self.s, &self.cw, &self.t_l, &self.t_r, self.cw_leaf, party_id, x)
    }

    fn generate_keypair<P: Prg>(prg: &mut P, alpha: u32) -> (r: (Self, Self)) {
        let ghost prg0 = *prg;
        let s_a: u128 = rand::random::<u128>();
        let s_b: u128 = rand::random::<u128>();
        let pair = DPFKeyAlpha1::generate_keypair_from_seeds(prg, alpha, s_a, s_b);
        proof {
            assert forall|x: u32|
                wrap(#[trigger] pair.0.spec_eval(prg0.spec_expand(), 0, x) + pair.1.spec_eval(prg0.spec_expand(), 1, x)) == if x
                    == alpha {
                    1u32
                } else {
                    0u32
                } by {
                lemma_dpf_correct(
                    prg0.spec_expand(),
                    alpha,
                    s_a,
                    s_b,
                    pair.0.cw@,
                    pair.0.t_l@,
                    pair.0.t_r@,
                    pair.0.cw_leaf,
                    x,
                );
            }
        }
        pair
    }
}

} // verus!
