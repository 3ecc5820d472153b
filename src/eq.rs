//!
//! Equality keys: a point function on a secret-shared point.
//!
use vstd::prelude::*;

use crate::fss::dpf::{dpf_corrections, dpf_cw_at, dpf_eval, generate_cw_from_seeds, lemma_dpf_correct, DPFKey1, DPFKeyAlpha1};
use crate::stream::{ExpandFn, FSSKey, Prg, RawKey};
use crate::utils::{
    get_u128, get_u32, le_bytes_u128, le_bytes_u32, le_u128_of, le_u32_of,
    lemma_le_u128_round_trip, lemma_le_u32_round_trip, put_u128, put_u32, wrap,
};

verus! {

/// One party's equality key.
#[derive(Debug)]
pub struct EqKey {
    pub alpha_share: u32,
    pub s: u128,
    pub cw: [u128; 32],
    pub t_l: [u8; 32],
    pub t_r: [u8; 32],
    pub cw_leaf: u32,
}

/// The contents of an equality key.
pub struct EqKeyView {
    pub alpha_share: u32,
    pub s: u128,
    pub cw: Seq<u128>,
    pub t_l: Seq<u8>,
    pub t_r: Seq<u8>,
    pub cw_leaf: u32,
}

impl View for EqKey {
    type V = EqKeyView;

    open spec fn view(&self) -> EqKeyView {
        EqKeyView {
            alpha_share: self.alpha_share,
            s: self.s,
            cw: self.cw@,
            t_l: self.t_l@,
            t_r: self.t_r@,
            cw_leaf: self.cw_leaf,
        }
    }
}

/// `a` (party 0) and `b` (party 1) share every correction word, and those are
/// the ones key generation derives from the recombined point and the two root seeds.
pub open spec fn eq_pair(prg: ExpandFn, a: EqKeyView, b: EqKeyView) -> bool {
    &&& a.cw == b.cw
    &&& a.t_l == b.t_l
    &&& a.t_r == b.t_r
    &&& a.cw_leaf == b.cw_leaf
    &&& dpf_corrections(
        prg,
        wrap(a.alpha_share + b.alpha_share),
        a.s,
        b.s,
        a.cw,
        a.t_l,
        a.t_r,
        a.cw_leaf,
    )
}

/// `a` (party 0) and `b` (party 1) are the pair that key generation makes from
/// the point `alpha`, the root seeds `s_a`, `s_b` and the mask `mask`: party 0
/// holds `alpha - mask` and party 1 holds `mask`.
pub open spec fn eq_generated(
    prg: ExpandFn,
    alpha: u32,
    s_a: u128,
    s_b: u128,
    mask: u32,
    a: EqKeyView,
    b: EqKeyView,
) -> bool {
    &&& a.alpha_share == wrap(alpha - mask)
    &&& b.alpha_share == mask
    &&& a.s == s_a
    &&& b.s == s_b
    &&& eq_pair(prg, a, b)
}

/// Key generation is deterministic: the same generator, point, root seeds and
/// mask give the same pair.
pub proof fn lemma_eq_keygen_deterministic(
    prg: ExpandFn,
    alpha: u32,
    s_a: u128,
    s_b: u128,
    mask: u32,
    a1: EqKeyView,
    b1: EqKeyView,
    a2: EqKeyView,
    b2: EqKeyView,
)
    requires
        eq_generated(prg, alpha, s_a, s_b, mask, a1, b1),
        eq_generated(prg, alpha, s_a, s_b, mask, a2, b2),
    ensures
        a1 == a2,
        b1 == b2,
{
    let al = wrap(a1.alpha_share + b1.alpha_share);
    assert forall|i: int| 0 <= i < 32 implies a1.cw[i] == a2.cw[i] && a1.t_l[i] == a2.t_l[i]
        && a1.t_r[i] == a2.t_r[i] by {
        let c = dpf_cw_at(prg, al, s_a, s_b, i);
    }
    assert(a1.cw =~= a2.cw);
    assert(a1.t_l =~= a2.t_l);
    assert(a1.t_r =~= a2.t_r);
}

/// The 18 bytes of level `i`: the seed correction, then the two control corrections.
pub open spec fn eq_level_bytes(k: EqKeyView, i: int) -> Seq<u8> {
    le_bytes_u128(k.cw[i]) + seq![k.t_l[i], k.t_r[i]]
}

/// The bytes of the first `n` levels.
pub open spec fn eq_levels_bytes(k: EqKeyView, n: nat) -> Seq<u8>
    decreases n,
{
    if n == 0 {
        Seq::empty()
    } else {
        eq_levels_bytes(k, (n - 1) as nat) + eq_level_bytes(k, n - 1)
    }
}

/// The 621 bytes of a key written over the 621 bytes `prev`: share of the
/// point, root seed, 32 levels of 18 bytes, then the leaf at offset 617. The
/// 21 bytes at offsets 596..617 hold no field and keep their values from `prev`.
pub open spec fn eq_encode(k: EqKeyView, prev: Seq<u8>) -> Seq<u8> {
    le_bytes_u32(k.alpha_share) + le_bytes_u128(k.s) + eq_levels_bytes(k, 32) + prev.subrange(
        596,
        617,
    ) + le_bytes_u32(k.cw_leaf)
}

/// The key that 621 bytes hold.
pub open spec fn eq_decode(b: Seq<u8>) -> EqKeyView {
    EqKeyView {
        alpha_share: le_u32_of(b.subrange(0, 4)),
        s: le_u128_of(b.subrange(4, 20)),
        cw: Seq::new(32, |i: int| le_u128_of(b.subrange(20 + 18 * i, 36 + 18 * i))),
        t_l: Seq::new(32, |i: int| b[36 + 18 * i]),
        t_r: Seq::new(32, |i: int| b[37 + 18 * i]),
        cw_leaf: le_u32_of(b.subrange(617, 621)),
    }
}

proof fn lemma_levels(k: EqKeyView, n: nat)
    ensures
        eq_levels_bytes(k, n).len() == 18 * n,
        forall|i: int|
            0 <= i < n ==> #[trigger] eq_levels_bytes(k, n).subrange(18 * i, 18 * i + 18)
                == eq_level_bytes(k, i),
    decreases n,
{
    if n > 0 {
        let m = (n - 1) as nat;
        lemma_levels(k, m);
        let prev = eq_levels_bytes(k, m);
        let cur = eq_levels_bytes(k, n);
        assert forall|i: int| 0 <= i < n implies #[trigger] cur.subrange(18 * i, 18 * i + 18)
            == eq_level_bytes(k, i) by {
            if i < m {
                assert(cur.subrange(18 * i, 18 * i + 18) =~= prev.subrange(18 * i, 18 * i + 18));
            } else {
                assert(cur.subrange(18 * i, 18 * i + 18) =~= eq_level_bytes(k, i));
            }
        }
    }
}

/// Reading back the 621 bytes of a key with 32 levels, written over any 621
/// bytes, gives the key again.
pub proof fn lemma_eq_round_trip(k: EqKeyView, prev: Seq<u8>)
    requires
        k.cw.len() == 32,
        k.t_l.len() == 32,
        k.t_r.len() == 32,
        prev.len() == 621,
    ensures
        eq_encode(k, prev).len() == 621,
        eq_decode(eq_encode(k, prev)) == k,
{
    let b = eq_encode(k, prev);
    lemma_levels(k, 32);
    lemma_le_u32_round_trip(k.alpha_share);
    lemma_le_u32_round_trip(k.cw_leaf);
    lemma_le_u128_round_trip(k.s);
    let lv = eq_levels_bytes(k, 32);
    assert(b.subrange(0, 4) =~= le_bytes_u32(k.alpha_share));
    assert(b.subrange(4, 20) =~= le_bytes_u128(k.s));
    assert(b.subrange(617, 621) =~= le_bytes_u32(k.cw_leaf));
    let d = eq_decode(b);
    assert forall|i: int| 0 <= i < 32 implies d.cw[i] == k.cw[i] && d.t_l[i] == k.t_l[i]
        && d.t_r[i] == k.t_r[i] by {
        let lb = lv.subrange(18 * i, 18 * i + 18);
        assert(lb == eq_level_bytes(k, i));
        lemma_le_u128_round_trip(k.cw[i]);
        assert forall|m: int| 0 <= m < 16 implies #[trigger] b.subrange(20 + 18 * i, 36 + 18 * i)[m]
            == le_bytes_u128(k.cw[i])[m] by {
            assert(b[20 + 18 * i + m] == lv[18 * i + m]);
            assert(lv[18 * i + m] == lb[m]);
        }
        assert(b.subrange(20 + 18 * i, 36 + 18 * i) =~= le_bytes_u128(k.cw[i]));
        assert(b[36 + 18 * i] == lb[16]);
        assert(b[37 + 18 * i] == lb[17]);
    }
    assert(d.cw =~= k.cw);
    assert(d.t_l =~= k.t_l);
    assert(d.t_r =~= k.t_r);
}

/// Writes the fields of `key` into the 621 bytes at `at`; the bytes that hold
/// no field, and all bytes outside, stay.
pub fn write_key_to_array(key: &EqKey, array: &mut [u8], at: usize)
    requires
        at + 621 <= old(array)@.len(),
    ensures
        final(array)@.len() == old(array)@.len(),
        final(array)@.subrange(at as int, at + 621) == eq_encode(
            key@,
            old(array)@.subrange(at as int, at + 621),
        ),
        forall|j: int|
            0 <= j < old(array)@.len() && !(at <= j < at + 621) ==> #[trigger] final(array)@[j]
                == old(array)@[j],
{
    let ghost a0 = array@;
    let ghost k = key@;
    let n = array.len();
    put_u32(array, at, key.alpha_share);
    put_u128(array, at + 4, key.s);
    assert(array@.subrange(at as int, at + 20) =~= le_bytes_u32(k.alpha_share) + le_bytes_u128(k.s));
    let mut i: usize = 0;
    while i < 32
        invariant
            i <= 32,
            k == key@,
            at + 621 <= a0.len(),
            n == a0.len(),
            array@.len() == a0.len(),
            array@.subrange(at as int, at + 20 + 18 * i) == le_bytes_u32(k.alpha_share)
                + le_bytes_u128(k.s) + eq_levels_bytes(k, i as nat),
            forall|j: int|
                0 <= j < a0.len() && !(at <= j < at + 20 + 18 * i) ==> #[trigger] array@[j]
                    == a0[j],
        decreases 32 - i,
    {
        let ghost prev = array@;
        let p = at + 20 + 18 * i;
        put_u128(array, p, key.cw[i]);
        array[p + 16] = key.t_l[i];
        array[p + 17] = key.t_r[i];
        proof {
            let head = le_bytes_u32(k.alpha_share) + le_bytes_u128(k.s);
            assert(array@.subrange(p as int, p + 18) =~= eq_level_bytes(k, i as int));
            assert(array@.subrange(at as int, p as int) =~= prev.subrange(at as int, p as int));
            assert(array@.subrange(at as int, at + 20 + 18 * (i + 1)) =~= array@.subrange(
                at as int,
                p as int,
            ) + array@.subrange(p as int, p + 18));
            assert(eq_levels_bytes(k, (i + 1) as nat) == eq_levels_bytes(k, i as nat)
                + eq_level_bytes(k, i as int));
            assert(array@.subrange(at as int, at + 20 + 18 * (i + 1)) =~= head + eq_levels_bytes(
                k,
                (i + 1) as nat,
            ));
        }
        i = i + 1;
    }
    let ghost before = array@;
    put_u32(array, at + 617, key.cw_leaf);
    proof {
        let prev = a0.subrange(at as int, at + 621);
        assert(before.subrange(at + 596, at + 617) =~= prev.subrange(596, 617));
        assert(array@.subrange(at as int, at + 617) =~= before.subrange(at as int, at + 596)
            + before.subrange(at + 596, at + 617));
        assert(array@.subrange(at as int, at + 621) =~= array@.subrange(at as int, at + 617)
            + array@.subrange(at + 617, at + 621));
    }
}

/// Reads the key whose 621 bytes start at `at`.
pub fn read_key_from_array(array: &[u8], at: usize) -> (r: EqKey)
    requires
        at + 621 <= array@.len(),
    ensures
        r@ == eq_decode(array@.subrange(at as int, at + 621)),
{
    let ghost b = array@.subrange(at as int, at + 621);
    let n = array.len();
    let alpha_share = get_u32(array, at);
    let s = get_u128(array, at + 4);
    assert(array@.subrange(at as int, at + 4) =~= b.subrange(0, 4));
    assert(array@.subrange(at + 4, at + 20) =~= b.subrange(4, 20));

    let mut cw = [0u128; 32];
    let mut t_l = [0u8; 32];
    let mut t_r = [0u8; 32];
    let mut i: usize = 0;
    while i < 32
        invariant
            i <= 32,
            at + 621 <= array@.len(),
            n == array@.len(),
            b == array@.subrange(at as int, at + 621),
            forall|j: int| 0 <= j < i ==> #[trigger] cw@[j] == eq_decode(b).cw[j],
            forall|j: int| 0 <= j < i ==> #[trigger] t_l@[j] == eq_decode(b).t_l[j],
            forall|j: int| 0 <= j < i ==> #[trigger] t_r@[j] == eq_decode(b).t_r[j],
        decreases 32 - i,
    {
        let p = at + 20 + 18 * i;
        cw[i] = get_u128(array, p);
        t_l[i] = array[p + 16];
        t_r[i] = array[p + 17];
        assert(array@.subrange(p as int, p + 16) =~= b.subrange(20 + 18 * i, 36 + 18 * i));
        assert(b[36 + 18 * i] == array@[p + 16]);
        assert(b[37 + 18 * i] == array@[p + 17]);
        assert(eq_decode(b).t_l[i as int] == b[36 + 18 * i]);
        assert(eq_decode(b).t_r[i as int] == b[37 + 18 * i]);
        assert(t_l@[i as int] == eq_decode(b).t_l[i as int]);
        assert(eq_decode(b).cw[i as int] == le_u128_of(b.subrange(20 + 18 * i, 36 + 18 * i)));
        i = i + 1;
    }
    let cw_leaf = get_u32(array, at + 617);
    assert(array@.subrange(at + 617, at + 621) =~= b.subrange(617, 621));
    let r = EqKey { alpha_share, s, cw, t_l, t_r, cw_leaf };
    assert(r@.cw =~= eq_decode(b).cw);
    assert(r@.t_l =~= eq_decode(b).t_l);
    assert(r@.t_r =~= eq_decode(b).t_r);
    r
}

impl EqKey {
    /// The key pair for the point `alpha`, the root seeds `s_a` (party 0) and
    /// `s_b` (party 1), and the mask `mask` that splits `alpha` into
    /// `alpha - mask` (party 0) and `mask` (party 1).
    pub fn generate_keypair_from<P: Prg>(prg: &mut P, alpha: u32, s_a: u128, s_b: u128, mask: u32) -> (r: (EqKey, EqKey))
        requires
            old(prg).spec_subkeys().len() >= 2,
        ensures
            *final(prg) == *old(prg),
            eq_generated(old(prg).spec_expand(), alpha, s_a, s_b, mask, r.0@, r.1@),
    {
        let mut cw = [0u128; 32];
        let mut t_l = [0u8; 32];
        let mut t_r = [0u8; 32];
        let cw_leaf = generate_cw_from_seeds(prg, alpha, s_a, s_b, &mut cw, &mut t_l, &mut t_r);
        let alpha_share = alpha.wrapping_sub(mask);
        proof {
            assert(wrap(wrap(alpha - mask) + mask) == alpha);
        }
        (
            EqKey { alpha_share, s: s_a, cw, t_l, t_r, cw_leaf },
            EqKey { alpha_share: mask, s: s_b, cw, t_l, t_r, cw_leaf },
        )
    }
}

impl FSSKey for EqKey {
    open spec fn spec_blocks() -> nat {
        2
    }

    open spec fn spec_function(alpha: u32, x: u32) -> u32 {
        if x == alpha {
            1
        } else {
            0
        }
    }

    open spec fn spec_alpha_share(k: EqKeyView) -> u32 {
        k.alpha_share
    }

    open spec fn spec_eval(k: EqKeyView, prg: ExpandFn, party_id: u8, x: u32) -> u32 {
        dpf_eval(prg, k.s, k.cw, k.t_l, k.t_r, k.cw_leaf, party_id, x)
    }

    open spec fn spec_pair(prg: ExpandFn, a: EqKeyView, b: EqKeyView) -> bool {
        eq_pair(prg, a, b)
    }

    proof fn lemma_pair_correct(prg: ExpandFn, a: EqKeyView, b: EqKeyView, x: u32) {
        lemma_dpf_correct(
            prg,
            wrap(a.alpha_share + b.alpha_share),
            a.s,
            b.s,
            a.cw,
            a.t_l,
            a.t_r,
            a.cw_leaf,
            x,
        );
    }

    fn eval<P: Prg>(&self, prg: &mut P, party_id: u8, x: u32) -> (r: u32) {
        let key = DPFKeyAlpha1 {
            s: self.s,
            cw: self.cw,
            t_l: self.t_l,
            t_r: self.t_r,
            cw_leaf: self.cw_leaf,
        };
        key.eval(prg, party_id, x)
    }

    fn generate_keypair<P: Prg>(prg: &mut P) -> (r: (Self, Self)) {
        let ghost prg0 = *prg;
        // The point, the root seeds and the mask are drawn at random.
        let alpha: u32 = rand::random::<u32>();
        let s_a: u128 = rand::random::<u128>();
        let s_b: u128 = rand::random::<u128>();
        let mask: u32 = rand::random::<u32>();
        let pair = EqKey::generate_keypair_from(prg, alpha, s_a, s_b, mask);
        proof {
            assert forall|x: u32|
                wrap(#[trigger] Self::spec_eval(pair.0@, prg0.spec_expand(), 0, x) + Self::spec_eval(
                    pair.1@,
                    prg0.spec_expand(),
                    1,
                    x,
                )) == Self::spec_function(
                    wrap(Self::spec_alpha_share(pair.0@) + Self::spec_alpha_share(pair.1@)),
                    x,
                ) by {
                Self::lemma_pair_correct(prg0.spec_expand(), pair.0@, pair.1@, x);
            }
        }
        pair
    }
}

impl RawKey for EqKey {
    open spec fn spec_key_len() -> nat {
        621
    }

    open spec fn spec_encode(k: EqKeyView, prev: Seq<u8>) -> Seq<u8> {
        eq_encode(k, prev)
    }

    open spec fn spec_decode(b: Seq<u8>) -> EqKeyView {
        eq_decode(b)
    }

    open spec fn spec_well_formed(k: EqKeyView) -> bool {
        k.cw.len() == 32 && k.t_l.len() == 32 && k.t_r.len() == 32
    }

    proof fn lemma_round_trip(k: EqKeyView, prev: Seq<u8>) {
        lemma_eq_round_trip(k, prev);
    }

    fn key_len() -> (r: usize) {
        621
    }

    fn to_raw_line(&self, line: &mut [u8], at: usize) {
        write_key_to_array(self, line, at);
    }

    fn from_raw_line(line: &[u8], at: usize) -> (r: Self) {
        read_key_from_array(line, at)
    }
}

} // verus!
