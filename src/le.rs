//!
//! Comparison keys: an interval function `x <= alpha` on a secret-shared point.
//!
use vstd::prelude::*;

use crate::fss::dif::{
    dif_corrections, dif_eval, generate_cw_from_seeds, lemma_dif_correct, CompressedCorrectionWord,
    DIFKey1, DIFKeyAlpha1,
};
use crate::stream::{ExpandFn, FSSKey, Prg, RawKey};
use crate::utils::{
    get_u128, get_u32, le_bytes_u128, le_bytes_u32, le_u128_of, le_u32_of,
    lemma_le_u128_round_trip, lemma_le_u32_round_trip, put_u128, put_u32, wrap,
};

verus! {

/// One party's comparison key.
#[derive(Debug)]
pub struct LeKey {
    pub alpha_share: u32,
    pub s: u128,
    pub cw: [CompressedCorrectionWord; 32],
    pub cw_leaf: [u32; 33],
}

/// The contents of a comparison key.
pub struct LeKeyView {
    pub alpha_share: u32,
    pub s: u128,
    pub cw: Seq<CompressedCorrectionWord>,
    pub cw_leaf: Seq<u32>,
}

impl View for LeKey {
    type V = LeKeyView;

    open spec fn view(&self) -> LeKeyView {
        LeKeyView {
            alpha_share: self.alpha_share,
            s: self.s,
            cw: self.cw@,
            cw_leaf: self.cw_leaf@,
        }
    }
}

/// `a` (party 0) and `b` (party 1) share every correction word and leaf, and
/// those are the ones key generation derives from the recombined point and the
/// two root seeds.
pub open spec fn le_pair(prg: ExpandFn, a: LeKeyView, b: LeKeyView) -> bool {
    &&& a.cw == b.cw
    &&& a.cw_leaf == b.cw_leaf
    &&& dif_corrections(prg, wrap(a.alpha_share + b.alpha_share), a.s, b.s, a.cw, a.cw_leaf)
}

/// `a` (party 0) and `b` (party 1) are the pair that key generation makes from
/// the point `alpha`, the root seeds `s_a`, `s_b` and the mask `mask`: party 0
/// holds `alpha - mask` and party 1 holds `mask`.
pub open spec fn le_generated(
    prg: ExpandFn,
    alpha: u32,
    s_a: u128,
    s_b: u128,
    mask: u32,
    a: LeKeyView,
    b: LeKeyView,
) -> bool {
    &&& a.alpha_share == wrap(alpha - mask)
    &&& b.alpha_share == mask
    &&& a.s == s_a
    &&& b.s == s_b
    &&& le_pair(prg, a, b)
}

/// Key generation is deterministic: the same generator, point, root seeds and
/// mask give the same pair.
pub proof fn lemma_le_keygen_deterministic(
    prg: ExpandFn,
    alpha: u32,
    s_a: u128,
    s_b: u128,
    mask: u32,
    a1: LeKeyView,
    b1: LeKeyView,
    a2: LeKeyView,
    b2: LeKeyView,
)
    requires
        le_generated(prg, alpha, s_a, s_b, mask, a1, b1),
        le_generated(prg, alpha, s_a, s_b, mask, a2, b2),
    ensures
        a1 == a2,
        b1 == b2,
{
    assert(a1.cw =~= a2.cw);
    assert(a1.cw_leaf =~= a2.cw_leaf);
}

/// The 24 bytes of level `i`: seed, value, then the bits `t_l, t_r, u_l, u_r`.
pub open spec fn le_level_bytes(k: LeKeyView, i: int) -> Seq<u8> {
    let c = k.cw[i];
    le_bytes_u128(c.s) + le_bytes_u32(c.z) + seq![c.t_l, c.t_r, c.u_l, c.u_r]
}

/// The bytes of the first `n` levels.
pub open spec fn le_levels_bytes(k: LeKeyView, n: nat) -> Seq<u8>
    decreases n,
{
    if n == 0 {
        Seq::empty()
    } else {
        le_levels_bytes(k, (n - 1) as nat) + le_level_bytes(k, n - 1)
    }
}

/// The bytes of the first `n` leaf corrections.
pub open spec fn le_leaves_bytes(k: LeKeyView, n: nat) -> Seq<u8>
    decreases n,
{
    if n == 0 {
        Seq::empty()
    } else {
        le_leaves_bytes(k, (n - 1) as nat) + le_bytes_u32(k.cw_leaf[n - 1])
    }
}

/// The 920 bytes of a key: share of the point, root seed, 32 levels of 24
/// bytes from offset 20, then the 33 leaf corrections from offset 788.
pub open spec fn le_encode(k: LeKeyView) -> Seq<u8> {
    le_bytes_u32(k.alpha_share) + le_bytes_u128(k.s) + le_levels_bytes(k, 32) + le_leaves_bytes(
        k,
        33,
    )
}

/// The correction word that level `i` of 920 bytes holds.
pub open spec fn le_decode_cw(b: Seq<u8>, i: int) -> CompressedCorrectionWord {
    let p = 20 + 24 * i;
    CompressedCorrectionWord {
        s: le_u128_of(b.subrange(p, p + 16)),
        z: le_u32_of(b.subrange(p + 16, p + 20)),
        t_l: b[p + 20],
        t_r: b[p + 21],
        u_l: b[p + 22],
        u_r: b[p + 23],
    }
}

/// The key that 920 bytes hold.
pub open spec fn le_decode(b: Seq<u8>) -> LeKeyView {
    LeKeyView {
        alpha_share: le_u32_of(b.subrange(0, 4)),
        s: le_u128_of(b.subrange(4, 20)),
        cw: Seq::new(32, |i: int| le_decode_cw(b, i)),
        cw_leaf: Seq::new(33, |i: int| le_u32_of(b.subrange(788 + 4 * i, 792 + 4 * i))),
    }
}

proof fn lemma_levels(k: LeKeyView, n: nat)
    ensures
        le_levels_bytes(k, n).len() == 24 * n,
        forall|i: int|
            0 <= i < n ==> #[trigger] le_levels_bytes(k, n).subrange(24 * i, 24 * i + 24)
                == le_level_bytes(k, i),
    decreases n,
{
    if n > 0 {
        let m = (n - 1) as nat;
        lemma_levels(k, m);
        let prev = le_levels_bytes(k, m);
        let cur = le_levels_bytes(k, n);
        assert forall|i: int| 0 <= i < n implies #[trigger] cur.subrange(24 * i, 24 * i + 24)
            == le_level_bytes(k, i) by {
            if i < m {
                assert(cur.subrange(24 * i, 24 * i + 24) =~= prev.subrange(24 * i, 24 * i + 24));
            } else {
                assert(cur.subrange(24 * i, 24 * i + 24) =~= le_level_bytes(k, i));
            }
        }
    }
}

proof fn lemma_leaves(k: LeKeyView, n: nat)
    ensures
        le_leaves_bytes(k, n).len() == 4 * n,
        forall|i: int|
            0 <= i < n ==> #[trigger] le_leaves_bytes(k, n).subrange(4 * i, 4 * i + 4)
                == le_bytes_u32(k.cw_leaf[i]),
    decreases n,
{
    if n > 0 {
        let m = (n - 1) as nat;
        lemma_leaves(k, m);
        let prev = le_leaves_bytes(k, m);
        let cur = le_leaves_bytes(k, n);
        assert forall|i: int| 0 <= i < n implies #[trigger] cur.subrange(4 * i, 4 * i + 4)
            == le_bytes_u32(k.cw_leaf[i]) by {
            if i < m {
                assert(cur.subrange(4 * i, 4 * i + 4) =~= prev.subrange(4 * i, 4 * i + 4));
            } else {
                assert(cur.subrange(4 * i, 4 * i + 4) =~= le_bytes_u32(k.cw_leaf[i]));
            }
        }
    }
}

/// Reading back the 920 bytes of a key with 32 levels and 33 leaves gives the key again.
pub proof fn lemma_le_round_trip(k: LeKeyView)
    requires
        k.cw.len() == 32,
        k.cw_leaf.len() == 33,
    ensures
        le_encode(k).len() == 920,
        le_decode(le_encode(k)) == k,
{
    let b = le_encode(k);
    lemma_levels(k, 32);
    lemma_leaves(k, 33);
    lemma_le_u32_round_trip(k.alpha_share);
    lemma_le_u128_round_trip(k.s);
    let lv = le_levels_bytes(k, 32);
    let lf = le_leaves_bytes(k, 33);
    assert(b.subrange(0, 4) =~= le_bytes_u32(k.alpha_share));
    assert(b.subrange(4, 20) =~= le_bytes_u128(k.s));
    let d = le_decode(b);
    assert forall|i: int| 0 <= i < 32 implies d.cw[i] == k.cw[i] by {
        let lb = lv.subrange(24 * i, 24 * i + 24);
        let c = k.cw[i];
        assert(lb == le_level_bytes(k, i));
        lemma_le_u128_round_trip(c.s);
        lemma_le_u32_round_trip(c.z);
        let p = 20 + 24 * i;
        assert forall|m: int| 0 <= m < 24 implies #[trigger] b[p + m] == lb[m] by {
            assert(b[p + m] == lv[24 * i + m]);
        }
        assert forall|m: int| 0 <= m < 16 implies #[trigger] b.subrange(p, p + 16)[m]
            == le_bytes_u128(c.s)[m] by {
            assert(b[p + m] == lb[m]);
        }
        assert forall|m: int| 0 <= m < 4 implies #[trigger] b.subrange(p + 16, p + 20)[m]
            == le_bytes_u32(c.z)[m] by {
            assert(b[p + 16 + m] == lb[16 + m]);
        }
        assert(b.subrange(p, p + 16) =~= le_bytes_u128(c.s));
        assert(b.subrange(p + 16, p + 20) =~= le_bytes_u32(c.z));
        assert(b[p + 20] == lb[20]);
        assert(b[p + 23] == lb[23]);
    }
    assert forall|i: int| 0 <= i < 33 implies d.cw_leaf[i] == k.cw_leaf[i] by {
        let lb = lf.subrange(4 * i, 4 * i + 4);
        assert(lb == le_bytes_u32(k.cw_leaf[i]));
        lemma_le_u32_round_trip(k.cw_leaf[i]);
        assert forall|m: int| 0 <= m < 4 implies #[trigger] b.subrange(788 + 4 * i, 792 + 4 * i)[m]
            == lb[m] by {
            assert(b[788 + 4 * i + m] == lf[4 * i + m]);
        }
        assert(b.subrange(788 + 4 * i, 792 + 4 * i) =~= lb);
    }
    assert(d.cw =~= k.cw);
    assert(d.cw_leaf =~= k.cw_leaf);
}

/// Writes the 920 bytes of `key` at `at`; the other bytes stay.
pub fn write_key_to_array(key: &LeKey, array: &mut [u8], at: usize)
    requires
        at + 920 <= old(array)@.len(),
    ensures
        final(array)@.len() == old(array)@.len(),
        final(array)@.subrange(at as int, at + 920) == le_encode(key@),
        forall|j: int|
            0 <= j < old(array)@.len() && !(at <= j < at + 920) ==> #[trigger] final(array)@[j]
                == old(array)@[j],
{
    let ghost a0 = array@;
    let ghost k = key@;
    let n = array.len();
    put_u32(array, at, key.alpha_share);
    put_u128(array, at + 4, key.s);
    assert(array@.subrange(at as int, at + 20) =~= le_bytes_u32(k.alpha_share) + le_bytes_u128(k.s));
    let ghost head = le_bytes_u32(k.alpha_share) + le_bytes_u128(k.s);
    let mut i: usize = 0;
    while i < 32
        invariant
            i <= 32,
            k == key@,
            head == le_bytes_u32(k.alpha_share) + le_bytes_u128(k.s),
            at + 920 <= a0.len(),
            n == a0.len(),
            array@.len() == a0.len(),
            array@.subrange(at as int, at + 20 + 24 * i) == head + le_levels_bytes(k, i as nat),
            forall|j: int|
                0 <= j < a0.len() && !(at <= j < at + 920) ==> #[trigger] array@[j] == a0[j],
        decreases 32 - i,
    {
        let ghost prev = array@;
        let p = at + 20 + 24 * i;
        let c = key.cw[i];
        put_u128(array, p, c.s);
        let ghost mid = array@;
        put_u32(array, p + 16, c.z);
        array[p + 20] = c.t_l;
        array[p + 21] = c.t_r;
        array[p + 22] = c.u_l;
        array[p + 23] = c.u_r;
        proof {
            assert(array@.subrange(p as int, p + 16) =~= mid.subrange(p as int, p + 16));
            assert(array@.subrange(p as int, p + 24) =~= le_level_bytes(k, i as int));
            assert(array@.subrange(at as int, p as int) =~= prev.subrange(at as int, p as int));
            assert(array@.subrange(at as int, at + 20 + 24 * (i + 1)) =~= array@.subrange(
                at as int,
                p as int,
            ) + array@.subrange(p as int, p + 24));
            assert(le_levels_bytes(k, (i + 1) as nat) == le_levels_bytes(k, i as nat)
                + le_level_bytes(k, i as int));
            assert(array@.subrange(at as int, at + 20 + 24 * (i + 1)) =~= head + le_levels_bytes(
                k,
                (i + 1) as nat,
            ));
        }
        i = i + 1;
    }
    let ghost body = head + le_levels_bytes(k, 32);
    let mut i: usize = 0;
    while i < 33
        invariant
            i <= 33,
            k == key@,
            body == head + le_levels_bytes(k, 32),
            at + 920 <= a0.len(),
            n == a0.len(),
            array@.len() == a0.len(),
            array@.subrange(at as int, at + 788 + 4 * i) == body + le_leaves_bytes(k, i as nat),
            forall|j: int|
                0 <= j < a0.len() && !(at <= j < at + 920) ==> #[trigger] array@[j] == a0[j],
        decreases 33 - i,
    {
        let ghost prev = array@;
        let p = at + 788 + 4 * i;
        put_u32(array, p, key.cw_leaf[i]);
        proof {
            assert(array@.subrange(at as int, p as int) =~= prev.subrange(at as int, p as int));
            assert(array@.subrange(at as int, at + 788 + 4 * (i + 1)) =~= array@.subrange(
                at as int,
                p as int,
            ) + array@.subrange(p as int, p + 4));
            assert(le_leaves_bytes(k, (i + 1) as nat) == le_leaves_bytes(k, i as nat)
                + le_bytes_u32(k.cw_leaf[i as int]));
            assert(array@.subrange(at as int, at + 788 + 4 * (i + 1)) =~= body + le_leaves_bytes(
                k,
                (i + 1) as nat,
            ));
        }
        i = i + 1;
    }
}

/// Reads the key whose 920 bytes start at `at`.
pub fn read_key_from_array(array: &[u8], at: usize) -> (r: LeKey)
    requires
        at + 920 <= array@.len(),
    ensures
        r@ == le_decode(array@.subrange(at as int, at + 920)),
{
    let ghost b = array@.subrange(at as int, at + 920);
    let n = array.len();
    let alpha_share = get_u32(array, at);
    let s = get_u128(array, at + 4);
    assert(array@.subrange(at as int, at + 4) =~= b.subrange(0, 4));
    assert(array@.subrange(at + 4, at + 20) =~= b.subrange(4, 20));

    let mut cw = [CompressedCorrectionWord { z: 0, s: 0, t_l: 0, t_r: 0, u_l: 0, u_r: 0 }; 32];
    let mut cw_leaf = [0u32; 33];
    let mut i: usize = 0;
    while i < 32
        invariant
            i <= 32,
            at + 920 <= array@.len(),
            n == array@.len(),
            b == array@.subrange(at as int, at + 920),
            forall|j: int| 0 <= j < i ==> #[trigger] cw@[j] == le_decode_cw(b, j),
        decreases 32 - i,
    {
        let p = at + 20 + 24 * i;
        let s = get_u128(array, p);
        let z = get_u32(array, p + 16);
        let ghost q = 20 + 24 * i;
        assert(array@.subrange(p as int, p + 16) =~= b.subrange(q, q + 16));
        assert(array@.subrange(p + 16, p + 20) =~= b.subrange(q + 16, q + 20));
        assert(b[q + 20] == array@[p + 20]);
        assert(b[q + 21] == array@[p + 21]);
        assert(b[q + 22] == array@[p + 22]);
        assert(b[q + 23] == array@[p + 23]);
        cw[i] = CompressedCorrectionWord {
            s,
            z,
            t_l: array[p + 20],
            t_r: array[p + 21],
            u_l: array[p + 22],
            u_r: array[p + 23],
        };
        i = i + 1;
    }
    let mut i: usize = 0;
    while i < 33
        invariant
            i <= 33,
            at + 920 <= array@.len(),
            n == array@.len(),
            b == array@.subrange(at as int, at + 920),
            forall|j: int|
                0 <= j < i ==> #[trigger] cw_leaf@[j] == le_u32_of(
                    b.subrange(788 + 4 * j, 792 + 4 * j),
                ),
        decreases 33 - i,
    {
        let p = at + 788 + 4 * i;
        cw_leaf[i] = get_u32(array, p);
        assert(array@.subrange(p as int, p + 4) =~= b.subrange(788 + 4 * i, 792 + 4 * i));
        i = i + 1;
    }
    let r = LeKey { alpha_share, s, cw, cw_leaf };
    assert(r@.cw =~= le_decode(b).cw);
    assert(r@.cw_leaf =~= le_decode(b).cw_leaf);
    r
}

impl LeKey {
    /// The key pair for the point `alpha`, the root seeds `s_a` (party 0) and
    /// `s_b` (party 1), and the mask `mask` that splits `alpha` into
    /// `alpha - mask` (party 0) and `mask` (party 1).
    pub fn generate_keypair_from<P: Prg>(prg: &mut P, alpha: u32, s_a: u128, s_b: u128, mask: u32) -> (r: (LeKey, LeKey))
        requires
            old(prg).spec_subkeys().len() >= 3,
        ensures
            *final(prg) == *old(prg),
            le_generated(old(prg).spec_expand(), alpha, s_a, s_b, mask, r.0@, r.1@),
    {
        let (cw, cw_leaf) = generate_cw_from_seeds(prg, alpha, s_a, s_b);
        let alpha_share = alpha.wrapping_sub(mask);
        proof {
            assert(wrap(wrap(alpha - mask) + mask) == alpha);
        }
        (
            LeKey { alpha_share, s: s_a, cw, cw_leaf },
            LeKey { alpha_share: mask, s: s_b, cw, cw_leaf },
        )
    }
}

impl FSSKey for LeKey {
    open spec fn spec_blocks() -> nat {
        3
    }

    open spec fn spec_function(alpha: u32, x: u32) -> u32 {
        if x <= alpha {
            1
        } else {
            0
        }
    }

    open spec fn spec_alpha_share(k: LeKeyView) -> u32 {
        k.alpha_share
    }

    open spec fn spec_eval(k: LeKeyView, prg: ExpandFn, party_id: u8, x: u32) -> u32 {
        dif_eval(prg, k.s, k.cw, k.cw_leaf, party_id, x)
    }

    open spec fn spec_pair(prg: ExpandFn, a: LeKeyView, b: LeKeyView) -> bool {
        le_pair(prg, a, b)
    }

    proof fn lemma_pair_correct(prg: ExpandFn, a: LeKeyView, b: LeKeyView, x: u32) {
        lemma_dif_correct(prg, wrap(a.alpha_share + b.alpha_share), a.s, b.s, a.cw, a.cw_leaf, x);
    }

    fn eval<P: Prg>(&self, prg: &mut P, party_id: u8, x: u32) -> (r: u32) {
        let key = DIFKeyAlpha1 { s: self.s, cw: self.cw, cw_leaf: self.cw_leaf };
        key.eval(prg, party_id, x)
    }

    fn generate_keypair<P: Prg>(prg: &mut P) -> (r: (Self, Self)) {
        let ghost e = prg.spec_expand();
        // The point, the root seeds and the mask are drawn at random.
        let alpha: u32 = rand::random::<u32>();
        let s_a: u128 = rand::random::<u128>();
        let s_b: u128 = rand::random::<u128>();
        let mask: u32 = rand::random::<u32>();
        let pair = LeKey::generate_keypair_from(prg, alpha, s_a, s_b, mask);
        proof {
            assert forall|x: u32|
                wrap(#[trigger] Self::spec_eval(pair.0@, e, 0, x) + Self::spec_eval(pair.1@, e, 1, x))
                    == Self::spec_function(
                    wrap(Self::spec_alpha_share(pair.0@) + Self::spec_alpha_share(pair.1@)),
                    x,
                ) by {
                Self::lemma_pair_correct(e, pair.0@, pair.1@, x);
            }
        }
        pair
    }
}

impl RawKey for LeKey {
    open spec fn spec_key_len() -> nat {
        920
    }

    open spec fn spec_encode(k: LeKeyView, prev: Seq<u8>) -> Seq<u8> {
        le_encode(k)
    }

    open spec fn spec_decode(b: Seq<u8>) -> LeKeyView {
        le_decode(b)
    }

    open spec fn spec_well_formed(k: LeKeyView) -> bool {
        k.cw.len() == 32 && k.cw_leaf.len() == 33
    }

    proof fn lemma_round_trip(k: LeKeyView, prev: Seq<u8>) {
        lemma_le_round_trip(k);
    }

    fn key_len() -> (r: usize) {
        920
    }

    fn to_raw_line(&self, line: &mut [u8], at: usize) {
        write_key_to_array(self, line, at);
    }

    fn from_raw_line(line: &[u8], at: usize) -> (r: Self) {
        read_key_from_array(line, at)
    }
}

} // verus!
