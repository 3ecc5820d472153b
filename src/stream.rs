//! The generator and key capabilities, and the per-stream batch work.
use vstd::prelude::*;

use crate::eq::EqKey;
use crate::le::LeKey;
use crate::utils::{get_u32, le_u32_of, mmo_expand, wrap, Mmo};

verus! {

/// What a generator makes of a seed: its output blocks.
pub type ExpandFn = spec_fn(u128) -> Seq<u128>;

/// A keyed pseudorandom generator: a fixed set of subkeys, each giving one
/// 128-bit output block per seed.
pub trait Prg: Sized {
    /// The subkeys the generator was built from.
    spec fn spec_subkeys(&self) -> Seq<u128>;

    /// The output blocks for each seed.
    spec fn spec_expand(&self) -> ExpandFn;

    fn from_slice(key: &[u128]) -> (r: Self)
        ensures
            r.spec_subkeys() == key@,
    ;

    fn from_vec(key: &Vec<u128>) -> (r: Self)
        ensures
            r.spec_subkeys() == key@,
    ;

    /// One block per subkey; the generator is left as it was.
    fn expand(&mut self, seed: u128) -> (r: Vec<u128>)
        ensures
            r@ == old(self).spec_expand()(seed),
            r@.len() == old(self).spec_subkeys().len(),
            *final(self) == *old(self),
    ;
}

/// A key of a two-party function secret sharing scheme over 32-bit inputs.
/// The two keys of a pair hold additive shares of a secret `alpha`; their
/// output shares on `x` sum modulo 2^32 to `spec_function(alpha, x)`.
pub trait FSSKey: Sized + View {
    /// The number of generator blocks that one level of the tree reads.
    spec fn spec_blocks() -> nat;

    /// The shared function: 1 or 0 for the secret `alpha` and the input `x`.
    spec fn spec_function(alpha: u32, x: u32) -> u32;

    /// The key's share of the secret.
    spec fn spec_alpha_share(k: Self::V) -> u32;

    /// The output share of key `k`, as party `party_id`, on `x`.
    spec fn spec_eval(k: Self::V, prg: ExpandFn, party_id: u8, x: u32) -> u32;

    /// `a` (party 0) and `b` (party 1) form a pair as key generation makes them.
    spec fn spec_pair(prg: ExpandFn, a: Self::V, b: Self::V) -> bool;

    /// Correctness of a pair: the two output shares on `x` sum modulo 2^32 to
    /// the shared function of the recombined secret.
    proof fn lemma_pair_correct(prg: ExpandFn, a: Self::V, b: Self::V, x: u32)
        requires
            Self::spec_pair(prg, a, b),
        ensures
            wrap(Self::spec_eval(a, prg, 0, x) + Self::spec_eval(b, prg, 1, x))
                == Self::spec_function(wrap(Self::spec_alpha_share(a) + Self::spec_alpha_share(b)), x),
    ;

    fn eval<P: Prg>(&self, prg: &mut P, party_id: u8, x: u32) -> (r: u32)
        requires
            party_id <= 1,
            old(prg).spec_subkeys().len() >= Self::spec_blocks(),
        ensures
            r == Self::spec_eval(self@, old(prg).spec_expand(), party_id, x),
            *final(prg) == *old(prg),
    ;

    /// A fresh pair for a secret drawn at random.
    fn generate_keypair<P: Prg>(prg: &mut P) -> (r: (Self, Self))
        requires
            old(prg).spec_subkeys().len() >= Self::spec_blocks(),
        ensures
            *final(prg) == *old(prg),
            Self::spec_pair(old(prg).spec_expand(), r.0@, r.1@),
            forall|x: u32|
                wrap(#[trigger] Self::spec_eval(r.0@, old(prg).spec_expand(), 0, x)
                    + Self::spec_eval(r.1@, old(prg).spec_expand(), 1, x)) == Self::spec_function(
                    wrap(Self::spec_alpha_share(r.0@) + Self::spec_alpha_share(r.1@)),
                    x,
                ),
    ;
}

/// A key with a fixed-length flat byte layout.
pub trait RawKey: Sized + View {
    /// The number of bytes of a key.
    spec fn spec_key_len() -> nat;

    /// The bytes of a key written over the `spec_key_len()` bytes `prev`
    /// (bytes that hold no field keep their values from `prev`).
    spec fn spec_encode(k: Self::V, prev: Seq<u8>) -> Seq<u8>;

    /// The key that a run of `spec_key_len()` bytes holds.
    spec fn spec_decode(b: Seq<u8>) -> Self::V;

    /// The contents of every key of this type have their fixed shape.
    spec fn spec_well_formed(k: Self::V) -> bool;

    /// A well-formed key takes `spec_key_len()` bytes, and reading them back
    /// gives it again, whatever bytes it was written over.
    proof fn lemma_round_trip(k: Self::V, prev: Seq<u8>)
        requires
            Self::spec_well_formed(k),
            prev.len() == Self::spec_key_len(),
        ensures
            Self::spec_encode(k, prev).len() == Self::spec_key_len(),
            Self::spec_decode(Self::spec_encode(k, prev)) == k,
    ;

    fn key_len() -> (r: usize)
        ensures
            r == Self::spec_key_len(),
    ;

    /// Writes the key's bytes at `at`; the other bytes stay.
    fn to_raw_line(&self, line: &mut [u8], at: usize)
        requires
            at + Self::spec_key_len() <= old(line)@.len(),
        ensures
            Self::spec_well_formed(self@),
            final(line)@.len() == old(line)@.len(),
            final(line)@.subrange(at as int, at + Self::spec_key_len()) == Self::spec_encode(
                self@,
                old(line)@.subrange(at as int, at + Self::spec_key_len()),
            ),
            forall|j: int|
                0 <= j < old(line)@.len() && !(at <= j < at + Self::spec_key_len())
                    ==> #[trigger] final(line)@[j] == old(line)@[j],
    ;

    /// Reads the key whose bytes start at `at`.
    fn from_raw_line(line: &[u8], at: usize) -> (r: Self)
        requires
            at + Self::spec_key_len() <= line@.len(),
        ensures
            Self::spec_well_formed(r@),
            r@ == Self::spec_decode(line@.subrange(at as int, at + Self::spec_key_len())),
    ;
}

/// The number of streams a batch is split into.
pub const N_STREAMS: usize = 128;

/// `(number of subkeys, key length, number of streams)` for the operation
/// `op_id`: 0 for equality keys, 1 for comparison keys.
pub fn build_params(op_id: usize) -> (r: (usize, usize, usize))
    requires
        op_id <= 1,
    ensures
        r == if op_id == 1 {
            (3usize, 920usize, N_STREAMS)
        } else {
            (2usize, 621usize, N_STREAMS)
        },
{
    let (keylen, n_aes_keys) = match op_id {
        1 => (920, 3),
        _ => (621, 2),
    };
    (n_aes_keys, keylen, N_STREAMS)
}

/// The fixed subkeys of a batch: `0, 1, ..., n - 1`.
pub fn aes_subkeys(n: usize) -> (r: Vec<u128>)
    ensures
        r@ == Seq::new(n as nat, |i: int| i as u128),
{
    let mut aes_keys: Vec<u128> = Vec::new();
    let mut i: usize = 0;
    while i < n
        invariant
            i <= n,
            aes_keys@ == Seq::new(i as nat, |k: int| k as u128),
        decreases n - i,
    {
        aes_keys.push(i as u128);
        i = i + 1;
        assert(aes_keys@ =~= Seq::new(i as nat, |k: int| k as u128));
    }
    aes_keys
}

/// The length of stream `k` when `n_values` slots are split into `n_streams`:
/// the first `n_values % n_streams` streams take one slot more.
pub open spec fn stream_len(n_values: nat, n_streams: nat, k: nat) -> nat {
    if k < n_values % n_streams {
        n_values / n_streams + 1
    } else {
        n_values / n_streams
    }
}

/// The first slot of stream `k`.
pub open spec fn stream_start(n_values: nat, n_streams: nat, k: nat) -> nat {
    k * (n_values / n_streams) + if k < n_values % n_streams {
        k
    } else {
        n_values % n_streams
    }
}

/// Splits `n_values` slots into `n_streams` contiguous streams, in order, and
/// returns `(first slot, length)` of each stream that is not empty.
pub fn partition_streams(n_values: usize, n_streams: usize) -> (r: Vec<(usize, usize)>)
    requires
        n_streams > 0,
    ensures
        r@.len() == if n_values < n_streams {
            n_values
        } else {
            n_streams
        },
        forall|k: int|
            0 <= k < r@.len() ==> #[trigger] r@[k] == (
                stream_start(n_values as nat, n_streams as nat, k as nat) as usize,
                stream_len(n_values as nat, n_streams as nat, k as nat) as usize,
            ) && r@[k].1 > 0,
        r@.len() > 0 ==> r@.last().0 + r@.last().1 == n_values,
{
    let default_length = n_values / n_streams;
    let n_longer_streams = n_values % n_streams;
    let mut args: Vec<(usize, usize)> = Vec::new();
    let mut line_counter: usize = 0;
    let mut stream_id: usize = 0;
    let ghost nv = n_values as nat;
    let ghost ns = n_streams as nat;
    proof {
        vstd::arithmetic::div_mod::lemma_fundamental_div_mod(n_values as int, n_streams as int);
    }
    while stream_id < n_streams
        invariant
            stream_id <= n_streams,
            nv == n_values,
            ns == n_streams,
            n_streams > 0,
            default_length == n_values / n_streams,
            n_longer_streams == n_values % n_streams,
            n_values == n_streams * default_length + n_longer_streams,
            line_counter == stream_start(nv, ns, stream_id as nat),
            line_counter <= n_values,
            args@.len() == if default_length > 0 {
                stream_id as int
            } else if stream_id < n_longer_streams {
                stream_id as int
            } else {
                n_longer_streams as int
            },
            forall|k: int|
                0 <= k < args@.len() ==> #[trigger] args@[k] == (
                    stream_start(nv, ns, k as nat) as usize,
                    stream_len(nv, ns, k as nat) as usize,
                ) && args@[k].1 > 0,
            args@.len() > 0 ==> args@.last().0 + args@.last().1 == line_counter,
        decreases n_streams - stream_id,
    {
        proof {
            if stream_id < n_longer_streams {
                assert(default_length + 1 <= n_values) by (nonlinear_arith)
                    requires
                        n_streams >= 1,
                        n_longer_streams >= 1,
                        n_values == n_streams * default_length + n_longer_streams,
                ;
            }
        }
        // The first streams take one slot more.
        let stream_length = if stream_id < n_longer_streams {
            default_length + 1
        } else {
            default_length
        };
        proof {
            assert(stream_start(nv, ns, (stream_id + 1) as nat) == stream_start(nv, ns, stream_id as nat)
                + stream_len(nv, ns, stream_id as nat)) by (nonlinear_arith)
                requires
                    default_length == nv / ns,
                    n_longer_streams == nv % ns,
            ;
            assert(stream_start(nv, ns, (stream_id + 1) as nat) <= nv) by (nonlinear_arith)
                requires
                    stream_id < ns,
                    default_length == nv / ns,
                    n_longer_streams == nv % ns,
                    nv == ns * default_length + n_longer_streams,
            ;
        }
        if stream_length > 0 {
            args.push((line_counter, stream_length));
            line_counter = line_counter + stream_length;
        } else {
            line_counter = line_counter + stream_length;
        }
        stream_id = stream_id + 1;
    }
    proof {
        assert(stream_start(nv, ns, ns) == nv) by (nonlinear_arith)
            requires
                default_length == nv / ns,
                n_longer_streams == nv % ns,
                nv == ns * default_length + n_longer_streams,
                n_longer_streams < ns,
        ;
        if default_length > 0 {
            assert(n_values >= n_streams) by (nonlinear_arith)
                requires
                    default_length >= 1,
                    n_values == n_streams * default_length + n_longer_streams,
                    n_longer_streams >= 0,
            ;
        } else {
            assert(n_values == n_longer_streams) by (nonlinear_arith)
                requires
                    default_length == 0,
                    n_values == n_streams * default_length + n_longer_streams,
            ;
        }
    }
    args
}

/// The bytes of slot `j` of a buffer of `key_len`-byte keys.
pub open spec fn key_slot(buf: Seq<u8>, j: int, key_len: int) -> Seq<u8> {
    buf.subrange(j * key_len, j * key_len + key_len)
}

/// The input of slot `j`: four little-endian bytes.
pub open spec fn input_slot(xs: Seq<u8>, j: int) -> u32 {
    le_u32_of(xs.subrange(4 * j, 4 * j + 4))
}

/// The keys of slot `j` of two buffers form a pair.
pub open spec fn slot_pair<K: FSSKey + RawKey>(prg: ExpandFn, keys_a: Seq<u8>, keys_b: Seq<u8>, j: int) -> bool {
    let len = K::spec_key_len() as int;
    K::spec_pair(prg, K::spec_decode(key_slot(keys_a, j, len)), K::spec_decode(key_slot(keys_b, j, len)))
}

/// Slot `j` of `keys` holds the bytes of the key it decodes to, written over
/// slot `j` of `prev`.
pub open spec fn slot_written<K: FSSKey + RawKey>(prev: Seq<u8>, keys: Seq<u8>, j: int) -> bool {
    let len = K::spec_key_len() as int;
    key_slot(keys, j, len) == K::spec_encode(
        K::spec_decode(key_slot(keys, j, len)),
        key_slot(prev, j, len),
    )
}

/// The secret that the keys of slot `j` of two buffers share.
pub open spec fn slot_alpha<K: FSSKey + RawKey>(keys_a: Seq<u8>, keys_b: Seq<u8>, j: int) -> u32 {
    let len = K::spec_key_len() as int;
    wrap(K::spec_alpha_share(K::spec_decode(key_slot(keys_a, j, len))) + K::spec_alpha_share(
        K::spec_decode(key_slot(keys_b, j, len)),
    ))
}

/// The output share, as party `party_id`, of the key of slot `j` on the input of slot `j`.
pub open spec fn slot_eval<K: FSSKey + RawKey>(prg: ExpandFn, party_id: u8, xs: Seq<u8>, keys: Seq<u8>, j: int) -> u32 {
    K::spec_eval(
        K::spec_decode(key_slot(keys, j, K::spec_key_len() as int)),
        prg,
        party_id,
        input_slot(xs, j),
    )
}

proof fn lemma_slot_bounds(j: int, n: int, len: int)
    requires
        0 <= j < n,
        0 <= len,
    ensures
        0 <= j * len,
        j * len + len <= n * len,
{
    assert(j * len + len <= n * len) by (nonlinear_arith)
        requires
            0 <= j < n,
            0 <= len,
    ;
    assert(0 <= j * len) by (nonlinear_arith)
        requires
            0 <= j,
            0 <= len,
    ;
}

fn generate_stream_of<K: FSSKey + RawKey>(prg: &mut Mmo, stream_length: usize, keys_a: &mut [u8], keys_b: &mut [u8])
    requires
        old(prg).spec_subkeys().len() >= K::spec_blocks(),
        old(keys_a)@.len() == stream_length * K::spec_key_len(),
        old(keys_b)@.len() == stream_length * K::spec_key_len(),
    ensures
        *final(prg) == *old(prg),
        final(keys_a)@.len() == old(keys_a)@.len(),
        final(keys_b)@.len() == old(keys_b)@.len(),
        forall|j: int|
            0 <= j < stream_length ==> #[trigger] slot_pair::<K>(
                old(prg).spec_expand(),
                final(keys_a)@,
                final(keys_b)@,
                j,
            ) && slot_written::<K>(old(keys_a)@, final(keys_a)@, j) && slot_written::<K>(
                old(keys_b)@,
                final(keys_b)@,
                j,
            ),
{
    let ghost prg0 = *prg;
    let ghost e = prg0.spec_expand();
    let ghost a0 = keys_a@;
    let ghost b0 = keys_b@;
    let key_len = K::key_len();
    let ghost len = key_len as int;
    let ghost total = keys_a@.len();
    let n_bytes = keys_a.len();
    let mut line_counter: usize = 0;
    while line_counter < stream_length
        invariant
            line_counter <= stream_length,
            *prg == prg0,
            e == prg0.spec_expand(),
            prg0.spec_subkeys().len() >= K::spec_blocks(),
            key_len == K::spec_key_len(),
            len == key_len,
            total == stream_length * K::spec_key_len(),
            n_bytes == total,
            a0.len() == total,
            b0.len() == total,
            keys_a@.len() == total,
            keys_b@.len() == total,
            forall|m: int| line_counter * len <= m < total ==> #[trigger] keys_a@[m] == a0[m],
            forall|m: int| line_counter * len <= m < total ==> #[trigger] keys_b@[m] == b0[m],
            forall|j: int|
                0 <= j < line_counter ==> #[trigger] slot_pair::<K>(e, keys_a@, keys_b@, j)
                    && slot_written::<K>(a0, keys_a@, j) && slot_written::<K>(b0, keys_b@, j),
        decreases stream_length - line_counter,
    {
        proof {
            lemma_slot_bounds(line_counter as int, stream_length as int, len);
        }
        let (key_a, key_b) = K::generate_keypair(prg);
        let at = line_counter * key_len;
        let ghost old_a = keys_a@;
        let ghost old_b = keys_b@;
        key_a.to_raw_line(keys_a, at);
        key_b.to_raw_line(keys_b, at);
        proof {
            let l = line_counter as int;
            assert(key_slot(old_a, l, len) =~= key_slot(a0, l, len));
            assert(key_slot(old_b, l, len) =~= key_slot(b0, l, len));
            K::lemma_round_trip(key_a@, key_slot(a0, l, len));
            K::lemma_round_trip(key_b@, key_slot(b0, l, len));
            assert(key_slot(keys_a@, l, len) == K::spec_encode(key_a@, key_slot(a0, l, len)));
            assert(key_slot(keys_b@, l, len) == K::spec_encode(key_b@, key_slot(b0, l, len)));
            assert((l + 1) * len == l * len + len) by (nonlinear_arith);
            assert forall|j: int| 0 <= j < line_counter + 1 implies #[trigger] slot_pair::<K>(
                e,
                keys_a@,
                keys_b@,
                j,
            ) && slot_written::<K>(a0, keys_a@, j) && slot_written::<K>(b0, keys_b@, j) by {
                if j < line_counter {
                    lemma_slot_bounds(j, line_counter as int, len);
                    assert(slot_pair::<K>(e, old_a, old_b, j));
                    assert(slot_written::<K>(a0, old_a, j));
                    assert(slot_written::<K>(b0, old_b, j));
                    assert(key_slot(keys_a@, j, len) =~= key_slot(old_a, j, len));
                    assert(key_slot(keys_b@, j, len) =~= key_slot(old_b, j, len));
                } else {
                    assert(K::spec_decode(key_slot(keys_a@, j, len)) == key_a@);
                    assert(K::spec_decode(key_slot(keys_b@, j, len)) == key_b@);
                    assert(K::spec_pair(e, key_a@, key_b@));
                }
            }
        }
        line_counter = line_counter + 1;
    }
}

fn eval_stream_of<K: FSSKey + RawKey>(
    party_id: u8,
    prg: &mut Mmo,
    stream_length: usize,
    xs: &[u8],
    keys: &[u8],
    results: &mut [i64],
)
    requires
        party_id <= 1,
        old(prg).spec_subkeys().len() >= K::spec_blocks(),
        xs@.len() == 4 * stream_length,
        keys@.len() == stream_length * K::spec_key_len(),
        old(results)@.len() == stream_length,
    ensures
        *final(prg) == *old(prg),
        final(results)@.len() == stream_length,
        forall|j: int|
            0 <= j < stream_length ==> #[trigger] final(results)@[j] == slot_eval::<K>(
                old(prg).spec_expand(),
                party_id,
                xs@,
                keys@,
                j,
            ) as i64,
{
    let ghost prg0 = *prg;
    let ghost e = prg0.spec_expand();
    let key_len = K::key_len();
    let ghost len = key_len as int;
    let n_xs = xs.len();
    let n_keys = keys.len();
    let mut line_counter: usize = 0;
    while line_counter < stream_length
        invariant
            line_counter <= stream_length,
            n_xs == xs@.len(),
            n_keys == keys@.len(),
            party_id <= 1,
            *prg == prg0,
            e == prg0.spec_expand(),
            prg0.spec_subkeys().len() >= K::spec_blocks(),
            key_len == K::spec_key_len(),
            len == key_len,
            xs@.len() == 4 * stream_length,
            keys@.len() == stream_length * K::spec_key_len(),
            results@.len() == stream_length,
            forall|j: int|
                0 <= j < line_counter ==> #[trigger] results@[j] == slot_eval::<K>(
                    e,
                    party_id,
                    xs@,
                    keys@,
                    j,
                ) as i64,
        decreases stream_length - line_counter,
    {
        proof {
            lemma_slot_bounds(line_counter as int, stream_length as int, len);
        }
        // Read the input and the key of the slot, evaluate, write the share.
        let x = get_u32(xs, 4 * line_counter);
        let key = K::from_raw_line(keys, line_counter * key_len);
        let result = key.eval(prg, party_id, x);
        results[line_counter] = result as i64;
        line_counter = line_counter + 1;
    }
}

/// The number of generator blocks one level of the operation `op_id` reads.
pub open spec fn op_blocks(op_id: usize) -> nat {
    if op_id == 0 {
        2
    } else {
        3
    }
}

/// The key length of the operation `op_id`.
pub open spec fn op_key_len(op_id: usize) -> nat {
    if op_id == 0 {
        621
    } else {
        920
    }
}

/// Fills the `stream_length` slots of two key buffers, one for each party,
/// with fresh key pairs of the operation `op_id` (0: equality, 1: comparison)
/// under the generator of the subkeys `aes_keys`: each slot holds the bytes
/// of its key, and the bytes of a slot that hold no field keep their values.
pub fn generate_key_stream(
    aes_keys: &Vec<u128>,
    _stream_id: usize,
    stream_length: usize,
    keys_a: &mut [u8],
    keys_b: &mut [u8],
    op_id: usize,
)
    requires
        op_id <= 1,
        aes_keys@.len() >= op_blocks(op_id),
        old(keys_a)@.len() == stream_length * op_key_len(op_id),
        old(keys_b)@.len() == stream_length * op_key_len(op_id),
    ensures
        final(keys_a)@.len() == old(keys_a)@.len(),
        final(keys_b)@.len() == old(keys_b)@.len(),
        op_id == 0 ==> forall|j: int|
            0 <= j < stream_length ==> #[trigger] slot_pair::<EqKey>(
                mmo_expand(aes_keys@),
                final(keys_a)@,
                final(keys_b)@,
                j,
            ) && slot_written::<EqKey>(old(keys_a)@, final(keys_a)@, j) && slot_written::<EqKey>(
                old(keys_b)@,
                final(keys_b)@,
                j,
            ),
        op_id == 1 ==> forall|j: int|
            0 <= j < stream_length ==> #[trigger] slot_pair::<LeKey>(
                mmo_expand(aes_keys@),
                final(keys_a)@,
                final(keys_b)@,
                j,
            ) && slot_written::<LeKey>(old(keys_a)@, final(keys_a)@, j) && slot_written::<LeKey>(
                old(keys_b)@,
                final(keys_b)@,
                j,
            ),
{
    let mut prg = Mmo::from_vec(aes_keys);
    assert(prg.spec_expand() == mmo_expand(aes_keys@));
    if op_id == 0 {
        generate_stream_of::<EqKey>(&mut prg, stream_length, keys_a, keys_b);
    } else {
        generate_stream_of::<LeKey>(&mut prg, stream_length, keys_a, keys_b);
    }
}

/// Evaluates, as party `party_id`, each of the `stream_length` slots of a key
/// buffer of the operation `op_id` on the input of the same slot, and writes
/// the 32-bit output share of each slot to `results`.
pub fn eval_key_stream(
    party_id: u8,
    aes_keys: &Vec<u128>,
    _stream_id: usize,
    stream_length: usize,
    xs: &[u8],
    keys: &[u8],
    results: &mut [i64],
    op_id: usize,
)
    requires
        party_id <= 1,
        op_id <= 1,
        aes_keys@.len() >= op_blocks(op_id),
        xs@.len() == 4 * stream_length,
        keys@.len() == stream_length * op_key_len(op_id),
        old(results)@.len() == stream_length,
    ensures
        final(results)@.len() == stream_length,
        op_id == 0 ==> forall|j: int|
            0 <= j < stream_length ==> #[trigger] final(results)@[j] == slot_eval::<EqKey>(
                mmo_expand(aes_keys@),
                party_id,
                xs@,
                keys@,
                j,
            ) as i64,
        op_id == 1 ==> forall|j: int|
            0 <= j < stream_length ==> #[trigger] final(results)@[j] == slot_eval::<LeKey>(
                mmo_expand(aes_keys@),
                party_id,
                xs@,
                keys@,
                j,
            ) as i64,
{
    let mut prg = Mmo::from_vec(aes_keys);
    assert(prg.spec_expand() == mmo_expand(aes_keys@));
    if op_id == 0 {
        eval_stream_of::<EqKey>(party_id, &mut prg, stream_length, xs, keys, results);
    } else {
        eval_stream_of::<LeKey>(party_id, &mut prg, stream_length, xs, keys, results);
    }
}

/// Batch correctness: where slot `j` of two key buffers holds a pair (as
/// `generate_key_stream` leaves every slot), the output shares of the two
/// slots on the input of slot `j` (as `eval_key_stream` computes them) sum
/// modulo 2^32 to the shared function of the slot's secret and input.
pub proof fn lemma_batch_correct<K: FSSKey + RawKey>(
    prg: ExpandFn,
    xs: Seq<u8>,
    keys_a: Seq<u8>,
    keys_b: Seq<u8>,
    j: int,
)
    requires
        slot_pair::<K>(prg, keys_a, keys_b, j),
    ensures
        wrap(slot_eval::<K>(prg, 0, xs, keys_a, j) + slot_eval::<K>(prg, 1, xs, keys_b, j))
            == K::spec_function(slot_alpha::<K>(keys_a, keys_b, j), input_slot(xs, j)),
{
    let len = K::spec_key_len() as int;
    K::lemma_pair_correct(
        prg,
        K::spec_decode(key_slot(keys_a, j, len)),
        K::spec_decode(key_slot(keys_b, j, len)),
        input_slot(xs, j),
    );
}

/// Batch correctness over a whole stream: where every one of the `n` slots of
/// two key buffers holds a pair (as `generate_key_stream` leaves them), the
/// output shares of every slot on its input (as `eval_key_stream` computes
/// them) sum modulo 2^32 to the shared function of the slot's secret and input.
pub proof fn lemma_stream_correct<K: FSSKey + RawKey>(
    prg: ExpandFn,
    xs: Seq<u8>,
    keys_a: Seq<u8>,
    keys_b: Seq<u8>,
    n: int,
)
    requires
        forall|j: int| 0 <= j < n ==> #[trigger] slot_pair::<K>(prg, keys_a, keys_b, j),
    ensures
        forall|j: int|
            0 <= j < n ==> wrap(
                #[trigger] slot_eval::<K>(prg, 0, xs, keys_a, j) + slot_eval::<K>(prg, 1, xs, keys_b, j),
            ) == K::spec_function(slot_alpha::<K>(keys_a, keys_b, j), input_slot(xs, j)),
{
    assert forall|j: int| 0 <= j < n implies wrap(
        #[trigger] slot_eval::<K>(prg, 0, xs, keys_a, j) + slot_eval::<K>(prg, 1, xs, keys_b, j),
    ) == K::spec_function(slot_alpha::<K>(keys_a, keys_b, j), input_slot(xs, j)) by {
        assert(slot_pair::<K>(prg, keys_a, keys_b, j));
        lemma_batch_correct::<K>(prg, xs, keys_a, keys_b, j);
    }
}

/// Outputs do not depend on how a batch is split into streams: slot `j` of
/// the stream of `n` slots that starts at slot `first` evaluates exactly as
/// slot `first + j` of the whole buffers.
pub proof fn lemma_stream_slot<K: FSSKey + RawKey>(
    prg: ExpandFn,
    party_id: u8,
    xs: Seq<u8>,
    keys: Seq<u8>,
    first: int,
    n: int,
    j: int,
)
    requires
        0 <= first,
        0 <= j < n,
        4 * (first + n) <= xs.len(),
        (first + n) * K::spec_key_len() <= keys.len(),
    ensures
        slot_eval::<K>(
            prg,
            party_id,
            xs.subrange(4 * first, 4 * (first + n)),
            keys.subrange(first * K::spec_key_len(), (first + n) * K::spec_key_len()),
            j,
        ) == slot_eval::<K>(prg, party_id, xs, keys, first + j),
{
    let len = K::spec_key_len() as int;
    let sub = keys.subrange(first * len, (first + n) * len);
    let sx = xs.subrange(4 * first, 4 * (first + n));
    lemma_slot_bounds(j, n, len);
    assert((first + j) * len == first * len + j * len) by (nonlinear_arith);
    assert((first + n) * len == first * len + n * len) by (nonlinear_arith);
    assert(0 <= first * len) by (nonlinear_arith)
        requires
            0 <= first,
            0 <= len,
    ;
    assert(key_slot(sub, j, len) =~= key_slot(keys, first + j, len));
    assert(sx.subrange(4 * j, 4 * j + 4) =~= xs.subrange(4 * (first + j), 4 * (first + j) + 4));
}

} // verus!
