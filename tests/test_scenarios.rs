use sycret::eq::EqKey;
use sycret::fss::dif::{decompress_word, xor_2_words, CompressedCorrectionWord, CorrectionWord};
use sycret::le::LeKey;
use sycret::stream::{
    aes_subkeys, build_params, eval_key_stream, generate_key_stream, partition_streams, FSSKey,
    Prg, RawKey,
};
use sycret::utils::{bit_decomposition_u32, compute_out, share_leaf, Mmo};

const S_A: u128 = 0x0123_4567_89ab_cdef_0011_2233_4455_6677;
const S_B: u128 = 0xfedc_ba98_7654_3210_8899_aabb_ccdd_eeff;
const MASK: u32 = 0x9e37_79b9;

fn eq_pair(alpha: u32) -> (EqKey, EqKey) {
    let mut prg = Mmo::from_slice(&[0u128, 1]);
    EqKey::generate_keypair_from(&mut prg, alpha, S_A, S_B, MASK)
}

fn le_pair(alpha: u32) -> (LeKey, LeKey) {
    let mut prg = Mmo::from_slice(&[0u128, 1, 2]);
    LeKey::generate_keypair_from(&mut prg, alpha, S_A, S_B, MASK)
}

fn eq_sum(alpha: u32, x: u32) -> u32 {
    let (k_a, k_b) = eq_pair(alpha);
    let mut prg = Mmo::from_slice(&[0u128, 1]);
    k_a.eval(&mut prg, 0, x).wrapping_add(k_b.eval(&mut prg, 1, x))
}

fn le_sum(alpha: u32, x: u32) -> u32 {
    let (k_a, k_b) = le_pair(alpha);
    let mut prg = Mmo::from_slice(&[0u128, 1, 2]);
    k_a.eval(&mut prg, 0, x).wrapping_add(k_b.eval(&mut prg, 1, x))
}

#[test]
fn share_leaf_values() {
    assert_eq!(share_leaf(5, 12, 1, 0), 8);
    assert_eq!(share_leaf(5, 12, 1, 1), 0u32.wrapping_sub(8));
    assert_eq!(share_leaf(12, 5, 0, 0), 0u32.wrapping_sub(7));
    assert_eq!(share_leaf(0, u32::MAX, 1, 0), 0);
}

#[test]
fn compute_out_values() {
    assert_eq!(compute_out(10, 7, 1, 0), 17);
    assert_eq!(compute_out(10, 7, 0, 0), 10);
    assert_eq!(compute_out(10, 7, 1, 1), 0u32.wrapping_sub(17));
    assert_eq!(compute_out(u32::MAX, 2, 1, 0), 1);
}

#[test]
fn bit_decomposition_is_msb_first() {
    let bits = bit_decomposition_u32(0x8000_0001);
    assert_eq!(bits.len(), 32);
    assert_eq!(bits[0], 1);
    assert_eq!(bits[31], 1);
    assert!(bits[1..31].iter().all(|b| *b == 0));
    let bits = bit_decomposition_u32(0x1234_5678);
    let mut v: u32 = 0;
    for b in bits {
        v = (v << 1) | b as u32;
    }
    assert_eq!(v, 0x1234_5678);
}

#[test]
fn mmo_block_is_aes_of_seed_xor_seed() {
    // AES-128 of the zero block under the zero key: 66e94bd4ef8a2c3b884cfa59ca342b2e.
    let mut prg = Mmo::from_slice(&[0u128]);
    let out = prg.expand(0);
    let bytes: [u8; 16] = [
        0x66, 0xe9, 0x4b, 0xd4, 0xef, 0x8a, 0x2c, 0x3b, 0x88, 0x4c, 0xfa, 0x59, 0xca, 0x34, 0x2b,
        0x2e,
    ];
    assert_eq!(out, vec![u128::from_le_bytes(bytes)]);
    let mut prg = Mmo::from_slice(&[0u128, 1, 2]);
    let out = prg.expand(7);
    assert_eq!(out.len(), 3);
    assert_ne!(out[0], out[1]);
    assert_ne!(out[0], 7);
}

#[test]
fn eq_on_point_sums_to_one() {
    assert_eq!(eq_sum(0x1234_5678, 0x1234_5678), 1);
}

#[test]
fn eq_off_point_sums_to_zero() {
    assert_eq!(eq_sum(0x1234_5678, 0x1234_5679), 0);
    assert_eq!(eq_sum(0x1234_5678, 0x9234_5678), 0);
    assert_eq!(eq_sum(0, u32::MAX), 0);
}

#[test]
fn le_at_point_sums_to_one() {
    assert_eq!(le_sum(1000, 1000), 1);
}

#[test]
fn le_below_point_sums_to_one() {
    assert_eq!(le_sum(1000, 999), 1);
    assert_eq!(le_sum(1000, 0), 1);
}

#[test]
fn le_above_point_sums_to_zero() {
    assert_eq!(le_sum(1000, 1001), 0);
    assert_eq!(le_sum(1000, u32::MAX), 0);
    assert_eq!(le_sum(u32::MAX, u32::MAX), 1);
    assert_eq!(le_sum(0, 1), 0);
}

#[test]
fn pair_shares_alpha_and_corrections() {
    let (a, b) = eq_pair(0x1234_5678);
    assert_eq!(a.alpha_share.wrapping_add(b.alpha_share), 0x1234_5678);
    assert_eq!(b.alpha_share, MASK);
    assert_eq!((a.s, b.s), (S_A, S_B));
    assert_eq!((a.cw, a.t_l, a.t_r, a.cw_leaf), (b.cw, b.t_l, b.t_r, b.cw_leaf));
    let (c, d) = le_pair(1000);
    assert_eq!(c.alpha_share.wrapping_add(d.alpha_share), 1000);
    assert_eq!((c.cw, c.cw_leaf), (d.cw, d.cw_leaf));
}

#[test]
fn keygen_is_deterministic_in_its_inputs() {
    let (a1, _) = eq_pair(77);
    let (a2, _) = eq_pair(77);
    let mut l1 = vec![0u8; 621];
    let mut l2 = vec![0u8; 621];
    a1.to_raw_line(&mut l1, 0);
    a2.to_raw_line(&mut l2, 0);
    assert_eq!(l1, l2);
    let (c1, _) = le_pair(77);
    let (c2, _) = le_pair(77);
    let mut m1 = vec![0u8; 920];
    let mut m2 = vec![0u8; 920];
    c1.to_raw_line(&mut m1, 0);
    c2.to_raw_line(&mut m2, 0);
    assert_eq!(m1, m2);
}

#[test]
fn le_key_round_trip() {
    let (k, _) = le_pair(1000);
    let mut line = vec![0xaau8; 920 + 8];
    k.to_raw_line(&mut line, 4);
    assert_eq!(&line[..4], &[0xaa; 4]);
    assert_eq!(&line[924..], &[0xaa; 4]);
    assert_eq!(&line[4..8], &k.alpha_share.to_le_bytes());
    assert_eq!(&line[8..24], &k.s.to_le_bytes());
    assert_eq!(&line[24..40], &k.cw[0].s.to_le_bytes());
    assert_eq!(&line[40..44], &k.cw[0].z.to_le_bytes());
    assert_eq!(line[44..48], [k.cw[0].t_l, k.cw[0].t_r, k.cw[0].u_l, k.cw[0].u_r]);
    assert_eq!(&line[4 + 788..4 + 792], &k.cw_leaf[0].to_le_bytes());
    let r = LeKey::from_raw_line(&line, 4);
    assert_eq!(r.alpha_share, k.alpha_share);
    assert_eq!(r.s, k.s);
    assert_eq!(r.cw, k.cw);
    assert_eq!(r.cw_leaf, k.cw_leaf);
    assert_eq!(LeKey::key_len(), 920);
}

#[test]
fn eq_key_round_trip() {
    let (k, _) = eq_pair(0x1234_5678);
    let mut line = vec![0x55u8; 621];
    k.to_raw_line(&mut line, 0);
    assert_eq!(&line[0..4], &k.alpha_share.to_le_bytes());
    assert_eq!(&line[4..20], &k.s.to_le_bytes());
    assert_eq!(&line[20..36], &k.cw[0].to_le_bytes());
    assert_eq!(line[36..38], [k.t_l[0], k.t_r[0]]);
    assert_eq!(&line[578..594], &k.cw[31].to_le_bytes());
    // The bytes that hold no field keep their previous values.
    assert!(line[596..617].iter().all(|b| *b == 0x55));
    assert_eq!(&line[617..621], &k.cw_leaf.to_le_bytes());
    let r = EqKey::from_raw_line(&line, 0);
    assert_eq!(
        (r.alpha_share, r.s, r.cw, r.t_l, r.t_r, r.cw_leaf),
        (k.alpha_share, k.s, k.cw, k.t_l, k.t_r, k.cw_leaf)
    );
    assert_eq!(EqKey::key_len(), 621);
}

#[test]
fn words_xor_and_decompress() {
    let c = CompressedCorrectionWord { u_l: 1, t_l: 0, u_r: 0, t_r: 1, z: 5, s: 9 };
    let d = decompress_word(&c);
    assert_eq!((d.z_l, d.z_r, d.s_l, d.s_r), (5, 5, 9, 9));
    assert_eq!((d.u_l, d.t_l, d.u_r, d.t_r), (1, 0, 0, 1));
    let w = CorrectionWord { z_l: 3, u_l: 1, s_l: 6, t_l: 1, z_r: 4, u_r: 1, s_r: 12, t_r: 0 };
    let x = xor_2_words(&w, &d);
    assert_eq!(x, CorrectionWord { z_l: 6, u_l: 0, s_l: 15, t_l: 1, z_r: 1, u_r: 1, s_r: 5, t_r: 1 });
}

#[test]
fn params_and_subkeys() {
    assert_eq!(build_params(0), (2, 621, 128));
    assert_eq!(build_params(1), (3, 920, 128));
    assert_eq!(aes_subkeys(3), vec![0u128, 1, 2]);
    assert!(aes_subkeys(0).is_empty());
}

#[test]
fn streams_partition_slots() {
    let p = partition_streams(300, 128);
    assert_eq!(p.len(), 128);
    assert_eq!(p[0], (0, 3));
    assert_eq!(p[43], (129, 3));
    assert_eq!(p[44], (132, 2));
    assert_eq!(p[127], (298, 2));
    let p = partition_streams(5, 128);
    assert_eq!(p, vec![(0, 1), (1, 1), (2, 1), (3, 1), (4, 1)]);
    assert!(partition_streams(0, 128).is_empty());
    let p = partition_streams(256, 128);
    assert!(p.iter().enumerate().all(|(k, s)| *s == (2 * k, 2)));
}

fn batch_sums(n_values: usize, op_id: usize, offset: u32) -> Vec<(u32, u32, u32)> {
    let (n_keys, key_len, _) = build_params(op_id);
    let aes_keys = aes_subkeys(n_keys);
    let mut keys_a = vec![0u8; n_values * key_len];
    let mut keys_b = vec![0u8; n_values * key_len];
    generate_key_stream(&aes_keys, 0, n_values, &mut keys_a, &mut keys_b, op_id);
    let mut xs = vec![0u8; 4 * n_values];
    let mut alphas = vec![];
    for i in 0..n_values {
        let a = &keys_a[i * key_len..i * key_len + 4];
        let b = &keys_b[i * key_len..i * key_len + 4];
        let alpha = u32::from_le_bytes([a[0], a[1], a[2], a[3]])
            .wrapping_add(u32::from_le_bytes([b[0], b[1], b[2], b[3]]));
        let x = alpha.wrapping_add(offset);
        xs[4 * i..4 * i + 4].copy_from_slice(&x.to_le_bytes());
        alphas.push((alpha, x));
    }
    let mut r_a = vec![0i64; n_values];
    let mut r_b = vec![0i64; n_values];
    eval_key_stream(0, &aes_keys, 0, n_values, &xs, &keys_a, &mut r_a, op_id);
    eval_key_stream(1, &aes_keys, 0, n_values, &xs, &keys_b, &mut r_b, op_id);
    (0..n_values)
        .map(|i| {
            assert!(r_a[i] >= 0 && r_a[i] <= u32::MAX as i64);
            let s = (r_a[i] as u32).wrapping_add(r_b[i] as u32);
            (alphas[i].0, alphas[i].1, s)
        })
        .collect()
}

#[test]
fn batch_of_hundred_equality_slots() {
    let sums = batch_sums(100, 0, 0);
    assert_eq!(sums.len(), 100);
    assert!(sums.iter().all(|(_, _, s)| *s == 1));
}

#[test]
fn batch_off_point_and_comparison() {
    assert!(batch_sums(20, 0, 1).iter().all(|(_, _, s)| *s == 0));
    for (alpha, x, s) in batch_sums(20, 1, 5) {
        assert_eq!(s, if x <= alpha { 1 } else { 0 });
    }
    for (_, _, s) in batch_sums(20, 1, 0) {
        assert_eq!(s, 1);
    }
}

#[test]
fn batch_eval_does_not_depend_on_stream_split() {
    let (n_keys, key_len, _) = build_params(1);
    let aes_keys = aes_subkeys(n_keys);
    let n = 10;
    let mut keys_a = vec![0u8; n * key_len];
    let mut keys_b = vec![0u8; n * key_len];
    generate_key_stream(&aes_keys, 0, n, &mut keys_a, &mut keys_b, 1);
    let xs: Vec<u8> = (0..4 * n as u32).map(|v| (v * 37) as u8).collect();
    let mut whole = vec![0i64; n];
    eval_key_stream(0, &aes_keys, 0, n, &xs, &keys_a, &mut whole, 1);
    let mut split = vec![0i64; n];
    for (first, len) in partition_streams(n, 4) {
        eval_key_stream(
            0,
            &aes_keys,
            0,
            len,
            &xs[4 * first..4 * (first + len)],
            &keys_a[key_len * first..key_len * (first + len)],
            &mut split[first..first + len],
            1,
        );
    }
    assert_eq!(whole, split);
}
