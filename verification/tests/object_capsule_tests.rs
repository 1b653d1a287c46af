use bitrag::object_capsule::{clz4, ctz4, inv4, n4_gram_circ, ObjectCapsule};

#[test]
fn test_clz4_values() {
    assert_eq!(clz4(0b0000), 4);
    assert_eq!(clz4(0b0001), 3);
    assert_eq!(clz4(0b0010), 2);
    assert_eq!(clz4(0b0100), 1);
    assert_eq!(clz4(0b1000), 0);
    assert_eq!(clz4(0b1111), 0);
}

#[test]
fn test_ctz4_values() {
    assert_eq!(ctz4(0b0000), 4);
    assert_eq!(ctz4(0b0001), 0);
    assert_eq!(ctz4(0b0010), 1);
    assert_eq!(ctz4(0b0100), 2);
    assert_eq!(ctz4(0b1000), 3);
    assert_eq!(ctz4(0b1111), 0);
}

#[test]
fn test_inv4_xnor_property() {
    for x in 0u8..16 {
        let i = inv4(x);
        assert_eq!((x ^ i) & 0xF, 0xF, "x={x} inv4={i}");
    }
}

#[test]
fn test_n4_gram_circ_length() {
    let b = b"hello";
    let g = n4_gram_circ(b);
    assert_eq!(g.len(), b.len() * 8);
}

#[test]
fn test_n4_gram_circ_range() {
    let b = b"RUST";
    for &g in n4_gram_circ(b).iter() {
        assert!(g < 16, "gram value out of range: {g}");
    }
}

#[test]
fn test_n4_gram_circ_empty() {
    assert_eq!(n4_gram_circ(&[]), Vec::<u8>::new());
}

#[test]
fn test_n4_gram_circ_single_byte() {
    let g = n4_gram_circ(&[0xABu8]);
    assert_eq!(g.len(), 8);
    assert_eq!(g[0], 0b1010);
    assert_eq!(g[1], 0b0101);
}

#[test]
fn test_encode_decode_deterministic() {
    let a = ObjectCapsule::encode(b"pub fn foo(x: u32) -> u32 { x }");
    let b = ObjectCapsule::encode(b"pub fn foo(x: u32) -> u32 { x }");
    assert_eq!(a, b);
    let stub_a = a.decode_to_stub();
    let stub_b = b.decode_to_stub();
    assert_eq!(stub_a, stub_b);
}

#[test]
fn test_xnor_l1_identity() {
    let a = ObjectCapsule::encode(b"let x = 1;");
    assert_eq!(a.xnor_l1(&a), 0);
    assert_eq!(a.xnor_popcount(&a), 1024);
}

#[test]
fn test_xnor_l1_symmetry() {
    let a = ObjectCapsule::encode(b"fn foo() {}");
    let b = ObjectCapsule::encode(b"fn bar() {}");
    assert_eq!(a.xnor_l1(&b), b.xnor_l1(&a));
}

#[test]
fn test_popcount_range() {
    let c = ObjectCapsule::encode(b"struct MyType { x: u32 }");
    let p = c.popcount();
    assert!(p <= 1024, "popcount={p} out of range");
}

/// A small deterministic generator (SplitMix64).
fn splitmix64(state: &mut u64) -> u64 {
    *state = state.wrapping_add(0x9E3779B97F4A7C15);
    let mut z = *state;
    z = (z ^ (z >> 30)).wrapping_mul(0xBF58476D1CE4E5B9);
    z = (z ^ (z >> 27)).wrapping_mul(0x94D049BB133111EB);
    z ^ (z >> 31)
}

fn random_bytes(state: &mut u64, n: usize) -> Vec<u8> {
    let mut out = Vec::with_capacity(n);
    while out.len() < n {
        let v = splitmix64(state);
        for k in 0..8 {
            if out.len() < n {
                out.push((v >> (k * 8)) as u8);
            }
        }
    }
    out
}

fn capsule_xor(a: &ObjectCapsule, b: &ObjectCapsule) -> ObjectCapsule {
    let mut w = [0u64; 16];
    for i in 0..16 {
        w[i] = a.0[i] ^ b.0[i];
    }
    ObjectCapsule(w)
}

#[test]
fn test_capsule_additivity_proptest() {
    let n_pairs = 1000usize;
    let len = 1024usize;
    let mut state: u64 = 0xDEAD_BEEF_CAFE_F00D;
    let mut sum_d: u64 = 0;
    let mut max_d: u32 = 0;
    let mut zero_cnt: usize = 0;
    for _ in 0..n_pairs {
        let x = random_bytes(&mut state, len);
        let y = random_bytes(&mut state, len);
        let xy: Vec<u8> = x.iter().zip(y.iter()).map(|(a, b)| a ^ b).collect();
        let ex = ObjectCapsule::encode(&x);
        let ey = ObjectCapsule::encode(&y);
        let exy = ObjectCapsule::encode(&xy);
        let lhs_xor_rhs = capsule_xor(&exy, &capsule_xor(&ex, &ey));
        let d = lhs_xor_rhs.popcount();
        sum_d += d as u64;
        if d > max_d {
            max_d = d;
        }
        if d == 0 {
            zero_cnt += 1;
        }
    }
    let mean = sum_d as f64 / n_pairs as f64;
    let zero_ratio = zero_cnt as f64 / n_pairs as f64;
    println!(
        "[additivity, equal-length 1024B × {n_pairs} pairs] \
         mean(d)={mean:.3} max(d)={max_d} zero_ratio={zero_ratio:.4}"
    );

    let n_pairs2 = 200usize;
    let mut sum_d2: u64 = 0;
    let mut max_d2: u32 = 0;
    let mut zero_cnt2: usize = 0;
    for _ in 0..n_pairs2 {
        let x = random_bytes(&mut state, 512);
        let y = random_bytes(&mut state, 1024);
        let mut x_pad = x.clone();
        x_pad.resize(1024, 0);
        let xy: Vec<u8> = x_pad.iter().zip(y.iter()).map(|(a, b)| a ^ b).collect();
        let ex = ObjectCapsule::encode(&x_pad);
        let ey = ObjectCapsule::encode(&y);
        let exy = ObjectCapsule::encode(&xy);
        let d = capsule_xor(&exy, &capsule_xor(&ex, &ey)).popcount();
        sum_d2 += d as u64;
        if d > max_d2 {
            max_d2 = d;
        }
        if d == 0 {
            zero_cnt2 += 1;
        }
    }
    let mean2 = sum_d2 as f64 / n_pairs2 as f64;
    let zero_ratio2 = zero_cnt2 as f64 / n_pairs2 as f64;
    println!(
        "[additivity, mismatched-length 512B/1024B (zero-pad) × {n_pairs2} pairs] \
         mean(d)={mean2:.3} max(d)={max_d2} zero_ratio={zero_ratio2:.4}"
    );

    assert!(
        max_d > 0,
        "capsule encoding unexpectedly additive under XOR"
    );
}

#[test]
fn test_decode_stub_compiles_with_rustfmt_check() {
    let c = ObjectCapsule::encode(b"pub fn compute(a: u32, b: u64) -> u64 { 0 }");
    let stub = c.decode_to_stub();
    assert!(
        stub.contains("pub fn") || stub.contains("pub struct"),
        "stub does not start with pub fn or pub struct: {stub:?}"
    );
    assert!(stub.ends_with('\n'), "stub missing trailing newline");
}

#[test]
fn empty_input_gives_empty_capsule() {
    let c = ObjectCapsule::encode(&[]);
    assert_eq!(c, ObjectCapsule([0u64; 16]));
    assert_eq!(c.popcount(), 0);
    assert_eq!(c.to_hex(), "0".repeat(256));
}

#[test]
fn xnor_counts_agreeing_bits() {
    let a = ObjectCapsule([0u64; 16]);
    let mut w = [0u64; 16];
    w[0] = 0b1011;
    let b = ObjectCapsule(w);
    assert_eq!(a.xnor_l1(&b), 3);
    assert_eq!(a.xnor_popcount(&b), 1021);
}

#[test]
fn hex_is_sixteen_digits_per_word() {
    let mut w = [0u64; 16];
    w[0] = 0xABCD;
    let hex = ObjectCapsule(w).to_hex();
    assert_eq!(hex.len(), 256);
    assert_eq!(&hex[0..16], "000000000000abcd");
}

#[test]
fn xnor_l1_obeys_the_triangle_inequality() {
    let a = ObjectCapsule::encode(b"fn foo() {}");
    let b = ObjectCapsule::encode(b"fn bar() {}");
    let c = ObjectCapsule::encode(b"struct S;");
    assert!(a.xnor_l1(&c) <= a.xnor_l1(&b) + b.xnor_l1(&c));
    assert!(a.xnor_l1(&b) <= a.xnor_l1(&c) + c.xnor_l1(&b));
    assert_eq!(a.xnor_l1(&b) + a.xnor_popcount(&b), 1024);
}

#[test]
fn xnor_l1_is_zero_only_between_equal_capsules() {
    let mut w = [0u64; 16];
    w[15] = 1 << 63;
    let a = ObjectCapsule(w);
    let b = ObjectCapsule([0u64; 16]);
    assert_eq!(a.xnor_l1(&b), 1);
    assert_eq!(a.xnor_l1(&ObjectCapsule(w)), 0);
    assert_eq!(a, ObjectCapsule(w));
}
