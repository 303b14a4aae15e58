use proto_ntt::field::Field;
use proto_ntt::field::GENERATOR;
use proto_ntt::field::MODULUS;
use proto_ntt::ntt::intt;
use proto_ntt::ntt::ntt;

#[test]
fn test_field_reduction() {
    assert_eq!(Field::from_u64(0).value, 0);
    assert_eq!(Field::from_u64(MODULUS).value, 0);
    assert_eq!(Field::from_u64(MODULUS - 1).value, MODULUS - 1);
    assert_eq!(Field::from_u64(u64::MAX).value, u64::MAX - MODULUS);
}

#[test]
fn test_field_add_wraps() {
    let x = Field::from_u64(MODULUS - 1);
    let one = Field::from_u64(1);
    assert_eq!(x.add(one).value, 0);
    assert_eq!(one.add(one).value, 2);
}

#[test]
fn test_field_mul() {
    // 2^32 squared is 2^64, which reduces to 2^32 - 1 for this prime
    let r = Field::from_u64(1 << 32);
    assert_eq!(r.mul(r).value, (1 << 32) - 1);
    assert_eq!(Field::from_u64(7).mul(Field::from_u64(7)).value, 49);
}

#[test]
fn test_field_pow() {
    let g = Field::from_u64(GENERATOR);
    assert_eq!(g.pow(0).value, 1);
    assert_eq!(g.pow(1).value, GENERATOR);
    assert_eq!(g.pow(2).value, 49);
    assert_eq!(g.pow(3).value, 343);
    // Fermat: g^(MODULUS - 1) == 1
    assert_eq!(g.pow(MODULUS - 1).value, 1);
}

#[test]
fn test_field_inv() {
    for x in [1u64, 2, 5, 7, 123456789, MODULUS - 1] {
        let f = Field::from_u64(x);
        assert_eq!(f.mul(f.inv()).value, 1);
    }
    assert_eq!(Field::from_u64(0).inv().value, 0);
}

#[test]
fn test_ntt_empty_and_single() {
    let mut empty: Vec<Field> = Vec::new();
    ntt(&mut empty);
    assert!(empty.is_empty());

    let mut single = vec![Field::from_u64(42)];
    ntt(&mut single);
    assert_eq!(single[0].value, 42);

    let mut single2 = vec![Field::from_u64(7)];
    intt(&mut single2);
    assert_eq!(single2[0].value, 7);
}

#[test]
fn test_ntt_pair() {
    // for length 2 the root of unity is -1, so the transform of (a, b) is
    // (a + b, a - b)
    let mut v = vec![Field::from_u64(1), Field::from_u64(2)];
    ntt(&mut v);
    assert_eq!(v[0].value, 3);
    assert_eq!(v[1].value, MODULUS - 1);
}

#[test]
fn test_ntt_intt_roundtrip() {
    for n in [2usize, 4, 8, 16] {
        let original: Vec<Field> = (0..n as u64).map(|x| Field::from_u64(x * x + 1)).collect();
        let mut v = original.clone();
        ntt(&mut v);
        intt(&mut v);
        for (got, want) in v.iter().zip(original.iter()) {
            assert_eq!(got.value, want.value);
        }
    }
}
