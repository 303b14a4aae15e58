use proto_ntt::gw18::copy_transpose;
use proto_ntt::gw18::exchange;
use proto_ntt::gw18::largest_power_of_two;
use proto_ntt::gw18::shuffle;
use proto_ntt::gw18::square_transpose;
use proto_ntt::gw18::transpose;
use proto_ntt::gw18::transpose_range;
use proto_ntt::gw18::unshuffle;
use proto_ntt::gw18::Gw18;
use proto_ntt::gw18::COPY_THRESHOLD;

fn test_size(rows: usize, cols: usize) {
    let size = rows * cols;
    let mut matrix = (0_u64..size as u64).collect::<Vec<_>>();
    let mut reference = matrix.clone();
    transpose(&mut matrix, (rows, cols));
    copy_transpose(&mut reference, 0, rows, cols);
    assert_eq!(matrix, reference);

    // the same shape again, with the copy cutoff pushed down so that the
    // recursive path is exercised as well
    let mut recursive = (0_u64..size as u64).collect::<Vec<_>>();
    transpose_range(&mut recursive, 0, rows, cols, 4);
    assert_eq!(recursive, reference);
}

#[test]
fn test_transpose_32_16() {
    test_size(32, 16);
}

#[test]
fn test_transpose_16_32() {
    test_size(16, 32);
}

#[test]
fn test_transpose_17_20() {
    test_size(17, 20);
}

#[test]
fn test_transpose_20_17() {
    test_size(20, 17);
}

fn small_divisors_of_group_order() -> Vec<u64> {
    // divisors of MODULUS - 1 = 2^32 * 3 * 5 * 17 * 257 * 65537 that are
    // at most 2^16
    let limit: u64 = 1 << 16;
    let mut out: Vec<u64> = Vec::new();
    for &p3 in &[1u64, 3] {
        for &p5 in &[1u64, 5] {
            for &p17 in &[1u64, 17] {
                for &p257 in &[1u64, 257] {
                    for &p65537 in &[1u64, 65537] {
                        let mut d = p3 * p5 * p17 * p257 * p65537;
                        while d <= limit {
                            out.push(d);
                            d *= 2;
                        }
                    }
                }
            }
        }
    }
    out.sort();
    out.dedup();
    out
}

fn split(size: usize) -> usize {
    // largest divisor of `size` not above its square root
    let mut best = 1;
    let mut a = 1;
    while a * a <= size {
        if size % a == 0 {
            best = a;
        }
        a += 1;
    }
    best
}

#[test]
fn test_transpose() {
    for size in small_divisors_of_group_order()
        .iter()
        .filter(|n| **n <= (1 << 16))
        .map(|n| *n as usize)
    {
        let a = split(size);
        let b = size / a;
        test_size(a, b);
        test_size(b, a);
    }
}

#[test]
fn test_expected_layout_32_16() {
    let mut v = (0_u64..512).collect::<Vec<_>>();
    transpose_range(&mut v, 0, 32, 16, 4);
    for i in 0..32_u64 {
        for j in 0..16_u64 {
            assert_eq!(v[(j * 32 + i) as usize], 16 * i + j);
        }
    }
}

#[test]
fn test_expected_layout_16_32() {
    let mut v = (0_u64..512).collect::<Vec<_>>();
    transpose_range(&mut v, 0, 16, 32, 4);
    for i in 0..16_u64 {
        for j in 0..32_u64 {
            assert_eq!(v[(j * 16 + i) as usize], 32 * i + j);
        }
    }
}

#[test]
fn test_expected_layout_3_5() {
    let mut v = (0_u64..15).collect::<Vec<_>>();
    transpose_range(&mut v, 0, 3, 5, 4);
    assert_eq!(v, vec![0, 5, 10, 1, 6, 11, 2, 7, 12, 3, 8, 13, 4, 9, 14]);
}

#[test]
fn test_narrow_strips() {
    test_size(1024, 3);
    test_size(3, 1024);
}

#[test]
fn test_involution() {
    for &(rows, cols) in &[(17usize, 20usize), (20, 17), (32, 16), (3, 5), (1, 9), (9, 1)] {
        let original = (0_u64..(rows * cols) as u64).collect::<Vec<_>>();
        let mut v = original.clone();
        transpose_range(&mut v, 0, rows, cols, 4);
        transpose_range(&mut v, 0, cols, rows, 4);
        assert_eq!(v, original);
    }
}

#[test]
fn test_boundary_identity() {
    let original = (0_u64..7).collect::<Vec<_>>();
    let mut row = original.clone();
    transpose(&mut row, (1, 7));
    assert_eq!(row, original);
    let mut col = original.clone();
    transpose(&mut col, (7, 1));
    assert_eq!(col, original);
}

#[test]
fn test_boundary_square() {
    let mut v = (0_u64..16 * 16).collect::<Vec<_>>();
    let mut w = v.clone();
    transpose(&mut v, (16, 16));
    square_transpose(&mut w, 0, 16);
    assert_eq!(v, w);
}

#[test]
fn test_copy_threshold_boundary() {
    // exactly at the cutoff: the copy path runs
    let rows = 64;
    let cols = 256;
    assert_eq!(rows * cols, COPY_THRESHOLD);
    let mut at = (0_u64..(rows * cols) as u64).collect::<Vec<_>>();
    let mut at_ref = at.clone();
    transpose(&mut at, (rows, cols));
    copy_transpose(&mut at_ref, 0, rows, cols);
    assert_eq!(at, at_ref);

    // one element above: the recursive path runs
    let rows = 5;
    let cols = 3277;
    assert_eq!(rows * cols, COPY_THRESHOLD + 1);
    let mut above = (0_u64..(rows * cols) as u64).collect::<Vec<_>>();
    let mut above_ref = above.clone();
    transpose(&mut above, (rows, cols));
    copy_transpose(&mut above_ref, 0, rows, cols);
    assert_eq!(above, above_ref);
}

#[test]
fn test_threshold_determinism() {
    for &(rows, cols) in &[(20usize, 17usize), (17, 20), (1024, 3), (3, 1024)] {
        let original = (0_u64..(rows * cols) as u64).collect::<Vec<_>>();
        let mut forced_recursive = original.clone();
        let mut forced_copy = original.clone();
        let mut default_path = original.clone();
        transpose_range(&mut forced_recursive, 0, rows, cols, 0);
        transpose_range(&mut forced_copy, 0, rows, cols, usize::MAX);
        transpose(&mut default_path, (rows, cols));
        assert_eq!(forced_recursive, forced_copy);
        assert_eq!(forced_recursive, default_path);
    }
}

#[test]
fn test_exchange_rotates() {
    for &(a, b) in &[(0usize, 0usize), (0, 4), (4, 0), (1, 5), (5, 1), (3, 3), (7, 2)] {
        let v: Vec<u64> = (0..(a + b) as u64).collect();
        let mut w = v.clone();
        exchange(&mut w, 0, a, b);
        let mut expected: Vec<u64> = Vec::new();
        expected.extend_from_slice(&v[a..]);
        expected.extend_from_slice(&v[..a]);
        assert_eq!(w, expected);
    }
}

#[test]
fn test_shuffle_unshuffle_inversion() {
    let cases = [0usize, 1, 2, 3, 5, 8, 17];
    for &a in &cases {
        for &b in &cases {
            for &m in &cases {
                let original: Vec<u64> = (0..((a + b) * m) as u64).collect();
                let mut v = original.clone();
                shuffle(&mut v, 0, a, b, m);
                unshuffle(&mut v, 0, a, b, m);
                assert_eq!(v, original);
                let mut w = original.clone();
                unshuffle(&mut w, 0, a, b, m);
                shuffle(&mut w, 0, a, b, m);
                assert_eq!(w, original);
            }
        }
    }
}

#[test]
fn test_shuffle_interleaves() {
    // two groups of (2, 3): A0 A1 B0 B1 -> A0 B0 A1 B1
    let mut v: Vec<u64> = vec![0, 1, 2, 3, 10, 11, 12, 13, 14, 15];
    shuffle(&mut v, 0, 2, 3, 2);
    assert_eq!(v, vec![0, 1, 10, 11, 12, 2, 3, 13, 14, 15]);
    unshuffle(&mut v, 0, 2, 3, 2);
    assert_eq!(v, vec![0, 1, 2, 3, 10, 11, 12, 13, 14, 15]);
}

#[test]
fn test_largest_power_of_two_matches_float_formula() {
    assert_eq!(largest_power_of_two(0), 0);
    assert_eq!(largest_power_of_two(1), 0);
    for m in 2usize..=(1 << 20) {
        let expected = 2_usize.pow((m as f64 - 1.).log2() as u32);
        assert_eq!(largest_power_of_two(m), expected);
    }
}

#[test]
fn test_gw18_strategy() {
    let strategy = Gw18::new((20, 17));
    assert_eq!(strategy.len(), 340);
    let mut v = (0_u64..340).collect::<Vec<_>>();
    let mut reference = v.clone();
    strategy.permute(&mut v);
    copy_transpose(&mut reference, 0, 20, 17);
    assert_eq!(v, reference);
}
