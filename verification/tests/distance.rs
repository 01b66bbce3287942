use elitesql_core::distance::{bytes_as_i8, common, dot_i8, INT_BLOCK};

fn sample_i8(len: usize, seed: u32) -> Vec<i8> {
    (0..len)
        .map(|i| {
            let x = (i as u32).wrapping_mul(2_246_822_519).wrapping_add(seed);
            (x % 255) as i32 as i8
        })
        .collect()
}

const LENGTHS: [usize; 9] = [0, 1, 7, 8, 9, 15, 64, 65, 1000];

#[test]
fn integer_kernels_are_exact() {
    for len in LENGTHS.into_iter().chain([INT_BLOCK - 1, INT_BLOCK, INT_BLOCK * 2 + 5]) {
        let a = sample_i8(len, 5);
        let b = sample_i8(len, 9);
        let expected: i64 = a.iter().zip(&b).map(|(&x, &y)| x as i64 * y as i64).sum();
        assert_eq!(dot_i8(&a, &b), expected, "len {len}");
        let bytes: Vec<u8> = b.iter().map(|v| *v as u8).collect();
        assert_eq!(bytes_as_i8(&bytes), b);
    }
}

#[test]
fn extreme_i8_products_do_not_overflow() {
    let a = vec![127i8; INT_BLOCK * 3 + 17];
    let b = vec![-128i8; INT_BLOCK * 3 + 17];
    let expected = -(127i64 * 128) * (INT_BLOCK as i64 * 3 + 17);
    assert_eq!(dot_i8(&a, &b), expected);
}

#[test]
fn integer_kernels_use_the_common_prefix() {
    let a = sample_i8(10, 1);
    let b = sample_i8(6, 2);
    let expected: i64 = a.iter().zip(&b).map(|(&x, &y)| x as i64 * y as i64).sum();
    assert_eq!(common(&a, &b), 6);
    assert_eq!(dot_i8(&a, &b), expected);
    assert_eq!(dot_i8(&b, &a), expected);
}
