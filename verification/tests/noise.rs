use convolutional_stack::{apply_noise, create_noise};

fn f64_eq(a: &f64, b: &f64, eps: &f64) -> bool {
    (a - b).abs() < *eps
}

fn threshold(p: f64) -> u32 {
    (p * u32::MAX as f64) as u32
}

#[test]
fn test_noise() {
    const CNT: usize = 1000000;
    let p = 0.1;
    let len = create_noise(&[0; CNT], threshold(0.1))
        .into_iter()
        .filter(|&x| x == 1)
        .collect::<Vec<u8>>()
        .len();
    assert!(f64_eq(&p, &(len as f64 / CNT as f64), &1e-3))
}

#[test]
fn noise_keeps_length_and_bits() {
    let xs = [1u8, 0, 1, 1, 0, 0, 1, 0, 1, 1];
    for t in [0u32, 1, 1 << 31, u32::MAX] {
        let ys = create_noise(&xs, t);
        assert_eq!(ys.len(), xs.len());
        assert!(ys.iter().all(|&y| y <= 1));
    }
}

#[test]
fn noise_with_threshold_zero_flips_nothing() {
    let xs = [1u8, 0, 1, 1, 0, 0, 1, 0, 1, 1];
    assert_eq!(create_noise(&xs, 0), xs.to_vec());
    assert_eq!(create_noise(&[], 0), Vec::<u8>::new());
}

#[test]
fn noise_with_the_highest_threshold_flips_nearly_all() {
    let xs = [0u8; 1000];
    let ones = create_noise(&xs, u32::MAX).into_iter().filter(|&x| x == 1).count();
    assert!(ones >= 999);
}

#[test]
fn apply_noise_flips_below_the_threshold() {
    let xs = [1u8, 0, 1, 0, 1];
    let draws = [0u32, 99, 100, 101, u32::MAX];
    assert_eq!(apply_noise(&xs, &draws, 100), vec![0, 1, 1, 0, 1]);
    assert_eq!(apply_noise(&xs, &draws, 0), vec![1, 0, 1, 0, 1]);
    assert_eq!(apply_noise(&xs, &draws, u32::MAX), vec![0, 1, 0, 1, 1]);
}
