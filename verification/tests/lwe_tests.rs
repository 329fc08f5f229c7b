use lattice_cipher::lwe::{
    decrypt, encrypt, encrypt_with_noise, inner_product_fits, keygen, keys_mask_safe, N, Q,
};

#[test]
fn keygen_draws_n_values_below_q() {
    let (s, e) = keygen();
    assert_eq!(s.len(), N);
    assert_eq!(e.len(), N);
    assert!(s.iter().all(|&x| 0 <= x && x < Q));
    assert!(e.iter().all(|&x| 0 <= x && x < Q));
}

#[test]
fn encrypt_with_noise_masks_each_coefficient() {
    let s: Vec<i32> = (0..N as i32).collect();
    let a: Vec<i32> = vec![3; N];
    let e: Vec<i32> = vec![5; N];
    let b = encrypt_with_noise(&s, &a, &e, 42);
    assert_eq!(b.len(), N + 1);
    assert_eq!(b[0], 5);
    assert_eq!(b[1], 8);
    assert_eq!(b[100], 305);
    assert_eq!(b[N], 42);
}

#[test]
fn encrypt_with_noise_reduces_past_the_modulus() {
    let mut s: Vec<i32> = vec![0; N];
    s[0] = 4096;
    let a: Vec<i32> = vec![3; N];
    let e: Vec<i32> = vec![5; N];
    let b = encrypt_with_noise(&s, &a, &e, -7);
    assert_eq!(b[0], 4);
    assert_eq!(b[1], 5);
    assert_eq!(b[N], -7);
}

#[test]
fn encrypt_with_noise_keeps_the_sign_of_negative_products() {
    let mut s: Vec<i32> = vec![0; N];
    s[0] = -5000;
    let a: Vec<i32> = vec![3; N];
    let e: Vec<i32> = vec![0; N];
    let b = encrypt_with_noise(&s, &a, &e, 1);
    // -15000 % 12289 truncates toward zero: -2711
    assert_eq!(b[0], -2711);
}

#[test]
fn encrypt_appends_the_message_and_stays_below_q() {
    let s: Vec<i32> = vec![7; N];
    let b = encrypt(&s, 42);
    assert_eq!(b.len(), N + 1);
    assert_eq!(b[N], 42);
    assert!(b[..N].iter().all(|&x| 0 <= x && x < Q));
}

#[test]
fn decrypt_reduces_the_inner_product() {
    let s: Vec<i32> = vec![1; N];
    let mut b: Vec<i32> = vec![0; N + 1];
    b[0] = 12289;
    b[1] = 10;
    b[N] = 99;
    // the last coefficient of the ciphertext is not read
    assert_eq!(decrypt(&s, &b), 10);
}

#[test]
fn decrypt_of_negative_sum_is_negative() {
    let s: Vec<i32> = vec![1; N];
    let mut b: Vec<i32> = vec![0; N];
    b[3] = -12300;
    assert_eq!(decrypt(&s, &b), -11);
}

#[test]
fn generated_keys_encrypt_without_overflow() {
    let (s, _) = keygen();
    let b = encrypt(&s, -3);
    assert_eq!(b.len(), N + 1);
    assert_eq!(b[N], -3);
    assert!(b[..N].iter().all(|&x| 0 <= x && x < Q));
}

#[test]
fn keys_mask_safe_checks_every_coefficient() {
    assert!(keys_mask_safe(&vec![12288; N]));
    let mut s = vec![0; N];
    s[7] = 200_000;
    assert!(!keys_mask_safe(&s));
    assert!(!keys_mask_safe(&vec![0; N - 1]));
}

#[test]
fn inner_product_fits_detects_overflow() {
    let s = vec![1; N];
    assert!(inner_product_fits(&s, &vec![1000; N]));
    assert!(!inner_product_fits(&s, &vec![5_000_000; N]));
    assert!(!inner_product_fits(&s, &vec![1; N - 1]));
    let mut b = vec![0; N];
    b[0] = 70_000;
    assert!(!inner_product_fits(&vec![70_000; N], &b));
}
