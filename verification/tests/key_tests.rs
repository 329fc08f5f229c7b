use lattice_cipher::keys::{key_entry, random_key_pattern, values_match};

#[test]
fn key_entry_follows_the_last_decimal_digit() {
    assert_eq!(key_entry(0), 1);
    assert_eq!(key_entry(4), 1);
    assert_eq!(key_entry(5), 0);
    assert_eq!(key_entry(9), 0);
    assert_eq!(key_entry(13), 1);
    assert_eq!(key_entry(255), 0);
    assert_eq!(key_entry(254), 1);
}

#[test]
fn random_key_pattern_is_square_and_binary() {
    let m = random_key_pattern(5);
    assert_eq!(m.len(), 5);
    for row in &m {
        assert_eq!(row.len(), 5);
        assert!(row.iter().all(|&b| b == 0 || b == 1));
    }
    assert!(random_key_pattern(0).is_empty());
}

#[test]
fn values_match_compares_the_common_prefix() {
    assert!(values_match(&[1, 2, 3], &[1, 2, 3]));
    assert!(values_match(&[1, 2, 3], &[1, 2]));
    assert!(!values_match(&[1, 2, 3], &[1, 5, 3]));
    assert!(values_match(&[], &[4]));
}

#[test]
fn key_pattern_from_bytes_maps_each_byte() {
    let m = lattice_cipher::keys::key_pattern_from_bytes(&vec![vec![0, 5, 14], vec![19, 250, 3]]);
    assert_eq!(m, vec![vec![1, 0, 1], vec![0, 1, 1]]);
}
