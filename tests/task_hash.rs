use turborepo_lib::canonical::{lex_less, sort_keys, sort_names};
use turborepo_lib::task_hash::{encode_words, lookup_env, paths_unique, sort_by_path, task_hash, task_key_words};

fn key(salt: u64, files: Vec<(u64, u64)>, env: Vec<(u64, u64)>, preds: Vec<Vec<u8>>) -> Vec<u8> {
    task_hash(salt, &vec![11, 12], &files, &vec![100, 200], &env, &preds)
}

#[test]
fn hashing_twice_gives_the_same_key() {
    let a = key(1, vec![(5, 50), (3, 30)], vec![(100, 7)], vec![vec![9, 9]]);
    let b = key(1, vec![(5, 50), (3, 30)], vec![(100, 7)], vec![vec![9, 9]]);
    assert_eq!(a, b);
}

#[test]
fn file_enumeration_order_does_not_matter() {
    let a = key(1, vec![(5, 50), (3, 30), (8, 80)], vec![], vec![]);
    let b = key(1, vec![(8, 80), (5, 50), (3, 30)], vec![], vec![]);
    assert_eq!(a, b);
}

#[test]
fn file_content_change_changes_key() {
    let a = key(1, vec![(5, 50), (3, 30)], vec![], vec![]);
    let b = key(1, vec![(5, 51), (3, 30)], vec![], vec![]);
    assert_ne!(a, b);
}

#[test]
fn declared_env_change_changes_key() {
    let a = key(1, vec![], vec![(100, 7)], vec![]);
    let b = key(1, vec![], vec![(100, 8)], vec![]);
    let c = key(1, vec![], vec![], vec![]);
    assert_ne!(a, b);
    assert_ne!(a, c);
}

#[test]
fn undeclared_env_change_keeps_key() {
    let a = key(1, vec![(1, 1)], vec![(100, 7), (300, 1)], vec![]);
    let b = key(1, vec![(1, 1)], vec![(300, 2), (100, 7), (400, 9)], vec![]);
    assert_eq!(a, b);
}

#[test]
fn predecessor_key_change_changes_key() {
    let a = key(1, vec![], vec![], vec![vec![1, 2, 3]]);
    let b = key(1, vec![], vec![], vec![vec![1, 2, 4]]);
    let c = key(1, vec![], vec![], vec![vec![1, 2], vec![3]]);
    assert_ne!(a, b);
    assert_ne!(a, c);
}

#[test]
fn salt_change_changes_key() {
    assert_ne!(key(1, vec![], vec![], vec![]), key(2, vec![], vec![], vec![]));
}

#[test]
fn key_layout() {
    let k = task_key_words(4, &vec![11], &vec![(9, 90), (2, 20)], &vec![100, 200], &vec![(100, 7)], &vec![vec![5u8, 6]]);
    assert_eq!(k, vec![4, 1, 11, 4, 2, 20, 9, 90, 6, 100, 1, 7, 200, 0, 0, 1, 2, 5, 6]);
}

#[test]
fn key_is_a_fixed_size_digest() {
    let small = key(1, vec![], vec![], vec![]);
    let big = key(1, (0..50).map(|p| (p, p * 3)).collect(), vec![], vec![vec![7u8; 32], vec![8u8; 32]]);
    assert_eq!(small.len(), 32);
    assert_eq!(big.len(), 32);
    let words = task_key_words(1, &vec![11, 12], &vec![], &vec![100, 200], &vec![], &vec![]);
    assert_ne!(small, encode_words(&words));
}

#[test]
fn word_encoding_is_little_endian() {
    assert_eq!(encode_words(&vec![0x0102030405060708, 1]), vec![8, 7, 6, 5, 4, 3, 2, 1, 1, 0, 0, 0, 0, 0, 0, 0]);
}

#[test]
fn sorting_and_lookup() {
    assert_eq!(sort_by_path(&vec![(3, 1), (1, 2), (2, 3)]), vec![(1, 2), (2, 3), (3, 1)]);
    assert_eq!(sort_by_path(&vec![]), Vec::<(u64, u64)>::new());
    assert_eq!(lookup_env(&vec![(1, 10), (2, 20), (1, 30)], 1), Some(10));
    assert_eq!(lookup_env(&vec![(1, 10)], 2), None);
}

#[test]
fn duplicate_paths_are_reported() {
    assert!(paths_unique(&vec![(1, 10), (2, 10), (3, 30)]));
    assert!(!paths_unique(&vec![(1, 10), (2, 20), (1, 10)]));
    assert!(paths_unique(&vec![]));
}

#[test]
fn predecessor_order_does_not_matter() {
    let a = key(1, vec![], vec![], vec![vec![1, 2, 3], vec![9, 9], vec![0, 5]]);
    let b = key(1, vec![], vec![], vec![vec![9, 9], vec![0, 5], vec![1, 2, 3]]);
    let c = key(1, vec![], vec![], vec![vec![0, 5], vec![9, 9], vec![1, 2, 3], vec![9, 9]]);
    assert_eq!(a, b);
    assert_eq!(a, c);
}

#[test]
fn declared_name_order_does_not_matter() {
    let env = vec![(100, 7), (200, 8)];
    let a = task_hash(1, &vec![], &vec![], &vec![100, 200], &env, &vec![]);
    let b = task_hash(1, &vec![], &vec![], &vec![200, 100, 200], &env, &vec![]);
    assert_eq!(a, b);
}

#[test]
fn canonical_orders() {
    assert_eq!(sort_names(&vec![5, 1, 5, 3]), vec![1, 3, 5]);
    assert_eq!(
        sort_keys(&vec![vec![2u8], vec![1, 9], vec![1], vec![2u8], vec![]]),
        vec![vec![], vec![1u8], vec![1, 9], vec![2]]
    );
    assert!(lex_less(&vec![1, 2], &vec![1, 3]));
    assert!(lex_less(&vec![1], &vec![1, 0]));
    assert!(!lex_less(&vec![1, 0], &vec![1]));
    assert!(!lex_less(&vec![4], &vec![4]));
}
