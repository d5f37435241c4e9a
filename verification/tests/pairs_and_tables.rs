use cryptanalysis::analytics::dedup_pair_iter::DeDupPairIter;
use cryptanalysis::analytics::fingerprint::{fingerprint, mix, IdIndex, FINGERPRINT_START};
use cryptanalysis::analytics::repeats::{copy_word, insert_position, same_word, Repeats};
use cryptanalysis::analytics::word_index::{add_position, index_words, same_window};
use cryptanalysis::order::order_descending;
use std::collections::HashSet;

fn pairs_of(vec: &Vec<usize>) -> Vec<(usize, usize)> {
    let mut pairs = Vec::new();
    let mut iter = DeDupPairIter::new(vec);
    while let Some(pair) = iter.next() {
        pairs.push(pair);
    }
    assert_eq!(iter.next(), None);
    assert_eq!(iter.next(), None);
    pairs
}

#[test]
fn no_pairs_without_two_different_values() {
    assert_eq!(pairs_of(&vec![]), vec![]);
    assert_eq!(pairs_of(&vec![3]), vec![]);
    assert_eq!(pairs_of(&vec![3, 3, 3]), vec![]);
}

#[test]
fn pairs_of_an_ascending_list_are_earlier_with_later() {
    assert_eq!(
        pairs_of(&vec![1, 4, 6, 9]),
        vec![(1, 4), (1, 6), (1, 9), (4, 6), (4, 9), (6, 9)]
    );
}

#[test]
fn each_two_values_are_paired_once() {
    let vec: Vec<usize> = vec![5, 1, 5, 9, 1, 0, 9, 9, 7, 5, usize::MAX, 0];
    let pairs = pairs_of(&vec);
    let values: HashSet<usize> = vec.iter().cloned().collect();
    assert_eq!(pairs.len() * 2, values.len() * (values.len() - 1));
    let mut seen = HashSet::new();
    for (a, b) in pairs.iter() {
        assert!(a != b);
        assert!(values.contains(a) && values.contains(b));
        assert!(seen.insert((*a, *b)));
        assert!(!seen.contains(&(*b, *a)));
    }
    for a in values.iter() {
        for b in values.iter() {
            if a != b {
                assert!(seen.contains(&(*a, *b)) != seen.contains(&(*b, *a)));
            }
        }
    }
}

#[test]
fn a_table_keeps_words_in_order_and_positions_ascending() {
    let mut table: Repeats<u8> = Repeats::new();
    assert_eq!(table.len(), 0);
    table.insert(&vec![2, 3], 9);
    table.insert(&vec![1], 4);
    table.insert(&vec![2, 3], 3);
    table.insert(&vec![2, 3], 9);
    table.insert(&vec![2, 3], 5);
    table.insert(&vec![], 0);
    table.insert(&vec![1], 4);
    assert_eq!(table.len(), 3);
    assert_eq!(table.word(0), &vec![2, 3]);
    assert_eq!(table.starts(0), &vec![3, 5, 9]);
    assert_eq!(table.word(1), &vec![1]);
    assert_eq!(table.starts(1), &vec![4]);
    assert_eq!(table.word(2), &Vec::<u8>::new());
    assert_eq!(table.starts(2), &vec![0]);
}

#[test]
fn positions_are_inserted_in_ascending_order() {
    let mut list: Vec<usize> = vec![];
    for x in [5, 1, 9, 5, 0, 9, 3] {
        insert_position(&mut list, x);
    }
    assert_eq!(list, vec![0, 1, 3, 5, 9]);
}

#[test]
fn words_are_compared_and_copied_by_symbols() {
    let a: Vec<u16> = vec![1, 2, 3];
    assert!(same_word(&a, &vec![1, 2, 3]));
    assert!(!same_word(&a, &vec![1, 2]));
    assert!(!same_word(&a, &vec![1, 2, 4]));
    assert!(same_word(&Vec::<u16>::new(), &vec![]));
    assert_eq!(copy_word(&a), a);
}

#[test]
fn positions_are_grouped_by_their_words() {
    let vec: Vec<u8> = vec![1, 2, 1, 2, 1, 3];
    assert_eq!(index_words(&vec, 2), vec![vec![0, 2], vec![1, 3], vec![4]]);
    assert_eq!(index_words(&vec, 1), vec![vec![0, 2, 4], vec![1, 3], vec![5]]);
    assert_eq!(index_words(&vec, 5), vec![vec![0], vec![1]]);
    assert_eq!(index_words(&vec, 6), Vec::<Vec<usize>>::new());
    assert_eq!(index_words(&vec, 7), Vec::<Vec<usize>>::new());
    assert_eq!(index_words(&vec, 0), vec![vec![0, 1, 2, 3, 4, 5, 6]]);
    assert_eq!(index_words(&Vec::<u8>::new(), 0), Vec::<Vec<usize>>::new());
}

#[test]
fn a_position_joins_the_group_of_its_word() {
    let vec: Vec<u8> = vec![1, 2, 1, 2, 1, 3];
    let mut groups = vec![];
    let mut index = IdIndex::new();
    add_position(&mut groups, &mut index, &vec, 2, 0);
    add_position(&mut groups, &mut index, &vec, 2, 1);
    assert_eq!(groups, vec![vec![0], vec![1]]);
    add_position(&mut groups, &mut index, &vec, 2, 2);
    assert_eq!(groups, vec![vec![0, 2], vec![1]]);
    assert!(same_window(&vec, 0, 2, 3));
    assert!(!same_window(&vec, 0, 2, 4));
    assert!(same_window(&vec, 1, 5, 0));
}

#[test]
fn the_largest_key_comes_first_and_equal_keys_keep_their_order() {
    assert_eq!(order_descending(&vec![2, 5, 3, 5, 2, 9]), vec![5, 1, 3, 2, 0, 4]);
    assert_eq!(order_descending(&vec![]), Vec::<usize>::new());
    assert_eq!(order_descending(&vec![1, 1, 1]), vec![0, 1, 2]);
}

#[test]
fn ids_are_listed_by_fingerprint() {
    let mut index = IdIndex::new();
    assert_eq!(index.get(7), None);
    index.add(7, 0);
    index.add(9, 1);
    index.add(7, 2);
    assert_eq!(index.get(7), Some(&vec![0, 2]));
    assert_eq!(index.get(9), Some(&vec![1]));
    assert_eq!(index.get(8), None);
}

#[test]
fn the_same_symbols_have_the_same_fingerprint() {
    let vec: Vec<u16> = vec![1, 2, 3, 1, 2, 3, 4];
    assert_eq!(fingerprint(&vec, 0, 3), fingerprint(&vec, 3, 3));
    assert_eq!(fingerprint(&vec, 0, 0), FINGERPRINT_START);
    assert_eq!(fingerprint(&vec, 7, 0), FINGERPRINT_START);
    assert_eq!(fingerprint(&vec, 6, 1), mix(FINGERPRINT_START, 4));
    assert_eq!(mix(0, 5), 5);
    assert_eq!(mix(1, 0), 0x100_0000_01b3);
    assert_eq!(mix(2, (7u128 << 64) + 3), 2 * 0x100_0000_01b3 + 10);
    assert_eq!(mix(u64::MAX, u128::MAX), 0xffff_feff_ffff_fe4b);
}

#[test]
fn many_words_are_found_again() {
    let mut table: Repeats<u32> = Repeats::new();
    for round in 0..3 {
        for n in 0..500u32 {
            table.insert(&vec![n % 7, n, n / 3], (n as usize) + round);
        }
    }
    assert_eq!(table.len(), 500);
    for n in 0..500usize {
        assert_eq!(table.word(n), &vec![(n % 7) as u32, n as u32, (n / 3) as u32]);
        assert_eq!(table.starts(n), &vec![n, n + 1, n + 2]);
    }
}
