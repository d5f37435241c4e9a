use cryptanalysis::analytics::frequency_analysis::{
    frequency_analysis, print_frequency_analysis_result, print_frequency_entries,
};
use std::collections::HashMap;

#[test]
fn frequency_analysis_u8() {
    let vec_u8: Vec<u8> = vec![223, 3, 17, 223, 255, 42, 3, 17, 223];
    let result_u8 = frequency_analysis(&vec_u8);
    assert_eq!(
        result_u8,
        [(223, 3), (3, 2), (17, 2), (255, 1), (42, 1)].iter().cloned().collect()
    );
}

#[test]
fn frequency_analysis_u64() {
    let vec_u64: Vec<u64> = vec![12743, 684631, 547, 1253, 12743, 64374, 547, 2, 3562, 12743, 47652];
    let result_u64 = frequency_analysis(&vec_u64);
    assert_eq!(
        result_u64,
        [
            (684631, 1),
            (2, 1),
            (47652, 1),
            (64374, 1),
            (12743, 3),
            (547, 2),
            (3562, 1),
            (1253, 1)
        ]
        .iter()
        .cloned()
        .collect()
    );
}

#[test]
fn print_frequency_analysis_result_test() {
    let vec: Vec<(u32, usize)> = vec![(684, 4), (2, 1), (242, 5), (2, 1), (123, 3)];
    let mut out = String::new();
    print_frequency_analysis_result(vec.iter().cloned().collect(), &mut out);
    let expected = format!("5: 242\n4: 684\n3: 123\n1: 2\n").into_bytes();
    assert_eq!(out.into_bytes(), expected);
}

#[test]
fn frequency_analysis_empty() {
    assert_eq!(frequency_analysis::<u128>(&Vec::new()), HashMap::new());
}

#[test]
fn print_frequency_entries_keeps_the_order_of_equal_counts() {
    let entries: Vec<(u8, usize)> = vec![(7, 2), (9, 5), (1, 2), (3, 5), (4, 1)];
    let mut out = String::from("counts\n");
    print_frequency_entries(&entries, &mut out);
    assert_eq!(out, "counts\n5: 9\n5: 3\n2: 7\n2: 1\n1: 4\n");
}

#[test]
fn print_frequency_analysis_result_of_an_empty_map() {
    let map: HashMap<u16, usize> = HashMap::new();
    let mut out = String::new();
    print_frequency_analysis_result(map, &mut out);
    assert_eq!(out, "");
}

#[test]
fn print_frequency_analysis_result_lists_every_symbol_once() {
    let vec: Vec<u8> = vec![5, 5, 6, 7, 7, 8];
    let mut out = String::new();
    print_frequency_analysis_result(frequency_analysis(&vec), &mut out);
    let mut lines: Vec<&str> = out.lines().collect();
    assert_eq!(lines.len(), 4);
    assert!(lines[0].starts_with("2: ") && lines[1].starts_with("2: "));
    assert!(lines[2].starts_with("1: ") && lines[3].starts_with("1: "));
    lines.sort();
    assert_eq!(lines, vec!["1: 6", "1: 8", "2: 5", "2: 7"]);
}
