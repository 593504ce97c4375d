use lib::huffman::cano_huff_table::{make_tab_with_fn, make_table};
use std::cmp;

fn depth_merge(x: usize, y: usize) -> usize {
    ((x & !0xFF) + (y & !0xFF)) | (cmp::max(x & 0xFF, y & 0xFF) + 1)
}

fn kraft_ok(tab: &[u8]) -> bool {
    let max = *tab.iter().max().unwrap() as u32;
    let sum: u64 = tab
        .iter()
        .filter(|l| **l != 0)
        .map(|l| 1u64 << (max - *l as u32))
        .sum();
    sum <= 1u64 << max
}

#[test]
fn create_haffman_tab() {
    let freq = vec![0, 1, 1, 2, 2, 4, 4, 8, 8];
    let tab = make_table(&freq, 12);

    assert_eq!(
        tab.iter()
            .zip(freq)
            .map(|(x, y)| *x as usize * y)
            .sum::<usize>(),
        80
    );
}

#[test]
fn create_haffman_tab_with_fn() {
    let symb_len = vec![0_u8, 4, 4, 4, 4, 3, 3, 2, 2];
    let freq = vec![0_usize, 1, 1, 2, 2, 4, 4, 8, 8];
    let tab = make_tab_with_fn(
        &freq.iter().map(|i| i << 8).collect::<Vec<_>>(),
        12,
        |x, y| ((x & !0xFF) + (y & !0xFF)) | (cmp::max(x & 0xFF, y & 0xFF) + 1),
    );

    assert_eq!(tab, symb_len);
}

#[test]
fn create_haffman_tab_with_fn_lim_len() {
    let freq = (0..63).collect::<Vec<_>>();
    let tab = make_tab_with_fn(
        &freq.iter().map(|i| i << 8).collect::<Vec<_>>(),
        8,
        |x, y| ((x & !0xFF) + (y & !0xFF)) | (cmp::max(x & 0xFF, y & 0xFF) + 1),
    );

    assert!(
        tab.iter()
            .zip(freq.clone())
            .map(|(x, y)| *x as usize * y)
            .sum::<usize>()
            < freq.iter().sum::<usize>() * 6
    );

    assert!(*tab.iter().max().unwrap() <= 8);
}

#[test]
fn create_haffman_tab_unit() {
    let freq = vec![0, 1];
    let tab = make_table(&freq, 12);

    assert_eq!(tab, vec![0, 1]);
}

#[test]
fn cano_huff_table_empty_and_unused() {
    assert_eq!(make_table(&[], 12), Vec::<u8>::new());
    assert_eq!(make_table(&[0, 0, 0], 12), Vec::<u8>::new());
}

#[test]
fn cano_huff_table_trailing_zeros_dropped() {
    let tab = make_table(&[3, 0, 5, 0, 0], 12);
    assert_eq!(tab, vec![1, 0, 1]);
}

#[test]
fn cano_huff_table_limited_lengths_form_a_code() {
    // Fibonacci frequencies make a deep tree; the limit forces package-merge.
    let freq: Vec<usize> = vec![1, 1, 2, 3, 5, 8, 13, 21, 34, 55, 89, 144];
    let free = make_table(&freq, 32);
    assert_eq!(*free.iter().max().unwrap(), 11);
    assert!(kraft_ok(&free));
    let tab = make_table(&freq, 5);
    assert_eq!(tab.len(), freq.len());
    assert!(tab.iter().all(|l| 1 <= *l && *l <= 5));
    assert!(kraft_ok(&tab));
    let merged = make_tab_with_fn(&freq, 4, depth_merge);
    assert!(merged.iter().all(|l| 1 <= *l && *l <= 4));
}
