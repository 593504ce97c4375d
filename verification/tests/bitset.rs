use lib::bitset::BitArray;

#[test]
fn bit_array_iter_size_hint_counts_down() {
    let mut a = BitArray::new(10);
    a.set(3, true);
    let mut it = a.iter();
    assert_eq!(it.size_hint(), (10, Some(10)));
    assert_eq!(it.next(), Some(false));
    assert_eq!(it.size_hint(), (9, Some(9)));
    let mut n = 1;
    while let Some(_) = it.next() {
        n += 1;
    }
    assert_eq!(n, 10);
    assert_eq!(it.size_hint(), (0, Some(0)));
}

#[test]
fn bit_array_u16_iter_size_hint_counts_down() {
    let a = BitArray::new(40);
    let mut it = a.u16_iter();
    let (n0, _) = it.size_hint();
    assert!(it.next().is_some());
    assert_eq!(it.size_hint().0, n0 - 1);
}
