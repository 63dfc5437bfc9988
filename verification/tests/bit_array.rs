use lib::BitArray;

#[test]
fn bit_array_set_get_next_set() {
    let mut row = BitArray::with_size(10);
    assert_eq!(row.getSize(), 10);
    assert_eq!(row.getNextSet(0), 10);
    row.set(3);
    row.set(7);
    assert!(row.get(3));
    assert!(!row.get(4));
    assert_eq!(row.getNextSet(0), 3);
    assert_eq!(row.getNextSet(3), 3);
    assert_eq!(row.getNextSet(4), 7);
    assert_eq!(row.getNextSet(8), 10);
    assert_eq!(row.getNextSet(25), 10);
}
