use foundry::order::{place, Place};

#[test]
fn place_compares_byte_by_byte() {
    assert_eq!(place(&[1, 2, 3], &[1, 3]), Place::Before);
    assert_eq!(place(&[2], &[1, 255, 255]), Place::After);
    assert_eq!(place(&[7, 8], &[7, 8]), Place::Same);
}

#[test]
fn place_puts_a_prefix_first() {
    assert_eq!(place(&[], &[0]), Place::Before);
    assert_eq!(place(&[1, 2, 3], &[1, 2]), Place::After);
    assert_eq!(place(&[], &[]), Place::Same);
}
