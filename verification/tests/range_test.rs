use indexed_string::range::RangeReplaceable;

#[test]
fn items_at_range_in_bounds() {
    let buffer: [u8; 4] = [10, 20, 30, 40];
    let slice: &[u8] = &buffer;
    assert_eq!(slice.items_at_range(1, 3), Some(&[20u8, 30u8][..]));
    assert_eq!(slice.items_at_range(0, 4), Some(&buffer[..]));
    assert_eq!(slice.items_at_range(2, 2), Some(&[][..]));
}

#[test]
fn items_at_range_out_of_bounds() {
    let buffer: [u8; 4] = [10, 20, 30, 40];
    let slice: &[u8] = &buffer;
    assert_eq!(slice.items_at_range(2, 5), None);
}

#[test]
fn items_by_length() {
    let buffer: [u8; 4] = [10, 20, 30, 40];
    let slice: &[u8] = &buffer;
    assert_eq!(slice.items(1, 2), Some(&[20u8, 30u8][..]));
    assert_eq!(slice.items(3, 2), None);
}

#[test]
fn replace_items_in_bounds() {
    let mut buffer: [u8; 4] = [10, 20, 30, 40];
    let replaced = buffer[..].replace_items(1, &[7, 8]);
    assert!(replaced);
    assert_eq!(buffer, [10, 7, 8, 40]);
}

#[test]
fn replace_items_out_of_bounds() {
    let mut buffer: [u8; 4] = [10, 20, 30, 40];
    let replaced = buffer[..].replace_items(3, &[7, 8]);
    assert!(!replaced);
    assert_eq!(buffer, [10, 20, 30, 40]);
}
