use jin::bitmap::{clear_nth_bit, get_nth_bit, set_nth_bit, BitmapErr};

#[test]
fn test_bitmap_operations() {
    let mut bitmap = 12; // 0b00001100
    assert_eq!(get_nth_bit(&bitmap, 0).unwrap(), 0);
    assert_eq!(get_nth_bit(&bitmap, 3).unwrap(), 1);
    assert_eq!(get_nth_bit(&bitmap, 4).unwrap(), 0);

    set_nth_bit(&mut bitmap, 0).unwrap();
    clear_nth_bit(&mut bitmap, 3).unwrap();

    assert_eq!(bitmap, 5); // 0b00000101
}

#[test]
fn bitmap_index_out_of_bounds() {
    let mut bitmap: u64 = 7;
    assert_eq!(get_nth_bit(&bitmap, 64), Err(BitmapErr::OutOfBounds));
    assert_eq!(set_nth_bit(&mut bitmap, 64), Err(BitmapErr::OutOfBounds));
    assert_eq!(clear_nth_bit(&mut bitmap, 100), Err(BitmapErr::OutOfBounds));
    assert_eq!(bitmap, 7);
}

#[test]
fn bitmap_highest_bit() {
    let mut bitmap: u64 = 0;
    set_nth_bit(&mut bitmap, 63).unwrap();
    assert_eq!(bitmap, 1u64 << 63);
    assert_eq!(get_nth_bit(&bitmap, 63), Ok(1));
    clear_nth_bit(&mut bitmap, 63).unwrap();
    assert_eq!(bitmap, 0);
}

#[test]
fn bitmap_set_and_clear_are_idempotent() {
    let mut bitmap: u64 = 0b1010;
    set_nth_bit(&mut bitmap, 1).unwrap();
    assert_eq!(bitmap, 0b1010);
    clear_nth_bit(&mut bitmap, 0).unwrap();
    assert_eq!(bitmap, 0b1010);
}
