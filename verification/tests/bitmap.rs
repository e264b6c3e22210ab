use kernel::bitmap::Bitmap;

#[test]
fn first_cleared_bit_is_allocated() {
    let mut b: Bitmap<10> = Bitmap::new();
    assert_eq!(b.allocate(), Some(0));
    assert_eq!(b.allocate(), Some(1));
    assert_eq!(b.deallocate(0), Ok(()));
    assert_eq!(b.deallocate(0), Err(()));
    assert_eq!(b.deallocate(10), Err(()));
    assert_eq!(b.allocate(), Some(0));
}
