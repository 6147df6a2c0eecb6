use tracy::rendering::Scanlines;

#[test]
fn scanlines_are_handed_out_in_batches() {
    let mut s = Scanlines::new(5, 2);
    assert_eq!(s.advance(), Some((0, 2)));
    assert_eq!(s.current_line(), 2);
    assert_eq!(s.advance(), Some((2, 4)));
    assert_eq!(s.advance(), Some((4, 5)));
    assert_eq!(s.advance(), None);
    assert_eq!(s.advance(), None);
}

#[test]
fn an_image_without_scanlines_has_no_batch() {
    let mut s = Scanlines::new(0, 4);
    assert!(!s.has_remaining());
    assert_eq!(s.advance(), None);
}

#[test]
fn no_scanline_remains_after_the_last_batch() {
    let mut s = Scanlines::new(4, 2);
    assert!(s.has_remaining());
    assert_eq!(s.advance(), Some((0, 2)));
    assert!(s.has_remaining());
    assert_eq!(s.advance(), Some((2, 4)));
    assert!(!s.has_remaining());
}

#[test]
fn each_call_hands_out_the_next_batch_until_none_remain() {
    let (rows, batch) = (7u32, 3u32);
    let mut s = Scanlines::new(rows, batch);
    for k in 0..5u32 {
        let expected = if k * batch < rows {
            Some((k * batch, ((k + 1) * batch).min(rows)))
        } else {
            None
        };
        assert_eq!(s.advance(), expected);
        assert_eq!(s.has_remaining(), (k + 1) * batch < rows);
    }
}
