use tracy::rendering::Canvas;

#[test]
fn new_canvas_pixels_are_default() {
    let c = Canvas::<(u8, u8, u8)>::new(3, 2);
    assert_eq!(c.iter().count(), 6);
    assert!(c.iter().all(|p| *p == (0, 0, 0)));
}

#[test]
fn putting_a_pixel_changes_only_that_pixel() {
    let mut c = Canvas::<u32>::new(3, 2);
    c.put(2, 0, 7);
    assert_eq!(c.iter().copied().collect::<Vec<u32>>(), vec![0, 0, 7, 0, 0, 0]);
}

#[test]
fn get_finds_nothing_outside_the_canvas() {
    let mut c = Canvas::<u32>::new(3, 2);
    c.put(0, 1, 5);
    assert_eq!(c.get(0, 1), Some(&5));
    assert_eq!(c.get(2, 1), Some(&0));
    assert_eq!(c.get(3, 0), None);
    assert_eq!(c.get(0, 2), None);
    assert_eq!(c.get(u32::MAX, u32::MAX), None);
}

#[test]
fn scanlines_are_rows_of_pixels() {
    let mut c = Canvas::<u32>::new(3, 2);
    c.put(0, 1, 4);
    c.put(2, 1, 6);
    assert_eq!(c.scanline(0), Some(&[0, 0, 0][..]));
    assert_eq!(c.scanline(1), Some(&[4, 0, 6][..]));
    assert_eq!(c.scanline(2), None);
}

#[test]
fn a_canvas_without_columns_has_empty_scanlines() {
    let c = Canvas::<u32>::new(0, 2);
    assert_eq!(c.scanline(5), Some(&[][..]));
}
