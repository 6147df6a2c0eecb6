use tracy::rendering::Canvas;

#[test]
fn ppm_of_an_empty_canvas_is_only_the_header() {
    let c = Canvas::<(u8, u8, u8)>::new(0, 0);
    assert_eq!(c.convert_to_ppm(), "P3\n0 0\n255\n");
}

#[test]
fn ppm_rows_without_pixels_are_left_out() {
    let c = Canvas::<(u8, u8, u8)>::new(0, 3);
    assert_eq!(c.convert_to_ppm(), "P3\n0 3\n255\n");
}

#[test]
fn ppm_text_of_a_small_canvas() {
    let mut c = Canvas::<(u8, u8, u8)>::new(2, 2);
    c.put(0, 0, (1, 22, 255));
    c.put(1, 1, (100, 9, 10));
    assert_eq!(
        c.convert_to_ppm(),
        "P3\n2 2\n255\n1 22 255 0 0 0\n0 0 0 100 9 10\n"
    );
}

#[test]
fn ppm_wraps_single_digit_values_after_the_seventieth_column() {
    let c = Canvas::<(u8, u8, u8)>::new(12, 1);
    let ppm = c.convert_to_ppm();
    let lines: Vec<&str> = ppm.lines().skip(3).collect();
    assert_eq!(lines.len(), 2);
    assert_eq!(lines[0].len(), 69);
    assert_eq!(lines[0].split(' ').count(), 35);
    assert_eq!(lines[1], "0");
}

#[test]
fn ppm_lines_never_exceed_seventy_characters() {
    let mut c = Canvas::<(u8, u8, u8)>::new(23, 7);
    for y in 0..7u32 {
        for x in 0..23u32 {
            let v = ((x * 37 + y * 11) % 256) as u8;
            c.put(x, y, (v, v / 3, 255 - v));
        }
    }
    let ppm = c.convert_to_ppm();
    assert!(ppm.lines().all(|l| l.len() <= 70));
    assert!(ppm.ends_with('\n'));
    let numbers: Vec<u32> = ppm
        .lines()
        .skip(3)
        .flat_map(|l| l.split(' '))
        .map(|w| w.parse().unwrap())
        .collect();
    assert_eq!(numbers.len(), 23 * 7 * 3);
    assert_eq!(numbers[0], 0);
    assert_eq!(numbers[2], 255);
    assert_eq!(numbers[3], 37);
}

#[test]
fn ppm_lines_never_end_with_a_space_and_rows_start_on_their_own_line() {
    let mut c = Canvas::<(u8, u8, u8)>::new(9, 3);
    for (i, p) in c.iter_mut().iter_mut().enumerate() {
        *p = ((i as u8).wrapping_mul(30), 200, 7);
    }
    let ppm = c.convert_to_ppm();
    assert!(ppm.lines().all(|l| !l.ends_with(' ')));
    let lines: Vec<&str> = ppm.lines().collect();
    // each row of 27 values takes two lines, so the rows start at lines 3, 5 and 7
    assert!(lines[3].starts_with("0 200 7"));
    assert!(lines[5].starts_with("14 200 7"));
    assert!(lines[7].starts_with("28 200 7"));
    assert_eq!(lines.len(), 9);
}
