use tracy::rendering::Canvas;

const EPSILON: f32 = 1e-4;

#[derive(Debug, Default, Clone, Copy, PartialEq)]
struct Color {
    r: f32,
    g: f32,
    b: f32,
}

impl Color {
    fn new(r: f32, g: f32, b: f32) -> Self {
        Self { r, g, b }
    }

    fn to_rgb888(self) -> (u8, u8, u8) {
        (
            (self.r * 255.).max(0.).min(255.).round() as u8,
            (self.g * 255.).max(0.).min(255.).round() as u8,
            (self.b * 255.).max(0.).min(255.).round() as u8,
        )
    }

    fn abs_diff_eq(&self, other: &Self, max_abs_diff: f32) -> bool {
        (self.r - other.r).abs() < max_abs_diff
            && (self.g - other.g).abs() < max_abs_diff
            && (self.b - other.b).abs() < max_abs_diff
    }
}

/// Writes a canvas of colors as PPM, each color clamped and rounded to 8 bits per channel.
fn convert_to_ppm(canvas: &Canvas<Color>) -> String {
    let mut rgb = Canvas::<(u8, u8, u8)>::new(canvas.width(), canvas.height());
    for y in 0..canvas.height() {
        for x in 0..canvas.width() {
            rgb.put(x, y, canvas.get(x, y).unwrap().to_rgb888());
        }
    }
    rgb.convert_to_ppm()
}

#[test]
fn creating_a_canvas() {
    let c = Canvas::<Color>::new(10, 20);
    assert_eq!(c.width(), 10);
    assert_eq!(c.height(), 20);
    assert!(c.iter().all(|p| p.abs_diff_eq(&Color::new(0., 0., 0.), EPSILON)));
}

#[test]
fn writing_pixels_to_a_canvas() {
    let mut c = Canvas::<Color>::new(10, 20);
    let red = Color::new(1., 0., 0.);
    c.put(2, 3, red);
    assert!(c.get(2, 3).unwrap().abs_diff_eq(&red, EPSILON));
}

#[test]
fn constructing_the_ppm_header() {
    let c = Canvas::<Color>::new(5, 3);
    let ppm = convert_to_ppm(&c);
    assert!(ppm.starts_with("P3\n5 3\n255"));
}

#[test]
fn constructing_the_ppm_pixel_data() {
    let mut c = Canvas::<Color>::new(5, 3);
    c.put(0, 0, Color::new(1.5, 0., 0.));
    c.put(2, 1, Color::new(0., 0.5, 0.));
    c.put(4, 2, Color::new(-0.5, 0., 1.));

    let ppm = convert_to_ppm(&c);
    assert_eq!(
        ppm.lines().skip(3).take(3).collect::<Vec<_>>(),
        vec![
            "255 0 0 0 0 0 0 0 0 0 0 0 0 0 0",
            "0 0 0 0 0 0 0 128 0 0 0 0 0 0 0",
            "0 0 0 0 0 0 0 0 0 0 0 0 0 0 255",
        ]
    );
}

#[test]
fn splitting_long_lines_in_ppm_file() {
    let mut c = Canvas::<Color>::new(10, 2);
    for pixel in c.iter_mut() {
        *pixel = Color::new(1., 0.8, 0.6);
    }

    let ppm = convert_to_ppm(&c);
    assert_eq!(
        ppm.lines().skip(3).take(4).collect::<Vec<_>>(),
        vec![
            "255 204 153 255 204 153 255 204 153 255 204 153 255 204 153 255 204",
            "153 255 204 153 255 204 153 255 204 153 255 204 153",
            "255 204 153 255 204 153 255 204 153 255 204 153 255 204 153 255 204",
            "153 255 204 153 255 204 153 255 204 153 255 204 153",
        ]
    );
}

#[test]
fn ppm_files_are_terminated_by_a_newline_character() {
    let c = Canvas::<Color>::new(5, 3);
    let ppm = convert_to_ppm(&c);
    assert_eq!(ppm.chars().last(), Some('\n'));
}
