use raytrace::ppm::{encode_image, pixel_line, ppm_header, push_decimal, Pixel};

fn text(bytes: Vec<u8>) -> String {
    String::from_utf8(bytes).unwrap()
}

#[test]
fn header_of_two_by_one_image() {
    assert_eq!(text(ppm_header(2, 1)), "P3\n2 1\n255\n");
}

#[test]
fn header_of_wide_image() {
    assert_eq!(text(ppm_header(400, 225)), "P3\n400 225\n255\n");
}

#[test]
fn decimal_digits() {
    let mut out: Vec<u8> = Vec::new();
    push_decimal(&mut out, 0);
    out.push(b',');
    push_decimal(&mut out, 7);
    out.push(b',');
    push_decimal(&mut out, 10);
    out.push(b',');
    push_decimal(&mut out, 4294967295);
    assert_eq!(text(out), "0,7,10,4294967295");
}

#[test]
fn pixel_line_extremes() {
    assert_eq!(text(pixel_line(Pixel { r: 0, g: 128, b: 255 })), "0 128 255\n");
    assert_eq!(text(pixel_line(Pixel { r: 9, g: 10, b: 99 })), "9 10 99\n");
}

#[test]
fn two_by_one_image_has_header_and_two_lines() {
    let pixels = vec![Pixel { r: 206, g: 224, b: 255 }, Pixel { r: 206, g: 224, b: 255 }];
    let doc = text(encode_image(2, 1, &pixels));
    assert_eq!(doc, "P3\n2 1\n255\n206 224 255\n206 224 255\n");
    assert_eq!(doc.lines().count(), 3 + 2);
}

#[test]
fn empty_image_is_header_only() {
    let pixels: Vec<Pixel> = Vec::new();
    assert_eq!(text(encode_image(0, 3, &pixels)), "P3\n0 3\n255\n");
}

#[test]
fn image_rows_keep_their_order() {
    let pixels = vec![
        Pixel { r: 1, g: 2, b: 3 },
        Pixel { r: 4, g: 5, b: 6 },
        Pixel { r: 7, g: 8, b: 9 },
        Pixel { r: 10, g: 11, b: 12 },
    ];
    assert_eq!(text(encode_image(2, 2, &pixels)), "P3\n2 2\n255\n1 2 3\n4 5 6\n7 8 9\n10 11 12\n");
}
