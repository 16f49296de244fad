use lifelike::image::{Color, Image, Point};

fn rgba(pixels: &[(u8, u8, u8, u8)]) -> Vec<u8> {
    let mut bytes = Vec::new();
    for &(r, g, b, a) in pixels {
        bytes.push(r);
        bytes.push(g);
        bytes.push(b);
        bytes.push(a);
    }
    bytes
}

#[test]
fn white_fills_every_byte() {
    let image = Image::white(2, 3);
    assert_eq!(image.width, 2);
    assert_eq!(image.height, 3);
    assert_eq!(image.pixel_data, vec![255u8; 24]);
}

#[test]
fn white_of_no_pixels_is_empty() {
    let image = Image::white(0, 7);
    assert_eq!(image.pixel_data.len(), 0);
    assert_eq!(image.height, 7);
}

#[test]
fn from_rgba8_takes_four_bytes_per_pixel() {
    let bytes = rgba(&[(1, 2, 3, 4), (5, 6, 7, 8)]);
    let image = Image::from_rgba8(2, 1, bytes.clone()).unwrap();
    assert_eq!(image.width, 2);
    assert_eq!(image.height, 1);
    assert_eq!(image.pixel_data, bytes);
}

#[test]
fn from_rgba8_refuses_other_layouts() {
    assert!(Image::from_rgba8(2, 1, vec![0u8; 6]).is_none());
    assert!(Image::from_rgba8(2, 1, vec![0u8; 9]).is_none());
    assert!(Image::from_rgba8(1, 1, Vec::new()).is_none());
    assert!(Image::from_rgba8(0, 0, Vec::new()).is_some());
}

#[test]
fn linear_index_is_row_major() {
    let image = Image::white(3, 2);
    assert_eq!(image.linear_index(Point { x: 0, y: 0 }), 0);
    assert_eq!(image.linear_index(Point { x: 2, y: 0 }), 2);
    assert_eq!(image.linear_index(Point { x: 0, y: 1 }), 3);
    assert_eq!(image.linear_index(Point { x: 2, y: 1 }), 5);
}

#[test]
fn linear_index_does_not_check_bounds() {
    let image = Image::white(3, 2);
    assert_eq!(image.linear_index(Point { x: 4, y: 5 }), 19);
}

#[test]
fn color_at_reads_the_three_channels() {
    let image = Image::from_rgba8(
        2,
        2,
        rgba(&[(1, 2, 3, 4), (5, 6, 7, 8), (9, 10, 11, 12), (13, 14, 15, 16)]),
    )
    .unwrap();
    assert_eq!(image.color_at(Point { x: 0, y: 0 }), Color { red: 1, green: 2, blue: 3 });
    assert_eq!(image.color_at(Point { x: 1, y: 0 }), Color { red: 5, green: 6, blue: 7 });
    assert_eq!(image.color_at(Point { x: 0, y: 1 }), Color { red: 9, green: 10, blue: 11 });
    assert_eq!(image.color_at(Point { x: 1, y: 1 }), Color { red: 13, green: 14, blue: 15 });
}

#[test]
fn set_color_at_leaves_alpha_and_other_pixels() {
    let mut image = Image::from_rgba8(
        2,
        2,
        rgba(&[(1, 2, 3, 4), (5, 6, 7, 8), (9, 10, 11, 12), (13, 14, 15, 16)]),
    )
    .unwrap();
    image.set_color_at(Point { x: 0, y: 1 }, Color { red: 100, green: 101, blue: 102 });
    assert_eq!(
        image.pixel_data,
        rgba(&[(1, 2, 3, 4), (5, 6, 7, 8), (100, 101, 102, 12), (13, 14, 15, 16)])
    );
    assert_eq!(image.color_at(Point { x: 0, y: 1 }), Color { red: 100, green: 101, blue: 102 });
}

#[test]
fn colors_compare_channel_by_channel() {
    let a = Color { red: 1, green: 2, blue: 3 };
    assert_eq!(a, Color { red: 1, green: 2, blue: 3 });
    assert_ne!(a, Color { red: 0, green: 2, blue: 3 });
    assert_ne!(a, Color { red: 1, green: 0, blue: 3 });
    assert_ne!(a, Color { red: 1, green: 2, blue: 0 });
}

#[test]
fn neighbors_go_row_by_row_from_the_upper_left() {
    let around = Point { x: 5, y: 9 }.neighbors();
    let expected = [
        Point { x: 4, y: 8 },
        Point { x: 5, y: 8 },
        Point { x: 6, y: 8 },
        Point { x: 4, y: 9 },
        Point { x: 6, y: 9 },
        Point { x: 4, y: 10 },
        Point { x: 5, y: 10 },
        Point { x: 6, y: 10 },
    ];
    assert_eq!(around, expected);
}

#[test]
fn neighbors_of_the_origin_reach_below_zero() {
    let around = Point { x: 0, y: 0 }.neighbors();
    assert_eq!(around[0], Point { x: -1, y: -1 });
    assert_eq!(around[7], Point { x: 1, y: 1 });
}
