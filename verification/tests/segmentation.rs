use lifelike::image::{Color, Image, Point};
use lifelike::world::World;
use lifelike::world_builder::{BuildError, WorldBuilder};

const RED: (u8, u8, u8) = (200, 0, 0);
const GREEN: (u8, u8, u8) = (0, 200, 0);
const BLUE: (u8, u8, u8) = (0, 0, 200);
const BLACK: (u8, u8, u8) = (0, 0, 0);

const GRAY: Color = Color { red: 127, green: 127, blue: 127 };
const WHITE: Color = Color { red: 255, green: 255, blue: 255 };

fn picture(width: u32, height: u32, pixels: &[(u8, u8, u8)]) -> Image {
    let mut bytes = Vec::new();
    for &(r, g, b) in pixels {
        bytes.push(r);
        bytes.push(g);
        bytes.push(b);
        bytes.push(255);
    }
    Image { pixel_data: bytes, width, height }
}

fn segment(image: Image, wrap: bool) -> World {
    WorldBuilder::new(image, wrap, 2, 3, 3, 3, false).unwrap().build()
}

fn cell_holding(world: &World, p: Point) -> Vec<usize> {
    let mut holders = Vec::new();
    for (index, cell) in world.cells().iter().enumerate() {
        for q in cell.pixels.iter() {
            if *q == p {
                holders.push(index);
            }
        }
    }
    holders
}

fn sorted(list: &Vec<usize>) -> Vec<usize> {
    let mut copy = list.clone();
    copy.sort();
    copy
}

fn marked(world: &World) -> Vec<Point> {
    let overlay = world.cell_boundaries();
    let mut points = Vec::new();
    for y in 0..overlay.height as i32 {
        for x in 0..overlay.width as i32 {
            let p = Point { x, y };
            let color = overlay.color_at(p);
            assert!(color == GRAY || color == WHITE);
            if color == GRAY {
                points.push(p);
            }
        }
    }
    points
}

fn check_segmentation(image: &Image, world: &World) {
    let cells = world.cells();
    let mut total = 0;
    for cell in cells.iter() {
        total += cell.pixels.len();
        assert!(!cell.pixels.is_empty());
        for p in cell.pixels.iter() {
            assert_eq!(image.color_at(*p), cell.color);
        }
    }
    assert_eq!(total, (image.width * image.height) as usize);
    for y in 0..image.height as i32 {
        for x in 0..image.width as i32 {
            assert_eq!(cell_holding(world, Point { x, y }).len(), 1);
        }
    }
    for (a, cell) in cells.iter().enumerate() {
        for b in cell.neighbors.iter() {
            assert_ne!(*b, a);
            assert!(*b < cells.len());
            assert!(cells[*b].neighbors.contains(&a));
            assert_ne!(cells[*b].color, cell.color);
        }
        let mut seen = sorted(&cell.neighbors);
        seen.dedup();
        assert_eq!(seen.len(), cell.neighbors.len());
    }
}

#[test]
fn two_solid_pixels_make_two_adjacent_cells() {
    let world = segment(picture(2, 1, &[RED, BLUE]), false);
    let cells = world.cells();
    assert_eq!(cells.len(), 2);
    assert_eq!(cells[0].neighbors, vec![1]);
    assert_eq!(cells[1].neighbors, vec![0]);
    assert_eq!(cells[0].pixels, vec![Point { x: 0, y: 0 }]);
    assert_eq!(cells[1].pixels, vec![Point { x: 1, y: 0 }]);
    assert_eq!(cells[0].color, Color { red: 200, green: 0, blue: 0 });
    assert_eq!(cells[1].color, Color { red: 0, green: 0, blue: 200 });
}

#[test]
fn single_wrapped_pixel_has_no_neighbor_and_no_border() {
    let world = segment(picture(1, 1, &[RED]), true);
    let cells = world.cells();
    assert_eq!(cells.len(), 1);
    assert!(cells[0].neighbors.is_empty());
    assert_eq!(cells[0].pixels, vec![Point { x: 0, y: 0 }]);
    assert!(marked(&world).is_empty());
    assert_eq!(world.cell_boundaries().pixel_data, vec![255u8; 4]);
}

#[test]
fn single_pixel_without_wrap_is_all_border() {
    let world = segment(picture(1, 1, &[RED]), false);
    assert_eq!(world.cells().len(), 1);
    assert!(world.cells()[0].neighbors.is_empty());
    assert_eq!(marked(&world), vec![Point { x: 0, y: 0 }]);
    assert_eq!(world.cell_boundaries().pixel_data, vec![127, 127, 127, 255]);
}

#[test]
fn four_distinct_colors_mark_every_pixel() {
    let image = picture(2, 2, &[RED, GREEN, BLUE, BLACK]);
    let world = segment(picture(2, 2, &[RED, GREEN, BLUE, BLACK]), false);
    assert_eq!(world.cells().len(), 4);
    assert_eq!(marked(&world).len(), 4);
    for cell in world.cells().iter() {
        assert_eq!(cell.neighbors.len(), 3);
        assert_eq!(cell.pixels.len(), 1);
    }
    check_segmentation(&image, &world);
}

#[test]
fn every_pixel_lands_in_exactly_one_cell() {
    let pixels = [
        RED, RED, BLUE, BLUE, //
        RED, GREEN, GREEN, BLUE, //
        BLACK, BLACK, GREEN, RED,
    ];
    let image = picture(4, 3, &pixels);
    let world = segment(picture(4, 3, &pixels), false);
    check_segmentation(&image, &world);
    assert_eq!(world.cells().len(), 5);
    let total: usize = world.cells().iter().map(|cell| cell.pixels.len()).sum();
    assert_eq!(total, 12);
}

#[test]
fn cells_keep_the_color_of_their_pixels() {
    let pixels = [RED, BLUE, RED, BLUE, RED, BLUE];
    let image = picture(3, 2, &pixels);
    let world = segment(picture(3, 2, &pixels), false);
    for cell in world.cells().iter() {
        for p in cell.pixels.iter() {
            assert_eq!(image.color_at(*p), cell.color);
        }
    }
    check_segmentation(&image, &world);
}

#[test]
fn diagonal_pixels_of_one_color_form_one_cell() {
    let pixels = [
        RED, BLUE, //
        BLUE, RED,
    ];
    let image = picture(2, 2, &pixels);
    let world = segment(picture(2, 2, &pixels), false);
    let cells = world.cells();
    assert_eq!(cells.len(), 2);
    assert_eq!(cells[0].pixels, vec![Point { x: 0, y: 0 }, Point { x: 1, y: 1 }]);
    assert_eq!(cells[1].pixels.len(), 2);
    assert_eq!(cells[0].neighbors, vec![1]);
    assert_eq!(cells[1].neighbors, vec![0]);
    check_segmentation(&image, &world);
}

#[test]
fn neighbors_are_mutual_and_never_the_cell_itself() {
    let pixels = [
        RED, GREEN, BLUE, //
        RED, BLACK, BLUE, //
        RED, GREEN, BLUE,
    ];
    let image = picture(3, 3, &pixels);
    for wrap in [false, true] {
        let world = segment(picture(3, 3, &pixels), wrap);
        check_segmentation(&image, &world);
        let cells = world.cells();
        for (a, cell) in cells.iter().enumerate() {
            assert!(!cell.neighbors.contains(&a));
            for b in 0..cells.len() {
                assert_eq!(cell.neighbors.contains(&b), cells[b].neighbors.contains(&a));
            }
        }
    }
}

#[test]
fn wrapping_joins_regions_across_the_edge() {
    let open = segment(picture(3, 1, &[RED, BLUE, RED]), false);
    assert_eq!(open.cells().len(), 3);
    assert_eq!(sorted(&open.cells()[1].neighbors), vec![0, 2]);
    assert_eq!(open.cells()[0].neighbors, vec![1]);
    assert_eq!(open.cells()[2].neighbors, vec![1]);

    let torus = segment(picture(3, 1, &[RED, BLUE, RED]), true);
    assert_eq!(torus.cells().len(), 2);
    assert_eq!(torus.cells()[0].pixels.len(), 2);
    assert_eq!(torus.cells()[0].neighbors, vec![1]);
    assert_eq!(torus.cells()[1].neighbors, vec![0]);
}

#[test]
fn a_column_one_pixel_wide_never_borders_itself() {
    let image = picture(1, 3, &[RED, RED, BLUE]);
    let world = segment(picture(1, 3, &[RED, RED, BLUE]), true);
    let cells = world.cells();
    assert_eq!(cells.len(), 2);
    assert_eq!(cells[0].neighbors, vec![1]);
    assert_eq!(cells[1].neighbors, vec![0]);
    check_segmentation(&image, &world);
    assert_eq!(marked(&world).len(), 3);
}

#[test]
fn interior_of_a_solid_region_is_not_marked() {
    let world = segment(picture(3, 3, &[RED; 9]), false);
    assert_eq!(world.cells().len(), 1);
    assert_eq!(world.cells()[0].pixels.len(), 9);
    let border = marked(&world);
    assert_eq!(border.len(), 8);
    assert!(!border.contains(&Point { x: 1, y: 1 }));
}

#[test]
fn a_solid_torus_has_no_border_at_all() {
    let world = segment(picture(3, 2, &[BLUE; 6]), true);
    assert_eq!(world.cells().len(), 1);
    assert!(marked(&world).is_empty());
}

#[test]
fn color_borders_are_marked_on_both_sides() {
    let pixels = [
        RED, RED, BLUE, BLUE, //
        RED, RED, BLUE, BLUE,
    ];
    let world = segment(picture(4, 2, &pixels), true);
    let border = marked(&world);
    assert_eq!(border.len(), 8);
    let wide = [
        RED, RED, RED, BLUE, BLUE, BLUE, //
        RED, RED, RED, BLUE, BLUE, BLUE,
    ];
    let world = segment(picture(6, 2, &wide), true);
    let mut border = marked(&world);
    border.sort_by_key(|p| (p.y, p.x));
    let expected: Vec<Point> = [(0, 0), (2, 0), (3, 0), (5, 0), (0, 1), (2, 1), (3, 1), (5, 1)]
        .iter()
        .map(|&(x, y)| Point { x, y })
        .collect();
    assert_eq!(border, expected);
}

#[test]
fn overlay_keeps_the_size_of_the_image_and_full_alpha() {
    let world = segment(picture(3, 2, &[RED, BLUE, RED, BLUE, RED, BLUE]), false);
    let overlay = world.cell_boundaries();
    assert_eq!(overlay.width, 3);
    assert_eq!(overlay.height, 2);
    assert_eq!(overlay.pixel_data.len(), 24);
    for pixel in overlay.pixel_data.chunks(4) {
        assert_eq!(pixel[3], 255);
    }
}

#[test]
fn built_world_starts_with_one_flag_per_cell_and_a_white_surface() {
    let world = segment(picture(2, 2, &[RED, GREEN, BLUE, BLACK]), false);
    assert_eq!(world.front().len(), world.cells().len());
    assert_eq!(world.image().width, 2);
    assert_eq!(world.image().height, 2);
    assert_eq!(world.image().pixel_data, vec![255u8; 16]);
}

#[test]
fn an_image_without_pixels_is_refused() {
    let empty = Image { pixel_data: Vec::new(), width: 0, height: 4 };
    assert!(matches!(
        WorldBuilder::new(empty, false, 2, 3, 3, 3, false),
        Err(BuildError::EmptyImage)
    ));
    let flat = Image { pixel_data: Vec::new(), width: 4, height: 0 };
    assert!(matches!(
        WorldBuilder::new(flat, true, 2, 3, 3, 3, false),
        Err(BuildError::EmptyImage)
    ));
}

#[test]
fn an_image_too_long_for_a_point_is_refused() {
    let long = Image { pixel_data: Vec::new(), width: 2147483648, height: 1 };
    assert!(matches!(
        WorldBuilder::new(long, false, 2, 3, 3, 3, false),
        Err(BuildError::ImageTooLarge)
    ));
    let tall = Image { pixel_data: Vec::new(), width: 1, height: u32::MAX };
    assert!(matches!(
        WorldBuilder::new(tall, false, 2, 3, 3, 3, false),
        Err(BuildError::ImageTooLarge)
    ));
}

#[test]
fn a_buffer_of_the_wrong_length_is_refused() {
    let short = Image { pixel_data: vec![0u8; 7], width: 2, height: 1 };
    assert!(matches!(
        WorldBuilder::new(short, false, 2, 3, 3, 3, false),
        Err(BuildError::InputFormat)
    ));
    let rgb = Image { pixel_data: vec![0u8; 6], width: 2, height: 1 };
    assert!(matches!(
        WorldBuilder::new(rgb, false, 2, 3, 3, 3, false),
        Err(BuildError::InputFormat)
    ));
}

#[test]
fn alpha_plays_no_part_in_segmentation() {
    let image = Image { pixel_data: vec![9, 9, 9, 0, 9, 9, 9, 255], width: 2, height: 1 };
    let world = WorldBuilder::new(image, false, 2, 3, 3, 3, false).unwrap().build();
    assert_eq!(world.cells().len(), 1);
    assert_eq!(world.cells()[0].pixels.len(), 2);
}

fn pattern(width: u32, height: u32, seed: u32) -> Vec<(u8, u8, u8)> {
    let palette = [RED, GREEN, BLUE];
    let mut state = seed;
    let mut pixels = Vec::new();
    for _ in 0..width * height {
        state = state.wrapping_mul(1103515245).wrapping_add(12345);
        pixels.push(palette[((state >> 16) % 3) as usize]);
    }
    pixels
}

fn moore(image: &Image, wrap: bool, p: Point) -> Vec<Option<Point>> {
    let (w, h) = (image.width as i32, image.height as i32);
    let mut around = Vec::new();
    for q in p.neighbors().iter() {
        if wrap {
            around.push(Some(Point { x: (q.x + w) % w, y: (q.y + h) % h }));
        } else if q.x < 0 || q.x >= w || q.y < 0 || q.y >= h {
            around.push(None);
        } else {
            around.push(Some(*q));
        }
    }
    around
}

fn check_against_definition(image: &Image, wrap: bool) {
    let copy = Image { pixel_data: image.pixel_data.clone(), width: image.width, height: image.height };
    let world = segment(copy, wrap);
    check_segmentation(image, &world);
    let cells = world.cells();
    assert_eq!(cells[0].pixels[0], Point { x: 0, y: 0 });
    let mut touching = vec![vec![false; cells.len()]; cells.len()];
    for y in 0..image.height as i32 {
        for x in 0..image.width as i32 {
            let p = Point { x, y };
            let own = cell_holding(&world, p)[0];
            let mut on_contour = false;
            for q in moore(image, wrap, p) {
                match q {
                    None => on_contour = true,
                    Some(q) => {
                        let other = cell_holding(&world, q)[0];
                        if image.color_at(q) == image.color_at(p) {
                            assert_eq!(other, own);
                        } else {
                            on_contour = true;
                            touching[own][other] = true;
                        }
                    }
                }
            }
            let shown = world.cell_boundaries().color_at(p);
            assert_eq!(shown, if on_contour { GRAY } else { WHITE });
        }
    }
    for a in 0..cells.len() {
        for b in 0..cells.len() {
            assert_eq!(cells[a].neighbors.contains(&b), touching[a][b]);
        }
        for j in 1..cells[a].pixels.len() {
            let later = cells[a].pixels[j];
            let found = cells[a].pixels[..j]
                .iter()
                .any(|earlier| moore(image, wrap, *earlier).contains(&Some(later)));
            assert!(found);
        }
    }
}

#[test]
fn patterned_images_segment_as_defined() {
    for seed in 1..6 {
        let image = picture(7, 5, &pattern(7, 5, seed));
        check_against_definition(&image, false);
        check_against_definition(&image, true);
    }
}

#[test]
fn narrow_images_segment_as_defined() {
    for (width, height) in [(1, 1), (1, 6), (6, 1), (2, 2), (2, 5), (3, 2)] {
        let image = picture(width, height, &pattern(width, height, 7));
        check_against_definition(&image, false);
        check_against_definition(&image, true);
    }
}

#[test]
fn a_long_border_makes_one_link() {
    let pixels = [
        RED, RED, BLUE, BLUE, //
        RED, RED, BLUE, BLUE, //
        RED, RED, BLUE, BLUE,
    ];
    let world = segment(picture(4, 3, &pixels), false);
    let cells = world.cells();
    assert_eq!(cells.len(), 2);
    assert_eq!(cells[0].neighbors, vec![1]);
    assert_eq!(cells[1].neighbors, vec![0]);
    assert_eq!(cells[0].pixels.len(), 6);
    assert_eq!(cells[1].pixels.len(), 6);
}

#[test]
fn a_built_world_draws_fills_under_its_contours() {
    let pixels = [RED; 9];
    let mut world = segment(picture(3, 3, &pixels), false);
    world.update_world_image();
    let alive = world.front()[0];
    let fill = if alive { 63 } else { 255 };
    let center = world.image().color_at(Point { x: 1, y: 1 });
    assert_eq!(center, Color { red: fill, green: fill, blue: fill });
    for y in 0..3 {
        for x in 0..3 {
            if (x, y) != (1, 1) {
                assert_eq!(world.image().color_at(Point { x, y }), GRAY);
            }
        }
    }
}

#[test]
fn points_of_a_cell_are_listed_in_the_order_they_are_found() {
    let world = segment(picture(2, 2, &[RED, RED, RED, RED]), false);
    let expected: Vec<Point> =
        [(0, 0), (1, 0), (0, 1), (1, 1)].iter().map(|&(x, y)| Point { x, y }).collect();
    assert_eq!(world.cells()[0].pixels, expected);

    let row = segment(picture(4, 1, &[BLUE, BLUE, BLUE, BLUE]), true);
    let expected: Vec<Point> =
        [(0, 0), (3, 0), (1, 0), (2, 0)].iter().map(|&(x, y)| Point { x, y }).collect();
    assert_eq!(row.cells()[0].pixels, expected);
}

#[test]
fn neighbors_are_listed_in_the_order_they_are_met() {
    let pixels = [
        RED, GREEN, //
        BLUE, BLACK,
    ];
    let world = segment(picture(2, 2, &pixels), false);
    let cells = world.cells();
    assert_eq!(cells[0].pixels, vec![Point { x: 0, y: 0 }]);
    assert_eq!(cells[1].pixels, vec![Point { x: 1, y: 0 }]);
    assert_eq!(cells[2].pixels, vec![Point { x: 0, y: 1 }]);
    assert_eq!(cells[3].pixels, vec![Point { x: 1, y: 1 }]);
    assert_eq!(cells[0].neighbors, vec![1, 2, 3]);
    assert_eq!(cells[1].neighbors, vec![0, 2, 3]);
    assert_eq!(cells[2].neighbors, vec![0, 1, 3]);
    assert_eq!(cells[3].neighbors, vec![0, 1, 2]);
}
