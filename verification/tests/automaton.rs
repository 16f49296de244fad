use lifelike::image::{Color, Image, Point};
use lifelike::random::random_state;
use lifelike::window::{Window, WindowEvent};
use lifelike::world::{Cell, World};

const NONE: Color = Color { red: 0, green: 0, blue: 0 };

fn graph(edges: &[Vec<usize>]) -> Vec<Cell> {
    edges
        .iter()
        .map(|neighbors| Cell { color: NONE, neighbors: neighbors.clone(), pixels: Vec::new() })
        .collect()
}

fn world_over(
    edges: &[Vec<usize>],
    front: Vec<bool>,
    thresholds: (u32, u32, u32, u32),
    proportional: bool,
) -> World {
    let count = edges.len();
    World::new(
        front,
        vec![false; count],
        Image::white(1, 1),
        Image::white(1, 1),
        thresholds.0,
        thresholds.1,
        thresholds.2,
        thresholds.3,
        proportional,
        graph(edges),
    )
}

fn star(leaves: usize) -> Vec<Vec<usize>> {
    let mut edges = vec![(1..=leaves).collect::<Vec<usize>>()];
    for _ in 0..leaves {
        edges.push(vec![0]);
    }
    edges
}

fn center_after(alive: bool, live_leaves: usize) -> bool {
    let mut front = vec![alive];
    for leaf in 0..4 {
        front.push(leaf < live_leaves);
    }
    let mut world = world_over(&star(4), front, (2, 3, 3, 3), false);
    world.step();
    world.front()[0]
}

#[test]
fn live_cell_survives_on_two_and_three() {
    assert!(center_after(true, 2));
    assert!(center_after(true, 3));
}

#[test]
fn live_cell_dies_outside_the_survival_range() {
    assert!(!center_after(true, 4));
    assert!(!center_after(true, 1));
    assert!(!center_after(true, 0));
}

#[test]
fn dead_cell_is_born_on_exactly_three() {
    assert!(center_after(false, 3));
    assert!(!center_after(false, 2));
    assert!(!center_after(false, 4));
}

#[test]
fn every_cell_is_judged_against_the_same_snapshot() {
    let edges = vec![vec![1], vec![0, 2], vec![1]];
    let mut world = world_over(&edges, vec![true, false, true], (1, 1, 2, 2), false);
    world.step();
    assert_eq!(world.front(), &vec![false, true, false]);
    world.step();
    assert_eq!(world.front(), &vec![false, false, false]);
    let mut blinker = world_over(&edges, vec![true, false, true], (1, 1, 1, 2), false);
    blinker.step();
    assert_eq!(blinker.front(), &vec![false, true, false]);
    blinker.step();
    assert_eq!(blinker.front(), &vec![true, false, true]);
}

#[test]
fn proportional_score_is_four_times_weighted_sum_over_degree() {
    // Cell 0 has degree 2; its live neighbours have degrees 3 and 1:
    // (3 + 1) * 4 / 2 = 8.
    let edges = vec![vec![1, 2], vec![0, 3, 4], vec![0], vec![1], vec![1]];
    let front = vec![true, true, true, false, false];
    let mut exact = world_over(&edges, front.clone(), (8, 8, 100, 100), true);
    exact.step();
    assert!(exact.front()[0]);
    let mut above = world_over(&edges, front.clone(), (9, 20, 100, 100), true);
    above.step();
    assert!(!above.front()[0]);
    let mut below = world_over(&edges, front, (0, 7, 100, 100), true);
    below.step();
    assert!(!below.front()[0]);
}

#[test]
fn proportional_score_rounds_down() {
    // Cell 0 has degree 3 and one live neighbour of degree 2: 2 * 4 / 3 = 2.
    let edges = vec![vec![1, 2, 3], vec![0, 2], vec![0, 1], vec![0]];
    let front = vec![false, true, false, false];
    let mut world = world_over(&edges, front.clone(), (100, 100, 2, 2), true);
    world.step();
    assert!(world.front()[0]);
    let mut world = world_over(&edges, front, (100, 100, 3, 3), true);
    world.step();
    assert!(!world.front()[0]);
}

#[test]
fn dead_neighbors_add_nothing_to_a_proportional_score() {
    let edges = vec![vec![1, 2], vec![0, 2], vec![0, 1]];
    let mut world = world_over(&edges, vec![true, false, false], (0, 0, 100, 100), true);
    world.step();
    assert_eq!(world.front(), &vec![true, false, false]);
}

#[test]
fn cell_without_neighbors_scores_zero() {
    let edges = vec![Vec::new()];
    for proportional in [false, true] {
        let mut born = world_over(&edges, vec![false], (5, 5, 0, 0), proportional);
        born.step();
        assert_eq!(born.front(), &vec![true]);
        let mut kept = world_over(&edges, vec![true], (0, 0, 5, 5), proportional);
        kept.step();
        assert_eq!(kept.front(), &vec![true]);
        let mut lost = world_over(&edges, vec![true], (1, 3, 0, 0), proportional);
        lost.step();
        assert_eq!(lost.front(), &vec![false]);
    }
}

#[test]
fn step_depends_on_the_front_alone() {
    let edges = star(4);
    let front = vec![true, true, false, true, false];
    let mut a = world_over(&edges, front.clone(), (2, 3, 3, 3), false);
    let mut b = World::new(
        front,
        vec![true, true, true, true, true],
        Image::white(1, 1),
        Image::white(1, 1),
        2,
        3,
        3,
        3,
        false,
        graph(&edges),
    );
    a.step();
    b.step();
    assert_eq!(a.front(), b.front());
    assert_eq!(a.front(), &vec![true, false, false, false, false]);
}

#[test]
fn buffers_keep_one_flag_per_cell() {
    let mut world = world_over(&star(4), vec![true; 5], (2, 3, 3, 3), false);
    for _ in 0..5 {
        world.step();
        assert_eq!(world.front().len(), 5);
        assert_eq!(world.cells().len(), 5);
    }
}

#[test]
fn an_empty_world_steps() {
    let mut world = world_over(&[], Vec::new(), (2, 3, 3, 3), true);
    world.step();
    assert!(world.front().is_empty());
}

fn two_cell_world(front: Vec<bool>, overlay: Image, surface: Image) -> World {
    let cells = vec![
        Cell {
            color: NONE,
            neighbors: vec![1],
            pixels: vec![Point { x: 0, y: 0 }, Point { x: 1, y: 0 }],
        },
        Cell { color: NONE, neighbors: vec![0], pixels: vec![Point { x: 2, y: 0 }] },
    ];
    World::new(front, vec![false, false], surface, overlay, 2, 3, 3, 3, false, cells)
}

#[test]
fn drawing_fills_cells_by_state() {
    let mut world = two_cell_world(vec![true, false], Image::white(3, 1), Image::white(3, 1));
    world.update_world_image();
    assert_eq!(
        world.image().pixel_data,
        vec![63, 63, 63, 255, 63, 63, 63, 255, 255, 255, 255, 255]
    );
}

#[test]
fn drawing_puts_the_overlay_on_top() {
    let mut overlay = Image::white(3, 1);
    overlay.set_color_at(Point { x: 1, y: 0 }, Color { red: 127, green: 127, blue: 127 });
    overlay.set_color_at(Point { x: 2, y: 0 }, Color { red: 127, green: 127, blue: 127 });
    let mut world = two_cell_world(vec![true, false], overlay, Image::white(3, 1));
    world.update_world_image();
    assert_eq!(
        world.image().pixel_data,
        vec![63, 63, 63, 255, 127, 127, 127, 255, 127, 127, 127, 255]
    );
}

#[test]
fn drawing_leaves_alpha_and_unowned_pixels_alone() {
    let surface = Image {
        pixel_data: vec![1, 2, 3, 4, 5, 6, 7, 8, 9, 10, 11, 12, 13, 14, 15, 16],
        width: 4,
        height: 1,
    };
    let mut world = two_cell_world(vec![false, true], Image::white(4, 1), surface);
    world.update_world_image();
    assert_eq!(
        world.image().pixel_data,
        vec![255, 255, 255, 4, 255, 255, 255, 8, 63, 63, 63, 12, 13, 14, 15, 16]
    );
}

#[test]
fn drawing_follows_the_generation() {
    let mut world = two_cell_world(vec![true, false], Image::white(3, 1), Image::white(3, 1));
    world.update_world_image();
    world.step();
    world.update_world_image();
    assert_eq!(world.front(), &vec![false, false]);
    assert_eq!(world.image().pixel_data, vec![255u8; 12]);
}

#[test]
fn random_state_has_the_length_asked_for() {
    assert_eq!(random_state(0).len(), 0);
    assert_eq!(random_state(1).len(), 1);
    assert_eq!(random_state(1000).len(), 1000);
}

#[test]
fn random_state_flips_both_ways() {
    let state = random_state(4096);
    assert!(state.iter().any(|alive| *alive));
    assert!(state.iter().any(|alive| !*alive));
}

#[test]
fn window_takes_the_size_of_the_surface() {
    let world = two_cell_world(vec![true, false], Image::white(3, 1), Image::white(3, 1));
    let window = Window::new(world);
    assert_eq!(window.width, 3);
    assert_eq!(window.height, 1);
    assert_eq!(window.world.cells().len(), 2);
}

#[test]
fn window_closes_on_quit_and_escape() {
    assert!(Window::stays_open(true, WindowEvent::Other));
    assert!(!Window::stays_open(true, WindowEvent::Quit));
    assert!(!Window::stays_open(true, WindowEvent::EscapePressed));
    assert!(!Window::stays_open(false, WindowEvent::Other));
    assert!(!Window::stays_open(false, WindowEvent::Quit));
}
