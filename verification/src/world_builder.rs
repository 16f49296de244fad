//! Cuts an image into cells by flood fill and hands the cells to a world.

use crate::fill::{
    count_assigned, lemma_count_assigned_bound, lemma_count_listed_fresh, lemma_count_listed_push,
    lemma_discard, lemma_finished_fill, lemma_leave_point, lemma_listed_bound, lemma_seed,
    lemma_start, origin, Fill, Focus,
};
use crate::flood::{
    lemma_fill_take, lemma_fill_visit, lemma_flood_begin, lemma_flood_leave, lemma_flood_over,
    lemma_flood_take, lemma_flood_visit, lemma_floodable, lemma_visit_sizes, Flood,
};
use crate::image::{lemma_index_in_range, Color, Image, Point};
use crate::random::random_state;
use crate::segmentation::{is_contour_overlay, Regions};
use crate::topology::{lemma_wrap_coordinate, offset_x, offset_y};
use crate::world::{Cell, Rule, World};
use std::collections::VecDeque;
use vstd::prelude::*;

verus! {

/// Why an image cannot be segmented.
#[derive(Clone, Copy, Debug, PartialEq, Eq, Structural)]
pub enum BuildError {
    /// The buffer does not hold four bytes for each pixel.
    InputFormat,
    /// The image has no pixels.
    EmptyImage,
    /// A side of the image is longer than a `Point` can address.
    ImageTooLarge,
}

/// A flood fill over an image, and the thresholds to hand on to the world it
/// builds.
pub struct WorldBuilder {
    image: Image,
    cell_boundaries: Image,
    cell_map: Vec<Option<usize>>,
    cells: Vec<Cell>,
    point_queue: VecDeque<Point>,
    cell_point_queue: VecDeque<Point>,
    wrap: bool,
    smin: u32,
    smax: u32,
    rmin: u32,
    rmax: u32,
    proportional: bool,
}

impl View for WorldBuilder {
    type V = Fill;

    closed spec fn view(&self) -> Fill {
        Fill {
            image: self.image,
            wrap: self.wrap,
            map: self.cell_map@,
            colors: Regions::of(self.cells@).colors,
            pixels: Regions::of(self.cells@).pixels,
            links: Regions::of(self.cells@).links,
            frontier: self.point_queue@,
            pending: self.cell_point_queue@,
            borders: self.cell_boundaries,
        }
    }
}

/// Whether `value` occurs in `list`.
fn contains(list: &Vec<usize>, value: usize) -> (found: bool)
    ensures
        found == list@.contains(value),
{
    let mut i: usize = 0;
    while i < list.len()
        invariant
            i <= list@.len(),
            forall|j: int| 0 <= j < i ==> list@[j] != value,
        decreases list@.len() - i,
    {
        if list[i] == value {
            return true;
        }
        i += 1;
    }
    false
}

impl WorldBuilder {
    /// The thresholds that the world will be given.
    pub closed spec fn rule(&self) -> Rule {
        Rule {
            smin: self.smin,
            smax: self.smax,
            rmin: self.rmin,
            rmax: self.rmax,
            proportional: self.proportional,
        }
    }

    /// Prepares the segmentation of `image`. An image that has no pixels, that
    /// has a side longer than `i32::MAX`, or whose buffer does not hold four
    /// bytes per pixel is refused, in this order.
    pub fn new(
        image: Image,
        wrap: bool,
        smin: u32,
        smax: u32,
        rmin: u32,
        rmax: u32,
        proportional: bool,
    ) -> (made: Result<WorldBuilder, BuildError>)
        ensures
            match made {
                Ok(builder) => {
                    &&& builder@.fresh()
                    &&& builder@.image == image
                    &&& builder@.wrap == wrap
                    &&& builder.rule() == (Rule { smin, smax, rmin, rmax, proportional })
                },
                Err(BuildError::EmptyImage) => image.width == 0 || image.height == 0,
                Err(BuildError::ImageTooLarge) => image.width >= 1 && image.height >= 1 && (
                image.width > i32::MAX || image.height > i32::MAX),
                Err(BuildError::InputFormat) => 1 <= image.width <= i32::MAX && 1 <= image.height
                    <= i32::MAX && !image.wf(),
            },
    {
        assert(0 <= image.width * image.height <= 0xffff_ffff * 0xffff_ffff) by (nonlinear_arith)
            requires
                0 <= image.width <= 0xffff_ffff,
                0 <= image.height <= 0xffff_ffff,
        ;
        if image.width == 0 || image.height == 0 {
            return Err(BuildError::EmptyImage);
        }
        if image.width > i32::MAX as u32 || image.height > i32::MAX as u32 {
            return Err(BuildError::ImageTooLarge);
        }
        let area: u64 = image.width as u64 * image.height as u64;
        if image.pixel_data.len() as u128 != area as u128 * 4 {
            return Err(BuildError::InputFormat);
        }
        let pixels = area as usize;
        let mut cell_map: Vec<Option<usize>> = Vec::with_capacity(pixels);
        while cell_map.len() < pixels
            invariant
                cell_map@.len() <= pixels,
                forall|i: int| 0 <= i < cell_map@.len() ==> cell_map@[i] is None,
            decreases pixels - cell_map@.len(),
        {
            cell_map.push(None);
        }
        let builder = WorldBuilder {
            cell_boundaries: Image::white(image.width, image.height),
            image,
            cell_map,
            cells: Vec::with_capacity(100),
            point_queue: VecDeque::with_capacity(pixels),
            cell_point_queue: VecDeque::with_capacity(pixels),
            wrap,
            smin,
            smax,
            rmin,
            rmax,
            proportional,
        };
        Ok(builder)
    }

    /// Marks `point` as lying on the contour of a region.
    pub(crate) fn mark_cell_border(&mut self, point: Point)
        requires
            old(self)@.shaped(),
            old(self)@.on(point),
        ensures
            old(self)@.marks(final(self)@, point),
            final(self)@.image == old(self)@.image,
            final(self)@.wrap == old(self)@.wrap,
            final(self)@.map == old(self)@.map,
            final(self)@.colors == old(self)@.colors,
            final(self)@.pixels == old(self)@.pixels,
            final(self)@.links == old(self)@.links,
            final(self)@.frontier == old(self)@.frontier,
            final(self)@.pending == old(self)@.pending,
            final(self).rule() == old(self).rule(),
    {
        self.cell_boundaries.set_color_at(point, Color { red: 127, green: 127, blue: 127 });
    }

    /// Looks at the `k`-th neighbour of `point`, a pixel of cell
    /// `cell_index`: claims it for the cell, queues it as a seed, or links
    /// the two cells.
    pub(crate) fn visit_neighbor(
        &mut self,
        point: Point,
        around: &[Point; 8],
        k: usize,
        cell_index: usize,
        cell_color: Color,
    )
        requires
            k < 8,
            old(self)@.shaped(),
            old(self)@.mapped(),
            old(self)@.on(point),
            forall|j: int|
                0 <= j < 8 ==> (#[trigger] around[j]).x == point.x + offset_x(j) && around[j].y
                    == point.y + offset_y(j),
            cell_index < old(self)@.colors.len(),
            cell_color == old(self)@.colors[cell_index as int],
        ensures
            old(self)@.visit_step(final(self)@, cell_index as int, point, k as int),
            final(self).rule() == old(self).rule(),
    {
        let ghost before = self@;
        let width = self.image.width as i64;
        let height = self.image.height as i64;
        let mut neighbor = around[k];
        proof {
            lemma_wrap_coordinate(point.x + offset_x(k as int), width as int);
            lemma_wrap_coordinate(point.y + offset_y(k as int), height as int);
        }
        if self.wrap {
            neighbor = Point {
                x: ((neighbor.x as i64 + width) % width) as i32,
                y: ((neighbor.y as i64 + height) % height) as i32,
            };
        }
        let outside = !self.wrap && (neighbor.x < 0 || neighbor.x as i64 >= width || neighbor.y < 0
            || neighbor.y as i64 >= height);
        if outside {
            self.mark_cell_border(point);
            return;
        }
        assert(before.topology().neighbor(point, k as int) == Some(neighbor));
        proof {
            lemma_index_in_range(width as int, height as int, neighbor);
            assert(self.cell_map.len() == self.image.width * self.image.height);
        }
        let slot = self.image.linear_index(neighbor);
        let neighbor_cell = self.cell_map[slot];
        let neighbor_color = self.image.color_at(neighbor);
        match neighbor_cell {
            None => {
                if neighbor_color == cell_color {
                    self.cell_map[slot] = Some(cell_index);
                    self.cell_point_queue.push_back(neighbor);
                } else {
                    self.point_queue.push_back(neighbor);
                    self.mark_cell_border(point);
                }
            },
            Some(other) => {
                if neighbor_color != cell_color {
                    self.mark_cell_border(point);
                    proof {
                        assert(before.mapped_at(neighbor));
                    }
                    if !contains(&self.cells[cell_index].neighbors, other) {
                        self.cells[cell_index].neighbors.push(other);
                        self.cells[other].neighbors.push(cell_index);
                    }
                    proof {
                        assert(self@.colors =~= before.colors);
                        assert(self@.pixels =~= before.pixels);
                        assert(self@.links =~= before.links_with(
                            cell_index as int,
                            other as int,
                        ));
                    }
                }
            },
        }
    }

    /// Floods cell `cell_index` from `starting_point`, a pixel it owns: lists
    /// every pixel of the cell's colour that can be reached from there
    /// through pixels without owner, claims each for the cell, marks the
    /// contour, queues the unowned neighbours of another colour as seeds and
    /// links the cell with the owners of the others.
    pub(crate) fn flood_cell(&mut self, starting_point: Point, cell_index: usize)
        requires
            old(self)@.floodable(starting_point, cell_index as int),
        ensures
            (Flood {
                start: old(self)@,
                now: final(self)@,
                seed: starting_point,
                cell: cell_index as int,
            }).over(),
            (Flood {
                start: old(self)@,
                now: final(self)@,
                seed: starting_point,
                cell: cell_index as int,
            }).ordered(Focus::Idle),
            (Flood {
                start: old(self)@,
                now: final(self)@,
                seed: starting_point,
                cell: cell_index as int,
            }).kept(),
            cell_index == old(self)@.last() && old(self)@.awaiting(starting_point).inv(
                Focus::Idle,
            ) ==> final(self)@.inv(Focus::Idle),
            final(self).rule() == old(self).rule(),
            final(self)@.pending.len() == 0,
            final(self)@.fuel() <= old(self)@.fuel(),
    {
        let ghost start = self@;
        let ghost cell = cell_index as int;
        let ghost good = cell_index == start.last() && start.awaiting(starting_point).inv(
            Focus::Idle,
        );
        let cell_color = self.cells[cell_index].color;
        self.cell_point_queue.clear();
        self.cell_point_queue.push_back(starting_point);
        proof {
            assert(self@.pending =~= seq![starting_point]);
            assert(self@ == start.awaiting(starting_point));
            lemma_flood_begin(start, self@, starting_point, cell);
        }
        while self.cell_point_queue.len() != 0
            invariant
                (Flood { start, now: self@, seed: starting_point, cell }).holds(Focus::Idle),
                (Flood { start, now: self@, seed: starting_point, cell }).ordered(Focus::Idle),
                good ==> self@.inv(Focus::Idle),
                good ==> cell == start.last(),
                start == old(self)@,
                self.rule() == old(self).rule(),
                self@.fuel() <= start.fuel(),
                cell == cell_index,
                cell_index < start.colors.len(),
                cell_color == start.colors[cell_index as int],
            decreases 2 * (self@.map.len() - count_assigned(self@.map)) + self@.pending.len(),
        {
            let ghost taken_from = self@;
            let point = match self.cell_point_queue.pop_front() {
                Some(p) => p,
                None => vstd::pervasive::unreached(),
            };
            self.cells[cell_index].pixels.push(point);
            proof {
                assert(self@.colors =~= taken_from.colors);
                assert(self@.links =~= taken_from.links);
                assert(self@.pixels =~= taken_from.pixels.update(
                    cell_index as int,
                    taken_from.pixels[cell_index as int].push(point),
                ));
                assert(taken_from.take_step(self@, cell));
                lemma_flood_take(start, taken_from, self@, starting_point, cell);
                if good {
                    assert((Flood { start, now: taken_from, seed: starting_point, cell }).framed());
                    assert(taken_from.last() == cell);
                    lemma_fill_take(taken_from, self@);
                }
                lemma_count_listed_push(taken_from.pixels, cell_index as int, point);
                lemma_count_assigned_bound(self@.map);
                let flood = Flood { start, now: self@, seed: starting_point, cell };
                assert(flood.reached()[flood.added().len() - 1] == point);
            }
            let ghost taken = self@;
            let around = point.neighbors();
            let mut k: usize = 0;
            while k < 8
                invariant
                    k <= 8,
                    (Flood { start, now: self@, seed: starting_point, cell }).holds(
                        Focus::On { point, handled: k as int },
                    ),
                    (Flood { start, now: self@, seed: starting_point, cell }).ordered(
                        Focus::On { point, handled: k as int },
                    ),
                    good ==> self@.inv(Focus::On { point, handled: k as int }),
                    good ==> cell == start.last(),
                    self.rule() == old(self).rule(),
                    self@.pixels == taken.pixels,
                    self@.image == taken.image,
                    self@.map.len() == taken.map.len(),
                    self@.frontier.len() <= taken.frontier.len() + k,
                    self@.pending.len() >= taken.pending.len(),
                    self@.pending.len() - taken.pending.len() == count_assigned(self@.map)
                        - count_assigned(taken.map),
                    self@.on(point),
                    forall|j: int|
                        0 <= j < 8 ==> (#[trigger] around[j]).x == point.x + offset_x(j)
                            && around[j].y == point.y + offset_y(j),
                    cell == cell_index,
                    cell_index < start.colors.len(),
                    cell_color == start.colors[cell_index as int],
                decreases 8 - k,
            {
                let ghost seen_from = self@;
                self.visit_neighbor(point, &around, k, cell_index, cell_color);
                proof {
                    lemma_flood_visit(
                        start,
                        seen_from,
                        self@,
                        starting_point,
                        cell,
                        point,
                        k as int,
                    );
                    lemma_visit_sizes(seen_from, self@, cell, point, k as int);
                    if good {
                        assert((Flood {
                            start,
                            now: seen_from,
                            seed: starting_point,
                            cell,
                        }).framed());
                        assert(seen_from.last() == cell);
                        lemma_fill_visit(seen_from, self@, point, k as int);
                    }
                }
                k += 1;
            }
            proof {
                lemma_flood_leave(Flood { start, now: self@, seed: starting_point, cell }, point);
                if good {
                    lemma_leave_point(self@, point);
                }
                lemma_count_assigned_bound(self@.map);
            }
        }
        proof {
            lemma_flood_over(Flood { start, now: self@, seed: starting_point, cell });
        }
    }

    /// Runs the fill to its end: takes candidates off the frontier and floods
    /// a new cell from each that no cell has claimed yet.
    fn segment(&mut self)
        requires
            old(self)@.fresh(),
        ensures
            final(self)@.finished(),
            final(self)@.image == old(self)@.image,
            final(self)@.wrap == old(self)@.wrap,
            final(self).rule() == old(self).rule(),
    {
        self.point_queue.push_back(Point { x: 0, y: 0 });
        proof {
            assert(self@.frontier =~= seq![origin()]);
            lemma_start(old(self)@, self@);
        }
        while self.point_queue.len() != 0
            invariant
                self@.inv(Focus::Idle),
                self@.pending.len() == 0,
                self@.image == old(self)@.image,
                self@.wrap == old(self)@.wrap,
                self.rule() == old(self).rule(),
            decreases self@.fuel(),
        {
            let ghost popped_from = self@;
            proof {
                lemma_listed_bound(popped_from);
                assert(popped_from.on(popped_from.frontier[0]));
                lemma_index_in_range(
                    self.image.width as int,
                    self.image.height as int,
                    popped_from.frontier[0],
                );
                assert(self.cell_map.len() == self.image.width * self.image.height);
            }
            let point = match self.point_queue.pop_front() {
                Some(p) => p,
                None => vstd::pervasive::unreached(),
            };
            let slot = self.image.linear_index(point);
            if self.cell_map[slot].is_none() {
                let color = self.image.color_at(point);
                self.cells.push(
                    Cell {
                        color,
                        neighbors: Vec::with_capacity(8),
                        pixels: Vec::with_capacity(100),
                    },
                );
                let cell_index = self.cells.len() - 1;
                self.cell_map[slot] = Some(cell_index);
                proof {
                    let seeded = self@.awaiting(point);
                    assert(seeded.colors =~= popped_from.colors.push(popped_from.tone(point)));
                    assert(seeded.pixels =~= popped_from.pixels.push(Seq::empty()));
                    assert(seeded.links =~= popped_from.links.push(Seq::empty()));
                    lemma_seed(popped_from, seeded);
                    lemma_count_listed_fresh(popped_from.pixels);
                    lemma_floodable(self@, point);
                }
                self.flood_cell(point, cell_index);
            } else {
                proof {
                    lemma_discard(popped_from, self@);
                }
            }
            proof {
                lemma_listed_bound(self@);
            }
        }
    }

    /// Segments the image and hands back a world over its cells: each cell
    /// alive or dead by the flip of a coin, the next generation all dead, and
    /// a white surface to draw on.
    ///
    /// The coins come from rand's thread-local generator, which the
    /// operating system seeds. If the system's random source fails, rand
    /// panics and the process ends; nothing in the arguments can cause or
    /// prevent that.
    pub fn build(self) -> (world: World)
        requires
            self@.fresh(),
        ensures
            world@.wf(),
            Regions::of(world@.cells).segments(self@.image, self@.wrap),
            world@.cells.len() > 0,
            world@.cells[0].pixels@.len() > 0,
            world@.cells[0].pixels@[0] == origin(),
            is_contour_overlay(self@.image, self@.wrap, world@.cell_boundaries),
            world@.front.len() == world@.cells.len(),
            world@.back.len() == world@.cells.len(),
            forall|c: int| 0 <= c < world@.back.len() ==> !world@.back[c],
            world@.image.wf(),
            world@.image.width == self@.image.width,
            world@.image.height == self@.image.height,
            forall|i: int|
                0 <= i < world@.image.pixel_data@.len() ==> world@.image.pixel_data@[i] == 255,
            world@.rule == self.rule(),
    {
        let mut builder = self;
        builder.segment();
        proof {
            lemma_finished_fill(builder@);
            assert(builder@.regions() == Regions::of(builder.cells@));
            assert(builder.image.pixel_data.len() == builder.image.width * builder.image.height
                * 4);
        }
        let count = builder.cells.len();
        let front = random_state(count);
        let mut back: Vec<bool> = Vec::with_capacity(count);
        while back.len() < count
            invariant
                back@.len() <= count,
                forall|c: int| 0 <= c < back@.len() ==> !back@[c],
            decreases count - back@.len(),
        {
            back.push(false);
        }
        let image = Image::white(builder.image.width, builder.image.height);
        proof {
            let regions = Regions::of(builder.cells@);
            assert forall|c: int, i: int|
                0 <= c < builder.cells@.len() && 0 <= i
                    < builder.cells@[c].neighbors@.len() implies (
            #[trigger] builder.cells@[c].neighbors@[i]) < builder.cells@.len() by {
                assert(regions.links[c][i] < regions.links.len());
            }
            assert forall|c: int, i: int|
                0 <= c < builder.cells@.len() && 0 <= i
                    < builder.cells@[c].pixels@.len() implies image.contains(
                #[trigger] builder.cells@[c].pixels@[i],
            ) by {
                assert(builder.image.contains(regions.pixels[c][i]));
            }
        }
        World::new(
            front,
            back,
            image,
            builder.cell_boundaries,
            builder.smin,
            builder.smax,
            builder.rmin,
            builder.rmax,
            builder.proportional,
            builder.cells,
        )
    }
}

} // verus!
