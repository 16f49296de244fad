//! The automaton: cells, their liveness and the threshold rule that steps them.

use crate::image::{Color, Image, Point};
use crate::segmentation::blank;
use vstd::prelude::*;

verus! {

/// One node of the automaton: a region of the image, the points it covers and
/// the indices of the regions it touches.
pub struct Cell {
    pub color: Color,
    pub neighbors: Vec<usize>,
    pub pixels: Vec<Point>,
}

/// The thresholds of the automaton. A live cell stays alive on a score in
/// `[smin, smax]`; a dead cell comes alive on a score in `[rmin, rmax]`.
pub struct Rule {
    pub smin: u32,
    pub smax: u32,
    pub rmin: u32,
    pub rmax: u32,
    pub proportional: bool,
}

/// A world as contracts see it: its cells, both generations, both surfaces
/// and the thresholds.
pub struct WorldView {
    pub cells: Seq<Cell>,
    pub front: Seq<bool>,
    pub back: Seq<bool>,
    pub image: Image,
    pub cell_boundaries: Image,
    pub rule: Rule,
}

impl WorldView {
    /// Both generations have one flag per cell, every neighbour is the index
    /// of a cell, and every pixel of a cell lies on the two surfaces, which
    /// have one size.
    pub open spec fn wf(self) -> bool {
        &&& self.front.len() == self.cells.len()
        &&& self.back.len() == self.cells.len()
        &&& forall|c: int, i: int|
            0 <= c < self.cells.len() && 0 <= i < self.cells[c].neighbors@.len() ==> (
            #[trigger] self.cells[c].neighbors@[i]) < self.cells.len()
        &&& self.image.wf()
        &&& self.cell_boundaries.wf()
        &&& self.cell_boundaries.width == self.image.width
        &&& self.cell_boundaries.height == self.image.height
        &&& forall|c: int, i: int|
            0 <= c < self.cells.len() && 0 <= i < self.cells[c].pixels@.len()
                ==> self.image.contains(#[trigger] self.cells[c].pixels@[i])
    }
}

/// What a neighbour adds to a cell's score: nothing when it is dead, one when
/// it is alive, or its own degree when it is alive and scores are
/// proportional.
pub open spec fn weight(cells: Seq<Cell>, front: Seq<bool>, proportional: bool, j: int) -> int {
    if !front[j] {
        0
    } else if proportional {
        cells[j].neighbors@.len() as int
    } else {
        1
    }
}

/// The weights of the first `n` neighbours of cell `i`, added up.
pub open spec fn influence(
    cells: Seq<Cell>,
    front: Seq<bool>,
    proportional: bool,
    i: int,
    n: int,
) -> int
    decreases n,
{
    if n <= 0 {
        0
    } else {
        influence(cells, front, proportional, i, n - 1) + weight(
            cells,
            front,
            proportional,
            cells[i].neighbors@[n - 1] as int,
        )
    }
}

/// The score of cell `i`: the number of its live neighbours, or, when scores
/// are proportional, four times the summed degrees of its live neighbours
/// over its own degree, rounded down. A cell without neighbours scores zero
/// either way.
pub open spec fn score(cells: Seq<Cell>, front: Seq<bool>, proportional: bool, i: int) -> int {
    let degree = cells[i].neighbors@.len() as int;
    let total = influence(cells, front, proportional, i, degree);
    if !proportional {
        total
    } else if degree == 0 {
        0
    } else {
        total * 4 / degree
    }
}

/// Whether a cell is alive in the next generation.
pub open spec fn lives(rule: Rule, alive: bool, score: int) -> bool {
    if alive {
        rule.smin <= score <= rule.smax
    } else {
        rule.rmin <= score <= rule.rmax
    }
}

/// Fill colour of a cell on the drawn surface.
pub open spec fn fill_color(alive: bool) -> Color {
    if alive {
        Color { red: 63, green: 63, blue: 63 }
    } else {
        Color { red: 255, green: 255, blue: 255 }
    }
}

/// The last of the first `n` cells to hold `p`, if any does: the one whose
/// fill colour shows at `p`.
pub open spec fn painter(cells: Seq<Cell>, p: Point, n: int) -> Option<int>
    decreases n,
{
    if n <= 0 {
        None
    } else if cells[n - 1].pixels@.contains(p) {
        Some(n - 1)
    } else {
        painter(cells, p, n - 1)
    }
}

impl WorldView {
    /// The liveness of every cell in the next generation.
    pub open spec fn next_front(self) -> Seq<bool> {
        Seq::new(
            self.cells.len(),
            |i: int|
                lives(
                    self.rule,
                    self.front[i],
                    score(self.cells, self.front, self.rule.proportional, i),
                ),
        )
    }

    /// The world one generation on: the next generation in front, the
    /// current one behind, everything else as it is.
    pub open spec fn stepped(self) -> WorldView {
        WorldView { front: self.next_front(), back: self.front, ..self }
    }

    /// The colour at `p` once the first `n` cells have been filled in: the
    /// fill of the last of them to hold `p`, else what was there.
    pub open spec fn filled(self, p: Point, n: int) -> Color {
        match painter(self.cells, p, n) {
            Some(c) => fill_color(self.front[c]),
            None => self.image.color(p),
        }
    }

    /// The colour at `p` while cell `i` is being filled in, with the first
    /// `j` of its points done.
    pub open spec fn filling(self, p: Point, i: int, j: int) -> Color {
        if self.cells[i].pixels@.take(j).contains(p) {
            fill_color(self.front[i])
        } else {
            self.filled(p, i)
        }
    }

    /// The colour that shows at `p` once the world is drawn: the contour
    /// overlay where it is not white, else the fill of the cell that holds
    /// `p`, else what was there.
    pub open spec fn shown(self, p: Point) -> Color {
        let overlay = self.cell_boundaries.color(p);
        if overlay != blank() {
            overlay
        } else {
            self.filled(p, self.cells.len() as int)
        }
    }
}

/// The automaton with its two generations, the surface it is drawn on and the
/// contour overlay.
pub struct World {
    cells: Vec<Cell>,
    front: Vec<bool>,
    back: Vec<bool>,
    image: Image,
    cell_boundaries: Image,
    smin: u32,
    smax: u32,
    rmin: u32,
    rmax: u32,
    proportional: bool,
}

impl View for World {
    type V = WorldView;

    closed spec fn view(&self) -> WorldView {
        WorldView {
            cells: self.cells@,
            front: self.front@,
            back: self.back@,
            image: self.image,
            cell_boundaries: self.cell_boundaries,
            rule: Rule {
                smin: self.smin,
                smax: self.smax,
                rmin: self.rmin,
                rmax: self.rmax,
                proportional: self.proportional,
            },
        }
    }
}

/// A quotient of four times a number, from the number's own quotient and
/// remainder.
proof fn lemma_times_four_over(total: int, degree: int)
    requires
        0 <= total,
        0 < degree,
    ensures
        total * 4 / degree == 4 * (total / degree) + 4 * (total % degree) / degree,
{
    let q = total / degree;
    let r = total % degree;
    let s = 4 * r / degree;
    let u = 4 * r % degree;
    vstd::arithmetic::div_mod::lemma_fundamental_div_mod(total, degree);
    vstd::arithmetic::div_mod::lemma_fundamental_div_mod(4 * r, degree);
    vstd::arithmetic::div_mod::lemma_mod_bound(4 * r, degree);
    assert(total * 4 == (4 * q + s) * degree + u) by (nonlinear_arith)
        requires
            total == degree * q + r,
            4 * r == degree * s + u,
    ;
    vstd::arithmetic::div_mod::lemma_fundamental_div_mod_converse(
        total * 4,
        degree,
        4 * q + s,
        u,
    );
}

impl World {
    /// Puts a world together from its parts.
    pub fn new(
        front: Vec<bool>,
        back: Vec<bool>,
        image: Image,
        cell_boundaries: Image,
        smin: u32,
        smax: u32,
        rmin: u32,
        rmax: u32,
        proportional: bool,
        cells: Vec<Cell>,
    ) -> (world: World)
        requires
            (WorldView {
                cells: cells@,
                front: front@,
                back: back@,
                image,
                cell_boundaries,
                rule: Rule { smin, smax, rmin, rmax, proportional },
            }).wf(),
        ensures
            world@ == (WorldView {
                cells: cells@,
                front: front@,
                back: back@,
                image,
                cell_boundaries,
                rule: Rule { smin, smax, rmin, rmax, proportional },
            }),
    {
        World { cells, front, back, image, cell_boundaries, smin, smax, rmin, rmax, proportional }
    }

    /// The surface the world is drawn on.
    pub fn image(&self) -> (image: &Image)
        ensures
            *image == self@.image,
    {
        &self.image
    }

    /// The cells of the automaton.
    pub fn cells(&self) -> (cells: &Vec<Cell>)
        ensures
            cells@ == self@.cells,
    {
        &self.cells
    }

    /// Liveness of each cell in the current generation.
    pub fn front(&self) -> (front: &Vec<bool>)
        ensures
            front@ == self@.front,
    {
        &self.front
    }

    /// The contour overlay.
    pub fn cell_boundaries(&self) -> (overlay: &Image)
        ensures
            *overlay == self@.cell_boundaries,
    {
        &self.cell_boundaries
    }

    /// Draws the current generation: fills every cell with the colour of its
    /// state, then lays the contour overlay on top wherever it is not white.
    /// Alpha bytes are left alone.
    pub fn update_world_image(&mut self)
        requires
            old(self)@.wf(),
        ensures
            final(self)@.wf(),
            final(self)@ == (WorldView { image: final(self)@.image, ..old(self)@ }),
            final(self)@.image.width == old(self)@.image.width,
            final(self)@.image.height == old(self)@.image.height,
            forall|p: Point|
                old(self)@.image.contains(p) ==> #[trigger] final(self)@.image.color(p) == old(
                    self,
                )@.shown(p),
            forall|p: Point|
                old(self)@.image.contains(p) ==> #[trigger] final(self)@.image.alpha(p) == old(
                    self,
                )@.image.alpha(p),
    {
        let ghost before = self@;
        let count = self.cells.len();
        let mut i: usize = 0;
        while i < count
            invariant
                i <= count,
                count == before.cells.len(),
                before.wf(),
                self@ == (WorldView { image: self@.image, ..before }),
                self@.image.wf(),
                self@.image.width == before.image.width,
                self@.image.height == before.image.height,
                forall|p: Point|
                    before.image.contains(p) ==> #[trigger] self@.image.color(p) == before.filled(
                        p,
                        i as int,
                    ),
                forall|p: Point|
                    before.image.contains(p) ==> #[trigger] self@.image.alpha(p)
                        == before.image.alpha(p),
            decreases count - i,
        {
            let color = if self.front[i] {
                Color { red: 63, green: 63, blue: 63 }
            } else {
                Color { red: 255, green: 255, blue: 255 }
            };
            let length = self.cells[i].pixels.len();
            let ghost points = before.cells[i as int].pixels@;
            let mut j: usize = 0;
            while j < length
                invariant
                    j <= length,
                    i < count,
                    count == before.cells.len(),
                    length == points.len(),
                    points == before.cells[i as int].pixels@,
                    color == fill_color(before.front[i as int]),
                    before.wf(),
                    self@ == (WorldView { image: self@.image, ..before }),
                    self@.image.wf(),
                    self@.image.width == before.image.width,
                    self@.image.height == before.image.height,
                    forall|p: Point|
                        before.image.contains(p) ==> #[trigger] self@.image.color(p)
                            == before.filling(p, i as int, j as int),
                    forall|p: Point|
                        before.image.contains(p) ==> #[trigger] self@.image.alpha(p)
                            == before.image.alpha(p),
                decreases length - j,
            {
                let point = self.cells[i].pixels[j];
                assert(before.image.contains(points[j as int]));
                let ghost earlier = self@.image;
                self.image.set_color_at(point, color);
                proof {
                    let shorter = points.take(j as int);
                    let longer = points.take(j + 1);
                    assert forall|p: Point| before.image.contains(p) implies (longer.contains(p)
                        <==> shorter.contains(p) || p == point) by {
                        if shorter.contains(p) {
                            let at = choose|at: int| 0 <= at < shorter.len() && shorter[at] == p;
                            assert(longer[at] == p);
                        }
                        if p == point {
                            assert(longer[j as int] == p);
                        }
                        if longer.contains(p) {
                            let at = choose|at: int| 0 <= at < longer.len() && longer[at] == p;
                            if at < j {
                                assert(shorter[at] == p);
                            }
                        }
                    }
                    assert forall|p: Point|
                        before.image.contains(p) implies #[trigger] self@.image.color(p)
                        == before.filling(p, i as int, j + 1) by {
                        if p != point {
                            assert(self@.image.color(p) == earlier.color(p));
                        }
                    }
                    assert forall|p: Point|
                        before.image.contains(p) implies #[trigger] self@.image.alpha(p)
                        == before.image.alpha(p) by {
                        assert(self@.image.alpha(p) == earlier.alpha(p));
                    }
                }
                j += 1;
            }
            proof {
                assert(points.take(length as int) =~= points);
            }
            i += 1;
        }
        let ghost base = self@.image;
        let width = self.image.width as i64;
        let height = self.image.height as i64;
        let mut y: i64 = 0;
        while y < height && y <= i32::MAX as i64
            invariant
                0 <= y <= height,
                y <= i32::MAX + 1,
                width == before.image.width,
                height == before.image.height,
                before.wf(),
                self@ == (WorldView { image: self@.image, ..before }),
                self@.image.wf(),
                self@.image.width == before.image.width,
                self@.image.height == before.image.height,
                forall|p: Point|
                    before.image.contains(p) ==> #[trigger] base.color(p) == before.filled(
                        p,
                        before.cells.len() as int,
                    ),
                forall|p: Point|
                    before.image.contains(p) ==> #[trigger] self@.image.color(p) == if p.y < y {
                        before.shown(p)
                    } else {
                        base.color(p)
                    },
                forall|p: Point|
                    before.image.contains(p) ==> #[trigger] self@.image.alpha(p)
                        == before.image.alpha(p),
            decreases height - y,
        {
            let mut x: i64 = 0;
            while x < width && x <= i32::MAX as i64
                invariant
                    0 <= x <= width,
                    x <= i32::MAX + 1,
                    0 <= y < height,
                    y <= i32::MAX,
                    width == before.image.width,
                    height == before.image.height,
                    before.wf(),
                    self@ == (WorldView { image: self@.image, ..before }),
                    self@.image.wf(),
                    self@.image.width == before.image.width,
                    self@.image.height == before.image.height,
                    forall|p: Point|
                        before.image.contains(p) ==> #[trigger] base.color(p) == before.filled(
                            p,
                            before.cells.len() as int,
                        ),
                    forall|p: Point|
                        before.image.contains(p) ==> #[trigger] self@.image.color(p) == if p.y < y
                            || (p.y == y && p.x < x) {
                            before.shown(p)
                        } else {
                            base.color(p)
                        },
                    forall|p: Point|
                        before.image.contains(p) ==> #[trigger] self@.image.alpha(p)
                            == before.image.alpha(p),
                decreases width - x,
            {
                let p = Point { x: x as i32, y: y as i32 };
                let color_in_boundary_image = self.cell_boundaries.color_at(p);
                let white = Color { red: 255, green: 255, blue: 255 };
                let ghost earlier = self@.image;
                if color_in_boundary_image != white {
                    self.image.set_color_at(p, color_in_boundary_image);
                }
                proof {
                    assert forall|q: Point|
                        before.image.contains(q) implies #[trigger] self@.image.color(q) == if q.y
                        < y || (q.y == y && q.x < x + 1) {
                        before.shown(q)
                    } else {
                        base.color(q)
                    } by {
                        if q != p {
                            assert(self@.image.color(q) == earlier.color(q));
                        } else {
                            assert(earlier.color(p) == base.color(p));
                        }
                    }
                    assert forall|q: Point|
                        before.image.contains(q) implies #[trigger] self@.image.alpha(q)
                        == before.image.alpha(q) by {
                        assert(self@.image.alpha(q) == earlier.alpha(q));
                    }
                }
                x += 1;
            }
            y += 1;
        }
    }

    /// Computes the next generation from the current one and makes it the
    /// current one. Every cell is judged against the same snapshot.
    pub fn step(&mut self)
        requires
            old(self)@.wf(),
        ensures
            final(self)@ == old(self)@.stepped(),
            final(self)@.wf(),
            final(self)@.front.len() == final(self)@.cells.len(),
            final(self)@.back.len() == final(self)@.cells.len(),
    {
        let count = self.cells.len();
        let mut i: usize = 0;
        while i < count
            invariant
                i <= count,
                count == self@.cells.len(),
                self@.wf(),
                self@ == (WorldView { back: self@.back, ..old(self)@ }),
                forall|j: int| 0 <= j < i ==> self@.back[j] == old(self)@.next_front()[j],
            decreases count - i,
        {
            let alive = self.front[i];
            let living_neighbors = self.score_of(i);
            let next = if alive {
                living_neighbors >= self.smin as u128 && living_neighbors <= self.smax as u128
            } else {
                living_neighbors >= self.rmin as u128 && living_neighbors <= self.rmax as u128
            };
            self.back[i] = next;
            i += 1;
        }
        std::mem::swap(&mut self.front, &mut self.back);
        proof {
            assert(self@.front =~= old(self)@.next_front());
        }
    }

    /// The score of cell `i` against the current generation.
    fn score_of(&self, i: usize) -> (value: u128)
        requires
            self@.wf(),
            i < self@.cells.len(),
        ensures
            value == score(self@.cells, self@.front, self@.rule.proportional, i as int),
    {
        let degree = self.cells[i].neighbors.len();
        let mut total: u128 = 0;
        let mut k: usize = 0;
        while k < degree
            invariant
                self@.wf(),
                i < self@.cells.len(),
                degree == self@.cells[i as int].neighbors@.len(),
                k <= degree,
                total == influence(
                    self@.cells,
                    self@.front,
                    self@.rule.proportional,
                    i as int,
                    k as int,
                ),
                total <= k * 0xffff_ffff_ffff_ffff,
            decreases degree - k,
        {
            let neighbor = self.cells[i].neighbors[k];
            if self.front[neighbor] {
                if self.proportional {
                    total += self.cells[neighbor].neighbors.len() as u128;
                } else {
                    total += 1;
                }
            }
            k += 1;
        }
        if !self.proportional || degree == 0 {
            total
        } else {
            proof {
                lemma_times_four_over(total as int, degree as int);
                vstd::arithmetic::div_mod::lemma_fundamental_div_mod(total as int, degree as int);
                vstd::arithmetic::div_mod::lemma_mod_bound(total as int, degree as int);
                assert(0 <= total as int / degree as int <= 0xffff_ffff_ffff_ffff)
                    by (nonlinear_arith)
                    requires
                        0 <= total <= degree * 0xffff_ffff_ffff_ffff,
                        0 < degree,
                ;
            }
            let whole = total / degree as u128;
            let rest = total % degree as u128;
            4 * whole + 4 * rest / degree as u128
        }
    }
}

// ----- what holds of every step -----

/// A step keeps one flag per cell in both generations.
pub proof fn lemma_step_keeps_one_flag_per_cell(world: WorldView)
    requires
        world.wf(),
    ensures
        world.stepped().wf(),
        world.stepped().cells == world.cells,
        world.stepped().front.len() == world.cells.len(),
        world.stepped().back.len() == world.cells.len(),
{
}

/// The generation a step computes depends on the cells, the current
/// generation and the thresholds, and on nothing else: two worlds that agree
/// on these step to the same generation, whatever their other buffers hold.
pub proof fn lemma_step_reads_front_only(a: WorldView, b: WorldView)
    requires
        a.cells == b.cells,
        a.front == b.front,
        a.rule == b.rule,
    ensures
        a.stepped().front == b.stepped().front,
{
}

} // verus!
