//! One flood of one cell, as a relation between the fill before it and the
//! fill after it: what the flood lists, claims, queues, links and marks.

use crate::fill::{
    count_assigned, lemma_count_assigned_update, lemma_owner_update, lemma_take,
    lemma_visit_claim, lemma_visit_defer, lemma_visit_link, lemma_visit_outside,
    lemma_visit_same, Fill, Focus,
};
use crate::image::{lemma_index_in_range, Color, Point};
use crate::segmentation::{contour, found_from};
use crate::topology::lemma_neighbor_contained;
use vstd::prelude::*;

verus! {

impl Fill {
    /// If `p` has an owner, it is a region of `p`'s colour.
    pub open spec fn mapped_at(self, p: Point) -> bool {
        self.owner(p) matches Some(c) ==> c < self.colors.len() && self.colors[c as int]
            == self.tone(p)
    }

    /// Every owned pixel has an owner of its colour.
    pub open spec fn mapped(self) -> bool {
        forall|p: Point| self.on(p) ==> #[trigger] self.mapped_at(p)
    }

    /// Region `cell` can be flooded from `seed`: the sizes fit, the map names
    /// regions of the right colour only, and `seed` is a pixel that the
    /// region owns.
    pub open spec fn floodable(self, seed: Point, cell: int) -> bool {
        &&& self.shaped()
        &&& 0 <= cell < self.colors.len()
        &&& self.on(seed)
        &&& self.mapped()
        &&& self.owner(seed) == Some(cell as usize)
    }

    /// What taking the head of the local queue does: it moves to the end of
    /// the list of region `cell`.
    pub open spec fn take_step(self, t: Fill, cell: int) -> bool {
        &&& self.pending.len() > 0
        &&& t.image == self.image
        &&& t.wrap == self.wrap
        &&& t.borders == self.borders
        &&& t.frontier == self.frontier
        &&& t.colors == self.colors
        &&& t.links == self.links
        &&& t.map == self.map
        &&& t.pending == self.pending.subrange(1, self.pending.len() as int)
        &&& t.pixels == self.pixels.update(cell, self.pixels[cell].push(self.pending[0]))
    }

    /// What looking at the `k`-th neighbour of `p`, a point of region `cell`,
    /// does. Off the image: `p` is marked. Of the region's colour:
    /// claimed and queued locally if it has no owner, else left alone. Of
    /// another colour: `p` is marked, and the neighbour is queued as a
    /// candidate if it has no owner, else its region and `cell` are linked
    /// unless they are already.
    pub open spec fn visit_step(self, t: Fill, cell: int, p: Point, k: int) -> bool {
        let hue = self.colors[cell];
        &&& t.image == self.image
        &&& t.wrap == self.wrap
        &&& t.colors == self.colors
        &&& t.pixels == self.pixels
        &&& match self.topology().neighbor(p, k) {
            None => {
                &&& self.marks(t, p)
                &&& t.map == self.map
                &&& t.links == self.links
                &&& t.frontier == self.frontier
                &&& t.pending == self.pending
            },
            Some(q) => if self.tone(q) == hue {
                &&& t.borders == self.borders
                &&& t.links == self.links
                &&& t.frontier == self.frontier
                &&& if self.owner(q) is None {
                    &&& t.map == self.map.update(self.image.index_of(q), Some(cell as usize))
                    &&& t.pending == self.pending.push(q)
                } else {
                    &&& t.map == self.map
                    &&& t.pending == self.pending
                }
            } else {
                &&& self.marks(t, p)
                &&& t.map == self.map
                &&& t.pending == self.pending
                &&& match self.owner(q) {
                    None => t.frontier == self.frontier.push(q) && t.links == self.links,
                    Some(d) => t.frontier == self.frontier && t.links == self.links_with(
                        cell,
                        d as int,
                    ),
                }
            },
        }
    }
}

/// A flood under way: the fill it started from, the fill as it is now, the
/// point it started at and the region it floods.
pub struct Flood {
    pub start: Fill,
    pub now: Fill,
    pub seed: Point,
    pub cell: int,
}

impl Flood {
    /// Colour of the region being flooded.
    pub open spec fn hue(self) -> Color {
        self.start.colors[self.cell]
    }

    /// The points this flood has put on the region's list, in order.
    pub open spec fn added(self) -> Seq<Point> {
        self.now.pixels[self.cell].skip(self.start.pixels[self.cell].len() as int)
    }

    /// The points this flood has reached: those listed, then those waiting.
    pub open spec fn reached(self) -> Seq<Point> {
        self.added() + self.now.pending
    }

    /// The candidates this flood has put on the frontier, in order.
    pub open spec fn pushed(self) -> Seq<Point> {
        self.now.frontier.skip(self.start.frontier.len() as int)
    }

    /// The regions this flood has linked the region to, in order.
    pub open spec fn gained(self) -> Seq<usize> {
        self.now.links[self.cell].skip(self.start.links[self.cell].len() as int)
    }

    /// The flood has looked at the `k`-th neighbour of `p`.
    pub open spec fn visited(self, focus: Focus, p: Point, k: int) -> bool {
        self.added().contains(p) && (focus matches Focus::On { point, handled } ==> point == p
            ==> k < handled)
    }

    /// Nothing but the flooded region's list, the map, the frontier, the
    /// links and the overlay has changed, and the three lists have only
    /// grown at their ends.
    pub open spec fn framed(self) -> bool {
        let c = self.cell;
        &&& self.now.shaped()
        &&& self.now.image == self.start.image
        &&& self.now.wrap == self.start.wrap
        &&& self.now.colors == self.start.colors
        &&& self.now.pixels[c] == self.start.pixels[c] + self.added()
        &&& forall|d: int|
            0 <= d < self.start.pixels.len() && d != c ==> #[trigger] self.now.pixels[d]
                == self.start.pixels[d]
        &&& self.now.frontier == self.start.frontier + self.pushed()
        &&& self.now.links[c] == self.start.links[c] + self.gained()
    }

    /// The reached points begin with the seed and hold no point twice; each
    /// is a pixel that the region owns now, each but the seed had no owner
    /// at the start, and each but the seed neighbours a point listed before
    /// it.
    pub open spec fn reached_ok(self) -> bool {
        let all = self.reached();
        &&& all.len() > 0
        &&& all[0] == self.seed
        &&& all.no_duplicates()
        &&& forall|i: int|
            0 <= i < all.len() ==> self.now.on(#[trigger] all[i]) && self.now.owner(all[i])
                == Some(self.cell as usize) && (i >= 1 ==> self.start.owner(all[i]) is None)
        &&& forall|j: int|
            1 <= j < all.len() ==> #[trigger] found_from(
                self.now.topology(),
                self.added(),
                j,
                all[j],
            )
    }

    /// The owner of `p` now: the flooded region if `p` had no owner and has
    /// been reached, else the owner it had.
    pub open spec fn owner_ok(self, p: Point) -> bool {
        self.now.owner(p) == if self.start.owner(p) is None && self.reached().contains(p) {
            Some(self.cell as usize)
        } else {
            self.start.owner(p)
        }
    }

    /// A map entry keeps its value, or goes from none to the flooded region;
    /// the entries that changed are those of the reached points.
    pub open spec fn map_ok(self) -> bool {
        &&& self.now.map.len() == self.start.map.len()
        &&& forall|i: int|
            0 <= i < self.start.map.len() ==> #[trigger] self.now.map[i] == self.start.map[i] || (
            self.start.map[i] is None && self.now.map[i] == Some(self.cell as usize))
        &&& forall|p: Point| self.start.on(p) ==> #[trigger] self.owner_ok(p)
        &&& self.now.mapped()
    }

    /// What the flood did about the `k`-th neighbour of `p`, if it is on the
    /// image: of the region's colour, it has an owner now; of another colour
    /// and without owner at the start, it is among the candidates pushed; of
    /// another colour and owned at the start, its owner is linked.
    pub open spec fn seen_ok(self, p: Point, k: int) -> bool {
        self.now.topology().neighbor(p, k) matches Some(q) ==> if self.now.tone(q) == self.hue() {
            self.now.owner(q) is Some
        } else {
            match self.start.owner(q) {
                None => self.pushed().contains(q),
                Some(d) => self.now.links[self.cell].contains(d),
            }
        }
    }

    /// Every neighbour the flood has looked at is dealt with.
    pub open spec fn seen(self, focus: Focus) -> bool {
        forall|p: Point, k: int|
            0 <= k < 8 && self.visited(focus, p, k) ==> #[trigger] self.seen_ok(p, k)
    }

    /// Some listed point has `q` as a neighbour.
    pub open spec fn beside(self, q: Point) -> bool {
        exists|p: Point, k: int|
            0 <= k < 8 && self.added().contains(p) && #[trigger] self.now.topology().neighbor(
                p,
                k,
            ) == Some(q)
    }

    /// Every candidate pushed is a pixel of another colour, without owner at
    /// the start, beside a listed point.
    pub open spec fn pushed_ok(self) -> bool {
        forall|i: int|
            0 <= i < self.pushed().len() ==> self.now.on(#[trigger] self.pushed()[i])
                && self.start.owner(self.pushed()[i]) is None && self.now.tone(self.pushed()[i])
                != self.hue() && self.beside(self.pushed()[i])
    }

    /// Some listed point has a neighbour of another colour that region `d`
    /// owned at the start.
    pub open spec fn met(self, d: usize) -> bool {
        exists|p: Point, k: int|
            0 <= k < 8 && self.added().contains(p) && (
            #[trigger] self.now.topology().neighbor(p, k) matches Some(q) && self.start.owner(q)
                == Some(d) && self.now.tone(q) != self.hue())
    }

    /// The regions gained are other regions, met by the flood, that were not
    /// linked at the start, each gained once; every other region's list is
    /// as it was, with the flooded region at its end if it was gained.
    pub open spec fn gained_ok(self) -> bool {
        let c = self.cell;
        &&& self.now.links.len() == self.start.links.len()
        &&& self.gained().no_duplicates()
        &&& forall|i: int|
            0 <= i < self.gained().len() ==> (#[trigger] self.gained()[i]) < self.start.links.len()
                && self.gained()[i] != c && !self.start.links[c].contains(self.gained()[i])
                && self.met(self.gained()[i])
        &&& forall|d: int|
            0 <= d < self.start.links.len() && d != c ==> #[trigger] self.now.links[d]
                == if self.gained().contains(d as usize) {
                self.start.links[d].push(c as usize)
            } else {
                self.start.links[d]
            }
    }

    /// One of the neighbours of `p` that the flood has looked at is an edge.
    pub open spec fn ringed(self, focus: Focus, p: Point) -> bool {
        exists|k: int| 0 <= k < 8 && self.visited(focus, p, k) && #[trigger] self.now.edge_at(p, k)
    }

    /// The overlay at `p`: alpha as it was, grey if the flood found an edge
    /// at `p`, else the colour it had.
    pub open spec fn drawn_at(self, focus: Focus, p: Point) -> bool {
        &&& self.now.borders.alpha(p) == self.start.borders.alpha(p)
        &&& self.now.borders.color(p) == if self.ringed(focus, p) {
            contour()
        } else {
            self.start.borders.color(p)
        }
    }

    /// The overlay has changed at the edges the flood found and nowhere else.
    pub open spec fn drawn(self, focus: Focus) -> bool {
        forall|p: Point| self.start.on(p) ==> #[trigger] self.drawn_at(focus, p)
    }

    /// The point in focus, if any, is the last point listed.
    pub open spec fn aimed(self, focus: Focus) -> bool {
        focus matches Focus::On { point, handled } ==> 0 <= handled <= 8 && self.added().len() > 0
            && self.added().last() == point
    }

    /// What a flood leaves alone, read off list by list: the colours and
    /// every other region's points are as they were; the region's old points
    /// come first in its list and the seed right after them; a map entry
    /// keeps its value or goes from none to the region; every list of links
    /// and the frontier begin with what they held; the overlay keeps its
    /// colour at every pixel the region does not list, and its alpha
    /// everywhere.
    pub open spec fn kept(self) -> bool {
        let (s, t, c) = (self.start, self.now, self.cell);
        &&& t.image == s.image
        &&& t.wrap == s.wrap
        &&& t.colors == s.colors
        &&& t.pixels.len() == s.pixels.len()
        &&& forall|d: int|
            0 <= d < s.pixels.len() && d != c ==> #[trigger] t.pixels[d] == s.pixels[d]
        &&& s.pixels[c].is_prefix_of(t.pixels[c])
        &&& t.pixels[c].len() > s.pixels[c].len()
        &&& t.pixels[c][s.pixels[c].len() as int] == self.seed
        &&& t.map.len() == s.map.len()
        &&& forall|i: int|
            0 <= i < s.map.len() ==> #[trigger] t.map[i] == s.map[i] || (s.map[i] is None
                && t.map[i] == Some(c as usize))
        &&& t.links.len() == s.links.len()
        &&& forall|d: int|
            0 <= d < s.links.len() ==> (#[trigger] s.links[d]).is_prefix_of(t.links[d])
        &&& s.frontier.is_prefix_of(t.frontier)
        &&& forall|p: Point|
            s.on(p) && !t.pixels[c].contains(p) ==> #[trigger] t.borders.color(p)
                == s.borders.color(p)
        &&& forall|p: Point| s.on(p) ==> #[trigger] t.borders.alpha(p) == s.borders.alpha(p)
    }

    /// What holds of a flood between any two of its steps.
    pub open spec fn holds(self, focus: Focus) -> bool {
        &&& self.start.floodable(self.seed, self.cell)
        &&& self.framed()
        &&& self.reached_ok()
        &&& self.map_ok()
        &&& self.seen(focus)
        &&& self.pushed_ok()
        &&& self.gained_ok()
        &&& self.drawn(focus)
        &&& self.aimed(focus)
    }

    /// The flood is over: it holds, and no point is waiting.
    pub open spec fn over(self) -> bool {
        self.holds(Focus::Idle) && self.now.pending.len() == 0
    }
}

// ----- the steps of a flood -----

/// A flood that has only put its seed on the local queue holds.
pub proof fn lemma_flood_begin(s: Fill, t: Fill, seed: Point, cell: int)
    requires
        s.floodable(seed, cell),
        t == s.awaiting(seed),
    ensures
        (Flood { start: s, now: t, seed, cell }).holds(Focus::Idle),
        (Flood { start: s, now: t, seed, cell }).ordered(Focus::Idle),
{
    let b = Flood { start: s, now: t, seed, cell };
    let f = Focus::Idle;
    assert(b.added() =~= Seq::empty());
    assert(b.reached() =~= seq![seed] + b.claims(0));
    assert(b.pushed() =~= Seq::empty());
    assert(b.gained() =~= Seq::empty());
    assert(b.reached() =~= seq![seed]);
    assert(b.framed()) by {
        assert(t.pixels[b.cell] =~= s.pixels[b.cell] + b.added());
        assert(t.frontier =~= s.frontier + b.pushed());
        assert(t.links[b.cell] =~= s.links[b.cell] + b.gained());
    }
    assert(b.reached_ok());
    assert forall|p: Point| s.on(p) implies #[trigger] b.owner_ok(p) by {
        if b.reached().contains(p) {
            assert(p == seed);
        }
    }
    assert(t.mapped()) by {
        assert forall|p: Point| t.on(p) implies #[trigger] t.mapped_at(p) by {
            assert(s.mapped_at(p));
        }
    }
    assert(b.map_ok());
    assert(b.seen(f));
    assert(b.pushed_ok());
    assert(b.gained_ok());
    assert forall|p: Point| s.on(p) implies #[trigger] b.drawn_at(f, p) by {
        assert(!b.ringed(f, p));
    }
}

/// Taking the next waiting point keeps the flood: the point is listed and
/// becomes the focus, with none of its neighbours looked at.
pub proof fn lemma_flood_take(s: Fill, u: Fill, t: Fill, seed: Point, cell: int)
    requires
        (Flood { start: s, now: u, seed, cell }).holds(Focus::Idle),
        (Flood { start: s, now: u, seed, cell }).ordered(Focus::Idle),
        u.take_step(t, cell),
    ensures
        (Flood { start: s, now: t, seed, cell }).holds(
            Focus::On { point: u.pending[0], handled: 0 },
        ),
        (Flood { start: s, now: t, seed, cell }).ordered(
            Focus::On { point: u.pending[0], handled: 0 },
        ),
{
    let a = Flood { start: s, now: u, seed, cell };
    let b = Flood { start: s, now: t, seed, cell };
    let f = Focus::Idle;
    let p = u.pending[0];
    let g = Focus::On { point: p, handled: 0 };
    let c = a.cell;
    assert(u.pixels[c] == s.pixels[c] + a.added());
    assert(b.added() =~= a.added().push(p));
    assert(b.reached() =~= a.reached());
    assert(b.pushed() == a.pushed());
    assert(b.gained() == a.gained());
    assert(a.reached()[a.added().len() as int] == p);
    assert(!a.added().contains(p)) by {
        if a.added().contains(p) {
            let i = choose|i: int| 0 <= i < a.added().len() && a.added()[i] == p;
            assert(a.reached()[i] == p);
        }
    }
    lemma_order_take(a, b, p);
    assert forall|x: Point| a.added().contains(x) implies b.added().contains(x) by {
        let i = choose|i: int| 0 <= i < a.added().len() && a.added()[i] == x;
        assert(b.added()[i] == x);
    }
    assert forall|x: Point| b.added().contains(x) implies a.added().contains(x) || x == p by {
        let i = choose|i: int| 0 <= i < b.added().len() && b.added()[i] == x;
        if i < a.added().len() {
            assert(a.added()[i] == x);
        }
    }
    assert(b.framed()) by {
        assert(t.pixels[c] =~= s.pixels[c] + b.added());
        assert forall|d: int| 0 <= d < s.pixels.len() && d != c implies #[trigger] t.pixels[d]
            == s.pixels[d] by {
            assert(u.pixels[d] == s.pixels[d]);
        }
    }
    assert(b.reached_ok()) by {
        let all = b.reached();
        assert forall|j: int| 1 <= j < all.len() implies #[trigger] found_from(
            t.topology(),
            b.added(),
            j,
            all[j],
        ) by {
            assert(found_from(u.topology(), a.added(), j, all[j]));
            let i = choose|i: int|
                0 <= i < j && i < a.added().len() && u.topology().adjacent(
                    #[trigger] a.added()[i],
                    all[j],
                );
            assert(t.topology().adjacent(b.added()[i], all[j]));
        }
    }
    assert forall|x: Point| s.on(x) implies #[trigger] b.owner_ok(x) by {
        assert(a.owner_ok(x));
    }
    assert(t.mapped()) by {
        assert forall|x: Point| t.on(x) implies #[trigger] t.mapped_at(x) by {
            assert(u.mapped_at(x));
        }
    }
    assert(b.map_ok());
    assert forall|x: Point, j: int| 0 <= j < 8 && b.visited(g, x, j) implies #[trigger] b.seen_ok(
        x,
        j,
    ) by {
        assert(a.visited(f, x, j));
        assert(a.seen_ok(x, j));
    }
    assert(b.pushed_ok()) by {
        assert forall|i: int| 0 <= i < b.pushed().len() implies b.beside(
            #[trigger] b.pushed()[i],
        ) by {
            lemma_beside_kept(a, b, a.pushed()[i]);
        }
    }
    assert(b.gained_ok()) by {
        assert forall|i: int| 0 <= i < b.gained().len() implies b.met(
            #[trigger] b.gained()[i],
        ) by {
            lemma_met_kept(a, b, a.gained()[i]);
        }
    }
    assert forall|x: Point| s.on(x) implies #[trigger] b.drawn_at(g, x) by {
        assert(a.drawn_at(f, x));
        lemma_ringed_kept(a, b, f, g, x);
    }
}

/// A point beside the listed points stays beside them when the list grows.
proof fn lemma_beside_kept(a: Flood, b: Flood, q: Point)
    requires
        a.beside(q),
        b.now.topology() == a.now.topology(),
        forall|x: Point| a.added().contains(x) ==> b.added().contains(x),
    ensures
        b.beside(q),
{
    let (p, k) = choose|p: Point, k: int|
        0 <= k < 8 && a.added().contains(p) && #[trigger] a.now.topology().neighbor(p, k) == Some(
            q,
        );
    assert(b.now.topology().neighbor(p, k) == Some(q));
}

/// A region met by the flood stays met when the list grows.
proof fn lemma_met_kept(a: Flood, b: Flood, d: usize)
    requires
        a.met(d),
        a.start == b.start,
        a.cell == b.cell,
        b.now.topology() == a.now.topology(),
        b.now.image == a.now.image,
        forall|x: Point| a.added().contains(x) ==> b.added().contains(x),
    ensures
        b.met(d),
{
    let (p, k) = choose|p: Point, k: int|
        0 <= k < 8 && a.added().contains(p) && (#[trigger] a.now.topology().neighbor(
            p,
            k,
        ) matches Some(q) && a.start.owner(q) == Some(d) && a.now.tone(q) != a.hue());
    let q = a.now.topology().neighbor(p, k).unwrap();
    assert(b.now.topology().neighbor(p, k) == Some(q));
}

/// A pixel whose visited neighbours are the same under two floods has an
/// edge found in both or in neither.
proof fn lemma_ringed_kept(a: Flood, b: Flood, f: Focus, g: Focus, p: Point)
    requires
        b.now.image == a.now.image,
        b.now.wrap == a.now.wrap,
        forall|k: int| 0 <= k < 8 ==> a.visited(f, p, k) == b.visited(g, p, k),
    ensures
        a.ringed(f, p) == b.ringed(g, p),
{
    if a.ringed(f, p) {
        let k = choose|k: int| 0 <= k < 8 && a.visited(f, p, k) && #[trigger] a.now.edge_at(p, k);
        assert(b.visited(g, p, k) && b.now.edge_at(p, k));
    }
    if b.ringed(g, p) {
        let k = choose|k: int| 0 <= k < 8 && b.visited(g, p, k) && #[trigger] b.now.edge_at(p, k);
        assert(a.visited(f, p, k) && a.now.edge_at(p, k));
    }
}

/// Once all eight neighbours of the focus have been looked at, the flood can
/// move on.
pub proof fn lemma_flood_leave(a: Flood, p: Point)
    requires
        a.holds(Focus::On { point: p, handled: 8 }),
        a.ordered(Focus::On { point: p, handled: 8 }),
    ensures
        a.holds(Focus::Idle),
        a.ordered(Focus::Idle),
{
    lemma_order_leave(a, p);
    let f = Focus::On { point: p, handled: 8 };
    let g = Focus::Idle;
    assert forall|x: Point, j: int| 0 <= j < 8 && a.visited(g, x, j) implies #[trigger] a.seen_ok(
        x,
        j,
    ) by {
        assert(a.visited(f, x, j));
    }
    assert forall|x: Point| a.start.on(x) implies #[trigger] a.drawn_at(g, x) by {
        assert(a.drawn_at(f, x));
        lemma_ringed_kept(a, a, f, g, x);
    }
}

/// Looking at one more neighbour of the focus finds an edge at it exactly
/// when that neighbour is one.
proof fn lemma_ringed_step(a: Flood, b: Flood, p: Point, k: int)
    requires
        b.now.image == a.now.image,
        b.now.wrap == a.now.wrap,
        b.added() == a.added(),
        a.added().contains(p),
        0 <= k < 8,
    ensures
        b.ringed(Focus::On { point: p, handled: k + 1 }, p) == (a.ringed(
            Focus::On { point: p, handled: k },
            p,
        ) || a.now.edge_at(p, k)),
{
    let f = Focus::On { point: p, handled: k };
    let g = Focus::On { point: p, handled: k + 1 };
    if a.ringed(f, p) {
        let j = choose|j: int| 0 <= j < 8 && a.visited(f, p, j) && #[trigger] a.now.edge_at(p, j);
        assert(b.visited(g, p, j) && b.now.edge_at(p, j));
    }
    if a.now.edge_at(p, k) {
        assert(b.visited(g, p, k) && b.now.edge_at(p, k));
    }
    if b.ringed(g, p) {
        let j = choose|j: int| 0 <= j < 8 && b.visited(g, p, j) && #[trigger] b.now.edge_at(p, j);
        if j < k {
            assert(a.visited(f, p, j) && a.now.edge_at(p, j));
        } else {
            assert(a.now.edge_at(p, k));
        }
    }
}

/// The focus of a flood has the colour of the flooded region.
proof fn lemma_focus_hue(a: Flood, p: Point, k: int)
    requires
        a.holds(Focus::On { point: p, handled: k }),
    ensures
        a.added().contains(p),
        a.now.on(p),
        a.now.tone(p) == a.hue(),
        a.now.owner(p) == Some(a.cell as usize),
{
    let i = a.added().len() - 1;
    assert(a.added()[i] == p);
    assert(a.reached()[i] == p);
    assert(a.now.mapped_at(p));
}

/// The overlay part of a visit that marks the focus.
proof fn lemma_drawn_mark(a: Flood, b: Flood, p: Point, k: int)
    requires
        0 <= k < 8,
        a.holds(Focus::On { point: p, handled: k }),
        a.start == b.start,
        a.seed == b.seed,
        a.cell == b.cell,
        a.now.marks(b.now, p),
        b.now.image == a.now.image,
        b.now.wrap == a.now.wrap,
        b.added() == a.added(),
        a.now.edge_at(p, k),
    ensures
        b.drawn(Focus::On { point: p, handled: k + 1 }),
{
    let f = Focus::On { point: p, handled: k };
    let g = Focus::On { point: p, handled: k + 1 };
    lemma_focus_hue(a, p, k);
    assert forall|x: Point| b.start.on(x) implies #[trigger] b.drawn_at(g, x) by {
        assert(a.drawn_at(f, x));
        if x == p {
            lemma_ringed_step(a, b, p, k);
        } else {
            lemma_ringed_kept(a, b, f, g, x);
        }
    }
}

/// The overlay part of a visit that leaves the overlay alone.
proof fn lemma_drawn_plain(a: Flood, b: Flood, p: Point, k: int)
    requires
        0 <= k < 8,
        a.holds(Focus::On { point: p, handled: k }),
        a.start == b.start,
        a.seed == b.seed,
        a.cell == b.cell,
        b.now.borders == a.now.borders,
        b.now.image == a.now.image,
        b.now.wrap == a.now.wrap,
        b.added() == a.added(),
        !a.now.edge_at(p, k),
    ensures
        b.drawn(Focus::On { point: p, handled: k + 1 }),
{
    let f = Focus::On { point: p, handled: k };
    let g = Focus::On { point: p, handled: k + 1 };
    lemma_focus_hue(a, p, k);
    assert forall|x: Point| b.start.on(x) implies #[trigger] b.drawn_at(g, x) by {
        assert(a.drawn_at(f, x));
        if x == p {
            lemma_ringed_step(a, b, p, k);
        } else {
            lemma_ringed_kept(a, b, f, g, x);
        }
    }
}

/// The parts of a flood that a visit leaves alone when it changes neither
/// the map nor the local queue.
proof fn lemma_reached_kept(a: Flood, b: Flood)
    requires
        a.start == b.start,
        a.seed == b.seed,
        a.cell == b.cell,
        a.start.floodable(a.seed, a.cell),
        a.framed(),
        a.reached_ok(),
        a.map_ok(),
        b.now.image == a.now.image,
        b.now.wrap == a.now.wrap,
        b.now.map == a.now.map,
        b.now.colors == a.now.colors,
        b.now.pixels == a.now.pixels,
        b.now.pending == a.now.pending,
    ensures
        b.reached_ok(),
        b.map_ok(),
        b.added() == a.added(),
        b.reached() == a.reached(),
{
    assert(b.reached() == a.reached());
    assert forall|x: Point| b.start.on(x) implies #[trigger] b.owner_ok(x) by {
        assert(a.owner_ok(x));
    }
    assert(b.now.mapped()) by {
        assert forall|x: Point| b.now.on(x) implies #[trigger] b.now.mapped_at(x) by {
            assert(a.now.mapped_at(x));
        }
    }
    assert forall|j: int| 1 <= j < b.reached().len() implies #[trigger] found_from(
        b.now.topology(),
        b.added(),
        j,
        b.reached()[j],
    ) by {
        assert(found_from(a.now.topology(), a.added(), j, a.reached()[j]));
    }
}

/// The candidates pushed and the regions gained keep their causes when the
/// listed points stay as they are.
proof fn lemma_causes_kept(a: Flood, b: Flood)
    requires
        a.start == b.start,
        a.cell == b.cell,
        a.pushed_ok(),
        a.gained_ok(),
        b.now.image == a.now.image,
        b.now.wrap == a.now.wrap,
        b.added() == a.added(),
    ensures
        forall|i: int| 0 <= i < a.pushed().len() ==> b.beside(#[trigger] a.pushed()[i]),
        forall|i: int| 0 <= i < a.gained().len() ==> b.met(#[trigger] a.gained()[i]),
{
    assert forall|i: int| 0 <= i < a.pushed().len() implies b.beside(#[trigger] a.pushed()[i]) by {
        lemma_beside_kept(a, b, a.pushed()[i]);
    }
    assert forall|i: int| 0 <= i < a.gained().len() implies b.met(#[trigger] a.gained()[i]) by {
        lemma_met_kept(a, b, a.gained()[i]);
    }
}

/// A neighbour that falls off the image: the flood holds with the focus
/// marked.
proof fn lemma_flood_outside(a: Flood, b: Flood, p: Point, k: int)
    requires
        0 <= k < 8,
        a.holds(Focus::On { point: p, handled: k }),
        a.start == b.start,
        a.seed == b.seed,
        a.cell == b.cell,
        a.now.visit_step(b.now, a.cell, p, k),
        a.now.topology().neighbor(p, k) is None,
    ensures
        b.holds(Focus::On { point: p, handled: k + 1 }),
{
    let f = Focus::On { point: p, handled: k };
    let g = Focus::On { point: p, handled: k + 1 };
    lemma_focus_hue(a, p, k);
    lemma_reached_kept(a, b);
    lemma_causes_kept(a, b);
    assert(b.pushed() == a.pushed());
    assert(b.gained() == a.gained());
    assert(b.framed());
    assert forall|x: Point, j: int| 0 <= j < 8 && b.visited(g, x, j) implies #[trigger] b.seen_ok(
        x,
        j,
    ) by {
        if x != p || j < k {
            assert(a.visited(f, x, j));
            assert(a.seen_ok(x, j));
        }
    }
    assert(b.pushed_ok());
    assert(b.gained_ok());
    lemma_drawn_mark(a, b, p, k);
}

/// A neighbour of the region's colour that has an owner: nothing changes.
proof fn lemma_flood_same(a: Flood, b: Flood, p: Point, k: int, q: Point)
    requires
        0 <= k < 8,
        a.holds(Focus::On { point: p, handled: k }),
        a.start == b.start,
        a.seed == b.seed,
        a.cell == b.cell,
        a.now.visit_step(b.now, a.cell, p, k),
        a.now.topology().neighbor(p, k) == Some(q),
        a.now.tone(q) == a.hue(),
        a.now.owner(q) is Some,
    ensures
        b.holds(Focus::On { point: p, handled: k + 1 }),
{
    let f = Focus::On { point: p, handled: k };
    let g = Focus::On { point: p, handled: k + 1 };
    lemma_focus_hue(a, p, k);
    lemma_reached_kept(a, b);
    lemma_causes_kept(a, b);
    assert(b.pushed() == a.pushed());
    assert(b.gained() == a.gained());
    assert(b.framed());
    assert forall|x: Point, j: int| 0 <= j < 8 && b.visited(g, x, j) implies #[trigger] b.seen_ok(
        x,
        j,
    ) by {
        if x != p || j < k {
            assert(a.visited(f, x, j));
            assert(a.seen_ok(x, j));
        }
    }
    assert(b.pushed_ok());
    assert(b.gained_ok());
    lemma_drawn_plain(a, b, p, k);
}

/// A neighbour of another colour without owner: it is pushed as a
/// candidate, and the focus is marked.
proof fn lemma_flood_defer(a: Flood, b: Flood, p: Point, k: int, q: Point)
    requires
        0 <= k < 8,
        a.holds(Focus::On { point: p, handled: k }),
        a.start == b.start,
        a.seed == b.seed,
        a.cell == b.cell,
        a.now.visit_step(b.now, a.cell, p, k),
        a.now.topology().neighbor(p, k) == Some(q),
        a.now.tone(q) != a.hue(),
        a.now.owner(q) is None,
    ensures
        b.holds(Focus::On { point: p, handled: k + 1 }),
{
    let f = Focus::On { point: p, handled: k };
    let g = Focus::On { point: p, handled: k + 1 };
    lemma_focus_hue(a, p, k);
    lemma_neighbor_contained(a.now.topology(), p, k);
    lemma_reached_kept(a, b);
    lemma_causes_kept(a, b);
    assert(a.owner_ok(q));
    assert(b.pushed() =~= a.pushed().push(q));
    assert(b.gained() == a.gained());
    assert(b.pushed()[a.pushed().len() as int] == q);
    assert forall|x: Point| a.pushed().contains(x) implies b.pushed().contains(x) by {
        let i = choose|i: int| 0 <= i < a.pushed().len() && a.pushed()[i] == x;
        assert(b.pushed()[i] == x);
    }
    assert(b.framed()) by {
        assert(b.now.frontier =~= b.start.frontier + b.pushed());
    }
    assert forall|x: Point, j: int| 0 <= j < 8 && b.visited(g, x, j) implies #[trigger] b.seen_ok(
        x,
        j,
    ) by {
        if x != p || j < k {
            assert(a.visited(f, x, j));
            assert(a.seen_ok(x, j));
        }
    }
    assert(b.pushed_ok()) by {
        assert(b.now.topology().neighbor(p, k) == Some(q));
        assert(b.beside(q));
        assert forall|i: int| 0 <= i < b.pushed().len() implies b.now.on(#[trigger] b.pushed()[i])
            && b.start.owner(b.pushed()[i]) is None && b.now.tone(b.pushed()[i]) != b.hue()
            && b.beside(b.pushed()[i]) by {
            if i < a.pushed().len() {
                assert(a.now.on(a.pushed()[i]));
            }
        }
    }
    assert(b.gained_ok());
    lemma_drawn_mark(a, b, p, k);
}

/// A neighbour of the region's colour without owner: the region claims it,
/// and it waits to be explored.
proof fn lemma_flood_claim(a: Flood, b: Flood, p: Point, k: int, q: Point)
    requires
        0 <= k < 8,
        a.holds(Focus::On { point: p, handled: k }),
        a.start == b.start,
        a.seed == b.seed,
        a.cell == b.cell,
        a.now.visit_step(b.now, a.cell, p, k),
        a.now.topology().neighbor(p, k) == Some(q),
        a.now.tone(q) == a.hue(),
        a.now.owner(q) is None,
    ensures
        b.holds(Focus::On { point: p, handled: k + 1 }),
{
    let f = Focus::On { point: p, handled: k };
    let g = Focus::On { point: p, handled: k + 1 };
    let (s, u, t) = (a.start, a.now, b.now);
    let c = a.cell;
    lemma_focus_hue(a, p, k);
    lemma_neighbor_contained(u.topology(), p, k);
    lemma_owner_update(u, t, q, Some(c as usize));
    lemma_index_in_range(u.image.width as int, u.image.height as int, q);
    lemma_causes_kept(a, b);
    assert(a.owner_ok(q));
    assert(b.added() == a.added());
    assert(b.pushed() == a.pushed());
    assert(b.gained() == a.gained());
    assert(b.reached() =~= a.reached().push(q));
    let all = b.reached();
    let n = a.reached().len() as int;
    assert(all[n] == q);
    assert(!a.reached().contains(q)) by {
        if a.reached().contains(q) {
            let i = choose|i: int| 0 <= i < a.reached().len() && a.reached()[i] == q;
            assert(u.owner(a.reached()[i]) is Some);
        }
    }
    assert forall|x: Point| a.reached().contains(x) implies b.reached().contains(x) by {
        let i = choose|i: int| 0 <= i < a.reached().len() && a.reached()[i] == x;
        assert(all[i] == x);
    }
    assert forall|x: Point| b.reached().contains(x) implies a.reached().contains(x) || x == q by {
        let i = choose|i: int| 0 <= i < all.len() && all[i] == x;
        if i < n {
            assert(a.reached()[i] == x);
        }
    }
    assert(b.framed());
    assert(b.reached_ok()) by {
        assert forall|i: int| 0 <= i < all.len() implies t.on(#[trigger] all[i]) && t.owner(
            all[i],
        ) == Some(c as usize) && (i >= 1 ==> s.owner(all[i]) is None) by {
            if i < n {
                assert(u.on(a.reached()[i]));
            }
        }
        assert forall|j: int| 1 <= j < all.len() implies #[trigger] found_from(
            t.topology(),
            b.added(),
            j,
            all[j],
        ) by {
            if j < n {
                assert(found_from(u.topology(), a.added(), j, a.reached()[j]));
            } else {
                let i = a.added().len() - 1;
                assert(a.added()[i] == p);
                assert(t.topology().neighbor(p, k) == Some(q));
                assert(t.topology().adjacent(b.added()[i], q));
            }
        }
    }
    assert forall|x: Point| s.on(x) implies #[trigger] b.owner_ok(x) by {
        assert(a.owner_ok(x));
    }
    assert(t.mapped()) by {
        assert forall|x: Point| t.on(x) implies #[trigger] t.mapped_at(x) by {
            assert(u.mapped_at(x));
        }
    }
    assert(b.map_ok());
    assert forall|x: Point, j: int| 0 <= j < 8 && b.visited(g, x, j) implies #[trigger] b.seen_ok(
        x,
        j,
    ) by {
        assert(a.added().contains(x));
        let i = choose|i: int| 0 <= i < a.added().len() && a.added()[i] == x;
        assert(a.reached()[i] == x);
        lemma_neighbor_contained(u.topology(), x, j);
        if x != p || j < k {
            assert(a.visited(f, x, j));
            assert(a.seen_ok(x, j));
        }
    }
    assert(b.pushed_ok());
    assert(b.gained_ok());
    lemma_drawn_plain(a, b, p, k);
}

/// A neighbour of another colour with an owner: the focus is marked, and
/// the owner and the flooded region are linked unless they are already.
proof fn lemma_flood_link(a: Flood, b: Flood, p: Point, k: int, q: Point)
    requires
        0 <= k < 8,
        a.holds(Focus::On { point: p, handled: k }),
        a.start == b.start,
        a.seed == b.seed,
        a.cell == b.cell,
        a.now.visit_step(b.now, a.cell, p, k),
        a.now.topology().neighbor(p, k) == Some(q),
        a.now.tone(q) != a.hue(),
        a.now.owner(q) is Some,
    ensures
        b.holds(Focus::On { point: p, handled: k + 1 }),
{
    let f = Focus::On { point: p, handled: k };
    let g = Focus::On { point: p, handled: k + 1 };
    let (s, u, t) = (a.start, a.now, b.now);
    let c = a.cell;
    let d = u.owner(q).unwrap();
    lemma_focus_hue(a, p, k);
    lemma_neighbor_contained(u.topology(), p, k);
    lemma_reached_kept(a, b);
    lemma_causes_kept(a, b);
    assert(a.owner_ok(q));
    assert(u.mapped_at(q));
    assert(s.owner(q) == Some(d));
    assert(d != c && d < s.links.len());
    assert(b.pushed() == a.pushed());
    assert(t.topology().neighbor(p, k) == Some(q));
    assert(b.met(d));
    assert forall|e: usize| u.links[c].contains(e) implies t.links[c].contains(e) by {
        let i = choose|i: int| 0 <= i < u.links[c].len() && u.links[c][i] == e;
        assert(t.links[c][i] == e);
    }
    assert(t.links[c].contains(d)) by {
        if !u.links[c].contains(d) {
            assert(t.links[c][u.links[c].len() as int] == d);
        }
    }
    if u.links[c].contains(d) {
        assert(b.gained() == a.gained());
        assert(b.framed());
        assert(b.gained_ok());
    } else {
        assert(b.gained() =~= a.gained().push(d));
        assert(b.gained()[a.gained().len() as int] == d);
        assert forall|e: usize| a.gained().contains(e) implies u.links[c].contains(e) by {
            let i = choose|i: int| 0 <= i < a.gained().len() && a.gained()[i] == e;
            assert(u.links[c][s.links[c].len() + i] == e);
        }
        assert forall|e: usize| s.links[c].contains(e) implies u.links[c].contains(e) by {
            let i = choose|i: int| 0 <= i < s.links[c].len() && s.links[c][i] == e;
            assert(u.links[c][i] == e);
        }
        assert forall|e: usize| a.gained().contains(e) implies b.gained().contains(e) by {
            let i = choose|i: int| 0 <= i < a.gained().len() && a.gained()[i] == e;
            assert(b.gained()[i] == e);
        }
        assert forall|e: usize| b.gained().contains(e) implies a.gained().contains(e) || e
            == d by {
            let i = choose|i: int| 0 <= i < b.gained().len() && b.gained()[i] == e;
            if i < a.gained().len() {
                assert(a.gained()[i] == e);
            }
        }
        assert(b.framed()) by {
            assert(t.links[c] =~= s.links[c] + b.gained());
        }
        assert(b.gained_ok()) by {
            assert forall|i: int| 0 <= i < b.gained().len() implies (#[trigger] b.gained()[i])
                < s.links.len() && b.gained()[i] != c && !s.links[c].contains(b.gained()[i])
                && b.met(b.gained()[i]) by {
                if i < a.gained().len() {
                    assert(a.gained()[i] < s.links.len());
                }
            }
            assert forall|e: int| 0 <= e < s.links.len() && e != c implies #[trigger] t.links[e]
                == if b.gained().contains(e as usize) {
                s.links[e].push(c as usize)
            } else {
                s.links[e]
            } by {
                assert(u.links[e] == if a.gained().contains(e as usize) {
                    s.links[e].push(c as usize)
                } else {
                    s.links[e]
                });
            }
        }
    }
    assert forall|x: Point, j: int| 0 <= j < 8 && b.visited(g, x, j) implies #[trigger] b.seen_ok(
        x,
        j,
    ) by {
        if x != p || j < k {
            assert(a.visited(f, x, j));
            assert(a.seen_ok(x, j));
        }
    }
    assert(b.pushed_ok());
    lemma_drawn_mark(a, b, p, k);
}

/// Looking at the `k`-th neighbour of the focus keeps the flood.
pub proof fn lemma_flood_visit(
    s: Fill,
    u: Fill,
    t: Fill,
    seed: Point,
    cell: int,
    p: Point,
    k: int,
)
    requires
        0 <= k < 8,
        (Flood { start: s, now: u, seed, cell }).holds(Focus::On { point: p, handled: k }),
        (Flood { start: s, now: u, seed, cell }).ordered(Focus::On { point: p, handled: k }),
        u.visit_step(t, cell, p, k),
    ensures
        (Flood { start: s, now: t, seed, cell }).holds(Focus::On { point: p, handled: k + 1 }),
        (Flood { start: s, now: t, seed, cell }).ordered(Focus::On { point: p, handled: k + 1 }),
{
    let a = Flood { start: s, now: u, seed, cell };
    let b = Flood { start: s, now: t, seed, cell };
    lemma_flood_visit_holds(a, b, p, k);
    lemma_order_visit(a, b, p, k);
}

/// Looking at the `k`-th neighbour of the focus keeps what holds of the
/// flood.
proof fn lemma_flood_visit_holds(a: Flood, b: Flood, p: Point, k: int)
    requires
        0 <= k < 8,
        a.holds(Focus::On { point: p, handled: k }),
        a.start == b.start,
        a.seed == b.seed,
        a.cell == b.cell,
        a.now.visit_step(b.now, a.cell, p, k),
    ensures
        b.holds(Focus::On { point: p, handled: k + 1 }),
{
    let u = a.now;
    lemma_focus_hue(a, p, k);
    match u.topology().neighbor(p, k) {
        None => lemma_flood_outside(a, b, p, k),
        Some(q) => {
            if u.tone(q) == a.hue() {
                if u.owner(q) is None {
                    lemma_flood_claim(a, b, p, k, q);
                } else {
                    lemma_flood_same(a, b, p, k, q);
                }
            } else {
                if u.owner(q) is None {
                    lemma_flood_defer(a, b, p, k, q);
                } else {
                    lemma_flood_link(a, b, p, k, q);
                }
            }
        },
    }
}

// ----- a flood within a fill -----

/// A fill that satisfies the invariant with `seed` waiting can be flooded
/// from `seed`.
pub proof fn lemma_floodable(s: Fill, seed: Point)
    requires
        s.awaiting(seed).inv(Focus::Idle),
    ensures
        s.floodable(seed, s.last()),
{
    let w = s.awaiting(seed);
    assert(w.pending[0] == seed);
    assert(w.on(w.pending[0]));
    assert forall|p: Point| s.on(p) implies #[trigger] s.mapped_at(p) by {
        assert(w.owned_at(p));
    }
}

/// Taking the next waiting point keeps the invariant of the fill.
pub proof fn lemma_fill_take(u: Fill, t: Fill)
    requires
        u.inv(Focus::Idle),
        u.take_step(t, u.last()),
    ensures
        t.inv(Focus::On { point: u.pending[0], handled: 0 }),
{
    lemma_take(u, t);
}

/// Looking at the `k`-th neighbour of the focus keeps the invariant of the
/// fill.
pub proof fn lemma_fill_visit(u: Fill, t: Fill, p: Point, k: int)
    requires
        0 <= k < 8,
        u.inv(Focus::On { point: p, handled: k }),
        u.visit_step(t, u.last(), p, k),
    ensures
        t.inv(Focus::On { point: p, handled: k + 1 }),
{
    assert(u.owned_at(p));
    match u.topology().neighbor(p, k) {
        None => lemma_visit_outside(u, t, p, k),
        Some(q) => {
            lemma_neighbor_contained(u.topology(), p, k);
            if u.tone(q) == u.tone(p) {
                if u.owner(q) is None {
                    lemma_visit_claim(u, t, p, k, q);
                } else {
                    lemma_visit_same(u, p, k, q);
                    assert(t == u);
                }
            } else {
                if u.owner(q) is None {
                    lemma_visit_defer(u, t, p, k, q);
                } else {
                    lemma_visit_link(u, t, p, k, q);
                }
            }
        },
    }
}

/// What one visit does to the sizes that bound the flood: the frontier grows
/// by one point at most, and the local queue grows by one exactly when one
/// more pixel gets an owner.
pub proof fn lemma_visit_sizes(u: Fill, t: Fill, cell: int, p: Point, k: int)
    requires
        0 <= k < 8,
        u.shaped(),
        u.on(p),
        u.visit_step(t, cell, p, k),
    ensures
        t.frontier.len() <= u.frontier.len() + 1,
        t.pending.len() >= u.pending.len(),
        t.pending.len() - u.pending.len() == count_assigned(t.map) - count_assigned(u.map),
        t.map.len() == u.map.len(),
{
    match u.topology().neighbor(p, k) {
        None => {},
        Some(q) => {
            lemma_neighbor_contained(u.topology(), p, k);
            lemma_index_in_range(u.image.width as int, u.image.height as int, q);
            if u.tone(q) == u.colors[cell] && u.owner(q) is None {
                lemma_count_assigned_update(u.map, u.image.index_of(q), cell as usize);
            }
        },
    }
}

/// A finished flood has left alone what a flood leaves alone.
pub proof fn lemma_flood_over(a: Flood)
    requires
        a.over(),
    ensures
        a.kept(),
{
    let f = Focus::Idle;
    let (s, t, c) = (a.start, a.now, a.cell);
    assert(a.reached() =~= a.added());
    assert(a.reached()[0] == a.seed);
    assert(t.pixels[c][s.pixels[c].len() as int] == a.added()[0]);
    assert(s.pixels[c] =~= t.pixels[c].subrange(0, s.pixels[c].len() as int));
    assert(s.frontier =~= t.frontier.subrange(0, s.frontier.len() as int));
    assert forall|d: int| 0 <= d < s.links.len() implies (#[trigger] s.links[d]).is_prefix_of(
        t.links[d],
    ) by {
        if d != c {
            assert(t.links[d] == if a.gained().contains(d as usize) {
                s.links[d].push(c as usize)
            } else {
                s.links[d]
            });
        }
        assert(s.links[d] =~= t.links[d].subrange(0, s.links[d].len() as int));
    }
    assert forall|p: Point| s.on(p) && !t.pixels[c].contains(p) implies #[trigger] t.borders.color(
        p,
    ) == s.borders.color(p) by {
        assert(a.drawn_at(f, p));
        if a.added().contains(p) {
            let i = choose|i: int| 0 <= i < a.added().len() && a.added()[i] == p;
            assert(t.pixels[c][s.pixels[c].len() + i] == p);
        }
        assert(!a.ringed(f, p));
    }
    assert forall|p: Point| s.on(p) implies #[trigger] t.borders.alpha(p) == s.borders.alpha(
        p,
    ) by {
        assert(a.drawn_at(f, p));
    }
}

// ----- the order of a flood -----

impl Flood {
    /// The neighbour looked at in visit `v`: visits go through the listed
    /// points in order, and through the eight neighbours of each in order.
    pub open spec fn target(self, v: int) -> Option<Point> {
        self.now.topology().neighbor(self.added()[v / 8], v % 8)
    }

    /// The points claimed in the first `v` visits, in order: each neighbour
    /// of the region's colour that had no owner at the start, the first time
    /// it is looked at.
    pub open spec fn claims(self, v: int) -> Seq<Point>
        decreases v,
    {
        if v <= 0 {
            Seq::empty()
        } else {
            let before = self.claims(v - 1);
            match self.target(v - 1) {
                Some(q) => if self.now.tone(q) == self.hue() && self.start.owner(q) is None
                    && !before.contains(q) {
                    before.push(q)
                } else {
                    before
                },
                None => before,
            }
        }
    }

    /// The candidates pushed in the first `v` visits, in order: each
    /// neighbour of another colour that had no owner at the start, every
    /// time it is looked at.
    pub open spec fn pushes(self, v: int) -> Seq<Point>
        decreases v,
    {
        if v <= 0 {
            Seq::empty()
        } else {
            let before = self.pushes(v - 1);
            match self.target(v - 1) {
                Some(q) => if self.now.tone(q) != self.hue() && self.start.owner(q) is None {
                    before.push(q)
                } else {
                    before
                },
                None => before,
            }
        }
    }

    /// The regions gained in the first `v` visits, in order: the owner at
    /// the start of each neighbour of another colour, the first time it is
    /// met, unless it was linked already.
    pub open spec fn gains(self, v: int) -> Seq<usize>
        decreases v,
    {
        if v <= 0 {
            Seq::empty()
        } else {
            let before = self.gains(v - 1);
            let linked = self.start.links[self.cell];
            match self.target(v - 1) {
                Some(q) => match self.start.owner(q) {
                    Some(d) => if self.now.tone(q) != self.hue() && !linked.contains(d)
                        && !before.contains(d) {
                        before.push(d)
                    } else {
                        before
                    },
                    None => before,
                },
                None => before,
            }
        }
    }

    /// The number of visits made.
    pub open spec fn visits(self, focus: Focus) -> int {
        match focus {
            Focus::Idle => 8 * self.added().len() as int,
            Focus::On { point, handled } => 8 * (self.added().len() - 1) + handled,
        }
    }

    /// The three lists a flood grows are exactly what its visits, taken in
    /// order, claim, push and gain.
    pub open spec fn ordered(self, focus: Focus) -> bool {
        let v = self.visits(focus);
        &&& self.reached() == seq![self.seed] + self.claims(v)
        &&& self.pushed() == self.pushes(v)
        &&& self.gained() == self.gains(v)
    }
}

/// What the first `v` visits did depends on the points they started from
/// and on nothing listed later.
proof fn lemma_order_stable(a: Flood, b: Flood, v: int)
    requires
        a.start == b.start,
        a.cell == b.cell,
        b.now.image == a.now.image,
        b.now.wrap == a.now.wrap,
        a.added().is_prefix_of(b.added()),
        v <= 8 * a.added().len(),
    ensures
        b.claims(v) == a.claims(v),
        b.pushes(v) == a.pushes(v),
        b.gains(v) == a.gains(v),
    decreases v,
{
    if v > 0 {
        lemma_order_stable(a, b, v - 1);
        assert(0 <= (v - 1) / 8 < a.added().len());
        assert(b.added()[(v - 1) / 8] == a.added()[(v - 1) / 8]);
        assert(b.target(v - 1) == a.target(v - 1));
    }
}

/// Taking the next waiting point makes no visit.
proof fn lemma_order_take(a: Flood, b: Flood, p: Point)
    requires
        a.start == b.start,
        a.cell == b.cell,
        a.seed == b.seed,
        b.now.image == a.now.image,
        b.now.wrap == a.now.wrap,
        a.ordered(Focus::Idle),
        b.added() == a.added().push(p),
        b.reached() == a.reached(),
        b.pushed() == a.pushed(),
        b.gained() == a.gained(),
    ensures
        b.ordered(Focus::On { point: p, handled: 0 }),
{
    assert(a.added() =~= b.added().subrange(0, a.added().len() as int));
    lemma_order_stable(a, b, 8 * a.added().len() as int);
}

/// Leaving a point after its eight visits makes no visit.
proof fn lemma_order_leave(a: Flood, p: Point)
    requires
        a.added().len() > 0,
        a.ordered(Focus::On { point: p, handled: 8 }),
    ensures
        a.ordered(Focus::Idle),
{
}

/// One visit adds to the three lists what the visit claims, pushes and
/// gains.
proof fn lemma_order_visit(a: Flood, b: Flood, p: Point, k: int)
    requires
        0 <= k < 8,
        a.holds(Focus::On { point: p, handled: k }),
        a.ordered(Focus::On { point: p, handled: k }),
        b.holds(Focus::On { point: p, handled: k + 1 }),
        a.start == b.start,
        a.seed == b.seed,
        a.cell == b.cell,
        a.now.visit_step(b.now, a.cell, p, k),
    ensures
        b.ordered(Focus::On { point: p, handled: k + 1 }),
{
    let f = Focus::On { point: p, handled: k };
    let g = Focus::On { point: p, handled: k + 1 };
    let (s, u, t) = (a.start, a.now, b.now);
    let c = a.cell;
    let n = a.added().len() as int;
    let v = a.visits(f);
    lemma_focus_hue(a, p, k);
    assert(b.added() == a.added());
    assert(a.added() =~= b.added().subrange(0, n));
    lemma_order_stable(a, b, v);
    assert(v == 8 * (n - 1) + k);
    assert(v / 8 == n - 1 && v % 8 == k);
    assert(b.visits(g) == v + 1);
    assert(b.added()[v / 8] == p);
    assert(b.target(v) == t.topology().neighbor(p, k));
    assert(a.reached()[0] == a.seed);
    assert forall|x: Point| a.claims(v).contains(x) implies a.reached().contains(x) by {
        let i = choose|i: int| 0 <= i < a.claims(v).len() && a.claims(v)[i] == x;
        assert(a.reached()[i + 1] == x);
    }
    assert forall|x: Point| a.reached().contains(x) && x != a.seed implies a.claims(v).contains(
        x,
    ) by {
        let i = choose|i: int| 0 <= i < a.reached().len() && a.reached()[i] == x;
        assert(a.claims(v)[i - 1] == x);
    }
    assert forall|e: usize| a.gains(v).contains(e) implies u.links[c].contains(e) by {
        let i = choose|i: int| 0 <= i < a.gained().len() && a.gained()[i] == e;
        assert(u.links[c][s.links[c].len() + i] == e);
    }
    assert forall|e: usize| u.links[c].contains(e) implies s.links[c].contains(e) || a.gains(
        v,
    ).contains(e) by {
        let i = choose|i: int| 0 <= i < u.links[c].len() && u.links[c][i] == e;
        if i < s.links[c].len() {
            assert(s.links[c][i] == e);
        } else {
            assert(a.gained()[i - s.links[c].len()] == e);
        }
    }
    assert forall|e: usize| s.links[c].contains(e) implies u.links[c].contains(e) by {
        let i = choose|i: int| 0 <= i < s.links[c].len() && s.links[c][i] == e;
        assert(u.links[c][i] == e);
    }
    match u.topology().neighbor(p, k) {
        None => {
            assert(b.gained() == a.gained());
        },
        Some(q) => {
            lemma_neighbor_contained(u.topology(), p, k);
            assert(a.owner_ok(q));
            assert(u.mapped_at(q));
            if u.tone(q) == a.hue() || u.owner(q) is None {
                assert(b.gained() == a.gained());
            }
            if u.tone(q) == a.hue() {
                if u.owner(q) is None {
                    assert(b.reached() =~= a.reached().push(q));
                    assert(!a.reached().contains(q)) by {
                        if a.reached().contains(q) {
                            let i = choose|i: int|
                                0 <= i < a.reached().len() && a.reached()[i] == q;
                            assert(u.owner(a.reached()[i]) is Some);
                        }
                    }
                    assert(b.reached() =~= seq![b.seed] + b.claims(v + 1));
                } else {
                    assert(t == u);
                }
            } else {
                if u.owner(q) is None {
                    assert(b.pushed() =~= a.pushed().push(q));
                } else {
                    let d = u.owner(q).unwrap();
                    assert(s.owner(q) == Some(d));
                    assert(d != c);
                    if !u.links[c].contains(d) {
                        assert(b.gained() =~= a.gained().push(d));
                        assert(b.gains(v + 1) == b.gains(v).push(d));
                    } else {
                        assert(b.gained() == a.gained());
                        assert(b.gains(v + 1) == b.gains(v));
                    }
                }
            }
        },
    }
}

} // verus!
