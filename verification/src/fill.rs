//! The state of a flood fill in flight, as mathematics: which pixel belongs to
//! which region so far, what waits in the two queues, and the invariant that
//! every step of the fill keeps.

use crate::image::{
    lemma_index_in_range, lemma_index_injective, lemma_index_onto, Color, Image, Point,
};
use crate::segmentation::{
    blank, contour, contour_color, count_listed, edge, found_from, graph_ok, is_contour_overlay,
    on_contour, topology_of, Regions,
};
use crate::topology::{
    lemma_neighbor_contained, lemma_neighbor_symmetric, lemma_wrap_coordinate, Topology,
};
use vstd::prelude::*;

verus! {

/// The point every fill starts from.
pub open spec fn origin() -> Point {
    Point { x: 0, y: 0 }
}

/// Number of entries of `map` that name a region.
pub open spec fn count_assigned(map: Seq<Option<usize>>) -> nat
    decreases map.len(),
{
    if map.len() == 0 {
        0
    } else {
        count_assigned(map.drop_last()) + if map.last() is Some {
            1nat
        } else {
            0nat
        }
    }
}

/// Which point the fill is working on, and how many of its neighbours it has
/// looked at.
pub enum Focus {
    /// Between two points.
    Idle,
    /// On `point`, with its first `handled` neighbours looked at.
    On { point: Point, handled: int },
}

/// A fill in flight over `image`.
pub struct Fill {
    /// The image being segmented.
    pub image: Image,
    /// Whether opposite edges of the image touch.
    pub wrap: bool,
    /// For each pixel in row-major order, the region it has been given to.
    pub map: Seq<Option<usize>>,
    /// The colour of each region.
    pub colors: Seq<Color>,
    /// The points of each region that have left the region's queue.
    pub pixels: Seq<Seq<Point>>,
    /// The regions that each region is known to touch.
    pub links: Seq<Seq<usize>>,
    /// Candidate seeds of regions to come.
    pub frontier: Seq<Point>,
    /// Points of the newest region whose neighbours are still to be visited.
    pub pending: Seq<Point>,
    /// The contour overlay.
    pub borders: Image,
}

impl Fill {
    /// The shape of the image, with its edges glued or not.
    pub open spec fn topology(self) -> Topology {
        Topology {
            width: self.image.width as int,
            height: self.image.height as int,
            wrap: self.wrap,
        }
    }

    /// `p` is a pixel of the image.
    pub open spec fn on(self, p: Point) -> bool {
        self.image.contains(p)
    }

    /// The region `p` has been given to, if any.
    pub open spec fn owner(self, p: Point) -> Option<usize> {
        self.map[self.image.index_of(p)]
    }

    /// The colour of `p` in the image.
    pub open spec fn tone(self, p: Point) -> Color {
        self.image.color(p)
    }

    /// Index of the newest region.
    pub open spec fn last(self) -> int {
        self.colors.len() - 1
    }

    /// `p` has left its region's queue.
    pub open spec fn listed(self, p: Point) -> bool {
        self.owner(p) matches Some(c) && self.pixels[c as int].contains(p)
    }

    /// The fill has looked at the `k`-th neighbour of `p`.
    pub open spec fn started(self, focus: Focus, p: Point, k: int) -> bool {
        self.listed(p) && (focus matches Focus::On { point, handled } ==> point == p ==> k
            < handled)
    }

    /// The fill has looked at every neighbour of `p` and moved on.
    pub open spec fn done(self, focus: Focus, p: Point) -> bool {
        self.listed(p) && (focus matches Focus::On { point, .. } ==> point != p)
    }

    /// The `k`-th neighbour of `p` is off the image or differs from `p` in colour.
    pub open spec fn edge_at(self, p: Point, k: int) -> bool {
        match self.topology().neighbor(p, k) {
            None => true,
            Some(q) => self.tone(q) != self.tone(p),
        }
    }

    /// Region `c` lists region `d` as a neighbour.
    pub open spec fn linked(self, c: int, d: int) -> bool {
        self.links[c].contains(d as usize)
    }

    /// Some pixel given to region `c` has a neighbour given to region `d`.
    pub open spec fn touching(self, c: int, d: int) -> bool {
        exists|p: Point, k: int|
            self.on(p) && 0 <= k < 8 && self.owner(p) == Some(c as usize) && (
            #[trigger] self.topology().neighbor(p, k) matches Some(q) && self.owner(q) == Some(
                d as usize,
            ))
    }

    // ----- the invariant, clause by clause -----

    /// The sizes fit together: both surfaces are well formed and of one size,
    /// every coordinate fits a `Point`, the map has an entry per pixel, and
    /// the three lists on regions have one length.
    pub open spec fn shaped(self) -> bool {
        &&& self.image.wf()
        &&& self.borders.wf()
        &&& self.borders.width == self.image.width
        &&& self.borders.height == self.image.height
        &&& self.topology().wf()
        &&& self.map.len() == self.image.width * self.image.height
        &&& self.pixels.len() == self.colors.len()
        &&& self.links.len() == self.colors.len()
        &&& self.colors.len() <= usize::MAX
    }

    /// Both queues hold pixels of the image only.
    pub open spec fn queued(self) -> bool {
        &&& forall|i: int| 0 <= i < self.frontier.len() ==> self.on(#[trigger] self.frontier[i])
        &&& forall|i: int| 0 <= i < self.pending.len() ==> self.on(#[trigger] self.pending[i])
    }

    /// If `p` has an owner, it is a region of `p`'s colour, and `p` is on its
    /// list or waiting.
    pub open spec fn owned_at(self, p: Point) -> bool {
        self.owner(p) matches Some(c) ==> c < self.colors.len() && self.colors[c as int]
            == self.tone(p) && (self.pixels[c as int].contains(p) || self.pending.contains(p))
    }

    /// Every owned pixel has an owner of its colour that lists it or is
    /// about to.
    pub open spec fn owned(self) -> bool {
        forall|p: Point| self.on(p) ==> #[trigger] self.owned_at(p)
    }

    /// Every waiting point waits once, belongs to the newest region and is
    /// not yet on its list.
    pub open spec fn pending_ok(self) -> bool {
        &&& self.pending.no_duplicates()
        &&& self.pending.len() > 0 ==> self.colors.len() > 0
        &&& forall|i: int|
            0 <= i < self.pending.len() ==> self.owner(#[trigger] self.pending[i]) == Some(
                self.last() as usize,
            ) && !self.pixels[self.last()].contains(self.pending[i])
    }

    /// Every listed point is a pixel owned by the region that lists it, and
    /// is listed once.
    pub open spec fn listed_ok(self) -> bool {
        &&& forall|c: int, i: int|
            0 <= c < self.pixels.len() && 0 <= i < self.pixels[c].len() ==> self.on(
                #[trigger] self.pixels[c][i],
            ) && self.owner(self.pixels[c][i]) == Some(c as usize)
        &&& forall|c: int|
            0 <= c < self.pixels.len() ==> (#[trigger] self.pixels[c]).no_duplicates()
    }

    /// As many pixels are owned as are listed or waiting.
    pub open spec fn counted(self) -> bool {
        count_assigned(self.map) == count_listed(self.pixels) + self.pending.len()
    }

    /// Links name other regions, once each, and come in pairs.
    pub open spec fn graph_ok(self) -> bool {
        graph_ok(self.links)
    }

    /// Linked regions differ in colour and touch.
    pub open spec fn links_sound(self) -> bool {
        forall|c: int, d: usize|
            0 <= c < self.links.len() && d < self.links.len()
                && #[trigger] self.links[c].contains(d) ==> self.colors[c] != self.colors[d as int]
                && self.touching(c, d as int)
    }

    /// The `k`-th neighbour of `p`, if on the image, is owned or a candidate;
    /// if it has `p`'s colour, it has `p`'s owner.
    pub open spec fn reach_ok(self, p: Point, k: int) -> bool {
        self.topology().neighbor(p, k) matches Some(q) ==> (self.owner(q) is Some
            || self.frontier.contains(q)) && (self.tone(q) == self.tone(p) ==> self.owner(q)
            == self.owner(p))
    }

    /// Every neighbour the fill has looked at is accounted for.
    pub open spec fn closed(self, focus: Focus) -> bool {
        forall|p: Point, k: int|
            self.on(p) && 0 <= k < 8 && self.started(focus, p, k) ==> #[trigger] self.reach_ok(
                p,
                k,
            )
    }

    /// One of the neighbours of `p` that the fill has looked at is an edge.
    pub open spec fn marked(self, focus: Focus, p: Point) -> bool {
        exists|k: int| 0 <= k < 8 && self.started(focus, p, k) && #[trigger] self.edge_at(p, k)
    }

    /// The overlay is opaque at `p`, grey if `p` is marked and white if not.
    pub open spec fn border_ok(self, focus: Focus, p: Point) -> bool {
        &&& self.borders.alpha(p) == 255
        &&& self.borders.color(p) == if self.marked(focus, p) {
            contour()
        } else {
            blank()
        }
    }

    /// The overlay shows exactly the marks found so far.
    pub open spec fn bordered(self, focus: Focus) -> bool {
        forall|p: Point| self.on(p) ==> #[trigger] self.border_ok(focus, p)
    }

    /// If the `k`-th neighbour of `p` differs from `p` in colour and the fill
    /// is done with it, the owners of the two are linked.
    pub open spec fn link_ok(self, focus: Focus, p: Point, k: int) -> bool {
        self.topology().neighbor(p, k) matches Some(q) ==> self.tone(q) != self.tone(p)
            && self.done(focus, q) ==> self.linked(
            self.owner(p).unwrap() as int,
            self.owner(q).unwrap() as int,
        )
    }

    /// No link is missing between regions whose touching pixels the fill has
    /// looked at from both sides.
    pub open spec fn links_complete(self, focus: Focus) -> bool {
        forall|p: Point, k: int|
            self.on(p) && 0 <= k < 8 && self.started(focus, p, k) ==> #[trigger] self.link_ok(
                focus,
                p,
                k,
            )
    }

    /// Every listed or waiting point but the first of its region was found
    /// from a point listed before it; only the newest region may still have
    /// an empty list, and then its first point is the one waiting.
    pub open spec fn connected(self) -> bool {
        let t = self.topology();
        &&& forall|c: int, j: int|
            0 <= c < self.pixels.len() && 1 <= j < self.pixels[c].len() ==> #[trigger] found_from(
                t,
                self.pixels[c],
                j,
                self.pixels[c][j],
            )
        &&& self.pixels.len() > 0 && self.pixels[self.last()].len() > 0 ==> forall|j: int|
            0 <= j < self.pending.len() ==> #[trigger] found_from(
                t,
                self.pixels[self.last()],
                self.pixels[self.last()].len() as int,
                self.pending[j],
            )
        &&& forall|c: int| 0 <= c < self.pixels.len() - 1 ==> (#[trigger] self.pixels[c]).len() > 0
        &&& self.pixels.len() > 0 ==> self.pixels[self.last()].len() + self.pending.len() > 0
        &&& self.pixels.len() > 0 && self.pixels[self.last()].len() == 0 ==> self.pending.len()
            == 1
    }

    /// The origin is owned or a candidate.
    pub open spec fn rooted(self) -> bool {
        self.owner(origin()) is Some || self.frontier.contains(origin())
    }

    /// The first point of region `c`: the head of its list, or the point
    /// waiting to become it.
    pub open spec fn seed(self, c: int) -> Point {
        if self.pixels[c].len() > 0 {
            self.pixels[c][0]
        } else {
            self.pending[0]
        }
    }

    /// The fill begins at the origin: it is the first candidate, and then
    /// the first point of the first region.
    pub open spec fn begun(self) -> bool {
        if self.colors.len() == 0 {
            self.frontier.len() > 0 && self.frontier[0] == origin()
        } else {
            self.seed(0) == origin()
        }
    }

    /// The point in focus, if any, is a listed pixel of the newest region.
    pub open spec fn focused(self, focus: Focus) -> bool {
        focus matches Focus::On { point, handled } ==> 0 <= handled <= 8 && self.colors.len() > 0
            && self.on(point) && self.owner(point) == Some(self.last() as usize)
            && self.pixels[self.last()].contains(point)
    }

    /// What holds of a fill between any two of its steps.
    pub open spec fn inv(self, focus: Focus) -> bool {
        &&& self.shaped()
        &&& self.queued()
        &&& self.owned()
        &&& self.pending_ok()
        &&& self.listed_ok()
        &&& self.counted()
        &&& self.graph_ok()
        &&& self.links_sound()
        &&& self.closed(focus)
        &&& self.bordered(focus)
        &&& self.links_complete(focus)
        &&& self.connected()
        &&& self.rooted()
        &&& self.begun()
        &&& self.focused(focus)
    }

    /// Nothing has been explored yet.
    pub open spec fn fresh(self) -> bool {
        &&& self.shaped()
        &&& forall|i: int| 0 <= i < self.map.len() ==> self.map[i] is None
        &&& self.colors.len() == 0
        &&& self.frontier.len() == 0
        &&& self.pending.len() == 0
        &&& forall|i: int|
            0 <= i < self.borders.pixel_data@.len() ==> self.borders.pixel_data@[i] == 255
    }

    /// `t` differs from `self` in nothing but the queues.
    pub open spec fn same_but_queues(self, t: Fill) -> bool {
        &&& t.image == self.image
        &&& t.wrap == self.wrap
        &&& t.map == self.map
        &&& t.colors == self.colors
        &&& t.pixels == self.pixels
        &&& t.links == self.links
        &&& t.borders == self.borders
    }

    /// `t` has the contour mark at `p` that `self` may lack, and the same
    /// overlay elsewhere.
    pub open spec fn marks(self, t: Fill, p: Point) -> bool {
        &&& t.borders.wf()
        &&& t.borders.width == self.borders.width
        &&& t.borders.height == self.borders.height
        &&& t.borders.color(p) == contour()
        &&& forall|x: Point|
            self.on(x) && x != p ==> #[trigger] t.borders.color(x) == self.borders.color(x)
        &&& forall|x: Point| self.on(x) ==> #[trigger] t.borders.alpha(x) == self.borders.alpha(x)
    }

    /// The links with regions `c` and `d` made neighbours of each other,
    /// unless they already are.
    pub open spec fn links_with(self, c: int, d: int) -> Seq<Seq<usize>> {
        if self.links[c].contains(d as usize) {
            self.links
        } else {
            self.links.update(c, self.links[c].push(d as usize)).update(
                d,
                self.links[d].push(c as usize),
            )
        }
    }

    /// The regions found so far.
    pub open spec fn regions(self) -> Regions {
        Regions { colors: self.colors, pixels: self.pixels, links: self.links }
    }

    /// The fill has nothing left to do.
    pub open spec fn finished(self) -> bool {
        self.inv(Focus::Idle) && self.frontier.len() == 0 && self.pending.len() == 0
    }

    /// This fill with `p` as the only waiting point.
    pub open spec fn awaiting(self, p: Point) -> Fill {
        Fill { pending: seq![p], ..self }
    }

    /// A bound on the work left: each point still to be listed may add eight
    /// candidates to the frontier, and each round of the fill takes one away.
    pub open spec fn fuel(self) -> int {
        self.frontier.len() + 8 * (self.image.width * self.image.height - count_listed(
            self.pixels,
        ))
    }
}

// ----- counting -----

/// No more entries name a region than the map has.
pub proof fn lemma_count_assigned_bound(map: Seq<Option<usize>>)
    ensures
        count_assigned(map) <= map.len(),
    decreases map.len(),
{
    if map.len() > 0 {
        lemma_count_assigned_bound(map.drop_last());
    }
}

/// Giving an unassigned pixel to a region raises the count by one.
pub proof fn lemma_count_assigned_update(map: Seq<Option<usize>>, i: int, c: usize)
    requires
        0 <= i < map.len(),
        map[i] is None,
    ensures
        count_assigned(map.update(i, Some(c))) == count_assigned(map) + 1,
    decreases map.len(),
{
    let after = map.update(i, Some(c));
    if i == map.len() - 1 {
        assert(after.drop_last() =~= map.drop_last());
    } else {
        lemma_count_assigned_update(map.drop_last(), i, c);
        assert(after.drop_last() =~= map.drop_last().update(i, Some(c)));
    }
}

/// A map without assigned entries counts zero.
proof fn lemma_count_assigned_none(map: Seq<Option<usize>>)
    requires
        forall|i: int| 0 <= i < map.len() ==> map[i] is None,
    ensures
        count_assigned(map) == 0,
    decreases map.len(),
{
    if map.len() > 0 {
        lemma_count_assigned_none(map.drop_last());
    }
}

/// A map whose entries are all assigned counts its length.
proof fn lemma_count_assigned_full(map: Seq<Option<usize>>)
    requires
        forall|i: int| 0 <= i < map.len() ==> map[i] is Some,
    ensures
        count_assigned(map) == map.len(),
    decreases map.len(),
{
    if map.len() > 0 {
        lemma_count_assigned_full(map.drop_last());
    }
}

/// Appending a point to one list raises the number of listed points by one.
pub proof fn lemma_count_listed_push(pixels: Seq<Seq<Point>>, c: int, p: Point)
    requires
        0 <= c < pixels.len(),
    ensures
        count_listed(pixels.update(c, pixels[c].push(p))) == count_listed(pixels) + 1,
    decreases pixels.len(),
{
    let after = pixels.update(c, pixels[c].push(p));
    if c == pixels.len() - 1 {
        assert(after.drop_last() =~= pixels.drop_last());
    } else {
        lemma_count_listed_push(pixels.drop_last(), c, p);
        assert(after.drop_last() =~= pixels.drop_last().update(c, pixels[c].push(p)));
    }
}

/// A new, empty list leaves the number of listed points as it was.
pub proof fn lemma_count_listed_fresh(pixels: Seq<Seq<Point>>)
    ensures
        count_listed(pixels.push(Seq::empty())) == count_listed(pixels),
{
    assert(pixels.push(Seq::<Point>::empty()).drop_last() =~= pixels);
}

/// No more points are listed than the image has pixels.
pub proof fn lemma_listed_bound(s: Fill)
    requires
        s.shaped(),
        s.counted(),
    ensures
        count_listed(s.pixels) + s.pending.len() <= s.image.width * s.image.height,
{
    lemma_count_assigned_bound(s.map);
}

// ----- the map, point by point -----

/// Writing the map entry of `p` changes the owner of `p` and of no other pixel.
pub proof fn lemma_owner_update(s: Fill, t: Fill, p: Point, v: Option<usize>)
    requires
        s.shaped(),
        s.on(p),
        t.image == s.image,
        t.map == s.map.update(s.image.index_of(p), v),
    ensures
        t.owner(p) == v,
        forall|q: Point| s.on(q) && q != p ==> #[trigger] t.owner(q) == s.owner(q),
{
    lemma_index_in_range(s.image.width as int, s.image.height as int, p);
    assert forall|q: Point| s.on(q) && q != p implies #[trigger] t.owner(q) == s.owner(q) by {
        lemma_index_in_range(s.image.width as int, s.image.height as int, q);
        lemma_index_injective(s.image.width as int, p, q);
    }
}

// ----- the steps of a fill -----

/// A fill that has explored nothing and holds the origin as its only candidate
/// satisfies the invariant.
pub proof fn lemma_start(s: Fill, t: Fill)
    requires
        s.fresh(),
        s.same_but_queues(t),
        t.frontier == seq![origin()],
        t.pending == s.pending,
    ensures
        t.inv(Focus::Idle),
{
    let f = Focus::Idle;
    assert forall|p: Point| t.on(p) implies t.owner(p) is None by {
        lemma_index_in_range(t.image.width as int, t.image.height as int, p);
    }
    assert(t.owned());
    assert(t.listed_ok());
    assert(t.counted()) by {
        lemma_count_assigned_none(t.map);
    }
    assert(t.closed(f));
    assert forall|p: Point| t.on(p) implies #[trigger] t.border_ok(f, p) by {
        lemma_index_in_range(t.image.width as int, t.image.height as int, p);
        assert(!t.marked(f, p));
    }
    assert(t.links_complete(f));
    assert(t.rooted()) by {
        assert(t.frontier[0] == origin());
    }
}

/// Dropping a candidate that already belongs to a region keeps the invariant.
pub proof fn lemma_discard(s: Fill, t: Fill)
    requires
        s.inv(Focus::Idle),
        s.pending.len() == 0,
        s.frontier.len() > 0,
        s.owner(s.frontier[0]) is Some,
        s.same_but_queues(t),
        t.frontier == s.frontier.subrange(1, s.frontier.len() as int),
        t.pending == s.pending,
    ensures
        t.inv(Focus::Idle),
{
    let f = Focus::Idle;
    assert(s.on(s.frontier[0]) && s.owned_at(s.frontier[0]));
    lemma_frontier_tail(s, t);
    assert(t.queued());
    assert forall|p: Point| t.on(p) implies #[trigger] t.owned_at(p) by {
        assert(s.owned_at(p));
    }
    assert(t.links_sound()) by {
        assert forall|c: int, d: usize|
            0 <= c < t.links.len() && d < t.links.len() && #[trigger] t.links[c].contains(
                d,
            ) implies t.colors[c] != t.colors[d as int] && t.touching(c, d as int) by {
            lemma_touching_kept(s, t, c, d as int);
        }
    }
    assert forall|p: Point, k: int|
        t.on(p) && 0 <= k < 8 && t.started(f, p, k) implies #[trigger] t.reach_ok(p, k) by {
        assert(s.started(f, p, k));
        assert(s.reach_ok(p, k));
    }
    assert forall|p: Point| t.on(p) implies #[trigger] t.border_ok(f, p) by {
        assert(s.border_ok(f, p));
        lemma_marked_kept(s, t, f, f, p);
    }
    assert forall|p: Point, k: int|
        t.on(p) && 0 <= k < 8 && t.started(f, p, k) implies #[trigger] t.link_ok(f, p, k) by {
        assert(s.started(f, p, k));
        assert(s.link_ok(f, p, k));
    }
    assert(t.connected());
}

/// What dropping the head of the frontier does to membership: every point
/// that was queued and has no owner yet is still queued, unless it is the head.
proof fn lemma_frontier_tail(s: Fill, t: Fill)
    requires
        s.frontier.len() > 0,
        t.frontier == s.frontier.subrange(1, s.frontier.len() as int),
    ensures
        forall|q: Point|
            s.frontier.contains(q) && q != s.frontier[0] ==> #[trigger] t.frontier.contains(q),
        forall|i: int| 0 <= i < t.frontier.len() ==> t.frontier[i] == s.frontier[i + 1],
{
    assert forall|q: Point|
        s.frontier.contains(q) && q != s.frontier[0] implies #[trigger] t.frontier.contains(q) by {
        let i = choose|i: int| 0 <= i < s.frontier.len() && s.frontier[i] == q;
        assert(t.frontier[i - 1] == q);
    }
}

/// Regions that touched before still touch when every owner and the
/// topology are as they were.
proof fn lemma_touching_kept(s: Fill, t: Fill, c: int, d: int)
    requires
        s.touching(c, d),
        t.image == s.image,
        t.wrap == s.wrap,
        s.shaped(),
        forall|p: Point| s.on(p) && s.owner(p) is Some ==> #[trigger] t.owner(p) == s.owner(p),
    ensures
        t.touching(c, d),
{
    let (p, k) = choose|p: Point, k: int|
        s.on(p) && 0 <= k < 8 && s.owner(p) == Some(c as usize) && (
        #[trigger] s.topology().neighbor(p, k) matches Some(q) && s.owner(q) == Some(d as usize));
    lemma_neighbor_contained(s.topology(), p, k);
    let q = s.topology().neighbor(p, k).unwrap();
    assert(t.owner(p) == s.owner(p));
    assert(t.owner(q) == s.owner(q));
    assert(t.topology().neighbor(p, k) == Some(q));
}

/// A pixel whose started neighbours are the same under two fills is marked in
/// both or in neither.
proof fn lemma_marked_kept(s: Fill, t: Fill, f: Focus, g: Focus, p: Point)
    requires
        t.image == s.image,
        t.wrap == s.wrap,
        forall|k: int| 0 <= k < 8 ==> s.started(f, p, k) == t.started(g, p, k),
    ensures
        s.marked(f, p) == t.marked(g, p),
{
    if s.marked(f, p) {
        let k = choose|k: int| 0 <= k < 8 && s.started(f, p, k) && #[trigger] s.edge_at(p, k);
        assert(t.started(g, p, k) && t.edge_at(p, k));
    }
    if t.marked(g, p) {
        let k = choose|k: int| 0 <= k < 8 && t.started(g, p, k) && #[trigger] t.edge_at(p, k);
        assert(s.started(f, p, k) && s.edge_at(p, k));
    }
}

/// Opening a region on an unowned candidate keeps the invariant: the candidate
/// leaves the frontier, becomes the first pixel of a new region and waits to
/// be explored.
pub proof fn lemma_seed(s: Fill, t: Fill)
    requires
        s.inv(Focus::Idle),
        s.pending.len() == 0,
        s.frontier.len() > 0,
        s.owner(s.frontier[0]) is None,
        s.colors.len() < usize::MAX,
        t.image == s.image,
        t.wrap == s.wrap,
        t.borders == s.borders,
        t.frontier == s.frontier.subrange(1, s.frontier.len() as int),
        t.colors == s.colors.push(s.tone(s.frontier[0])),
        t.pixels == s.pixels.push(Seq::empty()),
        t.links == s.links.push(Seq::empty()),
        t.map == s.map.update(
            s.image.index_of(s.frontier[0]),
            Some(s.colors.len() as usize),
        ),
        t.pending == seq![s.frontier[0]],
    ensures
        t.inv(Focus::Idle),
{
    let f = Focus::Idle;
    let p = s.frontier[0];
    let n = s.colors.len() as int;
    lemma_frontier_tail(s, t);
    lemma_owner_update(s, t, p, Some(n as usize));
    lemma_index_in_range(s.image.width as int, s.image.height as int, p);
    assert(t.pending[0] == p);
    assert(t.shaped());
    assert(t.queued());
    assert forall|x: Point| t.on(x) implies #[trigger] t.owned_at(x) by {
        assert(s.owned_at(x));
    }
    assert(t.pending_ok());
    assert(t.listed_ok()) by {
        assert forall|c: int, i: int|
            0 <= c < t.pixels.len() && 0 <= i < t.pixels[c].len() implies t.on(
            #[trigger] t.pixels[c][i],
        ) && t.owner(t.pixels[c][i]) == Some(c as usize) by {
            assert(s.on(s.pixels[c][i]));
        }
    }
    assert(t.counted()) by {
        lemma_count_assigned_update(s.map, s.image.index_of(p), n as usize);
        lemma_count_listed_fresh(s.pixels);
    }
    assert(t.graph_ok());
    assert forall|x: Point| s.on(x) implies s.listed(x) == t.listed(x) by {
        assert(s.owned_at(x));
    }
    assert(t.links_sound()) by {
        assert forall|c: int, d: usize|
            0 <= c < t.links.len() && d < t.links.len() && #[trigger] t.links[c].contains(
                d,
            ) implies t.colors[c] != t.colors[d as int] && t.touching(c, d as int) by {
            assert(s.links[c].contains(d));
            lemma_touching_kept(s, t, c, d as int);
        }
    }
    assert forall|x: Point, k: int|
        t.on(x) && 0 <= k < 8 && t.started(f, x, k) implies #[trigger] t.reach_ok(x, k) by {
        assert(s.started(f, x, k));
        assert(s.reach_ok(x, k));
        lemma_neighbor_contained(s.topology(), x, k);
    }
    assert forall|x: Point| t.on(x) implies #[trigger] t.border_ok(f, x) by {
        assert(s.border_ok(f, x));
        lemma_marked_kept(s, t, f, f, x);
    }
    assert forall|x: Point, k: int|
        t.on(x) && 0 <= k < 8 && t.started(f, x, k) implies #[trigger] t.link_ok(f, x, k) by {
        assert(s.started(f, x, k));
        assert(s.link_ok(f, x, k));
        lemma_neighbor_contained(s.topology(), x, k);
        assert(s.owned_at(x));
        if let Some(q) = s.topology().neighbor(x, k) {
            assert(s.owned_at(q));
        }
    }
    assert(t.connected()) by {
        assert forall|c: int, j: int|
            0 <= c < t.pixels.len() && 1 <= j < t.pixels[c].len() implies #[trigger] found_from(
            t.topology(),
            t.pixels[c],
            j,
            t.pixels[c][j],
        ) by {
            assert(found_from(s.topology(), s.pixels[c], j, s.pixels[c][j]));
        }
        assert forall|c: int| 0 <= c < t.pixels.len() - 1 implies (#[trigger] t.pixels[c]).len()
            > 0 by {
            if c < n - 1 {
                assert(s.pixels[c].len() > 0);
            }
        }
    }
    assert(t.rooted());
}

/// Taking the next waiting point of the newest region keeps the invariant:
/// the point joins the region's list and becomes the focus, with none of its
/// neighbours looked at.
pub proof fn lemma_take(s: Fill, t: Fill)
    requires
        s.inv(Focus::Idle),
        s.pending.len() > 0,
        t.image == s.image,
        t.wrap == s.wrap,
        t.borders == s.borders,
        t.frontier == s.frontier,
        t.colors == s.colors,
        t.links == s.links,
        t.map == s.map,
        t.pending == s.pending.subrange(1, s.pending.len() as int),
        t.pixels == s.pixels.update(s.last(), s.pixels[s.last()].push(s.pending[0])),
    ensures
        t.inv(Focus::On { point: s.pending[0], handled: 0 }),
        count_listed(t.pixels) == count_listed(s.pixels) + 1,
{
    let f = Focus::Idle;
    let p = s.pending[0];
    let g = Focus::On { point: p, handled: 0 };
    let last = s.last();
    let before = s.pixels[last];
    assert(s.on(p));
    assert(s.owner(p) == Some(last as usize));
    assert(t.pixels[last][before.len() as int] == p);
    assert forall|i: int| 0 <= i < t.pending.len() implies t.pending[i] == s.pending[i + 1] by {}
    assert forall|x: Point| s.pending.contains(x) && x != p implies t.pending.contains(x) by {
        let i = choose|i: int| 0 <= i < s.pending.len() && s.pending[i] == x;
        assert(t.pending[i - 1] == x);
    }
    assert forall|c: int, x: Point|
        0 <= c < s.pixels.len() implies (#[trigger] t.pixels[c].contains(x)) == (
    s.pixels[c].contains(x) || (c == last && x == p)) by {
        if s.pixels[c].contains(x) {
            let i = choose|i: int| 0 <= i < s.pixels[c].len() && s.pixels[c][i] == x;
            assert(t.pixels[c][i] == x);
        }
        if t.pixels[c].contains(x) {
            let i = choose|i: int| 0 <= i < t.pixels[c].len() && t.pixels[c][i] == x;
            if c != last || i < before.len() {
                assert(s.pixels[c][i] == x);
            }
        }
    }
    assert(t.queued());
    assert forall|x: Point| t.on(x) implies #[trigger] t.owned_at(x) by {
        assert(s.owned_at(x));
    }
    assert(t.pending_ok());
    assert(t.listed_ok()) by {
        assert forall|c: int, i: int|
            0 <= c < t.pixels.len() && 0 <= i < t.pixels[c].len() implies t.on(
            #[trigger] t.pixels[c][i],
        ) && t.owner(t.pixels[c][i]) == Some(c as usize) by {
            if c != last || i < before.len() {
                assert(s.on(s.pixels[c][i]));
            }
        }
        assert forall|c: int| 0 <= c < t.pixels.len() implies (
        #[trigger] t.pixels[c]).no_duplicates() by {
            assert(s.pixels[c].no_duplicates());
        }
    }
    assert(t.counted()) by {
        lemma_count_listed_push(s.pixels, last, p);
    }
    assert forall|x: Point| s.on(x) && x != p implies s.listed(x) == t.listed(x) by {
        assert(s.owned_at(x));
    }
    assert(!s.listed(p));
    assert(t.links_sound()) by {
        assert forall|c: int, d: usize|
            0 <= c < t.links.len() && d < t.links.len() && #[trigger] t.links[c].contains(
                d,
            ) implies t.colors[c] != t.colors[d as int] && t.touching(c, d as int) by {
            lemma_touching_kept(s, t, c, d as int);
        }
    }
    assert forall|x: Point, k: int|
        t.on(x) && 0 <= k < 8 && t.started(g, x, k) implies #[trigger] t.reach_ok(x, k) by {
        assert(s.started(f, x, k));
        assert(s.reach_ok(x, k));
    }
    assert forall|x: Point| t.on(x) implies #[trigger] t.border_ok(g, x) by {
        assert(s.border_ok(f, x));
        lemma_marked_kept(s, t, f, g, x);
    }
    assert forall|x: Point, k: int|
        t.on(x) && 0 <= k < 8 && t.started(g, x, k) implies #[trigger] t.link_ok(g, x, k) by {
        assert(s.started(f, x, k));
        assert(s.link_ok(f, x, k));
        lemma_neighbor_contained(s.topology(), x, k);
    }
    assert(t.connected()) by {
        let tp = t.topology();
        assert forall|c: int, j: int|
            0 <= c < t.pixels.len() && 1 <= j < t.pixels[c].len() implies #[trigger] found_from(
            tp,
            t.pixels[c],
            j,
            t.pixels[c][j],
        ) by {
            if c != last || j < before.len() {
                assert(found_from(tp, s.pixels[c], j, s.pixels[c][j]));
                let i = choose|i: int|
                    0 <= i < j && i < s.pixels[c].len() && tp.adjacent(
                        #[trigger] s.pixels[c][i],
                        s.pixels[c][j],
                    );
                assert(tp.adjacent(t.pixels[c][i], t.pixels[c][j]));
            } else {
                assert(found_from(tp, before, before.len() as int, s.pending[0]));
                let i = choose|i: int|
                    0 <= i < before.len() && i < before.len() && tp.adjacent(
                        #[trigger] before[i],
                        p,
                    );
                assert(tp.adjacent(t.pixels[c][i], t.pixels[c][j]));
            }
        }
        assert forall|j: int| 0 <= j < t.pending.len() implies #[trigger] found_from(
            tp,
            t.pixels[last],
            t.pixels[last].len() as int,
            t.pending[j],
        ) by {
            assert(found_from(tp, before, before.len() as int, s.pending[j + 1]));
            let i = choose|i: int|
                0 <= i < before.len() && i < before.len() && tp.adjacent(
                    #[trigger] before[i],
                    s.pending[j + 1],
                );
            assert(tp.adjacent(t.pixels[last][i], t.pending[j]));
        }
        assert forall|c: int| 0 <= c < t.pixels.len() - 1 implies (#[trigger] t.pixels[c]).len()
            > 0 by {
            assert(s.pixels[c].len() > 0);
        }
    }
    assert(t.rooted());
    assert(t.focused(g));
}

/// Looking at one more neighbour of the focus marks it exactly when that
/// neighbour is an edge.
proof fn lemma_marked_step(s: Fill, t: Fill, p: Point, k: int)
    requires
        t.image == s.image,
        t.wrap == s.wrap,
        s.listed(p),
        t.listed(p),
        0 <= k < 8,
    ensures
        t.marked(Focus::On { point: p, handled: k + 1 }, p) == (s.marked(
            Focus::On { point: p, handled: k },
            p,
        ) || s.edge_at(p, k)),
{
    let f = Focus::On { point: p, handled: k };
    let g = Focus::On { point: p, handled: k + 1 };
    if s.marked(f, p) {
        let j = choose|j: int| 0 <= j < 8 && s.started(f, p, j) && #[trigger] s.edge_at(p, j);
        assert(t.started(g, p, j) && t.edge_at(p, j));
    }
    if s.edge_at(p, k) {
        assert(t.started(g, p, k) && t.edge_at(p, k));
    }
    if t.marked(g, p) {
        let j = choose|j: int| 0 <= j < 8 && t.started(g, p, j) && #[trigger] t.edge_at(p, j);
        if j < k {
            assert(s.started(f, p, j) && s.edge_at(p, j));
        } else {
            assert(s.edge_at(p, k));
        }
    }
}

/// A neighbour that falls off the image marks the focus as contour.
pub proof fn lemma_visit_outside(s: Fill, t: Fill, p: Point, k: int)
    requires
        0 <= k < 8,
        s.inv(Focus::On { point: p, handled: k }),
        s.topology().neighbor(p, k) is None,
        s.marks(t, p),
        t.image == s.image,
        t.wrap == s.wrap,
        t.map == s.map,
        t.colors == s.colors,
        t.pixels == s.pixels,
        t.links == s.links,
        t.frontier == s.frontier,
        t.pending == s.pending,
    ensures
        t.inv(Focus::On { point: p, handled: k + 1 }),
{
    let f = Focus::On { point: p, handled: k };
    let g = Focus::On { point: p, handled: k + 1 };
    assert forall|x: Point| t.on(x) implies #[trigger] t.owned_at(x) by {
        assert(s.owned_at(x));
    }
    assert(t.links_sound()) by {
        assert forall|c: int, d: usize|
            0 <= c < t.links.len() && d < t.links.len() && #[trigger] t.links[c].contains(
                d,
            ) implies t.colors[c] != t.colors[d as int] && t.touching(c, d as int) by {
            lemma_touching_kept(s, t, c, d as int);
        }
    }
    assert forall|x: Point, j: int|
        t.on(x) && 0 <= j < 8 && t.started(g, x, j) implies #[trigger] t.reach_ok(x, j) by {
        if x != p || j < k {
            assert(s.started(f, x, j));
            assert(s.reach_ok(x, j));
        }
    }
    assert forall|x: Point| t.on(x) implies #[trigger] t.border_ok(g, x) by {
        assert(s.border_ok(f, x));
        if x == p {
            lemma_marked_step(s, t, p, k);
        } else {
            lemma_marked_kept(s, t, f, g, x);
        }
    }
    assert forall|x: Point, j: int|
        t.on(x) && 0 <= j < 8 && t.started(g, x, j) implies #[trigger] t.link_ok(g, x, j) by {
        if x != p || j < k {
            assert(s.started(f, x, j));
            assert(s.link_ok(f, x, j));
        }
    }
    assert(t.connected());
}

/// An unowned neighbour of the focus's colour joins the newest region and
/// waits to be explored.
pub proof fn lemma_visit_claim(s: Fill, t: Fill, p: Point, k: int, q: Point)
    requires
        0 <= k < 8,
        s.inv(Focus::On { point: p, handled: k }),
        s.topology().neighbor(p, k) == Some(q),
        s.owner(q) is None,
        s.tone(q) == s.tone(p),
        t.image == s.image,
        t.wrap == s.wrap,
        t.borders == s.borders,
        t.colors == s.colors,
        t.pixels == s.pixels,
        t.links == s.links,
        t.frontier == s.frontier,
        t.map == s.map.update(s.image.index_of(q), Some(s.last() as usize)),
        t.pending == s.pending.push(q),
    ensures
        t.inv(Focus::On { point: p, handled: k + 1 }),
        count_assigned(t.map) == count_assigned(s.map) + 1,
{
    let f = Focus::On { point: p, handled: k };
    let g = Focus::On { point: p, handled: k + 1 };
    let last = s.last();
    lemma_neighbor_contained(s.topology(), p, k);
    lemma_owner_update(s, t, q, Some(last as usize));
    lemma_index_in_range(s.image.width as int, s.image.height as int, q);
    lemma_count_assigned_update(s.map, s.image.index_of(q), last as usize);
    assert(s.owned_at(p));
    assert(t.pending[s.pending.len() as int] == q);
    assert forall|x: Point| s.pending.contains(x) implies t.pending.contains(x) by {
        let i = choose|i: int| 0 <= i < s.pending.len() && s.pending[i] == x;
        assert(t.pending[i] == x);
    }
    assert(!s.pending.contains(q));
    assert(!s.pixels[last].contains(q));
    assert(t.queued());
    assert forall|x: Point| t.on(x) implies #[trigger] t.owned_at(x) by {
        assert(s.owned_at(x));
    }
    assert(t.pending_ok());
    assert(t.listed_ok());
    assert(t.counted());
    assert forall|x: Point| s.on(x) implies s.listed(x) == t.listed(x) by {
        assert(s.owned_at(x));
    }
    assert(t.links_sound()) by {
        assert forall|c: int, d: usize|
            0 <= c < t.links.len() && d < t.links.len() && #[trigger] t.links[c].contains(
                d,
            ) implies t.colors[c] != t.colors[d as int] && t.touching(c, d as int) by {
            lemma_touching_kept(s, t, c, d as int);
        }
    }
    assert forall|x: Point, j: int|
        t.on(x) && 0 <= j < 8 && t.started(g, x, j) implies #[trigger] t.reach_ok(x, j) by {
        lemma_neighbor_contained(s.topology(), x, j);
        if x != p || j < k {
            assert(s.started(f, x, j));
            assert(s.reach_ok(x, j));
        }
    }
    assert forall|x: Point| t.on(x) implies #[trigger] t.border_ok(g, x) by {
        assert(s.border_ok(f, x));
        if x == p {
            lemma_marked_step(s, t, p, k);
        } else {
            lemma_marked_kept(s, t, f, g, x);
        }
    }
    assert forall|x: Point, j: int|
        t.on(x) && 0 <= j < 8 && t.started(g, x, j) implies #[trigger] t.link_ok(g, x, j) by {
        lemma_neighbor_contained(s.topology(), x, j);
        if x != p || j < k {
            assert(s.started(f, x, j));
            assert(s.link_ok(f, x, j));
        }
    }
    assert(t.connected()) by {
        let tp = t.topology();
        let found = t.pixels[last];
        let i = choose|i: int| 0 <= i < found.len() && found[i] == p;
        assert(tp.adjacent(found[i], q));
        assert(found_from(tp, found, found.len() as int, q));
        assert forall|j: int| 0 <= j < t.pending.len() implies #[trigger] found_from(
            tp,
            found,
            found.len() as int,
            t.pending[j],
        ) by {
            if j < s.pending.len() {
                assert(found_from(tp, found, found.len() as int, s.pending[j]));
            }
        }
    }
    assert(t.rooted());
    assert(t.focused(g));
}

/// An unowned neighbour of another colour becomes a candidate seed, and the
/// focus is marked as contour.
pub proof fn lemma_visit_defer(s: Fill, t: Fill, p: Point, k: int, q: Point)
    requires
        0 <= k < 8,
        s.inv(Focus::On { point: p, handled: k }),
        s.topology().neighbor(p, k) == Some(q),
        s.owner(q) is None,
        s.tone(q) != s.tone(p),
        s.marks(t, p),
        t.image == s.image,
        t.wrap == s.wrap,
        t.map == s.map,
        t.colors == s.colors,
        t.pixels == s.pixels,
        t.links == s.links,
        t.pending == s.pending,
        t.frontier == s.frontier.push(q),
    ensures
        t.inv(Focus::On { point: p, handled: k + 1 }),
{
    let f = Focus::On { point: p, handled: k };
    let g = Focus::On { point: p, handled: k + 1 };
    lemma_neighbor_contained(s.topology(), p, k);
    assert(t.frontier[s.frontier.len() as int] == q);
    assert forall|x: Point| s.frontier.contains(x) implies t.frontier.contains(x) by {
        let i = choose|i: int| 0 <= i < s.frontier.len() && s.frontier[i] == x;
        assert(t.frontier[i] == x);
    }
    assert(t.queued());
    assert forall|x: Point| t.on(x) implies #[trigger] t.owned_at(x) by {
        assert(s.owned_at(x));
    }
    assert(t.links_sound()) by {
        assert forall|c: int, d: usize|
            0 <= c < t.links.len() && d < t.links.len() && #[trigger] t.links[c].contains(
                d,
            ) implies t.colors[c] != t.colors[d as int] && t.touching(c, d as int) by {
            lemma_touching_kept(s, t, c, d as int);
        }
    }
    assert forall|x: Point, j: int|
        t.on(x) && 0 <= j < 8 && t.started(g, x, j) implies #[trigger] t.reach_ok(x, j) by {
        if x != p || j < k {
            assert(s.started(f, x, j));
            assert(s.reach_ok(x, j));
        }
    }
    assert forall|x: Point| t.on(x) implies #[trigger] t.border_ok(g, x) by {
        assert(s.border_ok(f, x));
        if x == p {
            lemma_marked_step(s, t, p, k);
        } else {
            lemma_marked_kept(s, t, f, g, x);
        }
    }
    assert forall|x: Point, j: int|
        t.on(x) && 0 <= j < 8 && t.started(g, x, j) implies #[trigger] t.link_ok(g, x, j) by {
        if x != p || j < k {
            assert(s.started(f, x, j));
            assert(s.link_ok(f, x, j));
        }
    }
    assert(t.connected());
    assert(t.rooted());
}

/// A neighbour of the focus's colour that already has an owner belongs to the
/// newest region, and nothing changes.
pub proof fn lemma_visit_same(s: Fill, p: Point, k: int, q: Point)
    requires
        0 <= k < 8,
        s.inv(Focus::On { point: p, handled: k }),
        s.topology().neighbor(p, k) == Some(q),
        s.owner(q) is Some,
        s.tone(q) == s.tone(p),
    ensures
        s.inv(Focus::On { point: p, handled: k + 1 }),
        s.owner(q) == s.owner(p),
{
    let f = Focus::On { point: p, handled: k };
    let g = Focus::On { point: p, handled: k + 1 };
    let last = s.last();
    lemma_neighbor_contained(s.topology(), p, k);
    lemma_neighbor_symmetric(s.topology(), p, k);
    assert(s.owned_at(q));
    assert(s.owner(q) == s.owner(p)) by {
        if s.owner(q) != s.owner(p) {
            assert(s.started(f, q, 7 - k));
            assert(s.reach_ok(q, 7 - k));
        }
    }
    assert forall|x: Point, j: int|
        s.on(x) && 0 <= j < 8 && s.started(g, x, j) implies #[trigger] s.reach_ok(x, j) by {
        if x != p || j < k {
            assert(s.started(f, x, j));
        }
    }
    assert forall|x: Point| s.on(x) implies #[trigger] s.border_ok(g, x) by {
        assert(s.border_ok(f, x));
        if x == p {
            lemma_marked_step(s, s, p, k);
        } else {
            lemma_marked_kept(s, s, f, g, x);
        }
    }
    assert forall|x: Point, j: int|
        s.on(x) && 0 <= j < 8 && s.started(g, x, j) implies #[trigger] s.link_ok(g, x, j) by {
        if x != p || j < k {
            assert(s.started(f, x, j));
            assert(s.link_ok(f, x, j));
        }
    }
}

/// A neighbour of another colour that already has an owner marks the focus as
/// contour and makes the two regions neighbours.
pub proof fn lemma_visit_link(s: Fill, t: Fill, p: Point, k: int, q: Point)
    requires
        0 <= k < 8,
        s.inv(Focus::On { point: p, handled: k }),
        s.topology().neighbor(p, k) == Some(q),
        s.owner(q) is Some,
        s.tone(q) != s.tone(p),
        s.marks(t, p),
        t.image == s.image,
        t.wrap == s.wrap,
        t.map == s.map,
        t.colors == s.colors,
        t.pixels == s.pixels,
        t.frontier == s.frontier,
        t.pending == s.pending,
        t.links == s.links_with(s.last(), s.owner(q).unwrap() as int),
    ensures
        t.inv(Focus::On { point: p, handled: k + 1 }),
{
    let f = Focus::On { point: p, handled: k };
    let g = Focus::On { point: p, handled: k + 1 };
    let last = s.last();
    let d = s.owner(q).unwrap();
    lemma_neighbor_contained(s.topology(), p, k);
    lemma_neighbor_symmetric(s.topology(), p, k);
    assert(s.owned_at(p));
    assert(s.owned_at(q));
    assert(d != last);
    assert forall|c: int, e: usize|
        0 <= c < s.links.len() && #[trigger] s.links[c].contains(e) implies t.links[c].contains(
        e,
    ) by {
        let i = choose|i: int| 0 <= i < s.links[c].len() && s.links[c][i] == e;
        assert(t.links[c][i] == e);
    }
    assert forall|c: int, e: usize|
        0 <= c < t.links.len() && #[trigger] t.links[c].contains(e) implies s.links[c].contains(e)
        || (c == last && e == d) || (c == d && e == last) by {
        let i = choose|i: int| 0 <= i < t.links[c].len() && t.links[c][i] == e;
        if i < s.links[c].len() {
            assert(s.links[c][i] == e);
        }
    }
    assert(t.links[last as int].contains(d)) by {
        if !s.links[last].contains(d) {
            assert(t.links[last][s.links[last].len() as int] == d);
        }
    }
    assert(t.links[d as int].contains(last as usize)) by {
        if !s.links[last].contains(d) {
            assert(t.links[d as int][s.links[d as int].len() as int] == last);
        }
    }
    assert(t.shaped());
    assert forall|x: Point| t.on(x) implies #[trigger] t.owned_at(x) by {
        assert(s.owned_at(x));
    }
    assert(t.graph_ok()) by {
        if !s.links[last].contains(d) {
            assert(!s.links[d as int].contains(last as usize));
            assert forall|c: int, i: int|
                0 <= c < t.links.len() && 0 <= i < t.links[c].len() implies (
            #[trigger] t.links[c][i]) < t.links.len() && t.links[c][i] != c by {
                if i < s.links[c].len() {
                    assert(s.links[c][i] < s.links.len());
                }
            }
            assert forall|c: int| 0 <= c < t.links.len() implies (
            #[trigger] t.links[c]).no_duplicates() by {
                assert(s.links[c].no_duplicates());
            }
        }
    }
    assert(t.links_sound()) by {
        assert forall|c: int, e: usize|
            0 <= c < t.links.len() && e < t.links.len() && #[trigger] t.links[c].contains(
                e,
            ) implies t.colors[c] != t.colors[e as int] && t.touching(c, e as int) by {
            if s.links[c].contains(e) {
                lemma_touching_kept(s, t, c, e as int);
            } else if c == last {
                assert(t.topology().neighbor(p, k) == Some(q));
            } else {
                assert(t.topology().neighbor(q, 7 - k) == Some(p));
            }
        }
    }
    assert forall|x: Point, j: int|
        t.on(x) && 0 <= j < 8 && t.started(g, x, j) implies #[trigger] t.reach_ok(x, j) by {
        if x != p || j < k {
            assert(s.started(f, x, j));
            assert(s.reach_ok(x, j));
        }
    }
    assert forall|x: Point| t.on(x) implies #[trigger] t.border_ok(g, x) by {
        assert(s.border_ok(f, x));
        if x == p {
            lemma_marked_step(s, t, p, k);
        } else {
            lemma_marked_kept(s, t, f, g, x);
        }
    }
    assert forall|x: Point, j: int|
        t.on(x) && 0 <= j < 8 && t.started(g, x, j) implies #[trigger] t.link_ok(g, x, j) by {
        lemma_neighbor_contained(s.topology(), x, j);
        assert(s.owned_at(x));
        if x != p || j < k {
            assert(s.started(f, x, j));
            assert(s.link_ok(f, x, j));
            if let Some(y) = s.topology().neighbor(x, j) {
                assert(s.owned_at(y));
            }
        }
    }
    assert(t.connected());
}

/// Once all eight neighbours of the focus have been looked at, the fill can
/// move on.
pub proof fn lemma_leave_point(s: Fill, p: Point)
    requires
        s.inv(Focus::On { point: p, handled: 8 }),
    ensures
        s.inv(Focus::Idle),
{
    let f = Focus::On { point: p, handled: 8 };
    let g = Focus::Idle;
    assert forall|x: Point, j: int|
        s.on(x) && 0 <= j < 8 && s.started(g, x, j) implies #[trigger] s.reach_ok(x, j) by {
        assert(s.started(f, x, j));
    }
    assert forall|x: Point| s.on(x) implies #[trigger] s.border_ok(g, x) by {
        assert(s.border_ok(f, x));
        lemma_marked_kept(s, s, f, g, x);
    }
    assert forall|x: Point, j: int|
        s.on(x) && 0 <= j < 8 && s.started(g, x, j) implies #[trigger] s.link_ok(g, x, j) by {
        assert(s.started(f, x, j));
        assert(s.link_ok(f, x, j));
        lemma_neighbor_contained(s.topology(), x, j);
        if let Some(y) = s.topology().neighbor(x, j) {
            if y == p && s.tone(y) != s.tone(x) && s.listed(y) {
                lemma_neighbor_symmetric(s.topology(), x, j);
                assert(s.started(f, p, 7 - j));
                assert(s.link_ok(f, p, 7 - j));
                assert(s.owned_at(x));
                assert(s.owned_at(p));
                let c = s.owner(p).unwrap();
                let d = s.owner(x).unwrap();
                assert(s.links[c as int].contains(d));
            }
        }
    }
}

// ----- what a finished fill has found -----

/// A finished fill has listed every pixel: the origin is owned, and whatever
/// is listed has all its neighbours listed.
proof fn lemma_reached(s: Fill, x: int, y: int)
    requires
        s.finished(),
        0 <= x < s.image.width,
        0 <= y < s.image.height,
    ensures
        s.listed(Point { x: x as i32, y: y as i32 }),
    decreases x + y,
{
    let f = Focus::Idle;
    let p = Point { x: x as i32, y: y as i32 };
    lemma_wrap_coordinate(x, s.image.width as int);
    lemma_wrap_coordinate(y, s.image.height as int);
    if x > 0 {
        let o = Point { x: (x - 1) as i32, y: y as i32 };
        lemma_reached(s, x - 1, y);
        assert(s.topology().neighbor(o, 4) == Some(p));
        assert(s.started(f, o, 4));
        assert(s.reach_ok(o, 4));
    } else if y > 0 {
        let o = Point { x: x as i32, y: (y - 1) as i32 };
        lemma_reached(s, x, y - 1);
        assert(s.topology().neighbor(o, 6) == Some(p));
        assert(s.started(f, o, 6));
        assert(s.reach_ok(o, 6));
    } else {
        assert(p == origin());
    }
    assert(s.owned_at(p));
}

/// A finished fill has found the segmentation of its image and drawn its
/// contours.
pub proof fn lemma_finished_fill(s: Fill)
    requires
        s.finished(),
    ensures
        s.regions().segments(s.image, s.wrap),
        is_contour_overlay(s.image, s.wrap, s.borders),
        s.pixels.len() > 0,
        s.pixels[0].len() > 0,
        s.pixels[0][0] == origin(),
{
    let f = Focus::Idle;
    let r = s.regions();
    let t = s.topology();
    assert(t == topology_of(s.image, s.wrap));
    assert forall|p: Point| s.on(p) implies s.listed(p) && s.owned_at(p) by {
        lemma_reached(s, p.x as int, p.y as int);
        assert(s.owned_at(p));
    }
    assert forall|c: int, p: Point| #[trigger] r.holds(c, p) implies s.on(p) && s.owner(p) == Some(
        c as usize,
    ) by {
        let i = choose|i: int| 0 <= i < s.pixels[c].len() && s.pixels[c][i] == p;
        assert(s.on(s.pixels[c][i]));
    }
    assert(r.covers(s.image)) by {
        assert forall|p: Point| s.image.contains(p) implies exists|c: int| #[trigger]
            r.holds(c, p) by {
            assert(s.listed(p) && s.owned_at(p));
            assert(r.holds(s.owner(p).unwrap() as int, p));
        }
    }
    assert(r.disjoint());
    assert(count_listed(r.pixels) == s.image.width * s.image.height) by {
        assert forall|i: int| 0 <= i < s.map.len() implies s.map[i] is Some by {
            lemma_index_onto(s.image.width as int, s.image.height as int, i);
            let p = Point {
                x: (i % (s.image.width as int)) as i32,
                y: (i / (s.image.width as int)) as i32,
            };
            assert(s.listed(p));
        }
        lemma_count_assigned_full(s.map);
    }
    assert(r.homogeneous(s.image)) by {
        assert forall|c: int, i: int|
            0 <= c < r.pixels.len() && 0 <= i < r.pixels[c].len() implies s.image.color(
            #[trigger] r.pixels[c][i],
        ) == r.colors[c] by {
            assert(s.on(s.pixels[c][i]));
            assert(s.owned_at(s.pixels[c][i]));
        }
    }
    assert(r.maximal(s.image, s.wrap)) by {
        assert forall|c: int, p: Point, k: int|
            0 <= k < 8 && #[trigger] r.holds(c, p) && !(#[trigger] edge(
                s.image,
                s.wrap,
                p,
                k,
            )) implies r.holds(c, t.neighbor(p, k).unwrap()) by {
            lemma_neighbor_contained(t, p, k);
            assert(s.started(f, p, k));
            assert(s.reach_ok(p, k));
            let q = t.neighbor(p, k).unwrap();
            assert(s.listed(q));
        }
    }
    assert(r.connected(t)) by {
        assert forall|c: int| 0 <= c < r.pixels.len() implies (#[trigger] r.pixels[c]).len()
            > 0 by {
            if c < r.pixels.len() - 1 {
                assert(s.pixels[c].len() > 0);
            }
        }
    }
    assert(r.adjacency(t)) by {
        assert forall|c: int, d: usize| 0 <= c < r.links.len() && d < r.links.len() implies (
        #[trigger] r.links[c].contains(d) <==> c != d && r.touching(t, c, d as int)) && (
        r.links[c].contains(d) ==> r.colors[c] != r.colors[d as int]) by {
            if r.links[c].contains(d) {
                assert(s.touching(c, d as int));
                let (p, k) = choose|p: Point, k: int|
                    s.on(p) && 0 <= k < 8 && s.owner(p) == Some(c as usize) && (
                    #[trigger] s.topology().neighbor(p, k) matches Some(q) && s.owner(q) == Some(
                        d,
                    ));
                lemma_neighbor_contained(t, p, k);
                let q = t.neighbor(p, k).unwrap();
                assert(s.listed(p) && s.listed(q));
                assert(r.holds(c, p) && r.holds(d as int, q));
            }
            if c != d && r.touching(t, c, d as int) {
                let (p, k) = choose|p: Point, k: int|
                    0 <= k < 8 && r.holds(c, p) && (#[trigger] t.neighbor(p, k) matches Some(q)
                        && r.holds(d as int, q));
                let q = t.neighbor(p, k).unwrap();
                assert(r.holds(d as int, q));
                assert(s.started(f, p, k));
                assert(s.reach_ok(p, k));
                assert(s.link_ok(f, p, k));
            }
        }
    }
    assert(is_contour_overlay(s.image, s.wrap, s.borders)) by {
        assert forall|p: Point| s.image.contains(p) implies #[trigger] s.borders.alpha(p) == 255
            && s.borders.color(p) == contour_color(on_contour(s.image, s.wrap, p)) by {
            assert(s.border_ok(f, p));
            assert(s.listed(p));
            if s.marked(f, p) {
                let k = choose|k: int|
                    0 <= k < 8 && s.started(f, p, k) && #[trigger] s.edge_at(p, k);
                assert(edge(s.image, s.wrap, p, k));
            }
            if on_contour(s.image, s.wrap, p) {
                let k = choose|k: int| 0 <= k < 8 && #[trigger] edge(s.image, s.wrap, p, k);
                assert(s.started(f, p, k) && s.edge_at(p, k));
            }
        }
    }
}

} // verus!
