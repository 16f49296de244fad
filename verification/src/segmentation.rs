//! What it means for a list of cells to be the segmentation of an image, and
//! what follows from it.

use crate::image::{Color, Image, Point};
use crate::topology::Topology;
use crate::world::Cell;
use vstd::prelude::*;

verus! {

/// Colour of an overlay pixel that lies on no region's contour.
pub open spec fn blank() -> Color {
    Color { red: 255, green: 255, blue: 255 }
}

/// Colour of an overlay pixel that lies on a region's contour.
pub open spec fn contour() -> Color {
    Color { red: 127, green: 127, blue: 127 }
}

/// The shape of `image`, with its edges glued or not.
pub open spec fn topology_of(image: Image, wrap: bool) -> Topology {
    Topology { width: image.width as int, height: image.height as int, wrap }
}

/// The `k`-th neighbour of `p` is off the image or differs from `p` in colour.
pub open spec fn edge(image: Image, wrap: bool, p: Point, k: int) -> bool {
    match topology_of(image, wrap).neighbor(p, k) {
        None => true,
        Some(q) => image.color(q) != image.color(p),
    }
}

/// Colour of an overlay pixel, by whether it lies on a contour.
pub open spec fn contour_color(on_contour: bool) -> Color {
    if on_contour {
        contour()
    } else {
        blank()
    }
}

/// `p` touches the edge of the image or a pixel of another colour.
pub open spec fn on_contour(image: Image, wrap: bool, p: Point) -> bool {
    exists|k: int| 0 <= k < 8 && #[trigger] edge(image, wrap, p, k)
}

/// `overlay` draws the contours of `image`: grey where a pixel touches the
/// image's edge or another colour, white elsewhere, opaque everywhere.
pub open spec fn is_contour_overlay(image: Image, wrap: bool, overlay: Image) -> bool {
    &&& overlay.wf()
    &&& overlay.width == image.width
    &&& overlay.height == image.height
    &&& forall|p: Point|
        image.contains(p) ==> #[trigger] overlay.alpha(p) == 255 && overlay.color(p)
            == contour_color(on_contour(image, wrap, p))
}

/// Number of points over all the lists of `pixels`.
pub open spec fn count_listed(pixels: Seq<Seq<Point>>) -> nat
    decreases pixels.len(),
{
    if pixels.len() == 0 {
        0
    } else {
        count_listed(pixels.drop_last()) + pixels.last().len()
    }
}

/// Every link names another region, once, and is returned.
pub open spec fn graph_ok(links: Seq<Seq<usize>>) -> bool {
    &&& forall|c: int, i: int|
        0 <= c < links.len() && 0 <= i < links[c].len() ==> (#[trigger] links[c][i]) < links.len()
            && links[c][i] != c
    &&& forall|c: int| 0 <= c < links.len() ==> (#[trigger] links[c]).no_duplicates()
    &&& forall|c: int, d: usize|
        0 <= c < links.len() && d < links.len() && #[trigger] links[c].contains(d)
            ==> links[d as int].contains(c as usize)
}

/// `q` is a neighbour of one of the first `j` points of `found`.
pub open spec fn found_from(t: Topology, found: Seq<Point>, j: int, q: Point) -> bool {
    exists|i: int| 0 <= i < j && i < found.len() && t.adjacent(#[trigger] found[i], q)
}

/// The regions of an image, by index: colour, points and neighbouring regions.
pub struct Regions {
    pub colors: Seq<Color>,
    pub pixels: Seq<Seq<Point>>,
    pub links: Seq<Seq<usize>>,
}

impl Regions {
    /// The regions that `cells` describe.
    pub open spec fn of(cells: Seq<Cell>) -> Regions {
        Regions {
            colors: Seq::new(cells.len(), |c: int| cells[c].color),
            pixels: Seq::new(cells.len(), |c: int| cells[c].pixels@),
            links: Seq::new(cells.len(), |c: int| cells[c].neighbors@),
        }
    }

    /// Number of regions.
    pub open spec fn len(self) -> nat {
        self.colors.len()
    }

    /// Region `c` holds `p`.
    pub open spec fn holds(self, c: int, p: Point) -> bool {
        0 <= c < self.pixels.len() && self.pixels[c].contains(p)
    }

    /// Some pixel of region `c` has a Moore neighbour in region `d`.
    pub open spec fn touching(self, t: Topology, c: int, d: int) -> bool {
        exists|p: Point, k: int|
            0 <= k < 8 && self.holds(c, p) && (#[trigger] t.neighbor(p, k) matches Some(q)
                && self.holds(d, q))
    }

    /// All the lists have one length.
    pub open spec fn wf(self) -> bool {
        self.pixels.len() == self.colors.len() && self.links.len() == self.colors.len()
    }

    /// Every pixel of `image` is held by a region, and every point held is a
    /// pixel of `image`.
    pub open spec fn covers(self, image: Image) -> bool {
        &&& forall|p: Point| image.contains(p) ==> exists|c: int| #[trigger] self.holds(c, p)
        &&& forall|c: int, i: int|
            0 <= c < self.pixels.len() && 0 <= i < self.pixels[c].len() ==> image.contains(
                #[trigger] self.pixels[c][i],
            )
    }

    /// No point is held twice, neither by two regions nor twice by one.
    pub open spec fn disjoint(self) -> bool {
        &&& forall|c: int, d: int, p: Point|
            #[trigger] self.holds(c, p) && #[trigger] self.holds(d, p) ==> c == d
        &&& forall|c: int|
            0 <= c < self.pixels.len() ==> (#[trigger] self.pixels[c]).no_duplicates()
    }

    /// Every point held by a region has the region's colour in `image`.
    pub open spec fn homogeneous(self, image: Image) -> bool {
        forall|c: int, i: int|
            0 <= c < self.pixels.len() && 0 <= i < self.pixels[c].len() ==> image.color(
                #[trigger] self.pixels[c][i],
            ) == self.colors[c]
    }

    /// A pixel and a Moore neighbour of the same colour are held by the same
    /// region.
    pub open spec fn maximal(self, image: Image, wrap: bool) -> bool {
        forall|c: int, p: Point, k: int|
            0 <= k < 8 && #[trigger] self.holds(c, p) && !(#[trigger] edge(image, wrap, p, k))
                ==> self.holds(c, topology_of(image, wrap).neighbor(p, k).unwrap())
    }

    /// No region is empty, and each point of a region but the first is a
    /// Moore neighbour of a point listed before it.
    pub open spec fn connected(self, t: Topology) -> bool {
        &&& forall|c: int| 0 <= c < self.pixels.len() ==> (#[trigger] self.pixels[c]).len() > 0
        &&& forall|c: int, j: int|
            0 <= c < self.pixels.len() && 1 <= j < self.pixels[c].len() ==> #[trigger] found_from(
                t,
                self.pixels[c],
                j,
                self.pixels[c][j],
            )
    }

    /// Two regions are linked exactly when they are different regions that
    /// touch; linked regions differ in colour.
    pub open spec fn adjacency(self, t: Topology) -> bool {
        forall|c: int, d: usize|
            0 <= c < self.links.len() && d < self.links.len() ==> (
            #[trigger] self.links[c].contains(d) <==> c != d && self.touching(t, c, d as int)) && (
            self.links[c].contains(d) ==> self.colors[c] != self.colors[d as int])
    }

    /// These regions are the segmentation of `image`: its maximal connected
    /// regions of one colour, each linked to the regions it touches.
    pub open spec fn segments(self, image: Image, wrap: bool) -> bool {
        &&& self.wf()
        &&& self.covers(image)
        &&& self.disjoint()
        &&& count_listed(self.pixels) == image.width * image.height
        &&& self.homogeneous(image)
        &&& self.maximal(image, wrap)
        &&& self.connected(topology_of(image, wrap))
        &&& graph_ok(self.links)
        &&& self.adjacency(topology_of(image, wrap))
    }
}

// ----- what holds of every segmentation -----

/// Every pixel of a segmented image is held by exactly one region, and the
/// regions hold as many points as the image has pixels.
pub proof fn lemma_every_pixel_in_one_region(regions: Regions, image: Image, wrap: bool, p: Point)
    requires
        regions.segments(image, wrap),
        image.contains(p),
    ensures
        exists|c: int| #[trigger] regions.holds(c, p),
        forall|c: int, d: int|
            #[trigger] regions.holds(c, p) && #[trigger] regions.holds(d, p) ==> c == d,
        count_listed(regions.pixels) == image.width * image.height,
{
}

/// Every point held by a region of a segmented image has the region's colour
/// in the image.
pub proof fn lemma_regions_are_of_one_color(
    regions: Regions,
    image: Image,
    wrap: bool,
    c: int,
    p: Point,
)
    requires
        regions.segments(image, wrap),
        regions.holds(c, p),
    ensures
        image.color(p) == regions.colors[c],
{
    let i = choose|i: int| 0 <= i < regions.pixels[c].len() && regions.pixels[c][i] == p;
    assert(image.color(regions.pixels[c][i]) == regions.colors[c]);
}

/// In a segmented image, region `a` lists region `b` as a neighbour exactly
/// when `b` lists `a`.
pub proof fn lemma_adjacency_is_symmetric(
    regions: Regions,
    image: Image,
    wrap: bool,
    a: usize,
    b: usize,
)
    requires
        regions.segments(image, wrap),
        a < regions.len(),
        b < regions.len(),
    ensures
        regions.links[a as int].contains(b) <==> regions.links[b as int].contains(a),
{
}

/// In a segmented image, no region lists itself as a neighbour.
pub proof fn lemma_no_region_borders_itself(regions: Regions, image: Image, wrap: bool, a: usize)
    requires
        regions.segments(image, wrap),
        a < regions.len(),
    ensures
        !regions.links[a as int].contains(a),
{
    if regions.links[a as int].contains(a) {
        let i = choose|i: int|
            0 <= i < regions.links[a as int].len() && regions.links[a as int][i] == a;
        assert(regions.links[a as int][i] != a);
    }
}

} // verus!
