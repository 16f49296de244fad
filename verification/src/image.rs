//! RGBA8 pixel surfaces, the points that address them and the colours they hold.

use vstd::prelude::*;

verus! {

/// An integer pixel coordinate; `(0, 0)` is the top-left corner.
#[derive(Clone, Copy, Debug, PartialEq, Eq, Structural)]
pub struct Point {
    pub x: i32,
    pub y: i32,
}

/// An opaque colour. Alpha is no part of it: two colours are equal when their
/// three channels are.
#[derive(Clone, Copy, Debug, PartialEq, Eq, Structural)]
pub struct Color {
    pub red: u8,
    pub green: u8,
    pub blue: u8,
}

/// A rectangular surface of RGBA8 pixels, row-major, four bytes per pixel.
pub struct Image {
    pub pixel_data: Vec<u8>,
    pub width: u32,
    pub height: u32,
}

impl Image {
    /// The buffer holds exactly four bytes for each of `width * height` pixels.
    pub open spec fn wf(&self) -> bool {
        self.pixel_data@.len() == self.width * self.height * 4
    }

    /// `p` lies on the surface.
    pub open spec fn contains(&self, p: Point) -> bool {
        0 <= p.x < self.width && 0 <= p.y < self.height
    }

    /// Position of `p` in row-major order.
    pub open spec fn index_of(&self, p: Point) -> int {
        p.y * self.width + p.x
    }

    /// The colour stored for `p`.
    pub open spec fn color(&self, p: Point) -> Color {
        let offset = self.index_of(p) * 4;
        Color {
            red: self.pixel_data@[offset],
            green: self.pixel_data@[offset + 1],
            blue: self.pixel_data@[offset + 2],
        }
    }

    /// The alpha byte stored for `p`.
    pub open spec fn alpha(&self, p: Point) -> u8 {
        self.pixel_data@[self.index_of(p) * 4 + 3]
    }

    /// Row-major position of `point`. No bounds are checked beyond what keeps
    /// the arithmetic inside `usize`.
    pub fn linear_index(&self, point: Point) -> (index: usize)
        requires
            0 <= point.x,
            0 <= point.y,
            point.y * self.width + point.x <= usize::MAX,
        ensures
            index == self.index_of(point),
    {
        assert(point.y * self.width >= 0) by (nonlinear_arith)
            requires
                point.y >= 0,
                self.width >= 0,
        ;
        point.y as usize * self.width as usize + point.x as usize
    }

    /// A surface of the given size with every byte at 255: opaque white.
    pub fn white(width: u32, height: u32) -> (image: Image)
        requires
            width * height * 4 <= usize::MAX,
        ensures
            image.wf(),
            image.width == width,
            image.height == height,
            forall|i: int| 0 <= i < image.pixel_data@.len() ==> image.pixel_data@[i] == 255,
    {
        assert(0 <= width * height <= width * height * 4) by (nonlinear_arith);
        let bytes: usize = width as usize * height as usize * 4;
        let mut pixel_data: Vec<u8> = Vec::with_capacity(bytes);
        let mut filled: usize = 0;
        while filled < bytes
            invariant
                filled <= bytes,
                pixel_data@.len() == filled,
                forall|i: int| 0 <= i < filled ==> pixel_data@[i] == 255,
            decreases bytes - filled,
        {
            pixel_data.push(255u8);
            filled += 1;
        }
        Image { pixel_data, width, height }
    }

    /// Takes over a decoded RGBA8 buffer. The buffer is accepted when it holds
    /// four bytes per pixel, and refused otherwise.
    pub fn from_rgba8(width: u32, height: u32, pixel_data: Vec<u8>) -> (image: Option<Image>)
        ensures
            image is Some <==> pixel_data@.len() == width * height * 4,
            image matches Some(img) ==> img.width == width && img.height == height
                && img.pixel_data@ == pixel_data@ && img.wf(),
    {
        assert(0 <= width * height <= 0xffff_ffff * 0xffff_ffff) by (nonlinear_arith)
            requires
                0 <= width <= 0xffff_ffff,
                0 <= height <= 0xffff_ffff,
        ;
        let pixels: u64 = width as u64 * height as u64;
        if pixel_data.len() as u128 == pixels as u128 * 4 {
            Some(Image { pixel_data, width, height })
        } else {
            None
        }
    }

    /// The colour at `point`, which must lie on the surface.
    pub fn color_at(&self, point: Point) -> (color: Color)
        requires
            self.wf(),
            self.contains(point),
        ensures
            color == self.color(point),
    {
        proof {
            lemma_index_in_range(self.width as int, self.height as int, point);
            assert(self.pixel_data.len() == self.width * self.height * 4);
        }
        let pixel_offset = self.linear_index(point) * 4;
        Color {
            red: self.pixel_data[pixel_offset],
            green: self.pixel_data[pixel_offset + 1],
            blue: self.pixel_data[pixel_offset + 2],
        }
    }

    /// Stores `color` at `point`, which must lie on the surface. The alpha
    /// byte of the pixel and every other pixel stay as they were.
    pub fn set_color_at(&mut self, point: Point, color: Color)
        requires
            old(self).wf(),
            old(self).contains(point),
        ensures
            final(self).wf(),
            final(self).width == old(self).width,
            final(self).height == old(self).height,
            final(self).pixel_data@ == old(self).pixel_data@.update(
                old(self).index_of(point) * 4,
                color.red,
            ).update(old(self).index_of(point) * 4 + 1, color.green).update(
                old(self).index_of(point) * 4 + 2,
                color.blue,
            ),
            final(self).color(point) == color,
            forall|q: Point|
                old(self).contains(q) && q != point ==> #[trigger] final(self).color(q) == old(
                    self,
                ).color(q),
            forall|q: Point|
                old(self).contains(q) ==> #[trigger] final(self).alpha(q) == old(self).alpha(q),
    {
        proof {
            lemma_index_in_range(self.width as int, self.height as int, point);
            assert(self.pixel_data.len() == self.width * self.height * 4);
        }
        let pixel_offset = self.linear_index(point) * 4;
        self.pixel_data[pixel_offset] = color.red;
        self.pixel_data[pixel_offset + 1] = color.green;
        self.pixel_data[pixel_offset + 2] = color.blue;
        proof {
            assert forall|q: Point|
                old(self).contains(q) && q != point implies #[trigger] self.color(q) == old(
                self,
            ).color(q) by {
                lemma_index_in_range(self.width as int, self.height as int, q);
                lemma_index_injective(self.width as int, point, q);
            }
            assert forall|q: Point| old(self).contains(q) implies #[trigger] self.alpha(q) == old(
                self,
            ).alpha(q) by {
                lemma_index_in_range(self.width as int, self.height as int, q);
            }
        }
    }
}

/// Row-major indices of points on a `width` by `height` surface stay below
/// `width * height`.
pub proof fn lemma_index_in_range(width: int, height: int, p: Point)
    requires
        0 <= p.x < width,
        0 <= p.y < height,
    ensures
        0 <= p.y * width + p.x < width * height,
{
    assert(0 <= p.y * width && p.y * width + width <= height * width) by (nonlinear_arith)
        requires
            0 <= p.y < height,
            0 < width,
    ;
    assert(height * width == width * height) by (nonlinear_arith);
}

/// Two points of one surface with the same row-major index are the same point.
pub proof fn lemma_index_injective(width: int, p: Point, q: Point)
    requires
        0 <= p.x < width,
        0 <= q.x < width,
        0 <= p.y,
        0 <= q.y,
    ensures
        p.y * width + p.x == q.y * width + q.x ==> p == q,
{
    if p.y < q.y {
        assert(p.y * width + width <= q.y * width) by (nonlinear_arith)
            requires
                p.y + 1 <= q.y,
                0 < width,
        ;
    } else if q.y < p.y {
        assert(q.y * width + width <= p.y * width) by (nonlinear_arith)
            requires
                q.y + 1 <= p.y,
                0 < width,
        ;
    }
}

/// Every index below `width * height` is the row-major index of a pixel.
pub proof fn lemma_index_onto(width: int, height: int, i: int)
    requires
        0 < width,
        0 <= i < width * height,
    ensures
        0 <= i % width < width,
        0 <= i / width < height,
        (i / width) * width + i % width == i,
{
    vstd::arithmetic::div_mod::lemma_fundamental_div_mod(i, width);
    vstd::arithmetic::div_mod::lemma_mod_bound(i, width);
    assert((i / width) * width == width * (i / width)) by (nonlinear_arith);
    assert(0 <= i / width < height) by (nonlinear_arith)
        requires
            0 < width,
            0 <= i < width * height,
            i == width * (i / width) + i % width,
            0 <= i % width < width,
    ;
}

} // verus!
