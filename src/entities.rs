//! Scene entities that the geometric core reads: triangles, colours and
//! textures.
use vstd::prelude::*;

use crate::geometry::Vector3d;

verus! {

/// A triangle of the scene: its three vertex positions. Shading attributes
/// (texture and normal coordinates, material) live beside it, indexed by the
/// triangle's position in the octree's triangle store.
#[derive(Clone, Copy, Debug, PartialEq, Eq, Structural)]
pub struct Triangle {
    pub v1: Vector3d,
    pub v2: Vector3d,
    pub v3: Vector3d,
}


#[derive(Clone, Copy, Debug, PartialEq, Eq, Structural)]
pub struct Color {
    pub r: u8,
    pub g: u8,
    pub b: u8,
}

/// Sums of the red, green and blue channels of a sequence of colours.
pub open spec fn sum_r(s: Seq<Color>) -> int
    decreases s.len(),
{
    if s.len() == 0 { 0 } else { sum_r(s.drop_last()) + s.last().r }
}

pub open spec fn sum_g(s: Seq<Color>) -> int
    decreases s.len(),
{
    if s.len() == 0 { 0 } else { sum_g(s.drop_last()) + s.last().g }
}

pub open spec fn sum_b(s: Seq<Color>) -> int
    decreases s.len(),
{
    if s.len() == 0 { 0 } else { sum_b(s.drop_last()) + s.last().b }
}

proof fn lemma_sums_bounded(s: Seq<Color>)
    ensures
        0 <= sum_r(s) <= 255 * s.len(),
        0 <= sum_g(s) <= 255 * s.len(),
        0 <= sum_b(s) <= 255 * s.len(),
    decreases s.len(),
{
    if s.len() > 0 {
        lemma_sums_bounded(s.drop_last());
    }
}

proof fn lemma_mean_fits(sum: int, n: int)
    requires
        n > 0,
        0 <= sum <= 255 * n,
    ensures
        0 <= sum / n <= 255,
{
    assert(sum / n <= 255) by (nonlinear_arith)
        requires
            n > 0,
            0 <= sum <= 255 * n,
    ;
    assert(0 <= sum / n) by (nonlinear_arith)
        requires
            n > 0,
            0 <= sum,
    ;
}

impl Color {
    /// The colour packed as `0x00RRGGBB`.
    pub open spec fn packed(&self) -> int {
        self.r * 65536 + self.g * 256 + self.b
    }

    /// The colour as a `0x00RRGGBB` pixel value.
    pub fn to_u32(&self) -> (r: u32)
        ensures
            r == self.packed(),
    {
        (self.r as u32) * 65536 + (self.g as u32) * 256 + (self.b as u32)
    }

    /// The channel-wise mean of the colours, rounded down.
    pub fn mix(colors: &Vec<Color>) -> (r: Color)
        requires
            colors.len() > 0,
        ensures
            r.r == sum_r(colors@) / colors.len() as int,
            r.g == sum_g(colors@) / colors.len() as int,
            r.b == sum_b(colors@) / colors.len() as int,
    {
        let mut r: u128 = 0;
        let mut g: u128 = 0;
        let mut b: u128 = 0;
        let mut i: usize = 0;
        while i < colors.len()
            invariant
                0 <= i <= colors@.len(),
                r == sum_r(colors@.subrange(0, i as int)),
                g == sum_g(colors@.subrange(0, i as int)),
                b == sum_b(colors@.subrange(0, i as int)),
            decreases colors@.len() - i,
        {
            proof {
                lemma_sums_bounded(colors@.subrange(0, i as int));
                assert(colors@.subrange(0, i as int + 1).drop_last() =~= colors@.subrange(0, i as int));
            }
            r = r + colors[i].r as u128;
            g = g + colors[i].g as u128;
            b = b + colors[i].b as u128;
            i = i + 1;
        }
        proof {
            assert(colors@.subrange(0, colors@.len() as int) =~= colors@);
            lemma_sums_bounded(colors@);
            lemma_mean_fits(r as int, colors.len() as int);
            lemma_mean_fits(g as int, colors.len() as int);
            lemma_mean_fits(b as int, colors.len() as int);
        }
        let n = colors.len() as u128;
        Color { r: (r / n) as u8, g: (g / n) as u8, b: (b / n) as u8 }
    }
}

/// An image: `width * height` colours, row after row.
pub struct Texture {
    pub colours: Vec<Color>,
    pub width: usize,
    pub height: usize,
}

impl Texture {
    pub open spec fn wf(&self) -> bool {
        self.width > 0 && self.height > 0 && self.colours.len() == self.width * self.height
    }

    /// Index in `colours` of the texel at column `x`, row `y`, each wrapped
    /// around the texture's size.
    pub open spec fn texel_index(&self, x: int, y: int) -> int {
        (y % self.height as int) * self.width + (x % self.width as int)
    }

    /// The texel at column `x`, row `y`, each wrapped around the texture's
    /// size.
    pub fn texel(&self, x: usize, y: usize) -> (r: Color)
        requires
            self.wf(),
        ensures
            r == self.colours@[self.texel_index(x as int, y as int)],
    {
        let xi = x % self.width;
        let yi = y % self.height;
        proof {
            assert(yi * self.width + xi < self.width * self.height) by (nonlinear_arith)
                requires
                    yi < self.height,
                    xi < self.width,
            ;
        }
        self.colours[yi * self.width + xi]
    }
}

} // verus!
