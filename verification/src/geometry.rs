//! Exact screen-to-clip-space and atlas-to-texture-space coordinate
//! conversion. Coordinates are kept as exact fractions (integer numerator
//! over integer denominator) so that the normalization formula can be
//! stated and proved precisely; callers divide when they need a float.

use vstd::prelude::*;

use crate::atlas::RectPx;

verus! {

/// An exact fraction: `num / den`. The denominator is always a screen or
/// atlas dimension, so it is positive.
#[derive(Clone, Copy, Debug, PartialEq, Eq, Structural)]
pub struct Frac {
    pub num: i64,
    pub den: u64,
}

/// An RGBA color, one byte per channel.
#[derive(Clone, Copy, Debug, PartialEq, Eq, Structural)]
pub struct Rgba {
    pub r: u8,
    pub g: u8,
    pub b: u8,
    pub a: u8,
}

/// One textured, colored vertex of a glyph quad: a clip-space position
/// and a normalized texture coordinate, both exact fractions.
#[derive(Clone, Copy, Debug, PartialEq, Eq, Structural)]
pub struct Vertex {
    pub pos_x: Frac,
    pub pos_y: Frac,
    pub tex_u: Frac,
    pub tex_v: Frac,
    pub color: Rgba,
}

/// The clip-space coordinate of screen pixel `px` on an axis of `dim`
/// pixels: `px / dim * 2 - 1`, as the exact fraction `(2*px - dim) / dim`.
pub open spec fn spec_clip(px: int, dim: int) -> Frac {
    Frac { num: (2 * px - dim) as i64, den: dim as u64 }
}

/// The normalized texture coordinate of atlas pixel `px` on an axis of
/// `dim` pixels: the exact fraction `px / dim`.
pub open spec fn spec_uv(px: int, dim: int) -> Frac {
    Frac { num: px as i64, den: dim as u64 }
}

/// Converts a screen pixel coordinate to a clip-space coordinate. A
/// screen of `dim` pixels maps onto the clip-space interval [-1, 1].
pub fn clip_frac(px: i64, dim: u32) -> (r: Frac)
    requires
        1 <= dim,
        -0x2000_0000_0000_0000 <= px <= 0x2000_0000_0000_0000,
    ensures
        r == spec_clip(px as int, dim as int),
        r.num == 2 * px - dim,
        r.den == dim,
{
    Frac { num: 2 * px - (dim as i64), den: dim as u64 }
}

/// Converts an atlas pixel coordinate to a normalized texture coordinate.
pub fn uv_frac(px: usize, dim: usize) -> (r: Frac)
    requires
        1 <= dim <= 0xFFFF_FFFF,
        px <= dim,
    ensures
        r == spec_uv(px as int, dim as int),
        r.num == px,
        r.den == dim,
{
    Frac { num: px as i64, den: dim as u64 }
}

/// The six vertices (two triangles) of one glyph quad: screen pixel
/// rectangle `(sx0, sy0)`-`(sx1, sy1)` on a `sw` by `sh` screen, textured
/// by atlas pixel rectangle `(ux0, uy0)`-`(ux1, uy1)` of an `aw` by `ah`
/// atlas.
pub open spec fn quad_vertices(
    sx0: int, sy0: int, sx1: int, sy1: int,
    ux0: int, uy0: int, ux1: int, uy1: int,
    sw: int, sh: int, aw: int, ah: int,
    color: Rgba,
) -> Seq<Vertex> {
    let xmin = spec_clip(sx0, sw);
    let xmax = spec_clip(sx1, sw);
    let ymin = spec_clip(sy0, sh);
    let ymax = spec_clip(sy1, sh);
    let umin = spec_uv(ux0, aw);
    let umax = spec_uv(ux1, aw);
    let vmin = spec_uv(uy0, ah);
    let vmax = spec_uv(uy1, ah);
    seq![
        Vertex { pos_x: xmin, pos_y: ymax, tex_u: umin, tex_v: vmax, color },
        Vertex { pos_x: xmin, pos_y: ymin, tex_u: umin, tex_v: vmin, color },
        Vertex { pos_x: xmax, pos_y: ymin, tex_u: umax, tex_v: vmin, color },
        Vertex { pos_x: xmax, pos_y: ymin, tex_u: umax, tex_v: vmin, color },
        Vertex { pos_x: xmax, pos_y: ymax, tex_u: umax, tex_v: vmax, color },
        Vertex { pos_x: xmin, pos_y: ymax, tex_u: umin, tex_v: vmax, color },
    ]
}

/// Appends one glyph quad to the vertex list: the screen rectangle
/// `(left, top)`-`(right, bottom)` textured by the atlas rectangle `uv`.
pub fn push_glyph_quad(
    out: &mut Vec<Vertex>,
    left: i64, top: i64, right: i64, bottom: i64,
    uv: RectPx,
    atlas_w: usize, atlas_h: usize,
    screen_w: u32, screen_h: u32,
    color: Rgba,
)
    requires
        1 <= screen_w,
        1 <= screen_h,
        -0x2000_0000_0000_0000 <= left <= 0x2000_0000_0000_0000,
        -0x2000_0000_0000_0000 <= right <= 0x2000_0000_0000_0000,
        -0x2000_0000_0000_0000 <= top <= 0x2000_0000_0000_0000,
        -0x2000_0000_0000_0000 <= bottom <= 0x2000_0000_0000_0000,
        1 <= atlas_w <= 0xFFFF_FFFF,
        1 <= atlas_h <= 0xFFFF_FFFF,
        uv.x + uv.width <= atlas_w,
        uv.y + uv.height <= atlas_h,
    ensures
        final(out)@ == old(out)@ + quad_vertices(
            left as int, top as int, right as int, bottom as int,
            uv.x as int, uv.y as int,
            uv.x + uv.width, uv.y + uv.height,
            screen_w as int, screen_h as int,
            atlas_w as int, atlas_h as int,
            color,
        ),
{
    let xmin = clip_frac(left, screen_w);
    let xmax = clip_frac(right, screen_w);
    let ymin = clip_frac(top, screen_h);
    let ymax = clip_frac(bottom, screen_h);
    let umin = uv_frac(uv.x, atlas_w);
    let umax = uv_frac(uv.x + uv.width, atlas_w);
    let vmin = uv_frac(uv.y, atlas_h);
    let vmax = uv_frac(uv.y + uv.height, atlas_h);
    out.push(Vertex { pos_x: xmin, pos_y: ymax, tex_u: umin, tex_v: vmax, color });
    out.push(Vertex { pos_x: xmin, pos_y: ymin, tex_u: umin, tex_v: vmin, color });
    out.push(Vertex { pos_x: xmax, pos_y: ymin, tex_u: umax, tex_v: vmin, color });
    out.push(Vertex { pos_x: xmax, pos_y: ymin, tex_u: umax, tex_v: vmin, color });
    out.push(Vertex { pos_x: xmax, pos_y: ymax, tex_u: umax, tex_v: vmax, color });
    out.push(Vertex { pos_x: xmin, pos_y: ymax, tex_u: umin, tex_v: vmax, color });
    proof {
        assert(out@ =~= old(out)@ + quad_vertices(
            left as int, top as int, right as int, bottom as int,
            uv.x as int, uv.y as int,
            uv.x + uv.width, uv.y + uv.height,
            screen_w as int, screen_h as int,
            atlas_w as int, atlas_h as int,
            color,
        ));
    }
}

} // verus!
