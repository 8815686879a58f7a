//! CPU rasterisation of a sector's floor mesh into an RGBA image, one pixel
//! per map unit: either a solid colour (the brightness view) or the sector's
//! flat tiled across it (the textured view). Pixel centres are tested in
//! exact integer arithmetic at doubled resolution.

use vstd::prelude::*;

use crate::analysis::{bytes_eq, name_bytes, texture_name_bytes, to_upper, upper};
use crate::map::{MapData, MapSector, SectorId, TextureName};
use crate::mesh::FloorMesh;

verus! {

/// Pixel image of a sector's filled polygon. `origin_world` is the world
/// position of the image's top-left corner: (min x, max y).
#[derive(Debug)]
pub struct SectorFill {
    pub width: u32,
    pub height: u32,
    pub origin_world: (i32, i32),
    pub rgba: Vec<u8>,
}

/// Colour of a sector of light level `light` in the brightness view: black
/// at 0, warm white at 255 (red, green and blue scaled by 255, 245 and 215
/// out of 255, rounded down).
pub open spec fn brightness_spec(light: i16) -> Seq<u8> {
    let l: int = if light < 0 { 0 } else if light > 255 { 255 } else { light as int };
    seq![(l * 255 / 255) as u8, (l * 245 / 255) as u8, (l * 215 / 255) as u8, 255u8]
}

pub fn brightness_color(light: i16) -> (c: [u8; 4])
    ensures
        c@ == brightness_spec(light),
{
    let l: u32 = if light < 0 { 0 } else if light > 255 { 255 } else { light as u32 };
    let r = (l * 255 / 255) as u8;
    let g = (l * 245 / 255) as u8;
    let b = (l * 215 / 255) as u8;
    let c = [r, g, b, 255u8];
    assert(c@ =~= brightness_spec(light));
    c
}

// ---------------------------------------------------------------------------
// Geometry.

pub open spec fn min3(a: int, b: int, c: int) -> int {
    if a <= b && a <= c {
        a
    } else if b <= c {
        b
    } else {
        c
    }
}

pub open spec fn max3(a: int, b: int, c: int) -> int {
    if a >= b && a >= c {
        a
    } else if b >= c {
        b
    } else {
        c
    }
}

/// Pixel (x, y), whose centre is (x + 1/2, y + 1/2), lies in the pixel
/// box the triangle's corners span (lower bounds inclusive, upper
/// exclusive).
pub open spec fn in_box(a: Seq<i32>, b: Seq<i32>, c: Seq<i32>, x: int, y: int) -> bool {
    &&& min3(a[0] as int, b[0] as int, c[0] as int) <= x < max3(a[0] as int, b[0] as int, c[0] as int)
    &&& min3(a[1] as int, b[1] as int, c[1] as int) <= y < max3(a[1] as int, b[1] as int, c[1] as int)
}

/// Twice the cross product (b - a) x (p - a) at the centre p of pixel (x, y).
pub open spec fn side2(a: Seq<i32>, b: Seq<i32>, x: int, y: int) -> int {
    (b[0] - a[0]) * (2 * y + 1 - 2 * a[1]) - (b[1] - a[1]) * (2 * x + 1 - 2 * a[0])
}

/// Solid fill test: the centre is on the same side (or on) all three edges.
pub open spec fn solid_inside(a: Seq<i32>, b: Seq<i32>, c: Seq<i32>, x: int, y: int) -> bool {
    let s1 = side2(a, b, x, y);
    let s2 = side2(b, c, x, y);
    let s3 = side2(c, a, x, y);
    (s1 >= 0 && s2 >= 0 && s3 >= 0) || (s1 <= 0 && s2 <= 0 && s3 <= 0)
}

/// Textured fill test: the triangle is not degenerate and the centre lies on
/// the inner side of (or on) each edge.
pub open spec fn tex_inside(a: Seq<i32>, b: Seq<i32>, c: Seq<i32>, x: int, y: int) -> bool {
    let area = (c[0] - a[0]) * (b[1] - a[1]) - (c[1] - a[1]) * (b[0] - a[0]);
    let sg = if area > 0 { 1int } else { -1int };
    &&& area != 0
    &&& sg * ((2 * x + 1 - 2 * b[0]) * (c[1] - b[1]) - (2 * y + 1 - 2 * b[1]) * (c[0] - b[0])) >= 0
    &&& sg * ((2 * x + 1 - 2 * c[0]) * (a[1] - c[1]) - (2 * y + 1 - 2 * c[1]) * (a[0] - c[0])) >= 0
    &&& sg * ((2 * x + 1 - 2 * a[0]) * (b[1] - a[1]) - (2 * y + 1 - 2 * a[1]) * (b[0] - a[0])) >= 0
}

/// Corners of triangle `k` of a mesh.
pub open spec fn corner(pv: Seq<Seq<i32>>, iv: Seq<u32>, j: int) -> Seq<i32> {
    pv[iv[j] as int]
}

/// Triangle `k` covers pixel (x, y) under the chosen test.
pub open spec fn tri_hits(pv: Seq<Seq<i32>>, iv: Seq<u32>, k: int, x: int, y: int, textured: bool) -> bool {
    let a = corner(pv, iv, 3 * k);
    let b = corner(pv, iv, 3 * k + 1);
    let c = corner(pv, iv, 3 * k + 2);
    in_box(a, b, c, x, y) && if textured {
        tex_inside(a, b, c, x, y)
    } else {
        solid_inside(a, b, c, x, y)
    }
}

/// Number of whole triangles the index list holds.
pub open spec fn tri_count(iv: Seq<u32>) -> int {
    (iv.len() / 3) as int
}

/// Some triangle among the first `n` covers pixel (x, y).
pub open spec fn hit_upto(pv: Seq<Seq<i32>>, iv: Seq<u32>, n: int, x: int, y: int, textured: bool) -> bool {
    exists|k: int| 0 <= k < n && #[trigger] tri_hits(pv, iv, k, x, y, textured)
}

/// Bounding box (min x, min y, max x, max y) of the first `n` positions.
pub open spec fn bbox(pv: Seq<Seq<i32>>, n: int) -> (int, int, int, int)
    decreases n,
{
    if n <= 1 {
        (pv[0][0] as int, pv[0][1] as int, pv[0][0] as int, pv[0][1] as int)
    } else {
        let (x0, y0, x1, y1) = bbox(pv, n - 1);
        let p = pv[n - 1];
        (
            if p[0] < x0 { p[0] as int } else { x0 },
            if p[1] < y0 { p[1] as int } else { y0 },
            if p[0] > x1 { p[0] as int } else { x1 },
            if p[1] > y1 { p[1] as int } else { y1 },
        )
    }
}

pub open spec fn coords_ok(pv: Seq<Seq<i32>>) -> bool {
    forall|i: int|
        0 <= i < pv.len() ==> -1073741824 <= (#[trigger] pv[i])[0] <= 1073741824 && -1073741824 <= pv[i][1]
            <= 1073741824
}

/// The mesh's indices are whole triangles of valid positions... or at
/// least every listed index names a position.
pub open spec fn mesh_ok(m: &FloorMesh) -> bool {
    &&& m.positions@.len() > 0
    &&& forall|j: int| 0 <= j < m.indices@.len() ==> (#[trigger] m.indices@[j]) < m.positions@.len()
    &&& coords_ok(m.positions@.map_values(|q: [i32; 2]| q@))
}

/// Image size of the mesh's bounding box (at least one pixel each way).
pub open spec fn image_dims(m: &FloorMesh) -> (int, int) {
    let pv = m.positions@.map_values(|q: [i32; 2]| q@);
    let (x0, y0, x1, y1) = bbox(pv, pv.len() as int);
    (if x1 - x0 > 1 { x1 - x0 } else { 1 }, if y1 - y0 > 1 { y1 - y0 } else { 1 })
}


// ---------------------------------------------------------------------------
// Images.

/// The byte a covering triangle writes at channel `c` of world pixel
/// (x, y): the solid colour, or the flat's texel there (64 x 64, tiled,
/// rows counted down from the top) when the flat holds it.
pub open spec fn texel(textured: bool, color: Seq<u8>, flat: Seq<u8>, x: int, y: int, c: int) -> Option<u8> {
    if textured {
        let fx = x % 64;
        let fy = 63 - y % 64;
        let src = (fy * 64 + fx) * 4;
        if src + 3 < flat.len() {
            Some(flat[src + c])
        } else {
            None
        }
    } else {
        Some(color[c])
    }
}

/// Byte `c` of pixel (x, y) once the pixels in `covered` are painted.
pub open spec fn painted(covered: bool, textured: bool, color: Seq<u8>, flat: Seq<u8>, x: int, y: int, c: int) -> u8 {
    if covered && texel(textured, color, flat, x, y, c) is Some {
        texel(textured, color, flat, x, y, c)->0
    } else {
        0
    }
}

/// Byte index `q` of a `w`-pixel-wide RGBA image: column, row and channel.
pub open spec fn col_of(q: int, w: int) -> int {
    (q / 4) % w
}

pub open spec fn row_of(q: int, w: int) -> int {
    (q / 4) / w
}

proof fn lemma_decompose(q: int, w: int, ix: int, iy: int, c: int)
    requires
        w > 0,
        0 <= ix < w,
        0 <= iy,
        0 <= c < 4,
    ensures
        ((iy * w + ix) * 4 + c) / 4 == iy * w + ix,
        ((iy * w + ix) * 4 + c) % 4 == c,
        col_of((iy * w + ix) * 4 + c, w) == ix,
        row_of((iy * w + ix) * 4 + c, w) == iy,
{
    let p = iy * w + ix;
    vstd::arithmetic::div_mod::lemma_fundamental_div_mod_converse(p * 4 + c, 4, p, c);
    vstd::arithmetic::div_mod::lemma_fundamental_div_mod_converse(p, w, iy, ix);
}

proof fn lemma_compose(q: int, w: int)
    requires
        w > 0,
        0 <= q,
    ensures
        q == (row_of(q, w) * w + col_of(q, w)) * 4 + q % 4,
        0 <= col_of(q, w) < w,
        0 <= row_of(q, w),
        0 <= q % 4 < 4,
{
    vstd::arithmetic::div_mod::lemma_fundamental_div_mod(q, 4);
    vstd::arithmetic::div_mod::lemma_fundamental_div_mod(q / 4, w);
    vstd::arithmetic::div_mod::lemma_mod_pos_bound(q, 4);
    vstd::arithmetic::div_mod::lemma_mod_pos_bound(q / 4, w);
    vstd::arithmetic::div_mod::lemma_div_pos_is_pos(q, 4);
    vstd::arithmetic::div_mod::lemma_div_pos_is_pos(q / 4, w);
    assert(q / 4 == w * ((q / 4) / w) + (q / 4) % w);
    assert(row_of(q, w) * w == w * row_of(q, w)) by (nonlinear_arith);
}


/// Every byte of the image holds what painting the pixels that `cov` marks
/// puts there; the image is `w` wide with world corner (x0, y1).
pub open spec fn image_is(
    rgba: Seq<u8>,
    w: int,
    x0: int,
    y1: int,
    cov: spec_fn(int, int) -> bool,
    textured: bool,
    color: Seq<u8>,
    flat: Seq<u8>,
) -> bool {
    forall|q: int|
        0 <= q < rgba.len() ==> #[trigger] rgba[q] == painted(
            cov(x0 + col_of(q, w), y1 - 1 - row_of(q, w)),
            textured,
            color,
            flat,
            x0 + col_of(q, w),
            y1 - 1 - row_of(q, w),
            q % 4,
        )
}

proof fn lemma_image_same_cover(
    rgba: Seq<u8>,
    w: int,
    x0: int,
    y1: int,
    a: spec_fn(int, int) -> bool,
    b: spec_fn(int, int) -> bool,
    textured: bool,
    color: Seq<u8>,
    flat: Seq<u8>,
)
    requires
        image_is(rgba, w, x0, y1, a, textured, color, flat),
        forall|x: int, y: int| #[trigger] a(x, y) == b(x, y),
    ensures
        image_is(rgba, w, x0, y1, b, textured, color, flat),
{
    assert forall|q: int| 0 <= q < rgba.len() implies #[trigger] rgba[q] == painted(
        b(x0 + col_of(q, w), y1 - 1 - row_of(q, w)),
        textured,
        color,
        flat,
        x0 + col_of(q, w),
        y1 - 1 - row_of(q, w),
        q % 4,
    ) by {
        assert(a(x0 + col_of(q, w), y1 - 1 - row_of(q, w)) == b(x0 + col_of(q, w), y1 - 1 - row_of(q, w)));
    }
}

/// Painting one more pixel (X, Y) at image column `ix`, row `iy`.
proof fn lemma_image_paint(
    old_img: Seq<u8>,
    new_img: Seq<u8>,
    w: int,
    h: int,
    x0: int,
    y1: int,
    a: spec_fn(int, int) -> bool,
    b: spec_fn(int, int) -> bool,
    ix: int,
    iy: int,
    textured: bool,
    color: Seq<u8>,
    flat: Seq<u8>,
)
    requires
        w > 0,
        old_img.len() == w * h * 4,
        0 <= ix < w,
        0 <= iy < h,
        image_is(old_img, w, x0, y1, a, textured, color, flat),
        forall|x: int, y: int| #[trigger] b(x, y) == (a(x, y) || (x == x0 + ix && y == y1 - 1 - iy)),
        new_img.len() == old_img.len(),
        forall|c: int| 0 <= c < 4 ==> (#[trigger] texel(textured, color, flat, x0 + ix, y1 - 1 - iy, c)) is Some,
        forall|c: int|
            0 <= c < 4 ==> new_img[(iy * w + ix) * 4 + c] == (#[trigger] texel(textured, color, flat, x0 + ix, y1 - 1 - iy, c))->0,
        forall|q: int| 0 <= q < new_img.len() && !((iy * w + ix) * 4 <= q < (iy * w + ix) * 4 + 4) ==> new_img[q] == old_img[q],
    ensures
        image_is(new_img, w, x0, y1, b, textured, color, flat),
{
    let base = (iy * w + ix) * 4;
    assert forall|q: int| 0 <= q < new_img.len() implies #[trigger] new_img[q] == painted(
        b(x0 + col_of(q, w), y1 - 1 - row_of(q, w)),
        textured,
        color,
        flat,
        x0 + col_of(q, w),
        y1 - 1 - row_of(q, w),
        q % 4,
    ) by {
        lemma_compose(q, w);
        let cx = col_of(q, w);
        let cy = row_of(q, w);
        if base <= q < base + 4 {
            let c = q - base;
            lemma_decompose(q, w, ix, iy, c);
            assert(q == (iy * w + ix) * 4 + c);
        } else {
            assert(old_img[q] == new_img[q]);
            if cx == ix && cy == iy {
                assert(q == (iy * w + ix) * 4 + q % 4);
                assert(false);
            }
            assert(b(x0 + cx, y1 - 1 - cy) == a(x0 + cx, y1 - 1 - cy));
        }
    }
}


proof fn lemma_row_bound(q: int, w: int, h: int)
    requires
        w > 0,
        h > 0,
        0 <= q < w * h * 4,
    ensures
        row_of(q, w) < h,
{
    lemma_compose(q, w);
    let r = row_of(q, w);
    if r >= h {
        assert(r * w >= h * w) by (nonlinear_arith)
            requires
                r >= h,
                w > 0,
        ;
        assert((r * w + col_of(q, w)) * 4 + q % 4 >= h * w * 4) by (nonlinear_arith)
            requires
                r * w >= h * w,
                col_of(q, w) >= 0,
                q % 4 >= 0,
        ;
        assert(w * h * 4 == h * w * 4) by (nonlinear_arith);
    }
}

/// Marking one more pixel covered changes nothing when that pixel is not
/// in the image or has nothing to paint.
proof fn lemma_image_noop(
    img: Seq<u8>,
    w: int,
    h: int,
    x0: int,
    y1: int,
    a: spec_fn(int, int) -> bool,
    b: spec_fn(int, int) -> bool,
    px: int,
    py: int,
    textured: bool,
    color: Seq<u8>,
    flat: Seq<u8>,
)
    requires
        w > 0,
        h > 0,
        img.len() == w * h * 4,
        image_is(img, w, x0, y1, a, textured, color, flat),
        forall|x: int, y: int| #[trigger] b(x, y) == (a(x, y) || (x == px && y == py)),
        !(0 <= px - x0 < w && 0 <= y1 - 1 - py < h) || forall|c: int|
            0 <= c < 4 ==> (#[trigger] texel(textured, color, flat, px, py, c)) is None,
    ensures
        image_is(img, w, x0, y1, b, textured, color, flat),
{
    assert forall|q: int| 0 <= q < img.len() implies #[trigger] img[q] == painted(
        b(x0 + col_of(q, w), y1 - 1 - row_of(q, w)),
        textured,
        color,
        flat,
        x0 + col_of(q, w),
        y1 - 1 - row_of(q, w),
        q % 4,
    ) by {
        lemma_compose(q, w);
        lemma_row_bound(q, w, h);
        let cx = x0 + col_of(q, w);
        let cy = y1 - 1 - row_of(q, w);
        if cx == px && cy == py {
            assert(texel(textured, color, flat, px, py, q % 4) is None);
        }
    }
}

/// Whether triangle (a, b, c) covers pixel (x, y) under the chosen test.
pub open spec fn hits(a: Seq<i32>, b: Seq<i32>, c: Seq<i32>, x: int, y: int, textured: bool) -> bool {
    in_box(a, b, c, x, y) && if textured {
        tex_inside(a, b, c, x, y)
    } else {
        solid_inside(a, b, c, x, y)
    }
}

pub open spec fn corner_ok(p: Seq<i32>) -> bool {
    p.len() == 2 && -1073741824 <= p[0] <= 1073741824 && -1073741824 <= p[1] <= 1073741824
}

fn inside_exec(a: [i32; 2], b: [i32; 2], c: [i32; 2], x: i64, y: i64, textured: bool) -> (r: bool)
    requires
        corner_ok(a@),
        corner_ok(b@),
        corner_ok(c@),
        -1073741824 <= x <= 1073741824,
        -1073741824 <= y <= 1073741824,
    ensures
        r == (if textured { tex_inside(a@, b@, c@, x as int, y as int) } else { solid_inside(a@, b@, c@, x as int, y as int) }),
{
    let ax = a[0] as i128;
    let ay = a[1] as i128;
    let bx = b[0] as i128;
    let by = b[1] as i128;
    let cx = c[0] as i128;
    let cy = c[1] as i128;
    let px = 2 * (x as i128) + 1;
    let py = 2 * (y as i128) + 1;
    proof {
        let bound = 8589934592int;
        assert forall|u: int, v: int| -bound <= u <= bound && -bound <= v <= bound implies -bound * bound <= #[trigger] (u * v) <= bound * bound by {
            assert(-bound * bound <= u * v <= bound * bound) by (nonlinear_arith)
                requires
                    -bound <= u <= bound,
                    -bound <= v <= bound,
            ;
        }
    }
    if textured {
        let area = (cx - ax) * (by - ay) - (cy - ay) * (bx - ax);
        if area == 0 {
            return false;
        }
        let sg: i128 = if area > 0 { 1 } else { -1 };
        let w0 = sg * ((px - 2 * bx) * (cy - by) - (py - 2 * by) * (cx - bx));
        let w1 = sg * ((px - 2 * cx) * (ay - cy) - (py - 2 * cy) * (ax - cx));
        let w2 = sg * ((px - 2 * ax) * (by - ay) - (py - 2 * ay) * (bx - ax));
        w0 >= 0 && w1 >= 0 && w2 >= 0
    } else {
        let s1 = (bx - ax) * (py - 2 * ay) - (by - ay) * (px - 2 * ax);
        let s2 = (cx - bx) * (py - 2 * by) - (cy - by) * (px - 2 * bx);
        let s3 = (ax - cx) * (py - 2 * cy) - (ay - cy) * (px - 2 * cx);
        (s1 >= 0 && s2 >= 0 && s3 >= 0) || (s1 <= 0 && s2 <= 0 && s3 <= 0)
    }
}


/// Pixels covered so far: those of `before`, and those of the triangle in
/// rows below `yl` or in row `yl` left of `xl`.
pub open spec fn partial(
    before: spec_fn(int, int) -> bool,
    a: Seq<i32>,
    b: Seq<i32>,
    c: Seq<i32>,
    textured: bool,
    yl: int,
    xl: int,
) -> spec_fn(int, int) -> bool {
    |x: int, y: int| before(x, y) || (hits(a, b, c, x, y, textured) && (y < yl || (y == yl && x < xl)))
}

pub open spec fn with_tri(
    before: spec_fn(int, int) -> bool,
    a: Seq<i32>,
    b: Seq<i32>,
    c: Seq<i32>,
    textured: bool,
) -> spec_fn(int, int) -> bool {
    |x: int, y: int| before(x, y) || hits(a, b, c, x, y, textured)
}

fn min3_exec(a: i32, b: i32, c: i32) -> (r: i64)
    ensures
        r == min3(a as int, b as int, c as int),
{
    if a <= b && a <= c {
        a as i64
    } else if b <= c {
        b as i64
    } else {
        c as i64
    }
}

fn max3_exec(a: i32, b: i32, c: i32) -> (r: i64)
    ensures
        r == max3(a as int, b as int, c as int),
{
    if a >= b && a >= c {
        a as i64
    } else if b >= c {
        b as i64
    } else {
        c as i64
    }
}

proof fn lemma_offset_mod(v: int, k: int)
    requires
        v + 64 * k >= 0,
    ensures
        (v + 64 * k) % 64 == v % 64,
{
    vstd::arithmetic::div_mod::lemma_mod_multiples_vanish(k, v, 64);
    assert(64 * k + v == v + 64 * k);
}

/// The flat's four bytes at world pixel (x, y), when it holds them.
fn texel_exec(flat: &Vec<u8>, x: i64, y: i64) -> (r: Option<[u8; 4]>)
    requires
        -1073741824 <= x <= 1073741824,
        -1073741824 <= y <= 1073741824,
    ensures
        match r {
            Some(t) => forall|c: int| 0 <= c < 4 ==> (#[trigger] texel(true, Seq::empty(), flat@, x as int, y as int, c)) == Some(t@[c]),
            None => forall|c: int| 0 <= c < 4 ==> (#[trigger] texel(true, Seq::empty(), flat@, x as int, y as int, c)) is None,
        },
{
    let fx: u64 = ((x + 1073741824) as u64) % 64;
    let fy: u64 = 63 - ((y + 1073741824) as u64) % 64;
    proof {
        lemma_offset_mod(x as int, 16777216);
        lemma_offset_mod(y as int, 16777216);
    }
    let src: usize = ((fy * 64 + fx) * 4) as usize;
    if src < flat.len() && flat.len() - src > 3 {
        let t = [flat[src], flat[src + 1], flat[src + 2], flat[src + 3]];
        Some(t)
    } else {
        None
    }
}

proof fn lemma_pixel_index(w: int, h: int, ix: int, iy: int)
    requires
        0 <= ix < w,
        0 <= iy < h,
    ensures
        0 <= iy * w + ix,
        (iy * w + ix) * 4 + 4 <= w * h * 4,
{
    assert(iy * w + ix < (iy + 1) * w) by (nonlinear_arith)
        requires
            ix < w,
    ;
    assert((iy + 1) * w <= h * w) by (nonlinear_arith)
        requires
            iy + 1 <= h,
            w > 0,
    ;
    assert(0 <= iy * w) by (nonlinear_arith)
        requires
            0 <= iy,
            0 < w,
    ;
    assert(h * w * 4 == w * h * 4) by (nonlinear_arith);
}

fn put4(rgba: &mut Vec<u8>, idx: usize, t: [u8; 4])
    requires
        idx + 4 <= old(rgba)@.len(),
        idx + 4 <= usize::MAX,
    ensures
        final(rgba)@.len() == old(rgba)@.len(),
        forall|c: int| 0 <= c < 4 ==> final(rgba)@[idx + c] == t@[c],
        forall|q: int| 0 <= q < old(rgba)@.len() && !(idx <= q < idx + 4) ==> final(rgba)@[q] == old(rgba)@[q],
{
    rgba[idx] = t[0];
    rgba[idx + 1] = t[1];
    rgba[idx + 2] = t[2];
    rgba[idx + 3] = t[3];
}

/// Paint every pixel the triangle (a, b, c) covers.
fn raster_triangle(
    rgba: &mut Vec<u8>,
    w: usize,
    h: usize,
    x0: i64,
    y1: i64,
    a: [i32; 2],
    b: [i32; 2],
    c: [i32; 2],
    textured: bool,
    color: [u8; 4],
    flat: &Vec<u8>,
    Ghost(before): Ghost<spec_fn(int, int) -> bool>,
)
    requires
        w > 0,
        h > 0,
        old(rgba)@.len() == w * h * 4,
        w * h * 4 <= usize::MAX,
        w <= 2147483648,
        h <= 2147483648,
        corner_ok(a@),
        corner_ok(b@),
        corner_ok(c@),
        -1073741824 <= x0 <= 1073741824,
        -1073741824 <= y1 <= 1073741824,
        image_is(old(rgba)@, w as int, x0 as int, y1 as int, before, textured, color@, flat@),
    ensures
        final(rgba)@.len() == old(rgba)@.len(),
        image_is(final(rgba)@, w as int, x0 as int, y1 as int, with_tri(before, a@, b@, c@, textured), textured, color@, flat@),
{
    let tminx = min3_exec(a[0], b[0], c[0]);
    let tmaxx = max3_exec(a[0], b[0], c[0]);
    let tminy = min3_exec(a[1], b[1], c[1]);
    let tmaxy = max3_exec(a[1], b[1], c[1]);
    proof {
        lemma_image_same_cover(rgba@, w as int, x0 as int, y1 as int, before,
            partial(before, a@, b@, c@, textured, tminy as int, tminx as int), textured, color@, flat@);
    }
    let mut y = tminy;
    while y < tmaxy
        invariant
            w > 0,
            h > 0,
            rgba@.len() == w * h * 4,
            w * h * 4 <= usize::MAX,
            w <= 2147483648,
            h <= 2147483648,
            corner_ok(a@),
            corner_ok(b@),
            corner_ok(c@),
            -1073741824 <= x0 <= 1073741824,
            -1073741824 <= y1 <= 1073741824,
            tminx == min3(a[0] as int, b[0] as int, c[0] as int),
            tmaxx == max3(a[0] as int, b[0] as int, c[0] as int),
            tminy == min3(a[1] as int, b[1] as int, c[1] as int),
            tmaxy == max3(a[1] as int, b[1] as int, c[1] as int),
            tminy <= y,
            y <= tmaxy || tmaxy <= tminy,
            image_is(rgba@, w as int, x0 as int, y1 as int, partial(before, a@, b@, c@, textured, y as int, tminx as int), textured, color@, flat@),
        decreases tmaxy - y,
    {
        let mut x = tminx;
        while x < tmaxx
            invariant
                w > 0,
                h > 0,
                rgba@.len() == w * h * 4,
                w * h * 4 <= usize::MAX,
                w <= 2147483648,
                h <= 2147483648,
                corner_ok(a@),
                corner_ok(b@),
                corner_ok(c@),
                -1073741824 <= x0 <= 1073741824,
                -1073741824 <= y1 <= 1073741824,
                tminx == min3(a[0] as int, b[0] as int, c[0] as int),
                tmaxx == max3(a[0] as int, b[0] as int, c[0] as int),
                tminy == min3(a[1] as int, b[1] as int, c[1] as int),
                tmaxy == max3(a[1] as int, b[1] as int, c[1] as int),
                tminy <= y < tmaxy,
                tminx <= x,
                x <= tmaxx || tmaxx <= tminx,
                image_is(rgba@, w as int, x0 as int, y1 as int, partial(before, a@, b@, c@, textured, y as int, x as int), textured, color@, flat@),
            decreases tmaxx - x,
        {
            let ghost cur = partial(before, a@, b@, c@, textured, y as int, x as int);
            let ghost nxt = partial(before, a@, b@, c@, textured, y as int, x + 1);
            let inside = inside_exec(a, b, c, x, y, textured);
            let ix: i64 = x - x0;
            let iy: i64 = y1 - 1 - y;
            if inside && 0 <= ix && ix < w as i64 && 0 <= iy && iy < h as i64 {
                let t = if textured { texel_exec(flat, x, y) } else { Some(color) };
                proof {
                    lemma_pixel_index(w as int, h as int, ix as int, iy as int);
                }
                match t {
                    Some(t) => {
                        let ghost old_img = rgba@;
                        let idx: usize = ((iy as usize) * w + (ix as usize)) * 4;
                        put4(rgba, idx, t);
                        proof {
                            assert forall|cc: int| 0 <= cc < 4 implies (#[trigger] texel(textured, color@, flat@, x0 + ix, y1 - 1 - iy, cc)) is Some by {
                                if textured {
                                    assert(texel(true, Seq::empty(), flat@, x as int, y as int, cc) == Some(t@[cc]));
                                }
                            }
                            assert forall|cc: int| 0 <= cc < 4 implies rgba@[(iy * w + ix) * 4 + cc] == (#[trigger] texel(textured, color@, flat@, x0 + ix, y1 - 1 - iy, cc))->0 by {
                                if textured {
                                    assert(texel(true, Seq::empty(), flat@, x as int, y as int, cc) == Some(t@[cc]));
                                }
                                assert(rgba@[idx + cc] == t@[cc]);
                            }
                            lemma_image_paint(old_img, rgba@, w as int, h as int, x0 as int, y1 as int, cur, nxt,
                                ix as int, iy as int, textured, color@, flat@);
                        }
                    },
                    None => {
                        proof {
                            assert forall|cc: int| 0 <= cc < 4 implies (#[trigger] texel(textured, color@, flat@, x as int, y as int, cc)) is None by {
                                assert(texel(true, Seq::empty(), flat@, x as int, y as int, cc) is None);
                            }
                            lemma_image_noop(rgba@, w as int, h as int, x0 as int, y1 as int, cur, nxt, x as int, y as int,
                                textured, color@, flat@);
                        }
                    },
                }
            } else if inside {
                proof {
                    lemma_image_noop(rgba@, w as int, h as int, x0 as int, y1 as int, cur, nxt, x as int, y as int,
                        textured, color@, flat@);
                }
            } else {
                proof {
                    lemma_image_same_cover(rgba@, w as int, x0 as int, y1 as int, cur, nxt, textured, color@, flat@);
                }
            }
            x = x + 1;
        }
        proof {
            lemma_image_same_cover(rgba@, w as int, x0 as int, y1 as int,
                partial(before, a@, b@, c@, textured, y as int, x as int),
                partial(before, a@, b@, c@, textured, y + 1, tminx as int), textured, color@, flat@);
        }
        y = y + 1;
    }
    proof {
        lemma_image_same_cover(rgba@, w as int, x0 as int, y1 as int,
            partial(before, a@, b@, c@, textured, y as int, tminx as int),
            with_tri(before, a@, b@, c@, textured), textured, color@, flat@);
    }
}


/// `f` is the image of `mesh`: sized to the mesh's bounding box (at least
/// one pixel each way), placed at its top-left corner, each pixel painted
/// as the triangles that cover it (in `textured` or solid mode) say.
pub open spec fn fill_is(f: SectorFill, mesh: &FloorMesh, textured: bool, color: Seq<u8>, flat: Seq<u8>) -> bool {
    let pv = mesh.positions@.map_values(|q: [i32; 2]| q@);
    let (x0, y0, x1, y1) = bbox(pv, pv.len() as int);
    &&& f.width as int == image_dims(mesh).0
    &&& f.height as int == image_dims(mesh).1
    &&& f.origin_world == (x0 as i32, y1 as i32)
    &&& f.rgba@.len() == f.width * f.height * 4
    &&& image_is(f.rgba@, f.width as int, x0, y1, covered_by(pv, mesh.indices@, tri_count(mesh.indices@), textured),
        textured, color, flat)
}

/// Triangles in pixel set `covered_by(.., n, ..)`: the first `n`.
pub open spec fn covered_by(pv: Seq<Seq<i32>>, iv: Seq<u32>, n: int, textured: bool) -> spec_fn(int, int) -> bool {
    |x: int, y: int| hit_upto(pv, iv, n, x, y, textured)
}

pub(crate) fn mesh_bbox(positions: &Vec<[i32; 2]>) -> (r: (i32, i32, i32, i32))
    requires
        positions@.len() > 0,
    ensures
        (r.0 as int, r.1 as int, r.2 as int, r.3 as int) == bbox(positions@.map_values(|q: [i32; 2]| q@), positions@.len() as int),
{
    let ghost pv = positions@.map_values(|q: [i32; 2]| q@);
    let mut x0 = positions[0][0];
    let mut y0 = positions[0][1];
    let mut x1 = positions[0][0];
    let mut y1 = positions[0][1];
    let mut i: usize = 1;
    while i < positions.len()
        invariant
            pv == positions@.map_values(|q: [i32; 2]| q@),
            1 <= i <= positions@.len(),
            (x0 as int, y0 as int, x1 as int, y1 as int) == bbox(pv, i as int),
        decreases positions@.len() - i,
    {
        let p = positions[i];
        assert(pv[i as int] == p@);
        if p[0] < x0 {
            x0 = p[0];
        }
        if p[1] < y0 {
            y0 = p[1];
        }
        if p[0] > x1 {
            x1 = p[0];
        }
        if p[1] > y1 {
            y1 = p[1];
        }
        i = i + 1;
    }
    (x0, y0, x1, y1)
}

proof fn lemma_bbox_bounded(pv: Seq<Seq<i32>>, n: int)
    requires
        1 <= n <= pv.len(),
        coords_ok(pv),
    ensures
        -1073741824 <= bbox(pv, n).0 <= 1073741824,
        -1073741824 <= bbox(pv, n).1 <= 1073741824,
        -1073741824 <= bbox(pv, n).2 <= 1073741824,
        -1073741824 <= bbox(pv, n).3 <= 1073741824,
        bbox(pv, n).0 <= bbox(pv, n).2,
        bbox(pv, n).1 <= bbox(pv, n).3,
    decreases n,
{
    if n > 1 {
        lemma_bbox_bounded(pv, n - 1);
    }
}

/// The image size a mesh needs fits in memory.
pub open spec fn fits(m: &FloorMesh) -> bool {
    image_dims(m).0 * image_dims(m).1 * 4 <= usize::MAX
}

fn raster_mesh(mesh: &FloorMesh, textured: bool, color: [u8; 4], flat: &Vec<u8>) -> (r: SectorFill)
    requires
        mesh_ok(mesh),
        fits(mesh),
    ensures
        fill_is(r, mesh, textured, color@, flat@),
{
    let ghost pv = mesh.positions@.map_values(|q: [i32; 2]| q@);
    let ghost iv = mesh.indices@;
    let (x0, y0, x1, y1) = mesh_bbox(&mesh.positions);
    proof {
        lemma_bbox_bounded(pv, pv.len() as int);
    }
    let wi: i64 = x1 as i64 - x0 as i64;
    let hi: i64 = y1 as i64 - y0 as i64;
    let w: usize = if wi > 1 { wi as usize } else { 1 };
    let h: usize = if hi > 1 { hi as usize } else { 1 };
    let n: usize = w * h * 4;
    let mut rgba: Vec<u8> = vec![0u8; n];
    proof {
        let cov0 = covered_by(pv, iv, 0, textured);
        assert forall|q: int| 0 <= q < rgba@.len() implies #[trigger] rgba@[q] == painted(
            cov0(x0 + col_of(q, w as int), y1 - 1 - row_of(q, w as int)),
            textured,
            color@,
            flat@,
            x0 + col_of(q, w as int),
            y1 - 1 - row_of(q, w as int),
            q % 4,
        ) by {
            assert(!cov0(x0 + col_of(q, w as int), y1 - 1 - row_of(q, w as int)));
        }
    }
    let mut i: usize = 0;
    while mesh.indices.len() - i >= 3
        invariant
            pv == mesh.positions@.map_values(|q: [i32; 2]| q@),
            iv == mesh.indices@,
            mesh_ok(mesh),
            i % 3 == 0,
            0 <= i <= iv.len(),
            w > 0,
            h > 0,
            w <= 2147483648,
            h <= 2147483648,
            n == w * h * 4,
            rgba@.len() == n,
            -1073741824 <= x0 <= 1073741824,
            -1073741824 <= y1 <= 1073741824,
            image_is(rgba@, w as int, x0 as int, y1 as int, covered_by(pv, iv, (i / 3) as int, textured), textured, color@, flat@),
        decreases iv.len() + 3 - i,
    {
        let a = mesh.positions[mesh.indices[i] as usize];
        let b = mesh.positions[mesh.indices[i + 1] as usize];
        let c = mesh.positions[mesh.indices[i + 2] as usize];
        proof {
            assert(pv[iv[i as int] as int] == a@);
            assert(pv[iv[i + 1] as int] == b@);
            assert(pv[iv[i + 2] as int] == c@);
        }
        let ghost before = covered_by(pv, iv, (i / 3) as int, textured);
        raster_triangle(&mut rgba, w, h, x0 as i64, y1 as i64, a, b, c, textured, color, flat, Ghost(before));
        proof {
            let k = (i / 3) as int;
            assert((i + 3) / 3 == k + 1);
            assert(3 * k == i);
            let after = covered_by(pv, iv, k + 1, textured);
            assert forall|x: int, y: int| #[trigger] with_tri(before, a@, b@, c@, textured)(x, y) == after(x, y) by {
                if hits(a@, b@, c@, x, y, textured) {
                    assert(tri_hits(pv, iv, k, x, y, textured));
                }
                if after(x, y) {
                    let kk = choose|kk: int| 0 <= kk < k + 1 && #[trigger] tri_hits(pv, iv, kk, x, y, textured);
                    if kk < k {
                        assert(before(x, y));
                    }
                }
            }
            lemma_image_same_cover(rgba@, w as int, x0 as int, y1 as int, with_tri(before, a@, b@, c@, textured), after,
                textured, color@, flat@);
        }
        i = i + 3;
    }
    proof {
        let len = iv.len() as int;
        let ii = i as int;
        assert(ii / 3 == len / 3) by (nonlinear_arith)
            requires
                ii % 3 == 0,
                0 <= ii <= len,
                len - ii < 3,
        ;
    }
    SectorFill { width: w as u32, height: h as u32, origin_world: (x0, y1), rgba }
}


// ---------------------------------------------------------------------------
// Public entry points.

/// Which of a sector's flats fills its image.
#[derive(Clone, Copy, Debug, PartialEq, Eq, Structural)]
pub enum FillSlot {
    Floor,
    Ceiling,
}

/// A flat (64 x 64 RGBA) under its upper-case name.
pub struct FlatImage {
    pub name: Vec<u8>,
    pub rgba: Vec<u8>,
}

/// The sector's texture name for `slot`.
pub open spec fn slot_name(sec: MapSector, slot: FillSlot) -> TextureName {
    match slot {
        FillSlot::Floor => sec.floor_texture,
        FillSlot::Ceiling => sec.ceiling_texture,
    }
}

/// Position of the first flat called `name`, if any.
pub open spec fn flat_index(flats: Seq<FlatImage>, name: Seq<u8>) -> Option<int> {
    if exists|i: int| 0 <= i < flats.len() && (#[trigger] flats[i]).name@ == name {
        Some(choose|i: int| 0 <= i < flats.len() && (#[trigger] flats[i]).name@ == name
            && forall|j: int| 0 <= j < i ==> flats[j].name@ != name)
    } else {
        None
    }
}

/// The flat a sector shows in `slot`: its upper-case name looked up.
pub open spec fn sector_flat(map: &MapData, sector: SectorId, flats: Seq<FlatImage>, slot: FillSlot) -> Option<int> {
    match map.sector_at(sector) {
        Some(sec) => flat_index(flats, upper(name_bytes(slot_name(sec, slot)))),
        None => None,
    }
}

/// A mesh the rasteriser can draw: its indices name positions, its
/// coordinates lie within +-2^30, and its image fits in memory.
pub open spec fn drawable(mesh: &FloorMesh) -> bool {
    mesh_ok(mesh) && fits(mesh)
}

fn find_flat(flats: &Vec<FlatImage>, name: &Vec<u8>) -> (r: Option<usize>)
    ensures
        match r {
            Some(i) => i < flats@.len() && flat_index(flats@, name@) == Some(i as int),
            None => flat_index(flats@, name@) is None,
        },
{
    let mut i: usize = 0;
    while i < flats.len()
        invariant
            0 <= i <= flats@.len(),
            forall|j: int| 0 <= j < i ==> flats@[j].name@ != name@,
        decreases flats@.len() - i,
    {
        if bytes_eq(&flats[i].name, name) {
            proof {
                let fl = flats@;
                let c = choose|k: int| 0 <= k < fl.len() && (#[trigger] fl[k]).name@ == name@
                    && forall|j: int| 0 <= j < k ==> fl[j].name@ != name@;
                assert(0 <= i < fl.len() && fl[i as int].name@ == name@);
                if c < i {
                } else if c > i {
                }
                assert(c == i);
            }
            return Some(i);
        }
        i = i + 1;
    }
    None
}

/// Solid-colour image of a sector's floor mesh (the brightness view);
/// `None` when the mesh has no triangles.
pub fn rasterise_sector_solid(sector: SectorId, mesh: &FloorMesh, color: [u8; 4]) -> (r: Option<SectorFill>)
    requires
        mesh.indices@.len() > 0 ==> drawable(mesh),
    ensures
        r is None <==> mesh.indices@.len() == 0,
        r matches Some(f) ==> fill_is(f, mesh, false, color@, Seq::empty()),
{
    if mesh.indices.len() == 0 {
        return None;
    }
    let none: Vec<u8> = Vec::new();
    let f = raster_mesh(mesh, false, color, &none);
    assert(none@ =~= Seq::<u8>::empty());
    Some(f)
}

/// Textured image of a sector's floor or ceiling: the sector's flat, tiled
/// in world space, over every pixel a non-degenerate triangle of the mesh
/// covers. `None` when the mesh has no triangles, the sector is gone, or
/// no flat of that name is loaded.
pub fn rasterise_sector_fill_slot(
    map: &MapData,
    sector: SectorId,
    mesh: &FloorMesh,
    flats: &Vec<FlatImage>,
    slot: FillSlot,
) -> (r: Option<SectorFill>)
    requires
        mesh.indices@.len() > 0 && sector_flat(map, sector, flats@, slot) is Some ==> drawable(mesh),
    ensures
        r is None <==> mesh.indices@.len() == 0 || sector_flat(map, sector, flats@, slot) is None,
        r matches Some(f) ==> fill_is(f, mesh, true, Seq::empty(), flats@[sector_flat(map, sector, flats@, slot)->0].rgba@),
{
    if mesh.indices.len() == 0 {
        return None;
    }
    let sec = match map.sector(sector) {
        Some(s) => s,
        None => return None,
    };
    let name = match slot {
        FillSlot::Floor => to_upper(&texture_name_bytes(&sec.floor_texture)),
        FillSlot::Ceiling => to_upper(&texture_name_bytes(&sec.ceiling_texture)),
    };
    let k = match find_flat(flats, &name) {
        Some(k) => k,
        None => return None,
    };
    let f = raster_mesh(mesh, true, [0u8; 4], &flats[k].rgba);
    Some(f)
}

/// Textured image of a sector's floor.
pub fn rasterise_sector_fill(map: &MapData, sector: SectorId, mesh: &FloorMesh, flats: &Vec<FlatImage>) -> (r: Option<SectorFill>)
    requires
        mesh.indices@.len() > 0 && sector_flat(map, sector, flats@, FillSlot::Floor) is Some ==> drawable(mesh),
    ensures
        r is None <==> mesh.indices@.len() == 0 || sector_flat(map, sector, flats@, FillSlot::Floor) is None,
        r matches Some(f) ==> fill_is(f, mesh, true, Seq::empty(),
            flats@[sector_flat(map, sector, flats@, FillSlot::Floor)->0].rgba@),
{
    rasterise_sector_fill_slot(map, sector, mesh, flats, FillSlot::Floor)
}

} // verus!
