//! The wireframe pipeline: project each vertex of the mesh from normalized
//! device coordinates to pixel space, rasterize the three edges of every
//! face, and flip the image vertically so that the model's +y axis points up.

use vstd::prelude::*;

use crate::canvas::Color;
use crate::canvas::Image;
use crate::canvas::black;
use crate::canvas::white;
use crate::raster::draw_line;
use crate::raster::line_contains;
use crate::wavefront::COORD_MAX;
use crate::wavefront::Face;
use crate::wavefront::Obj;
use crate::wavefront::SCALE;
use crate::wavefront::Vert;

verus! {

/// Projection of one fixed-point scalar to a pixel coordinate:
/// `(v / SCALE + 1) * dim / 2`, truncated toward zero and saturated to the
/// pixel coordinate type; everything left of the image maps to column zero.
pub open spec fn spec_project(v: int, dim: int) -> int {
    if v + SCALE <= 0 {
        0
    } else {
        let q = ((v + SCALE) * dim) / (2 * SCALE);
        if q > u32::MAX {
            u32::MAX as int
        } else {
            q
        }
    }
}

/// Project one scalar to a pixel coordinate along an axis of length `dim`.
pub fn project(v: i64, dim: u32) -> (r: u32)
    requires
        -(COORD_MAX as int) <= v <= COORD_MAX as int,
    ensures
        r == spec_project(v as int, dim as int),
{
    if v <= -SCALE {
        0
    } else {
        proof {
            assert((v + SCALE) * (dim as int) <= 1000000001000000 * 4294967295int)
                by (nonlinear_arith)
                requires
                    0 < v + SCALE <= 1000000001000000,
                    0 <= dim <= 4294967295int,
            ;
            assert(0 <= (v + SCALE) * (dim as int)) by (nonlinear_arith)
                requires
                    0 < v + SCALE,
                    0 <= dim,
            ;
        }
        let num: u128 = ((v + SCALE) as u128) * (dim as u128);
        let den: u128 = 2 * (SCALE as u128);
        let q: u128 = num / den;
        if q > u32::MAX as u128 {
            u32::MAX
        } else {
            q as u32
        }
    }
}

/// Every face references only existing vertex slots.
pub open spec fn faces_in_bounds(vs: Seq<Vert>, fs: Seq<Face>) -> bool {
    forall|i: int|
        0 <= i < fs.len() ==> (#[trigger] fs[i]).vertices.0 < vs.len() && fs[i].vertices.1
            < vs.len() && fs[i].vertices.2 < vs.len()
}

/// Every vertex scalar lies within the loader's clamp bounds, so that it can
/// be projected.
pub open spec fn verts_in_range(vs: Seq<Vert>) -> bool {
    forall|j: int|
        0 <= j < vs.len() ==> -(COORD_MAX as int) <= (#[trigger] vs[j]).x <= COORD_MAX as int && -(
        COORD_MAX as int) <= vs[j].y <= COORD_MAX as int
}

/// Check that a mesh's faces reference only existing vertices.
pub fn faces_ok(o: &Obj) -> (r: bool)
    ensures
        r == faces_in_bounds(o.vertices@, o.faces@),
{
    let nv = o.vertices.len();
    let n = o.faces.len();
    let mut i: usize = 0;
    while i < n
        invariant
            i <= n,
            n == o.faces@.len(),
            nv == o.vertices@.len(),
            forall|t: int|
                0 <= t < i ==> (#[trigger] o.faces@[t]).vertices.0 < nv && o.faces@[t].vertices.1
                    < nv && o.faces@[t].vertices.2 < nv,
        decreases n - i,
    {
        let f = o.faces[i];
        if f.vertices.0 >= nv || f.vertices.1 >= nv || f.vertices.2 >= nv {
            return false;
        }
        i = i + 1;
    }
    true
}

/// Check that a mesh's vertex scalars lie within the clamp bounds.
pub fn verts_ok(o: &Obj) -> (r: bool)
    ensures
        r == verts_in_range(o.vertices@),
{
    let n = o.vertices.len();
    let mut j: usize = 0;
    while j < n
        invariant
            j <= n,
            n == o.vertices@.len(),
            forall|t: int|
                0 <= t < j ==> -(COORD_MAX as int) <= (#[trigger] o.vertices@[t]).x <= COORD_MAX
                    as int && -(COORD_MAX as int) <= o.vertices@[t].y <= COORD_MAX as int,
        decreases n - j,
    {
        let v = o.vertices[j];
        if v.x < -COORD_MAX || v.x > COORD_MAX || v.y < -COORD_MAX || v.y > COORD_MAX {
            return false;
        }
        j = j + 1;
    }
    true
}

/// Every vertex a successful load yields lies within the clamp bounds: a
/// loaded mesh can always be projected.
pub proof fn lemma_load_verts_in_range(ls: Seq<Seq<char>>)
    requires
        crate::wavefront::spec_load(ls) is Ok,
    ensures
        verts_in_range(crate::wavefront::spec_load(ls)->Ok_0.0),
    decreases ls.len(),
{
    if ls.len() > 0 {
        lemma_load_verts_in_range(ls.drop_last());
        let l = ls.last();
        if crate::wavefront::is_vertex_line(l) {
            let p = crate::wavefront::line_payload(l);
            if crate::wavefront::spec_parse_vert(p) is Ok {
                let ts = crate::wavefront::tokens(p);
                crate::wavefront::lemma_numeral_bounds(ts[0]);
                crate::wavefront::lemma_numeral_bounds(ts[1]);
                crate::wavefront::lemma_numeral_bounds(ts[2]);
            }
        }
    }
}

/// The projected pixel position of vertex `j` on a `w` by `h` image.
pub open spec fn vertex_px(vs: Seq<Vert>, w: int, h: int, j: int) -> (int, int) {
    (spec_project(vs[j].x as int, w), spec_project(vs[j].y as int, h))
}

/// The vertex indices at the ends of edge `e` (0, 1 or 2) of a face: the
/// corners taken in order, wrapping around.
pub open spec fn edge_ends(fc: Face, e: int) -> (int, int) {
    if e == 0 {
        (fc.vertices.0 as int, fc.vertices.1 as int)
    } else if e == 1 {
        (fc.vertices.1 as int, fc.vertices.2 as int)
    } else {
        (fc.vertices.2 as int, fc.vertices.0 as int)
    }
}

/// Whether edge `e` of face `i`, projected, plots the pixel `(px, py)`.
pub open spec fn edge_plots(
    vs: Seq<Vert>,
    fs: Seq<Face>,
    w: int,
    h: int,
    i: int,
    e: int,
    px: int,
    py: int,
) -> bool {
    let ends = edge_ends(fs[i], e);
    let a = vertex_px(vs, w, h, ends.0);
    let b = vertex_px(vs, w, h, ends.1);
    line_contains(a.0, a.1, b.0, b.1, px, py)
}

/// Whether some edge before face `i`, edge `e` (in drawing order) plots the
/// pixel `(px, py)`.
pub open spec fn wire_upto(
    vs: Seq<Vert>,
    fs: Seq<Face>,
    w: int,
    h: int,
    i: int,
    e: int,
    px: int,
    py: int,
) -> bool {
    exists|i2: int, e2: int|
        0 <= i2 < fs.len() && 0 <= e2 < 3 && (i2 < i || (i2 == i && e2 < e)) && edge_plots(
            vs,
            fs,
            w,
            h,
            i2,
            e2,
            px,
            py,
        )
}

/// Whether any edge of any face plots the pixel `(px, py)`.
pub open spec fn wire_contains(
    vs: Seq<Vert>,
    fs: Seq<Face>,
    w: int,
    h: int,
    px: int,
    py: int,
) -> bool {
    wire_upto(vs, fs, w, h, fs.len() as int, 0, px, py)
}

/// Rasterize edge `e` of face `i` between the projected corner pixels.
fn draw_edge(o: &Obj, i: usize, e: usize, img: &mut Image, color: Color)
    requires
        old(img).wf(),
        i < o.faces@.len(),
        e < 3,
        faces_in_bounds(o.vertices@, o.faces@),
        verts_in_range(o.vertices@),
    ensures
        final(img).wf(),
        final(img).spec_width() == old(img).spec_width(),
        final(img).spec_height() == old(img).spec_height(),
        forall|px: int, py: int|
            final(img).in_bounds(px, py) ==> final(img).at(px, py) == (if edge_plots(
                o.vertices@,
                o.faces@,
                old(img).spec_width(),
                old(img).spec_height(),
                i as int,
                e as int,
                px,
                py,
            ) {
                color
            } else {
                old(img).at(px, py)
            }),
{
    let f = o.faces[i];
    let ai: usize = if e == 0 {
        f.vertices.0
    } else if e == 1 {
        f.vertices.1
    } else {
        f.vertices.2
    };
    let bi: usize = if e == 0 {
        f.vertices.1
    } else if e == 1 {
        f.vertices.2
    } else {
        f.vertices.0
    };
    let va = o.vertices[ai];
    let vb = o.vertices[bi];
    let w = img.width();
    let h = img.height();
    let x0 = project(va.x, w);
    let y0 = project(va.y, h);
    let x1 = project(vb.x, w);
    let y1 = project(vb.y, h);
    draw_line(x0, y0, x1, y1, img, color);
}

/// Draw the wireframe of the mesh into the image: for every face, in order,
/// rasterize its three directed edges in the given color.
pub fn render_wireframe(o: &Obj, img: &mut Image, color: Color)
    requires
        old(img).wf(),
        faces_in_bounds(o.vertices@, o.faces@),
        verts_in_range(o.vertices@),
    ensures
        final(img).wf(),
        final(img).spec_width() == old(img).spec_width(),
        final(img).spec_height() == old(img).spec_height(),
        forall|px: int, py: int|
            final(img).in_bounds(px, py) ==> final(img).at(px, py) == (if wire_contains(
                o.vertices@,
                o.faces@,
                old(img).spec_width(),
                old(img).spec_height(),
                px,
                py,
            ) {
                color
            } else {
                old(img).at(px, py)
            }),
{
    let ghost vs = o.vertices@;
    let ghost fs = o.faces@;
    let ghost w = old(img).spec_width();
    let ghost h = old(img).spec_height();
    let n = o.faces.len();
    let mut i: usize = 0;
    while i < n
        invariant
            img.wf(),
            img.spec_width() == w,
            img.spec_height() == h,
            vs == o.vertices@,
            fs == o.faces@,
            n == fs.len(),
            i <= n,
            faces_in_bounds(vs, fs),
            verts_in_range(vs),
            forall|px: int, py: int|
                img.in_bounds(px, py) ==> img.at(px, py) == (if wire_upto(
                    vs,
                    fs,
                    w,
                    h,
                    i as int,
                    0,
                    px,
                    py,
                ) {
                    color
                } else {
                    old(img).at(px, py)
                }),
        decreases n - i,
    {
        let mut e: usize = 0;
        while e < 3
            invariant
                img.wf(),
                img.spec_width() == w,
                img.spec_height() == h,
                vs == o.vertices@,
                fs == o.faces@,
                n == fs.len(),
                i < n,
                e <= 3,
                faces_in_bounds(vs, fs),
                verts_in_range(vs),
                forall|px: int, py: int|
                    img.in_bounds(px, py) ==> img.at(px, py) == (if wire_upto(
                        vs,
                        fs,
                        w,
                        h,
                        i as int,
                        e as int,
                        px,
                        py,
                    ) {
                        color
                    } else {
                        old(img).at(px, py)
                    }),
            decreases 3 - e,
        {
            let ghost pre = *img;
            draw_edge(o, i, e, img, color);
            proof {
                assert forall|px: int, py: int| img.in_bounds(px, py) implies img.at(px, py) == (
                if wire_upto(vs, fs, w, h, i as int, e + 1, px, py) {
                    color
                } else {
                    old(img).at(px, py)
                }) by {
                    if edge_plots(vs, fs, w, h, i as int, e as int, px, py) {
                        assert(wire_upto(vs, fs, w, h, i as int, e + 1, px, py));
                    } else if wire_upto(vs, fs, w, h, i as int, e as int, px, py) {
                        let (i2, e2) = choose|i2: int, e2: int|
                            0 <= i2 < fs.len() && 0 <= e2 < 3 && (i2 < i || (i2 == i && e2 < e))
                                && edge_plots(vs, fs, w, h, i2, e2, px, py);
                        assert(wire_upto(vs, fs, w, h, i as int, e + 1, px, py));
                    } else {
                        if wire_upto(vs, fs, w, h, i as int, e + 1, px, py) {
                            let (i2, e2) = choose|i2: int, e2: int|
                                0 <= i2 < fs.len() && 0 <= e2 < 3 && (i2 < i || (i2 == i && e2 < e
                                    + 1)) && edge_plots(vs, fs, w, h, i2, e2, px, py);
                            assert(false);
                        }
                    }
                }
            }
            e = e + 1;
        }
        proof {
            assert forall|px: int, py: int|
                wire_upto(vs, fs, w, h, i as int, 3, px, py) == wire_upto(
                    vs,
                    fs,
                    w,
                    h,
                    i + 1,
                    0,
                    px,
                    py,
                ) by {
                if wire_upto(vs, fs, w, h, i as int, 3, px, py) {
                    let (i2, e2) = choose|i2: int, e2: int|
                        0 <= i2 < fs.len() && 0 <= e2 < 3 && (i2 < i || (i2 == i && e2 < 3))
                            && edge_plots(vs, fs, w, h, i2, e2, px, py);
                    assert(wire_upto(vs, fs, w, h, i + 1, 0, px, py));
                }
                if wire_upto(vs, fs, w, h, i + 1, 0, px, py) {
                    let (i2, e2) = choose|i2: int, e2: int|
                        0 <= i2 < fs.len() && 0 <= e2 < 3 && (i2 < i + 1) && edge_plots(
                            vs,
                            fs,
                            w,
                            h,
                            i2,
                            e2,
                            px,
                            py,
                        );
                    assert(wire_upto(vs, fs, w, h, i as int, 3, px, py));
                }
            }
        }
        i = i + 1;
    }
}

/// Render the wireframe of a mesh into a fresh image: opaque black
/// background, opaque white edges, flipped vertically so the model's +y
/// axis points up.
pub fn render_obj(o: &Obj, width: u32, height: u32) -> (r: Image)
    requires
        width * height <= usize::MAX,
        faces_in_bounds(o.vertices@, o.faces@),
        verts_in_range(o.vertices@),
    ensures
        r.wf(),
        r.spec_width() == width,
        r.spec_height() == height,
        forall|px: int, py: int|
            r.in_bounds(px, py) ==> r.at(px, py) == (if wire_contains(
                o.vertices@,
                o.faces@,
                width as int,
                height as int,
                px,
                height - 1 - py,
            ) {
                (Color { r: 255, g: 255, b: 255, a: 255 })
            } else {
                (Color { r: 0, g: 0, b: 0, a: 255 })
            }),
{
    let mut img = Image::new(width, height, black());
    render_wireframe(o, &mut img, white());
    img.flip_vertical();
    img
}

} // verus!
