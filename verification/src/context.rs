use crate::raster::{lemma_on_line_symmetric, on_line};
use crate::surface::{Surface, OPAQUE_BLACK};
use vstd::prelude::*;

verus! {

/// One camera-projected face vertex handed to the rasterizer: screen
/// coordinates, possibly off the surface, and whether its depth passed the
/// near/far test.
pub struct ProjectedVertex {
    pub x: i64,
    pub y: i64,
    pub depth_ok: bool,
}

/// The vertex passed its depth test and lands on a surface of extent w by h.
pub open spec fn vertex_ok(v: ProjectedVertex, w: int, h: int) -> bool {
    v.depth_ok && 0 <= v.x < w && 0 <= v.y < h
}

/// Every vertex of the face is drawable.
pub open spec fn all_ok(vs: Seq<ProjectedVertex>, w: int, h: int) -> bool {
    forall|i: int| 0 <= i < vs.len() ==> vertex_ok(#[trigger] vs[i], w, h)
}

/// Index of the successor vertex, wrapping around to close the polygon.
pub open spec fn wrap(i: int, len: int) -> int {
    if i + 1 == len {
        0
    } else {
        i + 1
    }
}

/// The screen coordinates of drawable vertices, as pixel positions.
pub open spec fn coords_of(vs: Seq<ProjectedVertex>) -> Seq<(usize, usize)> {
    vs.map_values(|v: ProjectedVertex| (v.x as usize, v.y as usize))
}

/// Pixel (px,py) lies on edge i of the closed polygon border.
pub open spec fn edge_covers(poly: Seq<(usize, usize)>, i: int, px: int, py: int) -> bool {
    on_line(
        poly[i].0 as int,
        poly[i].1 as int,
        poly[wrap(i, poly.len() as int)].0 as int,
        poly[wrap(i, poly.len() as int)].1 as int,
        px,
        py,
    )
}

/// Pixel (px,py) lies somewhere on the closed border of the polygon.
pub open spec fn on_border(poly: Seq<(usize, usize)>, px: int, py: int) -> bool {
    exists|i: int| 0 <= i < poly.len() && #[trigger] edge_covers(poly, i, px, py)
}

/// Pixel (px,py) lies on the closing edge, or on one of the first j
/// consecutive edges, of the polygon border.
pub(crate) open spec fn border_prefix(poly: Seq<(usize, usize)>, j: int, px: int, py: int) -> bool {
    ||| edge_covers(poly, poly.len() - 1, px, py)
    ||| exists|i: int| 0 <= i < j && #[trigger] edge_covers(poly, i, px, py)
}

/// Index of the first vertex with the smallest screen y: the face's
/// "bottom" vertex, marked with a sentinel pixel.
pub open spec fn bottom_index(vs: Seq<ProjectedVertex>) -> int
    decreases vs.len(),
{
    if vs.len() <= 1 {
        0
    } else {
        let b = bottom_index(vs.drop_last());
        if vs.last().y < vs[b].y {
            vs.len() - 1
        } else {
            b
        }
    }
}

/// The bottom index names a vertex.
pub proof fn lemma_bottom_index_range(vs: Seq<ProjectedVertex>)
    requires
        vs.len() >= 1,
    ensures
        0 <= bottom_index(vs) < vs.len(),
    decreases vs.len(),
{
    if vs.len() > 1 {
        lemma_bottom_index_range(vs.drop_last());
    }
}

impl Surface {
    /// Draw the polygon's closed border — consecutive vertices joined by
    /// rasterized segments, the last joined back to the first — then mark
    /// the vertex at `bottom_index` with the sentinel pixel.
    pub fn draw_polygon_border(
        &mut self,
        polygon: &Vec<(usize, usize)>,
        bottom_index: usize,
        color: u32,
    )
        requires
            old(self).wf(),
            polygon@.len() >= 1,
            bottom_index < polygon@.len(),
            forall|i: int|
                0 <= i < polygon@.len() ==> (#[trigger] polygon@[i]).0 < old(self).w()
                    && polygon@[i].1 < old(self).h(),
        ensures
            final(self).wf(),
            final(self).w() == old(self).w(),
            final(self).h() == old(self).h(),
            forall|px: int, py: int|
                0 <= px < final(self).w() && 0 <= py < final(self).h() ==> final(self).pix(px, py)
                    == (if px == polygon@[bottom_index as int].0 && py == polygon@[
                    bottom_index as int].1 {
                    OPAQUE_BLACK
                } else if on_border(polygon@, px, py) {
                    color
                } else {
                    old(self).pix(px, py)
                }),
    {
        let len = polygon.len();
        let p0 = polygon[0];
        let plast = polygon[len - 1];
        self.draw_line(p0.0, p0.1, plast.0, plast.1, color);
        proof {
            assert forall|px: int, py: int|
                0 <= px < self.w() && 0 <= py < self.h() implies self.pix(px, py) == (if
            border_prefix(polygon@, 0, px, py) {
                color
            } else {
                old(self).pix(px, py)
            }) by {
                lemma_on_line_symmetric(
                    p0.0 as int,
                    p0.1 as int,
                    plast.0 as int,
                    plast.1 as int,
                    px,
                    py,
                );
                assert(edge_covers(polygon@, polygon@.len() - 1, px, py) == on_line(
                    p0.0 as int,
                    p0.1 as int,
                    plast.0 as int,
                    plast.1 as int,
                    px,
                    py,
                ));
            }
        }
        let ghost entry = *old(self);
        let mut i: usize = 0;
        while i + 1 < len
            invariant
                self.wf(),
                self.w() == entry.w(),
                self.h() == entry.h(),
                len == polygon@.len(),
                1 <= len,
                i < len,
                forall|k: int|
                    0 <= k < polygon@.len() ==> (#[trigger] polygon@[k]).0 < entry.w()
                        && polygon@[k].1 < entry.h(),
                forall|px: int, py: int|
                    0 <= px < self.w() && 0 <= py < self.h() ==> self.pix(px, py) == (if
                    border_prefix(polygon@, i as int, px, py) {
                        color
                    } else {
                        entry.pix(px, py)
                    }),
            decreases len - i,
        {
            let a = polygon[i];
            let b = polygon[i + 1];
            let ghost pre = *self;
            self.draw_line(a.0, a.1, b.0, b.1, color);
            proof {
                assert forall|px: int, py: int|
                    0 <= px < self.w() && 0 <= py < self.h() implies self.pix(px, py) == (if
                border_prefix(polygon@, i + 1, px, py) {
                    color
                } else {
                    entry.pix(px, py)
                }) by {
                    assert(edge_covers(polygon@, i as int, px, py) == on_line(
                        a.0 as int,
                        a.1 as int,
                        b.0 as int,
                        b.1 as int,
                        px,
                        py,
                    ));
                    if border_prefix(polygon@, i + 1, px, py) {
                        if !edge_covers(polygon@, i as int, px, py) {
                            assert(border_prefix(polygon@, i as int, px, py));
                        }
                    } else {
                        assert(!edge_covers(polygon@, i as int, px, py));
                        assert(!border_prefix(polygon@, i as int, px, py));
                    }
                }
            }
            i = i + 1;
        }
        let pb = polygon[bottom_index];
        self.set_pixel(pb.0, pb.1, OPAQUE_BLACK);
        proof {
            assert forall|px: int, py: int|
                0 <= px < self.w() && 0 <= py < self.h() implies self.pix(px, py) == (if px
                == polygon@[bottom_index as int].0 && py == polygon@[bottom_index as int].1 {
                OPAQUE_BLACK
            } else if on_border(polygon@, px, py) {
                color
            } else {
                entry.pix(px, py)
            }) by {
                if !(px == polygon@[bottom_index as int].0 && py == polygon@[
                bottom_index as int].1) {
                    assert(border_prefix(polygon@, len - 1, px, py) == on_border(
                        polygon@,
                        px,
                        py,
                    )) by {
                        if on_border(polygon@, px, py) {
                            let k = choose|k: int|
                                0 <= k < polygon@.len() && #[trigger] edge_covers(
                                    polygon@,
                                    k,
                                    px,
                                    py,
                                );
                            if k < len - 1 {
                                assert(border_prefix(polygon@, len - 1, px, py));
                            }
                        }
                    }
                }
            }
        }
    }
}

/// Edge i of the closed polygon has both endpoints drawable, and its
/// rasterized segment covers (px,py).
pub open spec fn edge_hits(
    vs: Seq<ProjectedVertex>,
    w: int,
    h: int,
    i: int,
    px: int,
    py: int,
) -> bool {
    &&& vertex_ok(vs[i], w, h)
    &&& vertex_ok(vs[wrap(i, vs.len() as int)], w, h)
    &&& on_line(
        vs[i].x as int,
        vs[i].y as int,
        vs[wrap(i, vs.len() as int)].x as int,
        vs[wrap(i, vs.len() as int)].y as int,
        px,
        py,
    )
}

/// Pixel (px,py) lies on one of the first j edges whose endpoints are both
/// drawable.
pub(crate) open spec fn edges_prefix(
    vs: Seq<ProjectedVertex>,
    w: int,
    h: int,
    j: int,
    px: int,
    py: int,
) -> bool {
    exists|i: int| 0 <= i < j && #[trigger] edge_hits(vs, w, h, i, px, py)
}

/// Pixel (px,py) is painted for this face by the edge-level strategy: some
/// edge of the closed loop with both endpoints drawable covers it.
pub open spec fn edges_cover(vs: Seq<ProjectedVertex>, w: int, h: int, px: int, py: int) -> bool {
    exists|i: int| 0 <= i < vs.len() && #[trigger] edge_hits(vs, w, h, i, px, py)
}

impl Surface {
    /// Face-level strategy: if every vertex of the face passes the depth
    /// test and lands on the surface, draw the face's closed wireframe
    /// border and mark its bottom vertex with the sentinel pixel; otherwise
    /// reject the whole face and paint nothing.
    pub fn draw_face_outline(&mut self, verts: &Vec<ProjectedVertex>, color: u32) -> (drawn: bool)
        requires
            old(self).wf(),
            verts@.len() >= 1,
        ensures
            final(self).wf(),
            final(self).w() == old(self).w(),
            final(self).h() == old(self).h(),
            drawn == all_ok(verts@, old(self).w(), old(self).h()),
            !drawn ==> final(self).pixels() == old(self).pixels(),
            drawn ==> forall|px: int, py: int|
                0 <= px < final(self).w() && 0 <= py < final(self).h() ==> final(self).pix(px, py)
                    == (if px == coords_of(verts@)[bottom_index(verts@)].0 && py == coords_of(
                    verts@,
                )[bottom_index(verts@)].1 {
                    OPAQUE_BLACK
                } else if on_border(coords_of(verts@), px, py) {
                    color
                } else {
                    old(self).pix(px, py)
                }),
    {
        let (w, h) = self.get_extent();
        let n = verts.len();
        let mut poly: Vec<(usize, usize)> = Vec::new();
        let mut bi: usize = 0;
        let mut i: usize = 0;
        while i < n
            invariant
                n == verts@.len(),
                1 <= n,
                i <= n,
                self == old(self),
                self.wf(),
                w == self.w(),
                h == self.h(),
                poly@ == coords_of(verts@.take(i as int)),
                forall|k: int| 0 <= k < i ==> vertex_ok(#[trigger] verts@[k], w as int, h as int),
                bi <= i && bi < n,
                i >= 1 ==> bi == bottom_index(verts@.take(i as int)) && bi < i,
                i == 0 ==> bi == 0,
            decreases n - i,
        {
            let v = &verts[i];
            let ok = v.depth_ok && v.x >= 0 && v.y >= 0 && (v.x as u64) < (w as u64) && (
            v.y as u64) < (h as u64);
            if !ok {
                proof {
                    assert(!vertex_ok(verts@[i as int], w as int, h as int));
                }
                return false;
            }
            poly.push((v.x as usize, v.y as usize));
            if i > 0 && verts[i].y < verts[bi].y {
                bi = i;
            }
            proof {
                assert(poly@ =~= coords_of(verts@.take(i + 1)));
                assert(verts@.take(i + 1).drop_last() =~= verts@.take(i as int));
                assert(verts@.take(i + 1).last() == verts@[i as int]);
            }
            i = i + 1;
        }
        proof {
            assert(verts@.take(n as int) =~= verts@);
            lemma_bottom_index_range(verts@);
            assert(coords_of(verts@)[bottom_index(verts@)].0 < w);
            assert(coords_of(verts@)[bottom_index(verts@)].1 < h);
        }
        self.draw_polygon_border(&poly, bi, color);
        true
    }

    /// Edge-level strategy: walk the face's closed edge loop and draw each
    /// edge whose two endpoints both pass the depth test and land on the
    /// surface; any other edge is dropped whole, without clipping, and the
    /// face is never rejected as a whole.
    pub fn draw_face_edges(&mut self, verts: &Vec<ProjectedVertex>, color: u32)
        requires
            old(self).wf(),
            verts@.len() >= 1,
        ensures
            final(self).wf(),
            final(self).w() == old(self).w(),
            final(self).h() == old(self).h(),
            forall|px: int, py: int|
                0 <= px < final(self).w() && 0 <= py < final(self).h() ==> final(self).pix(px, py)
                    == (if edges_cover(verts@, old(self).w(), old(self).h(), px, py) {
                    color
                } else {
                    old(self).pix(px, py)
                }),
    {
        let (w, h) = self.get_extent();
        let n = verts.len();
        let mut i: usize = 0;
        while i < n
            invariant
                n == verts@.len(),
                1 <= n,
                i <= n,
                self.wf(),
                self.w() == old(self).w(),
                self.h() == old(self).h(),
                w == self.w(),
                h == self.h(),
                forall|px: int, py: int|
                    0 <= px < self.w() && 0 <= py < self.h() ==> self.pix(px, py) == (if
                    edges_prefix(verts@, w as int, h as int, i as int, px, py) {
                        color
                    } else {
                        old(self).pix(px, py)
                    }),
            decreases n - i,
        {
            let j = if i + 1 == n {
                0
            } else {
                i + 1
            };
            let a_ok = verts[i].depth_ok && verts[i].x >= 0 && verts[i].y >= 0 && (
            verts[i].x as u64) < (w as u64) && (verts[i].y as u64) < (h as u64);
            let b_ok = verts[j].depth_ok && verts[j].x >= 0 && verts[j].y >= 0 && (
            verts[j].x as u64) < (w as u64) && (verts[j].y as u64) < (h as u64);
            proof {
                assert(j as int == wrap(i as int, verts@.len() as int));
                assert(a_ok == vertex_ok(verts@[i as int], w as int, h as int));
                assert(b_ok == vertex_ok(verts@[j as int], w as int, h as int));
            }
            if a_ok && b_ok {
                self.draw_line(
                    verts[i].x as usize,
                    verts[i].y as usize,
                    verts[j].x as usize,
                    verts[j].y as usize,
                    color,
                );
                proof {
                    assert forall|px: int, py: int|
                        0 <= px < self.w() && 0 <= py < self.h() implies self.pix(px, py) == (if
                    edges_prefix(verts@, w as int, h as int, i + 1, px, py) {
                        color
                    } else {
                        old(self).pix(px, py)
                    }) by {
                        if edges_prefix(verts@, w as int, h as int, i + 1, px, py) {
                            if !edge_hits(verts@, w as int, h as int, i as int, px, py) {
                                assert(edges_prefix(verts@, w as int, h as int, i as int, px, py));
                            }
                        } else {
                            assert(!edge_hits(verts@, w as int, h as int, i as int, px, py));
                            assert(!edges_prefix(verts@, w as int, h as int, i as int, px, py));
                        }
                    }
                }
            } else {
                proof {
                    assert forall|px: int, py: int|
                        0 <= px < self.w() && 0 <= py < self.h() implies self.pix(px, py) == (if
                    edges_prefix(verts@, w as int, h as int, i + 1, px, py) {
                        color
                    } else {
                        old(self).pix(px, py)
                    }) by {
                        assert(!edge_hits(verts@, w as int, h as int, i as int, px, py));
                        if edges_prefix(verts@, w as int, h as int, i + 1, px, py) {
                            assert(edges_prefix(verts@, w as int, h as int, i as int, px, py));
                        } else {
                            assert(!edges_prefix(verts@, w as int, h as int, i as int, px, py));
                        }
                    }
                }
            }
            i = i + 1;
        }
        proof {
            assert forall|px: int, py: int| 0 <= px < self.w() && 0 <= py < self.h() implies (
            edges_prefix(verts@, w as int, h as int, n as int, px, py) == edges_cover(
                verts@,
                w as int,
                h as int,
                px,
                py,
            )) by {
                if edges_prefix(verts@, w as int, h as int, n as int, px, py) {
                    let i0 = choose|i: int|
                        0 <= i < n && #[trigger] edge_hits(verts@, w as int, h as int, i, px, py);
                    assert(edge_hits(verts@, w as int, h as int, i0, px, py));
                }
                if edges_cover(verts@, w as int, h as int, px, py) {
                    let i0 = choose|i: int|
                        0 <= i < verts@.len() && #[trigger] edge_hits(
                            verts@,
                            w as int,
                            h as int,
                            i,
                            px,
                            py,
                        );
                    assert(edge_hits(verts@, w as int, h as int, i0, px, py));
                }
            }
        }
    }
}


} // verus!
