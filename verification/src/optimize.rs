use vstd::prelude::*;
use crate::mesh::{BoxSpec, Mesh, PrintObjects, Triangle, Vertex, box_wf, mesh_is_boxes};

verus! {

/// Every triangle references vertices that exist.
pub open spec fn mesh_wf(m: Mesh) -> bool {
    forall|i: int|
        0 <= i < m.triangles@.len() ==> (#[trigger] m.triangles@[i]).v1 < m.vertices@.len()
            && m.triangles@[i].v2 < m.vertices@.len() && m.triangles@[i].v3 < m.vertices@.len()
}

/// Every vertex coordinate leaves room for the rounding offset.
pub open spec fn mesh_coords_bounded(m: Mesh) -> bool {
    forall|i: int|
        0 <= i < m.vertices@.len() ==> (#[trigger] m.vertices@[i]).z <= u64::MAX - 5
}

/// A height rounded to the nearest ten micrometers (one hundredth of a
/// millimeter), half up: the consolidation grouping precision.
pub open spec fn spec_quant(z: int) -> int {
    (z + 5) / 10 * 10
}

fn quant(z: u64) -> (r: u64)
    requires
        z <= u64::MAX - 5,
    ensures
        r == spec_quant(z as int),
        r <= z + 5,
{
    proof {
        vstd::arithmetic::div_mod::lemma_fundamental_div_mod(z as int + 5, 10);
        vstd::arithmetic::div_mod::lemma_mod_bound(z as int + 5, 10);
        vstd::arithmetic::div_mod::lemma_div_pos_is_pos(z as int + 5, 10);
        assert(10 * ((z + 5) / 10) == ((z + 5) / 10) * 10) by (nonlinear_arith);
    }
    (z + 5) / 10 * 10
}

/// Rounding to the grouping precision preserves order.
proof fn lemma_quant_monotone(a: int, b: int)
    requires
        0 <= a <= b,
    ensures
        0 <= spec_quant(a) <= spec_quant(b),
    decreases 0int,
{
    vstd::arithmetic::div_mod::lemma_div_is_ordered(a + 5, b + 5, 10);
    vstd::arithmetic::div_mod::lemma_div_pos_is_pos(a + 5, 10);
    vstd::arithmetic::mul::lemma_mul_inequality((a + 5) / 10, (b + 5) / 10, 10);
    assert(((a + 5) / 10) * 10 >= 0) by (nonlinear_arith)
        requires
            (a + 5) / 10 >= 0,
    ;
}

/// The smaller of two coordinates.
pub open spec fn spec_min2(a: int, b: int) -> int {
    if a <= b {
        a
    } else {
        b
    }
}

/// The larger of two coordinates.
pub open spec fn spec_max2(a: int, b: int) -> int {
    if a >= b {
        a
    } else {
        b
    }
}

/// The lowest Z of a triangle's corners.
pub open spec fn tri_min_z(verts: Seq<Vertex>, t: Triangle) -> int {
    spec_min2(spec_min2(verts[t.v1 as int].z as int, verts[t.v2 as int].z as int), verts[t.v3 as int].z as int)
}

/// The highest Z of a triangle's corners.
pub open spec fn tri_max_z(verts: Seq<Vertex>, t: Triangle) -> int {
    spec_max2(spec_max2(verts[t.v1 as int].z as int, verts[t.v2 as int].z as int), verts[t.v3 as int].z as int)
}

/// One group of triangles sharing a quantized height range, with the
/// bounding rectangle of their corners.
struct HeightGroup {
    zb: u64,
    zt: u64,
    min_x: u64,
    max_x: u64,
    min_y: u64,
    max_y: u64,
}

/// The group's rectangle contains all three corners of the triangle.
spec fn group_contains_tri(verts: Seq<Vertex>, t: Triangle, g: HeightGroup) -> bool {
    &&& g.min_x <= verts[t.v1 as int].x <= g.max_x
    &&& g.min_x <= verts[t.v2 as int].x <= g.max_x
    &&& g.min_x <= verts[t.v3 as int].x <= g.max_x
    &&& g.min_y <= verts[t.v1 as int].y <= g.max_y
    &&& g.min_y <= verts[t.v2 as int].y <= g.max_y
    &&& g.min_y <= verts[t.v3 as int].y <= g.max_y
}

/// The group carries the triangle's quantized height range.
spec fn group_key_matches(verts: Seq<Vertex>, t: Triangle, g: HeightGroup) -> bool {
    g.zb == spec_quant(tri_min_z(verts, t)) && g.zt == spec_quant(tri_max_z(verts, t))
}

/// The group's rectangle is ordered and its height range is ordered.
spec fn group_ordered(g: HeightGroup) -> bool {
    g.min_x <= g.max_x && g.min_y <= g.max_y && g.zb <= g.zt
}

/// The box stands exactly on the triangle's quantized height range and its
/// footprint contains all three corners.
pub open spec fn box_bounds_tri(verts: Seq<Vertex>, t: Triangle, b: BoxSpec) -> bool {
    &&& b.z == spec_quant(tri_min_z(verts, t))
    &&& b.z + b.d == spec_quant(tri_max_z(verts, t))
    &&& b.x <= verts[t.v1 as int].x <= b.x + b.w
    &&& b.x <= verts[t.v2 as int].x <= b.x + b.w
    &&& b.x <= verts[t.v3 as int].x <= b.x + b.w
    &&& b.y <= verts[t.v1 as int].y <= b.y + b.h
    &&& b.y <= verts[t.v2 as int].y <= b.y + b.h
    &&& b.y <= verts[t.v3 as int].y <= b.y + b.h
}

/// The box stands exactly on the triangle's quantized height range.
pub open spec fn box_range_of_tri(verts: Seq<Vertex>, t: Triangle, b: BoxSpec) -> bool {
    b.z == spec_quant(tri_min_z(verts, t)) && b.z + b.d == spec_quant(tri_max_z(verts, t))
}

/// Some corner of the triangle has this x coordinate.
pub open spec fn tri_attains_x(verts: Seq<Vertex>, t: Triangle, v: int) -> bool {
    verts[t.v1 as int].x == v || verts[t.v2 as int].x == v || verts[t.v3 as int].x == v
}

/// Some corner of the triangle has this y coordinate.
pub open spec fn tri_attains_y(verts: Seq<Vertex>, t: Triangle, v: int) -> bool {
    verts[t.v1 as int].y == v || verts[t.v2 as int].y == v || verts[t.v3 as int].y == v
}

/// Each edge of the box is attained by a corner of some triangle of its
/// height group: the box is exactly the group's bounding rectangle.
pub open spec fn box_attained(verts: Seq<Vertex>, tris: Seq<Triangle>, b: BoxSpec) -> bool {
    &&& exists|ti: int|
        0 <= ti < tris.len() && #[trigger] box_range_of_tri(verts, tris[ti], b) && tri_attains_x(
            verts,
            tris[ti],
            b.x as int,
        )
    &&& exists|ti: int|
        0 <= ti < tris.len() && #[trigger] box_range_of_tri(verts, tris[ti], b) && tri_attains_x(
            verts,
            tris[ti],
            b.x + b.w,
        )
    &&& exists|ti: int|
        0 <= ti < tris.len() && #[trigger] box_range_of_tri(verts, tris[ti], b) && tri_attains_y(
            verts,
            tris[ti],
            b.y as int,
        )
    &&& exists|ti: int|
        0 <= ti < tris.len() && #[trigger] box_range_of_tri(verts, tris[ti], b) && tri_attains_y(
            verts,
            tris[ti],
            b.y + b.h,
        )
}

/// Each edge of the group's rectangle is attained by a corner of a member
/// triangle.
spec fn group_attained(verts: Seq<Vertex>, tris: Seq<Triangle>, g: HeightGroup) -> bool {
    &&& exists|ti: int|
        0 <= ti < tris.len() && #[trigger] group_key_matches(verts, tris[ti], g) && tri_attains_x(
            verts,
            tris[ti],
            g.min_x as int,
        )
    &&& exists|ti: int|
        0 <= ti < tris.len() && #[trigger] group_key_matches(verts, tris[ti], g) && tri_attains_x(
            verts,
            tris[ti],
            g.max_x as int,
        )
    &&& exists|ti: int|
        0 <= ti < tris.len() && #[trigger] group_key_matches(verts, tris[ti], g) && tri_attains_y(
            verts,
            tris[ti],
            g.min_y as int,
        )
    &&& exists|ti: int|
        0 <= ti < tris.len() && #[trigger] group_key_matches(verts, tris[ti], g) && tri_attains_y(
            verts,
            tris[ti],
            g.max_y as int,
        )
}

/// A box that is exactly a group's bounding rectangle inherits the group's
/// attainment witnesses.
proof fn lemma_box_attained_of_group(
    verts: Seq<Vertex>,
    tris: Seq<Triangle>,
    b: BoxSpec,
    gr: HeightGroup,
)
    requires
        box_matches_group(b, gr),
        group_attained(verts, tris, gr),
    ensures
        box_attained(verts, tris, b),
{
    let t1 = choose|ti: int|
        0 <= ti < tris.len() && #[trigger] group_key_matches(verts, tris[ti], gr) && tri_attains_x(
            verts,
            tris[ti],
            gr.min_x as int,
        );
    assert(box_range_of_tri(verts, tris[t1], b));
    assert(tri_attains_x(verts, tris[t1], b.x as int));
    let t2 = choose|ti: int|
        0 <= ti < tris.len() && #[trigger] group_key_matches(verts, tris[ti], gr) && tri_attains_x(
            verts,
            tris[ti],
            gr.max_x as int,
        );
    assert(box_range_of_tri(verts, tris[t2], b));
    assert(tri_attains_x(verts, tris[t2], b.x + b.w));
    let t3 = choose|ti: int|
        0 <= ti < tris.len() && #[trigger] group_key_matches(verts, tris[ti], gr) && tri_attains_y(
            verts,
            tris[ti],
            gr.min_y as int,
        );
    assert(box_range_of_tri(verts, tris[t3], b));
    assert(tri_attains_y(verts, tris[t3], b.y as int));
    let t4 = choose|ti: int|
        0 <= ti < tris.len() && #[trigger] group_key_matches(verts, tris[ti], gr) && tri_attains_y(
            verts,
            tris[ti],
            gr.max_y as int,
        );
    assert(box_range_of_tri(verts, tris[t4], b));
    assert(tri_attains_y(verts, tris[t4], b.y + b.h));
}

fn min2(a: u64, b: u64) -> (r: u64)
    ensures
        r == spec_min2(a as int, b as int),
{
    if a <= b {
        a
    } else {
        b
    }
}

fn max2(a: u64, b: u64) -> (r: u64)
    ensures
        r == spec_max2(a as int, b as int),
{
    if a >= b {
        a
    } else {
        b
    }
}

/// Group the mesh's triangles by their quantized height range and replace
/// each group by its bounding box. Every replacement box is thicker than one
/// micrometer, and every grouped triangle stays inside its group's box, so
/// consolidation never shrinks a height group's footprint.
#[verifier::rlimit(100)]
#[verifier::spinoff_prover]
pub fn consolidate_by_height(mesh: &Mesh) -> (out: Mesh)
    requires
        mesh_wf(*mesh),
        mesh_coords_bounded(*mesh),
    ensures
        exists|boxes: Seq<BoxSpec>|
            {
                &&& #[trigger] mesh_is_boxes(out, boxes)
                &&& forall|bi: int| 0 <= bi < boxes.len() ==> (#[trigger] boxes[bi]).d > 1
                &&& forall|ti: int|
                    0 <= ti < mesh.triangles@.len() && spec_quant(
                        tri_max_z(mesh.vertices@, mesh.triangles@[ti]),
                    ) - spec_quant(tri_min_z(mesh.vertices@, mesh.triangles@[ti])) > 1 ==> exists|
                        bi: int,
                    |
                        0 <= bi < boxes.len() && box_bounds_tri(
                            mesh.vertices@,
                            #[trigger] mesh.triangles@[ti],
                            boxes[bi],
                        )
                &&& forall|b1: int, b2: int|
                    0 <= b1 < b2 < boxes.len() ==> !((#[trigger] boxes[b1]).z
                        == (#[trigger] boxes[b2]).z && boxes[b1].d == boxes[b2].d)
                &&& forall|bi: int|
                    0 <= bi < boxes.len() ==> box_attained(
                        mesh.vertices@,
                        mesh.triangles@,
                        #[trigger] boxes[bi],
                    )
            },
{
    let ghost verts = mesh.vertices@;
    let ghost tris = mesh.triangles@;
    let mut groups: Vec<HeightGroup> = Vec::new();
    let n = mesh.triangles.len();
    let nv = mesh.vertices.len();
    let mut i: usize = 0;
    while i < n
        invariant
            mesh_wf(*mesh),
            mesh_coords_bounded(*mesh),
            verts == mesh.vertices@,
            tris == mesh.triangles@,
            n == tris.len(),
            nv == verts.len(),
            i <= n,
            forall|gi: int| 0 <= gi < groups@.len() ==> group_ordered(#[trigger] groups@[gi]),
            forall|g1: int, g2: int|
                0 <= g1 < g2 < groups@.len() ==> !((#[trigger] groups@[g1]).zb
                    == (#[trigger] groups@[g2]).zb && groups@[g1].zt == groups@[g2].zt),
            forall|gi: int|
                0 <= gi < groups@.len() ==> group_attained(verts, tris, #[trigger] groups@[gi]),
            forall|ti: int|
                0 <= ti < i ==> exists|gi: int|
                    0 <= gi < groups@.len() && group_key_matches(
                        verts,
                        #[trigger] tris[ti],
                        groups@[gi],
                    ) && group_contains_tri(verts, tris[ti], groups@[gi]),
        decreases n - i,
    {
        let t = mesh.triangles[i];
        let v0 = mesh.vertices[t.v1];
        let v1 = mesh.vertices[t.v2];
        let v2 = mesh.vertices[t.v3];
        let min_z = min2(min2(v0.z, v1.z), v2.z);
        let max_z = max2(max2(v0.z, v1.z), v2.z);
        let zb = quant(min_z);
        let zt = quant(max_z);
        proof {
            lemma_quant_monotone(min_z as int, max_z as int);
        }
        let tmin_x = min2(min2(v0.x, v1.x), v2.x);
        let tmax_x = max2(max2(v0.x, v1.x), v2.x);
        let tmin_y = min2(min2(v0.y, v1.y), v2.y);
        let tmax_y = max2(max2(v0.y, v1.y), v2.y);

        let found = find_group(&groups, zb, zt);
        let ghost pre_groups = groups@;
        match found {
            Some(g) => {
                let merged = HeightGroup {
                    zb,
                    zt,
                    min_x: min2(groups[g].min_x, tmin_x),
                    max_x: max2(groups[g].max_x, tmax_x),
                    min_y: min2(groups[g].min_y, tmin_y),
                    max_y: max2(groups[g].max_y, tmax_y),
                };
                groups[g] = merged;
                proof {
                    assert(group_key_matches(verts, tris[i as int], groups@[g as int]));
                    assert forall|g1: int, g2: int|
                        0 <= g1 < g2 < groups@.len() implies !((#[trigger] groups@[g1]).zb
                        == (#[trigger] groups@[g2]).zb && groups@[g1].zt == groups@[g2].zt) by {
                        if g1 != g {
                            assert(groups@[g1] == pre_groups[g1]);
                        }
                        if g2 != g {
                            assert(groups@[g2] == pre_groups[g2]);
                        }
                    }
                    assert forall|gj: int|
                        0 <= gj < groups@.len() implies group_attained(
                        verts,
                        tris,
                        #[trigger] groups@[gj],
                    ) by {
                        if gj != g {
                            assert(groups@[gj] == pre_groups[gj]);
                        } else {
                            let gr = groups@[g as int];
                            let t = tris[i as int];
                            assert(group_key_matches(verts, t, gr));
                            if gr.min_x == pre_groups[g as int].min_x {
                                let ti = choose|ti: int|
                                    0 <= ti < tris.len() && #[trigger] group_key_matches(
                                        verts,
                                        tris[ti],
                                        pre_groups[g as int],
                                    ) && tri_attains_x(
                                        verts,
                                        tris[ti],
                                        pre_groups[g as int].min_x as int,
                                    );
                                assert(group_key_matches(verts, tris[ti], gr));
                                assert(tri_attains_x(verts, tris[ti], gr.min_x as int));
                            } else {
                                assert(tri_attains_x(verts, t, gr.min_x as int));
                            }
                            if gr.max_x == pre_groups[g as int].max_x {
                                let ti = choose|ti: int|
                                    0 <= ti < tris.len() && #[trigger] group_key_matches(
                                        verts,
                                        tris[ti],
                                        pre_groups[g as int],
                                    ) && tri_attains_x(
                                        verts,
                                        tris[ti],
                                        pre_groups[g as int].max_x as int,
                                    );
                                assert(group_key_matches(verts, tris[ti], gr));
                                assert(tri_attains_x(verts, tris[ti], gr.max_x as int));
                            } else {
                                assert(tri_attains_x(verts, t, gr.max_x as int));
                            }
                            if gr.min_y == pre_groups[g as int].min_y {
                                let ti = choose|ti: int|
                                    0 <= ti < tris.len() && #[trigger] group_key_matches(
                                        verts,
                                        tris[ti],
                                        pre_groups[g as int],
                                    ) && tri_attains_y(
                                        verts,
                                        tris[ti],
                                        pre_groups[g as int].min_y as int,
                                    );
                                assert(group_key_matches(verts, tris[ti], gr));
                                assert(tri_attains_y(verts, tris[ti], gr.min_y as int));
                            } else {
                                assert(tri_attains_y(verts, t, gr.min_y as int));
                            }
                            if gr.max_y == pre_groups[g as int].max_y {
                                let ti = choose|ti: int|
                                    0 <= ti < tris.len() && #[trigger] group_key_matches(
                                        verts,
                                        tris[ti],
                                        pre_groups[g as int],
                                    ) && tri_attains_y(
                                        verts,
                                        tris[ti],
                                        pre_groups[g as int].max_y as int,
                                    );
                                assert(group_key_matches(verts, tris[ti], gr));
                                assert(tri_attains_y(verts, tris[ti], gr.max_y as int));
                            } else {
                                assert(tri_attains_y(verts, t, gr.max_y as int));
                            }
                        }
                    }
                    assert forall|ti: int| 0 <= ti < i + 1 implies exists|gj: int|
                        0 <= gj < groups@.len() && group_key_matches(
                            verts,
                            #[trigger] tris[ti],
                            groups@[gj],
                        ) && group_contains_tri(verts, tris[ti], groups@[gj]) by {
                        if ti < i {
                            let gj = choose|gj: int|
                                0 <= gj < pre_groups.len() && group_key_matches(
                                    verts,
                                    tris[ti],
                                    #[trigger] pre_groups[gj],
                                ) && group_contains_tri(verts, tris[ti], pre_groups[gj]);
                            if gj == g {
                                assert(group_key_matches(verts, tris[ti], groups@[gj]));
                                assert(group_contains_tri(verts, tris[ti], groups@[gj]));
                            } else {
                                assert(groups@[gj] == pre_groups[gj]);
                            }
                        } else {
                            assert(group_key_matches(verts, tris[ti], groups@[g as int]));
                            assert(group_contains_tri(verts, tris[ti], groups@[g as int]));
                        }
                    }
                }
            },
            None => {
                groups.push(
                    HeightGroup {
                        zb,
                        zt,
                        min_x: tmin_x,
                        max_x: tmax_x,
                        min_y: tmin_y,
                        max_y: tmax_y,
                    },
                );
                proof {
                    let g = groups@.len() - 1;
                    assert(group_key_matches(verts, tris[i as int], groups@[g]));
                    assert forall|g1: int, g2: int|
                        0 <= g1 < g2 < groups@.len() implies !((#[trigger] groups@[g1]).zb
                        == (#[trigger] groups@[g2]).zb && groups@[g1].zt == groups@[g2].zt) by {
                        if g2 < g {
                            assert(groups@[g1] == pre_groups[g1]);
                            assert(groups@[g2] == pre_groups[g2]);
                        } else {
                            assert(groups@[g1] == pre_groups[g1]);
                        }
                    }
                    assert forall|gj: int|
                        0 <= gj < groups@.len() implies group_attained(
                        verts,
                        tris,
                        #[trigger] groups@[gj],
                    ) by {
                        if gj < g {
                            assert(groups@[gj] == pre_groups[gj]);
                        } else {
                            let t = tris[i as int];
                            assert(group_key_matches(verts, t, groups@[g]));
                            assert(tri_attains_x(verts, t, groups@[g].min_x as int));
                            assert(tri_attains_x(verts, t, groups@[g].max_x as int));
                            assert(tri_attains_y(verts, t, groups@[g].min_y as int));
                            assert(tri_attains_y(verts, t, groups@[g].max_y as int));
                        }
                    }
                    assert forall|ti: int| 0 <= ti < i + 1 implies exists|gj: int|
                        0 <= gj < groups@.len() && group_key_matches(
                            verts,
                            #[trigger] tris[ti],
                            groups@[gj],
                        ) && group_contains_tri(verts, tris[ti], groups@[gj]) by {
                        if ti < i {
                            let gj = choose|gj: int|
                                0 <= gj < pre_groups.len() && group_key_matches(
                                    verts,
                                    tris[ti],
                                    #[trigger] pre_groups[gj],
                                ) && group_contains_tri(verts, tris[ti], pre_groups[gj]);
                            assert(groups@[gj] == pre_groups[gj]);
                        } else {
                            assert(group_key_matches(verts, tris[ti], groups@[g]));
                            assert(group_contains_tri(verts, tris[ti], groups@[g]));
                        }
                    }
                }
            },
        }
        i = i + 1;
    }

    // one box per group thicker than a micrometer
    let mut boxes: Vec<BoxSpec> = Vec::new();
    let m = groups.len();
    let mut gi: usize = 0;
    while gi < m
        invariant
            verts == mesh.vertices@,
            tris == mesh.triangles@,
            m == groups@.len(),
            gi <= m,
            forall|gj: int| 0 <= gj < groups@.len() ==> group_ordered(#[trigger] groups@[gj]),
            forall|g1: int, g2: int|
                0 <= g1 < g2 < groups@.len() ==> !((#[trigger] groups@[g1]).zb
                    == (#[trigger] groups@[g2]).zb && groups@[g1].zt == groups@[g2].zt),
            forall|gj: int|
                0 <= gj < groups@.len() ==> group_attained(verts, tris, #[trigger] groups@[gj]),
            forall|bi: int| 0 <= bi < boxes@.len() ==> (#[trigger] boxes@[bi]).d > 1,
            forall|bi: int| 0 <= bi < boxes@.len() ==> box_wf(#[trigger] boxes@[bi]),
            forall|bi: int|
                0 <= bi < boxes@.len() ==> exists|gj: int|
                    0 <= gj < gi && box_matches_group(#[trigger] boxes@[bi], groups@[gj]),
            forall|b1: int, b2: int|
                0 <= b1 < b2 < boxes@.len() ==> !((#[trigger] boxes@[b1]).z
                    == (#[trigger] boxes@[b2]).z && boxes@[b1].d == boxes@[b2].d),
            forall|gj: int|
                0 <= gj < gi && (#[trigger] groups@[gj]).zt - groups@[gj].zb > 1 ==> exists|bi: int|
                    0 <= bi < boxes@.len() && box_matches_group(#[trigger] boxes@[bi], groups@[gj]),
        decreases m - gi,
    {
        let g = &groups[gi];
        let thickness = g.zt - g.zb;
        let ghost pre_boxes = boxes@;
        if thickness > 1 {
            boxes.push(
                BoxSpec {
                    x: g.min_x,
                    y: g.min_y,
                    z: g.zb,
                    w: g.max_x - g.min_x,
                    h: g.max_y - g.min_y,
                    d: thickness,
                },
            );
            proof {
                assert(box_matches_group(boxes@[boxes@.len() - 1], groups@[gi as int]));
                // the new box's height range is its group's, and every older
                // box carries the distinct range of an earlier group
                assert forall|b1: int, b2: int|
                    0 <= b1 < b2 < boxes@.len() implies !((#[trigger] boxes@[b1]).z
                    == (#[trigger] boxes@[b2]).z && boxes@[b1].d == boxes@[b2].d) by {
                    if b2 == boxes@.len() - 1 {
                        assert(boxes@[b1] == pre_boxes[b1]);
                        let gj = choose|gj: int|
                            0 <= gj < gi && box_matches_group(
                                #[trigger] pre_boxes[b1 as int],
                                groups@[gj],
                            );
                        assert(!(groups@[gj].zb == groups@[gi as int].zb && groups@[gj].zt
                            == groups@[gi as int].zt));
                    } else {
                        assert(boxes@[b1] == pre_boxes[b1] && boxes@[b2] == pre_boxes[b2]);
                    }
                }
            }
        }
        proof {
            assert forall|bi: int|
                0 <= bi < boxes@.len() implies exists|gj: int|
                0 <= gj < gi + 1 && box_matches_group(#[trigger] boxes@[bi], groups@[gj]) by {
                if bi < pre_boxes.len() {
                    assert(boxes@[bi] == pre_boxes[bi]);
                    let gj = choose|gj: int|
                        0 <= gj < gi && box_matches_group(#[trigger] pre_boxes[bi as int], groups@[gj]);
                    assert(box_matches_group(boxes@[bi], groups@[gj]));
                } else {
                    assert(box_matches_group(boxes@[bi], groups@[gi as int]));
                }
            }
            assert forall|gj: int|
                0 <= gj < gi + 1 && (#[trigger] groups@[gj]).zt - groups@[gj].zb > 1 implies exists|
                bi: int,
            | 0 <= bi < boxes@.len() && box_matches_group(#[trigger] boxes@[bi], groups@[gj]) by {
                if gj < gi {
                    let bi = choose|bi: int|
                        0 <= bi < pre_boxes.len() && box_matches_group(
                            #[trigger] pre_boxes[bi],
                            groups@[gj],
                        );
                    assert(boxes@[bi] == pre_boxes[bi]);
                    assert(box_matches_group(boxes@[bi], groups@[gj]));
                } else {
                    assert(box_matches_group(boxes@[boxes@.len() - 1], groups@[gj]));
                }
            }
        }
        gi = gi + 1;
    }

    let out = crate::mesh::build_boxes_mesh(&boxes);
    proof {
        assert forall|ti: int|
            0 <= ti < tris.len() && spec_quant(tri_max_z(verts, tris[ti])) - spec_quant(
                tri_min_z(verts, tris[ti]),
            ) > 1 implies exists|bi: int|
            0 <= bi < boxes@.len() && box_bounds_tri(verts, #[trigger] tris[ti], boxes@[bi]) by {
            let gj = choose|gj: int|
                0 <= gj < groups@.len() && group_key_matches(verts, tris[ti], #[trigger] groups@[gj])
                    && group_contains_tri(verts, tris[ti], groups@[gj]);
            let bi = choose|bi: int|
                0 <= bi < boxes@.len() && box_matches_group(#[trigger] boxes@[bi], groups@[gj]);
            assert(box_bounds_tri(verts, tris[ti], boxes@[bi]));
        }
        assert forall|bi: int| 0 <= bi < boxes@.len() implies box_attained(
            verts,
            tris,
            #[trigger] boxes@[bi],
        ) by {
            let gj = choose|gj: int|
                0 <= gj < m && box_matches_group(#[trigger] boxes@[bi], groups@[gj]);
            lemma_box_attained_of_group(verts, tris, boxes@[bi], groups@[gj]);
        }
        assert(mesh_is_boxes(out, boxes@));
    }
    out
}

/// The position of the first group with the given height range, if any.
fn find_group(groups: &Vec<HeightGroup>, zb: u64, zt: u64) -> (r: Option<usize>)
    ensures
        match r {
            Some(k) => k < groups@.len() && groups@[k as int].zb == zb && groups@[k as int].zt
                == zt,
            None => forall|k: int|
                0 <= k < groups@.len() ==> !((#[trigger] groups@[k]).zb == zb && groups@[k].zt
                    == zt),
        },
{
    let m = groups.len();
    let mut gi: usize = 0;
    while gi < m
        invariant
            m == groups@.len(),
            gi <= m,
            forall|k: int|
                0 <= k < gi ==> !((#[trigger] groups@[k]).zb == zb && groups@[k].zt == zt),
        decreases m - gi,
    {
        if groups[gi].zb == zb && groups[gi].zt == zt {
            return Some(gi);
        }
        gi = gi + 1;
    }
    None
}

/// The box is exactly the group's bounding box at the group's height range.
spec fn box_matches_group(b: BoxSpec, g: HeightGroup) -> bool {
    &&& b.x == g.min_x
    &&& b.x + b.w == g.max_x
    &&& b.y == g.min_y
    &&& b.y + b.h == g.max_y
    &&& b.z == g.zb
    &&& b.z + b.d == g.zt
}

/// The bounding extremes of a vertex list:
/// (min x, max x, min y, max y, min z, max z).
pub open spec fn spec_mesh_bounds(verts: Seq<Vertex>) -> (int, int, int, int, int, int)
    decreases verts.len(),
{
    if verts.len() == 1 {
        (
            verts[0].x as int,
            verts[0].x as int,
            verts[0].y as int,
            verts[0].y as int,
            verts[0].z as int,
            verts[0].z as int,
        )
    } else if verts.len() == 0 {
        (0, 0, 0, 0, 0, 0)
    } else {
        let p = spec_mesh_bounds(verts.drop_last());
        let v = verts.last();
        (
            spec_min2(p.0, v.x as int),
            spec_max2(p.1, v.x as int),
            spec_min2(p.2, v.y as int),
            spec_max2(p.3, v.y as int),
            spec_min2(p.4, v.z as int),
            spec_max2(p.5, v.z as int),
        )
    }
}

/// Replace a mesh whose geometry sits at one height by the single box that
/// spans its bounds; an empty mesh, or one of zero thickness, comes back
/// empty.
pub fn consolidate_uniform_layer(mesh: &Mesh) -> (out: Mesh)
    ensures
        ({
            let b = spec_mesh_bounds(mesh.vertices@);
            if mesh.vertices@.len() == 0 || b.5 == b.4 {
                mesh_is_boxes(out, Seq::empty())
            } else {
                mesh_is_boxes(
                    out,
                    seq![
                        BoxSpec {
                            x: b.0 as u64,
                            y: b.2 as u64,
                            z: b.4 as u64,
                            w: (b.1 - b.0) as u64,
                            h: (b.3 - b.2) as u64,
                            d: (b.5 - b.4) as u64,
                        },
                    ],
                )
            }
        }),
{
    let nv = mesh.vertices.len();
    if nv == 0 {
        return Mesh::new();
    }
    let first = mesh.vertices[0];
    let mut min_x = first.x;
    let mut max_x = first.x;
    let mut min_y = first.y;
    let mut max_y = first.y;
    let mut min_z = first.z;
    let mut max_z = first.z;
    let mut i: usize = 1;
    proof {
        assert(mesh.vertices@.take(1).drop_last() =~= Seq::<Vertex>::empty());
        assert(mesh.vertices@.take(1) =~= seq![mesh.vertices@[0]]);
    }
    while i < nv
        invariant
            nv == mesh.vertices@.len(),
            1 <= i <= nv,
            (min_x as int, max_x as int, min_y as int, max_y as int, min_z as int, max_z as int)
                == spec_mesh_bounds(mesh.vertices@.take(i as int)),
            min_x <= max_x,
            min_y <= max_y,
            min_z <= max_z,
        decreases nv - i,
    {
        let v = mesh.vertices[i];
        min_x = min2(min_x, v.x);
        max_x = max2(max_x, v.x);
        min_y = min2(min_y, v.y);
        max_y = max2(max_y, v.y);
        min_z = min2(min_z, v.z);
        max_z = max2(max_z, v.z);
        proof {
            assert(mesh.vertices@.take(i + 1).drop_last() =~= mesh.vertices@.take(i as int));
            assert(mesh.vertices@.take(i + 1).last() == mesh.vertices@[i as int]);
        }
        i = i + 1;
    }
    proof {
        assert(mesh.vertices@.take(nv as int) =~= mesh.vertices@);
    }
    let thickness = max_z - min_z;
    if thickness > 0 {
        let mut boxes: Vec<BoxSpec> = Vec::new();
        boxes.push(
            BoxSpec {
                x: min_x,
                y: min_y,
                z: min_z,
                w: max_x - min_x,
                h: max_y - min_y,
                d: thickness,
            },
        );
        proof {
            assert(boxes@ =~= seq![boxes@[0]]);
        }
        crate::mesh::build_boxes_mesh(&boxes)
    } else {
        Mesh::new()
    }
}

/// Consolidate a variable-height object pair: the base becomes its bounding
/// box, the overlay one box per quantized height group. Flat-top pairs are
/// returned unchanged.
pub fn optimize_mesh_layers(objects: PrintObjects, flat_top: bool) -> (out: PrintObjects)
    requires
        !flat_top ==> mesh_wf(objects.white_mesh),
        !flat_top ==> mesh_coords_bounded(objects.white_mesh),
    ensures
        flat_top ==> out.black_mesh.vertices@ == objects.black_mesh.vertices@
            && out.black_mesh.triangles@ == objects.black_mesh.triangles@
            && out.white_mesh.vertices@ == objects.white_mesh.vertices@
            && out.white_mesh.triangles@ == objects.white_mesh.triangles@,
        !flat_top ==> ({
            let b = spec_mesh_bounds(objects.black_mesh.vertices@);
            if objects.black_mesh.vertices@.len() == 0 || b.5 == b.4 {
                mesh_is_boxes(out.black_mesh, Seq::empty())
            } else {
                mesh_is_boxes(
                    out.black_mesh,
                    seq![
                        BoxSpec {
                            x: b.0 as u64,
                            y: b.2 as u64,
                            z: b.4 as u64,
                            w: (b.1 - b.0) as u64,
                            h: (b.3 - b.2) as u64,
                            d: (b.5 - b.4) as u64,
                        },
                    ],
                )
            }
        }),
        !flat_top ==> exists|boxes: Seq<BoxSpec>|
            {
                &&& #[trigger] mesh_is_boxes(out.white_mesh, boxes)
                &&& forall|bi: int| 0 <= bi < boxes.len() ==> (#[trigger] boxes[bi]).d > 1
                &&& forall|ti: int|
                    0 <= ti < objects.white_mesh.triangles@.len() && spec_quant(
                        tri_max_z(objects.white_mesh.vertices@, objects.white_mesh.triangles@[ti]),
                    ) - spec_quant(
                        tri_min_z(objects.white_mesh.vertices@, objects.white_mesh.triangles@[ti]),
                    ) > 1 ==> exists|bi: int|
                        0 <= bi < boxes.len() && box_bounds_tri(
                            objects.white_mesh.vertices@,
                            #[trigger] objects.white_mesh.triangles@[ti],
                            boxes[bi],
                        )
                &&& forall|b1: int, b2: int|
                    0 <= b1 < b2 < boxes.len() ==> !((#[trigger] boxes[b1]).z
                        == (#[trigger] boxes[b2]).z && boxes[b1].d == boxes[b2].d)
                &&& forall|bi: int|
                    0 <= bi < boxes.len() ==> box_attained(
                        objects.white_mesh.vertices@,
                        objects.white_mesh.triangles@,
                        #[trigger] boxes[bi],
                    )
            },
{
    if flat_top {
        objects
    } else {
        let black_mesh = consolidate_uniform_layer(&objects.black_mesh);
        let white_mesh = consolidate_by_height(&objects.white_mesh);
        let out = PrintObjects { black_mesh, white_mesh };
        proof {
            let boxes = choose|boxes: Seq<BoxSpec>|
                {
                    &&& #[trigger] mesh_is_boxes(white_mesh, boxes)
                    &&& forall|bi: int| 0 <= bi < boxes.len() ==> (#[trigger] boxes[bi]).d > 1
                    &&& forall|ti: int|
                        0 <= ti < objects.white_mesh.triangles@.len() && spec_quant(
                            tri_max_z(
                                objects.white_mesh.vertices@,
                                objects.white_mesh.triangles@[ti],
                            ),
                        ) - spec_quant(
                            tri_min_z(
                                objects.white_mesh.vertices@,
                                objects.white_mesh.triangles@[ti],
                            ),
                        ) > 1 ==> exists|bi: int|
                            0 <= bi < boxes.len() && box_bounds_tri(
                                objects.white_mesh.vertices@,
                                #[trigger] objects.white_mesh.triangles@[ti],
                                boxes[bi],
                            )
                    &&& forall|b1: int, b2: int|
                        0 <= b1 < b2 < boxes.len() ==> !((#[trigger] boxes[b1]).z
                            == (#[trigger] boxes[b2]).z && boxes[b1].d == boxes[b2].d)
                    &&& forall|bi: int|
                        0 <= bi < boxes.len() ==> box_attained(
                            objects.white_mesh.vertices@,
                            objects.white_mesh.triangles@,
                            #[trigger] boxes[bi],
                        )
                };
            assert(mesh_is_boxes(out.white_mesh, boxes));
        }
        out
    }
}

} // verus!
