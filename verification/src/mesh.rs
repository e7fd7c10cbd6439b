use vstd::prelude::*;

verus! {

/// An axis-aligned pixel rectangle: cells (x, y) through
/// (x + width - 1, y + height - 1).
#[derive(Clone, Copy, PartialEq, Eq, Structural, Debug)]
pub struct Rectangle {
    pub x: u32,
    pub y: u32,
    pub width: u32,
    pub height: u32,
}

/// Whether a rectangle covers the pixel `p`.
pub open spec fn rect_covers(r: Rectangle, p: (u32, u32)) -> bool {
    &&& r.x <= p.0 < r.x + r.width
    &&& r.y <= p.1 < r.y + r.height
}

/// A mesh vertex; coordinates in micrometers.
#[derive(Clone, Copy, PartialEq, Eq, Structural, Debug)]
pub struct Vertex {
    pub x: u64,
    pub y: u64,
    pub z: u64,
}

/// A triangle over vertex positions in a mesh's vertex list.
#[derive(Clone, Copy, PartialEq, Eq, Structural, Debug)]
pub struct Triangle {
    pub v1: usize,
    pub v2: usize,
    pub v3: usize,
}

/// An ordered vertex list and an ordered triangle list; triangles reference
/// vertices by position, and vertices are never reordered once inserted.
#[derive(Clone, Debug)]
pub struct Mesh {
    pub vertices: Vec<Vertex>,
    pub triangles: Vec<Triangle>,
}

/// The pair of meshes one print is made of: the opaque base and the
/// translucent overlay.
#[derive(Clone, Debug)]
pub struct PrintObjects {
    pub black_mesh: Mesh,
    pub white_mesh: Mesh,
}

/// An axis-aligned box: corner (x, y, z), extents (w, h, d), micrometers.
#[derive(Clone, Copy, PartialEq, Eq, Structural, Debug)]
pub struct BoxSpec {
    pub x: u64,
    pub y: u64,
    pub z: u64,
    pub w: u64,
    pub h: u64,
    pub d: u64,
}

/// The box's far corner still fits in the coordinate type.
pub open spec fn box_wf(b: BoxSpec) -> bool {
    &&& b.x + b.w <= u64::MAX
    &&& b.y + b.h <= u64::MAX
    &&& b.z + b.d <= u64::MAX
}

/// The eight corners of a box, in the fixed emission order.
pub open spec fn spec_box_vertices(b: BoxSpec) -> Seq<Vertex> {
    seq![
        Vertex { x: b.x, y: b.y, z: b.z },
        Vertex { x: (b.x + b.w) as u64, y: b.y, z: b.z },
        Vertex { x: (b.x + b.w) as u64, y: (b.y + b.h) as u64, z: b.z },
        Vertex { x: b.x, y: (b.y + b.h) as u64, z: b.z },
        Vertex { x: b.x, y: b.y, z: (b.z + b.d) as u64 },
        Vertex { x: (b.x + b.w) as u64, y: b.y, z: (b.z + b.d) as u64 },
        Vertex { x: (b.x + b.w) as u64, y: (b.y + b.h) as u64, z: (b.z + b.d) as u64 },
        Vertex { x: b.x, y: (b.y + b.h) as u64, z: (b.z + b.d) as u64 },
    ]
}

/// One face's two triangles over the four corner slots `v0 .. v3`, offset by
/// the box's first vertex position.
pub open spec fn spec_quad_triangles(base: int, v0: int, v1: int, v2: int, v3: int) -> Seq<
    Triangle,
> {
    seq![
        Triangle { v1: (base + v0) as usize, v2: (base + v1) as usize, v3: (base + v2) as usize },
        Triangle { v1: (base + v0) as usize, v2: (base + v2) as usize, v3: (base + v3) as usize },
    ]
}

/// The twelve triangles of a box whose first vertex sits at position `base`:
/// bottom, top, front, right, back, left, two triangles each.
pub open spec fn spec_box_triangles(base: int) -> Seq<Triangle> {
    spec_quad_triangles(base, 0, 3, 2, 1) + spec_quad_triangles(base, 4, 5, 6, 7)
        + spec_quad_triangles(base, 0, 1, 5, 4) + spec_quad_triangles(base, 1, 2, 6, 5)
        + spec_quad_triangles(base, 2, 3, 7, 6) + spec_quad_triangles(base, 3, 0, 4, 7)
}

/// The vertex list of a mesh made of `boxes`, in order.
pub open spec fn spec_boxes_vertices(boxes: Seq<BoxSpec>) -> Seq<Vertex>
    decreases boxes.len(),
{
    if boxes.len() == 0 {
        Seq::empty()
    } else {
        spec_boxes_vertices(boxes.drop_last()) + spec_box_vertices(boxes.last())
    }
}

/// The triangle list of a mesh made of `boxes`: box `i`'s triangles start at
/// vertex position `8 i`.
pub open spec fn spec_boxes_triangles(boxes: Seq<BoxSpec>) -> Seq<Triangle>
    decreases boxes.len(),
{
    if boxes.len() == 0 {
        Seq::empty()
    } else {
        spec_boxes_triangles(boxes.drop_last()) + spec_box_triangles(8 * (boxes.len() - 1))
    }
}

/// The mesh is exactly the given boxes, emitted in order.
pub open spec fn mesh_is_boxes(m: Mesh, boxes: Seq<BoxSpec>) -> bool {
    &&& m.vertices@ == spec_boxes_vertices(boxes)
    &&& m.triangles@ == spec_boxes_triangles(boxes)
}

impl Mesh {
    /// An empty mesh.
    pub fn new() -> (m: Mesh)
        ensures
            m.vertices@ == Seq::<Vertex>::empty(),
            m.triangles@ == Seq::<Triangle>::empty(),
            mesh_is_boxes(m, Seq::empty()),
    {
        let m = Mesh { vertices: Vec::new(), triangles: Vec::new() };
        proof {
            assert(m.vertices@ =~= spec_boxes_vertices(Seq::empty()));
            assert(m.triangles@ =~= spec_boxes_triangles(Seq::empty()));
        }
        m
    }
}

impl Mesh {
    /// An independent copy with identical vertex and triangle lists.
    pub fn clone_mesh(&self) -> (m: Mesh)
        ensures
            m.vertices@ == self.vertices@,
            m.triangles@ == self.triangles@,
    {
        let nv = self.vertices.len();
        let mut vertices: Vec<Vertex> = Vec::new();
        let mut i: usize = 0;
        while i < nv
            invariant
                nv == self.vertices@.len(),
                i <= nv,
                vertices@.len() == i,
                forall|j: int| 0 <= j < i ==> vertices@[j] == self.vertices@[j],
            decreases nv - i,
        {
            vertices.push(self.vertices[i]);
            i = i + 1;
        }
        let nt = self.triangles.len();
        let mut triangles: Vec<Triangle> = Vec::new();
        let mut k: usize = 0;
        while k < nt
            invariant
                nt == self.triangles@.len(),
                k <= nt,
                triangles@.len() == k,
                forall|j: int| 0 <= j < k ==> triangles@[j] == self.triangles@[j],
            decreases nt - k,
        {
            triangles.push(self.triangles[k]);
            k = k + 1;
        }
        let m = Mesh { vertices, triangles };
        proof {
            assert(m.vertices@ =~= self.vertices@);
            assert(m.triangles@ =~= self.triangles@);
        }
        m
    }
}

/// A mesh made of boxes has as many vertices as eight per box.
pub proof fn lemma_boxes_vertices_len(boxes: Seq<BoxSpec>)
    ensures
        spec_boxes_vertices(boxes).len() == 8 * boxes.len(),
        spec_boxes_triangles(boxes).len() == 12 * boxes.len(),
    decreases boxes.len(),
{
    if boxes.len() > 0 {
        lemma_boxes_vertices_len(boxes.drop_last());
    }
}

fn add_quad_triangles(triangles: &mut Vec<Triangle>, base: usize, v0: usize, v1: usize, v2: usize, v3: usize)
    requires
        base + 7 <= usize::MAX,
        v0 <= 7,
        v1 <= 7,
        v2 <= 7,
        v3 <= 7,
    ensures
        final(triangles)@ == old(triangles)@ + spec_quad_triangles(
            base as int,
            v0 as int,
            v1 as int,
            v2 as int,
            v3 as int,
        ),
{
    let ghost pre = triangles@;
    triangles.push(Triangle { v1: base + v0, v2: base + v1, v3: base + v2 });
    triangles.push(Triangle { v1: base + v0, v2: base + v2, v3: base + v3 });
    proof {
        assert(triangles@ =~= pre + spec_quad_triangles(
            base as int,
            v0 as int,
            v1 as int,
            v2 as int,
            v3 as int,
        ));
    }
}

/// Append the eight vertices and twelve triangles of one box. Vertex slots
/// are fresh: nothing is shared with boxes already in the lists.
pub fn generate_box(
    vertices: &mut Vec<Vertex>,
    triangles: &mut Vec<Triangle>,
    x: u64,
    y: u64,
    z: u64,
    width: u64,
    height: u64,
    depth: u64,
)
    requires
        x + width <= u64::MAX,
        y + height <= u64::MAX,
        z + depth <= u64::MAX,
    ensures
        final(vertices)@ == old(vertices)@ + spec_box_vertices(
            BoxSpec { x, y, z, w: width, h: height, d: depth },
        ),
        final(triangles)@ == old(triangles)@ + spec_box_triangles(old(vertices)@.len() as int),
{
    let ghost pre_v = vertices@;
    let ghost pre_t = triangles@;
    let ghost b = BoxSpec { x, y, z, w: width, h: height, d: depth };

    vertices.push(Vertex { x, y, z });
    vertices.push(Vertex { x: x + width, y, z });
    vertices.push(Vertex { x: x + width, y: y + height, z });
    vertices.push(Vertex { x, y: y + height, z });
    vertices.push(Vertex { x, y, z: z + depth });
    vertices.push(Vertex { x: x + width, y, z: z + depth });
    vertices.push(Vertex { x: x + width, y: y + height, z: z + depth });
    vertices.push(Vertex { x, y: y + height, z: z + depth });
    proof {
        assert(vertices@ =~= pre_v + spec_box_vertices(b));
    }
    let after: usize = vertices.len();
    let base: usize = after - 8;

    add_quad_triangles(triangles, base, 0, 3, 2, 1);
    add_quad_triangles(triangles, base, 4, 5, 6, 7);
    add_quad_triangles(triangles, base, 0, 1, 5, 4);
    add_quad_triangles(triangles, base, 1, 2, 6, 5);
    add_quad_triangles(triangles, base, 2, 3, 7, 6);
    add_quad_triangles(triangles, base, 3, 0, 4, 7);
    proof {
        assert(triangles@ =~= pre_t + spec_box_triangles(base as int));
    }
}

/// Build the mesh of the given boxes, in order.
pub fn build_boxes_mesh(boxes: &Vec<BoxSpec>) -> (m: Mesh)
    requires
        forall|i: int| 0 <= i < boxes@.len() ==> box_wf(#[trigger] boxes@[i]),
    ensures
        mesh_is_boxes(m, boxes@),
{
    let mut m = Mesh::new();
    let n = boxes.len();
    let mut i: usize = 0;
    while i < n
        invariant
            n == boxes@.len(),
            i <= n,
            forall|j: int| 0 <= j < n ==> box_wf(#[trigger] boxes@[j]),
            mesh_is_boxes(m, boxes@.take(i as int)),
        decreases n - i,
    {
        let b = boxes[i];
        proof {
            lemma_boxes_vertices_len(boxes@.take(i as int));
        }
        generate_box(&mut m.vertices, &mut m.triangles, b.x, b.y, b.z, b.w, b.h, b.d);
        proof {
            assert(boxes@.take(i + 1).drop_last() =~= boxes@.take(i as int));
            assert(m.vertices@ =~= spec_boxes_vertices(boxes@.take(i + 1)));
            assert(m.triangles@ =~= spec_boxes_triangles(boxes@.take(i + 1)));
        }
        i = i + 1;
    }
    proof {
        assert(boxes@.take(n as int) =~= boxes@);
    }
    m
}

} // verus!
