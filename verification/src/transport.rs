use vstd::prelude::*;
use crate::color::Color;
use crate::mesh::PrintObjects;
use crate::palette::ColorPalette;

verus! {

/// A palette as the front ends exchange it: raw channel triples beside the
/// layer counts, with an optional identifier.
pub struct PaletteData {
    pub id: Option<String>,
    pub colors: Vec<[u8; 3]>,
    pub layer_counts: Vec<u32>,
}

impl PaletteData {
    /// The palette this record describes.
    pub fn to_color_palette(&self) -> (p: ColorPalette)
        ensures
            p.colors@.len() == self.colors@.len(),
            forall|i: int|
                0 <= i < self.colors@.len() ==> p.colors@[i] == (Color {
                    r: self.colors@[i][0],
                    g: self.colors@[i][1],
                    b: self.colors@[i][2],
                }),
            p.layer_counts@ == self.layer_counts@,
    {
        let n = self.colors.len();
        let mut colors: Vec<Color> = Vec::new();
        let mut i: usize = 0;
        while i < n
            invariant
                n == self.colors@.len(),
                i <= n,
                colors@.len() == i,
                forall|j: int|
                    0 <= j < i ==> colors@[j] == (Color {
                        r: self.colors@[j][0],
                        g: self.colors@[j][1],
                        b: self.colors@[j][2],
                    }),
            decreases n - i,
        {
            let c = self.colors[i];
            colors.push(Color { r: c[0], g: c[1], b: c[2] });
            i = i + 1;
        }
        let m = self.layer_counts.len();
        let mut layer_counts: Vec<u32> = Vec::new();
        let mut k: usize = 0;
        while k < m
            invariant
                m == self.layer_counts@.len(),
                k <= m,
                layer_counts@.len() == k,
                forall|j: int| 0 <= j < k ==> layer_counts@[j] == self.layer_counts@[j],
            decreases m - k,
        {
            layer_counts.push(self.layer_counts[k]);
            k = k + 1;
        }
        proof {
            assert(layer_counts@ =~= self.layer_counts@);
        }
        ColorPalette { colors, layer_counts }
    }
}

/// One filament as the calibration front end names it.
pub struct FilamentInfo {
    pub brand: String,
    pub color: String,
    pub material: String,
}

/// The size report of a generated mesh pair.
pub struct MeshStats {
    pub output_path: String,
    pub black_vertices: usize,
    pub black_triangles: usize,
    pub white_vertices: usize,
    pub white_triangles: usize,
}

impl MeshStats {
    /// Count the vertices and triangles of both meshes.
    pub fn of_objects(objects: &PrintObjects, output_path: String) -> (s: MeshStats)
        ensures
            s.black_vertices == objects.black_mesh.vertices@.len(),
            s.black_triangles == objects.black_mesh.triangles@.len(),
            s.white_vertices == objects.white_mesh.vertices@.len(),
            s.white_triangles == objects.white_mesh.triangles@.len(),
            s.output_path == output_path,
    {
        MeshStats {
            output_path,
            black_vertices: objects.black_mesh.vertices.len(),
            black_triangles: objects.black_mesh.triangles.len(),
            white_vertices: objects.white_mesh.vertices.len(),
            white_triangles: objects.white_mesh.triangles.len(),
        }
    }
}

} // verus!
