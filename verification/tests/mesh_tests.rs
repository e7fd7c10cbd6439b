use printspots::calibration::generate_calibration_objects;
use printspots::color::Color;
use printspots::config::PrintConfig;
use printspots::export::build_3mf_plan;
use printspots::generate::generate_image;
use printspots::mesh::{generate_box, Mesh, PrintObjects, Triangle, Vertex};
use printspots::optimize::{consolidate_by_height, optimize_mesh_layers};
use printspots::palette::ColorPalette;
use printspots::raster::Raster;
use printspots::transport::MeshStats;

fn grey(v: u8) -> Color {
    Color { r: v, g: v, b: v }
}

fn test_config() -> PrintConfig {
    PrintConfig {
        base_thickness_um: 1000,
        layer_thickness_um: 50,
        image_size_um: 10_000,
        max_layers: 19,
    }
}

fn black_white_palette() -> ColorPalette {
    ColorPalette {
        colors: vec![grey(0), grey(255)],
        layer_counts: vec![0, 1],
    }
}

#[test]
fn box_has_eight_vertices_and_twelve_triangles() {
    let mut mesh = Mesh::new();
    generate_box(&mut mesh.vertices, &mut mesh.triangles, 0, 0, 0, 10, 20, 30);
    assert_eq!(mesh.vertices.len(), 8);
    assert_eq!(mesh.triangles.len(), 12);
    assert_eq!(mesh.vertices[0], Vertex { x: 0, y: 0, z: 0 });
    assert_eq!(mesh.vertices[6], Vertex { x: 10, y: 20, z: 30 });
    assert_eq!(mesh.triangles[0], Triangle { v1: 0, v2: 3, v3: 2 });
    // a second box gets fresh vertex slots
    generate_box(&mut mesh.vertices, &mut mesh.triangles, 1, 1, 1, 2, 2, 2);
    assert_eq!(mesh.vertices.len(), 16);
    assert_eq!(mesh.triangles.len(), 24);
    assert_eq!(mesh.triangles[12], Triangle { v1: 8, v2: 11, v3: 10 });
}

#[test]
fn scenario_uniform_black_image_yields_base_only() {
    // a uniform 10 x 10 black image: one black base box over the whole
    // canvas at base thickness, and an empty white mesh
    let image = Raster::new(10, 10, grey(0));
    let palette = black_white_palette();
    let config = test_config();
    let objects = generate_image(&image, &palette, &config, false);

    assert_eq!(objects.black_mesh.vertices.len(), 8);
    assert_eq!(objects.black_mesh.triangles.len(), 12);
    let far = objects.black_mesh.vertices[6];
    // 10 mm over the 10-pixel edge: one millimeter per pixel
    assert_eq!(far, Vertex { x: 10_000, y: 10_000, z: 1000 });
    assert!(objects.white_mesh.vertices.is_empty());
    assert!(objects.white_mesh.triangles.is_empty());
}

#[test]
fn white_regions_sit_on_the_base() {
    let mut image = Raster::new(4, 4, grey(0));
    for y in 0..2u32 {
        for x in 0..2u32 {
            image.put_pixel(x, y, grey(255));
        }
    }
    let palette = black_white_palette();
    let config = test_config();
    let objects = generate_image(&image, &palette, &config, false);
    // one black base box and one white box over the 2 x 2 region
    assert_eq!(objects.black_mesh.vertices.len(), 8);
    assert_eq!(objects.white_mesh.vertices.len(), 8);
    let lo = objects.white_mesh.vertices[0];
    let hi = objects.white_mesh.vertices[6];
    assert_eq!(lo, Vertex { x: 0, y: 0, z: 1000 });
    assert_eq!(hi, Vertex { x: 5000, y: 5000, z: 1050 });
}

#[test]
fn flat_top_mode_keeps_stack_height_constant() {
    let mut image = Raster::new(2, 1, grey(0));
    image.put_pixel(1, 0, grey(255));
    let palette = black_white_palette();
    let config = test_config();
    let objects = generate_image(&image, &palette, &config, true);
    // both cells get a black box; the white cell's stack reaches the same
    // height as the black-only cell's
    assert_eq!(objects.black_mesh.vertices.len(), 16);
    assert_eq!(objects.white_mesh.vertices.len(), 8);
    let black_only_top = objects
        .black_mesh
        .vertices
        .iter()
        .map(|v| v.z)
        .max()
        .unwrap();
    let white_top = objects.white_mesh.vertices.iter().map(|v| v.z).max().unwrap();
    assert_eq!(black_only_top, 1000 + 19 * 50);
    assert_eq!(white_top, 1000 + 19 * 50);
}

#[test]
fn scenario_calibration_pattern_grid() {
    // max_layers = 19 and 10 mm squares: 20 boxes in a five-wide grid
    let config = test_config();
    let objects = generate_calibration_objects(&config, 10_000, false);
    assert_eq!(objects.black_mesh.vertices.len(), 20 * 8);
    assert_eq!(objects.white_mesh.vertices.len(), 19 * 8);
    for lc in 0..20u32 {
        let base = (lc * 8) as usize;
        let lo = objects.black_mesh.vertices[base];
        let hi = objects.black_mesh.vertices[base + 6];
        assert_eq!(lo.x, (lc % 5) as u64 * 10_000);
        assert_eq!(lo.y, (lc / 5) as u64 * 10_000);
        assert_eq!(lo.z, 0);
        assert_eq!(hi.z, config.calculate_black_thickness(lc, false));
    }
    for lc in 1..20u32 {
        let base = ((lc - 1) * 8) as usize;
        let hi = objects.white_mesh.vertices[base + 6];
        assert_eq!(hi.z, config.calculate_total_height(lc, false));
    }
}

#[test]
fn calibration_flat_top_heights_match_formulas() {
    let config = test_config();
    let objects = generate_calibration_objects(&config, 10_000, true);
    for lc in 0..20u32 {
        let base = (lc * 8) as usize;
        let hi = objects.black_mesh.vertices[base + 6];
        assert_eq!(hi.z, config.calculate_black_thickness(lc, true));
    }
}

#[test]
fn consolidation_groups_same_height_boxes() {
    // two disconnected boxes at the same height collapse into one box that
    // spans both
    let mut mesh = Mesh::new();
    generate_box(&mut mesh.vertices, &mut mesh.triangles, 0, 0, 1000, 100, 100, 50);
    generate_box(&mut mesh.vertices, &mut mesh.triangles, 500, 0, 1000, 100, 100, 50);
    let out = consolidate_by_height(&mesh);
    assert_eq!(out.vertices.len(), 8);
    let lo = out.vertices[0];
    let hi = out.vertices[6];
    assert_eq!(lo, Vertex { x: 0, y: 0, z: 1000 });
    assert_eq!(hi, Vertex { x: 600, y: 100, z: 1050 });
}

#[test]
fn consolidation_drops_boxes_at_or_below_a_micrometer() {
    let mut mesh = Mesh::new();
    // a box whose quantized thickness is zero: both faces round to the same
    // hundredth of a millimeter
    generate_box(&mut mesh.vertices, &mut mesh.triangles, 0, 0, 1000, 100, 100, 1);
    let out = consolidate_by_height(&mesh);
    assert!(out.vertices.is_empty());
    assert!(out.triangles.is_empty());
}

#[test]
fn optimize_keeps_flat_top_objects_unchanged() {
    let mut mesh = Mesh::new();
    generate_box(&mut mesh.vertices, &mut mesh.triangles, 0, 0, 0, 10, 10, 10);
    let objects = PrintObjects { black_mesh: mesh, white_mesh: Mesh::new() };
    let out = optimize_mesh_layers(objects, true);
    assert_eq!(out.black_mesh.vertices.len(), 8);
    assert!(out.white_mesh.vertices.is_empty());
}

#[test]
fn optimize_consolidates_variable_height_objects() {
    let mut black = Mesh::new();
    generate_box(&mut black.vertices, &mut black.triangles, 0, 0, 0, 1000, 1000, 1000);
    let mut white = Mesh::new();
    generate_box(&mut white.vertices, &mut white.triangles, 0, 0, 1000, 100, 100, 100);
    generate_box(&mut white.vertices, &mut white.triangles, 300, 300, 1000, 100, 100, 100);
    let objects = PrintObjects { black_mesh: black, white_mesh: white };
    let out = optimize_mesh_layers(objects, false);
    assert_eq!(out.black_mesh.vertices.len(), 8);
    // the two same-height white boxes merge into one
    assert_eq!(out.white_mesh.vertices.len(), 8);
    let hi = out.white_mesh.vertices[6];
    assert_eq!(hi, Vertex { x: 400, y: 400, z: 1100 });
}

#[test]
fn scenario_empty_objects_export_no_build_item() {
    // both meshes empty: a container without geometry objects or build item
    let objects = PrintObjects { black_mesh: Mesh::new(), white_mesh: Mesh::new() };
    let plan = build_3mf_plan(&objects);
    assert!(plan.objects.is_empty());
    assert!(plan.parent_id.is_none());
    assert!(plan.build_item.is_none());
    assert!(plan.component_ids.is_empty());
    assert_eq!(plan.materials.len(), 2);
    assert_eq!(plan.materials[0].name, "Black");
    assert_eq!(plan.materials[0].displaycolor, "#000000");
    assert_eq!(plan.materials[1].name, "White");
    assert_eq!(plan.materials[1].displaycolor, "#FFFFFF");
}

#[test]
fn export_plan_links_objects_to_parent() {
    let mut black = Mesh::new();
    generate_box(&mut black.vertices, &mut black.triangles, 0, 0, 0, 10, 10, 10);
    let mut white = Mesh::new();
    generate_box(&mut white.vertices, &mut white.triangles, 0, 0, 10, 10, 10, 10);
    let objects = PrintObjects { black_mesh: black, white_mesh: white };
    let plan = build_3mf_plan(&objects);
    assert_eq!(plan.objects.len(), 2);
    assert_eq!(plan.objects[0].id, 1);
    assert_eq!(plan.objects[0].material_index, 0);
    assert_eq!(plan.objects[1].id, 2);
    assert_eq!(plan.objects[1].material_index, 1);
    assert_eq!(plan.parent_id, Some(3));
    assert_eq!(plan.build_item, Some(3));
    assert_eq!(plan.component_ids, vec![1, 2]);
}

#[test]
fn export_plan_skips_the_empty_white_mesh() {
    let mut black = Mesh::new();
    generate_box(&mut black.vertices, &mut black.triangles, 0, 0, 0, 10, 10, 10);
    let objects = PrintObjects { black_mesh: black, white_mesh: Mesh::new() };
    let plan = build_3mf_plan(&objects);
    assert_eq!(plan.objects.len(), 1);
    assert_eq!(plan.objects[0].material_index, 0);
    assert_eq!(plan.parent_id, Some(2));
}

#[test]
fn mesh_stats_count_vertices_and_triangles() {
    let mut black = Mesh::new();
    generate_box(&mut black.vertices, &mut black.triangles, 0, 0, 0, 10, 10, 10);
    let objects = PrintObjects { black_mesh: black, white_mesh: Mesh::new() };
    let stats = MeshStats::of_objects(&objects, "out.3mf".to_string());
    assert_eq!(stats.black_vertices, 8);
    assert_eq!(stats.black_triangles, 12);
    assert_eq!(stats.white_vertices, 0);
    assert_eq!(stats.white_triangles, 0);
    assert_eq!(stats.output_path, "out.3mf");
}

#[test]
fn consolidation_rounds_heights_to_hundredths() {
    // faces at 1000 and 1006 micrometers round to 1000 and 1010: the
    // replacement box stands on the rounded range
    let mut mesh = Mesh::new();
    generate_box(&mut mesh.vertices, &mut mesh.triangles, 0, 0, 1000, 50, 50, 6);
    let out = consolidate_by_height(&mesh);
    assert_eq!(out.vertices.len(), 8);
    assert_eq!(out.vertices[0].z, 1000);
    assert_eq!(out.vertices[6].z, 1010);
}
