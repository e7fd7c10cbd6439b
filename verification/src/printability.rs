use vstd::prelude::*;
use crate::color::Color;
use crate::config::{PrintConfig, PrintingConstraints};
use crate::palette::ColorPalette;
use crate::raster::Raster;

verus! {

/// The smaller of two layer counts.
pub open spec fn spec_min_u32(a: u32, b: u32) -> u32 {
    if a <= b {
        a
    } else {
        b
    }
}

/// The larger of two layer counts.
pub open spec fn spec_max_u32(a: u32, b: u32) -> u32 {
    if a >= b {
        a
    } else {
        b
    }
}

/// The layer count of the cell at offset (dx, dy) from (x, y).
pub open spec fn spec_nb_count(
    img: Seq<Color>,
    pal: ColorPalette,
    w: int,
    x: int,
    y: int,
    dx: int,
    dy: int,
) -> u32 {
    pal.spec_layer_count_for_color(img[(y + dy) * w + (x + dx)])
}

/// The extreme layer count over the 3-by-3 neighborhood of (x, y):
/// the maximum when `dilate` is set, the minimum otherwise.
pub open spec fn spec_nb_extreme(
    img: Seq<Color>,
    pal: ColorPalette,
    w: int,
    x: int,
    y: int,
    dilate: bool,
) -> u32 {
    let c = spec_nb_count(img, pal, w, x, y, 0, 0);
    let m1 = spec_comb(c, spec_nb_count(img, pal, w, x, y, -1, -1), dilate);
    let m2 = spec_comb(m1, spec_nb_count(img, pal, w, x, y, 0, -1), dilate);
    let m3 = spec_comb(m2, spec_nb_count(img, pal, w, x, y, 1, -1), dilate);
    let m4 = spec_comb(m3, spec_nb_count(img, pal, w, x, y, -1, 0), dilate);
    let m5 = spec_comb(m4, spec_nb_count(img, pal, w, x, y, 0, 0), dilate);
    let m6 = spec_comb(m5, spec_nb_count(img, pal, w, x, y, 1, 0), dilate);
    let m7 = spec_comb(m6, spec_nb_count(img, pal, w, x, y, -1, 1), dilate);
    let m8 = spec_comb(m7, spec_nb_count(img, pal, w, x, y, 0, 1), dilate);
    spec_comb(m8, spec_nb_count(img, pal, w, x, y, 1, 1), dilate)
}

/// Minimum or maximum, as one operation.
pub open spec fn spec_comb(a: u32, b: u32, dilate: bool) -> u32 {
    if dilate {
        spec_max_u32(a, b)
    } else {
        spec_min_u32(a, b)
    }
}

/// Whether cell (x, y) lies strictly inside the grid: the one-pixel border
/// is excluded from morphological processing.
pub open spec fn spec_interior(x: int, y: int, w: int, h: int) -> bool {
    1 <= x < w - 1 && 1 <= y < h - 1
}

/// One morphological pass over the raster: each interior cell takes the
/// palette color of its neighborhood's extreme layer count (kept unchanged
/// when the palette has no color for it); border cells are untouched.
pub open spec fn spec_morph(
    img: Seq<Color>,
    pal: ColorPalette,
    w: int,
    h: int,
    dilate: bool,
) -> Seq<Color> {
    Seq::new(
        img.len(),
        |i: int|
            {
                let x = i % w;
                let y = i / w;
                if spec_interior(x, y, w, h) {
                    match pal.spec_color_for_layer_count(
                        spec_nb_extreme(img, pal, w, x, y, dilate),
                    ) {
                        Some(c) => c,
                        None => img[i],
                    }
                } else {
                    img[i]
                }
            },
    )
}

fn comb(a: u32, b: u32, dilate: bool) -> (r: u32)
    ensures
        r == spec_comb(a, b, dilate),
{
    if dilate {
        if a >= b {
            a
        } else {
            b
        }
    } else {
        if a <= b {
            a
        } else {
            b
        }
    }
}

/// The neighborhood extreme of an interior cell, read from the raster.
fn nb_extreme(image: &Raster, palette: &ColorPalette, x: u32, y: u32, dilate: bool) -> (m: u32)
    requires
        image.wf(),
        palette.wf(),
        spec_interior(x as int, y as int, image.spec_width() as int, image.spec_height() as int),
    ensures
        m == spec_nb_extreme(
            image@,
            *palette,
            image.spec_width() as int,
            x as int,
            y as int,
            dilate,
        ),
{
    let c = palette.get_layer_count_for_color(&image.get_pixel(x, y));
    let mut m = c;
    m = comb(m, palette.get_layer_count_for_color(&image.get_pixel(x - 1, y - 1)), dilate);
    m = comb(m, palette.get_layer_count_for_color(&image.get_pixel(x, y - 1)), dilate);
    m = comb(m, palette.get_layer_count_for_color(&image.get_pixel(x + 1, y - 1)), dilate);
    m = comb(m, palette.get_layer_count_for_color(&image.get_pixel(x - 1, y)), dilate);
    m = comb(m, palette.get_layer_count_for_color(&image.get_pixel(x, y)), dilate);
    m = comb(m, palette.get_layer_count_for_color(&image.get_pixel(x + 1, y)), dilate);
    m = comb(m, palette.get_layer_count_for_color(&image.get_pixel(x - 1, y + 1)), dilate);
    m = comb(m, palette.get_layer_count_for_color(&image.get_pixel(x, y + 1)), dilate);
    m = comb(m, palette.get_layer_count_for_color(&image.get_pixel(x + 1, y + 1)), dilate);
    m
}

/// One erosion or dilation pass.
fn morph_pass(image: &Raster, palette: &ColorPalette, dilate: bool) -> (out: Raster)
    requires
        image.wf(),
        palette.wf(),
    ensures
        out.wf(),
        out.spec_width() == image.spec_width(),
        out.spec_height() == image.spec_height(),
        out@ == spec_morph(
            image@,
            *palette,
            image.spec_width() as int,
            image.spec_height() as int,
            dilate,
        ),
{
    let (width, height) = image.dimensions();
    let ghost w = width as int;
    let ghost h = height as int;
    let mut result = image.clone_raster();
    let mut y: u32 = 1;
    while y + 1 < height
        invariant
            image.wf(),
            result.wf(),
            palette.wf(),
            width == image.spec_width(),
            height == image.spec_height(),
            w == width as int,
            h == height as int,
            result.spec_width() == width,
            result.spec_height() == height,
            1 <= y,
            height >= 3 ==> y <= height - 1,
            height < 3 ==> y == 1,
            forall|xx: int, yy: int|
                spec_interior(xx, yy, w, h) && yy < y ==> result.spec_pixel(xx, yy)
                    == spec_morph_cell(image@, *palette, w, h, xx, yy, dilate),
            forall|xx: int, yy: int|
                0 <= xx < w && 0 <= yy < h && !(spec_interior(xx, yy, w, h) && yy < y)
                    ==> result.spec_pixel(xx, yy) == image.spec_pixel(xx, yy),
        decreases height - y,
    {
        let mut x: u32 = 1;
        while x + 1 < width
            invariant
                image.wf(),
                result.wf(),
                palette.wf(),
                width == image.spec_width(),
                height == image.spec_height(),
                w == width as int,
                h == height as int,
                result.spec_width() == width,
                result.spec_height() == height,
                1 <= y,
                y + 1 < height,
                1 <= x,
                width >= 3 ==> x <= width - 1,
                width < 3 ==> x == 1,
                forall|xx: int, yy: int|
                    spec_interior(xx, yy, w, h) && (yy < y || (yy == y && xx < x))
                        ==> result.spec_pixel(xx, yy) == spec_morph_cell(
                        image@,
                        *palette,
                        w,
                        h,
                        xx,
                        yy,
                        dilate,
                    ),
                forall|xx: int, yy: int|
                    0 <= xx < w && 0 <= yy < h && !(spec_interior(xx, yy, w, h) && (yy < y || (yy
                        == y && xx < x))) ==> result.spec_pixel(xx, yy) == image.spec_pixel(xx, yy),
            decreases width - x,
        {
            let m = nb_extreme(image, palette, x, y, dilate);
            let ghost pre = result;
            match palette.get_color_for_layer_count(m) {
                Some(color) => {
                    result.put_pixel(x, y, color);
                },
                None => (),
            }
            proof {
                pre.lemma_idx_in_bounds(x as int, y as int);
                assert forall|xx: int, yy: int|
                    0 <= xx < w && 0 <= yy < h && !(xx == x && yy == y) implies result.spec_pixel(
                    xx,
                    yy,
                ) == pre.spec_pixel(xx, yy) by {
                    pre.lemma_idx_in_bounds(xx, yy);
                    assert(yy * w + xx != (y as int) * w + x) by (nonlinear_arith)
                        requires
                            0 <= xx < w,
                            0 <= x < w,
                            0 <= yy,
                            0 <= y,
                            !(xx == x && yy == y),
                    ;
                }
                assert(result.spec_pixel(x as int, y as int) == spec_morph_cell(
                    image@,
                    *palette,
                    w,
                    h,
                    x as int,
                    y as int,
                    dilate,
                ));
            }
            x = x + 1;
        }
        y = y + 1;
    }
    proof {
        assert forall|i: int| 0 <= i < result@.len() implies result@[i] == spec_morph(
            image@,
            *palette,
            w,
            h,
            dilate,
        )[i] by {
            assert(w > 0 && h > 0) by (nonlinear_arith)
                requires
                    0 <= i < w * h,
                    w >= 0,
                    h >= 0,
            ;
            vstd::arithmetic::div_mod::lemma_fundamental_div_mod(i, w);
            vstd::arithmetic::div_mod::lemma_mod_bound(i, w);
            vstd::arithmetic::div_mod::lemma_div_pos_is_pos(i, w);
            let xx = i % w;
            let yy = i / w;
            assert(yy < h) by (nonlinear_arith)
                requires
                    i == w * yy + xx,
                    i < w * h,
                    0 <= xx < w,
                    0 <= yy,
            ;
            assert(yy * w + xx == i) by (nonlinear_arith)
                requires
                    i == w * yy + xx,
            ;
            assert(result.spec_pixel(xx, yy) == result@[i]);
            assert(image.spec_pixel(xx, yy) == image@[i]);
        }
        assert(result@ =~= spec_morph(image@, *palette, w, h, dilate));
    }
    result
}

/// The color an interior cell takes after one pass.
pub open spec fn spec_morph_cell(
    img: Seq<Color>,
    pal: ColorPalette,
    w: int,
    h: int,
    x: int,
    y: int,
    dilate: bool,
) -> Color {
    match pal.spec_color_for_layer_count(spec_nb_extreme(img, pal, w, x, y, dilate)) {
        Some(c) => c,
        None => img[y * w + x],
    }
}

/// Replace each interior cell by the palette color of the smallest layer
/// count in its 3-by-3 neighborhood.
pub fn morphological_erosion(image: &Raster, palette: &ColorPalette) -> (out: Raster)
    requires
        image.wf(),
        palette.wf(),
    ensures
        out.wf(),
        out.spec_width() == image.spec_width(),
        out.spec_height() == image.spec_height(),
        out@ == spec_morph(
            image@,
            *palette,
            image.spec_width() as int,
            image.spec_height() as int,
            false,
        ),
{
    morph_pass(image, palette, false)
}

/// Replace each interior cell by the palette color of the largest layer
/// count in its 3-by-3 neighborhood.
pub fn morphological_dilation(image: &Raster, palette: &ColorPalette) -> (out: Raster)
    requires
        image.wf(),
        palette.wf(),
    ensures
        out.wf(),
        out.spec_width() == image.spec_width(),
        out.spec_height() == image.spec_height(),
        out@ == spec_morph(
            image@,
            *palette,
            image.spec_width() as int,
            image.spec_height() as int,
            true,
        ),
{
    morph_pass(image, palette, true)
}

/// The raster after `k` openings: each pass erodes, then dilates.
pub open spec fn spec_morph_passes(
    img: Seq<Color>,
    pal: ColorPalette,
    w: int,
    h: int,
    k: int,
) -> Seq<Color>
    decreases k,
{
    if k <= 0 {
        img
    } else {
        let prev = spec_morph_passes(img, pal, w, h, k - 1);
        spec_morph(spec_morph(prev, pal, w, h, false), pal, w, h, true)
    }
}

/// Run `passes` openings (erosion followed by dilation): an opening removes
/// isolated thin protrusions without growing the overall silhouette.
pub fn apply_morphological_operations(image: &Raster, palette: &ColorPalette, passes: u32) -> (out:
    Raster)
    requires
        image.wf(),
        palette.wf(),
    ensures
        out.wf(),
        out.spec_width() == image.spec_width(),
        out.spec_height() == image.spec_height(),
        out@ == spec_morph_passes(
            image@,
            *palette,
            image.spec_width() as int,
            image.spec_height() as int,
            passes as int,
        ),
{
    let ghost w = image.spec_width() as int;
    let ghost h = image.spec_height() as int;
    let mut result = image.clone_raster();
    let mut k: u32 = 0;
    while k < passes
        invariant
            image.wf(),
            palette.wf(),
            result.wf(),
            w == image.spec_width() as int,
            h == image.spec_height() as int,
            result.spec_width() == image.spec_width(),
            result.spec_height() == image.spec_height(),
            k <= passes,
            result@ == spec_morph_passes(image@, *palette, w, h, k as int),
        decreases passes - k,
    {
        let eroded = morphological_erosion(&result, palette);
        result = morphological_dilation(&eroded, palette);
        k = k + 1;
    }
    result
}

/// The number of cells not yet visited.
pub open spec fn spec_unvisited(v: Seq<bool>) -> int
    decreases v.len(),
{
    if v.len() == 0 {
        0
    } else {
        spec_unvisited(v.drop_last()) + (if v.last() {
            0int
        } else {
            1int
        })
    }
}

/// The unvisited count is non-negative.
proof fn lemma_unvisited_nonneg(v: Seq<bool>)
    ensures
        spec_unvisited(v) >= 0,
    decreases v.len(),
{
    if v.len() > 0 {
        lemma_unvisited_nonneg(v.drop_last());
    }
}

/// Marking one unvisited cell lowers the unvisited count by one.
proof fn lemma_unvisited_mark(v: Seq<bool>, i: int)
    requires
        0 <= i < v.len(),
        !v[i],
    ensures
        spec_unvisited(v.update(i, true)) == spec_unvisited(v) - 1,
    decreases v.len(),
{
    if i == v.len() - 1 {
        assert(v.update(i, true).drop_last() =~= v.drop_last());
    } else {
        assert(v.update(i, true).drop_last() =~= v.drop_last().update(i, true));
        lemma_unvisited_mark(v.drop_last(), i);
    }
}

/// Two cells share an edge.
pub open spec fn adj4(a: (u32, u32), b: (u32, u32)) -> bool {
    ||| a.0 == b.0 && (a.1 == b.1 + 1 || b.1 == a.1 + 1)
    ||| a.1 == b.1 && (a.0 == b.0 + 1 || b.0 == a.0 + 1)
}

/// Some listed cell sits at row-major buffer position `i` of a `w`-wide grid.
pub open spec fn cells_cover_idx(cells: Seq<(u32, u32)>, w: int, i: int) -> bool {
    exists|j: int| 0 <= j < cells.len() && (#[trigger] cells[j]).1 * w + cells[j].0 == i
}

/// The visit marks are the old marks plus exactly the listed cells.
pub open spec fn cells_marked(
    vis0: Seq<bool>,
    v: Seq<bool>,
    cells: Seq<(u32, u32)>,
    w: int,
) -> bool {
    &&& v.len() == vis0.len()
    &&& forall|i: int| 0 <= i < v.len() ==> v[i] == (vis0[i] || cells_cover_idx(cells, w, i))
}

/// Every listed cell lies in the grid, carries the target color, and was
/// unvisited before the call.
pub open spec fn cells_wf(
    cells: Seq<(u32, u32)>,
    img: Raster,
    vis0: Seq<bool>,
    target: Color,
) -> bool {
    forall|j: int|
        0 <= j < cells.len() ==> (#[trigger] cells[j]).0 < img.spec_width() && cells[j].1
            < img.spec_height() && img.spec_pixel(cells[j].0 as int, cells[j].1 as int) == target
            && !vis0[cells[j].1 * img.spec_width() + cells[j].0]
}

/// The cell at position `j` shares an edge with an earlier listed cell.
pub open spec fn chain_link(cells: Seq<(u32, u32)>, j: int) -> bool {
    exists|k: int| 0 <= k < j && #[trigger] adj4(cells[j], cells[k])
}

/// Every listed cell after the first shares an edge with an earlier one, so
/// the list is 4-connected to its first cell.
pub open spec fn cells_chained(cells: Seq<(u32, u32)>) -> bool {
    forall|j: int| 1 <= j < cells.len() ==> #[trigger] chain_link(cells, j)
}

/// Every in-grid target-colored edge-neighbor of a listed cell is marked:
/// the list cannot be grown.
pub open spec fn cells_closed(
    cells: Seq<(u32, u32)>,
    v: Seq<bool>,
    img: Raster,
    target: Color,
) -> bool {
    forall|j: int, n: (u32, u32)|
        0 <= j < cells.len() && #[trigger] adj4(cells[j], n) && n.0 < img.spec_width() && n.1
            < img.spec_height() && img.spec_pixel(n.0 as int, n.1 as int) == target ==> v[n.1
            * img.spec_width() + n.0]
}

/// As `cells_closed`, but a neighbor may instead be pending on the stack.
pub open spec fn cells_pending_closed(
    cells: Seq<(u32, u32)>,
    stack: Seq<(u32, u32)>,
    v: Seq<bool>,
    img: Raster,
    target: Color,
) -> bool {
    forall|j: int, n: (u32, u32)|
        0 <= j < cells.len() && #[trigger] adj4(cells[j], n) && n.0 < img.spec_width() && n.1
            < img.spec_height() && img.spec_pixel(n.0 as int, n.1 as int) == target ==> v[n.1
            * img.spec_width() + n.0] || stack.contains(n)
}

/// Every stack entry is the start cell or an edge-neighbor of a listed cell.
pub open spec fn stack_from_cells(
    stack: Seq<(u32, u32)>,
    cells: Seq<(u32, u32)>,
    start: (u32, u32),
) -> bool {
    forall|si: int|
        0 <= si < stack.len() ==> #[trigger] stack[si] == start || exists|k: int|
            0 <= k < cells.len() && adj4(cells[k], stack[si])
}

/// The box bounds the start cell and every listed cell, and each edge is
/// attained by the start cell or a listed cell: it is exactly their
/// bounding box.
pub open spec fn box_bounds_cells(
    b: (u32, u32, u32, u32),
    start: (u32, u32),
    cells: Seq<(u32, u32)>,
) -> bool {
    &&& b.0 <= start.0 <= b.2 && b.1 <= start.1 <= b.3
    &&& forall|j: int|
        0 <= j < cells.len() ==> b.0 <= (#[trigger] cells[j]).0 <= b.2 && b.1 <= cells[j].1 <= b.3
    &&& b.0 == start.0 || exists|j: int| 0 <= j < cells.len() && (#[trigger] cells[j]).0 == b.0
    &&& b.2 == start.0 || exists|j: int| 0 <= j < cells.len() && (#[trigger] cells[j]).0 == b.2
    &&& b.1 == start.1 || exists|j: int| 0 <= j < cells.len() && (#[trigger] cells[j]).1 == b.1
    &&& b.3 == start.1 || exists|j: int| 0 <= j < cells.len() && (#[trigger] cells[j]).1 == b.3
}

/// Accepting a cell keeps the marks exact: only its position gains a mark.
proof fn lemma_accept_marking(
    vis0: Seq<bool>,
    pre_v: Seq<bool>,
    post_v: Seq<bool>,
    pre_p: Seq<(u32, u32)>,
    post_p: Seq<(u32, u32)>,
    w: int,
    idx: int,
    c: (u32, u32),
)
    requires
        cells_marked(vis0, pre_v, pre_p, w),
        0 <= idx < pre_v.len(),
        post_v == pre_v.update(idx, true),
        post_p == pre_p.push(c),
        c.1 * w + c.0 == idx,
    ensures
        cells_marked(vis0, post_v, post_p, w),
{
    assert forall|i: int|
        0 <= i < post_v.len() implies post_v[i] == (vis0[i] || cells_cover_idx(post_p, w, i)) by {
        if i == idx {
            assert(post_p[post_p.len() - 1] == c);
            assert(cells_cover_idx(post_p, w, i));
        } else {
            assert(post_v[i] == pre_v[i]);
            if cells_cover_idx(post_p, w, i) {
                let j = choose|j: int|
                    0 <= j < post_p.len() && (#[trigger] post_p[j]).1 * w + post_p[j].0 == i;
                assert(j < post_p.len() - 1);
                assert(pre_p[j] == post_p[j]);
                assert(cells_cover_idx(pre_p, w, i));
            }
            if cells_cover_idx(pre_p, w, i) {
                let j = choose|j: int|
                    0 <= j < pre_p.len() && (#[trigger] pre_p[j]).1 * w + pre_p[j].0 == i;
                assert(post_p[j] == pre_p[j]);
                assert(cells_cover_idx(post_p, w, i));
            }
        }
    }
}

/// Accepting a cell that neighbors an earlier one keeps the list chained.
proof fn lemma_accept_chain(pre_p: Seq<(u32, u32)>, post_p: Seq<(u32, u32)>, c: (u32, u32))
    requires
        cells_chained(pre_p),
        post_p == pre_p.push(c),
        pre_p.len() == 0 || exists|k: int| 0 <= k < pre_p.len() && #[trigger] adj4(pre_p[k], c),
    ensures
        cells_chained(post_p),
{
    assert forall|j: int| 1 <= j < post_p.len() implies #[trigger] chain_link(post_p, j) by {
        if j < post_p.len() - 1 {
            assert(post_p[j] == pre_p[j]);
            assert(chain_link(pre_p, j));
            let k = choose|k: int| 0 <= k < j && #[trigger] adj4(pre_p[j], pre_p[k]);
            assert(post_p[k] == pre_p[k]);
            assert(adj4(post_p[j], post_p[k]));
        } else {
            let k = choose|k: int| 0 <= k < pre_p.len() && #[trigger] adj4(pre_p[k], c);
            assert(post_p[k] == pre_p[k]);
            assert(adj4(pre_p[k], c));
            assert(adj4(c, pre_p[k]));
            assert(adj4(post_p[j], post_p[k]));
        }
    }
}

/// Widening the box by the accepted cell keeps it the exact bounding box.
proof fn lemma_accept_bounds(
    pre_b: (u32, u32, u32, u32),
    post_b: (u32, u32, u32, u32),
    start: (u32, u32),
    pre_p: Seq<(u32, u32)>,
    post_p: Seq<(u32, u32)>,
    c: (u32, u32),
)
    requires
        box_bounds_cells(pre_b, start, pre_p),
        post_p == pre_p.push(c),
        post_b.0 == spec_min_u32(pre_b.0, c.0),
        post_b.1 == spec_min_u32(pre_b.1, c.1),
        post_b.2 == spec_max_u32(pre_b.2, c.0),
        post_b.3 == spec_max_u32(pre_b.3, c.1),
    ensures
        box_bounds_cells(post_b, start, post_p),
{
    let last = post_p.len() - 1;
    assert(post_p[last] == c);
    assert forall|j: int|
        0 <= j < post_p.len() implies post_b.0 <= (#[trigger] post_p[j]).0 <= post_b.2 && post_b.1
        <= post_p[j].1 <= post_b.3 by {
        if j < last {
            assert(post_p[j] == pre_p[j]);
        }
    }
    assert(post_b.0 == start.0 || exists|j: int|
        0 <= j < post_p.len() && (#[trigger] post_p[j]).0 == post_b.0) by {
        if post_b.0 == c.0 {
            assert(post_p[last].0 == post_b.0);
        } else if post_b.0 != start.0 {
            let j = choose|j: int| 0 <= j < pre_p.len() && (#[trigger] pre_p[j]).0 == pre_b.0;
            assert(post_p[j].0 == post_b.0);
        }
    }
    assert(post_b.2 == start.0 || exists|j: int|
        0 <= j < post_p.len() && (#[trigger] post_p[j]).0 == post_b.2) by {
        if post_b.2 == c.0 {
            assert(post_p[last].0 == post_b.2);
        } else if post_b.2 != start.0 {
            let j = choose|j: int| 0 <= j < pre_p.len() && (#[trigger] pre_p[j]).0 == pre_b.2;
            assert(post_p[j].0 == post_b.2);
        }
    }
    assert(post_b.1 == start.1 || exists|j: int|
        0 <= j < post_p.len() && (#[trigger] post_p[j]).1 == post_b.1) by {
        if post_b.1 == c.1 {
            assert(post_p[last].1 == post_b.1);
        } else if post_b.1 != start.1 {
            let j = choose|j: int| 0 <= j < pre_p.len() && (#[trigger] pre_p[j]).1 == pre_b.1;
            assert(post_p[j].1 == post_b.1);
        }
    }
    assert(post_b.3 == start.1 || exists|j: int|
        0 <= j < post_p.len() && (#[trigger] post_p[j]).1 == post_b.3) by {
        if post_b.3 == c.1 {
            assert(post_p[last].1 == post_b.3);
        } else if post_b.3 != start.1 {
            let j = choose|j: int| 0 <= j < pre_p.len() && (#[trigger] pre_p[j]).1 == pre_b.3;
            assert(post_p[j].1 == post_b.3);
        }
    }
}

/// Discarding the stack's top keeps pending closure and stack provenance
/// when the discarded cell is already marked or can carry no obligation.
proof fn lemma_reject_top(
    cells: Seq<(u32, u32)>,
    pre_stack: Seq<(u32, u32)>,
    post_stack: Seq<(u32, u32)>,
    popped: (u32, u32),
    v: Seq<bool>,
    img: Raster,
    target: Color,
    start: (u32, u32),
)
    requires
        pre_stack.len() >= 1,
        popped == pre_stack[pre_stack.len() - 1],
        post_stack == pre_stack.drop_last(),
        popped.0 < img.spec_width() && popped.1 < img.spec_height() && img.spec_pixel(
            popped.0 as int,
            popped.1 as int,
        ) == target ==> v[popped.1 * img.spec_width() + popped.0],
        cells_pending_closed(cells, pre_stack, v, img, target),
        stack_from_cells(pre_stack, cells, start),
    ensures
        cells_pending_closed(cells, post_stack, v, img, target),
        stack_from_cells(post_stack, cells, start),
{
    let w = img.spec_width() as int;
    assert forall|j: int, n: (u32, u32)|
        0 <= j < cells.len() && #[trigger] adj4(cells[j], n) && n.0 < img.spec_width() && n.1
            < img.spec_height() && img.spec_pixel(n.0 as int, n.1 as int) == target implies v[n.1
        * w + n.0] || post_stack.contains(n) by {
        if !v[n.1 * w + n.0] {
            let si = choose|si: int| 0 <= si < pre_stack.len() && pre_stack[si] == n;
            if si < pre_stack.len() - 1 {
                assert(post_stack[si] == n);
            } else {
                assert(n == popped);
            }
        }
    }
    assert forall|si: int| 0 <= si < post_stack.len() implies #[trigger] post_stack[si] == start
        || exists|k: int| 0 <= k < cells.len() && adj4(cells[k], post_stack[si]) by {
        assert(post_stack[si] == pre_stack[si]);
    }
}

/// After accepting a cell, its pushed neighbors keep the pending closure,
/// and the stack still holds only the start or neighbors of listed cells.
proof fn lemma_accept_stack(
    pre_p: Seq<(u32, u32)>,
    post_p: Seq<(u32, u32)>,
    pre_stack: Seq<(u32, u32)>,
    post_stack: Seq<(u32, u32)>,
    popped: (u32, u32),
    pre_v: Seq<bool>,
    post_v: Seq<bool>,
    img: Raster,
    target: Color,
    start: (u32, u32),
)
    requires
        img.wf(),
        pre_stack.len() >= 1,
        popped == pre_stack[pre_stack.len() - 1],
        popped.0 < img.spec_width(),
        popped.1 < img.spec_height(),
        post_p == pre_p.push(popped),
        pre_v.len() == img.spec_width() * img.spec_height(),
        post_v == pre_v.update(popped.1 * img.spec_width() + popped.0, true),
        // entries below the removed top survive, and pushes only add
        forall|k: int| 0 <= k < pre_stack.len() - 1 ==> #[trigger] post_stack[k] == pre_stack[k],
        post_stack.len() >= pre_stack.len() - 1,
        // every entry of the new stack is an old entry below the top or a
        // neighbor of the accepted cell
        forall|si: int|
            0 <= si < post_stack.len() ==> (si < pre_stack.len() - 1 && #[trigger] post_stack[si]
                == pre_stack[si]) || adj4(popped, post_stack[si]),
        // every in-grid edge-neighbor of the accepted cell was pushed
        forall|n: (u32, u32)|
            #[trigger] adj4(popped, n) && n.0 < img.spec_width() && n.1 < img.spec_height()
                ==> post_stack.contains(n),
        cells_pending_closed(pre_p, pre_stack, pre_v, img, target),
        stack_from_cells(pre_stack, pre_p, start),
    ensures
        cells_pending_closed(post_p, post_stack, post_v, img, target),
        stack_from_cells(post_stack, post_p, start),
{
    let w = img.spec_width() as int;
    let last = post_p.len() - 1;
    assert(post_p[last] == popped);
    assert forall|j: int, n: (u32, u32)|
        0 <= j < post_p.len() && #[trigger] adj4(post_p[j], n) && n.0 < img.spec_width() && n.1
            < img.spec_height() && img.spec_pixel(n.0 as int, n.1 as int)
            == target implies post_v[n.1 * w + n.0] || post_stack.contains(n) by {
        img.lemma_idx_in_bounds(n.0 as int, n.1 as int);
        img.lemma_idx_in_bounds(popped.0 as int, popped.1 as int);
        if j < last {
            assert(post_p[j] == pre_p[j]);
            assert(adj4(pre_p[j], n));
            if pre_v[n.1 * w + n.0] {
                assert(post_v[n.1 * w + n.0]);
            } else if !post_v[n.1 * w + n.0] {
                let si = choose|si: int| 0 <= si < pre_stack.len() && pre_stack[si] == n;
                if si < pre_stack.len() - 1 {
                    assert(post_stack[si] == n);
                } else {
                    assert(n == popped);
                    assert(post_v[n.1 * w + n.0]);
                }
            }
        } else {
            assert(post_stack.contains(n));
        }
    }
    assert forall|si: int| 0 <= si < post_stack.len() implies #[trigger] post_stack[si] == start
        || exists|k: int| 0 <= k < post_p.len() && adj4(post_p[k], post_stack[si]) by {
        if si < pre_stack.len() - 1 && post_stack[si] == pre_stack[si] {
            if pre_stack[si] != start {
                let k = choose|k: int| 0 <= k < pre_p.len() && adj4(pre_p[k], pre_stack[si]);
                assert(post_p[k] == pre_p[k]);
                assert(adj4(post_p[k], post_stack[si]));
            }
        } else {
            assert(adj4(popped, post_stack[si]));
            assert(adj4(post_p[last], post_stack[si]));
        }
    }
}

/// Appending a well-formed cell keeps the list well-formed.
proof fn lemma_accept_wf(
    pre_p: Seq<(u32, u32)>,
    post_p: Seq<(u32, u32)>,
    c: (u32, u32),
    img: Raster,
    vis0: Seq<bool>,
    target: Color,
)
    requires
        cells_wf(pre_p, img, vis0, target),
        post_p == pre_p.push(c),
        c.0 < img.spec_width(),
        c.1 < img.spec_height(),
        img.spec_pixel(c.0 as int, c.1 as int) == target,
        !vis0[c.1 * img.spec_width() + c.0],
    ensures
        cells_wf(post_p, img, vis0, target),
{
    assert forall|j: int|
        0 <= j < post_p.len() implies (#[trigger] post_p[j]).0 < img.spec_width() && post_p[j].1
        < img.spec_height() && img.spec_pixel(post_p[j].0 as int, post_p[j].1 as int) == target
        && !vis0[post_p[j].1 * img.spec_width() + post_p[j].0] by {
        if j < post_p.len() - 1 {
            assert(post_p[j] == pre_p[j]);
        }
    }
}

/// Push the in-grid edge-neighbors of cell (x, y): existing entries stay in
/// place and every pushed entry is one of those neighbors.
fn push_neighbors(stack: &mut Vec<(u32, u32)>, x: u32, y: u32, width: u32, height: u32)
    requires
        x < width,
        y < height,
    ensures
        old(stack)@.len() <= final(stack)@.len() <= old(stack)@.len() + 4,
        forall|k: int| 0 <= k < old(stack)@.len() ==> #[trigger] final(stack)@[k] == old(stack)@[k],
        forall|si: int|
            old(stack)@.len() <= si < final(stack)@.len() ==> adj4(
                (x, y),
                #[trigger] final(stack)@[si],
            ),
        forall|n: (u32, u32)|
            #[trigger] adj4((x, y), n) && n.0 < width && n.1 < height ==> final(stack)@.contains(n),
{
    let ghost s0 = stack@;
    if x > 0 {
        stack.push((x - 1, y));
    }
    let ghost s1 = stack@;
    if x < width - 1 {
        stack.push((x + 1, y));
    }
    let ghost s2 = stack@;
    if y > 0 {
        stack.push((x, y - 1));
    }
    let ghost s3 = stack@;
    if y < height - 1 {
        stack.push((x, y + 1));
    }
    proof {
        if x > 0 {
            assert(s1[s0.len() as int] == (((x - 1) as u32), y));
            assert(stack@[s0.len() as int] == (((x - 1) as u32), y));
            assert(stack@.contains((((x - 1) as u32), y)));
        }
        if x < width - 1 {
            assert(s2[s1.len() as int] == (((x + 1) as u32), y));
            assert(stack@[s1.len() as int] == (((x + 1) as u32), y));
            assert(stack@.contains((((x + 1) as u32), y)));
        }
        if y > 0 {
            assert(s3[s2.len() as int] == (x, ((y - 1) as u32)));
            assert(stack@[s2.len() as int] == (x, ((y - 1) as u32)));
            assert(stack@.contains((x, ((y - 1) as u32))));
        }
        if y < height - 1 {
            assert(stack@[s3.len() as int] == (x, ((y + 1) as u32)));
            assert(stack@.contains((x, ((y + 1) as u32))));
        }
        assert forall|n: (u32, u32)|
            #[trigger] adj4((x, y), n) && n.0 < width && n.1 < height implies stack@.contains(
            n,
        ) by {
            if n.0 == x {
                if n.1 + 1 == y {
                    assert(n == (x, ((y - 1) as u32)));
                } else {
                    assert(n == (x, ((y + 1) as u32)));
                }
            } else {
                if n.0 + 1 == x {
                    assert(n == (((x - 1) as u32), y));
                } else {
                    assert(n == (((x + 1) as u32), y));
                }
            }
        }
        assert forall|si: int|
            s0.len() <= si < stack@.len() implies adj4((x, y), #[trigger] stack@[si]) by {
            assert(stack@[si] == (((x - 1) as u32), y) || stack@[si] == (((x + 1) as u32), y)
                || stack@[si] == (x, ((y - 1) as u32)) || stack@[si] == (x, ((y + 1) as u32)));
        }
    }
}

/// Collect the maximal 4-connected region of `target_color` containing the
/// start cell, among cells not yet visited: the collected cells carry the
/// target color, were unvisited, begin at the start cell, are chained by
/// edges, and are closed under same-colored neighbors; `visited` gains
/// exactly them. The returned box is the exact bounding box of the start
/// cell and the collected cells.
#[verifier::rlimit(100)]
#[verifier::spinoff_prover]
pub fn flood_fill_get_feature(
    image: &Raster,
    start_x: u32,
    start_y: u32,
    target_color: &Color,
    visited: &mut Vec<bool>,
) -> (r: (Vec<(u32, u32)>, (u32, u32, u32, u32)))
    requires
        image.wf(),
        start_x < image.spec_width(),
        start_y < image.spec_height(),
        old(visited)@.len() == image.spec_width() * image.spec_height(),
    ensures
        cells_marked(old(visited)@, final(visited)@, r.0@, image.spec_width() as int),
        cells_wf(r.0@, *image, old(visited)@, *target_color),
        cells_chained(r.0@),
        cells_closed(r.0@, final(visited)@, *image, *target_color),
        ({
            let valid = !old(visited)@[start_y * image.spec_width() + start_x]
                && image.spec_pixel(start_x as int, start_y as int) == *target_color;
            &&& valid ==> r.0@.len() >= 1 && r.0@[0] == (start_x, start_y)
            &&& !valid ==> r.0@.len() == 0
        }),
        r.1.0 <= r.1.2 < image.spec_width(),
        r.1.1 <= r.1.3 < image.spec_height(),
        box_bounds_cells(r.1, (start_x, start_y), r.0@),
{
    let width = image.width();
    let height = image.height();
    let ghost w = width as int;
    let ghost h = height as int;
    let ghost vis0 = visited@;
    let ghost start = (start_x, start_y);
    let ghost valid = !vis0[start_y * w + start_x] && image.spec_pixel(
        start_x as int,
        start_y as int,
    ) == *target_color;
    let mut pixels: Vec<(u32, u32)> = Vec::new();
    let mut stack: Vec<(u32, u32)> = Vec::new();
    stack.push((start_x, start_y));
    let mut bounds: (u32, u32, u32, u32) = (start_x, start_y, start_x, start_y);
    proof {
        lemma_unvisited_nonneg(visited@);
        image.lemma_idx_in_bounds(start_x as int, start_y as int);
        assert(stack@[0] == start);
        assert(stack@.contains(start));
    }
    while stack.len() > 0
        invariant
            image.wf(),
            width == image.spec_width(),
            height == image.spec_height(),
            w == width as int,
            h == height as int,
            start == (start_x, start_y),
            start_x < width,
            start_y < height,
            vis0.len() == width * height,
            spec_unvisited(visited@) >= 0,
            valid == (!vis0[start_y * w + start_x] && image.spec_pixel(
                start_x as int,
                start_y as int,
            ) == *target_color),
            cells_marked(vis0, visited@, pixels@, w),
            cells_wf(pixels@, *image, vis0, *target_color),
            cells_chained(pixels@),
            cells_pending_closed(pixels@, stack@, visited@, *image, *target_color),
            stack_from_cells(stack@, pixels@, start),
            pixels@.len() >= 1 ==> pixels@[0] == start,
            pixels@.len() == 0 ==> stack@.len() <= 1 && (forall|si: int|
                0 <= si < stack@.len() ==> stack@[si] == start),
            valid && pixels@.len() == 0 ==> stack@.contains(start),
            !valid ==> pixels@.len() == 0,
            bounds.0 <= bounds.2 < width,
            bounds.1 <= bounds.3 < height,
            box_bounds_cells(bounds, start, pixels@),
        decreases 4 * spec_unvisited(visited@) + stack@.len(),
    {
        let ghost pre_stack = stack@;
        let (x, y) = stack.pop().unwrap();
        let ghost popped = (x, y);
        if x >= width || y >= height {
            proof {
                if valid && pixels@.len() == 0 {
                    assert(popped == start);
                    assert(false);
                }
                lemma_reject_top(
                    pixels@,
                    pre_stack,
                    stack@,
                    popped,
                    visited@,
                    *image,
                    *target_color,
                    start,
                );
            }
            continue;
        }
        proof {
            image.lemma_idx_in_bounds(x as int, y as int);
        }
        let nbuf: usize = visited.len();
        let idx: usize = (y as usize) * (width as usize) + (x as usize);
        if visited[idx] {
            proof {
                if valid && pixels@.len() == 0 {
                    assert(popped == start);
                    assert(!cells_cover_idx(pixels@, w, idx as int));
                    assert(vis0[idx as int]);
                    assert(false);
                }
                lemma_reject_top(
                    pixels@,
                    pre_stack,
                    stack@,
                    popped,
                    visited@,
                    *image,
                    *target_color,
                    start,
                );
            }
            continue;
        }
        let p = image.get_pixel(x, y);
        if !(p == *target_color) {
            proof {
                if valid && pixels@.len() == 0 {
                    assert(popped == start);
                    assert(false);
                }
                lemma_reject_top(
                    pixels@,
                    pre_stack,
                    stack@,
                    popped,
                    visited@,
                    *image,
                    *target_color,
                    start,
                );
            }
            continue;
        }

        // accept the cell: mark, record, widen the box, push its neighbors
        let ghost pre_visited = visited@;
        let ghost pre_pixels = pixels@;
        visited[idx] = true;
        proof {
            lemma_unvisited_mark(pre_visited, idx as int);
            lemma_unvisited_nonneg(visited@);
        }
        pixels.push((x, y));
        proof {
            assert(!pre_visited[idx as int]);
            assert(!vis0[idx as int]);
            lemma_accept_marking(
                vis0,
                pre_visited,
                visited@,
                pre_pixels,
                pixels@,
                w,
                idx as int,
                popped,
            );
            if pre_pixels.len() == 0 {
                assert(popped == start);
            } else {
                assert(pre_stack[pre_stack.len() - 1] == popped);
                // a re-popped start would already be marked, so the popped
                // cell is a recorded neighbor of an earlier cell
                assert(popped != start) by {
                    if popped == start {
                        assert(pre_pixels[0] == start);
                        assert(pre_pixels[0].1 * w + pre_pixels[0].0 == idx);
                        assert(cells_cover_idx(pre_pixels, w, idx as int));
                        assert(pre_visited[idx as int]);
                    }
                }
                assert(exists|k: int|
                    0 <= k < pre_pixels.len() && #[trigger] adj4(pre_pixels[k], popped)) by {
                    let k = choose|k: int|
                        0 <= k < pre_pixels.len() && adj4(
                            pre_pixels[k],
                            pre_stack[pre_stack.len() - 1],
                        );
                    assert(adj4(pre_pixels[k], popped));
                }
            }
            lemma_accept_chain(pre_pixels, pixels@, popped);
            lemma_accept_wf(pre_pixels, pixels@, popped, *image, vis0, *target_color);
        }

        let ghost pre_bounds = bounds;
        bounds.0 = if x < bounds.0 {
            x
        } else {
            bounds.0
        };
        bounds.1 = if y < bounds.1 {
            y
        } else {
            bounds.1
        };
        bounds.2 = if x > bounds.2 {
            x
        } else {
            bounds.2
        };
        bounds.3 = if y > bounds.3 {
            y
        } else {
            bounds.3
        };
        proof {
            lemma_accept_bounds(pre_bounds, bounds, start, pre_pixels, pixels@, popped);
        }

        push_neighbors(&mut stack, x, y, width, height);
        proof {
            assert forall|si: int|
                0 <= si < stack@.len() implies (si < pre_stack.len() - 1 && #[trigger] stack@[si]
                == pre_stack[si]) || adj4(popped, stack@[si]) by {
            }
            lemma_accept_stack(
                pre_pixels,
                pixels@,
                pre_stack,
                stack@,
                popped,
                pre_visited,
                visited@,
                *image,
                *target_color,
                start,
            );
        }
    }
    proof {
        assert forall|j: int, n: (u32, u32)|
            0 <= j < pixels@.len() && #[trigger] adj4(pixels@[j], n) && n.0 < width && n.1 < height
                && image.spec_pixel(n.0 as int, n.1 as int) == *target_color implies visited@[n.1
            * w + n.0] by {
            if stack@.contains(n) {
                let si = choose|si: int| 0 <= si < stack@.len() && stack@[si] == n;
            }
        }
        if valid {
            assert(pixels@.len() >= 1) by {
                if pixels@.len() == 0 {
                    assert(stack@.contains(start));
                    let si = choose|si: int| 0 <= si < stack@.len() && stack@[si] == start;
                }
            }
        }
    }
    (pixels, bounds)
}


/// Every listed color occurs somewhere in the image.
pub open spec fn colors_from(cs: Seq<Color>, img: Seq<Color>) -> bool {
    forall|j: int|
        0 <= j < cs.len() ==> exists|q: int| 0 <= q < img.len() && img[q] == #[trigger] cs[j]
}

/// The position of the first occurrence of `c`, or -1 when absent.
pub open spec fn first_color_idx(cs: Seq<Color>, c: Color) -> int
    decreases cs.len(),
{
    if cs.len() == 0 {
        -1
    } else if cs[0] == c {
        0
    } else if first_color_idx(cs.drop_first(), c) == -1 {
        -1
    } else {
        1 + first_color_idx(cs.drop_first(), c)
    }
}

/// The first-occurrence position is in range, hits `c`, and nothing before
/// it does; -1 means `c` is absent.
proof fn lemma_first_color_idx_facts(cs: Seq<Color>, c: Color)
    ensures
        -1 <= first_color_idx(cs, c) < cs.len(),
        first_color_idx(cs, c) >= 0 ==> cs[first_color_idx(cs, c)] == c,
        first_color_idx(cs, c) == -1 ==> forall|j: int| 0 <= j < cs.len() ==> cs[j] != c,
        forall|j: int| 0 <= j < first_color_idx(cs, c) ==> cs[j] != c,
    decreases cs.len(),
{
    if cs.len() > 0 && cs[0] != c {
        lemma_first_color_idx_facts(cs.drop_first(), c);
        assert forall|j: int| 0 <= j < first_color_idx(cs, c) implies cs[j] != c by {
            if j > 0 {
                assert(cs.drop_first()[j - 1] == cs[j]);
            }
        }
        if first_color_idx(cs, c) == -1 {
            assert forall|j: int| 0 <= j < cs.len() implies cs[j] != c by {
                if j > 0 {
                    assert(cs.drop_first()[j - 1] == cs[j]);
                }
            }
        }
    }
}

/// A first match at `k` pins the first-occurrence position to `k`.
proof fn lemma_first_color_idx_of(cs: Seq<Color>, c: Color, k: int)
    requires
        0 <= k < cs.len(),
        cs[k] == c,
        forall|j: int| 0 <= j < k ==> cs[j] != c,
    ensures
        first_color_idx(cs, c) == k,
    decreases cs.len(),
{
    if k > 0 {
        assert forall|j: int| 0 <= j < k - 1 implies cs.drop_first()[j] != c by {
            assert(cs.drop_first()[j] == cs[j + 1]);
        }
        assert(cs.drop_first()[k - 1] == cs[k]);
        lemma_first_color_idx_of(cs.drop_first(), c, k - 1);
    }
}

/// One tally step: raise the count of an already-seen color, or append the
/// new color with count one.
pub open spec fn spec_tally_step(st: (Seq<Color>, Seq<int>), c: Color) -> (Seq<Color>, Seq<int>) {
    let k = first_color_idx(st.0, c);
    if k >= 0 {
        (st.0, st.1.update(k, st.1[k] + 1))
    } else {
        (st.0.push(c), st.1.push(1))
    }
}

/// The tally of an enumeration: distinct colors in first-seen order beside
/// their occurrence counts.
pub open spec fn spec_tally(e: Seq<Color>) -> (Seq<Color>, Seq<int>)
    decreases e.len(),
{
    if e.len() == 0 {
        (Seq::empty(), Seq::empty())
    } else {
        spec_tally_step(spec_tally(e.drop_last()), e.last())
    }
}

/// A tally's lists stay parallel and no count exceeds the enumeration's
/// length.
proof fn lemma_tally_wf(e: Seq<Color>)
    ensures
        spec_tally(e).0.len() == spec_tally(e).1.len(),
        forall|k: int| 0 <= k < spec_tally(e).1.len() ==> 0 <= #[trigger] spec_tally(e).1[k]
            <= e.len(),
    decreases e.len(),
{
    if e.len() > 0 {
        lemma_tally_wf(e.drop_last());
        lemma_first_color_idx_facts(spec_tally(e.drop_last()).0, e.last());
    }
}

/// Position of the first maximal count among the first `n` entries.
pub open spec fn argmax_first(counts: Seq<int>, n: int) -> int
    decreases n,
{
    if n <= 1 {
        0
    } else {
        let b = argmax_first(counts, n - 1);
        if counts[n - 1] > counts[b] {
            n - 1
        } else {
            b
        }
    }
}

/// The first-maximum position lies within the first `n` entries.
proof fn lemma_argmax_first_range(counts: Seq<int>, n: int)
    requires
        n >= 1,
    ensures
        0 <= argmax_first(counts, n) < n,
    decreases n,
{
    if n > 1 {
        lemma_argmax_first_range(counts, n - 1);
    }
}

/// The probe offset visited at step `d` of a cell's neighborhood walk.
pub open spec fn spec_nb_offset(d: int) -> (int, int) {
    if d == 0 {
        (-1, -1)
    } else if d == 1 {
        (0, -1)
    } else if d == 2 {
        (1, -1)
    } else if d == 3 {
        (-1, 0)
    } else if d == 4 {
        (1, 0)
    } else if d == 5 {
        (-1, 1)
    } else if d == 6 {
        (0, 1)
    } else {
        (1, 1)
    }
}

/// The color seen at step `d` from cell `p` of a `w`-by-`h` grid: one color
/// when the probed neighbor lies in the grid, nothing otherwise.
pub open spec fn spec_nb_at(img: Seq<Color>, w: int, h: int, p: (u32, u32), d: int) -> Seq<Color> {
    let nx = p.0 + spec_nb_offset(d).0;
    let ny = p.1 + spec_nb_offset(d).1;
    if 0 <= nx < w && 0 <= ny < h {
        seq![img[ny * w + nx]]
    } else {
        Seq::empty()
    }
}

/// The colors of the first `d` probed neighbors of `p`, in visit order.
pub open spec fn spec_nb_prefix(img: Seq<Color>, w: int, h: int, p: (u32, u32), d: int) -> Seq<
    Color,
>
    decreases d,
{
    if d <= 0 {
        Seq::empty()
    } else {
        spec_nb_prefix(img, w, h, p, d - 1) + spec_nb_at(img, w, h, p, d - 1)
    }
}

/// At most one color is seen per probe.
proof fn lemma_nb_prefix_len(img: Seq<Color>, w: int, h: int, p: (u32, u32), d: int)
    ensures
        spec_nb_prefix(img, w, h, p, d).len() <= (if d >= 0 { d } else { 0 }),
    decreases d,
{
    if d > 0 {
        lemma_nb_prefix_len(img, w, h, p, d - 1);
    }
}

/// The most frequent color among the in-grid 8-neighbors of a lone cell
/// `p`, first-seen order breaking ties; `fallback` when `p` has no in-grid
/// neighbor.
pub open spec fn spec_singleton_majority(
    img: Seq<Color>,
    w: int,
    h: int,
    p: (u32, u32),
    fallback: Color,
) -> Color {
    let st = spec_tally(spec_nb_prefix(img, w, h, p, 8));
    if st.0.len() == 0 {
        fallback
    } else {
        st.0[argmax_first(st.1, st.1.len() as int)]
    }
}

/// The tallied counts match their mathematical model entry for entry.
pub open spec fn counts_match(counts: Seq<u64>, model: Seq<int>) -> bool {
    counts.len() == model.len() && forall|k: int| 0 <= k < counts.len() ==> counts[k] == model[k]
}

/// The position of the first occurrence of `c`, if any.
fn find_color(colors: &Vec<Color>, c: &Color) -> (r: Option<usize>)
    ensures
        match r {
            Some(k) => k < colors@.len() && colors@[k as int] == *c && forall|j: int|
                0 <= j < k ==> colors@[j] != *c,
            None => forall|j: int| 0 <= j < colors@.len() ==> colors@[j] != *c,
        },
{
    let m = colors.len();
    let mut k: usize = 0;
    while k < m
        invariant
            m == colors@.len(),
            k <= m,
            forall|j: int| 0 <= j < k ==> colors@[j] != *c,
        decreases m - k,
    {
        if colors[k] == *c {
            return Some(k);
        }
        k = k + 1;
    }
    None
}

/// The most frequent color among the region's 8-connected outside
/// neighbors; ties go to the color seen first. Falls back to the palette's
/// first color when the region has no outside neighbor. For a lone cell the
/// result is pinned exactly: the first-seen majority over its in-grid
/// 8-neighborhood.
#[verifier::rlimit(100)]
#[verifier::spinoff_prover]
pub fn get_surrounding_average_color(
    image: &Raster,
    feature_pixels: &Vec<(u32, u32)>,
    palette: &ColorPalette,
) -> (c: Color)
    requires
        image.wf(),
        palette.colors@.len() > 0,
    ensures
        c == palette.colors@[0] || exists|j: int| 0 <= j < image@.len() && image@[j] == c,
        ({
            let p = feature_pixels@[0];
            feature_pixels@.len() == 1 && p.0 < image.spec_width() && p.1 < image.spec_height()
                ==> c == spec_singleton_majority(
                    image@,
                    image.spec_width() as int,
                    image.spec_height() as int,
                    p,
                    palette.colors@[0],
                )
        }),
{
    let width = image.width();
    let height = image.height();
    let ghost w = width as int;
    let ghost p = feature_pixels@[0];
    let ghost gh = height as int;
    let ghost single = feature_pixels@.len() == 1 && p.0 < image.spec_width() && p.1
        < image.spec_height();
    let mut colors: Vec<Color> = Vec::new();
    let mut counts: Vec<u64> = Vec::new();
    let n = feature_pixels.len();
    let mut i: usize = 0;
    while i < n
        invariant
            image.wf(),
            width == image.spec_width(),
            height == image.spec_height(),
            w == width as int,
            gh == height as int,
            n == feature_pixels@.len(),
            i <= n,
            colors@.len() == counts@.len(),
            colors_from(colors@, image@),
            p == feature_pixels@[0],
            single == (feature_pixels@.len() == 1 && p.0 < image.spec_width() && p.1
                < image.spec_height()),
            single ==> colors@ == spec_tally(
                spec_nb_prefix(image@, w, gh, p, if i == 0 { 0int } else { 8int }),
            ).0,
            single ==> counts_match(
                counts@,
                spec_tally(spec_nb_prefix(image@, w, gh, p, if i == 0 { 0int } else { 8int })).1,
            ),
        decreases n - i,
    {
        let (fx, fy) = feature_pixels[i];
        let mut d: usize = 0;
        while d < 8
            invariant
                image.wf(),
                width == image.spec_width(),
                height == image.spec_height(),
                w == width as int,
                gh == height as int,
                n == feature_pixels@.len(),
                d <= 8,
                colors@.len() == counts@.len(),
                colors_from(colors@, image@),
                p == feature_pixels@[0],
                single == (feature_pixels@.len() == 1 && p.0 < image.spec_width() && p.1
                    < image.spec_height()),
                single ==> i == 0 && (fx, fy) == p,
                single ==> colors@ == spec_tally(spec_nb_prefix(image@, w, gh, p, d as int)).0,
                single ==> counts_match(counts@, spec_tally(spec_nb_prefix(image@, w, gh, p, d as int)).1),
            decreases 8 - d,
        {
            let ghost pre_e = spec_nb_prefix(image@, w, gh, p, d as int);
            proof {
                if single {
                    lemma_nb_prefix_len(image@, w, gh, p, d as int);
                    lemma_tally_wf(pre_e);
                }
            }
            let (dx, dy): (i64, i64) = if d == 0 {
                (-1, -1)
            } else if d == 1 {
                (0, -1)
            } else if d == 2 {
                (1, -1)
            } else if d == 3 {
                (-1, 0)
            } else if d == 4 {
                (1, 0)
            } else if d == 5 {
                (-1, 1)
            } else if d == 6 {
                (0, 1)
            } else {
                (1, 1)
            };
            proof {
                assert((dx as int, dy as int) == spec_nb_offset(d as int));
            }
            let nx: i64 = fx as i64 + dx;
            let ny: i64 = fy as i64 + dy;
            if 0 <= nx && nx < width as i64 && 0 <= ny && ny < height as i64 {
                if !crate::vectorize::contains_pixel(feature_pixels, nx as u32, ny as u32) {
                    let neighbor = image.get_pixel(nx as u32, ny as u32);
                    proof {
                        image.lemma_idx_in_bounds(nx as int, ny as int);
                        if single {
                            assert(spec_nb_at(image@, w, gh, p, d as int) == seq![neighbor]);
                            assert(spec_nb_prefix(image@, w, gh, p, d + 1).drop_last() =~= pre_e);
                            assert(spec_nb_prefix(image@, w, gh, p, d + 1).last() == neighbor);
                        }
                    }
                    match find_color(&colors, &neighbor) {
                        Some(k) => {
                            proof {
                                if single {
                                    lemma_first_color_idx_of(colors@, neighbor, k as int);
                                }
                            }
                            if counts[k] < u64::MAX {
                                let bumped = counts[k] + 1;
                                counts[k] = bumped;
                            }
                            proof {
                                if single {
                                    assert(counts_match(
                                        counts@,
                                        spec_tally(spec_nb_prefix(image@, w, gh, p, d + 1)).1,
                                    ));
                                }
                            }
                        },
                        None => {
                            let ghost pre_colors = colors@;
                            colors.push(neighbor);
                            counts.push(1);
                            proof {
                                assert(image@[ny * w + nx] == neighbor);
                                assert(0 <= ny * w + nx < image@.len());
                                assert forall|j: int| 0 <= j < colors@.len() implies exists|q: int|
                                    0 <= q < image@.len() && image@[q] == #[trigger] colors@[j] by {
                                    if j < pre_colors.len() {
                                        assert(colors@[j] == pre_colors[j]);
                                    } else {
                                        assert(colors@[j] == neighbor);
                                        assert(image@[ny * w + nx] == colors@[j]);
                                    }
                                }
                                if single {
                                    lemma_first_color_idx_facts(pre_colors, neighbor);
                                    assert(first_color_idx(pre_colors, neighbor) == -1) by {
                                        if first_color_idx(pre_colors, neighbor) >= 0 {
                                            assert(pre_colors[first_color_idx(
                                                pre_colors,
                                                neighbor,
                                            )] == neighbor);
                                        }
                                    }
                                    assert(counts_match(
                                        counts@,
                                        spec_tally(spec_nb_prefix(image@, w, gh, p, d + 1)).1,
                                    ));
                                }
                            }
                        },
                    }
                } else {
                    proof {
                        if single {
                            let q = choose|q: int|
                                0 <= q < feature_pixels@.len() && feature_pixels@[q] == (
                                (nx as u32),
                                (ny as u32),
                                );
                            assert(feature_pixels@[q] == p);
                            assert(false);
                        }
                    }
                }
            } else {
                proof {
                    if single {
                        assert(spec_nb_at(image@, w, gh, p, d as int) =~= Seq::<Color>::empty());
                        assert(spec_nb_prefix(image@, w, gh, p, d + 1) =~= pre_e);
                    }
                }
            }
            d = d + 1;
        }
        i = i + 1;
    }

    let ghost full = spec_tally(spec_nb_prefix(image@, w, gh, p, 8));
    if colors.len() == 0 {
        proof {
            if single {
                assert(full.0.len() == 0);
            }
        }
        return palette.colors[0];
    }
    proof {
        assert(colors_from(colors@, image@));
    }
    let m = colors.len();
    let mut best: usize = 0;
    let mut best_count: u64 = counts[0];
    let mut k: usize = 1;
    while k < m
        invariant
            m == colors@.len(),
            counts@.len() == m,
            1 <= k <= m,
            best < k,
            colors_from(colors@, image@),
            single ==> colors@ == full.0 && counts_match(counts@, full.1),
            single ==> best == argmax_first(full.1, k as int),
            best_count == counts@[best as int],
        decreases m - k,
    {
        if counts[k] > best_count {
            best = k;
            best_count = counts[k];
        }
        k = k + 1;
    }
    proof {
        if single {
            assert(best == argmax_first(full.1, full.1.len() as int));
        }
    }
    colors[best]
}


/// The mark of cell `c` in a row-major flag grid of width `w`.
pub open spec fn vis_at(v: Seq<bool>, w: int, c: (u32, u32)) -> bool {
    v[c.1 * w + c.0]
}

/// The cell lies in the grid and no in-grid edge-neighbor shares its color:
/// it forms a maximal 4-connected region of one cell.
pub open spec fn spec_isolated(img: Seq<Color>, w: int, h: int, p: (u32, u32)) -> bool {
    &&& p.0 < w
    &&& p.1 < h
    &&& forall|n: (u32, u32)|
        #[trigger] adj4(p, n) && n.0 < w && n.1 < h ==> img[n.1 * w + n.0] != img[p.1 * w + p.0]
}

/// The cell comes before position (x, y) in row-major scan order.
pub open spec fn scanned_before(c: (u32, u32), x: int, y: int) -> bool {
    c.1 < y || (c.1 == y && c.0 < x)
}

/// What merging guarantees of its output against its input: dimensions are
/// kept; every output cell is the input cell, the palette's first color, or
/// some input color; and, when a threshold exceeds one pixel, every isolated
/// cell takes the first-seen majority color of its in-grid 8-neighborhood.
pub open spec fn spec_merge_post(
    input: Seq<Color>,
    w: int,
    h: int,
    out: Seq<Color>,
    pal0: Color,
    min_width: u32,
    min_height: u32,
) -> bool {
    &&& out.len() == input.len()
    &&& forall|i: int|
        0 <= i < out.len() ==> out[i] == input[i] || out[i] == pal0 || exists|j: int|
            0 <= j < input.len() && input[j] == #[trigger] out[i]
    &&& (min_width > 1 || min_height > 1) ==> forall|p: (u32, u32)|
        #[trigger] spec_isolated(input, w, h, p) ==> out[p.1 * w + p.0] == spec_singleton_majority(
            input,
            w,
            h,
            p,
            pal0,
        )
}

/// Replace every 4-connected same-color region whose bounding box falls
/// below the minimum feature extents by the most frequent color among its
/// outside neighbors. No color appears that was not in the input or the
/// palette's first entry, and an isolated cell is always replaced by its
/// neighborhood's first-seen majority color when a threshold exceeds one
/// pixel.
#[verifier::rlimit(100)]
#[verifier::spinoff_prover]
pub fn merge_small_features(
    image: &Raster,
    palette: &ColorPalette,
    min_width: u32,
    min_height: u32,
) -> (out: Raster)
    requires
        image.wf(),
        palette.colors@.len() > 0,
    ensures
        out.wf(),
        out.spec_width() == image.spec_width(),
        out.spec_height() == image.spec_height(),
        spec_merge_post(
            image@,
            image.spec_width() as int,
            image.spec_height() as int,
            out@,
            palette.colors@[0],
            min_width,
            min_height,
        ),
{
    let width = image.width();
    let height = image.height();
    let ghost w = width as int;
    let ghost h = height as int;
    let ghost pal0 = palette.colors@[0];
    let ghost thick = min_width > 1 || min_height > 1;
    let mut result = image.clone_raster();
    let nbuf: usize = image.pixels.len();
    let mut visited: Vec<bool> = Vec::new();
    let mut vi: usize = 0;
    while vi < nbuf
        invariant
            vi <= nbuf,
            visited@.len() == vi,
            forall|i: int| 0 <= i < vi ==> !visited@[i],
        decreases nbuf - vi,
    {
        visited.push(false);
        vi = vi + 1;
    }

    proof {
        assert forall|c: (u32, u32)| c.0 < width && c.1 < height implies !vis_at(
            visited@,
            w,
            c,
        ) by {
            image.lemma_idx_in_bounds(c.0 as int, c.1 as int);
        }
    }
    let mut y: u32 = 0;
    while y < height
        invariant
            image.wf(),
            result.wf(),
            palette.colors@.len() > 0,
            pal0 == palette.colors@[0],
            thick == (min_width > 1 || min_height > 1),
            width == image.spec_width(),
            height == image.spec_height(),
            w == width as int,
            h == height as int,
            result.spec_width() == width,
            result.spec_height() == height,
            visited@.len() == width * height,
            y <= height,
            forall|i: int|
                0 <= i < result@.len() ==> result@[i] == image@[i] || result@[i] == pal0 || exists|
                    j: int,
                | 0 <= j < image@.len() && image@[j] == #[trigger] result@[i],
            forall|c: (u32, u32)|
                c.0 < width && c.1 < height && #[trigger] vis_at(visited@, w, c) ==> scanned_before(
                    c,
                    0,
                    y as int,
                ) || !spec_isolated(image@, w, h, c),
            forall|c: (u32, u32)|
                #[trigger] spec_isolated(image@, w, h, c) && scanned_before(c, 0, y as int)
                    ==> vis_at(visited@, w, c),
            forall|c: (u32, u32)|
                c.0 < width && c.1 < height && !(#[trigger] vis_at(visited@, w, c))
                    ==> result@[c.1 * w + c.0] == image@[c.1 * w + c.0],
            thick ==> forall|c: (u32, u32)|
                #[trigger] spec_isolated(image@, w, h, c) && scanned_before(c, 0, y as int)
                    ==> result@[c.1 * w + c.0] == spec_singleton_majority(image@, w, h, c, pal0),
        decreases height - y,
    {
        let mut x: u32 = 0;
        while x < width
            invariant
                image.wf(),
                result.wf(),
                palette.colors@.len() > 0,
                pal0 == palette.colors@[0],
                thick == (min_width > 1 || min_height > 1),
                width == image.spec_width(),
                height == image.spec_height(),
                w == width as int,
                h == height as int,
                result.spec_width() == width,
                result.spec_height() == height,
                visited@.len() == width * height,
                y < height,
                x <= width,
                forall|i: int|
                    0 <= i < result@.len() ==> result@[i] == image@[i] || result@[i] == pal0
                        || exists|j: int|
                        0 <= j < image@.len() && image@[j] == #[trigger] result@[i],
                forall|c: (u32, u32)|
                    c.0 < width && c.1 < height && #[trigger] vis_at(visited@, w, c)
                        ==> scanned_before(c, x as int, y as int) || !spec_isolated(
                        image@,
                        w,
                        h,
                        c,
                    ),
                forall|c: (u32, u32)|
                    #[trigger] spec_isolated(image@, w, h, c) && scanned_before(
                        c,
                        x as int,
                        y as int,
                    ) ==> vis_at(visited@, w, c),
                forall|c: (u32, u32)|
                    c.0 < width && c.1 < height && !(#[trigger] vis_at(visited@, w, c))
                        ==> result@[c.1 * w + c.0] == image@[c.1 * w + c.0],
                thick ==> forall|c: (u32, u32)|
                    #[trigger] spec_isolated(image@, w, h, c) && scanned_before(
                        c,
                        x as int,
                        y as int,
                    ) ==> result@[c.1 * w + c.0] == spec_singleton_majority(image@, w, h, c, pal0),
            decreases width - x,
        {
            proof {
                image.lemma_idx_in_bounds(x as int, y as int);
            }
            let ghost cur = (x, y);
            let ghost iso = spec_isolated(image@, w, h, cur);
            let nv: usize = visited.len();
            let idx: usize = (y as usize) * (width as usize) + (x as usize);
            if !visited[idx] {
                let ghost vis_pre = visited@;
                let pixel = image.get_pixel(x, y);
                let (feature_pixels, bounds) = flood_fill_get_feature(
                    image,
                    x,
                    y,
                    &pixel,
                    &mut visited,
                );
                let ghost cells = feature_pixels@;
                proof {
                    assert(!vis_at(vis_pre, w, cur));
                    assert(cells[0] == cur && cells.len() >= 1);
                    if iso {
                        // an isolated cell's region is the cell alone, and
                        // its box is exactly that cell
                        assert(cells.len() == 1) by {
                            if cells.len() >= 2 {
                                assert(chain_link(cells, 1));
                                let k = choose|k: int|
                                    0 <= k < 1 && #[trigger] adj4(cells[1], cells[k]);
                                assert(k == 0);
                                assert(adj4(cells[1], cur));
                                assert(adj4(cur, cells[1]));
                                assert(image@[cells[1].1 * w + cells[1].0] == image@[cur.1 * w
                                    + cur.0]);
                            }
                        }
                        assert(bounds.0 == x && bounds.2 == x && bounds.1 == y && bounds.3 == y)
                            by {
                            assert(forall|j: int|
                                0 <= j < cells.len() ==> #[trigger] cells[j] == cur);
                        }
                    }
                }
                proof {
                    // unmarked cells were unmarked before and not collected,
                    // and keep their input color
                    assert forall|c: (u32, u32)|
                        c.0 < width && c.1 < height && !(#[trigger] vis_at(
                            visited@,
                            w,
                            c,
                        )) implies !vis_at(vis_pre, w, c) && !cells_cover_idx(
                        cells,
                        w,
                        c.1 * w + c.0,
                    ) && result@[c.1 * w + c.0] == image@[c.1 * w + c.0] by {
                        image.lemma_idx_in_bounds(c.0 as int, c.1 as int);
                        assert(visited@[c.1 * w + c.0] == (vis_pre[c.1 * w + c.0]
                            || cells_cover_idx(cells, w, c.1 * w + c.0)));
                        assert(!vis_at(vis_pre, w, c));
                    }
                }
                let feature_width = bounds.2 - bounds.0 + 1;
                let feature_height = bounds.3 - bounds.1 + 1;
                if feature_width < min_width || feature_height < min_height {
                    let replacement_color = get_surrounding_average_color(
                        image,
                        &feature_pixels,
                        palette,
                    );
                    let fn_len = feature_pixels.len();
                    let mut fi: usize = 0;
                    while fi < fn_len
                        invariant
                            image.wf(),
                            result.wf(),
                            palette.colors@.len() > 0,
                            pal0 == palette.colors@[0],
                            thick == (min_width > 1 || min_height > 1),
                            width == image.spec_width(),
                            height == image.spec_height(),
                            w == width as int,
                            h == height as int,
                            result.spec_width() == width,
                            result.spec_height() == height,
                            visited@.len() == width * height,
                            x < width,
                            y < height,
                            cur == (x, y),
                            iso == spec_isolated(image@, w, h, cur),
                            cells == feature_pixels@,
                            fn_len == feature_pixels@.len(),
                            fi <= fn_len,
                            replacement_color == pal0 || exists|j: int|
                                0 <= j < image@.len() && image@[j] == replacement_color,
                            iso && thick ==> fn_len == 1 && cells[0] == cur && replacement_color
                                == spec_singleton_majority(image@, w, h, cur, pal0),
                            iso && thick && fi >= 1 ==> result@[cur.1 * w + cur.0]
                                == spec_singleton_majority(image@, w, h, cur, pal0),
                            cells_wf(cells, *image, vis_pre, image@[cur.1 * w + cur.0]),
                            forall|c: (u32, u32)|
                                #[trigger] spec_isolated(image@, w, h, c) && scanned_before(
                                    c,
                                    x as int,
                                    y as int,
                                ) ==> vis_at(vis_pre, w, c),
                            forall|i: int|
                                0 <= i < result@.len() ==> result@[i] == image@[i] || result@[i]
                                    == pal0 || exists|j: int|
                                    0 <= j < image@.len() && image@[j] == #[trigger] result@[i],
                            forall|c: (u32, u32)|
                                c.0 < width && c.1 < height && !(#[trigger] vis_at(visited@, w, c))
                                    ==> result@[c.1 * w + c.0] == image@[c.1 * w + c.0],
                            forall|c: (u32, u32)|
                                c.0 < width && c.1 < height && !(#[trigger] vis_at(
                                    visited@,
                                    w,
                                    c,
                                )) ==> !vis_at(vis_pre, w, c) && !cells_cover_idx(
                                    cells,
                                    w,
                                    c.1 * w + c.0,
                                ),
                            thick ==> forall|c: (u32, u32)|
                                #[trigger] spec_isolated(image@, w, h, c) && scanned_before(
                                    c,
                                    x as int,
                                    y as int,
                                ) ==> result@[c.1 * w + c.0] == spec_singleton_majority(
                                    image@,
                                    w,
                                    h,
                                    c,
                                    pal0,
                                ),
                        decreases fn_len - fi,
                    {
                        let (fx, fy) = feature_pixels[fi];
                        let ghost t = (fx, fy);
                        let ghost pre = result;
                        result.put_pixel(fx, fy, replacement_color);
                        proof {
                            pre.lemma_idx_in_bounds(fx as int, fy as int);
                            assert(cells[fi as int] == t);
                            assert(!vis_at(vis_pre, w, t));
                            assert forall|i: int|
                                0 <= i < result@.len() implies result@[i] == image@[i]
                                || result@[i] == pal0 || exists|j: int|
                                0 <= j < image@.len() && image@[j] == #[trigger] result@[i] by {
                                if i != (fy as int) * w + fx {
                                    assert(result@[i] == pre@[i]);
                                } else {
                                    assert(result@[i] == replacement_color);
                                }
                            }
                            assert forall|c: (u32, u32)|
                                c.0 < width && c.1 < height && !(#[trigger] vis_at(
                                    visited@,
                                    w,
                                    c,
                                )) implies result@[c.1 * w + c.0] == image@[c.1 * w + c.0] by {
                                pre.lemma_idx_in_bounds(c.0 as int, c.1 as int);
                                assert(!cells_cover_idx(cells, w, c.1 * w + c.0));
                                assert(cells[fi as int] == t);
                                assert(c.1 * w + c.0 != t.1 * w + t.0) by {
                                    if c.1 * w + c.0 == t.1 * w + t.0 {
                                        assert(cells_cover_idx(cells, w, c.1 * w + c.0));
                                    }
                                }
                                assert(result@[c.1 * w + c.0] == pre@[c.1 * w + c.0]);
                            }
                            if thick {
                                assert forall|c: (u32, u32)|
                                    #[trigger] spec_isolated(image@, w, h, c) && scanned_before(
                                        c,
                                        x as int,
                                        y as int,
                                    ) implies result@[c.1 * w + c.0] == spec_singleton_majority(
                                    image@,
                                    w,
                                    h,
                                    c,
                                    pal0,
                                ) by {
                                    assert(vis_at(vis_pre, w, c));
                                    assert(c != t);
                                    pre.lemma_idx_in_bounds(c.0 as int, c.1 as int);
                                    assert(c.1 * w + c.0 != t.1 * w + t.0) by (nonlinear_arith)
                                        requires
                                            c != t,
                                            0 <= c.0 < w,
                                            0 <= t.0 < w,
                                            0 <= c.1,
                                            0 <= t.1,
                                    ;
                                    assert(result@[c.1 * w + c.0] == pre@[c.1 * w + c.0]);
                                }
                            }
                            if iso && thick {
                                assert(t == cur);
                                assert(result@[cur.1 * w + cur.0] == replacement_color);
                            }
                        }
                        fi = fi + 1;
                    }
                }
                proof {
                    // the cell just scanned is marked; any other collected
                    // cell has a same-colored collected neighbor, so it is
                    // not isolated
                    assert(vis_at(visited@, w, cur)) by {
                        assert(cells[0].1 * w + cells[0].0 == cur.1 * w + cur.0);
                        assert(cells_cover_idx(cells, w, cur.1 * w + cur.0));
                    }
                    assert forall|c: (u32, u32)|
                        c.0 < width && c.1 < height && #[trigger] vis_at(
                            visited@,
                            w,
                            c,
                        ) implies scanned_before(c, x + 1, y as int) || !spec_isolated(
                        image@,
                        w,
                        h,
                        c,
                    ) by {
                        image.lemma_idx_in_bounds(c.0 as int, c.1 as int);
                        if !vis_at(vis_pre, w, c) && c != cur && spec_isolated(image@, w, h, c) {
                            assert(cells_cover_idx(cells, w, c.1 * w + c.0));
                            let j = choose|j: int|
                                0 <= j < cells.len() && (#[trigger] cells[j]).1 * w + cells[j].0
                                    == c.1 * w + c.0;
                            assert(cells[j] == c) by (nonlinear_arith)
                                requires
                                    cells[j].1 * w + cells[j].0 == c.1 * w + c.0,
                                    0 <= cells[j].0 < w,
                                    0 <= c.0 < w,
                                    0 <= cells[j].1,
                                    0 <= c.1,
                            ;
                            assert(j != 0);
                            assert(chain_link(cells, j));
                            let k = choose|k: int| 0 <= k < j && #[trigger] adj4(cells[j], cells[k]);
                            assert(adj4(c, cells[k]));
                            assert(image@[cells[k].1 * w + cells[k].0] == image@[cur.1 * w + cur.0]);
                            assert(image@[c.1 * w + c.0] == image@[cur.1 * w + cur.0]);
                        }
                    }
                    assert forall|c: (u32, u32)|
                        #[trigger] spec_isolated(image@, w, h, c) && scanned_before(
                            c,
                            x + 1,
                            y as int,
                        ) implies vis_at(visited@, w, c) by {
                        image.lemma_idx_in_bounds(c.0 as int, c.1 as int);
                        if !scanned_before(c, x as int, y as int) {
                            assert(c == cur);
                        } else {
                            assert(vis_at(vis_pre, w, c));
                        }
                    }
                    if thick {
                        assert forall|c: (u32, u32)|
                            #[trigger] spec_isolated(image@, w, h, c) && scanned_before(
                                c,
                                x + 1,
                                y as int,
                            ) implies result@[c.1 * w + c.0] == spec_singleton_majority(
                            image@,
                            w,
                            h,
                            c,
                            pal0,
                        ) by {
                            if !scanned_before(c, x as int, y as int) {
                                assert(c == cur);
                                assert(iso);
                            }
                        }
                    }
                }
            } else {
                proof {
                    // a visited cell at the scan head cannot be isolated
                    assert forall|c: (u32, u32)|
                        c.0 < width && c.1 < height && #[trigger] vis_at(
                            visited@,
                            w,
                            c,
                        ) implies scanned_before(c, x + 1, y as int) || !spec_isolated(
                        image@,
                        w,
                        h,
                        c,
                    ) by {}
                    assert forall|c: (u32, u32)|
                        #[trigger] spec_isolated(image@, w, h, c) && scanned_before(
                            c,
                            x + 1,
                            y as int,
                        ) implies vis_at(visited@, w, c) by {
                        if !scanned_before(c, x as int, y as int) {
                            assert(c == cur);
                            assert(vis_at(visited@, w, cur));
                        }
                    }
                    if thick {
                        assert forall|c: (u32, u32)|
                            #[trigger] spec_isolated(image@, w, h, c) && scanned_before(
                                c,
                                x + 1,
                                y as int,
                            ) implies result@[c.1 * w + c.0] == spec_singleton_majority(
                            image@,
                            w,
                            h,
                            c,
                            pal0,
                        ) by {
                            if !scanned_before(c, x as int, y as int) {
                                assert(c == cur);
                                assert(vis_at(visited@, w, cur));
                                assert(!spec_isolated(image@, w, h, cur));
                            }
                        }
                    }
                }
            }
            x = x + 1;
        }
        proof {
            assert forall|c: (u32, u32)|
                c.0 < width && c.1 < height && #[trigger] vis_at(
                    visited@,
                    w,
                    c,
                ) implies scanned_before(c, 0, y + 1) || !spec_isolated(image@, w, h, c) by {}
            assert forall|c: (u32, u32)|
                #[trigger] spec_isolated(image@, w, h, c) && scanned_before(
                    c,
                    0,
                    y + 1,
                ) implies vis_at(visited@, w, c) by {}
            if thick {
                assert forall|c: (u32, u32)|
                    #[trigger] spec_isolated(image@, w, h, c) && scanned_before(
                        c,
                        0,
                        y + 1,
                    ) implies result@[c.1 * w + c.0] == spec_singleton_majority(
                    image@,
                    w,
                    h,
                    c,
                    pal0,
                ) by {}
            }
        }
        y = y + 1;
    }
    proof {
        if thick {
            assert forall|p: (u32, u32)|
                #[trigger] spec_isolated(image@, w, h, p) implies result@[p.1 * w + p.0]
                == spec_singleton_majority(image@, w, h, p, pal0) by {
                assert(scanned_before(p, 0, h));
            }
        }
    }
    result
}


/// Make the raster printable: run the configured number of morphological
/// openings, then merge features smaller than the physical minimum. The
/// result keeps the input's dimensions exactly.
pub fn enforce_min_feature_size(
    dithered_image: &Raster,
    palette: &ColorPalette,
    constraints: &PrintingConstraints,
    config: &PrintConfig,
) -> (out: Raster)
    requires
        dithered_image.wf(),
        palette.wf(),
        palette.colors@.len() > 0,
        constraints.wf(),
        config.wf(),
        dithered_image.spec_width() > 0 || dithered_image.spec_height() > 0,
        config.spec_pixel_size(dithered_image.spec_width(), dithered_image.spec_height()) >= 1,
    ensures
        out.wf(),
        out.spec_width() == dithered_image.spec_width(),
        out.spec_height() == dithered_image.spec_height(),
        ({
            let smoothed = spec_morph_passes(
                dithered_image@,
                *palette,
                dithered_image.spec_width() as int,
                dithered_image.spec_height() as int,
                constraints.erosion_dilation_passes as int,
            );
            !constraints.merge_small_features ==> out@ == smoothed
        }),
        ({
            let smoothed = spec_morph_passes(
                dithered_image@,
                *palette,
                dithered_image.spec_width() as int,
                dithered_image.spec_height() as int,
                constraints.erosion_dilation_passes as int,
            );
            let m = constraints.spec_min_pixels(
                config.spec_pixel_size(dithered_image.spec_width(), dithered_image.spec_height()),
            );
            constraints.merge_small_features ==> spec_merge_post(
                smoothed,
                dithered_image.spec_width() as int,
                dithered_image.spec_height() as int,
                out@,
                palette.colors@[0],
                m as u32,
                m as u32,
            )
        }),
{
    let (width, height) = dithered_image.dimensions();
    let (min_pixels_x, min_pixels_y) = constraints.calculate_min_pixels(config, width, height);

    let mut result = dithered_image.clone_raster();

    if constraints.erosion_dilation_passes > 0 {
        result = apply_morphological_operations(
            &result,
            palette,
            constraints.erosion_dilation_passes,
        );
    }

    if constraints.merge_small_features {
        result = merge_small_features(&result, palette, min_pixels_x, min_pixels_y);
    }

    result
}

} // verus!
