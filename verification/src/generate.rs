use vstd::prelude::*;
use crate::mesh::{Rectangle, rect_covers};
use crate::palette::ColorPalette;
use crate::raster::Raster;
use crate::vectorize::{coords_bounded, pixels_to_rectangles, MAX_PIXEL_COORD};

verus! {

/// A grid of white-layer counts, one per pixel, row-major; derived from a
/// raster by palette lookup.
pub struct LayerMap {
    pub width: u32,
    pub height: u32,
    pub counts: Vec<u32>,
}

/// The cell lies inside a grid of the given dimensions.
pub open spec fn cell_in_range(p: (u32, u32), w: int, h: int) -> bool {
    p.0 < w && p.1 < h
}

/// The layer count of cell `p` in a row-major count grid of width `w`.
pub open spec fn count_at(counts: Seq<u32>, w: int, p: (u32, u32)) -> u32 {
    counts[p.1 * w + p.0]
}

impl LayerMap {
    /// The backing buffer holds exactly one count per cell.
    pub open spec fn wf(self) -> bool {
        self.counts@.len() == self.width * self.height
    }

    /// The layer count of cell `p`.
    pub open spec fn spec_count(self, p: (u32, u32)) -> u32 {
        count_at(self.counts@, self.width as int, p)
    }

    /// The cell lies inside the grid.
    pub open spec fn cell_in_range(self, p: (u32, u32)) -> bool {
        cell_in_range(p, self.width as int, self.height as int)
    }

    /// A cell's row-major position lies inside the buffer.
    pub proof fn lemma_idx_in_bounds(self, p: (u32, u32))
        requires
            self.wf(),
            self.cell_in_range(p),
        ensures
            0 <= p.1 * self.width + p.0 < self.counts@.len(),
    {
        let w = self.width as int;
        let h = self.height as int;
        assert(p.1 * w + p.0 < w * h) by (nonlinear_arith)
            requires
                0 <= p.0 < w,
                0 <= p.1 < h,
        ;
    }
}

/// The layer count the palette assigns to each pixel of the raster.
pub fn image_to_layer_map(image: &Raster, palette: &ColorPalette) -> (m: LayerMap)
    requires
        image.wf(),
        palette.wf(),
    ensures
        m.wf(),
        m.width == image.spec_width(),
        m.height == image.spec_height(),
        forall|i: int|
            0 <= i < m.counts@.len() ==> m.counts@[i] == palette.spec_layer_count_for_color(
                #[trigger] image@[i],
            ),
{
    let n: usize = image.pixels.len();
    let mut counts: Vec<u32> = Vec::new();
    let mut i: usize = 0;
    while i < n
        invariant
            image.wf(),
            palette.wf(),
            n == image@.len(),
            i <= n,
            counts@.len() == i,
            forall|j: int|
                0 <= j < i ==> counts@[j] == palette.spec_layer_count_for_color(
                    #[trigger] image@[j],
                ),
        decreases n - i,
    {
        counts.push(palette.get_layer_count_for_color(&image.pixels[i]));
        i = i + 1;
    }
    LayerMap { width: image.width, height: image.height, counts }
}

/// The cells holding layer count `lc`, in row-major order.
pub fn collect_layer_pixels(map: &LayerMap, lc: u32) -> (out: Vec<(u32, u32)>)
    requires
        map.wf(),
    ensures
        coords_bounded(out@),
        forall|p: (u32, u32)|
            #[trigger] out@.contains(p) <==> map.cell_in_range(p) && map.spec_count(p) == lc,
{
    let width = map.width;
    let height = map.height;
    let mut out: Vec<(u32, u32)> = Vec::new();
    let mut y: u32 = 0;
    while y < height
        invariant
            map.wf(),
            width == map.width,
            height == map.height,
            y <= height,
            forall|j: int|
                0 <= j < out@.len() ==> map.cell_in_range(#[trigger] out@[j]) && map.spec_count(
                    out@[j],
                ) == lc,
            forall|p: (u32, u32)|
                map.cell_in_range(p) && map.spec_count(p) == lc && p.1 < y ==> out@.contains(p),
        decreases height - y,
    {
        let mut x: u32 = 0;
        while x < width
            invariant
                map.wf(),
                width == map.width,
                height == map.height,
                y < height,
                x <= width,
                forall|j: int|
                    0 <= j < out@.len() ==> map.cell_in_range(#[trigger] out@[j]) && map.spec_count(
                        out@[j],
                    ) == lc,
                forall|p: (u32, u32)|
                    map.cell_in_range(p) && map.spec_count(p) == lc && p.1 < y ==> out@.contains(p),
                forall|p: (u32, u32)|
                    map.cell_in_range(p) && map.spec_count(p) == lc && p.1 == y && p.0 < x
                        ==> out@.contains(p),
            decreases width - x,
        {
            proof {
                map.lemma_idx_in_bounds((x, y));
            }
            let nbuf: usize = map.counts.len();
            let idx: usize = (y as usize) * (width as usize) + (x as usize);
            let ghost pre = out@;
            if map.counts[idx] == lc {
                out.push((x, y));
            }
            proof {
                assert forall|p: (u32, u32)|
                    map.cell_in_range(p) && map.spec_count(p) == lc && (p.1 < y || (p.1 == y && p.0
                        < x + 1)) implies out@.contains(p) by {
                    if p.1 == y && p.0 == x {
                        assert(out@[out@.len() - 1] == p);
                    } else {
                        assert(pre.contains(p));
                        let k = choose|k: int| 0 <= k < pre.len() && pre[k] == p;
                        assert(out@[k] == p);
                    }
                }
            }
            x = x + 1;
        }
        y = y + 1;
    }
    proof {
        assert forall|p: (u32, u32)| #[trigger] out@.contains(p) implies map.cell_in_range(p)
            && map.spec_count(p) == lc by {
            let j = choose|j: int| 0 <= j < out@.len() && out@[j] == p;
        }
        assert forall|j: int|
            0 <= j < out@.len() implies (#[trigger] out@[j]).0 <= MAX_PIXEL_COORD && out@[j].1
            <= MAX_PIXEL_COORD by {}
    }
    out
}

/// Every covered cell lies in the grid and holds the entry's layer count.
pub open spec fn regions_sound(
    regions: Seq<(u32, Rectangle)>,
    counts: Seq<u32>,
    w: int,
    h: int,
) -> bool {
    forall|k: int, p: (u32, u32)|
        0 <= k < regions.len() && #[trigger] rect_covers(regions[k].1, p) ==> cell_in_range(p, w, h)
            && count_at(counts, w, p) == regions[k].0
}

/// No two entries' rectangles share a cell.
pub open spec fn regions_disjoint(regions: Seq<(u32, Rectangle)>) -> bool {
    forall|k1: int, k2: int, p: (u32, u32)|
        0 <= k1 < k2 < regions.len() ==> !(#[trigger] rect_covers(regions[k1].1, p)
            && #[trigger] rect_covers(regions[k2].1, p))
}

/// Every cell of the grid is covered by an entry carrying its layer count.
pub open spec fn regions_cover(
    regions: Seq<(u32, Rectangle)>,
    counts: Seq<u32>,
    w: int,
    h: int,
) -> bool {
    forall|p: (u32, u32)|
        #[trigger] cell_in_range(p, w, h) ==> exists|k: int|
            0 <= k < regions.len() && #[trigger] rect_covers(regions[k].1, p) && regions[k].0
                == count_at(counts, w, p)
}

/// Every entry's rectangle has positive extent.
pub open spec fn regions_nonempty(regions: Seq<(u32, Rectangle)>) -> bool {
    forall|k: int|
        0 <= k < regions.len() ==> (#[trigger] regions[k]).1.width >= 1 && regions[k].1.height >= 1
}

/// Every entry's far edges stay within the coordinate type.
pub open spec fn regions_bounded(regions: Seq<(u32, Rectangle)>) -> bool {
    forall|k: int|
        0 <= k < regions.len() ==> (#[trigger] regions[k]).1.x + regions[k].1.width <= u32::MAX
            && regions[k].1.y + regions[k].1.height <= u32::MAX
}

/// Decompose the cells holding `lc` into rectangles and append them, each
/// tagged with `lc`.
fn append_layer_group(regions: &mut Vec<(u32, Rectangle)>, map: &LayerMap, lc: u32)
    requires
        map.wf(),
        regions_sound(old(regions)@, map.counts@, map.width as int, map.height as int),
        regions_disjoint(old(regions)@),
        regions_nonempty(old(regions)@),
        regions_bounded(old(regions)@),
        forall|k: int| 0 <= k < old(regions)@.len() ==> (#[trigger] old(regions)@[k]).0 != lc,
    ensures
        final(regions)@.len() >= old(regions)@.len(),
        final(regions)@.take(old(regions)@.len() as int) == old(regions)@,
        forall|k: int|
            old(regions)@.len() <= k < final(regions)@.len()
                ==> (#[trigger] final(regions)@[k]).0 == lc,
        regions_sound(final(regions)@, map.counts@, map.width as int, map.height as int),
        regions_disjoint(final(regions)@),
        regions_nonempty(final(regions)@),
        regions_bounded(final(regions)@),
        forall|p: (u32, u32)|
            #[trigger] map.cell_in_range(p) && map.spec_count(p) == lc ==> exists|k: int|
                0 <= k < final(regions)@.len() && #[trigger] rect_covers(final(regions)@[k].1, p)
                    && final(regions)@[k].0 == map.spec_count(p),
{
    let pixels = collect_layer_pixels(map, lc);
    let rects = pixels_to_rectangles(&pixels);
    let ghost pre = regions@;
    proof {
        assert(regions@.take(pre.len() as int) =~= pre);
    }
    let n = rects.len();
    let mut i: usize = 0;
    while i < n
        invariant
            n == rects@.len(),
            i <= n,
            regions@.len() == pre.len() + i,
            regions@.take(pre.len() as int) == pre,
            forall|k: int| 0 <= k < i ==> regions@[pre.len() + k] == (lc, rects@[k]),
        decreases n - i,
    {
        let ghost snap = regions@;
        regions.push((lc, rects[i]));
        proof {
            assert(regions@.take(pre.len() as int) =~= snap.take(pre.len() as int));
        }
        i = i + 1;
    }
    proof {
        let post = regions@;
        let m = pre.len() as int;
        assert forall|k: int| m <= k < post.len() implies (#[trigger] post[k]).0 == lc by {
            assert(post[m + (k - m)] == (lc, rects@[k - m]));
        }
        // soundness
        assert forall|k: int, p: (u32, u32)|
            0 <= k < post.len() && #[trigger] rect_covers(post[k].1, p) implies map.cell_in_range(p)
            && map.spec_count(p) == post[k].0 by {
            if k < m {
                assert(post[k] == pre[k]);
                assert(rect_covers(pre[k].1, p));
            } else {
                assert(post[k] == (lc, rects@[k - m]));
                assert(rect_covers(rects@[k - m], p));
                assert(pixels@.contains(p));
            }
        }
        // coverage of this layer count
        assert forall|p: (u32, u32)|
            #[trigger] map.cell_in_range(p) && map.spec_count(p) == lc implies exists|k: int|
            0 <= k < post.len() && #[trigger] rect_covers(post[k].1, p) && post[k].0
                == map.spec_count(p) by {
            assert(pixels@.contains(p));
            let j = choose|j: int| 0 <= j < rects@.len() && #[trigger] rect_covers(rects@[j], p);
            assert(post[m + j] == (lc, rects@[j]));
            assert(rect_covers(post[m + j].1, p) && post[m + j].0 == lc);
        }
        // disjointness
        assert forall|k1: int, k2: int, p: (u32, u32)|
            0 <= k1 < k2 < post.len() implies !(#[trigger] rect_covers(post[k1].1, p)
            && #[trigger] rect_covers(post[k2].1, p)) by {
            if rect_covers(post[k1].1, p) && rect_covers(post[k2].1, p) {
                if k2 < m {
                    assert(post[k1] == pre[k1] && post[k2] == pre[k2]);
                    assert(rect_covers(pre[k1].1, p) && rect_covers(pre[k2].1, p));
                } else if k1 >= m {
                    assert(post[k1] == (lc, rects@[k1 - m]) && post[k2] == (lc, rects@[k2 - m]));
                    assert(rect_covers(rects@[k1 - m], p) && rect_covers(rects@[k2 - m], p));
                } else {
                    // an old entry and a new one would give the cell two
                    // different layer counts
                    assert(post[k1] == pre[k1]);
                    assert(rect_covers(pre[k1].1, p));
                    assert(map.spec_count(p) == pre[k1].0);
                    assert(post[k2] == (lc, rects@[k2 - m]));
                    assert(rect_covers(rects@[k2 - m], p));
                    assert(pixels@.contains(p));
                    assert(map.spec_count(p) == lc);
                    assert(pre[k1].0 != lc);
                }
            }
        }
        // positive extents
        assert forall|k: int|
            0 <= k < post.len() implies (#[trigger] post[k]).1.width >= 1 && post[k].1.height
            >= 1 by {
            if k < m {
                assert(post[k] == pre[k]);
                assert(pre[k] == pre[k]);
            } else {
                assert(post[k] == (lc, rects@[k - m]));
                assert(rects@[k - m].width >= 1 && rects@[k - m].height >= 1);
            }
        }
        // far edges within the coordinate type
        assert forall|k: int|
            0 <= k < post.len() implies (#[trigger] post[k]).1.x + post[k].1.width <= u32::MAX
            && post[k].1.y + post[k].1.height <= u32::MAX by {
            if k < m {
                assert(post[k] == pre[k]);
                assert(pre[k] == pre[k]);
            } else {
                assert(post[k] == (lc, rects@[k - m]));
                assert(rects@[k - m].x + rects@[k - m].width <= u32::MAX);
            }
        }
    }
}

/// Whether the layer count at `idx` already occurs earlier in the palette.
fn layer_count_seen_before(palette: &ColorPalette, idx: usize) -> (r: bool)
    requires
        idx < palette.layer_counts@.len(),
    ensures
        r == exists|j: int| 0 <= j < idx && palette.layer_counts@[j] == palette.layer_counts@[idx as int],
{
    let lc = palette.layer_counts[idx];
    let mut j: usize = 0;
    while j < idx
        invariant
            idx < palette.layer_counts@.len(),
            j <= idx,
            lc == palette.layer_counts@[idx as int],
            forall|k: int| 0 <= k < j ==> palette.layer_counts@[k] != lc,
        decreases idx - j,
    {
        if palette.layer_counts[j] == lc {
            return true;
        }
        j = j + 1;
    }
    false
}

/// Group the raster's cells by layer count and decompose every group into
/// disjoint rectangles: each cell of the raster is covered by exactly one
/// entry, which carries that cell's layer count. Groups are processed in a
/// fixed order (count zero first, then first palette occurrence), so the
/// result is a function of the raster and the palette alone.
pub fn vectorize_image_to_regions(image: &Raster, palette: &ColorPalette) -> (regions: Vec<
    (u32, Rectangle),
>)
    requires
        image.wf(),
        palette.wf(),
    ensures
        regions_sound(
            regions@,
            spec_counts_of(image@, *palette),
            image.spec_width() as int,
            image.spec_height() as int,
        ),
        regions_disjoint(regions@),
        regions_cover(
            regions@,
            spec_counts_of(image@, *palette),
            image.spec_width() as int,
            image.spec_height() as int,
        ),
        regions_nonempty(regions@),
        regions_bounded(regions@),
{
    let map = image_to_layer_map(image, palette);
    proof {
        assert(map.counts@ =~= spec_counts_of(image@, *palette));
    }
    let mut regions: Vec<(u32, Rectangle)> = Vec::new();
    append_layer_group(&mut regions, &map, 0);
    let n = palette.layer_counts.len();
    let mut idx: usize = 0;
    while idx < n
        invariant
            map.wf(),
            palette.wf(),
            n == palette.layer_counts@.len(),
            idx <= n,
            regions_sound(regions@, map.counts@, map.width as int, map.height as int),
            regions_disjoint(regions@),
            regions_nonempty(regions@),
            regions_bounded(regions@),
            forall|k: int|
                0 <= k < regions@.len() ==> (#[trigger] regions@[k]).0 == 0 || exists|j: int|
                    0 <= j < idx && palette.layer_counts@[j] == regions@[k].0,
            forall|p: (u32, u32)|
                #[trigger] map.cell_in_range(p) && (map.spec_count(p) == 0 || exists|j: int|
                    0 <= j < idx && palette.layer_counts@[j] == map.spec_count(p)) ==> exists|
                    k: int,
                |
                    0 <= k < regions@.len() && #[trigger] rect_covers(regions@[k].1, p)
                        && regions@[k].0 == map.spec_count(p),
        decreases n - idx,
    {
        let lc = palette.layer_counts[idx];
        let seen = layer_count_seen_before(palette, idx);
        if lc != 0 && !seen {
            let ghost pre = regions@;
            append_layer_group(&mut regions, &map, lc);
            proof {
                assert forall|k: int|
                    0 <= k < regions@.len() implies (#[trigger] regions@[k]).0 == 0 || exists|
                    j: int,
                |
                    0 <= j < idx + 1 && palette.layer_counts@[j] == regions@[k].0 by {
                    if k < pre.len() {
                        assert(regions@.take(pre.len() as int)[k] == pre[k]);
                        assert(regions@[k] == pre[k]);
                        if pre[k].0 != 0 {
                            let j = choose|j: int|
                                0 <= j < idx && palette.layer_counts@[j] == pre[k].0;
                            assert(palette.layer_counts@[j] == regions@[k].0);
                        }
                    } else {
                        assert(regions@[k].0 == lc);
                        assert(palette.layer_counts@[idx as int] == regions@[k].0);
                    }
                }
                assert forall|p: (u32, u32)|
                    #[trigger] map.cell_in_range(p) && (map.spec_count(p) == 0 || exists|j: int|
                        0 <= j < idx + 1 && palette.layer_counts@[j] == map.spec_count(
                            p,
                        )) implies exists|k: int|
                    0 <= k < regions@.len() && #[trigger] rect_covers(regions@[k].1, p)
                        && regions@[k].0 == map.spec_count(p) by {
                    if map.spec_count(p) == lc {
                    } else {
                        let k0 = choose|k0: int|
                            0 <= k0 < pre.len() && #[trigger] rect_covers(pre[k0].1, p)
                                && pre[k0].0 == map.spec_count(p);
                        assert(regions@.take(pre.len() as int)[k0] == pre[k0]);
                        assert(rect_covers(regions@[k0].1, p) && regions@[k0].0 == map.spec_count(
                            p,
                        ));
                    }
                }
            }
        } else {
            proof {
                assert forall|p: (u32, u32)|
                    #[trigger] map.cell_in_range(p) && (map.spec_count(p) == 0 || exists|j: int|
                        0 <= j < idx + 1 && palette.layer_counts@[j] == map.spec_count(
                            p,
                        )) implies exists|k: int|
                    0 <= k < regions@.len() && #[trigger] rect_covers(regions@[k].1, p)
                        && regions@[k].0 == map.spec_count(p) by {
                    if map.spec_count(p) != 0 {
                        let j = choose|j: int|
                            0 <= j < idx + 1 && palette.layer_counts@[j] == map.spec_count(p);
                        if j == idx {
                            assert(map.spec_count(p) == lc);
                            if lc != 0 {
                                let j2 = choose|j2: int|
                                    0 <= j2 < idx && palette.layer_counts@[j2]
                                        == palette.layer_counts@[idx as int];
                            }
                        }
                    }
                }
            }
        }
        idx = idx + 1;
    }
    proof {
        let cs = spec_counts_of(image@, *palette);
        let gw = image.spec_width() as int;
        let gh = image.spec_height() as int;
        // every cell's count is zero or occurs in the palette, so every cell
        // was covered by some processed group
        assert forall|p: (u32, u32)| #[trigger] cell_in_range(p, gw, gh) implies exists|k: int|
            0 <= k < regions@.len() && #[trigger] rect_covers(regions@[k].1, p) && regions@[k].0
                == count_at(cs, gw, p) by {
            assert(map.cell_in_range(p));
            map.lemma_idx_in_bounds(p);
            let i = p.1 * map.width + p.0;
            assert(map.counts@[i] == (*palette).spec_layer_count_for_color(image@[i]));
            crate::palette::lemma_lookup_count_in_counts(
                palette.colors@,
                palette.layer_counts@,
                image@[i],
            );
            let k = choose|k: int|
                0 <= k < regions@.len() && #[trigger] rect_covers(regions@[k].1, p)
                    && regions@[k].0 == map.spec_count(p);
            assert(count_at(cs, gw, p) == map.spec_count(p));
        }
        assert(regions_cover(regions@, cs, gw, gh));
        assert(regions_sound(regions@, cs, gw, gh)) by {
            assert forall|k: int, p: (u32, u32)|
                0 <= k < regions@.len() && #[trigger] rect_covers(regions@[k].1, p) implies
                cell_in_range(p, gw, gh) && count_at(cs, gw, p) == regions@[k].0 by {
                assert(map.cell_in_range(p));
            }
        }
    }
    regions
}

/// The layer counts a palette assigns to a raster's pixels, row-major.
pub open spec fn spec_counts_of(img: Seq<crate::color::Color>, pal: ColorPalette) -> Seq<u32> {
    Seq::new(img.len(), |i: int| pal.spec_layer_count_for_color(img[i]))
}

/// The physical box of a variable-height white region: footprint scaled by
/// the pixel side, sitting on the base, `lc` layers thick.
pub open spec fn spec_var_white_box(e: (u32, Rectangle), pixel: int, z0: int, layer_t: int) -> crate::mesh::BoxSpec {
    crate::mesh::BoxSpec {
        x: (e.1.x * pixel) as u64,
        y: (e.1.y * pixel) as u64,
        z: z0 as u64,
        w: (e.1.width * pixel) as u64,
        h: (e.1.height * pixel) as u64,
        d: (e.0 * layer_t) as u64,
    }
}

/// The white boxes of the positive-count regions, in order.
pub open spec fn spec_var_white_boxes(
    regions: Seq<(u32, Rectangle)>,
    pixel: int,
    z0: int,
    layer_t: int,
) -> Seq<crate::mesh::BoxSpec>
    decreases regions.len(),
{
    if regions.len() == 0 {
        Seq::empty()
    } else {
        spec_var_white_boxes(regions.drop_last(), pixel, z0, layer_t) + (if regions.last().0 > 0 {
            seq![spec_var_white_box(regions.last(), pixel, z0, layer_t)]
        } else {
            Seq::empty()
        })
    }
}

/// The flat-top black box of a region: the base shrinks as the region's
/// layer count grows.
pub open spec fn spec_flat_black_box(
    e: (u32, Rectangle),
    pixel: int,
    c: crate::config::PrintConfig,
    flat_top: bool,
) -> crate::mesh::BoxSpec {
    crate::mesh::BoxSpec {
        x: (e.1.x * pixel) as u64,
        y: (e.1.y * pixel) as u64,
        z: 0,
        w: (e.1.width * pixel) as u64,
        h: (e.1.height * pixel) as u64,
        d: c.spec_black_thickness(e.0, flat_top) as u64,
    }
}

/// The per-region black boxes, in order.
pub open spec fn spec_flat_black_boxes(
    regions: Seq<(u32, Rectangle)>,
    pixel: int,
    c: crate::config::PrintConfig,
    flat_top: bool,
) -> Seq<crate::mesh::BoxSpec>
    decreases regions.len(),
{
    if regions.len() == 0 {
        Seq::empty()
    } else {
        spec_flat_black_boxes(regions.drop_last(), pixel, c, flat_top) + seq![
            spec_flat_black_box(regions.last(), pixel, c, flat_top),
        ]
    }
}

/// The per-region white boxes of the vectorized mode: a positive-count
/// region carries `lc` layers of white directly above its black box.
pub open spec fn spec_flat_white_box(
    e: (u32, Rectangle),
    pixel: int,
    c: crate::config::PrintConfig,
    flat_top: bool,
) -> crate::mesh::BoxSpec {
    crate::mesh::BoxSpec {
        x: (e.1.x * pixel) as u64,
        y: (e.1.y * pixel) as u64,
        z: c.spec_black_thickness(e.0, flat_top) as u64,
        w: (e.1.width * pixel) as u64,
        h: (e.1.height * pixel) as u64,
        d: (e.0 * c.layer_thickness_um) as u64,
    }
}

/// The white boxes of the positive-count regions in vectorized mode.
pub open spec fn spec_flat_white_boxes(
    regions: Seq<(u32, Rectangle)>,
    pixel: int,
    c: crate::config::PrintConfig,
    flat_top: bool,
) -> Seq<crate::mesh::BoxSpec>
    decreases regions.len(),
{
    if regions.len() == 0 {
        Seq::empty()
    } else {
        spec_flat_white_boxes(regions.drop_last(), pixel, c, flat_top) + (if regions.last().0
            > 0 {
            seq![spec_flat_white_box(regions.last(), pixel, c, flat_top)]
        } else {
            Seq::empty()
        })
    }
}

/// A region entry keeps its layer count within the palette's cap and its
/// rectangle inside the grid.
proof fn lemma_region_entry_bounds(
    regions: Seq<(u32, Rectangle)>,
    img: Seq<crate::color::Color>,
    pal: ColorPalette,
    w: int,
    h: int,
    k: int,
    cap: u32,
)
    requires
        regions_sound(regions, spec_counts_of(img, pal), w, h),
        regions_nonempty(regions),
        regions_bounded(regions),
        pal.wf(),
        pal.counts_at_most(cap),
        0 <= k < regions.len(),
        w * h == img.len(),
    ensures
        regions[k].0 <= cap,
        regions[k].1.x + regions[k].1.width <= w,
        regions[k].1.y + regions[k].1.height <= h,
{
    let e = regions[k];
    assert(e.1.width >= 1 && e.1.height >= 1);
    assert(e.1.x + e.1.width <= u32::MAX && e.1.y + e.1.height <= u32::MAX);
    let corner = ((e.1.x + e.1.width - 1) as u32, (e.1.y + e.1.height - 1) as u32);
    assert(rect_covers(e.1, corner));
    assert(cell_in_range(corner, w, h));
    let p = (e.1.x, e.1.y);
    assert(rect_covers(e.1, p));
    assert(cell_in_range(p, w, h));
    let cs = spec_counts_of(img, pal);
    assert(count_at(cs, w, p) == e.0);
    let i = p.1 * w + p.0;
    assert(0 <= p.1 * w + p.0 < w * h) by (nonlinear_arith)
        requires
            0 <= p.0 < w,
            0 <= p.1 < h,
    ;
    assert(cs[i] == pal.spec_layer_count_for_color(img[i]));
    crate::palette::lemma_lookup_count_in_counts(pal.colors@, pal.layer_counts@, img[i]);
}

/// Scaling a rectangle that fits the grid keeps every physical coordinate
/// within the configured image size.
proof fn lemma_scale_bounds(c: crate::config::PrintConfig, w: u32, h: u32, r: Rectangle)
    requires
        c.wf(),
        w > 0 || h > 0,
        r.x + r.width <= w,
        r.y + r.height <= h,
    ensures
        0 <= c.spec_pixel_size(w, h) <= c.image_size_um,
        (r.x + r.width) * c.spec_pixel_size(w, h) <= c.image_size_um,
        (r.y + r.height) * c.spec_pixel_size(w, h) <= c.image_size_um,
        r.x * c.spec_pixel_size(w, h) + r.width * c.spec_pixel_size(w, h) == (r.x + r.width)
            * c.spec_pixel_size(w, h),
        r.y * c.spec_pixel_size(w, h) + r.height * c.spec_pixel_size(w, h) == (r.y + r.height)
            * c.spec_pixel_size(w, h),
        r.x * c.spec_pixel_size(w, h) >= 0,
        r.y * c.spec_pixel_size(w, h) >= 0,
        r.width * c.spec_pixel_size(w, h) >= 0,
        r.height * c.spec_pixel_size(w, h) >= 0,
{
    let maxdim: int = if w > h {
        w as int
    } else {
        h as int
    };
    let pixel = c.spec_pixel_size(w, h);
    assert(pixel == c.image_size_um as int / maxdim);
    vstd::arithmetic::div_mod::lemma_fundamental_div_mod(c.image_size_um as int, maxdim);
    vstd::arithmetic::div_mod::lemma_mod_bound(c.image_size_um as int, maxdim);
    assert(maxdim * pixel <= c.image_size_um);
    assert(pixel >= 0) by (nonlinear_arith)
        requires
            maxdim >= 1,
            maxdim * pixel <= c.image_size_um,
            c.image_size_um as int == maxdim * pixel + c.image_size_um as int % maxdim,
            0 <= c.image_size_um as int % maxdim,
    ;
    assert(pixel <= c.image_size_um) by (nonlinear_arith)
        requires
            maxdim >= 1,
            pixel >= 0,
            maxdim * pixel <= c.image_size_um,
    ;
    vstd::arithmetic::mul::lemma_mul_inequality(r.x + r.width, maxdim, pixel);
    assert(maxdim * pixel == pixel * maxdim) by (nonlinear_arith);
    assert((r.x + r.width) * pixel <= maxdim * pixel) by (nonlinear_arith)
        requires
            r.x + r.width <= maxdim,
            pixel >= 0,
    ;
    assert((r.y + r.height) * pixel <= maxdim * pixel) by (nonlinear_arith)
        requires
            r.y + r.height <= maxdim,
            pixel >= 0,
    ;
    vstd::arithmetic::mul::lemma_mul_is_distributive_add_other_way(pixel, r.x as int, r.width as int);
    vstd::arithmetic::mul::lemma_mul_is_distributive_add_other_way(
        pixel,
        r.y as int,
        r.height as int,
    );
    assert(r.x * pixel >= 0) by (nonlinear_arith)
        requires
            r.x >= 0,
            pixel >= 0,
    ;
    assert(r.y * pixel >= 0) by (nonlinear_arith)
        requires
            r.y >= 0,
            pixel >= 0,
    ;
    assert(r.width * pixel >= 0) by (nonlinear_arith)
        requires
            r.width >= 0,
            pixel >= 0,
    ;
    assert(r.height * pixel >= 0) by (nonlinear_arith)
        requires
            r.height >= 0,
            pixel >= 0,
    ;
}

/// The decomposition is exact: sound, covering, disjoint, with positive,
/// in-range rectangles.
pub open spec fn spec_regions_wf(
    regions: Seq<(u32, Rectangle)>,
    img: Seq<crate::color::Color>,
    pal: ColorPalette,
    w: int,
    h: int,
) -> bool {
    &&& regions_sound(regions, spec_counts_of(img, pal), w, h)
    &&& regions_disjoint(regions)
    &&& regions_cover(regions, spec_counts_of(img, pal), w, h)
    &&& regions_nonempty(regions)
    &&& regions_bounded(regions)
}

/// Extrude every layer-count region independently: each region gets a black
/// box from the build plate up, and a positive-count region gets its white
/// layers stacked directly above.
pub fn generate_image_objects_vectorized(
    image: &Raster,
    palette: &ColorPalette,
    config: &crate::config::PrintConfig,
    flat_top: bool,
) -> (out: crate::mesh::PrintObjects)
    requires
        image.wf(),
        palette.wf(),
        config.wf(),
        image.spec_width() > 0,
        image.spec_height() > 0,
        palette.counts_at_most(config.max_layers),
    ensures
        exists|regions: Seq<(u32, Rectangle)>|
            {
                let pixel = config.spec_pixel_size(image.spec_width(), image.spec_height());
                &&& #[trigger] spec_regions_wf(
                    regions,
                    image@,
                    *palette,
                    image.spec_width() as int,
                    image.spec_height() as int,
                )
                &&& crate::mesh::mesh_is_boxes(
                    out.black_mesh,
                    spec_flat_black_boxes(regions, pixel, *config, flat_top),
                )
                &&& crate::mesh::mesh_is_boxes(
                    out.white_mesh,
                    spec_flat_white_boxes(regions, pixel, *config, flat_top),
                )
            },
{
    let (width, height) = image.dimensions();
    let ghost gw = width as int;
    let ghost gh = height as int;
    let regions = vectorize_image_to_regions(image, palette);
    let (pixel, _ph) = config.pixel_size(width, height);
    let ghost gpixel = pixel as int;
    let mut black_boxes: Vec<crate::mesh::BoxSpec> = Vec::new();
    let mut white_boxes: Vec<crate::mesh::BoxSpec> = Vec::new();
    let n = regions.len();
    let mut i: usize = 0;
    proof {
        assert(black_boxes@ =~= spec_flat_black_boxes(regions@.take(0), gpixel, *config, flat_top));
        assert(white_boxes@ =~= spec_flat_white_boxes(regions@.take(0), gpixel, *config, flat_top));
    }
    while i < n
        invariant
            image.wf(),
            palette.wf(),
            config.wf(),
            width == image.spec_width(),
            height == image.spec_height(),
            gw == width as int,
            gh == height as int,
            width > 0,
            height > 0,
            palette.counts_at_most(config.max_layers),
            n == regions@.len(),
            i <= n,
            gpixel == config.spec_pixel_size(width, height),
            pixel as int == gpixel,
            spec_regions_wf(regions@, image@, *palette, gw, gh),
            black_boxes@ == spec_flat_black_boxes(regions@.take(i as int), gpixel, *config, flat_top),
            white_boxes@ == spec_flat_white_boxes(regions@.take(i as int), gpixel, *config, flat_top),
            forall|j: int| 0 <= j < black_boxes@.len() ==> crate::mesh::box_wf(#[trigger] black_boxes@[j]),
            forall|j: int| 0 <= j < white_boxes@.len() ==> crate::mesh::box_wf(#[trigger] white_boxes@[j]),
        decreases n - i,
    {
        let (lc, r) = regions[i];
        proof {
            lemma_region_entry_bounds(
                regions@,
                image@,
                *palette,
                gw,
                gh,
                i as int,
                config.max_layers,
            );
            lemma_scale_bounds(*config, width, height, r);
            vstd::arithmetic::mul::lemma_mul_upper_bound(
                lc as int,
                crate::config::MAX_LAYER_CAP as int,
                config.layer_thickness_um as int,
                crate::config::MAX_LENGTH_UM as int,
            );
            vstd::arithmetic::mul::lemma_mul_upper_bound(
                config.max_layers as int,
                crate::config::MAX_LAYER_CAP as int,
                config.layer_thickness_um as int,
                crate::config::MAX_LENGTH_UM as int,
            );
        }
        let bx = r.x as u64 * pixel;
        let by = r.y as u64 * pixel;
        let bw = r.width as u64 * pixel;
        let bh = r.height as u64 * pixel;
        let black_height = config.calculate_black_thickness(lc, flat_top);
        let ghost pre_black = black_boxes@;
        let ghost pre_white = white_boxes@;
        black_boxes.push(
            crate::mesh::BoxSpec { x: bx, y: by, z: 0, w: bw, h: bh, d: black_height },
        );
        if lc > 0 {
            let white_height = lc as u64 * config.layer_thickness_um;
            white_boxes.push(
                crate::mesh::BoxSpec {
                    x: bx,
                    y: by,
                    z: black_height,
                    w: bw,
                    h: bh,
                    d: white_height,
                },
            );
        }
        proof {
            assert(regions@.take(i + 1).drop_last() =~= regions@.take(i as int));
            assert(regions@.take(i + 1).last() == regions@[i as int]);
            assert(black_boxes@ =~= spec_flat_black_boxes(
                regions@.take(i + 1),
                gpixel,
                *config,
                flat_top,
            ));
            assert(white_boxes@ =~= spec_flat_white_boxes(
                regions@.take(i + 1),
                gpixel,
                *config,
                flat_top,
            ));
        }
        i = i + 1;
    }
    proof {
        assert(regions@.take(n as int) =~= regions@);
    }
    let black_mesh = crate::mesh::build_boxes_mesh(&black_boxes);
    let white_mesh = crate::mesh::build_boxes_mesh(&white_boxes);
    crate::mesh::PrintObjects { black_mesh, white_mesh }
}

/// Variable-height mode: one black base box spans the whole canvas, and
/// each positive layer-count region becomes a white box on top of it.
fn generate_variable_height_optimized(
    image: &Raster,
    palette: &ColorPalette,
    config: &crate::config::PrintConfig,
) -> (out: crate::mesh::PrintObjects)
    requires
        image.wf(),
        palette.wf(),
        config.wf(),
        image.spec_width() > 0,
        image.spec_height() > 0,
        palette.counts_at_most(config.max_layers),
    ensures
        ({
            let pixel = config.spec_pixel_size(image.spec_width(), image.spec_height());
            crate::mesh::mesh_is_boxes(
                out.black_mesh,
                seq![
                    crate::mesh::BoxSpec {
                        x: 0,
                        y: 0,
                        z: 0,
                        w: (image.spec_width() * pixel) as u64,
                        h: (image.spec_height() * pixel) as u64,
                        d: config.base_thickness_um,
                    },
                ],
            )
        }),
        exists|regions: Seq<(u32, Rectangle)>|
            {
                let pixel = config.spec_pixel_size(image.spec_width(), image.spec_height());
                &&& #[trigger] spec_regions_wf(
                    regions,
                    image@,
                    *palette,
                    image.spec_width() as int,
                    image.spec_height() as int,
                )
                &&& crate::mesh::mesh_is_boxes(
                    out.white_mesh,
                    spec_var_white_boxes(
                        regions,
                        pixel,
                        config.base_thickness_um as int,
                        config.layer_thickness_um as int,
                    ),
                )
            },
{
    let (width, height) = image.dimensions();
    let ghost gw = width as int;
    let ghost gh = height as int;
    let (pixel, _ph) = config.pixel_size(width, height);
    let ghost gpixel = pixel as int;

    proof {
        lemma_scale_bounds(*config, width, height, Rectangle { x: 0, y: 0, width, height });
    }
    let total_width = width as u64 * pixel;
    let total_height = height as u64 * pixel;
    let mut base_boxes: Vec<crate::mesh::BoxSpec> = Vec::new();
    base_boxes.push(
        crate::mesh::BoxSpec {
            x: 0,
            y: 0,
            z: 0,
            w: total_width,
            h: total_height,
            d: config.base_thickness_um,
        },
    );
    proof {
        assert(base_boxes@ =~= seq![base_boxes@[0]]);
    }
    let black_mesh = crate::mesh::build_boxes_mesh(&base_boxes);

    let regions = vectorize_image_to_regions(image, palette);
    let z0 = config.base_thickness_um;
    let layer_t = config.layer_thickness_um;
    let mut white_boxes: Vec<crate::mesh::BoxSpec> = Vec::new();
    let n = regions.len();
    let mut i: usize = 0;
    proof {
        assert(white_boxes@ =~= spec_var_white_boxes(
            regions@.take(0),
            gpixel,
            z0 as int,
            layer_t as int,
        ));
    }
    while i < n
        invariant
            image.wf(),
            palette.wf(),
            config.wf(),
            width == image.spec_width(),
            height == image.spec_height(),
            gw == width as int,
            gh == height as int,
            width > 0,
            height > 0,
            palette.counts_at_most(config.max_layers),
            n == regions@.len(),
            i <= n,
            gpixel == config.spec_pixel_size(width, height),
            pixel as int == gpixel,
            z0 == config.base_thickness_um,
            layer_t == config.layer_thickness_um,
            spec_regions_wf(regions@, image@, *palette, gw, gh),
            white_boxes@ == spec_var_white_boxes(
                regions@.take(i as int),
                gpixel,
                z0 as int,
                layer_t as int,
            ),
            forall|j: int| 0 <= j < white_boxes@.len() ==> crate::mesh::box_wf(#[trigger] white_boxes@[j]),
        decreases n - i,
    {
        let (lc, r) = regions[i];
        proof {
            lemma_region_entry_bounds(
                regions@,
                image@,
                *palette,
                gw,
                gh,
                i as int,
                config.max_layers,
            );
            lemma_scale_bounds(*config, width, height, r);
            vstd::arithmetic::mul::lemma_mul_upper_bound(
                lc as int,
                crate::config::MAX_LAYER_CAP as int,
                config.layer_thickness_um as int,
                crate::config::MAX_LENGTH_UM as int,
            );
        }
        if lc > 0 {
            let bx = r.x as u64 * pixel;
            let by = r.y as u64 * pixel;
            let bw = r.width as u64 * pixel;
            let bh = r.height as u64 * pixel;
            let white_height = lc as u64 * layer_t;
            white_boxes.push(
                crate::mesh::BoxSpec { x: bx, y: by, z: z0, w: bw, h: bh, d: white_height },
            );
        }
        proof {
            assert(regions@.take(i + 1).drop_last() =~= regions@.take(i as int));
            assert(regions@.take(i + 1).last() == regions@[i as int]);
            assert(white_boxes@ =~= spec_var_white_boxes(
                regions@.take(i + 1),
                gpixel,
                z0 as int,
                layer_t as int,
            ));
        }
        i = i + 1;
    }
    proof {
        assert(regions@.take(n as int) =~= regions@);
    }
    let white_mesh = crate::mesh::build_boxes_mesh(&white_boxes);
    crate::mesh::PrintObjects { black_mesh, white_mesh }
}

/// Turn a quantized raster into the pair of printable meshes. In flat-top
/// mode every layer-count region is extruded independently so the stack
/// height is constant; otherwise one black base spans the canvas and only
/// positive layer counts become white boxes above it.
pub fn generate_image(
    image: &Raster,
    palette: &ColorPalette,
    config: &crate::config::PrintConfig,
    flat_top: bool,
) -> (out: crate::mesh::PrintObjects)
    requires
        image.wf(),
        palette.wf(),
        config.wf(),
        image.spec_width() > 0,
        image.spec_height() > 0,
        palette.counts_at_most(config.max_layers),
    ensures
        flat_top ==> exists|regions: Seq<(u32, Rectangle)>|
            {
                let pixel = config.spec_pixel_size(image.spec_width(), image.spec_height());
                &&& #[trigger] spec_regions_wf(
                    regions,
                    image@,
                    *palette,
                    image.spec_width() as int,
                    image.spec_height() as int,
                )
                &&& crate::mesh::mesh_is_boxes(
                    out.black_mesh,
                    spec_flat_black_boxes(regions, pixel, *config, flat_top),
                )
                &&& crate::mesh::mesh_is_boxes(
                    out.white_mesh,
                    spec_flat_white_boxes(regions, pixel, *config, flat_top),
                )
            },
        !flat_top ==> ({
            let pixel = config.spec_pixel_size(image.spec_width(), image.spec_height());
            crate::mesh::mesh_is_boxes(
                out.black_mesh,
                seq![
                    crate::mesh::BoxSpec {
                        x: 0,
                        y: 0,
                        z: 0,
                        w: (image.spec_width() * pixel) as u64,
                        h: (image.spec_height() * pixel) as u64,
                        d: config.base_thickness_um,
                    },
                ],
            )
        }),
        !flat_top ==> exists|regions: Seq<(u32, Rectangle)>|
            {
                let pixel = config.spec_pixel_size(image.spec_width(), image.spec_height());
                &&& #[trigger] spec_regions_wf(
                    regions,
                    image@,
                    *palette,
                    image.spec_width() as int,
                    image.spec_height() as int,
                )
                &&& crate::mesh::mesh_is_boxes(
                    out.white_mesh,
                    spec_var_white_boxes(
                        regions,
                        pixel,
                        config.base_thickness_um as int,
                        config.layer_thickness_um as int,
                    ),
                )
            },
{
    if flat_top {
        generate_image_objects_vectorized(image, palette, config, flat_top)
    } else {
        generate_variable_height_optimized(image, palette, config)
    }
}

} // verus!
