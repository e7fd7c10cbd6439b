use vstd::prelude::*;
use crate::mesh::{Rectangle, rect_covers};

verus! {

/// Largest pixel coordinate a decomposition input may hold; keeps every
/// rectangle's far edge inside `u32`.
pub const MAX_PIXEL_COORD: u32 = 0xFFFF_FFFE;

/// All coordinates in the slice stay within `MAX_PIXEL_COORD`.
pub open spec fn coords_bounded(s: Seq<(u32, u32)>) -> bool {
    forall|i: int|
        0 <= i < s.len() ==> (#[trigger] s[i]).0 <= MAX_PIXEL_COORD && s[i].1 <= MAX_PIXEL_COORD
}

/// Whether `(x, y)` occurs in the slice.
pub(crate) fn contains_pixel(pixels: &Vec<(u32, u32)>, x: u32, y: u32) -> (r: bool)
    ensures
        r == pixels@.contains((x, y)),
{
    let n = pixels.len();
    let mut i: usize = 0;
    while i < n
        invariant
            n == pixels@.len(),
            i <= n,
            forall|j: int| 0 <= j < i ==> pixels@[j] != (x, y),
        decreases n - i,
    {
        if pixels[i].0 == x && pixels[i].1 == y {
            proof {
                assert(pixels@[i as int] == (x, y));
            }
            return true;
        }
        i = i + 1;
    }
    proof {
        assert(!pixels@.contains((x, y)));
    }
    false
}

/// Whether every cell of column `x`, rows `y0 .. y0 + h`, is in the set.
fn column_in_set(pixels: &Vec<(u32, u32)>, x: u32, y0: u32, h: u32) -> (r: bool)
    requires
        y0 + h <= u32::MAX,
    ensures
        r == forall|yy: u32| y0 <= yy < y0 + h ==> #[trigger] pixels@.contains((x, yy)),
{
    let mut yy: u32 = y0;
    while yy < y0 + h
        invariant
            y0 + h <= u32::MAX,
            y0 <= yy <= y0 + h,
            forall|j: u32| y0 <= j < yy ==> #[trigger] pixels@.contains((x, j)),
        decreases y0 + h - yy,
    {
        if !contains_pixel(pixels, x, yy) {
            proof {
                assert(y0 <= yy < y0 + h && !pixels@.contains((x, yy)));
            }
            return false;
        }
        yy = yy + 1;
    }
    true
}

/// Whether every cell of row `y`, columns `x0 .. x0 + w`, is in the set.
fn row_in_set(pixels: &Vec<(u32, u32)>, y: u32, x0: u32, w: u32) -> (r: bool)
    requires
        x0 + w <= u32::MAX,
    ensures
        r == forall|xx: u32| x0 <= xx < x0 + w ==> #[trigger] pixels@.contains((xx, y)),
{
    let mut xx: u32 = x0;
    while xx < x0 + w
        invariant
            x0 + w <= u32::MAX,
            x0 <= xx <= x0 + w,
            forall|j: u32| x0 <= j < xx ==> #[trigger] pixels@.contains((j, y)),
        decreases x0 + w - xx,
    {
        if !contains_pixel(pixels, xx, y) {
            proof {
                assert(x0 <= xx < x0 + w && !pixels@.contains((xx, y)));
            }
            return false;
        }
        xx = xx + 1;
    }
    true
}

/// Every cell of the rectangle occurs in the slice.
pub open spec fn rect_in_set(r: Rectangle, s: Seq<(u32, u32)>) -> bool {
    forall|p: (u32, u32)| #[trigger] rect_covers(r, p) ==> s.contains(p)
}

/// Grow a maximal rectangle anchored at `(start_x, start_y)`: extend right
/// one column at a time while the whole candidate column stays in the set,
/// then extend down one row at a time while the whole candidate row does.
pub fn find_largest_rectangle(pixels: &Vec<(u32, u32)>, start_x: u32, start_y: u32) -> (r:
    Rectangle)
    requires
        pixels@.contains((start_x, start_y)),
        coords_bounded(pixels@),
    ensures
        r.x == start_x,
        r.y == start_y,
        r.width >= 1,
        r.height >= 1,
        r.x + r.width <= u32::MAX,
        r.y + r.height <= u32::MAX,
        rect_in_set(r, pixels@),
        !pixels@.contains(((r.x + r.width) as u32, r.y)),
        exists|xx: u32|
            r.x <= xx < r.x + r.width && !(#[trigger] pixels@.contains(
                (xx, (r.y + r.height) as u32),
            )),
{
    proof {
        let k = choose|k: int| 0 <= k < pixels@.len() && pixels@[k] == (start_x, start_y);
        assert(start_x <= MAX_PIXEL_COORD && start_y <= MAX_PIXEL_COORD);
    }
    let mut width: u32 = 1;
    let mut height: u32 = 1;

    loop
        invariant
            pixels@.contains((start_x, start_y)),
            coords_bounded(pixels@),
            start_x <= MAX_PIXEL_COORD,
            start_y <= MAX_PIXEL_COORD,
            width >= 1,
            height == 1,
            start_x + width - 1 <= MAX_PIXEL_COORD,
            forall|xx: u32|
                start_x <= xx < start_x + width ==> #[trigger] pixels@.contains((xx, start_y)),
        ensures
            width >= 1,
            height == 1,
            start_x + width - 1 <= MAX_PIXEL_COORD,
            forall|xx: u32|
                start_x <= xx < start_x + width ==> #[trigger] pixels@.contains((xx, start_y)),
            !pixels@.contains(((start_x + width) as u32, start_y)),
        decreases MAX_PIXEL_COORD + 2 - start_x - width,
    {
        let cand: u32 = start_x + width;
        if !contains_pixel(pixels, cand, start_y) {
            break;
        }
        let column_available = column_in_set(pixels, cand, start_y, height);
        if !column_available {
            proof {
                assert(!pixels@.contains((cand, start_y))) by {
                    if pixels@.contains((cand, start_y)) {
                        assert forall|yy: u32|
                            start_y <= yy < start_y + 1 implies #[trigger] pixels@.contains(
                            (cand, yy),
                        ) by {
                            assert(yy == start_y);
                        }
                    }
                }
            }
            break;
        }
        proof {
            assert(pixels@.contains((cand, start_y)));
            let k = choose|k: int| 0 <= k < pixels@.len() && pixels@[k] == (cand, start_y);
            assert forall|xx: u32|
                start_x <= xx < start_x + width + 1 implies #[trigger] pixels@.contains(
                (xx, start_y),
            ) by {
                if xx == cand {
                    assert(pixels@.contains((cand, start_y)));
                }
            }
        }
        width = width + 1;
    }

    loop
        invariant
            pixels@.contains((start_x, start_y)),
            coords_bounded(pixels@),
            start_x <= MAX_PIXEL_COORD,
            start_y <= MAX_PIXEL_COORD,
            width >= 1,
            height >= 1,
            start_x + width - 1 <= MAX_PIXEL_COORD,
            start_y + height - 1 <= MAX_PIXEL_COORD,
            forall|xx: u32, yy: u32|
                start_x <= xx < start_x + width && start_y <= yy < start_y + height
                    ==> #[trigger] pixels@.contains((xx, yy)),
        ensures
            height >= 1,
            start_y + height - 1 <= MAX_PIXEL_COORD,
            forall|xx: u32, yy: u32|
                start_x <= xx < start_x + width && start_y <= yy < start_y + height
                    ==> #[trigger] pixels@.contains((xx, yy)),
            exists|xx: u32|
                start_x <= xx < start_x + width && !(#[trigger] pixels@.contains(
                    (xx, (start_y + height) as u32),
                )),
        decreases MAX_PIXEL_COORD + 2 - start_y - height,
    {
        let cand_y: u32 = start_y + height;
        let row_available = row_in_set(pixels, cand_y, start_x, width);
        if !row_available {
            proof {
                assert(exists|xx: u32|
                    start_x <= xx < start_x + width && !(#[trigger] pixels@.contains(
                        (xx, cand_y),
                    )));
            }
            break;
        }
        proof {
            assert(pixels@.contains((start_x, cand_y)));
            let k = choose|k: int| 0 <= k < pixels@.len() && pixels@[k] == (start_x, cand_y);
            assert forall|xx: u32, yy: u32|
                start_x <= xx < start_x + width && start_y <= yy < start_y + height
                    + 1 implies #[trigger] pixels@.contains((xx, yy)) by {
                if yy == cand_y {
                    assert(pixels@.contains((xx, cand_y)));
                }
            }
        }
        height = height + 1;
    }

    let r = Rectangle { x: start_x, y: start_y, width, height };
    proof {
        assert forall|p: (u32, u32)| #[trigger] rect_covers(r, p) implies pixels@.contains(p) by {
            assert(pixels@.contains((p.0, p.1)));
            assert(p == (p.0, p.1));
        }
    }
    r
}

/// The elements of `s` not covered by `r`.
fn remove_covered(s: &Vec<(u32, u32)>, r: Rectangle) -> (out: Vec<(u32, u32)>)
    ensures
        forall|p: (u32, u32)| #[trigger] out@.contains(p) <==> s@.contains(p) && !rect_covers(r, p),
        out@.len() <= s@.len(),
        s@.len() > 0 && rect_covers(r, s@[0]) ==> out@.len() < s@.len(),
        coords_bounded(s@) ==> coords_bounded(out@),
{
    let n = s.len();
    let mut out: Vec<(u32, u32)> = Vec::new();
    let mut i: usize = 0;
    while i < n
        invariant
            n == s@.len(),
            i <= n,
            out@.len() <= i,
            i > 0 && rect_covers(r, s@[0]) ==> out@.len() < i,
            forall|j: int|
                0 <= j < out@.len() ==> s@.contains(#[trigger] out@[j]) && !rect_covers(r, out@[j]),
            forall|j: int|
                0 <= j < i && !rect_covers(r, #[trigger] s@[j]) ==> out@.contains(s@[j]),
        decreases n - i,
    {
        let p = s[i];
        let ghost pre = out@;
        let in_x = r.x <= p.0 && (p.0 as u64) < r.x as u64 + r.width as u64;
        let in_y = r.y <= p.1 && (p.1 as u64) < r.y as u64 + r.height as u64;
        if !(in_x && in_y) {
            out.push(p);
            proof {
                assert(s@.contains(s@[i as int]));
            }
        }
        proof {
            assert forall|j: int|
                0 <= j < i + 1 && !rect_covers(r, #[trigger] s@[j]) implies out@.contains(s@[j]) by {
                if j < i {
                    let k = choose|k: int| 0 <= k < pre.len() && pre[k] == s@[j];
                    assert(out@[k] == s@[j]);
                } else {
                    assert(out@[out@.len() - 1] == s@[j]);
                }
            }
        }
        i = i + 1;
    }
    proof {
        assert forall|p: (u32, u32)|
            s@.contains(p) && !rect_covers(r, p) implies #[trigger] out@.contains(p) by {
            let j = choose|j: int| 0 <= j < s@.len() && s@[j] == p;
        }
        if coords_bounded(s@) {
            assert forall|j: int|
                0 <= j < out@.len() implies (#[trigger] out@[j]).0 <= MAX_PIXEL_COORD && out@[j].1
                <= MAX_PIXEL_COORD by {
                assert(s@.contains(out@[j]));
                let k = choose|k: int| 0 <= k < s@.len() && s@[k] == out@[j];
            }
        }
    }
    out
}

/// Decompose a pixel set into disjoint rectangles that cover it exactly:
/// repeatedly anchor at the first remaining pixel, grow a maximal rectangle,
/// and remove the cells it covers. Every pixel of the input is covered by
/// exactly one emitted rectangle, and nothing outside the input is covered.
pub fn pixels_to_rectangles(pixels: &Vec<(u32, u32)>) -> (rects: Vec<Rectangle>)
    requires
        coords_bounded(pixels@),
    ensures
        forall|p: (u32, u32)|
            pixels@.contains(p) <==> exists|i: int|
                0 <= i < rects@.len() && #[trigger] rect_covers(rects@[i], p),
        forall|i: int, j: int, p: (u32, u32)|
            0 <= i < j < rects@.len() ==> !(#[trigger] rect_covers(rects@[i], p)
                && #[trigger] rect_covers(rects@[j], p)),
        forall|i: int|
            0 <= i < rects@.len() ==> (#[trigger] rects@[i]).width >= 1 && rects@[i].height >= 1,
        forall|i: int|
            0 <= i < rects@.len() ==> (#[trigger] rects@[i]).x + rects@[i].width <= u32::MAX
                && rects@[i].y + rects@[i].height <= u32::MAX,
{
    let mut remaining: Vec<(u32, u32)> = Vec::new();
    let n = pixels.len();
    let mut i: usize = 0;
    while i < n
        invariant
            n == pixels@.len(),
            i <= n,
            remaining@ == pixels@.take(i as int),
        decreases n - i,
    {
        remaining.push(pixels[i]);
        i = i + 1;
    }
    proof {
        assert(remaining@ =~= pixels@);
    }

    let mut rects: Vec<Rectangle> = Vec::new();
    while remaining.len() > 0
        invariant
            coords_bounded(remaining@),
            forall|p: (u32, u32)|
                #[trigger] pixels@.contains(p) <==> remaining@.contains(p) || exists|i: int|
                    0 <= i < rects@.len() && #[trigger] rect_covers(rects@[i], p),
            forall|i: int, p: (u32, u32)|
                0 <= i < rects@.len() && #[trigger] rect_covers(rects@[i], p)
                    ==> !remaining@.contains(p),
            forall|i: int, j: int, p: (u32, u32)|
                0 <= i < j < rects@.len() ==> !(#[trigger] rect_covers(rects@[i], p)
                    && #[trigger] rect_covers(rects@[j], p)),
            forall|i: int|
                0 <= i < rects@.len() ==> (#[trigger] rects@[i]).width >= 1 && rects@[i].height
                    >= 1,
            forall|i: int|
                0 <= i < rects@.len() ==> (#[trigger] rects@[i]).x + rects@[i].width <= u32::MAX
                    && rects@[i].y + rects@[i].height <= u32::MAX,
        decreases remaining@.len(),
    {
        let (start_x, start_y) = remaining[0];
        proof {
            assert(remaining@.contains(remaining@[0]));
        }
        let rect = find_largest_rectangle(&remaining, start_x, start_y);
        let ghost pre = remaining@;
        let ghost pre_rects = rects@;
        remaining = remove_covered(&remaining, rect);
        rects.push(rect);
        proof {
            let rs = rects@;
            assert(rect_covers(rect, (start_x, start_y)));
            assert(rect_covers(rect, pre[0]));
            // coverage, both directions
            assert forall|p: (u32, u32)| #[trigger] pixels@.contains(p) implies remaining@.contains(
                p,
            ) || exists|i: int| 0 <= i < rs.len() && #[trigger] rect_covers(rs[i], p) by {
                if pre.contains(p) {
                    if rect_covers(rect, p) {
                        assert(rs[rs.len() - 1] == rect);
                        assert(rect_covers(rs[rs.len() - 1], p));
                    } else {
                        assert(remaining@.contains(p));
                    }
                } else {
                    let i = choose|i: int|
                        0 <= i < pre_rects.len() && #[trigger] rect_covers(pre_rects[i], p);
                    assert(rect_covers(rs[i], p));
                }
            }
            assert forall|p: (u32, u32)|
                remaining@.contains(p) || (exists|i: int|
                    0 <= i < rs.len() && #[trigger] rect_covers(
                        rs[i],
                        p,
                    )) implies #[trigger] pixels@.contains(p) by {
                if remaining@.contains(p) {
                    assert(pre.contains(p));
                } else {
                    let i = choose|i: int| 0 <= i < rs.len() && #[trigger] rect_covers(rs[i], p);
                    if i == rs.len() - 1 {
                        assert(rect_in_set(rect, pre));
                        assert(pre.contains(p));
                    } else {
                        assert(rect_covers(pre_rects[i], p));
                    }
                }
            }
            // no recorded rectangle covers a remaining pixel
            assert forall|i: int, p: (u32, u32)|
                0 <= i < rs.len() && #[trigger] rect_covers(rs[i], p) implies !remaining@.contains(
                p,
            ) by {
                if i < rs.len() - 1 {
                    assert(rect_covers(pre_rects[i], p));
                    if remaining@.contains(p) {
                        assert(pre.contains(p));
                    }
                }
            }
            // pairwise disjointness: a cell of the new rectangle was still
            // remaining, and no earlier rectangle covers a remaining cell
            assert forall|i: int, j: int, p: (u32, u32)|
                0 <= i < j < rs.len() implies !(#[trigger] rect_covers(rs[i], p)
                && #[trigger] rect_covers(rs[j], p)) by {
                if j == rs.len() - 1 {
                    if rect_covers(rs[i], p) && rect_covers(rs[j], p) {
                        assert(rect_in_set(rect, pre));
                        assert(pre.contains(p));
                        assert(rect_covers(pre_rects[i], p));
                    }
                } else {
                    if rect_covers(rs[i], p) && rect_covers(rs[j], p) {
                        assert(rect_covers(pre_rects[i], p) && rect_covers(pre_rects[j], p));
                    }
                }
            }
        }
    }
    proof {
        assert forall|p: (u32, u32)| !remaining@.contains(p) by {
            if remaining@.contains(p) {
                let j = choose|j: int| 0 <= j < remaining@.len() && remaining@[j] == p;
            }
        }
    }
    rects
}

} // verus!
