use vstd::prelude::*;
use crate::color::{Color, dist2};
use crate::palette::{ColorPalette, spec_grey};
use crate::raster::Raster;

verus! {

/// Perceptual luma of a color: `0.299 R + 0.587 G + 0.114 B`, computed
/// exactly over thousandths and truncated to an integer.
pub open spec fn spec_luma(c: Color) -> int {
    (299 * c.r + 587 * c.g + 114 * c.b) / 1000
}

/// The grayscale of a raster: every cell replaced by the grey of its luma.
pub open spec fn spec_gray_of(img: Seq<Color>) -> Seq<Color> {
    Seq::new(img.len(), |i: int| spec_grey(spec_luma(img[i])))
}

fn luma(c: &Color) -> (l: u8)
    ensures
        l == spec_luma(*c),
{
    ((299u32 * c.r as u32 + 587u32 * c.g as u32 + 114u32 * c.b as u32) / 1000u32) as u8
}

/// Replace every pixel with the grey of its luma; dimensions are kept.
pub fn to_grayscale(image: &Raster) -> (out: Raster)
    requires
        image.wf(),
    ensures
        out.wf(),
        out.spec_width() == image.spec_width(),
        out.spec_height() == image.spec_height(),
        out@ == spec_gray_of(image@),
{
    let n: usize = image.pixels.len();
    let mut pixels: Vec<Color> = Vec::new();
    let mut i: usize = 0;
    while i < n
        invariant
            image.wf(),
            n == image@.len(),
            i <= n,
            pixels@.len() == i,
            forall|j: int| 0 <= j < i ==> pixels@[j] == spec_grey(spec_luma(image@[j])),
        decreases n - i,
    {
        let g = luma(&image.pixels[i]);
        pixels.push(Color { r: g, g: g, b: g });
        i = i + 1;
    }
    let out = Raster { width: image.width, height: image.height, pixels };
    proof {
        assert(out@ =~= spec_gray_of(image@));
    }
    out
}

/// The raster flipped left to right: output cell (x, y) holds input cell
/// (width - 1 - x, y).
pub fn mirror_image(image: &Raster) -> (out: Raster)
    requires
        image.wf(),
    ensures
        out.wf(),
        out.spec_width() == image.spec_width(),
        out.spec_height() == image.spec_height(),
        forall|x: int, y: int|
            0 <= x < image.spec_width() && 0 <= y < image.spec_height() ==> out.spec_pixel(x, y)
                == image.spec_pixel(image.spec_width() - 1 - x, y),
{
    let (width, height) = image.dimensions();
    let buf_len: usize = image.pixels.len();
    let mut mirrored = Raster::new(width, height, Color { r: 0, g: 0, b: 0 });
    let mut y: u32 = 0;
    while y < height
        invariant
            image.wf(),
            mirrored.wf(),
            width == image.spec_width(),
            height == image.spec_height(),
            mirrored.spec_width() == width,
            mirrored.spec_height() == height,
            y <= height,
            forall|xx: int, yy: int|
                0 <= xx < width && 0 <= yy < y ==> mirrored.spec_pixel(xx, yy)
                    == image.spec_pixel(width - 1 - xx, yy),
        decreases height - y,
    {
        let mut x: u32 = 0;
        while x < width
            invariant
                image.wf(),
                mirrored.wf(),
                width == image.spec_width(),
                height == image.spec_height(),
                mirrored.spec_width() == width,
                mirrored.spec_height() == height,
                y < height,
                x <= width,
                forall|xx: int, yy: int|
                    0 <= xx < width && 0 <= yy < y ==> mirrored.spec_pixel(xx, yy)
                        == image.spec_pixel(width - 1 - xx, yy),
                forall|xx: int|
                    width - x <= xx < width ==> mirrored.spec_pixel(xx, y as int)
                        == image.spec_pixel(width - 1 - xx, y as int),
            decreases width - x,
        {
            let p = image.get_pixel(x, y);
            let ghost pre = mirrored;
            mirrored.put_pixel(width - 1 - x, y, p);
            proof {
                let w = width as int;
                let tx = w - 1 - x;
                pre.lemma_idx_in_bounds(tx, y as int);
                assert(mirrored@ == pre@.update((y as int) * w + tx, p));
                assert forall|xx: int, yy: int|
                    0 <= xx < width && 0 <= yy < y implies mirrored.spec_pixel(xx, yy)
                    == image.spec_pixel(width - 1 - xx, yy) by {
                    pre.lemma_idx_in_bounds(xx, yy);
                    assert(yy * w + xx != (y as int) * w + tx) by (nonlinear_arith)
                        requires
                            0 <= xx < w,
                            0 <= tx < w,
                            0 <= yy < y,
                    ;
                    assert(mirrored@[yy * w + xx] == pre@[yy * w + xx]);
                    assert(pre.spec_pixel(xx, yy) == image.spec_pixel(width - 1 - xx, yy));
                }
                assert forall|xx: int|
                    width - (x + 1) <= xx < width implies mirrored.spec_pixel(xx, y as int)
                    == image.spec_pixel(width - 1 - xx, y as int) by {
                    pre.lemma_idx_in_bounds(xx, y as int);
                    if xx != tx {
                        assert(mirrored@[(y as int) * w + xx] == pre@[(y as int) * w + xx]);
                        assert(pre.spec_pixel(xx, y as int) == image.spec_pixel(
                            width - 1 - xx,
                            y as int,
                        ));
                    } else {
                        assert(mirrored@[(y as int) * w + tx] == p);
                    }
                }
            }
            x = x + 1;
        }
        y = y + 1;
    }
    mirrored
}

/// Index, among the first `n` palette colors, of the one nearest to `c` in
/// squared RGB distance; ties go to the earliest entry.
pub open spec fn nearest_idx_upto(colors: Seq<Color>, c: Color, n: int) -> int
    decreases n,
{
    if n <= 1 {
        0
    } else {
        let b = nearest_idx_upto(colors, c, n - 1);
        if dist2(colors[n - 1], c) < dist2(colors[b], c) {
            n - 1
        } else {
            b
        }
    }
}

/// The palette color nearest to `c`; ties go to the earliest entry.
pub open spec fn spec_nearest(colors: Seq<Color>, c: Color) -> Color {
    colors[nearest_idx_upto(colors, c, colors.len() as int)]
}

/// The nearest index lies within the first `n` entries.
pub proof fn lemma_nearest_idx_in_range(colors: Seq<Color>, c: Color, n: int)
    requires
        n >= 1,
    ensures
        0 <= nearest_idx_upto(colors, c, n) < n,
    decreases n,
{
    if n > 1 {
        lemma_nearest_idx_in_range(colors, c, n - 1);
    }
}

/// No palette entry is nearer than the nearest, and no earlier entry is as
/// near.
pub proof fn lemma_nearest_is_first_minimal(colors: Seq<Color>, c: Color, n: int)
    requires
        n >= 1,
    ensures
        forall|j: int|
            0 <= j < n ==> dist2(colors[nearest_idx_upto(colors, c, n)], c) <= dist2(
                #[trigger] colors[j],
                c,
            ),
        forall|j: int|
            0 <= j < nearest_idx_upto(colors, c, n) ==> dist2(#[trigger] colors[j], c) > dist2(
                colors[nearest_idx_upto(colors, c, n)],
                c,
            ),
    decreases n,
{
    if n > 1 {
        lemma_nearest_is_first_minimal(colors, c, n - 1);
        lemma_nearest_idx_in_range(colors, c, n - 1);
    }
}

/// The palette color nearest to `pixel` in squared RGB distance; the first
/// of equally near entries wins.
pub fn find_closest_palette_color(pixel: &Color, palette: &ColorPalette) -> (c: Color)
    requires
        palette.colors@.len() > 0,
    ensures
        c == spec_nearest(palette.colors@, *pixel),
{
    let n = palette.colors.len();
    let mut best: usize = 0;
    let mut best_d: u32 = palette.colors[0].distance_squared(pixel);
    let mut i: usize = 1;
    while i < n
        invariant
            n == palette.colors@.len(),
            1 <= i <= n,
            best == nearest_idx_upto(palette.colors@, *pixel, i as int),
            0 <= best < i,
            best_d == dist2(palette.colors@[best as int], *pixel),
        decreases n - i,
    {
        let d = palette.colors[i].distance_squared(pixel);
        if d < best_d {
            best = i;
            best_d = d;
        }
        i = i + 1;
    }
    palette.colors[best]
}

/// Signed per-channel error between the accumulated grey value and the
/// chosen palette color.
pub fn calculate_color_error(old_color: &Color, new_color: &Color) -> (e: (i16, i16, i16))
    ensures
        e.0 == old_color.r - new_color.r,
        e.1 == old_color.g - new_color.g,
        e.2 == old_color.b - new_color.b,
{
    (
        old_color.r as i16 - new_color.r as i16,
        old_color.g as i16 - new_color.g as i16,
        old_color.b as i16 - new_color.b as i16,
    )
}

/// A channel value clamped to `0 ..= 255`.
pub open spec fn spec_clamp_255(v: int) -> int {
    if v < 0 {
        0
    } else if v > 255 {
        255
    } else {
        v
    }
}

/// `num / 16` of an error value, truncated toward zero as machine division
/// does.
pub open spec fn spec_err_frac(e: int, num: int) -> int {
    if e >= 0 {
        e * num / 16
    } else {
        -((-e) * num / 16)
    }
}

/// A color with the weighted error added to every channel, clamped.
pub open spec fn spec_add_err(c: Color, e: (int, int, int), num: int) -> Color {
    Color {
        r: spec_clamp_255(c.r + spec_err_frac(e.0, num)) as u8,
        g: spec_clamp_255(c.g + spec_err_frac(e.1, num)) as u8,
        b: spec_clamp_255(c.b + spec_err_frac(e.2, num)) as u8,
    }
}

/// The grid after adding `num / 16` of the error to the cell at offset
/// (dx, dy) from (x, y); unchanged when that cell lies outside the grid.
pub open spec fn spec_diffuse_one(
    gray: Seq<Color>,
    w: int,
    h: int,
    x: int,
    y: int,
    e: (int, int, int),
    dx: int,
    dy: int,
    num: int,
) -> Seq<Color> {
    let nx = x + dx;
    let ny = y + dy;
    if 0 <= nx < w && 0 <= ny < h {
        gray.update(ny * w + nx, spec_add_err(gray[ny * w + nx], e, num))
    } else {
        gray
    }
}

/// The grid after Floyd-Steinberg error diffusion from (x, y): 7/16 right,
/// 3/16 below left, 5/16 below, 1/16 below right.
pub open spec fn spec_diffuse(
    gray: Seq<Color>,
    w: int,
    h: int,
    x: int,
    y: int,
    e: (int, int, int),
) -> Seq<Color> {
    let g1 = spec_diffuse_one(gray, w, h, x, y, e, 1, 0, 7);
    let g2 = spec_diffuse_one(g1, w, h, x, y, e, -1, 1, 3);
    let g3 = spec_diffuse_one(g2, w, h, x, y, e, 0, 1, 5);
    spec_diffuse_one(g3, w, h, x, y, e, 1, 1, 1)
}

fn add_err_channel(v: u8, e: i16, num: u8) -> (r: u8)
    requires
        -255 <= e <= 255,
        num <= 7,
    ensures
        r == spec_clamp_255(v + spec_err_frac(e as int, num as int)),
{
    proof {
        assert(-1785 <= e as int * num as int <= 1785) by (nonlinear_arith)
            requires
                -255 <= e as int <= 255,
                0 <= num as int <= 7,
        ;
        assert(-1785 <= (-(e as int)) * num as int <= 1785) by (nonlinear_arith)
            requires
                -255 <= e as int <= 255,
                0 <= num as int <= 7,
        ;
    }
    let delta: i32 = if e >= 0 {
        (e as i32 * num as i32) / 16
    } else {
        -(((-(e as i32)) * num as i32) / 16)
    };
    let sum: i32 = v as i32 + delta;
    if sum < 0 {
        0
    } else if sum > 255 {
        255
    } else {
        sum as u8
    }
}

fn distribute_one(image: &mut Raster, x: u32, y: u32, dx: i32, dy: i32, num: u8, e: (i16, i16, i16))
    requires
        old(image).wf(),
        x < old(image).spec_width(),
        y < old(image).spec_height(),
        -1 <= dx <= 1,
        0 <= dy <= 1,
        num <= 7,
        -255 <= e.0 <= 255,
        -255 <= e.1 <= 255,
        -255 <= e.2 <= 255,
    ensures
        final(image).wf(),
        final(image).spec_width() == old(image).spec_width(),
        final(image).spec_height() == old(image).spec_height(),
        final(image)@ == spec_diffuse_one(
            old(image)@,
            old(image).spec_width() as int,
            old(image).spec_height() as int,
            x as int,
            y as int,
            (e.0 as int, e.1 as int, e.2 as int),
            dx as int,
            dy as int,
            num as int,
        ),
{
    let nx: i64 = x as i64 + dx as i64;
    let ny: i64 = y as i64 + dy as i64;
    let w: i64 = image.width() as i64;
    let h: i64 = image.height() as i64;
    if 0 <= nx && nx < w && 0 <= ny && ny < h {
        let c = image.get_pixel(nx as u32, ny as u32);
        let c2 = Color {
            r: add_err_channel(c.r, e.0, num),
            g: add_err_channel(c.g, e.1, num),
            b: add_err_channel(c.b, e.2, num),
        };
        image.put_pixel(nx as u32, ny as u32, c2);
    }
}

/// Push fractions of the quantization error at (x, y) into the four
/// not-yet-visited neighbors, clamping each channel and skipping neighbors
/// outside the image.
pub fn distribute_error(image: &mut Raster, x: u32, y: u32, e: &(i16, i16, i16))
    requires
        old(image).wf(),
        x < old(image).spec_width(),
        y < old(image).spec_height(),
        -255 <= e.0 <= 255,
        -255 <= e.1 <= 255,
        -255 <= e.2 <= 255,
    ensures
        final(image).wf(),
        final(image).spec_width() == old(image).spec_width(),
        final(image).spec_height() == old(image).spec_height(),
        final(image)@ == spec_diffuse(
            old(image)@,
            old(image).spec_width() as int,
            old(image).spec_height() as int,
            x as int,
            y as int,
            (e.0 as int, e.1 as int, e.2 as int),
        ),
{
    distribute_one(image, x, y, 1, 0, 7, *e);
    distribute_one(image, x, y, -1, 1, 3, *e);
    distribute_one(image, x, y, 0, 1, 5, *e);
    distribute_one(image, x, y, 1, 1, 1, *e);
}

/// The (grayscale, output) buffer pair after quantizing cell `k` of the
/// row-major traversal and diffusing its error.
pub open spec fn spec_dither_step(
    st: (Seq<Color>, Seq<Color>),
    pal: Seq<Color>,
    w: int,
    h: int,
    k: int,
) -> (Seq<Color>, Seq<Color>) {
    let x = k % w;
    let y = k / w;
    let old_c = st.0[k];
    let new_c = spec_nearest(pal, old_c);
    let out = st.1.update(k, new_c);
    let e = (old_c.r - new_c.r, old_c.g - new_c.g, old_c.b - new_c.b);
    let gray = spec_diffuse(st.0, w, h, x, y, e);
    (gray, out)
}

/// The buffer pair after quantizing the first `k` cells in row-major order.
pub open spec fn spec_dither_upto(
    gray0: Seq<Color>,
    out0: Seq<Color>,
    pal: Seq<Color>,
    w: int,
    h: int,
    k: int,
) -> (Seq<Color>, Seq<Color>)
    decreases k,
{
    if k <= 0 {
        (gray0, out0)
    } else {
        spec_dither_step(spec_dither_upto(gray0, out0, pal, w, h, k - 1), pal, w, h, k - 1)
    }
}

/// The Floyd-Steinberg quantization of `img` against `pal`: a function of
/// the input raster and the palette alone.
pub open spec fn spec_dither(img: Seq<Color>, pal: Seq<Color>, w: int, h: int) -> Seq<Color> {
    spec_dither_upto(spec_gray_of(img), img, pal, w, h, w * h).1
}

/// Quantize a raster to the palette by Floyd-Steinberg error diffusion in
/// row-major order. The result is a function of the input and the palette
/// alone, so two runs on equal inputs agree bit for bit.
pub fn dither_to_palette(input_image: &Raster, palette: &ColorPalette) -> (out: Raster)
    requires
        input_image.wf(),
        palette.colors@.len() > 0,
    ensures
        out.wf(),
        out.spec_width() == input_image.spec_width(),
        out.spec_height() == input_image.spec_height(),
        out@ == spec_dither(
            input_image@,
            palette.colors@,
            input_image.spec_width() as int,
            input_image.spec_height() as int,
        ),
{
    let (width, height) = input_image.dimensions();
    let ghost w = width as int;
    let ghost h = height as int;
    let ghost gray0 = spec_gray_of(input_image@);
    let ghost out0 = input_image@;
    let mut grayscale = to_grayscale(input_image);
    let mut output = input_image.clone_raster();
    let buf_len: usize = input_image.pixels.len();
    let n: usize = (width as usize) * (height as usize);
    proof {
        assert(w * h == n as int);
        if n > 0 {
            assert(w > 0 && h > 0) by (nonlinear_arith)
                requires
                    w * h > 0,
                    w >= 0,
                    h >= 0,
            ;
        }
    }
    let mut x: u32 = 0;
    let mut y: u32 = 0;
    let mut k: usize = 0;
    while k < n
        invariant
            input_image.wf(),
            grayscale.wf(),
            output.wf(),
            w == input_image.spec_width(),
            h == input_image.spec_height(),
            width == w,
            height == h,
            gray0 == spec_gray_of(input_image@),
            out0 == input_image@,
            n == w * h,
            n > 0 ==> w > 0 && h > 0,
            grayscale.spec_width() == w,
            grayscale.spec_height() == h,
            output.spec_width() == w,
            output.spec_height() == h,
            palette.colors@.len() > 0,
            k <= n,
            k == y * w + x,
            w > 0 ==> x < w,
            w == 0 ==> x == 0,
            k < n ==> y < h,
            (grayscale@, output@) == spec_dither_upto(gray0, out0, palette.colors@, w, h, k as int),
        decreases n - k,
    {
        proof {
            grayscale.lemma_idx_in_bounds(x as int, y as int);
            vstd::arithmetic::div_mod::lemma_fundamental_div_mod_converse(
                k as int,
                w,
                y as int,
                x as int,
            );
        }
        let old_pixel = grayscale.get_pixel(x, y);
        let new_pixel = find_closest_palette_color(&old_pixel, palette);
        output.put_pixel(x, y, new_pixel);
        let error = calculate_color_error(&old_pixel, &new_pixel);
        distribute_error(&mut grayscale, x, y, &error);
        proof {
            assert((grayscale@, output@) == spec_dither_step(
                spec_dither_upto(gray0, out0, palette.colors@, w, h, k as int),
                palette.colors@,
                w,
                h,
                k as int,
            ));
        }
        let ghost ko = k as int;
        let ghost xo = x as int;
        let ghost yo = y as int;
        k = k + 1;
        if x + 1 == width {
            proof {
                vstd::arithmetic::mul::lemma_mul_is_distributive_add_other_way(w, yo, 1);
                vstd::arithmetic::mul::lemma_mul_basics(w);
                assert((yo + 1) * w == yo * w + w);
                assert(k as int == (yo + 1) * w);
            }
            x = 0;
            y = y + 1;
            proof {
                assert(k as int == (y as int) * w + x as int);
            }
        } else {
            x = x + 1;
            proof {
                assert(k as int == (y as int) * w + x as int);
            }
        }
        proof {
            if k < n {
                assert(y < h) by (nonlinear_arith)
                    requires
                        k == y * w + x,
                        k < w * h,
                        0 <= x,
                        0 <= y,
                        w > 0,
                ;
            }
        }
    }
    output
}

/// Dithering is deterministic: equal rasters and equal palettes give
/// bit-identical output.
pub proof fn lemma_dither_deterministic(
    img1: Seq<Color>,
    pal1: Seq<Color>,
    img2: Seq<Color>,
    pal2: Seq<Color>,
    w: int,
    h: int,
)
    requires
        img1 == img2,
        pal1 == pal2,
    ensures
        spec_dither(img1, pal1, w, h) == spec_dither(img2, pal2, w, h),
{
}

} // verus!
