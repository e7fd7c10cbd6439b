use vstd::prelude::*;
use crate::config::{PrintConfig, MAX_LAYER_CAP, MAX_LENGTH_UM};
use crate::mesh::{BoxSpec, PrintObjects, box_wf, mesh_is_boxes};

verus! {

/// `g` is the side of the smallest square grid with at least `n` cells.
pub open spec fn is_grid_size(g: int, n: int) -> bool {
    &&& g * g >= n
    &&& g == 0 || (g - 1) * (g - 1) < n
}

fn square_lt(g: u32, n: u32) -> (r: bool)
    requires
        g <= 0x10000,
    ensures
        r == ((g as int) * (g as int) < n as int),
{
    proof {
        vstd::arithmetic::mul::lemma_mul_upper_bound(g as int, 0x10000, g as int, 0x10000);
    }
    (g as u64) * (g as u64) < n as u64
}

/// The smallest `g` with `g * g >= n`.
fn grid_size_for(n: u32) -> (g: u32)
    requires
        n <= 0x10000,
    ensures
        is_grid_size(g as int, n as int),
        g <= n,
        n > 0 ==> g >= 1,
{
    let mut g: u32 = 0;
    while square_lt(g, n)
        invariant
            n <= 0x10000,
            g <= n,
            g == 0 || (g - 1) * (g - 1) < n,
        decreases n - g,
    {
        proof {
            assert(g + 1 <= n) by (nonlinear_arith)
                requires
                    g * g < n,
                    0 <= g,
            ;
        }
        g = g + 1;
    }
    g
}

/// The black calibration box of layer count `lc` in a grid of side `g`.
pub open spec fn spec_cal_black_box(
    lc: int,
    g: int,
    sq: int,
    c: PrintConfig,
    flat_top: bool,
) -> BoxSpec {
    BoxSpec {
        x: ((lc % g) * sq) as u64,
        y: ((lc / g) * sq) as u64,
        z: 0,
        w: sq as u64,
        h: sq as u64,
        d: c.spec_black_thickness(lc as u32, flat_top) as u64,
    }
}

/// The white calibration box of layer count `lc`: the rest of the stack
/// above the black box.
pub open spec fn spec_cal_white_box(
    lc: int,
    g: int,
    sq: int,
    c: PrintConfig,
    flat_top: bool,
) -> BoxSpec {
    BoxSpec {
        x: ((lc % g) * sq) as u64,
        y: ((lc / g) * sq) as u64,
        z: c.spec_black_thickness(lc as u32, flat_top) as u64,
        w: sq as u64,
        h: sq as u64,
        d: (c.spec_total_height(lc as u32, flat_top) - c.spec_black_thickness(
            lc as u32,
            flat_top,
        )) as u64,
    }
}

/// The black boxes of the first `k` layer counts.
pub open spec fn spec_cal_black_boxes(
    k: int,
    g: int,
    sq: int,
    c: PrintConfig,
    flat_top: bool,
) -> Seq<BoxSpec>
    decreases k,
{
    if k <= 0 {
        Seq::empty()
    } else {
        spec_cal_black_boxes(k - 1, g, sq, c, flat_top) + seq![
            spec_cal_black_box(k - 1, g, sq, c, flat_top),
        ]
    }
}

/// The white boxes of the first `k` layer counts: only counts whose total
/// stack is taller than their black box get one.
pub open spec fn spec_cal_white_boxes(
    k: int,
    g: int,
    sq: int,
    c: PrintConfig,
    flat_top: bool,
) -> Seq<BoxSpec>
    decreases k,
{
    if k <= 0 {
        Seq::empty()
    } else {
        spec_cal_white_boxes(k - 1, g, sq, c, flat_top) + (if c.spec_total_height(
            (k - 1) as u32,
            flat_top,
        ) > c.spec_black_thickness((k - 1) as u32, flat_top) {
            seq![spec_cal_white_box(k - 1, g, sq, c, flat_top)]
        } else {
            Seq::empty()
        })
    }
}

/// Build a calibration pattern: one square per layer count `0 ..= max_layers`
/// laid out on the smallest square grid that fits them, each with its black
/// base at `calculate_black_thickness` and white on top up to
/// `calculate_total_height`.
pub fn generate_calibration_objects(
    config: &PrintConfig,
    square_size_um: u64,
    flat_top: bool,
) -> (out: PrintObjects)
    requires
        config.wf(),
        square_size_um <= MAX_LENGTH_UM,
        config.max_layers < 0x10000,
    ensures
        exists|g: int|
            {
                &&& #[trigger] is_grid_size(g, config.max_layers + 1)
                &&& mesh_is_boxes(
                    out.black_mesh,
                    spec_cal_black_boxes(
                        config.max_layers + 1,
                        g,
                        square_size_um as int,
                        *config,
                        flat_top,
                    ),
                )
                &&& mesh_is_boxes(
                    out.white_mesh,
                    spec_cal_white_boxes(
                        config.max_layers + 1,
                        g,
                        square_size_um as int,
                        *config,
                        flat_top,
                    ),
                )
            },
{
    let n: u32 = config.max_layers + 1;
    let grid_size: u32 = grid_size_for(n);
    let ghost g = grid_size as int;
    let ghost sq = square_size_um as int;

    let mut black_boxes: Vec<BoxSpec> = Vec::new();
    let mut white_boxes: Vec<BoxSpec> = Vec::new();
    let mut lc: u32 = 0;
    proof {
        assert(black_boxes@ =~= spec_cal_black_boxes(0, g, sq, *config, flat_top));
        assert(white_boxes@ =~= spec_cal_white_boxes(0, g, sq, *config, flat_top));
    }
    while lc < n
        invariant
            config.wf(),
            square_size_um <= MAX_LENGTH_UM,
            n == config.max_layers + 1,
            n <= 0x10000,
            is_grid_size(g, n as int),
            1 <= grid_size,
            grid_size as int == g,
            g <= n,
            sq == square_size_um as int,
            lc <= n,
            black_boxes@ == spec_cal_black_boxes(lc as int, g, sq, *config, flat_top),
            white_boxes@ == spec_cal_white_boxes(lc as int, g, sq, *config, flat_top),
            forall|j: int| 0 <= j < black_boxes@.len() ==> box_wf(#[trigger] black_boxes@[j]),
            forall|j: int| 0 <= j < white_boxes@.len() ==> box_wf(#[trigger] white_boxes@[j]),
        decreases n - lc,
    {
        let grid_x: u32 = lc % grid_size;
        let grid_y: u32 = lc / grid_size;
        proof {
            vstd::arithmetic::div_mod::lemma_mod_bound(lc as int, g);
            vstd::arithmetic::div_mod::lemma_div_pos_is_pos(lc as int, g);
            assert(lc as int / g <= lc as int) by (nonlinear_arith)
                requires
                    g >= 1,
                    0 <= lc as int,
            ;
            vstd::arithmetic::mul::lemma_mul_upper_bound(
                grid_x as int,
                0x10000,
                sq,
                MAX_LENGTH_UM as int,
            );
            vstd::arithmetic::mul::lemma_mul_upper_bound(
                grid_y as int,
                0x10000,
                sq,
                MAX_LENGTH_UM as int,
            );
            vstd::arithmetic::mul::lemma_mul_upper_bound(
                config.max_layers as int,
                MAX_LAYER_CAP as int,
                config.layer_thickness_um as int,
                MAX_LENGTH_UM as int,
            );
            vstd::arithmetic::mul::lemma_mul_inequality(
                lc as int,
                config.max_layers as int,
                config.layer_thickness_um as int,
            );
        }
        let x_offset: u64 = grid_x as u64 * square_size_um;
        let y_offset: u64 = grid_y as u64 * square_size_um;
        let black_thickness = config.calculate_black_thickness(lc, flat_top);
        let total_height = config.calculate_total_height(lc, flat_top);

        black_boxes.push(
            BoxSpec {
                x: x_offset,
                y: y_offset,
                z: 0,
                w: square_size_um,
                h: square_size_um,
                d: black_thickness,
            },
        );
        if total_height > black_thickness {
            white_boxes.push(
                BoxSpec {
                    x: x_offset,
                    y: y_offset,
                    z: black_thickness,
                    w: square_size_um,
                    h: square_size_um,
                    d: total_height - black_thickness,
                },
            );
        }
        proof {
            assert(black_boxes@ =~= spec_cal_black_boxes(lc + 1, g, sq, *config, flat_top));
            assert(white_boxes@ =~= spec_cal_white_boxes(lc + 1, g, sq, *config, flat_top));
        }
        lc = lc + 1;
    }

    let black_mesh = crate::mesh::build_boxes_mesh(&black_boxes);
    let white_mesh = crate::mesh::build_boxes_mesh(&white_boxes);
    let out = PrintObjects { black_mesh, white_mesh };
    proof {
        assert(is_grid_size(g, config.max_layers + 1));
        assert(mesh_is_boxes(
            out.black_mesh,
            spec_cal_black_boxes(config.max_layers + 1, g, sq, *config, flat_top),
        ));
    }
    out
}

} // verus!
