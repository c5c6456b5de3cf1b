use vstd::prelude::*;

use crate::cell::Cell;
use crate::pattern::Pattern;
use crate::pixel_grid::{Pixel, PixelGrid};
use crate::direction::{Direction, direction_index, direction_of_index, lemma_direction_facts};
use crate::model::WfcModel;
use crate::rules::{may_neighbor, lemma_neighbor_ids_contains};
use crate::wave::{Wave, collapsed_pattern, lemma_index_bound, lemma_neighbor_steps, lemma_overlap_is_agreement_where_drawn};

verus! {

/// The pixel at column `x`, row `y` of pattern `p`, when that place is inside its square and
/// stored.
pub open spec fn pattern_pixel(p: Pattern, x: int, y: int) -> Option<Pixel> {
    if 0 <= x < p.size && 0 <= y < p.size && y * p.size + x < p.pixels@.len() {
        Some(p.pixels@[y * p.size + x])
    } else {
        None
    }
}

/// Pattern `p` has every pixel of the square of side `side`.
pub open spec fn covers_square(p: Pattern, side: int) -> bool {
    forall|x: int, y: int| 0 <= x < side && 0 <= y < side ==> (#[trigger] pattern_pixel(p, x, y)) is Some
}

/// Cell `c` is collapsed to one of `patterns` that has every pixel of the square of side `side`.
pub open spec fn cell_renderable(c: Cell, patterns: Seq<Pattern>, side: int) -> bool {
    match collapsed_pattern(c) {
        Some(p) => p < patterns.len() && covers_square(patterns[p as int], side),
        None => false,
    }
}

/// There is a first pattern, whose side is the side of every placed square, and every cell of the
/// wave can be drawn with it.
pub open spec fn renderable(wave: Wave, patterns: Seq<Pattern>) -> bool {
    &&& patterns.len() > 0
    &&& forall|i: int|
        0 <= i < wave.cells_view().len() ==> cell_renderable(
            #[trigger] wave.cells_view()[i],
            patterns,
            patterns[0].size as int,
        )
}

/// The pixel at column `x`, row `y` of the drawing of `wave`: each cell places the square of its
/// pattern with its top left corner at the cell's own place, cells drawn row by row, so the pixel
/// comes from the last cell whose square covers it, the one at column `min(x, width - 1)` and row
/// `min(y, height - 1)`; transparent black where no square covers it.
pub open spec fn rendered_pixel(wave: Wave, patterns: Seq<Pattern>, x: int, y: int) -> Pixel {
    let w = wave.width_spec() as int;
    let h = wave.height_spec() as int;
    let side = patterns[0].size as int;
    if w == 0 || h == 0 || side == 0 {
        [0u8, 0u8, 0u8, 0u8]
    } else {
        let cx = if x < w {
            x
        } else {
            w - 1
        };
        let cy = if y < h {
            y
        } else {
            h - 1
        };
        let p = collapsed_pattern(wave.cells_view()[cy * w + cx])->0;
        pattern_pixel(patterns[p as int], x - cx, y - cy)->0
    }
}

/// A pattern that has the far corner of a square has all of it.
proof fn lemma_corner_covers(p: Pattern, side: int)
    requires
        side > 0,
        pattern_pixel(p, side - 1, side - 1) is Some,
    ensures
        covers_square(p, side),
{
    assert forall|x: int, y: int| 0 <= x < side && 0 <= y < side implies (#[trigger] pattern_pixel(p, x, y)) is Some by {
        let n = p.size as int;
        assert(y * n <= (side - 1) * n) by (nonlinear_arith)
            requires
                0 <= y <= side - 1,
                0 <= n,
        ;
    }
}

/// The pixel that the drawing of `wave` has at column `x`, row `y`.
fn covering_pixel(wave: &Wave, patterns: &[Pattern], x: u32, y: u32) -> (r: Pixel)
    requires
        wave.wf(),
        renderable(*wave, patterns@),
        x < wave.width_spec() + patterns@[0].size - 1,
        y < wave.height_spec() + patterns@[0].size - 1,
    ensures
        r == rendered_pixel(*wave, patterns@, x as int, y as int),
{
    let side = patterns[0].get_size();
    let width = wave.get_width();
    let height = wave.get_height();
    if width == 0 || height == 0 || side == 0 {
        return [0u8, 0u8, 0u8, 0u8];
    }
    let cx: usize = if (x as usize) < width {
        x as usize
    } else {
        width - 1
    };
    let cy: usize = if (y as usize) < height {
        y as usize
    } else {
        height - 1
    };
    proof {
        lemma_index_bound(cx as int, cy as int, width as int, height as int);
    }
    let cell = match wave.get_cell(cx, cy) {
        Some(c) => c,
        None => {
            return [0u8, 0u8, 0u8, 0u8];
        },
    };
    proof {
        assert(cell_renderable(wave.cells_view()[cy * width + cx], patterns@, side as int));
    }
    let pattern_id = match cell.collapsed_pattern_id() {
        Some(p) => p,
        None => {
            return [0u8, 0u8, 0u8, 0u8];
        },
    };
    let pattern = &patterns[pattern_id];
    let px = (x as usize) - cx;
    let py = (y as usize) - cy;
    proof {
        assert(pattern_pixel(patterns@[pattern_id as int], px as int, py as int) is Some);
    }
    match pattern.get_pixel(px, py) {
        Some(p) => *p,
        None => [0u8, 0u8, 0u8, 0u8],
    }
}

/// Draws a wave whose cells are all collapsed: each cell places the square of its pattern with
/// its top left corner at the cell's place, so the picture is `pattern side - 1` pixels wider and
/// higher than the wave. `None` when there is no pattern, or some cell is not collapsed, names a
/// pattern that is not there, or has a pattern without a full square of the first pattern's side.
pub fn render_wave(wave: &Wave, patterns: &[Pattern]) -> (r: Option<PixelGrid>)
    requires
        wave.wf(),
        patterns@.len() > 0 ==> {
            let side = patterns@[0].size as int;
            &&& wave.width_spec() <= u32::MAX
            &&& wave.height_spec() <= u32::MAX
            &&& wave.width_spec() + side >= 1
            &&& wave.height_spec() + side >= 1
            &&& wave.width_spec() + side - 1 <= u32::MAX
            &&& wave.height_spec() + side - 1 <= u32::MAX
            &&& (wave.width_spec() + side - 1) * (wave.height_spec() + side - 1) <= usize::MAX
        },
    ensures
        r is Some <==> renderable(*wave, patterns@),
        r matches Some(g) ==> {
            &&& g.wf()
            &&& g.width == wave.width_spec() + patterns@[0].size - 1
            &&& g.height == wave.height_spec() + patterns@[0].size - 1
            &&& forall|x: int, y: int|
                0 <= x < g.width && 0 <= y < g.height ==> #[trigger] g.pixel_at(x, y) == rendered_pixel(
                    *wave,
                    patterns@,
                    x,
                    y,
                )
            &&& forall|cx: int, cy: int, px: int, py: int|
                0 <= cx < wave.width_spec() && 0 <= cy < wave.height_spec() && 0 <= px < patterns@[0].size && 0 <= py
                    < patterns@[0].size && (px == 0 || cx == wave.width_spec() - 1) && (py == 0 || cy == wave.height_spec()
                    - 1) ==> {
                    let p = patterns@[collapsed_pattern(wave.cells_view()[cy * wave.width_spec() + cx])->0 as int];
                    #[trigger] g.pixel_at(cx + px, cy + py) == p.pixels@[py * p.size + px]
                }
        },
{
    if patterns.len() == 0 {
        return None;
    }
    let side = patterns[0].get_size();
    let output_width: u32 = if side > 0 {
        (wave.get_width() as u32) + (side - 1)
    } else {
        (wave.get_width() as u32) - 1
    };
    let output_height: u32 = if side > 0 {
        (wave.get_height() as u32) + (side - 1)
    } else {
        (wave.get_height() as u32) - 1
    };
    let count = wave.cell_count();
    let mut i: usize = 0;
    while i < count
        invariant
            i <= count,
            count == wave.cells_view().len(),
            wave.wf(),
            patterns@.len() > 0,
            side == patterns@[0].size,
            forall|j: int| 0 <= j < i ==> cell_renderable(#[trigger] wave.cells_view()[j], patterns@, side as int),
        decreases count - i,
    {
        let cell = match wave.get_cell_by_index(i) {
            Some(c) => c,
            None => {
                return None;
            },
        };
        let pattern_id = match cell.collapsed_pattern_id() {
            Some(p) => p,
            None => {
                proof {
                    assert(!cell_renderable(wave.cells_view()[i as int], patterns@, side as int));
                }
                return None;
            },
        };
        if pattern_id >= patterns.len() {
            proof {
                assert(!cell_renderable(wave.cells_view()[i as int], patterns@, side as int));
            }
            return None;
        }
        if side > 0 {
            let corner = (side - 1) as usize;
            if patterns[pattern_id].get_pixel(corner, corner).is_none() {
                proof {
                    assert(pattern_pixel(patterns@[pattern_id as int], side - 1, side - 1) is None);
                    assert(!cell_renderable(wave.cells_view()[i as int], patterns@, side as int));
                }
                return None;
            }
            proof {
                lemma_corner_covers(patterns@[pattern_id as int], side as int);
            }
        }
        i = i + 1;
    }
    let ghost w = output_width as int;
    let mut pixels: Vec<Pixel> = Vec::new();
    let mut y: u32 = 0;
    while y < output_height
        invariant
            y <= output_height,
            w == output_width,
            wave.wf(),
            renderable(*wave, patterns@),
            output_width == wave.width_spec() + patterns@[0].size - 1,
            output_height == wave.height_spec() + patterns@[0].size - 1,
            pixels@.len() == y * w,
            forall|a: int, b: int| 0 <= b < y && 0 <= a < w ==> pixels@[b * w + a] == rendered_pixel(*wave, patterns@, a, b),
        decreases output_height - y,
    {
        let mut x: u32 = 0;
        while x < output_width
            invariant
                x <= output_width,
                y < output_height,
                w == output_width,
                wave.wf(),
                renderable(*wave, patterns@),
                output_width == wave.width_spec() + patterns@[0].size - 1,
                output_height == wave.height_spec() + patterns@[0].size - 1,
                pixels@.len() == y * w + x,
                forall|a: int, b: int| 0 <= b < y && 0 <= a < w ==> pixels@[b * w + a] == rendered_pixel(*wave, patterns@, a, b),
                forall|a: int| 0 <= a < x ==> pixels@[y * w + a] == rendered_pixel(*wave, patterns@, a, y as int),
            decreases output_width - x,
        {
            let pixel = covering_pixel(wave, patterns, x, y);
            let ghost before = pixels@;
            pixels.push(pixel);
            proof {
                assert forall|a: int, b: int| 0 <= b < y && 0 <= a < w implies pixels@[b * w + a] == rendered_pixel(
                    *wave,
                    patterns@,
                    a,
                    b,
                ) by {
                    assert(b * w + a < y * w) by (nonlinear_arith)
                        requires
                            0 <= b < y,
                            0 <= a < w,
                    ;
                    assert(pixels@[b * w + a] == before[b * w + a]);
                }
            }
            x = x + 1;
        }
        proof {
            assert(y * w + w == (y + 1) * w) by (nonlinear_arith);
        }
        y = y + 1;
    }
    proof {
        assert(pixels@.len() == output_width * output_height) by (nonlinear_arith)
            requires
                pixels@.len() == y * w,
                y == output_height,
                w == output_width,
        ;
    }
    let g = PixelGrid { width: output_width, height: output_height, pixels };
    proof {
        assert forall|x: int, y: int| 0 <= x < g.width && 0 <= y < g.height implies #[trigger] g.pixel_at(x, y)
            == rendered_pixel(*wave, patterns@, x, y) by {
            assert(g.pixel_at(x, y) == pixels@[y * w + x]);
        }
        lemma_render_places_squares(*wave, patterns@, g);
    }
    Some(g)
}

/// In the drawing `g` of `wave`, each cell's square shows its pattern unchanged wherever no later
/// cell draws over it: pixel (`px`, `py`) of the pattern of cell (`cx`, `cy`) is at picture pixel
/// (`cx + px`, `cy + py`) when the cell is in the last column or `px` is 0, and in the last row or
/// `py` is 0. Every picture pixel is one of these: (`x`, `y`) is pixel (`x - cx`, `y - cy`) of
/// cell (`min(x, width - 1)`, `min(y, height - 1)`).
pub proof fn lemma_render_places_squares(wave: Wave, patterns: Seq<Pattern>, g: PixelGrid)
    requires
        wave.wf(),
        renderable(wave, patterns),
        g.width == wave.width_spec() + patterns[0].size - 1,
        g.height == wave.height_spec() + patterns[0].size - 1,
        forall|x: int, y: int|
            0 <= x < g.width && 0 <= y < g.height ==> #[trigger] g.pixel_at(x, y) == rendered_pixel(wave, patterns, x, y),
    ensures
        forall|cx: int, cy: int, px: int, py: int|
            0 <= cx < wave.width_spec() && 0 <= cy < wave.height_spec() && 0 <= px < patterns[0].size && 0 <= py
                < patterns[0].size && (px == 0 || cx == wave.width_spec() - 1) && (py == 0 || cy == wave.height_spec() - 1)
                ==> {
                let p = patterns[collapsed_pattern(wave.cells_view()[cy * wave.width_spec() + cx])->0 as int];
                #[trigger] g.pixel_at(cx + px, cy + py) == p.pixels@[py * p.size + px]
            },
{
    let w = wave.width_spec() as int;
    let h = wave.height_spec() as int;
    let side = patterns[0].size as int;
    assert forall|cx: int, cy: int, px: int, py: int|
        0 <= cx < w && 0 <= cy < h && 0 <= px < side && 0 <= py < side && (px == 0 || cx == w - 1) && (py == 0 || cy == h
            - 1) implies {
        let p = patterns[collapsed_pattern(wave.cells_view()[cy * w + cx])->0 as int];
        #[trigger] g.pixel_at(cx + px, cy + py) == p.pixels@[py * p.size + px]
    } by {
        let x = cx + px;
        let y = cy + py;
        lemma_index_bound(cx, cy, w, h);
        assert(cell_renderable(wave.cells_view()[cy * w + cx], patterns, side));
        let p = patterns[collapsed_pattern(wave.cells_view()[cy * w + cx])->0 as int];
        assert(pattern_pixel(p, px, py) is Some);
        assert(g.pixel_at(x, y) == rendered_pixel(wave, patterns, x, y));
    }
}

/// The pattern of the cell at column `x`, row `y` of `wave`.
pub open spec fn cell_pattern(wave: Wave, patterns: Seq<Pattern>, x: int, y: int) -> Pattern {
    patterns[collapsed_pattern(wave.cells_view()[y * wave.width_spec() + x])->0 as int]
}

/// The color that pattern `p`, with its top left corner at (`ox`, `oy`), puts at picture pixel
/// (`x`, `y`).
pub open spec fn shown_at(p: Pattern, ox: int, oy: int, x: int, y: int) -> Pixel {
    p.pixels@[(y - oy) * p.size + (x - ox)]
}

/// A wave that keeps the rules of `model`, every cell collapsed to a pattern of the model with a
/// full square.
pub open spec fn drawable_consistent(model: WfcModel, wave: Wave) -> bool {
    &&& model.wf()
    &&& model.patterns_view().len() <= usize::MAX
    &&& wave.wf()
    &&& renderable(wave, model.patterns_view())
    &&& wave.constraints_hold(model.rules_view())
}

proof fn lemma_cell_index(x: int, y: int, w: int)
    requires
        0 <= x < w,
        0 <= y,
    ensures
        (y * w + x) % w == x,
        (y * w + x) / w == y,
{
    assert((y * w + x) % w == x && (y * w + x) / w == y) by (nonlinear_arith)
        requires
            0 <= x < w,
            0 <= y,
    ;
}

/// Neighbors to the right or below in a wave that keeps the rules of `model` hold patterns of one
/// size that show the same color at every picture pixel both squares cover.
proof fn lemma_neighbors_agree(model: WfcModel, wave: Wave, x: int, y: int, nx: int, ny: int, d: Direction)
    requires
        drawable_consistent(model, wave),
        d == Direction::Right || d == Direction::Down,
        d == Direction::Right ==> nx == x + 1 && ny == y,
        d == Direction::Down ==> nx == x && ny == y + 1,
        0 <= x < wave.width_spec(),
        0 <= y < wave.height_spec(),
        0 <= nx < wave.width_spec(),
        0 <= ny < wave.height_spec(),
    ensures
        cell_pattern(wave, model.patterns_view(), x, y).size == cell_pattern(wave, model.patterns_view(), nx, ny).size,
        forall|px: int, py: int|
            x <= px < x + cell_pattern(wave, model.patterns_view(), x, y).size && y <= py < y + cell_pattern(
                wave,
                model.patterns_view(),
                x,
                y,
            ).size && nx <= px < nx + cell_pattern(wave, model.patterns_view(), x, y).size && ny <= py < ny + cell_pattern(
                wave,
                model.patterns_view(),
                x,
                y,
            ).size ==> #[trigger] shown_at(cell_pattern(wave, model.patterns_view(), x, y), x, y, px, py) == shown_at(
                cell_pattern(wave, model.patterns_view(), nx, ny),
                nx,
                ny,
                px,
                py,
            ),
{
    let w = wave.width_spec() as int;
    let h = wave.height_spec() as int;
    let patterns = model.patterns_view();
    let rules = model.rules_view();
    let i = y * w + x;
    let j = ny * w + nx;
    lemma_index_bound(x, y, w, h);
    lemma_index_bound(nx, ny, w, h);
    lemma_cell_index(x, y, w);
    lemma_direction_facts(d);
    lemma_neighbor_steps(w, h, x, y);
    let di = direction_index(d);
    assert(wave.pair_ok(rules, i, di));
    assert(cell_renderable(wave.cells_view()[i], patterns, patterns[0].size as int));
    assert(cell_renderable(wave.cells_view()[j], patterns, patterns[0].size as int));
    let p = collapsed_pattern(wave.cells_view()[i])->0;
    let q = collapsed_pattern(wave.cells_view()[j])->0;
    assert(wave.neighbor(i % w, i / w, direction_of_index(di)) == Some(j));
    assert(rules.allowed_list(p as int, di).contains(q));
    lemma_neighbor_ids_contains(patterns, p as int, d, patterns.len() as int, q as int);
    assert(may_neighbor(patterns[p as int], patterns[q as int], d));
    let a = patterns[p as int];
    let b = patterns[q as int];
    let n = a.size as int;
    if n > 0 {
        lemma_overlap_is_agreement_where_drawn(a.pixels@, b.pixels@, n, d, w, h, x, y, nx, ny);
    }
}

/// Along a row: the cells from column `x0` to column `x` hold patterns of one size that show the
/// same color at a picture pixel that all their squares cover.
proof fn lemma_row_agrees(model: WfcModel, wave: Wave, x0: int, y: int, x: int, px: int, py: int)
    requires
        drawable_consistent(model, wave),
        0 <= x0 <= x < wave.width_spec(),
        0 <= y < wave.height_spec(),
        x <= px < x0 + cell_pattern(wave, model.patterns_view(), x0, y).size,
        y <= py < y + cell_pattern(wave, model.patterns_view(), x0, y).size,
    ensures
        cell_pattern(wave, model.patterns_view(), x, y).size == cell_pattern(wave, model.patterns_view(), x0, y).size,
        shown_at(cell_pattern(wave, model.patterns_view(), x0, y), x0, y, px, py) == shown_at(
            cell_pattern(wave, model.patterns_view(), x, y),
            x,
            y,
            px,
            py,
        ),
    decreases x - x0,
{
    if x > x0 {
        lemma_row_agrees(model, wave, x0, y, x - 1, px, py);
        lemma_neighbors_agree(model, wave, x - 1, y, x, y, Direction::Right);
        assert(shown_at(cell_pattern(wave, model.patterns_view(), x - 1, y), x - 1, y, px, py) == shown_at(
            cell_pattern(wave, model.patterns_view(), x, y),
            x,
            y,
            px,
            py,
        ));
    }
}

/// Along a column: the cells from row `y0` to row `y` hold patterns of one size that show the
/// same color at a picture pixel that all their squares cover.
proof fn lemma_column_agrees(model: WfcModel, wave: Wave, x: int, y0: int, y: int, px: int, py: int)
    requires
        drawable_consistent(model, wave),
        0 <= x < wave.width_spec(),
        0 <= y0 <= y < wave.height_spec(),
        x <= px < x + cell_pattern(wave, model.patterns_view(), x, y0).size,
        y <= py < y0 + cell_pattern(wave, model.patterns_view(), x, y0).size,
    ensures
        cell_pattern(wave, model.patterns_view(), x, y).size == cell_pattern(wave, model.patterns_view(), x, y0).size,
        shown_at(cell_pattern(wave, model.patterns_view(), x, y0), x, y0, px, py) == shown_at(
            cell_pattern(wave, model.patterns_view(), x, y),
            x,
            y,
            px,
            py,
        ),
    decreases y - y0,
{
    if y > y0 {
        lemma_column_agrees(model, wave, x, y0, y - 1, px, py);
        lemma_neighbors_agree(model, wave, x, y - 1, x, y, Direction::Down);
        assert(shown_at(cell_pattern(wave, model.patterns_view(), x, y - 1), x, y - 1, px, py) == shown_at(
            cell_pattern(wave, model.patterns_view(), x, y),
            x,
            y,
            px,
            py,
        ));
    }
}

/// A wave whose neighbors all keep the rules of `model`, drawn into `g`, shows every cell's
/// pattern unchanged: pixel (`px`, `py`) of the pattern of cell (`cx`, `cy`) is picture pixel
/// (`cx + px`, `cy + py`), for every pixel of the square, though later cells draw over it.
pub proof fn lemma_consistent_wave_shows_its_patterns(model: WfcModel, wave: Wave, g: PixelGrid)
    requires
        model.wf(),
        model.patterns_view().len() <= usize::MAX,
        wave.wf(),
        renderable(wave, model.patterns_view()),
        wave.constraints_hold(model.rules_view()),
        g.width == wave.width_spec() + model.patterns_view()[0].size - 1,
        g.height == wave.height_spec() + model.patterns_view()[0].size - 1,
        forall|x: int, y: int|
            0 <= x < g.width && 0 <= y < g.height ==> #[trigger] g.pixel_at(x, y) == rendered_pixel(
                wave,
                model.patterns_view(),
                x,
                y,
            ),
    ensures
        forall|cx: int, cy: int, px: int, py: int|
            0 <= cx < wave.width_spec() && 0 <= cy < wave.height_spec() && 0 <= px < model.patterns_view()[0].size && 0
                <= py < model.patterns_view()[0].size ==> {
                let p = model.patterns_view()[collapsed_pattern(wave.cells_view()[cy * wave.width_spec() + cx])->0 as int];
                #[trigger] g.pixel_at(cx + px, cy + py) == p.pixels@[py * p.size + px]
            },
{
    let w = wave.width_spec() as int;
    let h = wave.height_spec() as int;
    let patterns = model.patterns_view();
    let side = patterns[0].size as int;
    assert forall|cx: int, cy: int, px: int, py: int| 0 <= cx < w && 0 <= cy < h && 0 <= px < side && 0 <= py < side implies {
        let p = patterns[collapsed_pattern(wave.cells_view()[cy * w + cx])->0 as int];
        #[trigger] g.pixel_at(cx + px, cy + py) == p.pixels@[py * p.size + px]
    } by {
        let x = cx + px;
        let y = cy + py;
        let kx = if x < w { x } else { w - 1 };
        let ky = if y < h { y } else { h - 1 };
        lemma_index_bound(cx, cy, w, h);
        lemma_index_bound(kx, ky, w, h);
        let pc = cell_pattern(wave, patterns, cx, cy);
        assert(cell_renderable(wave.cells_view()[cy * w + cx], patterns, side));
        assert(pattern_pixel(pc, side - 1, side - 1) is Some);
        assert(pattern_pixel(pc, px, py) is Some);
        lemma_row_agrees(model, wave, cx, cy, kx, x, y);
        lemma_column_agrees(model, wave, kx, cy, ky, x, y);
        let pk = cell_pattern(wave, patterns, kx, ky);
        assert(cell_renderable(wave.cells_view()[ky * w + kx], patterns, side));
        assert(pattern_pixel(pk, x - kx, y - ky) is Some);
        assert(g.pixel_at(x, y) == rendered_pixel(wave, patterns, x, y));
        assert(shown_at(pc, cx, cy, x, y) == pc.pixels@[py * pc.size + px]);
    }
}

} // verus!
