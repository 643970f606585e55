//! The mathematical model of a cell.
//!
//! A cell is its pixels, its zoom exponent and its shutter, as integers. Each
//! operation of [`super::cell`] is stated here as a function on that value,
//! together with the state of the generator that rounds a zoom-out.

use super::cell::MicroParams;
use vstd::arithmetic::power::*;
use vstd::prelude::*;

verus! {

/// What a record holds: `pixels[i]` counts units of `c^zoom` items, and
/// `shutter` counts the items not yet rolled into a pixel.
#[verifier::ext_equal]
pub struct CellModel {
    pub pixels: Seq<int>,
    pub zoom: int,
    pub shutter: int,
}

/// The little-endian number in the four bytes from `at` on.
pub open spec fn le32(bytes: Seq<u8>, at: int) -> int {
    bytes[at] + 0x100 * bytes[at + 1] + 0x1_0000 * bytes[at + 2] + 0x100_0000 * bytes[at + 3]
}

/// The cell that a record encodes.
pub open spec fn decode(cell: Seq<u8>, p: MicroParams) -> CellModel {
    CellModel {
        pixels: Seq::new(p.pixel_count(), |i: int| cell[i] as int),
        zoom: cell[p.zoom_offset()] as int,
        shutter: le32(cell, p.shutter_offset()),
    }
}

/// `after` has the length of `before` and agrees with it from byte `at` on.
pub open spec fn same_from(before: Seq<u8>, after: Seq<u8>, at: int) -> bool {
    &&& after.len() == before.len()
    &&& forall|i: int| at <= i < before.len() ==> #[trigger] after[i] == before[i]
}

/// `after` has the length of `before` and agrees with it on every byte that
/// belongs to no field.
pub open spec fn same_padding(before: Seq<u8>, after: Seq<u8>, p: MicroParams) -> bool {
    same_from(before, after, p.field_bytes())
}

/// A cell whose fields a record can hold.
pub open spec fn representable(m: CellModel, p: MicroParams) -> bool {
    &&& m.pixels.len() == p.pixel_count()
    &&& forall|i: int| 0 <= i < m.pixels.len() ==> 0 <= #[trigger] m.pixels[i] <= 255
    &&& 0 <= m.zoom <= 255
    &&& 0 <= m.shutter <= u32::MAX
}

/// The items that one pixel unit stands for, i.e. `c^Z`.
pub open spec fn unit(p: MicroParams, zoom: int) -> int {
    pow(p.c as int, zoom as nat)
}

/// The shutter is a remainder below one unit.
pub open spec fn below_one_unit(m: CellModel, p: MicroParams) -> bool {
    0 <= m.shutter < unit(p, m.zoom)
}

/// One xorshift64 step.
pub open spec fn next_state(state: u64) -> u64 {
    let a = state ^ (state >> 12);
    let b = a ^ (a << 25);
    b ^ (b >> 27)
}

/// The number drawn from `state`: the next state, scrambled by a
/// multiplication modulo `2^64`.
pub open spec fn draw(state: u64) -> int {
    (next_state(state) * 0x2545_F491_4F6C_DD1D) % 0x1_0000_0000_0000_0000
}

/// `value / c`, rounded up when `r` modulo `c` is below the remainder.
pub open spec fn rounded(value: int, c: int, r: int) -> int {
    if r % c < value % c {
        value / c + 1
    } else {
        value / c
    }
}

/// An unbiased division by `c`, and the generator state after it. An exact
/// multiple takes no draw.
pub open spec fn div_step(value: int, c: int, state: u64) -> (int, u64) {
    if value % c == 0 {
        (value / c, state)
    } else {
        (rounded(value, c, draw(state)), next_state(state))
    }
}

/// [`div_step`] on every value in order, the generator running through.
pub open spec fn div_all(values: Seq<int>, c: int, state: u64) -> (Seq<int>, u64)
    decreases values.len(),
{
    if values.len() == 0 {
        (Seq::empty(), state)
    } else {
        let (done, s) = div_all(values.drop_last(), c, state);
        let (last, s) = div_step(values.last(), c, s);
        (done.push(last), s)
    }
}

/// A division of a value that is not negative leaves the quotient or one more.
pub proof fn lemma_div_step_bounds(value: int, c: int, state: u64)
    requires
        value >= 0,
        c >= 2,
    ensures
        0 <= value / c <= div_step(value, c, state).0 <= value / c + 1,
        div_step(value, c, state).0 <= value,
        div_step(value, c, state).0 <= value / 2 + 1,
{
    assert(0 <= value / c <= value / 2) by (nonlinear_arith)
        requires
            value >= 0,
            c >= 2,
    ;
    if value % c != 0 && value <= 1 {
        assert(value / c == 0) by (nonlinear_arith)
            requires
                0 <= value <= 1,
                c >= 2,
        ;
        if value == 0 {
            vstd::arithmetic::div_mod::lemma_small_mod(0, c as nat);
        }
    }
}

/// Dividing every value leaves as many, each within one of its quotient.
pub proof fn lemma_div_all_bounds(values: Seq<int>, c: int, state: u64)
    requires
        c >= 2,
        forall|i: int| 0 <= i < values.len() ==> #[trigger] values[i] >= 0,
    ensures
        div_all(values, c, state).0.len() == values.len(),
        forall|i: int|
            0 <= i < values.len() ==> {
                &&& 0 <= values[i] / c <= #[trigger] div_all(values, c, state).0[i]
                &&& div_all(values, c, state).0[i] <= values[i] / c + 1
                &&& div_all(values, c, state).0[i] <= values[i] / 2 + 1
                &&& div_all(values, c, state).0[i] <= values[i]
            },
    decreases values.len(),
{
    if values.len() > 0 {
        lemma_div_all_bounds(values.drop_last(), c, state);
        let (done, s) = div_all(values.drop_last(), c, state);
        lemma_div_step_bounds(values.last(), c, s);
        assert forall|i: int| 0 <= i < values.len() implies {
            &&& 0 <= values[i] / c <= #[trigger] div_all(values, c, state).0[i]
            &&& div_all(values, c, state).0[i] <= values[i] / c + 1
            &&& div_all(values, c, state).0[i] <= values[i] / 2 + 1
            &&& div_all(values, c, state).0[i] <= values[i]
        } by {
            if i < values.len() - 1 {
                assert(values.drop_last()[i] == values[i]);
                assert(div_all(values, c, state).0[i] == done[i]);
            }
        }
    }
}

/// `steps` unbiased divisions of one value.
pub open spec fn scale_down(value: int, steps: nat, c: int, state: u64) -> (int, u64)
    decreases steps,
{
    if steps == 0 {
        (value, state)
    } else {
        let (v, s) = scale_down(value, (steps - 1) as nat, c, state);
        div_step(v, c, s)
    }
}

/// Scaling a value that is not negative down does not make it larger.
pub proof fn lemma_scale_down_bounds(value: int, steps: nat, c: int, state: u64)
    requires
        value >= 0,
        c >= 2,
    ensures
        0 <= scale_down(value, steps, c, state).0 <= value,
    decreases steps,
{
    if steps > 0 {
        lemma_scale_down_bounds(value, (steps - 1) as nat, c, state);
        let (v, s) = scale_down(value, (steps - 1) as nat, c, state);
        lemma_div_step_bounds(v, c, s);
    }
}

/// There is a zoom exponent above `zoom` at which a unit still fits a `u32`.
pub open spec fn can_zoom_out(p: MicroParams, zoom: int) -> bool {
    unit(p, zoom + 1) <= u32::MAX
}

/// `Z` goes up by one and every pixel is divided by `c`.
pub open spec fn zoom_out(m: CellModel, p: MicroParams, state: u64) -> (CellModel, u64) {
    let (pixels, s) = div_all(m.pixels, p.c as int, state);
    (CellModel { pixels, zoom: m.zoom + 1, ..m }, s)
}

/// The cell after one more item in sub-window `n`.
pub open spec fn insert(m: CellModel, p: MicroParams, n: int, state: u64) -> (CellModel, u64) {
    let current = p.slot(n);
    if m.shutter + 1 < unit(p, m.zoom) {
        (CellModel { shutter: (m.shutter + 1) % 0x1_0000_0000, ..m }, state)
    } else if m.pixels[current] < 255 {
        (
            CellModel {
                pixels: m.pixels.update(current, m.pixels[current] + 1),
                shutter: 0,
                ..m
            },
            state,
        )
    } else if can_zoom_out(p, m.zoom) {
        let (out, s) = zoom_out(m, p, state);
        (
            CellModel {
                pixels: out.pixels.update(current, out.pixels[current] + 1),
                shutter: 0,
                ..out
            },
            s,
        )
    } else {
        (CellModel { shutter: 0, ..m }, state)
    }
}

/// `Z` is not zero and every pixel would still fit a byte after a
/// multiplication by `c`.
pub open spec fn can_zoom_in(m: CellModel, p: MicroParams) -> bool {
    &&& m.zoom > 0
    &&& forall|i: int| 0 <= i < m.pixels.len() ==> #[trigger] m.pixels[i] * p.c <= 255
}

/// `Z` goes down by one and every pixel is multiplied by `c`, if it can be.
/// The shutter keeps what is below the smaller unit.
pub open spec fn zoom_in(m: CellModel, p: MicroParams) -> CellModel {
    if can_zoom_in(m, p) {
        CellModel {
            pixels: Seq::new(m.pixels.len(), |i: int| m.pixels[i] * p.c),
            zoom: m.zoom - 1,
            shutter: m.shutter % unit(p, m.zoom - 1),
        }
    } else {
        m
    }
}

/// `tries` zoom-ins, one after another. Once one is refused, so is the next.
pub open spec fn zoom_in_repeatedly(m: CellModel, p: MicroParams, tries: nat) -> CellModel
    decreases tries,
{
    if tries == 0 {
        m
    } else {
        zoom_in(zoom_in_repeatedly(m, p, (tries - 1) as nat), p)
    }
}

/// Slot `i` belongs to one of the `crossed` sub-windows that end at `n`.
pub open spec fn entered(p: MicroParams, n: int, crossed: int, i: int) -> bool {
    exists|step: int| 0 <= step < crossed && #[trigger] p.slot(n - step) == i
}

/// No sub-window that a window ending in `n` can reach counts anything: every
/// pixel is zero but for the one in the spare slot, that of `n + 1`.
pub open spec fn window_is_empty(pixels: Seq<int>, p: MicroParams, n: int) -> bool {
    forall|i: int| 0 <= i < pixels.len() && i != p.slot(n + 1) ==> #[trigger] pixels[i] == 0
}

/// The pixels with the slots of the sub-windows entered on the way cleared.
pub open spec fn cleared_pixels(m: CellModel, p: MicroParams, n: int, crossed: int) -> Seq<int> {
    Seq::new(
        m.pixels.len(),
        |i: int|
            if entered(p, n, crossed, i) {
                0
            } else {
                m.pixels[i]
            },
    )
}

/// The cell with the slots of the sub-windows entered on the way cleared. The
/// partial unit in the shutter goes on to fill up the next pixel, unless the
/// window has nothing left that it could be part of: then a scaled cell drops
/// it. A jump over the whole ring drops everything.
pub open spec fn forget(m: CellModel, p: MicroParams, n: int, crossed: int) -> CellModel {
    if crossed >= p.pixel_count() {
        CellModel { pixels: Seq::new(m.pixels.len(), |i: int| 0), shutter: 0, ..m }
    } else {
        let pixels = cleared_pixels(m, p, n, crossed);
        CellModel {
            pixels,
            shutter: if m.zoom > 0 && window_is_empty(pixels, p, n) {
                0
            } else {
                m.shutter
            },
            ..m
        }
    }
}

/// The cell after it has crossed `crossed` boundaries into sub-window `n`:
/// what expired is forgotten, then each boundary, up to a whole ring of them,
/// is one chance to zoom in.
pub open spec fn enter_sub_window(m: CellModel, p: MicroParams, n: int, crossed: int) -> CellModel {
    if crossed <= 0 {
        m
    } else {
        let tries = if crossed < p.pixel_count() {
            crossed as nat
        } else {
            p.pixel_count()
        };
        zoom_in_repeatedly(forget(m, p, n, crossed), p, tries)
    }
}

/// The pixels of the last `k` sub-windows up to `n`, added up. Sub-windows
/// before the stream began count nothing.
pub open spec fn live_pixels(m: CellModel, p: MicroParams, n: int, k: nat) -> int
    decreases k,
{
    if k == 0 {
        0
    } else {
        live_pixels(m, p, n, (k - 1) as nat) + if n - (k - 1) >= 0 {
            m.pixels[p.slot(n - (k - 1))]
        } else {
            0
        }
    }
}

/// The pixel of the partially expired sub-window `n - T`.
pub open spec fn oldest_pixel(m: CellModel, p: MicroParams, n: int) -> int {
    if n >= p.t {
        m.pixels[p.slot(n - p.t)]
    } else {
        0
    }
}

/// The items that the cell reports for the `T` sub-windows that lie wholly
/// inside the window ending in sub-window `n`.
pub open spec fn items_inside(m: CellModel, p: MicroParams, n: int) -> int {
    m.shutter + live_pixels(m, p, n, p.t as nat) * unit(p, m.zoom)
}

/// The items of the partially expired sub-window `n - T`.
pub open spec fn items_oldest(m: CellModel, p: MicroParams, n: int) -> int {
    oldest_pixel(m, p, n) * unit(p, m.zoom)
}

/// Pixel-wise sums of `a` scaled down `a_steps` times and `b` scaled down
/// `b_steps` times, slot by slot, the generator running through.
pub open spec fn scaled_sums(
    a: Seq<int>,
    a_steps: nat,
    b: Seq<int>,
    b_steps: nat,
    c: int,
    state: u64,
) -> (Seq<int>, u64)
    decreases a.len(),
{
    if a.len() == 0 {
        (Seq::empty(), state)
    } else {
        let (done, s) = scaled_sums(a.drop_last(), a_steps, b.drop_last(), b_steps, c, state);
        let (x, s) = scale_down(a.last(), a_steps, c, s);
        let (y, s) = scale_down(b.last(), b_steps, c, s);
        (done.push(x + y), s)
    }
}

/// Every value fits a byte.
pub open spec fn all_fit(values: Seq<int>) -> bool {
    forall|i: int| 0 <= i < values.len() ==> #[trigger] values[i] <= 255
}

/// Zooms sums out until each fits a byte; at the zoom cap they are cut off at
/// 255 instead. The result is the pixels, the zoom and the generator state.
pub open spec fn settle(sums: Seq<int>, p: MicroParams, zoom: int, state: u64) -> (
    Seq<int>,
    int,
    u64,
)
    decreases 256 - zoom,
{
    if all_fit(sums) {
        (sums, zoom, state)
    } else if zoom >= 255 || !can_zoom_out(p, zoom) {
        (
            Seq::new(
                sums.len(),
                |i: int|
                    if sums[i] < 255 {
                        sums[i]
                    } else {
                        255
                    },
            ),
            zoom,
            state,
        )
    } else {
        let (halved, s) = div_all(sums, p.c as int, state);
        settle(halved, p, zoom + 1, s)
    }
}

/// The larger of two zoom exponents.
pub open spec fn common_zoom(a: CellModel, b: CellModel) -> int {
    if a.zoom < b.zoom {
        b.zoom
    } else {
        a.zoom
    }
}

/// The pixel sums of a merge at the common zoom, before the shutters carry.
pub open spec fn merged_sums(a: CellModel, b: CellModel, p: MicroParams, state: u64) -> (
    Seq<int>,
    u64,
) {
    let z = common_zoom(a, b);
    scaled_sums(
        a.pixels,
        (z - a.zoom) as nat,
        b.pixels,
        (z - b.zoom) as nat,
        p.c as int,
        state,
    )
}

/// The whole units that the shutters of a merge carry into the current pixel,
/// as a 32-bit count.
pub open spec fn shutter_carry(a: CellModel, b: CellModel, p: MicroParams) -> int {
    ((a.shutter + b.shutter) / unit(p, common_zoom(a, b))) % 0x1_0000_0000
}

/// What the shutters of a merge leave below one unit, cut off at 32 bits.
pub open spec fn shutter_rest(a: CellModel, b: CellModel, p: MicroParams) -> int {
    let rest = (a.shutter + b.shutter) % unit(p, common_zoom(a, b));
    if rest < u32::MAX {
        rest
    } else {
        u32::MAX as int
    }
}

/// The current pixel of a merge, with what the shutters carry into it, is a
/// 32-bit sum.
pub open spec fn merge_fits(
    a: CellModel,
    b: CellModel,
    p: MicroParams,
    n: int,
    state: u64,
) -> bool {
    merged_sums(a, b, p, state).0[p.slot(n)] + shutter_carry(a, b, p) <= u32::MAX
}

/// The union of two cells that both sit at sub-window `n`.
pub open spec fn merge(a: CellModel, b: CellModel, p: MicroParams, n: int, state: u64) -> (
    CellModel,
    u64,
) {
    let (sums, s) = merged_sums(a, b, p, state);
    let current = p.slot(n);
    let carried = sums.update(current, sums[current] + shutter_carry(a, b, p));
    let (pixels, zoom, s) = settle(carried, p, common_zoom(a, b), s);
    (CellModel { pixels, zoom, shutter: shutter_rest(a, b, p) }, s)
}

} // verus!
