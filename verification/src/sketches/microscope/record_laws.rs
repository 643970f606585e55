//! What the fields of a cell stand for, and what an insert and a zoom change in
//! them.

use super::cell::MicroParams;
use super::laws;
use super::model;
use super::model::CellModel;
use vstd::arithmetic::div_mod::*;
use vstd::arithmetic::power::*;
use vstd::prelude::*;

verus! {

/// A unit is one item at first, and grows by a factor `c` with each zoom-out.
pub proof fn law_unit_grows_by_the_zoom_base(p: MicroParams, zoom: int)
    requires
        zoom >= 0,
    ensures
        model::unit(p, 0) == 1,
        model::unit(p, zoom + 1) == p.c * model::unit(p, zoom),
{
    lemma_pow0(p.c as int);
    crate::arith::lemma_pow_step(p.c as int, zoom as nat);
}

/// A cell can zoom out exactly while a unit of one more factor `c` fits a
/// `u32`.
pub proof fn law_zoom_cap(p: MicroParams, zoom: int)
    requires
        zoom >= 0,
    ensures
        model::can_zoom_out(p, zoom) <==> p.c * pow(p.c as int, zoom as nat) <= u32::MAX,
{
    crate::arith::lemma_pow_step(p.c as int, zoom as nat);
}

/// A record holds its fields one behind the other: `T + 2` pixels of a byte
/// each, the zoom, and the shutter in four bytes, least significant first. What
/// is behind them up to a multiple of four bytes is padding, and less than four
/// bytes.
pub proof fn law_record_layout(cell: Seq<u8>, p: MicroParams)
    ensures
        ({
            let m = model::decode(cell, p);
            &&& m.pixels.len() == p.t + 2
            &&& forall|i: int| 0 <= i < p.t + 2 ==> #[trigger] m.pixels[i] == cell[i]
            &&& m.zoom == cell[p.t + 2]
            &&& 0 <= m.shutter <= u32::MAX
            &&& m.shutter % 0x100 == cell[p.t + 3]
            &&& m.shutter / 0x100 % 0x100 == cell[p.t + 4]
            &&& m.shutter / 0x1_0000 % 0x100 == cell[p.t + 5]
            &&& m.shutter / 0x100_0000 == cell[p.t + 6]
        }),
        p.field_bytes() == p.t + 7,
        p.t + 7 <= p.record_len() < p.t + 11,
        p.record_len() % 4 == 0,
{
    let at = p.t + 3;
    lemma_four_bytes(cell[at], cell[at + 1], cell[at + 2], cell[at + 3]);
}

/// The bytes of a number are its digits to the base 256.
proof fn lemma_four_bytes(a: u8, b: u8, c: u8, d: u8)
    ensures
        ({
            let n = a + 0x100 * b + 0x1_0000 * c + 0x100_0000 * d;
            &&& 0 <= n <= u32::MAX
            &&& n % 0x100 == a
            &&& n / 0x100 % 0x100 == b
            &&& n / 0x1_0000 % 0x100 == c
            &&& n / 0x100_0000 == d
        }),
{
    let n = a + 0x100 * b + 0x1_0000 * c + 0x100_0000 * d;
    assert(n / 0x100 == b + 0x100 * c + 0x1_0000 * d);
    assert(n / 0x1_0000 == c + 0x100 * d);
}

/// What keeps the padding keeps the length and every byte behind the fields.
pub proof fn law_padding_is_behind_the_fields(before: Seq<u8>, after: Seq<u8>, p: MicroParams)
    requires
        model::same_padding(before, after, p),
    ensures
        after.len() == before.len(),
        forall|i: int| p.t + 7 <= i < before.len() ==> #[trigger] after[i] == before[i],
{
}

/// The first `T + 2` sub-windows take the slots in order, and then they come
/// round again.
pub proof fn law_slots_go_round(p: MicroParams, n: int)
    ensures
        0 <= n < p.t + 2 ==> p.slot(n) == n,
        p.slot(n + (p.t + 2)) == p.slot(n),
        0 <= p.slot(n) < p.t + 2,
{
    let ring = p.t + 2;
    if 0 <= n < ring {
        lemma_small_mod(n as nat, ring as nat);
    }
    lemma_mod_add_multiples_vanish(n, ring);
    assert(ring + n == n + ring);
    lemma_mod_bound(n, ring);
}

/// A division rounds by its draw alone: of the `c` remainders that a draw can
/// leave, as many round up as the division leaves over.
pub proof fn law_division_rounds_by_its_draw(value: int, c: int, state: u64)
    requires
        value >= 0,
        c >= 1,
    ensures
        model::div_step(value, c, state).0 == (value + (c - 1) - model::draw(state) % c) / c,
        model::div_step(value, c, state).1 == if value % c == 0 {
            state
        } else {
            model::next_state(state)
        },
{
    let r = model::draw(state) % c;
    let (q, k) = (value / c, value % c);
    lemma_fundamental_div_mod(value, c);
    lemma_mod_bound(value, c);
    lemma_mod_bound(model::draw(state), c);
    let rest = k + (c - 1) - r;
    if r < k {
        assert((q + 1) * c == c * q + c) by (nonlinear_arith);
        lemma_fundamental_div_mod_converse(value + (c - 1) - r, c, q + 1, rest - c);
    } else {
        assert(q * c == c * q) by (nonlinear_arith);
        lemma_fundamental_div_mod_converse(value + (c - 1) - r, c, q, rest);
    }
}

/// No two states draw the same number, nor go on to the same state.
pub proof fn law_states_draw_apart(a: u64, b: u64)
    requires
        a != b,
    ensures
        model::next_state(a) != model::next_state(b),
        model::draw(a) != model::draw(b),
{
    let d = a ^ b;
    assert(d != 0) by (bit_vector)
        requires
            d == a ^ b,
            a != b,
    ;
    laws::law_generator_never_sticks(d);
    let (x, y) = (model::next_state(a), model::next_state(b));
    let z = model::next_state(d);
    lemma_next_state_is_linear(a, b);
    assert(x ^ y == z);
    assert(x != y) by (bit_vector)
        requires
            x ^ y == z,
            z != 0,
    ;
    let k: int = 0x2545_F491_4F6C_DD1D;
    if model::draw(a) == model::draw(b) {
        crate::arith::lemma_odd_product_apart(x as int, y as int, k);
    }
}

proof fn lemma_next_state_is_linear(a: u64, b: u64)
    ensures
        model::next_state(a) ^ model::next_state(b) == model::next_state(a ^ b),
{
    let d = a ^ b;
    let (a1, b1, d1) = (a ^ (a >> 12), b ^ (b >> 12), d ^ (d >> 12));
    assert(a1 ^ b1 == d1) by (bit_vector)
        requires
            d == a ^ b,
            a1 == a ^ (a >> 12),
            b1 == b ^ (b >> 12),
            d1 == d ^ (d >> 12),
    ;
    let (a2, b2, d2) = (a1 ^ (a1 << 25), b1 ^ (b1 << 25), d1 ^ (d1 << 25));
    assert(a2 ^ b2 == d2) by (bit_vector)
        requires
            d1 == a1 ^ b1,
            a2 == a1 ^ (a1 << 25),
            b2 == b1 ^ (b1 << 25),
            d2 == d1 ^ (d1 << 25),
    ;
    let (a3, b3, d3) = (a2 ^ (a2 >> 27), b2 ^ (b2 >> 27), d2 ^ (d2 >> 27));
    assert(a3 ^ b3 == d3) by (bit_vector)
        requires
            d2 == a2 ^ b2,
            a3 == a2 ^ (a2 >> 27),
            b3 == b2 ^ (b2 >> 27),
            d3 == d2 ^ (d2 >> 27),
    ;
}

/// A zoom-out rounds every pixel to within less than one of the new units, and
/// changes nothing else but the zoom.
pub proof fn law_zoom_out_rounds_every_pixel(m: CellModel, p: MicroParams, state: u64, i: int)
    requires
        p.wf(),
        model::representable(m, p),
        0 <= i < p.t + 2,
    ensures
        ({
            let out = model::zoom_out(m, p, state).0;
            &&& out.zoom == m.zoom + 1
            &&& out.shutter == m.shutter
            &&& out.pixels.len() == p.t + 2
            &&& 0 <= out.pixels[i] <= 255
            &&& -p.c < out.pixels[i] * p.c - m.pixels[i] < p.c
            &&& model::zoom_out(m, p, state).1 == model::div_all(m.pixels, p.c as int, state).1
            &&& out.pixels == model::div_all(m.pixels, p.c as int, state).0
        }),
{
    model::lemma_div_all_bounds(m.pixels, p.c as int, state);
    laws::lemma_divided_is_close(m.pixels, p.c as int, state, i);
    assert(0 <= m.pixels[i] <= 255);
    assert(model::div_all(m.pixels, p.c as int, state).0[i] <= m.pixels[i]);
}

/// Pixels are divided in turn, each by a division of its own that draws where
/// the one before left off. So one more pixel does not change those before it.
pub proof fn law_pixels_are_divided_in_turn(values: Seq<int>, value: int, c: int, state: u64)
    ensures
        model::div_all(Seq::empty(), c, state) == (Seq::<int>::empty(), state),
        ({
            let (done, s) = model::div_all(values, c, state);
            let (all, t) = model::div_all(values.push(value), c, state);
            &&& all == done.push(model::div_step(value, c, s).0)
            &&& t == model::div_step(value, c, s).1
        }),
{
    assert(values.push(value).drop_last() =~= values);
}

/// Scaling down by one step more is one more division of what the steps before
/// left.
pub proof fn law_scaling_divides_step_by_step(value: int, steps: nat, c: int, state: u64)
    ensures
        model::scale_down(value, 0, c, state) == (value, state),
        ({
            let (scaled, s) = model::scale_down(value, steps, c, state);
            model::scale_down(value, steps + 1, c, state) == model::div_step(scaled, c, s)
        }),
{
}

/// A zoom-in happens exactly where the zoom is not zero and every pixel has room
/// for it. Every pixel is then multiplied by `c`, and the shutter gives up whole
/// units of the smaller size; otherwise nothing changes.
pub proof fn law_zoom_in_where_there_is_room(m: CellModel, p: MicroParams)
    requires
        p.wf(),
        model::representable(m, p),
    ensures
        ({
            let after = model::zoom_in(m, p);
            let room = m.zoom > 0 && forall|i: int|
                0 <= i < p.t + 2 ==> #[trigger] m.pixels[i] * p.c <= 255;
            let unit = pow(p.c as int, (m.zoom - 1) as nat);
            &&& room == model::can_zoom_in(m, p)
            &&& room ==> {
                &&& after.zoom == m.zoom - 1
                &&& after.pixels.len() == p.t + 2
                &&& forall|i: int|
                    0 <= i < p.t + 2 ==> #[trigger] after.pixels[i] == m.pixels[i] * p.c
                &&& 0 <= after.shutter < unit
                &&& (m.shutter - after.shutter) % unit == 0
            }
            &&& !room ==> after == m
        }),
{
    let unit = pow(p.c as int, (m.zoom - 1) as nat);
    if model::can_zoom_in(m, p) {
        lemma_pow_positive(p.c as int, (m.zoom - 1) as nat);
        lemma_fundamental_div_mod(m.shutter, unit);
        lemma_mod_bound(m.shutter, unit);
        let q = m.shutter / unit;
        assert(unit * q == q * unit) by (nonlinear_arith);
        lemma_mod_multiples_basic(q, unit);
    }
}

/// What an insert changes: the shutter, while it is below one unit; then the
/// pixel of its sub-window, by one. A pixel that is full makes the cell zoom out
/// first, if it can; otherwise it stays full. No other pixel is touched but by
/// that zoom-out.
pub proof fn law_insert_changes_one_pixel(
    m: CellModel,
    p: MicroParams,
    n: int,
    state: u64,
    i: int,
)
    requires
        p.wf(),
        model::representable(m, p),
        0 <= i < p.t + 2,
    ensures
        ({
            let after = model::insert(m, p, n, state).0;
            let unit = pow(p.c as int, m.zoom as nat);
            let rolls = m.shutter + 1 >= unit;
            let full = m.pixels[p.slot(n)] == 255;
            let zooms = rolls && full && p.c * unit <= u32::MAX;
            let here = if i == p.slot(n) {
                1int
            } else {
                0
            };
            &&& after.pixels.len() == p.t + 2
            &&& after.zoom == m.zoom + if zooms {
                1int
            } else {
                0
            }
            &&& after.shutter == if rolls {
                0
            } else {
                (m.shutter + 1) % 0x1_0000_0000
            }
            &&& !rolls || (full && !zooms) ==> after.pixels[i] == m.pixels[i]
            &&& rolls && !full ==> after.pixels[i] == m.pixels[i] + here
            &&& zooms ==> -p.c < (after.pixels[i] - here) * p.c - m.pixels[i] < p.c
            &&& zooms ==> after.pixels[i] - here == model::zoom_out(m, p, state).0.pixels[i]
            &&& model::insert(m, p, n, state).1 == if zooms {
                model::zoom_out(m, p, state).1
            } else {
                state
            }
        }),
{
    laws::lemma_slot_in_range(p, n);
    crate::arith::lemma_pow_step(p.c as int, m.zoom as nat);
    law_zoom_out_rounds_every_pixel(m, p, state, i);
    assert(m.pixels[p.slot(n)] <= 255);
    model::lemma_div_all_bounds(m.pixels, p.c as int, state);
}

/// The window counts every sub-window in it once, at its unit: raising the pixel
/// of a sub-window raises what is reported of it, and nothing else. So a cell
/// whose pixels are zero reports its shutter.
pub proof fn law_window_counts_every_sub_window_once(
    m: CellModel,
    p: MicroParams,
    n: int,
    back: int,
    value: int,
)
    requires
        p.wf(),
        m.pixels.len() == p.t + 2,
        m.zoom >= 0,
        0 <= back <= p.t + 1,
        back <= n,
    ensures
        ({
            let i = p.slot(n - back);
            let raised = CellModel { pixels: m.pixels.update(i, value), ..m };
            let items = (value - m.pixels[i]) * pow(p.c as int, m.zoom as nat);
            &&& model::items_inside(raised, p, n) == model::items_inside(m, p, n) + if back < p.t {
                items
            } else {
                0
            }
            &&& model::items_oldest(raised, p, n) == model::items_oldest(m, p, n) + if back == p.t {
                items
            } else {
                0
            }
        }),
        (forall|i: int| 0 <= i < m.pixels.len() ==> #[trigger] m.pixels[i] == 0)
            ==> model::items_inside(m, p, n) == m.shutter && model::items_oldest(m, p, n) == 0,
{
    let i = p.slot(n - back);
    let raised = CellModel { pixels: m.pixels.update(i, value), ..m };
    let u = pow(p.c as int, m.zoom as nat);
    let d = value - m.pixels[i];
    lemma_live_of_one(m, raised, p, n, back, d, p.t as nat);
    laws::lemma_slot_in_range(p, n - back);
    let live = model::live_pixels(m, p, n, p.t as nat);
    assert((live + d) * u == live * u + d * u) by (nonlinear_arith);
    assert(0 * u == 0) by (nonlinear_arith);
    if n >= p.t {
        laws::lemma_slot_in_range(p, n - p.t);
        if back < p.t {
            laws::law_live_slots_are_distinct(p, n - back, p.t - back);
            assert(n - back - (p.t - back) == n - p.t);
        } else if back > p.t {
            laws::law_live_slots_are_distinct(p, n - p.t, back - p.t);
            assert(n - p.t - (back - p.t) == n - back);
        }
        let x = m.pixels[p.slot(n - p.t)];
        assert((x + d) * u == x * u + d * u) by (nonlinear_arith);
    }
    if forall|i: int| 0 <= i < m.pixels.len() ==> #[trigger] m.pixels[i] == 0 {
        laws::lemma_live_of_cleared(m, p, n, p.t as nat);
        laws::lemma_slot_in_range(p, n - p.t);
    }
}

proof fn lemma_live_of_one(
    m: CellModel,
    raised: CellModel,
    p: MicroParams,
    n: int,
    back: int,
    d: int,
    k: nat,
)
    requires
        m.pixels.len() == p.t + 2,
        0 <= back <= p.t + 1,
        back <= n,
        k <= p.t,
        raised.pixels == m.pixels.update(p.slot(n - back), m.pixels[p.slot(n - back)] + d),
    ensures
        model::live_pixels(raised, p, n, k) == model::live_pixels(m, p, n, k) + if back < k {
            d
        } else {
            0
        },
    decreases k,
{
    if k > 0 {
        lemma_live_of_one(m, raised, p, n, back, d, (k - 1) as nat);
        let j = k - 1;
        laws::lemma_slot_in_range(p, n - back);
        laws::lemma_slot_in_range(p, n - j);
        if j < back {
            laws::law_live_slots_are_distinct(p, n - j, back - j);
            assert(n - j - (back - j) == n - back);
        } else if back < j {
            laws::law_live_slots_are_distinct(p, n - back, j - back);
            assert(n - back - (j - back) == n - j);
        }
    }
}

} // verus!
