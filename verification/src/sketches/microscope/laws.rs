//! What the operations on a cell keep, whatever the cell has been through.

use super::cell::MicroParams;
use super::model;
use super::model::CellModel;
use vstd::arithmetic::div_mod::*;
use vstd::arithmetic::power::*;
use vstd::prelude::*;

verus! {

/// A generator that is not at zero never gets there, so it is never stuck.
pub proof fn law_generator_never_sticks(state: u64)
    requires
        state != 0,
    ensures
        model::next_state(state) != 0,
{
    assert(({
        let a = state ^ (state >> 12);
        let b = a ^ (a << 25);
        b ^ (b >> 27)
    }) != 0) by (bit_vector)
        requires
            state != 0,
    ;
}

/// The results of a rounded division over the first `k` draws, added up.
pub open spec fn sum_of_roundings(value: int, c: int, k: nat) -> int
    decreases k,
{
    if k == 0 {
        0
    } else {
        sum_of_roundings(value, c, (k - 1) as nat) + model::rounded(value, c, k - 1)
    }
}

/// An unbiased division is unbiased: over the `c` draws that are equally
/// likely, its results add up to `value`, so their mean is the exact quotient.
pub proof fn law_division_is_unbiased(value: int, c: int)
    requires
        value >= 0,
        c > 0,
    ensures
        sum_of_roundings(value, c, c as nat) == value,
{
    lemma_sum_of_roundings(value, c, c as nat);
    lemma_fundamental_div_mod(value, c);
    lemma_mod_bound(value, c);
}

proof fn lemma_sum_of_roundings(value: int, c: int, k: nat)
    requires
        value >= 0,
        c > 0,
        k <= c,
    ensures
        sum_of_roundings(value, c, k) == k * (value / c) + if k < value % c {
            k as int
        } else {
            value % c
        },
    decreases k,
{
    let q = value / c;
    lemma_mod_bound(value, c);
    if k == 0 {
        assert(0 * q == 0) by (nonlinear_arith);
    } else {
        lemma_sum_of_roundings(value, c, (k - 1) as nat);
        lemma_small_mod((k - 1) as nat, c as nat);
        assert((k - 1) * q + q == k * q) by (nonlinear_arith);
    }
}

/// The results of dividing `value` by `c` `steps` times, added up over every
/// sequence of draws.
pub open spec fn sum_over_sequences(value: int, c: int, steps: nat) -> int
    decreases steps, c + 1,
{
    if steps == 0 || c < 0 {
        value
    } else {
        sum_over_first_draws(value, c, steps, c as nat)
    }
}

/// The part of [`sum_over_sequences`] that starts with one of the first `k`
/// draws.
pub open spec fn sum_over_first_draws(value: int, c: int, steps: nat, k: nat) -> int
    decreases steps, k,
{
    if steps == 0 || k == 0 {
        0
    } else {
        sum_over_first_draws(value, c, steps, (k - 1) as nat) + sum_over_sequences(
            model::rounded(value, c, k - 1),
            c,
            (steps - 1) as nat,
        )
    }
}

/// Unbiased divisions stay unbiased however many follow one another: over the
/// `c^steps` sequences of draws that are equally likely, the results add up to
/// `value`, so their mean is the exact quotient.
pub proof fn law_repeated_division_is_unbiased(value: int, c: int, steps: nat)
    requires
        value >= 0,
        c > 0,
    ensures
        sum_over_sequences(value, c, steps) == value,
    decreases steps, c + 1,
{
    if steps > 0 {
        lemma_sum_over_first_draws(value, c, steps, c as nat);
        law_division_is_unbiased(value, c);
    }
}

proof fn lemma_sum_over_first_draws(value: int, c: int, steps: nat, k: nat)
    requires
        value >= 0,
        c > 0,
        steps > 0,
        k <= c,
    ensures
        sum_over_first_draws(value, c, steps, k) == sum_of_roundings(value, c, k),
    decreases steps, k,
{
    if k > 0 {
        lemma_sum_over_first_draws(value, c, steps, (k - 1) as nat);
        lemma_div_pos_is_pos(value, c);
        law_repeated_division_is_unbiased(
            model::rounded(value, c, k - 1),
            c,
            (steps - 1) as nat,
        );
    }
}

/// An exact multiple divides without a draw, and without rounding.
pub proof fn law_exact_multiple_takes_no_draw(quotient: int, c: int, state: u64)
    requires
        quotient >= 0,
        c > 0,
    ensures
        model::div_step(quotient * c, c, state) == (quotient, state),
{
    lemma_mod_multiples_basic(quotient, c);
    lemma_div_multiples_vanish(quotient, c);
    assert(quotient * c == c * quotient) by (nonlinear_arith);
}

/// Two of the `T + 2` consecutive sub-windows never share a slot. So the slot
/// that the next sub-window lands on is none of the `T + 1` live ones.
pub proof fn law_live_slots_are_distinct(p: MicroParams, n: int, back: int)
    requires
        0 < back < p.pixel_count(),
    ensures
        p.slot(n - back) != p.slot(n),
{
    let ring = p.t + 2;
    lemma_fundamental_div_mod(n, ring);
    lemma_fundamental_div_mod(n - back, ring);
    if p.slot(n - back) == p.slot(n) {
        let d = n / ring - (n - back) / ring;
        assert(back == ring * d) by (nonlinear_arith)
            requires
                n == ring * (n / ring) + n % ring,
                n - back == ring * ((n - back) / ring) + (n - back) % ring,
                n % ring == (n - back) % ring,
                d == n / ring - (n - back) / ring,
        ;
        assert(false) by (nonlinear_arith)
            requires
                back == ring * d,
                0 < back < ring,
        ;
    }
}

/// The slots of a ring are its indices.
pub(super) proof fn lemma_slot_in_range(p: MicroParams, n: int)
    ensures
        0 <= p.slot(n) < p.pixel_count(),
{
    lemma_mod_bound(n, p.t + 2);
}

/// A cell that a record can hold, whose unit fits a `u32` and whose shutter is
/// a remainder below one unit.
pub open spec fn sound(m: CellModel, p: MicroParams) -> bool {
    &&& model::representable(m, p)
    &&& model::unit(p, m.zoom) <= u32::MAX
    &&& model::below_one_unit(m, p)
}

/// An empty record is a sound cell, with nothing in it.
pub proof fn law_empty_record_is_sound(cell: Seq<u8>, p: MicroParams)
    requires
        p.wf(),
        p.field_bytes() <= cell.len(),
        forall|i: int| 0 <= i < cell.len() ==> #[trigger] cell[i] == 0,
    ensures
        sound(model::decode(cell, p), p),
        forall|n: int| #[trigger] model::items_inside(model::decode(cell, p), p, n) == 0,
        forall|n: int| #[trigger] model::items_oldest(model::decode(cell, p), p, n) == 0,
{
    let m = model::decode(cell, p);
    lemma_pow0(p.c as int);
    assert forall|n: int| #[trigger] model::items_inside(m, p, n) == 0 by {
        lemma_live_of_cleared(m, p, n, p.t as nat);
        assert(0 * model::unit(p, m.zoom) == 0) by (nonlinear_arith);
    }
    assert forall|n: int| #[trigger] model::items_oldest(m, p, n) == 0 by {
        lemma_slot_in_range(p, n - p.t);
        assert(0 * model::unit(p, m.zoom) == 0) by (nonlinear_arith);
    }
}

/// An insert keeps a cell sound: pixels and zoom stay in range, the unit never
/// outgrows a `u32`, and the shutter rolls over before it reaches a unit.
pub proof fn law_insert_keeps_cells_sound(m: CellModel, p: MicroParams, n: int, state: u64)
    requires
        p.wf(),
        sound(m, p),
    ensures
        sound(model::insert(m, p, n, state).0, p),
{
    lemma_slot_in_range(p, n);
    model::lemma_div_all_bounds(m.pixels, p.c as int, state);
    if model::can_zoom_out(p, m.zoom) {
        crate::arith::lemma_exponent_below_32(p.c as int, (m.zoom + 1) as nat);
    }
    let after = model::insert(m, p, n, state).0;
    lemma_pow_positive(p.c as int, after.zoom as nat);
    assert forall|i: int| 0 <= i < after.pixels.len() implies 0 <= #[trigger] after.pixels[i]
        <= 255 by {
        let divided = model::div_all(m.pixels, p.c as int, state).0[i];
        assert(0 <= m.pixels[i] <= 255);
    }
}

/// A boundary keeps a cell sound, and never zooms it out.
pub proof fn law_boundary_keeps_cells_sound(m: CellModel, p: MicroParams, n: int, crossed: int)
    requires
        p.wf(),
        sound(m, p),
    ensures
        sound(model::enter_sub_window(m, p, n, crossed), p),
        model::enter_sub_window(m, p, n, crossed).zoom <= m.zoom,
{
    if crossed > 0 {
        let cleared = model::forget(m, p, n, crossed);
        lemma_pow_positive(p.c as int, m.zoom as nat);
        assert(sound(cleared, p));
        let tries = if crossed < p.pixel_count() {
            crossed as nat
        } else {
            p.pixel_count()
        };
        lemma_zoom_in_repeatedly_sound(cleared, p, tries);
    }
}

/// A zoom-in keeps a cell sound: the shutter stays below the smaller unit.
pub proof fn law_zoom_in_keeps_cells_sound(m: CellModel, p: MicroParams)
    requires
        p.wf(),
        sound(m, p),
    ensures
        sound(model::zoom_in(m, p), p),
        model::zoom_in(m, p).zoom <= m.zoom,
{
    if model::can_zoom_in(m, p) {
        lemma_pow_increases(p.c as nat, (m.zoom - 1) as nat, m.zoom as nat);
        let after = model::zoom_in(m, p);
        lemma_pow_positive(p.c as int, after.zoom as nat);
        lemma_mod_bound(m.shutter, model::unit(p, after.zoom));
        assert forall|i: int| 0 <= i < after.pixels.len() implies 0 <= #[trigger] after.pixels[i]
            <= 255 by {
            let x = m.pixels[i];
            assert(x * p.c <= 255);
            assert(x * p.c >= 0) by (nonlinear_arith)
                requires
                    x >= 0,
                    p.c >= 0,
            ;
        }
    }
}

proof fn lemma_zoom_in_repeatedly_sound(m: CellModel, p: MicroParams, tries: nat)
    requires
        p.wf(),
        sound(m, p),
    ensures
        sound(model::zoom_in_repeatedly(m, p, tries), p),
        model::zoom_in_repeatedly(m, p, tries).zoom <= m.zoom,
    decreases tries,
{
    if tries > 0 {
        lemma_zoom_in_repeatedly_sound(m, p, (tries - 1) as nat);
        law_zoom_in_keeps_cells_sound(model::zoom_in_repeatedly(m, p, (tries - 1) as nat), p);
    }
}

/// A zoom-out followed by a zoom-in is lossless when every pixel is a
/// multiple of `c`, and takes no draw.
pub proof fn law_zoom_out_then_in_restores_multiples(m: CellModel, p: MicroParams, state: u64)
    requires
        p.wf(),
        sound(m, p),
        forall|i: int| 0 <= i < m.pixels.len() ==> #[trigger] m.pixels[i] % (p.c as int) == 0,
    ensures
        model::zoom_in(model::zoom_out(m, p, state).0, p) == m,
        model::zoom_out(m, p, state).1 == state,
{
    let c = p.c as int;
    lemma_div_all_of_multiples(m.pixels, c, state);
    let (out, s) = model::zoom_out(m, p, state);
    assert forall|i: int| 0 <= i < out.pixels.len() implies #[trigger] out.pixels[i] * p.c
        == m.pixels[i] by {
        lemma_fundamental_div_mod(m.pixels[i], c);
        let x = m.pixels[i];
        assert(c * (x / c) == (x / c) * c) by (nonlinear_arith);
    }
    assert(model::zoom_in(out, p).pixels =~= m.pixels);
    lemma_small_mod(m.shutter as nat, model::unit(p, m.zoom) as nat);
}

proof fn lemma_div_all_of_multiples(values: Seq<int>, c: int, state: u64)
    requires
        forall|i: int| 0 <= i < values.len() ==> #[trigger] values[i] % c == 0,
    ensures
        model::div_all(values, c, state) == (
            Seq::new(values.len(), |i: int| values[i] / c),
            state,
        ),
    decreases values.len(),
{
    let quotients = Seq::new(values.len(), |i: int| values[i] / c);
    if values.len() > 0 {
        assert forall|i: int| 0 <= i < values.drop_last().len() implies
            #[trigger] values.drop_last()[i] % c == 0 by {
            assert(values[i] % c == 0);
        }
        lemma_div_all_of_multiples(values.drop_last(), c, state);
        assert(values[values.len() - 1] % c == 0);
        assert(model::div_all(values, c, state).0 =~= quotients);
    } else {
        assert(model::div_all(values, c, state).0 =~= quotients);
    }
}

/// Pixels multiplied by `k` add up to `k` times as much.
proof fn lemma_live_scaled(m: CellModel, scaled: CellModel, p: MicroParams, n: int, k: nat, c: int)
    requires
        m.pixels.len() == p.pixel_count(),
        forall|i: int| 0 <= i < m.pixels.len() ==> #[trigger] scaled.pixels[i] == m.pixels[i] * c,
    ensures
        model::live_pixels(scaled, p, n, k) == model::live_pixels(m, p, n, k) * c,
    decreases k,
{
    if k > 0 {
        lemma_live_scaled(m, scaled, p, n, (k - 1) as nat, c);
        lemma_slot_in_range(p, n - (k - 1));
        let rest = model::live_pixels(m, p, n, (k - 1) as nat);
        let x = m.pixels[p.slot(n - (k - 1))];
        assert(rest * c + x * c == (rest + x) * c) by (nonlinear_arith);
    } else {
        assert(0 * c == 0) by (nonlinear_arith);
    }
}

/// A zoom-in restores resolution and nothing else: the items in the pixels
/// stay what they were, and the window gives up no more than the whole units
/// of the smaller size that the shutter held. A shutter below that size gives up
/// nothing.
pub proof fn law_zoom_in_keeps_items(m: CellModel, p: MicroParams, n: int)
    requires
        p.wf(),
        m.pixels.len() == p.pixel_count(),
        m.shutter >= 0,
    ensures
        ({
            let after = model::zoom_in(m, p);
            &&& model::items_inside(after, p, n) - after.shutter == model::items_inside(m, p, n)
                - m.shutter
            &&& model::items_oldest(after, p, n) == model::items_oldest(m, p, n)
            &&& m.shutter < model::unit(p, after.zoom) ==> model::items_inside(after, p, n)
                == model::items_inside(m, p, n)
        }),
{
    if model::can_zoom_in(m, p) {
        let after = model::zoom_in(m, p);
        let c = p.c as int;
        lemma_live_scaled(m, after, p, n, p.t as nat, c);
        crate::arith::lemma_pow_step(c, (m.zoom - 1) as nat);
        lemma_slot_in_range(p, n - p.t);
        let u = model::unit(p, after.zoom);
        let live = model::live_pixels(m, p, n, p.t as nat);
        let old = model::oldest_pixel(m, p, n);
        assert((live * c) * u == live * (c * u)) by (nonlinear_arith);
        assert((old * c) * u == old * (c * u)) by (nonlinear_arith);
        if n < p.t {
            assert(0 * u == 0 && 0 * (c * u) == 0) by (nonlinear_arith);
        }
        if m.shutter < u {
            lemma_small_mod(m.shutter as nat, u as nat);
        }
    }
}

/// A boundary keeps the window: what was wholly inside it is inside it still,
/// or is the partially expired sub-window now. The items in the pixels are all
/// kept. The shutter is kept too, unless the window has nothing left or the
/// unit shrinks below it, and then less than one unit is given up.
pub proof fn law_boundary_keeps_the_window(m: CellModel, p: MicroParams, n: int)
    requires
        p.wf(),
        n >= 0,
        sound(m, p),
    ensures
        ({
            let kept = model::forget(m, p, n + 1, 1).shutter;
            let after = model::enter_sub_window(m, p, n + 1, 1);
            let before = model::items_inside(m, p, n);
            let total = model::items_inside(after, p, n + 1) + model::items_oldest(
                after,
                p,
                n + 1,
            );
            &&& total - after.shutter == before - m.shutter
            &&& kept == m.shutter && m.shutter < model::unit(p, after.zoom) ==> total == before
            &&& before - model::unit(p, m.zoom) < total <= before
        }),
{
    let cleared = model::forget(m, p, n + 1, 1);
    let after = model::enter_sub_window(m, p, n + 1, 1);
    assert(after == model::zoom_in(cleared, p)) by {
        reveal_with_fuel(model::zoom_in_repeatedly, 2);
    }
    let t = p.t as int;
    let u = model::unit(p, m.zoom);
    lemma_pow0(p.c as int);
    lemma_pow_positive(p.c as int, after.zoom as nat);
    if model::can_zoom_in(cleared, p) {
        lemma_mod_bound(cleared.shutter, model::unit(p, after.zoom));
        lemma_mod_decreases(cleared.shutter as nat, model::unit(p, after.zoom) as nat);
    }
    law_zoom_in_keeps_items(cleared, p, n + 1);
    lemma_slot_in_range(p, n + 1);
    assert(p.slot((n + 1) - 0) == p.slot(n + 1));
    assert(model::entered(p, n + 1, 1, p.slot(n + 1)));
    lemma_live_shifted(cleared, p, n, t as nat);
    lemma_live_of_left(m, cleared, p, n, t as nat);
    let live = model::live_pixels(cleared, p, n + 1, t as nat);
    let oldest = model::oldest_pixel(cleared, p, n + 1);
    assert(n + 1 - t == (n + 1) - ((t + 1) - 1));
    assert(model::live_pixels(cleared, p, n + 1, (t + 1) as nat) == live + oldest);
    assert((live + oldest) * u == live * u + oldest * u) by (nonlinear_arith);
}

/// The last `k + 1` sub-windows up to `n + 1` are `n + 1` and the last `k` up
/// to `n`.
pub(super) proof fn lemma_live_shifted(m: CellModel, p: MicroParams, n: int, k: nat)
    requires
        n >= 0,
    ensures
        model::live_pixels(m, p, n + 1, k + 1) == m.pixels[p.slot(n + 1)] + model::live_pixels(
            m,
            p,
            n,
            k,
        ),
    decreases k,
{
    if k > 0 {
        lemma_live_shifted(m, p, n, (k - 1) as nat);
        assert(n + 1 - k == n - (k - 1));
    } else {
        reveal_with_fuel(model::live_pixels, 2);
        assert(n + 1 - (1 - 1) == n + 1);
    }
}

/// Entering `n + 1` leaves the sub-windows behind it as they are.
proof fn lemma_live_of_left(m: CellModel, cleared: CellModel, p: MicroParams, n: int, k: nat)
    requires
        n >= 0,
        m.pixels.len() == p.pixel_count(),
        cleared == model::forget(m, p, n + 1, 1),
        p.wf(),
        k <= p.t,
    ensures
        model::live_pixels(cleared, p, n, k) == model::live_pixels(m, p, n, k),
    decreases k,
{
    if k > 0 {
        lemma_live_of_left(m, cleared, p, n, (k - 1) as nat);
        let j = n - (k - 1);
        lemma_slot_in_range(p, j);
        law_live_slots_are_distinct(p, n + 1, k as int);
        assert((n + 1) - k == j);
        assert(!model::entered(p, n + 1, 1, p.slot(j)));
    }
}

/// Pixels that are all zero add up to zero.
pub(super) proof fn lemma_live_of_cleared(m: CellModel, p: MicroParams, n: int, k: nat)
    requires
        m.pixels.len() == p.pixel_count(),
        forall|i: int| 0 <= i < m.pixels.len() ==> #[trigger] m.pixels[i] == 0,
    ensures
        model::live_pixels(m, p, n, k) == 0,
    decreases k,
{
    if k > 0 {
        lemma_live_of_cleared(m, p, n, (k - 1) as nat);
        lemma_slot_in_range(p, n - (k - 1));
    }
}

/// Raising the pixel of sub-window `n` by `d` raises what is live by `d`.
pub(super) proof fn lemma_live_raised(m: CellModel, raised: CellModel, p: MicroParams, n: int, k: nat, d: int)
    requires
        n >= 0,
        m.pixels.len() == p.pixel_count(),
        k <= p.t,
        raised.pixels == m.pixels.update(p.slot(n), m.pixels[p.slot(n)] + d),
    ensures
        model::live_pixels(raised, p, n, k) == model::live_pixels(m, p, n, k) + if k == 0 {
            0
        } else {
            d
        },
    decreases k,
{
    if k > 0 {
        lemma_live_raised(m, raised, p, n, (k - 1) as nat, d);
        lemma_slot_in_range(p, n);
        lemma_slot_in_range(p, n - (k - 1));
        if k > 1 {
            law_live_slots_are_distinct(p, n, k - 1);
        }
    }
}

/// An insert counts exactly one item: while the shutter or the current pixel has
/// room, the window grows by one and the expired end of it does not change.
pub proof fn law_insert_counts_one_item(m: CellModel, p: MicroParams, n: int, state: u64)
    requires
        p.wf(),
        n >= 0,
        sound(m, p),
        m.shutter + 1 < model::unit(p, m.zoom) || m.pixels[p.slot(n)] < 255,
    ensures
        model::items_inside(model::insert(m, p, n, state).0, p, n) == model::items_inside(m, p, n)
            + 1,
        model::items_oldest(model::insert(m, p, n, state).0, p, n) == model::items_oldest(m, p, n),
        model::insert(m, p, n, state).0.zoom == m.zoom,
        model::insert(m, p, n, state).0.shutter < model::unit(p, m.zoom),
        model::insert(m, p, n, state).1 == state,
{
    let after = model::insert(m, p, n, state).0;
    let u = model::unit(p, m.zoom);
    lemma_pow_positive(p.c as int, m.zoom as nat);
    if m.shutter + 1 < u {
        lemma_live_same(m, after, p, n, p.t as nat);
    } else {
        lemma_live_raised(m, after, p, n, p.t as nat, 1);
        lemma_slot_in_range(p, n);
        if n >= p.t {
            lemma_slot_in_range(p, n - p.t);
            law_live_slots_are_distinct(p, n, p.t as int);
        }
        let live = model::live_pixels(m, p, n, p.t as nat);
        assert((live + 1) * u == live * u + u) by (nonlinear_arith);
    }
}

/// An insert that finds the current pixel full zooms out, and is off by less
/// than one of the new units per pixel: the window grows by one item, give or
/// take what the `T` divisions and the last step, now of a new unit, round. At
/// the zoom cap nothing is counted any more, and the shutter starts over.
pub proof fn law_insert_past_a_full_pixel(m: CellModel, p: MicroParams, n: int, state: u64)
    requires
        p.wf(),
        n >= 0,
        sound(m, p),
        m.shutter + 1 >= model::unit(p, m.zoom),
        m.pixels[p.slot(n)] == 255,
    ensures
        ({
            let after = model::insert(m, p, n, state).0;
            let wider = model::unit(p, m.zoom + 1);
            let off = model::items_inside(after, p, n) - (model::items_inside(m, p, n) + 1);
            let off_oldest = model::items_oldest(after, p, n) - model::items_oldest(m, p, n);
            if model::can_zoom_out(p, m.zoom) {
                &&& after.zoom == m.zoom + 1
                &&& -(p.t * wider) < off < (p.t + 1) * wider
                &&& -wider < off_oldest < wider
            } else {
                &&& after == (CellModel { shutter: 0, ..m })
                &&& off == -(m.shutter + 1)
                &&& off_oldest == 0
            }
        }),
{
    let after = model::insert(m, p, n, state).0;
    let c = p.c as int;
    let u = model::unit(p, m.zoom);
    let wider = model::unit(p, m.zoom + 1);
    crate::arith::lemma_pow_step(c, m.zoom as nat);
    lemma_pow_positive(c, m.zoom as nat);
    lemma_slot_in_range(p, n);
    if model::can_zoom_out(p, m.zoom) {
        let out = model::zoom_out(m, p, state).0;
        model::lemma_div_all_bounds(m.pixels, c, state);
        lemma_live_raised(out, after, p, n, p.t as nat, 1);
        assert forall|i: int| 0 <= i < m.pixels.len() implies -c < (#[trigger] out.pixels[i]) * c
            - m.pixels[i] < c by {
            lemma_divided_is_close(m.pixels, c, state, i);
        }
        lemma_live_divided(m, out, p, n, p.t as nat, c);
        let live = model::live_pixels(m, p, n, p.t as nat);
        let divided = model::live_pixels(out, p, n, p.t as nat);
        let t = p.t as int;
        let gap = divided * c - live;
        assert(-(t * c) < gap < t * c);
        assert((divided + 1) * wider - (u + live * u) == gap * u + wider - u) by (nonlinear_arith)
            requires
                wider == c * u,
                gap == divided * c - live,
        ;
        assert(-(t * wider) < gap * u < t * wider) by (nonlinear_arith)
            requires
                -(t * c) < gap < t * c,
                wider == c * u,
                u >= 1,
        ;
        assert(u <= wider) by (nonlinear_arith)
            requires
                wider == c * u,
                c >= 2,
                u >= 1,
        ;
        assert((t + 1) * wider == t * wider + wider) by (nonlinear_arith);
        if n >= p.t {
            lemma_slot_in_range(p, n - p.t);
            law_live_slots_are_distinct(p, n, p.t as int);
            let x = m.pixels[p.slot(n - p.t)];
            let y = out.pixels[p.slot(n - p.t)];
            assert(-c < y * c - x < c);
            assert(-wider < y * wider - x * u < wider) by (nonlinear_arith)
                requires
                    wider == c * u,
                    u >= 1,
                    -c < y * c - x < c,
            ;
        } else {
            assert(0 * wider == 0 && 0 * u == 0) by (nonlinear_arith);
        }
    } else {
        lemma_live_same(m, after, p, n, p.t as nat);
    }
}

/// A divided pixel stands for the value it was divided from, to within less
/// than one of its units.
pub(super) proof fn lemma_divided_is_close(values: Seq<int>, c: int, state: u64, i: int)
    requires
        c >= 2,
        forall|j: int| 0 <= j < values.len() ==> #[trigger] values[j] >= 0,
        0 <= i < values.len(),
    ensures
        -c < model::div_all(values, c, state).0[i] * c - values[i] < c,
    decreases values.len(),
{
    model::lemma_div_all_bounds(values, c, state);
    let (done, s) = model::div_all(values.drop_last(), c, state);
    model::lemma_div_all_bounds(values.drop_last(), c, state);
    if i < values.len() - 1 {
        lemma_divided_is_close(values.drop_last(), c, state, i);
        assert(model::div_all(values, c, state).0[i] == done[i]);
    } else {
        let x = values[i];
        let q = model::div_step(x, c, s).0;
        assert(model::div_all(values, c, state).0[i] == q);
        lemma_fundamental_div_mod(x, c);
        lemma_mod_bound(x, c);
        let k = x / c;
        assert(k * c == c * k && (k + 1) * c == c * k + c) by (nonlinear_arith);
    }
}

/// Pixels that are each within less than `c` add up to within less than `c`
/// for each of them.
proof fn lemma_live_divided(m: CellModel, out: CellModel, p: MicroParams, n: int, k: nat, c: int)
    requires
        m.pixels.len() == p.pixel_count(),
        c >= 2,
        forall|i: int|
            0 <= i < m.pixels.len() ==> -c < (#[trigger] out.pixels[i]) * c - m.pixels[i] < c,
    ensures
        k == 0 ==> model::live_pixels(out, p, n, k) == 0 && model::live_pixels(m, p, n, k) == 0,
        k > 0 ==> -(k * c) < model::live_pixels(out, p, n, k) * c - model::live_pixels(m, p, n, k)
            < k * c,
    decreases k,
{
    if k > 0 {
        lemma_live_divided(m, out, p, n, (k - 1) as nat, c);
        lemma_slot_in_range(p, n - (k - 1));
        let rest = model::live_pixels(out, p, n, (k - 1) as nat);
        let y = if n - (k - 1) >= 0 {
            out.pixels[p.slot(n - (k - 1))]
        } else {
            0
        };
        assert((rest + y) * c == rest * c + y * c) by (nonlinear_arith);
        assert(k * c == (k - 1) * c + c) by (nonlinear_arith);
        assert(0 * c == 0) by (nonlinear_arith);
    }
}

/// What is live depends on the pixels alone.
pub(super) proof fn lemma_live_same(a: CellModel, b: CellModel, p: MicroParams, n: int, k: nat)
    requires
        a.pixels == b.pixels,
    ensures
        model::live_pixels(a, p, n, k) == model::live_pixels(b, p, n, k),
    decreases k,
{
    if k > 0 {
        lemma_live_same(a, b, p, n, (k - 1) as nat);
    }
}

/// The cell after `k` items in sub-window `n`.
pub open spec fn insert_times(m: CellModel, p: MicroParams, n: int, k: nat, state: u64) -> (
    CellModel,
    u64,
)
    decreases k,
{
    if k == 0 {
        (m, state)
    } else {
        let (before, s) = insert_times(m, p, n, (k - 1) as nat, state);
        model::insert(before, p, n, s)
    }
}

/// A cell is exact before its first zoom: while the current pixel does not
/// overflow, `k` items raise the window by `k`.
pub proof fn law_exact_before_the_first_zoom(
    m: CellModel,
    p: MicroParams,
    n: int,
    k: nat,
    state: u64,
)
    requires
        p.wf(),
        n >= 0,
        sound(m, p),
        m.zoom == 0,
        m.pixels[p.slot(n)] + k <= 255,
    ensures
        insert_times(m, p, n, k, state).0 == (CellModel {
            pixels: m.pixels.update(p.slot(n), m.pixels[p.slot(n)] + k),
            ..m
        }),
        insert_times(m, p, n, k, state).1 == state,
        model::items_inside(insert_times(m, p, n, k, state).0, p, n) == model::items_inside(
            m,
            p,
            n,
        ) + k,
    decreases k,
{
    lemma_slot_in_range(p, n);
    lemma_pow0(p.c as int);
    if k == 0 {
        assert(m.pixels =~= m.pixels.update(p.slot(n), m.pixels[p.slot(n)]));
    } else {
        law_exact_before_the_first_zoom(m, p, n, (k - 1) as nat, state);
        let before = insert_times(m, p, n, (k - 1) as nat, state).0;
        assert(before.pixels[p.slot(n)] == m.pixels[p.slot(n)] + (k - 1));
        law_insert_counts_one_item(before, p, n, state);
        assert(before.pixels.update(p.slot(n), before.pixels[p.slot(n)] + 1)
            =~= m.pixels.update(p.slot(n), m.pixels[p.slot(n)] + k));
    }
}

/// A cell that has counted nothing yet.
pub open spec fn empty_cell(p: MicroParams) -> CellModel {
    CellModel { pixels: Seq::new(p.pixel_count(), |i: int| 0), zoom: 0, shutter: 0 }
}

/// The cell after a stream with `counts[n]` items in sub-window `n`, that
/// crosses one boundary at a time.
pub open spec fn after_stream(p: MicroParams, counts: Seq<nat>, state: u64) -> (CellModel, u64)
    decreases counts.len(),
{
    if counts.len() == 0 {
        (empty_cell(p), state)
    } else {
        let n = counts.len() - 1;
        let (before, s) = after_stream(p, counts.drop_last(), state);
        let entered = if n == 0 {
            before
        } else {
            model::enter_sub_window(before, p, n, 1)
        };
        insert_times(entered, p, n, counts.last(), s)
    }
}

/// The items of the last `k` sub-windows of a stream.
pub open spec fn recent_items(counts: Seq<nat>, k: nat) -> nat
    decreases k,
{
    if k == 0 {
        0
    } else if k <= counts.len() {
        recent_items(counts, (k - 1) as nat) + counts[counts.len() - k]
    } else {
        recent_items(counts, (k - 1) as nat)
    }
}

/// While no sub-window overflows its pixel, the cell has not zoomed and the
/// count of the window is exact: every sub-window wholly inside it is counted
/// item by item, and so is the partially expired one.
pub proof fn law_exact_while_no_pixel_overflows(p: MicroParams, counts: Seq<nat>, state: u64)
    requires
        p.wf(),
        counts.len() > 0,
        forall|i: int| 0 <= i < counts.len() ==> #[trigger] counts[i] <= 255,
    ensures
        ({
            let (m, s) = after_stream(p, counts, state);
            let n = counts.len() - 1;
            &&& m.zoom == 0
            &&& s == state
            &&& model::items_inside(m, p, n) == recent_items(counts, p.t as nat)
            &&& model::items_oldest(m, p, n) == if n >= p.t {
                counts[n - p.t]
            } else {
                0
            }
        }),
{
    lemma_stream_fills_pixels(p, counts, state);
    let m = after_stream(p, counts, state).0;
    lemma_live_of_stream(m, p, counts, p.t as nat);
    lemma_pow0(p.c as int);
    let n = counts.len() - 1;
    if n >= p.t {
        assert(m.pixels[p.slot(n - p.t)] == counts[n - p.t]);
    }
}

/// Before the first zoom the one-sided policies hold what they promise: with
/// `still` items of the partially expired sub-window left in the window,
/// counting none of it never overestimates, and counting all of it never
/// underestimates.
pub proof fn law_one_sided_policies_bracket_the_count(
    p: MicroParams,
    counts: Seq<nat>,
    state: u64,
    still: nat,
)
    requires
        p.wf(),
        counts.len() > 0,
        forall|i: int| 0 <= i < counts.len() ==> #[trigger] counts[i] <= 255,
        still <= if counts.len() > p.t {
            counts[counts.len() - 1 - p.t]
        } else {
            0
        },
    ensures
        ({
            let m = after_stream(p, counts, state).0;
            let n = counts.len() - 1;
            let truth = recent_items(counts, p.t as nat) + still;
            &&& model::items_inside(m, p, n) <= truth
            &&& truth <= model::items_inside(m, p, n) + model::items_oldest(m, p, n)
        }),
{
    law_exact_while_no_pixel_overflows(p, counts, state);
}

proof fn lemma_stream_fills_pixels(p: MicroParams, counts: Seq<nat>, state: u64)
    requires
        p.wf(),
        forall|i: int| 0 <= i < counts.len() ==> #[trigger] counts[i] <= 255,
    ensures
        ({
            let (m, s) = after_stream(p, counts, state);
            &&& sound(m, p)
            &&& m.zoom == 0
            &&& m.shutter == 0
            &&& s == state
            &&& forall|j: int|
                0 <= j < counts.len() && counts.len() - 1 - p.t <= j
                    ==> #[trigger] m.pixels[p.slot(j)] == counts[j]
            &&& counts.len() == 0 ==> m == empty_cell(p)
        }),
    decreases counts.len(),
{
    lemma_pow0(p.c as int);
    if counts.len() > 0 {
        let n = counts.len() - 1;
        let earlier = counts.drop_last();
        assert forall|i: int| 0 <= i < earlier.len() implies #[trigger] earlier[i] <= 255 by {
            assert(counts[i] <= 255);
        }
        lemma_stream_fills_pixels(p, earlier, state);
        let before = after_stream(p, earlier, state).0;
        let entered = if n == 0 {
            before
        } else {
            model::enter_sub_window(before, p, n, 1)
        };
        lemma_slot_in_range(p, n);
        if n > 0 {
            law_boundary_keeps_cells_sound(before, p, n, 1);
            reveal_with_fuel(model::zoom_in_repeatedly, 2);
            assert(p.slot(n - 0) == p.slot(n));
            assert(model::entered(p, n, 1, p.slot(n)));
        }
        assert(entered.pixels[p.slot(n)] == 0);
        assert(counts.last() <= 255) by {
            assert(counts[n] <= 255);
        }
        law_exact_before_the_first_zoom(entered, p, n, counts.last(), state);
        let m = after_stream(p, counts, state).0;
        assert forall|j: int| 0 <= j < counts.len() && n - p.t <= j implies
            #[trigger] m.pixels[p.slot(j)] == counts[j] by {
            lemma_slot_in_range(p, j);
            if j < n {
                law_live_slots_are_distinct(p, n, n - j);
                assert(p.slot(n - (n - j)) == p.slot(j));
                assert(earlier[j] == counts[j]);
                assert(before.pixels[p.slot(j)] == earlier[j]);
                assert(!model::entered(p, n, 1, p.slot(j)));
            }
        }
    }
}

proof fn lemma_live_of_stream(m: CellModel, p: MicroParams, counts: Seq<nat>, k: nat)
    requires
        counts.len() > 0,
        k <= p.t,
        forall|j: int|
            0 <= j < counts.len() && counts.len() - 1 - p.t <= j
                ==> #[trigger] m.pixels[p.slot(j)] == counts[j],
    ensures
        model::live_pixels(m, p, counts.len() - 1, k) == recent_items(counts, k),
    decreases k,
{
    if k > 0 {
        lemma_live_of_stream(m, p, counts, (k - 1) as nat);
        let j = counts.len() - k;
        if j >= 0 {
            assert(m.pixels[p.slot(j)] == counts[j]);
            assert(counts.len() - 1 - (k - 1) == j);
        }
    }
}

/// The cell after it has idled through the boundaries of the `k` sub-windows
/// behind `n`, one at a time.
pub open spec fn idle_through(m: CellModel, p: MicroParams, n: int, k: nat) -> CellModel
    decreases k,
{
    if k == 0 {
        m
    } else {
        model::enter_sub_window(idle_through(m, p, n, (k - 1) as nat), p, n + k, 1)
    }
}

/// Everything ages out: an idle cell is emptied by the boundaries alone. After
/// `T + 1` of them nothing of an earlier burst is left in the window.
pub proof fn law_idle_cell_forgets(m: CellModel, p: MicroParams, n: int, k: nat)
    requires
        p.wf(),
        sound(m, p),
        n >= 0,
        k >= p.t + 1,
    ensures
        model::items_inside(idle_through(m, p, n, k), p, n + k) == 0,
        model::items_oldest(idle_through(m, p, n, k), p, n + k) == 0,
{
    let after = idle_through(m, p, n, k);
    lemma_idle_clears(m, p, n, k);
    lemma_live_of_entered(after, p, n, k, p.t as nat);
    let u = model::unit(p, after.zoom);
    assert(0 * u == 0) by (nonlinear_arith);
    assert(after.pixels[p.slot(n + (k - p.t))] == 0);
}

/// An idle cell becomes the cell that it was before its first item: a whole
/// ring of boundaries clears it, and each one from then on gives back one step
/// of the zoom.
pub proof fn law_idle_cell_becomes_empty(m: CellModel, p: MicroParams, n: int, k: nat)
    requires
        p.wf(),
        sound(m, p),
        k >= p.t + 2,
        k >= p.t + 1 + m.zoom,
    ensures
        idle_through(m, p, n, k) == empty_cell(p),
{
    lemma_idle_zooms_in(m, p, n, k);
    assert(idle_through(m, p, n, k).pixels =~= empty_cell(p).pixels);
}

proof fn lemma_idle_zooms_in(m: CellModel, p: MicroParams, n: int, k: nat)
    requires
        p.wf(),
        sound(m, p),
        k >= p.t + 1,
    ensures
        ({
            let after = idle_through(m, p, n, k);
            &&& sound(after, p)
            &&& after.shutter == 0
            &&& after.zoom == 0 || after.zoom <= m.zoom - (k - (p.t + 1))
            &&& k >= p.t + 2 ==> forall|i: int|
                0 <= i < after.pixels.len() ==> #[trigger] after.pixels[i] == 0
        }),
    decreases k,
{
    lemma_idle_clears(m, p, n, k);
    if k >= p.t + 2 {
        let before = idle_through(m, p, n, (k - 1) as nat);
        let after = idle_through(m, p, n, k);
        lemma_idle_zooms_in(m, p, n, (k - 1) as nat);
        lemma_idle_clears(m, p, n, (k - 1) as nat);
        let cleared = model::forget(before, p, n + k, 1);
        assert(after == model::zoom_in(cleared, p)) by {
            reveal_with_fuel(model::zoom_in_repeatedly, 2);
        }
        assert forall|i: int| 0 <= i < cleared.pixels.len() implies #[trigger] cleared.pixels[i]
            == 0 by {
            let j = lemma_slot_of_some_step(p, n, i);
            if j < k {
                assert(before.pixels[p.slot(n + j)] == 0);
            } else {
                assert(p.slot((n + k) - 0) == i);
                assert(model::entered(p, n + k, 1, i));
            }
        }
        assert(0 * p.c == 0) by (nonlinear_arith);
        assert forall|i: int| 0 <= i < after.pixels.len() implies #[trigger] after.pixels[i]
            == 0 by {
            assert(cleared.pixels[i] == 0);
        }
        assert(forall|i: int| 0 <= i < cleared.pixels.len() ==> #[trigger] cleared.pixels[i] * p.c
            <= 255);
    } else {
        lemma_idle_never_zooms_out(m, p, n, k);
    }
}

proof fn lemma_idle_never_zooms_out(m: CellModel, p: MicroParams, n: int, k: nat)
    requires
        p.wf(),
        sound(m, p),
    ensures
        idle_through(m, p, n, k).zoom <= m.zoom,
    decreases k,
{
    if k > 0 {
        lemma_idle_never_zooms_out(m, p, n, (k - 1) as nat);
        lemma_idle_clears(m, p, n, (k - 1) as nat);
        law_boundary_keeps_cells_sound(idle_through(m, p, n, (k - 1) as nat), p, n + k, 1);
    }
}

/// Every slot belongs to one of the `T + 2` sub-windows behind `n`.
proof fn lemma_slot_of_some_step(p: MicroParams, n: int, i: int) -> (j: int)
    requires
        0 <= i < p.pixel_count(),
    ensures
        1 <= j <= p.t + 2,
        p.slot(n + j) == i,
{
    let d = p.t + 2;
    let offset = i - n - 1;
    lemma_mod_bound(offset, d);
    lemma_add_mod_noop_right(n + 1, offset, d);
    lemma_small_mod(i as nat, d as nat);
    assert((n + 1) + offset == i);
    offset % d + 1
}

/// The slots entered while idling are empty.
proof fn lemma_idle_clears(m: CellModel, p: MicroParams, n: int, k: nat)
    requires
        p.wf(),
        sound(m, p),
    ensures
        sound(idle_through(m, p, n, k), p),
        k >= p.t + 1 ==> idle_through(m, p, n, k).shutter == 0,
        forall|j: int|
            1 <= j <= k ==> #[trigger] idle_through(m, p, n, k).pixels[p.slot(n + j)] == 0,
    decreases k,
{
    if k > 0 {
        let before = idle_through(m, p, n, (k - 1) as nat);
        let after = idle_through(m, p, n, k);
        lemma_idle_clears(m, p, n, (k - 1) as nat);
        law_boundary_keeps_cells_sound(before, p, n + k, 1);
        let cleared = model::forget(before, p, n + k, 1);
        lemma_pow0(p.c as int);
        if before.zoom > 0 {
            lemma_pow_positive(p.c as int, (before.zoom - 1) as nat);
            lemma_small_mod(0, model::unit(p, before.zoom - 1) as nat);
        }
        if k >= p.t + 1 {
            assert(cleared.shutter == 0) by {
                assert forall|i: int|
                    0 <= i < cleared.pixels.len() && i != p.slot(n + k + 1) implies
                    #[trigger] cleared.pixels[i] == 0 by {
                    lemma_idle_leaves_the_spare_slot(m, p, n, k, i);
                }
                assert(cleared.pixels == model::cleared_pixels(before, p, n + k, 1));
                assert(model::window_is_empty(cleared.pixels, p, n + k));
            }
        }
        assert(model::zoom_in_repeatedly(cleared, p, 1) == model::zoom_in(cleared, p)) by {
            reveal_with_fuel(model::zoom_in_repeatedly, 2);
        }
        assert forall|j: int| 1 <= j <= k implies #[trigger] after.pixels[p.slot(n + j)] == 0 by {
            let i = p.slot(n + j);
            lemma_slot_in_range(p, n + j);
            if j == k {
                assert(p.slot((n + k) - 0) == i);
                assert(model::entered(p, n + k, 1, i));
            } else {
                assert(before.pixels[p.slot(n + j)] == 0);
            }
            assert(cleared.pixels[i] == 0);
            assert(0 * p.c == 0) by (nonlinear_arith);
        }
    }
}

/// After `T + 1` idle boundaries the spare slot alone can hold a count.
proof fn lemma_idle_leaves_the_spare_slot(
    m: CellModel,
    p: MicroParams,
    n: int,
    k: nat,
    i: int,
)
    requires
        p.wf(),
        k >= p.t + 1,
        idle_through(m, p, n, (k - 1) as nat).pixels.len() == p.pixel_count(),
        forall|j: int|
            1 <= j <= k - 1 ==> #[trigger] idle_through(m, p, n, (k - 1) as nat).pixels[p.slot(
                n + j,
            )] == 0,
        0 <= i < p.pixel_count(),
        i != p.slot(n + k + 1),
    ensures
        model::cleared_pixels(idle_through(m, p, n, (k - 1) as nat), p, n + k, 1)[i] == 0,
{
    let start = n + k - (p.t + 1);
    let j = lemma_slot_of_some_step(p, start, i);
    assert(start + (p.t + 2) == n + k + 1);
    assert(j <= p.t + 1);
    let step = start + j - n;
    assert(n + step == start + j);
    if step < k {
        assert(idle_through(m, p, n, (k - 1) as nat).pixels[p.slot(n + step)] == 0);
    } else {
        assert(p.slot((n + k) - 0) == i);
        assert(model::entered(p, n + k, 1, i));
    }
}

/// The pixels of sub-windows that were just entered add up to zero.
proof fn lemma_live_of_entered(m: CellModel, p: MicroParams, n: int, k: nat, back: nat)
    requires
        back <= k,
        forall|j: int| 1 <= j <= k ==> #[trigger] m.pixels[p.slot(n + j)] == 0,
    ensures
        model::live_pixels(m, p, n + k, back) == 0,
    decreases back,
{
    if back > 0 {
        lemma_live_of_entered(m, p, n, k, (back - 1) as nat);
        let j = k - (back - 1);
        assert(m.pixels[p.slot(n + j)] == 0);
        assert(n + k - (back - 1) == n + j);
    }
}

/// A jump over the whole ring empties the cell, shutter included.
pub proof fn law_long_jump_empties(m: CellModel, p: MicroParams, n: int, crossed: int, at: int)
    requires
        p.wf(),
        sound(m, p),
        crossed >= p.pixel_count(),
    ensures
        model::items_inside(model::enter_sub_window(m, p, n, crossed), p, at) == 0,
        model::items_oldest(model::enter_sub_window(m, p, n, crossed), p, at) == 0,
{
    let cleared = model::forget(m, p, n, crossed);
    lemma_zoom_in_of_cleared(cleared, p, p.pixel_count());
    let after = model::enter_sub_window(m, p, n, crossed);
    lemma_live_of_cleared(after, p, at, p.t as nat);
    lemma_slot_in_range(p, at - p.t);
    let u = model::unit(p, after.zoom);
    assert(0 * u == 0) by (nonlinear_arith);
}

proof fn lemma_zoom_in_of_cleared(m: CellModel, p: MicroParams, tries: nat)
    requires
        p.wf(),
        m.pixels.len() == p.pixel_count(),
        m.shutter == 0,
        forall|i: int| 0 <= i < m.pixels.len() ==> #[trigger] m.pixels[i] == 0,
    ensures
        ({
            let after = model::zoom_in_repeatedly(m, p, tries);
            &&& after.shutter == 0
            &&& after.pixels.len() == p.pixel_count()
            &&& forall|i: int|
                0 <= i < after.pixels.len() ==> #[trigger] after.pixels[i] == 0
        }),
    decreases tries,
{
    if tries > 0 {
        lemma_zoom_in_of_cleared(m, p, (tries - 1) as nat);
        assert(0 * p.c == 0) by (nonlinear_arith);
        let before = model::zoom_in_repeatedly(m, p, (tries - 1) as nat);
        if before.zoom > 0 {
            lemma_pow_positive(p.c as int, (before.zoom - 1) as nat);
            lemma_small_mod(0, model::unit(p, before.zoom - 1) as nat);
        }
    }
}

/// The items that a window reports, times `whole`, when the part `part` of
/// `whole` of the expired sub-window is charged; a part outside `0 ..= whole`
/// is taken as the nearer end of that range.
pub open spec fn charged(m: CellModel, p: MicroParams, n: int, part: int, whole: int) -> int {
    let clamped = if part < 0 {
        0
    } else if part > whole {
        whole
    } else {
        part
    };
    model::items_inside(m, p, n) * whole + model::items_oldest(m, p, n) * clamped
}

/// The one-sided policies bracket every fraction of the expired sub-window:
/// counting none of it never reports more, and counting all of it never less.
/// A fraction at or beyond an end counts as that end, and before sub-window
/// `T`, with nothing expired yet, all of them agree.
pub proof fn law_strategies_bracket(m: CellModel, p: MicroParams, n: int, part: int, whole: int)
    requires
        p.wf(),
        sound(m, p),
        whole > 0,
    ensures
        ({
            let under = model::items_inside(m, p, n) * whole;
            let over = (model::items_inside(m, p, n) + model::items_oldest(m, p, n)) * whole;
            &&& under <= charged(m, p, n, part, whole) <= over
            &&& part <= 0 ==> charged(m, p, n, part, whole) == under
            &&& part >= whole ==> charged(m, p, n, part, whole) == over
            &&& n < p.t ==> under == over
        }),
{
    lemma_pow_positive(p.c as int, m.zoom as nat);
    lemma_slot_in_range(p, n - p.t);
    let inside = model::items_inside(m, p, n);
    let oldest = model::items_oldest(m, p, n);
    assert(oldest >= 0) by (nonlinear_arith)
        requires
            oldest == model::oldest_pixel(m, p, n) * model::unit(p, m.zoom),
            model::oldest_pixel(m, p, n) >= 0,
            model::unit(p, m.zoom) > 0,
    ;
    let clamped = if part < 0 {
        0
    } else if part > whole {
        whole
    } else {
        part
    };
    assert(0 <= oldest * clamped <= oldest * whole) by (nonlinear_arith)
        requires
            oldest >= 0,
            0 <= clamped <= whole,
    ;
    assert((inside + oldest) * whole == inside * whole + oldest * whole) by (nonlinear_arith);
    assert(oldest * 0 == 0) by (nonlinear_arith);
    if n < p.t {
        assert(oldest == 0) by (nonlinear_arith)
            requires
                oldest == 0 * model::unit(p, m.zoom),
        ;
        assert(0 * whole == 0) by (nonlinear_arith);
    }
}

/// Scaled sums are no more than the plain ones.
pub(super) proof fn lemma_scaled_sums_bounds(
    a: Seq<int>,
    a_steps: nat,
    b: Seq<int>,
    b_steps: nat,
    c: int,
    state: u64,
)
    requires
        a.len() == b.len(),
        c >= 2,
        forall|i: int| 0 <= i < a.len() ==> 0 <= #[trigger] a[i],
        forall|i: int| 0 <= i < b.len() ==> 0 <= #[trigger] b[i],
    ensures
        ({
            let sums = model::scaled_sums(a, a_steps, b, b_steps, c, state).0;
            &&& sums.len() == a.len()
            &&& forall|i: int| 0 <= i < a.len() ==> 0 <= #[trigger] sums[i] <= a[i] + b[i]
        }),
    decreases a.len(),
{
    if a.len() > 0 {
        lemma_scaled_sums_bounds(a.drop_last(), a_steps, b.drop_last(), b_steps, c, state);
        let (done, s) = model::scaled_sums(
            a.drop_last(),
            a_steps,
            b.drop_last(),
            b_steps,
            c,
            state,
        );
        model::lemma_scale_down_bounds(a.last(), a_steps, c, s);
        let (x, s) = model::scale_down(a.last(), a_steps, c, s);
        model::lemma_scale_down_bounds(b.last(), b_steps, c, s);
        let sums = model::scaled_sums(a, a_steps, b, b_steps, c, state).0;
        assert forall|i: int| 0 <= i < a.len() implies 0 <= #[trigger] sums[i] <= a[i] + b[i] by {
            if i < a.len() - 1 {
                assert(sums[i] == done[i]);
            }
        }
    }
}

/// A multiple of `c^steps` is scaled down without a draw.
proof fn lemma_scale_multiple_down(value: int, steps: nat, c: int, state: u64)
    requires
        c >= 2,
        value % pow(c, steps) == 0,
    ensures
        model::scale_down(value, steps, c, state) == (value / pow(c, steps), state),
    decreases steps,
{
    lemma_pow0(c);
    if steps > 0 {
        let less = pow(c, (steps - 1) as nat);
        let all = pow(c, steps);
        crate::arith::lemma_pow_step(c, (steps - 1) as nat);
        lemma_pow_positive(c, (steps - 1) as nat);
        lemma_pow_positive(c, steps);
        let q = value / all;
        lemma_fundamental_div_mod(value, all);
        assert(value == (q * c) * less) by (nonlinear_arith)
            requires
                value == all * q,
                all == c * less,
        ;
        lemma_mod_multiples_basic(q * c, less);
        lemma_div_multiples_vanish(q * c, less);
        assert((q * c) * less == less * (q * c)) by (nonlinear_arith);
        lemma_scale_multiple_down(value, (steps - 1) as nat, c, state);
        lemma_mod_multiples_basic(q, c);
        lemma_div_multiples_vanish(q, c);
        assert(q * c == c * q) by (nonlinear_arith);
    }
}

/// Every pixel is a multiple of the units that `to` is coarser by.
pub open spec fn scales_evenly(m: CellModel, p: MicroParams, to: int) -> bool {
    forall|i: int|
        0 <= i < m.pixels.len() ==> #[trigger] m.pixels[i] % pow(p.c as int, (to - m.zoom) as nat)
            == 0
}

/// The pixels of a cell in units of a coarser zoom.
pub open spec fn coarser(m: CellModel, p: MicroParams, to: int) -> CellModel {
    CellModel {
        pixels: Seq::new(
            m.pixels.len(),
            |i: int| m.pixels[i] / pow(p.c as int, (to - m.zoom) as nat),
        ),
        zoom: to,
        ..m
    }
}

/// Sums of multiples are added without a draw.
proof fn lemma_even_sums(a: Seq<int>, a_steps: nat, b: Seq<int>, b_steps: nat, c: int, state: u64)
    requires
        a.len() == b.len(),
        c >= 2,
        forall|i: int| 0 <= i < a.len() ==> #[trigger] a[i] % pow(c, a_steps) == 0,
        forall|i: int| 0 <= i < b.len() ==> #[trigger] b[i] % pow(c, b_steps) == 0,
    ensures
        model::scaled_sums(a, a_steps, b, b_steps, c, state) == (
            Seq::new(a.len(), |i: int| a[i] / pow(c, a_steps) + b[i] / pow(c, b_steps)),
            state,
        ),
    decreases a.len(),
{
    if a.len() > 0 {
        assert forall|i: int| 0 <= i < a.drop_last().len() implies #[trigger] a.drop_last()[i]
            % pow(c, a_steps) == 0 by {
            assert(a[i] % pow(c, a_steps) == 0);
        }
        assert forall|i: int| 0 <= i < b.drop_last().len() implies #[trigger] b.drop_last()[i]
            % pow(c, b_steps) == 0 by {
            assert(b[i] % pow(c, b_steps) == 0);
        }
        lemma_even_sums(a.drop_last(), a_steps, b.drop_last(), b_steps, c, state);
        assert(a[a.len() - 1] % pow(c, a_steps) == 0);
        assert(b[b.len() - 1] % pow(c, b_steps) == 0);
        lemma_scale_multiple_down(a.last(), a_steps, c, state);
        lemma_scale_multiple_down(b.last(), b_steps, c, state);
    }
    assert(model::scaled_sums(a, a_steps, b, b_steps, c, state).0 =~= Seq::new(
        a.len(),
        |i: int| a[i] / pow(c, a_steps) + b[i] / pow(c, b_steps),
    ));
}

/// Reading a cell at a coarser zoom that its pixels scale to evenly keeps the
/// items that it reports.
proof fn lemma_coarser_keeps_items(m: CellModel, p: MicroParams, to: int, n: int)
    requires
        p.wf(),
        m.pixels.len() == p.pixel_count(),
        0 <= m.zoom <= to,
        scales_evenly(m, p, to),
    ensures
        model::live_pixels(coarser(m, p, to), p, n, p.t as nat) * model::unit(p, to)
            == model::live_pixels(m, p, n, p.t as nat) * model::unit(p, m.zoom),
        model::oldest_pixel(coarser(m, p, to), p, n) * model::unit(p, to) == model::oldest_pixel(
            m,
            p,
            n,
        ) * model::unit(p, m.zoom),
{
    let c = p.c as int;
    let steps = (to - m.zoom) as nat;
    let factor = pow(c, steps);
    let up = coarser(m, p, to);
    lemma_pow_positive(c, steps);
    lemma_pow_adds(c, m.zoom as nat, steps);
    let fine = model::unit(p, m.zoom);
    let coarse = model::unit(p, to);
    assert forall|i: int| 0 <= i < up.pixels.len() implies #[trigger] m.pixels[i]
        == up.pixels[i] * factor by {
        assert(m.pixels[i] % factor == 0);
        lemma_fundamental_div_mod(m.pixels[i], factor);
        let q = m.pixels[i] / factor;
        assert(factor * q == q * factor) by (nonlinear_arith);
    }
    lemma_live_scaled(up, m, p, n, p.t as nat, factor);
    let live = model::live_pixels(up, p, n, p.t as nat);
    assert(live * coarse == (live * factor) * fine) by (nonlinear_arith)
        requires
            coarse == fine * factor,
    ;
    lemma_slot_in_range(p, n - p.t);
    let oldest = model::oldest_pixel(up, p, n);
    if n >= p.t {
        assert(m.pixels[p.slot(n - p.t)] == up.pixels[p.slot(n - p.t)] * factor);
    } else {
        assert(0 * factor == 0) by (nonlinear_arith);
    }
    assert(oldest * coarse == (oldest * factor) * fine) by (nonlinear_arith)
        requires
            coarse == fine * factor,
    ;
}

/// Settled sums fit their pixels, at a zoom whose unit fits a `u32`.
pub(super) proof fn lemma_settle_bounds(sums: Seq<int>, p: MicroParams, zoom: int, state: u64)
    requires
        p.wf(),
        0 <= zoom <= 255,
        model::unit(p, zoom) <= u32::MAX,
        forall|i: int| 0 <= i < sums.len() ==> 0 <= #[trigger] sums[i],
    ensures
        ({
            let (pixels, z, _) = model::settle(sums, p, zoom, state);
            &&& pixels.len() == sums.len()
            &&& forall|i: int| 0 <= i < pixels.len() ==> 0 <= #[trigger] pixels[i] <= 255
            &&& zoom <= z <= 255
            &&& model::unit(p, z) <= u32::MAX
        }),
    decreases 256 - zoom,
{
    if !model::all_fit(sums) && zoom < 255 && model::can_zoom_out(p, zoom) {
        model::lemma_div_all_bounds(sums, p.c as int, state);
        let (divided, s) = model::div_all(sums, p.c as int, state);
        assert forall|i: int| 0 <= i < divided.len() implies 0 <= #[trigger] divided[i] by {
            assert(0 <= sums[i]);
        }
        lemma_settle_bounds(divided, p, zoom + 1, s);
    }
}

/// Two sound cells can be merged: their shutters, below one unit each, carry at
/// most one unit.
pub proof fn law_merge_is_defined(
    a: CellModel,
    b: CellModel,
    p: MicroParams,
    n: int,
    state: u64,
)
    requires
        p.wf(),
        sound(a, p),
        sound(b, p),
    ensures
        model::merge_fits(a, b, p, n, state),
        0 <= model::shutter_carry(a, b, p) <= 1,
        model::unit(p, model::common_zoom(a, b)) <= u32::MAX,
{
    let z = model::common_zoom(a, b);
    lemma_slot_in_range(p, n);
    lemma_scaled_sums_bounds(
        a.pixels,
        (z - a.zoom) as nat,
        b.pixels,
        (z - b.zoom) as nat,
        p.c as int,
        state,
    );
    lemma_pow_positive(p.c as int, z as nat);
    lemma_pow_increases(p.c as nat, a.zoom as nat, z as nat);
    lemma_pow_increases(p.c as nat, b.zoom as nat, z as nat);
    let total = a.shutter + b.shutter;
    let u = model::unit(p, z);
    assert(0 <= total / u <= 1) by (nonlinear_arith)
        requires
            0 <= total < 2 * u,
            u >= 1,
    ;
    lemma_small_mod((total / u) as nat, 0x1_0000_0000);
    let i = p.slot(n);
    assert(a.pixels[i] <= 255 && b.pixels[i] <= 255);
}

/// A merge keeps a cell sound, and never zooms below either side.
pub proof fn law_merge_keeps_cells_sound(
    a: CellModel,
    b: CellModel,
    p: MicroParams,
    n: int,
    state: u64,
)
    requires
        p.wf(),
        sound(a, p),
        sound(b, p),
    ensures
        sound(model::merge(a, b, p, n, state).0, p),
        model::merge(a, b, p, n, state).0.zoom >= a.zoom,
        model::merge(a, b, p, n, state).0.zoom >= b.zoom,
{
    let z = model::common_zoom(a, b);
    lemma_slot_in_range(p, n);
    lemma_scaled_sums_bounds(
        a.pixels,
        (z - a.zoom) as nat,
        b.pixels,
        (z - b.zoom) as nat,
        p.c as int,
        state,
    );
    let (sums, s) = model::merged_sums(a, b, p, state);
    lemma_pow_positive(p.c as int, z as nat);
    lemma_mod_bound(a.shutter + b.shutter, model::unit(p, z));
    let quotient = (a.shutter + b.shutter) / model::unit(p, z);
    lemma_mod_bound(quotient, 0x1_0000_0000);
    let current = p.slot(n);
    let carried = sums.update(current, sums[current] + model::shutter_carry(a, b, p));
    lemma_settle_bounds(carried, p, z, s);
    let settled = model::settle(carried, p, z, s).1;
    lemma_pow_increases(p.c as nat, z as nat, settled as nat);
}

/// A merge preserves the estimate of the union: where the pixels of both sides
/// scale evenly to the coarser zoom, as they do at one zoom, and every sum fits
/// its pixel, the items of the two windows add up exactly and no draw is taken.
pub proof fn law_merge_adds_items(
    a: CellModel,
    b: CellModel,
    p: MicroParams,
    n: int,
    state: u64,
)
    requires
        p.wf(),
        n >= 0,
        sound(a, p),
        sound(b, p),
        scales_evenly(a, p, model::common_zoom(a, b)),
        scales_evenly(b, p, model::common_zoom(a, b)),
        ({
            let z = model::common_zoom(a, b);
            forall|i: int|
                0 <= i < p.pixel_count() ==> #[trigger] coarser(a, p, z).pixels[i] + coarser(
                    b,
                    p,
                    z,
                ).pixels[i] + if i == p.slot(n) {
                    (a.shutter + b.shutter) / model::unit(p, z)
                } else {
                    0
                } <= 255
        }),
    ensures
        ({
            let (merged, s) = model::merge(a, b, p, n, state);
            &&& s == state
            &&& merged.zoom == model::common_zoom(a, b)
            &&& model::items_inside(merged, p, n) == model::items_inside(a, p, n)
                + model::items_inside(b, p, n)
            &&& model::items_oldest(merged, p, n) == model::items_oldest(a, p, n)
                + model::items_oldest(b, p, n)
        }),
{
    let c = p.c as int;
    let z = model::common_zoom(a, b);
    let u = model::unit(p, z);
    let total = a.shutter + b.shutter;
    let current = p.slot(n);
    let (x, y) = (coarser(a, p, z), coarser(b, p, z));
    lemma_slot_in_range(p, n);
    lemma_pow_positive(c, z as nat);
    lemma_even_sums(a.pixels, (z - a.zoom) as nat, b.pixels, (z - b.zoom) as nat, c, state);
    let sums = model::merged_sums(a, b, p, state).0;
    assert(sums.len() == p.pixel_count());
    lemma_div_pos_is_pos(total, u);
    lemma_mod_bound(total, u);
    let carry = total / u;
    assert(a.pixels[current] >= 0 && b.pixels[current] >= 0);
    lemma_pow_positive(c, (z - a.zoom) as nat);
    lemma_pow_positive(c, (z - b.zoom) as nat);
    lemma_div_pos_is_pos(a.pixels[current], pow(c, (z - a.zoom) as nat));
    lemma_div_pos_is_pos(b.pixels[current], pow(c, (z - b.zoom) as nat));
    assert(x.pixels[current] + y.pixels[current] + carry <= 255);
    lemma_small_mod(carry as nat, 0x1_0000_0000);
    let carried = sums.update(current, sums[current] + carry);
    assert(model::all_fit(carried)) by {
        assert forall|i: int| 0 <= i < carried.len() implies #[trigger] carried[i] <= 255 by {
            assert(x.pixels[i] + y.pixels[i] + (if i == current {
                carry
            } else {
                0
            }) <= 255);
        }
    }
    let merged = model::merge(a, b, p, n, state).0;
    assert(merged.pixels == carried);
    let plain = CellModel { pixels: sums, ..x };
    lemma_live_raised(plain, merged, p, n, p.t as nat, carry);
    lemma_live_added(x, y, plain, p, n, p.t as nat);
    lemma_coarser_keeps_items(a, p, z, n);
    lemma_coarser_keeps_items(b, p, z, n);
    if n >= p.t {
        lemma_slot_in_range(p, n - p.t);
        law_live_slots_are_distinct(p, n, p.t as int);
    }
    lemma_fundamental_div_mod(total, u);
    let i = model::live_pixels(x, p, n, p.t as nat);
    let j = model::live_pixels(y, p, n, p.t as nat);
    assert((i + j + carry) * u == i * u + j * u + u * carry) by (nonlinear_arith);
    let v = model::oldest_pixel(x, p, n);
    let w = model::oldest_pixel(y, p, n);
    assert((v + w) * u == v * u + w * u) by (nonlinear_arith);
}

/// Pixels that are added slot by slot add up.
proof fn lemma_live_added(
    a: CellModel,
    b: CellModel,
    sum: CellModel,
    p: MicroParams,
    n: int,
    k: nat,
)
    requires
        a.pixels.len() == p.pixel_count(),
        forall|i: int|
            0 <= i < a.pixels.len() ==> #[trigger] sum.pixels[i] == a.pixels[i] + b.pixels[i],
    ensures
        model::live_pixels(sum, p, n, k) == model::live_pixels(a, p, n, k) + model::live_pixels(
            b,
            p,
            n,
            k,
        ),
    decreases k,
{
    if k > 0 {
        lemma_live_added(a, b, sum, p, n, (k - 1) as nat);
        lemma_slot_in_range(p, n - (k - 1));
    }
}

/// A merge does not depend on which side it merges into: only the finer side
/// is rescaled, so the draws are taken in one order either way.
pub proof fn law_merge_commutes(
    a: CellModel,
    b: CellModel,
    p: MicroParams,
    n: int,
    state: u64,
)
    requires
        p.wf(),
        a.pixels.len() == b.pixels.len(),
    ensures
        model::merge(a, b, p, n, state) == model::merge(b, a, p, n, state),
{
    let z = model::common_zoom(a, b);
    lemma_sums_commute(
        a.pixels,
        (z - a.zoom) as nat,
        b.pixels,
        (z - b.zoom) as nat,
        p.c as int,
        state,
    );
}

/// Sums of which one side is not scaled do not depend on the order.
proof fn lemma_sums_commute(
    a: Seq<int>,
    a_steps: nat,
    b: Seq<int>,
    b_steps: nat,
    c: int,
    state: u64,
)
    requires
        a.len() == b.len(),
        a_steps == 0 || b_steps == 0,
    ensures
        model::scaled_sums(a, a_steps, b, b_steps, c, state) == model::scaled_sums(
            b,
            b_steps,
            a,
            a_steps,
            c,
            state,
        ),
    decreases a.len(),
{
    if a.len() > 0 {
        lemma_sums_commute(a.drop_last(), a_steps, b.drop_last(), b_steps, c, state);
    }
}

} // verus!
