//! What a cell keeps, and what it forgets, when it crosses sub-window
//! boundaries.

use super::cell::MicroParams;
use super::laws;
use super::laws::sound;
use super::model;
use super::model::CellModel;
use vstd::arithmetic::div_mod::*;
use vstd::arithmetic::power::*;
use vstd::prelude::*;

verus! {

/// Zooming in keeps what each pixel stands for, goes as far as it is asked to
/// or as far as the pixels allow, and leaves of the shutter what is below the
/// unit that it ends at.
proof fn lemma_zoomed_in(m: CellModel, p: MicroParams, tries: nat)
    requires
        p.wf(),
        m.pixels.len() == p.pixel_count(),
        forall|i: int| 0 <= i < m.pixels.len() ==> 0 <= #[trigger] m.pixels[i],
        m.zoom >= 0,
    ensures
        ({
            let after = model::zoom_in_repeatedly(m, p, tries);
            let (u, v) = (pow(p.c as int, m.zoom as nat), pow(p.c as int, after.zoom as nat));
            &&& after.pixels.len() == p.pixel_count()
            &&& 0 <= after.zoom <= m.zoom
            &&& after.zoom >= m.zoom - tries
            &&& after.zoom > m.zoom - tries && after.zoom > 0 ==> exists|i: int|
                0 <= i < after.pixels.len() && #[trigger] after.pixels[i] * p.c > 255
            &&& forall|i: int|
                0 <= i < after.pixels.len() ==> 0 <= #[trigger] after.pixels[i] && after.pixels[i]
                    * v == m.pixels[i] * u
            &&& 0 <= m.shutter < u ==> after.shutter == m.shutter % v
        }),
    decreases tries,
{
    let c = p.c as int;
    let u = pow(c, m.zoom as nat);
    if tries == 0 {
        if 0 <= m.shutter < u {
            lemma_small_mod(m.shutter as nat, u as nat);
        }
    } else {
        lemma_zoomed_in(m, p, (tries - 1) as nat);
        let before = model::zoom_in_repeatedly(m, p, (tries - 1) as nat);
        let after = model::zoom_in_repeatedly(m, p, tries);
        if model::can_zoom_in(before, p) {
            let (w, v) = (pow(c, before.zoom as nat), pow(c, after.zoom as nat));
            crate::arith::lemma_pow_step(c, after.zoom as nat);
            lemma_pow_positive(c, after.zoom as nat);
            assert forall|i: int| 0 <= i < after.pixels.len() implies 0 <= #[trigger] after.pixels[i]
                && after.pixels[i] * v == m.pixels[i] * u by {
                let x = before.pixels[i];
                assert(0 <= x && x * w == m.pixels[i] * u);
                assert((x * c) * v == x * (c * v)) by (nonlinear_arith);
                assert(x * c >= 0) by (nonlinear_arith)
                    requires
                        x >= 0,
                        c >= 0,
                ;
            }
            lemma_mod_mod(m.shutter, v, c);
            assert(v * c == c * v) by (nonlinear_arith);
        } else if before.zoom > 0 {
            let i = choose|i: int|
                0 <= i < before.pixels.len() && #[trigger] before.pixels[i] * p.c > 255;
            assert(after.pixels[i] * p.c > 255);
        }
    }
}

/// The cell that zooms in at a boundary is one that a record can hold.
proof fn lemma_forgotten(m: CellModel, p: MicroParams, n: int, crossed: int)
    requires
        p.wf(),
        model::representable(m, p),
    ensures
        ({
            let left = model::forget(m, p, n, crossed);
            &&& left.pixels.len() == p.pixel_count()
            &&& left.zoom == m.zoom
            &&& forall|i: int| 0 <= i < left.pixels.len() ==> 0 <= #[trigger] left.pixels[i]
            &&& left.shutter == 0 || left.shutter == m.shutter
        }),
{
    lemma_pow_positive(p.c as int, m.zoom as nat);
    let left = model::forget(m, p, n, crossed);
    assert forall|i: int| 0 <= i < left.pixels.len() implies 0 <= #[trigger] left.pixels[i] by {
        assert(0 <= m.pixels[i]);
    }
}

/// The sub-window `back` before `n` has its slot to itself while fewer than
/// `T + 2` boundaries lie between.
proof fn lemma_not_entered(p: MicroParams, n: int, crossed: int, back: int)
    requires
        1 <= crossed,
        0 <= back,
        back + crossed < p.pixel_count(),
    ensures
        !model::entered(p, n + crossed, crossed, p.slot(n - back)),
{
    if model::entered(p, n + crossed, crossed, p.slot(n - back)) {
        let step = choose|step: int|
            0 <= step < crossed && #[trigger] p.slot((n + crossed) - step) == p.slot(n - back);
        let later = (n + crossed) - step;
        laws::law_live_slots_are_distinct(p, later, later - (n - back));
        assert(later - (later - (n - back)) == n - back);
    }
}

/// Crossing fewer than `T + 2` boundaries, at once or one by one, keeps every
/// sub-window that the ring still has room for: a sub-window that was `back`
/// before the one that is left stands for as many items as before.
pub proof fn law_sub_windows_in_reach_are_kept(
    m: CellModel,
    p: MicroParams,
    n: int,
    crossed: int,
    back: int,
)
    requires
        p.wf(),
        model::representable(m, p),
        1 <= crossed,
        0 <= back,
        back + crossed < p.t + 2,
    ensures
        ({
            let after = model::enter_sub_window(m, p, n + crossed, crossed);
            after.pixels[p.slot(n - back)] * pow(p.c as int, after.zoom as nat)
                == m.pixels[p.slot(n - back)] * pow(p.c as int, m.zoom as nat)
        }),
{
    let left = model::forget(m, p, n + crossed, crossed);
    lemma_forgotten(m, p, n + crossed, crossed);
    lemma_zoomed_in(left, p, crossed as nat);
    laws::lemma_slot_in_range(p, n - back);
    lemma_not_entered(p, n, crossed, back);
    let after = model::zoom_in_repeatedly(left, p, crossed as nat);
    assert(after.pixels[p.slot(n - back)] >= 0);
}

/// A sub-window that is entered counts nothing yet, whatever its slot held.
pub proof fn law_entered_sub_windows_start_empty(
    m: CellModel,
    p: MicroParams,
    n: int,
    crossed: int,
    step: int,
)
    requires
        p.wf(),
        model::representable(m, p),
        0 <= step < crossed,
    ensures
        model::enter_sub_window(m, p, n, crossed).pixels[p.slot(n - step)] == 0,
{
    let left = model::forget(m, p, n, crossed);
    let tries = if crossed < p.pixel_count() {
        crossed as nat
    } else {
        p.pixel_count()
    };
    lemma_forgotten(m, p, n, crossed);
    lemma_zoomed_in(left, p, tries);
    laws::lemma_slot_in_range(p, n - step);
    assert(model::entered(p, n, crossed, p.slot(n - step)));
    let after = model::zoom_in_repeatedly(left, p, tries);
    let i = p.slot(n - step);
    assert(left.pixels[i] == 0);
    lemma_only_zero(after.pixels[i], pow(p.c as int, after.zoom as nat), left, p, i);
}

/// Zero items are a zero pixel.
proof fn lemma_only_zero(x: int, unit: int, left: CellModel, p: MicroParams, i: int)
    requires
        p.wf(),
        x >= 0,
        exists|z: nat| unit == #[trigger] pow(p.c as int, z),
        x * unit == left.pixels[i] * pow(p.c as int, left.zoom as nat),
        left.pixels[i] == 0,
    ensures
        x == 0,
{
    let z = choose|z: nat| unit == #[trigger] pow(p.c as int, z);
    lemma_pow_positive(p.c as int, z);
    let u = pow(p.c as int, left.zoom as nat);
    assert(0 * u == 0) by (nonlinear_arith);
    assert(x == 0) by (nonlinear_arith)
        requires
            x >= 0,
            unit >= 1,
            x * unit == 0,
    ;
}

/// Nothing is lost of the window by crossing several boundaries: what the pixels
/// report in the new window, inside it and in its partially expired sub-window,
/// is what the cell had counted in the sub-windows that the new window still
/// reaches.
pub proof fn law_crossing_keeps_the_window(m: CellModel, p: MicroParams, n: int, crossed: int)
    requires
        p.wf(),
        n >= 0,
        model::representable(m, p),
        1 <= crossed < p.t + 2,
    ensures
        ({
            let after = model::enter_sub_window(m, p, n + crossed, crossed);
            (model::items_inside(after, p, n + crossed) - after.shutter) + model::items_oldest(
                after,
                p,
                n + crossed,
            ) == model::live_pixels(m, p, n, (p.t + 1 - crossed) as nat) * pow(
                p.c as int,
                m.zoom as nat,
            )
        }),
{
    let after = model::enter_sub_window(m, p, n + crossed, crossed);
    let t = p.t as int;
    let v = pow(p.c as int, after.zoom as nat);
    let live = model::live_pixels(after, p, n + crossed, t as nat);
    let oldest = model::oldest_pixel(after, p, n + crossed);
    lemma_crossed_live(m, p, n, crossed, (t + 1) as nat);
    assert((n + crossed) - ((t + 1) - 1) == n + crossed - t);
    assert(model::live_pixels(after, p, n + crossed, (t + 1) as nat) == live + oldest);
    assert((live + oldest) * v == live * v + oldest * v) by (nonlinear_arith);
}

proof fn lemma_crossed_live(m: CellModel, p: MicroParams, n: int, crossed: int, k: nat)
    requires
        p.wf(),
        n >= 0,
        model::representable(m, p),
        1 <= crossed < p.t + 2,
        k <= p.t + 1,
    ensures
        ({
            let after = model::enter_sub_window(m, p, n + crossed, crossed);
            model::live_pixels(after, p, n + crossed, k) * pow(p.c as int, after.zoom as nat)
                == if k <= crossed {
                0
            } else {
                model::live_pixels(m, p, n, (k - crossed) as nat) * pow(p.c as int, m.zoom as nat)
            }
        }),
    decreases k,
{
    let after = model::enter_sub_window(m, p, n + crossed, crossed);
    let u = pow(p.c as int, m.zoom as nat);
    let v = pow(p.c as int, after.zoom as nat);
    assert(0 * v == 0 && 0 * u == 0) by (nonlinear_arith);
    if k > 0 {
        lemma_crossed_live(m, p, n, crossed, (k - 1) as nat);
        let j = (n + crossed) - (k - 1);
        let i = p.slot(j);
        let rest = model::live_pixels(after, p, n + crossed, (k - 1) as nat);
        let x = if j >= 0 {
            after.pixels[i]
        } else {
            0
        };
        assert((rest + x) * v == rest * v + x * v) by (nonlinear_arith);
        if k <= crossed {
            law_entered_sub_windows_start_empty(m, p, n + crossed, crossed, k - 1);
        } else {
            let back = k - 1 - crossed;
            law_sub_windows_in_reach_are_kept(m, p, n, crossed, back);
            assert(n - back == j);
            let y = if j >= 0 {
                m.pixels[i]
            } else {
                0
            };
            let left = model::live_pixels(m, p, n, back as nat);
            assert((left + y) * u == left * u + y * u) by (nonlinear_arith);
            assert(model::live_pixels(m, p, n, (back + 1) as nat) == left + y);
        }
    }
}

/// A boundary reclaims all the resolution that it can: each one crossed is a
/// chance to zoom in by one, up to a whole ring of them, and a chance is only
/// left unused where the zoom is zero or some pixel would outgrow a byte.
pub proof fn law_boundary_reclaims_resolution(m: CellModel, p: MicroParams, n: int, crossed: int)
    requires
        p.wf(),
        model::representable(m, p),
        crossed >= 0,
    ensures
        ({
            let after = model::enter_sub_window(m, p, n, crossed);
            let chances = if crossed < p.t + 2 {
                crossed
            } else {
                p.t + 2
            };
            &&& 0 <= after.zoom <= m.zoom
            &&& after.zoom >= m.zoom - chances
            &&& after.zoom > m.zoom - chances && after.zoom > 0 ==> exists|i: int|
                0 <= i < after.pixels.len() && #[trigger] after.pixels[i] * p.c > 255
        }),
{
    if crossed > 0 {
        let left = model::forget(m, p, n, crossed);
        let tries = if crossed < p.pixel_count() {
            crossed as nat
        } else {
            p.pixel_count()
        };
        lemma_forgotten(m, p, n, crossed);
        lemma_zoomed_in(left, p, tries);
    }
}

/// A boundary keeps the partial unit as far as it is below the unit that the
/// cell ends at. It is dropped only where the window has nothing left: all
/// pixels are zero, but for the one that the next sub-window will clear.
pub proof fn law_boundary_keeps_the_partial_unit(
    m: CellModel,
    p: MicroParams,
    n: int,
    crossed: int,
)
    requires
        p.wf(),
        sound(m, p),
        1 <= crossed < p.t + 2,
    ensures
        ({
            let after = model::enter_sub_window(m, p, n, crossed);
            let counting = exists|i: int|
                0 <= i < after.pixels.len() && i != p.slot(n + 1) && #[trigger] after.pixels[i] > 0;
            after.shutter == if counting {
                m.shutter % pow(p.c as int, after.zoom as nat)
            } else {
                0
            }
        }),
{
    let left = model::forget(m, p, n, crossed);
    let after = model::enter_sub_window(m, p, n, crossed);
    let c = p.c as int;
    lemma_forgotten(m, p, n, crossed);
    lemma_zoomed_in(left, p, crossed as nat);
    lemma_pow0(c);
    let (u, v) = (pow(c, m.zoom as nat), pow(c, after.zoom as nat));
    lemma_pow_positive(c, m.zoom as nat);
    lemma_pow_positive(c, after.zoom as nat);
    lemma_small_mod(0, v as nat);
    assert forall|i: int| 0 <= i < after.pixels.len() implies (#[trigger] after.pixels[i] > 0)
        == (left.pixels[i] > 0) by {
        let (x, y) = (after.pixels[i], left.pixels[i]);
        assert(x >= 0 && x * v == y * u);
        assert(0 <= left.pixels[i]);
        assert((x > 0) == (y > 0)) by (nonlinear_arith)
            requires
                x >= 0,
                y >= 0,
                x * v == y * u,
                u >= 1,
                v >= 1,
        ;
    }
    if model::window_is_empty(left.pixels, p, n) {
        assert forall|i: int| 0 <= i < after.pixels.len() && i != p.slot(n + 1) implies !(
        #[trigger] after.pixels[i] > 0) by {
            assert(left.pixels[i] == 0);
        }
    } else {
        let i = choose|i: int|
            0 <= i < left.pixels.len() && i != p.slot(n + 1) && #[trigger] left.pixels[i] != 0;
        assert(after.pixels[i] > 0);
    }
}

/// A jump of `T + 2` sub-windows or more leaves nothing behind.
pub proof fn law_long_jump_clears_every_pixel(
    m: CellModel,
    p: MicroParams,
    n: int,
    crossed: int,
    i: int,
)
    requires
        p.wf(),
        model::representable(m, p),
        crossed >= p.t + 2,
        0 <= i < p.t + 2,
    ensures
        model::enter_sub_window(m, p, n, crossed).pixels[i] == 0,
        model::enter_sub_window(m, p, n, crossed).shutter == 0,
{
    let left = model::forget(m, p, n, crossed);
    let after = model::enter_sub_window(m, p, n, crossed);
    lemma_forgotten(m, p, n, crossed);
    lemma_zoomed_in(left, p, p.pixel_count());
    lemma_pow_positive(p.c as int, m.zoom as nat);
    lemma_pow_positive(p.c as int, after.zoom as nat);
    lemma_small_mod(0, pow(p.c as int, after.zoom as nat) as nat);
    assert(after.pixels[i] >= 0);
    lemma_only_zero(after.pixels[i], pow(p.c as int, after.zoom as nat), left, p, i);
}

/// A boundary that is not crossed changes nothing.
pub proof fn law_no_boundary_changes_nothing(m: CellModel, p: MicroParams, n: int)
    ensures
        model::enter_sub_window(m, p, n, 0) == m,
{
}

} // verus!
