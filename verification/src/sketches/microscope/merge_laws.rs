//! What a merge of two cells owes to the windows of both.

use super::cell::MicroParams;
use super::laws;
use super::laws::sound;
use super::model;
use super::model::CellModel;
use vstd::arithmetic::div_mod::*;
use vstd::arithmetic::power::*;
use vstd::prelude::*;

verus! {

/// Dividing by `c` once after another rounds by less than one final unit
/// altogether: the result, taken `steps` units up again, is less than one unit
/// of `c^steps` away from the value.
pub proof fn law_scaling_down_rounds_once(value: int, steps: nat, c: int, state: u64)
    requires
        value >= 0,
        c >= 2,
    ensures
        ({
            let scaled = model::scale_down(value, steps, c, state).0;
            let unit = pow(c, steps);
            &&& scaled >= 0
            &&& -(unit - 1) <= scaled * unit - value <= unit - 1
        }),
    decreases steps,
{
    lemma_pow0(c);
    if steps == 0 {
        assert(value * 1 == value) by (nonlinear_arith);
    } else {
        law_scaling_down_rounds_once(value, (steps - 1) as nat, c, state);
        let (v, s) = model::scale_down(value, (steps - 1) as nat, c, state);
        let less = pow(c, (steps - 1) as nat);
        let unit = pow(c, steps);
        crate::arith::lemma_pow_step(c, (steps - 1) as nat);
        lemma_pow_positive(c, (steps - 1) as nat);
        model::lemma_div_step_bounds(v, c, s);
        let q = model::div_step(v, c, s).0;
        lemma_step_is_close(v, c, s);
        let near = q * c - v;
        let far = v * less - value;
        assert(q * unit - value == near * less + far) by (nonlinear_arith)
            requires
                unit == c * less,
                near == q * c - v,
                far == v * less - value,
        ;
        assert(-((c - 1) * less) <= near * less <= (c - 1) * less) by (nonlinear_arith)
            requires
                -(c - 1) <= near <= c - 1,
                less >= 1,
        ;
        assert((c - 1) * less + less == c * less) by (nonlinear_arith);
    }
}

/// One division is off by less than `c`.
proof fn lemma_step_is_close(v: int, c: int, s: u64)
    requires
        v >= 0,
        c >= 2,
    ensures
        -(c - 1) <= model::div_step(v, c, s).0 * c - v <= c - 1,
{
    lemma_fundamental_div_mod(v, c);
    lemma_mod_bound(v, c);
    let k = v / c;
    assert(k * c == c * k && (k + 1) * c == c * k + c) by (nonlinear_arith);
}

/// The two sides are scaled and added slot by slot, each by unbiased divisions
/// that draw where the one before left off. So one more slot does not change the
/// sums before it.
pub proof fn law_sides_are_added_in_turn(
    a: Seq<int>,
    x: int,
    a_steps: nat,
    b: Seq<int>,
    y: int,
    b_steps: nat,
    c: int,
    state: u64,
)
    requires
        a.len() == b.len(),
    ensures
        ({
            let (done, s) = model::scaled_sums(a, a_steps, b, b_steps, c, state);
            let (left, t) = model::scale_down(x, a_steps, c, s);
            let (right, r) = model::scale_down(y, b_steps, c, t);
            model::scaled_sums(a.push(x), a_steps, b.push(y), b_steps, c, state) == (
                done.push(left + right),
                r,
            )
        }),
{
    assert(a.push(x).drop_last() =~= a);
    assert(b.push(y).drop_last() =~= b);
}

/// Sums that fit are kept as they are. While one does not, and the cap allows
/// it, all are divided once more, unbiased.
pub proof fn law_sums_settle_by_divisions(sums: Seq<int>, p: MicroParams, zoom: int, state: u64)
    requires
        p.wf(),
        0 <= zoom,
    ensures
        ({
            let fit = forall|i: int| 0 <= i < sums.len() ==> #[trigger] sums[i] <= 255;
            let (divided, s) = model::div_all(sums, p.c as int, state);
            &&& fit ==> model::settle(sums, p, zoom, state) == (sums, zoom, state)
            &&& !fit && p.c * pow(p.c as int, zoom as nat) <= u32::MAX ==> model::settle(
                sums,
                p,
                zoom,
                state,
            ) == model::settle(divided, p, zoom + 1, s)
        }),
{
    crate::arith::lemma_pow_step(p.c as int, zoom as nat);
    if p.c * pow(p.c as int, zoom as nat) <= u32::MAX {
        crate::arith::lemma_exponent_below_32(p.c as int, (zoom + 1) as nat);
    }
}

/// A scaled sum stands for the items of both sides, to within what the two
/// scalings round.
proof fn lemma_sum_is_close(
    a: Seq<int>,
    a_steps: nat,
    b: Seq<int>,
    b_steps: nat,
    c: int,
    state: u64,
    i: int,
    ua: int,
    ub: int,
    uz: int,
)
    requires
        a.len() == b.len(),
        c >= 2,
        forall|j: int| 0 <= j < a.len() ==> 0 <= #[trigger] a[j],
        forall|j: int| 0 <= j < b.len() ==> 0 <= #[trigger] b[j],
        0 <= i < a.len(),
        ua >= 1,
        ub >= 1,
        uz == ua * pow(c, a_steps),
        uz == ub * pow(c, b_steps),
    ensures
        ({
            let sums = model::scaled_sums(a, a_steps, b, b_steps, c, state).0;
            let off = sums[i] * uz - (a[i] * ua + b[i] * ub);
            &&& sums.len() == a.len()
            &&& -((uz - ua) + (uz - ub)) <= off <= (uz - ua) + (uz - ub)
        }),
    decreases a.len(),
{
    laws::lemma_scaled_sums_bounds(a, a_steps, b, b_steps, c, state);
    laws::lemma_scaled_sums_bounds(a.drop_last(), a_steps, b.drop_last(), b_steps, c, state);
    let (done, s) = model::scaled_sums(a.drop_last(), a_steps, b.drop_last(), b_steps, c, state);
    let sums = model::scaled_sums(a, a_steps, b, b_steps, c, state).0;
    if i < a.len() - 1 {
        lemma_sum_is_close(
            a.drop_last(),
            a_steps,
            b.drop_last(),
            b_steps,
            c,
            state,
            i,
            ua,
            ub,
            uz,
        );
        assert(sums[i] == done[i]);
    } else {
        let (x, t) = model::scale_down(a.last(), a_steps, c, s);
        let y = model::scale_down(b.last(), b_steps, c, t).0;
        assert(a.last() == a[i] && b.last() == b[i]);
        law_scaling_down_rounds_once(a[i], a_steps, c, s);
        law_scaling_down_rounds_once(b[i], b_steps, c, t);
        lemma_scaled_items(x, a[i], pow(c, a_steps), ua, uz);
        lemma_scaled_items(y, b[i], pow(c, b_steps), ub, uz);
        assert(sums[i] == x + y);
        assert((x + y) * uz == x * uz + y * uz) by (nonlinear_arith);
    }
}

proof fn lemma_scaled_items(x: int, value: int, factor: int, fine: int, coarse: int)
    requires
        -(factor - 1) <= x * factor - value <= factor - 1,
        coarse == fine * factor,
        fine >= 1,
    ensures
        -(coarse - fine) <= x * coarse - value * fine <= coarse - fine,
{
    let off = x * factor - value;
    assert(x * coarse - value * fine == off * fine) by (nonlinear_arith)
        requires
            coarse == fine * factor,
            off == x * factor - value,
    ;
    assert(-((factor - 1) * fine) <= off * fine <= (factor - 1) * fine) by (nonlinear_arith)
        requires
            -(factor - 1) <= off <= factor - 1,
            fine >= 1,
    ;
    assert((factor - 1) * fine == fine * factor - fine) by (nonlinear_arith);
}

/// A settled pixel stands for the sum that it came from, to within less than
/// one of its units, unless it was cut off at the zoom cap.
proof fn lemma_settled_is_close(sums: Seq<int>, p: MicroParams, zoom: int, state: u64, i: int)
    requires
        p.wf(),
        0 <= zoom,
        pow(p.c as int, zoom as nat) <= u32::MAX,
        forall|j: int| 0 <= j < sums.len() ==> 0 <= #[trigger] sums[j],
        0 <= i < sums.len(),
    ensures
        ({
            let (pixels, z, _) = model::settle(sums, p, zoom, state);
            let before = pow(p.c as int, zoom as nat);
            let after = pow(p.c as int, z as nat);
            let off = pixels[i] * after - sums[i] * before;
            &&& pixels.len() == sums.len()
            &&& z >= zoom
            &&& before <= after <= u32::MAX
            &&& ({
                ||| -(after - before) <= off <= after - before
                ||| pixels[i] == 255 && pow(p.c as int, (z + 1) as nat) > u32::MAX && off <= after
                    - before
            })
        }),
    decreases 256 - zoom,
{
    let c = p.c as int;
    let u = pow(c, zoom as nat);
    lemma_pow_positive(c, zoom as nat);
    crate::arith::lemma_exponent_below_32(c, zoom as nat);
    if model::all_fit(sums) {
    } else if !model::can_zoom_out(p, zoom) {
        let x = sums[i];
        if x >= 255 {
            assert(255 * u <= x * u) by (nonlinear_arith)
                requires
                    u >= 1,
                    255 <= x,
            ;
        }
    } else {
        let (divided, s) = model::div_all(sums, c, state);
        model::lemma_div_all_bounds(sums, c, state);
        assert forall|j: int| 0 <= j < divided.len() implies 0 <= #[trigger] divided[j] by {
            assert(0 <= sums[j]);
        }
        lemma_settled_is_close(divided, p, zoom + 1, s, i);
        laws::lemma_divided_is_close(sums, c, state, i);
        crate::arith::lemma_pow_step(c, zoom as nat);
        let wider = pow(c, (zoom + 1) as nat);
        let near = divided[i] * c - sums[i];
        assert(divided[i] * wider - sums[i] * u == near * u) by (nonlinear_arith)
            requires
                wider == c * u,
                near == divided[i] * c - sums[i],
        ;
        assert(-((c - 1) * u) <= near * u <= (c - 1) * u) by (nonlinear_arith)
            requires
                -(c - 1) <= near <= c - 1,
                u >= 1,
        ;
        assert((c - 1) * u == c * u - u) by (nonlinear_arith);
    }
}

/// A settled pixel that zoomed out had to: some pixel is at least what is left
/// of 256.
proof fn lemma_settled_had_to(sums: Seq<int>, p: MicroParams, zoom: int, state: u64)
    requires
        p.wf(),
        0 <= zoom,
        forall|j: int| 0 <= j < sums.len() ==> 0 <= #[trigger] sums[j],
    ensures
        ({
            let (pixels, z, _) = model::settle(sums, p, zoom, state);
            z > zoom ==> exists|i: int|
                0 <= i < pixels.len() && #[trigger] pixels[i] >= 256int / (p.c as int)
        }),
    decreases 256 - zoom,
{
    let c = p.c as int;
    if !model::all_fit(sums) && zoom < 255 && model::can_zoom_out(p, zoom) {
        let (divided, s) = model::div_all(sums, c, state);
        model::lemma_div_all_bounds(sums, c, state);
        assert forall|j: int| 0 <= j < divided.len() implies 0 <= #[trigger] divided[j] by {
            assert(0 <= sums[j]);
        }
        lemma_settled_had_to(divided, p, zoom + 1, s);
        let (pixels, z, _) = model::settle(divided, p, zoom + 1, s);
        let i = choose|i: int| 0 <= i < sums.len() && #[trigger] sums[i] > 255;
        lemma_div_is_ordered(256, sums[i], c);
        assert(divided[i] >= 256int / c);
        assert(256int / c <= 128) by (nonlinear_arith)
            requires
                c >= 2,
        ;
        lemma_settle_never_zooms_in(divided, p, zoom + 1, s);
        if z == zoom + 1 {
            if model::all_fit(divided) {
                assert(pixels[i] == divided[i]);
            } else {
                if !(zoom + 1 >= 255 || !model::can_zoom_out(p, zoom + 1)) {
                    let (more, t) = model::div_all(divided, c, s);
                    lemma_settle_never_zooms_in(more, p, zoom + 2, t);
                }
                assert(pixels[i] == if divided[i] < 255 {
                    divided[i]
                } else {
                    255
                });
            }
            assert(pixels[i] >= 256int / c);
        }
    }
}

proof fn lemma_settle_never_zooms_in(sums: Seq<int>, p: MicroParams, zoom: int, state: u64)
    ensures
        model::settle(sums, p, zoom, state).1 >= zoom,
    decreases 256 - zoom,
{
    if !model::all_fit(sums) && zoom < 255 && model::can_zoom_out(p, zoom) {
        let (divided, s) = model::div_all(sums, p.c as int, state);
        lemma_settle_never_zooms_in(divided, p, zoom + 1, s);
    }
}

/// The finer of two units.
pub open spec fn finer(a: CellModel, b: CellModel, p: MicroParams) -> int {
    if a.zoom < b.zoom {
        pow(p.c as int, a.zoom as nat)
    } else {
        pow(p.c as int, b.zoom as nat)
    }
}

/// The coarser of two units.
pub open spec fn coarser(a: CellModel, b: CellModel, p: MicroParams) -> int {
    if a.zoom < b.zoom {
        pow(p.c as int, b.zoom as nat)
    } else {
        pow(p.c as int, a.zoom as nat)
    }
}

/// The items that the two sides of a merge hold in slot `i`, with those that the
/// shutters carry where it is the current one.
pub open spec fn items_of_both(
    a: CellModel,
    b: CellModel,
    merged: CellModel,
    p: MicroParams,
    n: int,
    i: int,
) -> int {
    a.pixels[i] * pow(p.c as int, a.zoom as nat) + b.pixels[i] * pow(p.c as int, b.zoom as nat)
        + if i == p.slot(n) {
        a.shutter + b.shutter - merged.shutter
    } else {
        0
    }
}

/// A merge is the union, pixel by pixel: a pixel of the merged cell stands for
/// the items that both sides hold in its slot, to within less than one of its
/// units, and exactly where nothing had to be rescaled. Only a pixel that is
/// full at the zoom cap may stand for less: nothing is cut off while a unit of
/// one more factor `c` still fits a `u32`. The shutter keeps what the two leave
/// below one unit.
pub proof fn law_merged_pixels_hold_both_sides(
    a: CellModel,
    b: CellModel,
    p: MicroParams,
    n: int,
    state: u64,
    i: int,
)
    requires
        p.wf(),
        sound(a, p),
        sound(b, p),
        0 <= i < p.pixel_count(),
    ensures
        ({
            let merged = model::merge(a, b, p, n, state).0;
            let unit = pow(p.c as int, merged.zoom as nat);
            let off = merged.pixels[i] * unit - items_of_both(a, b, merged, p, n, i);
            let slack = unit - finer(a, b, p);
            &&& merged.pixels.len() == p.pixel_count()
            &&& merged.zoom >= a.zoom && merged.zoom >= b.zoom
            &&& 0 <= slack < unit
            &&& 0 <= merged.shutter < coarser(a, b, p)
            &&& (a.shutter + b.shutter - merged.shutter) % coarser(a, b, p) == 0
            &&& ({
                ||| -slack <= off <= slack
                ||| merged.pixels[i] == 255 && pow(p.c as int, (merged.zoom + 1) as nat)
                    > u32::MAX && off <= slack
            })
        }),
{
    let c = p.c as int;
    let z = model::common_zoom(a, b);
    let (ua, ub, uz) = (pow(c, a.zoom as nat), pow(c, b.zoom as nat), pow(c, z as nat));
    let a_steps = (z - a.zoom) as nat;
    let b_steps = (z - b.zoom) as nat;
    laws::lemma_slot_in_range(p, n);
    lemma_pow_positive(c, a.zoom as nat);
    lemma_pow_positive(c, b.zoom as nat);
    lemma_pow_positive(c, z as nat);
    lemma_pow_adds(c, a.zoom as nat, a_steps);
    lemma_pow_adds(c, b.zoom as nat, b_steps);
    laws::law_merge_is_defined(a, b, p, n, state);
    laws::law_merge_keeps_cells_sound(a, b, p, n, state);
    laws::lemma_scaled_sums_bounds(a.pixels, a_steps, b.pixels, b_steps, c, state);
    lemma_sum_is_close(a.pixels, a_steps, b.pixels, b_steps, c, state, i, ua, ub, uz);
    let (sums, s) = model::merged_sums(a, b, p, state);
    let current = p.slot(n);
    let carry = model::shutter_carry(a, b, p);
    let total = a.shutter + b.shutter;
    lemma_fundamental_div_mod(total, uz);
    lemma_mod_bound(total, uz);
    lemma_pow_increases(p.c as nat, a.zoom as nat, z as nat);
    lemma_pow_increases(p.c as nat, b.zoom as nat, z as nat);
    assert(0 <= total / uz <= 1) by (nonlinear_arith)
        requires
            0 <= total < 2 * uz,
            uz >= 1,
    ;
    lemma_small_mod((total / uz) as nat, 0x1_0000_0000);
    assert(uz * carry == carry * uz) by (nonlinear_arith);
    lemma_mod_multiples_basic(carry, uz);
    let carried = sums.update(current, sums[current] + carry);
    assert forall|j: int| 0 <= j < carried.len() implies 0 <= #[trigger] carried[j] by {
        assert(0 <= sums[j]);
    }
    lemma_settled_is_close(carried, p, z, s, i);
    let merged = model::merge(a, b, p, n, state).0;
    if i == current {
        assert((sums[i] + carry) * uz == sums[i] * uz + carry * uz) by (nonlinear_arith);
    }
}

/// Two windows merge into one that reports what both report: inside the window
/// the merged cell is off by less than one of its units for each of the `T`
/// sub-windows, and by less than one for the partially expired one, however
/// often it had to zoom out. So long as a further zoom-out was possible, nothing
/// more is lost.
pub proof fn law_merged_window_is_the_sum(
    a: CellModel,
    b: CellModel,
    p: MicroParams,
    n: int,
    state: u64,
)
    requires
        p.wf(),
        n >= 0,
        sound(a, p),
        sound(b, p),
        pow(p.c as int, (model::merge(a, b, p, n, state).0.zoom + 1) as nat) <= u32::MAX,
    ensures
        ({
            let merged = model::merge(a, b, p, n, state).0;
            let unit = pow(p.c as int, merged.zoom as nat);
            let slack = unit - finer(a, b, p);
            let off = model::items_inside(merged, p, n) - (model::items_inside(a, p, n)
                + model::items_inside(b, p, n));
            let off_oldest = model::items_oldest(merged, p, n) - (model::items_oldest(a, p, n)
                + model::items_oldest(b, p, n));
            &&& 0 <= slack < unit
            &&& -(p.t * slack) <= off <= p.t * slack
            &&& -slack <= off_oldest <= slack
        }),
{
    let merged = model::merge(a, b, p, n, state).0;
    let unit = pow(p.c as int, merged.zoom as nat);
    let slack = unit - finer(a, b, p);
    let rolled = a.shutter + b.shutter - merged.shutter;
    laws::lemma_slot_in_range(p, n);
    law_merged_pixels_hold_both_sides(a, b, p, n, state, p.slot(n));
    assert forall|i: int| 0 <= i < p.pixel_count() implies -slack <= #[trigger] merged.pixels[i]
        * unit - items_of_both(a, b, merged, p, n, i) <= slack by {
        law_merged_pixels_hold_both_sides(a, b, p, n, state, i);
    }
    lemma_live_of_both(a, b, merged, p, n, p.t as nat, slack);
    if n >= p.t {
        laws::lemma_slot_in_range(p, n - p.t);
        laws::law_live_slots_are_distinct(p, n, p.t as int);
        let i = p.slot(n - p.t);
        assert(-slack <= merged.pixels[i] * unit - items_of_both(a, b, merged, p, n, i) <= slack);
    } else {
        let (ua, ub) = (pow(p.c as int, a.zoom as nat), pow(p.c as int, b.zoom as nat));
        assert(0 * unit == 0 && 0 * ua == 0 && 0 * ub == 0) by (nonlinear_arith);
    }
}

proof fn lemma_live_of_both(
    a: CellModel,
    b: CellModel,
    merged: CellModel,
    p: MicroParams,
    n: int,
    k: nat,
    slack: int,
)
    requires
        p.wf(),
        n >= 0,
        slack >= 0,
        k <= p.t,
        forall|i: int|
            0 <= i < p.pixel_count() ==> -slack <= #[trigger] merged.pixels[i] * pow(
                p.c as int,
                merged.zoom as nat,
            ) - items_of_both(a, b, merged, p, n, i) <= slack,
    ensures
        ({
            let off = model::live_pixels(merged, p, n, k) * pow(p.c as int, merged.zoom as nat) - (
            model::live_pixels(a, p, n, k) * pow(p.c as int, a.zoom as nat) + model::live_pixels(
                b,
                p,
                n,
                k,
            ) * pow(p.c as int, b.zoom as nat) + if k == 0 {
                0
            } else {
                a.shutter + b.shutter - merged.shutter
            });
            -(k * slack) <= off <= k * slack
        }),
    decreases k,
{
    let u = pow(p.c as int, merged.zoom as nat);
    let (ua, ub) = (pow(p.c as int, a.zoom as nat), pow(p.c as int, b.zoom as nat));
    assert(0 * u == 0 && 0 * ua == 0 && 0 * ub == 0 && 0 * slack == 0) by (nonlinear_arith);
    if k > 0 {
        lemma_live_of_both(a, b, merged, p, n, (k - 1) as nat, slack);
        let j = n - (k - 1);
        let i = p.slot(j);
        laws::lemma_slot_in_range(p, j);
        if k > 1 {
            laws::law_live_slots_are_distinct(p, n, k - 1);
        }
        assert(-slack <= merged.pixels[i] * u - items_of_both(a, b, merged, p, n, i) <= slack);
        let x = if j >= 0 {
            merged.pixels[i]
        } else {
            0
        };
        let y = if j >= 0 {
            a.pixels[i]
        } else {
            0
        };
        let w = if j >= 0 {
            b.pixels[i]
        } else {
            0
        };
        let rx = model::live_pixels(merged, p, n, (k - 1) as nat);
        let ry = model::live_pixels(a, p, n, (k - 1) as nat);
        let rw = model::live_pixels(b, p, n, (k - 1) as nat);
        assert((rx + x) * u == rx * u + x * u) by (nonlinear_arith);
        assert((ry + y) * ua == ry * ua + y * ua) by (nonlinear_arith);
        assert((rw + w) * ub == rw * ub + w * ub) by (nonlinear_arith);
        assert(k * slack == (k - 1) * slack + slack) by (nonlinear_arith);
    }
}

/// A merge gives up no more resolution than it has to: if it zoomed out beyond
/// both sides, some pixel had outgrown a byte, and still holds what the last
/// division left of 256.
pub proof fn law_merge_zooms_out_only_where_it_must(
    a: CellModel,
    b: CellModel,
    p: MicroParams,
    n: int,
    state: u64,
)
    requires
        p.wf(),
        sound(a, p),
        sound(b, p),
        model::merge(a, b, p, n, state).0.zoom > a.zoom,
        model::merge(a, b, p, n, state).0.zoom > b.zoom,
    ensures
        ({
            let merged = model::merge(a, b, p, n, state).0;
            exists|i: int|
                0 <= i < merged.pixels.len() && #[trigger] merged.pixels[i] >= 256int / (p.c as int)
        }),
{
    let z = model::common_zoom(a, b);
    laws::lemma_slot_in_range(p, n);
    laws::law_merge_is_defined(a, b, p, n, state);
    laws::lemma_scaled_sums_bounds(
        a.pixels,
        (z - a.zoom) as nat,
        b.pixels,
        (z - b.zoom) as nat,
        p.c as int,
        state,
    );
    let (sums, s) = model::merged_sums(a, b, p, state);
    let current = p.slot(n);
    let carried = sums.update(current, sums[current] + model::shutter_carry(a, b, p));
    assert forall|j: int| 0 <= j < carried.len() implies 0 <= #[trigger] carried[j] by {
        assert(0 <= sums[j]);
    }
    lemma_settled_had_to(carried, p, z, s);
    let merged = model::merge(a, b, p, n, state).0;
    let pixels = model::settle(carried, p, z, s).0;
    let i = choose|i: int|
        0 <= i < pixels.len() && #[trigger] pixels[i] >= 256int / (p.c as int);
    assert(merged.pixels[i] >= 256int / (p.c as int));
}

/// A merge brings the finer side to the zoom of the coarser one before it adds,
/// and leaves the coarser side as it is.
pub proof fn law_merge_scales_the_finer_side(
    a: CellModel,
    b: CellModel,
    p: MicroParams,
    state: u64,
)
    ensures
        a.zoom <= b.zoom ==> model::merged_sums(a, b, p, state) == model::scaled_sums(
            a.pixels,
            (b.zoom - a.zoom) as nat,
            b.pixels,
            0,
            p.c as int,
            state,
        ),
        a.zoom >= b.zoom ==> model::merged_sums(a, b, p, state) == model::scaled_sums(
            a.pixels,
            0,
            b.pixels,
            (a.zoom - b.zoom) as nat,
            p.c as int,
            state,
        ),
{
}

/// The merged pixels are the sums, with what the shutters carry, settled; and
/// the generator goes on from where the sums left it.
pub proof fn law_merge_settles_the_sums(
    a: CellModel,
    b: CellModel,
    p: MicroParams,
    n: int,
    state: u64,
)
    requires
        p.wf(),
        sound(a, p),
        sound(b, p),
    ensures
        ({
            let (sums, s) = model::merged_sums(a, b, p, state);
            let zoom = if a.zoom < b.zoom {
                b.zoom
            } else {
                a.zoom
            };
            let carry = (a.shutter + b.shutter) / coarser(a, b, p);
            let (merged, t) = model::merge(a, b, p, n, state);
            (merged.pixels, merged.zoom, t) == model::settle(
                sums.update(p.slot(n), sums[p.slot(n)] + carry),
                p,
                zoom,
                s,
            )
        }),
{
    let uz = coarser(a, b, p);
    let z = model::common_zoom(a, b);
    lemma_pow_positive(p.c as int, z as nat);
    lemma_pow_increases(p.c as nat, a.zoom as nat, z as nat);
    lemma_pow_increases(p.c as nat, b.zoom as nat, z as nat);
    let total = a.shutter + b.shutter;
    assert(0 <= total / uz <= 1) by (nonlinear_arith)
        requires
            0 <= total < 2 * uz,
            uz >= 1,
    ;
    lemma_small_mod((total / uz) as nat, 0x1_0000_0000);
}

} // verus!
