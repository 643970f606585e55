use asap_sketchlib::sketches::microscope::cell::{
    enter_sub_window, insert, merge_cells, pixel, scale_down, set_shutter, shutter, try_zoom_in,
    unbiased_div, window_pixels, zoom, zoom_out,
};
use asap_sketchlib::sketches::microscope::{MicroLayout, MicroParams, Rounding};

/// Which end of the partially expired oldest sub-window to charge.
#[derive(Clone, Copy)]
enum DeltaStrategy {
    Over,
    Under,
    Linear(f64),
}

/// The count over the sliding window, in items.
fn estimate(cell: &[u8], layout: &MicroLayout, n: u64, strategy: DeltaStrategy) -> f64 {
    let w = window_pixels(cell, layout, n);
    let unit = (layout.params().c as f64).powi(w.zoom as i32);
    let oldest = w.oldest as f64 * unit;
    w.shutter as f64
        + w.inside as f64 * unit
        + match strategy {
            DeltaStrategy::Over => oldest,
            DeltaStrategy::Under => 0.0,
            DeltaStrategy::Linear(fraction) => fraction.clamp(0.0, 1.0) * oldest,
        }
}

/// Drives a cell through `items` inserts spread over sub-windows of
/// `per_sub_window` items each, crossing a boundary between them, and returns
/// the cell plus the final `n`.
fn run(layout: &MicroLayout, items: u64, per_sub_window: u64) -> (Vec<u8>, u64) {
    let mut cell = vec![0u8; layout.depth()];
    let mut rounding = Rounding::new(0x5EED);
    let mut n = 0u64;
    for i in 0..items {
        if i > 0 && i % per_sub_window == 0 {
            n += 1;
            enter_sub_window(&mut cell, layout, n, 1);
        }
        insert(&mut cell, layout, n, &mut rounding);
    }
    (cell, n)
}

/// How many of the last `items` inserts are still inside a window of `t`
/// sub-windows of `per_sub_window` items, counting the partially expired
/// oldest sub-window in full.
fn truth_over(items: u64, t: u64, per_sub_window: u64, n: u64) -> u64 {
    let oldest_kept = (n + 1).saturating_sub(t + 1);
    items - oldest_kept * per_sub_window
}

#[test]
fn layout_places_every_field_and_pads_to_four() {
    // T=12: 14 pixels + 1 zoom + 4 shutter = 19, padded to 20.
    let l = MicroLayout::new(MicroParams::new(12, 2));
    assert_eq!(l.pixels(), 14);
    assert_eq!(l.depth(), 20);
    // T=1: 3 pixels + 1 + 4 = 8, already a multiple of 4.
    let l = MicroLayout::new(MicroParams::new(1, 2));
    assert_eq!(l.pixels(), 3);
    assert_eq!(l.depth(), 8);
}

#[test]
fn fields_round_trip_independently() {
    let layout = MicroLayout::new(MicroParams::new(4, 2));
    let mut cell = vec![0u8; layout.depth()];
    set_shutter(&mut cell, &layout, 0xDEAD_BEEF);
    cell[layout.zoom_at()] = 7;
    cell[layout.pixel_at(3)] = 42;
    assert_eq!(shutter(&cell, &layout), 0xDEAD_BEEF);
    assert_eq!(zoom(&cell, &layout), 7);
    assert_eq!(pixel(&cell, &layout, 3), 42);
    // Writing the shutter did not spill into a pixel or the zoom byte.
    assert_eq!(pixel(&cell, &layout, 0), 0);
}

#[test]
fn is_exact_before_the_first_zoom() {
    for t in [1usize, 4, 12] {
        let layout = MicroLayout::new(MicroParams::new(t, 2));
        // 200 items per sub-window keeps every pixel under 255.
        let (cell, n) = run(&layout, 200 * (t as u64 + 1), 200);
        assert_eq!(zoom(&cell, &layout), 0, "t={t}: should not have zoomed");
        let est = estimate(&cell, &layout, n, DeltaStrategy::Over);
        let truth = truth_over(200 * (t as u64 + 1), t as u64, 200, n);
        assert_eq!(est, truth as f64, "t={t}: exact regime must be exact");
    }
}

#[test]
fn over_and_under_bracket_the_window_count() {
    for t in [1usize, 4, 12] {
        for per_sub_window in [1u64, 7, 500, 9_000] {
            let layout = MicroLayout::new(MicroParams::new(t, 2));
            let items = per_sub_window * (t as u64 + 3);
            let (cell, n) = run(&layout, items, per_sub_window);
            let over = estimate(&cell, &layout, n, DeltaStrategy::Over);
            let under = estimate(&cell, &layout, n, DeltaStrategy::Under);
            let linear = estimate(&cell, &layout, n, DeltaStrategy::Linear(0.5));
            assert!(
                under <= linear && linear <= over,
                "t={t} w={per_sub_window}: Under {under} <= Linear {linear} <= Over {over}"
            );
            // Over counts a superset of the window's sub-windows and Under a
            // subset, so the true window count sits between them up to the
            // rounding a zoom introduces.
            let truth = truth_over(items, t as u64, per_sub_window, n) as f64;
            let unit = 2f64.powi(zoom(&cell, &layout) as i32);
            let slack = unit * (t as f64 + 2.0);
            assert!(
                over + slack >= truth,
                "t={t} w={per_sub_window}: Over {over} under-reported {truth} \
                 by more than the {slack} a zoom can round away"
            );
        }
    }
}

#[test]
fn a_burst_expires_after_t_plus_one_sub_windows() {
    let layout = MicroLayout::new(MicroParams::new(4, 2));
    let mut rounding = Rounding::new(1);
    let mut cell = vec![0u8; layout.depth()];
    let mut n = 0u64;
    for _ in 0..300 {
        insert(&mut cell, &layout, n, &mut rounding);
    }
    assert!(estimate(&cell, &layout, n, DeltaStrategy::Under) > 0.0);
    // Advance past the burst with a single item per sub-window.
    for _ in 0..=(layout.params().t + 1) {
        n += 1;
        enter_sub_window(&mut cell, &layout, n, 1);
        insert(&mut cell, &layout, n, &mut rounding);
    }
    let est = estimate(&cell, &layout, n, DeltaStrategy::Over);
    assert!(
        est <= (layout.params().t + 2) as f64,
        "only the trickle should remain, got {est}"
    );

    // And a cell that receives nothing at all still forgets, because the
    // boundary is what clears it.
    let mut idle = vec![0u8; layout.depth()];
    let mut m = 0u64;
    for _ in 0..300 {
        insert(&mut idle, &layout, m, &mut rounding);
    }
    assert!(estimate(&idle, &layout, m, DeltaStrategy::Under) > 0.0);
    for _ in 0..=(layout.params().t + 1) {
        m += 1;
        enter_sub_window(&mut idle, &layout, m, 1);
    }
    assert_eq!(
        estimate(&idle, &layout, m, DeltaStrategy::Over),
        0.0,
        "an idle cell must be emptied by the boundary sweep alone"
    );
}

#[test]
fn zoom_out_then_in_restores_multiples_and_z_never_underflows() {
    let layout = MicroLayout::new(MicroParams::new(6, 2));
    let mut rounding = Rounding::new(7);
    let mut cell = vec![0u8; layout.depth()];
    for (i, slot) in cell.iter_mut().take(layout.pixels()).enumerate() {
        *slot = (2 * (i as u8 + 1)) & 0x7E; // even, and under the ceiling
    }
    let before: Vec<u8> = cell[..layout.pixels()].to_vec();
    assert!(zoom_out(&mut cell, &layout, &mut rounding));
    assert_eq!(zoom(&cell, &layout), 1);
    assert!(try_zoom_in(&mut cell, &layout));
    assert_eq!(zoom(&cell, &layout), 0);
    assert_eq!(&cell[..layout.pixels()], before.as_slice());
    // Already at Z=0: zooming in again is refused, not an underflow.
    assert!(!try_zoom_in(&mut cell, &layout));
    assert_eq!(zoom(&cell, &layout), 0);
}

#[test]
fn zoom_in_is_refused_when_a_pixel_would_overflow() {
    let layout = MicroLayout::new(MicroParams::new(3, 2));
    let mut cell = vec![0u8; layout.depth()];
    cell[layout.zoom_at()] = 2;
    cell[layout.pixel_at(0)] = 10;
    cell[layout.pixel_at(1)] = 200; // 200 * 2 > 255
    assert!(!try_zoom_in(&mut cell, &layout));
    assert_eq!(zoom(&cell, &layout), 2);
    assert_eq!(pixel(&cell, &layout, 1), 200);
}

#[test]
fn unbiased_div_has_the_exact_quotient_as_its_mean() {
    const DRAWS: u32 = 200_000;
    for (value, c) in [(7u32, 2u32), (255, 2), (10, 3), (1, 4), (123, 7)] {
        let mut rounding = Rounding::new(0xC0FFEE ^ value as u64);
        let mut total: u64 = 0;
        for _ in 0..DRAWS {
            total += unbiased_div(value, c, &mut rounding) as u64;
        }
        let mean = total as f64 / DRAWS as f64;
        let exact = value as f64 / c as f64;
        assert!(
            (mean - exact).abs() < 0.01,
            "value={value} c={c}: mean {mean} is not the exact quotient {exact}"
        );
        // And truncation would have been visibly biased, unless it divides
        // evenly.
        if value % c != 0 {
            assert!((mean - (value / c) as f64).abs() > 0.05);
        }
    }
}

#[test]
fn unbiased_div_is_deterministic_on_exact_multiples() {
    let mut rounding = Rounding::new(99);
    let before = rounding.state();
    assert_eq!(unbiased_div(64, 2, &mut rounding), 32);
    assert_eq!(rounding.state(), before, "no draw should have been taken");
}

#[test]
fn a_zoomed_cell_tracks_the_window_count() {
    let layout = MicroLayout::new(MicroParams::new(8, 2));
    let per_sub_window = 20_000u64;
    let items = per_sub_window * 12;
    let (cell, n) = run(&layout, items, per_sub_window);
    assert!(
        zoom(&cell, &layout) > 0,
        "this load should have forced a zoom"
    );
    let over = estimate(&cell, &layout, n, DeltaStrategy::Over);
    let truth = truth_over(items, 8, per_sub_window, n) as f64;
    let rel = (over - truth).abs() / truth;
    assert!(
        rel < 0.05,
        "zoomed estimate {over} against {truth} is {:.2}% off",
        rel * 100.0
    );
}

#[test]
fn default_parameters() {
    assert_eq!(MicroParams::default(), MicroParams::new(12, 2));
    let layout = MicroLayout::new(MicroParams::default());
    assert_eq!(layout.params(), MicroParams { t: 12, c: 2 });
}

#[test]
fn the_zoom_cap_is_the_largest_exponent_whose_unit_fits() {
    for (c, cap) in [(2u32, 31u8), (3, 20), (10, 9), (65_536, 1), (u32::MAX, 1)] {
        assert_eq!(MicroLayout::new(MicroParams::new(1, c)).max_zoom(), cap);
    }
}

#[test]
fn the_generator_is_xorshift64_star() {
    let mut rounding = Rounding::new(1);
    let mut x: u64 = 1;
    for _ in 0..100 {
        x ^= x >> 12;
        x ^= x << 25;
        x ^= x >> 27;
        assert_eq!(rounding.next_u64(), x.wrapping_mul(0x2545_F491_4F6C_DD1D));
        assert_eq!(rounding.state(), x);
        assert_ne!(x, 0);
    }
    // A zero seed would be stuck, and is replaced.
    assert_eq!(Rounding::new(0).state(), 0x9E37_79B9_7F4A_7C15);
}

#[test]
fn a_zoom_in_takes_every_pixel_that_still_fits() {
    // 85 * 3 is 255, which still fits a byte; 86 * 3 does not.
    let layout = MicroLayout::new(MicroParams::new(1, 3));
    let mut cell = vec![0u8; layout.depth()];
    cell[layout.zoom_at()] = 1;
    cell[0] = 85;
    assert!(try_zoom_in(&mut cell, &layout));
    assert_eq!(cell[0], 255);
    assert_eq!(zoom(&cell, &layout), 0);
    cell[layout.zoom_at()] = 1;
    cell[0] = 86;
    assert!(!try_zoom_in(&mut cell, &layout));
    assert_eq!(cell[0], 86);
}

#[test]
fn the_insert_past_255_zooms_out_first() {
    let layout = MicroLayout::new(MicroParams::new(1, 2));
    let mut rounding = Rounding::new(3);
    let mut cell = vec![0u8; layout.depth()];
    for _ in 0..255 {
        insert(&mut cell, &layout, 0, &mut rounding);
    }
    assert_eq!((zoom(&cell, &layout), cell[0]), (0, 255));
    insert(&mut cell, &layout, 0, &mut rounding);
    // 255 halves to 127 or 128, and the item lands on top.
    assert_eq!(zoom(&cell, &layout), 1);
    assert!(cell[0] == 128 || cell[0] == 129);
    // The next item only advances the shutter.
    let now = cell[0];
    insert(&mut cell, &layout, 0, &mut rounding);
    assert_eq!((cell[0], shutter(&cell, &layout)), (now, 1));
    insert(&mut cell, &layout, 0, &mut rounding);
    assert_eq!((cell[0], shutter(&cell, &layout)), (now + 1, 0));
}

#[test]
fn a_full_pixel_saturates_at_the_zoom_cap() {
    let layout = MicroLayout::new(MicroParams::new(1, u32::MAX));
    let mut rounding = Rounding::new(3);
    let mut cell = vec![0u8; layout.depth()];
    cell[layout.zoom_at()] = 1;
    cell[0] = 255;
    set_shutter(&mut cell, &layout, u32::MAX - 1);
    insert(&mut cell, &layout, 0, &mut rounding);
    assert_eq!((zoom(&cell, &layout), cell[0], shutter(&cell, &layout)), (1, 255, 0));
    assert!(!zoom_out(&mut cell, &layout, &mut rounding));
}

#[test]
fn a_boundary_clears_the_slots_it_enters() {
    let layout = MicroLayout::new(MicroParams::new(3, 2));
    let mut cell = vec![0u8; layout.depth()];
    for i in 0..5 {
        cell[i] = 130 + i as u8;
    }
    cell[layout.zoom_at()] = 2;
    set_shutter(&mut cell, &layout, 3);
    let untouched = cell.clone();
    enter_sub_window(&mut cell, &layout, 4, 0);
    assert_eq!(cell, untouched, "no boundary was crossed");
    // Sub-windows 6 and 7 land on slots 1 and 2. The other pixels have no room
    // for a zoom-in.
    enter_sub_window(&mut cell, &layout, 7, 2);
    assert_eq!(&cell[..5], &[130, 0, 0, 133, 134]);
    assert_eq!((zoom(&cell, &layout), shutter(&cell, &layout)), (2, 3));
    // A jump over the whole ring leaves nothing.
    enter_sub_window(&mut cell, &layout, 20, 5);
    assert_eq!(&cell[..5], &[0, 0, 0, 0, 0]);
    assert_eq!((zoom(&cell, &layout), shutter(&cell, &layout)), (0, 0));
}

#[test]
fn a_boundary_keeps_the_window() {
    let layout = MicroLayout::new(MicroParams::new(3, 2));
    let mut cell = vec![0u8; layout.depth()];
    cell[..5].copy_from_slice(&[7, 5, 9, 1, 2]);
    cell[layout.zoom_at()] = 2;
    for (partial, left) in [(0, 0), (1, 1), (3, 1)] {
        let mut next = cell.clone();
        set_shutter(&mut next, &layout, partial);
        // The window that ends in sub-window 4: slots 2, 3 and 4, and the shutter.
        assert_eq!(
            estimate(&next, &layout, 4, DeltaStrategy::Under),
            48.0 + partial as f64
        );
        // The unit shrinks to 2, and the shutter below it.
        enter_sub_window(&mut next, &layout, 5, 1);
        assert_eq!((zoom(&next, &layout), shutter(&next, &layout)), (1, left));
        // Sub-window 2 is the partially expired one now.
        assert_eq!(
            estimate(&next, &layout, 5, DeltaStrategy::Under),
            12.0 + left as f64
        );
        assert_eq!(
            estimate(&next, &layout, 5, DeltaStrategy::Over),
            48.0 + left as f64
        );
    }
}

#[test]
fn a_busy_cell_keeps_its_shutter_across_boundaries() {
    // A burst in sub-window 0, then less than one unit in each that follows.
    let layout = MicroLayout::new(MicroParams::new(4, 2));
    let mut rounding = Rounding::new(1);
    let mut cell = vec![0u8; layout.depth()];
    cell[0] = 255;
    cell[layout.zoom_at()] = 10;
    for n in 1..=5 {
        enter_sub_window(&mut cell, &layout, n, 1);
        for _ in 0..1000 {
            insert(&mut cell, &layout, n, &mut rounding);
        }
    }
    // 5000 items are four units of 1024, and 904 items.
    assert_eq!(&cell[..6], &[255, 0, 1, 1, 1, 1]);
    assert_eq!((zoom(&cell, &layout), shutter(&cell, &layout)), (10, 904));
    enter_sub_window(&mut cell, &layout, 6, 1);
    assert_eq!(&cell[..6], &[0, 0, 2, 2, 2, 2]);
    assert_eq!((zoom(&cell, &layout), shutter(&cell, &layout)), (9, 392));
    // Sub-windows 2 to 5 hold 4000 items.
    assert_eq!(estimate(&cell, &layout, 6, DeltaStrategy::Under), 3464.0);
    assert_eq!(estimate(&cell, &layout, 6, DeltaStrategy::Over), 4488.0);
}

#[test]
fn a_partial_unit_is_dropped_once_the_window_is_empty() {
    let layout = MicroLayout::new(MicroParams::new(2, 2));
    let mut cell = vec![0u8; layout.depth()];
    cell[layout.zoom_at()] = 3;
    cell[0] = 200;
    set_shutter(&mut cell, &layout, 5);
    enter_sub_window(&mut cell, &layout, 1, 1);
    assert_eq!(shutter(&cell, &layout), 5);
    enter_sub_window(&mut cell, &layout, 2, 1);
    assert_eq!(shutter(&cell, &layout), 5);
    // Slot 0 is the spare one now.
    enter_sub_window(&mut cell, &layout, 3, 1);
    assert_eq!((cell[0], zoom(&cell, &layout), shutter(&cell, &layout)), (200, 3, 0));
}

#[test]
fn an_insert_that_zooms_out_is_off_by_less_than_a_unit_per_pixel() {
    let layout = MicroLayout::new(MicroParams::new(3, 3));
    for seed in 1..50 {
        let mut rounding = Rounding::new(seed);
        let mut cell = vec![0u8; layout.depth()];
        cell[..5].copy_from_slice(&[200, 31, 17, 255, 4]);
        cell[layout.zoom_at()] = 1;
        set_shutter(&mut cell, &layout, 2);
        let inside = estimate(&cell, &layout, 3, DeltaStrategy::Under);
        let over = estimate(&cell, &layout, 3, DeltaStrategy::Over);
        insert(&mut cell, &layout, 3, &mut rounding);
        assert_eq!((zoom(&cell, &layout), shutter(&cell, &layout)), (2, 0));
        let now = estimate(&cell, &layout, 3, DeltaStrategy::Under);
        let off = now - (inside + 1.0);
        assert!(-27.0 < off && off < 36.0, "off by {off}");
        let off = (estimate(&cell, &layout, 3, DeltaStrategy::Over) - now) - (over - inside);
        assert!(-9.0 < off && off < 9.0, "oldest off by {off}");
    }
}

#[test]
fn an_idle_cell_reports_nothing() {
    let layout = MicroLayout::new(MicroParams::new(2, 2));
    let mut cell = vec![0u8; layout.depth()];
    cell[layout.zoom_at()] = 3;
    cell[0] = 200;
    set_shutter(&mut cell, &layout, 5);
    for n in 1..=3 {
        enter_sub_window(&mut cell, &layout, n, 1);
    }
    let w = window_pixels(&cell, &layout, 3);
    assert_eq!((w.inside, w.oldest, w.shutter), (0, 0, 0));
}

#[test]
fn an_idle_cell_becomes_empty() {
    let layout = MicroLayout::new(MicroParams::new(4, 2));
    let mut rounding = Rounding::new(1);
    let mut cell = vec![0u8; layout.depth()];
    for _ in 0..301 {
        insert(&mut cell, &layout, 0, &mut rounding);
    }
    assert_eq!((zoom(&cell, &layout), shutter(&cell, &layout)), (1, 1));
    for n in 1..=6 {
        enter_sub_window(&mut cell, &layout, n, 1);
    }
    assert_eq!(cell, [0; 12]);
}

#[test]
fn a_zoom_in_reduces_the_shutter_below_the_smaller_unit() {
    let layout = MicroLayout::new(MicroParams::new(2, 3));
    let mut cell = vec![0u8; layout.depth()];
    cell[layout.zoom_at()] = 2;
    cell[0] = 4;
    set_shutter(&mut cell, &layout, 8);
    assert!(try_zoom_in(&mut cell, &layout));
    assert_eq!((zoom(&cell, &layout), cell[0], shutter(&cell, &layout)), (1, 12, 2));
    assert!(try_zoom_in(&mut cell, &layout));
    assert_eq!((zoom(&cell, &layout), cell[0], shutter(&cell, &layout)), (0, 36, 0));
    // A unit that no shutter can reach takes nothing away.
    cell[layout.zoom_at()] = 200;
    set_shutter(&mut cell, &layout, u32::MAX);
    assert!(try_zoom_in(&mut cell, &layout));
    assert_eq!((zoom(&cell, &layout), shutter(&cell, &layout)), (199, u32::MAX));
    // A refused zoom-in changes nothing.
    let full = cell.clone();
    assert!(!try_zoom_in(&mut cell, &layout));
    assert_eq!(cell, full);
}

#[test]
fn a_fraction_beyond_an_end_counts_as_that_end() {
    let layout = MicroLayout::new(MicroParams::new(2, 2));
    let mut cell = vec![0u8; layout.depth()];
    cell[..4].copy_from_slice(&[10, 3, 4, 0]);
    assert_eq!(estimate(&cell, &layout, 2, DeltaStrategy::Linear(-1.0)), 7.0);
    assert_eq!(estimate(&cell, &layout, 2, DeltaStrategy::Linear(0.5)), 12.0);
    assert_eq!(estimate(&cell, &layout, 2, DeltaStrategy::Linear(2.0)), 17.0);
    // Before sub-window T nothing has expired.
    assert_eq!(estimate(&cell, &layout, 1, DeltaStrategy::Under), 13.0);
    assert_eq!(estimate(&cell, &layout, 1, DeltaStrategy::Over), 13.0);
}

#[test]
fn merging_at_two_zooms_does_not_depend_on_the_order() {
    let layout = MicroLayout::new(MicroParams::new(2, 2));
    let mut a = vec![0u8; layout.depth()];
    let mut b = vec![0u8; layout.depth()];
    a[layout.zoom_at()] = 2;
    a[..4].copy_from_slice(&[3, 5, 7, 9]);
    b[..4].copy_from_slice(&[13, 27, 31, 255]);
    set_shutter(&mut a, &layout, 3);
    let mut ab = a.clone();
    let mut ba = b.clone();
    let mut left = Rounding::new(9);
    let mut right = Rounding::new(9);
    merge_cells(&mut ab, &b, &layout, 1, &mut left);
    merge_cells(&mut ba, &a, &layout, 1, &mut right);
    assert_eq!(ab, ba);
    assert_eq!(left.state(), right.state());
}

#[test]
fn every_boundary_is_a_chance_to_zoom_in() {
    let layout = MicroLayout::new(MicroParams::new(2, 2));
    let mut cell = vec![0u8; layout.depth()];
    cell[layout.zoom_at()] = 9;
    cell[0] = 1;
    enter_sub_window(&mut cell, &layout, 2, 2);
    assert_eq!((zoom(&cell, &layout), cell[0]), (7, 4));
    // A long jump has as many chances as there are slots.
    enter_sub_window(&mut cell, &layout, 1_000, 998);
    assert_eq!(zoom(&cell, &layout), 3);
}

#[test]
fn sub_windows_before_the_stream_count_nothing() {
    let layout = MicroLayout::new(MicroParams::new(3, 2));
    let mut cell = vec![0u8; layout.depth()];
    for slot in cell.iter_mut().take(5) {
        *slot = 1;
    }
    let w = window_pixels(&cell, &layout, 1);
    assert_eq!((w.inside, w.oldest), (2, 0));
    let w = window_pixels(&cell, &layout, 3);
    assert_eq!((w.inside, w.oldest), (3, 1));
}

#[test]
fn merging_at_one_zoom_adds_the_windows() {
    let layout = MicroLayout::new(MicroParams::new(2, 2));
    let mut rounding = Rounding::new(5);
    let state = rounding.state();
    let mut a = vec![0u8; layout.depth()];
    let mut b = vec![0u8; layout.depth()];
    a[layout.zoom_at()] = 2;
    b[layout.zoom_at()] = 2;
    a[..4].copy_from_slice(&[1, 2, 3, 4]);
    b[..4].copy_from_slice(&[10, 20, 30, 40]);
    set_shutter(&mut a, &layout, 3);
    set_shutter(&mut b, &layout, 2);
    let mut ba = b.clone();
    merge_cells(&mut ba, &a, &layout, 2, &mut rounding);
    merge_cells(&mut a, &b, &layout, 2, &mut rounding);
    // 3 + 2 items are one unit of four and one item.
    assert_eq!(&a[..4], &[11, 22, 34, 44]);
    assert_eq!((zoom(&a, &layout), shutter(&a, &layout)), (2, 1));
    assert_eq!(a, ba, "the order does not matter");
    assert_eq!(rounding.state(), state, "no draw was needed");
}

#[test]
fn merging_at_two_zooms_scales_the_finer_side_down() {
    let layout = MicroLayout::new(MicroParams::new(2, 2));
    let mut rounding = Rounding::new(5);
    let mut coarse = vec![0u8; layout.depth()];
    let mut fine = vec![0u8; layout.depth()];
    coarse[layout.zoom_at()] = 2;
    coarse[..4].copy_from_slice(&[1, 1, 1, 1]);
    fine[..4].copy_from_slice(&[4, 8, 12, 16]);
    merge_cells(&mut coarse, &fine, &layout, 0, &mut rounding);
    assert_eq!(&coarse[..4], &[2, 3, 4, 5]);
    assert_eq!(zoom(&coarse, &layout), 2);
}

#[test]
fn a_merge_that_overflows_zooms_out() {
    let layout = MicroLayout::new(MicroParams::new(1, 2));
    let mut rounding = Rounding::new(5);
    let mut a = vec![0u8; layout.depth()];
    a[..3].copy_from_slice(&[200, 100, 2]);
    let b = a.clone();
    merge_cells(&mut a, &b, &layout, 0, &mut rounding);
    assert_eq!(&a[..3], &[200, 100, 2]);
    assert_eq!(zoom(&a, &layout), 1);
    // At the cap the sums are cut off instead.
    let layout = MicroLayout::new(MicroParams::new(1, u32::MAX));
    let mut a = vec![0u8; layout.depth()];
    a[layout.zoom_at()] = 1;
    a[..3].copy_from_slice(&[200, 100, 2]);
    let b = a.clone();
    merge_cells(&mut a, &b, &layout, 0, &mut rounding);
    assert_eq!(&a[..3], &[255, 200, 4]);
    assert_eq!(zoom(&a, &layout), 1);
}

#[test]
fn scaling_down_divides_once_per_step() {
    let mut rounding = Rounding::new(5);
    assert_eq!(scale_down(81, 4, 3, &mut rounding), 1);
    assert_eq!(scale_down(81, 0, 3, &mut rounding), 81);
}

#[test]
fn padding_is_left_alone() {
    let layout = MicroLayout::new(MicroParams::new(2, 2));
    // 4 pixels + 1 zoom + 4 shutter = 9 bytes, padded to 12.
    assert_eq!(layout.depth(), 12);
    let mut cell = vec![0u8; 12];
    cell[9..].copy_from_slice(&[7, 8, 9]);
    let mut rounding = Rounding::new(5);
    let other = cell.clone();
    for n in 0..400 {
        insert(&mut cell, &layout, n / 300, &mut rounding);
    }
    enter_sub_window(&mut cell, &layout, 2, 1);
    merge_cells(&mut cell, &other, &layout, 2, &mut rounding);
    assert_eq!(&cell[9..], &[7, 8, 9]);
}

#[test]
fn repeated_division_has_the_exact_quotient_as_its_mean() {
    let mut rounding = Rounding::new(0xABCD);
    let draws = 200_000u32;
    let total: u64 = (0..draws).map(|_| scale_down(100, 3, 3, &mut rounding) as u64).sum();
    let mean = total as f64 / draws as f64;
    assert!((mean - 100.0 / 27.0).abs() < 0.02, "mean {mean}");
}

#[test]
fn one_sided_policies_bracket_the_true_count() {
    let layout = MicroLayout::new(MicroParams::new(3, 2));
    let mut rounding = Rounding::new(1);
    let mut cell = vec![0u8; layout.depth()];
    let counts = [17u64, 0, 200, 31, 255, 4];
    for (n, &count) in counts.iter().enumerate() {
        if n > 0 {
            enter_sub_window(&mut cell, &layout, n as u64, 1);
        }
        for _ in 0..count {
            insert(&mut cell, &layout, n as u64, &mut rounding);
        }
        let inside: u64 = counts[..=n].iter().rev().take(3).sum();
        let oldest = if n >= 3 { counts[n - 3] } else { 0 };
        let under = estimate(&cell, &layout, n as u64, DeltaStrategy::Under);
        let over = estimate(&cell, &layout, n as u64, DeltaStrategy::Over);
        assert_eq!(under, inside as f64);
        assert_eq!(over, (inside + oldest) as f64);
    }
}

#[test]
fn a_long_jump_leaves_nothing_to_report() {
    let layout = MicroLayout::new(MicroParams::new(3, 2));
    let (mut cell, n) = run(&layout, 5_000, 700);
    enter_sub_window(&mut cell, &layout, n + 5, 5);
    assert_eq!(estimate(&cell, &layout, n + 5, DeltaStrategy::Over), 0.0);
}

#[test]
fn a_zoom_in_keeps_what_is_reported() {
    let layout = MicroLayout::new(MicroParams::new(3, 2));
    let mut cell = vec![0u8; layout.depth()];
    cell[layout.zoom_at()] = 4;
    cell[..5].copy_from_slice(&[3, 50, 127, 9, 0]);
    set_shutter(&mut cell, &layout, 5);
    for n in 0..8 {
        let mut zoomed = cell.clone();
        assert!(try_zoom_in(&mut zoomed, &layout));
        for strategy in [DeltaStrategy::Over, DeltaStrategy::Under, DeltaStrategy::Linear(0.25)] {
            assert_eq!(
                estimate(&cell, &layout, n, strategy),
                estimate(&zoomed, &layout, n, strategy)
            );
        }
    }
}
