//! One MicroscopeSketch cell: the record layout and the operations on it.
//!
//! A cell is a byte record, so this module works on `&[u8]` / `&mut [u8]` and
//! knows nothing about the matrix it lives in.
//!
//! # The camera
//!
//! A cell counts the items of a sliding window of `W` items, split into `T`
//! equal sub-windows. It holds:
//!
//! - **pixels**: `T + 2` one-byte counters, a ring indexed by sub-window
//!   number. Pixel `i` holds the count of sub-window `i`, scaled.
//! - **zoom** `Z`: one shared exponent. A pixel's unit is `c^Z` items, so the
//!   whole cell zooms together and one exponent serves every pixel.
//! - **shutter** `S`: items counted since the current pixel last ticked, i.e.
//!   the remainder below one `c^Z` unit.
//!
//! # Why `T + 2` pixels for a `T` sub-window window
//!
//! At sub-window `n` the window covers all of sub-windows `n-T+1 ..= n` plus
//! a shrinking fraction of `n-T`, which is `T + 1` live pixels. The extra
//! slot is the one being cleared ahead of its reuse at `n+1`.

use super::model;
use vstd::arithmetic::power::*;
use vstd::prelude::*;

verus! {

/// The largest value a one-byte pixel can hold.
pub const PIXEL_MAX: u8 = 255;

/// Zoom exponents are capped so `c^Z` always fits a `u32`.
///
/// At the cap a pixel saturates instead of zooming further, so the estimate
/// stops growing rather than wrapping.
pub const MAX_SHUTTER: u32 = 0xFFFF_FFFF;

/// Configuration of a MicroscopeSketch cell.
#[derive(Clone, Copy, Debug, PartialEq, Eq, Structural)]
pub struct MicroParams {
    /// Number of sub-windows the sliding window is split into.
    pub t: usize,
    /// Zoom base. Each zoom-out divides every pixel by `c` and raises `Z`.
    pub c: u32,
}

impl MicroParams {
    /// At least one sub-window, and a zoom base that shrinks what it divides.
    pub open spec fn wf(self) -> bool {
        self.t >= 1 && self.c >= 2
    }

    /// Number of pixels, i.e. `T + 2`.
    pub open spec fn pixel_count(self) -> nat {
        (self.t + 2) as nat
    }

    /// Byte offset of the zoom exponent, right behind the pixels.
    pub open spec fn zoom_offset(self) -> int {
        self.t + 2
    }

    /// Byte offset of the four shutter bytes, right behind the zoom exponent.
    pub open spec fn shutter_offset(self) -> int {
        self.t + 3
    }

    /// The bytes of a record that carry a field: pixels, zoom and shutter.
    pub open spec fn field_bytes(self) -> int {
        self.t + 7
    }

    /// The record length: the field bytes, rounded up to a multiple of four.
    pub open spec fn record_len(self) -> int {
        (self.field_bytes() + 3) / 4 * 4
    }

    /// The pixel slot of sub-window `n`.
    pub open spec fn slot(self, n: int) -> int {
        n % (self.t + 2)
    }

    /// Builds parameters of at least one sub-window and a zoom base of at
    /// least 2.
    pub fn new(t: usize, c: u32) -> (params: Self)
        requires
            t > 0,
            c >= 2,
        ensures
            params.t == t,
            params.c == c,
            params.wf(),
    {
        MicroParams { t, c }
    }
}

impl Default for MicroParams {
    /// `T = 12`, `c = 2`.
    fn default() -> (params: Self)
        ensures
            params.t == 12,
            params.c == 2,
            params.wf(),
    {
        MicroParams { t: 12, c: 2 }
    }
}

/// Two 32-bit factors have a 64-bit product.
proof fn lemma_product_fits(a: int, b: int)
    requires
        0 <= a <= u32::MAX,
        0 <= b <= u32::MAX,
    ensures
        0 <= a * b <= u64::MAX,
        a * b == b * a,
{
    assert(0 <= a * b <= 0xFFFF_FFFF * 0xFFFF_FFFF) by (nonlinear_arith)
        requires
            0 <= a <= 0xFFFF_FFFF,
            0 <= b <= 0xFFFF_FFFF,
    ;
    assert(a * b == b * a) by (nonlinear_arith);
}

/// Byte offsets of a cell's fields, derived once from [`MicroParams`].
///
/// Layout: `[ pixels: T+2 bytes ][ Z: 1 byte ][ S: 4 bytes LE ][ pad ]`,
/// with the record length rounded up to a multiple of 4 so the shutter of
/// every cell sits at the same alignment within the backing storage.
#[derive(Clone, Copy, Debug, PartialEq, Eq)]
pub struct MicroLayout {
    params: MicroParams,
    pixels: usize,
    zoom_at: usize,
    shutter_at: usize,
    depth: usize,
    /// The largest pixel value that survives a zoom-in.
    zoom_in_ceiling: u32,
}

/// A layout is seen as the parameters that it was derived from.
impl View for MicroLayout {
    type V = MicroParams;

    closed spec fn view(&self) -> MicroParams {
        self.params
    }
}

impl MicroLayout {
    #[verifier::type_invariant]
    spec fn derived(self) -> bool {
        &&& self.params.wf()
        &&& self.params.record_len() <= usize::MAX
        &&& self.pixels == self.params.pixel_count()
        &&& self.zoom_at == self.params.zoom_offset()
        &&& self.shutter_at == self.params.shutter_offset()
        &&& self.depth == self.params.record_len()
        &&& self.zoom_in_ceiling == 255int / (self.params.c as int)
    }

    /// Derives the layout for `params`.
    pub fn new(params: MicroParams) -> (layout: Self)
        requires
            params.wf(),
            params.record_len() <= usize::MAX,
        ensures
            layout@ == params,
    {
        let pixels: usize = params.t + 2;
        let zoom_at: usize = pixels;
        let shutter_at: usize = pixels + 1;
        let unpadded: usize = shutter_at + 4;
        let depth: usize = if unpadded % 4 == 0 {
            unpadded
        } else {
            unpadded - unpadded % 4 + 4
        };
        let zoom_in_ceiling: u32 = 255 / params.c;
        MicroLayout { params, pixels, zoom_at, shutter_at, depth, zoom_in_ceiling }
    }

    /// The parameters this layout came from.
    pub fn params(&self) -> (params: MicroParams)
        ensures
            params == self@,
            params.wf(),
    {
        proof {
            use_type_invariant(self);
        }
        self.params
    }

    /// Bytes per cell.
    pub fn depth(&self) -> (depth: usize)
        ensures
            depth == self@.record_len(),
            depth % 4 == 0,
            self@.field_bytes() <= depth < self@.field_bytes() + 4,
    {
        proof {
            use_type_invariant(self);
        }
        self.depth
    }

    /// Number of pixels, i.e. `T + 2`.
    pub fn pixels(&self) -> (pixels: usize)
        ensures
            pixels == self@.pixel_count(),
    {
        proof {
            use_type_invariant(self);
        }
        self.pixels
    }

    /// Byte offset of the zoom exponent.
    pub fn zoom_at(&self) -> (at: usize)
        ensures
            at == self@.zoom_offset(),
    {
        proof {
            use_type_invariant(self);
        }
        self.zoom_at
    }

    /// Byte offset of the pixel holding sub-window `n`.
    pub fn pixel_at(&self, n: u64) -> (at: usize)
        ensures
            at == self@.slot(n as int),
            at < self@.pixel_count(),
    {
        proof {
            use_type_invariant(self);
        }
        (n % (self.pixels as u64)) as usize
    }

    /// The largest zoom exponent for which `c^Z` still fits a `u32`.
    pub fn max_zoom(&self) -> (z: u8)
        ensures
            pow(self@.c as int, z as nat) <= MAX_SHUTTER,
            pow(self@.c as int, (z + 1) as nat) > MAX_SHUTTER,
    {
        proof {
            use_type_invariant(self);
        }
        let c: u64 = self.params.c as u64;
        let mut z: u8 = 0;
        let mut value: u64 = 1;
        proof {
            lemma_pow0(c as int);
        }
        while value * c <= MAX_SHUTTER as u64
            invariant
                c == self@.c,
                2 <= c <= u32::MAX,
                1 <= value <= MAX_SHUTTER,
                value == pow(c as int, z as nat),
                value * c <= u64::MAX,
            decreases MAX_SHUTTER - value,
        {
            proof {
                crate::arith::lemma_pow_step(c as int, z as nat);
                crate::arith::lemma_pow_doubles(c as int, z as nat);
                crate::arith::lemma_exponent_below_32(c as int, z as nat);
                lemma_product_fits(value as int, c as int);
            }
            value = value * c;
            z = z + 1;
            proof {
                lemma_product_fits(value as int, c as int);
            }
        }
        proof {
            crate::arith::lemma_pow_step(c as int, z as nat);
            assert(value * c == c * value) by (nonlinear_arith);
        }
        z
    }
}

/// A cell's zoom exponent.
pub fn zoom(cell: &[u8], layout: &MicroLayout) -> (z: u8)
    requires
        layout@.zoom_offset() < cell@.len(),
    ensures
        z == model::decode(cell@, layout@).zoom,
{
    proof {
        use_type_invariant(layout);
    }
    cell[layout.zoom_at]
}

/// A cell's shutter, read byte by byte, so the record needs no alignment
/// guarantee beyond being a byte slice.
pub fn shutter(cell: &[u8], layout: &MicroLayout) -> (s: u32)
    requires
        layout@.field_bytes() <= cell@.len(),
    ensures
        s == model::decode(cell@, layout@).shutter,
{
    proof {
        use_type_invariant(layout);
    }
    let at: usize = layout.shutter_at;
    cell[at] as u32 + 0x100 * (cell[at + 1] as u32) + 0x1_0000 * (cell[at + 2] as u32) + 0x100_0000
        * (cell[at + 3] as u32)
}

/// Writes a cell's shutter, and nothing but its four bytes.
pub fn set_shutter(cell: &mut [u8], layout: &MicroLayout, value: u32)
    requires
        layout@.field_bytes() <= old(cell)@.len(),
    ensures
        final(cell)@.len() == old(cell)@.len(),
        model::decode(final(cell)@, layout@) == (model::CellModel {
            shutter: value as int,
            ..model::decode(old(cell)@, layout@)
        }),
        model::same_padding(old(cell)@, final(cell)@, layout@),
{
    proof {
        use_type_invariant(layout);
    }
    let at: usize = layout.shutter_at;
    cell[at] = (value % 0x100) as u8;
    cell[at + 1] = (value / 0x100 % 0x100) as u8;
    cell[at + 2] = (value / 0x1_0000 % 0x100) as u8;
    cell[at + 3] = (value / 0x100_0000) as u8;
    assert(model::decode(cell@, layout@).pixels =~= model::decode(old(cell)@, layout@).pixels);
}

/// The pixel value for sub-window `n`.
pub fn pixel(cell: &[u8], layout: &MicroLayout, n: u64) -> (v: u8)
    requires
        layout@.slot(n as int) < cell@.len(),
    ensures
        v == cell@[layout@.slot(n as int)],
        v == model::decode(cell@, layout@).pixels[layout@.slot(n as int)],
{
    let at: usize = layout.pixel_at(n);
    cell[at]
}

/// A tiny xorshift64* used for the unbiased rounding of a zoom-out.
///
/// The state is a plain `u64`, so a sketch holding one can store it and reseed
/// on load.
#[derive(Clone, Debug)]
pub struct Rounding {
    state: u64,
}

/// A generator is seen as its state.
impl View for Rounding {
    type V = u64;

    closed spec fn view(&self) -> u64 {
        self.state
    }
}

impl Rounding {
    /// Seeds the generator. A zero seed is replaced, since xorshift is stuck
    /// at zero.
    pub fn new(seed: u64) -> (rounding: Self)
        ensures
            seed != 0 ==> rounding@ == seed,
            seed == 0 ==> rounding@ == 0x9E37_79B9_7F4A_7C15,
    {
        if seed == 0 {
            Rounding { state: 0x9E37_79B9_7F4A_7C15 }
        } else {
            Rounding { state: seed }
        }
    }

    /// The current state, from which [`Self::new`] makes the same generator.
    pub fn state(&self) -> (state: u64)
        ensures
            state == self@,
    {
        self.state
    }

    /// Draws a number and advances the state.
    pub fn next_u64(&mut self) -> (x: u64)
        ensures
            x == model::draw(old(self)@),
            final(self)@ == model::next_state(old(self)@),
    {
        let mut x: u64 = self.state;
        x = x ^ (x >> 12);
        x = x ^ (x << 25);
        x = x ^ (x >> 27);
        self.state = x;
        x.wrapping_mul(0x2545_F491_4F6C_DD1D)
    }
}

/// Divides `value` by `c`, rounding the remainder up with probability `r / c`.
///
/// Truncating every zoom-out would bias a cell's estimate down by up to
/// `(c-1)/c` of a pixel unit per zoom, compounding across zooms and across
/// pixels. Rounding probabilistically makes each division unbiased, so the
/// estimate stays unbiased however many times the cell has zoomed.
pub fn unbiased_div(value: u32, c: u32, rounding: &mut Rounding) -> (q: u32)
    requires
        c > 0,
    ensures
        (q as int, final(rounding)@) == model::div_step(value as int, c as int, old(rounding)@),
        value / c <= q <= value / c + 1,
{
    let quotient: u32 = value / c;
    let remainder: u32 = value % c;
    if remainder == 0 {
        return quotient;
    }
    proof {
        assert(c >= 2);
        assert(value / c <= value / 2) by (nonlinear_arith)
            requires
                c >= 2,
        ;
    }
    if rounding.next_u64() % (c as u64) < remainder as u64 {
        quotient + 1
    } else {
        quotient
    }
}

/// Zooms the cell out: `Z` goes up by one and every pixel is divided by `c`.
///
/// At the zoom cap this is a no-op, and the caller saturates the pixel
/// instead. Returns whether it zoomed.
pub fn zoom_out(cell: &mut [u8], layout: &MicroLayout, rounding: &mut Rounding) -> (zoomed: bool)
    requires
        layout@.zoom_offset() < old(cell)@.len(),
    ensures
        zoomed == model::can_zoom_out(layout@, model::decode(old(cell)@, layout@).zoom),
        model::same_from(old(cell)@, final(cell)@, layout@.zoom_offset() + 1),
        !zoomed ==> final(cell)@ == old(cell)@ && final(rounding)@ == old(rounding)@,
        zoomed ==> ({
            let (out, state) = model::zoom_out(
                model::decode(old(cell)@, layout@),
                layout@,
                old(rounding)@,
            );
            &&& model::decode(final(cell)@, layout@).pixels == out.pixels
            &&& model::decode(final(cell)@, layout@).zoom == out.zoom
            &&& final(rounding)@ == state
        }),
{
    proof {
        use_type_invariant(layout);
    }
    let ghost p = layout@;
    let ghost before = cell@;
    let ghost start = rounding@;
    let ghost pixels = model::decode(before, p).pixels;
    let z: u8 = cell[layout.zoom_at];
    let cap: u8 = layout.max_zoom();
    proof {
        lemma_cap(p, z as nat, cap as nat);
    }
    if z >= cap {
        return false;
    }
    proof {
        crate::arith::lemma_exponent_below_32(p.c as int, (z + 1) as nat);
    }
    cell[layout.zoom_at] = z + 1;
    let c: u32 = layout.params.c;
    let count: usize = layout.pixels;
    let mut i: usize = 0;
    proof {
        assert(pixels.take(0) =~= Seq::empty());
    }
    while i < count
        invariant
            i <= count,
            count == p.pixel_count(),
            count == p.zoom_offset(),
            c == p.c,
            c >= 2,
            p == layout@,
            before.len() > p.zoom_offset(),
            cell@.len() == before.len(),
            pixels == model::decode(before, p).pixels,
            cell@[p.zoom_offset()] == z + 1,
            forall|j: int| i <= j < count ==> cell@[j] == before[j],
            model::same_from(before, cell@, p.zoom_offset() + 1),
            forall|j: int|
                0 <= j < i ==> cell@[j] == #[trigger] model::div_all(
                    pixels.take(i as int),
                    c as int,
                    start,
                ).0[j],
            model::div_all(pixels.take(i as int), c as int, start).0.len() == i,
            rounding@ == model::div_all(pixels.take(i as int), c as int, start).1,
        decreases count - i,
    {
        let ghost s = rounding@;
        proof {
            assert(pixels.take(i + 1).drop_last() =~= pixels.take(i as int));
            assert(pixels.take(i + 1).last() == before[i as int] as int);
            model::lemma_div_step_bounds(before[i as int] as int, c as int, s);
        }
        let q: u32 = unbiased_div(cell[i] as u32, c, rounding);
        cell[i] = q as u8;
        i = i + 1;
    }
    proof {
        assert(pixels.take(count as int) =~= pixels);
        assert(model::decode(cell@, p).pixels =~= model::div_all(pixels, c as int, start).0);
    }
    true
}

/// An exponent is below the cap exactly when a unit at the next one still
/// fits a `u32`.
proof fn lemma_cap(p: MicroParams, z: nat, cap: nat)
    requires
        p.c >= 2,
        pow(p.c as int, cap) <= MAX_SHUTTER,
        pow(p.c as int, cap + 1) > MAX_SHUTTER,
    ensures
        z < cap <==> model::can_zoom_out(p, z as int),
{
    if z < cap {
        lemma_pow_increases(p.c as nat, z + 1, cap);
    } else {
        lemma_pow_increases(p.c as nat, cap + 1, z + 1);
    }
}

/// Records one item in sub-window `n`.
///
/// Two things happen:
///
/// 1. The shutter advances. It only rolls into the current pixel once it
///    reaches `c^Z`, which is what makes a pixel worth `c^Z` items.
/// 2. If that roll would take the pixel past what 8 bits hold, the cell
///    zooms out first and the increment lands on the divided value.
///
/// Expiry is *not* done here: see [`enter_sub_window`].
pub fn insert(cell: &mut [u8], layout: &MicroLayout, n: u64, rounding: &mut Rounding)
    requires
        layout@.field_bytes() <= old(cell)@.len(),
        model::unit(layout@, model::decode(old(cell)@, layout@).zoom) <= u64::MAX,
    ensures
        (model::decode(final(cell)@, layout@), final(rounding)@) == model::insert(
            model::decode(old(cell)@, layout@),
            layout@,
            n as int,
            old(rounding)@,
        ),
        model::same_padding(old(cell)@, final(cell)@, layout@),
{
    proof {
        use_type_invariant(layout);
    }
    let ghost p = layout@;
    let ghost m = model::decode(cell@, p);
    // Advance the shutter.
    let z: u8 = cell[layout.zoom_at];
    let unit: u64 = crate::arith::power(layout.params.c as u64, z);
    let next_shutter: u64 = shutter(cell, layout) as u64 + 1;
    if next_shutter < unit {
        set_shutter(cell, layout, (next_shutter % 0x1_0000_0000) as u32);
        return;
    }
    // The shutter closed: roll it into the current pixel.
    set_shutter(cell, layout, 0);
    let current: usize = layout.pixel_at(n);
    if cell[current] == PIXEL_MAX {
        if !zoom_out(cell, layout, rounding) {
            // At the zoom cap; saturate rather than wrap.
            return;
        }
        proof {
            model::lemma_div_all_bounds(m.pixels, p.c as int, old(rounding)@);
            assert(model::decode(cell@, p).pixels[current as int] == model::div_all(
                m.pixels,
                p.c as int,
                old(rounding)@,
            ).0[current as int]);
        }
    }
    let ghost rolled = cell@;
    cell[current] = cell[current] + 1;
    assert(model::decode(cell@, p).pixels =~= model::decode(rolled, p).pixels.update(
        current as int,
        rolled[current as int] + 1,
    ));
}

/// Restores resolution when the cell has room for it: if every pixel would
/// still fit after multiplying by `c`, multiply them and drop `Z` by one.
///
/// The shutter is the remainder below one unit, so it is reduced with the
/// unit: what is left of it is below the smaller one.
///
/// Meant to be called once per sub-window boundary, not per item. Returns
/// whether it zoomed.
pub fn try_zoom_in(cell: &mut [u8], layout: &MicroLayout) -> (zoomed: bool)
    requires
        layout@.field_bytes() <= old(cell)@.len(),
    ensures
        zoomed == model::can_zoom_in(model::decode(old(cell)@, layout@), layout@),
        !zoomed ==> final(cell)@ == old(cell)@,
        model::decode(final(cell)@, layout@) == model::zoom_in(
            model::decode(old(cell)@, layout@),
            layout@,
        ),
        model::below_one_unit(model::decode(old(cell)@, layout@), layout@)
            ==> model::below_one_unit(model::decode(final(cell)@, layout@), layout@),
        model::same_padding(old(cell)@, final(cell)@, layout@),
{
    proof {
        use_type_invariant(layout);
    }
    let ghost p = layout@;
    let ghost before = cell@;
    let ghost m = model::decode(before, p);
    let z: u8 = cell[layout.zoom_at];
    if z == 0 {
        return false;
    }
    let ceiling: u32 = layout.zoom_in_ceiling;
    let c: u32 = layout.params.c;
    let count: usize = layout.pixels;
    let mut i: usize = 0;
    while i < count
        invariant
            i <= count,
            count == p.pixel_count(),
            count < before.len(),
            cell@ == before,
            before == old(cell)@,
            m == model::decode(before, p),
            p == layout@,
            c == p.c,
            c >= 2,
            ceiling == 255int / (c as int),
            forall|j: int| 0 <= j < i ==> #[trigger] m.pixels[j] * c <= 255,
        decreases count - i,
    {
        proof {
            lemma_ceiling(cell@[i as int] as int, c as int);
            assert(m.pixels[i as int] == cell@[i as int]);
        }
        if cell[i] as u32 > ceiling {
            return false;
        }
        i = i + 1;
    }
    i = 0;
    while i < count
        invariant
            i <= count,
            count == p.pixel_count(),
            count == p.zoom_offset(),
            count < before.len(),
            p == layout@,
            c == p.c,
            m == model::decode(before, p),
            model::same_from(before, cell@, count as int),
            forall|j: int| 0 <= j < count ==> #[trigger] m.pixels[j] * c <= 255,
            forall|j: int| 0 <= j < i ==> cell@[j] == #[trigger] m.pixels[j] * c,
            forall|j: int| i <= j < count ==> cell@[j] == #[trigger] m.pixels[j],
        decreases count - i,
    {
        assert(m.pixels[i as int] * c <= 255);
        cell[i] = (cell[i] as u32 * c) as u8;
        i = i + 1;
    }
    cell[layout.zoom_at] = z - 1;
    assert(model::decode(cell@, p).pixels =~= model::zoom_in(m, p).pixels);
    let cap: u8 = layout.max_zoom();
    let partial: u32 = shutter(cell, layout);
    assert(partial == m.shutter);
    proof {
        lemma_pow_positive(p.c as int, (z - 1) as nat);
        vstd::arithmetic::div_mod::lemma_mod_bound(m.shutter, model::unit(p, z - 1));
    }
    if z - 1 <= cap {
        proof {
            lemma_pow_increases(p.c as nat, (z - 1) as nat, cap as nat);
        }
        let unit: u64 = crate::arith::power(c as u64, z - 1);
        set_shutter(cell, layout, (partial as u64 % unit) as u32);
    } else {
        // Beyond the cap a unit is more than a shutter can hold.
        proof {
            lemma_pow_increases(p.c as nat, (cap + 1) as nat, (z - 1) as nat);
            vstd::arithmetic::div_mod::lemma_small_mod(
                partial as nat,
                model::unit(p, z - 1) as nat,
            );
        }
    }
    true
}

/// A product with `c` fits a byte exactly when the factor is at most `255 / c`.
proof fn lemma_ceiling(x: int, c: int)
    requires
        x >= 0,
        c >= 2,
    ensures
        x * c <= 255 <==> x <= 255int / c,
{
    let k = 255int / c;
    assert(255 == c * k + 255int % c && 0 <= 255int % c < c) by {
        vstd::arithmetic::div_mod::lemma_fundamental_div_mod(255, c);
        vstd::arithmetic::div_mod::lemma_mod_bound(255, c);
    }
    if x <= k {
        assert(x * c <= c * k) by (nonlinear_arith)
            requires
                x <= k,
                c >= 2,
        ;
    } else {
        assert(x * c >= c * k + c) by (nonlinear_arith)
            requires
                x >= k + 1,
                c >= 2,
        ;
    }
}

/// Moves the cell into sub-window `new_n`, having crossed `crossed`
/// boundaries to get there.
///
/// This is where a cell forgets. The pixel ring is indexed by sub-window
/// number, so the slot a new sub-window lands on still holds the count of
/// the sub-window `T + 2` before it; unless it is cleared on the way in,
/// that stale count is read back as if it belonged to the new sub-window.
///
/// Clearing has to happen for **every** cell at a boundary, not for the cell
/// an insert happens to touch: a cell whose key stops appearing receives no
/// inserts, and is exactly the cell whose stale pixels would otherwise be
/// re-read as recent ones.
///
/// The shutter goes on: what it holds rolls into a pixel with the items that
/// follow. Only where no pixel of the window is left does a scaled cell drop the
/// partial unit, or an idle cell would go on reporting it.
///
/// A jump of `T + 2` or more sub-windows has left nothing behind, so the
/// pixels and the shutter are reset outright rather than slot by slot.
pub fn enter_sub_window(cell: &mut [u8], layout: &MicroLayout, new_n: u64, crossed: u64)
    requires
        crossed > 0 ==> layout@.field_bytes() <= old(cell)@.len(),
        crossed < layout@.pixel_count() ==> crossed <= new_n + 1,
    ensures
        model::decode(final(cell)@, layout@) == model::enter_sub_window(
            model::decode(old(cell)@, layout@),
            layout@,
            new_n as int,
            crossed as int,
        ),
        model::same_padding(old(cell)@, final(cell)@, layout@),
{
    proof {
        use_type_invariant(layout);
    }
    let ghost p = layout@;
    let ghost before = cell@;
    let ghost m = model::decode(before, p);
    if crossed == 0 {
        return;
    }
    let count: usize = layout.pixels;
    let tries: u64 = if crossed < count as u64 {
        crossed
    } else {
        count as u64
    };
    if crossed >= count as u64 {
        let mut i: usize = 0;
        while i < count
            invariant
                i <= count,
                count == p.pixel_count(),
                count < before.len(),
                model::same_from(before, cell@, count as int),
                forall|j: int| 0 <= j < i ==> cell@[j] == 0,
            decreases count - i,
        {
            cell[i] = 0;
            i = i + 1;
        }
        // The shutter held a partial unit of a sub-window that is now gone.
        set_shutter(cell, layout, 0);
    } else {
        // Clear each slot entered on the way, oldest of them first.
        let mut step: u64 = crossed;
        while step > 0
            invariant
                step <= crossed <= new_n + 1,
                p == layout@,
                count == p.pixel_count(),
                count < before.len(),
                m == model::decode(before, p),
                model::same_from(before, cell@, count as int),
                forall|i: int|
                    0 <= i < count ==> #[trigger] cell@[i] == (if exists|k: int|
                        step <= k < crossed && #[trigger] p.slot(new_n - k) == i {
                        0
                    } else {
                        before[i]
                    }),
            decreases step,
        {
            step = step - 1;
            let at: usize = layout.pixel_at(new_n - step);
            let ghost last = cell@;
            cell[at] = 0;
            assert forall|i: int| 0 <= i < count implies #[trigger] cell@[i] == (if exists|k: int|
                step <= k < crossed && #[trigger] p.slot(new_n - k) == i {
                0
            } else {
                before[i]
            }) by {
                assert(p.slot(new_n - step) == at);
                if exists|k: int| step <= k < crossed && #[trigger] p.slot(new_n - k) == i {
                    let k = choose|k: int| step <= k < crossed && #[trigger] p.slot(new_n - k) == i;
                    if i != at {
                        assert(step + 1 <= k < crossed && p.slot(new_n - k) == i);
                    }
                } else {
                    assert(i != at);
                    assert(!exists|k: int|
                        step + 1 <= k < crossed && #[trigger] p.slot(new_n - k) == i);
                }
                assert(i != at ==> cell@[i] == last[i]);
            }
        }
        assert(model::decode(cell@, p).pixels =~= model::forget(
            m,
            p,
            new_n as int,
            crossed as int,
        ).pixels);
        assert(model::le32(cell@, p.shutter_offset()) == m.shutter);
        if cell[layout.zoom_at] > 0 && window_is_empty(cell, layout, new_n) {
            set_shutter(cell, layout, 0);
        }
    }
    let ghost cleared = model::forget(m, p, new_n as int, crossed as int);
    assert(model::decode(cell@, p).pixels =~= cleared.pixels);
    // One chance to reclaim resolution per boundary crossed.
    let mut tried: u64 = 0;
    while tried < tries
        invariant
            tried <= tries,
            p == layout@,
            before == old(cell)@,
            crossed > 0,
            tries == (if crossed < p.pixel_count() {
                crossed as int
            } else {
                p.pixel_count() as int
            }),
            cleared == model::forget(model::decode(before, p), p, new_n as int, crossed as int),
            p.field_bytes() <= before.len(),
            model::same_padding(before, cell@, p),
            model::decode(cell@, p) == model::zoom_in_repeatedly(cleared, p, tried as nat),
        decreases tries - tried,
    {
        if !try_zoom_in(cell, layout) {
            proof {
                lemma_refused_zoom_in_stays(cleared, p, tried as nat, tries as nat);
            }
            return;
        }
        tried = tried + 1;
    }
}

/// Whether every pixel is zero but for the one in the spare slot.
fn window_is_empty(cell: &[u8], layout: &MicroLayout, n: u64) -> (empty: bool)
    requires
        layout@.field_bytes() <= cell@.len(),
    ensures
        empty == model::window_is_empty(
            model::decode(cell@, layout@).pixels,
            layout@,
            n as int,
        ),
{
    proof {
        use_type_invariant(layout);
    }
    let ghost p = layout@;
    let ghost pixels = model::decode(cell@, p).pixels;
    let count: usize = layout.pixels;
    let spare: usize = (layout.pixel_at(n) + 1) % count;
    proof {
        vstd::arithmetic::div_mod::lemma_add_mod_noop(n as int, 1, count as int);
        vstd::arithmetic::div_mod::lemma_small_mod(1, count as nat);
        assert(spare == p.slot(n + 1));
    }
    let mut i: usize = 0;
    while i < count
        invariant
            i <= count,
            count == p.pixel_count(),
            p == layout@,
            p.field_bytes() <= cell@.len(),
            pixels == model::decode(cell@, p).pixels,
            spare == p.slot(n + 1),
            forall|j: int| 0 <= j < i && j != spare ==> #[trigger] pixels[j] == 0,
        decreases count - i,
    {
        if i != spare && cell[i] != 0 {
            assert(pixels[i as int] != 0);
            return false;
        }
        i = i + 1;
    }
    true
}

/// Once a zoom-in is refused, further tries change nothing.
proof fn lemma_refused_zoom_in_stays(m: model::CellModel, p: MicroParams, at: nat, tries: nat)
    requires
        at <= tries,
        !model::can_zoom_in(model::zoom_in_repeatedly(m, p, at), p),
    ensures
        model::zoom_in_repeatedly(m, p, tries) == model::zoom_in_repeatedly(m, p, at),
    decreases tries,
{
    if at < tries {
        lemma_refused_zoom_in_stays(m, p, at, (tries - 1) as nat);
    }
}

/// What a cell holds for the window ending in a sub-window, in pixel units.
///
/// A unit is `c^zoom` items; the shutter is in items already.
#[derive(Clone, Copy, Debug, PartialEq, Eq)]
pub struct WindowPixels {
    /// The shutter.
    pub shutter: u32,
    /// The zoom exponent the pixels are counted at.
    pub zoom: u8,
    /// The pixels of the `T` sub-windows wholly inside the window, added up.
    pub inside: u128,
    /// The pixel of the partially expired oldest sub-window.
    pub oldest: u8,
}

/// Reads off what the cell holds for the sliding window ending inside
/// sub-window `n`.
///
/// The estimate of the window is the shutter, plus the `T` sub-windows
/// `n-T+1 ..= n` that lie wholly inside it, plus whatever is charged for the
/// partially expired sub-window `n-T`.
pub fn window_pixels(cell: &[u8], layout: &MicroLayout, n: u64) -> (w: WindowPixels)
    requires
        layout@.field_bytes() <= cell@.len(),
    ensures
        ({
            let m = model::decode(cell@, layout@);
            &&& w.shutter == m.shutter
            &&& w.zoom == m.zoom
            &&& w.inside == model::live_pixels(m, layout@, n as int, layout@.t as nat)
            &&& w.oldest == model::oldest_pixel(m, layout@, n as int)
            &&& w.shutter + w.inside * model::unit(layout@, w.zoom as int) == model::items_inside(
                m,
                layout@,
                n as int,
            )
            &&& w.oldest * model::unit(layout@, w.zoom as int) == model::items_oldest(
                m,
                layout@,
                n as int,
            )
        }),
{
    proof {
        use_type_invariant(layout);
    }
    let ghost p = layout@;
    let ghost m = model::decode(cell@, p);
    let t: u64 = layout.params.t as u64;
    let mut inside: u128 = 0;
    let mut back: u64 = 0;
    while back < t
        invariant
            back <= t,
            t == p.t,
            p == layout@,
            m == model::decode(cell@, p),
            p.field_bytes() <= cell@.len(),
            inside == model::live_pixels(m, p, n as int, back as nat),
            inside <= 255 * back,
        decreases t - back,
    {
        // Sub-windows before the stream began contributed nothing, and their
        // pixels are still zero, so a missing index is simply skipped.
        if back <= n {
            inside = inside + pixel(cell, layout, n - back) as u128;
        }
        back = back + 1;
    }
    let oldest: u8 = if n >= t {
        pixel(cell, layout, n - t)
    } else {
        0
    };
    WindowPixels { shutter: shutter(cell, layout), zoom: zoom(cell, layout), inside, oldest }
}

/// Divides `value` by `c` `steps` times, unbiased at each step.
pub fn scale_down(value: u32, steps: u8, c: u32, rounding: &mut Rounding) -> (scaled: u32)
    requires
        c > 0,
    ensures
        (scaled as int, final(rounding)@) == model::scale_down(
            value as int,
            steps as nat,
            c as int,
            old(rounding)@,
        ),
{
    let mut scaled: u32 = value;
    let mut done: u8 = 0;
    while done < steps
        invariant
            done <= steps,
            c > 0,
            (scaled as int, rounding@) == model::scale_down(
                value as int,
                done as nat,
                c as int,
                old(rounding)@,
            ),
        decreases steps - done,
    {
        scaled = unbiased_div(scaled, c, rounding);
        done = done + 1;
    }
    scaled
}

/// The values as mathematical integers.
pub open spec fn as_ints(values: Seq<u32>) -> Seq<int> {
    Seq::new(values.len(), |i: int| values[i] as int)
}

/// Whether every value fits a pixel.
fn all_fit(values: &Vec<u32>) -> (fit: bool)
    ensures
        fit == model::all_fit(as_ints(values@)),
{
    let mut i: usize = 0;
    while i < values.len()
        invariant
            i <= values@.len(),
            forall|j: int| 0 <= j < i ==> #[trigger] as_ints(values@)[j] <= 255,
        decreases values@.len() - i,
    {
        if values[i] > PIXEL_MAX as u32 {
            assert(as_ints(values@)[i as int] > 255);
            return false;
        }
        i = i + 1;
    }
    true
}

/// Divides every value by `c`, unbiased.
fn div_all(values: &mut Vec<u32>, c: u32, rounding: &mut Rounding)
    requires
        c >= 2,
    ensures
        (as_ints(final(values)@), final(rounding)@) == model::div_all(
            as_ints(old(values)@),
            c as int,
            old(rounding)@,
        ),
        final(values)@.len() == old(values)@.len(),
{
    let ghost before = as_ints(values@);
    let ghost start = rounding@;
    let mut i: usize = 0;
    assert(before.take(0) =~= Seq::empty());
    while i < values.len()
        invariant
            i <= values@.len(),
            values@.len() == before.len(),
            c >= 2,
            forall|j: int| i <= j < before.len() ==> values@[j] == #[trigger] before[j],
            as_ints(values@.take(i as int)) == model::div_all(
                before.take(i as int),
                c as int,
                start,
            ).0,
            rounding@ == model::div_all(before.take(i as int), c as int, start).1,
        decreases values@.len() - i,
    {
        let ghost last = values@;
        proof {
            assert(before.take(i + 1).drop_last() =~= before.take(i as int));
            assert(before.take(i + 1).last() == values@[i as int]);
        }
        let q: u32 = unbiased_div(values[i], c, rounding);
        values[i] = q;
        i = i + 1;
        proof {
            assert(as_ints(values@.take(i as int)) =~= as_ints(last.take(i - 1)).push(q as int));
        }
    }
    proof {
        assert(before.take(before.len() as int) =~= before);
        assert(values@.take(values@.len() as int) =~= values@);
    }
}

/// Zooms sums out until each fits a pixel, or cuts them off at the zoom cap.
/// Returns the zoom they end at.
fn settle(
    sums: &mut Vec<u32>,
    layout: &MicroLayout,
    zoom: u8,
    rounding: &mut Rounding,
) -> (settled: u8)
    ensures
        (as_ints(final(sums)@), settled as int, final(rounding)@) == model::settle(
            as_ints(old(sums)@),
            layout@,
            zoom as int,
            old(rounding)@,
        ),
        final(sums)@.len() == old(sums)@.len(),
        forall|i: int| 0 <= i < final(sums)@.len() ==> #[trigger] final(sums)@[i] <= 255,
{
    proof {
        use_type_invariant(layout);
    }
    let ghost p = layout@;
    let ghost goal = model::settle(as_ints(sums@), p, zoom as int, rounding@);
    let c: u32 = layout.params.c;
    let cap: u8 = layout.max_zoom();
    let mut target: u8 = zoom;
    let mut fit: bool = all_fit(sums);
    proof {
        crate::arith::lemma_exponent_below_32(p.c as int, cap as nat);
    }
    while !fit
        invariant
            p == layout@,
            c == p.c,
            c >= 2,
            cap < 32,
            pow(p.c as int, cap as nat) <= MAX_SHUTTER,
            pow(p.c as int, (cap + 1) as nat) > MAX_SHUTTER,
            sums@.len() == old(sums)@.len(),
            fit == model::all_fit(as_ints(sums@)),
            goal == model::settle(as_ints(old(sums)@), p, zoom as int, old(rounding)@),
            goal == model::settle(as_ints(sums@), p, target as int, rounding@),
        decreases
                (256 - target) + (if fit {
                    0int
                } else {
                    1int
                }),
    {
        proof {
            lemma_cap(p, target as nat, cap as nat);
        }
        if target >= cap {
            saturate(sums);
        } else {
            target = target + 1;
            div_all(sums, c, rounding);
        }
        fit = all_fit(sums);
    }
    assert(forall|i: int|
        0 <= i < sums@.len() ==> #[trigger] sums@[i] == as_ints(sums@)[i]);
    target
}

/// Cuts every value off at what a pixel holds.
fn saturate(values: &mut Vec<u32>)
    ensures
        final(values)@.len() == old(values)@.len(),
        forall|i: int|
            0 <= i < final(values)@.len() ==> #[trigger] final(values)@[i] == (if old(values)@[i]
                < 255 {
                old(values)@[i]
            } else {
                255
            }),
        as_ints(final(values)@) == Seq::new(
            old(values)@.len(),
            |i: int|
                if as_ints(old(values)@)[i] < 255 {
                    as_ints(old(values)@)[i]
                } else {
                    255
                },
        ),
{
    let ghost before = values@;
    let mut i: usize = 0;
    while i < values.len()
        invariant
            i <= values@.len(),
            values@.len() == before.len(),
            before == old(values)@,
            forall|j: int|
                0 <= j < i ==> #[trigger] values@[j] == (if before[j] < 255 {
                    before[j]
                } else {
                    255
                }),
            forall|j: int| i <= j < before.len() ==> #[trigger] values@[j] == before[j],
        decreases values@.len() - i,
    {
        if values[i] > PIXEL_MAX as u32 {
            values[i] = PIXEL_MAX as u32;
        }
        i = i + 1;
    }
    assert(as_ints(values@) =~= Seq::new(
        before.len(),
        |i: int|
            if as_ints(before)[i] < 255 {
                as_ints(before)[i]
            } else {
                255
            },
    ));
}

/// Merges `src` into `dst`, both positioned at sub-window `n`.
///
/// 1. **Agree on a zoom.** Pixels are only comparable at the same `Z`, so
///    both sides are brought to `max(Z_dst, Z_src)` -- never to the smaller
///    one, which would have to invent resolution neither side has. The
///    rescaling is the same unbiased division a zoom-out uses.
/// 2. **Add pixel-wise**, in `u32` so a sum cannot wrap, then zoom the result
///    out until every pixel fits a byte again.
/// 3. **Add the shutters.** They are raw item counts, not scaled by `Z`, so
///    they add directly; whole `c^Z` units of the sum carry into the current
///    sub-window's pixel and the remainder stays in the shutter.
///
/// Both cells must sit at the same sub-window: the pixel ring is indexed by
/// sub-window number, so merging cells at different `n` would add unrelated
/// sub-windows together.
pub fn merge_cells(
    dst: &mut [u8],
    src: &[u8],
    layout: &MicroLayout,
    n: u64,
    rounding: &mut Rounding,
)
    requires
        layout@.field_bytes() <= old(dst)@.len(),
        layout@.field_bytes() <= src@.len(),
        model::unit(
            layout@,
            model::common_zoom(
                model::decode(old(dst)@, layout@),
                model::decode(src@, layout@),
            ),
        ) <= u64::MAX,
        model::merge_fits(
            model::decode(old(dst)@, layout@),
            model::decode(src@, layout@),
            layout@,
            n as int,
            old(rounding)@,
        ),
    ensures
        (model::decode(final(dst)@, layout@), final(rounding)@) == model::merge(
            model::decode(old(dst)@, layout@),
            model::decode(src@, layout@),
            layout@,
            n as int,
            old(rounding)@,
        ),
        model::same_padding(old(dst)@, final(dst)@, layout@),
{
    proof {
        use_type_invariant(layout);
    }
    let ghost p = layout@;
    let ghost before = dst@;
    let ghost a = model::decode(dst@, p);
    let ghost b = model::decode(src@, p);
    let ghost start = rounding@;
    let c: u32 = layout.params.c;
    let count: usize = layout.pixels;
    let z_dst: u8 = zoom(dst, layout);
    let z_src: u8 = zoom(src, layout);
    let target: u8 = if z_dst < z_src {
        z_src
    } else {
        z_dst
    };
    let mut sums: Vec<u32> = Vec::new();
    let mut i: usize = 0;
    let ghost dst_steps = (target - z_dst) as nat;
    let ghost src_steps = (target - z_src) as nat;
    proof {
        assert(a.pixels.take(0) =~= Seq::empty());
        assert(as_ints(sums@) =~= Seq::empty());
    }
    while i < count
        invariant
            i <= count,
            count == p.pixel_count(),
            p == layout@,
            p.field_bytes() <= dst@.len(),
            p.field_bytes() <= src@.len(),
            c == p.c,
            c >= 2,
            z_dst <= target,
            z_src <= target,
            dst_steps == target - z_dst,
            src_steps == target - z_src,
            a == model::decode(dst@, p),
            b == model::decode(src@, p),
            sums@.len() == i,
            (as_ints(sums@), rounding@) == model::scaled_sums(
                a.pixels.take(i as int),
                dst_steps,
                b.pixels.take(i as int),
                src_steps,
                c as int,
                start,
            ),
        decreases count - i,
    {
        let ghost last = sums@;
        let ghost s0 = rounding@;
        proof {
            assert(a.pixels.take(i + 1).drop_last() =~= a.pixels.take(i as int));
            assert(b.pixels.take(i + 1).drop_last() =~= b.pixels.take(i as int));
            model::lemma_scale_down_bounds(a.pixels[i as int], dst_steps, c as int, s0);
        }
        let x: u32 = scale_down(dst[i] as u32, target - z_dst, c, rounding);
        proof {
            model::lemma_scale_down_bounds(b.pixels[i as int], src_steps, c as int, rounding@);
        }
        let y: u32 = scale_down(src[i] as u32, target - z_src, c, rounding);
        sums.push(x + y);
        i = i + 1;
        proof {
            assert(as_ints(sums@) =~= as_ints(last).push(x + y));
        }
    }
    proof {
        assert(a.pixels.take(count as int) =~= a.pixels);
        assert(b.pixels.take(count as int) =~= b.pixels);
        lemma_pow_positive(p.c as int, target as nat);
    }
    // Shutters are item counts below one unit each, so their sum is below two
    // units and carries at most once -- but compute it generally.
    let combined: u64 = shutter(dst, layout) as u64 + shutter(src, layout) as u64;
    let unit: u64 = crate::arith::power(c as u64, target);
    let current: usize = layout.pixel_at(n);
    let carry: u32 = (combined / unit % 0x1_0000_0000) as u32;
    let ghost plain = sums@;
    assert(as_ints(plain)[current as int] == plain[current as int]);
    sums[current] = sums[current] + carry;
    assert(as_ints(sums@) =~= as_ints(plain).update(
        current as int,
        as_ints(plain)[current as int] + carry,
    ));
    let remainder: u64 = combined % unit;
    let settled: u8 = settle(&mut sums, layout, target, rounding);
    i = 0;
    while i < count
        invariant
            i <= count,
            count == p.pixel_count(),
            p.field_bytes() <= dst@.len(),
            sums@.len() == count,
            model::same_from(before, dst@, count as int),
            forall|j: int| 0 <= j < count ==> #[trigger] sums@[j] <= 255,
            forall|j: int| 0 <= j < i ==> #[trigger] dst@[j] == sums@[j],
        decreases count - i,
    {
        dst[i] = sums[i] as u8;
        i = i + 1;
    }
    dst[layout.zoom_at] = settled;
    assert(model::decode(dst@, p).pixels =~= as_ints(sums@));
    // The remainder was below the old unit, so it is below a larger one too
    // and needs no adjustment.
    let rest: u32 = if remainder < 0xFFFF_FFFF {
        remainder as u32
    } else {
        0xFFFF_FFFF
    };
    set_shutter(dst, layout, rest);
}

} // verus!
