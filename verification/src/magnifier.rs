//! The zoom state machine: the current factor, the actions that change it, and
//! the viewport that follows the cursor with a dead zone at the screen's edges.

use crate::config::{Action, UNIT};
use vstd::prelude::*;

verus! {

/// The dead zone at each edge of the screen is one tenth of the screen.
pub const DEAD_ZONE_DIVISOR: i64 = 10;

/// The zoom state: the current factor in thousandths, never below 1.0.
#[derive(Debug)]
pub struct Magnifier {
    factor: i64,
}

/// What the host does after an action has run.
#[derive(Clone, Copy, Debug, PartialEq, Eq, Structural)]
pub enum Effect {
    /// The factor may have changed: compute the viewport anew and apply it.
    Recompute,
    /// Stop handling events.
    Exit,
}

/// The part of the screen that is shown magnified: its upper left corner and
/// its size in pixels, with the factor in thousandths that it is shown at.
/// `right` and `bottom` are the sides opposite the corner, `x + width` and
/// `y + height`.
#[derive(Clone, Copy, Debug, PartialEq, Eq, Structural)]
pub struct Transform {
    pub factor: i64,
    pub x: i32,
    pub y: i32,
    pub width: i32,
    pub height: i32,
    pub right: i32,
    pub bottom: i32,
}

/// The factor after `delta` was added to `factor`: their sum, held at 1.0
/// from below and at the largest factor that can be held from above.
pub open spec fn added(factor: int, delta: int) -> int {
    if factor + delta < UNIT {
        UNIT as int
    } else if factor + delta > i64::MAX {
        i64::MAX as int
    } else {
        factor + delta
    }
}

/// The factor after a toggle to `to`: `to` from 1.0, and 1.0 from anything else.
pub open spec fn toggled(factor: int, to: int) -> int {
    if factor == UNIT {
        to
    } else {
        UNIT as int
    }
}

/// The factor after `action` ran at `factor`.
pub open spec fn applied(factor: int, action: Action) -> int {
    match action {
        Action::SetTo(to) => to as int,
        Action::Add(delta) => added(factor, delta as int),
        Action::Toggle(to) => toggled(factor, to as int),
        Action::Exit => factor,
    }
}

/// What the host does after `action`.
pub open spec fn effect_of(action: Action) -> Effect {
    if action is Exit {
        Effect::Exit
    } else {
        Effect::Recompute
    }
}

/// The farthest that the viewport's origin can lie from the screen's origin
/// along a dimension of `size` pixels: `size * (1 - 1/factor)`, rounded down.
pub open spec fn reach(factor: int, size: int) -> int {
    size * (factor - UNIT) / factor
}

/// The viewport's origin along a dimension of `size` pixels with the cursor at
/// `cursor`. Between the dead zones the origin grows with the cursor from 0 to
/// `reach`; inside them it stays at 0 and at `reach`.
///
/// With the dead zone `d` as a fraction of the screen and the factor `f` as a
/// ratio, the origin grows as `(cursor - d * size) * (1 - 1/f) / (1 - 2 * d)`.
/// Here `d` is one part in `DEAD_ZONE_DIVISOR` and `f` is `factor` parts in
/// `UNIT`, which gives the quotient below; it is rounded down.
pub open spec fn origin(factor: int, size: int, cursor: int) -> int {
    let linear = (DEAD_ZONE_DIVISOR * cursor - size) * (factor - UNIT) / ((DEAD_ZONE_DIVISOR - 2)
        * factor);
    let capped = if linear < reach(factor, size) {
        linear
    } else {
        reach(factor, size)
    };
    if capped < 0 {
        0
    } else {
        capped
    }
}

/// The viewport's size along a dimension of `size` pixels: `size / factor`,
/// rounded towards zero.
pub open spec fn extent(factor: int, size: int) -> int {
    if size >= 0 {
        size * UNIT / factor
    } else {
        -((-size) * UNIT / factor)
    }
}

/// The viewport at `factor` on a screen of `width` by `height` pixels with
/// the cursor at (`x`, `y`).
pub open spec fn transform(factor: int, x: int, y: int, width: int, height: int) -> (
    int,
    int,
    int,
    int,
) {
    (
        origin(factor, width, x),
        origin(factor, height, y),
        extent(factor, width),
        extent(factor, height),
    )
}

/// A quotient by a positive divisor has the sign of what is divided, and is
/// no farther from zero.
proof fn lemma_quotient(x: int, d: int)
    requires
        d >= 1,
    ensures
        x <= 0 ==> x / d <= 0,
        x >= 0 ==> 0 <= x / d <= x,
{
    assert(x <= 0 ==> x / d <= 0) by (nonlinear_arith)
        requires
            d >= 1,
    ;
    assert(x >= 0 ==> 0 <= x / d <= x) by (nonlinear_arith)
        requires
            d >= 1,
    ;
}

/// A part `share` out of `whole` of a size is no more than the size.
proof fn lemma_share(size: int, share: int, whole: int)
    requires
        0 <= size,
        0 <= share <= whole,
        1 <= whole,
    ensures
        0 <= size * share,
        0 <= size * share / whole <= size,
{
    assert(0 <= size * share <= size * whole) by (nonlinear_arith)
        requires
            0 <= size,
            0 <= share <= whole,
    ;
    assert(size * share / whole <= size) by (nonlinear_arith)
        requires
            0 <= size * share <= size * whole,
            1 <= whole,
    ;
    lemma_quotient(size * share, whole);
}

/// A toggle depends on nothing but whether the factor is 1.0: from 1.0 it
/// leads to `to`, from anything else to 1.0, whatever ran before. Two toggles
/// in a row from 1.0 come back to 1.0.
pub proof fn lemma_toggle_flips(factor: int, to: int)
    ensures
        factor == UNIT ==> toggled(factor, to) == to,
        factor != UNIT ==> toggled(factor, to) == UNIT,
        toggled(toggled(UNIT as int, to), to) == UNIT,
{
}

/// An addition never takes the factor below 1.0: a sum at or below 1.0 gives
/// exactly 1.0, and a sum that can be held is kept as it is.
pub proof fn lemma_add_floor(factor: int, delta: int)
    ensures
        UNIT <= added(factor, delta) <= i64::MAX,
        factor + delta <= UNIT ==> added(factor, delta) == UNIT,
        UNIT <= factor + delta <= i64::MAX ==> added(factor, delta) == factor + delta,
{
}

/// No valid action takes the factor below 1.0.
pub proof fn lemma_applied_in_range(factor: int, action: Action)
    requires
        UNIT <= factor <= i64::MAX,
        action.valid(),
    ensures
        UNIT <= applied(factor, action) <= i64::MAX,
{
}

/// On a screen the viewport lies inside the screen: the origin is between 0
/// and `reach`, and origin and extent together do not pass the size.
pub proof fn lemma_viewport_inside(factor: int, size: int, cursor: int)
    requires
        factor >= UNIT,
        size >= 0,
    ensures
        0 <= origin(factor, size, cursor) <= reach(factor, size) <= size,
        0 <= extent(factor, size) <= size,
        origin(factor, size, cursor) + extent(factor, size) <= size,
{
    let gain = factor - UNIT;
    lemma_share(size, gain, factor);
    lemma_share(size, UNIT as int, factor);
    assert(size * gain + size * UNIT == size * factor) by (nonlinear_arith)
        requires
            gain == factor - UNIT,
    ;
    assert((size * gain) / factor + (size * UNIT) / factor <= size) by (nonlinear_arith)
        requires
            size * gain + size * UNIT == size * factor,
            factor >= 1,
    ;
}

/// Where there is no screen, the size being 0 or less, the origin is 0 and
/// the extent lies between the size and 0.
pub proof fn lemma_no_screen(factor: int, size: int, cursor: int)
    requires
        factor >= UNIT,
        size <= 0,
    ensures
        origin(factor, size, cursor) == 0,
        size <= extent(factor, size) <= 0,
{
    assert(size * (factor - UNIT) <= 0) by (nonlinear_arith)
        requires
            size <= 0,
            factor >= UNIT,
    ;
    lemma_quotient(size * (factor - UNIT), factor);
    if size == 0 {
        lemma_share(size, UNIT as int, factor);
    } else {
        lemma_share(-size, UNIT as int, factor);
    }
}

/// With the cursor in the dead zone at the near edge the origin is 0.
pub proof fn lemma_near_dead_zone(factor: int, size: int, cursor: int)
    requires
        factor >= UNIT,
        DEAD_ZONE_DIVISOR * cursor <= size,
    ensures
        origin(factor, size, cursor) == 0,
{
    let lead = DEAD_ZONE_DIVISOR * cursor - size;
    let gain = factor - UNIT;
    assert(lead * gain <= 0) by (nonlinear_arith)
        requires
            lead <= 0,
            gain >= 0,
    ;
    lemma_quotient(lead * gain, (DEAD_ZONE_DIVISOR - 2) * factor);
}

/// With the cursor in the dead zone at the far edge of a screen the origin
/// is `reach`.
pub proof fn lemma_far_dead_zone(factor: int, size: int, cursor: int)
    requires
        factor >= UNIT,
        size >= 0,
        DEAD_ZONE_DIVISOR * cursor >= (DEAD_ZONE_DIVISOR - 1) * size,
    ensures
        origin(factor, size, cursor) == reach(factor, size),
{
    let lead = DEAD_ZONE_DIVISOR * cursor - size;
    let gain = factor - UNIT;
    let span = DEAD_ZONE_DIVISOR - 2;
    lemma_share(size, gain, factor);
    assert(DEAD_ZONE_DIVISOR * cursor == 10 * cursor) by (nonlinear_arith)
        requires
            DEAD_ZONE_DIVISOR == 10,
    ;
    assert((DEAD_ZONE_DIVISOR - 1) * size == 9 * size) by (nonlinear_arith)
        requires
            DEAD_ZONE_DIVISOR == 10,
    ;
    assert(lead * gain >= span * (size * gain)) by (nonlinear_arith)
        requires
            span == 8,
            lead >= 8 * size,
            gain >= 0,
    ;
    assert((span * (size * gain)) / (span * factor) == (size * gain) / factor)
        by (nonlinear_arith)
        requires
            span == 8,
            factor >= 1,
    ;
    assert((lead * gain) / (span * factor) >= (span * (size * gain)) / (span * factor))
        by (nonlinear_arith)
        requires
            lead * gain >= span * (size * gain),
            span * factor >= 1,
    ;
}

/// With the cursor at the centre of a screen the viewport is centred: the
/// origin is half of `size * (1 - 1/factor)`, rounded down.
pub proof fn lemma_centred(factor: int, size: int, cursor: int)
    requires
        factor >= UNIT,
        size >= 0,
        2 * cursor == size,
    ensures
        origin(factor, size, cursor) == size * (factor - UNIT) / (2 * factor),
{
    let lead = DEAD_ZONE_DIVISOR * cursor - size;
    let gain = factor - UNIT;
    let span = DEAD_ZONE_DIVISOR - 2;
    lemma_share(size, gain, factor);
    assert(DEAD_ZONE_DIVISOR * cursor == 10 * cursor) by (nonlinear_arith)
        requires
            DEAD_ZONE_DIVISOR == 10,
    ;
    assert(lead * gain == 4 * (size * gain)) by (nonlinear_arith)
        requires
            lead == 4 * size,
    ;
    assert((4 * (size * gain)) / (span * factor) == (size * gain) / (2 * factor))
        by (nonlinear_arith)
        requires
            span == 8,
            factor >= 1,
    ;
    assert((size * gain) / (2 * factor) <= (size * gain) / factor) by (nonlinear_arith)
        requires
            size * gain >= 0,
            factor >= 1,
    ;
    lemma_quotient(size * gain, 2 * factor);
}

/// At factor 1.0 the viewport is the whole screen.
pub proof fn lemma_unmagnified(size: int, cursor: int)
    ensures
        origin(UNIT as int, size, cursor) == 0,
        extent(UNIT as int, size) == size,
{
    assert((DEAD_ZONE_DIVISOR * cursor - size) * (UNIT - UNIT) == 0) by (nonlinear_arith);
    assert(size * (UNIT - UNIT) == 0) by (nonlinear_arith);
    assert((size * UNIT) / (UNIT as int) == size) by (nonlinear_arith);
    assert(((-size) * UNIT) / (UNIT as int) == -size) by (nonlinear_arith);
}

/// The viewport's origin along one dimension.
fn origin_of(factor: i64, size: i32, cursor: i32) -> (r: i32)
    requires
        factor >= UNIT,
    ensures
        r == origin(factor as int, size as int, cursor as int),
{
    let lead: i64 = DEAD_ZONE_DIVISOR * (cursor as i64) - (size as i64);
    let gain: i64 = factor - UNIT;
    let ghost product = lead as int * gain as int;
    let ghost divisor = (DEAD_ZONE_DIVISOR - 2) * factor as int;
    if size <= 0 {
        proof {
            assert(size as int * gain as int <= 0) by (nonlinear_arith)
                requires
                    size <= 0,
                    gain >= 0,
            ;
            lemma_quotient(size as int * gain as int, factor as int);
        }
        return 0;
    }
    if lead <= 0 {
        proof {
            assert(product <= 0) by (nonlinear_arith)
                requires
                    product == lead as int * gain as int,
                    lead <= 0,
                    gain >= 0,
            ;
            lemma_quotient(product, divisor);
        }
        return 0;
    }
    proof {
        assert(0 <= product <= 0x8_0000_0000 * 0x8000_0000_0000_0000) by (nonlinear_arith)
            requires
                product == lead as int * gain as int,
                0 < lead <= 0x8_0000_0000,
                0 <= gain <= 0x8000_0000_0000_0000,
        ;
        lemma_quotient(product, divisor);
        assert(size as int * gain as int <= 0x8000_0000 * 0x8000_0000_0000_0000)
            by (nonlinear_arith)
            requires
                0 < size <= 0x8000_0000,
                0 <= gain <= 0x8000_0000_0000_0000,
        ;
        lemma_share(size as int, gain as int, factor as int);
    }
    let linear: i128 = (lead as i128 * gain as i128) / ((DEAD_ZONE_DIVISOR - 2) as i128
        * factor as i128);
    let reach: i128 = (size as i128 * gain as i128) / (factor as i128);
    if linear < reach {
        linear as i32
    } else {
        reach as i32
    }
}

/// The viewport's size along one dimension.
fn extent_of(factor: i64, size: i32) -> (r: i32)
    requires
        factor >= UNIT,
    ensures
        r == extent(factor as int, size as int),
{
    if size >= 0 {
        proof {
            lemma_share(size as int, UNIT as int, factor as int);
        }
        ((size as i128 * UNIT as i128) / (factor as i128)) as i32
    } else {
        proof {
            lemma_share(-size as int, UNIT as int, factor as int);
        }
        let shown: i128 = ((-(size as i128)) * UNIT as i128) / (factor as i128);
        (-shown) as i32
    }
}

impl View for Magnifier {
    type V = int;

    /// The current factor, in thousandths.
    closed spec fn view(&self) -> int {
        self.factor as int
    }
}

impl Magnifier {
    /// The factor is 1.0 or more.
    pub open spec fn wf(&self) -> bool {
        UNIT <= self@ <= i64::MAX
    }

    /// The unmagnified state.
    pub fn new() -> (m: Magnifier)
        ensures
            m@ == UNIT,
            m.wf(),
    {
        Magnifier { factor: UNIT }
    }

    /// The current factor, in thousandths.
    pub fn factor(&self) -> (f: i64)
        ensures
            f == self@,
    {
        self.factor
    }

    /// Sets the factor to `factor`.
    pub fn set(&mut self, factor: i64)
        requires
            factor >= UNIT,
        ensures
            final(self)@ == factor,
            final(self).wf(),
    {
        self.factor = factor;
    }

    /// Adds `delta` to the factor, which stays at 1.0 or above.
    pub fn add(&mut self, delta: i64)
        requires
            old(self).wf(),
        ensures
            final(self)@ == added(old(self)@, delta as int),
            final(self).wf(),
    {
        let sum: i128 = self.factor as i128 + delta as i128;
        if sum < UNIT as i128 {
            self.factor = UNIT;
        } else if sum > i64::MAX as i128 {
            self.factor = i64::MAX;
        } else {
            self.factor = sum as i64;
        }
    }

    /// Toggles between 1.0 and `factor`: from 1.0 to `factor`, from anything
    /// else to 1.0.
    pub fn toggle(&mut self, factor: i64)
        requires
            factor >= UNIT,
        ensures
            final(self)@ == toggled(old(self)@, factor as int),
            final(self).wf(),
    {
        if self.factor == UNIT {
            self.factor = factor;
        } else {
            self.factor = UNIT;
        }
    }

    /// The viewport for the cursor at (`x`, `y`) on a screen of `width` by
    /// `height` pixels. The state stays as it is.
    pub fn update(&self, x: i32, y: i32, width: i32, height: i32) -> (t: Transform)
        requires
            self.wf(),
        ensures
            t.factor == self@,
            (t.x as int, t.y as int, t.width as int, t.height as int) == transform(
                self@,
                x as int,
                y as int,
                width as int,
                height as int,
            ),
            t.right == t.x + t.width,
            t.bottom == t.y + t.height,
    {
        let left = origin_of(self.factor, width, x);
        let top = origin_of(self.factor, height, y);
        let across = extent_of(self.factor, width);
        let down = extent_of(self.factor, height);
        proof {
            if width >= 0 {
                lemma_viewport_inside(self@, width as int, x as int);
            } else {
                lemma_no_screen(self@, width as int, x as int);
            }
            if height >= 0 {
                lemma_viewport_inside(self@, height as int, y as int);
            } else {
                lemma_no_screen(self@, height as int, y as int);
            }
        }
        Transform {
            factor: self.factor,
            x: left,
            y: top,
            width: across,
            height: down,
            right: left + across,
            bottom: top + down,
        }
    }

    /// Runs `action` and tells what the host does next. `Exit` leaves the
    /// factor as it is.
    pub fn do_action(&mut self, action: &Action) -> (effect: Effect)
        requires
            old(self).wf(),
            action.valid(),
        ensures
            final(self)@ == applied(old(self)@, *action),
            final(self).wf(),
            effect == effect_of(*action),
    {
        match action {
            Action::SetTo(factor) => {
                self.set(*factor);
                Effect::Recompute
            },
            Action::Add(delta) => {
                self.add(*delta);
                Effect::Recompute
            },
            Action::Toggle(factor) => {
                self.toggle(*factor);
                Effect::Recompute
            },
            Action::Exit => Effect::Exit,
        }
    }
}

} // verus!
