//! The render target follows the window.

use crate::consts::{MAX_DIM, MIN_DIM};
use crate::math::UVec2;
use vstd::prelude::*;

verus! {

/// A size that a window can have.
pub fn size_is_sane(s: UVec2) -> (r: bool)
    ensures
        r == (MIN_DIM <= s.x <= MAX_DIM && MIN_DIM <= s.y <= MAX_DIM),
{
    s.x >= MIN_DIM && s.x <= MAX_DIM && s.y >= MIN_DIM && s.y <= MAX_DIM
}

/// One edge of the render target: that of the window by the factor, rounded down, but not below the
/// least edge. A factor of 0 counts as 1.
pub open spec fn target_edge(full: u32, factor: u32) -> int {
    let n = full as int / (if factor >= 1 {
        factor as int
    } else {
        1
    });
    if n < MIN_DIM {
        MIN_DIM as int
    } else {
        n
    }
}

/// Size of the render target for a window.
pub fn render_size_for_window(full: UVec2, factor: u32) -> (r: UVec2)
    ensures
        r.x == target_edge(full.x, factor),
        r.y == target_edge(full.y, factor),
{
    let f: u32 = if factor > 1 { factor } else { 1 };
    let x: u32 = full.x / f;
    let y: u32 = full.y / f;
    UVec2 {
        x: if x > MIN_DIM { x } else { MIN_DIM },
        y: if y > MIN_DIM { y } else { MIN_DIM },
    }
}

/// What a frame does about the window's size.
#[derive(Debug, Clone, Copy, PartialEq, Eq, Structural)]
pub enum Resize {
    Keep,
    /// The window is too small or too large: keep the size, and say so the first time.
    Degenerate { warn: bool },
    /// The target takes this size.
    To(UVec2),
}

/// Compares the window with the render target. `warned` holds whether the last bad size was
/// reported.
pub fn follow_window(full: UVec2, size: UVec2, factor: u32, warned: &mut bool) -> (r: Resize)
    ensures
        ({
            let sane = MIN_DIM <= full.x <= MAX_DIM && MIN_DIM <= full.y <= MAX_DIM;
            &&& *final(warned) == !sane
            &&& !sane ==> r == (Resize::Degenerate { warn: !*old(warned) })
            &&& sane && size.x == target_edge(full.x, factor) && size.y == target_edge(
                full.y,
                factor,
            ) ==> r == Resize::Keep
            &&& sane && !(size.x == target_edge(full.x, factor) && size.y == target_edge(
                full.y,
                factor,
            )) ==> r is To && r->To_0.x == target_edge(full.x, factor) && r->To_0.y
                == target_edge(full.y, factor)
        }),
{
    if !size_is_sane(full) {
        let warn: bool = !*warned;
        *warned = true;
        return Resize::Degenerate { warn };
    }
    *warned = false;
    let new_size: UVec2 = render_size_for_window(full, factor);
    if new_size == size {
        Resize::Keep
    } else {
        Resize::To(new_size)
    }
}

/// The target's edge is the window's divided by the factor, rounded down, where that is no less than
/// the least edge, and the least edge otherwise.
pub proof fn lemma_target_edge(full: u32, factor: u32)
    ensures
        target_edge(full, 0) == target_edge(full, 1),
        factor >= 1 ==> ({
            let n = target_edge(full, factor);
            &&& n >= MIN_DIM
            &&& full >= factor * MIN_DIM ==> factor * n <= full < factor * (n + 1)
            &&& full < factor * MIN_DIM ==> n == MIN_DIM
        }),
{
    if factor >= 1 {
        let (a, f, q) = (full as int, factor as int, full as int / factor as int);
        assert(f * q <= a < f * (q + 1)) by (nonlinear_arith)
            requires
                q == a / f,
                f >= 1,
                a >= 0,
        ;
        assert(q >= MIN_DIM <==> a >= f * MIN_DIM) by (nonlinear_arith)
            requires
                f * q <= a < f * (q + 1),
                f >= 1,
        ;
    }
}

} // verus!
