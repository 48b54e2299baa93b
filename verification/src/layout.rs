//! Rectangle arithmetic for the screen layout: every bordered region is
//! drawn, then its contents are drawn inside a margin of it.
use vstd::prelude::*;

verus! {

/// Shrink the rectangle `(x, y, width, height)` by `margin` on every side:
/// the origin moves in by the margin and each dimension loses twice the
/// margin. The rectangle must be large enough to keep both dimensions.
pub fn inset(x: u16, y: u16, width: u16, height: u16, margin: u16) -> (r: (u16, u16, u16, u16))
    requires
        x + margin <= u16::MAX,
        y + margin <= u16::MAX,
        width >= 2 * margin,
        height >= 2 * margin,
    ensures
        r.0 == x + margin,
        r.1 == y + margin,
        r.2 == width - 2 * margin,
        r.3 == height - 2 * margin,
{
    (x + margin, y + margin, (width - margin) - margin, (height - margin) - margin)
}

} // verus!
