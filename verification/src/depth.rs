use vstd::prelude::*;

verus! {

/// A position in a nested hierarchy: `level` (0 is the surface) and the
/// deepest reachable `max_level`.
///
/// [`Depth::new`] clamps `level` to `max_level`; movement with
/// [`Depth::descend`] and [`Depth::ascend`] keeps `level <= max_level`.
#[derive(Clone, Copy, Debug, PartialEq, Eq, Structural, PartialOrd, Ord)]
pub struct Depth {
    /// Current level (0 is the surface).
    pub level: u32,
    /// Deepest reachable level.
    pub max_level: u32,
}

impl Depth {
    /// `level` lies within the hierarchy's bound.
    pub open spec fn in_bounds(self) -> bool {
        self.level <= self.max_level
    }

    /// One level deeper, if `max_level` is not reached yet.
    pub open spec fn descended(self) -> Option<Depth> {
        if self.level < self.max_level {
            Some(Depth { level: (self.level + 1) as u32, max_level: self.max_level })
        } else {
            None
        }
    }

    /// One level shallower, if not at the surface yet.
    pub open spec fn ascended(self) -> Option<Depth> {
        if self.level > 0 {
            Some(Depth { level: (self.level - 1) as u32, max_level: self.max_level })
        } else {
            None
        }
    }

    /// Create a depth, clamping `level` down to `max_level` if it exceeds it.
    pub fn new(level: u32, max_level: u32) -> (d: Depth)
        ensures
            d.max_level == max_level,
            d.level == if level <= max_level { level } else { max_level },
            d.in_bounds(),
    {
        let clamped: u32 = if level <= max_level { level } else { max_level };
        Depth { level: clamped, max_level }
    }

    /// The surface of an effectively unbounded hierarchy: level 0 with the
    /// largest representable `max_level`.
    pub fn surface() -> (d: Depth)
        ensures
            d.level == 0,
            d.max_level == u32::MAX,
    {
        Depth { level: 0, max_level: u32::MAX }
    }

    /// True when at level 0.
    pub fn is_surface(&self) -> (r: bool)
        ensures
            r == (self.level == 0),
    {
        self.level == 0
    }

    /// True when at `max_level` (cannot descend further).
    pub fn is_max(&self) -> (r: bool)
        ensures
            r == (self.level == self.max_level),
    {
        self.level == self.max_level
    }

    /// Descend one level; `None` if already at (or below) `max_level`.
    pub fn descend(&self) -> (r: Option<Depth>)
        ensures
            r == self.descended(),
            r is None <==> self.level >= self.max_level,
            r matches Some(e) ==> e.level == self.level + 1 && e.max_level == self.max_level,
    {
        if self.level < self.max_level {
            Some(Depth { level: self.level + 1, max_level: self.max_level })
        } else {
            None
        }
    }

    /// Ascend one level; `None` if already at the surface.
    pub fn ascend(&self) -> (r: Option<Depth>)
        ensures
            r == self.ascended(),
            r is None <==> self.level == 0,
            r matches Some(e) ==> e.level == self.level - 1 && e.max_level == self.max_level,
    {
        if self.level > 0 {
            Some(Depth { level: self.level - 1, max_level: self.max_level })
        } else {
            None
        }
    }
}

/// Ascending right after a successful descent returns to the starting depth,
/// and descending right after a successful ascent does too, for a depth
/// within its bound.
pub proof fn lemma_descend_ascend_inverse(d: Depth)
    ensures
        d.descended() matches Some(e) ==> e.ascended() == Some(d),
        d.in_bounds() ==> (d.ascended() matches Some(e) ==> e.descended() == Some(d)),
{
}

/// Movement never leaves the bound: a depth within `max_level` stays within it
/// after a descent or an ascent, and `max_level` never changes.
pub proof fn lemma_movement_keeps_bounds(d: Depth)
    requires
        d.in_bounds(),
    ensures
        d.descended() matches Some(e) ==> e.in_bounds() && e.max_level == d.max_level,
        d.ascended() matches Some(e) ==> e.in_bounds() && e.max_level == d.max_level,
{
}

/// Descent fails exactly at the bottom and ascent exactly at the surface.
pub proof fn lemma_movement_limits(d: Depth)
    requires
        d.in_bounds(),
    ensures
        d.descended() is None <==> d.level == d.max_level,
        d.ascended() is None <==> d.level == 0,
{
}

} // verus!
