use vstd::prelude::*;
use crate::depth::Depth;

verus! {

/// Whether an ascent pauses at `level` when stopping every `interval` levels:
/// at every multiple of `interval`, and always at the surface.
pub open spec fn is_stop_level(level: u32, interval: u32) -> bool {
    level % interval == 0 || level == 0
}

/// The stops of an ascent from `level` to the surface, deepest first: every
/// level below `level` that [`is_stop_level`] accepts, each carrying
/// `max_level`.
pub open spec fn stops_below(level: u32, max_level: u32, interval: u32) -> Seq<Depth>
    decreases level,
{
    if level == 0 {
        Seq::empty()
    } else {
        let above = (level - 1) as u32;
        let rest = stops_below(above, max_level, interval);
        if is_stop_level(above, interval) {
            seq![Depth { level: above, max_level }] + rest
        } else {
            rest
        }
    }
}

/// The interval a plan really uses: `interval`, raised to at least 1.
pub open spec fn effective_interval(interval: u32) -> u32 {
    if interval == 0 { 1 } else { interval }
}

/// A staged decompression schedule from a deep [`Depth`] back to the surface,
/// pausing at intermediate stops to let pressure equalize.
#[derive(Debug)]
pub struct PressureDecompression {
    /// The depth from which decompression begins.
    pub from: Depth,
    /// The stops, deepest first; a plan from below the surface always ends at
    /// the surface.
    pub steps: Vec<Depth>,
}

impl PressureDecompression {
    /// Plan a decompression from `from` back to the surface, stopping at every
    /// level that is a multiple of 3 (and always at the surface).
    pub fn plan(from: Depth) -> (p: PressureDecompression)
        ensures
            p.from == from,
            p.steps@ == stops_below(from.level, from.max_level, 3),
            forall|i: int| 0 <= i < p.steps@.len() ==> (#[trigger] p.steps@[i]).max_level == from.max_level
                && p.steps@[i].level < from.level,
            forall|i: int, j: int| 0 <= i < j < p.steps@.len() ==> (#[trigger] p.steps@[i]).level > (#[trigger] p.steps@[j]).level,
            forall|l: u32| #[trigger] p.steps@.contains(Depth { level: l, max_level: from.max_level })
                <==> (l < from.level && l % 3 == 0),
            from.level > 0 ==> p.steps@.len() > 0 && p.steps@.last().level == 0,
    {
        Self::plan_with_interval(from, 3)
    }

    /// Plan a decompression with a stop at every level that is a multiple of
    /// `interval` (raised to at least 1), and always at the surface.
    pub fn plan_with_interval(from: Depth, interval: u32) -> (p: PressureDecompression)
        ensures
            p.from == from,
            p.steps@ == stops_below(from.level, from.max_level, effective_interval(interval)),
            forall|i: int| 0 <= i < p.steps@.len() ==> (#[trigger] p.steps@[i]).max_level == from.max_level
                && p.steps@[i].level < from.level,
            forall|i: int, j: int| 0 <= i < j < p.steps@.len() ==> (#[trigger] p.steps@[i]).level > (#[trigger] p.steps@[j]).level,
            forall|l: u32| #[trigger] p.steps@.contains(Depth { level: l, max_level: from.max_level })
                <==> (l < from.level && (l == 0 || l % (if interval == 0 { 1u32 } else { interval }) == 0)),
            from.level > 0 ==> p.steps@.len() > 0 && p.steps@.last().level == 0,
            interval <= 1 ==> p.steps@.len() == from.level,
    {
        let interval: u32 = if interval < 1 { 1 } else { interval };
        let mut steps: Vec<Depth> = Vec::new();
        let mut current = from;
        loop
            invariant
                interval >= 1,
                current.max_level == from.max_level,
                steps@ + stops_below(current.level, from.max_level, interval)
                    == stops_below(from.level, from.max_level, interval),
            ensures
                steps@ == stops_below(from.level, from.max_level, interval),
            decreases current.level,
        {
            match current.ascend() {
                None => {
                    assert(steps@ + Seq::<Depth>::empty() == steps@);
                    break;
                },
                Some(above) => {
                    let ghost before = steps@;
                    let ghost rest = stops_below(above.level, from.max_level, interval);
                    if above.level % interval == 0 || above.is_surface() {
                        steps.push(above);
                        assert(before + (seq![above] + rest) == before.push(above) + rest);
                    }
                    current = above;
                },
            }
        }
        proof {
            lemma_plan_shape(from.level, from.max_level, interval);
            if interval == 1 {
                lemma_unit_interval_stops_everywhere(from.level, from.max_level);
            }
        }
        PressureDecompression { from, steps }
    }

    /// Number of stops in the schedule.
    pub fn step_count(&self) -> (n: usize)
        ensures
            n == self.steps@.len(),
    {
        self.steps.len()
    }

    /// Total number of levels the plan traverses: the starting level, since
    /// every plan ends at the surface.
    pub fn total_levels(&self) -> (n: u32)
        ensures
            n == self.from.level,
    {
        self.from.level
    }

    /// Whether the schedule stops at `depth`'s level; `max_level` is ignored.
    pub fn is_stop(&self, depth: &Depth) -> (r: bool)
        ensures
            r == exists|i: int| 0 <= i < self.steps@.len() && #[trigger] self.steps@[i].level == depth.level,
    {
        let n = self.steps.len();
        let mut i: usize = 0;
        while i < n
            invariant
                n == self.steps@.len(),
                i <= n,
                forall|j: int| 0 <= j < i ==> #[trigger] self.steps@[j].level != depth.level,
            decreases n - i,
        {
            if self.steps[i].level == depth.level {
                return true;
            }
            i = i + 1;
        }
        false
    }
}

/// The shape of every decompression schedule: no more stops than levels
/// climbed; every stop shallower than the start and carrying its `max_level`;
/// stops strictly shallower one after another; the stop at level `l` is in the
/// schedule exactly when `l` lies above the start and is the surface or a
/// multiple of `interval`; and a schedule from below the surface is not empty
/// and ends at the surface.
pub proof fn lemma_plan_shape(level: u32, max_level: u32, interval: u32)
    requires
        interval >= 1,
    ensures
        ({
            let s = stops_below(level, max_level, interval);
            &&& s.len() <= level
            &&& forall|i: int| 0 <= i < s.len() ==> (#[trigger] s[i]).max_level == max_level && s[i].level < level
            &&& forall|i: int, j: int| 0 <= i < j < s.len() ==> (#[trigger] s[i]).level > (#[trigger] s[j]).level
            &&& forall|l: u32| #[trigger] s.contains(Depth { level: l, max_level })
                    <==> (l < level && (l == 0 || l % interval == 0))
            &&& (level == 0 <==> s.len() == 0)
            &&& level > 0 ==> s.last().level == 0
        }),
    decreases level,
{
    let s = stops_below(level, max_level, interval);
    if level > 0 {
        let above = (level - 1) as u32;
        lemma_plan_shape(above, max_level, interval);
        let rest = stops_below(above, max_level, interval);
        assert(0u32 == 0 || 0u32 % interval == 0);
        if above % interval == 0 || above == 0 {
            let head = seq![Depth { level: above, max_level }];
            assert(s == head + rest);
            assert forall|i: int| 0 < i < s.len() implies s[i] == rest[i - 1] by {}
            assert forall|l: u32| #[trigger] s.contains(Depth { level: l, max_level })
                <==> (l < level && (l == 0 || l % interval == 0)) by {
                let x = Depth { level: l, max_level };
                if rest.contains(x) {
                    let k = choose|k: int| 0 <= k < rest.len() && rest[k] == x;
                    assert(s[k + 1] == x);
                }
                if l == above {
                    assert(s[0] == x);
                }
                if s.contains(x) {
                    let i = choose|i: int| 0 <= i < s.len() && s[i] == x;
                    if i > 0 {
                        assert(rest[i - 1] == x);
                    }
                }
            }
        } else {
            assert(s == rest);
            assert(above != 0);
            assert forall|l: u32| #[trigger] s.contains(Depth { level: l, max_level })
                <==> (l < level && (l == 0 || l % interval == 0)) by {
                assert(rest.contains(Depth { level: l, max_level })
                    <==> (l < above && (l == 0 || l % interval == 0)));
            }
        }
    }
}

/// Stopping at every level (interval 1) gives one stop per level climbed.
pub proof fn lemma_unit_interval_stops_everywhere(level: u32, max_level: u32)
    ensures
        stops_below(level, max_level, 1).len() == level,
    decreases level,
{
    if level > 0 {
        lemma_unit_interval_stops_everywhere((level - 1) as u32, max_level);
        assert(((level - 1) as u32) % 1 == 0);
    }
}

} // verus!
