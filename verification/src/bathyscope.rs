use vstd::prelude::*;
use std::collections::HashMap;
use vstd::std_specs::hash::spec_keys_iter;
use vstd::std_specs::iter::IteratorSpec;
use crate::abyssal::texts;

verus! {

broadcast use {vstd::std_specs::hash::group_hash_axioms, vstd::string::group_string_axioms};

/// The notes a log holds at `depth` (empty when there are none).
pub open spec fn notes_at(log: Map<u32, Seq<Seq<char>>>, depth: u32) -> Seq<Seq<char>> {
    if log.contains_key(depth) { log[depth] } else { Seq::empty() }
}

/// Number of notes a log holds at the depths below `bound`.
pub open spec fn notes_below(log: Map<u32, Seq<Seq<char>>>, bound: nat) -> nat
    decreases bound,
{
    if bound == 0 {
        0
    } else {
        notes_below(log, (bound - 1) as nat) + notes_at(log, (bound - 1) as u32).len()
    }
}

/// Number of notes a log holds over every depth.
pub open spec fn note_count(log: Map<u32, Seq<Seq<char>>>) -> nat {
    notes_below(log, 0x1_0000_0000)
}

/// Number of notes a log holds at the depths listed in `keys`, counted once
/// per listing.
pub open spec fn notes_in(log: Map<u32, Seq<Seq<char>>>, keys: Seq<u32>) -> nat
    decreases keys.len(),
{
    if keys.len() == 0 {
        0
    } else {
        notes_in(log, keys.drop_last()) + notes_at(log, keys.last()).len()
    }
}

/// The log holds at least one note at `depth`.
pub open spec fn has_notes(log: Map<u32, Seq<Seq<char>>>, depth: u32) -> bool {
    notes_at(log, depth).len() > 0
}

/// The log holds notes at `d` and at no deeper depth.
pub open spec fn is_deepest(log: Map<u32, Seq<Seq<char>>>, d: u32) -> bool {
    has_notes(log, d) && forall|k: u32| #[trigger] has_notes(log, k) ==> k <= d
}

/// The deepest depth a log holds notes at, or `None` when it holds none.
pub open spec fn deepest_depth(log: Map<u32, Seq<Seq<char>>>) -> Option<u32> {
    if exists|d: u32| is_deepest(log, d) {
        Some(choose|d: u32| is_deepest(log, d))
    } else {
        None
    }
}

/// The log after one more note at `depth`.
pub open spec fn with_note(log: Map<u32, Seq<Seq<char>>>, depth: u32, note: Seq<char>) -> Map<u32, Seq<Seq<char>>> {
    log.insert(depth, notes_at(log, depth).push(note))
}

/// The log of a scope that accepts depths up to `max_depth`, after observing
/// each `(depth, note)` of `observations` in order, starting from an empty
/// scope: what [`Bathyscope::new`] followed by [`Bathyscope::observe`] calls
/// leaves behind.
pub open spec fn replay(max_depth: u32, observations: Seq<(u32, Seq<char>)>) -> Map<u32, Seq<Seq<char>>>
    decreases observations.len(),
{
    if observations.len() == 0 {
        Map::empty()
    } else {
        let before = replay(max_depth, observations.drop_last());
        let (depth, note) = observations.last();
        if depth <= max_depth {
            with_note(before, depth, note)
        } else {
            before
        }
    }
}

/// The notes of `observations`, in order, that were made at `depth` and
/// accepted by a scope bounded by `max_depth`.
pub open spec fn accepted_at(max_depth: u32, observations: Seq<(u32, Seq<char>)>, depth: u32) -> Seq<Seq<char>> {
    observations.filter(|o: (u32, Seq<char>)| o.0 == depth && o.0 <= max_depth).map_values(
        |o: (u32, Seq<char>)| o.1,
    )
}

/// A non-invasive log of observations keyed by depth, like a bathyscope
/// lowered into deep layers without disturbing them.
#[derive(Debug)]
pub struct Bathyscope {
    /// Deepest level this scope accepts observations for.
    pub max_depth: u32,
    observations: HashMap<u32, Vec<String>>,
}

impl Bathyscope {
    /// The deepest level this scope accepts observations for.
    pub closed spec fn depth_limit(&self) -> u32 {
        self.max_depth
    }

    /// The notes recorded so far, by depth, oldest first.
    pub closed spec fn log(&self) -> Map<u32, Seq<Seq<char>>> {
        self.observations@.map_values(|v: Vec<String>| texts(v@))
    }

    /// The deepest level this scope accepts observations for.
    pub fn max_depth(&self) -> (r: u32)
        ensures
            r == self.depth_limit(),
    {
        self.max_depth
    }

    /// Create an empty scope accepting observations up to `max_depth`.
    pub fn new(max_depth: u32) -> (b: Bathyscope)
        ensures
            b.depth_limit() == max_depth,
            b.log() == Map::<u32, Seq<Seq<char>>>::empty(),
            note_count(b.log()) == 0,
            deepest_depth(b.log()) is None,
    {
        let b = Bathyscope { max_depth, observations: HashMap::new() };
        assert(b.log() =~= Map::<u32, Seq<Seq<char>>>::empty());
        proof {
            lemma_empty_log_counts(b.log(), 0x1_0000_0000);
        }
        b
    }

    /// Record an observation at `depth`. Returns `false`, and stores nothing,
    /// when `depth` exceeds the scope's `max_depth`.
    pub fn observe(&mut self, depth: u32, note: &str) -> (accepted: bool)
        ensures
            accepted == (depth <= old(self).depth_limit()),
            final(self).depth_limit() == old(self).depth_limit(),
            accepted ==> final(self).log() == with_note(old(self).log(), depth, note@),
            accepted ==> note_count(final(self).log()) == note_count(old(self).log()) + 1,
            !accepted ==> final(self).log() == old(self).log(),
    {
        if depth > self.max_depth {
            return false;
        }
        let ghost old_obs = self.observations@;
        let ghost old_log = self.log();
        let mut notes: Vec<String> = match self.observations.remove(&depth) {
            Some(v) => v,
            None => Vec::new(),
        };
        assert(texts(notes@) == notes_at(old_log, depth));
        let ghost before = notes@;
        notes.push(note.to_string());
        assert(texts(notes@) == texts(before).push(note@));
        self.observations.insert(depth, notes);
        proof {
            assert(self.observations@ == old_obs.insert(depth, notes));
            assert(self.log() =~= with_note(old_log, depth, note@));
            lemma_with_note_counts(old_log, depth, note@, 0x1_0000_0000);
        }
        true
    }

    /// All notes recorded at `depth`, oldest first (empty if none).
    pub fn at_depth(&self, depth: u32) -> (notes: &[String])
        ensures
            texts(notes@) == notes_at(self.log(), depth),
    {
        match self.observations.get(&depth) {
            Some(v) => v.as_slice(),
            None => &[],
        }
    }

    /// Total number of observations across every depth.
    pub fn total_observations(&self) -> (n: usize)
        requires
            note_count(self.log()) <= usize::MAX,
        ensures
            n == note_count(self.log()),
    {
        let ghost log = self.log();
        let ghost keys = spec_keys_iter(&self.observations).remaining().unref();
        proof {
            assert(keys.to_set() == log.dom());
            lemma_notes_in_distinct_keys(log, keys);
            assert(log.restrict(keys.to_set()) =~= log);
        }
        let mut total: usize = 0;
        for k in it: self.observations.keys()
            invariant
                it.seq().unref() == keys,
                log == self.log(),
                notes_in(log, keys) == note_count(log),
                note_count(log) <= usize::MAX,
                total == notes_in(log, keys.take(it.index())),
        {
            proof {
                assert(keys.take(it.index() + 1).drop_last() =~= keys.take(it.index()));
                lemma_notes_in_prefix(log, keys, it.index() + 1);
            }
            match self.observations.get(k) {
                Some(v) => {
                    total = total + v.len();
                },
                None => {},
            }
        }
        proof {
            assert(keys.take(keys.len() as int) =~= keys);
        }
        total
    }

    /// The deepest level with at least one observation, or `None` if there is
    /// none.
    pub fn deepest_observed(&self) -> (d: Option<u32>)
        ensures
            d == deepest_depth(self.log()),
            d is None <==> forall|k: u32| !#[trigger] has_notes(self.log(), k),
            d matches Some(x) ==> is_deepest(self.log(), x),
    {
        let ghost log = self.log();
        let ghost keys = spec_keys_iter(&self.observations).remaining().unref();
        proof {
            assert(keys.to_set() == log.dom());
        }
        let mut best: Option<u32> = None;
        for k in it: self.observations.keys()
            invariant
                it.seq().unref() == keys,
                log == self.log(),
                best is None ==> forall|j: int| 0 <= j < it.index() ==> !has_notes(log, #[trigger] keys[j]),
                best matches Some(b) ==> {
                    &&& has_notes(log, b)
                    &&& forall|j: int| 0 <= j < it.index() && has_notes(log, #[trigger] keys[j]) ==> keys[j] <= b
                },
        {
            let ghost i = it.index();
            let noted = match self.observations.get(k) {
                Some(v) => v.len() > 0,
                None => false,
            };
            if noted {
                best = match best {
                    Some(b) => if *k > b { Some(*k) } else { Some(b) },
                    None => Some(*k),
                };
            }
            proof {
                assert(keys[i] == *k);
                assert(noted == has_notes(log, *k));
            }
        }
        proof {
            lemma_deepest_depth(log);
            assert forall|k: u32| #[trigger] has_notes(log, k) implies keys.contains(k) by {
                assert(log.dom().contains(k));
                assert(keys.to_set().contains(k));
            }
            match best {
                Some(b) => {
                    assert forall|k: u32| #[trigger] has_notes(log, k) implies k <= b by {
                        let i = choose|i: int| 0 <= i < keys.len() && keys[i] == k;
                        assert(has_notes(log, keys[i]));
                    }
                    assert(is_deepest(log, b));
                    lemma_deepest_unique(log, b);
                },
                None => {
                    assert forall|k: u32| !#[trigger] has_notes(log, k) by {
                        if has_notes(log, k) {
                            let i = choose|i: int| 0 <= i < keys.len() && keys[i] == k;
                            assert(has_notes(log, keys[i]));
                        }
                    }
                },
            }
        }
        best
    }
}

/// Adding a note at `depth` adds one to the count below every bound above
/// `depth`, and nothing below the others.
pub proof fn lemma_with_note_counts(log: Map<u32, Seq<Seq<char>>>, depth: u32, note: Seq<char>, bound: nat)
    requires
        bound <= 0x1_0000_0000,
    ensures
        notes_below(with_note(log, depth, note), bound)
            == notes_below(log, bound) + if depth < bound { 1nat } else { 0nat },
    decreases bound,
{
    if bound > 0 {
        lemma_with_note_counts(log, depth, note, (bound - 1) as nat);
        let k = (bound - 1) as u32;
        assert(k as nat == bound - 1);
        if k == depth {
            assert(notes_at(with_note(log, depth, note), k).len() == notes_at(log, k).len() + 1);
        } else {
            assert(notes_at(with_note(log, depth, note), k) == notes_at(log, k));
        }
    }
}

/// Reading back after a note at `depth`: the notes at `depth` are the earlier
/// ones followed by the new note, and the notes at every other depth are
/// unchanged.
pub proof fn lemma_with_note_read_back(log: Map<u32, Seq<Seq<char>>>, depth: u32, note: Seq<char>, other: u32)
    ensures
        notes_at(with_note(log, depth, note), depth) == notes_at(log, depth).push(note),
        other != depth ==> notes_at(with_note(log, depth, note), other) == notes_at(log, other),
{
}

/// Replacing the notes at `depth` changes the count below every bound above
/// `depth` by the difference in length, and nothing below the others.
proof fn lemma_replace_counts(log: Map<u32, Seq<Seq<char>>>, depth: u32, notes: Seq<Seq<char>>, bound: nat)
    requires
        bound <= 0x1_0000_0000,
    ensures
        notes_below(log.insert(depth, notes), bound) as int
            == notes_below(log, bound) + if depth < bound { notes.len() - notes_at(log, depth).len() } else { 0int },
    decreases bound,
{
    if bound > 0 {
        lemma_replace_counts(log, depth, notes, (bound - 1) as nat);
        let k = (bound - 1) as u32;
        assert(k as nat == bound - 1);
        if k != depth {
            assert(notes_at(log.insert(depth, notes), k) == notes_at(log, k));
        }
    }
}

/// Counting over a list of distinct depths counts the log restricted to them.
proof fn lemma_notes_in_distinct_keys(log: Map<u32, Seq<Seq<char>>>, keys: Seq<u32>)
    requires
        keys.no_duplicates(),
    ensures
        notes_in(log, keys) == note_count(log.restrict(keys.to_set())),
    decreases keys.len(),
{
    if keys.len() == 0 {
        assert(log.restrict(keys.to_set()) =~= Map::<u32, Seq<Seq<char>>>::empty());
        lemma_empty_log_counts(log.restrict(keys.to_set()), 0x1_0000_0000);
    } else {
        let rest = keys.drop_last();
        let k = keys.last();
        assert(rest.no_duplicates());
        lemma_notes_in_distinct_keys(log, rest);
        assert(keys == rest + seq![k]);
        Seq::lemma_to_set_insert_commutes(rest, k);
        assert(!rest.to_set().contains(k)) by {
            if rest.to_set().contains(k) {
                let i = choose|i: int| 0 <= i < rest.len() && rest[i] == k;
                assert(keys[i] == keys[keys.len() - 1]);
            }
        }
        let before = log.restrict(rest.to_set());
        let after = log.restrict(keys.to_set());
        if log.contains_key(k) {
            assert(after =~= before.insert(k, log[k]));
            assert(notes_at(before, k) == Seq::<Seq<char>>::empty());
            lemma_replace_counts(before, k, log[k], 0x1_0000_0000);
        } else {
            assert(after =~= before);
        }
    }
}

/// Counting over a prefix of a list never exceeds counting over the list.
proof fn lemma_notes_in_prefix(log: Map<u32, Seq<Seq<char>>>, keys: Seq<u32>, n: int)
    requires
        0 <= n <= keys.len(),
    ensures
        notes_in(log, keys.take(n)) <= notes_in(log, keys),
    decreases keys.len(),
{
    if n < keys.len() {
        assert(keys.take(n) =~= keys.drop_last().take(n));
        lemma_notes_in_prefix(log, keys.drop_last(), n);
    } else {
        assert(keys.take(n) =~= keys);
    }
}

/// Reading back after a sequence of observations: at every depth, the notes
/// are exactly those observed there and accepted, in the order of the calls;
/// a depth beyond `max_depth` or never observed holds none, and the total is
/// the number of accepted observations.
pub proof fn lemma_replay_read_back(max_depth: u32, observations: Seq<(u32, Seq<char>)>, depth: u32)
    ensures
        notes_at(replay(max_depth, observations), depth) == accepted_at(max_depth, observations, depth),
        depth > max_depth ==> notes_at(replay(max_depth, observations), depth).len() == 0,
        note_count(replay(max_depth, observations))
            == observations.filter(|o: (u32, Seq<char>)| o.0 <= max_depth).len(),
    decreases observations.len(),
{
    let pick = |o: (u32, Seq<char>)| o.0 == depth && o.0 <= max_depth;
    let accept = |o: (u32, Seq<char>)| o.0 <= max_depth;
    let note_of = |o: (u32, Seq<char>)| o.1;
    if observations.len() == 0 {
        reveal_with_fuel(Seq::filter, 1);
        assert(observations.filter(pick) =~= Seq::<(u32, Seq<char>)>::empty());
        assert(replay(max_depth, observations) =~= Map::<u32, Seq<Seq<char>>>::empty());
        lemma_empty_log_counts(replay(max_depth, observations), 0x1_0000_0000);
    } else {
        let rest = observations.drop_last();
        let (d, n) = observations.last();
        lemma_replay_read_back(max_depth, rest, depth);
        reveal_with_fuel(Seq::filter, 1);
        assert(observations.filter(pick) == if pick(observations.last()) {
            rest.filter(pick).push(observations.last())
        } else {
            rest.filter(pick)
        });
        assert(observations.filter(accept) == if accept(observations.last()) {
            rest.filter(accept).push(observations.last())
        } else {
            rest.filter(accept)
        });
        if d <= max_depth {
            lemma_with_note_counts(replay(max_depth, rest), d, n, 0x1_0000_0000);
            if d == depth {
                assert(rest.filter(pick).push(observations.last()).map_values(note_of)
                    =~= rest.filter(pick).map_values(note_of).push(n));
            }
        }
    }
}

/// A log with notes at a depth below `bound` has a deepest such depth below
/// `bound`.
proof fn lemma_deepest_below(log: Map<u32, Seq<Seq<char>>>, bound: nat)
    requires
        exists|k: u32| #[trigger] has_notes(log, k) && k < bound,
    ensures
        exists|d: u32| has_notes(log, d) && d < bound
            && forall|k: u32| #[trigger] has_notes(log, k) && k < bound ==> k <= d,
    decreases bound,
{
    let top = (bound - 1) as nat;
    if top <= u32::MAX && has_notes(log, top as u32) {
        let d = top as u32;
        assert(forall|k: u32| #[trigger] has_notes(log, k) && k < bound ==> k <= d);
    } else if exists|k: u32| #[trigger] has_notes(log, k) && k < top {
        lemma_deepest_below(log, top);
    } else {
        let k = choose|k: u32| #[trigger] has_notes(log, k) && k < bound;
        assert(k >= top);
        assert(k == top);
    }
}

/// [`deepest_depth`] is `None` exactly when the log holds no note at any
/// depth, and otherwise a depth with notes that no depth with notes exceeds.
pub proof fn lemma_deepest_depth(log: Map<u32, Seq<Seq<char>>>)
    ensures
        deepest_depth(log) is None <==> forall|d: u32| !#[trigger] has_notes(log, d),
        deepest_depth(log) matches Some(d) ==> is_deepest(log, d),
{
    if exists|k: u32| #[trigger] has_notes(log, k) {
        let k0 = choose|k: u32| #[trigger] has_notes(log, k);
        assert(has_notes(log, k0) && k0 < 0x1_0000_0000);
        lemma_deepest_below(log, 0x1_0000_0000);
        let d = choose|d: u32| has_notes(log, d) && d < 0x1_0000_0000
            && forall|k: u32| #[trigger] has_notes(log, k) && k < 0x1_0000_0000 ==> k <= d;
        assert(is_deepest(log, d));
    } else {
        assert forall|d: u32| !is_deepest(log, d) by {
            assert(!has_notes(log, d));
        }
    }
}

/// A log has at most one deepest depth.
proof fn lemma_deepest_unique(log: Map<u32, Seq<Seq<char>>>, d: u32)
    requires
        is_deepest(log, d),
    ensures
        deepest_depth(log) == Some(d),
{
    let c = choose|x: u32| is_deepest(log, x);
    assert(c <= d && d <= c);
}

/// After a note at `depth`, the deepest depth is the deeper of `depth` and
/// the previous deepest one.
pub proof fn lemma_with_note_deepest(log: Map<u32, Seq<Seq<char>>>, depth: u32, note: Seq<char>)
    ensures
        deepest_depth(with_note(log, depth, note)) == Some(match deepest_depth(log) {
            Some(d) => if d >= depth { d } else { depth },
            None => depth,
        }),
{
    let after = with_note(log, depth, note);
    lemma_deepest_depth(log);
    match deepest_depth(log) {
        Some(d) => {
            let m: u32 = if d >= depth { d } else { depth };
            assert forall|k: u32| #[trigger] has_notes(after, k) implies k <= m by {
                if k != depth {
                    assert(notes_at(after, k) == notes_at(log, k));
                    assert(has_notes(log, k));
                }
            }
            assert(is_deepest(after, m));
            lemma_deepest_unique(after, m);
        },
        None => {
            assert forall|k: u32| #[trigger] has_notes(after, k) implies k <= depth by {
                if k != depth {
                    assert(notes_at(after, k) == notes_at(log, k));
                    assert(has_notes(log, k));
                }
            }
            assert(is_deepest(after, depth));
            lemma_deepest_unique(after, depth);
        },
    }
}

/// An empty log holds no notes below any bound and has no deepest depth.
proof fn lemma_empty_log_counts(log: Map<u32, Seq<Seq<char>>>, bound: nat)
    requires
        log == Map::<u32, Seq<Seq<char>>>::empty(),
    ensures
        notes_below(log, bound) == 0,
        deepest_depth(log) is None,
    decreases bound,
{
    if bound > 0 {
        lemma_empty_log_counts(log, (bound - 1) as nat);
    }
}

} // verus!
