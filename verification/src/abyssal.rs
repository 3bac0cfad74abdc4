use vstd::prelude::*;

verus! {

broadcast use vstd::string::group_string_axioms;

/// The text of each string in a list.
pub open spec fn texts(v: Seq<String>) -> Seq<Seq<char>> {
    v.map_values(|s: String| s@)
}

/// The deepest layers `[start_depth, max_depth]`, where normal invariants may
/// fail, with a log of the anomalies that occur there.
#[derive(Debug)]
pub struct AbyssalZone {
    /// Shallowest depth considered abyssal.
    pub start_depth: u32,
    /// Deepest depth considered abyssal.
    pub max_depth: u32,
    /// Recorded anomaly descriptions, oldest first.
    pub anomalies: Vec<String>,
}

impl AbyssalZone {
    /// Define an abyssal zone spanning `[start_depth, max_depth]`, with no
    /// anomalies recorded.
    pub fn new(start_depth: u32, max_depth: u32) -> (z: AbyssalZone)
        ensures
            z.start_depth == start_depth,
            z.max_depth == max_depth,
            z.anomalies@.len() == 0,
    {
        AbyssalZone { start_depth, max_depth, anomalies: Vec::new() }
    }

    /// True when `depth` lies within `[start_depth, max_depth]`.
    pub fn is_abyssal(&self, depth: u32) -> (r: bool)
        ensures
            r == (self.start_depth <= depth && depth <= self.max_depth),
    {
        depth >= self.start_depth && depth <= self.max_depth
    }

    /// Append an anomaly description to the log.
    pub fn record_anomaly(&mut self, anomaly: &str)
        ensures
            final(self).start_depth == old(self).start_depth,
            final(self).max_depth == old(self).max_depth,
            texts(final(self).anomalies@) == texts(old(self).anomalies@).push(anomaly@),
    {
        let s = anomaly.to_string();
        let ghost before = self.anomalies@;
        self.anomalies.push(s);
        assert(texts(self.anomalies@) == texts(before).push(anomaly@));
    }

    /// Number of anomalies recorded so far.
    pub fn anomaly_count(&self) -> (n: usize)
        ensures
            n == self.anomalies@.len(),
    {
        self.anomalies.len()
    }
}

/// Recording an anomaly, as [`AbyssalZone::record_anomaly`] does, adds exactly
/// one to the count, keeps every earlier record in place and puts the new
/// description last.
pub proof fn lemma_record_counts_one(before: AbyssalZone, after: AbyssalZone, anomaly: Seq<char>)
    requires
        texts(after.anomalies@) == texts(before.anomalies@).push(anomaly),
    ensures
        after.anomalies@.len() == before.anomalies@.len() + 1,
        after.anomalies@.last()@ == anomaly,
        forall|i: int| 0 <= i < before.anomalies@.len() ==> after.anomalies@[i]@ == #[trigger] before.anomalies@[i]@,
{
    let n = before.anomalies@.len();
    assert(texts(after.anomalies@).len() == n + 1);
    assert(texts(after.anomalies@)[n as int] == anomaly);
    assert forall|i: int| 0 <= i < n implies after.anomalies@[i]@ == #[trigger] before.anomalies@[i]@ by {
        assert(texts(after.anomalies@)[i] == texts(before.anomalies@)[i]);
    }
}

} // verus!
