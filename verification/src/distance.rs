//! Distances at which the strength of a link is asked for.

use vstd::prelude::*;
use crate::range::{is_strength_at, Range};

verus! {

/// A stretch of space with a name, from its least to its greatest distance
/// in metres.
#[derive(Debug, Clone)]
pub struct Distance {
    pub section: String,
    pub min: i64,
    pub max: i64,
}

/// The strength of a link at both ends of a stretch, in millionths; `None`
/// where the link carries no signal.
#[derive(Debug, Clone, Copy, PartialEq, Eq)]
pub struct Strength<'a> {
    pub section: &'a str,
    pub at_min: Option<u64>,
    pub at_max: Option<u64>,
}

/// `s` gives the strengths of a link that reaches `max` at both ends of the
/// stretch `d`, under the name of `d`.
pub open spec fn is_strength_of(max: int, d: Distance, s: Strength) -> bool {
    &&& s.section@ == d.section@
    &&& is_strength_at(max, d.min as int, s.at_min)
    &&& is_strength_at(max, d.max as int, s.at_max)
}

/// A list of stretches.
#[derive(Debug, Clone)]
pub struct Distances {
    dists: Vec<Distance>,
}

impl View for Distances {
    type V = Seq<Distance>;

    closed spec fn view(&self) -> Seq<Distance> {
        self.dists@
    }
}

impl Distances {
    /// The list of the stretches `dists`, in their order.
    pub fn new(dists: Vec<Distance>) -> (r: Distances)
        ensures
            r@ == dists@,
    {
        Distances { dists }
    }

    /// The strengths of the link `range` at both ends of each stretch, in the
    /// order of the stretches.
    pub fn get_strengthes(&self, range: Range) -> (r: Vec<Strength>)
        ensures
            r.len() == self@.len(),
            forall|i: int| 0 <= i < r.len() ==> is_strength_of(range@, self@[i], #[trigger] r[i]),
    {
        let mut out: Vec<Strength> = Vec::new();
        let mut i: usize = 0;
        while i < self.dists.len()
            invariant
                i <= self.dists.len(),
                out.len() == i,
                forall|j: int| 0 <= j < i ==> is_strength_of(range@, self.dists@[j], #[trigger] out[j]),
            decreases self.dists.len() - i,
        {
            let d = &self.dists[i];
            out.push(
                Strength {
                    section: d.section.as_str(),
                    at_min: range.strength_at(d.min),
                    at_max: range.strength_at(d.max),
                },
            );
            i += 1;
        }
        out
    }
}

} // verus!
