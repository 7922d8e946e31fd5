//! The calculation as a whole: two vessels, built from antenna names, and the
//! strength of the link between them over a list of distances.

use vstd::prelude::*;
use crate::catalog::{Antennas, CatalogView};
use crate::distance::{Distance, Distances};
use crate::endpoint::{admits_power, EndpointView, Power};
use crate::error::{Error, MessageError};
use crate::range::{is_floor_sqrt, is_strength_at, Range};
use crate::vessel::{is_tally, tally_views, EndpointInfo, Vessel};

verus! {

/// The two sides of a link.
#[derive(Debug, Clone)]
pub struct Endpoints {
    pub from: EndpointInfo,
    pub to: EndpointInfo,
}

/// The strength of the link at both ends of a stretch, in millionths; `None`
/// where the link carries no signal.
#[derive(Debug, Clone, PartialEq, Eq)]
pub struct SignalStrength {
    pub section: String,
    pub at_min: Option<u64>,
    pub at_max: Option<u64>,
}

/// What a calculation gives: both sides, the reach of the link in metres,
/// and its strength over the stretches.
#[derive(Debug, Clone)]
pub struct Output {
    pub endpoints: Endpoints,
    pub max_distance: u64,
    pub signal_strengthes: Vec<SignalStrength>,
}

/// `s` gives the strengths of a link that reaches `max` at both ends of the
/// stretch `d`, under the name of `d`.
pub open spec fn is_signal_of(max: int, d: Distance, s: SignalStrength) -> bool {
    &&& s.section@ == d.section@
    &&& is_strength_at(max, d.min as int, s.at_min)
    &&& is_strength_at(max, d.max as int, s.at_max)
}

/// The text of the error for a name `name` that the catalog does not know.
pub open spec fn unknown_text(name: Seq<char>) -> Seq<char> {
    "unknown antenna: "@ + name
}

/// The text of the error for a power that the terms of a vessel's power do
/// not admit.
pub open spec fn unfit_text() -> Seq<char> {
    "power does not fit the antennas"@
}

/// A calculation in the making: the catalog and the two vessels.
#[derive(Debug, Clone)]
pub struct Runner {
    antennas: Antennas,
    from_vessel: Vessel,
    to_vessel: Vessel,
}

/// What a `Runner` holds, as mathematical values.
pub struct RunnerView {
    pub catalog: CatalogView,
    pub from: EndpointView,
    pub to: EndpointView,
}

impl View for Runner {
    type V = RunnerView;

    closed spec fn view(&self) -> RunnerView {
        RunnerView { catalog: self.antennas@, from: self.from_vessel@, to: self.to_vessel@ }
    }
}

impl Runner {
    /// The catalog and both vessels are well formed.
    pub closed spec fn wf(&self) -> bool {
        &&& self.antennas.wf()
        &&& self.from_vessel.wf()
        &&& self.to_vessel.wf()
    }

    /// What a well-formed runner holds is well formed, and neither vessel is
    /// without an antenna.
    pub proof fn lemma_wf(&self)
        requires
            self.wf(),
        ensures
            self@.catalog.wf(),
            self@.from.wf(),
            self@.to.wf(),
            self@.from.attached.len() > 0,
            self@.to.attached.len() > 0,
    {
        self.antennas.lemma_wf();
    }

    /// A calculation over the catalog `antennas`, between two new vessels.
    pub fn new(antennas: Antennas) -> (r: Runner)
        requires
            antennas.wf(),
        ensures
            r.wf(),
            r@.catalog == antennas@,
            r@.from == Vessel::new_view(),
            r@.to == Vessel::new_view(),
    {
        Runner { antennas, from_vessel: Vessel::new(), to_vessel: Vessel::new() }
    }

    /// The catalog.
    pub fn antennas(&self) -> (r: &Antennas)
        requires
            self.wf(),
        ensures
            r.wf(),
            r@ == self@.catalog,
    {
        &self.antennas
    }

    /// Offers `count` units of the antenna that `antenna_name` stands for to
    /// the vessel at the near end. A name that the catalog does not know is
    /// an error, and changes nothing.
    pub fn add_from_vessel_antenna(&mut self, count: usize, antenna_name: &str) -> (r: Result<
        (),
        Error,
    >)
        requires
            old(self).wf(),
        ensures
            final(self).wf(),
            match old(self)@.catalog.resolve(antenna_name@) {
                Some(a) => r is Ok && final(self)@ == (RunnerView {
                    from: old(self)@.from.add(a, count as nat),
                    ..old(self)@
                }),
                None => final(self)@ == old(self)@ && match r {
                    Err(Error::Message(m)) => m@ == unknown_text(antenna_name@),
                    _ => false,
                },
            },
    {
        let found = match self.antennas.get(antenna_name) {
            Some(a) => Some(a.clone()),
            None => None,
        };
        match found {
            Some(antenna) => {
                self.from_vessel.add_antenna(antenna, count);
                Ok(())
            },
            None => Err(unknown_antenna(antenna_name)),
        }
    }

    /// Offers `count` units of the antenna that `antenna_name` stands for to
    /// the vessel at the far end. A name that the catalog does not know is
    /// an error, and changes nothing.
    pub fn add_to_vessel_antenna(&mut self, count: usize, antenna_name: &str) -> (r: Result<
        (),
        Error,
    >)
        requires
            old(self).wf(),
        ensures
            final(self).wf(),
            match old(self)@.catalog.resolve(antenna_name@) {
                Some(a) => r is Ok && final(self)@ == (RunnerView {
                    to: old(self)@.to.add(a, count as nat),
                    ..old(self)@
                }),
                None => final(self)@ == old(self)@ && match r {
                    Err(Error::Message(m)) => m@ == unknown_text(antenna_name@),
                    _ => false,
                },
            },
    {
        let found = match self.antennas.get(antenna_name) {
            Some(a) => Some(a.clone()),
            None => None,
        };
        match found {
            Some(antenna) => {
                self.to_vessel.add_antenna(antenna, count);
                Ok(())
            },
            None => Err(unknown_antenna(antenna_name)),
        }
    }

    /// The terms of the powers of the near and the far vessel.
    pub fn powers(&self) -> (r: (Power, Power))
        requires
            self.wf(),
        ensures
            r.0.describes(self@.from.attached),
            r.1.describes(self@.to.attached),
    {
        (self.from_vessel.power(), self.to_vessel.power())
    }

    /// The calculation, for the powers `from_power` and `to_power` that the
    /// caller has evaluated from the terms of `powers`, rounded down. Powers
    /// that those terms do not admit are an error.
    pub fn run(&self, from_power: u64, to_power: u64, distances: &Distances) -> (r: Result<
        Output,
        Error,
    >)
        requires
            self.wf(),
        ensures
            match r {
                Ok(out) => {
                    &&& admits_power(self@.from.attached, from_power as int)
                    &&& admits_power(self@.to.attached, to_power as int)
                    &&& out.endpoints.from.endpoint_type@ == kind_text(self@.from)
                    &&& out.endpoints.to.endpoint_type@ == kind_text(self@.to)
                    &&& is_tally(self@.from.attached, tally_views(out.endpoints.from.antennas@))
                    &&& is_tally(self@.to.attached, tally_views(out.endpoints.to.antennas@))
                    &&& is_floor_sqrt(from_power * to_power, out.max_distance as int)
                    &&& out.signal_strengthes.len() == distances@.len()
                    &&& forall|i: int|
                        0 <= i < distances@.len() ==> is_signal_of(
                            out.max_distance as int,
                            distances@[i],
                            #[trigger] out.signal_strengthes[i],
                        )
                },
                Err(Error::Message(m)) => {
                    &&& !(admits_power(self@.from.attached, from_power as int) && admits_power(
                        self@.to.attached,
                        to_power as int,
                    ))
                    &&& m@ == unfit_text()
                },
                Err(_) => false,
            },
    {
        let (from_terms, to_terms) = self.powers();
        proof {
            from_terms.lemma_describes(self@.from.attached, from_power);
            to_terms.lemma_describes(self@.to.attached, to_power);
        }
        if !(from_terms.admits(from_power) && to_terms.admits(to_power)) {
            return Err(Error::Message(MessageError::new("power does not fit the antennas")));
        }
        let endpoints = Endpoints { from: self.from_vessel.info(), to: self.to_vessel.info() };
        let range = Range::between(from_power, to_power);
        let max_distance = range.max_distance();
        let strengths = distances.get_strengthes(range);
        let mut signal_strengthes: Vec<SignalStrength> = Vec::new();
        let mut i: usize = 0;
        while i < strengths.len()
            invariant
                i <= strengths.len(),
                signal_strengthes.len() == i,
                forall|j: int|
                    0 <= j < i ==> {
                        &&& (#[trigger] signal_strengthes[j]).section@ == strengths[j].section@
                        &&& signal_strengthes[j].at_min == strengths[j].at_min
                        &&& signal_strengthes[j].at_max == strengths[j].at_max
                    },
            decreases strengths.len() - i,
        {
            let s = &strengths[i];
            signal_strengthes.push(
                SignalStrength {
                    section: String::from_str(s.section),
                    at_min: s.at_min,
                    at_max: s.at_max,
                },
            );
            i += 1;
        }
        Ok(Output { endpoints, max_distance, signal_strengthes })
    }
}

/// "DSN" for a ground station, "Vessel" for anything else.
pub open spec fn kind_text(e: EndpointView) -> Seq<char> {
    if e.is_dsn {
        "DSN"@
    } else {
        "Vessel"@
    }
}

/// The error for a name that the catalog does not know.
fn unknown_antenna(name: &str) -> (e: Error)
    ensures
        match e {
            Error::Message(m) => m@ == unknown_text(name@),
            _ => false,
        },
{
    let text = String::from_str("unknown antenna: ").concat(name);
    Error::Message(MessageError::new(text.as_str()))
}

} // verus!
