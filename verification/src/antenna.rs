//! Antenna specifications.
//!
//! Power is a whole number of units. A combinability exponent is a whole
//! number of millionths, so that `EXPONENT_ONE` stands for an exponent of 1
//! and `750_000` for 0.75.

use vstd::prelude::*;

verus! {

/// The combinability exponent 1: stacked antennas add up linearly.
pub const EXPONENT_ONE: u32 = 1_000_000;

/// The physical parameters of one kind of antenna.
#[derive(Debug)]
pub struct Antenna {
    pub name: String,
    pub aliases: Vec<String>,
    pub power: u64,
    pub combine: bool,
    pub combine_exp: u32,
    pub relay: bool,
    pub is_dsn: bool,
}

/// What an `Antenna` holds, as mathematical values.
pub struct AntennaView {
    pub name: Seq<char>,
    pub aliases: Seq<Seq<char>>,
    pub power: nat,
    pub combine: bool,
    pub combine_exp: nat,
    pub relay: bool,
    pub is_dsn: bool,
}

impl AntennaView {
    /// The power is positive and the exponent is at most 1.
    pub open spec fn wf(self) -> bool {
        &&& 1 <= self.power <= u64::MAX
        &&& self.combine_exp <= EXPONENT_ONE
    }
}

/// The texts of a list of strings.
pub open spec fn texts(v: Seq<String>) -> Seq<Seq<char>> {
    v.map_values(|s: String| s@)
}

impl View for Antenna {
    type V = AntennaView;

    open spec fn view(&self) -> AntennaView {
        AntennaView {
            name: self.name@,
            aliases: texts(self.aliases@),
            power: self.power as nat,
            combine: self.combine,
            combine_exp: self.combine_exp as nat,
            relay: self.relay,
            is_dsn: self.is_dsn,
        }
    }
}

/// A copy of a list of strings.
pub fn clone_strings(v: &Vec<String>) -> (r: Vec<String>)
    ensures
        texts(r@) == texts(v@),
{
    let mut r: Vec<String> = Vec::new();
    let mut i: usize = 0;
    while i < v.len()
        invariant
            i <= v.len(),
            r.len() == i,
            forall|j: int| 0 <= j < i ==> r@[j]@ == v@[j]@,
        decreases v.len() - i,
    {
        r.push(v[i].clone());
        i += 1;
    }
    assert(texts(r@) =~= texts(v@));
    r
}

impl Clone for Antenna {
    fn clone(&self) -> (r: Antenna)
        ensures
            r@ == self@,
    {
        Antenna {
            name: self.name.clone(),
            aliases: clone_strings(&self.aliases),
            power: self.power,
            combine: self.combine,
            combine_exp: self.combine_exp,
            relay: self.relay,
            is_dsn: self.is_dsn,
        }
    }
}

impl Antenna {
    /// The power is positive and the exponent is at most 1.
    pub open spec fn wf(&self) -> bool {
        self@.wf()
    }

    /// Whether the power is positive and the exponent is at most 1.
    pub fn is_valid(&self) -> (r: bool)
        ensures
            r == self.wf(),
    {
        self.power >= 1 && self.combine_exp <= EXPONENT_ONE
    }

    /// The antenna that every vessel carries in its command module.
    pub fn command_module() -> (a: Antenna)
        ensures
            a@ == command_module_view(),
            a.wf(),
    {
        let a = Antenna {
            name: String::from_str("Command Module"),
            aliases: Vec::new(),
            power: 5000,
            combine: false,
            combine_exp: 0,
            relay: false,
            is_dsn: false,
        };
        assert(a@.aliases =~= Seq::<Seq<char>>::empty());
        a
    }
}

/// The antenna of a command module: power 5000, not combinable (exponent 0),
/// no relay, no ground station, and no alias.
pub open spec fn command_module_view() -> AntennaView {
    AntennaView {
        name: "Command Module"@,
        aliases: Seq::empty(),
        power: 5000,
        combine: false,
        combine_exp: 0,
        relay: false,
        is_dsn: false,
    }
}

/// The exponent of an antenna whose definition gives none: 0.75.
pub fn default_combine_exp() -> (e: u32)
    ensures
        e == 750_000,
{
    750_000
}

} // verus!
