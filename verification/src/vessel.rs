//! A vessel: an endpoint that carries the antenna of its command module from
//! the start, until a ground-station antenna takes its place.

use vstd::prelude::*;
use crate::antenna::{command_module_view, Antenna, AntennaView};
use crate::endpoint::{
    antenna_views, count_name, first_named, lemma_count_name, range_between, Endpoint,
    EndpointView, Power,
};
use crate::range::Range;
use crate::text::{
    lemma_name_lt_irreflexive, lemma_name_lt_total, lemma_name_lt_transitive, name_lt, str_lt,
};

verus! {

/// The tally `t` has an entry for the name `name`.
pub open spec fn tally_has(t: Seq<(nat, AntennaView)>, name: Seq<char>) -> bool {
    exists|i: int| 0 <= i < t.len() && (#[trigger] t[i]).1.name == name
}

/// `t` is the tally of the units `s`: one entry for each name that occurs,
/// in the rising order of the names, with the number of units of that name
/// and the first of them.
pub open spec fn is_tally(s: Seq<AntennaView>, t: Seq<(nat, AntennaView)>) -> bool {
    &&& forall|i: int, j: int|
        0 <= i < j < t.len() ==> name_lt(#[trigger] t[i].1.name, #[trigger] t[j].1.name)
    &&& forall|i: int|
        0 <= i < t.len() ==> {
            &&& (#[trigger] t[i]).0 == count_name(s, t[i].1.name)
            &&& t[i].0 >= 1
            &&& t[i].1 == s[first_named(s, t[i].1.name)]
        }
    &&& forall|k: int| 0 <= k < s.len() ==> tally_has(t, (#[trigger] s[k]).name)
}

/// The views of a list of counted antennas.
pub open spec fn tally_views(v: Seq<(usize, Antenna)>) -> Seq<(nat, AntennaView)> {
    v.map_values(|e: (usize, Antenna)| (e.0 as nat, e.1@))
}

/// One more unit of a name that the tally has raises that entry's count by
/// one.
pub proof fn lemma_tally_counts(
    s: Seq<AntennaView>,
    t: Seq<(nat, AntennaView)>,
    a: AntennaView,
    p: int,
)
    requires
        is_tally(s, t),
        0 <= p < t.len(),
        t[p].1.name == a.name,
    ensures
        is_tally(s.push(a), t.update(p, ((t[p].0 + 1) as nat, t[p].1))),
{
    let s2 = s.push(a);
    let t2 = t.update(p, ((t[p].0 + 1) as nat, t[p].1));
    assert(s2.drop_last() =~= s);
    assert forall|i: int, j: int| 0 <= i < j < t2.len() implies name_lt(
        #[trigger] t2[i].1.name,
        #[trigger] t2[j].1.name,
    ) by {
        assert(t2[i].1 == t[i].1 && t2[j].1 == t[j].1);
    }
    assert forall|i: int| 0 <= i < t2.len() implies {
        &&& (#[trigger] t2[i]).0 == count_name(s2, t2[i].1.name)
        &&& t2[i].0 >= 1
        &&& t2[i].1 == s2[first_named(s2, t2[i].1.name)]
    } by {
        let name = t[i].1.name;
        lemma_count_name(s, name);
        assert(t[i].0 >= 1);
        assert(s2[first_named(s, name)] == s[first_named(s, name)]);
        if i != p {
            lemma_name_lt_irreflexive(name);
            if i < p {
                assert(name_lt(t[i].1.name, t[p].1.name));
            } else {
                assert(name_lt(t[p].1.name, t[i].1.name));
            }
        }
    }
    assert forall|k: int| 0 <= k < s2.len() implies tally_has(t2, (#[trigger] s2[k]).name) by {
        if k < s.len() {
            assert(s2[k] == s[k]);
            assert(tally_has(t, s[k].name));
            let i = choose|i: int| 0 <= i < t.len() && (#[trigger] t[i]).1.name == s[k].name;
            assert(t2[i].1.name == s[k].name);
        } else {
            assert(t2[p].1.name == a.name);
        }
    }
}

/// The first unit of a name that the tally lacks gets an entry of its own,
/// between the names before it and the names after it.
pub proof fn lemma_tally_grows(
    s: Seq<AntennaView>,
    t: Seq<(nat, AntennaView)>,
    a: AntennaView,
    p: int,
)
    requires
        is_tally(s, t),
        0 <= p <= t.len(),
        forall|i: int| 0 <= i < p ==> name_lt((#[trigger] t[i]).1.name, a.name),
        forall|i: int| p <= i < t.len() ==> name_lt(a.name, (#[trigger] t[i]).1.name),
    ensures
        is_tally(s.push(a), t.insert(p, (1nat, a))),
{
    let s2 = s.push(a);
    let t2 = t.insert(p, (1nat, a));
    assert(s2.drop_last() =~= s);
    lemma_name_lt_irreflexive(a.name);
    assert forall|i: int, j: int| 0 <= i < j < t2.len() implies name_lt(
        #[trigger] t2[i].1.name,
        #[trigger] t2[j].1.name,
    ) by {
        if j < p {
            assert(t2[i] == t[i] && t2[j] == t[j]);
        } else if j == p {
            assert(t2[i] == t[i]);
        } else if i < p {
            assert(t2[i] == t[i] && t2[j] == t[j - 1]);
            if i == j - 1 {
                lemma_name_lt_transitive(t[i].1.name, a.name, t[j - 1].1.name);
            }
        } else if i == p {
            assert(t2[j] == t[j - 1]);
        } else {
            assert(t2[i] == t[i - 1] && t2[j] == t[j - 1]);
        }
    }
    assert(!tally_has(t, a.name)) by {
        if tally_has(t, a.name) {
            let i = choose|i: int| 0 <= i < t.len() && (#[trigger] t[i]).1.name == a.name;
            if i < p {
                assert(name_lt(t[i].1.name, a.name));
            } else {
                assert(name_lt(a.name, t[i].1.name));
            }
        }
    }
    lemma_count_name(s, a.name);
    assert(count_name(s, a.name) == 0) by {
        if count_name(s, a.name) != 0 {
            let k = choose|k: int| 0 <= k < s.len() && (#[trigger] s[k]).name == a.name;
            assert(tally_has(t, s[k].name));
        }
    }
    assert forall|i: int| 0 <= i < t2.len() implies {
        &&& (#[trigger] t2[i]).0 == count_name(s2, t2[i].1.name)
        &&& t2[i].0 >= 1
        &&& t2[i].1 == s2[first_named(s2, t2[i].1.name)]
    } by {
        if i == p {
        } else {
            let old_i = if i < p { i } else { i - 1 };
            assert(t2[i] == t[old_i]);
            let name = t[old_i].1.name;
            lemma_count_name(s, name);
            assert(t[old_i].0 >= 1);
            assert(s2[first_named(s, name)] == s[first_named(s, name)]);
            if i < p {
                assert(name_lt(t[old_i].1.name, a.name));
            } else {
                assert(name_lt(a.name, t[old_i].1.name));
            }
        }
    }
    assert forall|k: int| 0 <= k < s2.len() implies tally_has(t2, (#[trigger] s2[k]).name) by {
        if k < s.len() {
            assert(s2[k] == s[k]);
            assert(tally_has(t, s[k].name));
            let i = choose|i: int| 0 <= i < t.len() && (#[trigger] t[i]).1.name == s[k].name;
            if i < p {
                assert(t2[i].1.name == s[k].name);
            } else {
                assert(t2[i + 1].1.name == s[k].name);
            }
        } else {
            assert(t2[p].1.name == a.name);
        }
    }
}

/// The names of `a` stand in rising order.
pub open spec fn rising(a: Seq<Seq<char>>) -> bool {
    forall|i: int, j: int| 0 <= i < j < a.len() ==> name_lt(#[trigger] a[i], #[trigger] a[j])
}

/// Two lists of names in rising order that hold the same names are one
/// list.
pub proof fn lemma_rising_same(a: Seq<Seq<char>>, b: Seq<Seq<char>>)
    requires
        rising(a),
        rising(b),
        forall|x: Seq<char>| a.contains(x) <==> b.contains(x),
    ensures
        a == b,
    decreases a.len(),
{
    if a.len() == 0 {
        if b.len() > 0 {
            assert(b.contains(b[0]));
        }
        assert(a =~= b);
    } else {
        assert(a.contains(a.last()));
        assert(b.contains(a.last()));
        assert(b.contains(b.last()));
        assert(a.contains(b.last()));
        let i = choose|i: int| 0 <= i < b.len() && b[i] == a.last();
        let j = choose|j: int| 0 <= j < a.len() && a[j] == b.last();
        lemma_name_lt_irreflexive(a.last());
        if a.last() != b.last() {
            assert(name_lt(b[i], b.last()));
            assert(name_lt(a[j], a.last()));
            lemma_name_lt_transitive(a.last(), b.last(), a.last());
        }
        let a2 = a.drop_last();
        let b2 = b.drop_last();
        assert forall|x: Seq<char>| a2.contains(x) <==> b2.contains(x) by {
            if a2.contains(x) {
                let k = choose|k: int| 0 <= k < a2.len() && a2[k] == x;
                assert(a[k] == x);
                assert(name_lt(a[k], a.last()));
                assert(a.contains(x));
                let m = choose|m: int| 0 <= m < b.len() && b[m] == x;
                lemma_name_lt_irreflexive(x);
                assert(b2[m] == x);
            }
            if b2.contains(x) {
                let k = choose|k: int| 0 <= k < b2.len() && b2[k] == x;
                assert(b[k] == x);
                assert(name_lt(b[k], b.last()));
                assert(b.contains(x));
                let m = choose|m: int| 0 <= m < a.len() && a[m] == x;
                lemma_name_lt_irreflexive(x);
                assert(a2[m] == x);
            }
        }
        assert(rising(a2)) by {
            assert forall|p: int, q: int| 0 <= p < q < a2.len() implies name_lt(
                #[trigger] a2[p],
                #[trigger] a2[q],
            ) by {
                assert(a2[p] == a[p] && a2[q] == a[q]);
            }
        }
        assert(rising(b2)) by {
            assert forall|p: int, q: int| 0 <= p < q < b2.len() implies name_lt(
                #[trigger] b2[p],
                #[trigger] b2[q],
            ) by {
                assert(b2[p] == b[p] && b2[q] == b[q]);
            }
        }
        lemma_rising_same(a2, b2);
        assert(a =~= a2.push(a.last()));
        assert(b =~= b2.push(b.last()));
    }
}

/// The names of the entries of a tally.
pub open spec fn tally_names(t: Seq<(nat, AntennaView)>) -> Seq<Seq<char>> {
    t.map_values(|e: (nat, AntennaView)| e.1.name)
}

/// A list of units has one tally only.
pub proof fn lemma_tally_unique(
    s: Seq<AntennaView>,
    t1: Seq<(nat, AntennaView)>,
    t2: Seq<(nat, AntennaView)>,
)
    requires
        is_tally(s, t1),
        is_tally(s, t2),
    ensures
        t1 == t2,
{
    let n1 = tally_names(t1);
    let n2 = tally_names(t2);
    assert forall|x: Seq<char>| n1.contains(x) <==> n2.contains(x) by {
        if n1.contains(x) {
            let i = choose|i: int| 0 <= i < n1.len() && n1[i] == x;
            assert(t1[i].0 >= 1);
            lemma_count_name(s, x);
            let k = choose|k: int| 0 <= k < s.len() && (#[trigger] s[k]).name == x;
            assert(tally_has(t2, s[k].name));
            let m = choose|m: int| 0 <= m < t2.len() && (#[trigger] t2[m]).1.name == x;
            assert(n2[m] == x);
        }
        if n2.contains(x) {
            let i = choose|i: int| 0 <= i < n2.len() && n2[i] == x;
            assert(t2[i].0 >= 1);
            lemma_count_name(s, x);
            let k = choose|k: int| 0 <= k < s.len() && (#[trigger] s[k]).name == x;
            assert(tally_has(t1, s[k].name));
            let m = choose|m: int| 0 <= m < t1.len() && (#[trigger] t1[m]).1.name == x;
            assert(n1[m] == x);
        }
    }
    assert(rising(n1)) by {
        assert forall|i: int, j: int| 0 <= i < j < n1.len() implies name_lt(
            #[trigger] n1[i],
            #[trigger] n1[j],
        ) by {
            assert(name_lt(t1[i].1.name, t1[j].1.name));
        }
    }
    assert(rising(n2)) by {
        assert forall|i: int, j: int| 0 <= i < j < n2.len() implies name_lt(
            #[trigger] n2[i],
            #[trigger] n2[j],
        ) by {
            assert(name_lt(t2[i].1.name, t2[j].1.name));
        }
    }
    lemma_rising_same(n1, n2);
    assert(t1.len() == n1.len() && t2.len() == n2.len());
    assert forall|i: int| 0 <= i < t1.len() implies t1[i] == t2[i] by {
        assert(n1[i] == t1[i].1.name);
        assert(n2[i] == t2[i].1.name);
    }
    assert(t1 =~= t2);
}

/// The tally of a list of antennas: see `is_tally`.
pub fn tally(antennas: &Vec<Antenna>) -> (r: Vec<(usize, Antenna)>)
    ensures
        is_tally(antenna_views(antennas@), tally_views(r@)),
{
    let ghost views = antenna_views(antennas@);
    let mut out: Vec<(usize, Antenna)> = Vec::new();
    let mut i: usize = 0;
    assert(is_tally(views.take(0), tally_views(out@)));
    while i < antennas.len()
        invariant
            views == antenna_views(antennas@),
            i <= antennas.len(),
            is_tally(views.take(i as int), tally_views(out@)),
        decreases antennas.len() - i,
    {
        let a = &antennas[i];
        let ghost seen = views.take(i as int);
        let ghost before = tally_views(out@);
        assert(views.take(i + 1) =~= seen.push(a@));
        let mut p: usize = 0;
        while p < out.len() && str_lt(out[p].1.name.as_str(), a.name.as_str())
            invariant
                p <= out.len(),
                before == tally_views(out@),
                forall|j: int| 0 <= j < p ==> name_lt((#[trigger] before[j]).1.name, a@.name),
            decreases out.len() - p,
        {
            assert(before[p as int].1.name == out@[p as int].1@.name);
            p += 1;
        }
        if p < out.len() && out[p].1.name == a.name {
            proof {
                assert(before[p as int] == (out@[p as int].0 as nat, out@[p as int].1@));
                lemma_tally_counts(seen, before, a@, p as int);
                lemma_count_name(seen, a@.name);
            }
            let entry = out.remove(p);
            let grown: (usize, Antenna) = (entry.0 + 1, entry.1);
            out.insert(p, grown);
            assert(tally_views(out@) =~= before.update(
                p as int,
                ((before[p as int].0 + 1) as nat, before[p as int].1),
            ));
        } else {
            proof {
                assert forall|j: int| p <= j < before.len() implies name_lt(
                    a@.name,
                    (#[trigger] before[j]).1.name,
                ) by {
                    assert(before[p as int].1.name == out@[p as int].1@.name);
                    lemma_name_lt_total(before[p as int].1.name, a@.name);
                    if p < j {
                        assert(name_lt(before[p as int].1.name, before[j].1.name));
                        lemma_name_lt_transitive(
                            a@.name,
                            before[p as int].1.name,
                            before[j].1.name,
                        );
                    }
                }
                lemma_tally_grows(seen, before, a@, p as int);
            }
            out.insert(p, (1, a.clone()));
            assert(tally_views(out@) =~= before.insert(p as int, (1nat, a@)));
        }
        i += 1;
    }
    assert(views.take(i as int) =~= views);
    out
}

/// The kind of an endpoint and the tally of its antennas.
#[derive(Debug, Clone)]
pub struct EndpointInfo {
    pub endpoint_type: &'static str,
    pub antennas: Vec<(usize, Antenna)>,
}

/// A vessel, or the ground station that it became.
#[derive(Debug, Clone)]
pub struct Vessel {
    endpoint: Endpoint,
}

impl View for Vessel {
    type V = EndpointView;

    closed spec fn view(&self) -> EndpointView {
        self.endpoint@
    }
}

impl Default for Vessel {
    fn default() -> (v: Vessel)
        ensures
            v.wf(),
            v@ == Vessel::new_view(),
    {
        Vessel::new()
    }
}

impl Vessel {
    /// The endpoint is well formed, and something is attached to it.
    pub open spec fn wf(&self) -> bool {
        self@.wf() && self@.attached.len() > 0
    }

    /// What a new vessel holds: the antenna of its command module.
    pub open spec fn new_view() -> EndpointView {
        EndpointView { attached: seq![command_module_view()], is_dsn: false }
    }

    /// A vessel with nothing but the antenna of its command module.
    pub fn new() -> (v: Vessel)
        ensures
            v.wf(),
            v@ == Self::new_view(),
    {
        let mut endpoint = Endpoint::new();
        endpoint.add_antenna(Antenna::command_module(), 1);
        assert(endpoint@.attached =~= seq![command_module_view()]);
        Vessel { endpoint }
    }

    /// Offers `count` units of `antenna` to the vessel: see
    /// `Endpoint::add_antenna`.
    pub fn add_antenna(&mut self, antenna: Antenna, count: usize)
        requires
            old(self).wf(),
            antenna.wf(),
        ensures
            final(self).wf(),
            final(self)@ == old(self)@.add(antenna@, count as nat),
    {
        self.endpoint.add_antenna(antenna, count);
    }

    /// The kind of the endpoint, "DSN" or "Vessel", and the tally of its
    /// antennas by name.
    pub fn info(&self) -> (r: EndpointInfo)
        ensures
            r.endpoint_type@ == (if self@.is_dsn { "DSN"@ } else { "Vessel"@ }),
            is_tally(self@.attached, tally_views(r.antennas@)),
    {
        EndpointInfo {
            endpoint_type: self.endpoint.endpoint_type(),
            antennas: tally(self.endpoint.antennas()),
        }
    }

    /// The terms of the power that the attached units give together.
    pub fn power(&self) -> (p: Power)
        requires
            self.wf(),
        ensures
            p.describes(self@.attached),
    {
        self.endpoint.power()
    }

    /// The reach of the link to `other`: see `Endpoint::range_to`.
    pub fn range_to(&self, other: &Vessel) -> (r: Option<Range>)
        requires
            self.wf(),
            other.wf(),
        ensures
            range_between(self@.attached, other@.attached, r),
    {
        self.endpoint.range_to(&other.endpoint)
    }
}

} // verus!
