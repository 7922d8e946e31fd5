//! One side of a link: the antennas attached to it and the power they give.

use vstd::prelude::*;
use crate::antenna::{Antenna, AntennaView, EXPONENT_ONE};
use crate::range::{is_floor_sqrt, lemma_floor_sqrt_unique, Range};

verus! {

/// The views of a list of antennas.
pub open spec fn antenna_views(v: Seq<Antenna>) -> Seq<AntennaView> {
    v.map_values(|a: Antenna| a@)
}

/// The sum of the powers of all units.
pub open spec fn total_power(s: Seq<AntennaView>) -> nat
    decreases s.len(),
{
    if s.len() == 0 {
        0
    } else {
        total_power(s.drop_last()) + s.last().power
    }
}

/// The sum over all units of power times exponent, in millionths.
pub open spec fn weighted_power(s: Seq<AntennaView>) -> nat
    decreases s.len(),
{
    if s.len() == 0 {
        0
    } else {
        weighted_power(s.drop_last()) + s.last().power * s.last().combine_exp
    }
}

/// The place of the strongest unit; of several equally strong ones, the last.
pub open spec fn strongest_index(s: Seq<AntennaView>) -> int
    decreases s.len(),
{
    if s.len() <= 1 {
        0
    } else {
        let j = strongest_index(s.drop_last());
        if s.last().power >= s[j].power {
            s.len() - 1
        } else {
            j
        }
    }
}

/// The power of the strongest unit.
pub open spec fn strongest_power(s: Seq<AntennaView>) -> nat
    recommends
        s.len() > 0,
{
    s[strongest_index(s)].power
}

/// The strongest unit is a unit, none is stronger, and none after it is as
/// strong.
pub proof fn lemma_strongest_index(s: Seq<AntennaView>)
    requires
        s.len() > 0,
    ensures
        0 <= strongest_index(s) < s.len(),
        forall|j: int| 0 <= j < s.len() ==> (#[trigger] s[j]).power <= strongest_power(s),
        forall|j: int|
            strongest_index(s) < j < s.len() ==> (#[trigger] s[j]).power < strongest_power(s),
    decreases s.len(),
{
    if s.len() > 1 {
        let t = s.drop_last();
        lemma_strongest_index(t);
        assert forall|j: int| 0 <= j < s.len() implies (#[trigger] s[j]).power
            <= strongest_power(s) by {
            if j < t.len() {
                assert(t[j] == s[j]);
            }
        }
        assert forall|j: int| strongest_index(s) < j < s.len() implies (#[trigger] s[j]).power
            < strongest_power(s) by {
            if j < t.len() {
                assert(t[j] == s[j]);
            }
        }
    }
}

/// The power of the units `s` together where it is a whole number by the
/// formula alone: the strongest unit's power where nothing is stacked on it
/// or the average exponent is 0, the total where the average exponent is 1.
pub open spec fn settled_power(s: Seq<AntennaView>) -> Option<int>
    recommends
        s.len() > 0,
{
    if total_power(s) == strongest_power(s) || weighted_power(s) == 0 {
        Some(strongest_power(s) as int)
    } else if weighted_power(s) == EXPONENT_ONE * total_power(s) {
        Some(total_power(s) as int)
    } else {
        None
    }
}

/// `p` can be the power of the units `s`: it lies between the strongest
/// unit's power and the total, and it is the settled power where there is
/// one.
pub open spec fn admits_power(s: Seq<AntennaView>, p: int) -> bool {
    &&& strongest_power(s) <= p <= total_power(s)
    &&& settled_power(s) is Some ==> settled_power(s) == Some(p)
}

/// The reach of the link between the units `a` and the units `b`, where both
/// powers are settled and fit 64 bits: the square root of their product,
/// rounded down.
pub open spec fn range_between(a: Seq<AntennaView>, b: Seq<AntennaView>, r: Option<Range>) -> bool {
    match (settled_power(a), settled_power(b)) {
        (Some(pa), Some(pb)) => if pa <= u64::MAX && pb <= u64::MAX {
            r is Some && is_floor_sqrt(pa * pb, r->0@)
        } else {
            r is None
        },
        _ => r is None,
    }
}

/// The end of the stretch of units of the name `name` that begins at `from`:
/// the place of the first unit from there on with another name, or the end
/// of the list.
pub open spec fn run_end(s: Seq<AntennaView>, name: Seq<char>, from: int) -> int
    decreases s.len() - from,
{
    if 0 <= from < s.len() && s[from].name == name {
        run_end(s, name, from + 1)
    } else {
        from
    }
}

/// How many units of `s` have the name `name`.
pub open spec fn count_name(s: Seq<AntennaView>, name: Seq<char>) -> nat
    decreases s.len(),
{
    if s.len() == 0 {
        0
    } else {
        count_name(s.drop_last(), name) + if s.last().name == name {
            1nat
        } else {
            0nat
        }
    }
}

/// The place of the first unit of `s` with the name `name`, or the length of
/// `s` where none has it.
pub open spec fn first_named(s: Seq<AntennaView>, name: Seq<char>) -> int
    decreases s.len(),
{
    if s.len() == 0 {
        0
    } else {
        let f = first_named(s.drop_last(), name);
        if f < s.len() - 1 {
            f
        } else if s.last().name == name {
            s.len() - 1
        } else {
            s.len() as int
        }
    }
}

/// The count of a name is at most the number of units. It is 0 exactly if no
/// unit has the name, and else the first unit of that name is a unit and has
/// the name.
pub proof fn lemma_count_name(s: Seq<AntennaView>, name: Seq<char>)
    ensures
        count_name(s, name) <= s.len(),
        0 <= first_named(s, name) <= s.len(),
        count_name(s, name) == 0 <==> first_named(s, name) == s.len(),
        count_name(s, name) == 0 <==> forall|k: int| 0 <= k < s.len() ==> (#[trigger] s[k]).name != name,
        first_named(s, name) < s.len() ==> s[first_named(s, name)].name == name,
    decreases s.len(),
{
    if s.len() > 0 {
        let t = s.drop_last();
        lemma_count_name(t, name);
        if count_name(t, name) == 0 && s.last().name != name {
            assert forall|k: int| 0 <= k < s.len() implies (#[trigger] s[k]).name != name by {
                if k < t.len() {
                    assert(t[k] == s[k]);
                }
            }
        }
        if count_name(t, name) > 0 {
            let k = choose|k: int| 0 <= k < t.len() && (#[trigger] t[k]).name == name;
            assert(s[k].name == name);
            assert(s[first_named(t, name)] == t[first_named(t, name)]);
        }
    }
}

/// No unit before the first unit of a name has that name.
pub proof fn lemma_first_named_is_first(s: Seq<AntennaView>, name: Seq<char>, k: int)
    requires
        0 <= k < first_named(s, name),
        k < s.len(),
    ensures
        s[k].name != name,
    decreases s.len(),
{
    let t = s.drop_last();
    lemma_count_name(t, name);
    if k < t.len() {
        assert(t[k] == s[k]);
        lemma_first_named_is_first(t, name, k);
    }
}

/// The count `t` has an entry for the name `name`.
pub open spec fn counted_has(t: Seq<(AntennaView, nat)>, name: Seq<char>) -> bool {
    exists|i: int| 0 <= i < t.len() && (#[trigger] t[i]).0.name == name
}

/// `t` counts the units `s` by name: one entry for each name that occurs,
/// none twice, with the first unit of that name and the number of units of
/// that name, in the order in which the names first occur.
pub open spec fn is_count_by_name(s: Seq<AntennaView>, t: Seq<(AntennaView, nat)>) -> bool {
    &&& forall|i: int, j: int|
        0 <= i < j < t.len() ==> (#[trigger] t[i]).0.name != (#[trigger] t[j]).0.name
    &&& forall|i: int|
        0 <= i < t.len() ==> {
            &&& (#[trigger] t[i]).1 >= 1
            &&& t[i].1 == count_name(s, t[i].0.name)
            &&& t[i].0 == s[first_named(s, t[i].0.name)]
        }
    &&& forall|k: int| 0 <= k < s.len() ==> counted_has(t, (#[trigger] s[k]).name)
    &&& forall|i: int, j: int|
        0 <= i < j < t.len() ==> first_named(s, (#[trigger] t[i]).0.name) < first_named(
            s,
            (#[trigger] t[j]).0.name,
        )
}

/// The sum of the numbers of a count.
pub open spec fn count_sum(t: Seq<(AntennaView, nat)>) -> nat
    decreases t.len(),
{
    if t.len() == 0 {
        0
    } else {
        count_sum(t.drop_last()) + t.last().1
    }
}

/// An entry that grows by one raises the sum by one.
pub proof fn lemma_count_sum_grows(t: Seq<(AntennaView, nat)>, p: int)
    requires
        0 <= p < t.len(),
    ensures
        count_sum(t.update(p, (t[p].0, t[p].1 + 1))) == count_sum(t) + 1,
    decreases t.len(),
{
    let u = t.update(p, (t[p].0, t[p].1 + 1));
    if p == t.len() - 1 {
        assert(u.drop_last() =~= t.drop_last());
    } else {
        assert(u.drop_last() =~= t.drop_last().update(p, (t[p].0, t[p].1 + 1)));
        assert(t.drop_last()[p] == t[p]);
        lemma_count_sum_grows(t.drop_last(), p);
    }
}

/// One more unit of a name that the count has raises that entry's number by
/// one.
pub proof fn lemma_counted_again(
    s: Seq<AntennaView>,
    t: Seq<(AntennaView, nat)>,
    a: AntennaView,
    p: int,
)
    requires
        is_count_by_name(s, t),
        0 <= p < t.len(),
        t[p].0.name == a.name,
    ensures
        is_count_by_name(s.push(a), t.update(p, (t[p].0, t[p].1 + 1))),
{
    let s2 = s.push(a);
    let t2 = t.update(p, (t[p].0, t[p].1 + 1));
    assert(s2.drop_last() =~= s);
    assert forall|i: int| 0 <= i < t2.len() implies {
        &&& (#[trigger] t2[i]).1 >= 1
        &&& t2[i].1 == count_name(s2, t2[i].0.name)
        &&& t2[i].0 == s2[first_named(s2, t2[i].0.name)]
        &&& first_named(s2, t2[i].0.name) == first_named(s, t[i].0.name)
        &&& t2[i].0 == t[i].0
    } by {
        let name = t[i].0.name;
        lemma_count_name(s, name);
        assert(t[i].1 >= 1);
        assert(s2[first_named(s, name)] == s[first_named(s, name)]);
        if i != p {
            if i < p {
                assert(t[i].0.name != t[p].0.name);
            } else {
                assert(t[p].0.name != t[i].0.name);
            }
        }
    }
    assert forall|i: int, j: int| 0 <= i < j < t2.len() implies (#[trigger] t2[i]).0.name != (
    #[trigger] t2[j]).0.name by {
        assert(t[i].0.name != t[j].0.name);
    }
    assert forall|i: int, j: int| 0 <= i < j < t2.len() implies first_named(
        s2,
        (#[trigger] t2[i]).0.name,
    ) < first_named(s2, (#[trigger] t2[j]).0.name) by {
        assert(first_named(s, t[i].0.name) < first_named(s, t[j].0.name));
    }
    assert forall|k: int| 0 <= k < s2.len() implies counted_has(t2, (#[trigger] s2[k]).name) by {
        if k < s.len() {
            assert(s2[k] == s[k]);
            assert(counted_has(t, s[k].name));
            let i = choose|i: int| 0 <= i < t.len() && (#[trigger] t[i]).0.name == s[k].name;
            assert(t2[i].0.name == s[k].name);
        } else {
            assert(t2[p].0.name == a.name);
        }
    }
}

/// The first unit of a name that the count lacks gets an entry of its own,
/// after all others.
pub proof fn lemma_counted_first(s: Seq<AntennaView>, t: Seq<(AntennaView, nat)>, a: AntennaView)
    requires
        is_count_by_name(s, t),
        forall|i: int| 0 <= i < t.len() ==> (#[trigger] t[i]).0.name != a.name,
    ensures
        is_count_by_name(s.push(a), t.push((a, 1nat))),
{
    let s2 = s.push(a);
    let t2 = t.push((a, 1nat));
    assert(s2.drop_last() =~= s);
    lemma_count_name(s, a.name);
    assert(count_name(s, a.name) == 0) by {
        if count_name(s, a.name) != 0 {
            let k = choose|k: int| 0 <= k < s.len() && (#[trigger] s[k]).name == a.name;
            assert(counted_has(t, s[k].name));
        }
    }
    assert forall|i: int| 0 <= i < t2.len() implies {
        &&& (#[trigger] t2[i]).1 >= 1
        &&& t2[i].1 == count_name(s2, t2[i].0.name)
        &&& t2[i].0 == s2[first_named(s2, t2[i].0.name)]
        &&& i < t.len() ==> first_named(s2, t2[i].0.name) == first_named(s, t[i].0.name)
            && first_named(s2, t2[i].0.name) < s.len()
        &&& i == t.len() ==> first_named(s2, t2[i].0.name) == s.len()
    } by {
        if i < t.len() {
            assert(t2[i] == t[i]);
            let name = t[i].0.name;
            lemma_count_name(s, name);
            assert(t[i].1 >= 1);
            assert(s2[first_named(s, name)] == s[first_named(s, name)]);
        }
    }
    assert forall|i: int, j: int| 0 <= i < j < t2.len() implies (#[trigger] t2[i]).0.name != (
    #[trigger] t2[j]).0.name by {
        if j < t.len() {
            assert(t[i].0.name != t[j].0.name);
        } else {
            assert(t2[i] == t[i]);
        }
    }
    assert forall|i: int, j: int| 0 <= i < j < t2.len() implies first_named(
        s2,
        (#[trigger] t2[i]).0.name,
    ) < first_named(s2, (#[trigger] t2[j]).0.name) by {
        if j < t.len() {
            assert(first_named(s, t[i].0.name) < first_named(s, t[j].0.name));
        }
    }
    assert forall|k: int| 0 <= k < s2.len() implies counted_has(t2, (#[trigger] s2[k]).name) by {
        if k < s.len() {
            assert(s2[k] == s[k]);
            assert(counted_has(t, s[k].name));
            let i = choose|i: int| 0 <= i < t.len() && (#[trigger] t[i]).0.name == s[k].name;
            assert(t2[i].0.name == s[k].name);
        } else {
            assert(t2[t.len() as int].0.name == a.name);
        }
    }
}

/// Two lists of numbers in rising order that hold the same numbers are one
/// list.
pub proof fn lemma_increasing_same(a: Seq<int>, b: Seq<int>)
    requires
        forall|i: int, j: int| 0 <= i < j < a.len() ==> a[i] < a[j],
        forall|i: int, j: int| 0 <= i < j < b.len() ==> b[i] < b[j],
        forall|x: int| a.contains(x) <==> b.contains(x),
    ensures
        a == b,
    decreases a.len(),
{
    if a.len() == 0 {
        if b.len() > 0 {
            assert(b.contains(b[0]));
        }
        assert(a =~= b);
    } else {
        assert(a.contains(a.last()));
        assert(b.contains(a.last()));
        assert(b.contains(b.last()));
        assert(a.contains(b.last()));
        let i = choose|i: int| 0 <= i < b.len() && b[i] == a.last();
        let j = choose|j: int| 0 <= j < a.len() && a[j] == b.last();
        assert(a.last() == b.last());
        let a2 = a.drop_last();
        let b2 = b.drop_last();
        assert forall|x: int| a2.contains(x) <==> b2.contains(x) by {
            if a2.contains(x) {
                let k = choose|k: int| 0 <= k < a2.len() && a2[k] == x;
                assert(a[k] == x);
                assert(a.contains(x));
                let m = choose|m: int| 0 <= m < b.len() && b[m] == x;
                assert(b2[m] == x);
            }
            if b2.contains(x) {
                let k = choose|k: int| 0 <= k < b2.len() && b2[k] == x;
                assert(b[k] == x);
                assert(b.contains(x));
                let m = choose|m: int| 0 <= m < a.len() && a[m] == x;
                assert(a2[m] == x);
            }
        }
        lemma_increasing_same(a2, b2);
        assert(a =~= a2.push(a.last()));
        assert(b =~= b2.push(b.last()));
    }
}

/// The places at which the names of a count first occur.
pub open spec fn first_places(s: Seq<AntennaView>, t: Seq<(AntennaView, nat)>) -> Seq<int> {
    t.map_values(|e: (AntennaView, nat)| first_named(s, e.0.name))
}

/// A list of units has one count by name only.
pub proof fn lemma_count_by_name_unique(
    s: Seq<AntennaView>,
    t1: Seq<(AntennaView, nat)>,
    t2: Seq<(AntennaView, nat)>,
)
    requires
        is_count_by_name(s, t1),
        is_count_by_name(s, t2),
    ensures
        t1 == t2,
{
    let f1 = first_places(s, t1);
    let f2 = first_places(s, t2);
    assert forall|x: int| f1.contains(x) <==> f2.contains(x) by {
        if f1.contains(x) {
            let i = choose|i: int| 0 <= i < f1.len() && f1[i] == x;
            let name = t1[i].0.name;
            assert(t1[i].1 >= 1);
            lemma_count_name(s, name);
            let k = choose|k: int| 0 <= k < s.len() && (#[trigger] s[k]).name == name;
            assert(counted_has(t2, s[k].name));
            let m = choose|m: int| 0 <= m < t2.len() && (#[trigger] t2[m]).0.name == name;
            assert(f2[m] == x);
        }
        if f2.contains(x) {
            let i = choose|i: int| 0 <= i < f2.len() && f2[i] == x;
            let name = t2[i].0.name;
            assert(t2[i].1 >= 1);
            lemma_count_name(s, name);
            let k = choose|k: int| 0 <= k < s.len() && (#[trigger] s[k]).name == name;
            assert(counted_has(t1, s[k].name));
            let m = choose|m: int| 0 <= m < t1.len() && (#[trigger] t1[m]).0.name == name;
            assert(f1[m] == x);
        }
    }
    assert forall|i: int, j: int| 0 <= i < j < f1.len() implies f1[i] < f1[j] by {
        assert(first_named(s, t1[i].0.name) < first_named(s, t1[j].0.name));
    }
    assert forall|i: int, j: int| 0 <= i < j < f2.len() implies f2[i] < f2[j] by {
        assert(first_named(s, t2[i].0.name) < first_named(s, t2[j].0.name));
    }
    lemma_increasing_same(f1, f2);
    assert(t1.len() == f1.len() && t2.len() == f2.len());
    assert forall|i: int| 0 <= i < t1.len() implies t1[i] == t2[i] by {
        assert(f1[i] == first_named(s, t1[i].0.name));
        assert(f2[i] == first_named(s, t2[i].0.name));
        assert(t1[i].0 == t2[i].0);
    }
    assert(t1 =~= t2);
}

/// The views of a list of counted antennas.
pub open spec fn counted_views(v: Seq<(&Antenna, usize)>) -> Seq<(AntennaView, nat)> {
    v.map_values(|e: (&Antenna, usize)| (e.0@, e.1 as nat))
}

/// A walk over a list of units, run by run.
#[derive(Debug)]
pub struct Counts<'a> {
    antennas: &'a [Antenna],
    idx: usize,
}

impl<'a> Counts<'a> {
    /// The units that are walked over.
    pub closed spec fn units(&self) -> Seq<AntennaView> {
        antenna_views(self.antennas@)
    }

    /// The place of the unit at which the next run begins.
    pub closed spec fn position(&self) -> int {
        self.idx as int
    }

    /// The place lies within the list, or at its end.
    pub closed spec fn wf(&self) -> bool {
        self.idx <= self.antennas@.len()
    }

    /// What is known of a walk in good order.
    pub proof fn lemma_wf(&self)
        requires
            self.wf(),
        ensures
            0 <= self.position() <= self.units().len(),
    {
    }

    /// A walk over `antennas`, at its beginning.
    pub fn new(antennas: &'a [Antenna]) -> (c: Counts<'a>)
        ensures
            c.wf(),
            c.units() == antenna_views(antennas@),
            c.position() == 0,
    {
        Counts { antennas, idx: 0 }
    }

    /// The next run, as its first unit and its length; `None` at the end of
    /// the list.
    pub fn next(&mut self) -> (r: Option<(&'a Antenna, usize)>)
        requires
            old(self).wf(),
        ensures
            final(self).wf(),
            final(self).units() == old(self).units(),
            match r {
                Some((antenna, count)) => {
                    let s = old(self).units();
                    let from = old(self).position();
                    &&& from < s.len()
                    &&& antenna@ == s[from]
                    &&& final(self).position() == run_end(s, s[from].name, from + 1)
                    &&& final(self).position() <= s.len()
                    &&& count == final(self).position() - from
                    &&& count >= 1
                },
                None => old(self).position() == old(self).units().len() && final(self).position()
                    == old(self).position(),
            },
    {
        if self.idx == self.antennas.len() {
            return None;
        }
        let ghost s = self.units();
        let ghost from = self.idx as int;
        let antenna = &self.antennas[self.idx];
        self.idx += 1;
        let mut count: usize = 1;
        while self.idx < self.antennas.len() && self.antennas[self.idx].name == antenna.name
            invariant
                s == antenna_views(self.antennas@),
                self.antennas == old(self).antennas,
                0 <= from < self.idx <= self.antennas@.len(),
                count == self.idx - from,
                antenna@ == s[from],
                run_end(s, s[from].name, from + 1) == run_end(s, s[from].name, self.idx as int),
            decreases self.antennas@.len() - self.idx,
        {
            self.idx += 1;
            count += 1;
        }
        Some((antenna, count))
    }
}

/// The power of an endpoint in exact terms. The power itself is
/// `strongest * (total / strongest) ^ E`, where the exponent `E` is
/// `weighted() / (EXPONENT_ONE * total)`: the average of the units' exponents,
/// each weighted by its unit's power. The module `formula` says in whole
/// numbers where that power lies.
#[derive(Debug, Clone, Copy, PartialEq, Eq)]
pub struct Power {
    /// The power of the strongest unit.
    pub strongest: u64,
    /// The sum of the powers of all units.
    pub total: u128,
    /// The whole part of the sum of power times exponent.
    pub weighted_units: u128,
    /// The millionths left over from that sum, fewer than `EXPONENT_ONE`.
    pub weighted_millionths: u32,
}

impl Power {
    /// The sum over all units of power times exponent, in millionths.
    pub open spec fn weighted(&self) -> nat {
        (self.weighted_units * EXPONENT_ONE + self.weighted_millionths) as nat
    }

    /// The millionths are fewer than a million.
    pub open spec fn wf(&self) -> bool {
        self.weighted_millionths < EXPONENT_ONE
    }

    /// These are the terms of the power that the units `s` give together.
    pub open spec fn describes(&self, s: Seq<AntennaView>) -> bool {
        &&& self.wf()
        &&& self.strongest == strongest_power(s)
        &&& self.total == total_power(s)
        &&& self.weighted() == weighted_power(s)
    }

    /// The power where it is a whole number by the formula alone: the
    /// strongest unit's power where nothing is stacked on it or the exponent
    /// is 0, the total where the exponent is 1.
    pub open spec fn settled_spec(&self) -> Option<u128> {
        if self.total == self.strongest || self.weighted() == 0 {
            Some(self.strongest as u128)
        } else if self.weighted() == EXPONENT_ONE * self.total {
            Some(self.total)
        } else {
            None
        }
    }

    /// See `settled_spec`. Where this is `None`, the power takes a fractional
    /// power of `total / strongest` and lies between `strongest` and `total`.
    pub fn settled(&self) -> (r: Option<u128>)
        requires
            self.wf(),
        ensures
            r == self.settled_spec(),
    {
        if self.total == self.strongest as u128 || (self.weighted_units == 0
            && self.weighted_millionths == 0) {
            Some(self.strongest as u128)
        } else if self.weighted_units == self.total && self.weighted_millionths == 0 {
            assert(self.weighted() == EXPONENT_ONE * self.total) by (nonlinear_arith)
                requires
                    self.weighted_units == self.total,
                    self.weighted_millionths == 0,
                    self.weighted() == self.weighted_units * EXPONENT_ONE
                        + self.weighted_millionths,
            ;
            Some(self.total)
        } else {
            assert(self.weighted() != EXPONENT_ONE * self.total) by (nonlinear_arith)
                requires
                    self.weighted_units != self.total || self.weighted_millionths != 0,
                    self.weighted_millionths < EXPONENT_ONE,
                    self.weighted() == self.weighted_units * EXPONENT_ONE
                        + self.weighted_millionths,
            ;
            assert(self.weighted() != 0) by (nonlinear_arith)
                requires
                    self.weighted_units != 0 || self.weighted_millionths != 0,
                    self.weighted() == self.weighted_units * EXPONENT_ONE
                        + self.weighted_millionths,
            ;
            None
        }
    }

    /// What the terms say of themselves is what holds of the units that
    /// they describe.
    pub proof fn lemma_describes(&self, s: Seq<AntennaView>, p: u64)
        requires
            self.describes(s),
        ensures
            match self.settled_spec() {
                Some(v) => settled_power(s) == Some(v as int),
                None => settled_power(s) is None,
            },
            self.admits_spec(p) == admits_power(s, p as int),
    {
    }

    /// `p` can be the power that these terms describe: it lies between the
    /// strongest unit's power and the total, and it is the settled power
    /// where there is one.
    pub open spec fn admits_spec(&self, p: u64) -> bool {
        &&& self.strongest <= p <= self.total
        &&& self.settled_spec() is Some ==> self.settled_spec() == Some(p as u128)
    }

    /// See `admits_spec`.
    pub fn admits(&self, p: u64) -> (r: bool)
        requires
            self.wf(),
        ensures
            r == self.admits_spec(p),
    {
        if p < self.strongest || p as u128 > self.total {
            return false;
        }
        match self.settled() {
            Some(v) => v == p as u128,
            None => true,
        }
    }
}

/// The weighted sum is at most the total power, taken a million times.
pub proof fn lemma_weighted_bound(s: Seq<AntennaView>)
    requires
        forall|i: int| 0 <= i < s.len() ==> (#[trigger] s[i]).wf(),
    ensures
        weighted_power(s) <= EXPONENT_ONE * total_power(s),
        total_power(s) <= s.len() * u64::MAX,
        s.len() > 0 ==> total_power(s) >= strongest_power(s) >= 1,
    decreases s.len(),
{
    if s.len() > 0 {
        let t = s.drop_last();
        assert forall|i: int| 0 <= i < t.len() implies (#[trigger] t[i]).wf() by {
            assert(t[i] == s[i]);
        }
        lemma_weighted_bound(t);
        let a = s.last();
        assert(a.wf());
        assert(a.power * a.combine_exp <= EXPONENT_ONE * a.power) by (nonlinear_arith)
            requires
                a.combine_exp <= EXPONENT_ONE,
        ;
        assert(EXPONENT_ONE * (total_power(t) + a.power) == EXPONENT_ONE * total_power(t)
            + EXPONENT_ONE * a.power) by (nonlinear_arith);
        assert(total_power(s) <= s.len() * u64::MAX) by (nonlinear_arith)
            requires
                total_power(t) <= (s.len() - 1) * u64::MAX,
                total_power(s) == total_power(t) + a.power,
                a.power <= u64::MAX,
        ;
        if t.len() > 0 {
            assert(s[strongest_index(t)] == t[strongest_index(t)]) by {
                lemma_strongest_index(t);
            }
        }
    }
}

/// `n` units of one antenna.
pub open spec fn units_of(a: AntennaView, n: nat) -> Seq<AntennaView> {
    Seq::new(n, |i: int| a)
}

/// The terms of the power of `n` units of one antenna: the strongest is the
/// unit's own power, the total is `n` times that, and the weighted sum is the
/// total times the unit's exponent.
pub proof fn lemma_units_of_terms(a: AntennaView, n: nat)
    ensures
        total_power(units_of(a, n)) == n * a.power,
        weighted_power(units_of(a, n)) == n * a.power * a.combine_exp,
        n > 0 ==> strongest_power(units_of(a, n)) == a.power,
    decreases n,
{
    let s = units_of(a, n);
    if n > 0 {
        let t = units_of(a, (n - 1) as nat);
        assert(s.drop_last() =~= t);
        assert(s.last() == a);
        lemma_units_of_terms(a, (n - 1) as nat);
        assert(total_power(s) == n * a.power) by (nonlinear_arith)
            requires
                total_power(s) == total_power(t) + a.power,
                total_power(t) == (n - 1) * a.power,
        ;
        assert(weighted_power(s) == n * a.power * a.combine_exp) by (nonlinear_arith)
            requires
                weighted_power(s) == weighted_power(t) + a.power * a.combine_exp,
                weighted_power(t) == (n - 1) * a.power * a.combine_exp,
        ;
        lemma_strongest_index(s);
        assert(s[strongest_index(s)] == a);
    } else {
        assert(s.len() == 0);
        assert(n * a.power == 0 && n * a.power * a.combine_exp == 0) by (nonlinear_arith)
            requires
                n == 0,
        ;
    }
}

/// A single unit gives its own power, whatever its exponent.
pub proof fn lemma_single_unit_power(s: Seq<AntennaView>)
    requires
        s.len() == 1,
    ensures
        settled_power(s) == Some(s[0].power as int),
{
    assert(s.drop_last().len() == 0);
    assert(total_power(s.drop_last()) == 0);
    assert(s.last() == s[0]);
}

/// Where every exponent is 0, stacking gains nothing: the power is that of
/// the strongest unit.
pub proof fn lemma_exponent_zero_power(s: Seq<AntennaView>)
    requires
        s.len() > 0,
        forall|i: int| 0 <= i < s.len() ==> (#[trigger] s[i]).combine_exp == 0,
    ensures
        weighted_power(s) == 0,
        settled_power(s) == Some(strongest_power(s) as int),
    decreases s.len(),
{
    let t = s.drop_last();
    if t.len() > 0 {
        assert forall|i: int| 0 <= i < t.len() implies (#[trigger] t[i]).combine_exp == 0 by {
            assert(t[i] == s[i]);
        }
        lemma_exponent_zero_power(t);
    } else {
        assert(weighted_power(t) == 0);
    }
    assert(s.last().power * s.last().combine_exp == 0) by (nonlinear_arith)
        requires
            s.last().combine_exp == 0,
    ;
}

/// Where every exponent is 1, the units add up: the power is the total.
pub proof fn lemma_exponent_one_power(s: Seq<AntennaView>)
    requires
        s.len() > 0,
        forall|i: int| 0 <= i < s.len() ==> (#[trigger] s[i]).combine_exp == EXPONENT_ONE,
    ensures
        weighted_power(s) == EXPONENT_ONE * total_power(s),
        settled_power(s) == Some(total_power(s) as int),
    decreases s.len(),
{
    let t = s.drop_last();
    if t.len() > 0 {
        assert forall|i: int| 0 <= i < t.len() implies (#[trigger] t[i]).combine_exp
            == EXPONENT_ONE by {
            assert(t[i] == s[i]);
        }
        lemma_exponent_one_power(t);
    } else {
        assert(weighted_power(t) == 0 && total_power(t) == 0);
    }
    assert(weighted_power(s) == EXPONENT_ONE * total_power(s)) by (nonlinear_arith)
        requires
            weighted_power(s) == weighted_power(t) + s.last().power * s.last().combine_exp,
            total_power(s) == total_power(t) + s.last().power,
            weighted_power(t) == EXPONENT_ONE * total_power(t),
            s.last().combine_exp == EXPONENT_ONE,
    ;
    if weighted_power(s) == 0 {
        assert(total_power(s) == 0) by (nonlinear_arith)
            requires
                EXPONENT_ONE * total_power(s) == 0,
        ;
    }
}

/// Units of one power and of exponent 1 give their number times that power.
pub proof fn lemma_identical_units_add_up(s: Seq<AntennaView>, a: AntennaView)
    requires
        s.len() > 0,
        a.combine_exp == EXPONENT_ONE,
        forall|i: int| 0 <= i < s.len() ==> (#[trigger] s[i]).combine_exp == EXPONENT_ONE,
        forall|i: int| 0 <= i < s.len() ==> (#[trigger] s[i]).power == a.power,
    ensures
        settled_power(s) == Some((s.len() * a.power) as int),
    decreases s.len(),
{
    lemma_exponent_one_power(s);
    lemma_same_power_total(s, a.power);
}

/// Units of one power have their number times that power in total.
pub proof fn lemma_same_power_total(s: Seq<AntennaView>, p: nat)
    requires
        forall|i: int| 0 <= i < s.len() ==> (#[trigger] s[i]).power == p,
    ensures
        total_power(s) == s.len() * p,
    decreases s.len(),
{
    if s.len() > 0 {
        let t = s.drop_last();
        assert forall|i: int| 0 <= i < t.len() implies (#[trigger] t[i]).power == p by {
            assert(t[i] == s[i]);
        }
        lemma_same_power_total(t, p);
        assert(total_power(s) == s.len() * p) by (nonlinear_arith)
            requires
                total_power(s) == (s.len() - 1) * p + p,
        ;
    }
}

/// More units of one antenna: the strongest power and the average exponent
/// stay as they are, the total does not fall, and where the power is settled
/// for both numbers it does not fall either.
pub proof fn lemma_more_units_of_a_kind(a: AntennaView, n: nat, m: nat)
    requires
        1 <= n <= m,
    ensures
        strongest_power(units_of(a, n)) == strongest_power(units_of(a, m)),
        total_power(units_of(a, n)) <= total_power(units_of(a, m)),
        weighted_power(units_of(a, n)) == total_power(units_of(a, n)) * a.combine_exp,
        weighted_power(units_of(a, m)) == total_power(units_of(a, m)) * a.combine_exp,
        settled_power(units_of(a, n)) is Some && settled_power(units_of(a, m)) is Some
            ==> settled_power(units_of(a, n))->0 <= settled_power(units_of(a, m))->0,
{
    lemma_units_of_terms(a, n);
    lemma_units_of_terms(a, m);
    assert(n * a.power <= m * a.power) by (nonlinear_arith)
        requires
            n <= m,
    ;
    assert(n * a.power >= a.power && m * a.power >= a.power) by (nonlinear_arith)
        requires
            1 <= n <= m,
    ;
    let few = units_of(a, n);
    let many = units_of(a, m);
    assert(weighted_power(few) == total_power(few) * a.combine_exp);
    assert(weighted_power(many) == total_power(many) * a.combine_exp);
    if settled_power(few) is Some && settled_power(many) is Some {
        if settled_power(few)->0 != a.power {
            assert(a.combine_exp == EXPONENT_ONE) by (nonlinear_arith)
                requires
                    total_power(few) * a.combine_exp == EXPONENT_ONE * total_power(few),
                    total_power(few) > 0,
            ;
            assert(weighted_power(many) == EXPONENT_ONE * total_power(many)) by (nonlinear_arith)
                requires
                    weighted_power(many) == total_power(many) * a.combine_exp,
                    a.combine_exp == EXPONENT_ONE,
            ;
            assert(weighted_power(many) != 0) by (nonlinear_arith)
                requires
                    weighted_power(many) == EXPONENT_ONE * total_power(many),
                    total_power(many) > 0,
            ;
        }
    }
}

/// A ground-station antenna offered to an endpoint that is no ground station
/// yet leaves that antenna alone attached and locks the endpoint: whatever is
/// offered afterwards changes nothing, and the power is that antenna's.
pub proof fn lemma_ground_station_locks(
    e: EndpointView,
    dsn: AntennaView,
    count: nat,
    later: AntennaView,
    later_count: nat,
)
    requires
        !e.is_dsn,
        dsn.is_dsn,
    ensures
        e.add(dsn, count).attached == seq![dsn],
        e.add(dsn, count).is_dsn,
        e.add(dsn, count).add(later, later_count) == e.add(dsn, count),
        settled_power(e.add(dsn, count).attached) == Some(dsn.power as int),
{
    lemma_single_unit_power(seq![dsn]);
}

/// An endpoint that is a ground station takes nothing more.
pub proof fn lemma_locked_endpoint_is_final(e: EndpointView, a: AntennaView, count: nat)
    requires
        e.is_dsn,
    ensures
        e.add(a, count) == e,
{
}

/// The reach of a link is the same from either side.
pub proof fn lemma_range_symmetric(
    a: Seq<AntennaView>,
    b: Seq<AntennaView>,
    there: Option<Range>,
    back: Option<Range>,
)
    requires
        range_between(a, b, there),
        range_between(b, a, back),
    ensures
        there is Some <==> back is Some,
        there is Some ==> there->0@ == back->0@,
{
    if there is Some {
        let pa = settled_power(a)->0;
        let pb = settled_power(b)->0;
        assert(pa * pb == pb * pa) by (nonlinear_arith);
        lemma_floor_sqrt_unique(pa * pb, there->0@, back->0@);
    }
}

/// One side of a link. Every unit of an antenna stands once in the list, in
/// the order in which the units were attached.
#[derive(Debug, Clone)]
pub struct Endpoint {
    antennas: Vec<Antenna>,
    is_dsn: bool,
}

/// What an `Endpoint` holds, as mathematical values.
pub struct EndpointView {
    pub attached: Seq<AntennaView>,
    pub is_dsn: bool,
}

impl EndpointView {
    /// Every antenna is well formed, and the endpoint is a ground station
    /// exactly if it holds one ground-station antenna and nothing else.
    pub open spec fn wf(self) -> bool {
        &&& forall|i: int| 0 <= i < self.attached.len() ==> (#[trigger] self.attached[i]).wf()
        &&& self.is_dsn ==> self.attached.len() == 1 && self.attached[0].is_dsn
        &&& !self.is_dsn ==> forall|i: int|
            0 <= i < self.attached.len() ==> !(#[trigger] self.attached[i]).is_dsn
    }

    /// The endpoint after `count` units of `a` were offered to it.
    pub open spec fn add(self, a: AntennaView, count: nat) -> EndpointView {
        if self.is_dsn {
            self
        } else if a.is_dsn {
            EndpointView { attached: seq![a], is_dsn: true }
        } else if self.attached.len() > 0 && self.attached[0].is_dsn {
            self
        } else {
            EndpointView {
                attached: self.attached + Seq::new(count, |i: int| a),
                is_dsn: false,
            }
        }
    }
}

impl View for Endpoint {
    type V = EndpointView;

    closed spec fn view(&self) -> EndpointView {
        EndpointView { attached: antenna_views(self.antennas@), is_dsn: self.is_dsn }
    }
}

impl Default for Endpoint {
    fn default() -> (e: Endpoint)
        ensures
            e.wf(),
            e@.attached.len() == 0,
            !e@.is_dsn,
    {
        Endpoint::new()
    }
}

impl Endpoint {
    /// See `EndpointView::wf`.
    pub open spec fn wf(&self) -> bool {
        self@.wf()
    }

    /// An endpoint with nothing attached.
    pub fn new() -> (e: Endpoint)
        ensures
            e.wf(),
            e@.attached.len() == 0,
            !e@.is_dsn,
    {
        Endpoint { antennas: Vec::new(), is_dsn: false }
    }

    /// Offers `count` units of `antenna` to the endpoint. A ground station
    /// takes nothing more. A ground-station antenna replaces all that was
    /// attached, once, whatever `count` is. Any other antenna is appended
    /// `count` times.
    pub fn add_antenna(&mut self, antenna: Antenna, count: usize)
        requires
            old(self).wf(),
            antenna.wf(),
        ensures
            final(self).wf(),
            final(self)@ == old(self)@.add(antenna@, count as nat),
    {
        if self.is_dsn {
            return ;
        }
        if antenna.is_dsn {
            self.is_dsn = true;
            self.antennas = vec![antenna];
            assert(self@.attached =~= seq![antenna@]);
            return ;
        }
        if self.antennas.len() > 0 && self.antennas[0].is_dsn {
            return ;
        }
        let ghost before = self@.attached;
        let mut n: usize = 0;
        while n < count
            invariant
                n <= count,
                !self.is_dsn,
                !antenna@.is_dsn,
                antenna.wf(),
                self@.attached =~= before + Seq::new(n as nat, |i: int| antenna@),
            decreases count - n,
        {
            let ghost so_far = self@.attached;
            let unit = antenna.clone();
            self.antennas.push(unit);
            assert(self@.attached =~= so_far.push(antenna@));
            n += 1;
        }
    }

    /// The strongest unit; of several equally strong ones, the last.
    pub fn strongest_antenna(&self) -> (r: &Antenna)
        requires
            self@.attached.len() > 0,
        ensures
            r@ == self@.attached[strongest_index(self@.attached)],
    {
        let ghost views = self@.attached;
        let mut best: usize = 0;
        let mut i: usize = 1;
        assert(views.take(1).len() == 1);
        while i < self.antennas.len()
            invariant
                views == antenna_views(self.antennas@),
                1 <= i <= self.antennas.len(),
                best as int == strongest_index(views.take(i as int)),
                0 <= best < i,
            decreases self.antennas.len() - i,
        {
            proof {
                assert(views.take(i + 1).drop_last() =~= views.take(i as int));
                assert(views.take(i + 1).last() == views[i as int]);
                assert(views.take(i + 1)[best as int] == views[best as int]);
            }
            if self.antennas[i].power >= self.antennas[best].power {
                best = i;
            }
            i += 1;
        }
        assert(views.take(i as int) =~= views);
        &self.antennas[best]
    }

    /// The terms of the power that the attached units give together.
    pub fn power(&self) -> (p: Power)
        requires
            self.wf(),
            self@.attached.len() > 0,
        ensures
            p.describes(self@.attached),
    {
        let ghost views = self@.attached;
        let strongest: u64 = self.strongest_antenna().power;
        let mut total: u128 = 0;
        let mut units: u128 = 0;
        let mut part: u32 = 0;
        let mut i: usize = 0;
        while i < self.antennas.len()
            invariant
                views == antenna_views(self.antennas@),
                forall|j: int| 0 <= j < views.len() ==> (#[trigger] views[j]).wf(),
                i <= self.antennas.len(),
                total == total_power(views.take(i as int)),
                units * EXPONENT_ONE + part == weighted_power(views.take(i as int)),
                part < EXPONENT_ONE,
            decreases self.antennas.len() - i,
        {
            let a = &self.antennas[i];
            proof {
                let t = views.take(i + 1);
                assert(t.drop_last() =~= views.take(i as int));
                assert(t.last() == views[i as int]);
                assert(views[i as int].wf());
                assert forall|j: int| 0 <= j < t.len() implies (#[trigger] t[j]).wf() by {
                    assert(t[j] == views[j]);
                }
                lemma_weighted_bound(t);
                assert(t.len() * u64::MAX <= usize::MAX * u64::MAX) by (nonlinear_arith)
                    requires
                        t.len() <= usize::MAX,
                ;
                assert(usize::MAX * u64::MAX <= u128::MAX) by (nonlinear_arith)
                    requires
                        usize::MAX <= u64::MAX,
                ;
                assert(a.power * a.combine_exp <= u64::MAX * u32::MAX) by (nonlinear_arith)
                    requires
                        a.power <= u64::MAX,
                        a.combine_exp <= u32::MAX,
                ;
                assert(a@ == views[i as int]);
            }
            let product: u128 = (a.power as u128) * (a.combine_exp as u128);
            let q: u128 = product / (EXPONENT_ONE as u128);
            let r: u32 = (product % (EXPONENT_ONE as u128)) as u32;
            let carry: u128 = if part + r >= EXPONENT_ONE { 1 } else { 0 };
            proof {
                let t = views.take(i + 1);
                assert(product == q * EXPONENT_ONE + r) by (nonlinear_arith)
                    requires
                        q == product / (EXPONENT_ONE as u128),
                        r == product % (EXPONENT_ONE as u128),
                ;
                assert(units + q + carry <= total_power(t)) by (nonlinear_arith)
                    requires
                        units * EXPONENT_ONE + part + q * EXPONENT_ONE + r == weighted_power(t),
                        weighted_power(t) <= EXPONENT_ONE * total_power(t),
                        carry == 1 ==> part + r >= EXPONENT_ONE,
                        carry == 0 || carry == 1,
                ;
            }
            let ghost old_units = units;
            let ghost old_part = part;
            total = total + a.power as u128;
            units = units + q + carry;
            part = if carry == 1 { part + r - EXPONENT_ONE } else { part + r };
            assert(units * EXPONENT_ONE + part == weighted_power(views.take(i + 1)))
                by (nonlinear_arith)
                requires
                    units == old_units + q + carry,
                    part + carry * EXPONENT_ONE == old_part + r,
                    old_units * EXPONENT_ONE + old_part + q * EXPONENT_ONE + r == weighted_power(
                        views.take(i + 1),
                    ),
            ;
            i += 1;
        }
        assert(views.take(i as int) =~= views);
        Power { strongest, total, weighted_units: units, weighted_millionths: part }
    }

    /// The reach of the link to `other`, where the powers of both sides are
    /// settled and fit 64 bits; else `None`, and the caller evaluates the
    /// fractional powers and asks `Range::between`.
    pub fn range_to(&self, other: &Endpoint) -> (r: Option<Range>)
        requires
            self.wf(),
            other.wf(),
            self@.attached.len() > 0,
            other@.attached.len() > 0,
        ensures
            range_between(self@.attached, other@.attached, r),
    {
        let mine = self.power().settled();
        let theirs = other.power().settled();
        match (mine, theirs) {
            (Some(pa), Some(pb)) => {
                if pa <= u64::MAX as u128 && pb <= u64::MAX as u128 {
                    Some(Range::between(pa as u64, pb as u64))
                } else {
                    None
                }
            },
            _ => None,
        }
    }

    /// The attached antennas, a unit each, in the order of attachment.
    pub fn antennas(&self) -> (r: &Vec<Antenna>)
        ensures
            antenna_views(r@) == self@.attached,
    {
        &self.antennas
    }

    /// The attached units counted by name: for each name that occurs, the
    /// first unit of that name and the number of units of that name, in the
    /// order in which the names were first attached.
    pub fn antenna_counts(&self) -> (r: Vec<(&Antenna, usize)>)
        ensures
            is_count_by_name(self@.attached, counted_views(r@)),
            count_sum(counted_views(r@)) == self@.attached.len(),
    {
        let ghost views = self@.attached;
        let mut out: Vec<(&Antenna, usize)> = Vec::new();
        let mut i: usize = 0;
        assert(is_count_by_name(views.take(0), counted_views(out@)));
        while i < self.antennas.len()
            invariant
                views == self@.attached,
                views == antenna_views(self.antennas@),
                i <= self.antennas.len(),
                is_count_by_name(views.take(i as int), counted_views(out@)),
                count_sum(counted_views(out@)) == i,
            decreases self.antennas.len() - i,
        {
            let a = &self.antennas[i];
            let ghost seen = views.take(i as int);
            let ghost before = counted_views(out@);
            assert(views.take(i + 1) =~= seen.push(a@));
            let mut p: usize = 0;
            while p < out.len() && out[p].0.name != a.name
                invariant
                    p <= out.len(),
                    before == counted_views(out@),
                    forall|j: int| 0 <= j < p ==> (#[trigger] before[j]).0.name != a@.name,
                decreases out.len() - p,
            {
                assert(before[p as int].0.name == out@[p as int].0@.name);
                p += 1;
            }
            if p < out.len() {
                let entry = out[p];
                proof {
                    assert(before[p as int] == (entry.0@, entry.1 as nat));
                    lemma_counted_again(seen, before, a@, p as int);
                    lemma_count_sum_grows(before, p as int);
                    lemma_count_name(seen, a@.name);
                }
                out.set(p, (entry.0, entry.1 + 1));
                assert(counted_views(out@) =~= before.update(
                    p as int,
                    (before[p as int].0, before[p as int].1 + 1),
                ));
            } else {
                proof {
                    lemma_counted_first(seen, before, a@);
                }
                out.push((a, 1));
                assert(counted_views(out@) =~= before.push((a@, 1nat)));
                assert(counted_views(out@).drop_last() =~= before);
            }
            i += 1;
        }
        assert(views.take(i as int) =~= views);
        out
    }

    /// "DSN" for a ground station, "Vessel" for anything else.
    pub fn endpoint_type(&self) -> (r: &'static str)
        ensures
            r@ == (if self@.is_dsn { "DSN"@ } else { "Vessel"@ }),
    {
        if self.is_dsn {
            "DSN"
        } else {
            "Vessel"
        }
    }

    /// Whether nothing is attached.
    pub fn is_empty(&self) -> (r: bool)
        ensures
            r == (self@.attached.len() == 0),
    {
        self.antennas.len() == 0
    }
}

} // verus!
