//! The antenna catalog: antennas by name, and names by alias.
//!
//! A later definition replaces an earlier one of the same name, and a later
//! alias replaces an earlier one of the same text.

use vstd::prelude::*;
use crate::antenna::{
    clone_strings, default_combine_exp, texts, Antenna, AntennaView, EXPONENT_ONE,
};
use crate::endpoint::antenna_views;
use crate::text::{
    lemma_name_lt_irreflexive, lemma_name_lt_total, lemma_name_lt_transitive, name_lt, str_lt,
};

verus! {

/// What a catalog holds, as mathematical values.
pub struct CatalogView {
    /// The name that each alias stands for.
    pub aliases: Map<Seq<char>, Seq<char>>,
    /// The antenna of each name.
    pub dict: Map<Seq<char>, AntennaView>,
}

/// The alias table `m` after every text of `aliases` was made an alias of
/// `name`, in their order.
pub open spec fn alias_all(
    m: Map<Seq<char>, Seq<char>>,
    aliases: Seq<Seq<char>>,
    name: Seq<char>,
) -> Map<Seq<char>, Seq<char>>
    decreases aliases.len(),
{
    if aliases.len() == 0 {
        m
    } else {
        alias_all(m, aliases.drop_last(), name).insert(aliases.last(), name)
    }
}

impl CatalogView {
    /// Every alias stands for a name that has an antenna, and every antenna
    /// is well formed and stands under its own name.
    pub open spec fn wf(self) -> bool {
        &&& forall|k: Seq<char>| #[trigger]
            self.aliases.contains_key(k) ==> self.dict.contains_key(self.aliases[k])
        &&& forall|k: Seq<char>| #[trigger]
            self.dict.contains_key(k) ==> self.dict[k].name == k && self.dict[k].wf()
    }

    /// The antenna that a name or alias stands for.
    pub open spec fn resolve(self, name: Seq<char>) -> Option<AntennaView> {
        if self.aliases.contains_key(name) && self.dict.contains_key(self.aliases[name]) {
            Some(self.dict[self.aliases[name]])
        } else {
            None
        }
    }

    /// The catalog after the antenna `a` was defined: its aliases stand for
    /// its name, then its name stands for itself, and the antenna stands
    /// under its name.
    pub open spec fn register(self, a: AntennaView) -> CatalogView {
        CatalogView {
            aliases: alias_all(self.aliases, a.aliases, a.name).insert(a.name, a.name),
            dict: self.dict.insert(a.name, a),
        }
    }

    /// The catalog after the antennas `s` were defined, in their order.
    pub open spec fn register_all(self, s: Seq<AntennaView>) -> CatalogView
        decreases s.len(),
    {
        if s.len() == 0 {
            self
        } else {
            self.register_all(s.drop_last()).register(s.last())
        }
    }
}

/// The table that a list of entries stands for: a later entry replaces an
/// earlier one of the same key.
pub open spec fn log_map(s: Seq<(Seq<char>, Seq<char>)>) -> Map<Seq<char>, Seq<char>>
    decreases s.len(),
{
    if s.len() == 0 {
        Map::empty()
    } else {
        log_map(s.drop_last()).insert(s.last().0, s.last().1)
    }
}

/// The texts of a list of entries.
pub open spec fn entry_views(v: Seq<(String, String)>) -> Seq<(Seq<char>, Seq<char>)> {
    v.map_values(|e: (String, String)| (e.0@, e.1@))
}

/// The names of `s` stand in rising order, so that none occurs twice.
pub open spec fn sorted_by_name(s: Seq<AntennaView>) -> bool {
    forall|i: int, j: int| 0 <= i < j < s.len() ==> name_lt(#[trigger] s[i].name, #[trigger] s[j].name)
}

/// The antennas of `s` by their names.
pub open spec fn dict_map(s: Seq<AntennaView>) -> Map<Seq<char>, AntennaView> {
    Map::new(
        |k: Seq<char>| exists|i: int| 0 <= i < s.len() && #[trigger] s[i].name == k,
        |k: Seq<char>| s[choose|i: int| 0 <= i < s.len() && #[trigger] s[i].name == k],
    )
}

/// In a list in rising order each antenna stands under its own name.
pub proof fn lemma_dict_map_entry(s: Seq<AntennaView>, i: int)
    requires
        sorted_by_name(s),
        0 <= i < s.len(),
    ensures
        dict_map(s).contains_key(s[i].name),
        dict_map(s)[s[i].name] == s[i],
{
    let k = s[i].name;
    let j = choose|j: int| 0 <= j < s.len() && #[trigger] s[j].name == k;
    lemma_name_lt_irreflexive(k);
    if j < i {
        assert(name_lt(s[j].name, s[i].name));
    }
    if i < j {
        assert(name_lt(s[i].name, s[j].name));
    }
}

/// Entries of other keys at the end of a list do not tell on what a key
/// stands for.
pub proof fn lemma_log_map_skips(s: Seq<(Seq<char>, Seq<char>)>, k: Seq<char>, j: int)
    requires
        0 <= j <= s.len(),
        forall|i: int| j <= i < s.len() ==> (#[trigger] s[i]).0 != k,
    ensures
        log_map(s).contains_key(k) == log_map(s.take(j)).contains_key(k),
        log_map(s).contains_key(k) ==> log_map(s)[k] == log_map(s.take(j))[k],
    decreases s.len(),
{
    if j == s.len() {
        assert(s.take(j) =~= s);
    } else {
        let t = s.drop_last();
        assert(s.last().0 != k);
        assert(t.take(j) =~= s.take(j));
        lemma_log_map_skips(t, k, j);
    }
}

/// Replacing an antenna by one of the same name keeps the order, and puts
/// the new one under that name.
pub proof fn lemma_dict_replace(s: Seq<AntennaView>, p: int, a: AntennaView)
    requires
        sorted_by_name(s),
        0 <= p < s.len(),
        s[p].name == a.name,
    ensures
        sorted_by_name(s.update(p, a)),
        dict_map(s.update(p, a)) == dict_map(s).insert(a.name, a),
{
    let t = s.update(p, a);
    assert forall|i: int, j: int| 0 <= i < j < t.len() implies name_lt(
        #[trigger] t[i].name,
        #[trigger] t[j].name,
    ) by {
        assert(t[i].name == s[i].name && t[j].name == s[j].name);
    }
    let m = dict_map(s).insert(a.name, a);
    assert forall|k: Seq<char>| dict_map(t).contains_key(k) <==> m.contains_key(k) by {
        if dict_map(t).contains_key(k) {
            let i = choose|i: int| 0 <= i < t.len() && #[trigger] t[i].name == k;
            assert(s[i].name == k);
        }
        if m.contains_key(k) {
            if k == a.name {
                assert(t[p].name == k);
            } else {
                let i = choose|i: int| 0 <= i < s.len() && #[trigger] s[i].name == k;
                assert(t[i].name == k);
            }
        }
    }
    assert forall|k: Seq<char>| dict_map(t).contains_key(k) implies dict_map(t)[k] == m[k] by {
        let i = choose|i: int| 0 <= i < t.len() && #[trigger] t[i].name == k;
        lemma_dict_map_entry(t, i);
        if i != p {
            assert(s[i].name == k);
            lemma_dict_map_entry(s, i);
            lemma_dict_map_entry(s, p);
            lemma_name_lt_irreflexive(k);
            if i < p {
                assert(name_lt(s[i].name, s[p].name));
            } else {
                assert(name_lt(s[p].name, s[i].name));
            }
        }
    }
    assert(dict_map(t) =~= m);
}

/// Putting an antenna between the names before it and the names after it
/// keeps the order, and puts it under its name.
pub proof fn lemma_dict_insert(s: Seq<AntennaView>, p: int, a: AntennaView)
    requires
        sorted_by_name(s),
        0 <= p <= s.len(),
        forall|i: int| 0 <= i < p ==> name_lt(#[trigger] s[i].name, a.name),
        forall|i: int| p <= i < s.len() ==> name_lt(a.name, #[trigger] s[i].name),
    ensures
        sorted_by_name(s.insert(p, a)),
        dict_map(s.insert(p, a)) == dict_map(s).insert(a.name, a),
{
    let t = s.insert(p, a);
    assert forall|i: int, j: int| 0 <= i < j < t.len() implies name_lt(
        #[trigger] t[i].name,
        #[trigger] t[j].name,
    ) by {
        if j < p {
            assert(t[i] == s[i] && t[j] == s[j]);
        } else if j == p {
            assert(t[i] == s[i]);
        } else if i < p {
            assert(t[i] == s[i] && t[j] == s[j - 1]);
            if i < j - 1 {
            } else {
                lemma_name_lt_transitive(s[i].name, a.name, s[j - 1].name);
            }
        } else if i == p {
            assert(t[j] == s[j - 1]);
        } else {
            assert(t[i] == s[i - 1] && t[j] == s[j - 1]);
        }
    }
    let m = dict_map(s).insert(a.name, a);
    assert forall|k: Seq<char>| dict_map(t).contains_key(k) <==> m.contains_key(k) by {
        if dict_map(t).contains_key(k) {
            let i = choose|i: int| 0 <= i < t.len() && #[trigger] t[i].name == k;
            if i < p {
                assert(s[i].name == k);
            } else if i > p {
                assert(s[i - 1].name == k);
            }
        }
        if m.contains_key(k) {
            if k == a.name {
                assert(t[p].name == k);
            } else {
                let i = choose|i: int| 0 <= i < s.len() && #[trigger] s[i].name == k;
                if i < p {
                    assert(t[i].name == k);
                } else {
                    assert(t[i + 1].name == k);
                }
            }
        }
    }
    assert forall|k: Seq<char>| dict_map(t).contains_key(k) implies dict_map(t)[k] == m[k] by {
        let i = choose|i: int| 0 <= i < t.len() && #[trigger] t[i].name == k;
        lemma_dict_map_entry(t, i);
        lemma_name_lt_irreflexive(k);
        if i < p {
            assert(t[i] == s[i]);
            lemma_dict_map_entry(s, i);
        } else if i > p {
            assert(t[i] == s[i - 1]);
            lemma_dict_map_entry(s, i - 1);
        }
    }
    assert(dict_map(t) =~= m);
}

/// After aliases were added for `name`, each alias stands for `name` or for
/// what it stood for before.
pub proof fn lemma_alias_all(
    m: Map<Seq<char>, Seq<char>>,
    aliases: Seq<Seq<char>>,
    name: Seq<char>,
    k: Seq<char>,
)
    requires
        alias_all(m, aliases, name).contains_key(k),
    ensures
        alias_all(m, aliases, name)[k] == name || (m.contains_key(k) && alias_all(
            m,
            aliases,
            name,
        )[k] == m[k]),
    decreases aliases.len(),
{
    if aliases.len() > 0 && aliases.last() != k {
        lemma_alias_all(m, aliases.drop_last(), name, k);
    }
}

/// Defining a well-formed antenna keeps a catalog well formed.
pub proof fn lemma_register_wf(c: CatalogView, a: AntennaView)
    requires
        c.wf(),
        a.wf(),
    ensures
        c.register(a).wf(),
{
    let r = c.register(a);
    assert forall|k: Seq<char>| #[trigger] r.aliases.contains_key(k) implies r.dict.contains_key(
        r.aliases[k],
    ) by {
        if k != a.name {
            lemma_alias_all(c.aliases, a.aliases, a.name, k);
            if r.aliases[k] != a.name {
                assert(c.aliases.contains_key(k));
            }
        }
    }
    assert forall|k: Seq<char>| #[trigger] r.dict.contains_key(k) implies r.dict[k].name == k
        && r.dict[k].wf() by {
        if k != a.name {
            assert(c.dict.contains_key(k));
        }
    }
}

/// One antenna definition as it was read: each field as it was given, or
/// `None` where the definition does not give it.
#[derive(Debug)]
pub struct AntennaRecord {
    pub name: Option<String>,
    pub aliases: Option<Vec<String>>,
    pub power: Option<u64>,
    pub combine: Option<bool>,
    pub combine_exp: Option<u32>,
    pub relay: Option<bool>,
    pub is_dsn: Option<bool>,
}

/// A field that every definition must give.
#[derive(Debug, Clone, Copy, PartialEq, Eq)]
pub enum Field {
    Name,
    Aliases,
    Power,
    Combine,
    Relay,
}

/// What is wrong with a definition.
#[derive(Debug, Clone, Copy, PartialEq, Eq)]
pub enum Fault {
    /// A field that must be given is not.
    Missing(Field),
    /// The power is 0.
    PowerNotPositive,
    /// The exponent is greater than 1.
    ExponentAboveOne,
}

/// A definition that cannot be taken: its place in the list, from 0, and
/// what is wrong with it.
#[derive(Debug, Clone, Copy, PartialEq, Eq)]
pub struct DecodeError {
    pub record: usize,
    pub fault: Fault,
}

/// Why a list of definitions was not loaded.
#[derive(Debug, Clone, Copy, PartialEq, Eq)]
pub enum Error {
    Decode(DecodeError),
}

impl AntennaRecord {
    /// The first thing wrong with the definition: a missing field, in the
    /// order name, aliases, power, combine, relay; then a power of 0; then an
    /// exponent above 1.
    pub open spec fn fault(&self) -> Option<Fault> {
        if self.name is None {
            Some(Fault::Missing(Field::Name))
        } else if self.aliases is None {
            Some(Fault::Missing(Field::Aliases))
        } else if self.power is None {
            Some(Fault::Missing(Field::Power))
        } else if self.combine is None {
            Some(Fault::Missing(Field::Combine))
        } else if self.relay is None {
            Some(Fault::Missing(Field::Relay))
        } else if self.power->0 == 0 {
            Some(Fault::PowerNotPositive)
        } else if self.combine_exp is Some && self.combine_exp->0 > EXPONENT_ONE {
            Some(Fault::ExponentAboveOne)
        } else {
            None
        }
    }

    /// The antenna that the definition describes: an exponent that is not
    /// given is 0.75, and an antenna is a ground-station antenna only where
    /// the definition says so.
    pub open spec fn decoded(&self) -> AntennaView
        recommends
            self.fault() is None,
    {
        AntennaView {
            name: self.name->0@,
            aliases: texts(self.aliases->0@),
            power: self.power->0 as nat,
            combine: self.combine->0,
            combine_exp: if self.combine_exp is Some {
                self.combine_exp->0 as nat
            } else {
                750_000
            },
            relay: self.relay->0,
            is_dsn: self.is_dsn is Some && self.is_dsn->0,
        }
    }

    /// The antenna that the definition describes, or what is wrong with the
    /// definition.
    pub fn decode(&self) -> (r: Result<Antenna, Fault>)
        ensures
            match r {
                Ok(a) => self.fault() is None && a@ == self.decoded() && a.wf(),
                Err(f) => self.fault() == Some(f),
            },
    {
        let name = match &self.name {
            Some(n) => n.clone(),
            None => { return Err(Fault::Missing(Field::Name)); },
        };
        let aliases = match &self.aliases {
            Some(a) => clone_strings(a),
            None => { return Err(Fault::Missing(Field::Aliases)); },
        };
        let power = match self.power {
            Some(p) => p,
            None => { return Err(Fault::Missing(Field::Power)); },
        };
        let combine = match self.combine {
            Some(c) => c,
            None => { return Err(Fault::Missing(Field::Combine)); },
        };
        let relay = match self.relay {
            Some(r) => r,
            None => { return Err(Fault::Missing(Field::Relay)); },
        };
        if power == 0 {
            return Err(Fault::PowerNotPositive);
        }
        let combine_exp = match self.combine_exp {
            Some(e) => e,
            None => default_combine_exp(),
        };
        if combine_exp > EXPONENT_ONE {
            return Err(Fault::ExponentAboveOne);
        }
        let is_dsn = match self.is_dsn {
            Some(d) => d,
            None => false,
        };
        Ok(Antenna { name, aliases, power, combine, combine_exp, relay, is_dsn })
    }
}

/// The antennas that a list of definitions describes.
pub open spec fn decoded_all(records: Seq<AntennaRecord>) -> Seq<AntennaView> {
    records.map_values(|r: AntennaRecord| r.decoded())
}

/// Every text of `aliases` stands for `name` after `alias_all`.
pub proof fn lemma_alias_all_covers(
    m: Map<Seq<char>, Seq<char>>,
    aliases: Seq<Seq<char>>,
    name: Seq<char>,
    i: int,
)
    requires
        0 <= i < aliases.len(),
    ensures
        alias_all(m, aliases, name).contains_key(aliases[i]),
        alias_all(m, aliases, name)[aliases[i]] == name,
    decreases aliases.len(),
{
    if i < aliases.len() - 1 {
        lemma_alias_all_covers(m, aliases.drop_last(), name, i);
    }
}

/// Once an antenna is defined, its name and each of its aliases stand for
/// it.
pub proof fn lemma_registered_resolves(c: CatalogView, a: AntennaView, i: int)
    requires
        0 <= i < a.aliases.len(),
    ensures
        c.register(a).resolve(a.name) == Some(a),
        c.register(a).resolve(a.aliases[i]) == Some(a),
{
    lemma_alias_all_covers(c.aliases, a.aliases, a.name, i);
}

/// Aliases that are added leave every other text as it was.
pub proof fn lemma_alias_all_keeps(
    m: Map<Seq<char>, Seq<char>>,
    aliases: Seq<Seq<char>>,
    name: Seq<char>,
    k: Seq<char>,
)
    requires
        !aliases.contains(k),
    ensures
        alias_all(m, aliases, name).contains_key(k) == m.contains_key(k),
        m.contains_key(k) ==> alias_all(m, aliases, name)[k] == m[k],
    decreases aliases.len(),
{
    if aliases.len() > 0 {
        let rest = aliases.drop_last();
        assert(aliases.last() == aliases[aliases.len() - 1]);
        assert forall|i: int| 0 <= i < rest.len() implies rest[i] != k by {
            assert(rest[i] == aliases[i]);
        }
        lemma_alias_all_keeps(m, rest, name, k);
    }
}

/// After a list of definitions was loaded, the name and each alias of one of
/// them stand for its antenna, unless a later definition of the list took
/// that text or that name for itself.
pub proof fn lemma_loaded_resolves(c: CatalogView, s: Seq<AntennaView>, i: int, label: Seq<char>)
    requires
        0 <= i < s.len(),
        label == s[i].name || s[i].aliases.contains(label),
        forall|j: int|
            i < j < s.len() ==> (#[trigger] s[j]).name != label && !s[j].aliases.contains(label)
                && s[j].name != s[i].name,
    ensures
        c.register_all(s).aliases.contains_key(label),
        c.register_all(s).aliases[label] == s[i].name,
        c.register_all(s).dict.contains_key(s[i].name),
        c.register_all(s).dict[s[i].name] == s[i],
        c.register_all(s).resolve(label) == Some(s[i]),
    decreases s.len(),
{
    let before = c.register_all(s.drop_last());
    let a = s.last();
    assert(a == s[s.len() - 1]);
    assert(c.register_all(s) == before.register(a));
    if i == s.len() - 1 {
        if label != a.name {
            let k = choose|k: int| 0 <= k < a.aliases.len() && a.aliases[k] == label;
            lemma_alias_all_covers(before.aliases, a.aliases, a.name, k);
        }
    } else {
        let t = s.drop_last();
        assert(t[i] == s[i]);
        assert forall|j: int| i < j < t.len() implies (#[trigger] t[j]).name != label
            && !t[j].aliases.contains(label) && t[j].name != t[i].name by {
            assert(t[j] == s[j]);
        }
        lemma_loaded_resolves(c, t, i, label);
        lemma_alias_all_keeps(before.aliases, a.aliases, a.name, label);
    }
}

/// An alias stands for the same antenna as the name that it stands for,
/// where that name stands for itself.
pub proof fn lemma_alias_resolves_as_name(c: CatalogView, alias: Seq<char>)
    requires
        c.aliases.contains_key(alias),
        c.aliases.contains_key(c.aliases[alias]),
        c.aliases[c.aliases[alias]] == c.aliases[alias],
    ensures
        c.resolve(alias) == c.resolve(c.aliases[alias]),
{
}

/// In a well-formed catalog a text stands for an antenna exactly if it is
/// an alias or a name that was defined.
pub proof fn lemma_resolves_iff_known(c: CatalogView, text: Seq<char>)
    requires
        c.wf(),
    ensures
        c.resolve(text) is Some <==> c.aliases.contains_key(text),
{
}

/// The antenna catalog.
#[derive(Debug, Clone)]
pub struct Antennas {
    aliases: Vec<(String, String)>,
    dict: Vec<Antenna>,
}

impl View for Antennas {
    type V = CatalogView;

    closed spec fn view(&self) -> CatalogView {
        CatalogView {
            aliases: log_map(entry_views(self.aliases@)),
            dict: dict_map(antenna_views(self.dict@)),
        }
    }
}

impl Default for Antennas {
    fn default() -> (c: Antennas)
        ensures
            c.wf(),
            c@.aliases == Map::<Seq<char>, Seq<char>>::empty(),
            c@.dict == Map::<Seq<char>, AntennaView>::empty(),
    {
        Antennas::new()
    }
}

impl Antennas {
    /// The catalog is in order within, and what it holds is well formed.
    pub closed spec fn wf(&self) -> bool {
        &&& sorted_by_name(antenna_views(self.dict@))
        &&& self@.wf()
    }

    /// What a well-formed catalog holds is well formed.
    pub proof fn lemma_wf(&self)
        requires
            self.wf(),
        ensures
            self@.wf(),
    {
    }

    /// The name that `name` stands for as an alias.
    fn canonical(&self, name: &str) -> (r: Option<&String>)
        ensures
            match r {
                Some(target) => self@.aliases.contains_key(name@) && self@.aliases[name@]
                    == target@,
                None => !self@.aliases.contains_key(name@),
            },
    {
        let key = String::from_str(name);
        let ghost entries = entry_views(self.aliases@);
        let mut j: usize = self.aliases.len();
        while j > 0
            invariant
                entries == entry_views(self.aliases@),
                key@ == name@,
                j <= self.aliases.len(),
                forall|i: int| j <= i < entries.len() ==> (#[trigger] entries[i]).0 != name@,
            decreases j,
        {
            if self.aliases[j - 1].0 == key {
                proof {
                    lemma_log_map_skips(entries, name@, j as int);
                    assert(entries.take(j as int).last() == entries[j - 1]);
                }
                return Some(&self.aliases[j - 1].1);
            }
            j -= 1;
        }
        proof {
            lemma_log_map_skips(entries, name@, 0);
            assert(entries.take(0).len() == 0);
        }
        None
    }

    /// The antenna that stands under exactly the name `name`.
    fn by_name(&self, name: &String) -> (r: Option<&Antenna>)
        requires
            self.wf(),
        ensures
            match r {
                Some(a) => self@.dict.contains_key(name@) && self@.dict[name@] == a@,
                None => !self@.dict.contains_key(name@),
            },
    {
        let ghost views = antenna_views(self.dict@);
        let mut i: usize = 0;
        while i < self.dict.len()
            invariant
                views == antenna_views(self.dict@),
                sorted_by_name(views),
                i <= self.dict.len(),
                forall|t: int| 0 <= t < i ==> (#[trigger] views[t]).name != name@,
            decreases self.dict.len() - i,
        {
            if self.dict[i].name == *name {
                proof {
                    lemma_dict_map_entry(views, i as int);
                }
                return Some(&self.dict[i]);
            }
            i += 1;
        }
        None
    }

    /// The antenna that a name or alias stands for; `None` for a text that
    /// is neither. The match is exact, letter for letter.
    pub fn get(&self, name: &str) -> (r: Option<&Antenna>)
        requires
            self.wf(),
        ensures
            match self@.resolve(name@) {
                Some(v) => r is Some && r->0@ == v && r->0.wf(),
                None => r is None,
            },
    {
        match self.canonical(name) {
            Some(target) => self.by_name(target),
            None => None,
        }
    }

    /// Every antenna of the catalog once, in the rising order of the names.
    pub fn iter(&self) -> (r: &Vec<Antenna>)
        requires
            self.wf(),
        ensures
            sorted_by_name(antenna_views(r@)),
            dict_map(antenna_views(r@)) == self@.dict,
    {
        &self.dict
    }

    /// Defines one antenna: its aliases stand for its name, its name stands
    /// for itself, and it replaces an antenna of the same name.
    pub fn register(&mut self, antenna: Antenna)
        requires
            old(self).wf(),
            antenna.wf(),
        ensures
            final(self).wf(),
            final(self)@ == old(self)@.register(antenna@),
    {
        let ghost before = self@;
        let ghost labels = texts(antenna.aliases@);
        let mut k: usize = 0;
        assert(labels.take(0).len() == 0);
        while k < antenna.aliases.len()
            invariant
                k <= antenna.aliases.len(),
                labels == texts(antenna.aliases@),
                self.dict == old(self).dict,
                self@.aliases == alias_all(before.aliases, labels.take(k as int), antenna@.name),
            decreases antenna.aliases.len() - k,
        {
            let ghost so_far = entry_views(self.aliases@);
            let entry = (antenna.aliases[k].clone(), antenna.name.clone());
            self.aliases.push(entry);
            proof {
                assert(entry_views(self.aliases@) =~= so_far.push((labels[k as int], antenna@.name)));
                assert(entry_views(self.aliases@).drop_last() =~= so_far);
                assert(labels.take(k + 1).drop_last() =~= labels.take(k as int));
                assert(labels.take(k + 1).last() == labels[k as int]);
            }
            k += 1;
        }
        proof {
            assert(labels.take(k as int) =~= labels);
        }
        let ghost so_far = entry_views(self.aliases@);
        let own = (antenna.name.clone(), antenna.name.clone());
        self.aliases.push(own);
        proof {
            assert(entry_views(self.aliases@) =~= so_far.push((antenna@.name, antenna@.name)));
            assert(entry_views(self.aliases@).drop_last() =~= so_far);
        }
        let ghost views = antenna_views(self.dict@);
        let mut p: usize = 0;
        while p < self.dict.len() && str_lt(self.dict[p].name.as_str(), antenna.name.as_str())
            invariant
                p <= self.dict.len(),
                views == antenna_views(self.dict@),
                forall|i: int| 0 <= i < p ==> name_lt(#[trigger] views[i].name, antenna@.name),
            decreases self.dict.len() - p,
        {
            p += 1;
        }
        if p < self.dict.len() && self.dict[p].name == antenna.name {
            proof {
                lemma_dict_replace(views, p as int, antenna@);
            }
            self.dict.set(p, antenna);
            assert(antenna_views(self.dict@) =~= views.update(p as int, antenna@));
        } else {
            proof {
                assert forall|i: int| p <= i < views.len() implies name_lt(
                    antenna@.name,
                    #[trigger] views[i].name,
                ) by {
                    lemma_name_lt_total(views[p as int].name, antenna@.name);
                    if p < i {
                        assert(name_lt(views[p as int].name, views[i].name));
                        lemma_name_lt_transitive(antenna@.name, views[p as int].name, views[i].name);
                    }
                }
                lemma_dict_insert(views, p as int, antenna@);
            }
            self.dict.insert(p, antenna);
            assert(antenna_views(self.dict@) =~= views.insert(p as int, antenna@));
        }
        proof {
            lemma_register_wf(before, antenna@);
        }
    }

    /// Loads a list of definitions, in their order. Where a definition is
    /// faulty nothing is loaded, and the error names the first such
    /// definition.
    pub fn load(&mut self, records: Vec<AntennaRecord>) -> (r: Result<(), Error>)
        requires
            old(self).wf(),
        ensures
            final(self).wf(),
            match r {
                Ok(_) => {
                    &&& forall|i: int| 0 <= i < records.len() ==> (#[trigger] records[i]).fault() is None
                    &&& final(self)@ == old(self)@.register_all(decoded_all(records@))
                },
                Err(Error::Decode(e)) => {
                    &&& e.record < records.len()
                    &&& records[e.record as int].fault() == Some(e.fault)
                    &&& forall|i: int| 0 <= i < e.record ==> (#[trigger] records[i]).fault() is None
                    &&& final(self)@ == old(self)@
                },
            },
    {
        let ghost wanted = decoded_all(records@);
        let mut antennas: Vec<Antenna> = Vec::new();
        let mut i: usize = 0;
        while i < records.len()
            invariant
                i <= records.len(),
                antennas.len() == i,
                *self == *old(self),
                self.wf(),
                wanted == decoded_all(records@),
                forall|j: int| 0 <= j < i ==> (#[trigger] records[j]).fault() is None,
                forall|j: int| 0 <= j < i ==> (#[trigger] antennas[j]).wf() && antennas[j]@ == wanted[j],
            decreases records.len() - i,
        {
            match records[i].decode() {
                Ok(a) => {
                    antennas.push(a);
                },
                Err(fault) => {
                    return Err(Error::Decode(DecodeError { record: i, fault }));
                },
            }
            i += 1;
        }
        assert(antenna_views(antennas@) =~= wanted);
        let ghost before = self@;
        let mut k: usize = 0;
        while k < antennas.len()
            invariant
                k <= antennas.len(),
                self.wf(),
                antenna_views(antennas@) == wanted,
                forall|j: int| 0 <= j < antennas.len() ==> (#[trigger] antennas[j]).wf(),
                self@ == before.register_all(wanted.take(k as int)),
            decreases antennas.len() - k,
        {
            proof {
                assert(wanted.take(k + 1).drop_last() =~= wanted.take(k as int));
                assert(wanted.take(k + 1).last() == antennas[k as int]@);
            }
            self.register(antennas[k].clone());
            k += 1;
        }
        assert(wanted.take(k as int) =~= wanted);
        Ok(())
    }

    /// A catalog that holds nothing.
    pub fn new() -> (c: Antennas)
        ensures
            c.wf(),
            c@.aliases == Map::<Seq<char>, Seq<char>>::empty(),
            c@.dict == Map::<Seq<char>, AntennaView>::empty(),
    {
        let c = Antennas { aliases: Vec::new(), dict: Vec::new() };
        assert(c@.dict =~= Map::<Seq<char>, AntennaView>::empty());
        c
    }
}

} // verus!
