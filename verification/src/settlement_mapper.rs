//! The table from resource names to settlement points.

use vstd::hash_map::StringHashMap;
use vstd::prelude::*;
use crate::ledger::numbers_names;
use crate::text::has_substring;
use crate::text::str_contains;

verus! {

/// Where a resource settles, and what is known of its battery.
#[derive(Debug)]
pub struct ResourceMapping {
    pub resource_name: String,
    pub unit_name: String,
    pub settlement_point: String,
    /// Rated power, kW.
    pub capacity_kw: Option<u32>,
    /// Hours at full power.
    pub duration_hours: Option<u32>,
}

/// The table as it reads: names with their mappings, in the order the
/// names were first entered.
pub type Listing = Seq<(Seq<char>, ResourceMapping)>;

/// `i` is the place of `name` in the listing.
pub open spec fn is_place_of(listing: Listing, name: Seq<char>, i: int) -> bool {
    0 <= i < listing.len() && listing[i].0 == name
}

/// `name` is listed.
pub open spec fn listed(listing: Listing, name: Seq<char>) -> bool {
    exists|i: int| is_place_of(listing, name, i)
}

/// The mapping listed under `name`.
pub open spec fn mapping_of(listing: Listing, name: Seq<char>) -> ResourceMapping {
    listing[choose|i: int| is_place_of(listing, name, i)].1
}

/// No name is listed twice.
pub open spec fn names_once(listing: Listing) -> bool {
    forall|i: int, j: int|
        0 <= i < listing.len() && 0 <= j < listing.len() && i != j ==> (#[trigger] listing[i]).0
            != (#[trigger] listing[j]).0
}

/// The listing with `mapping` under `name`: in the place the name has, or
/// at the end where the name is new.
pub open spec fn entered(listing: Listing, name: Seq<char>, mapping: ResourceMapping) -> Listing {
    if listed(listing, name) {
        listing.update(choose|i: int| is_place_of(listing, name, i), (name, mapping))
    } else {
        listing.push((name, mapping))
    }
}

/// The unit name marks a battery.
pub open spec fn is_bess(unit_name: Seq<char>) -> bool {
    has_substring(unit_name, "BESS"@) || has_substring(unit_name, "ESS"@)
}

/// The mappings of the batteries, each once: those listed under their own
/// resource name, in the order of the listing.
pub open spec fn bess_of(listing: Listing) -> Seq<ResourceMapping>
    decreases listing.len(),
{
    if listing.len() == 0 {
        Seq::empty()
    } else {
        let rest = bess_of(listing.drop_last());
        let (name, mapping) = listing.last();
        if name == mapping.resource_name@ && is_bess(mapping.unit_name@) {
            rest.push(mapping)
        } else {
            rest
        }
    }
}

/// The mapping with power and duration set.
pub open spec fn with_specs(mapping: ResourceMapping, capacity_kw: u32, duration_hours: u32) -> ResourceMapping {
    ResourceMapping {
        resource_name: mapping.resource_name,
        unit_name: mapping.unit_name,
        settlement_point: mapping.settlement_point,
        capacity_kw: Some(capacity_kw),
        duration_hours: Some(duration_hours),
    }
}

/// A copy of a mapping.
pub fn copy_mapping(mapping: &ResourceMapping) -> (c: ResourceMapping)
    ensures
        c == *mapping,
{
    ResourceMapping {
        resource_name: mapping.resource_name.clone(),
        unit_name: mapping.unit_name.clone(),
        settlement_point: mapping.settlement_point.clone(),
        capacity_kw: mapping.capacity_kw,
        duration_hours: mapping.duration_hours,
    }
}

/// Resource names and their settlement points.
pub struct SettlementMapper {
    names: Vec<String>,
    mappings: Vec<ResourceMapping>,
    /// From each name to its place in `names`.
    places: StringHashMap<usize>,
}

impl View for SettlementMapper {
    type V = Listing;

    closed spec fn view(&self) -> Listing {
        Seq::new(self.names@.len(), |i: int| (self.names@[i]@, self.mappings@[i]))
    }
}

impl SettlementMapper {
    /// Every name has its mapping and no name is listed twice.
    pub closed spec fn well_formed(&self) -> bool {
        self.names@.len() == self.mappings@.len() && names_once(self@) && numbers_names(
            self.places@,
            self.names@,
        )
    }

    /// In a well-formed table no name is listed twice.
    pub proof fn lemma_names_once(&self)
        requires
            self.well_formed(),
        ensures
            names_once(self@),
    {
    }

    /// An empty table.
    pub fn new() -> (mapper: Self)
        ensures
            mapper@.len() == 0,
            mapper.well_formed(),
    {
        SettlementMapper { names: Vec::new(), mappings: Vec::new(), places: StringHashMap::new() }
    }

    /// Place of `name`.
    fn find(&self, name: &String) -> (found: Option<usize>)
        requires
            self.well_formed(),
        ensures
            match found {
                Some(i) => is_place_of(self@, name@, i as int) && listed(self@, name@) && i == (
                choose|c: int| is_place_of(self@, name@, c)) && i < self.names@.len() && i
                    < self.mappings@.len(),
                None => !listed(self@, name@),
            },
    {
        match self.places.get(name.as_str()) {
            Some(place) => {
                let i: usize = *place;
                proof {
                    assert(self@[i as int].0 == name@);
                    assert(is_place_of(self@, name@, i as int));
                    let c = choose|c: int| is_place_of(self@, name@, c);
                    assert(self@[c].0 == self@[i as int].0);
                }
                Some(i)
            },
            None => {
                assert forall|c: int| !is_place_of(self@, name@, c) by {
                    if 0 <= c < self@.len() {
                        assert(self.places@.contains_key(self.names@[c]@));
                    }
                }
                None
            },
        }
    }

    /// Enters `mapping` under `name`, in place of what the name had.
    fn enter(&mut self, name: String, mapping: ResourceMapping)
        requires
            old(self).well_formed(),
        ensures
            final(self).well_formed(),
            final(self)@ == entered(old(self)@, name@, mapping),
    {
        let ghost before = self@;
        match self.find(&name) {
            Some(i) => {
                self.mappings.set(i, mapping);
                proof {
                    assert(self@ =~= before.update(i as int, (name@, mapping)));
                    assert forall|a: int, b: int|
                        0 <= a < self@.len() && 0 <= b < self@.len() && a != b implies (
                    #[trigger] self@[a]).0 != (#[trigger] self@[b]).0 by {
                        assert(self@[a].0 == before[a].0);
                        assert(self@[b].0 == before[b].0);
                    }
                }
            },
            None => {
                let ghost names_before = self.names@;
                let ghost places_before = self.places@;
                self.places.insert(name.clone(), self.names.len());
                self.names.push(name);
                self.mappings.push(mapping);
                proof {
                    assert forall|key: Seq<char>| #[trigger]
                        self.places@.contains_key(key) implies self.places@[key] < self.names@.len()
                        && self.names@[self.places@[key] as int]@ == key by {
                        if key != name@ {
                            assert(places_before.contains_key(key));
                            assert(self.names@[places_before[key] as int]
                                == names_before[places_before[key] as int]);
                        }
                    }
                    assert forall|a: int| 0 <= a < self.names@.len() implies self.places@.contains_key(
                        (#[trigger] self.names@[a])@,
                    ) by {
                        if a < names_before.len() {
                            assert(self.names@[a] == names_before[a]);
                            assert(places_before.contains_key(names_before[a]@));
                        }
                    }
                    assert(self@ =~= before.push((name@, mapping)));
                    assert forall|a: int, b: int|
                        0 <= a < self@.len() && 0 <= b < self@.len() && a != b implies (
                    #[trigger] self@[a]).0 != (#[trigger] self@[b]).0 by {
                        if a < before.len() {
                            assert(self@[a] == before[a]);
                            assert(!is_place_of(before, name@, a));
                        }
                        if b < before.len() {
                            assert(self@[b] == before[b]);
                            assert(!is_place_of(before, name@, b));
                        }
                    }
                }
            },
        }
    }

    /// Adds or replaces a mapping: it is entered under its resource name
    /// and under its unit name.
    pub fn add_mapping(&mut self, mapping: ResourceMapping)
        requires
            old(self).well_formed(),
        ensures
            final(self).well_formed(),
            final(self)@ == entered(
                entered(old(self)@, mapping.resource_name@, mapping),
                mapping.unit_name@,
                mapping,
            ),
    {
        let first: ResourceMapping = copy_mapping(&mapping);
        let resource_name: String = mapping.resource_name.clone();
        let unit_name: String = mapping.unit_name.clone();
        self.enter(resource_name, first);
        self.enter(unit_name, mapping);
    }

    /// Enters a unit and the node it settles at: a mapping without power
    /// and duration goes under the unit name, which is also its resource
    /// name, and under the node.
    pub fn add_resource_node(&mut self, resource_node: &str, unit_name: &str)
        requires
            old(self).well_formed(),
        ensures
            final(self).well_formed(),
            exists|m: ResourceMapping|
                m.resource_name@ == unit_name@ && m.unit_name@ == unit_name@
                    && m.settlement_point@ == resource_node@ && m.capacity_kw is None
                    && m.duration_hours is None && final(self)@ == entered(
                    #[trigger] entered(old(self)@, unit_name@, m),
                    resource_node@,
                    m,
                ),
    {
        let mapping: ResourceMapping = ResourceMapping {
            resource_name: unit_name.to_owned(),
            unit_name: unit_name.to_owned(),
            settlement_point: resource_node.to_owned(),
            capacity_kw: None,
            duration_hours: None,
        };
        let second: ResourceMapping = copy_mapping(&mapping);
        let ghost before = self@;
        self.enter(unit_name.to_owned(), mapping);
        self.enter(resource_node.to_owned(), second);
        proof {
            assert(self@ == entered(entered(before, unit_name@, mapping), resource_node@, mapping));
        }
    }

    /// Sets power and duration of the mapping listed under `name`; an
    /// unlisted name changes nothing.
    pub fn set_battery_specs(&mut self, name: &str, capacity_kw: u32, duration_hours: u32)
        requires
            old(self).well_formed(),
        ensures
            final(self).well_formed(),
            final(self)@ == (if listed(old(self)@, name@) {
                entered(
                    old(self)@,
                    name@,
                    with_specs(mapping_of(old(self)@, name@), capacity_kw, duration_hours),
                )
            } else {
                old(self)@
            }),
    {
        let key: String = name.to_owned();
        match self.find(&key) {
            Some(i) => {
                let updated: ResourceMapping = ResourceMapping {
                    resource_name: self.mappings[i].resource_name.clone(),
                    unit_name: self.mappings[i].unit_name.clone(),
                    settlement_point: self.mappings[i].settlement_point.clone(),
                    capacity_kw: Some(capacity_kw),
                    duration_hours: Some(duration_hours),
                };
                self.enter(key, updated);
            },
            None => {},
        }
    }

    /// The settlement point of a resource.
    pub fn get_settlement_point(&self, resource_name: &str) -> (point: Option<&str>)
        requires
            self.well_formed(),
        ensures
            match point {
                Some(p) => listed(self@, resource_name@) && p@ == mapping_of(
                    self@,
                    resource_name@,
                ).settlement_point@,
                None => !listed(self@, resource_name@),
            },
    {
        let key: String = resource_name.to_owned();
        match self.find(&key) {
            Some(i) => Some(self.mappings[i].settlement_point.as_str()),
            None => None,
        }
    }

    /// The mapping of a resource.
    pub fn get_mapping(&self, resource_name: &str) -> (mapping: Option<&ResourceMapping>)
        requires
            self.well_formed(),
        ensures
            match mapping {
                Some(m) => listed(self@, resource_name@) && *m == mapping_of(self@, resource_name@),
                None => !listed(self@, resource_name@),
            },
    {
        let key: String = resource_name.to_owned();
        match self.find(&key) {
            Some(i) => Some(&self.mappings[i]),
            None => None,
        }
    }

    /// The battery resources, each once.
    pub fn get_all_bess(&self) -> (found: Vec<&ResourceMapping>)
        requires
            self.well_formed(),
        ensures
            found@.len() == bess_of(self@).len(),
            forall|i: int| 0 <= i < found@.len() ==> *(#[trigger] found@[i]) == bess_of(self@)[i],
    {
        let mut found: Vec<&ResourceMapping> = Vec::new();
        let mut i: usize = 0;
        assert(self@.take(0) =~= Seq::<(Seq<char>, ResourceMapping)>::empty());
        while i < self.names.len()
            invariant
                i <= self.names.len(),
                self.names@.len() == self.mappings@.len(),
                found@.len() == bess_of(self@.take(i as int)).len(),
                forall|m: int|
                    0 <= m < found@.len() ==> *(#[trigger] found@[m]) == bess_of(
                        self@.take(i as int),
                    )[m],
            decreases self.names.len() - i,
        {
            let mapping: &ResourceMapping = &self.mappings[i];
            proof {
                assert(self@.take(i + 1).drop_last() =~= self@.take(i as int));
                assert(self@.take(i + 1).last() == (self.names@[i as int]@, self.mappings@[i as int]));
            }
            if self.names[i] == mapping.resource_name && (str_contains(
                mapping.unit_name.as_str(),
                "BESS",
            ) || str_contains(mapping.unit_name.as_str(), "ESS")) {
                found.push(mapping);
            }
            i = i + 1;
        }
        assert(self@.take(self.names.len() as int) =~= self@);
        found
    }
}

} // verus!
