//! Interned storage locations and the registry that describes them.

use std::collections::HashMap;
use vstd::prelude::*;

verus! {

/// Stable identifier for a single on-chain storage location (a resource, table
/// item, or module) observed during capture. Interning storage keys to a small
/// integer keeps the conflict model free of VM types and cheap to operate on.
pub type LocationId = u32;

/// How a location behaves under Block-STM conflict detection.
#[derive(Debug, Clone, Copy, PartialEq, Eq, Structural)]
pub enum KeyClass {
    /// A resource stored under an account address.
    Resource,
    /// Published module bytecode. Written only on publish, never a hot conflict.
    Code,
    /// An entry in a Move table (a dynamic collection).
    TableItem,
    /// An aggregator / delayed field. Concurrent updates commute, so Block-STM
    /// does not treat them as conflicts.
    Aggregator,
    /// State whose type is defined by the Aptos framework: gas payment,
    /// sequence numbers, fungible stores. It is excluded from contract
    /// contention.
    Framework,
    /// A location that could not be classified; treated conservatively as
    /// conflicting.
    Unknown,
}

impl KeyClass {
    /// A class conflicts unless its updates commute (aggregators), happen only
    /// at publish time (code), or belong to the framework.
    pub open spec fn conflicts(self) -> bool {
        !(self is Aggregator || self is Code || self is Framework)
    }

    /// Whether a write to this location can force a concurrent reader to
    /// re-execute.
    pub fn is_conflicting(self) -> (r: bool)
        ensures
            r == self.conflicts(),
    {
        match self {
            KeyClass::Aggregator | KeyClass::Code | KeyClass::Framework => false,
            _ => true,
        }
    }
}

/// A location paired with the human-readable label used in reports.
#[derive(Debug, PartialEq, Eq)]
pub struct Location {
    pub id: LocationId,
    pub label: String,
    pub class: KeyClass,
}

impl Clone for Location {
    fn clone(&self) -> (r: Self)
        ensures
            r == *self,
    {
        Location { id: self.id, label: self.label.clone(), class: self.class }
    }
}

/// The label reported for a location that the registry does not know.
pub open spec fn unknown_label() -> Seq<char> {
    seq!['<', 'u', 'n', 'k', 'n', 'o', 'w', 'n', '>']
}

/// The label the registry `m` gives to `id`.
pub open spec fn label_of(m: Map<LocationId, Location>, id: LocationId) -> Seq<char> {
    if m.contains_key(id) {
        m[id].label@
    } else {
        unknown_label()
    }
}

/// The class the registry `m` gives to `id`; unknown locations are `Unknown`.
pub open spec fn class_of(m: Map<LocationId, Location>, id: LocationId) -> KeyClass {
    if m.contains_key(id) {
        m[id].class
    } else {
        KeyClass::Unknown
    }
}

/// Whether `id` counts as a conflicting location under the registry `m`.
pub open spec fn conflicting_in(m: Map<LocationId, Location>, id: LocationId) -> bool {
    class_of(m, id).conflicts()
}

/// Registry mapping every observed [`LocationId`] to its metadata.
#[derive(Debug)]
pub struct LocationTable {
    locations: HashMap<LocationId, Location>,
}

impl View for LocationTable {
    type V = Map<LocationId, Location>;

    closed spec fn view(&self) -> Map<LocationId, Location> {
        self.locations@
    }
}

impl Clone for LocationTable {
    fn clone(&self) -> (r: Self)
        ensures
            r@ == self@,
    {
        LocationTable { locations: self.locations.clone() }
    }
}

impl Default for LocationTable {
    fn default() -> (r: Self)
        ensures
            r@ == Map::<LocationId, Location>::empty(),
    {
        LocationTable::new()
    }
}

impl LocationTable {
    /// An empty registry.
    pub fn new() -> (r: Self)
        ensures
            r@ == Map::<LocationId, Location>::empty(),
            r@.dom().finite(),
    {
        LocationTable { locations: HashMap::new() }
    }

    /// The registry is finite.
    pub proof fn lemma_finite(&self)
        ensures
            self@.dom().finite(),
    {
        broadcast use vstd::std_specs::hash::axiom_hashmap_view_finite_dom;
    }

    /// Record `location` under its id, replacing any earlier entry for that
    /// id; the size grows by one exactly when the id is new.
    pub fn insert(&mut self, location: Location)
        ensures
            final(self)@ == old(self)@.insert(location.id, location),
            final(self)@.dom().finite(),
            final(self)@.len() == old(self)@.len() + if old(self)@.contains_key(location.id) {
                0int
            } else {
                1int
            },
    {
        proof {
            self.lemma_finite();
        }
        let id = location.id;
        self.locations.insert(id, location);
        proof {
            self.lemma_finite();
        }
    }

    /// The metadata recorded for `id`, if any.
    pub fn get(&self, id: LocationId) -> (r: Option<&Location>)
        ensures
            r matches Some(l) ==> self@.contains_key(id) && *l == self@[id],
            r is None ==> !self@.contains_key(id),
    {
        self.locations.get(&id)
    }

    /// The report label of `id`, or `<unknown>` for an unregistered location.
    pub fn label(&self, id: LocationId) -> (r: &str)
        ensures
            r@ == label_of(self@, id),
    {
        match self.locations.get(&id) {
            Some(l) => l.label.as_str(),
            None => {
                let s = "<unknown>";
                proof {
                    reveal_strlit("<unknown>");
                }
                s
            },
        }
    }

    /// The class of `id`, or `Unknown` for an unregistered location.
    pub fn class(&self, id: LocationId) -> (r: KeyClass)
        ensures
            r == class_of(self@, id),
    {
        match self.locations.get(&id) {
            Some(l) => l.class,
            None => KeyClass::Unknown,
        }
    }

    /// Whether `id` conflicts under Block-STM, by its registered class.
    pub fn is_conflicting(&self, id: LocationId) -> (r: bool)
        ensures
            r == conflicting_in(self@, id),
    {
        self.class(id).is_conflicting()
    }

    /// The number of registered locations.
    pub fn len(&self) -> (r: usize)
        ensures
            r == self@.len(),
            self@.dom().finite(),
    {
        proof {
            self.lemma_finite();
        }
        self.locations.len()
    }

    /// Whether no location is registered.
    pub fn is_empty(&self) -> (r: bool)
        ensures
            r == (self@.len() == 0),
    {
        self.locations.is_empty()
    }
}

/// Reading a registry after recording a location gives back that location's
/// label and class, and leaves every other id as it was.
pub proof fn law_table_read_after_insert(m: Map<LocationId, Location>, loc: Location, other: LocationId)
    ensures
        label_of(m.insert(loc.id, loc), loc.id) == loc.label@,
        class_of(m.insert(loc.id, loc), loc.id) == loc.class,
        other != loc.id ==> label_of(m.insert(loc.id, loc), other) == label_of(m, other),
        other != loc.id ==> class_of(m.insert(loc.id, loc), other) == class_of(m, other),
{
}

/// A location that was never classified is treated conservatively as
/// conflicting.
pub proof fn law_unregistered_location_conflicts(m: Map<LocationId, Location>, id: LocationId)
    requires
        !m.contains_key(id),
    ensures
        class_of(m, id) == KeyClass::Unknown,
        conflicting_in(m, id),
{
}

/// The registry built by inserting `ls` in order into an empty one.
pub open spec fn table_after(ls: Seq<Location>) -> Map<LocationId, Location>
    decreases ls.len(),
{
    if ls.len() == 0 {
        Map::empty()
    } else {
        table_after(ls.drop_last()).insert(ls.last().id, ls.last())
    }
}

/// The ids of `ls`, in order.
pub open spec fn ids_of(ls: Seq<Location>) -> Seq<LocationId> {
    ls.map_values(|l: Location| l.id)
}

/// The index of the last location of `ls` with id `id`, or -1.
pub open spec fn last_with_id(ls: Seq<Location>, id: LocationId) -> int
    decreases ls.len(),
{
    if ls.len() == 0 {
        -1
    } else if ls.last().id == id {
        ls.len() - 1
    } else {
        last_with_id(ls.drop_last(), id)
    }
}

/// A registry built by a sequence of inserts holds, for each id, the last
/// location inserted under it, and nothing for an id never inserted; its size
/// is the number of distinct ids inserted.
pub proof fn law_table_after_inserts(ls: Seq<Location>, id: LocationId)
    ensures
        table_after(ls).dom() == ids_of(ls).to_set(),
        table_after(ls).dom().finite(),
        table_after(ls).len() == ids_of(ls).to_set().len(),
        -1 <= last_with_id(ls, id) < ls.len(),
        last_with_id(ls, id) >= 0 ==> ls[last_with_id(ls, id)].id == id && table_after(ls)[id]
            == ls[last_with_id(ls, id)],
        last_with_id(ls, id) >= 0 ==> forall|k: int|
            last_with_id(ls, id) < k < ls.len() ==> (#[trigger] ls[k]).id != id,
        last_with_id(ls, id) < 0 <==> !table_after(ls).contains_key(id),
    decreases ls.len(),
{
    if ls.len() > 0 {
        let p = ls.drop_last();
        law_table_after_inserts(p, id);
        assert(ids_of(ls) =~= ids_of(p).push(ls.last().id));
        ids_of(p).lemma_push_to_set_commute(ls.last().id);
        assert(table_after(ls).dom() =~= ids_of(ls).to_set());
        if last_with_id(ls, id) >= 0 && ls.last().id != id {
            assert forall|k: int| last_with_id(ls, id) < k < ls.len() implies (#[trigger] ls[k]).id
                != id by {
                if k < ls.len() - 1 {
                    assert(ls[k] == p[k]);
                }
            }
        }
    } else {
        assert(ids_of(ls).to_set() =~= Set::<LocationId>::empty());
    }
    vstd::seq_lib::seq_to_set_is_finite(ids_of(ls));
}

} // verus!
