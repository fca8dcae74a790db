//! The dispatch table: registered prefixes, each leading to a local producer
//! or to a forwarding route, resolved by longest-prefix match. The
//! registrations are held in a concurrent map by registration id.

use vstd::prelude::*;
use crate::error::Error;
use crate::name::{Name, is_prefix};

verus! {

/// Where an Interest under a registered prefix goes.
#[derive(Debug, Clone, Copy, PartialEq, Eq, Structural)]
pub enum DispatchTarget {
    /// A handler in this process.
    Producer,
    /// The upstream peer with the given connection id.
    Route { peer: u64 },
}

/// One registration.
#[derive(Debug)]
pub struct DispatchEntry {
    pub registration_id: u64,
    pub prefix: Name,
    pub target: DispatchTarget,
    pub priority: usize,
}

/// What a registration holds.
pub struct EntryView {
    pub registration_id: u64,
    pub prefix: Seq<Seq<u8>>,
    pub target: DispatchTarget,
    pub priority: usize,
}

impl View for DispatchEntry {
    type V = EntryView;

    open spec fn view(&self) -> EntryView {
        EntryView {
            registration_id: self.registration_id,
            prefix: self.prefix@,
            target: self.target,
            priority: self.priority,
        }
    }
}

impl DispatchEntry {
    /// A copy of the registration.
    pub fn duplicate(&self) -> (r: DispatchEntry)
        ensures
            r@ == self@,
    {
        DispatchEntry {
            registration_id: self.registration_id,
            prefix: self.prefix.duplicate(),
            target: self.target,
            priority: self.priority,
        }
    }
}

/// The registration that a name resolved to.
#[derive(Debug, Clone, Copy, PartialEq, Eq, Structural)]
pub struct Resolution {
    pub registration_id: u64,
    pub target: DispatchTarget,
}

/// Whether registration `a` wins over `b` for a name that both match: the
/// longer prefix, then the higher priority, then the earlier registration.
pub open spec fn wins(a: EntryView, b: EntryView) -> bool {
    a.prefix.len() > b.prefix.len() || (a.prefix.len() == b.prefix.len() && (a.priority > b.priority || (
    a.priority == b.priority && a.registration_id <= b.registration_id)))
}

/// Whether `e` is the registration that `name` resolves to among `entries`.
pub open spec fn resolves_to(entries: Map<u64, EntryView>, name: Seq<Seq<u8>>, e: EntryView) -> bool {
    entries.contains_key(e.registration_id) && entries[e.registration_id] == e && is_prefix(e.prefix, name)
        && forall|k: u64|
        entries.contains_key(k) && is_prefix((#[trigger] entries[k]).prefix, name) ==> wins(e, entries[k])
}

/// Whether no registration matches `name`.
pub open spec fn no_match(entries: Map<u64, EntryView>, name: Seq<Seq<u8>>) -> bool {
    forall|k: u64| entries.contains_key(k) ==> !is_prefix((#[trigger] entries[k]).prefix, name)
}

/// The concurrent map type of the `dashmap` crate is declared where the
/// connection table is; this is what a map of registrations holds.
pub uninterp spec fn dispatch_contents(m: dashmap::DashMap<u64, DispatchEntry>) -> Map<u64, DispatchEntry>;

/// The contents of a table without registrations.
pub open spec fn no_entries() -> Map<u64, DispatchEntry> {
    Map::empty()
}

/// Makes a map of registrations with `DashMap::new`: it is empty.
#[verifier::external_body]
fn dispatch_new() -> (table: dashmap::DashMap<u64, DispatchEntry>)
    ensures
        dispatch_contents(table) == no_entries(),
{
    dashmap::DashMap::new()
}

/// Stores a registration with `DashMap::insert`: afterwards the map holds it
/// under the key, in place of any held there before; every other key keeps
/// its registration.
#[verifier::external_body]
fn dispatch_insert(m: &mut dashmap::DashMap<u64, DispatchEntry>, k: u64, v: DispatchEntry)
    ensures
        dispatch_contents(*final(m)) == dispatch_contents(*old(m)).insert(k, v),
{
    m.insert(k, v);
}

/// Removes a registration with `DashMap::remove` and says whether one was
/// held under the key; every other key keeps its registration.
#[verifier::external_body]
fn dispatch_remove(m: &mut dashmap::DashMap<u64, DispatchEntry>, k: u64) -> (r: bool)
    ensures
        r == dispatch_contents(*old(m)).contains_key(k),
        dispatch_contents(*final(m)) == dispatch_contents(*old(m)).remove(k),
{
    m.remove(&k).is_some()
}

/// Lists the keys with `DashMap::iter`: every key once, in no particular
/// order.
#[verifier::external_body]
fn dispatch_keys(m: &dashmap::DashMap<u64, DispatchEntry>) -> (r: Vec<u64>)
    ensures
        r@.no_duplicates(),
        forall|k: u64| r@.contains(k) <==> dispatch_contents(*m).contains_key(k),
{
    m.iter().map(|e| *e.key()).collect()
}

/// Reads a registration with `DashMap::get`: a copy of the one held under
/// the key, made by [`DispatchEntry::duplicate`], or `None` where none is
/// held.
#[verifier::external_body]
fn dispatch_read(m: &dashmap::DashMap<u64, DispatchEntry>, k: u64) -> (r: Option<DispatchEntry>)
    ensures
        dispatch_contents(*m).contains_key(k) ==> r is Some && r->0@ == dispatch_contents(*m)[k]@,
        !dispatch_contents(*m).contains_key(k) ==> r is None,
{
    m.get(&k).map(|e| e.value().duplicate())
}

/// The number of registrations, as `DashMap::len` gives it.
#[verifier::external_body]
fn dispatch_len(m: &dashmap::DashMap<u64, DispatchEntry>) -> (r: usize)
    ensures
        r == dispatch_contents(*m).dom().len(),
{
    m.len()
}

/// The registrations by id.
pub struct DispatchTable {
    map: dashmap::DashMap<u64, DispatchEntry>,
    next_id: u64,
}

impl DispatchTable {
    /// The registrations by id.
    pub closed spec fn entries(&self) -> Map<u64, EntryView> {
        Map::new(
            |k: u64| dispatch_contents(self.map).contains_key(k),
            |k: u64| dispatch_contents(self.map)[k]@,
        )
    }

    /// The id that the next registration gets.
    pub closed spec fn next_id(&self) -> u64 {
        self.next_id
    }

    /// Every registration is held under its own id, and ids are below the
    /// next id, so none is given out twice.
    pub open spec fn wf(&self) -> bool {
        forall|k: u64| #[trigger]
            self.entries().contains_key(k) ==> k < self.next_id() && self.entries()[k].registration_id == k
    }

    /// An empty table; the first registration gets the id 1.
    pub fn new() -> (r: Self)
        ensures
            r.entries() == Map::<u64, EntryView>::empty(),
            r.next_id() == 1,
            r.wf(),
    {
        let r = DispatchTable { map: dispatch_new(), next_id: 1 };
        assert(r.entries() =~= Map::<u64, EntryView>::empty());
        r
    }

    /// Number of registrations.
    pub fn len(&self) -> (r: usize)
        ensures
            r == self.entries().dom().len(),
    {
        assert(self.entries().dom() =~= dispatch_contents(self.map).dom());
        dispatch_len(&self.map)
    }

    fn register(&mut self, prefix: Name, target: DispatchTarget, priority: usize) -> (r: Result<u64, Error>)
        requires
            old(self).wf(),
        ensures
            final(self).wf(),
            old(self).next_id() < u64::MAX ==> r == Ok::<u64, Error>(old(self).next_id()) && final(self).next_id()
                == old(self).next_id() + 1 && final(self).entries() == old(self).entries().insert(
                old(self).next_id(),
                EntryView { registration_id: old(self).next_id(), prefix: prefix@, target, priority },
            ),
            old(self).next_id() == u64::MAX ==> r == Err::<u64, Error>(Error::InvalidState) && final(self).entries()
                == old(self).entries() && final(self).next_id() == old(self).next_id(),
    {
        if self.next_id == u64::MAX {
            return Err(Error::InvalidState);
        }
        let id: u64 = self.next_id;
        self.next_id = id + 1;
        dispatch_insert(&mut self.map, id, DispatchEntry { registration_id: id, prefix, target, priority });
        assert(self.entries() =~= old(self).entries().insert(
            id,
            EntryView { registration_id: id, prefix: prefix@, target, priority },
        ));
        Ok(id)
    }

    /// Registers a local producer for `prefix` and returns the registration
    /// id; `InvalidState` once the ids are used up.
    pub fn register_producer(&mut self, prefix: Name) -> (r: Result<u64, Error>)
        requires
            old(self).wf(),
        ensures
            final(self).wf(),
            old(self).next_id() < u64::MAX ==> r == Ok::<u64, Error>(old(self).next_id()) && final(self).next_id()
                == old(self).next_id() + 1 && final(self).entries() == old(self).entries().insert(
                old(self).next_id(),
                EntryView {
                    registration_id: old(self).next_id(),
                    prefix: prefix@,
                    target: DispatchTarget::Producer,
                    priority: 0,
                },
            ),
            old(self).next_id() == u64::MAX ==> r == Err::<u64, Error>(Error::InvalidState) && final(self).entries()
                == old(self).entries() && final(self).next_id() == old(self).next_id(),
    {
        self.register(prefix, DispatchTarget::Producer, 0)
    }

    /// Registers a forwarding route for `prefix` towards `peer` and returns
    /// the registration id; `InvalidState` once the ids are used up.
    pub fn register_route(&mut self, prefix: Name, peer: u64, priority: usize) -> (r: Result<u64, Error>)
        requires
            old(self).wf(),
        ensures
            final(self).wf(),
            old(self).next_id() < u64::MAX ==> r == Ok::<u64, Error>(old(self).next_id()) && final(self).next_id()
                == old(self).next_id() + 1 && final(self).entries() == old(self).entries().insert(
                old(self).next_id(),
                EntryView {
                    registration_id: old(self).next_id(),
                    prefix: prefix@,
                    target: DispatchTarget::Route { peer },
                    priority,
                },
            ),
            old(self).next_id() == u64::MAX ==> r == Err::<u64, Error>(Error::InvalidState) && final(self).entries()
                == old(self).entries() && final(self).next_id() == old(self).next_id(),
    {
        self.register(prefix, DispatchTarget::Route { peer }, priority)
    }

    /// Removes the registration `id`; `NotFound`, with nothing changed, where
    /// there is none.
    pub fn unregister(&mut self, id: u64) -> (r: Result<(), Error>)
        requires
            old(self).wf(),
        ensures
            final(self).wf(),
            final(self).next_id() == old(self).next_id(),
            old(self).entries().contains_key(id) ==> r is Ok && final(self).entries() == old(self).entries().remove(
                id,
            ),
            !old(self).entries().contains_key(id) ==> r == Err::<(), Error>(Error::NotFound) && final(self).entries()
                == old(self).entries(),
    {
        let removed = dispatch_remove(&mut self.map, id);
        assert(self.entries() =~= old(self).entries().remove(id));
        if removed {
            Ok(())
        } else {
            assert(self.entries() =~= old(self).entries());
            Err(Error::NotFound)
        }
    }

    /// Resolves `name`: the registration with the longest prefix of `name`;
    /// among equally long ones the one of higher priority, then the earliest.
    /// `None` where no registered prefix is a prefix of `name`.
    pub fn resolve(&self, name: &Name) -> (r: Option<Resolution>)
        requires
            self.wf(),
        ensures
            match r {
                Some(found) => self.entries().contains_key(found.registration_id) && resolves_to(
                    self.entries(),
                    name@,
                    self.entries()[found.registration_id],
                ) && self.entries()[found.registration_id].target == found.target,
                None => no_match(self.entries(), name@),
            },
    {
        let keys = dispatch_keys(&self.map);
        let mut best: Option<DispatchEntry> = None;
        let mut i: usize = 0;
        while i < keys.len()
            invariant
                0 <= i <= keys@.len(),
                self.wf(),
                forall|k: u64| keys@.contains(k) <==> self.entries().contains_key(k),
                match best {
                    Some(b) => self.entries().contains_key(b.registration_id) && self.entries()[b.registration_id]
                        == b@ && is_prefix(b@.prefix, name@) && forall|j: int|
                        0 <= j < i && is_prefix(self.entries()[#[trigger] keys@[j]].prefix, name@) ==> wins(
                            b@,
                            self.entries()[keys@[j]],
                        ),
                    None => forall|j: int|
                        0 <= j < i ==> !is_prefix(self.entries()[#[trigger] keys@[j]].prefix, name@),
                },
            decreases keys@.len() - i,
        {
            let k = keys[i];
            assert(keys@.contains(k));
            match dispatch_read(&self.map, k) {
                Some(e) => {
                    assert(e@ == self.entries()[k]);
                    assert(e.registration_id == k);
                    if name.starts_with(&e.prefix) {
                        let better = match &best {
                            Some(b) => e.prefix.len() > b.prefix.len() || (e.prefix.len() == b.prefix.len() && (
                            e.priority > b.priority || (e.priority == b.priority && e.registration_id
                                < b.registration_id))),
                            None => true,
                        };
                        if better {
                            best = Some(e);
                        }
                    }
                },
                None => {},
            }
            i += 1;
        }
        match best {
            Some(b) => {
                proof {
                    assert forall|k: u64|
                        self.entries().contains_key(k) && is_prefix(
                            (#[trigger] self.entries()[k]).prefix,
                            name@,
                        ) implies wins(b@, self.entries()[k]) by {
                        assert(keys@.contains(k));
                        let j = choose|j: int| 0 <= j < keys@.len() && keys@[j] == k;
                        assert(is_prefix(self.entries()[keys@[j]].prefix, name@));
                    }
                }
                Some(Resolution { registration_id: b.registration_id, target: b.target })
            },
            None => {
                proof {
                    assert forall|k: u64| self.entries().contains_key(k) implies !is_prefix(
                        (#[trigger] self.entries()[k]).prefix,
                        name@,
                    ) by {
                        assert(keys@.contains(k));
                        let j = choose|j: int| 0 <= j < keys@.len() && keys@[j] == k;
                        assert(!is_prefix(self.entries()[keys@[j]].prefix, name@));
                    }
                }
                None
            },
        }
    }
}

/// Longest-prefix resolution picks one registration: two registrations that
/// a name resolves to are the same one.
pub proof fn lemma_resolution_unique(entries: Map<u64, EntryView>, name: Seq<Seq<u8>>, a: EntryView, b: EntryView)
    requires
        resolves_to(entries, name, a),
        resolves_to(entries, name, b),
    ensures
        a == b,
{
    assert(wins(a, entries[b.registration_id]));
    assert(wins(b, entries[a.registration_id]));
}

/// A longer registered prefix of a name always wins over a shorter one.
pub proof fn lemma_longest_prefix_wins(entries: Map<u64, EntryView>, name: Seq<Seq<u8>>, e: EntryView, k: u64)
    requires
        resolves_to(entries, name, e),
        entries.contains_key(k),
        is_prefix(entries[k].prefix, name),
    ensures
        e.prefix.len() >= entries[k].prefix.len(),
{
}

} // verus!
