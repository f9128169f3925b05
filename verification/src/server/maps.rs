//! The hash maps of an object store, which are those of [`hashbrown`].
use hashbrown::{HashMap, HashSet};
use vstd::prelude::*;

verus! {

/// An object of a client, as the store sees it.
#[derive(Clone, Copy, Debug)]
pub struct AnyObject {
    /// By what the owner of the object finds it.
    pub handle: u64,
    /// The type of the object.
    pub type_id: u64,
    /// The interface that the object implements.
    pub interface: &'static str,
    /// The state that is shared by all objects of the type, if there is one for
    /// the type: what the owner finds a new one by.
    pub state: Option<u64>,
}

/// Objects by id.
#[verifier::external_body]
pub struct ObjectMap {
    inner: HashMap<u32, AnyObject>,
}

/// For each type of objects, by what its state is found, and how many objects
/// share it.
#[verifier::external_body]
pub struct StateMap {
    inner: HashMap<u64, (u64, u64)>,
}

/// A set of object ids.
#[verifier::external_body]
pub struct IdSet {
    inner: HashSet<u32>,
}

/// The object ids that are bound to outputs, by the numbers of the outputs.
#[verifier::external_body]
pub struct OutputMap {
    inner: HashMap<u32, IdSet>,
}

/// Object ids by interface.
#[verifier::external_body]
pub struct InterfaceMap {
    inner: HashMap<&'static str, IdSet>,
}

/// The objects in a map.
pub uninterp spec fn objects_in(map: ObjectMap) -> Map<u32, AnyObject>;

/// The states in a map.
pub uninterp spec fn states_in(map: StateMap) -> Map<u64, (u64, u64)>;

/// The ids in a set.
pub uninterp spec fn ids_in(set: IdSet) -> Set<u32>;

/// The ids in a map.
pub uninterp spec fn interfaces_in(map: InterfaceMap) -> Map<Seq<char>, Set<u32>>;

/// The object ids that are bound to outputs.
pub uninterp spec fn outputs_in(map: OutputMap) -> Map<u32, Set<u32>>;

impl OutputMap {
    /// `hashbrown::HashMap::new`: the map is empty.
    #[verifier::external_body]
    pub(crate) fn new() -> (r: OutputMap)
        ensures
            (outputs_in(r) == Map::<u32, Set<u32>>::empty()),
    {
        OutputMap { inner: HashMap::new() }
    }

    /// `hashbrown::HashMap::entry` with `or_insert_with`: the set with the given
    /// key, which is added and empty if there is none. What becomes of the set
    /// becomes of the map.
    #[verifier::external_body]
    pub(crate) fn entry(&mut self, output: u32) -> (r: &mut IdSet)
        ensures
            ids_in(*r) == if outputs_in(*old(self)).contains_key(output) {
                outputs_in(*old(self))[output]
            } else {
                Set::<u32>::empty()
            },
            outputs_in(*final(self)) == outputs_in(*old(self)).insert(output, ids_in(*final(r))),
    {
        self.inner.entry(output).or_insert_with(IdSet::new)
    }

    /// `hashbrown::HashMap::get`: the set with the given key, if there is one.
    #[verifier::external_body]
    pub(crate) fn get(&self, output: u32) -> (r: Option<&IdSet>)
        ensures
            match r {
                Some(ids) => outputs_in(*self).contains_key(output) && ids_in(*ids) == outputs_in(*self)[output],
                None => !outputs_in(*self).contains_key(output),
            },
    {
        self.inner.get(&output)
    }
}

impl ObjectMap {
    /// `hashbrown::HashMap::new`: the map is empty.
    #[verifier::external_body]
    pub(crate) fn new() -> (r: ObjectMap)
        ensures
            (objects_in(r) == Map::<u32, AnyObject>::empty()),
    {
        ObjectMap { inner: HashMap::new() }
    }

    /// `hashbrown::HashMap::get`: the value with the given key, if there is one.
    #[verifier::external_body]
    pub(crate) fn get(&self, id: u32) -> (r: Option<AnyObject>)
        ensures
            r == if objects_in(*self).contains_key(id) {
                Some(objects_in(*self)[id])
            } else {
                None
            },
    {
        self.inner.get(&id).copied()
    }

    /// `hashbrown::HashMap::insert`: the value takes the place of one with the same
    /// key.
    #[verifier::external_body]
    pub(crate) fn insert(&mut self, id: u32, object: AnyObject)
        ensures
            objects_in(*final(self)) == objects_in(*old(self)).insert(id, object),
    {
        self.inner.insert(id, object);
    }

    /// `hashbrown::HashMap::remove`: takes the value with the given key out, if
    /// there is one.
    #[verifier::external_body]
    pub(crate) fn remove(&mut self, id: u32) -> (r: Option<AnyObject>)
        ensures
            r == if objects_in(*old(self)).contains_key(id) {
                Some(objects_in(*old(self))[id])
            } else {
                None
            },
            objects_in(*final(self)) == objects_in(*old(self)).remove(id),
    {
        self.inner.remove(&id)
    }

    /// `hashbrown::HashMap::drain`: takes all values out, each once, in an order
    /// that is not fixed.
    #[verifier::external_body]
    pub(crate) fn drain(&mut self) -> (r: Vec<(u32, AnyObject)>)
        ensures
            (objects_in(*final(self)) == Map::<u32, AnyObject>::empty()),
            forall|i: int|
                0 <= i < r@.len() ==> objects_in(*old(self)).contains_key((#[trigger] r@[i]).0) && objects_in(*old(self))[r@[i].0]
                    == r@[i].1,
            forall|i: int, j: int| 0 <= i < j < r@.len() ==> r@[i].0 != r@[j].0,
            forall|id: u32| #[trigger]
                objects_in(*old(self)).contains_key(id) ==> exists|i: int| 0 <= i < r@.len() && r@[i].0 == id,
    {
        self.inner.drain().collect()
    }
}

impl StateMap {
    /// `hashbrown::HashMap::new`: the map is empty.
    #[verifier::external_body]
    pub(crate) fn new() -> (r: StateMap)
        ensures
            (states_in(r) == Map::<u64, (u64, u64)>::empty()),
    {
        StateMap { inner: HashMap::new() }
    }

    /// `hashbrown::HashMap::get`: the value with the given key, if there is one.
    #[verifier::external_body]
    pub(crate) fn get(&self, type_id: u64) -> (r: Option<(u64, u64)>)
        ensures
            r == if states_in(*self).contains_key(type_id) {
                Some(states_in(*self)[type_id])
            } else {
                None
            },
    {
        self.inner.get(&type_id).copied()
    }

    /// `hashbrown::HashMap::insert`: the value takes the place of one with the same
    /// key.
    #[verifier::external_body]
    pub(crate) fn insert(&mut self, type_id: u64, state: (u64, u64))
        ensures
            states_in(*final(self)) == states_in(*old(self)).insert(type_id, state),
    {
        self.inner.insert(type_id, state);
    }

    /// `hashbrown::HashMap::remove`: takes the value with the given key out, if
    /// there is one.
    #[verifier::external_body]
    pub(crate) fn remove(&mut self, type_id: u64)
        ensures
            states_in(*final(self)) == states_in(*old(self)).remove(type_id),
    {
        self.inner.remove(&type_id);
    }

    /// `hashbrown::HashMap::clear`: the map is empty afterwards.
    #[verifier::external_body]
    pub(crate) fn clear(&mut self)
        ensures
            (states_in(*final(self)) == Map::<u64, (u64, u64)>::empty()),
    {
        self.inner.clear()
    }
}

impl IdSet {
    /// `hashbrown::HashSet::new`: the set is empty.
    #[verifier::external_body]
    pub(crate) fn new() -> (r: IdSet)
        ensures
            ids_in(r) == Set::<u32>::empty(),
    {
        IdSet { inner: HashSet::new() }
    }

    /// `hashbrown::HashSet::insert`: adds an id.
    #[verifier::external_body]
    pub(crate) fn insert(&mut self, id: u32)
        ensures
            ids_in(*final(self)) == ids_in(*old(self)).insert(id),
    {
        self.inner.insert(id);
    }

    /// `hashbrown::HashSet::remove`: takes an id out.
    #[verifier::external_body]
    pub(crate) fn remove(&mut self, id: u32)
        ensures
            ids_in(*final(self)) == ids_in(*old(self)).remove(id),
    {
        self.inner.remove(&id);
    }

    /// `hashbrown::HashSet::contains`: tells whether an id is there.
    #[verifier::external_body]
    pub(crate) fn contains(&self, id: u32) -> (r: bool)
        ensures
            r == ids_in(*self).contains(id),
    {
        self.inner.contains(&id)
    }

    /// `hashbrown::HashSet::iter`: all ids, each once, in an order that is not
    /// fixed.
    #[verifier::external_body]
    pub(crate) fn iter(&self) -> (r: Vec<u32>)
        ensures
            r@.no_duplicates(),
            r@.to_set() == ids_in(*self),
    {
        self.inner.iter().copied().collect()
    }
}

impl InterfaceMap {
    /// `hashbrown::HashMap::new`: the map is empty.
    #[verifier::external_body]
    pub(crate) fn new() -> (r: InterfaceMap)
        ensures
            (interfaces_in(r) == Map::<Seq<char>, Set<u32>>::empty()),
    {
        InterfaceMap { inner: HashMap::new() }
    }

    /// `hashbrown::HashMap::entry` with `or_insert_with`: the set with the given
    /// key, which is added and empty if there is none. What becomes of the set
    /// becomes of the map.
    #[verifier::external_body]
    pub(crate) fn entry(&mut self, interface: &'static str) -> (r: &mut IdSet)
        ensures
            ids_in(*r) == if interfaces_in(*old(self)).contains_key(interface@) {
                interfaces_in(*old(self))[interface@]
            } else {
                Set::<u32>::empty()
            },
            interfaces_in(*final(self)) == interfaces_in(*old(self)).insert(interface@, ids_in(*final(r))),
    {
        self.inner.entry(interface).or_insert_with(IdSet::new)
    }

    /// `hashbrown::HashMap::get`: the set with the given key, if there is one.
    #[verifier::external_body]
    pub(crate) fn get(&self, interface: &str) -> (r: Option<&IdSet>)
        ensures
            match r {
                Some(ids) => interfaces_in(*self).contains_key(interface@) && ids_in(*ids)
                    == interfaces_in(*self)[interface@],
                None => !interfaces_in(*self).contains_key(interface@),
            },
    {
        self.inner.get(interface)
    }

    /// `hashbrown::HashMap::clear`: the map is empty afterwards.
    #[verifier::external_body]
    pub(crate) fn clear(&mut self)
        ensures
            (interfaces_in(*final(self)) == Map::<Seq<char>, Set<u32>>::empty()),
    {
        self.inner.clear()
    }
}

} // verus!
