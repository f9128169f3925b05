//! The objects of a client.
use vstd::prelude::*;
use crate::server::maps::{interfaces_in, objects_in, states_in, AnyObject, InterfaceMap, ObjectMap, StateMap};

verus! {

/// The largest id that a client can choose. Larger ones are chosen by the server.
pub const CLIENT_MAX_ID: u32 = 0xfeff_ffff;

/// What happened to a store.
#[derive(Clone, Copy, Debug)]
pub enum StoreEvent {
    Inserted { interface: &'static str, object_id: u32 },
    Removed { interface: &'static str, object_id: u32 },
    /// An object took the place of another one, under the same id.
    Replaced { old_interface: &'static str, new_interface: &'static str, object_id: u32 },
}

/// Why an object cannot be had.
#[derive(Clone, Copy, Debug, PartialEq, Eq, Structural)]
pub enum GetError {
    /// The id is not found.
    IdNotFound(u32),
    /// The object is not of the requested type.
    TypeMismatch(u32),
}

/// The objects of a client, by id.
pub struct Store {
    map: ObjectMap,
    singleton_states: StateMap,
    by_interface: InterfaceMap,
    /// Next id to use for server side object allocation.
    next_id: u32,
    /// Number of server side ids left.
    ids_left: u32,
    /// What was not yet told to those who listen.
    events: Vec<StoreEvent>,
}

/// The ids of objects that share the state of a type.
pub open spec fn sharing(objects: Map<u32, AnyObject>, type_id: u64) -> Set<u32> {
    objects.dom().filter(|id: u32| objects[id].type_id == type_id && objects[id].state is Some)
}

/// The ids that were chosen by the server.
pub open spec fn server_ids(objects: Map<u32, AnyObject>) -> Set<u32> {
    objects.dom().filter(|id: u32| id > CLIENT_MAX_ID)
}

/// The ids of objects with the given interface.
pub open spec fn with_interface(objects: Map<u32, AnyObject>, interface: Seq<char>) -> Set<u32> {
    objects.dom().filter(|id: u32| objects[id].interface@ == interface)
}

/// The object agrees with others of its type on whether the type has a state.
pub open spec fn agrees(objects: Map<u32, AnyObject>, object: AnyObject) -> bool {
    forall|id: u32| #[trigger]
        objects.contains_key(id) && objects[id].type_id == object.type_id ==> (objects[id].state is Some
            <==> object.state is Some)
}

/// Going up from `from`, and from the largest id to the smallest that the server
/// can choose, one comes by `id` before `to`.
pub open spec fn passed(from: u32, to: u32, id: u32) -> bool {
    if from <= to {
        from <= id < to
    } else {
        id >= from || CLIENT_MAX_ID < id < to
    }
}

/// There is a state exactly for the types that have one and of which there are
/// objects, with their number.
pub open spec fn states_counted(objects: Map<u32, AnyObject>, states: Map<u64, (u64, u64)>) -> bool {
    &&& forall|t: u64| #[trigger] states.contains_key(t) <==> sharing(objects, t).len() > 0
    &&& forall|t: u64| #[trigger] states.contains_key(t) ==> states[t].1 == sharing(objects, t).len()
}

/// The ids that are recorded under an interface.
pub open spec fn recorded(map: Map<Seq<char>, Set<u32>>, interface: Seq<char>) -> Set<u32> {
    if map.contains_key(interface) {
        map[interface]
    } else {
        Set::empty()
    }
}

/// Each object is recorded under its interface.
pub open spec fn all_recorded(objects: Map<u32, AnyObject>, map: Map<Seq<char>, Set<u32>>) -> bool {
    forall|interface: Seq<char>| #[trigger] recorded(map, interface) == with_interface(objects, interface)
}

/// `after` is `before` with one more object, whose id was chosen by the client.
/// That it was inserted is still to be told.
pub open spec fn object_added(before: Store, after: Store, id: u32, object: AnyObject) -> bool {
    &&& after.objects() == before.objects().insert(id, object)
    &&& after.states() == Store::states_with(before.states(), object)
    &&& after.pending() == before.pending().push(
        StoreEvent::Inserted { interface: object.interface, object_id: id },
    )
    &&& after.left() == before.left()
    &&& after.next() == before.next()
}

/// Every id that the server can choose is in use.
pub open spec fn server_ids_used_up(store: Store) -> bool {
    forall|id: u32| id > CLIENT_MAX_ID ==> #[trigger] store.objects().contains_key(id)
}

/// `after` is `before` with one more object, whose id was chosen by the server: it is
/// the first one that is not in use, going up from the one behind the last that was
/// chosen. That it was inserted is still to be told.
pub open spec fn object_allocated(before: Store, after: Store, id: u32, object: AnyObject) -> bool {
    &&& id > CLIENT_MAX_ID
    &&& !before.objects().contains_key(id)
    &&& forall|other: u32| passed(before.next(), id, other) ==> before.objects().contains_key(other)
    &&& after.objects() == before.objects().insert(id, object)
    &&& after.states() == Store::states_with(before.states(), object)
    &&& after.pending() == before.pending().push(
        StoreEvent::Inserted { interface: object.interface, object_id: id },
    )
    &&& after.left() == before.left() - 1
    &&& after.next() == if id == u32::MAX {
        (CLIENT_MAX_ID + 1) as u32
    } else {
        (id + 1) as u32
    }
}

/// `after` is `before` without one object. That it was removed is still to be
/// told. A server side id can be used again.
pub open spec fn object_removed(before: Store, after: Store, id: u32) -> bool {
    &&& after.objects() == before.objects().remove(id)
    &&& after.states() == Store::states_without(before.states(), before.objects()[id])
    &&& after.pending() == before.pending().push(
        StoreEvent::Removed { interface: before.objects()[id].interface, object_id: id },
    )
    &&& after.left() == if id > CLIENT_MAX_ID {
        before.left() + 1
    } else {
        before.left() as int
    }
    &&& after.next() == before.next()
}

/// `after` is `before` without the given objects, which were removed one by one,
/// the first one first.
pub open spec fn removed_in_turn(before: Store, after: Store, ids: Seq<u32>) -> bool
    decreases ids.len(),
{
    if ids.len() == 0 {
        after == before
    } else {
        exists|mid: Store|
            removed_in_turn(before, mid, ids.drop_last()) && #[trigger] object_removed(mid, after, ids.last())
    }
}

/// One more object is removed after the others.
pub proof fn lemma_removed_next(before: Store, mid: Store, after: Store, ids: Seq<u32>, id: u32)
    requires
        removed_in_turn(before, mid, ids),
        object_removed(mid, after, id),
    ensures
        removed_in_turn(before, after, ids.push(id)),
{
    assert(ids.push(id).drop_last() =~= ids);
    assert(object_removed(mid, after, ids.push(id).last()));
}

impl Store {
    /// The objects, by id.
    pub closed spec fn objects(&self) -> Map<u32, AnyObject> {
        objects_in(self.map)
    }

    /// For each type with a state, by what the state is found and how many objects
    /// share it.
    pub closed spec fn states(&self) -> Map<u64, (u64, u64)> {
        states_in(self.singleton_states)
    }

    /// The events that were not yet told to those who listen.
    pub closed spec fn pending(&self) -> Seq<StoreEvent> {
        self.events@
    }

    /// Number of server side ids left.
    pub closed spec fn left(&self) -> u32 {
        self.ids_left
    }

    /// The id that is tried first for the next server side object.
    pub closed spec fn next(&self) -> u32 {
        self.next_id
    }

    closed spec fn interfaces(&self) -> Map<Seq<char>, Set<u32>> {
        interfaces_in(self.by_interface)
    }

    /// What holds of every store: there is a state exactly for the types that have
    /// one and of which there are objects, with their number, each object is
    /// recorded under its interface, and the server side ids are counted.
    pub closed spec fn wf(&self) -> bool {
        &&& self.objects().dom().finite()
        &&& forall|id: u32| #[trigger] self.objects().contains_key(id) ==> agrees(self.objects(), self.objects()[id])
        &&& states_counted(self.objects(), self.states())
        &&& all_recorded(self.objects(), self.interfaces())
        &&& self.next_id > CLIENT_MAX_ID
        &&& self.ids_left + server_ids(self.objects()).len() == u32::MAX - CLIENT_MAX_ID
    }

    /// An empty store.
    pub fn new() -> (r: Store)
        ensures
            r.wf(),
            (r.objects() == Map::<u32, AnyObject>::empty()),
            (r.states() == Map::<u64, (u64, u64)>::empty()),
            r.pending() == Seq::<StoreEvent>::empty(),
            r.left() == u32::MAX - CLIENT_MAX_ID,
            r.next() == CLIENT_MAX_ID + 1,
    {
        let r = Store {
            map: ObjectMap::new(),
            singleton_states: StateMap::new(),
            by_interface: InterfaceMap::new(),
            next_id: 0xff00_0000,
            ids_left: 0x0100_0000,
            events: Vec::new(),
        };
        proof {
            lemma_empty_store(r);
        }
        r
    }

    /// Hands out the events that happened since the last call, the oldest first.
    pub fn take_events(&mut self) -> (r: Vec<StoreEvent>)
        requires
            old(self).wf(),
        ensures
            r@ == old(self).pending(),
            final(self).wf(),
            final(self).pending() == Seq::<StoreEvent>::empty(),
            final(self).objects() == old(self).objects(),
            final(self).states() == old(self).states(),
            final(self).left() == old(self).left(),
            final(self).next() == old(self).next(),
    {
        let mut events: Vec<StoreEvent> = Vec::new();
        events.append(&mut self.events);
        events
    }

    /// The states after an object was added: the first object of a type brings its
    /// state, later ones share it.
    pub open spec fn states_with(states: Map<u64, (u64, u64)>, object: AnyObject) -> Map<u64, (u64, u64)> {
        match object.state {
            None => states,
            Some(state) => if states.contains_key(object.type_id) {
                states.insert(
                    object.type_id,
                    (states[object.type_id].0, (states[object.type_id].1 + 1) as u64),
                )
            } else {
                states.insert(object.type_id, (state, 1))
            },
        }
    }

    /// The states after an object was taken out: the last object of a type takes
    /// the state along.
    pub open spec fn states_without(states: Map<u64, (u64, u64)>, object: AnyObject) -> Map<u64, (u64, u64)> {
        if states.contains_key(object.type_id) {
            if states[object.type_id].1 == 1 {
                states.remove(object.type_id)
            } else {
                states.insert(
                    object.type_id,
                    (states[object.type_id].0, (states[object.type_id].1 - 1) as u64),
                )
            }
        } else {
            states
        }
    }

    /// Adds an object under an id that is not in use. Does not count server side
    /// ids.
    fn insert_new(&mut self, id: u32, object: AnyObject)
        requires
            old(self).objects().dom().finite(),
            !old(self).objects().contains_key(id),
            states_counted(old(self).objects(), old(self).states()),
            all_recorded(old(self).objects(), old(self).interfaces()),
        ensures
            final(self).objects() == old(self).objects().insert(id, object),
            final(self).states() == Store::states_with(old(self).states(), object),
            final(self).pending() == old(self).pending().push(
                StoreEvent::Inserted { interface: object.interface, object_id: id },
            ),
            final(self).left() == old(self).left(),
            final(self).next() == old(self).next(),
            states_counted(final(self).objects(), final(self).states()),
            all_recorded(final(self).objects(), final(self).interfaces()),
    {
        let ghost before = self.objects();
        let ghost states0 = self.states();
        proof {
            assert forall|t: u64| #[trigger] sharing(before, t).len() <= 0x1_0000_0000 by {
                lemma_u32_set_len(sharing(before, t));
            }
        }
        if let Some(state) = object.state {
            let (kept, count) = match self.singleton_states.get(object.type_id) {
                Some(entry) => entry,
                None => (state, 0),
            };
            proof {
                assert(sharing(before, object.type_id).len() <= 0x1_0000_0000);
            }
            self.singleton_states.insert(object.type_id, (kept, count + 1));
        }
        self.map.insert(id, object);
        self.by_interface.entry(object.interface).insert(id);
        self.events.push(StoreEvent::Inserted { interface: object.interface, object_id: id });
        proof {
            let after = self.objects();
            assert forall|t: u64| #[trigger] sharing(after, t) == if t == object.type_id && object.state is Some {
                sharing(before, t).insert(id)
            } else {
                sharing(before, t)
            } by {
                if t == object.type_id && object.state is Some {
                    assert(sharing(after, t) =~= sharing(before, t).insert(id));
                } else {
                    assert(sharing(after, t) =~= sharing(before, t));
                }
            }
            assert forall|t: u64| #[trigger] sharing(before, t).finite() by {}
            assert forall|interface: Seq<char>| #[trigger] recorded(self.interfaces(), interface) == with_interface(
                after,
                interface,
            ) by {
                assert(recorded(old(self).interfaces(), interface) == with_interface(before, interface));
                if interface == object.interface@ {
                    assert(with_interface(after, interface) =~= with_interface(before, interface).insert(id));
                } else {
                    assert(with_interface(after, interface) =~= with_interface(before, interface));
                }
            }
            assert forall|t: u64| #[trigger] self.states().contains_key(t) <==> sharing(after, t).len() > 0 by {
                assert(states0.contains_key(t) <==> sharing(before, t).len() > 0);
                assert(sharing(before, t).finite());
            }
            assert forall|t: u64| #[trigger] self.states().contains_key(t) implies self.states()[t].1 == sharing(
                after,
                t,
            ).len() by {
                assert(states0.contains_key(t) <==> sharing(before, t).len() > 0);
                assert(sharing(before, t).finite());
                assert(!sharing(before, t).contains(id));
            }
            assert(self.states() =~= Store::states_with(states0, object));
        }
    }

    /// Adds an object under an id that a client chose. Returns false if a client
    /// cannot choose the id or if it is in use.
    pub fn try_insert_with(&mut self, id: u32, object: AnyObject) -> (r: bool)
        requires
            old(self).wf(),
            agrees(old(self).objects(), object),
        ensures
            final(self).wf(),
            r == (id <= CLIENT_MAX_ID && !old(self).objects().contains_key(id)),
            !r ==> *final(self) == *old(self),
            r ==> object_added(*old(self), *final(self), id, object),
    {
        if id > CLIENT_MAX_ID {
            return false;
        }
        if self.contains(id) {
            return false;
        }
        let ghost before = self.objects();
        self.insert_new(id, object);
        proof {
            let after = self.objects();
            assert(server_ids(after) =~= server_ids(before));
            lemma_agrees_insert(before, after, id, object);
        }
        true
    }

    /// Insert object into the store with the given id. Returns Ok(()) if
    /// successful, Err(object) if the id is already in use, or is not one that a
    /// client can choose.
    pub fn insert(&mut self, object_id: u32, object: AnyObject) -> (r: Result<(), AnyObject>)
        requires
            old(self).wf(),
            agrees(old(self).objects(), object),
        ensures
            final(self).wf(),
            r == if object_id <= CLIENT_MAX_ID && !old(self).objects().contains_key(object_id) {
                Ok::<(), AnyObject>(())
            } else {
                Err::<(), AnyObject>(object)
            },
            r is Err ==> *final(self) == *old(self),
            r is Ok ==> object_added(*old(self), *final(self), object_id, object),
    {
        if self.try_insert_with(object_id, object) {
            Ok(())
        } else {
            Err(object)
        }
    }

    /// Allocate a new id for the client, associate `object` for it. In the
    /// wayland protocol, the id must start from 0xff000000. The ids are gone
    /// through in order, from the one behind the last that was chosen. Fails if
    /// there is none left.
    pub fn allocate(&mut self, object: AnyObject) -> (r: Result<u32, AnyObject>)
        requires
            old(self).wf(),
            agrees(old(self).objects(), object),
        ensures
            final(self).wf(),
            r is Err == server_ids_used_up(*old(self)),
            r is Err == (old(self).left() == 0),
            match r {
                Ok(id) => object_allocated(*old(self), *final(self), id, object),
                Err(back) => back == object && *final(self) == *old(self),
            },
    {
        proof {
            ids_run_out(*self);
        }
        if self.ids_left == 0 {
            // Store full.
            return Err(object);
        }
        let ghost before = self.objects();
        let start: u32 = self.next_id;
        let mut current: u32 = start;
        let ghost free = lemma_free_id(before);
        // Find the next unused id.
        while self.contains(current)
            invariant
                *self == *old(self),
                before == self.objects(),
                start == self.next_id,
                start > CLIENT_MAX_ID,
                current > CLIENT_MAX_ID,
                free > CLIENT_MAX_ID,
                !before.contains_key(free),
                forall|other: u32| passed(start, current, other) ==> before.contains_key(other),
                passed(start, free, current) || current == free,
            decreases distance(current, free),
        {
            if current == u32::MAX {
                current = CLIENT_MAX_ID + 1;
            } else {
                current = current + 1;
            }
        }
        self.next_id = if current == u32::MAX {
            CLIENT_MAX_ID + 1
        } else {
            current + 1
        };
        self.ids_left = self.ids_left - 1;
        self.insert_new(current, object);
        proof {
            let after = self.objects();
            assert(server_ids(after) =~= server_ids(before).insert(current));
            lemma_agrees_insert(before, after, current, object);
        }
        Ok(current)
    }

    /// Takes an object out of the store. A server side id can be used again.
    pub fn remove(&mut self, id: u32) -> (r: Option<AnyObject>)
        requires
            old(self).wf(),
        ensures
            final(self).wf(),
            r == if old(self).objects().contains_key(id) {
                Some(old(self).objects()[id])
            } else {
                None
            },
            r is None ==> *final(self) == *old(self),
            r is Some ==> object_removed(*old(self), *final(self), id),
    {
        let ghost before = self.objects();
        let ghost states0 = self.states();
        let object = match self.map.get(id) {
            Some(object) => object,
            None => {
                return None;
            },
        };
        self.map.remove(id);
        if let Some((state, count)) = self.singleton_states.get(object.type_id) {
            proof {
                assert(states0.contains_key(object.type_id));
                assert(sharing(before, object.type_id).len() > 0);
            }
            if count == 1 {
                self.singleton_states.remove(object.type_id);
            } else {
                self.singleton_states.insert(object.type_id, (state, count - 1));
            }
        }
        self.by_interface.entry(object.interface).remove(id);
        self.events.push(StoreEvent::Removed { interface: object.interface, object_id: id });
        proof {
            let after = self.objects();
            if id > CLIENT_MAX_ID {
                assert(server_ids(before).contains(id));
                assert(server_ids(after) =~= server_ids(before).remove(id));
            } else {
                assert(server_ids(after) =~= server_ids(before));
            }
        }
        if id > CLIENT_MAX_ID {
            self.ids_left = self.ids_left + 1;
        }
        proof {
            lemma_removed(*old(self), *self, id);
        }
        Some(object)
    }

    /// There is an object with this id.
    pub fn contains(&self, id: u32) -> (r: bool)
        ensures
            r == self.objects().contains_key(id),
    {
        self.map.get(id).is_some()
    }

    /// The object with the given id, of whatever type it is.
    pub fn object(&self, id: u32) -> (r: Option<AnyObject>)
        ensures
            r == if self.objects().contains_key(id) {
                Some(self.objects()[id])
            } else {
                None
            },
    {
        self.map.get(id)
    }

    /// The object with the given id, which must be of the given type.
    pub fn get(&self, id: u32, type_id: u64) -> (r: Result<AnyObject, GetError>)
        ensures
            r == if !self.objects().contains_key(id) {
                Err::<AnyObject, GetError>(GetError::IdNotFound(id))
            } else if self.objects()[id].type_id != type_id {
                Err::<AnyObject, GetError>(GetError::TypeMismatch(id))
            } else {
                Ok::<AnyObject, GetError>(self.objects()[id])
            },
    {
        match self.map.get(id) {
            None => Err(GetError::IdNotFound(id)),
            Some(object) => if object.type_id == type_id {
                Ok(object)
            } else {
                Err(GetError::TypeMismatch(id))
            },
        }
    }

    /// Returns the singleton state associated with an object type. Returns None if
    /// no object of that type is in the store, or if the object type does not have
    /// a singleton state.
    pub fn get_state(&self, type_id: u64) -> (r: Option<u64>)
        requires
            self.wf(),
        ensures
            r is Some == (sharing(self.objects(), type_id).len() > 0),
            r == if self.states().contains_key(type_id) {
                Some(self.states()[type_id].0)
            } else {
                None
            },
    {
        proof {
            assert(self.states().contains_key(type_id) <==> sharing(self.objects(), type_id).len() > 0);
        }
        match self.singleton_states.get(type_id) {
            Some((state, _)) => Some(state),
            None => None,
        }
    }

    /// The object with the given id, which must be of the given type, and the
    /// state of the type.
    pub fn get_with_state(&self, id: u32, type_id: u64) -> (r: Result<(AnyObject, Option<u64>), GetError>)
        requires
            self.wf(),
        ensures
            match r {
                Err(e) => e == if !self.objects().contains_key(id) {
                    GetError::IdNotFound(id)
                } else {
                    GetError::TypeMismatch(id)
                },
                Ok((object, state)) => {
                    &&& object == self.objects()[id]
                    &&& state is Some == object.state is Some
                    &&& state == if self.states().contains_key(type_id) {
                        Some(self.states()[type_id].0)
                    } else {
                        None
                    }
                },
            },
            r is Ok == (self.objects().contains_key(id) && self.objects()[id].type_id == type_id),
    {
        match self.get(id, type_id) {
            Err(e) => Err(e),
            Ok(object) => {
                proof {
                    let shared = sharing(self.objects(), type_id);
                    if object.state is Some {
                        assert(shared.contains(id));
                        assert(shared.len() > 0);
                    } else {
                        assert(agrees(self.objects(), object));
                        assert(shared =~= Set::empty());
                    }
                }
                Ok((object, self.get_state(type_id)))
            },
        }
    }

    /// All objects with an interface, each once, in an order that is not fixed.
    pub fn by_interface(&self, interface: &str) -> (r: Vec<(u32, AnyObject)>)
        requires
            self.wf(),
        ensures
            forall|i: int|
                0 <= i < r@.len() ==> self.objects().contains_key((#[trigger] r@[i]).0) && r@[i].1
                    == self.objects()[r@[i].0] && r@[i].1.interface@ == interface@,
            forall|i: int, j: int| 0 <= i < j < r@.len() ==> r@[i].0 != r@[j].0,
            forall|id: u32| #[trigger]
                self.objects().contains_key(id) && self.objects()[id].interface@ == interface@ ==> exists|i: int|
                    0 <= i < r@.len() && r@[i].0 == id,
    {
        let mut list: Vec<(u32, AnyObject)> = Vec::new();
        proof {
            assert(recorded(self.interfaces(), interface@) == with_interface(self.objects(), interface@));
        }
        if let Some(set) = self.by_interface.get(interface) {
            let ids = set.iter();
            let mut i: usize = 0;
            while i < ids.len()
                invariant
                    0 <= i <= ids@.len(),
                    ids@.no_duplicates(),
                    ids@.to_set() == with_interface(self.objects(), interface@),
                    list@.len() == i,
                    forall|j: int|
                        0 <= j < i ==> (#[trigger] list@[j]).0 == ids@[j] && self.objects().contains_key(list@[j].0)
                            && list@[j].1 == self.objects()[list@[j].0] && list@[j].1.interface@ == interface@,
                decreases ids@.len() - i,
            {
                let id: u32 = ids[i];
                proof {
                    assert(ids@.to_set().contains(id));
                }
                list.push((id, self.map.get(id).unwrap()));
                i = i + 1;
            }
            proof {
                assert forall|id: u32| #[trigger]
                    self.objects().contains_key(id) && self.objects()[id].interface@ == interface@ implies exists|i: int|
                    0 <= i < list@.len() && list@[i].0 == id by {
                    assert(with_interface(self.objects(), interface@).contains(id));
                    assert(ids@.contains(id));
                    let k = choose|k: int| 0 <= k < ids@.len() && ids@[k] == id;
                    assert(list@[k].0 == id);
                }
            }
        } else {
            proof {
                assert forall|id: u32| #[trigger] self.objects().contains_key(id) && self.objects()[id].interface@
                    == interface@ implies false by {
                    assert(with_interface(self.objects(), interface@).contains(id));
                }
            }
        }
        list
    }

    /// All objects of a type, each once, in an order that is not fixed. The type
    /// implements the given interface.
    pub fn by_type(&self, interface: &str, type_id: u64) -> (r: Vec<u32>)
        requires
            self.wf(),
        ensures
            r@.no_duplicates(),
            forall|id: u32|
                r@.contains(id) <==> #[trigger] self.objects().contains_key(id) && self.objects()[id].interface@
                    == interface@ && self.objects()[id].type_id == type_id,
    {
        let list = self.by_interface(interface);
        let mut ids: Vec<u32> = Vec::new();
        let mut i: usize = 0;
        while i < list.len()
            invariant
                0 <= i <= list@.len(),
                forall|i: int|
                    0 <= i < list@.len() ==> self.objects().contains_key((#[trigger] list@[i]).0) && list@[i].1
                        == self.objects()[list@[i].0] && list@[i].1.interface@ == interface@,
                forall|i: int, j: int| 0 <= i < j < list@.len() ==> list@[i].0 != list@[j].0,
                ids@.no_duplicates(),
                forall|id: u32| #[trigger]
                    ids@.contains(id) <==> exists|j: int|
                        0 <= j < i && (#[trigger] list@[j]).0 == id && list@[j].1.type_id == type_id,
            decreases list@.len() - i,
        {
            let (id, object) = list[i];
            let ghost before = ids@;
            if object.type_id == type_id {
                proof {
                    assert(!ids@.contains(id));
                }
                ids.push(id);
                proof {
                    assert(ids@.last() == id);
                    assert forall|x: u32| #[trigger] ids@.contains(x) == (before.contains(x) || x == id) by {
                        if before.contains(x) {
                            let k = choose|k: int| 0 <= k < before.len() && before[k] == x;
                            assert(ids@[k] == x);
                        }
                        if ids@.contains(x) && x != id {
                            let k = choose|k: int| 0 <= k < ids@.len() && ids@[k] == x;
                            assert(before[k] == x);
                        }
                    }
                }
            }
            i = i + 1;
        }
        proof {
            assert forall|id: u32|
                ids@.contains(id) <==> #[trigger] self.objects().contains_key(id) && self.objects()[id].interface@
                    == interface@ && self.objects()[id].type_id == type_id by {
                if self.objects().contains_key(id) && self.objects()[id].interface@ == interface@ {
                    let k = choose|k: int| 0 <= k < list@.len() && list@[k].0 == id;
                    assert(list@[k].1 == self.objects()[id]);
                }
            }
        }
        ids
    }

    /// Remove all objects from the store. Each object is handed out with the state
    /// of its type, so that it can be told of the disconnection.
    pub fn clear_for_disconnect(&mut self) -> (r: Vec<(u32, AnyObject, Option<u64>)>)
        requires
            old(self).wf(),
        ensures
            final(self).wf(),
            (final(self).objects() == Map::<u32, AnyObject>::empty()),
            (final(self).states() == Map::<u64, (u64, u64)>::empty()),
            final(self).left() == u32::MAX - CLIENT_MAX_ID,
            final(self).next() == CLIENT_MAX_ID + 1,
            final(self).pending() == old(self).pending(),
            forall|i: int| #![trigger r@[i]]
                0 <= i < r@.len() ==> {
                    &&& old(self).objects().contains_key(r@[i].0)
                    &&& r@[i].1 == old(self).objects()[r@[i].0]
                    &&& r@[i].2 == if old(self).states().contains_key(r@[i].1.type_id) {
                        Some(old(self).states()[r@[i].1.type_id].0)
                    } else {
                        None
                    }
                },
            forall|i: int, j: int| 0 <= i < j < r@.len() ==> r@[i].0 != r@[j].0,
            forall|id: u32| #[trigger]
                old(self).objects().contains_key(id) ==> exists|i: int| 0 <= i < r@.len() && r@[i].0 == id,
    {
        let drained = self.map.drain();
        let mut list: Vec<(u32, AnyObject, Option<u64>)> = Vec::new();
        let ghost states0 = old(self).states();
        let mut i: usize = 0;
        while i < drained.len()
            invariant
                0 <= i <= drained@.len(),
                states0 == states_in(self.singleton_states),
                list@.len() == i,
                self.events == old(self).events,
                forall|j: int| #![trigger list@[j]]
                    0 <= j < i ==> {
                        &&& list@[j].0 == drained@[j].0
                        &&& list@[j].1 == drained@[j].1
                        &&& list@[j].2 == if states0.contains_key(drained@[j].1.type_id) {
                            Some(states0[drained@[j].1.type_id].0)
                        } else {
                            None
                        }
                    },
            decreases drained@.len() - i,
        {
            let (id, object) = drained[i];
            let state = match self.singleton_states.get(object.type_id) {
                Some((state, _)) => Some(state),
                None => None,
            };
            list.push((id, object, state));
            i = i + 1;
        }
        self.singleton_states.clear();
        self.by_interface.clear();
        self.ids_left = 0x0100_0000;
        self.next_id = 0xff00_0000;
        proof {
            lemma_empty_store(*self);
            assert forall|id: u32| #[trigger] old(self).objects().contains_key(id) implies exists|i: int|
                0 <= i < list@.len() && list@[i].0 == id by {
                let k = choose|k: int| 0 <= k < drained@.len() && drained@[k].0 == id;
                assert(list@[k].0 == id);
            }
        }
        list
    }
}

/// How far it is from one server side id to another, going up.
spec fn distance(from: u32, to: u32) -> int {
    if from <= to {
        to - from
    } else {
        (u32::MAX - from) + 1 + (to - CLIENT_MAX_ID)
    }
}

/// A store without objects is in order.
proof fn lemma_empty_store(store: Store)
    requires
        (store.objects() == Map::<u32, AnyObject>::empty()),
        (store.states() == Map::<u64, (u64, u64)>::empty()),
        (interfaces_in(store.by_interface) == Map::<Seq<char>, Set<u32>>::empty()),
        store.next_id > CLIENT_MAX_ID,
        store.ids_left == u32::MAX - CLIENT_MAX_ID,
    ensures
        store.wf(),
{
    let objects = store.objects();
    assert forall|t: u64| #[trigger] sharing(objects, t) == Set::<u32>::empty() by {
        assert(sharing(objects, t) =~= Set::empty());
    }
    assert forall|interface: Seq<char>| #[trigger] recorded(store.interfaces(), interface) == with_interface(
        objects,
        interface,
    ) by {
        assert(with_interface(objects, interface) =~= Set::empty());
    }
    assert(server_ids(objects) =~= Set::empty());
}

/// A set of `u32` has at most 2^32 elements.
proof fn lemma_u32_set_len(s: Set<u32>)
    requires
        s.finite(),
    ensures
        s.len() <= 0x1_0000_0000,
{
    let ints = s.map(|x: u32| x as int);
    let all = vstd::set_lib::set_int_range(0, 0x1_0000_0000);
    vstd::set_lib::lemma_int_range(0, 0x1_0000_0000);
    assert(vstd::relations::injective(|x: u32| x as int));
    vstd::set_lib::lemma_map_size(s, ints, |x: u32| x as int);
    assert forall|y: int| ints.contains(y) implies all.contains(y) by {}
    vstd::set_lib::lemma_len_subset(ints, all);
}

/// Where not all server side ids are in use, there is one that is not.
proof fn lemma_free_id(objects: Map<u32, AnyObject>) -> (free: u32)
    requires
        objects.dom().finite(),
        server_ids(objects).len() < u32::MAX - CLIENT_MAX_ID,
    ensures
        free > CLIENT_MAX_ID,
        !objects.contains_key(free),
{
    if forall|id: u32| id > CLIENT_MAX_ID ==> objects.contains_key(id) {
        let all = vstd::set_lib::set_int_range(CLIENT_MAX_ID + 1, u32::MAX + 1);
        vstd::set_lib::lemma_int_range(CLIENT_MAX_ID + 1, u32::MAX + 1);
        let used = server_ids(objects);
        let ints = used.map(|x: u32| x as int);
        assert(vstd::relations::injective(|x: u32| x as int));
        vstd::set_lib::lemma_map_size(used, ints, |x: u32| x as int);
        assert forall|y: int| all.contains(y) implies ints.contains(y) by {
            let id = y as u32;
            assert(objects.contains_key(id));
            assert(used.contains(id));
        }
        vstd::set_lib::lemma_len_subset(all, ints);
        assert(false);
    }
    choose|id: u32| id > CLIENT_MAX_ID && !objects.contains_key(id)
}

/// There is no server side id left exactly if all of them are in use.
pub proof fn ids_run_out(store: Store)
    requires
        store.wf(),
    ensures
        store.left() == 0 <==> server_ids_used_up(store),
{
    let used = server_ids(store.objects());
    if store.left() > 0 {
        let free = lemma_free_id(store.objects());
        assert(!store.objects().contains_key(free));
    } else if !server_ids_used_up(store) {
        let free = choose|id: u32| id > CLIENT_MAX_ID && !#[trigger] store.objects().contains_key(id);
        let all = vstd::set_lib::set_int_range(CLIENT_MAX_ID + 1, u32::MAX + 1);
        vstd::set_lib::lemma_int_range(CLIENT_MAX_ID + 1, u32::MAX + 1);
        let ints = used.map(|x: u32| x as int);
        assert(vstd::relations::injective(|x: u32| x as int));
        vstd::set_lib::lemma_map_size(used, ints, |x: u32| x as int);
        assert forall|y: int| ints.contains(y) implies all.remove(free as int).contains(y) by {
            let x = choose|x: u32| used.contains(x) && x as int == y;
            assert(store.objects().contains_key(x));
        }
        vstd::set_lib::lemma_len_subset(ints, all.remove(free as int));
    }
}

/// Where nothing else is done to a store without server side objects, the ids that
/// are chosen for new ones go up by one from the first.
pub proof fn fresh_ids_count_up(stores: Seq<Store>, objects: Seq<AnyObject>, ids: Seq<u32>, n: int)
    requires
        stores.len() == ids.len() + 1,
        objects.len() == ids.len(),
        server_ids(stores[0].objects()) == Set::<u32>::empty(),
        stores[0].next() == CLIENT_MAX_ID + 1,
        forall|i: int|
            #![trigger ids[i]]
            0 <= i < ids.len() ==> object_allocated(stores[i], stores[i + 1], ids[i], objects[i]),
        0 <= n < ids.len(),
        n < u32::MAX - CLIENT_MAX_ID,
    ensures
        ids[n] == CLIENT_MAX_ID + 1 + n,
{
    lemma_fresh_ids(stores, objects, ids, n);
    let first = (CLIENT_MAX_ID + 1 + n) as u32;
    if ids[n] != first {
        assert(passed(first, ids[n], first));
        assert(server_ids(stores[n].objects()).contains(first));
    }
}

/// After some ids were chosen, they are the ones in use, and the next one is tried
/// first.
proof fn lemma_fresh_ids(stores: Seq<Store>, objects: Seq<AnyObject>, ids: Seq<u32>, n: int)
    requires
        stores.len() == ids.len() + 1,
        objects.len() == ids.len(),
        server_ids(stores[0].objects()) == Set::<u32>::empty(),
        stores[0].next() == CLIENT_MAX_ID + 1,
        forall|i: int|
            #![trigger ids[i]]
            0 <= i < ids.len() ==> object_allocated(stores[i], stores[i + 1], ids[i], objects[i]),
        0 <= n <= ids.len(),
        n < u32::MAX - CLIENT_MAX_ID,
    ensures
        stores[n].next() == CLIENT_MAX_ID + 1 + n,
        forall|id: u32|
            #[trigger] server_ids(stores[n].objects()).contains(id) <==> CLIENT_MAX_ID < id <= CLIENT_MAX_ID + n,
    decreases n,
{
    if n > 0 {
        lemma_fresh_ids(stores, objects, ids, n - 1);
        let first = (CLIENT_MAX_ID + n) as u32;
        assert(object_allocated(stores[n - 1], stores[n], ids[n - 1], objects[n - 1]));
        assert(!server_ids(stores[n - 1].objects()).contains(first));
        if ids[n - 1] != first {
            assert(passed(first, ids[n - 1], first));
        }
        assert(ids[n - 1] == first);
        assert forall|id: u32| #[trigger] server_ids(stores[n].objects()).contains(id) <==> CLIENT_MAX_ID < id
            <= CLIENT_MAX_ID + n by {
            assert(server_ids(stores[n].objects()).contains(id) == (server_ids(stores[n - 1].objects()).contains(id)
                || id == first));
        }
    }
}

/// Objects of one type agree after one was added that agrees with them.
proof fn lemma_agrees_insert(before: Map<u32, AnyObject>, after: Map<u32, AnyObject>, id: u32, object: AnyObject)
    requires
        after == before.insert(id, object),
        !before.contains_key(id),
        agrees(before, object),
        forall|i: u32| #[trigger] before.contains_key(i) ==> agrees(before, before[i]),
    ensures
        forall|i: u32| #[trigger] after.contains_key(i) ==> agrees(after, after[i]),
{
    assert forall|i: u32| #[trigger] after.contains_key(i) implies agrees(after, after[i]) by {
        assert forall|j: u32| #[trigger] after.contains_key(j) && after[j].type_id == after[i].type_id implies (
        after[j].state is Some <==> after[i].state is Some) by {
            if i != id && j != id {
                assert(before.contains_key(i) && before.contains_key(j));
                assert(agrees(before, before[i]));
            } else if i == id && j != id {
                assert(before.contains_key(j));
            } else if i != id {
                assert(before.contains_key(i));
            }
        }
    }
}

/// A store is in order after an object was taken out.
proof fn lemma_removed(before: Store, after: Store, id: u32)
    requires
        before.wf(),
        before.objects().contains_key(id),
        after.objects() == before.objects().remove(id),
        after.states() == Store::states_without(before.states(), before.objects()[id]),
        interfaces_in(after.by_interface) == interfaces_in(before.by_interface).insert(
            before.objects()[id].interface@,
            recorded(before.interfaces(), before.objects()[id].interface@).remove(id),
        ),
        after.next_id == before.next_id,
        after.ids_left + server_ids(after.objects()).len() == u32::MAX - CLIENT_MAX_ID,
    ensures
        after.wf(),
{
    let object = before.objects()[id];
    let b = before.objects();
    let a = after.objects();
    assert forall|t: u64| #[trigger] sharing(a, t) == if t == object.type_id && object.state is Some {
        sharing(b, t).remove(id)
    } else {
        sharing(b, t)
    } by {
        if t == object.type_id && object.state is Some {
            assert(sharing(a, t) =~= sharing(b, t).remove(id));
        } else {
            assert(sharing(a, t) =~= sharing(b, t));
        }
    }
    if object.state is Some {
        assert(sharing(b, object.type_id).contains(id));
        assert(sharing(b, object.type_id).len() > 0);
        assert(before.states().contains_key(object.type_id));
    } else {
        assert(agrees(b, object));
        assert(sharing(b, object.type_id) =~= Set::empty());
        assert(!before.states().contains_key(object.type_id));
    }
    assert forall|t: u64| #[trigger] after.states().contains_key(t) <==> sharing(a, t).len() > 0 by {
        assert(before.states().contains_key(t) <==> sharing(b, t).len() > 0);
        assert(sharing(b, t).finite());
    }
    assert forall|t: u64| #[trigger] after.states().contains_key(t) implies after.states()[t].1 == sharing(a, t).len() by {
        assert(before.states().contains_key(t) <==> sharing(b, t).len() > 0);
        assert(sharing(b, t).finite());
    }
    assert forall|interface: Seq<char>| #[trigger] recorded(after.interfaces(), interface) == with_interface(
        a,
        interface,
    ) by {
        assert(recorded(before.interfaces(), interface) == with_interface(b, interface));
        if interface == object.interface@ {
            assert(with_interface(a, interface) =~= with_interface(b, interface).remove(id));
        } else {
            assert(with_interface(a, interface) =~= with_interface(b, interface));
        }
    }
    assert forall|i: u32| #[trigger] a.contains_key(i) implies agrees(a, a[i]) by {
        assert(b.contains_key(i));
        assert(agrees(b, b[i]));
        assert forall|j: u32| #[trigger] a.contains_key(j) && a[j].type_id == a[i].type_id implies (a[j].state is Some
            <==> a[i].state is Some) by {
            assert(b.contains_key(j));
        }
    }
}

} // verus!
