//! The globals of a server.
use std::rc::Rc;
use vstd::prelude::*;
use crate::server::serial::{after, skipped, IdAlloc, Serial};
use crate::text::str_eq;

verus! {

/// A global.
#[derive(Clone, Copy, Debug)]
pub struct Global {
    /// By what the owner of the global finds it.
    pub handle: u64,
    pub interface: &'static str,
    pub version: u32,
}

/// What happened to the globals.
#[derive(Debug)]
pub enum GlobalsUpdate {
    /// A global was added.
    Added(u32, Rc<Global>),
    /// A global was removed.
    Removed(u32),
}

/// The globals of a server, by name. Listeners are told when globals are added or
/// removed.
pub struct GlobalStore {
    globals: IdAlloc<Rc<Global>>,
    /// What was not yet told to those who listen.
    updates: Vec<GlobalsUpdate>,
}

impl GlobalStore {
    /// The globals, by name.
    pub closed spec fn view(&self) -> Map<u32, Rc<Global>> {
        self.globals.in_use()
    }

    /// What was not yet told to those who listen.
    pub closed spec fn pending(&self) -> Seq<GlobalsUpdate> {
        self.updates@
    }

    /// The name that is tried first for the next global.
    pub closed spec fn upcoming(&self) -> u32 {
        self.globals.upcoming()
    }

    pub closed spec fn wf(&self) -> bool {
        self.globals.wf()
    }

    pub fn new() -> (r: GlobalStore)
        ensures
            r.wf(),
            (r.view() == Map::<u32, Rc<Global>>::empty()),
            r.pending() == Seq::<GlobalsUpdate>::empty(),
            r.upcoming() == 1,
    {
        GlobalStore { globals: IdAlloc::new(), updates: Vec::new() }
    }

    /// The globals of a new server, which are named by their position, counted from
    /// 1. Nobody is told.
    pub fn from_globals(globals: &Vec<Global>) -> (r: GlobalStore)
        requires
            globals@.len() < u32::MAX,
        ensures
            r.wf(),
            r.pending() == Seq::<GlobalsUpdate>::empty(),
            r.upcoming() == globals@.len() + 1,
            forall|name: u32| #[trigger] r.view().contains_key(name) <==> 1 <= name <= globals@.len(),
            forall|name: u32| 1 <= name <= globals@.len() ==> *(#[trigger] r.view()[name]) == globals@[name - 1],
    {
        let mut store = GlobalStore::new();
        let mut i: usize = 0;
        while i < globals.len()
            invariant
                0 <= i <= globals@.len() < u32::MAX,
                store.wf(),
                store.pending() == Seq::<GlobalsUpdate>::empty(),
                store.upcoming() == i + 1,
                store.view().dom().finite(),
                store.view().dom().len() == i,
                forall|name: u32| #[trigger] store.view().contains_key(name) <==> 1 <= name <= i,
                forall|name: u32| 1 <= name <= i ==> *(#[trigger] store.view()[name]) == globals@[name - 1],
            decreases globals@.len() - i,
        {
            let ghost before = store.view();
            let name = store.globals.next_serial(Rc::new(globals[i]));
            proof {
                // The first name that is tried is not in use.
                let first = (i + 1) as u32;
                assert(!before.contains_key(first));
                if name != first {
                    assert(skipped(first, name, first));
                }
                assert(name == i + 1);
            }
            i = i + 1;
        }
        store
    }

    /// How many globals there are.
    pub fn len(&self) -> (r: usize)
        ensures
            r == self.view().dom().len(),
    {
        self.globals.len()
    }

    /// Add a global to the store, return its allocated name.
    pub fn insert(&mut self, global: Global) -> (r: u32)
        requires
            old(self).wf(),
            old(self).view().dom().len() < u32::MAX,
        ensures
            final(self).wf(),
            r != 0,
            !old(self).view().contains_key(r),
            forall|other: u32| skipped(old(self).upcoming(), r, other) ==> old(self).view().contains_key(other),
            final(self).view() == old(self).view().insert(r, Rc::new(global)),
            final(self).upcoming() == after(r),
            final(self).pending() == old(self).pending().push(GlobalsUpdate::Added(r, Rc::new(global))),
    {
        let global = Rc::new(global);
        let id: u32 = self.globals.next_serial(global.clone());
        self.updates.push(GlobalsUpdate::Added(id, global));
        id
    }

    /// Get the global with the given name.
    pub fn get(&self, id: u32) -> (r: Option<&Rc<Global>>)
        ensures
            match r {
                Some(global) => self.view().contains_key(id) && *global == self.view()[id],
                None => !self.view().contains_key(id),
            },
    {
        self.globals.get(id)
    }

    /// Remove the global with the given name. Returns if there was one.
    pub fn remove(&mut self, id: u32) -> (r: bool)
        requires
            old(self).wf(),
        ensures
            final(self).wf(),
            r == old(self).view().contains_key(id),
            final(self).view() == old(self).view().remove(id),
            final(self).upcoming() == old(self).upcoming(),
            final(self).pending() == if r {
                old(self).pending().push(GlobalsUpdate::Removed(id))
            } else {
                old(self).pending()
            },
    {
        let removed = self.globals.expire(id);
        if removed {
            self.updates.push(GlobalsUpdate::Removed(id));
        }
        removed
    }

    /// Hands out the updates since the last call, the oldest first.
    pub fn take_updates(&mut self) -> (r: Vec<GlobalsUpdate>)
        requires
            old(self).wf(),
        ensures
            r@ == old(self).pending(),
            final(self).wf(),
            final(self).pending() == Seq::<GlobalsUpdate>::empty(),
            final(self).view() == old(self).view(),
            final(self).upcoming() == old(self).upcoming(),
    {
        let mut updates: Vec<GlobalsUpdate> = Vec::new();
        updates.append(&mut self.updates);
        updates
    }

    /// The names of all globals, each once, in an order that is not fixed.
    pub fn names(&self) -> (r: Vec<u32>)
        ensures
            r@.no_duplicates(),
            forall|name: u32| r@.contains(name) <==> #[trigger] self.view().contains_key(name),
    {
        self.globals.serials()
    }

    /// A global with the given interface, if there is one.
    pub fn find(&self, interface: &str) -> (r: Option<(u32, Global)>)
        ensures
            match r {
                Some((name, global)) => self.view().contains_key(name) && *self.view()[name] == global
                    && global.interface@ == interface@,
                None => forall|name: u32| #[trigger]
                    self.view().contains_key(name) ==> self.view()[name].interface@ != interface@,
            },
    {
        let names = self.names();
        let mut i: usize = 0;
        while i < names.len()
            invariant
                0 <= i <= names@.len(),
                forall|name: u32| names@.contains(name) <==> #[trigger] self.view().contains_key(name),
                forall|j: int|
                    0 <= j < i ==> self.view()[#[trigger] names@[j]].interface@ != interface@,
            decreases names@.len() - i,
        {
            let name: u32 = names[i];
            proof {
                assert(names@.contains(name));
            }
            let global = self.get(name).unwrap();
            if str_eq(global.interface, interface) {
                return Some((name, **global));
            }
            i = i + 1;
        }
        proof {
            assert forall|name: u32| #[trigger] self.view().contains_key(name) implies self.view()[name].interface@
                != interface@ by {
                assert(names@.contains(name));
                let j = choose|j: int| 0 <= j < names@.len() && names@[j] == name;
            }
        }
        None
    }
}

/// A global that was added is found under its name, and once it is removed again
/// the globals are as before.
pub proof fn global_life(before: Map<u32, Rc<Global>>, added: Map<u32, Rc<Global>>, name: u32, global: Rc<Global>)
    requires
        !before.contains_key(name),
        added == before.insert(name, global),
    ensures
        added[name] == global,
        added.remove(name) == before,
{
    assert(added.remove(name) =~= before);
}

} // verus!
