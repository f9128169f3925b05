//! The objects that every client has: the display, registries and callbacks.
use std::rc::Rc;
use vstd::prelude::*;
use crate::objects::input::EventHandlerAction;
use crate::server::error::Error;
use crate::server::globals::{Global, GlobalStore, GlobalsUpdate};
use crate::server::maps::AnyObject;
use crate::server::store::{agrees, object_added, object_removed, Store, CLIENT_MAX_ID};

verus! {

/// The object id of the wl_display object.
pub const DISPLAY_ID: u32 = 1;

/// The interface name of the registry.
pub const REGISTRY_NAME: &'static str = "wl_registry";

/// The interface name of the display.
pub const DISPLAY_NAME: &'static str = "wl_display";

/// The interface name of callbacks.
pub const CALLBACK_NAME: &'static str = "wl_callback";

/// An event for an object of a client.
#[derive(Clone, Copy, Debug)]
pub enum CoreEvent {
    /// `wl_callback.done`.
    Done { callback: u32, callback_data: u32 },
    /// `wl_display.delete_id`.
    DeleteId { id: u32 },
    /// `wl_registry.global`.
    Global { registry: u32, name: u32, interface: &'static str, version: u32 },
    /// `wl_registry.global_remove`.
    GlobalRemove { registry: u32, name: u32 },
}

/// Default wl_display implementation.
#[derive(Clone, Copy, Debug, PartialEq, Eq, Structural)]
pub struct Display {
    pub initialized: bool,
}

impl Display {
    /// Answers a `sync` request: the callback is done at once. It is never inserted
    /// into the store, so its id is deleted right away.
    pub fn sync(&self, objects: &Store, callback: u32) -> (r: Result<Vec<CoreEvent>, Error>)
        requires
            self.initialized,
        ensures
            if objects.objects().contains_key(callback) {
                r == Err::<Vec<CoreEvent>, Error>(Error::IdExists(callback))
            } else {
                r matches Ok(events) && events@ == seq![
                    CoreEvent::Done { callback, callback_data: 0 },
                    CoreEvent::DeleteId { id: callback },
                ]
            },
    {
        if objects.contains(callback) {
            return Err(Error::IdExists(callback));
        }
        let mut events: Vec<CoreEvent> = Vec::new();
        events.push(CoreEvent::Done { callback, callback_data: 0 });
        events.push(CoreEvent::DeleteId { id: callback });
        proof {
            assert(events@ =~= seq![
                CoreEvent::Done { callback, callback_data: 0 },
                CoreEvent::DeleteId { id: callback },
            ]);
        }
        Ok(events)
    }

    /// Answers a `get_registry` request: inserts a registry object, which is a
    /// proxy of the registry global. Returns the global, which is then bound.
    pub fn get_registry(&self, objects: &mut Store, globals: &GlobalStore, registry: u32, proxy: AnyObject) -> (r: Result<
        Global,
        Error,
    >)
        requires
            self.initialized,
            old(objects).wf(),
            agrees(old(objects).objects(), proxy),
            exists|name: u32| #[trigger]
                globals.view().contains_key(name) && globals.view()[name].interface@ == REGISTRY_NAME@,
        ensures
            final(objects).wf(),
            if registry <= CLIENT_MAX_ID && !old(objects).objects().contains_key(registry) {
                &&& r matches Ok(global) && global.interface@ == REGISTRY_NAME@ && exists|name: u32| #[trigger]
                    globals.view().contains_key(name) && *globals.view()[name] == global
                &&& object_added(*old(objects), *final(objects), registry, proxy)
            } else {
                &&& r == Err::<Global, Error>(Error::IdExists(registry))
                &&& *final(objects) == *old(objects)
            },
    {
        let (_, global) = globals.find(REGISTRY_NAME).unwrap();
        if objects.try_insert_with(registry, proxy) {
            Ok(global)
        } else {
            Err(Error::IdExists(registry))
        }
    }
}

/// Default wl_registry implementation.
#[derive(Clone, Copy, Debug, PartialEq, Eq, Structural)]
pub struct Registry {
    /// The object id of the registry.
    pub registry_id: u32,
}

/// The event that announces a global.
pub open spec fn announcement(registry: u32, name: u32, global: Global) -> CoreEvent {
    CoreEvent::Global { registry, name, interface: global.interface, version: global.version }
}

/// The event announces one of the globals.
pub open spec fn announces(globals: Map<u32, Rc<Global>>, registry: u32, event: CoreEvent) -> bool {
    exists|name: u32| #[trigger] globals.contains_key(name) && event == announcement(registry, name, *globals[name])
}

impl Registry {
    /// Answers a `bind` request: inserts a proxy of the global with the given name.
    /// `proxy` is the proxy to insert if there is such a global. Returns the global,
    /// which is then bound.
    pub fn bind(&self, objects: &mut Store, globals: &GlobalStore, name: u32, id: u32, proxy: AnyObject) -> (r: Result<
        Global,
        Error,
    >)
        requires
            old(objects).wf(),
            agrees(old(objects).objects(), proxy),
        ensures
            final(objects).wf(),
            if !globals.view().contains_key(name) {
                r == Err::<Global, Error>(Error::UnknownGlobal(name)) && *final(objects) == *old(objects)
            } else if id <= CLIENT_MAX_ID && !old(objects).objects().contains_key(id) {
                &&& r == Ok::<Global, Error>(*globals.view()[name])
                &&& object_added(*old(objects), *final(objects), id, proxy)
            } else {
                r == Err::<Global, Error>(Error::IdExists(id)) && *final(objects) == *old(objects)
            },
    {
        match globals.get(name) {
            Some(global) => if objects.try_insert_with(id, proxy) {
                Ok(**global)
            } else {
                Err(Error::IdExists(id))
            },
            None => Err(Error::UnknownGlobal(name)),
        }
    }

    /// What a new registry tells its client: all globals, each once, in an order
    /// that is not fixed.
    pub fn announce(&self, globals: &GlobalStore) -> (r: Vec<CoreEvent>)
        ensures
            r@.len() == globals.view().dom().len(),
            forall|i: int| 0 <= i < r@.len() ==> announces(globals.view(), self.registry_id, #[trigger] r@[i]),
            forall|name: u32| #[trigger]
                globals.view().contains_key(name) ==> r@.contains(
                    announcement(self.registry_id, name, *globals.view()[name]),
                ),
    {
        let names = globals.names();
        let mut events: Vec<CoreEvent> = Vec::new();
        let mut i: usize = 0;
        while i < names.len()
            invariant
                0 <= i <= names@.len(),
                forall|name: u32| names@.contains(name) <==> #[trigger] globals.view().contains_key(name),
                events@.len() == i,
                forall|j: int|
                    0 <= j < i ==> globals.view().contains_key(names@[j]) && #[trigger] events@[j] == announcement(
                        self.registry_id,
                        names@[j],
                        *globals.view()[names@[j]],
                    ),
            decreases names@.len() - i,
        {
            let name: u32 = names[i];
            proof {
                assert(names@.contains(name));
            }
            let global = globals.get(name).unwrap();
            events.push(
                CoreEvent::Global {
                    registry: self.registry_id,
                    name,
                    interface: global.interface,
                    version: global.version,
                },
            );
            i = i + 1;
        }
        proof {
            assert forall|j: int| 0 <= j < events@.len() implies announces(
                globals.view(),
                self.registry_id,
                #[trigger] events@[j],
            ) by {
                assert(globals.view().contains_key(names@[j]));
            }
            names@.unique_seq_to_set();
            assert(names@.to_set() =~= globals.view().dom()) by {
                assert forall|name: u32| names@.to_set().contains(name) == globals.view().dom().contains(name) by {
                    assert(names@.contains(name) <==> globals.view().contains_key(name));
                }
            }
            assert forall|name: u32| #[trigger] globals.view().contains_key(name) implies events@.contains(
                announcement(self.registry_id, name, *globals.view()[name]),
            ) by {
                assert(names@.contains(name));
                let j = choose|j: int| 0 <= j < names@.len() && names@[j] == name;
                assert(events@[j] == announcement(self.registry_id, name, *globals.view()[name]));
            }
        }
        events
    }

    /// What a registry tells its client of an update. A client cannot drop the
    /// registry object, so this goes on for ever.
    pub fn handle_event(&self, update: &GlobalsUpdate) -> (r: (CoreEvent, EventHandlerAction))
        ensures
            r.1 == EventHandlerAction::Keep,
            match *update {
                GlobalsUpdate::Removed(name) => r.0 == (CoreEvent::GlobalRemove { registry: self.registry_id, name }),
                GlobalsUpdate::Added(name, global) => r.0 == announcement(self.registry_id, name, *global),
            },
    {
        let event = match update {
            GlobalsUpdate::Removed(name) => CoreEvent::GlobalRemove { registry: self.registry_id, name: *name },
            GlobalsUpdate::Added(name, global) => CoreEvent::Global {
                registry: self.registry_id,
                name: *name,
                interface: global.interface,
                version: global.version,
            },
        };
        (event, EventHandlerAction::Keep)
    }
}

/// A callback of a client.
#[derive(Clone, Copy, Debug, PartialEq, Eq, Structural)]
pub struct Callback {
    pub fired: bool,
}

/// What firing a callback needs next.
#[derive(Clone, Copy, Debug)]
pub enum FireStep {
    /// The connection has to be ready first.
    Wait,
    /// The event has to be sent, and the connection has to be ready again.
    Send(CoreEvent),
    /// The callback is done, and removed.
    Done,
}

impl Callback {
    pub fn new() -> (r: Callback)
        ensures
            !r.fired,
    {
        Callback { fired: false }
    }

    /// Fire the callback and remove it from object store: one step, with the
    /// connection ready or not.
    pub fn poll_fire(&mut self, object_id: u32, data: u32, ready: bool, objects: &mut Store) -> (r: FireStep)
        requires
            old(objects).wf(),
            old(objects).objects().contains_key(object_id),
        ensures
            final(objects).wf(),
            !ready ==> r == FireStep::Wait && *final(self) == *old(self) && *final(objects) == *old(objects),
            ready && !old(self).fired ==> {
                &&& r == FireStep::Send(CoreEvent::Done { callback: object_id, callback_data: data })
                &&& final(self).fired
                &&& *final(objects) == *old(objects)
            },
            ready && old(self).fired ==> {
                &&& r == FireStep::Done
                &&& *final(self) == *old(self)
                &&& object_removed(*old(objects), *final(objects), object_id)
            },
    {
        if !ready {
            return FireStep::Wait;
        }
        if !self.fired {
            self.fired = true;
            return FireStep::Send(CoreEvent::Done { callback: object_id, callback_data: data });
        }
        objects.remove(object_id);
        FireStep::Done
    }

    /// Fire the callback: the event to send. What came of sending it is told to
    /// [`Callback::finish_fire`].
    pub fn fire(object_id: u32, data: u32, objects: &Store) -> (r: CoreEvent)
        requires
            objects.objects().contains_key(object_id),
        ensures
            r == (CoreEvent::Done { callback: object_id, callback_data: data }),
    {
        CoreEvent::Done { callback: object_id, callback_data: data }
    }

    /// Removes the callback from the store once its event was sent.
    pub fn finish_fire(object_id: u32, sent: bool, objects: &mut Store)
        requires
            old(objects).wf(),
            old(objects).objects().contains_key(object_id),
        ensures
            final(objects).wf(),
            sent ==> object_removed(*old(objects), *final(objects), object_id),
            !sent ==> *final(objects) == *old(objects),
    {
        if sent {
            objects.remove(object_id);
        }
    }
}

} // verus!
