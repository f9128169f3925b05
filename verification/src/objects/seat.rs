//! Implements the `wl_seat` interface.
use vstd::prelude::*;
use crate::objects::compositor::SURFACE_NAME;
use crate::objects::input::{EventHandlerAction, KeyboardEventHandler};
use crate::objects::pointer::PointerEventHandler;
use crate::objects::{is_object, remove_object, Error, KEYBOARD_TYPE, POINTER_TYPE, SURFACE_TYPE};
use crate::server::error::ProtocolError;
use crate::server::maps::AnyObject;
use crate::server::store::{agrees, object_added, object_removed, sharing, Store, StoreEvent, CLIENT_MAX_ID};
use crate::shell::{RepeatInfo, SeatEvent};
use crate::text::str_eq;
use crate::types::NewId;

verus! {

/// The interface name of pointers.
pub const POINTER_NAME: &'static str = "wl_pointer";

/// The interface name of keyboards.
pub const KEYBOARD_NAME: &'static str = "wl_keyboard";

/// The error of `wl_seat` for a capability that it does not have.
pub const MISSING_CAPABILITY: u32 = 0;

/// What a seat can have.
#[derive(Clone, Copy, Debug, PartialEq, Eq, Structural)]
pub struct Capabilities {
    pub pointer: bool,
    pub keyboard: bool,
    pub touch: bool,
}

/// One of the things that a seat can have.
#[derive(Clone, Copy, Debug, PartialEq, Eq, Structural)]
pub enum Capability {
    Pointer,
    Keyboard,
    Touch,
}

/// Errors that can occur when handling `wl_seat` requests.
#[derive(Clone, Copy, Debug, PartialEq, Eq, Structural)]
pub enum SeatError {
    /// The seat does not have the capability requested.
    MissingCapability(u32, Capability),
}

impl ProtocolError for SeatError {
    open spec fn spec_wayland_error(&self) -> Option<(u32, u32)> {
        match *self {
            SeatError::MissingCapability(object_id, _) => Some((object_id, MISSING_CAPABILITY)),
        }
    }

    open spec fn spec_fatal(&self) -> bool {
        true
    }

    open spec fn spec_message(&self) -> Seq<char> {
        match *self {
            SeatError::MissingCapability(_, Capability::Pointer) =>
                "Seat does not have the capability Capability(POINTER)"@,
            SeatError::MissingCapability(_, Capability::Keyboard) =>
                "Seat does not have the capability Capability(KEYBOARD)"@,
            SeatError::MissingCapability(_, Capability::Touch) =>
                "Seat does not have the capability Capability(TOUCH)"@,
        }
    }

    fn wayland_error(&self) -> (r: Option<(u32, u32)>) {
        match *self {
            SeatError::MissingCapability(object_id, _) => Some((object_id, MISSING_CAPABILITY)),
        }
    }

    fn fatal(&self) -> (r: bool) {
        true
    }

    fn message(&self) -> (r: String) {
        match *self {
            SeatError::MissingCapability(_, Capability::Pointer) =>
                "Seat does not have the capability Capability(POINTER)".to_owned(),
            SeatError::MissingCapability(_, Capability::Keyboard) =>
                "Seat does not have the capability Capability(KEYBOARD)".to_owned(),
            SeatError::MissingCapability(_, Capability::Touch) =>
                "Seat does not have the capability Capability(TOUCH)".to_owned(),
        }
    }
}

/// The object for a pointer. `state` is what the state that all pointers share is
/// found by.
pub open spec fn spec_pointer_object(id: u32, state: u64) -> AnyObject {
    AnyObject { handle: id as u64, type_id: POINTER_TYPE, interface: POINTER_NAME, state: Some(state) }
}

/// The object for a keyboard. `state` is what the state that all keyboards share is
/// found by.
pub open spec fn spec_keyboard_object(id: u32, state: u64) -> AnyObject {
    AnyObject { handle: id as u64, type_id: KEYBOARD_TYPE, interface: KEYBOARD_NAME, state: Some(state) }
}

/// What has to be set up for the first pointer or keyboard of a client.
pub struct Setup<H> {
    /// There are surfaces whose events have to be listened to. Otherwise
    /// [`NewSurfaceHandler`] will see to it when the first one is created.
    pub subscribe: bool,
    /// What handles the events.
    pub handler: H,
}

/// Implementation of the `wl_pointer` interface.
#[derive(Clone, Copy, Debug, PartialEq, Eq, Structural)]
pub struct Pointer;

/// Implementation of the `wl_keyboard` interface.
#[derive(Clone, Copy, Debug, PartialEq, Eq, Structural)]
pub struct Keyboard;

/// Implements the `wl_seat` interface.
#[derive(Clone, Copy, Debug, PartialEq, Eq, Structural)]
pub struct Seat;

/// A message for a keyboard object about its configuration.
#[derive(Clone, Copy, Debug, PartialEq, Eq, Structural)]
pub enum ConfigMessage {
    /// The keymap of the seat.
    Keymap,
    RepeatInfo(RepeatInfo),
}

impl Seat {
    /// Answers a `get_pointer` request. `state` is what the state that all pointers
    /// share is found by, if this is the first one. Then what it takes to listen to
    /// pointer events is returned.
    pub fn get_pointer(
        objects: &mut Store,
        capabilities: Capabilities,
        object_id: u32,
        id: NewId,
        state: u64,
    ) -> (r: Result<Option<Setup<PointerEventHandler>>, Error>)
        requires
            old(objects).wf(),
            agrees(old(objects).objects(), spec_pointer_object(id.0, state)),
        ensures
            final(objects).wf(),
            r is Err ==> *final(objects) == *old(objects),
            if !capabilities.pointer {
                r matches Err(e) && e.keeps(SeatError::MissingCapability(object_id, Capability::Pointer))
            } else if id.0 <= CLIENT_MAX_ID && !old(objects).objects().contains_key(id.0) {
                &&& object_added(*old(objects), *final(objects), id.0, spec_pointer_object(id.0, state))
                &&& r matches Ok(setup) && match setup {
                    Some(setup) => {
                        &&& !old(objects).states().contains_key(POINTER_TYPE)
                        &&& setup.handler.focus is None
                        &&& setup.subscribe == old(objects).states().contains_key(SURFACE_TYPE)
                    },
                    None => old(objects).states().contains_key(POINTER_TYPE),
                }
            } else {
                r matches Err(e) && e == Error::spec_id_exists(id.0)
            },
    {
        if !capabilities.pointer {
            return Err(Error::custom(&SeatError::MissingCapability(object_id, Capability::Pointer)));
        }
        let subscribe = objects.get_state(SURFACE_TYPE).is_some();
        let first = objects.get_state(POINTER_TYPE).is_none();
        let object = AnyObject {
            handle: id.0 as u64,
            type_id: POINTER_TYPE,
            interface: POINTER_NAME,
            state: Some(state),
        };
        if !objects.try_insert_with(id.0, object) {
            return Err(Error::id_exists(id.0));
        }
        if first {
            Ok(Some(Setup { subscribe, handler: PointerEventHandler { focus: None } }))
        } else {
            Ok(None)
        }
    }

    /// Answers a `get_keyboard` request. `state` is what the state that all
    /// keyboards share is found by, if this is the first one. Then what it takes to
    /// listen to keyboard events is returned. Before that, the object is sent the
    /// returned messages.
    pub fn get_keyboard(
        objects: &mut Store,
        capabilities: Capabilities,
        repeat_info: RepeatInfo,
        object_id: u32,
        id: NewId,
        state: u64,
    ) -> (r: Result<(Vec<ConfigMessage>, Option<Setup<KeyboardEventHandler>>), Error>)
        requires
            old(objects).wf(),
            agrees(old(objects).objects(), spec_keyboard_object(id.0, state)),
        ensures
            final(objects).wf(),
            r is Err ==> *final(objects) == *old(objects),
            if !capabilities.keyboard {
                r matches Err(e) && e.keeps(SeatError::MissingCapability(object_id, Capability::Keyboard))
            } else if id.0 <= CLIENT_MAX_ID && !old(objects).objects().contains_key(id.0) {
                &&& object_added(*old(objects), *final(objects), id.0, spec_keyboard_object(id.0, state))
                &&& r matches Ok((messages, setup)) && {
                    &&& messages@ == seq![ConfigMessage::Keymap, ConfigMessage::RepeatInfo(repeat_info)]
                    &&& match setup {
                        Some(setup) => {
                            &&& !old(objects).states().contains_key(KEYBOARD_TYPE)
                            &&& setup.handler.focus is None
                            &&& setup.subscribe == old(objects).states().contains_key(SURFACE_TYPE)
                        },
                        None => old(objects).states().contains_key(KEYBOARD_TYPE),
                    }
                }
            } else {
                r matches Err(e) && e == Error::spec_id_exists(id.0)
            },
    {
        if !capabilities.keyboard {
            return Err(Error::custom(&SeatError::MissingCapability(object_id, Capability::Keyboard)));
        }
        let subscribe = objects.get_state(SURFACE_TYPE).is_some();
        let first = objects.get_state(KEYBOARD_TYPE).is_none();
        let object = AnyObject {
            handle: id.0 as u64,
            type_id: KEYBOARD_TYPE,
            interface: KEYBOARD_NAME,
            state: Some(state),
        };
        if !objects.try_insert_with(id.0, object) {
            return Err(Error::id_exists(id.0));
        }
        let mut messages: Vec<ConfigMessage> = Vec::new();
        messages.push(ConfigMessage::Keymap);
        messages.push(ConfigMessage::RepeatInfo(repeat_info));
        proof {
            assert(messages@ =~= seq![ConfigMessage::Keymap, ConfigMessage::RepeatInfo(repeat_info)]);
        }
        if first {
            Ok((messages, Some(Setup { subscribe, handler: KeyboardEventHandler { focus: None } })))
        } else {
            Ok((messages, None))
        }
    }

    /// Answers a `get_touch` request. Touch support is not implemented.
    pub fn get_touch(capabilities: Capabilities, object_id: u32) -> (r: Error)
        ensures
            if capabilities.touch {
                r == Error::NotImplemented("wl_seat.get_touch")
            } else {
                r.keeps(SeatError::MissingCapability(object_id, Capability::Touch))
            },
    {
        if !capabilities.touch {
            return Error::custom(&SeatError::MissingCapability(object_id, Capability::Touch));
        }
        Error::NotImplemented("wl_seat.get_touch")
    }

    /// Answers a `release` request.
    pub fn release(objects: &mut Store, object_id: u32)
        requires
            old(objects).wf(),
            old(objects).objects().contains_key(object_id),
        ensures
            final(objects).wf(),
            object_removed(*old(objects), *final(objects), object_id),
    {
        remove_object(objects, object_id);
    }
}

impl Pointer {
    /// Answers a `release` request. Returns whether this was the last pointer of the
    /// client. What the pointers share is then dropped, see [`crate::objects::states::PointerState::finish`].
    pub fn release(objects: &mut Store, object_id: u32) -> (r: bool)
        requires
            old(objects).wf(),
            is_object(old(objects).objects(), object_id, POINTER_TYPE),
        ensures
            final(objects).wf(),
            object_removed(*old(objects), *final(objects), object_id),
            r == !final(objects).states().contains_key(POINTER_TYPE),
            r == (sharing(final(objects).objects(), POINTER_TYPE).len() == 0),
    {
        remove_object(objects, object_id);
        objects.get_state(POINTER_TYPE).is_none()
    }
}

impl Keyboard {
    /// Answers a `release` request. Returns whether this was the last keyboard of the
    /// client. What the keyboards share is then dropped, see [`crate::objects::states::KeyboardState::finish`].
    pub fn release(objects: &mut Store, object_id: u32) -> (r: bool)
        requires
            old(objects).wf(),
            is_object(old(objects).objects(), object_id, KEYBOARD_TYPE),
        ensures
            final(objects).wf(),
            object_removed(*old(objects), *final(objects), object_id),
            r == !final(objects).states().contains_key(KEYBOARD_TYPE),
            r == (sharing(final(objects).objects(), KEYBOARD_TYPE).len() == 0),
    {
        remove_object(objects, object_id);
        objects.get_state(KEYBOARD_TYPE).is_none()
    }
}

/// Sees to it that the events of surfaces are listened to once there are surfaces.
#[derive(Clone, Copy, Debug, PartialEq, Eq, Structural)]
pub struct NewSurfaceHandler {
    /// The type of the objects that the events are for.
    pub receiver: u64,
}

/// The interface and the id of the object that a change of the objects adds, if it adds
/// one.
pub open spec fn added(event: StoreEvent) -> Option<(&'static str, u32)> {
    match event {
        StoreEvent::Inserted { interface, object_id } => Some((interface, object_id)),
        StoreEvent::Replaced { new_interface, object_id, .. } => Some((new_interface, object_id)),
        StoreEvent::Removed { .. } => None,
    }
}

impl NewSurfaceHandler {
    /// Handles a change of the objects. `surface_count` is the number of surfaces
    /// that the client has. Returns whether the events of surfaces have to be
    /// listened to now, and whether there is a receiver left.
    pub fn handle_event(&self, objects: &Store, event: StoreEvent, surface_count: usize) -> (r: (bool, EventHandlerAction))
        requires
            objects.wf(),
        ensures
            r.1 == if objects.states().contains_key(self.receiver) {
                EventHandlerAction::Keep
            } else {
                EventHandlerAction::Stop
            },
            r.0 == (objects.states().contains_key(self.receiver) && surface_count == 1 && (match added(event) {
                Some((interface, object_id)) => interface@ == SURFACE_NAME@ && is_object(
                    objects.objects(),
                    object_id,
                    SURFACE_TYPE,
                ),
                None => false,
            })),
    {
        if objects.get_state(self.receiver).is_none() {
            return (false, EventHandlerAction::Stop);
        }
        let (interface, object_id) = match event {
            StoreEvent::Inserted { interface, object_id } => (interface, object_id),
            StoreEvent::Replaced { new_interface, object_id, .. } => (new_interface, object_id),
            StoreEvent::Removed { .. } => return (false, EventHandlerAction::Keep),
        };
        // Check what's been inserted is indeed a surface object. If this is the first
        // one, listeners have to be set up.
        let subscribe = str_eq(interface, SURFACE_NAME) && objects.get(object_id, SURFACE_TYPE).is_ok()
            && surface_count == 1;
        (subscribe, EventHandlerAction::Keep)
    }
}

/// Tells keyboards about changes of their configuration.
#[derive(Clone, Copy, Debug, PartialEq, Eq, Structural)]
pub struct KeyboardConfigHandler;

impl KeyboardConfigHandler {
    /// The object is a keyboard.
    pub open spec fn is_keyboard(objects: &Store, id: u32) -> bool {
        is_object(objects.objects(), id, KEYBOARD_TYPE) && objects.objects()[id].interface@ == KEYBOARD_NAME@
    }

    /// Handles a change of the seat. Returns what to send, and to which objects:
    /// all keyboards of the client. Once there are none left, there is nothing to
    /// listen for.
    pub fn handle_event(&self, objects: &Store, event: SeatEvent, repeat_info: RepeatInfo) -> (r: (
        Option<ConfigMessage>,
        Vec<u32>,
        EventHandlerAction,
    ))
        requires
            objects.wf(),
        ensures
            r.1@.no_duplicates(),
            forall|id: u32|
                r.1@.contains(id) <==> #[trigger] objects.objects().contains_key(id)
                    && KeyboardConfigHandler::is_keyboard(objects, id),
            r.2 == if r.1@.len() == 0 {
                EventHandlerAction::Stop
            } else {
                EventHandlerAction::Keep
            },
            r.0 == match event {
                SeatEvent::KeymapChanged if r.1@.len() > 0 => Some(ConfigMessage::Keymap),
                SeatEvent::RepeatInfoChanged if r.1@.len() > 0 => Some(ConfigMessage::RepeatInfo(repeat_info)),
                _ => None,
            },
    {
        let ids = objects.by_type(KEYBOARD_NAME, KEYBOARD_TYPE);
        if ids.len() == 0 {
            // No keyboard objects left, stop listening for seat events.
            return (None, ids, EventHandlerAction::Stop);
        }
        let message = match event {
            SeatEvent::KeymapChanged => Some(ConfigMessage::Keymap),
            SeatEvent::RepeatInfoChanged => Some(ConfigMessage::RepeatInfo(repeat_info)),
            SeatEvent::CapabilitiesChanged => None,
            SeatEvent::NameChanged => None,
        };
        (message, ids, EventHandlerAction::Keep)
    }
}

} // verus!
