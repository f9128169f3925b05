//! The pointer of a seat.
use vstd::prelude::*;
use crate::objects::input::EventHandlerAction;
use crate::types::Fixed;

verus! {

/// A position of the pointer on a surface.
///
/// A position is a pair of floating point numbers, which are given by their bits.
/// Zero has one pattern of bits, so positions are the same if their bits are. What
/// a client is told are the numbers with a fixed point that come nearest.
#[derive(Clone, Copy, Debug, PartialEq, Eq, Structural)]
pub struct Coords {
    pub x: u32,
    pub y: u32,
    pub fixed_x: Fixed,
    pub fixed_y: Fixed,
}

impl Coords {
    /// Two positions are the same.
    pub open spec fn same(self, other: Coords) -> bool {
        self.x == other.x && self.y == other.y
    }
}

/// Whether a button is down.
#[derive(Clone, Copy, Debug, PartialEq, Eq, Structural)]
pub enum ButtonState {
    Released,
    Pressed,
}

/// A pointer activity.
#[derive(Clone, Copy, Debug, PartialEq, Eq, Structural)]
pub enum PointerActivity {
    /// The pointer moved.
    Motion {
        /// The new position of the pointer.
        coords: Coords,
    },
    /// A button was pressed or released.
    Button {
        /// The button that was pressed or released.
        button: u32,
        /// Pressed or released.
        state: ButtonState,
    },
    /// Surface lost pointer focus.
    Leave,
}

/// A pointer activity on the surface with the given object id.
#[derive(Clone, Copy, Debug, PartialEq, Eq, Structural)]
pub struct PointerEvent {
    pub time: u32,
    pub object_id: u32,
    pub kind: PointerActivity,
}

/// An event for the `wl_pointer` objects of a client.
#[derive(Clone, Copy, Debug, PartialEq, Eq, Structural)]
pub enum PointerMessage {
    Enter { serial: u32, surface: u32, surface_x: Fixed, surface_y: Fixed },
    Leave { serial: u32, surface: u32 },
    Motion { time: u32, surface_x: Fixed, surface_y: Fixed },
    Button { serial: u32, time: u32, button: u32, state: ButtonState },
}

/// Keeps track of the surface that has the pointer focus, and tells the client what
/// changes.
#[derive(Clone, Copy, Debug)]
pub struct PointerEventHandler {
    /// The object id of the focused surface, and where the pointer was last.
    pub focus: Option<(u32, Coords)>,
}

impl PointerEventHandler {
    /// The surface with the given object id has the focus.
    pub open spec fn focused(self, object_id: u32) -> bool {
        self.focus is Some && (self.focus->0).0 == object_id
    }

    /// What is sent in response to an event.
    pub open spec fn response(self, event: PointerEvent) -> Seq<PointerMessage> {
        if self.focused(event.object_id) {
            match event.kind {
                PointerActivity::Motion { coords } => if coords.same((self.focus->0).1) {
                    Seq::empty()
                } else {
                    seq![
                        PointerMessage::Motion {
                            time: event.time,
                            surface_x: coords.fixed_x,
                            surface_y: coords.fixed_y,
                        },
                    ]
                },
                PointerActivity::Button { button, state } => seq![
                    PointerMessage::Button { serial: 0, time: event.time, button, state },
                ],
                PointerActivity::Leave => seq![PointerMessage::Leave { serial: 0, surface: event.object_id }],
            }
        } else {
            (match self.focus {
                Some((id, _)) => seq![PointerMessage::Leave { serial: 0, surface: id }],
                None => Seq::empty(),
            }) + match event.kind {
                PointerActivity::Motion { coords } => seq![
                    PointerMessage::Enter {
                        serial: 0,
                        surface: event.object_id,
                        surface_x: coords.fixed_x,
                        surface_y: coords.fixed_y,
                    },
                ],
                // The first event on a surface has to be a motion, others are
                // ignored.
                _ => Seq::empty(),
            }
        }
    }

    /// The focus after an event.
    pub open spec fn next_focus(self, event: PointerEvent) -> Option<(u32, Coords)> {
        match event.kind {
            PointerActivity::Motion { coords } => if self.focused(event.object_id) && coords.same((self.focus->0).1) {
                self.focus
            } else {
                Some((event.object_id, coords))
            },
            PointerActivity::Button { .. } => if self.focused(event.object_id) {
                self.focus
            } else {
                None
            },
            PointerActivity::Leave => None,
        }
    }

    /// Handles a pointer activity. Returns the messages for the pointer objects of
    /// the client: each of them goes to all pointer objects before the next one
    /// does. The handler is always kept.
    pub fn handle_event(&mut self, event: PointerEvent) -> (r: (Vec<PointerMessage>, EventHandlerAction))
        ensures
            r.0@ == old(self).response(event),
            r.1 == EventHandlerAction::Keep,
            final(self).focus == old(self).next_focus(event),
            // The pointer is where it moved to.
            event.kind matches PointerActivity::Motion { coords } ==> (final(self).focus matches Some((id, at)) && id
                == event.object_id && at.x == coords.x && at.y == coords.y),
            event.kind is Leave ==> final(self).focus is None,
    {
        let mut messages: Vec<PointerMessage> = Vec::new();
        let focused = match self.focus {
            Some((id, _)) => id == event.object_id,
            None => false,
        };
        if !focused {
            // The focus changed.
            if let Some((last, _)) = self.focus {
                messages.push(PointerMessage::Leave { serial: 0, surface: last });
            }
            self.focus = None;
            match event.kind {
                PointerActivity::Motion { coords } => {
                    self.focus = Some((event.object_id, coords));
                    messages.push(
                        PointerMessage::Enter {
                            serial: 0,
                            surface: event.object_id,
                            surface_x: coords.fixed_x,
                            surface_y: coords.fixed_y,
                        },
                    );
                },
                _ => {},
            }
            proof {
                assert(messages@ =~= old(self).response(event));
            }
            return (messages, EventHandlerAction::Keep);
        }
        let (_, last) = self.focus.unwrap();
        match event.kind {
            PointerActivity::Motion { coords } => {
                if coords.x != last.x || coords.y != last.y {
                    messages.push(
                        PointerMessage::Motion {
                            time: event.time,
                            surface_x: coords.fixed_x,
                            surface_y: coords.fixed_y,
                        },
                    );
                    self.focus = Some((event.object_id, coords));
                }
            },
            PointerActivity::Button { button, state } => {
                messages.push(PointerMessage::Button { serial: 0, time: event.time, button, state });
            },
            PointerActivity::Leave => {
                messages.push(PointerMessage::Leave { serial: 0, surface: event.object_id });
                self.focus = None;
            },
        }
        proof {
            assert(messages@ =~= old(self).response(event));
        }
        (messages, EventHandlerAction::Keep)
    }
}

/// A surface that does not have the focus is never told of a motion, of a button or
/// that it was left, and the surface that loses the focus is told so before another
/// one gets it.
pub proof fn pointer_focus_is_bracketed(handler: PointerEventHandler, event: PointerEvent, i: int)
    requires
        0 <= i < handler.response(event).len(),
    ensures
        ({
            let message = handler.response(event)[i];
            &&& message matches PointerMessage::Leave { surface, .. } ==> handler.focused(surface) && i == 0
            &&& message is Motion || message is Button ==> handler.focused(event.object_id)
            &&& message matches PointerMessage::Enter { surface, .. } ==> {
                &&& surface == event.object_id
                &&& !handler.focused(surface)
                &&& handler.focus is Some ==> i == 1 && handler.response(event)[0] == (PointerMessage::Leave {
                    serial: 0,
                    surface: (handler.focus->0).0,
                })
            }
        }),
{
}

/// The message tells that the surface was left.
pub open spec fn leaves(message: PointerMessage, left: u32) -> bool {
    message matches PointerMessage::Leave { surface, .. } && surface == left
}

/// The message tells that the surface was entered.
pub open spec fn enters(message: PointerMessage, entered: u32) -> bool {
    message matches PointerMessage::Enter { surface, .. } && surface == entered
}

/// A surface has the focus after an event exactly if it had it and was not told that
/// it was left, or was told that it was entered.
pub proof fn pointer_focus_is_told(handler: PointerEventHandler, event: PointerEvent, surface: u32)
    ensures
        ({
            let told = handler.response(event);
            let left = exists|i: int| 0 <= i < told.len() && leaves(#[trigger] told[i], surface);
            let entered = exists|i: int| 0 <= i < told.len() && enters(#[trigger] told[i], surface);
            (handler.next_focus(event) matches Some((id, _)) && id == surface) == ((handler.focused(surface) && !left)
                || entered)
        }),
{
    let told = handler.response(event);
    if handler.focus is Some && !handler.focused(event.object_id) {
        assert(told[0] == (PointerMessage::Leave { serial: 0, surface: (handler.focus->0).0 }));
    }
    if told.len() > 0 {
        assert(told[told.len() - 1] == told.last());
    }
}

/// After a motion the pointer is known to be where it moved to, on the surface on which it
/// moved. A surface that has the focus is told of it, once and with the new position, if
/// the position differs from the last one in one coordinate or the other, and of nothing
/// otherwise.
pub proof fn motions_are_told(handler: PointerEventHandler, event: PointerEvent, coords: Coords)
    requires
        event.kind == (PointerActivity::Motion { coords }),
    ensures
        handler.next_focus(event) matches Some((id, at)) && id == event.object_id && at.x == coords.x && at.y == coords.y,
        handler.focused(event.object_id) ==> {
            let told = handler.response(event);
            let last = (handler.focus->0).1;
            if coords.x != last.x || coords.y != last.y {
                &&& told.len() == 1
                &&& told[0] matches PointerMessage::Motion { time, surface_x, surface_y } && time == event.time
                    && surface_x == coords.fixed_x && surface_y == coords.fixed_y
                &&& handler.next_focus(event) == Some((event.object_id, coords))
            } else {
                told.len() == 0 && handler.next_focus(event) == handler.focus
            }
        },
        !handler.focused(event.object_id) ==> {
            let told = handler.response(event);
            &&& told.len() == if handler.focus is Some {
                2int
            } else {
                1int
            }
            &&& told.last() matches PointerMessage::Enter { surface, surface_x, surface_y, .. } && surface
                == event.object_id && surface_x == coords.fixed_x && surface_y == coords.fixed_y
            &&& handler.next_focus(event) == Some((event.object_id, coords))
        },
{
}

/// A surface that has the focus is told of each button once: which button it is, whether
/// it was pressed or released, and when. The focus does not change. Nobody is told of a
/// button on a surface that the pointer was not seen to move on.
pub proof fn buttons_are_told(handler: PointerEventHandler, event: PointerEvent)
    requires
        event.kind is Button,
    ensures
        handler.focused(event.object_id) ==> {
            let told = handler.response(event);
            &&& told.len() == 1
            &&& told[0] matches PointerMessage::Button { time, button, state, .. } && time == event.time && event.kind
                == (PointerActivity::Button { button, state })
            &&& handler.next_focus(event) == handler.focus
        },
        !handler.focused(event.object_id) ==> handler.next_focus(event) is None && forall|i: int|
            0 <= i < handler.response(event).len() ==> (#[trigger] handler.response(event)[i]) is Leave,
{
}

/// What a client has come to know of the pointer: the surface that has the focus, and
/// where on it the pointer is.
pub struct KnownPointer {
    pub at: Option<(u32, Fixed, Fixed)>,
}

impl KnownPointer {
    /// What a client knows once it was told one more thing.
    pub open spec fn told(self, message: PointerMessage) -> KnownPointer {
        match message {
            PointerMessage::Enter { surface, surface_x, surface_y, .. } => KnownPointer {
                at: Some((surface, surface_x, surface_y)),
            },
            PointerMessage::Leave { surface, .. } => match self.at {
                Some((id, _, _)) if id == surface => KnownPointer { at: None },
                _ => self,
            },
            PointerMessage::Motion { surface_x, surface_y, .. } => match self.at {
                Some((id, _, _)) => KnownPointer { at: Some((id, surface_x, surface_y)) },
                None => self,
            },
            PointerMessage::Button { .. } => self,
        }
    }

    /// What a client knows once it was told all of the messages, one after the other.
    pub open spec fn told_all(self, messages: Seq<PointerMessage>) -> KnownPointer
        decreases messages.len(),
    {
        if messages.len() == 0 {
            self
        } else {
            self.told_all(messages.drop_last()).told(messages.last())
        }
    }

    /// The client knows the focus.
    pub open spec fn knows(self, focus: Option<(u32, Coords)>) -> bool {
        self.at == match focus {
            Some((id, coords)) => Some((id, coords.fixed_x, coords.fixed_y)),
            None => None,
        }
    }
}

/// A client that has followed what it was told knows where the pointer is.
pub proof fn pointer_is_known(handler: PointerEventHandler, event: PointerEvent, known: KnownPointer)
    requires
        known.knows(handler.focus),
    ensures
        known.told_all(handler.response(event)).knows(handler.next_focus(event)),
{
    let told = handler.response(event);
    if told.len() == 1 {
        assert(told.drop_last() =~= Seq::empty());
        assert(known.told_all(told.drop_last()) == known);
    } else if told.len() == 2 {
        let first = told.drop_last();
        assert(first.last() == told[0]);
        assert(first.drop_last() =~= Seq::empty());
        assert(known.told_all(first.drop_last()) == known);
        assert(known.told_all(first) == known.told(told[0]));
    }
}

/// Events of pointers carry no serial, which is 0, and the time of the activity.
pub proof fn pointer_messages_carry_no_serial(handler: PointerEventHandler, event: PointerEvent, i: int)
    requires
        0 <= i < handler.response(event).len(),
    ensures
        match handler.response(event)[i] {
            PointerMessage::Enter { serial, .. } => serial == 0,
            PointerMessage::Leave { serial, .. } => serial == 0,
            PointerMessage::Motion { time, .. } => time == event.time,
            PointerMessage::Button { serial, time, .. } => serial == 0 && time == event.time,
        },
{
}

} // verus!
