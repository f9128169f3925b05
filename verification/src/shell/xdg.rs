//! The roles of the xdg shell.
use std::collections::VecDeque;
use vstd::prelude::*;
use crate::shell::geometry::{Extent, Rectangle};

verus! {

/// The xdg_surface "role".
///
/// This is not technically a role, since the surface can be assigned either a
/// top-level or a popup role after this "role" is attached to it.
#[derive(Debug)]
pub struct Surface {
    pub active: bool,
    pub geometry: Option<Rectangle>,
    pub pending_geometry: Option<Rectangle>,
    /// Configure events that haven't been ACK'd, the oldest first.
    pub pending_serial: VecDeque<u32>,
    /// The serial in the last ack_configure request.
    pub last_ack: Option<u32>,
    /// The serial that the next configure event carries. It is never 0.
    pub serial: u32,
    pub object_id: u32,
}

/// The sizes that a client can set on a top-level.
#[derive(Clone, Copy, Debug, PartialEq, Eq, Structural)]
pub struct TopLevelState {
    pub min_size: Option<Extent>,
    pub max_size: Option<Extent>,
}

/// The xdg_toplevel role.
#[derive(Debug)]
pub struct TopLevel {
    pub base: Surface,
    pub is_active: bool,
    pub app_id: Option<String>,
    pub title: Option<String>,
    pub current: TopLevelState,
    pub pending: TopLevelState,
    pub object_id: u32,
}

/// The xdg_popup role.
#[derive(Clone, Copy, Debug, PartialEq, Eq, Structural)]
pub struct Popup;

/// What a client is told when it attaches a buffer too early.
pub const EARLY_BUFFER: &'static str =
    "Cannot attach buffer before the initial configure sequence is completed";

impl Default for TopLevelState {
    fn default() -> (r: TopLevelState)
        ensures
            r == (TopLevelState { min_size: None, max_size: None }),
    {
        TopLevelState { min_size: None, max_size: None }
    }
}

impl Surface {
    /// A buffer cannot be attached before a configure event was acknowledged.
    pub open spec fn refuses(self, has_buffer: bool) -> bool {
        has_buffer && self.last_ack is None
    }

    /// No configure event has been sent yet.
    pub open spec fn unconfigured(self) -> bool {
        self.pending_serial@.len() == 0 && self.last_ack is None
    }

    /// The surface is new: no configure event was sent for it.
    pub open spec fn is_fresh(self, object_id: u32) -> bool {
        &&& !self.active
        &&& self.geometry is None
        &&& self.pending_geometry is None
        &&& self.pending_serial@ == Seq::<u32>::empty()
        &&& self.last_ack is None
        &&& self.serial == 1
        &&& self.object_id == object_id
    }

    pub fn new(object_id: u32) -> (r: Surface)
        ensures
            r.is_fresh(object_id),
    {
        Surface {
            active: false,
            geometry: None,
            pending_geometry: None,
            pending_serial: VecDeque::new(),
            last_ack: None,
            serial: 1,
            object_id,
        }
    }

    /// Applies the pending geometry. Returns whether the layout has to be
    /// announced, which starts the initial configure sequence.
    pub fn commit(&mut self, has_buffer: bool) -> (r: Result<bool, &'static str>)
        ensures
            old(self).refuses(has_buffer) ==> r == Err::<bool, &'static str>(EARLY_BUFFER) && *final(self) == *old(self),
            !old(self).refuses(has_buffer) ==> {
                &&& r == Ok::<bool, &'static str>(old(self).unconfigured())
                &&& *final(self) == (Surface { geometry: old(self).pending_geometry, ..*old(self) })
            },
    {
        if has_buffer && self.last_ack.is_none() {
            return Err(EARLY_BUFFER);
        }
        let notify = self.pending_serial.len() == 0 && self.last_ack.is_none();
        self.geometry = self.pending_geometry;
        Ok(notify)
    }
}

impl TopLevel {
    /// The top-level is new: nothing was set on it.
    pub open spec fn is_fresh(self, base: Surface, object_id: u32) -> bool {
        &&& self.base == base
        &&& self.is_active
        &&& self.app_id is None
        &&& self.title is None
        &&& self.current == (TopLevelState { min_size: None, max_size: None })
        &&& self.pending == (TopLevelState { min_size: None, max_size: None })
        &&& self.object_id == object_id
    }

    pub fn new(base: Surface, object_id: u32) -> (r: TopLevel)
        ensures
            r.is_fresh(base, object_id),
    {
        TopLevel {
            base,
            is_active: true,
            app_id: None,
            title: None,
            current: TopLevelState { min_size: None, max_size: None },
            pending: TopLevelState { min_size: None, max_size: None },
            object_id,
        }
    }

    /// Geometry of the surface, as defined by the xdg_toplevel role.
    pub fn geometry(&self) -> (r: Option<Rectangle>)
        ensures
            r == self.base.geometry,
    {
        self.base.geometry
    }

    /// Called before the pending state of the surface becomes the current one.
    /// The pending sizes are applied even where the commit is refused.
    pub fn pre_commit(&mut self, has_buffer: bool) -> (r: Result<bool, &'static str>)
        ensures
            old(self).base.refuses(has_buffer) ==> {
                &&& r == Err::<bool, &'static str>(EARLY_BUFFER)
                &&& *final(self) == (TopLevel { current: old(self).pending, ..*old(self) })
            },
            !old(self).base.refuses(has_buffer) ==> {
                &&& r == Ok::<bool, &'static str>(old(self).base.unconfigured())
                &&& *final(self) == (TopLevel {
                    current: old(self).pending,
                    base: Surface { geometry: old(self).base.pending_geometry, ..old(self).base },
                    ..*old(self)
                })
            },
    {
        self.current = self.pending;
        self.base.commit(has_buffer)
    }
}

} // verus!
