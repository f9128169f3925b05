//! The roles that a surface can be given.
use dlv_list::Index;
use vstd::prelude::*;
use crate::shell::stack::SurfaceStackEntry;
use crate::shell::xdg;

verus! {

/// The `wl_subsurface` role.
///
/// # Note about cache and pending states
///
/// A surface normally has a pending and a current state. Changes are stored in
/// the pending state first, then applied to the current state when
/// `wl_surface.commit` is called. When a synced child commits, its current
/// state updates, but its parent still references the previous state, until
/// the parent also commits.
///
/// A complication is when a child is destroyed, either by destroying the
/// surface or deactivating its role: it's immediately removed, without going
/// through the pending state. This is seen from the role, which is no longer
/// active.
#[derive(Clone, Copy, Debug)]
pub struct Subsurface {
    pub sync: bool,
    pub inherited_sync: bool,
    pub is_active: bool,
    /// Index of this surface in the `stack` list of its parent. It is stable
    /// across updates of the parent.
    pub stack_index: Index<SurfaceStackEntry>,
    /// The parent surface. None once the role is inactive.
    pub parent: Option<usize>,
}

/// The part of a surface state that belongs to the `wl_subsurface` role.
#[derive(Clone, Copy, Debug, PartialEq, Eq, Structural)]
pub struct SubsurfaceState {
    /// Parent surface *state* of this surface *state*. A surface state is only
    /// considered a parent after it has been committed.
    ///
    /// A surface state can have multiple parents: when a parent commits, its
    /// old state may still be referenced by the grandparent, and both the old
    /// and the new state are then parents of this state. In that case this
    /// field points to the oldest, still valid parent.
    pub parent: Option<u64>,
}

/// A double-buffered state associated with a role.
#[derive(Clone, Copy, Debug, PartialEq, Eq, Structural)]
pub enum RoleState {
    Subsurface(SubsurfaceState),
    /// The state of a role that keeps it elsewhere, under a number.
    Custom(u64),
}

/// A role that is defined elsewhere, and is kept there under a number.
#[derive(Clone, Copy, Debug)]
pub struct CustomRole {
    /// The name of the interface of the role.
    pub name: &'static str,
    pub is_active: bool,
    /// Why the next commit of the surface is stopped, if it is.
    pub refusal: Option<&'static str>,
    /// What the role is found by.
    pub state: u64,
}

/// A surface role.
#[derive(Debug)]
pub enum Role {
    Subsurface(Subsurface),
    XdgSurface(xdg::Surface),
    XdgTopLevel(xdg::TopLevel),
    Custom(CustomRole),
}

/// The interface name of [`Subsurface`].
pub const SUBSURFACE_NAME: &'static str = "wl_subsurface";

/// The interface name of [`xdg::Surface`].
pub const XDG_SURFACE_NAME: &'static str = "xdg_surface";

/// The interface name of [`xdg::TopLevel`].
pub const XDG_TOPLEVEL_NAME: &'static str = "xdg_toplevel";

impl Role {
    pub open spec fn spec_name(self) -> &'static str {
        match self {
            Role::Subsurface(_) => SUBSURFACE_NAME,
            Role::XdgSurface(_) => XDG_SURFACE_NAME,
            Role::XdgTopLevel(_) => XDG_TOPLEVEL_NAME,
            Role::Custom(r) => r.name,
        }
    }

    pub open spec fn active(self) -> bool {
        match self {
            Role::Subsurface(r) => r.is_active,
            Role::XdgSurface(r) => r.active,
            Role::XdgTopLevel(r) => r.is_active,
            Role::Custom(r) => r.is_active,
        }
    }

    /// The name of the interface of this role.
    pub fn name(&self) -> (r: &'static str)
        ensures
            r == self.spec_name(),
    {
        match self {
            Role::Subsurface(_) => SUBSURFACE_NAME,
            Role::XdgSurface(_) => XDG_SURFACE_NAME,
            Role::XdgTopLevel(_) => XDG_TOPLEVEL_NAME,
            Role::Custom(r) => r.name,
        }
    }

    /// Returns true if the role is active.
    ///
    /// As specified by the wayland protocol, a surface can be assigned a role,
    /// then have the role object destroyed. This makes the role "inactive", but
    /// the surface cannot be assigned a different role. So the role object is
    /// kept, but "deactivated".
    pub fn is_active(&self) -> (r: bool)
        ensures
            r == self.active(),
    {
        match self {
            Role::Subsurface(r) => r.is_active,
            Role::XdgSurface(r) => r.active,
            Role::XdgTopLevel(r) => r.is_active,
            Role::Custom(r) => r.is_active,
        }
    }

    /// The role once it is deactivated. A subsurface also loses its parent.
    pub open spec fn deactivated(self) -> Role {
        match self {
            Role::Subsurface(r) => Role::Subsurface(Subsurface { is_active: false, parent: None, ..r }),
            Role::XdgSurface(r) => Role::XdgSurface(xdg::Surface { active: false, ..r }),
            Role::XdgTopLevel(r) => Role::XdgTopLevel(xdg::TopLevel { is_active: false, ..r }),
            Role::Custom(r) => Role::Custom(CustomRole { is_active: false, ..r }),
        }
    }

    /// Marks the role inactive. A subsurface also loses its parent.
    pub fn deactivate(&mut self)
        ensures
            *final(self) == old(self).deactivated(),
    {
        match self {
            Role::Subsurface(r) => {
                r.is_active = false;
                r.parent = None;
            },
            Role::XdgSurface(r) => {
                r.active = false;
            },
            Role::XdgTopLevel(r) => {
                r.is_active = false;
            },
            Role::Custom(r) => {
                r.is_active = false;
            },
        }
    }

    /// Why the role stops a commit of the surface, if it does.
    pub open spec fn refusal(self, has_buffer: bool) -> Option<&'static str> {
        match self {
            Role::XdgTopLevel(r) if r.base.refuses(has_buffer) => Some(xdg::EARLY_BUFFER),
            Role::Custom(r) => r.refusal,
            _ => None,
        }
    }

    /// The role wants the layout of the surface announced when it is committed.
    pub open spec fn announces(self) -> bool {
        match self {
            Role::XdgTopLevel(r) => r.base.unconfigured(),
            _ => false,
        }
    }

    /// The role after [`Role::pre_commit`].
    pub open spec fn prepared(self, has_buffer: bool) -> Role {
        match self {
            Role::XdgTopLevel(r) => Role::XdgTopLevel(
                xdg::TopLevel {
                    current: r.pending,
                    base: if r.base.refuses(has_buffer) {
                        r.base
                    } else {
                        xdg::Surface { geometry: r.base.pending_geometry, ..r.base }
                    },
                    ..r
                },
            ),
            _ => self,
        }
    }

    /// Called before the pending state becomes the current state. If an error
    /// is returned, the commit is stopped. Otherwise returns whether the layout
    /// of the surface has to be announced.
    pub fn pre_commit(&mut self, has_buffer: bool) -> (r: Result<bool, &'static str>)
        ensures
            *final(self) == old(self).prepared(has_buffer),
            r == match old(self).refusal(has_buffer) {
                Some(message) => Err::<bool, &'static str>(message),
                None => Ok::<bool, &'static str>(old(self).announces()),
            },
    {
        match self {
            Role::XdgTopLevel(r) => r.pre_commit(has_buffer),
            Role::Custom(r) => match r.refusal {
                Some(message) => Err(message),
                None => Ok(false),
            },
            _ => Ok(false),
        }
    }
}

} // verus!
