//! Objects related to the xdg_shell protocol.
use vstd::pervasive::unreached;
use vstd::prelude::*;
use vstd::string::*;
use crate::objects::compositor::{number_of, stands_for_surface, surface_changed, surface_number};
use crate::objects::input::EventHandlerAction;
use crate::objects::{object_of, Error, SURFACE_TYPE, XDG_SURFACE_TYPE, XDG_TOPLEVEL_TYPE};
use crate::server::error::ProtocolError;
use crate::server::maps::AnyObject;
use crate::server::store::{agrees, object_added, object_removed, Store, CLIENT_MAX_ID};
use crate::shell::attach::role_deactivated;
use crate::shell::geometry::{Extent, Point, Rectangle};
use crate::shell::roles::{Role, XDG_SURFACE_NAME, XDG_TOPLEVEL_NAME};
use crate::shell::scene::Scene;
use crate::shell::xdg;
use crate::shell::{scene, Shell, ShellCall};
use crate::text::{decimal, from_utf8_lossy, lossy_text, to_decimal};
use crate::types::{NewId, Object, Str};
use crate::wire::endian::{signed, to_signed};

verus! {

/// An event for the xdg objects of a client.
#[derive(Clone, Copy, Debug, PartialEq, Eq, Structural)]
pub enum XdgEvent {
    /// `xdg_toplevel.configure`, without states.
    ToplevelConfigure { object_id: u32, width: i32, height: i32 },
    /// `xdg_surface.configure`.
    Configure { object_id: u32, serial: u32 },
}

/// The requests that are not implemented.
#[derive(Clone, Copy, Debug, PartialEq, Eq, Structural)]
pub enum Unimplemented {
    Pong,
    CreatePositioner,
    GetPopup,
    Move,
    Resize,
    SetParent,
    SetMaximized,
    SetMinimized,
    SetFullscreen,
    UnsetMaximized,
    ShowWindowMenu,
    UnsetFullscreen,
}

impl Unimplemented {
    /// The answer to the request.
    pub fn answer(&self) -> (r: Error)
        ensures
            r == Error::NotImplemented(
                match *self {
                    Unimplemented::Pong => "xdg_wm_base.pong",
                    Unimplemented::CreatePositioner => "xdg_wm_base.create_positioner",
                    Unimplemented::GetPopup => "xdg_wm_base.get_popup",
                    Unimplemented::Move => "xdg_toplevel.move",
                    Unimplemented::Resize => "xdg_toplevel.resize",
                    Unimplemented::SetParent => "xdg_toplevel.set_parent",
                    Unimplemented::SetMaximized => "xdg_toplevel.set_maximized",
                    Unimplemented::SetMinimized => "xdg_toplevel.set_minimized",
                    Unimplemented::SetFullscreen => "xdg_toplevel.set_fullscreen",
                    Unimplemented::UnsetMaximized => "xdg_toplevel.unset_maximized",
                    Unimplemented::ShowWindowMenu => "xdg_toplevel.show_window_menu",
                    Unimplemented::UnsetFullscreen => "xdg_toplevel.unset_fullscreen",
                },
            ),
    {
        Error::NotImplemented(
            match self {
                Unimplemented::Pong => "xdg_wm_base.pong",
                Unimplemented::CreatePositioner => "xdg_wm_base.create_positioner",
                Unimplemented::GetPopup => "xdg_wm_base.get_popup",
                Unimplemented::Move => "xdg_toplevel.move",
                Unimplemented::Resize => "xdg_toplevel.resize",
                Unimplemented::SetParent => "xdg_toplevel.set_parent",
                Unimplemented::SetMaximized => "xdg_toplevel.set_maximized",
                Unimplemented::SetMinimized => "xdg_toplevel.set_minimized",
                Unimplemented::SetFullscreen => "xdg_toplevel.set_fullscreen",
                Unimplemented::UnsetMaximized => "xdg_toplevel.unset_maximized",
                Unimplemented::ShowWindowMenu => "xdg_toplevel.show_window_menu",
                Unimplemented::UnsetFullscreen => "xdg_toplevel.unset_fullscreen",
            },
        )
    }
}

/// What a client did wrong with an xdg surface.
#[derive(Clone, Copy, Debug, PartialEq, Eq, Structural)]
pub enum SurfaceErrorKind {
    NotConstructed,
    AlreadyConstructed,
    UnconfiguredBuffer,
    InvalidSerial,
    InvalidSize,
    DefunctRoleObject,
}

/// An error of an xdg surface.
#[derive(Clone, Copy, Debug, PartialEq, Eq, Structural)]
pub struct SurfaceError {
    pub kind: SurfaceErrorKind,
    pub object_id: u32,
}

impl SurfaceErrorKind {
    /// The error code.
    pub open spec fn spec_code(self) -> u32 {
        match self {
            SurfaceErrorKind::NotConstructed => 1,
            SurfaceErrorKind::AlreadyConstructed => 2,
            SurfaceErrorKind::UnconfiguredBuffer => 3,
            SurfaceErrorKind::InvalidSerial => 4,
            SurfaceErrorKind::InvalidSize => 5,
            SurfaceErrorKind::DefunctRoleObject => 6,
        }
    }

    /// The error code.
    pub fn code(&self) -> (r: u32)
        ensures
            r == self.spec_code(),
    {
        match self {
            SurfaceErrorKind::NotConstructed => 1,
            SurfaceErrorKind::AlreadyConstructed => 2,
            SurfaceErrorKind::UnconfiguredBuffer => 3,
            SurfaceErrorKind::InvalidSerial => 4,
            SurfaceErrorKind::InvalidSize => 5,
            SurfaceErrorKind::DefunctRoleObject => 6,
        }
    }
}

impl ProtocolError for SurfaceError {
    open spec fn spec_wayland_error(&self) -> Option<(u32, u32)> {
        Some((self.object_id, self.kind.spec_code()))
    }

    open spec fn spec_fatal(&self) -> bool {
        true
    }

    open spec fn spec_message(&self) -> Seq<char> {
        let id = decimal(self.object_id as nat);
        match self.kind {
            SurfaceErrorKind::DefunctRoleObject => "Surface "@ + id + " was destroyed before its role object"@,
            SurfaceErrorKind::NotConstructed => "Surface "@ + id + " was not fully constructed"@,
            SurfaceErrorKind::AlreadyConstructed => "Surface "@ + id + " was already constructed"@,
            SurfaceErrorKind::UnconfiguredBuffer => "Attaching a buffer to an unconfigured surface "@ + id,
            SurfaceErrorKind::InvalidSerial =>
                "Invalid serial number when acking a configure event, xdg_surface: "@ + id,
            SurfaceErrorKind::InvalidSize => "Width or height was zero or negative, xdg_surface: "@ + id,
        }
    }

    fn wayland_error(&self) -> (r: Option<(u32, u32)>) {
        Some((self.object_id, self.kind.code()))
    }

    fn fatal(&self) -> (r: bool) {
        true
    }

    fn message(&self) -> (r: String) {
        let id = to_decimal(self.object_id);
        let surface = "Surface ".to_owned().concat(id.as_str());
        match self.kind {
            SurfaceErrorKind::DefunctRoleObject => surface.concat(" was destroyed before its role object"),
            SurfaceErrorKind::NotConstructed => surface.concat(" was not fully constructed"),
            SurfaceErrorKind::AlreadyConstructed => surface.concat(" was already constructed"),
            SurfaceErrorKind::UnconfiguredBuffer => "Attaching a buffer to an unconfigured surface ".to_owned().concat(
                id.as_str(),
            ),
            SurfaceErrorKind::InvalidSerial =>
                "Invalid serial number when acking a configure event, xdg_surface: ".to_owned().concat(id.as_str()),
            SurfaceErrorKind::InvalidSize => "Width or height was zero or negative, xdg_surface: ".to_owned().concat(
                id.as_str(),
            ),
        }
    }
}

/// The object for the xdg surface of the surface with the given number.
pub open spec fn spec_xdg_surface_object(number: usize) -> AnyObject {
    AnyObject { handle: number as u64, type_id: XDG_SURFACE_TYPE, interface: XDG_SURFACE_NAME, state: None }
}

/// The object for the top-level of the surface with the given number.
pub open spec fn spec_toplevel_object(number: usize) -> AnyObject {
    AnyObject { handle: number as u64, type_id: XDG_TOPLEVEL_TYPE, interface: XDG_TOPLEVEL_NAME, state: None }
}

/// The xdg surface of a role.
pub open spec fn base_of(role: Option<Role>) -> Option<xdg::Surface> {
    match role {
        Some(Role::XdgSurface(base)) => Some(base),
        Some(Role::XdgTopLevel(role)) => Some(role.base),
        _ => None,
    }
}

/// The top-level of a role.
pub open spec fn toplevel_of(role: Option<Role>) -> Option<xdg::TopLevel> {
    match role {
        Some(Role::XdgTopLevel(role)) => Some(role),
        _ => None,
    }
}

/// The role with another xdg surface.
pub open spec fn with_base(role: Option<Role>, base: xdg::Surface) -> Option<Role> {
    match role {
        Some(Role::XdgSurface(_)) => Some(Role::XdgSurface(base)),
        Some(Role::XdgTopLevel(role)) => Some(Role::XdgTopLevel(xdg::TopLevel { base, ..role })),
        role => role,
    }
}

/// Only the role of the surface `id` differs.
pub open spec fn role_changed<S: Shell>(before: Scene<S>, after: Scene<S>, id: usize) -> bool {
    &&& surface_changed(before, after, id)
    &&& after.surfaces@[id as int] == scene::Surface {
        role: after.surfaces@[id as int].role,
        ..before.surfaces@[id as int]
    }
}

/// The xdg surface of a surface, and what becomes of it becomes of the surface.
fn base_mut<S: Shell>(scene: &mut Scene<S>, id: usize) -> (r: &mut xdg::Surface)
    requires
        id < old(scene).surfaces@.len(),
        base_of(old(scene).surfaces@[id as int].role) is Some,
    ensures
        *r == base_of(old(scene).surfaces@[id as int].role)->0,
        role_changed(*old(scene), *final(scene), id),
        final(scene).surfaces@[id as int].role == with_base(old(scene).surfaces@[id as int].role, *final(r)),
{
    match &mut scene.surfaces[id].role {
        Some(Role::XdgSurface(base)) => base,
        Some(Role::XdgTopLevel(role)) => &mut role.base,
        _ => unreached(),
    }
}

/// The top-level of a surface, and what becomes of it becomes of the surface.
fn toplevel_mut<S: Shell>(scene: &mut Scene<S>, id: usize) -> (r: &mut xdg::TopLevel)
    requires
        id < old(scene).surfaces@.len(),
        toplevel_of(old(scene).surfaces@[id as int].role) is Some,
    ensures
        *r == toplevel_of(old(scene).surfaces@[id as int].role)->0,
        role_changed(*old(scene), *final(scene), id),
        final(scene).surfaces@[id as int].role == Some(Role::XdgTopLevel(*final(r))),
{
    match &mut scene.surfaces[id].role {
        Some(Role::XdgTopLevel(role)) => role,
        _ => unreached(),
    }
}

/// Implementation of the `xdg_wm_base` interface.
#[derive(Clone, Copy, Debug, PartialEq, Eq, Structural)]
pub struct WmBase;

impl WmBase {
    /// Answers a `get_xdg_surface` request.
    pub fn get_xdg_surface<S: Shell>(objects: &mut Store, scene: &mut Scene<S>, id: NewId, surface: Object) -> (r: Result<
        (),
        Error,
    >)
        requires
            old(objects).wf(),
            old(scene).shell.valid(),
            object_of(old(objects).objects(), surface.0, SURFACE_TYPE) is Ok ==> {
                let number = number_of(old(objects), surface.0);
                &&& stands_for_surface(old(objects), old(scene), surface.0, SURFACE_TYPE)
                &&& old(scene).surfaces@[number as int].current is Some
                &&& agrees(old(objects).objects(), spec_xdg_surface_object(number))
            },
        ensures
            final(objects).wf(),
            final(scene).shell.valid(),
            r is Err ==> *final(objects) == *old(objects) && *final(scene) == *old(scene),
            match object_of(old(objects).objects(), surface.0, SURFACE_TYPE) {
                Err(e) => r == Err::<(), Error>(Error::Get(e)),
                Ok(_) => if id.0 <= CLIENT_MAX_ID && !old(objects).objects().contains_key(id.0) {
                    let number = number_of(old(objects), surface.0);
                    &&& r is Ok
                    &&& object_added(*old(objects), *final(objects), id.0, spec_xdg_surface_object(number))
                    &&& final(scene).surfaces@[number as int].role matches Some(Role::XdgSurface(base))
                        && base.is_fresh(id.0)
                    &&& role_given(*old(scene), *final(scene), number, XDG_SURFACE_NAME)
                } else {
                    r == Err::<(), Error>(Error::spec_id_exists(id.0))
                },
            },
    {
        let number: usize = match objects.get(surface.0, SURFACE_TYPE) {
            Ok(object) => object.handle as usize,
            Err(e) => {
                return Err(Error::Get(e));
            },
        };
        let object = AnyObject {
            handle: number as u64,
            type_id: XDG_SURFACE_TYPE,
            interface: XDG_SURFACE_NAME,
            state: None,
        };
        if !objects.try_insert_with(id.0, object) {
            return Err(Error::id_exists(id.0));
        }
        scene::Surface::set_role(scene, number, Role::XdgSurface(xdg::Surface::new(id.0)));
        Ok(())
    }
}

/// The surface `id` has been given a role with the given name.
pub open spec fn role_given<S: Shell>(before: Scene<S>, after: Scene<S>, id: usize, name: &'static str) -> bool {
    &&& after.shell.states() == before.shell.states()
    &&& after.shell.spec_has_room() == before.shell.spec_has_room()
    &&& after.shell.calls() == before.shell.calls().push(ShellCall::RoleAdded { key: before.key(id), role: name })
    &&& after.layout_changes == before.layout_changes
    &&& after.surfaces@ == before.surfaces@.update(
        id as int,
        scene::Surface { role: after.surfaces@[id as int].role, ..before.surfaces@[id as int] },
    )
}

/// Sends configure events when the layout of a surface changes.
#[derive(Clone, Copy, Debug, PartialEq, Eq, Structural)]
pub struct LayoutEventHandler {
    pub surface_object_id: u32,
}

/// The serial that follows another one. It is never 0.
pub open spec fn next_serial(serial: u32) -> u32 {
    if serial == u32::MAX {
        1
    } else {
        (serial + 1) as u32
    }
}

impl LayoutEventHandler {
    /// Handles a change of the layout. If there is a size, the top-level is told of
    /// it first. The surface expects an answer to the configure event, which
    /// carries a new serial. The handler is always kept.
    pub fn handle_event<S: Shell>(&self, objects: &Store, scene: &mut Scene<S>, extent: Option<(u32, u32)>) -> (r: (
        Vec<XdgEvent>,
        EventHandlerAction,
    ))
        requires
            stands_for_surface(objects, old(scene), self.surface_object_id, SURFACE_TYPE),
            ({
                let role = old(scene).surfaces@[number_of(objects, self.surface_object_id) as int].role;
                &&& base_of(role) is Some
                &&& extent is Some ==> toplevel_of(role) is Some && (toplevel_of(role)->0).is_active
            }),
        ensures
            ({
                let id = number_of(objects, self.surface_object_id);
                let role = old(scene).surfaces@[id as int].role;
                let base = base_of(role)->0;
                &&& r.1 == EventHandlerAction::Keep
                &&& r.0@ == (match extent {
                    Some((w, h)) => seq![
                        XdgEvent::ToplevelConfigure {
                            object_id: toplevel_of(role)->0.object_id,
                            width: signed(w),
                            height: signed(h),
                        },
                    ],
                    None => Seq::empty(),
                }) + seq![XdgEvent::Configure { object_id: base.object_id, serial: base.serial }]
                &&& configure_sent(*old(scene), *final(scene), id)
            }),
    {
        let id: usize = surface_number(objects, scene, self.surface_object_id, SURFACE_TYPE);
        let mut events: Vec<XdgEvent> = Vec::new();
        if let Some((w, h)) = extent {
            let object_id: u32 = toplevel_object_id(&scene.surfaces[id].role);
            events.push(
                XdgEvent::ToplevelConfigure { object_id, width: to_signed(w), height: to_signed(h) },
            );
        }
        let base = base_mut(scene, id);
        let serial: u32 = base.serial;
        base.serial = if serial == u32::MAX {
            1
        } else {
            serial + 1
        };
        base.pending_serial.push_back(serial);
        events.push(XdgEvent::Configure { object_id: base.object_id, serial });
        proof {
            let role = old(scene).surfaces@[id as int].role;
            assert(events@ =~= (match extent {
                Some((w, h)) => seq![
                    XdgEvent::ToplevelConfigure {
                        object_id: toplevel_of(role)->0.object_id,
                        width: signed(w),
                        height: signed(h),
                    },
                ],
                None => Seq::empty(),
            }) + seq![XdgEvent::Configure { object_id: (base_of(role)->0).object_id, serial }]);
        }
        (events, EventHandlerAction::Keep)
    }
}

/// The object id of a top-level.
fn toplevel_object_id(role: &Option<Role>) -> (r: u32)
    requires
        toplevel_of(*role) is Some,
    ensures
        r == (toplevel_of(*role)->0).object_id,
{
    match role {
        Some(Role::XdgTopLevel(role)) => role.object_id,
        _ => unreached(),
    }
}

/// A configure event was sent for the surface `id`. It is the last one that waits for an
/// answer, and the next one carries the next serial.
pub open spec fn configure_sent<S: Shell>(before: Scene<S>, after: Scene<S>, id: usize) -> bool {
    let role = before.surfaces@[id as int].role;
    let base = base_of(role)->0;
    let new_base = base_of(after.surfaces@[id as int].role)->0;
    &&& role_changed(before, after, id)
    &&& after.surfaces@[id as int].role == with_base(role, new_base)
    &&& new_base.pending_serial@ == base.pending_serial@.push(base.serial)
    &&& new_base == xdg::Surface {
        serial: next_serial(base.serial),
        pending_serial: new_base.pending_serial,
        ..base
    }
}

/// A configure event of the surface `id` was acknowledged.
pub open spec fn configure_acknowledged<S: Shell>(before: Scene<S>, after: Scene<S>, id: usize, serial: u32) -> bool {
    let role = before.surfaces@[id as int].role;
    let base = base_of(role)->0;
    let new_base = base_of(after.surfaces@[id as int].role)->0;
    &&& role_changed(before, after, id)
    &&& after.surfaces@[id as int].role == with_base(role, new_base)
    &&& new_base.pending_serial@ == base.pending_serial@.skip(acknowledged(base.pending_serial@, serial) as int)
    &&& new_base == xdg::Surface {
        pending_serial: new_base.pending_serial,
        last_ack: if serial == 0 {
            base.last_ack
        } else {
            Some(serial)
        },
        ..base
    }
}

/// The geometry of the surface `id` was set, for the next commit.
pub open spec fn geometry_set<S: Shell>(before: Scene<S>, after: Scene<S>, id: usize, geometry: Rectangle) -> bool {
    let role = before.surfaces@[id as int].role;
    &&& role_changed(before, after, id)
    &&& after.surfaces@[id as int].role == with_base(
        role,
        xdg::Surface { pending_geometry: Some(geometry), ..base_of(role)->0 },
    )
}

/// The sizes of the top-level of the surface `id` were set, for the next commit.
pub open spec fn sizes_set<S: Shell>(before: Scene<S>, after: Scene<S>, id: usize, sizes: xdg::TopLevelState) -> bool {
    let role = toplevel_of(before.surfaces@[id as int].role)->0;
    &&& role_changed(before, after, id)
    &&& after.surfaces@[id as int].role == Some(Role::XdgTopLevel(xdg::TopLevel { pending: sizes, ..role }))
}

/// Implementation of the `xdg_surface` interface.
#[derive(Clone, Copy, Debug, PartialEq, Eq, Structural)]
pub struct Surface {
    /// The number of the surface.
    pub inner: usize,
}

/// How many configure events at the front of the queue are answered by an
/// acknowledgement.
pub open spec fn acknowledged(pending: Seq<u32>, serial: u32) -> nat
    decreases pending.len(),
{
    if pending.len() > 0 && pending[0] <= serial {
        1 + acknowledged(pending.skip(1), serial)
    } else {
        0
    }
}

impl Surface {
    /// Answers a `destroy` request. The role object has to be destroyed first.
    pub fn destroy<S: Shell>(objects: &mut Store, scene: &Scene<S>, object_id: u32) -> (r: Result<(), Error>)
        requires
            old(objects).wf(),
            stands_for_surface(old(objects), scene, object_id, XDG_SURFACE_TYPE),
        ensures
            final(objects).wf(),
            if scene.active(number_of(old(objects), object_id)) {
                &&& r matches Err(e) && e.keeps(SurfaceError { kind: SurfaceErrorKind::DefunctRoleObject, object_id })
                &&& *final(objects) == *old(objects)
            } else {
                &&& r is Ok
                &&& object_removed(*old(objects), *final(objects), object_id)
            },
    {
        let id: usize = surface_number(objects, scene, object_id, XDG_SURFACE_TYPE);
        if scene.surfaces[id].role_is_active() {
            return Err(Error::custom(&SurfaceError { kind: SurfaceErrorKind::DefunctRoleObject, object_id }));
        }
        objects.remove(object_id);
        Ok(())
    }

    /// Answers a `get_toplevel` request: the surface becomes a top-level. Returns
    /// what has to listen to changes of the layout.
    pub fn get_toplevel<S: Shell>(objects: &mut Store, scene: &mut Scene<S>, object_id: u32, id: NewId) -> (r: Result<
        LayoutEventHandler,
        Error,
    >)
        requires
            old(objects).wf(),
            old(scene).shell.valid(),
            stands_for_surface(old(objects), old(scene), object_id, XDG_SURFACE_TYPE),
            agrees(old(objects).objects(), spec_toplevel_object(number_of(old(objects), object_id))),
            old(scene).surfaces@[number_of(old(objects), object_id) as int].current is Some,
            base_of(old(scene).surfaces@[number_of(old(objects), object_id) as int].role) is Some,
        ensures
            final(objects).wf(),
            final(scene).shell.valid(),
            if id.0 <= CLIENT_MAX_ID && !old(objects).objects().contains_key(id.0) {
                let number = number_of(old(objects), object_id);
                let before = old(scene).surfaces@[number as int];
                &&& r == Ok::<LayoutEventHandler, Error>(LayoutEventHandler { surface_object_id: before.object_id })
                &&& object_added(*old(objects), *final(objects), id.0, spec_toplevel_object(number))
                &&& role_given(*old(scene), *final(scene), number, XDG_TOPLEVEL_NAME)
                &&& toplevel_of(final(scene).surfaces@[number as int].role) matches Some(toplevel)
                    && toplevel.is_fresh(base_of(before.role)->0, id.0)
            } else {
                &&& r == Err::<LayoutEventHandler, Error>(Error::spec_id_exists(id.0))
                &&& *final(objects) == *old(objects)
                &&& *final(scene) == *old(scene)
            },
    {
        let number: usize = surface_number(objects, scene, object_id, XDG_SURFACE_TYPE);
        let object = AnyObject {
            handle: number as u64,
            type_id: XDG_TOPLEVEL_TYPE,
            interface: XDG_TOPLEVEL_NAME,
            state: None,
        };
        if !objects.try_insert_with(id.0, object) {
            return Err(Error::id_exists(id.0));
        }
        let base = match scene.surfaces[number].role.take() {
            Some(Role::XdgSurface(base)) => base,
            Some(Role::XdgTopLevel(role)) => role.base,
            _ => unreached(),
        };
        scene::Surface::set_role(scene, number, Role::XdgTopLevel(xdg::TopLevel::new(base, id.0)));
        proof {
            assert(scene.surfaces@ =~= old(scene).surfaces@.update(
                number as int,
                scene::Surface { role: scene.surfaces@[number as int].role, ..old(scene).surfaces@[number as int] },
            ));
        }
        Ok(LayoutEventHandler { surface_object_id: scene.surfaces[number].object_id })
    }

    /// Answers an `ack_configure` request. Configure events up to the one that is
    /// acknowledged need no answer any more.
    pub fn ack_configure<S: Shell>(objects: &Store, scene: &mut Scene<S>, object_id: u32, serial: u32) -> (r: Result<
        (),
        Error,
    >)
        requires
            stands_for_surface(objects, old(scene), object_id, XDG_SURFACE_TYPE),
            base_of(old(scene).surfaces@[number_of(objects, object_id) as int].role) is Some,
        ensures
            r == if serial == 0 {
                Err::<(), Error>(Error::UnknownFatalError("ack_configure: serial is 0"))
            } else {
                Ok::<(), Error>(())
            },
            configure_acknowledged(*old(scene), *final(scene), number_of(objects, object_id), serial),
    {
        let id: usize = surface_number(objects, scene, object_id, XDG_SURFACE_TYPE);
        let base = base_mut(scene, id);
        acknowledge(base, serial);
        if serial == 0 {
            return Err(Error::UnknownFatalError("ack_configure: serial is 0"));
        }
        base.last_ack = Some(serial);
        Ok(())
    }

    /// Answers a `set_window_geometry` request.
    pub fn set_window_geometry<S: Shell>(
        objects: &Store,
        scene: &mut Scene<S>,
        object_id: u32,
        x: i32,
        y: i32,
        width: i32,
        height: i32,
    )
        requires
            stands_for_surface(objects, old(scene), object_id, XDG_SURFACE_TYPE),
            base_of(old(scene).surfaces@[number_of(objects, object_id) as int].role) is Some,
        ensures
            geometry_set(
                *old(scene),
                *final(scene),
                number_of(objects, object_id),
                (Rectangle { loc: Point { x, y }, size: Extent { w: width, h: height } }),
            ),
    {
        let id: usize = surface_number(objects, scene, object_id, XDG_SURFACE_TYPE);
        let base = base_mut(scene, id);
        base.pending_geometry = Some(Rectangle { loc: Point::new(x, y), size: Extent { w: width, h: height } });
    }
}

/// Takes the configure events out that an acknowledgement answers.
fn acknowledge(base: &mut xdg::Surface, serial: u32)
    ensures
        final(base).pending_serial@ == old(base).pending_serial@.skip(
            acknowledged(old(base).pending_serial@, serial) as int,
        ),
        *final(base) == (xdg::Surface { pending_serial: final(base).pending_serial, ..*old(base) }),
{
    let ghost before = base.pending_serial@;
    let ghost mut n: nat = 0;
    proof {
        assert(before.skip(0) =~= before);
    }
    while base.pending_serial.len() > 0 && base.pending_serial[0] <= serial
        invariant
            n <= before.len(),
            base.pending_serial@ == before.skip(n as int),
            acknowledged(before, serial) == n + acknowledged(base.pending_serial@, serial),
            *base == (xdg::Surface { pending_serial: base.pending_serial, ..*old(base) }),
        decreases base.pending_serial@.len(),
    {
        let ghost last = base.pending_serial@;
        base.pending_serial.pop_front();
        proof {
            assert(base.pending_serial@ =~= last.skip(1));
            assert(last.skip(1) =~= before.skip(n as int + 1));
            n = n + 1;
        }
    }
}

/// Implements the `xdg_toplevel` interface.
#[derive(Clone, Copy, Debug, PartialEq, Eq, Structural)]
pub struct TopLevel(pub usize);

impl TopLevel {
    /// Answers a `destroy` request: the role of the surface is deactivated.
    pub fn destroy<S: Shell>(objects: &mut Store, scene: &mut Scene<S>, object_id: u32)
        requires
            old(objects).wf(),
            stands_for_surface(old(objects), old(scene), object_id, XDG_TOPLEVEL_TYPE),
            old(scene).shell.valid(),
            old(scene).live(number_of(old(objects), object_id)),
            old(scene).attached(number_of(old(objects), object_id)),
        ensures
            final(objects).wf(),
            final(scene).shell.valid(),
            role_deactivated(*old(scene), *final(scene), number_of(old(objects), object_id)),
            object_removed(*old(objects), *final(objects), object_id),
    {
        let id: usize = surface_number(objects, scene, object_id, XDG_TOPLEVEL_TYPE);
        objects.remove(object_id);
        scene::Surface::deactivate_role(scene, id);
    }

    /// Answers a `set_title` request. Bytes that are no text are replaced.
    pub fn set_title<S: Shell>(objects: &Store, scene: &mut Scene<S>, object_id: u32, title: Str<'_>)
        requires
            stands_for_surface(objects, old(scene), object_id, XDG_TOPLEVEL_TYPE),
            toplevel_of(old(scene).surfaces@[number_of(objects, object_id) as int].role) is Some,
        ensures
            ({
                let id = number_of(objects, object_id);
                let before = toplevel_of(old(scene).surfaces@[id as int].role)->0;
                let after = toplevel_of(final(scene).surfaces@[id as int].role)->0;
                &&& role_changed(*old(scene), *final(scene), id)
                &&& final(scene).surfaces@[id as int].role == Some(Role::XdgTopLevel(after))
                &&& after == xdg::TopLevel { title: after.title, ..before }
                &&& after.title matches Some(text) && text@ == lossy_text(title.0@)
            }),
    {
        let id: usize = surface_number(objects, scene, object_id, XDG_TOPLEVEL_TYPE);
        toplevel_mut(scene, id).title = Some(from_utf8_lossy(title.0));
    }

    /// Answers a `set_app_id` request. Bytes that are no text are replaced.
    pub fn set_app_id<S: Shell>(objects: &Store, scene: &mut Scene<S>, object_id: u32, app_id: Str<'_>)
        requires
            stands_for_surface(objects, old(scene), object_id, XDG_TOPLEVEL_TYPE),
            toplevel_of(old(scene).surfaces@[number_of(objects, object_id) as int].role) is Some,
        ensures
            ({
                let id = number_of(objects, object_id);
                let before = toplevel_of(old(scene).surfaces@[id as int].role)->0;
                let after = toplevel_of(final(scene).surfaces@[id as int].role)->0;
                &&& role_changed(*old(scene), *final(scene), id)
                &&& final(scene).surfaces@[id as int].role == Some(Role::XdgTopLevel(after))
                &&& after == xdg::TopLevel { app_id: after.app_id, ..before }
                &&& after.app_id matches Some(text) && text@ == lossy_text(app_id.0@)
            }),
    {
        let id: usize = surface_number(objects, scene, object_id, XDG_TOPLEVEL_TYPE);
        toplevel_mut(scene, id).app_id = Some(from_utf8_lossy(app_id.0));
    }

    /// Answers a `set_max_size` request. It takes effect with the next commit.
    pub fn set_max_size<S: Shell>(objects: &Store, scene: &mut Scene<S>, object_id: u32, width: i32, height: i32)
        requires
            stands_for_surface(objects, old(scene), object_id, XDG_TOPLEVEL_TYPE),
            toplevel_of(old(scene).surfaces@[number_of(objects, object_id) as int].role) is Some,
        ensures
            sizes_set(
                *old(scene),
                *final(scene),
                number_of(objects, object_id),
                (xdg::TopLevelState {
                    max_size: Some(Extent { w: width, h: height }),
                    ..(toplevel_of(old(scene).surfaces@[number_of(objects, object_id) as int].role)->0).pending
                }),
            ),
    {
        let id: usize = surface_number(objects, scene, object_id, XDG_TOPLEVEL_TYPE);
        toplevel_mut(scene, id).pending.max_size = Some(Extent { w: width, h: height });
    }

    /// Answers a `set_min_size` request. It takes effect with the next commit.
    pub fn set_min_size<S: Shell>(objects: &Store, scene: &mut Scene<S>, object_id: u32, width: i32, height: i32)
        requires
            stands_for_surface(objects, old(scene), object_id, XDG_TOPLEVEL_TYPE),
            toplevel_of(old(scene).surfaces@[number_of(objects, object_id) as int].role) is Some,
        ensures
            sizes_set(
                *old(scene),
                *final(scene),
                number_of(objects, object_id),
                (xdg::TopLevelState {
                    min_size: Some(Extent { w: width, h: height }),
                    ..(toplevel_of(old(scene).surfaces@[number_of(objects, object_id) as int].role)->0).pending
                }),
            ),
    {
        let id: usize = surface_number(objects, scene, object_id, XDG_TOPLEVEL_TYPE);
        toplevel_mut(scene, id).pending.min_size = Some(Extent { w: width, h: height });
    }
}

/// Configure events are answered in order: an acknowledgement takes out all those
/// that have a smaller serial or the same, and no others, where serials go up.
pub proof fn acknowledgement_takes_older(pending: Seq<u32>, serial: u32, i: int)
    requires
        forall|i: int, j: int| 0 <= i < j < pending.len() ==> pending[i] < pending[j],
        0 <= i < pending.len(),
    ensures
        i < acknowledged(pending, serial) <==> pending[i] <= serial,
    decreases pending.len(),
{
    let rest = pending.skip(1);
    if i > 0 {
        assert(pending[0] < pending[i]);
        assert forall|i: int, j: int| 0 <= i < j < rest.len() implies rest[i] < rest[j] by {
            assert(rest[i] == pending[i + 1] && rest[j] == pending[j + 1]);
        }
        acknowledgement_takes_older(rest, serial, i - 1);
    }
}

} // verus!
