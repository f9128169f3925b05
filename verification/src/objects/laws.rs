//! What holds of the objects of a client, and of what it is told, whatever it does.
use dlv_list::Index;
use vstd::prelude::*;
use crate::objects::compositor::{
    self, buffer_attached, callback_asked, scale_set, spec_callback_object, spec_region_object, spec_subsurface_object,
    spec_surface_object, surface_changed,
};
use crate::objects::outputs::{lost, OutputState};
use crate::objects::seat::{spec_keyboard_object, spec_pointer_object, Capability, SeatError};
use crate::objects::shm::{spec_buffer_object, spec_pool_object, MapRecord, ShmError, ShmPoolInner};
use crate::objects::subcompositor::{moved, SubcompositorError};
use crate::objects::xdg_shell::{
    self, acknowledged, base_of, configure_acknowledged, configure_sent, geometry_set, next_serial, role_changed,
    sizes_set, spec_toplevel_object, spec_xdg_surface_object, toplevel_of, with_base,
};
use crate::objects::{is_object, object_of, Error};
use crate::server::error::ProtocolError;
use crate::server::maps::AnyObject;
use crate::server::store::GetError;
use crate::shell::callbacks::callback_ids;
use crate::shell::geometry::{Point, Rectangle};
use crate::shell::laws::{
    commit_applies_top_level, committed_buffer_is_current, committed_callbacks_are_kept, committed_scale_is_current,
};
use crate::shell::roles::Role;
use crate::shell::scene::{commit_done, Scene};
use crate::shell::stack::{index_at, stack_entries, SurfaceStackEntry};
use crate::shell::surface::PendingSurfaceState;
use crate::shell::xdg;
use crate::shell::Shell;
use crate::text::{decimal, signed_decimal};

verus! {

/// Objects of different kinds are of different types, and each has the interface of its
/// kind. An object for a surface is found by the number of the surface, and others by their
/// own id. Surfaces, pointers and keyboards share a state with others of their kind.
pub proof fn objects_are_told_apart(id: u32, number: usize, state: u64)
    ensures
        ({
            let callback = spec_callback_object(id);
            let surface = spec_surface_object(number, state);
            let region = spec_region_object(id);
            let subsurface = spec_subsurface_object(number);
            let buffer = spec_buffer_object(id);
            let pointer = spec_pointer_object(id, state);
            let keyboard = spec_keyboard_object(id, state);
            let pool = spec_pool_object(id);
            let xdg_surface = spec_xdg_surface_object(number);
            let toplevel = spec_toplevel_object(number);
            let all = seq![
                callback,
                surface,
                region,
                subsurface,
                buffer,
                pointer,
                keyboard,
                pool,
                xdg_surface,
                toplevel,
            ];
            &&& forall|i: int, j: int|
                #![trigger all[i], all[j]]
                0 <= i < j < all.len() ==> all[i].type_id != all[j].type_id
            &&& callback.interface@ == "wl_callback"@
            &&& surface.interface@ == "wl_surface"@
            &&& region.interface@ == "wl_region"@
            &&& subsurface.interface@ == "wl_subsurface"@
            &&& buffer.interface@ == "wl_buffer"@
            &&& pointer.interface@ == "wl_pointer"@
            &&& keyboard.interface@ == "wl_keyboard"@
            &&& pool.interface@ == "wl_shm_pool"@
            &&& xdg_surface.interface@ == "xdg_surface"@
            &&& toplevel.interface@ == "xdg_toplevel"@
            &&& surface.handle == number && subsurface.handle == number && xdg_surface.handle == number && toplevel.handle
                == number
            &&& callback.handle == id && region.handle == id && buffer.handle == id && pointer.handle == id
                && keyboard.handle == id && pool.handle == id
            &&& surface.state == Some(state) && pointer.state == Some(state) && keyboard.state == Some(state)
            &&& callback.state is None && region.state is None && subsurface.state is None && buffer.state is None
                && pool.state is None && xdg_surface.state is None && toplevel.state is None
        }),
{
}

/// An object is had exactly if there is one with the id, and it is of the type. What is
/// wrong otherwise is told with the id.
pub proof fn objects_are_had_by_type(objects: Map<u32, AnyObject>, id: u32, type_id: u64)
    ensures
        match object_of(objects, id, type_id) {
            Ok(object) => objects.contains_key(id) && object == objects[id] && object.type_id == type_id,
            Err(GetError::IdNotFound(missing)) => missing == id && !objects.contains_key(id),
            Err(GetError::TypeMismatch(other)) => other == id && objects.contains_key(id) && objects[id].type_id != type_id,
        },
        object_of(objects, id, type_id) is Ok <==> is_object(objects, id, type_id),
{
}

/// A request for one surface leaves all others, and all states, as they are.
pub proof fn other_surfaces_stay<S: Shell>(before: Scene<S>, after: Scene<S>, id: usize, other: usize)
    requires
        surface_changed(before, after, id),
        id < before.surfaces@.len(),
        other < before.surfaces@.len(),
        other != id,
    ensures
        after.surfaces@.len() == before.surfaces@.len(),
        after.surfaces@[other as int] == before.surfaces@[other as int],
        after.shell.states() == before.shell.states(),
        after.shell.calls() == before.shell.calls(),
        after.layout_changes@ == before.layout_changes@,
{
}

/// A request for the role of a surface leaves what is shown of it, and what is pending, as
/// it is.
pub proof fn role_requests_keep_the_surface<S: Shell>(before: Scene<S>, after: Scene<S>, id: usize)
    requires
        role_changed(before, after, id),
        id < before.surfaces@.len(),
    ensures
        after.surfaces@[id as int].current == before.surfaces@[id as int].current,
        after.surfaces@[id as int].pending_state == before.surfaces@[id as int].pending_state,
        after.surfaces@[id as int].object_id == before.surfaces@[id as int].object_id,
        after.shell.states() == before.shell.states(),
{
}

/// Moving a subsurface changes its own position alone. It stands where it stood in the
/// stack, and shows the same state.
pub proof fn moving_changes_one_position(
    before: PendingSurfaceState,
    after: PendingSurfaceState,
    index: Index<SurfaceStackEntry>,
    position: Point,
    at: int,
    i: int,
)
    requires
        moved(before, after, index, position),
        index_at(stack_entries(before.stack), index, at),
        0 <= i < stack_entries(before.stack).len(),
    ensures
        ({
            let old_stack = stack_entries(before.stack);
            let new_stack = stack_entries(after.stack);
            &&& new_stack.len() == old_stack.len()
            &&& i != at ==> new_stack[i] == old_stack[i]
            &&& new_stack[at].0 == old_stack[at].0
            &&& new_stack[at].1 matches SurfaceStackEntry::Subsurface { token, position: p } && token
                == old_stack[at].1->token && p.x == position.x && p.y == position.y
            &&& after.buffer == before.buffer
            &&& after.buffer_scale == before.buffer_scale
            &&& after.frame_callback_end == before.frame_callback_end
            &&& after.role_state == before.role_state
        }),
{
    assert(index_at(stack_entries(before.stack), index, at));
}

/// The serial of a configure event is followed by the next number, and is never 0.
pub proof fn serials_go_up(serial: u32)
    ensures
        next_serial(serial) != 0,
        serial < u32::MAX ==> next_serial(serial) == serial + 1,
        serial != 0 ==> next_serial(serial) != serial,
{
}

/// An acknowledgement takes configure events off the front of the queue, and stops before
/// the first one that is newer.
pub proof fn acknowledgement_stops_at_newer(pending: Seq<u32>, serial: u32)
    ensures
        acknowledged(pending, serial) <= pending.len(),
        forall|i: int| 0 <= i < acknowledged(pending, serial) ==> #[trigger] pending[i] <= serial,
        acknowledged(pending, serial) < pending.len() ==> pending[acknowledged(pending, serial) as int] > serial,
    decreases pending.len(),
{
    if pending.len() > 0 && pending[0] <= serial {
        let rest = pending.skip(1);
        acknowledgement_stops_at_newer(rest, serial);
        assert forall|i: int| 0 <= i < acknowledged(pending, serial) implies #[trigger] pending[i] <= serial by {
            if i > 0 {
                assert(rest[i - 1] == pending[i]);
            }
        }
        if acknowledged(pending, serial) < pending.len() {
            assert(rest[acknowledged(rest, serial) as int] == pending[acknowledged(pending, serial) as int]);
        }
    }
}

/// The xdg surface of a role is replaced, and nothing else of the role is. Roles without
/// one stay as they are.
pub proof fn replacing_the_xdg_surface(role: Option<Role>, base: xdg::Surface)
    ensures
        base_of(role) is Some ==> base_of(with_base(role, base)) == Some(base),
        base_of(role) is None ==> with_base(role, base) == role,
        base_of(role) matches Some(own) ==> with_base(role, own) == role,
        toplevel_of(role) matches Some(old_role) ==> (toplevel_of(with_base(role, base)) matches Some(new_role) && {
            &&& new_role.base == base
            &&& new_role.title == old_role.title
            &&& new_role.app_id == old_role.app_id
            &&& new_role.current == old_role.current
            &&& new_role.pending == old_role.pending
            &&& new_role.is_active == old_role.is_active
            &&& new_role.object_id == old_role.object_id
        }),
        toplevel_of(role) is None ==> toplevel_of(with_base(role, base)) is None,
{
}

/// The address lies in a region if it is one of the addresses that are counted from its
/// start.
pub proof fn regions_have_their_addresses(record: MapRecord, offset: usize)
    requires
        record.start + record.len <= usize::MAX,
    ensures
        offset < record.len ==> record.spec_contains((record.start + offset) as usize),
        offset >= record.len && record.start + offset <= usize::MAX ==> !record.spec_contains(
            (record.start + offset) as usize,
        ),
        record.start > 0 ==> !record.spec_contains((record.start - 1) as usize),
{
}

/// A size that is not negative is taken as it is. A negative one is larger than any of
/// those.
pub proof fn negative_sizes_are_too_large(size: i32, other: i32)
    requires
        usize::MAX >= u32::MAX,
    ensures
        size >= 0 ==> ShmPoolInner::spec_requested(size) == size,
        size < 0 && other >= 0 ==> ShmPoolInner::spec_requested(size) > ShmPoolInner::spec_requested(other),
{
}

/// An object is told that an output was left for each output that the surface was on, that
/// it is not on any more, and that the object is bound to. No output is both left and
/// entered.
pub proof fn outputs_are_left_or_entered(from: Set<u32>, to: Set<u32>, bound: OutputState, id: u32, output: u32)
    ensures
        lost(from, to, bound, id).contains(output) <==> from.contains(output) && !to.contains(output) && bound.bound(
            output,
            id,
        ),
        !(lost(from, to, bound, id).contains(output) && lost(to, from, bound, id).contains(output)),
        from.contains(output) && to.contains(output) ==> !lost(from, to, bound, id).contains(output) && !lost(
            to,
            from,
            bound,
            id,
        ).contains(output),
        lost(from, from, bound, id) == Set::<u32>::empty(),
{
    assert(lost(from, from, bound, id) =~= Set::<u32>::empty());
}

/// The client is told of each error which object it is about. It is disconnected, because
/// it broke the protocol.
pub proof fn errors_name_their_object(
    surface: compositor::SurfaceError,
    xdg_surface: xdg_shell::SurfaceError,
    capability: Capability,
    bad_surface: u32,
    object_id: u32,
    errno: i32,
)
    ensures
        surface.spec_wayland_error() matches Some((object, _)) && object == surface.object_id && surface.spec_fatal(),
        xdg_surface.spec_wayland_error() matches Some((object, _)) && object == xdg_surface.object_id
            && xdg_surface.spec_fatal(),
        ({
            let e = SeatError::MissingCapability(object_id, capability);
            e.spec_wayland_error() matches Some((object, code)) && object == object_id && code == 0 && e.spec_fatal()
        }),
        ({
            let e = SubcompositorError::BadSurface { bad_surface, object_id };
            &&& e.spec_wayland_error() matches Some((object, code)) && object == object_id && code == 0
            &&& e.spec_fatal()
            &&& e.spec_message() == "Bad surface id "@ + decimal(bad_surface as nat)
        }),
        ({
            let e = ShmError::Mapping(object_id, errno);
            &&& e.spec_wayland_error() matches Some((object, code)) && object == object_id && code == 2
            &&& e.spec_fatal()
            &&& e.spec_message() == "Mapping error: "@ + signed_decimal(errno as int)
        }),
{
}

/// Errors of different kinds have different codes.
pub proof fn error_codes_are_told_apart(
    a: compositor::SurfaceErrorKind,
    b: compositor::SurfaceErrorKind,
    c: xdg_shell::SurfaceErrorKind,
    d: xdg_shell::SurfaceErrorKind,
)
    ensures
        a.spec_code() == b.spec_code() ==> a == b,
        c.spec_code() == d.spec_code() ==> c == d,
        c.spec_code() > 0,
{
}

/// What a client is told of an error of an xdg surface names the surface, and what is wrong
/// with it.
pub proof fn xdg_errors_say_what_is_wrong(object_id: u32)
    ensures
        ({
            let said = |kind: xdg_shell::SurfaceErrorKind| xdg_shell::SurfaceError { kind, object_id }.spec_message();
            let id = decimal(object_id as nat);
            &&& said(xdg_shell::SurfaceErrorKind::DefunctRoleObject) == "Surface "@ + id
                + " was destroyed before its role object"@
            &&& said(xdg_shell::SurfaceErrorKind::NotConstructed) == "Surface "@ + id + " was not fully constructed"@
            &&& said(xdg_shell::SurfaceErrorKind::AlreadyConstructed) == "Surface "@ + id + " was already constructed"@
            &&& said(xdg_shell::SurfaceErrorKind::UnconfiguredBuffer)
                == "Attaching a buffer to an unconfigured surface "@ + id
            &&& said(xdg_shell::SurfaceErrorKind::InvalidSerial)
                == "Invalid serial number when acking a configure event, xdg_surface: "@ + id
            &&& said(xdg_shell::SurfaceErrorKind::InvalidSize)
                == "Width or height was zero or negative, xdg_surface: "@ + id
        }),
{
}

/// An error that is kept says what it said, is about what it was about, and disconnects the
/// client if it did.
pub proof fn errors_are_kept<E: ProtocolError>(kept: Error, e: E)
    requires
        kept.keeps(e),
    ensures
        kept matches Error::Core(core) && core.spec_message() == e.spec_message() && core.spec_wayland_error()
            == e.spec_wayland_error() && core.spec_fatal() == e.spec_fatal(),
{
}

/// A client that attaches a buffer to a surface and commits it shows that buffer, whatever
/// it has shown before.
pub proof fn attached_buffers_are_shown<S: Shell>(
    before: Scene<S>,
    attached: Scene<S>,
    after: Scene<S>,
    id: usize,
    buffer: u32,
)
    requires
        id < before.surfaces@.len(),
        buffer_attached(before, attached, id, buffer),
        !attached.refuses(id),
        commit_done(attached, after, id),
    ensures
        after.shell.states()[after.key(id)].buffer == Some(buffer),
        after.surfaces@[id as int].pending_state.buffer is None,
        attached.shell.states() == before.shell.states(),
        attached.surfaces@[id as int].current == before.surfaces@[id as int].current,
{
    committed_buffer_is_current(attached, after, id, buffer);
}

/// A buffer that is attached after another one, before a commit, takes its place. Nothing
/// else of what is pending changes.
pub proof fn attaching_again_replaces<S: Shell>(
    before: Scene<S>,
    first: Scene<S>,
    second: Scene<S>,
    id: usize,
    a: u32,
    b: u32,
)
    requires
        id < before.surfaces@.len(),
        buffer_attached(before, first, id, a),
        buffer_attached(first, second, id, b),
    ensures
        buffer_attached(before, second, id, b),
        second.surfaces@[id as int].pending_state.buffer == Some(b),
        second.surfaces@[id as int].pending_state.buffer_scale == before.surfaces@[id as int].pending_state.buffer_scale,
        second.surfaces@[id as int].role == before.surfaces@[id as int].role,
{
    assert(second.surfaces@ =~= before.surfaces@.update(id as int, second.surfaces@[id as int]));
}

/// A client that sets a scale and commits has its buffers shown in that scale.
pub proof fn scales_are_applied<S: Shell>(before: Scene<S>, set: Scene<S>, after: Scene<S>, id: usize, scale: u32)
    requires
        id < before.surfaces@.len(),
        scale_set(before, set, id, scale),
        !set.refuses(id),
        commit_done(set, after, id),
    ensures
        after.shell.states()[after.key(id)].buffer_scale == scale,
        set.surfaces@[id as int].pending_state.buffer == before.surfaces@[id as int].pending_state.buffer,
        set.shell.states() == before.shell.states(),
{
    committed_scale_is_current(set, after, id);
}

/// A frame callback that is asked for comes behind all others, and belongs to the state that
/// the next commit makes. The callbacks up to it are counted.
pub proof fn callbacks_wait_in_order<S: Shell>(before: Scene<S>, asked: Scene<S>, after: Scene<S>, id: usize, callback: u32)
    requires
        id < before.surfaces@.len(),
        callback_asked(before, asked, id, callback),
        !asked.refuses(id),
        commit_done(asked, after, id),
    ensures
        ({
            let ids = callback_ids(before.surfaces@[id as int].frame_callbacks);
            let end = before.surfaces@[id as int].pending_state.frame_callback_end;
            &&& callback_ids(after.surfaces@[id as int].frame_callbacks).len() == ids.len() + 1
            &&& callback_ids(after.surfaces@[id as int].frame_callbacks).drop_last() == ids
            &&& callback_ids(after.surfaces@[id as int].frame_callbacks).last() == callback
            &&& end < u32::MAX ==> after.shell.states()[after.key(id)].frame_callback_end == end + 1
            &&& end == u32::MAX ==> after.shell.states()[after.key(id)].frame_callback_end == 0
            &&& asked.surfaces@[id as int].pending_state.buffer == before.surfaces@[id as int].pending_state.buffer
        }),
{
    committed_callbacks_are_kept(asked, after, id);
    let ids = callback_ids(before.surfaces@[id as int].frame_callbacks);
    assert(ids.push(callback).drop_last() =~= ids);
}

/// Sizes that are set on a top-level take effect with the next commit, and not before. The
/// geometry does so too.
pub proof fn sizes_and_geometry_are_applied<S: Shell>(
    before: Scene<S>,
    sized: Scene<S>,
    placed: Scene<S>,
    after: Scene<S>,
    id: usize,
    sizes: xdg::TopLevelState,
    geometry: Rectangle,
)
    requires
        id < before.surfaces@.len(),
        toplevel_of(before.surfaces@[id as int].role) is Some,
        (toplevel_of(before.surfaces@[id as int].role)->0).is_active,
        sizes_set(before, sized, id, sizes),
        geometry_set(sized, placed, id, geometry),
        !placed.refuses(id),
        commit_done(placed, after, id),
    ensures
        ({
            let old_role = toplevel_of(before.surfaces@[id as int].role)->0;
            &&& toplevel_of(placed.surfaces@[id as int].role) matches Some(role) && role.current == old_role.current
                && role.base.geometry == old_role.base.geometry && role.title == old_role.title && role.app_id
                == old_role.app_id
            &&& toplevel_of(after.surfaces@[id as int].role) matches Some(role) && {
                &&& role.current.min_size == sizes.min_size
                &&& role.current.max_size == sizes.max_size
                &&& role.base.geometry == Some(geometry)
                &&& role.title == old_role.title
                &&& role.app_id == old_role.app_id
            }
        }),
{
    commit_applies_top_level(placed, after, id);
}

/// A client that acknowledges the configure event that it was sent may attach a buffer: its
/// commit is not refused any more. No older event waits for an answer.
pub proof fn acknowledging_allows_buffers<S: Shell>(
    before: Scene<S>,
    sent: Scene<S>,
    after: Scene<S>,
    id: usize,
    serial: u32,
    i: int,
)
    requires
        id < before.surfaces@.len(),
        base_of(before.surfaces@[id as int].role) is Some,
        (base_of(before.surfaces@[id as int].role)->0).serial == serial,
        serial != 0,
        configure_sent(before, sent, id),
        configure_acknowledged(sent, after, id, serial),
    ensures
        ({
            let old_base = base_of(before.surfaces@[id as int].role)->0;
            let sent_base = base_of(sent.surfaces@[id as int].role)->0;
            let new_base = base_of(after.surfaces@[id as int].role)->0;
            &&& base_of(after.surfaces@[id as int].role) is Some
            &&& sent_base.pending_serial@.last() == serial
            &&& sent_base.pending_serial@.len() == old_base.pending_serial@.len() + 1
            &&& sent_base.last_ack == old_base.last_ack
            &&& new_base.last_ack == Some(serial)
            &&& new_base.serial != serial
            &&& new_base.geometry == old_base.geometry
            &&& (forall|k: int| 0 <= k < old_base.pending_serial@.len() ==> #[trigger] old_base.pending_serial@[k] <= serial)
                ==> new_base.pending_serial@.len() == 0
            &&& !after.refuses(id) || after.surfaces@[id as int].role->0 is Custom
        }),
{
    let old_base = base_of(before.surfaces@[id as int].role)->0;
    let sent_base = base_of(sent.surfaces@[id as int].role)->0;
    let pending = sent_base.pending_serial@;
    replacing_the_xdg_surface(before.surfaces@[id as int].role, sent_base);
    acknowledgement_stops_at_newer(pending, serial);
    if forall|k: int| 0 <= k < old_base.pending_serial@.len() ==> #[trigger] old_base.pending_serial@[k] <= serial {
        let n = acknowledged(pending, serial) as int;
        if n < pending.len() {
            if n < old_base.pending_serial@.len() {
                assert(pending[n] == old_base.pending_serial@[n]);
            }
        }
    }
    replacing_the_xdg_surface(
        sent.surfaces@[id as int].role,
        base_of(after.surfaces@[id as int].role)->0,
    );
}

} // verus!
