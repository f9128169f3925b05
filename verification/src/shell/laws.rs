//! What commits and subsurfaces are for, as a client sees it.
use vstd::prelude::*;
use crate::shell::attach::{attach_done, is_root, new_surface, role_deactivated, root_within};
use crate::shell::callbacks::callback_ids;
use crate::shell::destroy::{destroy_done, destroyed_surface, destroyed_surfaces};
use crate::shell::geometry::Point;
use crate::shell::roles::{Role, RoleState};
use crate::shell::scene::{commit_calls, commit_done, Scene, Surface};
use crate::shell::stack::{index_at, stack_entries, SurfaceStackEntry};
use crate::shell::surface::{entries_of, PendingSurfaceState, States, SurfaceState};
use crate::shell::tree::{item, order, order_upto, shown_only, shows};
use crate::shell::{Shell, ShellCall};

verus! {

/// A commit with an attached buffer makes it the current one, whatever buffer the surface
/// had before. The shell acquires it, and it is not attached any more.
pub proof fn committed_buffer_is_current<S: Shell>(before: Scene<S>, after: Scene<S>, id: usize, buffer: u32)
    requires
        id < before.surfaces@.len(),
        commit_done(before, after, id),
        !before.refuses(id),
        before.surfaces@[id as int].pending_state.buffer == Some(buffer),
    ensures
        after.shell.states().contains_key(after.key(id)),
        after.shell.states()[after.key(id)].buffer == Some(buffer),
        after.surfaces@[id as int].pending_state.buffer is None,
        after.shell.calls().len() > before.shell.calls().len(),
        after.shell.calls()[before.shell.calls().len() as int] == (ShellCall::AcquireBuffer { buffer }),
{
}

/// A commit without an attached buffer keeps the buffer that is shown, and acquires none.
pub proof fn commit_without_buffer_keeps_it<S: Shell>(before: Scene<S>, after: Scene<S>, id: usize)
    requires
        id < before.surfaces@.len(),
        commit_done(before, after, id),
        !before.refuses(id),
        before.surfaces@[id as int].pending_state.buffer is None,
    ensures
        after.shell.states()[after.key(id)].buffer == before.shell.states()[before.key(id)].buffer,
        forall|i: int|
            before.shell.calls().len() <= i < after.shell.calls().len() ==> !((#[trigger] after.shell.calls()[i])
                is AcquireBuffer),
{
}

/// A commit applies the scale that was set, and keeps the scale otherwise.
pub proof fn committed_scale_is_current<S: Shell>(before: Scene<S>, after: Scene<S>, id: usize)
    requires
        id < before.surfaces@.len(),
        commit_done(before, after, id),
        !before.refuses(id),
    ensures
        before.surfaces@[id as int].pending_state.buffer_scale matches Some(scale) ==> after.shell.states()[after.key(
            id,
        )].buffer_scale == scale,
        before.surfaces@[id as int].pending_state.buffer_scale is None ==> after.shell.states()[after.key(
            id,
        )].buffer_scale == before.shell.states()[before.key(id)].buffer_scale,
{
}

/// What stands in the stack of a surface after a commit is what stood in its pending
/// stack, in the same order and at the same positions. What is pending stays as it is.
pub proof fn committed_stack_is_current<S: Shell>(before: Scene<S>, after: Scene<S>, id: usize, i: int)
    requires
        id < before.surfaces@.len(),
        commit_done(before, after, id),
        !before.refuses(id),
    ensures
        ({
            let pending = stack_entries(before.surfaces@[id as int].pending_state.stack);
            let current = stack_entries(after.shell.states()[after.key(id)].stack);
            &&& current.len() == pending.len()
            &&& 0 <= i < pending.len() ==> current[i] == pending[i]
            &&& stack_entries(after.surfaces@[id as int].pending_state.stack) == pending
        }),
{
}

/// The frame callbacks that were asked for up to a commit belong to the state that it
/// makes current. None is lost, and none is fired.
pub proof fn committed_callbacks_are_kept<S: Shell>(before: Scene<S>, after: Scene<S>, id: usize)
    requires
        id < before.surfaces@.len(),
        commit_done(before, after, id),
        !before.refuses(id),
    ensures
        after.shell.states()[after.key(id)].frame_callback_end
            == before.surfaces@[id as int].pending_state.frame_callback_end,
        callback_ids(after.surfaces@[id as int].frame_callbacks) == callback_ids(
            before.surfaces@[id as int].frame_callbacks,
        ),
        after.surfaces@[id as int].first_frame_callback_index == before.surfaces@[id as int].first_frame_callback_index,
{
}

/// A commit makes a new state, which is the newest one, and which is the state of the
/// surface. The shell hears of it last.
pub proof fn commit_makes_a_new_state<S: Shell>(before: Scene<S>, after: Scene<S>, id: usize, token: u64)
    requires
        id < before.surfaces@.len(),
        commit_done(before, after, id),
        !before.refuses(id),
        before.shell.states().contains_key(token),
    ensures
        token < after.key(id),
        after.shell.states()[after.key(id)].surface == before.shell.states()[before.key(id)].surface,
        after.shell.calls().last() == (ShellCall::PostCommit { old: Some(before.key(id)), new: after.key(id) }),
{
    assert(after.shell.calls().last() == commit_calls(before, id, after.key(id)).last());
}

/// A commit of one surface changes nothing that is shown of another one: it keeps its
/// current state, and each state that is kept keeps its buffer, its scale, its stack, and
/// the surface that it is a state of.
pub proof fn commit_changes_one_surface<S: Shell>(before: Scene<S>, after: Scene<S>, id: usize, other: usize, token: u64)
    requires
        id < before.surfaces@.len(),
        commit_done(before, after, id),
        other != id,
        other < before.surfaces@.len(),
        id < before.surfaces@.len(),
    ensures
        after.surfaces@[other as int].current == before.surfaces@[other as int].current,
        after.surfaces@[other as int].role == before.surfaces@[other as int].role,
        after.surfaces@[other as int].object_id == before.surfaces@[other as int].object_id,
        after.surfaces@[other as int].pending_state.buffer == before.surfaces@[other as int].pending_state.buffer,
        before.shell.states().contains_key(token) && after.shell.states().contains_key(token) ==> {
            let old_state = before.shell.states()[token];
            let new_state = after.shell.states()[token];
            &&& new_state.buffer == old_state.buffer
            &&& new_state.buffer_scale == old_state.buffer_scale
            &&& stack_entries(new_state.stack) == stack_entries(old_state.stack)
            &&& new_state.frame_callback_end == old_state.frame_callback_end
            &&& new_state.surface == old_state.surface
        },
{
    assert(after.surfaces@[other as int] == after.surfaces@[other as int]);
}

/// A commit that the role refuses changes no state, and nobody hears of it. What is
/// pending stays pending.
pub proof fn refused_commit_changes_nothing<S: Shell>(before: Scene<S>, after: Scene<S>, id: usize)
    requires
        id < before.surfaces@.len(),
        commit_done(before, after, id),
        before.refuses(id),
    ensures
        after.shell.states() == before.shell.states(),
        after.shell.calls() == before.shell.calls(),
        after.surfaces@[id as int].current == before.surfaces@[id as int].current,
        after.surfaces@[id as int].pending_state == before.surfaces@[id as int].pending_state,
{
}

/// Only an active role can refuse a commit. A top-level refuses exactly the commits that
/// attach a buffer before a configure event was acknowledged, and a subsurface none.
pub proof fn who_refuses_commits<S: Shell>(scene: Scene<S>, id: usize)
    requires
        id < scene.surfaces@.len(),
    ensures
        match scene.surfaces@[id as int].role {
            None => !scene.refuses(id),
            Some(Role::Subsurface(_)) | Some(Role::XdgSurface(_)) => !scene.refuses(id),
            Some(Role::XdgTopLevel(role)) => scene.refuses(id) == (role.is_active && role.base.last_ack is None
                && scene.surfaces@[id as int].pending_state.buffer is Some),
            Some(Role::Custom(role)) => scene.refuses(id) == (role.is_active && role.refusal is Some),
        },
{
}

/// A commit of an active top-level applies what was set on it: the sizes and the
/// geometry. The layout is announced exactly where no configure event was sent before.
pub proof fn commit_applies_top_level<S: Shell>(before: Scene<S>, after: Scene<S>, id: usize)
    requires
        id < before.surfaces@.len(),
        commit_done(before, after, id),
        !before.refuses(id),
    ensures
        before.surfaces@[id as int].role matches Some(Role::XdgTopLevel(old_role)) ==> (old_role.is_active ==> (
        after.surfaces@[id as int].role matches Some(Role::XdgTopLevel(new_role)) && {
            &&& new_role.current.min_size == old_role.pending.min_size
            &&& new_role.current.max_size == old_role.pending.max_size
            &&& new_role.pending == old_role.pending
            &&& new_role.base.geometry == old_role.base.pending_geometry
            &&& new_role.base.pending_geometry == old_role.base.pending_geometry
            &&& new_role.base.pending_serial == old_role.base.pending_serial
            &&& new_role.base.last_ack == old_role.base.last_ack
            &&& new_role.base.serial == old_role.base.serial
            &&& new_role.title == old_role.title
            &&& new_role.app_id == old_role.app_id
            &&& if old_role.base.pending_serial@.len() == 0 && old_role.base.last_ack is None {
                after.layout_changes@ == before.layout_changes@.push(id)
            } else {
                after.layout_changes@ == before.layout_changes@
            }
        })),
        !(before.surfaces@[id as int].role is Some && before.surfaces@[id as int].role->0 is XdgTopLevel)
            ==> after.layout_changes@ == before.layout_changes@ && after.surfaces@[id as int].role
            == before.surfaces@[id as int].role,
{
}

/// When a subsurface commits, its parent still shows what it has shown. The new state
/// takes the place of the old one where it stands in the pending stack of the parent, at
/// the same position, and all others stay where they are.
pub proof fn subsurface_commit_waits_for_parent<S: Shell>(before: Scene<S>, after: Scene<S>, id: usize, at: int)
    requires
        id < before.surfaces@.len(),
        commit_done(before, after, id),
        !before.refuses(id),
        before.is_subsurface(id),
        before.subsurface(id).parent is Some,
        before.subsurface(id).parent->0 != id,
        before.subsurface(id).parent->0 < before.surfaces@.len(),
        index_at(
            stack_entries(before.surfaces@[before.subsurface(id).parent->0 as int].pending_state.stack),
            before.subsurface(id).stack_index,
            at,
        ),
    ensures
        ({
            let p = before.subsurface(id).parent->0 as int;
            let old_stack = stack_entries(before.surfaces@[p].pending_state.stack);
            let new_stack = stack_entries(after.surfaces@[p].pending_state.stack);
            &&& after.surfaces@[p].current == before.surfaces@[p].current
            &&& new_stack.len() == old_stack.len()
            &&& new_stack[at].1 == (SurfaceStackEntry::Subsurface {
                token: after.key(id),
                position: old_stack[at].1->position,
            })
            &&& forall|i: int| 0 <= i < old_stack.len() && i != at ==> #[trigger] new_stack[i] == old_stack[i]
            &&& after.shell.states()[after.key(id)].role_state matches Some(RoleState::Subsurface(state))
                && state.parent is None
        }),
{
    let p = before.subsurface(id).parent->0 as int;
    let index = before.subsurface(id).stack_index;
    let old_stack = stack_entries(before.surfaces@[p].pending_state.stack);
    assert(index_at(old_stack, index, at));
}

/// A surface that is attached to a parent is the lowest in its pending stack, at the
/// origin, and all others stay in order. The parent shows it only once it commits. The
/// shell hears of the role.
pub proof fn attached_surface_is_lowest<S: Shell>(before: Scene<S>, after: Scene<S>, parent: usize, surface: usize)
    requires
        attach_done(before, after, parent, surface),
        parent < before.surfaces@.len(),
        surface < before.surfaces@.len(),
    ensures
        ({
            let old_stack = stack_entries(before.surfaces@[parent as int].pending_state.stack);
            let new_stack = stack_entries(after.surfaces@[parent as int].pending_state.stack);
            &&& new_stack.len() == old_stack.len() + 1
            &&& new_stack[0].1 matches SurfaceStackEntry::Subsurface { token, position } && token == before.key(surface)
                && position.x == 0 && position.y == 0
            &&& forall|i: int| 0 <= i < old_stack.len() ==> #[trigger] old_stack[i] == new_stack[i + 1]
            &&& after.surfaces@[surface as int].role matches Some(Role::Subsurface(role)) && role.is_active && role.parent
                == Some(parent) && role.stack_index == new_stack[0].0 && role.sync
            &&& after.surfaces@[parent as int].current == before.surfaces@[parent as int].current
            &&& after.surfaces@[surface as int].current == before.surfaces@[surface as int].current
            &&& after.shell.states().dom() == before.shell.states().dom().insert(before.key(surface))
            &&& forall|t: u64|
                t != before.key(surface) ==> (#[trigger] after.shell.states()[t] == before.shell.states()[t]
                    || !before.shell.states().contains_key(t))
            &&& after.shell.calls().len() == before.shell.calls().len() + 1
            &&& after.shell.calls().last() matches ShellCall::RoleAdded { key, .. } && key == before.key(surface)
        }),
{
}

/// Deactivating a subsurface takes exactly its entry out of the pending stack of its
/// parent, at once. No state changes, and the surface keeps its role, so that it cannot
/// get another one.
pub proof fn deactivated_subsurface_is_taken_out<S: Shell>(before: Scene<S>, after: Scene<S>, id: usize, at: int)
    requires
        id < before.surfaces@.len(),
        role_deactivated(before, after, id),
        before.is_subsurface(id),
        before.subsurface(id).parent is Some,
        before.subsurface(id).parent->0 != id,
        before.subsurface(id).parent->0 < before.surfaces@.len(),
        index_at(
            stack_entries(before.surfaces@[before.subsurface(id).parent->0 as int].pending_state.stack),
            before.subsurface(id).stack_index,
            at,
        ),
    ensures
        ({
            let p = before.subsurface(id).parent->0 as int;
            let old_stack = stack_entries(before.surfaces@[p].pending_state.stack);
            let new_stack = stack_entries(after.surfaces@[p].pending_state.stack);
            &&& new_stack.len() == old_stack.len() - 1
            &&& forall|i: int| 0 <= i < at ==> #[trigger] new_stack[i] == old_stack[i]
            &&& forall|i: int| at <= i < new_stack.len() ==> #[trigger] new_stack[i] == old_stack[i + 1]
            &&& after.shell.states() == before.shell.states()
            &&& after.surfaces@[id as int].role matches Some(Role::Subsurface(role)) && !role.is_active && role.parent
                is None
            &&& after.shell.calls().len() == before.shell.calls().len() + 1
            &&& after.shell.calls().last() matches ShellCall::RoleDeactivated { key, .. } && key == before.key(id)
        }),
{
    let p = before.subsurface(id).parent->0 as int;
    let old_stack = stack_entries(before.surfaces@[p].pending_state.stack);
    assert(index_at(old_stack, before.subsurface(id).stack_index, at));
}

/// A surface that was destroyed has no state any more. No other surface loses its current
/// state, or what is pending for it.
pub proof fn destroyed_surface_is_gone<S: Shell>(before: Scene<S>, after: Scene<S>, id: usize, other: usize)
    requires
        destroy_done(before, after, id),
        id < before.surfaces@.len(),
        other < before.surfaces@.len(),
        other != id,
    ensures
        after.surfaces@[id as int].current is None,
        after.surfaces@.len() == before.surfaces@.len(),
        after.surfaces@[other as int].current == before.surfaces@[other as int].current,
        after.surfaces@[other as int].pending_state.buffer == before.surfaces@[other as int].pending_state.buffer,
        after.surfaces@[other as int].object_id == before.surfaces@[other as int].object_id,
        callback_ids(after.surfaces@[id as int].frame_callbacks) == callback_ids(
            before.surfaces@[id as int].frame_callbacks,
        ),
{
    let mid = choose|mid: Scene<S>| #[trigger]
        role_deactivated(before, mid, id) && mid.shell.valid() && destroyed_surfaces(mid, after, id);
    assert(after.surfaces@[other as int] == destroyed_surface(mid, id, other as int));
    assert(after.surfaces@[id as int] == destroyed_surface(mid, id, id as int));
    assert(mid.surfaces@[other as int] == mid.surfaces@[other as int]);
}

/// What is shown with a state is shown from bottom to top, as it stands in the stack: what
/// comes from the entries below an entry comes first, then what comes from that entry. The
/// state itself is shown where it stands, and a subsurface with all that is shown with it,
/// moved by its position.
pub proof fn stacks_are_shown_from_bottom_to_top(m: States, t: u64, i: int, off: Point)
    requires
        0 <= i < entries_of(m, t).len(),
    ensures
        ({
            let all = order(m, t, off);
            let below = order_upto(m, t, i, off).len() as int;
            &&& below <= all.len()
            &&& all.take(below) == order_upto(m, t, i, off)
            &&& entries_of(m, t)[i].1 is Self_ ==> below < all.len() && all[below].0 == t && all[below].1 == off
            &&& entries_of(m, t)[i].1 matches SurfaceStackEntry::Subsurface { token, position } ==> (token < t ==> {
                let shown = order(m, token, off.plus(position));
                below + shown.len() <= all.len() && all.subrange(below, below + shown.len()) == shown
            })
        }),
{
    let n = entries_of(m, t).len() as int;
    lemma_order_prefix(m, t, i, n, off);
    lemma_order_prefix(m, t, i + 1, n, off);
    let all = order(m, t, off);
    let first = order_upto(m, t, i, off);
    let next = order_upto(m, t, i + 1, off);
    let own = item(m, t, i, off);
    assert(next == first + own);
    assert(next.take(first.len() as int) =~= first);
    match entries_of(m, t)[i].1 {
        SurfaceStackEntry::Self_ => {
            assert(own == seq![(t, off)]);
            assert(next[first.len() as int] == (t, off));
            assert(all[first.len() as int] == all.take(next.len() as int)[first.len() as int]);
        },
        SurfaceStackEntry::Subsurface { token, position } => {
            if token < t {
                let shown = order(m, token, off.plus(position));
                assert(own == shown);
                assert(all.subrange(first.len() as int, (first.len() + shown.len()) as int) =~= all.take(
                    next.len() as int,
                ).skip(first.len() as int));
                assert(next.skip(first.len() as int) =~= shown);
            }
        },
    }
}

proof fn lemma_order_prefix(m: States, t: u64, i: int, n: int, off: Point)
    requires
        0 <= i <= n,
    ensures
        order_upto(m, t, i, off).len() <= order_upto(m, t, n, off).len(),
        order_upto(m, t, n, off).take(order_upto(m, t, i, off).len() as int) == order_upto(m, t, i, off),
    decreases n - i,
{
    let first = order_upto(m, t, i, off);
    let all = order_upto(m, t, n, off);
    if i == n {
        assert(all.take(first.len() as int) =~= first);
    } else {
        lemma_order_prefix(m, t, i, n - 1, off);
        let part = order_upto(m, t, n - 1, off);
        assert(all.take(first.len() as int) =~= part.take(first.len() as int));
    }
}

/// A surface is shown unless it is a subsurface whose role was deactivated. What is not
/// shown is left out, and the others stay in order.
pub proof fn inactive_subsurfaces_are_left_out(m: States, surfaces: Seq<Surface>, t: u64, list: Seq<(u64, Point)>)
    requires
        m[t].surface < surfaces.len(),
    ensures
        surfaces[m[t].surface as int].role is None ==> shows(m, surfaces, t),
        surfaces[m[t].surface as int].role matches Some(Role::Subsurface(role)) ==> shows(m, surfaces, t) == role.is_active,
        surfaces[m[t].surface as int].role matches Some(Role::XdgTopLevel(role)) ==> shows(m, surfaces, t),
        shown_only(m, surfaces, list) == list.filter(|e: (u64, Point)| shows(m, surfaces, e.0)),
{
}

/// A role that is deactivated is not active, and stays the role it is. Only a subsurface
/// loses something, which is its parent.
pub proof fn deactivated_roles_stay(role: Role)
    ensures
        !role.deactivated().active(),
        role.deactivated().spec_name() == role.spec_name(),
        role.deactivated().refusal(true) == role.refusal(true),
        match (role, role.deactivated()) {
            (Role::Subsurface(a), Role::Subsurface(b)) => b.parent is None && b.stack_index == a.stack_index && b.sync
                == a.sync && b.inherited_sync == a.inherited_sync,
            (Role::XdgSurface(a), Role::XdgSurface(b)) => a.geometry == b.geometry && a.pending_serial
                == b.pending_serial && a.last_ack == b.last_ack && a.object_id == b.object_id,
            (Role::XdgTopLevel(a), Role::XdgTopLevel(b)) => a.base == b.base && a.title == b.title && a.app_id == b.app_id
                && a.current == b.current && a.pending == b.pending && a.object_id == b.object_id,
            (Role::Custom(a), Role::Custom(b)) => a.name == b.name && a.state == b.state && a.refusal == b.refusal,
            _ => false,
        },
{
}

/// The name of a role is the name of its interface. A role is active unless it was
/// deactivated.
pub proof fn roles_are_named(role: Role)
    ensures
        match role {
            Role::Subsurface(r) => role.spec_name()@ == "wl_subsurface"@ && role.active() == r.is_active,
            Role::XdgSurface(r) => role.spec_name()@ == "xdg_surface"@ && role.active() == r.active,
            Role::XdgTopLevel(r) => role.spec_name()@ == "xdg_toplevel"@ && role.active() == r.is_active,
            Role::Custom(r) => role.spec_name() == r.name && role.active() == r.is_active,
        },
{
}

/// The changes that a commit applies are all that was set, and what was not set is kept.
pub proof fn changes_are_applied(state: SurfaceState, changes: PendingSurfaceState, new: SurfaceState)
    requires
        state.changed(changes, new),
    ensures
        changes.buffer matches Some(buffer) ==> new.buffer == Some(buffer),
        changes.buffer is None ==> new.buffer == state.buffer,
        changes.buffer_scale matches Some(scale) ==> new.buffer_scale == scale,
        changes.buffer_scale is None ==> new.buffer_scale == state.buffer_scale,
        new.frame_callback_end == changes.frame_callback_end,
        stack_entries(new.stack) == stack_entries(changes.stack),
        new.surface == state.surface,
        changes.role_state is Some ==> state.next_role_state(changes) == changes.role_state,
        changes.role_state is None ==> state.next_role_state(changes) == state.role_state,
{
}

/// Setting the parent of a state changes nothing but its parent, and changes nothing at all
/// where it is not the state of a subsurface.
pub proof fn parents_are_set_alone(state: SurfaceState, parent: Option<u64>)
    ensures
        ({
            let new = state.with_parent(parent);
            &&& state.is_subsurface() ==> new.spec_parent() == parent && new.is_subsurface()
            &&& !state.is_subsurface() ==> new == state && state.spec_parent() is None
            &&& new.buffer == state.buffer
            &&& new.buffer_scale == state.buffer_scale
            &&& new.surface == state.surface
            &&& new.frame_callback_end == state.frame_callback_end
            &&& stack_entries(new.stack) == stack_entries(state.stack)
        }),
{
}

/// A surface that is no subsurface is its own root. The root of a subsurface is the root of
/// its parent.
pub proof fn roots_are_found_through_parents(surfaces: Seq<Surface>, s: int, parent: usize, root: usize)
    requires
        0 <= s < surfaces.len(),
        surfaces.len() <= usize::MAX,
    ensures
        !(surfaces[s].role matches Some(Role::Subsurface(_))) ==> (is_root(surfaces, s, root) <==> root == s),
        surfaces[s].role matches Some(Role::Subsurface(role)) ==> (role.parent == Some(parent) ==> (is_root(
            surfaces,
            s,
            root,
        ) <==> is_root(surfaces, parent as int, root))),
{
    if !(surfaces[s].role matches Some(Role::Subsurface(_))) {
        assert(root_within(surfaces, s, 1) == Some(s as usize));
        if is_root(surfaces, s, root) {
            let steps = choose|steps: nat| #[trigger] root_within(surfaces, s, steps) == Some(root);
            assert(steps > 0);
        }
    } else if surfaces[s].role matches Some(Role::Subsurface(role)) && role.parent == Some(parent) {
        if is_root(surfaces, s, root) {
            let steps = choose|steps: nat| #[trigger] root_within(surfaces, s, steps) == Some(root);
            assert(root_within(surfaces, parent as int, (steps - 1) as nat) == Some(root));
        }
        if is_root(surfaces, parent as int, root) {
            let steps = choose|steps: nat| #[trigger] root_within(surfaces, parent as int, steps) == Some(root);
            assert(root_within(surfaces, s, steps + 1) == root_within(surfaces, parent as int, steps));
        }
    }
}

/// A new surface shows nothing: it has no buffer, no role, no callbacks and no subsurfaces,
/// and its scale is one. It is not in any stack but its own.
pub proof fn new_surfaces_show_nothing<S: Shell>(before: Scene<S>, after: Scene<S>, object_id: u32)
    requires
        new_surface(before, after, object_id),
        before.surfaces@.len() < usize::MAX,
    ensures
        ({
            let id = before.surfaces@.len() as usize;
            let state = after.shell.states()[after.key(id)];
            let surface = after.surfaces@[id as int];
            &&& after.surfaces@.len() == before.surfaces@.len() + 1
            &&& after.surfaces@.drop_last() == before.surfaces@
            &&& surface.object_id == object_id
            &&& surface.role is None
            &&& callback_ids(surface.frame_callbacks).len() == 0
            &&& surface.pending_state.buffer is None
            &&& state.buffer is None
            &&& state.buffer_scale == 120
            &&& state.surface == id
            &&& stack_entries(state.stack).len() == 1
            &&& stack_entries(state.stack)[0].1 is Self_
            &&& !before.shell.states().contains_key(after.key(id))
        }),
{
    assert(after.surfaces@.drop_last() =~= before.surfaces@);
}

} // verus!
