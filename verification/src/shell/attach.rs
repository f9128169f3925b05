//! Attaching surfaces to others, and detaching them.
use dlv_list::Index;
use vstd::prelude::*;
use crate::objects::outputs::OutputSet;
use crate::server::events::SingleState;
use crate::shell::callbacks::{callback_ids, FrameCallbacks};
use crate::shell::geometry::Point;
use crate::shell::roles::{Role, RoleState, Subsurface, SubsurfaceState, SUBSURFACE_NAME};
use crate::shell::scene::{has_subsurface_at, Scene, Surface};
use crate::shell::stack::{clone_stack, has_index, index_at, push_front, remove, stack_entries, SurfaceStackEntry};
use crate::shell::surface::{
    child_at, entries_of, forest, has_child, has_parent, state_linked, PendingSurfaceState, States, SurfaceState,
};
use crate::shell::{Shell, ShellCall};

verus! {

/// The parent of a surface that has the subsurface role. The role keeps no
/// parent once it is inactive.
pub open spec fn parent_link(surfaces: Seq<Surface>, s: int) -> Option<usize> {
    match surfaces[s].role {
        Some(Role::Subsurface(role)) => role.parent,
        _ => None,
    }
}

/// The surface has the subsurface role, active or not.
pub open spec fn has_subsurface_role(surfaces: Seq<Surface>, s: int) -> bool {
    surfaces[s].role matches Some(Role::Subsurface(_))
}

/// The surface that following parent links from `s` ends at, if it takes fewer
/// than `steps` steps. An inactive subsurface has no root.
pub open spec fn root_within(surfaces: Seq<Surface>, s: int, steps: nat) -> Option<usize>
    decreases steps,
{
    if steps == 0 || !(0 <= s < surfaces.len()) {
        None
    } else if !has_subsurface_role(surfaces, s) {
        Some(s as usize)
    } else {
        match parent_link(surfaces, s) {
            Some(parent) => root_within(surfaces, parent as int, (steps - 1) as nat),
            None => None,
        }
    }
}

/// The parent links of `s` end at the surface `root`.
pub open spec fn is_root(surfaces: Seq<Surface>, s: int, root: usize) -> bool {
    exists|steps: nat| #[trigger] root_within(surfaces, s, steps) == Some(root)
}

/// The parent links of `s` end.
pub open spec fn rooted(surfaces: Seq<Surface>, s: int) -> bool {
    exists|root: usize| is_root(surfaces, s, root)
}

/// A surface has one root.
pub proof fn lemma_root_unique(surfaces: Seq<Surface>, s: int, a: nat, b: nat)
    requires
        root_within(surfaces, s, a) is Some,
        root_within(surfaces, s, b) is Some,
    ensures
        root_within(surfaces, s, a) == root_within(surfaces, s, b),
    decreases a,
{
    if has_subsurface_role(surfaces, s) {
        lemma_root_unique(surfaces, parent_link(surfaces, s)->0 as int, (a - 1) as nat, (b - 1) as nat);
    }
}

/// The surface `x`, which had no subsurface role, became the child of `parent`,
/// and no other surface changed its role.
pub open spec fn became_child(before: Seq<Surface>, after: Seq<Surface>, x: int, parent: usize) -> bool {
    &&& before.len() == after.len() <= usize::MAX
    &&& 0 <= x < before.len()
    &&& !has_subsurface_role(before, x)
    &&& has_subsurface_role(after, x)
    &&& parent_link(after, x) == Some(parent)
    &&& forall|j: int| 0 <= j < before.len() && j != x ==> (#[trigger] after[j]).role == before[j].role
}

/// Parent links that did not end at the new child end where they did.
proof fn lemma_root_kept(before: Seq<Surface>, after: Seq<Surface>, x: int, parent: usize, s: int, steps: nat, k: nat)
    requires
        became_child(before, after, x, parent),
        root_within(before, s, steps) is Some,
        root_within(before, s, steps) != Some(x as usize),
        k >= steps,
    ensures
        root_within(after, s, k) == root_within(before, s, steps),
    decreases steps,
{
    assert(s != x);
    assert(after[s].role == before[s].role);
    if has_subsurface_role(before, s) {
        let p = parent_link(before, s)->0;
        lemma_root_kept(before, after, x, parent, p as int, (steps - 1) as nat, (k - 1) as nat);
    }
}

/// Parent links that ended at the new child now end at the root of its parent.
proof fn lemma_root_moved(
    before: Seq<Surface>,
    after: Seq<Surface>,
    x: int,
    parent: usize,
    s: int,
    steps: nat,
    more: nat,
)
    requires
        became_child(before, after, x, parent),
        root_within(before, parent as int, more) is Some,
        root_within(before, parent as int, more) != Some(x as usize),
        root_within(before, s, steps) == Some(x as usize),
    ensures
        root_within(after, s, steps + more) == root_within(before, parent as int, more),
    decreases steps,
{
    if s == x {
        lemma_root_kept(before, after, x, parent, parent as int, more, (steps + more - 1) as nat);
    } else {
        assert(after[s].role == before[s].role);
        let p = parent_link(before, s)->0;
        lemma_root_moved(before, after, x, parent, p as int, (steps - 1) as nat, more);
    }
}

/// Attaching a surface to one with another root makes no cycle: a surface that
/// had a root still has one.
pub proof fn attach_keeps_roots(before: Seq<Surface>, after: Seq<Surface>, x: int, parent: usize, parent_root: usize, s: int, root: usize)
    requires
        became_child(before, after, x, parent),
        is_root(before, parent as int, parent_root),
        parent_root != x,
        is_root(before, s, root),
    ensures
        is_root(after, s, if root == x { parent_root } else { root }),
{
    let more = choose|more: nat| #[trigger] root_within(before, parent as int, more) == Some(parent_root);
    let steps = choose|steps: nat| #[trigger] root_within(before, s, steps) == Some(root);
    if root == x {
        lemma_root_moved(before, after, x, parent, s, steps, more);
    } else {
        lemma_root_kept(before, after, x, parent, s, steps, steps);
    }
}

/// What creating a surface makes of the surfaces: there is one more, with a state of
/// its own, which can be committed.
pub open spec fn new_surface<S: Shell>(before: Scene<S>, after: Scene<S>, object_id: u32) -> bool {
    let id = before.surfaces@.len() as usize;
    let surface = after.surfaces@[id as int];
    let state = after.shell.states()[after.key(id)];
    &&& after.layout_changes == before.layout_changes
    &&& after.surfaces@ == before.surfaces@.push(surface)
    &&& surface.current is Some
    &&& forall|t: u64| before.shell.states().contains_key(t) ==> t < after.key(id)
    &&& after.shell.states() == before.shell.states().insert(after.key(id), state)
    &&& state.surface == id
    &&& state.frame_callback_end == 0
    &&& stack_entries(state.stack) == seq![(state.stack_index, SurfaceStackEntry::Self_)]
    &&& state.buffer is None
    &&& state.buffer_scale == 120
    &&& state.role_state is None
    &&& stack_entries(surface.pending_state.stack) == stack_entries(state.stack)
    &&& surface.pending_state.buffer is None
    &&& surface.pending_state.buffer_scale is None
    &&& surface.pending_state.role_state is None
    &&& surface.pending_state.frame_callback_end == 0
    &&& callback_ids(surface.frame_callbacks) == Seq::<u32>::empty()
    &&& surface.first_frame_callback_index == 0
    &&& surface.role is None
    &&& surface.outputs.view() == Set::<u32>::empty()
    &&& surface.output_change_events.state is None
    &&& surface.output_change_events.version == 0
    &&& surface.object_id == object_id
    &&& forest(before.shell.states()) ==> forest(after.shell.states()) && after.committable(id)
}

impl Surface {
    /// Create a new surface. Returns its number in the scene.
    pub fn new<S: Shell>(object_id: u32, scene: &mut Scene<S>) -> (id: usize)
        requires
            old(scene).shell.valid(),
            old(scene).shell.spec_has_room(),
            old(scene).surfaces@.len() < usize::MAX,
        ensures
            final(scene).shell.valid(),
            final(scene).shell.calls() == old(scene).shell.calls(),
            id == old(scene).surfaces@.len(),
            new_surface(*old(scene), *final(scene), object_id),
    {
        let id: usize = scene.surfaces.len();
        let state = SurfaceState::new(id);
        let pending_state = PendingSurfaceState {
            stack: clone_stack(&state.stack),
            buffer: None,
            role_state: None,
            buffer_scale: None,
            frame_callback_end: 0,
        };
        let ghost m = scene.shell.states();
        let ghost state0 = state;
        let key: u64 = scene.shell.allocate(state);
        scene.surfaces.push(
            Surface {
                current: Some(key),
                pending_state,
                frame_callbacks: FrameCallbacks::new(),
                first_frame_callback_index: 0,
                role: None,
                outputs: OutputSet::new(),
                output_change_events: SingleState::new(),
                object_id,
            },
        );
        proof {
            let m2 = scene.shell.states();
            assert(index_at(stack_entries(state0.stack), state0.stack_index, 0));
            if forest(m) {
                lemma_lone_state_added(m, m2, key);
            }
        }
        id
    }

    /// Get the parent surface if this surface has a subsurface role.
    pub fn parent<S: Shell>(scene: &Scene<S>, id: usize) -> (r: Option<usize>)
        requires
            id < scene.surfaces@.len(),
            has_subsurface_role(scene.surfaces@, id as int) ==> parent_link(scene.surfaces@, id as int) is Some,
        ensures
            r is Some == has_subsurface_role(scene.surfaces@, id as int),
            r == parent_link(scene.surfaces@, id as int),
    {
        match &scene.surfaces[id].role {
            Some(Role::Subsurface(role)) => role.parent,
            _ => None,
        }
    }

    /// Follow the parent link of this surface until the root is reached.
    pub fn root<S: Shell>(scene: &Scene<S>, id: usize) -> (r: usize)
        requires
            rooted(scene.surfaces@, id as int),
        ensures
            is_root(scene.surfaces@, id as int, r),
            r < scene.surfaces@.len(),
            !has_subsurface_role(scene.surfaces@, r as int),
    {
        let ghost surfaces = scene.surfaces@;
        let ghost target = choose|root: usize| is_root(surfaces, id as int, root);
        let ghost total = choose|steps: nat| #[trigger] root_within(surfaces, id as int, steps) == Some(target);
        let ghost mut steps: nat = total;
        let mut root: usize = id;
        proof {
            assert(root_within(surfaces, root as int, steps) == Some(target));
        }
        loop
            invariant
                surfaces == scene.surfaces@,
                root_within(surfaces, root as int, steps) == Some(target),
                root_within(surfaces, id as int, total) == Some(target),
            decreases steps,
        {
            match Surface::parent(scene, root) {
                Some(next) => {
                    root = next;
                    proof {
                        steps = (steps - 1) as nat;
                    }
                },
                None => {
                    return root;
                },
            }
        }
    }

    /// Add a frame callback.
    pub fn add_frame_callback(&mut self, callback: u32)
        ensures
            callback_ids(final(self).frame_callbacks) == callback_ids(old(self).frame_callbacks).push(callback),
            *final(self) == (Surface {
                frame_callbacks: final(self).frame_callbacks,
                pending_state: PendingSurfaceState {
                    frame_callback_end: if old(self).pending_state.frame_callback_end == u32::MAX {
                        0
                    } else {
                        (old(self).pending_state.frame_callback_end + 1) as u32
                    },
                    ..old(self).pending_state
                },
                ..*old(self)
            }),
    {
        self.frame_callbacks.push_back(callback);
        self.pending_state.frame_callback_end = self.pending_state.frame_callback_end.wrapping_add(1);
    }

    /// Assign a role to this surface.
    pub fn set_role<S: Shell>(scene: &mut Scene<S>, id: usize, role: Role)
        requires
            old(scene).shell.valid(),
            id < old(scene).surfaces@.len(),
            old(scene).surfaces@[id as int].current is Some,
        ensures
            final(scene).shell.valid(),
            final(scene).shell.states() == old(scene).shell.states(),
            final(scene).shell.spec_has_room() == old(scene).shell.spec_has_room(),
            final(scene).shell.calls() == old(scene).shell.calls().push(
                ShellCall::RoleAdded { key: old(scene).key(id), role: role.spec_name() },
            ),
            final(scene).layout_changes == old(scene).layout_changes,
            final(scene).surfaces@ == old(scene).surfaces@.update(
                id as int,
                Surface { role: Some(role), ..old(scene).surfaces@[id as int] },
            ),
    {
        let role_name = role.name();
        scene.surfaces[id].role = Some(role);
        let key: u64 = scene.surfaces[id].current.unwrap();
        scene.shell.role_added(key, role_name);
        proof {
            assert(scene.surfaces@ =~= old(scene).surfaces@.update(
                id as int,
                Surface { role: Some(role), ..old(scene).surfaces@[id as int] },
            ));
        }
    }
}

/// A state without subsurfaces can be added.
proof fn lemma_lone_state_added(m: States, m2: States, key: u64)
    requires
        forest(m),
        forall|t: u64| m.contains_key(t) ==> t < key,
        m2 == m.insert(key, m2[key]),
        stack_entries(m2[key].stack) == seq![(m2[key].stack_index, SurfaceStackEntry::Self_)],
    ensures
        forest(m2),
{
    assert(!m.contains_key(key));
    assert(index_at(entries_of(m2, key), m2[key].stack_index, 0));
    assert forall|t: u64, c: u64| m2.contains_key(t) && #[trigger] has_child(m2, t, c) implies t != key && has_child(m, t, c) by {
        let i = choose|i: int| child_at(m2, t, c, i);
        assert(t != key);
        assert(child_at(m, t, c, i));
    }
    assert forall|t: u64| #[trigger] m2.contains_key(t) implies state_linked(m2, t) by {
        if t != key {
            assert(m.contains_key(t));
            assert(state_linked(m, t));
        }
    }
    assert forall|t: u64, c: u64| m2.contains_key(t) && #[trigger] has_child(m2, t, c) implies has_parent(m2, c) by {
        assert(has_child(m, t, c));
        assert(m.contains_key(t));
        assert(has_parent(m, c));
        let p = m[c].spec_parent()->0;
        assert(state_linked(m, t));
        let i = choose|i: int| child_at(m, p, c, i);
        assert(child_at(m2, p, c, i));
    }
}

/// Giving the state of a surface that stands in no stack a subsurface role state
/// without a parent keeps the states in order.
proof fn lemma_role_state_set(m: States, m2: States, key: u64)
    requires
        forest(m),
        m.contains_key(key),
        !m[key].is_subsurface(),
        m2 == m.insert(
            key,
            SurfaceState { role_state: Some(RoleState::Subsurface(SubsurfaceState { parent: None })), ..m[key] },
        ),
    ensures
        forest(m2),
{
    assert forall|t: u64, c: u64| m.contains_key(t) implies (#[trigger] has_child(m2, t, c) <==> has_child(m, t, c)) by {
        if has_child(m2, t, c) {
            let i = choose|i: int| child_at(m2, t, c, i);
            assert(child_at(m, t, c, i));
        }
        if has_child(m, t, c) {
            let i = choose|i: int| child_at(m, t, c, i);
            assert(child_at(m2, t, c, i));
        }
    }
    assert(m2.dom() =~= m.dom());
    assert forall|t: u64| #[trigger] m2.contains_key(t) implies state_linked(m2, t) by {
        assert(state_linked(m, t));
        assert(entries_of(m2, t) == entries_of(m, t));
    }
    assert forall|t: u64, c: u64| m2.contains_key(t) && #[trigger] has_child(m2, t, c) implies has_parent(m2, c) by {
        assert(has_child(m, t, c));
        assert(state_linked(m, t));
        assert(has_parent(m, c));
        assert(c != key);
        assert(has_child(m2, m[c].spec_parent()->0, c));
    }
}

/// What attaching a surface to a parent makes of the surfaces.
pub open spec fn attach_done<S: Shell>(scene: Scene<S>, scene2: Scene<S>, parent: usize, surface: usize) -> bool {
    let before = scene.surfaces@;
    let after = scene2.surfaces@;
    let key = scene.key(surface);
    let index = scene2.subsurface(surface).stack_index;
    let state = Some(RoleState::Subsurface(SubsurfaceState { parent: None }));
    &&& parent != surface
    &&& after.len() == before.len()
    &&& after[surface as int] == Surface {
        role: Some(Role::Subsurface(Subsurface::fresh(parent, index))),
        pending_state: PendingSurfaceState { role_state: state, ..before[surface as int].pending_state },
        ..before[surface as int]
    }
    &&& after[parent as int] == Surface {
        pending_state: PendingSurfaceState {
            stack: after[parent as int].pending_state.stack,
            ..before[parent as int].pending_state
        },
        ..before[parent as int]
    }
    &&& stack_entries(after[parent as int].pending_state.stack) == seq![
        (index, SurfaceStackEntry::Subsurface { token: key, position: Point::spec_origin() }),
    ] + stack_entries(before[parent as int].pending_state.stack)
    &&& !has_index(stack_entries(before[parent as int].pending_state.stack), index)
    &&& forall|j: int|
        #![trigger after[j]]
        0 <= j < before.len() && j != surface && j != parent ==> after[j] == before[j]
    &&& scene2.shell.states() == scene.shell.states().insert(
        key,
        SurfaceState { role_state: state, ..scene.shell.states()[key] },
    )
    &&& scene2.shell.calls() == scene.shell.calls().push(ShellCall::RoleAdded { key, role: SUBSURFACE_NAME })
    &&& scene2.shell.spec_has_room() == scene.shell.spec_has_room()
    &&& scene2.layout_changes == scene.layout_changes
    &&& scene2.attached(surface)
    &&& became_child(before, after, surface as int, parent)
    &&& forall|s: int| #[trigger] rooted(before, s) ==> rooted(after, s)
    &&& forest(scene.shell.states()) && !scene.shell.states()[key].is_subsurface() ==> forest(scene2.shell.states())
}

impl Subsurface {
    /// The role that [`Subsurface::attach`] gives.
    pub open spec fn fresh(parent: usize, stack_index: Index<SurfaceStackEntry>) -> Subsurface {
        Subsurface { sync: true, inherited_sync: true, is_active: true, stack_index, parent: Some(parent) }
    }

    /// Attach a surface to a parent surface, and add the subsurface role to it.
    ///
    /// This is refused if the surface has a role already, or if it is the root
    /// of the parent, which would make a cycle.
    pub fn attach<S: Shell>(parent: usize, surface: usize, scene: &mut Scene<S>) -> (r: bool)
        requires
            old(scene).shell.valid(),
            old(scene).live(surface),
            parent < old(scene).surfaces@.len(),
            rooted(old(scene).surfaces@, parent as int),
            stack_entries(old(scene).surfaces@[parent as int].pending_state.stack).len() < usize::MAX - 1,
        ensures
            final(scene).shell.valid(),
            r == (old(scene).surfaces@[surface as int].role is None && !is_root(
                old(scene).surfaces@,
                parent as int,
                surface,
            )),
            !r ==> *final(scene) == *old(scene),
            r ==> attach_done(*old(scene), *final(scene), parent, surface),
    {
        if scene.surfaces[surface].role.is_some() {
            // Already has a role.
            return false;
        }
        // Preventing cycle creation.
        let root = Surface::root(scene, parent);
        proof {
            assert forall|x: usize| is_root(scene.surfaces@, parent as int, x) implies x == root by {
                let a = choose|steps: nat| #[trigger] root_within(scene.surfaces@, parent as int, steps) == Some(x);
                let b = choose|steps: nat| #[trigger] root_within(scene.surfaces@, parent as int, steps) == Some(root);
                lemma_root_unique(scene.surfaces@, parent as int, a, b);
            }
        }
        if root == surface {
            return false;
        }
        let ghost before = scene.surfaces@;
        proof {
            if parent == surface {
                assert(root_within(before, parent as int, 1) == Some(surface));
                assert(is_root(before, parent as int, surface));
            }
        }
        let key: u64 = scene.surfaces[surface].current.unwrap();
        let stack_index = push_front(
            &mut scene.surfaces[parent].pending_state.stack,
            SurfaceStackEntry::Subsurface { token: key, position: Point::new(0, 0) },
        );
        let role = Subsurface {
            sync: true,
            inherited_sync: true,
            is_active: true,
            stack_index,
            parent: Some(parent),
        };
        Surface::set_role(scene, surface, Role::Subsurface(role));
        let state = Some(RoleState::Subsurface(SubsurfaceState { parent: None }));
        scene.shell.get_mut(key).role_state = state;
        scene.surfaces[surface].pending_state.role_state = state;
        proof {
            let after = scene.surfaces@;
            let entries = stack_entries(after[parent as int].pending_state.stack);
            assert(entries[0].0 == stack_index);
            assert(index_at(entries, stack_index, 0));
            assert(has_subsurface_at(after[parent as int].pending_state, stack_index));
            assert(after.len() == scene.surfaces.len());
            assert(became_child(before, after, surface as int, parent));
            assert forall|s: int| #[trigger] rooted(before, s) implies rooted(after, s) by {
                let r = choose|r: usize| is_root(before, s, r);
                attach_keeps_roots(before, after, surface as int, parent, root, s, r);
            }
            let m = old(scene).shell.states();
            if forest(m) && !m[key].is_subsurface() {
                lemma_role_state_set(m, scene.shell.states(), key);
            }
        }
        true
    }
}

/// `after` lacks the entry that `before` has at `index`, and differs in nothing
/// else.
pub open spec fn unstacked(before: PendingSurfaceState, after: PendingSurfaceState, index: Index<SurfaceStackEntry>) -> bool {
    &&& after == PendingSurfaceState { stack: after.stack, ..before }
    &&& forall|i: int|
        #![trigger index_at(stack_entries(before.stack), index, i)]
        index_at(stack_entries(before.stack), index, i) ==> stack_entries(after.stack) == stack_entries(
            before.stack,
        ).remove(i)
}

/// What [`Surface::deactivate_role`] makes of the surfaces.
pub open spec fn role_deactivated<S: Shell>(before: Scene<S>, after: Scene<S>, id: usize) -> bool {
    &&& after.shell.states() == before.shell.states()
    &&& after.shell.spec_has_room() == before.shell.spec_has_room()
    &&& after.layout_changes == before.layout_changes
    &&& after.surfaces@.len() == before.surfaces@.len()
    &&& if before.active(id) {
        let role = before.surfaces@[id as int].role->0;
        &&& after.shell.calls() == before.shell.calls().push(
            ShellCall::RoleDeactivated { key: before.key(id), role: role.spec_name() },
        )
        &&& after.surfaces@[id as int] == Surface {
            role: Some(role.deactivated()),
            pending_state: PendingSurfaceState { role_state: None, ..before.surfaces@[id as int].pending_state },
            ..before.surfaces@[id as int]
        }
        &&& forall|j: int|
            #![trigger after.surfaces@[j]]
            0 <= j < before.surfaces@.len() && j != id && !(before.is_subsurface(id) && j == before.subsurface(
                id,
            ).parent->0) ==> after.surfaces@[j] == before.surfaces@[j]
        &&& before.is_subsurface(id) ==> {
            let p = before.subsurface(id).parent->0 as int;
            let pending = after.surfaces@[p].pending_state;
            &&& after.surfaces@[p] == Surface { pending_state: pending, ..before.surfaces@[p] }
            &&& unstacked(before.surfaces@[p].pending_state, pending, before.subsurface(id).stack_index)
        }
    } else {
        &&& after.shell.calls() == before.shell.calls()
        &&& after.surfaces@ == before.surfaces@
    }
}

impl Surface {
    /// Deactivate the role assigned to this surface.
    ///
    /// Deactivating a subsurface is immediate: it is taken out of the pending
    /// stack of its parent, so when the parent eventually commits, it will drop
    /// the surface. Committed states that still reference it are left alone. The
    /// surface is skipped when they are gone through, because its role is
    /// inactive.
    pub fn deactivate_role<S: Shell>(scene: &mut Scene<S>, id: usize)
        requires
            old(scene).shell.valid(),
            old(scene).live(id),
            old(scene).attached(id),
        ensures
            final(scene).shell.valid(),
            role_deactivated(*old(scene), *final(scene), id),
            !final(scene).active(id),
    {
        let ghost scene0 = *scene;
        let key: u64 = scene.surfaces[id].current.unwrap();
        let (active, name, link) = match &scene.surfaces[id].role {
            Some(role) => (
                role.is_active(),
                role.name(),
                match role {
                    Role::Subsurface(r) => Some((r.stack_index, r.parent)),
                    _ => None,
                },
            ),
            None => (false, SUBSURFACE_NAME, None),
        };
        if active {
            if let Some((stack_index, parent)) = link {
                let parent: usize = parent.unwrap();
                let ghost before = stack_entries(scene.surfaces@[parent as int].pending_state.stack);
                proof {
                    assert(has_subsurface_at(scene.surfaces@[parent as int].pending_state, stack_index));
                    let i = choose|i: int| #[trigger] index_at(before, stack_index, i) && before[i].1 is Subsurface;
                    assert(has_index(before, stack_index));
                }
                remove(&mut scene.surfaces[parent].pending_state.stack, stack_index);
            }
            if let Some(role) = &mut scene.surfaces[id].role {
                role.deactivate();
            }
            scene.surfaces[id].pending_state.role_state = None;
            scene.shell.role_deactivated(key, name);
        }
    }
}

} // verus!
