//! The `wl_subcompositor` and `wl_subsurface` interfaces.
use dlv_list::Index;
use vstd::pervasive::unreached;
use vstd::prelude::*;
use crate::objects::compositor::{
    number_of, spec_subsurface_object, stands_for_surface, surface_changed, surface_number,
};
use crate::objects::{is_object, Error, SUBSURFACE_TYPE, SURFACE_TYPE};
use crate::server::error::ProtocolError;
use crate::server::maps::AnyObject;
use crate::server::store::{agrees, object_added, object_removed, Store, CLIENT_MAX_ID};
use crate::shell::attach::{attach_done, is_root, role_deactivated, rooted};
use crate::shell::geometry::Point;
use crate::shell::roles::{Role, SUBSURFACE_NAME};
use crate::shell::scene::{has_subsurface_at, Scene};
use crate::shell::stack::{get, index_at, set_entry, stack_entries, SurfaceStackEntry};
use crate::shell::surface::PendingSurfaceState;
use crate::shell::{roles, scene, Shell};
use crate::text::{decimal, to_decimal};
use crate::types::{NewId, Object};

verus! {

/// The error of `wl_subcompositor` for a surface that cannot be used.
pub const BAD_SURFACE: u32 = 0;

/// Errors that can occur when handling subcompositor related requests.
#[derive(Clone, Copy, Debug, PartialEq, Eq, Structural)]
pub enum SubcompositorError {
    /// Bad surface used as parent.
    BadSurface {
        /// The bad surface id.
        bad_surface: u32,
        /// The ID of the object that caused this error.
        object_id: u32,
    },
}

impl ProtocolError for SubcompositorError {
    open spec fn spec_wayland_error(&self) -> Option<(u32, u32)> {
        match *self {
            SubcompositorError::BadSurface { object_id, .. } => Some((object_id, BAD_SURFACE)),
        }
    }

    open spec fn spec_fatal(&self) -> bool {
        true
    }

    open spec fn spec_message(&self) -> Seq<char> {
        match *self {
            SubcompositorError::BadSurface { bad_surface, .. } => "Bad surface id "@ + decimal(bad_surface as nat),
        }
    }

    fn wayland_error(&self) -> (r: Option<(u32, u32)>) {
        match *self {
            SubcompositorError::BadSurface { object_id, .. } => Some((object_id, BAD_SURFACE)),
        }
    }

    fn fatal(&self) -> (r: bool) {
        true
    }

    fn message(&self) -> (r: String) {
        match *self {
            SubcompositorError::BadSurface { bad_surface, .. } => "Bad surface id ".to_owned().concat(
                to_decimal(bad_surface).as_str(),
            ),
        }
    }
}

/// `after` differs from `before` in the position that the subsurface at `index` has
/// in the stack.
pub open spec fn moved(
    before: PendingSurfaceState,
    after: PendingSurfaceState,
    index: Index<SurfaceStackEntry>,
    position: Point,
) -> bool {
    &&& after == PendingSurfaceState { stack: after.stack, ..before }
    &&& forall|i: int|
        #![trigger index_at(stack_entries(before.stack), index, i)]
        index_at(stack_entries(before.stack), index, i) ==> stack_entries(after.stack) == stack_entries(
            before.stack,
        ).update(
            i,
            (
                index,
                SurfaceStackEntry::Subsurface { token: stack_entries(before.stack)[i].1->token, position },
            ),
        )
}

/// Implementation of the `wl_subsurface` interface.
#[derive(Clone, Copy, Debug, PartialEq, Eq, Structural)]
pub struct Subsurface(pub usize);

impl Subsurface {
    /// Answers a `destroy` request: the role of the surface is deactivated.
    pub fn destroy<S: Shell>(objects: &mut Store, scene: &mut Scene<S>, object_id: u32)
        requires
            old(objects).wf(),
            stands_for_surface(old(objects), old(scene), object_id, SUBSURFACE_TYPE),
            old(scene).shell.valid(),
            old(scene).live(number_of(old(objects), object_id)),
            old(scene).attached(number_of(old(objects), object_id)),
        ensures
            final(objects).wf(),
            final(scene).shell.valid(),
            role_deactivated(*old(scene), *final(scene), number_of(old(objects), object_id)),
            object_removed(*old(objects), *final(objects), object_id),
    {
        let id: usize = surface_number(objects, scene, object_id, SUBSURFACE_TYPE);
        scene::Surface::deactivate_role(scene, id);
        objects.remove(object_id);
    }

    /// Answers a `set_position` request: the surface is moved in the pending stack
    /// of its parent, so that it takes effect when the parent commits.
    pub fn set_position<S: Shell>(objects: &Store, scene: &mut Scene<S>, object_id: u32, x: i32, y: i32)
        requires
            stands_for_surface(objects, old(scene), object_id, SUBSURFACE_TYPE),
            old(scene).is_subsurface(number_of(objects, object_id)),
            old(scene).attached(number_of(objects, object_id)),
        ensures
            ({
                let role = old(scene).subsurface(number_of(objects, object_id));
                let parent = role.parent->0;
                let before = old(scene).surfaces@[parent as int];
                let after = final(scene).surfaces@[parent as int];
                &&& surface_changed(*old(scene), *final(scene), parent)
                &&& after == scene::Surface { pending_state: after.pending_state, ..before }
                &&& moved(before.pending_state, after.pending_state, role.stack_index, Point { x, y })
            }),
    {
        let id: usize = surface_number(objects, scene, object_id, SUBSURFACE_TYPE);
        let (stack_index, parent) = match &scene.surfaces[id].role {
            Some(Role::Subsurface(role)) => (role.stack_index, role.parent.unwrap()),
            _ => unreached(),
        };
        let ghost before = stack_entries(scene.surfaces@[parent as int].pending_state.stack);
        proof {
            assert(has_subsurface_at(scene.surfaces@[parent as int].pending_state, stack_index));
            let i = choose|i: int| #[trigger] index_at(before, stack_index, i) && before[i].1 is Subsurface;
        }
        let mut entry = match get(&scene.surfaces[parent].pending_state.stack, stack_index) {
            Some(entry) => entry,
            None => unreached(),
        };
        entry.set_position(Point::new(x, y));
        set_entry(&mut scene.surfaces[parent].pending_state.stack, stack_index, entry);
        proof {
            assert(scene.surfaces@ =~= old(scene).surfaces@.update(parent as int, scene.surfaces@[parent as int]));
        }
    }

    /// Answers a `place_above` request.
    pub fn place_above() -> (r: Error)
        ensures
            r == Error::NotImplemented("wl_subsurface.place_above"),
    {
        Error::NotImplemented("wl_subsurface.place_above")
    }

    /// Answers a `place_below` request.
    pub fn place_below() -> (r: Error)
        ensures
            r == Error::NotImplemented("wl_subsurface.place_below"),
    {
        Error::NotImplemented("wl_subsurface.place_below")
    }
}

/// Implementation of the `wl_subcompositor` interface.
#[derive(Clone, Copy, Debug, PartialEq, Eq, Structural)]
pub struct Subcompositor;

/// The surface can become a subsurface of the parent: it has no role, and is not the
/// root of the parent.
pub open spec fn attachable<S: Shell>(scene: Scene<S>, surface: usize, parent: usize) -> bool {
    scene.surfaces@[surface as int].role is None && !is_root(scene.surfaces@, parent as int, surface)
}

impl Subcompositor {
    /// Both surfaces of a `get_subsurface` request are there, and the id is free.
    pub open spec fn well_named(objects: &Store, id: u32, surface: u32, parent: u32) -> bool {
        &&& is_object(objects.objects(), surface, SURFACE_TYPE)
        &&& is_object(objects.objects(), parent, SURFACE_TYPE)
        &&& !objects.objects().contains_key(id)
    }

    /// Answers a `get_subsurface` request: makes the surface a subsurface of the
    /// parent.
    pub fn get_subsurface<S: Shell>(
        objects: &mut Store,
        scene: &mut Scene<S>,
        object_id: u32,
        id: NewId,
        surface: Object,
        parent: Object,
    ) -> (r: Result<(), Error>)
        requires
            old(objects).wf(),
            old(scene).shell.valid(),
            agrees(old(objects).objects(), spec_subsurface_object(number_of(old(objects), surface.0))),
            Subcompositor::well_named(old(objects), id.0, surface.0, parent.0) ==> {
                let s = number_of(old(objects), surface.0);
                let p = number_of(old(objects), parent.0);
                &&& stands_for_surface(old(objects), old(scene), surface.0, SURFACE_TYPE)
                &&& stands_for_surface(old(objects), old(scene), parent.0, SURFACE_TYPE)
                &&& old(scene).live(s)
                &&& rooted(old(scene).surfaces@, p as int)
                &&& stack_entries(old(scene).surfaces@[p as int].pending_state.stack).len() < usize::MAX - 1
                &&& attachable(*old(scene), s, p) ==> id.0 <= CLIENT_MAX_ID
            },
        ensures
            final(objects).wf(),
            final(scene).shell.valid(),
            r is Err ==> *final(objects) == *old(objects) && *final(scene) == *old(scene),
            ({
                let s = number_of(old(objects), surface.0);
                let p = number_of(old(objects), parent.0);
                if !is_object(old(objects).objects(), surface.0, SURFACE_TYPE) {
                    r matches Err(e) && e.keeps(SubcompositorError::BadSurface { bad_surface: surface.0, object_id })
                } else if !is_object(old(objects).objects(), parent.0, SURFACE_TYPE) {
                    r matches Err(e) && e.keeps(SubcompositorError::BadSurface { bad_surface: parent.0, object_id })
                } else if old(objects).objects().contains_key(id.0) {
                    r == Err::<(), Error>(Error::spec_id_exists(id.0))
                } else if !attachable(*old(scene), s, p) {
                    r matches Err(e) && e.keeps(SubcompositorError::BadSurface { bad_surface: surface.0, object_id })
                } else {
                    &&& r is Ok
                    &&& attach_done(*old(scene), *final(scene), p, s)
                    &&& object_added(*old(objects), *final(objects), id.0, spec_subsurface_object(s))
                }
            }),
    {
        let s: usize = match objects.get(surface.0, SURFACE_TYPE) {
            Ok(object) => object.handle as usize,
            Err(_) => {
                return Err(
                    Error::custom(&SubcompositorError::BadSurface { bad_surface: surface.0, object_id }),
                );
            },
        };
        let p: usize = match objects.get(parent.0, SURFACE_TYPE) {
            Ok(object) => object.handle as usize,
            Err(_) => {
                return Err(
                    Error::custom(&SubcompositorError::BadSurface { bad_surface: parent.0, object_id }),
                );
            },
        };
        if objects.contains(id.0) {
            return Err(Error::id_exists(id.0));
        }
        if !roles::Subsurface::attach(p, s, scene) {
            return Err(Error::custom(&SubcompositorError::BadSurface { bad_surface: surface.0, object_id }));
        }
        let object = AnyObject {
            handle: s as u64,
            type_id: SUBSURFACE_TYPE,
            interface: SUBSURFACE_NAME,
            state: None,
        };
        objects.try_insert_with(id.0, object);
        Ok(())
    }
}

} // verus!
