//! Types related to the compositor global.
//!
//! The compositor global is responsible for managing the sets of surfaces a client
//! has. In the wayland protocol, each surface has a set of double-buffered
//! states: updates are made to the pending state first, and applied to current
//! state when `wl_surface.commit` is called.
use vstd::pervasive::unreached;
use vstd::prelude::*;
use crate::objects::{
    is_object, object_of, Error, BUFFER_TYPE, CALLBACK_TYPE, REGION_TYPE, SUBSURFACE_TYPE, SURFACE_TYPE,
};
use crate::server::error::ProtocolError;
use crate::server::maps::AnyObject;
use crate::server::objects::CALLBACK_NAME;
use crate::server::store::{agrees, lemma_removed_next, object_added, removed_in_turn, Store, CLIENT_MAX_ID};
use crate::objects::outputs::{OutputChangedEventHandler, OutputSet};
use crate::shell::attach::new_surface;
use crate::shell::callbacks::callback_ids;
use crate::shell::destroy::destroy_done;
use crate::shell::roles::SUBSURFACE_NAME;
use crate::shell::scene::{commit_done, Scene};
use crate::shell::stack::get;
use crate::shell::surface::{forest, PendingSurfaceState};
use crate::shell::{scene, roles, Shell, ShellCall};
use crate::types::{NewId, Object};

verus! {

/// The interface name of surfaces.
pub const SURFACE_NAME: &'static str = "wl_surface";

/// The interface name of regions.
pub const REGION_NAME: &'static str = "wl_region";

/// The state of the compositor.
#[derive(Clone, Copy, Debug, PartialEq, Eq, Structural)]
pub struct CompositorState {
    pub render_event_handler_started: bool,
}

impl Default for CompositorState {
    fn default() -> (r: CompositorState)
        ensures
            !r.render_event_handler_started,
    {
        CompositorState { render_event_handler_started: false }
    }
}

/// What a client did wrong with a surface.
#[derive(Clone, Copy, Debug, PartialEq, Eq, Structural)]
pub enum SurfaceErrorKind {
    InvalidScale,
    InvalidTransform,
    InvalidSize,
    InvalidOffset,
    DefunctRoleObject,
}

/// An error of a surface.
#[derive(Clone, Copy, Debug, PartialEq, Eq, Structural)]
pub struct SurfaceError {
    pub kind: SurfaceErrorKind,
    pub object_id: u32,
}

impl SurfaceErrorKind {
    /// The error code.
    pub open spec fn spec_code(self) -> u32 {
        match self {
            SurfaceErrorKind::InvalidScale => 0,
            SurfaceErrorKind::InvalidTransform => 1,
            SurfaceErrorKind::InvalidSize => 2,
            SurfaceErrorKind::InvalidOffset => 3,
            SurfaceErrorKind::DefunctRoleObject => 4,
        }
    }

    /// The error code.
    pub fn code(&self) -> (r: u32)
        ensures
            r == self.spec_code(),
    {
        match self {
            SurfaceErrorKind::InvalidScale => 0,
            SurfaceErrorKind::InvalidTransform => 1,
            SurfaceErrorKind::InvalidSize => 2,
            SurfaceErrorKind::InvalidOffset => 3,
            SurfaceErrorKind::DefunctRoleObject => 4,
        }
    }

    /// What the client is told.
    pub open spec fn spec_message(self) -> Seq<char> {
        match self {
            SurfaceErrorKind::InvalidScale => "buffer scale value is invalid for surface"@,
            SurfaceErrorKind::InvalidTransform => "buffer transform value is invalid for surface"@,
            SurfaceErrorKind::InvalidSize => "buffer size is invalid"@,
            SurfaceErrorKind::InvalidOffset => "buffer offset is invalid"@,
            SurfaceErrorKind::DefunctRoleObject => "surface was destroyed before its role object"@,
        }
    }

    /// What the client is told.
    pub fn message(&self) -> (r: &'static str)
        ensures
            r@ == self.spec_message(),
    {
        match self {
            SurfaceErrorKind::InvalidScale => "buffer scale value is invalid for surface",
            SurfaceErrorKind::InvalidTransform => "buffer transform value is invalid for surface",
            SurfaceErrorKind::InvalidSize => "buffer size is invalid",
            SurfaceErrorKind::InvalidOffset => "buffer offset is invalid",
            SurfaceErrorKind::DefunctRoleObject => "surface was destroyed before its role object",
        }
    }
}

impl ProtocolError for SurfaceError {
    open spec fn spec_wayland_error(&self) -> Option<(u32, u32)> {
        Some((self.object_id, self.kind.spec_code()))
    }

    open spec fn spec_fatal(&self) -> bool {
        true
    }

    open spec fn spec_message(&self) -> Seq<char> {
        self.kind.spec_message()
    }

    fn wayland_error(&self) -> (r: Option<(u32, u32)>) {
        Some((self.object_id, self.kind.code()))
    }

    fn fatal(&self) -> (r: bool) {
        true
    }

    fn message(&self) -> (r: String) {
        self.kind.message().to_owned()
    }
}

/// The object for a callback.
pub open spec fn spec_callback_object(id: u32) -> AnyObject {
    AnyObject { handle: id as u64, type_id: CALLBACK_TYPE, interface: CALLBACK_NAME, state: None }
}

/// The object for the surface with the given number. `state` is what the state that
/// all surfaces share is found by.
pub open spec fn spec_surface_object(number: usize, state: u64) -> AnyObject {
    AnyObject { handle: number as u64, type_id: SURFACE_TYPE, interface: SURFACE_NAME, state: Some(state) }
}

/// The object for the subsurface role of the surface with the given number.
pub open spec fn spec_subsurface_object(number: usize) -> AnyObject {
    AnyObject { handle: number as u64, type_id: SUBSURFACE_TYPE, interface: SUBSURFACE_NAME, state: None }
}

/// The object for a region.
pub open spec fn spec_region_object(id: u32) -> AnyObject {
    AnyObject { handle: id as u64, type_id: REGION_TYPE, interface: REGION_NAME, state: None }
}

/// The object is of the given type, and stands for a surface.
pub open spec fn stands_for_surface<S: Shell>(objects: &Store, scene: &Scene<S>, id: u32, type_id: u64) -> bool {
    is_object(objects.objects(), id, type_id) && objects.objects()[id].handle < scene.surfaces@.len()
}

/// The number of the surface that an object stands for.
pub open spec fn number_of(objects: &Store, id: u32) -> usize {
    objects.objects()[id].handle as usize
}

/// The number of the surface that an object stands for.
pub(crate) fn surface_number<S: Shell>(objects: &Store, scene: &Scene<S>, id: u32, type_id: u64) -> (r: usize)
    requires
        stands_for_surface(objects, scene, id, type_id),
    ensures
        r == number_of(objects, id),
        r < scene.surfaces@.len(),
{
    match objects.get(id, type_id) {
        Ok(object) => object.handle as usize,
        Err(_) => unreached(),
    }
}

/// Only the surface `id` differs.
pub open spec fn surface_changed<S: Shell>(before: Scene<S>, after: Scene<S>, id: usize) -> bool {
    &&& after.shell == before.shell
    &&& after.layout_changes == before.layout_changes
    &&& after.surfaces@ == before.surfaces@.update(id as int, after.surfaces@[id as int])
}

/// A buffer was attached to the surface `id`.
pub open spec fn buffer_attached<S: Shell>(before: Scene<S>, after: Scene<S>, id: usize, buffer: u32) -> bool {
    let surface = before.surfaces@[id as int];
    &&& surface_changed(before, after, id)
    &&& after.surfaces@[id as int] == scene::Surface {
        pending_state: PendingSurfaceState { buffer: Some(buffer), ..surface.pending_state },
        ..surface
    }
}

/// A scale was set for the buffers of the surface `id`, in units of 1/120.
pub open spec fn scale_set<S: Shell>(before: Scene<S>, after: Scene<S>, id: usize, scale: u32) -> bool {
    let surface = before.surfaces@[id as int];
    &&& surface_changed(before, after, id)
    &&& after.surfaces@[id as int] == scene::Surface {
        pending_state: PendingSurfaceState { buffer_scale: Some(scale), ..surface.pending_state },
        ..surface
    }
}

/// A frame callback was asked for on the surface `id`.
pub open spec fn callback_asked<S: Shell>(before: Scene<S>, after: Scene<S>, id: usize, callback: u32) -> bool {
    let old_surface = before.surfaces@[id as int];
    let new_surface = after.surfaces@[id as int];
    &&& surface_changed(before, after, id)
    &&& callback_ids(new_surface.frame_callbacks) == callback_ids(old_surface.frame_callbacks).push(callback)
    &&& new_surface == scene::Surface {
        frame_callbacks: new_surface.frame_callbacks,
        pending_state: PendingSurfaceState {
            frame_callback_end: if old_surface.pending_state.frame_callback_end == u32::MAX {
                0
            } else {
                (old_surface.pending_state.frame_callback_end + 1) as u32
            },
            ..old_surface.pending_state
        },
        ..old_surface
    }
}

/// Implementation of the `wl_surface` interface.
#[derive(Clone, Copy, Debug, PartialEq, Eq, Structural)]
pub struct Surface {
    /// The number of the surface.
    pub inner: usize,
}

/// Frees what belongs to a surface of a client that has disconnected. There is no
/// point sending anything for its callbacks.
pub fn deallocate_surface<S: Shell>(this: &Surface, scene: &mut Scene<S>, scratch_buffer: &mut Vec<u64>)
    requires
        old(scene).shell.valid(),
        old(scene).shell.spec_has_room(),
        forest(old(scene).shell.states()),
        old(scene).committable(this.inner),
        old(scene).attached(this.inner),
        old(scene).children_known(this.inner),
    ensures
        final(scene).shell.valid(),
        exists|mid: Scene<S>| #[trigger]
            destroy_done(*old(scene), mid, this.inner) && without_callbacks(mid, *final(scene), this.inner),
        final(scratch_buffer)@ == if old(scene).shell.states()[old(scene).key(this.inner)].spec_parent() is None {
            Seq::<u64>::empty()
        } else {
            old(scratch_buffer)@
        },
{
    scene::Surface::destroy(scene, this.inner, scratch_buffer);
    let ghost mid = *scene;
    scene.surfaces[this.inner].frame_callbacks.clear();
    proof {
        assert(scene.surfaces@ =~= mid.surfaces@.update(this.inner as int, scene.surfaces@[this.inner as int]));
        assert(without_callbacks(mid, *scene, this.inner));
    }
}

/// `after` is `before` where the surface `id` has no frame callbacks.
pub open spec fn without_callbacks<S: Shell>(before: Scene<S>, after: Scene<S>, id: usize) -> bool {
    &&& surface_changed(before, after, id)
    &&& callback_ids(after.surfaces@[id as int].frame_callbacks) == Seq::<u32>::empty()
    &&& after.surfaces@[id as int] == scene::Surface {
        frame_callbacks: after.surfaces@[id as int].frame_callbacks,
        ..before.surfaces@[id as int]
    }
}

impl Surface {
    /// Answers a `frame` request: adds a frame callback.
    pub fn frame<S: Shell>(objects: &mut Store, scene: &mut Scene<S>, object_id: u32, callback: NewId) -> (r: Result<
        (),
        Error,
    >)
        requires
            old(objects).wf(),
            stands_for_surface(old(objects), old(scene), object_id, SURFACE_TYPE),
            agrees(old(objects).objects(), spec_callback_object(callback.0)),
        ensures
            final(objects).wf(),
            if callback.0 <= CLIENT_MAX_ID && !old(objects).objects().contains_key(callback.0) {
                &&& r is Ok
                &&& object_added(*old(objects), *final(objects), callback.0, spec_callback_object(callback.0))
                &&& callback_asked(*old(scene), *final(scene), number_of(old(objects), object_id), callback.0)
            } else {
                &&& r == Err::<(), Error>(Error::spec_id_exists(callback.0))
                &&& *final(objects) == *old(objects)
                &&& *final(scene) == *old(scene)
            },
    {
        let id: usize = surface_number(objects, scene, object_id, SURFACE_TYPE);
        let object = AnyObject {
            handle: callback.0 as u64,
            type_id: CALLBACK_TYPE,
            interface: CALLBACK_NAME,
            state: None,
        };
        if !objects.try_insert_with(callback.0, object) {
            return Err(Error::id_exists(callback.0));
        }
        scene.surfaces[id].add_frame_callback(callback.0);
        proof {
            assert(scene.surfaces@ =~= old(scene).surfaces@.update(id as int, scene.surfaces@[id as int]));
        }
        Ok(())
    }

    /// Answers an `attach` request: the buffer becomes part of the pending state.
    /// It cannot be moved.
    pub fn attach<S: Shell>(
        objects: &Store,
        scene: &mut Scene<S>,
        object_id: u32,
        buffer: Object,
        x: i32,
        y: i32,
    ) -> (r: Result<(), Error>)
        requires
            stands_for_surface(objects, old(scene), object_id, SURFACE_TYPE),
            is_object(objects.objects(), buffer.0, BUFFER_TYPE) ==> objects.objects()[buffer.0].handle <= u32::MAX,
        ensures
            if x != 0 || y != 0 {
                &&& r matches Err(e) && e.keeps(SurfaceError { kind: SurfaceErrorKind::InvalidOffset, object_id })
                &&& *final(scene) == *old(scene)
            } else {
                match object_of(objects.objects(), buffer.0, BUFFER_TYPE) {
                    Err(e) => r == Err::<(), Error>(Error::Get(e)) && *final(scene) == *old(scene),
                    Ok(object) => {
                        &&& r is Ok
                        &&& buffer_attached(
                            *old(scene),
                            *final(scene),
                            number_of(objects, object_id),
                            object.handle as u32,
                        )
                    },
                }
            },
    {
        if x != 0 || y != 0 {
            return Err(Error::custom(&SurfaceError { kind: SurfaceErrorKind::InvalidOffset, object_id }));
        }
        let id: usize = surface_number(objects, scene, object_id, SURFACE_TYPE);
        match objects.get(buffer.0, BUFFER_TYPE) {
            Err(e) => Err(Error::Get(e)),
            Ok(object) => {
                scene.surfaces[id].pending_state.set_buffer_from_object(object.handle as u32);
                proof {
                    assert(scene.surfaces@ =~= old(scene).surfaces@.update(id as int, scene.surfaces@[id as int]));
                }
                Ok(())
            },
        }
    }

    /// Answers a `damage` or a `damage_buffer` request. The whole buffer of the
    /// pending state is damaged, whatever the rectangle.
    pub fn damage<S: Shell>(objects: &Store, scene: &mut Scene<S>, object_id: u32)
        requires
            stands_for_surface(objects, old(scene), object_id, SURFACE_TYPE),
            old(scene).shell.valid(),
        ensures
            final(scene).shell.valid(),
            final(scene).surfaces == old(scene).surfaces,
            final(scene).layout_changes == old(scene).layout_changes,
            final(scene).shell.states() == old(scene).shell.states(),
            final(scene).shell.spec_has_room() == old(scene).shell.spec_has_room(),
            final(scene).shell.calls() == match old(scene).surfaces@[number_of(
                objects,
                object_id,
            ) as int].pending_state.buffer {
                Some(buffer) => old(scene).shell.calls().push(ShellCall::DamageBuffer { buffer }),
                None => old(scene).shell.calls(),
            },
    {
        let id: usize = surface_number(objects, scene, object_id, SURFACE_TYPE);
        scene.surfaces[id].pending_state.damage_buffer(&mut scene.shell);
    }

    /// Answers a `commit` request.
    pub fn commit<S: Shell>(objects: &Store, scene: &mut Scene<S>, object_id: u32, scratch_buffer: &mut Vec<u64>) -> (r:
        Result<(), Error>)
        requires
            stands_for_surface(objects, old(scene), object_id, SURFACE_TYPE),
            old(scene).shell.valid(),
            old(scene).shell.spec_has_room(),
            forest(old(scene).shell.states()),
            old(scene).committable(number_of(objects, object_id)),
            old(scene).attached(number_of(objects, object_id)),
        ensures
            final(scene).shell.valid(),
            r == if old(scene).refuses(number_of(objects, object_id)) {
                Err::<(), Error>(Error::UnknownFatalError(old(scene).refusal(number_of(objects, object_id))->0))
            } else {
                Ok::<(), Error>(())
            },
            commit_done(*old(scene), *final(scene), number_of(objects, object_id)),
            final(scratch_buffer)@ == if r is Ok {
                Seq::<u64>::empty()
            } else {
                old(scratch_buffer)@
            },
    {
        let id: usize = surface_number(objects, scene, object_id, SURFACE_TYPE);
        match scene::Surface::commit(scene, id, scratch_buffer) {
            Ok(()) => Ok(()),
            Err(message) => Err(Error::UnknownFatalError(message)),
        }
    }

    /// Answers a `set_buffer_scale` request. The scale is kept in units of 1/120.
    pub fn set_buffer_scale<S: Shell>(objects: &Store, scene: &mut Scene<S>, object_id: u32, scale: i32)
        requires
            stands_for_surface(objects, old(scene), object_id, SURFACE_TYPE),
            0 <= scale * 120 <= u32::MAX,
        ensures
            scale_set(*old(scene), *final(scene), number_of(objects, object_id), (scale * 120) as u32),
    {
        let id: usize = surface_number(objects, scene, object_id, SURFACE_TYPE);
        scene.surfaces[id].pending_state.set_buffer_scale(scale as u32 * 120);
        proof {
            assert(scene.surfaces@ =~= old(scene).surfaces@.update(id as int, scene.surfaces@[id as int]));
        }
    }

    /// Answers a `set_buffer_transform` request.
    pub fn set_buffer_transform() -> (r: Error)
        ensures
            r == Error::NotImplemented("wl_surface.set_buffer_transform"),
    {
        Error::NotImplemented("wl_surface.set_buffer_transform")
    }

    /// Answers an `offset` request.
    pub fn offset() -> (r: Error)
        ensures
            r == Error::NotImplemented("wl_surface.offset"),
    {
        Error::NotImplemented("wl_surface.offset")
    }

    /// Answers a `destroy` request. The role object has to be destroyed first. The
    /// unfired frame callbacks are removed with the surface.
    pub fn destroy<S: Shell>(objects: &mut Store, scene: &mut Scene<S>, object_id: u32, scratch_buffer: &mut Vec<u64>) -> (r:
        Result<(), Error>)
        requires
            old(objects).wf(),
            stands_for_surface(old(objects), old(scene), object_id, SURFACE_TYPE),
            old(scene).shell.valid(),
            old(scene).shell.spec_has_room(),
            forest(old(scene).shell.states()),
            old(scene).committable(number_of(old(objects), object_id)),
            old(scene).attached(number_of(old(objects), object_id)),
            old(scene).children_known(number_of(old(objects), object_id)),
            callbacks_known(
                old(objects).objects(),
                callback_ids(old(scene).surfaces@[number_of(old(objects), object_id) as int].frame_callbacks),
            ),
        ensures
            final(objects).wf(),
            final(scene).shell.valid(),
            ({
                let id = number_of(old(objects), object_id);
                let callbacks = callback_ids(old(scene).surfaces@[id as int].frame_callbacks);
                if old(scene).active(id) {
                    &&& r matches Err(e) && e.keeps(
                        SurfaceError { kind: SurfaceErrorKind::DefunctRoleObject, object_id },
                    )
                    &&& *final(objects) == *old(objects)
                    &&& *final(scene) == *old(scene)
                } else {
                    &&& r is Ok
                    &&& final(objects).objects() == old(objects).objects().remove_keys(callbacks.to_set()).remove(
                        object_id,
                    )
                    &&& removed_in_turn(*old(objects), *final(objects), callbacks.push(object_id))
                    &&& exists|mid: Scene<S>| #[trigger]
                        destroy_done(*old(scene), mid, id) && without_callbacks(mid, *final(scene), id)
                }
            }),
            final(scratch_buffer)@ == if r is Ok && old(scene).shell.states()[old(scene).key(
                number_of(old(objects), object_id),
            )].spec_parent() is None {
                Seq::<u64>::empty()
            } else {
                old(scratch_buffer)@
            },
    {
        let ghost objects0 = objects.objects();
        let id: usize = surface_number(objects, scene, object_id, SURFACE_TYPE);
        if scene.surfaces[id].role_is_active() {
            return Err(Error::custom(&SurfaceError { kind: SurfaceErrorKind::DefunctRoleObject, object_id }));
        }
        let ghost callbacks = callback_ids(scene.surfaces@[id as int].frame_callbacks);
        scene::Surface::destroy(scene, id, scratch_buffer);
        let ghost mid = *scene;
        proof {
            assert(callback_ids(mid.surfaces@[id as int].frame_callbacks) == callbacks);
            assert(objects.objects() =~= objects0.remove_keys(callbacks.take(0).to_set()));
            assert(callbacks.skip(0) =~= callbacks);
            assert(mid.surfaces@ =~= mid.surfaces@.update(id as int, mid.surfaces@[id as int]));
        }
        let ghost mut n: int = 0;
        loop
            invariant_except_break
                0 <= n <= callbacks.len(),
                id < scene.surfaces@.len(),
                objects.wf(),
                callbacks_known(objects0, callbacks),
                objects.objects() == objects0.remove_keys(callbacks.take(n).to_set()),
                removed_in_turn(*old(objects), *objects, callbacks.take(n)),
                surface_changed(mid, *scene, id),
                callback_ids(scene.surfaces@[id as int].frame_callbacks) == callbacks.skip(n),
                scene.surfaces@[id as int] == (scene::Surface {
                    frame_callbacks: scene.surfaces@[id as int].frame_callbacks,
                    ..mid.surfaces@[id as int]
                }),
                id < mid.surfaces@.len(),
                scene.surfaces@.len() == mid.surfaces@.len(),
            ensures
                objects.wf(),
                objects.objects() == objects0.remove_keys(callbacks.to_set()),
                removed_in_turn(*old(objects), *objects, callbacks),
                without_callbacks(mid, *scene, id),
            decreases callbacks.len() - n,
        {
            let next = scene.surfaces[id].frame_callbacks.pop_front();
            proof {
                assert(scene.surfaces@ =~= mid.surfaces@.update(id as int, scene.surfaces@[id as int]));
            }
            match next {
                Some(callback) => {
                    proof {
                        assert(callback == callbacks[n]);
                        assert(!callbacks.take(n).contains(callback)) by {
                            if callbacks.take(n).contains(callback) {
                                let j = choose|j: int| 0 <= j < n && callbacks.take(n)[j] == callback;
                                assert(callbacks[j] == callbacks[n]);
                            }
                        }
                        assert(objects0.contains_key(callbacks[n]));
                        assert(callbacks.skip(n).skip(1) =~= callbacks.skip(n + 1));
                    }
                    let ghost before = *objects;
                    objects.remove(callback);
                    proof {
                        lemma_removed_next(*old(objects), before, *objects, callbacks.take(n), callback);
                        assert(callbacks.take(n + 1) =~= callbacks.take(n).push(callback));
                        lemma_one_more(callbacks, n);
                        assert(objects.objects() =~= objects0.remove_keys(callbacks.take(n + 1).to_set()));
                        n = n + 1;
                    }
                },
                None => {
                    proof {
                        assert(callbacks.take(n) =~= callbacks);
                        assert(callback_ids(scene.surfaces@[id as int].frame_callbacks) =~= Seq::<u32>::empty());
                    }
                    break;
                },
            }
        }
        let ghost before = *objects;
        objects.remove(object_id);
        proof {
            lemma_removed_next(*old(objects), before, *objects, callbacks, object_id);
            assert(objects.objects() =~= objects0.remove_keys(callbacks.to_set()).remove(object_id));
        }
        Ok(())
    }
}

/// Implementation of the `wl_compositor` interface.
#[derive(Clone, Copy, Debug, PartialEq, Eq, Structural)]
pub struct Compositor;

impl Compositor {
    /// Answers a `create_surface` request. `state` is what the state that all
    /// surfaces share is found by, if this is the first one. Returns what listens
    /// to changes of the outputs that the surface is on.
    pub fn create_surface<S: Shell>(objects: &mut Store, scene: &mut Scene<S>, id: NewId, state: u64) -> (r: Result<
        OutputChangedEventHandler,
        Error,
    >)
        requires
            old(objects).wf(),
            old(scene).shell.valid(),
            old(scene).shell.spec_has_room(),
            old(scene).surfaces@.len() < usize::MAX,
            agrees(old(objects).objects(), spec_surface_object(old(scene).surfaces@.len() as usize, state)),
        ensures
            final(objects).wf(),
            final(scene).shell.valid(),
            ({
                let number = old(scene).surfaces@.len() as usize;
                if id.0 <= CLIENT_MAX_ID && !old(objects).objects().contains_key(id.0) {
                    &&& r matches Ok(handler) && handler.object_id == id.0 && handler.current_outputs.view() == Set::<
                        u32,
                    >::empty()
                    &&& object_added(*old(objects), *final(objects), id.0, spec_surface_object(number, state))
                    &&& new_surface(*old(scene), *final(scene), id.0)
                    &&& final(scene).shell.calls() == old(scene).shell.calls().push(
                        ShellCall::PostCommit { old: None, new: final(scene).key(number) },
                    )
                } else {
                    &&& r == Err::<OutputChangedEventHandler, Error>(Error::spec_id_exists(id.0))
                    &&& *final(objects) == *old(objects)
                    &&& *final(scene) == *old(scene)
                }
            }),
    {
        let number: usize = scene.surfaces.len();
        let object = AnyObject {
            handle: number as u64,
            type_id: SURFACE_TYPE,
            interface: SURFACE_NAME,
            state: Some(state),
        };
        if !objects.try_insert_with(id.0, object) {
            return Err(Error::id_exists(id.0));
        }
        let number: usize = scene::Surface::new(id.0, scene);
        let key: u64 = scene.surfaces[number].current_key();
        scene.shell.post_commit(None, key);
        Ok(OutputChangedEventHandler { object_id: id.0, current_outputs: OutputSet::new() })
    }

    /// Answers a `create_region` request.
    pub fn create_region(objects: &mut Store, id: NewId) -> (r: Result<(), Error>)
        requires
            old(objects).wf(),
            agrees(old(objects).objects(), spec_region_object(id.0)),
        ensures
            final(objects).wf(),
            if id.0 <= CLIENT_MAX_ID && !old(objects).objects().contains_key(id.0) {
                &&& r is Ok
                &&& object_added(*old(objects), *final(objects), id.0, spec_region_object(id.0))
            } else {
                &&& r == Err::<(), Error>(Error::spec_id_exists(id.0))
                &&& *final(objects) == *old(objects)
            },
    {
        let object = AnyObject {
            handle: id.0 as u64,
            type_id: REGION_TYPE,
            interface: REGION_NAME,
            state: None,
        };
        if objects.try_insert_with(id.0, object) {
            Ok(())
        } else {
            Err(Error::id_exists(id.0))
        }
    }
}

/// A region. Nothing can be done with it yet.
#[derive(Clone, Copy, Debug, PartialEq, Eq, Structural)]
pub struct Region;

/// The first `n + 1` items are the first `n` items and one more.
proof fn lemma_one_more(items: Seq<u32>, n: int)
    requires
        0 <= n < items.len(),
    ensures
        items.take(n + 1).to_set() == items.take(n).to_set().insert(items[n]),
{
    let before = items.take(n);
    let after = items.take(n + 1);
    assert forall|x: u32| #[trigger] after.contains(x) == (before.contains(x) || x == items[n]) by {
        if before.contains(x) {
            let j = choose|j: int| 0 <= j < before.len() && before[j] == x;
            assert(after[j] == x);
        }
        if x == items[n] {
            assert(after[n] == x);
        }
        if after.contains(x) && x != items[n] {
            let j = choose|j: int| 0 <= j < after.len() && after[j] == x;
            assert(before[j] == x);
        }
    }
    assert(after.to_set() =~= before.to_set().insert(items[n]));
}

/// The callbacks are objects, no two of them the same.
pub open spec fn callbacks_known(objects: Map<u32, AnyObject>, callbacks: Seq<u32>) -> bool {
    &&& callbacks.no_duplicates()
    &&& forall|i: int|
        #![trigger callbacks[i]]
        0 <= i < callbacks.len() ==> is_object(objects, callbacks[i], CALLBACK_TYPE)
}

} // verus!
