//! Looking at surfaces and their states.
use vstd::prelude::*;
use crate::objects::input::{KeyboardActivity, KeyboardEvent};
use crate::objects::outputs::OutputSet;
use crate::objects::pointer::{PointerActivity, PointerEvent};
use crate::server::broadcast::SendOutcome;
use crate::server::events::SingleState;
use crate::server::ring::{InputEvent, Ring};
use crate::shell::roles::{Role, RoleState};
use crate::shell::scene::{OutputEvent, Scene, Surface};
use crate::shell::surface::{PendingSurfaceState, SurfaceState};
use crate::shell::{Shell, ShellCall};

verus! {

impl PendingSurfaceState {
    /// The buffer.
    pub fn buffer(&self) -> (r: Option<u32>)
        ensures
            r == self.buffer,
    {
        self.buffer
    }

    /// Set the buffer.
    pub fn set_buffer_from_object(&mut self, buffer: u32)
        ensures
            *final(self) == (PendingSurfaceState { buffer: Some(buffer), ..*old(self) }),
    {
        self.buffer = Some(buffer);
    }

    /// Set the buffer scale, a fraction with a denominator of 120.
    pub fn set_buffer_scale(&mut self, scale: u32)
        ensures
            *final(self) == (PendingSurfaceState { buffer_scale: Some(scale), ..*old(self) }),
    {
        self.buffer_scale = Some(scale);
    }

    /// Mark the buffer as damaged. No-op if there is no buffer.
    pub fn damage_buffer<S: Shell>(&self, shell: &mut S)
        requires
            old(shell).valid(),
        ensures
            final(shell).valid(),
            final(shell).states() == old(shell).states(),
            final(shell).spec_has_room() == old(shell).spec_has_room(),
            final(shell).calls() == match self.buffer {
                Some(buffer) => old(shell).calls().push(ShellCall::DamageBuffer { buffer }),
                None => old(shell).calls(),
            },
    {
        if let Some(buffer) = self.buffer {
            shell.damage_buffer(buffer);
        }
    }
}

impl SurfaceState {
    /// The surface this surface state belongs to.
    pub fn surface(&self) -> (r: usize)
        ensures
            r == self.surface,
    {
        self.surface
    }

    /// The buffer.
    pub fn buffer(&self) -> (r: Option<u32>)
        ensures
            r == self.buffer,
    {
        self.buffer
    }

    /// Set the buffer scale, a fraction with a denominator of 120.
    pub fn set_buffer_scale(&mut self, scale: u32)
        ensures
            *final(self) == (SurfaceState { buffer_scale: scale, ..*old(self) }),
    {
        self.buffer_scale = scale;
    }

    /// Mark the surface's buffer as damaged. No-op if the surface has no buffer.
    pub fn damage_buffer<S: Shell>(token: u64, shell: &mut S)
        requires
            old(shell).valid(),
            old(shell).states().contains_key(token),
        ensures
            final(shell).valid(),
            final(shell).states() == old(shell).states(),
            final(shell).spec_has_room() == old(shell).spec_has_room(),
            final(shell).calls() == match old(shell).states()[token].buffer {
                Some(buffer) => old(shell).calls().push(ShellCall::DamageBuffer { buffer }),
                None => old(shell).calls(),
            },
    {
        let buffer = shell.get(token).buffer;
        if let Some(buffer) = buffer {
            shell.damage_buffer(buffer);
        }
    }

    /// Set role related state.
    pub fn set_role_state(&mut self, state: RoleState)
        ensures
            *final(self) == (SurfaceState { role_state: Some(state), ..*old(self) }),
    {
        self.role_state = Some(state);
    }

    /// Get the role related state.
    pub fn role_state(&self) -> (r: Option<RoleState>)
        ensures
            r == self.role_state,
    {
        self.role_state
    }

    /// Get a unique reference to the role related state.
    ///
    /// None if there is no role related state assigned to this surface.
    pub fn role_state_mut(&mut self) -> (r: Option<&mut RoleState>)
        ensures
            match r {
                Some(state) => {
                    &&& old(self).role_state == Some(*state)
                    &&& *final(self) == (SurfaceState { role_state: Some(*final(state)), ..*old(self) })
                },
                None => old(self).role_state is None && *final(self) == *old(self),
            },
    {
        match &mut self.role_state {
            Some(state) => Some(state),
            None => None,
        }
    }
}

impl Surface {
    /// The object id of this surface.
    pub fn object_id(&self) -> (r: u32)
        ensures
            r == self.object_id,
    {
        self.object_id
    }

    /// The token of the current state. A destroyed surface has none.
    pub fn current_key(&self) -> (r: u64)
        requires
            self.current is Some,
        ensures
            r == self.current->0,
    {
        self.current.unwrap()
    }

    /// Set the current state.
    pub fn set_current(&mut self, key: u64)
        ensures
            *final(self) == (Surface { current: Some(key), ..*old(self) }),
    {
        self.current = Some(key);
    }

    /// Get a unique reference to the pending surface state.
    pub fn pending_mut(&mut self) -> (r: &mut PendingSurfaceState)
        ensures
            *r == old(self).pending_state,
            *final(self) == (Surface { pending_state: *final(r), ..*old(self) }),
    {
        &mut self.pending_state
    }

    /// Get a reference to the pending surface state.
    pub fn pending(&self) -> (r: &PendingSurfaceState)
        ensures
            *r == self.pending_state,
    {
        &self.pending_state
    }

    /// Get the current state.
    pub fn current<S: Shell>(scene: &Scene<S>, id: usize) -> (r: &SurfaceState)
        requires
            scene.shell.valid(),
            scene.live(id),
        ensures
            *r == scene.shell.states()[scene.key(id)],
    {
        scene.shell.get(scene.surfaces[id].current_key())
    }

    /// Get a unique reference to the current state.
    pub fn current_mut<S: Shell>(scene: &mut Scene<S>, id: usize) -> (r: &mut SurfaceState)
        requires
            old(scene).shell.valid(),
            old(scene).live(id),
        ensures
            *r == old(scene).shell.states()[old(scene).key(id)],
            final(scene).shell.valid(),
            final(scene).shell.states() == old(scene).shell.states().insert(old(scene).key(id), *final(r)),
            final(scene).shell.calls() == old(scene).shell.calls(),
            final(scene).shell.spec_has_room() == old(scene).shell.spec_has_room(),
            final(scene).surfaces@ == old(scene).surfaces@,
            final(scene).layout_changes@ == old(scene).layout_changes@,
    {
        let key: u64 = scene.surfaces[id].current_key();
        scene.shell.get_mut(key)
    }

    /// Returns true if the surface has a role attached, active or not.
    pub fn has_role(&self) -> (r: bool)
        ensures
            r == self.role is Some,
    {
        self.role.is_some()
    }

    /// Returns true if the surface has a role, and that role is active.
    pub fn role_is_active(&self) -> (r: bool)
        ensures
            r == (self.role is Some && self.role->0.active()),
    {
        match &self.role {
            Some(role) => role.is_active(),
            None => false,
        }
    }

    /// Borrow the role object of the surface.
    pub fn role(&self) -> (r: Option<&Role>)
        ensures
            match r {
                Some(role) => self.role == Some(*role),
                None => self.role is None,
            },
    {
        self.role.as_ref()
    }

    /// Mutably borrow the role object of the surface.
    pub fn role_mut(&mut self) -> (r: Option<&mut Role>)
        ensures
            match r {
                Some(role) => {
                    &&& old(self).role == Some(*role)
                    &&& *final(self) == (Surface { role: Some(*final(role)), ..*old(self) })
                },
                None => old(self).role is None && *final(self) == *old(self),
            },
    {
        match &mut self.role {
            Some(role) => Some(role),
            None => None,
        }
    }

    /// Get the set of outputs this surface is currently on.
    pub fn outputs(&self) -> (r: &OutputSet)
        ensures
            *r == self.outputs,
    {
        &self.outputs
    }

    /// Mutably borrow the set of outputs this surface is currently on.
    pub fn outputs_mut(&mut self) -> (r: &mut OutputSet)
        ensures
            *r == old(self).outputs,
            *final(self) == (Surface { outputs: *final(r), ..*old(self) }),
    {
        &mut self.outputs
    }

    /// Send an event notifying that the set of outputs this surface is on has
    /// changed.
    pub fn notify_output_changed(&mut self)
        requires
            old(self).output_change_events.version < u64::MAX,
        ensures
            *final(self) == (Surface {
                output_change_events: SingleState {
                    state: Some(OutputEvent),
                    version: (old(self).output_change_events.version + 1) as u64,
                },
                ..*old(self)
            }),
    {
        self.output_change_events.send(OutputEvent);
    }

    /// Asks for the layout of this surface to be announced, because it has changed.
    pub fn notify_layout_changed<S: Shell>(scene: &mut Scene<S>, id: usize)
        ensures
            final(scene).layout_changes@ == old(scene).layout_changes@.push(id),
            final(scene).shell == old(scene).shell,
            final(scene).surfaces == old(scene).surfaces,
    {
        scene.layout_changes.push(id);
    }

    /// Send a pointer event, over the source that the surfaces of the client share.
    pub fn pointer_event(&self, pointer_events: &mut Ring, time: u32, kind: PointerActivity) -> (r: SendOutcome)
        ensures
            final(pointer_events).sent() == old(pointer_events).sent().push(
                InputEvent::Pointer(PointerEvent { time, object_id: self.object_id, kind }),
            ),
            final(pointer_events).settings() == old(pointer_events).settings(),
    {
        pointer_events.broadcast(InputEvent::Pointer(PointerEvent { time, object_id: self.object_id, kind }))
    }

    /// Send a keyboard event, over the source that the surfaces of the client share.
    pub fn keyboard_event(&self, keyboard_events: &mut Ring, time: u32, activity: KeyboardActivity) -> (r: SendOutcome)
        ensures
            final(keyboard_events).sent() == old(keyboard_events).sent().push(
                InputEvent::Keyboard(KeyboardEvent { time, object_id: self.object_id, activity }),
            ),
            final(keyboard_events).settings() == old(keyboard_events).settings(),
    {
        keyboard_events.broadcast(InputEvent::Keyboard(KeyboardEvent { time, object_id: self.object_id, activity }))
    }
}

} // verus!
