//! The shell: what keeps the states of all surfaces.
//!
//! A shell is the user facing component of the compositor. It manages a set of
//! surfaces, and is responsible of presenting them to the user, as well as
//! accepting user interactions.
use std::collections::hash_map::Entry;
use std::collections::HashMap;
use vstd::pervasive::unreached;
use vstd::prelude::*;
use crate::shell::surface::SurfaceState;

pub mod access;
pub mod attach;
pub mod callbacks;
pub mod destroy;
pub mod geometry;
pub mod laws;
pub mod order;
pub mod roles;
pub mod scene;
pub mod settled;
pub mod stack;
pub mod surface;
pub mod tree;
pub mod xdg;

verus! {

/// Events emitted by a shell.
#[derive(Clone, Copy, Debug, PartialEq, Eq, Structural)]
pub enum ShellEvent {
    /// The current set of surfaces have been rendered to screen.
    Render,
}

/// A callback that a shell has received.
#[derive(Clone, Copy, Debug)]
pub enum ShellCall {
    /// A role was added to the surface with the given current state.
    RoleAdded { key: u64, role: &'static str },
    /// The role of the surface with the given current state was deactivated.
    RoleDeactivated { key: u64, role: &'static str },
    /// The role that is kept under a number has seen a commit of its surface, which has
    /// the given current state now.
    RolePostCommit { role: u64, key: u64 },
    /// A surface state was committed. `old` is what it replaces, if any.
    PostCommit { old: Option<u64>, new: u64 },
    /// A buffer became part of a committed state.
    AcquireBuffer { buffer: u32 },
    /// The contents of a buffer have changed.
    DamageBuffer { buffer: u32 },
}

/// Shell.
///
/// This is the fundamental interface to the compositor's shell. A shell needs
/// to support management of surface states, i.e. allocation, deallocation, and
/// access. The allocated states are referenced via a token. A token is larger
/// than those of all states that the shell holds when it is handed out, so
/// that tokens order states by age.
///
/// The interface also has a number of callbacks, which are called in response
/// to various operations done to surfaces.
pub trait Shell: Sized {
    /// The states that the shell holds, by token.
    spec fn states(&self) -> Map<u64, SurfaceState>;

    /// The callbacks that were called, the oldest first.
    spec fn calls(&self) -> Seq<ShellCall>;

    /// The shell is in order.
    spec fn valid(&self) -> bool;

    /// There is a token left for one more state.
    spec fn spec_has_room(&self) -> bool;

    /// Tells whether there is a token left for one more state.
    fn has_room(&self) -> (r: bool)
        ensures
            r == self.spec_has_room(),
    ;

    /// Allocate a SurfaceState and returns a handle to it.
    fn allocate(&mut self, state: SurfaceState) -> (key: u64)
        requires
            old(self).valid(),
            old(self).spec_has_room(),
        ensures
            final(self).valid(),
            forall|t: u64| old(self).states().contains_key(t) ==> t < key,
            final(self).states() == old(self).states().insert(key, state),
            final(self).calls() == old(self).calls(),
    ;

    /// Release a token.
    fn destroy(&mut self, key: u64)
        requires
            old(self).valid(),
            old(self).states().contains_key(key),
        ensures
            final(self).valid(),
            final(self).states() == old(self).states().remove(key),
            final(self).calls() == old(self).calls(),
            final(self).spec_has_room() == old(self).spec_has_room(),
    ;

    /// Get a reference to a SurfaceState by key.
    fn get(&self, key: u64) -> (state: &SurfaceState)
        requires
            self.valid(),
            self.states().contains_key(key),
        ensures
            *state == self.states()[key],
    ;

    /// Get a mutable reference to a SurfaceState.
    fn get_mut(&mut self, key: u64) -> (state: &mut SurfaceState)
        requires
            old(self).valid(),
            old(self).states().contains_key(key),
        ensures
            final(self).valid(),
            *state == old(self).states()[key],
            final(self).states() == old(self).states().insert(key, *final(state)),
            final(self).calls() == old(self).calls(),
            final(self).spec_has_room() == old(self).spec_has_room(),
    ;

    /// Callback which is called when a role is added to the surface that has the
    /// given state.
    fn role_added(&mut self, key: u64, role: &'static str)
        requires
            old(self).valid(),
        ensures
            final(self).valid(),
            final(self).states() == old(self).states(),
            final(self).calls() == old(self).calls().push(ShellCall::RoleAdded { key, role }),
            final(self).spec_has_room() == old(self).spec_has_room(),
    ;

    /// Callback that is called when a surface has its assigned role
    /// deactivated.
    fn role_deactivated(&mut self, key: u64, role: &'static str)
        requires
            old(self).valid(),
        ensures
            final(self).valid(),
            final(self).states() == old(self).states(),
            final(self).calls() == old(self).calls().push(ShellCall::RoleDeactivated { key, role }),
            final(self).spec_has_room() == old(self).spec_has_room(),
    ;

    /// Called for an active role that is kept elsewhere, under the number `role`, after
    /// the pending state of its surface became the current state `key`.
    fn role_post_commit(&mut self, role: u64, key: u64)
        requires
            old(self).valid(),
        ensures
            final(self).valid(),
            final(self).states() == old(self).states(),
            final(self).calls() == old(self).calls().push(ShellCall::RolePostCommit { role, key }),
            final(self).spec_has_room() == old(self).spec_has_room(),
    ;

    /// A commit happened on the surface which used to have the state `previous`.
    /// The new state is `new`. If `previous` is None, this is the first commit
    /// on the surface.
    fn post_commit(&mut self, previous: Option<u64>, new: u64)
        requires
            old(self).valid(),
        ensures
            final(self).valid(),
            final(self).states() == old(self).states(),
            final(self).calls() == old(self).calls().push(ShellCall::PostCommit { old: previous, new }),
            final(self).spec_has_room() == old(self).spec_has_room(),
    ;

    /// A buffer is used by a committed state from now on.
    fn acquire_buffer(&mut self, buffer: u32)
        requires
            old(self).valid(),
        ensures
            final(self).valid(),
            final(self).states() == old(self).states(),
            final(self).calls() == old(self).calls().push(ShellCall::AcquireBuffer { buffer }),
            final(self).spec_has_room() == old(self).spec_has_room(),
    ;

    /// The contents of a buffer have changed.
    fn damage_buffer(&mut self, buffer: u32)
        requires
            old(self).valid(),
        ensures
            final(self).valid(),
            final(self).states() == old(self).states(),
            final(self).calls() == old(self).calls().push(ShellCall::DamageBuffer { buffer }),
            final(self).spec_has_room() == old(self).spec_has_room(),
    ;
}

/// A shell that keeps its states in memory, and the callbacks it received until
/// they are taken.
pub struct SurfaceStore {
    states: HashMap<u64, SurfaceState>,
    calls: Vec<ShellCall>,
    next: u64,
}

impl SurfaceStore {
    /// A shell without states.
    pub fn new() -> (r: SurfaceStore)
        ensures
            r.valid(),
            r.states() == Map::<u64, SurfaceState>::empty(),
            r.calls() == Seq::<ShellCall>::empty(),
            r.spec_has_room(),
    {
        broadcast use vstd::std_specs::hash::group_hash_axioms;
        SurfaceStore { states: HashMap::new(), calls: Vec::new(), next: 0 }
    }

    /// Hands out the callbacks received so far, the oldest first.
    pub fn take_calls(&mut self) -> (r: Vec<ShellCall>)
        requires
            old(self).valid(),
        ensures
            r@ == old(self).calls(),
            final(self).valid(),
            final(self).calls() == Seq::<ShellCall>::empty(),
            final(self).states() == old(self).states(),
            final(self).spec_has_room() == old(self).spec_has_room(),
    {
        let mut calls: Vec<ShellCall> = Vec::new();
        calls.append(&mut self.calls);
        calls
    }
}

impl Shell for SurfaceStore {
    closed spec fn states(&self) -> Map<u64, SurfaceState> {
        self.states@
    }

    closed spec fn calls(&self) -> Seq<ShellCall> {
        self.calls@
    }

    /// No token is handed out while a state with it or a larger one is held.
    closed spec fn valid(&self) -> bool {
        forall|t: u64| self.states@.contains_key(t) ==> t < self.next
    }

    closed spec fn spec_has_room(&self) -> bool {
        self.next < u64::MAX
    }

    fn has_room(&self) -> (r: bool) {
        self.next < u64::MAX
    }

    fn allocate(&mut self, state: SurfaceState) -> (key: u64) {
        broadcast use vstd::std_specs::hash::group_hash_axioms;
        let key: u64 = self.next;
        self.next = key + 1;
        self.states.insert(key, state);
        key
    }

    fn destroy(&mut self, key: u64) {
        broadcast use vstd::std_specs::hash::group_hash_axioms;
        self.states.remove(&key);
    }

    fn get(&self, key: u64) -> (state: &SurfaceState) {
        broadcast use vstd::std_specs::hash::group_hash_axioms;
        self.states.get(&key).unwrap()
    }

    fn get_mut(&mut self, key: u64) -> (state: &mut SurfaceState) {
        broadcast use vstd::std_specs::hash::group_hash_axioms;
        match self.states.entry(key) {
            Entry::Occupied(entry) => entry.into_mut(),
            Entry::Vacant(_) => unreached(),
        }
    }

    fn role_added(&mut self, key: u64, role: &'static str) {
        self.calls.push(ShellCall::RoleAdded { key, role });
    }

    fn role_deactivated(&mut self, key: u64, role: &'static str) {
        self.calls.push(ShellCall::RoleDeactivated { key, role });
    }

    fn role_post_commit(&mut self, role: u64, key: u64) {
        self.calls.push(ShellCall::RolePostCommit { role, key });
    }

    fn post_commit(&mut self, previous: Option<u64>, new: u64) {
        self.calls.push(ShellCall::PostCommit { old: previous, new });
    }

    fn acquire_buffer(&mut self, buffer: u32) {
        self.calls.push(ShellCall::AcquireBuffer { buffer });
    }

    fn damage_buffer(&mut self, buffer: u32) {
        self.calls.push(ShellCall::DamageBuffer { buffer });
    }
}

/// Keyboard repeat information.
///
/// See `wl_keyboard.repeat_info` for more details.
#[derive(Clone, Copy, Debug, PartialEq, Eq, Structural)]
pub struct RepeatInfo {
    pub rate: i32,
    pub delay: i32,
}

/// Events emitted by a seat.
#[derive(Clone, Copy, Debug, PartialEq, Eq, Structural)]
pub enum SeatEvent {
    /// The keymap has changed.
    KeymapChanged,
    /// The repeat info has changed.
    RepeatInfoChanged,
    /// The capabilities of the seat has changed.
    CapabilitiesChanged,
    /// The name of the seat has changed.
    NameChanged,
}

} // verus!
