//! Surfaces and the states they go through.
use dlv_list::Index;
use vstd::prelude::*;
use crate::objects::outputs::OutputSet;
use crate::server::events::SingleState;
use crate::shell::callbacks::FrameCallbacks;
use crate::shell::roles::{Role, RoleState, Subsurface, SubsurfaceState};
use crate::shell::stack::{get, index_at, set_entry, stack_entries, SurfaceStackEntry};
use crate::shell::surface::{
    adopted, child_at, entries_of, forest, freeable, has_child, has_parent, lemma_reach_live, lemma_reach_step,
    lemma_released_step, lemma_same_reach, lemma_same_shape, linked, reaches, releases, resurrect, resurrected,
    same_shape, stack_wf, state_linked, PendingSurfaceState, States, SurfaceState,
};
use crate::shell::{Shell, ShellCall};
use vstd::pervasive::unreached;

verus! {

/// The set of outputs that a surface is on has changed. What it is now is looked up in
/// the surface.
#[derive(Clone, Copy, Debug, PartialEq, Eq, Structural)]
pub struct OutputEvent;

/// A surface.
pub struct Surface {
    /// The current state of the surface. Once a state is committed to current,
    /// it should not be modified. None once the surface is destroyed.
    pub current: Option<u64>,
    /// The pending state of the surface, this will be applied to `current` when
    /// commit is called.
    pub pending_state: PendingSurfaceState,
    /// List of all the unfired frame callbacks associated with this surface, in
    /// any of its surface states.
    pub frame_callbacks: FrameCallbacks,
    /// The index of the first frame callback stored in `frame_callbacks`. Frame
    /// callbacks attached to a surface are numbered starting from 0, and loop
    /// over when the number reaches `u32::MAX`.
    pub first_frame_callback_index: u32,
    pub role: Option<Role>,
    /// The outputs that the surface is on.
    pub outputs: OutputSet,
    pub output_change_events: SingleState<OutputEvent>,
    pub object_id: u32,
}

/// A shell, and the surfaces whose states it keeps. A surface is known by its
/// position in the list, and keeps it.
pub struct Scene<S: Shell> {
    pub shell: S,
    pub surfaces: Vec<Surface>,
    /// The surfaces whose layout has to be announced, the oldest request first.
    pub layout_changes: Vec<usize>,
}

/// The pending stack of a surface with the current state `current` can be
/// committed: it is in order, and each state in it is held by the shell, is the
/// state of a subsurface, and has either no parent or a valid one.
pub open spec fn pending_wf(m: States, current: u64, pending: PendingSurfaceState) -> bool {
    let entries = stack_entries(pending.stack);
    &&& stack_wf(entries, m[current].stack_index)
    &&& forall|i: int|
        #![trigger entries[i]]
        0 <= i < entries.len() && entries[i].1 is Subsurface ==> m.contains_key(entries[i].1->token)
            && m[entries[i].1->token].is_subsurface() && (m[entries[i].1->token].spec_parent() is Some ==> has_parent(
            m,
            entries[i].1->token,
        ))
}

/// What becomes of the states `m` when `n` takes the place of `current` as the
/// state of a surface: what could be freed has no parent any more, unless it is
/// shown with `n`. All that is shown with `n` has a parent.
pub open spec fn applied(m: States, m2: States, current: u64, n: u64) -> bool {
    let mm = m.insert(n, m2[n]);
    &&& m2.dom() == m.dom().insert(n)
    &&& forall|x: u64| #[trigger]
        m.contains_key(x) ==> {
            &&& m2[x] == m[x].with_parent(m2[x].spec_parent())
            &&& if reaches(mm, n, x) && (freeable(m, current).contains(x) || m[x].spec_parent() is None) {
                adopted(mm, m2, n, x)
            } else if freeable(m, current).contains(x) {
                m2[x].spec_parent() is None
            } else {
                m2[x].spec_parent() == m[x].spec_parent()
            }
        }
}

/// The pending stack has a subsurface at the given index.
pub open spec fn has_subsurface_at(pending: PendingSurfaceState, index: Index<SurfaceStackEntry>) -> bool {
    exists|i: int|
        #![trigger index_at(stack_entries(pending.stack), index, i)]
        index_at(stack_entries(pending.stack), index, i) && stack_entries(pending.stack)[i].1 is Subsurface
}

/// `after` differs from `before` in the state that the subsurface at `index`
/// has in the stack.
pub open spec fn restacked(
    before: PendingSurfaceState,
    after: PendingSurfaceState,
    index: Index<SurfaceStackEntry>,
    token: u64,
) -> bool {
    &&& after == PendingSurfaceState { stack: after.stack, ..before }
    &&& forall|i: int|
        #![trigger index_at(stack_entries(before.stack), index, i)]
        index_at(stack_entries(before.stack), index, i) ==> stack_entries(after.stack) == stack_entries(
            before.stack,
        ).update(
            i,
            (
                index,
                SurfaceStackEntry::Subsurface { token, position: stack_entries(before.stack)[i].1->position },
            ),
        )
}

/// What a commit makes of the states `m` when `n` takes the place of `current`:
/// what may be freed is freed, unless it is shown with `n`. All that is shown
/// with `n` has a parent, and nothing else has changed.
pub open spec fn committed(m: States, m2: States, current: u64, n: u64) -> bool {
    let mm = m.insert(n, m2[n]);
    &&& forall|x: u64| #[trigger]
        m2.contains_key(x) <==> x == n || (m.contains_key(x) && (freeable(m, current).contains(x) ==> reaches(mm, n, x)))
    &&& forall|x: u64| #[trigger]
        m.contains_key(x) && m2.contains_key(x) ==> {
            &&& m2[x] == m[x].with_parent(m2[x].spec_parent())
            &&& if reaches(mm, n, x) && (freeable(m, current).contains(x) || m[x].spec_parent() is None) {
                adopted(mm, m2, n, x)
            } else {
                m2[x].spec_parent() == m[x].spec_parent()
            }
        }
}

/// No state that is neither freed with `current` nor shown with `n` has
/// something in its stack that is freed with `current`.
pub open spec fn no_other_holder(m: States, current: u64, n: u64, new: SurfaceState) -> bool {
    forall|t: u64, c: u64|
        m.contains_key(t) && #[trigger] has_child(m, t, c) && freeable(m, current).contains(c) ==> freeable(
            m,
            current,
        ).contains(t) || reaches(m.insert(n, new), n, t) || reaches(m.insert(n, new), n, c)
}

impl<S: Shell> Scene<S> {
    /// The surface has a current state, which the shell holds.
    pub open spec fn live(self, id: usize) -> bool {
        &&& id < self.surfaces@.len()
        &&& self.surfaces@[id as int].current is Some
        &&& self.shell.states().contains_key(self.key(id))
    }

    /// The token of the current state of a surface.
    pub open spec fn key(self, id: usize) -> u64 {
        self.surfaces@[id as int].current->0
    }

    /// The surface has a role, which is active.
    pub open spec fn active(self, id: usize) -> bool {
        self.surfaces@[id as int].role is Some && self.surfaces@[id as int].role->0.active()
    }

    /// The surface is shown as part of another one.
    pub open spec fn is_subsurface(self, id: usize) -> bool {
        self.active(id) && self.surfaces@[id as int].role->0 is Subsurface
    }

    /// The subsurface role of the surface.
    pub open spec fn subsurface(self, id: usize) -> Subsurface {
        self.surfaces@[id as int].role->0->Subsurface_0
    }

    /// A subsurface has its entry in the pending stack of its parent.
    pub open spec fn attached(self, id: usize) -> bool {
        self.is_subsurface(id) ==> {
            let role = self.subsurface(id);
            &&& role.parent is Some
            &&& role.parent->0 != id
            &&& role.parent->0 < self.surfaces@.len()
            &&& has_subsurface_at(self.surfaces@[role.parent->0 as int].pending_state, role.stack_index)
            &&& self.shell.states()[self.key(id)].next_role_state(self.surfaces@[id as int].pending_state) matches Some(
                RoleState::Subsurface(_),
            )
        }
    }

    /// Why the role of the surface stops a commit, if it does.
    pub open spec fn refusal(self, id: usize) -> Option<&'static str> {
        if self.active(id) {
            self.surfaces@[id as int].role->0.refusal(self.surfaces@[id as int].pending_state.buffer is Some)
        } else {
            None
        }
    }

    /// The role of the surface stops a commit.
    pub open spec fn refuses(self, id: usize) -> bool {
        self.refusal(id) is Some
    }

    /// The role of the surface after a commit.
    pub open spec fn prepared_role(self, id: usize) -> Option<Role> {
        if self.active(id) {
            Some(self.surfaces@[id as int].role->0.prepared(self.surfaces@[id as int].pending_state.buffer is Some))
        } else {
            self.surfaces@[id as int].role
        }
    }

    /// The surface is live, and its pending state can be committed.
    pub open spec fn committable(self, id: usize) -> bool {
        self.live(id) && pending_wf(self.shell.states(), self.key(id), self.surfaces@[id as int].pending_state)
    }
}

/// The callbacks that a commit of the surface `id` calls, with the new state `n`: a
/// buffer is acquired, then a role that is kept elsewhere sees the commit, if it is
/// active, and then the shell does.
pub open spec fn commit_calls<S: Shell>(before: Scene<S>, id: usize, n: u64) -> Seq<ShellCall> {
    let surface = before.surfaces@[id as int];
    let acquired = match surface.pending_state.buffer {
        Some(buffer) => seq![ShellCall::AcquireBuffer { buffer }],
        None => Seq::empty(),
    };
    let seen = match surface.role {
        Some(Role::Custom(role)) if role.is_active => seq![ShellCall::RolePostCommit { role: role.state, key: n }],
        _ => Seq::empty(),
    };
    acquired + seen + seq![ShellCall::PostCommit { old: Some(before.key(id)), new: n }]
}

/// What a commit of the surface `id` makes of the surfaces. Where the role of the
/// surface refuses it, only the role changes.
pub open spec fn commit_done<S: Shell>(before: Scene<S>, after: Scene<S>, id: usize) -> bool {
    &&& before.refuses(id) ==> {
        &&& after.shell == before.shell
        &&& after.layout_changes == before.layout_changes
        &&& after.surfaces@ == before.surfaces@.update(
            id as int,
            Surface { role: before.prepared_role(id), ..before.surfaces@[id as int] },
        )
    }
    &&& !before.refuses(id) ==> {
        let m = before.shell.states();
        let current = before.key(id);
        let n = after.key(id);
        let new = after.shell.states()[n];
        let surface = before.surfaces@[id as int];
        &&& forall|t: u64| m.contains_key(t) ==> t < n
        &&& committed(m, after.shell.states(), current, n)
        &&& m[current].changed(surface.pending_state, new)
        &&& new.role_state == if before.is_subsurface(id) {
            Some(RoleState::Subsurface(SubsurfaceState { parent: None }))
        } else {
            m[current].next_role_state(surface.pending_state)
        }
        &&& no_other_holder(m, current, n, new) ==> forest(after.shell.states())
        &&& after.layout_changes@ == if before.active(id) && surface.role->0.announces() {
            before.layout_changes@.push(id)
        } else {
            before.layout_changes@
        }
        &&& after.shell.calls() == before.shell.calls() + commit_calls(before, id, n)
        &&& after.surfaces@.len() == before.surfaces@.len()
        &&& after.surfaces@[id as int] == Surface {
            current: Some(n),
            pending_state: PendingSurfaceState { buffer: None, role_state: None, ..surface.pending_state },
            role: before.prepared_role(id),
            ..surface
        }
        &&& forall|j: int|
            #![trigger after.surfaces@[j]]
            0 <= j < before.surfaces@.len() && j != id && !(before.is_subsurface(id) && j == before.subsurface(
                id,
            ).parent->0) ==> after.surfaces@[j] == before.surfaces@[j]
        &&& before.is_subsurface(id) ==> {
            let p = before.subsurface(id).parent->0 as int;
            let pending = after.surfaces@[p].pending_state;
            &&& after.surfaces@[p] == Surface { pending_state: pending, ..before.surfaces@[p] }
            &&& restacked(before.surfaces@[p].pending_state, pending, before.subsurface(id).stack_index, n)
        }
    }
}

/// Takes the parents of the listed states away.
fn clear_parents<S: Shell>(shell: &mut S, tokens: &Vec<u64>)
    requires
        old(shell).valid(),
        forall|i: int| 0 <= i < tokens@.len() ==> old(shell).states().contains_key(#[trigger] tokens@[i]),
    ensures
        final(shell).valid(),
        final(shell).calls() == old(shell).calls(),
        final(shell).spec_has_room() == old(shell).spec_has_room(),
        final(shell).states().dom() == old(shell).states().dom(),
        forall|x: u64| #[trigger]
            old(shell).states().contains_key(x) ==> final(shell).states()[x] == if tokens@.contains(x) {
                old(shell).states()[x].with_parent(None)
            } else {
                old(shell).states()[x]
            },
{
    let ghost m = shell.states();
    let mut i: usize = 0;
    while i < tokens.len()
        invariant
            shell.valid(),
            shell.calls() == old(shell).calls(),
            shell.spec_has_room() == old(shell).spec_has_room(),
            0 <= i <= tokens@.len(),
            m == old(shell).states(),
            shell.states().dom() == m.dom(),
            forall|i: int| 0 <= i < tokens@.len() ==> m.contains_key(#[trigger] tokens@[i]),
            forall|x: u64| #[trigger]
                m.contains_key(x) ==> shell.states()[x] == if tokens@.take(i as int).contains(x) {
                    m[x].with_parent(None)
                } else {
                    m[x]
                },
        decreases tokens@.len() - i,
    {
        let token: u64 = tokens[i];
        let ghost m1 = shell.states();
        proof {
            assert(m.contains_key(token) && m1.contains_key(token));
        }
        // The surface whose state is replaced is listed too, and need not be a
        // subsurface.
        shell.get_mut(token).set_parent(None);
        proof {
            let before = tokens@.take(i as int);
            let after = tokens@.take(i + 1);
            assert(after =~= before.push(token));
            assert(after.last() == token);
            assert(shell.states().dom() =~= m.dom());
            assert forall|x: u64| #[trigger] m.contains_key(x) implies shell.states()[x] == if after.contains(x) {
                m[x].with_parent(None)
            } else {
                m[x]
            } by {
                if before.contains(x) {
                    let j = choose|j: int| 0 <= j < before.len() && before[j] == x;
                    assert(after[j] == x);
                }
                if after.contains(x) && x != token {
                    let j = choose|j: int| 0 <= j < after.len() && after[j] == x;
                    assert(before[j] == x);
                }
            }
        }
        i = i + 1;
    }
    proof {
        assert(tokens@.take(i as int) =~= tokens@);
    }
}

/// Frees the listed states that have no parent.
pub(crate) fn free_orphans<S: Shell>(shell: &mut S, tokens: &Vec<u64>)
    requires
        old(shell).valid(),
        tokens@.no_duplicates(),
        forall|i: int| 0 <= i < tokens@.len() ==> old(shell).states().contains_key(#[trigger] tokens@[i]),
    ensures
        final(shell).valid(),
        final(shell).calls() == old(shell).calls(),
        final(shell).spec_has_room() == old(shell).spec_has_room(),
        final(shell).states() == old(shell).states().restrict(
            Set::new(
                |x: u64| old(shell).states().contains_key(x) && !(tokens@.contains(x) && old(shell).states()[x].spec_parent() is None),
            ),
        ),
{
    let ghost m = shell.states();
    let mut i: usize = 0;
    while i < tokens.len()
        invariant
            shell.valid(),
            shell.calls() == old(shell).calls(),
            shell.spec_has_room() == old(shell).spec_has_room(),
            0 <= i <= tokens@.len(),
            m == old(shell).states(),
            tokens@.no_duplicates(),
            forall|i: int| 0 <= i < tokens@.len() ==> m.contains_key(#[trigger] tokens@[i]),
            forall|x: u64| #[trigger]
                shell.states().contains_key(x) <==> m.contains_key(x) && !(tokens@.take(i as int).contains(x)
                    && m[x].spec_parent() is None),
            forall|x: u64| #[trigger] shell.states().contains_key(x) ==> shell.states()[x] == m[x],
        decreases tokens@.len() - i,
    {
        let token: u64 = tokens[i];
        let ghost before = tokens@.take(i as int);
        let ghost after = tokens@.take(i + 1);
        proof {
            assert(after =~= before.push(token));
            assert(after.last() == token);
            assert(!before.contains(token)) by {
                if before.contains(token) {
                    let j = choose|j: int| 0 <= j < before.len() && before[j] == token;
                    assert(tokens@[j] == tokens@[i as int]);
                }
            }
            assert(m.contains_key(token) && shell.states().contains_key(token));
            assert forall|x: u64| #[trigger] after.contains(x) == (before.contains(x) || x == token) by {
                if before.contains(x) {
                    let j = choose|j: int| 0 <= j < before.len() && before[j] == x;
                    assert(after[j] == x);
                }
                if after.contains(x) && x != token {
                    let j = choose|j: int| 0 <= j < after.len() && after[j] == x;
                    assert(before[j] == x);
                }
            }
        }
        if shell.get(token).parent().is_none() {
            shell.destroy(token);
        }
        i = i + 1;
    }
    proof {
        assert(tokens@.take(i as int) =~= tokens@);
        assert(shell.states() =~= m.restrict(
            Set::new(|x: u64| m.contains_key(x) && !(tokens@.contains(x) && m[x].spec_parent() is None)),
        ));
    }
}

impl Surface {
    /// Set the pending state as the current state of this surface.
    ///
    /// Put potentially free-able surface states into `scratch_buffer`. Also
    /// updates the frame_callbacks indices.
    pub(crate) fn apply_pending<S: Shell>(scene: &mut Scene<S>, id: usize, scratch_buffer: &mut Vec<u64>) -> (n: u64)
        requires
            old(scene).shell.valid(),
            old(scene).shell.spec_has_room(),
            forest(old(scene).shell.states()),
            old(scene).committable(id),
        ensures
            final(scene).shell.valid(),
            forall|t: u64| old(scene).shell.states().contains_key(t) ==> t < n,
            applied(old(scene).shell.states(), final(scene).shell.states(), old(scene).key(id), n),
            linked(final(scene).shell.states()),
            old(scene).shell.states()[old(scene).key(id)].changed(
                old(scene).surfaces@[id as int].pending_state,
                final(scene).shell.states()[n],
            ),
            final(scene).shell.states()[n].role_state == old(scene).shell.states()[old(scene).key(id)].next_role_state(
                old(scene).surfaces@[id as int].pending_state,
            ),
            final(scene).shell.calls() == match old(scene).surfaces@[id as int].pending_state.buffer {
                Some(buffer) => old(scene).shell.calls().push(ShellCall::AcquireBuffer { buffer }),
                None => old(scene).shell.calls(),
            },
            final(scene).surfaces@ == old(scene).surfaces@.update(
                id as int,
                Surface {
                    current: Some(n),
                    pending_state: PendingSurfaceState {
                        buffer: None,
                        role_state: None,
                        ..old(scene).surfaces@[id as int].pending_state
                    },
                    ..old(scene).surfaces@[id as int]
                },
            ),
            final(scene).layout_changes == old(scene).layout_changes,
            final(scratch_buffer)@.no_duplicates(),
            final(scratch_buffer)@.to_set() == freeable(old(scene).shell.states(), old(scene).key(id)),
    {
        let ghost m = scene.shell.states();
        let ghost surface0 = scene.surfaces@[id as int];
        let current: u64 = scene.surfaces[id].current.unwrap();
        scratch_buffer.clear();

        // Find potentially free-able surface states and set their parents to
        // None, so later they can either be resurrected with a new parent, or
        // be freed.
        SurfaceState::scan_for_freeing(current, &scene.shell, scratch_buffer);
        proof {
            assert(scratch_buffer@.skip(0) =~= scratch_buffer@);
            assert forall|i: int| 0 <= i < scratch_buffer@.len() implies m.contains_key(#[trigger] scratch_buffer@[i]) by {
                assert(scratch_buffer@.to_set().contains(scratch_buffer@[i]));
            }
        }
        clear_parents(&mut scene.shell, scratch_buffer);
        let ghost m1 = scene.shell.states();

        // Now, apply changes from `pending`.
        if let Some(buffer) = scene.surfaces[id].pending_state.buffer {
            scene.shell.acquire_buffer(buffer);
        }
        let new_state = scene.shell.get(current).apply_pending(&mut scene.surfaces[id].pending_state);
        let ghost new0 = new_state;
        let n = scene.shell.allocate(new_state);
        let ghost m1n = scene.shell.states();
        let ghost mm = m.insert(n, new0);
        proof {
            lemma_new_state_linked(m, m1, current, n, new0, surface0.pending_state, scratch_buffer@);
        }

        // Go through the new children and resurrect them if they are in the
        // free candidates list.
        resurrect(&mut scene.shell, n, scratch_buffer);
        proof {
            lemma_applied(m, m1, scene.shell.states(), current, n, new0, scratch_buffer@);
        }
        scene.surfaces[id].current = Some(n);
        n
    }

    /// What a subsurface does after its pending state became current: the
    /// pending stack of the parent names the new state, which has no parent
    /// until the parent commits.
    fn subsurface_post_commit<S: Shell>(scene: &mut Scene<S>, id: usize)
        requires
            old(scene).shell.valid(),
            old(scene).live(id),
            old(scene).is_subsurface(id),
            old(scene).subsurface(id).parent is Some,
            old(scene).subsurface(id).parent->0 != id,
            old(scene).subsurface(id).parent->0 < old(scene).surfaces@.len(),
            has_subsurface_at(
                old(scene).surfaces@[old(scene).subsurface(id).parent->0 as int].pending_state,
                old(scene).subsurface(id).stack_index,
            ),
        ensures
            final(scene).shell.valid(),
            final(scene).shell.calls() == old(scene).shell.calls(),
            final(scene).shell.spec_has_room() == old(scene).shell.spec_has_room(),
            final(scene).layout_changes == old(scene).layout_changes,
            final(scene).shell.states() == old(scene).shell.states().insert(
                old(scene).key(id),
                old(scene).shell.states()[old(scene).key(id)].with_parent(None),
            ),
            ({
                let p = old(scene).subsurface(id).parent->0 as int;
                let after = final(scene).surfaces@[p].pending_state;
                &&& final(scene).surfaces@ == old(scene).surfaces@.update(
                    p,
                    Surface { pending_state: after, ..old(scene).surfaces@[p] },
                )
                &&& restacked(
                    old(scene).surfaces@[p].pending_state,
                    after,
                    old(scene).subsurface(id).stack_index,
                    old(scene).key(id),
                )
            }),
    {
        let n: u64 = scene.surfaces[id].current.unwrap();
        let role = match &scene.surfaces[id].role {
            Some(Role::Subsurface(role)) => *role,
            _ => unreached(),
        };
        let p: usize = role.parent.unwrap();
        // Update the state referenced in the parent's pending stack.
        let ghost before = stack_entries(scene.surfaces@[p as int].pending_state.stack);
        proof {
            let i = choose|i: int| index_at(before, role.stack_index, i) && before[i].1 is Subsurface;
            assert(index_at(before, role.stack_index, i));
        }
        let entry = get(&scene.surfaces[p].pending_state.stack, role.stack_index).unwrap();
        if let SurfaceStackEntry::Subsurface { position, .. } = entry {
            set_entry(
                &mut scene.surfaces[p].pending_state.stack,
                role.stack_index,
                SurfaceStackEntry::Subsurface { token: n, position },
            );
        }
        // The current state is now referenced by the parent's pending state. Its
        // parent could have been set because it was copied from a previous
        // current state.
        scene.shell.get_mut(n).set_parent(None);
        proof {
            let after = scene.surfaces@[p as int].pending_state;
            assert(scene.surfaces@ =~= old(scene).surfaces@.update(
                p as int,
                Surface { pending_state: after, ..old(scene).surfaces@[p as int] },
            ));
        }
    }

    /// Commit the pending state to the current state.
    ///
    /// # Arguments
    ///
    /// * `scratch_buffer` - A scratch buffer to use for temporary storage. It is
    ///   an argument so that a new buffer doesn't have to be allocated every
    ///   time.
    ///
    /// Returns if the commit is successful. It is refused where the role of the
    /// surface refuses it.
    pub fn commit<S: Shell>(scene: &mut Scene<S>, id: usize, scratch_buffer: &mut Vec<u64>) -> (r: Result<(), &'static str>)
        requires
            old(scene).shell.valid(),
            old(scene).shell.spec_has_room(),
            forest(old(scene).shell.states()),
            old(scene).committable(id),
            old(scene).attached(id),
        ensures
            final(scene).shell.valid(),
            r == if old(scene).refuses(id) {
                Err::<(), &'static str>(old(scene).refusal(id)->0)
            } else {
                Ok::<(), &'static str>(())
            },
            commit_done(*old(scene), *final(scene), id),
            final(scratch_buffer)@ == if r is Ok {
                Seq::<u64>::empty()
            } else {
                old(scratch_buffer)@
            },
    {
        let ghost scene0 = *scene;
        let ghost m = scene.shell.states();
        let current: u64 = scene.surfaces[id].current.unwrap();
        let has_buffer = scene.surfaces[id].pending_state.buffer.is_some();
        let mut active = false;
        let mut subsurface = false;
        let mut notify = false;
        let mut custom: Option<u64> = None;
        if let Some(role) = &mut scene.surfaces[id].role {
            active = role.is_active();
            subsurface = active && matches!(role, Role::Subsurface(_));
            if let Role::Custom(r) = role {
                if active {
                    custom = Some(r.state);
                }
            }
            if active {
                match role.pre_commit(has_buffer) {
                    Ok(announce) => {
                        notify = announce;
                    },
                    Err(message) => {
                        proof {
                            assert(scene.surfaces@ =~= scene0.surfaces@.update(
                                id as int,
                                Surface { role: scene0.prepared_role(id), ..scene0.surfaces@[id as int] },
                            ));
                        }
                        return Err(message);
                    },
                }
            }
        }
        if notify {
            Surface::notify_layout_changed(scene, id);
        }
        let n = Surface::apply_pending(scene, id, scratch_buffer);
        let ghost m1 = scene.shell.states();

        // Call post_commit hooks before we free the old states, they might still
        // need them.
        if subsurface {
            Surface::subsurface_post_commit(scene, id);
        }
        if let Some(role) = custom {
            scene.shell.role_post_commit(role, n);
        }
        scene.shell.post_commit(Some(current), n);
        proof {
            assert(scene.shell.calls() =~= scene0.shell.calls() + commit_calls(scene0, id, n));
        }

        // Now we have updated parent info, if any of the surface states found
        // in the first pass still doesn't have a parent, they can be freed.
        // (this also includes the old current state)
        let ghost m2 = scene.shell.states();
        proof {
            assert forall|i: int| 0 <= i < scratch_buffer@.len() implies m2.contains_key(#[trigger] scratch_buffer@[i]) by {
                assert(scratch_buffer@.to_set().contains(scratch_buffer@[i]));
            }
        }
        free_orphans(&mut scene.shell, scratch_buffer);
        proof {
            assert(children_parented(m, m1, n)) by {
                assert forall|c: u64| #[trigger] has_child(m1, n, c) && m[c].spec_parent() is Some implies has_parent(m, c) by {
                    let i = choose|i: int| child_at(m1, n, c, i);
                    assert(stack_entries(scene0.surfaces@[id as int].pending_state.stack)[i].1->token == c);
                }
            }
            lemma_committed(m, m1, m2, scene.shell.states(), current, n, scratch_buffer@);
        }
        scratch_buffer.clear();
        Ok(())
    }
}

/// Freeing what has no parent left completes a commit.
pub proof fn lemma_committed(m: States, m1: States, m2: States, m3: States, current: u64, n: u64, tokens: Seq<u64>)
    requires
        forest(m),
        m.contains_key(current),
        forall|t: u64| m.contains_key(t) ==> t < n,
        applied(m, m1, current, n),
        linked(m1),
        m2 == m1 || m2 == m1.insert(n, m1[n].with_parent(None)),
        children_parented(m, m1, n),
        tokens.to_set() == freeable(m, current),
        m3 == m2.restrict(
            Set::new(|x: u64| m2.contains_key(x) && !(tokens.contains(x) && m2[x].spec_parent() is None)),
        ),
    ensures
        committed(m, m3, current, n),
        m3[n] == m2[n],
        m3.contains_key(n),
        no_other_holder(m, current, n, m3[n]) ==> forest(m3),
{
    let mm1 = m.insert(n, m1[n]);
    let mm = m.insert(n, m3[n]);
    assert(!m.contains_key(n));
    assert(!freeable(m, current).contains(n));
    assert(!tokens.to_set().contains(n));
    assert(m2.contains_key(n));
    assert(m3[n] == m2[n]);
    lemma_own_parent(m1[n]);
    assert(same_shape(mm1, mm)) by {
        assert forall|t: u64| #[trigger] mm.contains_key(t) implies mm[t] == mm1[t].with_parent(mm[t].spec_parent()) by {
            lemma_own_parent(mm1[t]);
        }
        assert(mm.dom() =~= mm1.dom());
    }
    assert(same_shape(m1, mm1)) by {
        assert forall|t: u64| #[trigger] mm1.contains_key(t) implies mm1[t] == m1[t].with_parent(mm1[t].spec_parent()) by {
            lemma_own_parent(m1[t]);
            if t != n {
                assert(m.contains_key(t));
                lemma_own_parent(m[t]);
            }
        }
        assert(mm1.dom() =~= m1.dom());
    }
    lemma_same_shape(m1, mm1);
    lemma_same_shape(mm1, mm);
    assert(linked(mm));
    assert forall|x: u64| #[trigger] m3.contains_key(x) <==> x == n || (m.contains_key(x) && (freeable(m, current).contains(x)
        ==> reaches(mm, n, x))) by {
        assert(tokens.to_set().contains(x) == tokens.contains(x));
        if m.contains_key(x) {
            assert(m1.contains_key(x) && m2[x] == m1[x]);
            lemma_same_reach(mm1, mm, n, x);
            if freeable(m, current).contains(x) && reaches(mm, n, x) {
                assert(adopted(mm1, m1, n, x));
            }
        }
    }
    assert forall|x: u64| #[trigger] m.contains_key(x) && m3.contains_key(x) implies {
        &&& m3[x] == m[x].with_parent(m3[x].spec_parent())
        &&& if reaches(mm, n, x) && (freeable(m, current).contains(x) || m[x].spec_parent() is None) {
            adopted(mm, m3, n, x)
        } else {
            m3[x].spec_parent() == m[x].spec_parent()
        }
    } by {
        assert(m3[x] == m1[x]);
        lemma_same_reach(mm1, mm, n, x);
        if reaches(mm, n, x) && (freeable(m, current).contains(x) || m[x].spec_parent() is None) {
            assert(adopted(mm1, m1, n, x));
            let a = choose|a: u64| reaches(mm1, n, a) && #[trigger] has_child(mm1, a, x) && m1[x].spec_parent() == Some(a);
            lemma_reach_live(mm1, n, a);
            lemma_same_reach(mm1, mm, n, a);
            assert(has_child(mm, a, x));
        }
    }
    if no_other_holder(m, current, n, m3[n]) {
        assert(children_parented(m, mm, n)) by {
            assert forall|c: u64| #[trigger] has_child(mm, n, c) && m[c].spec_parent() is Some implies has_parent(m, c) by {
                assert(has_child(mm1, n, c));
                assert(has_child(m1, n, c));
            }
        }
        lemma_forest_kept(m, mm, m3, current, n);
    }
}

/// No state in the stack of `n` had an invalid parent.
pub open spec fn children_parented(m: States, mm: States, n: u64) -> bool {
    forall|c: u64| #[trigger] has_child(mm, n, c) && m[c].spec_parent() is Some ==> has_parent(m, c)
}

/// A state that stands in a stack has a parent after a commit.
proof fn lemma_parent_kept(m: States, mm: States, m3: States, current: u64, n: u64, t: u64, c: u64)
    requires
        forest(m),
        forall|t: u64| m.contains_key(t) ==> t < n,
        mm == m.insert(n, m3[n]),
        linked(mm),
        m3.contains_key(n),
        committed(m, m3, current, n),
        children_parented(m, mm, n),
        m3.contains_key(t),
        has_child(mm, t, c),
        m.contains_key(c),
        m3.contains_key(c),
    ensures
        has_parent(m3, c),
{
    assert forall|x: u64, y: u64| m3.contains_key(x) && #[trigger] has_child(mm, x, y) implies has_child(m3, x, y) by {
        let i = choose|i: int| child_at(mm, x, y, i);
        if x != n {
            assert(m.contains_key(x));
        }
        assert(child_at(m3, x, y, i));
    }
    if reaches(mm, n, c) && (freeable(m, current).contains(c) || m[c].spec_parent() is None) {
        let a = choose|a: u64| reaches(mm, n, a) && #[trigger] has_child(mm, a, c) && m3[c].spec_parent() == Some(a);
        lemma_reach_live(mm, n, a);
        assert(m3.contains_key(a));
    } else {
        if t == n {
            assert(reaches(mm, n, n));
            lemma_reach_step(mm, n, n, c);
        } else {
            assert(m.contains_key(t));
            let i = choose|i: int| child_at(mm, t, c, i);
            assert(child_at(m, t, c, i));
            assert(has_child(m, t, c));
        }
        let p = m[c].spec_parent()->0;
        assert(has_parent(m, c));
        assert(state_linked(m, p));
        let i = choose|i: int| child_at(m, p, c, i);
        assert(child_at(mm, p, c, i));
        assert(has_child(mm, p, c));
        if freeable(m, current).contains(p) {
            assert(releases(m, p, c));
            lemma_released_step(m, current, p, c);
            assert(freeable(m, current).contains(c));
        }
        assert(m3.contains_key(p));
    }
}

/// Where nothing else holds what is freed, the states are in order after a
/// commit.
proof fn lemma_forest_kept(m: States, mm: States, m3: States, current: u64, n: u64)
    requires
        forest(m),
        forall|t: u64| m.contains_key(t) ==> t < n,
        mm == m.insert(n, m3[n]),
        linked(mm),
        m3.contains_key(n),
        committed(m, m3, current, n),
        children_parented(m, mm, n),
        no_other_holder(m, current, n, m3[n]),
    ensures
        forest(m3),
{
    assert(m3.dom().subset_of(mm.dom())) by {
        assert forall|x: u64| m3.dom().contains(x) implies mm.dom().contains(x) by {
            assert(m3.contains_key(x));
        }
    }
    vstd::set_lib::lemma_set_subset_finite(mm.dom(), m3.dom());
    assert forall|t: u64| #[trigger] m3.contains_key(t) implies entries_of(m3, t) == entries_of(mm, t) && m3[t].stack_index
        == mm[t].stack_index && m3[t].is_subsurface() == mm[t].is_subsurface() by {
        if t != n {
            assert(m.contains_key(t));
        }
    }
    assert forall|t: u64, c: u64| m3.contains_key(t) && #[trigger] has_child(m3, t, c) implies m3.contains_key(c) && c < t
        && m3[c].is_subsurface() && has_parent(m3, c) by {
        let i = choose|i: int| child_at(m3, t, c, i);
        assert(child_at(mm, t, c, i));
        assert(has_child(mm, t, c));
        assert(mm.contains_key(t));
        assert(state_linked(mm, t));
        assert(c != n) by {
            if c == n {
                assert(m.contains_key(t));
            }
        }
        assert(m.contains_key(c));
        if t == n || reaches(mm, n, t) {
            assert(reaches(mm, n, n));
            lemma_reach_step(mm, n, t, c);
            assert(m3.contains_key(c));
        } else {
            assert(m.contains_key(t));
            assert(child_at(m, t, c, i));
            assert(has_child(m, t, c));
            assert(!freeable(m, current).contains(t));
            assert(m3.contains_key(c));
        }
        lemma_parent_kept(m, mm, m3, current, n, t, c);
    }
    assert forall|t: u64| #[trigger] m3.contains_key(t) implies state_linked(m3, t) by {
        assert(mm.contains_key(t));
        assert(state_linked(mm, t));
    }
}

/// Adding a state whose stack comes from a pending state keeps the states in
/// order.
proof fn lemma_new_state_linked(
    m: States,
    m1: States,
    current: u64,
    n: u64,
    new: SurfaceState,
    pending: PendingSurfaceState,
    tokens: Seq<u64>,
)
    requires
        forest(m),
        m.contains_key(current),
        m1.dom() == m.dom(),
        forall|x: u64| #[trigger]
            m.contains_key(x) ==> m1[x] == if tokens.contains(x) {
                m[x].with_parent(None)
            } else {
                m[x]
            },
        forall|t: u64| m.contains_key(t) ==> t < n,
        pending_wf(m, current, pending),
        m1[current].changed(pending, new),
    ensures
        linked(m.insert(n, new)),
        linked(m1.insert(n, new)),
        same_shape(m.insert(n, new), m1.insert(n, new)),
{
    let mm = m.insert(n, new);
    let m1n = m1.insert(n, new);
    assert(!m.contains_key(n));
    assert forall|t: u64| #[trigger] m1n.contains_key(t) implies m1n[t] == mm[t].with_parent(m1n[t].spec_parent()) by {
        if t != n {
            assert(m.contains_key(t));
        }
        lemma_own_parent(mm[t]);
    }
    assert(m1n.dom() =~= mm.dom());
    assert forall|t: u64| #[trigger] mm.contains_key(t) implies state_linked(mm, t) by {
        if t == n {
            assert(stack_wf(entries_of(mm, t), mm[t].stack_index));
            assert forall|c: u64| #[trigger] has_child(mm, t, c) implies mm.contains_key(c) && c < t && mm[c].is_subsurface() by {
                let i = choose|i: int| child_at(mm, t, c, i);
                assert(stack_entries(pending.stack)[i].1->token == c);
            }
        } else {
            assert(m.contains_key(t));
            assert(state_linked(m, t));
            assert(entries_of(mm, t) == entries_of(m, t));
            assert forall|c: u64| #[trigger] has_child(mm, t, c) implies mm.contains_key(c) && c < t && mm[c].is_subsurface() by {
                let i = choose|i: int| child_at(mm, t, c, i);
                assert(child_at(m, t, c, i));
                assert(has_child(m, t, c));
            }
        }
    }
    assert(linked(mm));
    lemma_same_shape(mm, m1n);
}

/// A state is not changed by giving it the parent it has.
pub proof fn lemma_own_parent(state: SurfaceState)
    ensures
        state == state.with_parent(state.spec_parent()),
{
    match state.role_state {
        Some(RoleState::Subsurface(x)) => {
            assert(SubsurfaceState { parent: state.spec_parent() } == x);
        },
        _ => {},
    }
}

/// Clearing the parents of what may be freed, adding the new state and
/// resurrecting what is shown with it, in this order, applies a pending state.
proof fn lemma_applied(m: States, m1: States, m2: States, current: u64, n: u64, new: SurfaceState, tokens: Seq<u64>)
    requires
        forest(m),
        m.contains_key(current),
        m1.dom() == m.dom(),
        forall|x: u64| #[trigger]
            m.contains_key(x) ==> m1[x] == if tokens.contains(x) {
                m[x].with_parent(None)
            } else {
                m[x]
            },
        tokens.to_set() == freeable(m, current),
        forall|t: u64| m.contains_key(t) ==> t < n,
        linked(m.insert(n, new)),
        linked(m1.insert(n, new)),
        same_shape(m.insert(n, new), m1.insert(n, new)),
        resurrected(m1.insert(n, new), m2, n),
    ensures
        applied(m, m2, current, n),
        m2[n] == new,
        linked(m2),
{
    let mm = m.insert(n, new);
    let m1n = m1.insert(n, new);
    assert(!m.contains_key(n));
    assert(m1n.contains_key(n) && m2.contains_key(n));
    lemma_own_parent(new);
    assert(m2[n] == new);
    lemma_same_shape(m1n, m2);
    lemma_same_shape(mm, m1n);
    assert(m2.dom() =~= m.dom().insert(n));
    assert forall|x: u64| #[trigger] m.contains_key(x) implies {
        &&& m2[x] == m[x].with_parent(m2[x].spec_parent())
        &&& if reaches(mm, n, x) && (freeable(m, current).contains(x) || m[x].spec_parent() is None) {
            adopted(mm, m2, n, x)
        } else if freeable(m, current).contains(x) {
            m2[x].spec_parent() is None
        } else {
            m2[x].spec_parent() == m[x].spec_parent()
        }
    } by {
        assert(tokens.to_set().contains(x) == tokens.contains(x));
        assert(x != n);
        assert(m1n.contains_key(x) && m1n[x] == m1[x]);
        assert(m2.contains_key(x));
        lemma_same_reach(mm, m1n, n, x);
        lemma_own_parent(m[x]);
        if reaches(mm, n, x) && (freeable(m, current).contains(x) || m[x].spec_parent() is None) {
            assert(m1n[x].spec_parent() is None);
            assert(adopted(m1n, m2, n, x));
            let a = choose|a: u64|
                reaches(m1n, n, a) && #[trigger] has_child(m1n, a, x) && m2[x].spec_parent() == Some(a);
            lemma_reach_live(m1n, n, a);
            lemma_same_reach(mm, m1n, n, a);
            assert(has_child(mm, a, x));
        }
    }
    assert(m.insert(n, m2[n]) == mm);
}

} // verus!
