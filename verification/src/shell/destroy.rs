//! Destroying surfaces.
use dlv_list::Index;
use vstd::prelude::*;
use crate::shell::attach::{has_subsurface_role, role_deactivated};
use crate::shell::roles::{Role, Subsurface};
use crate::shell::scene::{
    children_parented, committed, free_orphans, lemma_committed, lemma_own_parent, no_other_holder, pending_wf, Scene,
    Surface,
};
use crate::shell::stack::{clone_stack, front_index, get, get_next_index, index_at, stack_entries, SurfaceStackEntry};
use crate::shell::surface::{
    child_at, entries_of, forest, freeable, has_child, has_parent, linked, reaches, state_linked,
    PendingSurfaceState, States, SurfaceState,
};
use crate::shell::{Shell, ShellCall};

verus! {

/// The state `x` stands in the stack.
pub open spec fn listed(entries: Seq<(Index<SurfaceStackEntry>, SurfaceStackEntry)>, x: u64) -> bool {
    exists|i: int|
        #![trigger entries[i]]
        0 <= i < entries.len() && entries[i].1 is Subsurface && entries[i].1->token == x
}

/// The state `x` would be shown with a state that has the given stack.
pub open spec fn shown(m: States, entries: Seq<(Index<SurfaceStackEntry>, SurfaceStackEntry)>, x: u64) -> bool {
    exists|c: u64| #[trigger] listed(entries, c) && reaches(m, c, x)
}

/// What destroying a surface makes of the states `m`, where its current state
/// is `current`, which no parent holds, and its pending stack is `entries`: what
/// may be freed is freed, unless it is shown with the pending stack. What stands
/// in that stack is an orphan now.
pub open spec fn destroyed(
    m: States,
    m2: States,
    current: u64,
    entries: Seq<(Index<SurfaceStackEntry>, SurfaceStackEntry)>,
) -> bool {
    &&& forall|x: u64| #[trigger]
        m2.contains_key(x) <==> m.contains_key(x) && (freeable(m, current).contains(x) ==> shown(m, entries, x))
    &&& forall|x: u64| #[trigger]
        m.contains_key(x) && m2.contains_key(x) ==> {
            &&& m2[x] == m[x].with_parent(m2[x].spec_parent())
            &&& if shown(m, entries, x) && (freeable(m, current).contains(x) || m[x].spec_parent() is None) {
                ||| listed(entries, x) && m2[x].spec_parent() is None
                ||| exists|a: u64| shown(m, entries, a) && #[trigger] has_child(m, a, x) && m2[x].spec_parent() == Some(a)
            } else {
                m2[x].spec_parent() == m[x].spec_parent()
            }
        }
}

/// Nothing that may be freed with `current` stands in a stack other than those
/// that are freed with it or shown with `entries`, and nothing that stands in
/// `entries` stands in a stack that is kept.
pub open spec fn held_only_here(
    m: States,
    current: u64,
    entries: Seq<(Index<SurfaceStackEntry>, SurfaceStackEntry)>,
) -> bool {
    forall|t: u64, c: u64|
        m.contains_key(t) && #[trigger] has_child(m, t, c) ==> {
            &&& freeable(m, current).contains(c) ==> freeable(m, current).contains(t) || shown(m, entries, t) || shown(
                m,
                entries,
                c,
            )
            &&& listed(entries, c) ==> freeable(m, current).contains(t) && !shown(m, entries, t)
        }
}

impl<S: Shell> Scene<S> {
    /// Each state in the pending stack belongs to a surface with the subsurface
    /// role.
    pub open spec fn children_known(self, id: usize) -> bool {
        let entries = stack_entries(self.surfaces@[id as int].pending_state.stack);
        forall|i: int|
            #![trigger entries[i]]
            0 <= i < entries.len() && entries[i].1 is Subsurface ==> {
                let s = self.shell.states()[entries[i].1->token].surface;
                s < self.surfaces@.len() && has_subsurface_role(self.surfaces@, s as int)
            }
    }
}

/// What becomes of a surface when the surface `id`, whose role is inactive, is
/// destroyed.
pub open spec fn destroyed_surface<S: Shell>(before: Scene<S>, id: usize, j: int) -> Surface {
    let m = before.shell.states();
    let freed = m[before.key(id)].spec_parent() is None;
    let surface = before.surfaces@[j];
    let entries = stack_entries(before.surfaces@[id as int].pending_state.stack);
    Surface {
        current: if j == id {
            None
        } else {
            surface.current
        },
        pending_state: if j == id && freed {
            PendingSurfaceState { buffer: None, role_state: None, ..surface.pending_state }
        } else {
            surface.pending_state
        },
        role: if freed && lists_surface(m, entries, entries.len() as int, j) {
            orphan_role(surface)
        } else {
            surface.role
        },
        ..surface
    }
}

/// What becomes of the surfaces when the surface `id`, whose role is inactive,
/// is destroyed.
pub open spec fn destroyed_surfaces<S: Shell>(before: Scene<S>, after: Scene<S>, id: usize) -> bool {
    &&& after.surfaces@.len() == before.surfaces@.len()
    &&& forall|j: int|
        #![trigger after.surfaces@[j]]
        0 <= j < before.surfaces@.len() ==> after.surfaces@[j] == destroyed_surface(before, id, j)
    &&& after.shell.calls() == match before.surfaces@[id as int].pending_state.buffer {
        Some(buffer) if before.shell.states()[before.key(id)].spec_parent() is None => before.shell.calls().push(
            ShellCall::AcquireBuffer { buffer },
        ),
        _ => before.shell.calls(),
    }
}

/// What destroying the surface `id` makes of the surfaces.
pub open spec fn destroy_done<S: Shell>(before: Scene<S>, after: Scene<S>, id: usize) -> bool {
    let m = before.shell.states();
    let current = before.key(id);
    let entries = stack_entries(before.surfaces@[id as int].pending_state.stack);
    &&& after.layout_changes == before.layout_changes
    &&& after.surfaces@.len() == before.surfaces@.len()
    &&& after.surfaces@[id as int].current is None
    &&& if m[current].spec_parent() is Some {
        after.shell.states() == m
    } else {
        &&& destroyed(m, after.shell.states(), current, entries)
        &&& held_only_here(m, current, entries) ==> forest(after.shell.states())
    }
    &&& exists|mid: Scene<S>| #[trigger]
        role_deactivated(before, mid, id) && mid.shell.valid() && destroyed_surfaces(mid, after, id)
}

/// One of the first `k` entries of a stack is a state of the surface `s`.
pub open spec fn lists_surface(
    m: States,
    entries: Seq<(Index<SurfaceStackEntry>, SurfaceStackEntry)>,
    k: int,
    s: int,
) -> bool {
    exists|i: int|
        #![trigger entries[i]]
        0 <= i < k && i < entries.len() && entries[i].1 is Subsurface && m[entries[i].1->token].surface == s
}

/// The role of a surface that lost its parent.
pub open spec fn orphan_role(surface: Surface) -> Option<Role> {
    match surface.role {
        Some(role) => Some(role.deactivated()),
        None => None,
    }
}

impl Surface {
    /// Disconnects the states in the stack of `key`, the current state of a
    /// surface, without freeing them: they are still current in the
    /// subsurfaces. Their roles become inactive.
    fn orphan_children<S: Shell>(scene: &mut Scene<S>, key: u64)
        requires
            old(scene).shell.valid(),
            old(scene).shell.states().contains_key(key),
            state_linked(old(scene).shell.states(), key),
            forall|i: int|
                #![trigger entries_of(old(scene).shell.states(), key)[i]]
                0 <= i < entries_of(old(scene).shell.states(), key).len() && entries_of(
                    old(scene).shell.states(),
                    key,
                )[i].1 is Subsurface ==> {
                    let s = old(scene).shell.states()[entries_of(
                        old(scene).shell.states(),
                        key,
                    )[i].1->token].surface;
                    s < old(scene).surfaces@.len() && has_subsurface_role(old(scene).surfaces@, s as int)
                },
        ensures
            final(scene).shell.valid(),
            final(scene).shell.calls() == old(scene).shell.calls(),
            final(scene).shell.spec_has_room() == old(scene).shell.spec_has_room(),
            final(scene).layout_changes == old(scene).layout_changes,
            final(scene).shell.states().dom() == old(scene).shell.states().dom(),
            forall|x: u64| #[trigger]
                old(scene).shell.states().contains_key(x) ==> final(scene).shell.states()[x] == if listed(
                    entries_of(old(scene).shell.states(), key),
                    x,
                ) && old(scene).shell.states()[x].spec_parent() == Some(key) {
                    old(scene).shell.states()[x].with_parent(None)
                } else {
                    old(scene).shell.states()[x]
                },
            final(scene).surfaces@.len() == old(scene).surfaces@.len(),
            forall|j: int|
                #![trigger final(scene).surfaces@[j]]
                0 <= j < old(scene).surfaces@.len() ==> final(scene).surfaces@[j] == if lists_surface(
                    old(scene).shell.states(),
                    entries_of(old(scene).shell.states(), key),
                    entries_of(old(scene).shell.states(), key).len() as int,
                    j,
                ) {
                    Surface { role: orphan_role(old(scene).surfaces@[j]), ..old(scene).surfaces@[j] }
                } else {
                    old(scene).surfaces@[j]
                },
    {
        let ghost m = scene.shell.states();
        let ghost before = scene.surfaces@;
        let ghost es = entries_of(m, key);
        let stack = clone_stack(&scene.shell.get(key).stack);
        let mut index = front_index(&stack);
        let ghost mut k: int = 0;
        while index.is_some()
            invariant
                scene.shell.valid(),
                scene.shell.calls() == old(scene).shell.calls(),
                scene.shell.spec_has_room() == old(scene).shell.spec_has_room(),
                scene.layout_changes == old(scene).layout_changes,
                m == old(scene).shell.states(),
                before == old(scene).surfaces@,
                state_linked(m, key),
                m.contains_key(key),
                es == entries_of(m, key),
                stack_entries(stack) == es,
                0 <= k <= es.len(),
                index == if k < es.len() { Some(es[k].0) } else { None },
                forall|i: int|
                    #![trigger es[i]]
                    0 <= i < es.len() && es[i].1 is Subsurface ==> {
                        let s = m[es[i].1->token].surface;
                        s < before.len() && has_subsurface_role(before, s as int)
                    },
                scene.shell.states().dom() == m.dom(),
                forall|x: u64| #[trigger]
                    m.contains_key(x) ==> scene.shell.states()[x] == if listed(es.take(k), x) && m[x].spec_parent() == Some(
                        key,
                    ) {
                        m[x].with_parent(None)
                    } else {
                        m[x]
                    },
                scene.surfaces@.len() == before.len(),
                forall|j: int|
                    #![trigger scene.surfaces@[j]]
                    0 <= j < before.len() ==> scene.surfaces@[j] == if lists_surface(m, es, k, j) {
                        Surface { role: orphan_role(before[j]), ..before[j] }
                    } else {
                        before[j]
                    },
            decreases es.len() - k,
        {
            let at = index.unwrap();
            let ghost m1 = scene.shell.states();
            let ghost s1 = scene.surfaces@;
            proof {
                assert(index_at(es, at, k));
                assert(es.take(k + 1) =~= es.take(k).push(es[k]));
                assert forall|x: u64| #[trigger] listed(es.take(k + 1), x) == (listed(es.take(k), x) || (es[k].1 is Subsurface
                    && es[k].1->token == x)) by {
                    if listed(es.take(k), x) {
                        let i = choose|i: int|
                            #![trigger es.take(k)[i]]
                            0 <= i < k && es.take(k)[i].1 is Subsurface && es.take(k)[i].1->token == x;
                        assert(es.take(k + 1)[i] == es.take(k)[i]);
                    }
                    if listed(es.take(k + 1), x) {
                        let i = choose|i: int|
                            #![trigger es.take(k + 1)[i]]
                            0 <= i < k + 1 && es.take(k + 1)[i].1 is Subsurface && es.take(k + 1)[i].1->token == x;
                        if i < k {
                            assert(es.take(k)[i] == es.take(k + 1)[i]);
                        }
                    }
                    if es[k].1 is Subsurface && es[k].1->token == x {
                        assert(es.take(k + 1)[k] == es[k]);
                    }
                }
                assert forall|j: int| #[trigger] lists_surface(m, es, k + 1, j) == (lists_surface(m, es, k, j) || (
                es[k].1 is Subsurface && m[es[k].1->token].surface == j)) by {
                    if lists_surface(m, es, k + 1, j) {
                        let i = choose|i: int|
                            #![trigger es[i]]
                            0 <= i < k + 1 && es[i].1 is Subsurface && m[es[i].1->token].surface == j;
                        if i < k {
                            assert(es[i].1 is Subsurface);
                        }
                    }
                }
            }
            let entry = get(&stack, at).unwrap();
            index = get_next_index(&stack, at);
            if let SurfaceStackEntry::Subsurface { token: child, .. } = entry {
                proof {
                    assert(child_at(m, key, child, k));
                    assert(has_child(m, key, child));
                    assert(m1.contains_key(child));
                }
                let orphaned = match scene.shell.get(child).parent() {
                    Some(parent) => parent == key,
                    None => false,
                };
                if orphaned {
                    scene.shell.get_mut(child).set_parent(None);
                }
                proof {
                    assert(scene.shell.states().dom() =~= m.dom());
                    lemma_own_parent(m[child]);
                }
                let s: usize = scene.shell.get(child).surface;
                if let Some(role) = &mut scene.surfaces[s].role {
                    role.deactivate();
                }
                proof {
                    assert(has_subsurface_role(before, s as int));
                    assert forall|j: int| #![trigger scene.surfaces@[j]] 0 <= j < before.len() implies scene.surfaces@[j]
                        == if lists_surface(m, es, k + 1, j) {
                        Surface { role: orphan_role(before[j]), ..before[j] }
                    } else {
                        before[j]
                    } by {
                        if j != s {
                            assert(scene.surfaces@[j] == s1[j]);
                        }
                    }
                }
            }
            proof {
                k = k + 1;
            }
        }
        proof {
            assert(es.take(k) =~= es);
        }
    }

    /// Destroy a surface and its associated resources.
    ///
    /// This function will deactivate the role associated with the surface, if
    /// any. And also destruct any associated surface states that become orphaned
    /// by destroying the surface.
    ///
    /// The current state is freed if no parent holds it. Then the pending state
    /// is committed first, so that outdated states referenced only by the
    /// current state are freed as well, and what stands in the pending stack
    /// loses its parent.
    pub fn destroy<S: Shell>(scene: &mut Scene<S>, id: usize, scratch_buffer: &mut Vec<u64>)
        requires
            old(scene).shell.valid(),
            old(scene).shell.spec_has_room(),
            forest(old(scene).shell.states()),
            old(scene).committable(id),
            old(scene).attached(id),
            old(scene).children_known(id),
        ensures
            final(scene).shell.valid(),
            destroy_done(*old(scene), *final(scene), id),
            final(scratch_buffer)@ == if old(scene).shell.states()[old(scene).key(id)].spec_parent() is None {
                Seq::<u64>::empty()
            } else {
                old(scratch_buffer)@
            },
    {
        let ghost m = scene.shell.states();
        let ghost entries = stack_entries(scene.surfaces@[id as int].pending_state.stack);
        Surface::deactivate_role(scene, id);
        let ghost mid = *scene;
        let current: u64 = scene.surfaces[id].current.unwrap();
        if scene.shell.get(current).parent().is_none() {
            proof {
                assert(stack_entries(mid.surfaces@[id as int].pending_state.stack) == entries);
            }
            let n = Surface::apply_pending(scene, id, scratch_buffer);
            let ghost m1 = scene.shell.states();
            let ghost surfaces1 = scene.surfaces@;
            proof {
                assert forall|i: int| 0 <= i < scratch_buffer@.len() implies m1.contains_key(#[trigger] scratch_buffer@[i]) by {
                    assert(scratch_buffer@.to_set().contains(scratch_buffer@[i]));
                }
            }
            free_orphans(&mut scene.shell, scratch_buffer);
            let ghost m2 = scene.shell.states();
            proof {
                assert(children_parented(m, m1, n)) by {
                    assert forall|c: u64| #[trigger] has_child(m1, n, c) && m[c].spec_parent() is Some implies has_parent(m, c) by {
                        let i = choose|i: int| child_at(m1, n, c, i);
                        assert(entries[i].1->token == c);
                    }
                }
                lemma_committed(m, m1, m1, m2, current, n, scratch_buffer@);
            }
            scratch_buffer.clear();
            proof {
                assert(entries_of(m2, n) == entries);
                lemma_before_orphaning(m, m2, current, n, mid.surfaces@[id as int].pending_state);
                assert forall|i: int| #![trigger entries[i]] 0 <= i < entries.len() && entries[i].1 is Subsurface implies {
                    let s = m2[entries[i].1->token].surface;
                    s < surfaces1.len() && has_subsurface_role(surfaces1, s as int)
                } by {
                    let c = entries[i].1->token;
                    let s = m[c].surface;
                    assert(m.contains_key(c));
                    assert(child_at(m2, n, c, i));
                    assert(has_child(m2, n, c));
                    assert(m2.contains_key(c));
                    assert(has_subsurface_role(old(scene).surfaces@, s as int));
                    if s != id {
                        assert(surfaces1[s as int] == mid.surfaces@[s as int]);
                    }
                    assert(has_subsurface_role(mid.surfaces@, s as int));
                }
            }
            proof {
                assert forall|j: int| #[trigger] lists_surface(m2, entries, entries.len() as int, j) == lists_surface(
                    m,
                    entries,
                    entries.len() as int,
                    j,
                ) by {
                    assert forall|i: int| #![trigger entries[i]] 0 <= i < entries.len() && entries[i].1 is Subsurface implies m2[entries[i].1->token].surface
                        == m[entries[i].1->token].surface by {
                        let c = entries[i].1->token;
                        assert(m.contains_key(c));
                        assert(child_at(m2, n, c, i));
                        assert(has_child(m2, n, c));
                        assert(m2.contains_key(c));
                    }
                }
            }
            Surface::orphan_children(scene, n);
            let ghost m3 = scene.shell.states();
            scene.shell.destroy(n);
            proof {
                lemma_destroyed(m, m2, m3, scene.shell.states(), current, n, entries);
            }
        }
        let ghost surfaces3 = scene.surfaces@;
        scene.surfaces[id].current = None;
        proof {
            assert forall|j: int| #![trigger scene.surfaces@[j]] 0 <= j < mid.surfaces@.len() implies scene.surfaces@[j]
                == destroyed_surface(mid, id, j) by {
                if j != id {
                    assert(scene.surfaces@[j] == surfaces3[j]);
                }
            }
        }
    }
}

/// For states that were there before, to be shown with the new state `n` is to
/// be shown with its stack.
proof fn lemma_shown(m: States, new: SurfaceState, n: u64, x: u64)
    requires
        linked(m),
        forall|t: u64| m.contains_key(t) ==> t < n,
        forall|c: u64| #[trigger] listed(stack_entries(new.stack), c) ==> m.contains_key(c),
        x != n,
    ensures
        reaches(m.insert(n, new), n, x) == shown(m, stack_entries(new.stack), x),
{
    let mm = m.insert(n, new);
    let entries = stack_entries(new.stack);
    if reaches(mm, n, x) {
        let c = choose|c: u64| c < n && #[trigger] has_child(mm, n, c) && reaches(mm, c, x);
        let i = choose|i: int| child_at(mm, n, c, i);
        assert(entries[i].1->token == c);
        assert(listed(entries, c));
        lemma_reach_insert(m, new, n, c, x);
    }
    if shown(m, entries, x) {
        let c = choose|c: u64| #[trigger] listed(entries, c) && reaches(m, c, x);
        let i = choose|i: int|
            #![trigger entries[i]]
            0 <= i < entries.len() && entries[i].1 is Subsurface && entries[i].1->token == c;
        assert(child_at(mm, n, c, i));
        assert(has_child(mm, n, c));
        lemma_reach_insert(m, new, n, c, x);
    }
}

/// A new state has no part in what is shown with an older one.
proof fn lemma_reach_insert(m: States, new: SurfaceState, n: u64, a: u64, x: u64)
    requires
        linked(m),
        forall|t: u64| m.contains_key(t) ==> t < n,
        m.contains_key(a),
    ensures
        reaches(m.insert(n, new), a, x) == reaches(m, a, x),
    decreases a,
{
    let mm = m.insert(n, new);
    assert forall|c: u64| #[trigger] has_child(mm, a, c) == has_child(m, a, c) by {
        if has_child(mm, a, c) {
            let i = choose|i: int| child_at(mm, a, c, i);
            assert(child_at(m, a, c, i));
        }
        if has_child(m, a, c) {
            let i = choose|i: int| child_at(m, a, c, i);
            assert(child_at(mm, a, c, i));
        }
    }
    assert(state_linked(m, a));
    if a != x {
        if reaches(mm, a, x) {
            let c = choose|c: u64| c < a && #[trigger] has_child(mm, a, c) && reaches(mm, c, x);
            lemma_reach_insert(m, new, n, c, x);
        }
        if reaches(m, a, x) {
            let c = choose|c: u64| c < a && #[trigger] has_child(m, a, c) && reaches(m, c, x);
            assert(has_child(mm, a, c));
            lemma_reach_insert(m, new, n, c, x);
        }
    }
}

/// After the pending state was committed, its stack is in order.
proof fn lemma_before_orphaning(m: States, m2: States, current: u64, n: u64, pending: PendingSurfaceState)
    requires
        forest(m),
        pending_wf(m, current, pending),
        forall|t: u64| m.contains_key(t) ==> t < n,
        committed(m, m2, current, n),
        entries_of(m2, n) == stack_entries(pending.stack),
        m2[n].stack_index == m[current].stack_index,
    ensures
        m2.contains_key(n),
        state_linked(m2, n),
{
    let mm = m.insert(n, m2[n]);
    let entries = stack_entries(pending.stack);
    assert(m2.contains_key(n));
    assert forall|c: u64| #[trigger] has_child(m2, n, c) implies m2.contains_key(c) && c < n && m2[c].is_subsurface() by {
        let i = choose|i: int| child_at(m2, n, c, i);
        assert(entries[i].1->token == c);
        assert(m.contains_key(c));
        assert(child_at(mm, n, c, i));
        assert(has_child(mm, n, c));
        assert(reaches(mm, c, c));
        assert(reaches(mm, n, c));
        assert(m2.contains_key(c));
    }
}

/// Disconnecting the children of the new state and freeing it completes the
/// destruction of a surface.
proof fn lemma_destroyed(
    m: States,
    m2: States,
    m3: States,
    m4: States,
    current: u64,
    n: u64,
    entries: Seq<(Index<SurfaceStackEntry>, SurfaceStackEntry)>,
)
    requires
        forest(m),
        forall|t: u64| m.contains_key(t) ==> t < n,
        forall|i: int|
            #![trigger entries[i]]
            0 <= i < entries.len() && entries[i].1 is Subsurface ==> m.contains_key(entries[i].1->token) && (
            m[entries[i].1->token].spec_parent() is Some ==> has_parent(m, entries[i].1->token)),
        committed(m, m2, current, n),
        m2.contains_key(n),
        entries_of(m2, n) == entries,
        no_other_holder(m, current, n, m2[n]) ==> forest(m2),
        m3.dom() == m2.dom(),
        forall|x: u64| #[trigger]
            m2.contains_key(x) ==> m3[x] == if listed(entries, x) && m2[x].spec_parent() == Some(n) {
                m2[x].with_parent(None)
            } else {
                m2[x]
            },
        m4 == m3.remove(n),
    ensures
        destroyed(m, m4, current, entries),
        held_only_here(m, current, entries) ==> forest(m4),
{
    let mm = m.insert(n, m2[n]);
    assert(!m.contains_key(n));
    assert forall|c: u64| #[trigger] listed(entries, c) implies m.contains_key(c) && (m[c].spec_parent() is Some ==> has_parent(
        m,
        c,
    )) by {
        let i = choose|i: int|
            #![trigger entries[i]]
            0 <= i < entries.len() && entries[i].1 is Subsurface && entries[i].1->token == c;
    }
    assert forall|x: u64| x != n implies #[trigger] reaches(mm, n, x) == shown(m, entries, x) by {
        lemma_shown(m, m2[n], n, x);
    }
    assert forall|x: u64| #[trigger] m4.contains_key(x) <==> m.contains_key(x) && (freeable(m, current).contains(x) ==> shown(
        m,
        entries,
        x,
    )) by {
        if x != n {
            assert(reaches(mm, n, x) == shown(m, entries, x));
            assert(m4.contains_key(x) == m2.contains_key(x));
        }
    }
    assert forall|x: u64| #[trigger] m.contains_key(x) && m4.contains_key(x) implies {
        &&& m4[x] == m[x].with_parent(m4[x].spec_parent())
        &&& if shown(m, entries, x) && (freeable(m, current).contains(x) || m[x].spec_parent() is None) {
            ||| listed(entries, x) && m4[x].spec_parent() is None
            ||| exists|a: u64| shown(m, entries, a) && #[trigger] has_child(m, a, x) && m4[x].spec_parent() == Some(a)
        } else {
            m4[x].spec_parent() == m[x].spec_parent()
        }
    } by {
        assert(x != n);
        assert(m2.contains_key(x));
        assert(m4[x] == m3[x]);
        assert(reaches(mm, n, x) == shown(m, entries, x));
        if shown(m, entries, x) && (freeable(m, current).contains(x) || m[x].spec_parent() is None) {
            let a = choose|a: u64| reaches(mm, n, a) && #[trigger] has_child(mm, a, x) && m2[x].spec_parent() == Some(a);
            let i = choose|i: int| child_at(mm, a, x, i);
            if a == n {
                assert(entries[i].1->token == x);
                assert(listed(entries, x));
            } else {
                assert(shown(m, entries, a));
                assert(child_at(m, a, x, i));
                assert(has_child(m, a, x));
                assert(m4[x].spec_parent() == Some(a));
            }
        } else {
            if listed(entries, x) && m2[x].spec_parent() == Some(n) {
                assert(has_parent(m, x));
            }
        }
    }
    if held_only_here(m, current, entries) {
        assert(no_other_holder(m, current, n, m2[n])) by {
            assert forall|t: u64, c: u64|
                m.contains_key(t) && #[trigger] has_child(m, t, c) && freeable(m, current).contains(c) implies freeable(
                m,
                current,
            ).contains(t) || reaches(mm, n, t) || reaches(mm, n, c) by {
                assert(t != n);
                assert(state_linked(m, t));
                assert(reaches(mm, n, t) == shown(m, entries, t));
                assert(reaches(mm, n, c) == shown(m, entries, c));
            }
        }
        assert forall|t: u64, c: u64| m4.contains_key(t) && #[trigger] has_child(m4, t, c) implies has_child(m, t, c)
            && has_child(m2, t, c) && m4.contains_key(c) && c < t && m4[c].is_subsurface() && has_parent(m4, c) by {
            assert(m.contains_key(t) && m2.contains_key(t));
            let i = choose|i: int| child_at(m4, t, c, i);
            assert(child_at(m2, t, c, i));
            assert(child_at(m, t, c, i));
            assert(has_child(m2, t, c));
            assert(has_child(m, t, c));
            assert(state_linked(m2, t));
            assert(c != n);
            assert(m4.contains_key(c));
            assert(m4[c].is_subsurface());
            assert(has_parent(m2, c));
            let q = m2[c].spec_parent()->0;
            let k = choose|k: int| child_at(m2, q, c, k);
            if q == n {
                assert(entries[k].1->token == c);
                assert(listed(entries, c));
                assert(has_child(m, t, c));
            }
            assert(m4.contains_key(q));
            assert(child_at(m4, q, c, k));
            assert(m4[c].spec_parent() == Some(q));
        }
        assert(m4.dom() =~= m2.dom().remove(n));
        assert forall|t: u64| #[trigger] m4.contains_key(t) implies state_linked(m4, t) by {
            assert(m2.contains_key(t));
            assert(state_linked(m2, t));
            assert(entries_of(m4, t) == entries_of(m2, t));
        }
        assert(forest(m4));
    }
}

} // verus!
