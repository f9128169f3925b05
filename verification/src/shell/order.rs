//! What holds of surfaces and their states between two requests.
use dlv_list::Index;
use vstd::prelude::*;
use crate::shell::attach::{attach_done, new_surface, role_deactivated};
use crate::shell::destroy::{
    destroy_done, destroyed, destroyed_surface, destroyed_surfaces, held_only_here, listed, lists_surface, shown,
};
use crate::shell::roles::{RoleState, SubsurfaceState};
use crate::shell::scene::{commit_done, committed, has_subsurface_at, no_other_holder, pending_wf, Scene};
use crate::shell::stack::{distinct_indices, index_at, stack_entries, SurfaceStackEntry};
use crate::shell::surface::{
    child_at, entries_of, forest, freeable, has_child, has_parent, lemma_reach_live, lemma_released_step, linked, reaches, releases, stack_wf,
    state_linked, PendingSurfaceState, States, SurfaceState,
};
use crate::shell::Shell;

verus! {

/// The surface is an active subsurface of `p`.
pub open spec fn is_child<S: Shell>(scene: Scene<S>, s: usize, p: usize) -> bool {
    s < scene.surfaces@.len() && scene.is_subsurface(s) && scene.subsurface(s).parent == Some(p)
}

/// The entry with number `i` in the pending stack of `p` is a subsurface of `p`, with
/// its current state, and the subsurface knows its place.
pub open spec fn entry_current<S: Shell>(scene: Scene<S>, p: usize, i: int) -> bool {
    let entry = stack_entries(scene.surfaces@[p as int].pending_state.stack)[i];
    let s = scene.shell.states()[entry.1->token].surface;
    &&& is_child(scene, s, p)
    &&& scene.surfaces@[s as int].current == Some(entry.1->token)
    &&& scene.subsurface(s).stack_index == entry.0
}

/// The pending stack of `p` has distinct indices, and holds the current states of
/// subsurfaces of `p`.
pub open spec fn stack_current<S: Shell>(scene: Scene<S>, p: usize) -> bool {
    let entries = stack_entries(scene.surfaces@[p as int].pending_state.stack);
    &&& distinct_indices(entries)
    &&& forall|i: int|
        #![trigger entries[i]]
        0 <= i < entries.len() && entries[i].1 is Subsurface ==> entry_current(scene, p, i)
}

/// The pending stack of the surface still matters: the surface was not destroyed, or
/// has subsurfaces.
pub open spec fn matters<S: Shell>(scene: Scene<S>, p: usize) -> bool {
    p < scene.surfaces@.len() && (scene.surfaces@[p as int].current is Some || exists|s: usize| is_child(scene, s, p))
}

/// What holds of a surface that was not destroyed: its current state is held by the
/// shell and knows its surface, its pending state can be committed, and if it is a
/// subsurface, it is listed by its parent.
pub open spec fn surface_in_order<S: Shell>(scene: Scene<S>, id: usize) -> bool {
    &&& scene.committable(id)
    &&& scene.attached(id)
    &&& scene.shell.states()[scene.key(id)].surface == id
    &&& scene.is_subsurface(id) ==> scene.shell.states()[scene.key(id)].is_subsurface() && exists|i: int|
        stands_at(scene, id, i)
}

/// The current state of the subsurface is the entry with number `i` in the pending
/// stack of its parent.
pub open spec fn stands_at<S: Shell>(scene: Scene<S>, s: usize, i: int) -> bool {
    let role = scene.subsurface(s);
    let entries = stack_entries(scene.surfaces@[role.parent->0 as int].pending_state.stack);
    &&& index_at(entries, role.stack_index, i)
    &&& entries[i].1 is Subsurface
    &&& entries[i].1->token == scene.key(s)
}

/// What holds of surfaces and their states between two requests.
pub open spec fn in_order<S: Shell>(scene: Scene<S>) -> bool {
    &&& scene.shell.valid()
    &&& forest(scene.shell.states())
    &&& forall|id: usize|
        #![trigger surface_in_order(scene, id)]
        id < scene.surfaces@.len() && scene.surfaces@[id as int].current is Some ==> surface_in_order(scene, id)
    &&& forall|p: usize| #![trigger stack_current(scene, p)] matters(scene, p) ==> stack_current(scene, p)
    &&& forall|s: usize|
        #![trigger scene.is_subsurface(s)]
        s < scene.surfaces@.len() && scene.is_subsurface(s) ==> scene.surfaces@[s as int].current is Some
}

/// Where surfaces are in order, one that was not destroyed can be committed,
/// deactivated and destroyed.
pub proof fn order_is_enough<S: Shell>(scene: Scene<S>, id: usize)
    requires
        in_order(scene),
        id < scene.surfaces@.len(),
        scene.surfaces@[id as int].current is Some,
    ensures
        scene.shell.valid(),
        forest(scene.shell.states()),
        scene.live(id),
        scene.committable(id),
        scene.attached(id),
        scene.children_known(id),
{
    assert(surface_in_order(scene, id));
    assert(matters(scene, id));
    assert(stack_current(scene, id));
    let entries = stack_entries(scene.surfaces@[id as int].pending_state.stack);
    assert forall|i: int| #![trigger entries[i]] 0 <= i < entries.len() && entries[i].1 is Subsurface implies ({
        let s = scene.shell.states()[entries[i].1->token].surface;
        s < scene.surfaces@.len() && crate::shell::attach::has_subsurface_role(scene.surfaces@, s as int)
    }) by {
        assert(entry_current(scene, id, i));
    }
}

/// There is nothing to keep in order at first.
pub proof fn empty_is_in_order<S: Shell>(scene: Scene<S>)
    requires
        scene.shell.valid(),
        scene.shell.states() == Map::<u64, SurfaceState>::empty(),
        scene.surfaces@.len() == 0,
    ensures
        in_order(scene),
{
}

/// A new surface keeps surfaces in order.
pub proof fn new_keeps_order<S: Shell>(before: Scene<S>, after: Scene<S>, object_id: u32)
    requires
        in_order(before),
        before.surfaces@.len() < usize::MAX,
        after.shell.valid(),
        new_surface(before, after, object_id),
    ensures
        in_order(after),
{
    let m = before.shell.states();
    let m2 = after.shell.states();
    let new = before.surfaces@.len() as usize;
    assert forall|s: usize, p: usize| #[trigger] is_child(after, s, p) implies is_child(before, s, p) by {
        assert(s != new);
        assert(after.surfaces@[s as int] == before.surfaces@[s as int]);
    }
    assert forall|id: usize| #![trigger surface_in_order(after, id)] id < after.surfaces@.len()
        && after.surfaces@[id as int].current is Some implies surface_in_order(after, id) by {
        if id != new {
            assert(after.surfaces@[id as int] == before.surfaces@[id as int]);
            assert(surface_in_order(before, id));
            let k = before.key(id);
            assert(m.contains_key(k));
            lemma_pending_kept(m, m2, k, k, before.surfaces@[id as int].pending_state);
            if before.is_subsurface(id) {
                let p = before.subsurface(id).parent->0;
                let i = lemma_place(before, id);
                assert(after.surfaces@[p as int] == before.surfaces@[p as int]);
                assert(stands_at(after, id, i));
            }
        }
    }
    assert forall|p: usize| #![trigger stack_current(after, p)] matters(after, p) implies stack_current(after, p) by {
        if p == new {
            let entries = stack_entries(after.surfaces@[p as int].pending_state.stack);
            assert(entries.len() == 1);
        } else {
            assert(after.surfaces@[p as int] == before.surfaces@[p as int]);
            if after.surfaces@[p as int].current is None {
                let s = choose|s: usize| is_child(after, s, p);
                assert(is_child(before, s, p));
            }
            assert(matters(before, p));
            assert(stack_current(before, p));
            let entries = stack_entries(before.surfaces@[p as int].pending_state.stack);
            assert forall|i: int| #![trigger entries[i]] 0 <= i < entries.len() && entries[i].1 is Subsurface implies entry_current(
                after,
                p,
                i,
            ) by {
                assert(entry_current(before, p, i));
                let t = entries[i].1->token;
                let s = m[t].surface;
                assert(surface_in_order(before, s));
                assert(m.contains_key(t));
                assert(after.surfaces@[s as int] == before.surfaces@[s as int]);
            }
        }
    }
    assert forall|s: usize| #![trigger after.is_subsurface(s)] s < after.surfaces@.len() && after.is_subsurface(s) implies after.surfaces@[s as int].current is Some by {
        assert(s != new);
        assert(after.surfaces@[s as int] == before.surfaces@[s as int]);
        assert(before.is_subsurface(s));
    }
}

/// A pending state can be committed as long as the states in its stack are kept, with
/// their parents.
proof fn lemma_pending_kept(m: States, m2: States, k: u64, k2: u64, pending: PendingSurfaceState)
    requires
        pending_wf(m, k, pending),
        m2[k2].stack_index == m[k].stack_index,
        forall|i: int|
            #![trigger stack_entries(pending.stack)[i]]
            0 <= i < stack_entries(pending.stack).len() && stack_entries(pending.stack)[i].1 is Subsurface ==> {
                let c = stack_entries(pending.stack)[i].1->token;
                &&& m2.contains_key(c)
                &&& m2[c].is_subsurface() == m[c].is_subsurface()
                &&& m2[c].spec_parent() is Some ==> has_parent(m2, c)
            } || same_child(m, m2, stack_entries(pending.stack)[i].1->token),
    ensures
        pending_wf(m2, k2, pending),
{
    let entries = stack_entries(pending.stack);
    assert forall|i: int| #![trigger entries[i]] 0 <= i < entries.len() && entries[i].1 is Subsurface implies m2.contains_key(
        entries[i].1->token,
    ) && m2[entries[i].1->token].is_subsurface() && (m2[entries[i].1->token].spec_parent() is Some ==> has_parent(
        m2,
        entries[i].1->token,
    )) by {
        let c = entries[i].1->token;
        assert(m.contains_key(c));
        if same_child(m, m2, c) && m2[c].spec_parent() is Some {
            let p = m[c].spec_parent()->0;
            let j = choose|j: int| child_at(m, p, c, j);
            assert(child_at(m2, p, c, j));
        }
    }
}

/// The state and its parent are the same in both.
pub open spec fn same_child(m: States, m2: States, c: u64) -> bool {
    &&& m2.contains_key(c)
    &&& m2[c] == m[c]
    &&& has_parent(m, c) ==> m2.contains_key(m[c].spec_parent()->0) && m2[m[c].spec_parent()->0] == m[m[c].spec_parent()->0]
}

/// No surface that is not destroyed has lost its current state.
pub open spec fn currents_kept<S: Shell>(scene: Scene<S>) -> bool {
    forall|j: usize|
        #![trigger scene.key(j)]
        j < scene.surfaces@.len() && scene.surfaces@[j as int].current is Some ==> scene.shell.states().contains_key(
            scene.key(j),
        )
}

/// What preparing a commit makes of a role leaves a subsurface as it is.
proof fn lemma_prepared<S: Shell>(scene: Scene<S>, after: Scene<S>, id: usize)
    requires
        id < scene.surfaces@.len(),
        id < after.surfaces@.len(),
        after.surfaces@[id as int].role == scene.prepared_role(id),
    ensures
        after.is_subsurface(id) == scene.is_subsurface(id),
        scene.is_subsurface(id) ==> after.subsurface(id) == scene.subsurface(id),
{
}

/// A commit keeps a state that has a parent linked to it: the parent is not freed
/// without it.
pub proof fn lemma_parent_stays(m: States, m2: States, current: u64, n: u64, c: u64)
    requires
        forest(m),
        m.contains_key(current),
        forall|t: u64| m.contains_key(t) ==> t < n,
        committed(m, m2, current, n),
        m2.contains_key(n),
        linked(m.insert(n, m2[n])),
        m.contains_key(c),
        m2.contains_key(c),
        m[c].spec_parent() is Some ==> has_parent(m, c),
    ensures
        m2[c].is_subsurface() == m[c].is_subsurface(),
        m2[c].surface == m[c].surface,
        m2[c].stack_index == m[c].stack_index,
        m2[c].spec_parent() is Some ==> has_parent(m2, c),
{
    let mm = m.insert(n, m2[n]);
    assert(c != n);
    if m2[c].spec_parent() is Some {
        if reaches(mm, n, c) && (freeable(m, current).contains(c) || m[c].spec_parent() is None) {
            let a = choose|a: u64| reaches(mm, n, a) && #[trigger] has_child(mm, a, c) && m2[c].spec_parent() == Some(a);
            let i = choose|i: int| child_at(mm, a, c, i);
            lemma_reach_live(mm, n, a);
            lemma_reached_kept(m, m2, current, n, a);
            assert(child_at(m2, a, c, i));
        } else {
            let p = m[c].spec_parent()->0;
            assert(has_parent(m, c));
            let i = choose|i: int| child_at(m, p, c, i);
            assert(state_linked(m, p));
            if freeable(m, current).contains(p) {
                assert(releases(m, p, c));
                lemma_released_step(m, current, p, c);
                assert(freeable(m, current).contains(c));
                assert(reaches(mm, n, c));
            }
            assert(m2.contains_key(p));
            assert(child_at(m2, p, c, i));
        }
    }
}

/// What is shown with the new state is kept.
proof fn lemma_reached_kept(m: States, m2: States, current: u64, n: u64, a: u64)
    requires
        committed(m, m2, current, n),
        m2.contains_key(n),
        reaches(m.insert(n, m2[n]), n, a),
        a == n || m.contains_key(a),
    ensures
        m2.contains_key(a),
        entries_of(m2, a) == entries_of(m.insert(n, m2[n]), a),
{
}

/// The state that a commit makes stands well among the others.
pub proof fn lemma_new_linked(m: States, current: u64, n: u64, new: SurfaceState, pending: PendingSurfaceState)
    requires
        forest(m),
        m.contains_key(current),
        forall|t: u64| m.contains_key(t) ==> t < n,
        pending_wf(m, current, pending),
        m[current].changed(pending, new),
    ensures
        linked(m.insert(n, new)),
{
    let mm = m.insert(n, new);
    assert(!m.contains_key(n));
    assert forall|t: u64| #[trigger] mm.contains_key(t) implies state_linked(mm, t) by {
        if t == n {
            assert forall|c: u64| #[trigger] has_child(mm, t, c) implies mm.contains_key(c) && c < t && mm[c].is_subsurface() by {
                let i = choose|i: int| child_at(mm, t, c, i);
                assert(stack_entries(pending.stack)[i].1->token == c);
            }
        } else {
            assert(m.contains_key(t));
            assert(state_linked(m, t));
            assert forall|c: u64| #[trigger] has_child(mm, t, c) implies mm.contains_key(c) && c < t && mm[c].is_subsurface() by {
                let i = choose|i: int| child_at(mm, t, c, i);
                assert(child_at(m, t, c, i));
                assert(has_child(m, t, c));
            }
        }
    }
}

/// Where a subsurface stands.
pub proof fn lemma_place<S: Shell>(scene: Scene<S>, s: usize) -> (i: int)
    requires
        in_order(scene),
        s < scene.surfaces@.len(),
        scene.is_subsurface(s),
    ensures
        stands_at(scene, s, i),
        ({
            let p = scene.subsurface(s).parent->0;
            &&& p < scene.surfaces@.len()
            &&& p != s
            &&& is_child(scene, s, p)
            &&& stack_current(scene, p)
        }),
        scene.surfaces@[s as int].current is Some,
        surface_in_order(scene, s),
{
    assert(scene.surfaces@[s as int].current is Some);
    assert(surface_in_order(scene, s));
    let p = scene.subsurface(s).parent->0;
    assert(is_child(scene, s, p));
    assert(matters(scene, p));
    assert(stack_current(scene, p));
    choose|i: int| stands_at(scene, s, i)
}

/// What has to be shown of a commit that was not refused, for one surface.
proof fn lemma_commit_surface<S: Shell>(before: Scene<S>, after: Scene<S>, id: usize, j: usize)
    requires
        in_order(before),
        id < before.surfaces@.len(),
        before.surfaces@[id as int].current is Some,
        after.shell.valid(),
        !before.refuses(id),
        commit_done(before, after, id),
        currents_kept(after),
        j < after.surfaces@.len(),
        after.surfaces@[j as int].current is Some,
    ensures
        surface_in_order(after, j),
{
    let m = before.shell.states();
    let m2 = after.shell.states();
    let current = before.key(id);
    let n = after.key(id);
    let mm = m.insert(n, m2[n]);
    order_is_enough(before, id);
    lemma_new_linked(m, current, n, m2[n], before.surfaces@[id as int].pending_state);
    lemma_prepared(before, after, id);
    assert(m2.contains_key(after.key(j)));
    lemma_commit_roles(before, after, id);
    if j == id {
        lemma_commit_pending(before, after, id, id, current, n);
        assert(m2[n].surface == id) by {
            assert(surface_in_order(before, id));
        }
        if before.is_subsurface(id) {
            let i = lemma_place(before, id);
            lemma_restacked(before, after, id, i);
        }
    } else {
        assert(surface_in_order(before, j));
        assert(before.surfaces@[j as int].current is Some);
        let k = before.key(j);
        assert(after.key(j) == k);
        assert(m.contains_key(k));
        assert(k != n);
        if before.is_subsurface(id) && j == before.subsurface(id).parent->0 {
            let i = lemma_place(before, id);
            lemma_restacked(before, after, id, i);
            lemma_commit_parent_pending(before, after, id, j, i);
        } else {
            lemma_commit_pending(before, after, id, j, k, k);
        }
        if before.is_subsurface(j) {
            let p = before.subsurface(j).parent->0;
            let i = lemma_place(before, j);
            if before.is_subsurface(id) && p == before.subsurface(id).parent->0 {
                let e = lemma_place(before, id);
                lemma_restacked(before, after, id, e);
                assert(stands_at(after, j, i));
            } else {
                if p == id {
                    assert(after.surfaces@[p as int].pending_state.stack == before.surfaces@[p as int].pending_state.stack);
                }
                assert(stands_at(after, j, i));
            }
            assert(has_subsurface_at(after.surfaces@[p as int].pending_state, after.subsurface(j).stack_index));
        }
    }
}

/// A commit leaves it to each surface whose subsurface it is.
pub proof fn lemma_commit_roles<S: Shell>(before: Scene<S>, after: Scene<S>, id: usize)
    requires
        id < before.surfaces@.len(),
        !before.refuses(id),
        commit_done(before, after, id),
        before.is_subsurface(id) ==> before.subsurface(id).parent is Some && before.subsurface(id).parent->0 != id
            && before.subsurface(id).parent->0 < before.surfaces@.len(),
    ensures
        forall|s: usize|
            #![trigger after.is_subsurface(s)]
            s < before.surfaces@.len() ==> after.is_subsurface(s) == before.is_subsurface(s) && (before.is_subsurface(s)
                ==> after.subsurface(s) == before.subsurface(s)),
        forall|s: usize, p: usize| #[trigger] is_child(after, s, p) == is_child(before, s, p),
        forall|s: usize|
            #![trigger after.surfaces@[s as int]]
            s < before.surfaces@.len() && s != id ==> after.surfaces@[s as int].current
                == before.surfaces@[s as int].current,
{
    lemma_prepared(before, after, id);
    assert forall|s: usize| #![trigger after.is_subsurface(s)] s < before.surfaces@.len() implies after.is_subsurface(s)
        == before.is_subsurface(s) && (before.is_subsurface(s) ==> after.subsurface(s) == before.subsurface(s)) by {
        assert(after.surfaces@[s as int] == after.surfaces@[s as int]);
    }
    assert forall|s: usize, p: usize| #[trigger] is_child(after, s, p) == is_child(before, s, p) by {
        assert(after.is_subsurface(s) == after.is_subsurface(s));
    }
}

/// The pending stack of the parent after a commit of one of its subsurfaces, which is
/// the entry with number `i`.
proof fn lemma_restacked<S: Shell>(before: Scene<S>, after: Scene<S>, id: usize, i: int)
    requires
        in_order(before),
        id < before.surfaces@.len(),
        !before.refuses(id),
        commit_done(before, after, id),
        before.is_subsurface(id),
        stands_at(before, id, i),
    ensures
        ({
            let p = before.subsurface(id).parent->0;
            let entries = stack_entries(before.surfaces@[p as int].pending_state.stack);
            &&& stack_entries(after.surfaces@[p as int].pending_state.stack) == entries.update(
                i,
                (
                    before.subsurface(id).stack_index,
                    SurfaceStackEntry::Subsurface { token: after.key(id), position: entries[i].1->position },
                ),
            )
            &&& after.surfaces@[p as int].current == before.surfaces@[p as int].current
        }),
        after.subsurface(id) == before.subsurface(id) ==> stands_at(after, id, i),
{
}

/// A pending stack that a commit left alone can be committed.
proof fn lemma_commit_pending<S: Shell>(before: Scene<S>, after: Scene<S>, id: usize, j: usize, k: u64, k2: u64)
    requires
        in_order(before),
        id < before.surfaces@.len(),
        before.surfaces@[id as int].current is Some,
        !before.refuses(id),
        commit_done(before, after, id),
        currents_kept(after),
        linked(before.shell.states().insert(after.key(id), after.shell.states()[after.key(id)])),
        j < before.surfaces@.len(),
        before.surfaces@[j as int].current == Some(k),
        after.surfaces@[j as int].current == Some(k2),
        stack_entries(after.surfaces@[j as int].pending_state.stack) == stack_entries(
            before.surfaces@[j as int].pending_state.stack,
        ),
        !(before.is_subsurface(id) && j == before.subsurface(id).parent->0),
    ensures
        pending_wf(after.shell.states(), k2, after.surfaces@[j as int].pending_state),
{
    let m = before.shell.states();
    let m2 = after.shell.states();
    let current = before.key(id);
    let n = after.key(id);
    order_is_enough(before, id);
    order_is_enough(before, j);
    assert(surface_in_order(before, j));
    assert(stack_current(before, j)) by {
        assert(matters(before, j));
    }
    let pending = before.surfaces@[j as int].pending_state;
    let entries = stack_entries(pending.stack);
    assert(m2.contains_key(k2)) by {
        assert(after.key(j) == k2);
    }
    if j != id {
        assert(after.surfaces@[j as int] == before.surfaces@[j as int]);
        lemma_parent_stays_link(m, m2, current, n, k);
    }
    assert forall|i: int| #![trigger entries[i]] 0 <= i < entries.len() && entries[i].1 is Subsurface implies ({
        let c = entries[i].1->token;
        &&& m2.contains_key(c)
        &&& m2[c].is_subsurface()
        &&& m2[c].spec_parent() is Some ==> has_parent(m2, c)
    }) by {
        let c = entries[i].1->token;
        assert(entry_current(before, j, i));
        let s = m[c].surface;
        assert(s != id) by {
            if s == id {
                assert(before.is_subsurface(id) && before.subsurface(id).parent->0 == j);
            }
        }
        lemma_child_kept(before, after, id, j, i);
        assert(m.contains_key(c));
        lemma_parent_stays(m, m2, current, n, c);
    }
}

/// A state that was there keeps its place in its own stack.
proof fn lemma_parent_stays_link(m: States, m2: States, current: u64, n: u64, k: u64)
    requires
        committed(m, m2, current, n),
        m.contains_key(k),
        m2.contains_key(k),
    ensures
        m2[k].stack_index == m[k].stack_index,
        m2[k].surface == m[k].surface,
        m2[k].is_subsurface() == m[k].is_subsurface(),
        m2[k].role_state is Some == m[k].role_state is Some,
{
}

/// A subsurface in a pending stack that a commit left alone still has its state.
proof fn lemma_child_kept<S: Shell>(before: Scene<S>, after: Scene<S>, id: usize, j: usize, i: int)
    requires
        in_order(before),
        id < before.surfaces@.len(),
        before.surfaces@[id as int].current is Some,
        !before.refuses(id),
        commit_done(before, after, id),
        currents_kept(after),
        j < before.surfaces@.len(),
        entry_current(before, j, i),
        ({
            let entries = stack_entries(before.surfaces@[j as int].pending_state.stack);
            0 <= i < entries.len() && entries[i].1 is Subsurface
        }),
        before.shell.states()[stack_entries(before.surfaces@[j as int].pending_state.stack)[i].1->token].surface != id,
    ensures
        ({
            let c = stack_entries(before.surfaces@[j as int].pending_state.stack)[i].1->token;
            let s = before.shell.states()[c].surface;
            &&& before.shell.states().contains_key(c)
            &&& after.shell.states().contains_key(c)
            &&& after.surfaces@[s as int].current == Some(c)
        }),
{
    let c = stack_entries(before.surfaces@[j as int].pending_state.stack)[i].1->token;
    let s = before.shell.states()[c].surface;
    order_is_enough(before, s);
    order_is_enough(before, id);
    assert(surface_in_order(before, id));
    lemma_commit_roles(before, after, id);
    assert(after.surfaces@[s as int].current == before.surfaces@[s as int].current);
    assert(after.key(s) == c);
}

/// The pending stack of a parent can be committed after a commit of one of its
/// subsurfaces, which is the entry with number `e`.
proof fn lemma_commit_parent_pending<S: Shell>(before: Scene<S>, after: Scene<S>, id: usize, p: usize, e: int)
    requires
        in_order(before),
        id < before.surfaces@.len(),
        before.surfaces@[id as int].current is Some,
        !before.refuses(id),
        commit_done(before, after, id),
        currents_kept(after),
        linked(before.shell.states().insert(after.key(id), after.shell.states()[after.key(id)])),
        p < before.surfaces@.len(),
        p != id,
        before.surfaces@[p as int].current is Some,
        before.is_subsurface(id),
        before.subsurface(id).parent == Some(p),
        stands_at(before, id, e),
    ensures
        pending_wf(after.shell.states(), after.key(p), after.surfaces@[p as int].pending_state),
{
    let m = before.shell.states();
    let m2 = after.shell.states();
    let current = before.key(id);
    let n = after.key(id);
    let k = before.key(p);
    order_is_enough(before, id);
    order_is_enough(before, p);
    assert(surface_in_order(before, p));
    assert(surface_in_order(before, id));
    assert(stack_current(before, p)) by {
        assert(matters(before, p));
    }
    lemma_restacked(before, after, id, e);
    assert(after.key(p) == k);
    assert(m2.contains_key(k));
    assert(m2.contains_key(n));
    lemma_parent_stays_link(m, m2, current, n, k);
    let old_entries = stack_entries(before.surfaces@[p as int].pending_state.stack);
    let entries = stack_entries(after.surfaces@[p as int].pending_state.stack);
    assert(!m.contains_key(n));
    assert forall|i: int| #![trigger entries[i]] 0 <= i < entries.len() && entries[i].1 is Subsurface implies ({
        let c = entries[i].1->token;
        &&& m2.contains_key(c)
        &&& m2[c].is_subsurface()
        &&& m2[c].spec_parent() is Some ==> has_parent(m2, c)
        &&& i != e ==> c != n && m.contains_key(c)
    }) by {
        if i != e {
            let c = old_entries[i].1->token;
            assert(entries[i] == old_entries[i]);
            assert(entry_current(before, p, i));
            assert(m[c].surface != id) by {
                if m[c].surface == id {
                    assert(old_entries[i].0 == old_entries[e].0);
                }
            }
            lemma_child_kept(before, after, id, p, i);
            lemma_parent_stays(m, m2, current, n, c);
        }
    }
    assert(stack_wf(entries, m2[k].stack_index)) by {
        let own = choose|i: int| index_at(old_entries, m[k].stack_index, i);
        assert(own != e);
        assert(index_at(entries, m[k].stack_index, own));
        assert forall|i: int| #![trigger entries[i]] 0 <= i < entries.len() implies (entries[i].1 is Self_ <==> entries[i].0
            == m[k].stack_index) by {
            if i != e {
                assert(entries[i] == old_entries[i]);
            } else {
                assert(old_entries[i].0 == entries[i].0);
            }
        }
        assert forall|i: int, j: int| #![trigger entries[i], entries[j]] 0 <= i < j < entries.len()
            && entries[i].1 is Subsurface && entries[j].1 is Subsurface implies entries[i].1->token != entries[j].1->token by {
            if i != e && j != e {
                assert(entries[i] == old_entries[i] && entries[j] == old_entries[j]);
            }
        }
        assert(distinct_indices(entries)) by {
            assert forall|i: int| 0 <= i < entries.len() implies (#[trigger] entries[i]).0 == old_entries[i].0 by {}
        }
    }
}

/// What has to be shown of a commit that was not refused, for one pending stack.
proof fn lemma_commit_stack<S: Shell>(before: Scene<S>, after: Scene<S>, id: usize, p: usize)
    requires
        in_order(before),
        id < before.surfaces@.len(),
        before.surfaces@[id as int].current is Some,
        !before.refuses(id),
        commit_done(before, after, id),
        currents_kept(after),
        matters(after, p),
    ensures
        stack_current(after, p),
{
    let m = before.shell.states();
    let m2 = after.shell.states();
    let current = before.key(id);
    let n = after.key(id);
    order_is_enough(before, id);
    assert(surface_in_order(before, id));
    lemma_commit_roles(before, after, id);
    assert(matters(before, p)) by {
        if after.surfaces@[p as int].current is None {
            let s = choose|s: usize| is_child(after, s, p);
            assert(is_child(before, s, p));
        }
    }
    assert(stack_current(before, p));
    let old_entries = stack_entries(before.surfaces@[p as int].pending_state.stack);
    let entries = stack_entries(after.surfaces@[p as int].pending_state.stack);
    let here = before.is_subsurface(id) && p == before.subsurface(id).parent->0;
    let e = if here {
        lemma_place(before, id)
    } else {
        -1
    };
    if here {
        lemma_restacked(before, after, id, e);
    } else {
        assert(entries == old_entries);
    }
    assert(entries.len() == old_entries.len());
    assert forall|i: int| #![trigger entries[i]] 0 <= i < entries.len() implies entries[i].0 == old_entries[i].0 by {}
    assert forall|i: int| #![trigger entries[i]] 0 <= i < entries.len() && entries[i].1 is Subsurface implies entry_current(
        after,
        p,
        i,
    ) by {
        if here && i == e {
            assert(m2[n].surface == id);
            assert(is_child(before, id, p));
            assert(is_child(after, id, p));
        } else {
            assert(entries[i] == old_entries[i]);
            let c = old_entries[i].1->token;
            let s = m[c].surface;
            assert(entry_current(before, p, i));
            assert(s != id) by {
                if s == id {
                    assert(here);
                    assert(old_entries[i].0 == old_entries[e].0);
                }
            }
            lemma_child_kept(before, after, id, p, i);
            lemma_parent_stays_link(m, m2, current, n, c);
            assert(is_child(after, s, p));
        }
    }
}

/// A commit keeps surfaces in order, if it frees neither the current state of
/// another surface nor what another state shows. It would where a destroyed surface
/// or a subsurface whose role was given up is still shown by its former parent.
pub proof fn commit_keeps_order<S: Shell>(before: Scene<S>, after: Scene<S>, id: usize)
    requires
        in_order(before),
        id < before.surfaces@.len(),
        before.surfaces@[id as int].current is Some,
        after.shell.valid(),
        commit_done(before, after, id),
        !before.refuses(id) ==> currents_kept(after) && no_other_holder(
            before.shell.states(),
            before.key(id),
            after.key(id),
            after.shell.states()[after.key(id)],
        ),
    ensures
        in_order(after),
{
    order_is_enough(before, id);
    assert(surface_in_order(before, id));
    if before.refuses(id) {
        same_places_keep_order(before, after);
    } else {
        lemma_commit_roles(before, after, id);
        assert forall|j: usize| #![trigger surface_in_order(after, j)] j < after.surfaces@.len()
            && after.surfaces@[j as int].current is Some implies surface_in_order(after, j) by {
            lemma_commit_surface(before, after, id, j);
        }
        assert forall|p: usize| #![trigger stack_current(after, p)] matters(after, p) implies stack_current(after, p) by {
            lemma_commit_stack(before, after, id, p);
        }
        assert forall|s: usize| #![trigger after.is_subsurface(s)] s < after.surfaces@.len() && after.is_subsurface(s) implies after.surfaces@[s as int].current is Some by {
            assert(before.is_subsurface(s));
            if s != id {
                assert(after.surfaces@[s as int].current == before.surfaces@[s as int].current);
            }
        }
    }
}

/// The two stacks hold the same states at the same indices. Positions may differ.
pub open spec fn same_stack(
    a: Seq<(Index<SurfaceStackEntry>, SurfaceStackEntry)>,
    b: Seq<(Index<SurfaceStackEntry>, SurfaceStackEntry)>,
) -> bool {
    &&& a.len() == b.len()
    &&& forall|i: int|
        #![trigger a[i]]
        #![trigger b[i]]
        0 <= i < a.len() ==> {
            &&& a[i].0 == b[i].0
            &&& a[i].1 is Self_ == b[i].1 is Self_
            &&& a[i].1 is Subsurface == b[i].1 is Subsurface
            &&& a[i].1 is Subsurface ==> a[i].1->token == b[i].1->token
        }
}

/// Each surface has the same current state, the same subsurfaces and the same parent.
/// Buffers, scales, positions, callbacks and what other roles say may differ.
pub open spec fn same_places<S: Shell>(before: Scene<S>, after: Scene<S>) -> bool {
    &&& after.shell.states() == before.shell.states()
    &&& after.surfaces@.len() == before.surfaces@.len()
    &&& forall|s: usize|
        #![trigger after.surfaces@[s as int]]
        s < before.surfaces@.len() ==> {
            let a = after.surfaces@[s as int];
            let b = before.surfaces@[s as int];
            &&& a.current == b.current
            &&& a.pending_state.role_state == b.pending_state.role_state
            &&& same_stack(stack_entries(b.pending_state.stack), stack_entries(a.pending_state.stack))
            &&& a.role is Some && a.role->0 is Subsurface || b.role is Some && b.role->0 is Subsurface ==> a.role == b.role
        }
}

/// What leaves all surfaces where they are keeps them in order.
pub proof fn same_places_keep_order<S: Shell>(before: Scene<S>, after: Scene<S>)
    requires
        in_order(before),
        after.shell.valid(),
        same_places(before, after),
    ensures
        in_order(after),
{
    let m = before.shell.states();
    assert forall|s: usize| #![trigger after.is_subsurface(s)] s < before.surfaces@.len() implies after.is_subsurface(s)
        == before.is_subsurface(s) && (before.is_subsurface(s) ==> after.subsurface(s) == before.subsurface(s)) by {
        assert(after.surfaces@[s as int] == after.surfaces@[s as int]);
    }
    assert forall|s: usize, p: usize| #[trigger] is_child(after, s, p) == is_child(before, s, p) by {
        assert(after.is_subsurface(s) == after.is_subsurface(s));
    }
    assert forall|id: usize| #![trigger surface_in_order(after, id)] id < after.surfaces@.len()
        && after.surfaces@[id as int].current is Some implies surface_in_order(after, id) by {
        assert(surface_in_order(before, id));
        assert(after.is_subsurface(id) == before.is_subsurface(id));
        lemma_same_stack_pending(
            m,
            before.key(id),
            before.surfaces@[id as int].pending_state,
            after.surfaces@[id as int].pending_state,
        );
        if before.is_subsurface(id) {
            let i = lemma_place(before, id);
            let p = before.subsurface(id).parent->0;
            assert(after.surfaces@[p as int] == after.surfaces@[p as int]);
            assert(stands_at(after, id, i));
            assert(has_subsurface_at(after.surfaces@[p as int].pending_state, after.subsurface(id).stack_index)) by {
                assert(index_at(
                    stack_entries(after.surfaces@[p as int].pending_state.stack),
                    after.subsurface(id).stack_index,
                    i,
                ));
            }
        }
    }
    assert forall|p: usize| #![trigger stack_current(after, p)] matters(after, p) implies stack_current(after, p) by {
        if after.surfaces@[p as int].current is None {
            let s = choose|s: usize| is_child(after, s, p);
            assert(is_child(before, s, p));
        }
        assert(matters(before, p));
        assert(stack_current(before, p));
        let old_entries = stack_entries(before.surfaces@[p as int].pending_state.stack);
        let entries = stack_entries(after.surfaces@[p as int].pending_state.stack);
        assert(same_stack(old_entries, entries));
        assert(distinct_indices(entries)) by {
            assert forall|i: int, j: int| #![trigger entries[i], entries[j]] 0 <= i < j < entries.len() implies entries[i].0 != entries[j].0 by {
                assert(old_entries[i].0 != old_entries[j].0);
            }
        }
        assert forall|i: int| #![trigger entries[i]] 0 <= i < entries.len() && entries[i].1 is Subsurface implies entry_current(
            after,
            p,
            i,
        ) by {
            assert(old_entries[i].1->token == entries[i].1->token);
            assert(entry_current(before, p, i));
            let s = m[entries[i].1->token].surface;
            assert(is_child(after, s, p));
            assert(after.is_subsurface(s) == before.is_subsurface(s));
            assert(after.surfaces@[s as int].current == before.surfaces@[s as int].current);
        }
    }
    assert forall|s: usize| #![trigger after.is_subsurface(s)] s < after.surfaces@.len() && after.is_subsurface(s) implies after.surfaces@[s as int].current is Some by {
        assert(before.is_subsurface(s));
    }
}

/// Positions have no part in whether a pending state can be committed.
proof fn lemma_same_stack_pending(m: States, k: u64, a: PendingSurfaceState, b: PendingSurfaceState)
    requires
        pending_wf(m, k, a),
        same_stack(stack_entries(a.stack), stack_entries(b.stack)),
    ensures
        pending_wf(m, k, b),
{
    let x = stack_entries(a.stack);
    let y = stack_entries(b.stack);
    let own = choose|i: int| index_at(x, m[k].stack_index, i);
    assert(x[own].0 == y[own].0);
    assert(index_at(y, m[k].stack_index, own));
    assert forall|i: int, j: int| #![trigger y[i], y[j]] 0 <= i < j < y.len() implies y[i].0 != y[j].0 by {
        assert(x[i].0 != x[j].0);
    }
    assert forall|i: int, j: int| #![trigger y[i], y[j]] 0 <= i < j < y.len() && y[i].1 is Subsurface && y[j].1 is Subsurface implies y[i].1->token
        != y[j].1->token by {
        assert(x[i].1->token != x[j].1->token);
    }
    assert forall|i: int| #![trigger y[i]] 0 <= i < y.len() && y[i].1 is Subsurface implies m.contains_key(y[i].1->token)
        && m[y[i].1->token].is_subsurface() && (m[y[i].1->token].spec_parent() is Some ==> has_parent(m, y[i].1->token)) by {
        assert(x[i].1->token == y[i].1->token);
    }
}

/// Attaching a surface to a parent keeps surfaces in order. The parent must not have
/// been destroyed.
pub proof fn attach_keeps_order<S: Shell>(before: Scene<S>, after: Scene<S>, parent: usize, surface: usize)
    requires
        in_order(before),
        parent < before.surfaces@.len(),
        surface < before.surfaces@.len(),
        before.surfaces@[parent as int].current is Some,
        before.surfaces@[surface as int].current is Some,
        before.surfaces@[surface as int].role is None,
        !before.shell.states()[before.key(surface)].is_subsurface(),
        stack_entries(before.surfaces@[parent as int].pending_state.stack).len() < usize::MAX - 1,
        after.shell.valid(),
        attach_done(before, after, parent, surface),
    ensures
        in_order(after),
{
    let m = before.shell.states();
    let m2 = after.shell.states();
    let key = before.key(surface);
    let index = after.subsurface(surface).stack_index;
    order_is_enough(before, parent);
    order_is_enough(before, surface);
    assert(surface_in_order(before, parent));
    assert(surface_in_order(before, surface));
    assert(stack_current(before, parent)) by {
        assert(matters(before, parent));
    }
    assert(after.is_subsurface(surface));
    assert forall|s: usize, p: usize| #[trigger] is_child(after, s, p) == (is_child(before, s, p) || (s == surface && p
        == parent)) by {
        if s < before.surfaces@.len() {
            assert(after.surfaces@[s as int] == after.surfaces@[s as int]);
        }
    }
    let old_entries = stack_entries(before.surfaces@[parent as int].pending_state.stack);
    let entries = stack_entries(after.surfaces@[parent as int].pending_state.stack);
    assert forall|i: int| #![trigger entries[i]] 0 < i < entries.len() implies entries[i] == old_entries[i - 1] by {}
    // The state of the surface is not listed yet.
    assert forall|p: usize, i: int| matters(before, p) && 0 <= i < stack_entries(
        before.surfaces@[p as int].pending_state.stack,
    ).len() && stack_entries(before.surfaces@[p as int].pending_state.stack)[i].1 is Subsurface implies (
    #[trigger] stack_entries(before.surfaces@[p as int].pending_state.stack)[i]).1->token != key by {
        assert(stack_current(before, p));
        assert(entry_current(before, p, i));
    }
    assert forall|id: usize| #![trigger surface_in_order(after, id)] id < after.surfaces@.len()
        && after.surfaces@[id as int].current is Some implies surface_in_order(after, id) by {
        assert(after.surfaces@[id as int].current == before.surfaces@[id as int].current);
        assert(surface_in_order(before, id));
        let k = before.key(id);
        if id == parent {
            lemma_attached_pending(before, after, parent, surface);
        } else {
            assert(matters(before, id));
            let pending = before.surfaces@[id as int].pending_state;
            assert forall|i: int| #![trigger stack_entries(pending.stack)[i]] 0 <= i < stack_entries(pending.stack).len()
                && stack_entries(pending.stack)[i].1 is Subsurface implies ({
                let c = stack_entries(pending.stack)[i].1->token;
                &&& m2.contains_key(c)
                &&& m2[c].is_subsurface() == m[c].is_subsurface()
                &&& m2[c].spec_parent() is Some ==> has_parent(m2, c)
            }) by {
                lemma_attached_child(m, m2, key, stack_entries(pending.stack)[i].1->token);
            }
            lemma_pending_kept(m, m2, k, k, pending);
            assert(pending_wf(m2, k, after.surfaces@[id as int].pending_state));
        }
        if id == surface {
            assert(stands_at(after, id, 0));
        } else if before.is_subsurface(id) {
            let p = before.subsurface(id).parent->0;
            let i = lemma_place(before, id);
            assert(after.surfaces@[id as int].role == before.surfaces@[id as int].role);
            let at = if p == parent {
                i + 1
            } else {
                i
            };
            assert(stands_at(after, id, at));
            assert(has_subsurface_at(after.surfaces@[p as int].pending_state, after.subsurface(id).stack_index)) by {
                assert(index_at(
                    stack_entries(after.surfaces@[p as int].pending_state.stack),
                    after.subsurface(id).stack_index,
                    at,
                ));
            }
        }
    }
    assert forall|p: usize| #![trigger stack_current(after, p)] matters(after, p) implies stack_current(after, p) by {
        assert(after.surfaces@[p as int].current == before.surfaces@[p as int].current);
        if after.surfaces@[p as int].current is None {
            let s = choose|s: usize| is_child(after, s, p);
            assert(is_child(before, s, p));
        }
        assert(matters(before, p));
        assert(stack_current(before, p));
        let old_p = stack_entries(before.surfaces@[p as int].pending_state.stack);
        let new_p = stack_entries(after.surfaces@[p as int].pending_state.stack);
        let shift: int = if p == parent {
            1
        } else {
            0
        };
        assert forall|i: int| #![trigger new_p[i]] shift <= i < new_p.len() implies new_p[i] == old_p[i - shift] by {}
        assert(new_p.len() == old_p.len() + shift);
        assert(distinct_indices(new_p)) by {
            assert forall|i: int, j: int| #![trigger new_p[i], new_p[j]] 0 <= i < j < new_p.len() implies new_p[i].0 != new_p[j].0 by {
                if i >= shift {
                    assert(old_p[i - shift].0 != old_p[j - shift].0);
                } else {
                    assert(!index_at(old_p, index, j - 1));
                }
            }
        }
        assert forall|i: int| #![trigger new_p[i]] 0 <= i < new_p.len() && new_p[i].1 is Subsurface implies entry_current(
            after,
            p,
            i,
        ) by {
            if i < shift {
                assert(m2[key].surface == surface);
                assert(is_child(after, surface, parent));
            } else {
                assert(entry_current(before, p, i - shift));
                let c = old_p[i - shift].1->token;
                let s = m[c].surface;
                assert(surface_in_order(before, s));
                assert(is_child(after, s, p));
                assert(s != surface);
                assert(after.surfaces@[s as int].role == before.surfaces@[s as int].role);
            }
        }
    }
    assert forall|s: usize| #![trigger after.is_subsurface(s)] s < after.surfaces@.len() && after.is_subsurface(s) implies after.surfaces@[s as int].current is Some by {
        if s != surface {
            assert(after.surfaces@[s as int].role == before.surfaces@[s as int].role);
            assert(before.is_subsurface(s));
        }
    }
}

/// Giving a state that is no subsurface the state of one changes nothing for another
/// state.
proof fn lemma_attached_child(m: States, m2: States, key: u64, c: u64)
    requires
        m.contains_key(key),
        m.contains_key(c),
        c != key,
        m2 == m.insert(
            key,
            SurfaceState { role_state: Some(RoleState::Subsurface(SubsurfaceState { parent: None })), ..m[key] },
        ),
        m[c].spec_parent() is Some ==> has_parent(m, c),
    ensures
        m2.contains_key(c),
        m2[c] == m[c],
        m2[c].spec_parent() is Some ==> has_parent(m2, c),
{
    if m[c].spec_parent() is Some {
        let p = m[c].spec_parent()->0;
        let j = choose|j: int| child_at(m, p, c, j);
        assert(child_at(m2, p, c, j));
    }
}

/// The pending stack of a parent can be committed after a surface was attached.
proof fn lemma_attached_pending<S: Shell>(before: Scene<S>, after: Scene<S>, parent: usize, surface: usize)
    requires
        before.committable(parent),
        before.live(surface),
        attach_done(before, after, parent, surface),
        stack_entries(before.surfaces@[parent as int].pending_state.stack).len() < usize::MAX - 1,
        ({
            let entries = stack_entries(before.surfaces@[parent as int].pending_state.stack);
            forall|i: int|
                #![trigger entries[i]]
                0 <= i < entries.len() && entries[i].1 is Subsurface ==> entries[i].1->token != before.key(surface)
        }),
    ensures
        pending_wf(after.shell.states(), after.key(parent), after.surfaces@[parent as int].pending_state),
{
    let m = before.shell.states();
    let m2 = after.shell.states();
    let key = before.key(surface);
    let k = before.key(parent);
    let index = after.subsurface(surface).stack_index;
    let old_entries = stack_entries(before.surfaces@[parent as int].pending_state.stack);
    let entries = stack_entries(after.surfaces@[parent as int].pending_state.stack);
    assert forall|i: int| #![trigger entries[i]] 0 < i < entries.len() implies entries[i] == old_entries[i - 1] by {}
    assert(entries[0].1->token == key && entries[0].0 == index);
    let own = choose|i: int| index_at(old_entries, m[k].stack_index, i);
    assert(entries[own + 1] == old_entries[own]);
    assert(index_at(entries, m2[k].stack_index, own + 1));
    assert(!index_at(old_entries, index, own));
    assert(distinct_indices(entries)) by {
        assert forall|i: int, j: int| #![trigger entries[i], entries[j]] 0 <= i < j < entries.len() implies entries[i].0 != entries[j].0 by {
            assert(entries[j] == old_entries[j - 1]);
            if i == 0 {
                assert(!index_at(old_entries, index, j - 1));
            } else {
                assert(entries[i] == old_entries[i - 1]);
            }
        }
    }
    assert forall|i: int| #![trigger entries[i]] 0 <= i < entries.len() implies (entries[i].1 is Self_ <==> entries[i].0
        == m2[k].stack_index) by {
        if i > 0 {
            assert(entries[i] == old_entries[i - 1]);
        }
    }
    assert forall|i: int, j: int| #![trigger entries[i], entries[j]] 0 <= i < j < entries.len() && entries[i].1 is Subsurface
        && entries[j].1 is Subsurface implies entries[i].1->token != entries[j].1->token by {
        assert(entries[j] == old_entries[j - 1]);
        if i > 0 {
            assert(entries[i] == old_entries[i - 1]);
        }
    }
    assert forall|i: int| #![trigger entries[i]] 0 <= i < entries.len() && entries[i].1 is Subsurface implies ({
        let c = entries[i].1->token;
        &&& m2.contains_key(c)
        &&& m2[c].is_subsurface()
        &&& m2[c].spec_parent() is Some ==> has_parent(m2, c)
    }) by {
        if i > 0 {
            assert(entries[i] == old_entries[i - 1]);
            lemma_attached_child(m, m2, key, old_entries[i - 1].1->token);
        }
    }
}

/// Deactivating the role of a surface keeps surfaces in order.
pub proof fn deactivation_keeps_order<S: Shell>(before: Scene<S>, after: Scene<S>, id: usize)
    requires
        in_order(before),
        id < before.surfaces@.len(),
        before.surfaces@[id as int].current is Some,
        after.shell.valid(),
        role_deactivated(before, after, id),
    ensures
        in_order(after),
{
    order_is_enough(before, id);
    assert(surface_in_order(before, id));
    if !before.is_subsurface(id) {
        assert forall|s: usize| #![trigger after.is_subsurface(s)] s < before.surfaces@.len() implies after.is_subsurface(s)
            == before.is_subsurface(s) && (before.is_subsurface(s) ==> after.subsurface(s) == before.subsurface(s)) by {
            assert(after.surfaces@[s as int] == after.surfaces@[s as int]);
        }
        lemma_deactivated_other(before, after, id);
    } else {
        lemma_deactivated_child(before, after, id);
    }
}

/// Deactivating a role other than that of a subsurface.
proof fn lemma_deactivated_other<S: Shell>(before: Scene<S>, after: Scene<S>, id: usize)
    requires
        in_order(before),
        id < before.surfaces@.len(),
        before.surfaces@[id as int].current is Some,
        after.shell.valid(),
        role_deactivated(before, after, id),
        !before.is_subsurface(id),
        forall|s: usize|
            #![trigger after.is_subsurface(s)]
            s < before.surfaces@.len() ==> after.is_subsurface(s) == before.is_subsurface(s) && (before.is_subsurface(s)
                ==> after.subsurface(s) == before.subsurface(s)),
    ensures
        in_order(after),
{
    assert forall|s: usize, p: usize| #[trigger] is_child(after, s, p) == is_child(before, s, p) by {
        assert(after.is_subsurface(s) == after.is_subsurface(s));
    }
    assert forall|j: usize| #![trigger surface_in_order(after, j)] j < after.surfaces@.len()
        && after.surfaces@[j as int].current is Some implies surface_in_order(after, j) by {
        assert(after.is_subsurface(j) == before.is_subsurface(j));
        assert(surface_in_order(before, j));
        if before.is_subsurface(j) {
            let i = lemma_place(before, j);
            let p = before.subsurface(j).parent->0;
            assert(after.surfaces@[p as int].pending_state.stack == before.surfaces@[p as int].pending_state.stack);
            assert(stands_at(after, j, i));
        }
    }
    assert forall|p: usize| #![trigger stack_current(after, p)] matters(after, p) implies stack_current(after, p) by {
        if after.surfaces@[p as int].current is None {
            let s = choose|s: usize| is_child(after, s, p);
            assert(is_child(before, s, p));
        }
        assert(matters(before, p));
        assert(stack_current(before, p));
        let entries = stack_entries(before.surfaces@[p as int].pending_state.stack);
        assert(after.surfaces@[p as int].pending_state.stack == before.surfaces@[p as int].pending_state.stack);
        assert forall|i: int| #![trigger entries[i]] 0 <= i < entries.len() && entries[i].1 is Subsurface implies entry_current(
            after,
            p,
            i,
        ) by {
            assert(entry_current(before, p, i));
            let s = before.shell.states()[entries[i].1->token].surface;
            assert(is_child(after, s, p));
            assert(after.is_subsurface(s) == before.is_subsurface(s));
        }
    }
    assert forall|s: usize| #![trigger after.is_subsurface(s)] s < after.surfaces@.len() && after.is_subsurface(s) implies after.surfaces@[s as int].current is Some by {
        assert(before.is_subsurface(s));
    }
}

/// Deactivating a subsurface.
proof fn lemma_deactivated_child<S: Shell>(before: Scene<S>, after: Scene<S>, id: usize)
    requires
        in_order(before),
        id < before.surfaces@.len(),
        before.surfaces@[id as int].current is Some,
        after.shell.valid(),
        role_deactivated(before, after, id),
        before.is_subsurface(id),
    ensures
        in_order(after),
{
    let m = before.shell.states();
    let parent = before.subsurface(id).parent->0;
    let e = lemma_place(before, id);
    let old_entries = stack_entries(before.surfaces@[parent as int].pending_state.stack);
    let entries = stack_entries(after.surfaces@[parent as int].pending_state.stack);
    assert(entries == old_entries.remove(e));
    assert(!after.is_subsurface(id));
    assert forall|s: usize, p: usize| #[trigger] is_child(after, s, p) == (is_child(before, s, p) && s != id) by {
        if s < before.surfaces@.len() {
            assert(after.surfaces@[s as int] == after.surfaces@[s as int]);
        }
    }
    assert forall|j: usize| #![trigger surface_in_order(after, j)] j < after.surfaces@.len()
        && after.surfaces@[j as int].current is Some implies surface_in_order(after, j) by {
        assert(after.surfaces@[j as int].current == before.surfaces@[j as int].current);
        assert(surface_in_order(before, j));
        if j == parent {
            lemma_unstacked_pending(m, before.key(j), old_entries, entries, e);
        }
        if j != id && before.is_subsurface(j) {
            let p = before.subsurface(j).parent->0;
            let i = lemma_place(before, j);
            assert(after.surfaces@[j as int].role == before.surfaces@[j as int].role);
            let at = if p == parent && i > e {
                i - 1
            } else {
                i
            };
            if p == parent {
                assert(i != e);
                assert(entries[at] == old_entries[i]);
            }
            assert(stands_at(after, j, at));
            assert(has_subsurface_at(after.surfaces@[p as int].pending_state, after.subsurface(j).stack_index)) by {
                assert(index_at(
                    stack_entries(after.surfaces@[p as int].pending_state.stack),
                    after.subsurface(j).stack_index,
                    at,
                ));
            }
        }
    }
    assert forall|p: usize| #![trigger stack_current(after, p)] matters(after, p) implies stack_current(after, p) by {
        assert(after.surfaces@[p as int].current == before.surfaces@[p as int].current);
        if after.surfaces@[p as int].current is None {
            let s = choose|s: usize| is_child(after, s, p);
            assert(is_child(before, s, p));
        }
        assert(matters(before, p));
        assert(stack_current(before, p));
        let old_p = stack_entries(before.surfaces@[p as int].pending_state.stack);
        let new_p = stack_entries(after.surfaces@[p as int].pending_state.stack);
        let from = |i: int| if p == parent && i >= e {
            i + 1
        } else {
            i
        };
        assert forall|i: int| #![trigger new_p[i]] 0 <= i < new_p.len() implies new_p[i] == old_p[from(i)] && from(i) < old_p.len() by {}
        assert(distinct_indices(new_p)) by {
            assert forall|i: int, j: int| #![trigger new_p[i], new_p[j]] 0 <= i < j < new_p.len() implies new_p[i].0 != new_p[j].0 by {
                assert(old_p[from(i)].0 != old_p[from(j)].0);
            }
        }
        assert forall|i: int| #![trigger new_p[i]] 0 <= i < new_p.len() && new_p[i].1 is Subsurface implies entry_current(
            after,
            p,
            i,
        ) by {
            let o = from(i);
            assert(new_p[i] == old_p[o]);
            assert(entry_current(before, p, o));
            let c = old_p[o].1->token;
            let s = m[c].surface;
            assert(s != id) by {
                if s == id {
                    assert(p == parent);
                    assert(old_p[o].0 == old_p[e].0);
                    assert(o != e);
                }
            }
            assert(is_child(after, s, p));
            assert(after.surfaces@[s as int].role == before.surfaces@[s as int].role);
        }
    }
    assert forall|s: usize| #![trigger after.is_subsurface(s)] s < after.surfaces@.len() && after.is_subsurface(s) implies after.surfaces@[s as int].current is Some by {
        assert(s != id);
        assert(after.surfaces@[s as int].role == before.surfaces@[s as int].role);
        assert(before.is_subsurface(s));
    }
}

/// A stack is in order without one of its subsurfaces.
proof fn lemma_unstacked_pending(
    m: States,
    k: u64,
    old_entries: Seq<(Index<SurfaceStackEntry>, SurfaceStackEntry)>,
    entries: Seq<(Index<SurfaceStackEntry>, SurfaceStackEntry)>,
    e: int,
)
    requires
        stack_wf(old_entries, m[k].stack_index),
        0 <= e < old_entries.len(),
        old_entries[e].1 is Subsurface,
        entries == old_entries.remove(e),
        forall|i: int|
            #![trigger old_entries[i]]
            0 <= i < old_entries.len() && old_entries[i].1 is Subsurface ==> m.contains_key(old_entries[i].1->token)
                && m[old_entries[i].1->token].is_subsurface() && (m[old_entries[i].1->token].spec_parent() is Some
                ==> has_parent(m, old_entries[i].1->token)),
    ensures
        stack_wf(entries, m[k].stack_index),
        forall|i: int|
            #![trigger entries[i]]
            0 <= i < entries.len() && entries[i].1 is Subsurface ==> m.contains_key(entries[i].1->token)
                && m[entries[i].1->token].is_subsurface() && (m[entries[i].1->token].spec_parent() is Some ==> has_parent(
                m,
                entries[i].1->token,
            )),
{
    let from = |i: int| if i >= e {
        i + 1
    } else {
        i
    };
    assert forall|i: int| #![trigger entries[i]] 0 <= i < entries.len() implies entries[i] == old_entries[from(i)] && from(i) < old_entries.len() by {}
    let own = choose|i: int| index_at(old_entries, m[k].stack_index, i);
    let at = if own > e {
        own - 1
    } else {
        own
    };
    assert(own != e);
    assert(entries[at] == old_entries[own]);
    assert(index_at(entries, m[k].stack_index, at));
    assert(distinct_indices(entries)) by {
        assert forall|i: int, j: int| #![trigger entries[i], entries[j]] 0 <= i < j < entries.len() implies entries[i].0 != entries[j].0 by {
            assert(old_entries[from(i)].0 != old_entries[from(j)].0);
        }
    }
    assert forall|i: int, j: int| #![trigger entries[i], entries[j]] 0 <= i < j < entries.len() && entries[i].1 is Subsurface
        && entries[j].1 is Subsurface implies entries[i].1->token != entries[j].1->token by {
        assert(old_entries[from(i)].1->token != old_entries[from(j)].1->token);
    }
}

/// Destroying a surface keeps surfaces in order, if it frees neither the current
/// state of another surface nor what another state shows.
pub proof fn destruction_keeps_order<S: Shell>(before: Scene<S>, after: Scene<S>, id: usize)
    requires
        in_order(before),
        id < before.surfaces@.len(),
        before.surfaces@[id as int].current is Some,
        after.shell.valid(),
        destroy_done(before, after, id),
        before.shell.states()[before.key(id)].spec_parent() is None ==> currents_kept(after) && held_only_here(
            before.shell.states(),
            before.key(id),
            stack_entries(before.surfaces@[id as int].pending_state.stack),
        ),
    ensures
        in_order(after),
{
    let mid = choose|mid: Scene<S>| #[trigger]
        role_deactivated(before, mid, id) && mid.shell.valid() && destroyed_surfaces(mid, after, id);
    let m = before.shell.states();
    order_is_enough(before, id);
    deactivation_keeps_order(before, mid, id);
    assert(!mid.is_subsurface(id)) by {
        if before.active(id) {
            assert(mid.surfaces@[id as int].role == Some(before.surfaces@[id as int].role->0.deactivated()));
        }
    }
    assert(mid.surfaces@[id as int].pending_state.stack == before.surfaces@[id as int].pending_state.stack);
    assert(mid.surfaces@[id as int].current == before.surfaces@[id as int].current);
    if m[before.key(id)].spec_parent() is None {
        lemma_destroyed_freed(mid, after, id);
    } else {
        lemma_destroyed_held(mid, after, id);
    }
}

/// Destroying a surface whose state is still shown by its parent: nothing is freed.
proof fn lemma_destroyed_held<S: Shell>(mid: Scene<S>, after: Scene<S>, id: usize)
    requires
        in_order(mid),
        id < mid.surfaces@.len(),
        mid.surfaces@[id as int].current is Some,
        !mid.is_subsurface(id),
        after.shell.valid(),
        after.shell.states() == mid.shell.states(),
        mid.shell.states()[mid.key(id)].spec_parent() is Some,
        destroyed_surfaces(mid, after, id),
    ensures
        in_order(after),
{
    assert forall|s: usize| #![trigger after.is_subsurface(s)] s < mid.surfaces@.len() implies after.is_subsurface(s)
        == mid.is_subsurface(s) && (mid.is_subsurface(s) ==> after.subsurface(s) == mid.subsurface(s)) by {
        assert(after.surfaces@[s as int] == destroyed_surface(mid, id, s as int));
    }
    assert forall|s: usize, p: usize| #[trigger] is_child(after, s, p) == is_child(mid, s, p) by {
        assert(after.is_subsurface(s) == after.is_subsurface(s));
    }
    assert forall|j: usize| #![trigger after.surfaces@[j as int]] j < mid.surfaces@.len() implies after.surfaces@[j as int].pending_state
        == mid.surfaces@[j as int].pending_state && (j != id ==> after.surfaces@[j as int].current
        == mid.surfaces@[j as int].current) by {
        assert(after.surfaces@[j as int] == destroyed_surface(mid, id, j as int));
    }
    assert forall|j: usize| #![trigger surface_in_order(after, j)] j < after.surfaces@.len()
        && after.surfaces@[j as int].current is Some implies surface_in_order(after, j) by {
        assert(after.surfaces@[j as int] == destroyed_surface(mid, id, j as int));
        assert(j != id);
        assert(surface_in_order(mid, j));
        assert(after.is_subsurface(j) == mid.is_subsurface(j));
        if mid.is_subsurface(j) {
            let i = lemma_place(mid, j);
            let p = mid.subsurface(j).parent->0;
            assert(after.surfaces@[p as int].pending_state == mid.surfaces@[p as int].pending_state);
            assert(stands_at(after, j, i));
        }
    }
    assert forall|p: usize| #![trigger stack_current(after, p)] matters(after, p) implies stack_current(after, p) by {
        assert(after.surfaces@[p as int].pending_state == mid.surfaces@[p as int].pending_state);
        if after.surfaces@[p as int].current is None {
            let s = choose|s: usize| is_child(after, s, p);
            assert(is_child(mid, s, p));
        }
        assert(matters(mid, p));
        assert(stack_current(mid, p));
        let entries = stack_entries(mid.surfaces@[p as int].pending_state.stack);
        assert forall|i: int| #![trigger entries[i]] 0 <= i < entries.len() && entries[i].1 is Subsurface implies entry_current(
            after,
            p,
            i,
        ) by {
            assert(entry_current(mid, p, i));
            let s = mid.shell.states()[entries[i].1->token].surface;
            assert(is_child(after, s, p));
            assert(after.is_subsurface(s) == mid.is_subsurface(s));
            assert(s != id);
            assert(after.surfaces@[s as int].current == mid.surfaces@[s as int].current);
        }
    }
    assert forall|s: usize| #![trigger after.is_subsurface(s)] s < after.surfaces@.len() && after.is_subsurface(s) implies after.surfaces@[s as int].current is Some by {
        assert(mid.is_subsurface(s));
        assert(s != id);
        assert(after.surfaces@[s as int].current == mid.surfaces@[s as int].current);
    }
}

/// Destroying a surface whose state is freed.
proof fn lemma_destroyed_freed<S: Shell>(mid: Scene<S>, after: Scene<S>, id: usize)
    requires
        in_order(mid),
        id < mid.surfaces@.len(),
        mid.surfaces@[id as int].current is Some,
        !mid.is_subsurface(id),
        after.shell.valid(),
        mid.shell.states()[mid.key(id)].spec_parent() is None,
        destroyed_surfaces(mid, after, id),
        destroyed(
            mid.shell.states(),
            after.shell.states(),
            mid.key(id),
            stack_entries(mid.surfaces@[id as int].pending_state.stack),
        ),
        forest(after.shell.states()),
        currents_kept(after),
    ensures
        in_order(after),
{
    let m = mid.shell.states();
    let m2 = after.shell.states();
    let current = mid.key(id);
    let list = stack_entries(mid.surfaces@[id as int].pending_state.stack);
    order_is_enough(mid, id);
    assert(surface_in_order(mid, id));
    assert(stack_current(mid, id)) by {
        assert(matters(mid, id));
    }
    // The subsurfaces of the surface, and they alone, are subsurfaces no more.
    assert forall|s: usize| s < mid.surfaces@.len() implies #[trigger] lists_surface(m, list, list.len() as int, s as int) == is_child(
        mid,
        s,
        id,
    ) by {
        if lists_surface(m, list, list.len() as int, s as int) {
            let i = choose|i: int|
                #![trigger list[i]]
                0 <= i < list.len() && list[i].1 is Subsurface && m[list[i].1->token].surface == s;
            assert(entry_current(mid, id, i));
        }
        if is_child(mid, s, id) {
            let i = lemma_place(mid, s);
            assert(list[i].1->token == mid.key(s));
            assert(m[list[i].1->token].surface == s);
        }
    }
    assert forall|s: usize| #![trigger after.is_subsurface(s)] s < mid.surfaces@.len() implies after.is_subsurface(s) == (
    mid.is_subsurface(s) && !is_child(mid, s, id)) && (after.is_subsurface(s) ==> after.subsurface(s) == mid.subsurface(s)) by {
        assert(after.surfaces@[s as int] == destroyed_surface(mid, id, s as int));
        assert(lists_surface(m, list, list.len() as int, s as int) == is_child(mid, s, id));
    }
    assert forall|s: usize, p: usize| #[trigger] is_child(after, s, p) == (is_child(mid, s, p) && p != id) by {
        assert(after.is_subsurface(s) == after.is_subsurface(s));
    }
    assert forall|j: usize| #![trigger after.surfaces@[j as int]] j < mid.surfaces@.len() implies after.surfaces@[j as int].pending_state.stack
        == mid.surfaces@[j as int].pending_state.stack && (j != id ==> after.surfaces@[j as int].current
        == mid.surfaces@[j as int].current && after.surfaces@[j as int].pending_state
        == mid.surfaces@[j as int].pending_state) by {
        assert(after.surfaces@[j as int] == destroyed_surface(mid, id, j as int));
    }
    assert forall|j: usize| #![trigger surface_in_order(after, j)] j < after.surfaces@.len()
        && after.surfaces@[j as int].current is Some implies surface_in_order(after, j) by {
        assert(after.surfaces@[j as int] == destroyed_surface(mid, id, j as int));
        assert(j != id);
        lemma_destroyed_surface(mid, after, id, j);
        assert(surface_in_order(mid, j));
        let k = mid.key(j);
        assert(after.key(j) == k);
        assert(m2.contains_key(k));
        assert(after.is_subsurface(j) ==> mid.is_subsurface(j));
        if after.is_subsurface(j) {
            let i = lemma_place(mid, j);
            let p = mid.subsurface(j).parent->0;
            assert(p != id);
            assert(after.surfaces@[p as int].pending_state == mid.surfaces@[p as int].pending_state);
            assert(stands_at(after, j, i));
        }
    }
    assert forall|p: usize| #![trigger stack_current(after, p)] matters(after, p) implies stack_current(after, p) by {
        assert(after.surfaces@[p as int].pending_state.stack == mid.surfaces@[p as int].pending_state.stack);
        if after.surfaces@[p as int].current is None {
            let s = choose|s: usize| is_child(after, s, p);
            assert(is_child(mid, s, p));
        }
        assert(p != id) by {
            assert(after.surfaces@[id as int] == destroyed_surface(mid, id, id as int));
        }
        assert(matters(mid, p));
        assert(stack_current(mid, p));
        let entries = stack_entries(mid.surfaces@[p as int].pending_state.stack);
        assert forall|i: int| #![trigger entries[i]] 0 <= i < entries.len() && entries[i].1 is Subsurface implies entry_current(
            after,
            p,
            i,
        ) by {
            assert(entry_current(mid, p, i));
            let c = entries[i].1->token;
            let s = m[c].surface;
            assert(is_child(after, s, p));
            assert(after.is_subsurface(s) == (mid.is_subsurface(s) && !is_child(mid, s, id)));
            assert(s != id);
            assert(after.surfaces@[s as int].current == mid.surfaces@[s as int].current);
            assert(surface_in_order(mid, s));
            assert(after.key(s) == c);
            assert(m2.contains_key(c) && m.contains_key(c));
        }
    }
    assert forall|s: usize| #![trigger after.is_subsurface(s)] s < after.surfaces@.len() && after.is_subsurface(s) implies after.surfaces@[s as int].current is Some by {
        assert(mid.is_subsurface(s));
        assert(s != id);
        assert(after.surfaces@[s as int].current == mid.surfaces@[s as int].current);
    }
}

/// The pending state of another surface can still be committed.
proof fn lemma_destroyed_surface<S: Shell>(mid: Scene<S>, after: Scene<S>, id: usize, j: usize)
    requires
        in_order(mid),
        id < mid.surfaces@.len(),
        mid.surfaces@[id as int].current is Some,
        !mid.is_subsurface(id),
        mid.shell.states()[mid.key(id)].spec_parent() is None,
        destroyed_surfaces(mid, after, id),
        destroyed(
            mid.shell.states(),
            after.shell.states(),
            mid.key(id),
            stack_entries(mid.surfaces@[id as int].pending_state.stack),
        ),
        currents_kept(after),
        j < mid.surfaces@.len(),
        j != id,
        mid.surfaces@[j as int].current is Some,
    ensures
        after.committable(j),
{
    let m = mid.shell.states();
    let m2 = after.shell.states();
    let current = mid.key(id);
    let list = stack_entries(mid.surfaces@[id as int].pending_state.stack);
    order_is_enough(mid, id);
    order_is_enough(mid, j);
    assert(after.surfaces@[j as int] == destroyed_surface(mid, id, j as int));
    let k = mid.key(j);
    assert(after.key(j) == k);
    assert(m2.contains_key(k) && m.contains_key(k));
    assert(stack_current(mid, j)) by {
        assert(matters(mid, j));
    }
    let pending = mid.surfaces@[j as int].pending_state;
    let entries = stack_entries(pending.stack);
    assert forall|i: int| #![trigger entries[i]] 0 <= i < entries.len() && entries[i].1 is Subsurface implies ({
        let c = entries[i].1->token;
        &&& m2.contains_key(c)
        &&& m2[c].is_subsurface()
        &&& m2[c].spec_parent() is Some ==> has_parent(m2, c)
    }) by {
        let c = entries[i].1->token;
        assert(entry_current(mid, j, i));
        let s = m[c].surface;
        assert(s != id);
        assert(after.surfaces@[s as int] == destroyed_surface(mid, id, s as int));
        assert(after.key(s) == c);
        assert(m2.contains_key(c) && m.contains_key(c));
        if m2[c].spec_parent() is Some {
            if shown(m, list, c) && (freeable(m, current).contains(c) || m[c].spec_parent() is None) {
                let a = choose|a: u64| shown(m, list, a) && #[trigger] has_child(m, a, c) && m2[c].spec_parent() == Some(a);
                let b = choose|b: u64| #[trigger] listed(list, b) && reaches(m, b, a);
                assert(m.contains_key(b));
                lemma_reach_live(m, b, a);
                assert(m2.contains_key(a));
                let x = choose|x: int| child_at(m, a, c, x);
                assert(child_at(m2, a, c, x));
            } else {
                let p = m[c].spec_parent()->0;
                assert(has_parent(m, c));
                let x = choose|x: int| child_at(m, p, c, x);
                assert(state_linked(m, p));
                if freeable(m, current).contains(p) {
                    assert(releases(m, p, c));
                    lemma_released_step(m, current, p, c);
                    assert(freeable(m, current).contains(c));
                    assert(shown(m, list, c));
                }
                assert(m2.contains_key(p));
                assert(child_at(m2, p, c, x));
            }
        }
    }
}

} // verus!
