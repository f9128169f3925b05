//! What keeps a commit from freeing what is still in use.
//!
//! As long as no surface is destroyed and no subsurface gives up its role, a commit
//! frees neither the current state of a surface nor what another state shows.
use vstd::prelude::*;
use crate::shell::attach::{attach_done, has_subsurface_role, is_root, new_surface, parent_link, root_within, rooted};
use crate::shell::order::{
    attach_keeps_order, commit_keeps_order, currents_kept, entry_current, in_order, is_child, lemma_commit_roles, lemma_new_linked,
    lemma_parent_stays, lemma_place, matters, new_keeps_order, order_is_enough, same_places, same_places_keep_order, stack_current, surface_in_order,
};
use crate::shell::roles::RoleState;
use crate::shell::scene::{commit_done, no_other_holder, Scene, Surface};
use crate::shell::stack::stack_entries;
use crate::shell::surface::{
    adopted, child_at, entries_of, freeable, has_child, has_parent, lemma_reach_live, lemma_reach_parent,
    lemma_reach_step, linked, reaches, released_by, releases, state_linked, States, SurfaceState,
};
use crate::shell::tree::{link, visible};
use crate::shell::Shell;

verus! {

/// Each state belongs to a surface that was not destroyed, and is not younger than
/// the current state of the surface.
pub open spec fn states_owned<S: Shell>(scene: Scene<S>) -> bool {
    let m = scene.shell.states();
    forall|t: u64| #[trigger]
        m.contains_key(t) ==> {
            let s = m[t].surface;
            &&& s < scene.surfaces@.len()
            &&& scene.surfaces@[s as int].current is Some
            &&& t <= scene.key(s)
        }
}

/// The surface has not given up its role as a subsurface, its current and its pending
/// state are those of a subsurface only if it is one, and following its parents comes
/// to an end.
pub open spec fn role_kept<S: Shell>(scene: Scene<S>, s: usize) -> bool {
    &&& has_subsurface_role(scene.surfaces@, s as int) ==> scene.is_subsurface(s)
    &&& !scene.is_subsurface(s) ==> {
        &&& !scene.shell.states()[scene.key(s)].is_subsurface()
        &&& !(scene.surfaces@[s as int].pending_state.role_state matches Some(RoleState::Subsurface(_)))
    }
    &&& rooted(scene.surfaces@, s as int)
}

/// No surface has given up its role as a subsurface.
pub open spec fn roles_kept<S: Shell>(scene: Scene<S>) -> bool {
    forall|s: usize|
        #![trigger role_kept(scene, s)]
        s < scene.surfaces@.len() && scene.surfaces@[s as int].current is Some ==> role_kept(scene, s)
}

/// The states in the stack of a state are those of subsurfaces of its surface.
pub open spec fn children_listed<S: Shell>(scene: Scene<S>) -> bool {
    let m = scene.shell.states();
    forall|t: u64, c: u64|
        m.contains_key(t) && #[trigger] has_child(m, t, c) ==> is_child(scene, m[c].surface, m[t].surface)
}

/// A subsurface has the same place in all stacks that hold one of its states.
pub open spec fn places_kept<S: Shell>(scene: Scene<S>) -> bool {
    let m = scene.shell.states();
    forall|t: u64, c: u64, i: int|
        m.contains_key(t) && #[trigger] child_at(m, t, c, i) ==> scene.subsurface(m[c].surface).stack_index
            == entries_of(m, t)[i].0
}

/// A stack holds no more than one state of each surface.
pub open spec fn one_each(m: States) -> bool {
    forall|t: u64, a: u64, b: u64|
        m.contains_key(t) && #[trigger] has_child(m, t, a) && #[trigger] has_child(m, t, b) && m[a].surface
            == m[b].surface ==> a == b
}

/// What is shown by a state of a surface is shown by later ones too, if not in the same
/// state then in a younger one.
pub open spec fn shown_on(m: States) -> bool {
    forall|t: u64, u: u64, c: u64|
        #![trigger has_child(m, t, c), m.contains_key(u)]
        m.contains_key(t) && m.contains_key(u) && t < u && m[t].surface == m[u].surface && has_child(m, t, c)
            ==> shows_newer(m, u, c)
}

/// The state `u` shows the surface of `c`, in the state `c` or a younger one.
pub open spec fn shows_newer(m: States, u: u64, c: u64) -> bool {
    exists|d: u64| #[trigger] has_child(m, u, d) && m[d].surface == m[c].surface && c <= d
}

/// States that are not current are held by a parent, and whoever has a parent stands
/// in its stack.
pub open spec fn old_states_held<S: Shell>(scene: Scene<S>) -> bool {
    let m = scene.shell.states();
    forall|t: u64| #[trigger]
        m.contains_key(t) ==> {
            &&& t != scene.key(m[t].surface) ==> m[t].spec_parent() is Some
            &&& m[t].spec_parent() is Some ==> has_parent(m, t)
        }
}

/// The parent of a state is the oldest state that has it in its stack.
pub open spec fn parents_oldest(m: States) -> bool {
    forall|t: u64, c: u64|
        m.contains_key(t) && #[trigger] has_child(m, t, c) && m[c].spec_parent() is Some ==> m[c].spec_parent()->0 <= t
}

/// What holds as long as no surface is destroyed and no subsurface gives up its role.
pub open spec fn settled<S: Shell>(scene: Scene<S>) -> bool {
    &&& in_order(scene)
    &&& states_owned(scene)
    &&& roles_kept(scene)
    &&& children_listed(scene)
    &&& places_kept(scene)
    &&& one_each(scene.shell.states())
    &&& shown_on(scene.shell.states())
    &&& old_states_held(scene)
    &&& parents_oldest(scene.shell.states())
}

/// A commit of the surface `id` that is not refused, in a settled scene.
spec fn settled_commit<S: Shell>(before: Scene<S>, after: Scene<S>, id: usize) -> bool {
    &&& settled(before)
    &&& id < before.surfaces@.len()
    &&& before.surfaces@[id as int].current is Some
    &&& !before.refuses(id)
    &&& commit_done(before, after, id)
}

/// The states, with the new one.
spec fn with_new<S: Shell>(before: Scene<S>, after: Scene<S>, id: usize) -> States {
    before.shell.states().insert(after.key(id), after.shell.states()[after.key(id)])
}

/// What the stack of the new state holds: the current states of the subsurfaces.
proof fn lemma_new_stack<S: Shell>(before: Scene<S>, after: Scene<S>, id: usize)
    requires
        settled_commit(before, after, id),
    ensures
        ({
            let m = before.shell.states();
            let mm = with_new(before, after, id);
            let n = after.key(id);
            &&& linked(mm)
            &&& !m.contains_key(n)
            &&& forall|t: u64| m.contains_key(t) ==> t < n
            &&& mm[n].surface == id
            &&& forall|t: u64, c: u64| m.contains_key(t) ==> #[trigger] has_child(mm, t, c) == has_child(m, t, c)
            &&& forall|c: u64| #[trigger]
                has_child(mm, n, c) ==> m.contains_key(c) && is_child(before, m[c].surface, id) && c == before.key(
                    m[c].surface,
                )
            &&& forall|s: usize| #[trigger] is_child(before, s, id) ==> has_child(mm, n, before.key(s))
        }),
{
    let m = before.shell.states();
    let mm = with_new(before, after, id);
    let n = after.key(id);
    let pending = before.surfaces@[id as int].pending_state;
    order_is_enough(before, id);
    lemma_new_linked(m, before.key(id), n, mm[n], pending);
    assert(surface_in_order(before, id));
    assert(!m.contains_key(n));
    assert forall|t: u64, c: u64| m.contains_key(t) implies #[trigger] has_child(mm, t, c) == has_child(m, t, c) by {
        if has_child(mm, t, c) {
            let i = choose|i: int| child_at(mm, t, c, i);
            assert(child_at(m, t, c, i));
        }
        if has_child(m, t, c) {
            let i = choose|i: int| child_at(m, t, c, i);
            assert(child_at(mm, t, c, i));
        }
    }
    let entries = stack_entries(pending.stack);
    assert(entries_of(mm, n) == entries);
    assert(stack_current(before, id)) by {
        assert(matters(before, id));
    }
    assert forall|c: u64| #[trigger] has_child(mm, n, c) implies m.contains_key(c) && is_child(before, m[c].surface, id)
        && c == before.key(m[c].surface) by {
        let i = choose|i: int| child_at(mm, n, c, i);
        assert(entries[i].1->token == c);
        assert(entry_current(before, id, i));
        assert(m.contains_key(c));
    }
    assert forall|s: usize| #[trigger] is_child(before, s, id) implies has_child(mm, n, before.key(s)) by {
        let i = lemma_place(before, s);
        assert(child_at(mm, n, before.key(s), i));
    }
}

/// Following the parents of a surface ends within some number of steps.
spec fn ends_within<S: Shell>(scene: Scene<S>, s: usize, steps: nat) -> bool {
    root_within(scene.surfaces@, s as int, steps) is Some
}

/// All states in stacks are those of subsurfaces.
spec fn all_children<S: Shell>(scene: Scene<S>, m: States) -> bool {
    &&& linked(m)
    &&& forall|t: u64, c: u64|
        m.contains_key(t) && #[trigger] has_child(m, t, c) ==> is_child(scene, m[c].surface, m[t].surface)
}

/// What is shown with a state is deeper down, by a number of steps that is returned.
proof fn lemma_depth<S: Shell>(scene: Scene<S>, m: States, a: u64, x: u64) -> (d: nat)
    requires
        all_children(scene, m),
        m.contains_key(a),
        reaches(m, a, x),
    ensures
        a != x ==> d >= 1,
        forall|k: nat| #[trigger]
            ends_within(scene, m[x].surface, k) ==> k >= d && ends_within(scene, m[a].surface, (k - d) as nat),
    decreases a,
{
    if a == x {
        0
    } else {
        let c = choose|c: u64| c < a && #[trigger] has_child(m, a, c) && reaches(m, c, x);
        assert(state_linked(m, a));
        let d = lemma_depth(scene, m, c, x);
        assert(is_child(scene, m[c].surface, m[a].surface));
        assert forall|k: nat| #[trigger] ends_within(scene, m[x].surface, k) implies k >= d + 1 && ends_within(
            scene,
            m[a].surface,
            (k - (d + 1)) as nat,
        ) by {
            assert(ends_within(scene, m[c].surface, (k - d) as nat));
        }
        d + 1
    }
}

/// A surface is not shown as part of itself.
proof fn lemma_no_cycle<S: Shell>(scene: Scene<S>, m: States, a: u64, x: u64)
    requires
        all_children(scene, m),
        m.contains_key(a),
        reaches(m, a, x),
        a != x,
        rooted(scene.surfaces@, m[a].surface as int),
    ensures
        m[x].surface != m[a].surface,
{
    if m[x].surface == m[a].surface {
        let d = lemma_depth(scene, m, a, x);
        let s = m[a].surface;
        let root = choose|root: usize| is_root(scene.surfaces@, s as int, root);
        let steps = choose|steps: nat| #[trigger] root_within(scene.surfaces@, s as int, steps) == Some(root);
        assert(ends_within(scene, s, steps));
        lemma_no_descent(scene, s, d, steps);
    }
}

/// There is no going down for ever.
proof fn lemma_no_descent<S: Shell>(scene: Scene<S>, s: usize, d: nat, steps: nat)
    requires
        d >= 1,
        forall|k: nat| #[trigger] ends_within(scene, s, k) ==> k >= d && ends_within(scene, s, (k - d) as nat),
    ensures
        !ends_within(scene, s, steps),
    decreases steps,
{
    if ends_within(scene, s, steps) {
        lemma_no_descent(scene, s, d, (steps - d) as nat);
    }
}

/// What is set free is shown.
proof fn lemma_released_reached(m: States, a: u64, x: u64)
    requires
        released_by(m, a, x),
    ensures
        reaches(m, a, x),
    decreases a,
{
    if a != x {
        let c = choose|c: u64| c < a && #[trigger] releases(m, a, c) && released_by(m, c, x);
        lemma_released_reached(m, c, x);
        assert(has_child(m, a, c));
    }
}

/// Whatever is set free with `a`, except `a`, is set free by something that is set free
/// with `a`.
proof fn lemma_released_parent(m: States, a: u64, x: u64) -> (p: u64)
    requires
        released_by(m, a, x),
        a != x,
    ensures
        released_by(m, a, p),
        releases(m, p, x),
        x < p <= a,
    decreases a,
{
    let b = choose|b: u64| b < a && #[trigger] releases(m, a, b) && released_by(m, b, x);
    if b == x {
        assert(released_by(m, a, a));
        a
    } else {
        lemma_released_parent(m, b, x)
    }
}

/// What is shown before a commit is shown after it, as long as no new state is in
/// between.
proof fn lemma_same_chain(m: States, mm: States, n: u64, a: u64, x: u64)
    requires
        linked(m),
        m.contains_key(a),
        forall|t: u64, c: u64| m.contains_key(t) ==> #[trigger] has_child(mm, t, c) == has_child(m, t, c),
        reaches(m, a, x),
    ensures
        reaches(mm, a, x),
        m.contains_key(x),
    decreases a,
{
    if a != x {
        let c = choose|c: u64| c < a && #[trigger] has_child(m, a, c) && reaches(m, c, x);
        assert(state_linked(m, a));
        lemma_same_chain(m, mm, n, c, x);
        assert(has_child(mm, a, c));
    }
}

/// What is known of all states, the new one among them.
proof fn lemma_all_children<S: Shell>(before: Scene<S>, after: Scene<S>, id: usize)
    requires
        settled_commit(before, after, id),
    ensures
        all_children(before, with_new(before, after, id)),
        rooted(before.surfaces@, id as int),
{
    lemma_new_stack(before, after, id);
    let m = before.shell.states();
    let mm = with_new(before, after, id);
    let n = after.key(id);
    assert(role_kept(before, id));
    assert forall|t: u64, c: u64| mm.contains_key(t) && #[trigger] has_child(mm, t, c) implies is_child(
        before,
        mm[c].surface,
        mm[t].surface,
    ) by {
        if t == n {
            assert(m.contains_key(c));
        } else {
            assert(has_child(m, t, c));
            assert(state_linked(mm, t));
            assert(c < t);
            assert(m[c].surface == mm[c].surface);
        }
    }
}

/// For what may be freed, a state of the same surface is shown with the new state, and
/// it is not older.
proof fn lemma_successor<S: Shell>(before: Scene<S>, after: Scene<S>, id: usize, a: u64, y: u64, x: u64) -> (r: u64)
    requires
        settled_commit(before, after, id),
        before.shell.states().contains_key(a),
        released_by(before.shell.states(), a, x),
        reaches(with_new(before, after, id), after.key(id), y),
        with_new(before, after, id)[y].surface == before.shell.states()[a].surface,
        a <= y,
    ensures
        reaches(with_new(before, after, id), after.key(id), r),
        with_new(before, after, id)[r].surface == before.shell.states()[x].surface,
        x <= r,
        before.shell.states().contains_key(x),
    decreases a,
{
    let m = before.shell.states();
    let mm = with_new(before, after, id);
    let n = after.key(id);
    lemma_new_stack(before, after, id);
    if a == x {
        y
    } else {
        let c = choose|c: u64| c < a && #[trigger] releases(m, a, c) && released_by(m, c, x);
        assert(has_child(m, a, c));
        assert(state_linked(m, a));
        assert(is_child(before, m[c].surface, m[a].surface));
        lemma_reach_live(mm, n, y);
        let z = if y == a {
            c
        } else if y == n {
            before.key(m[c].surface)
        } else {
            assert(m.contains_key(y));
            assert(shows_newer(m, y, c));
            choose|d: u64| #[trigger] has_child(m, y, d) && m[d].surface == m[c].surface && c <= d
        };
        if y == n {
            assert(has_child(mm, n, z));
            assert(m.contains_key(z) && z == before.key(m[z].surface));
            assert(m.contains_key(c));
            assert(c <= before.key(m[c].surface));
            assert(m[z].surface == m[c].surface) by {
                assert(surface_in_order(before, m[c].surface));
            }
        } else {
            assert(has_child(m, y, z));
            assert(has_child(mm, y, z));
            assert(state_linked(m, y));
        }
        assert(state_linked(mm, y));
        lemma_reach_step(mm, n, y, z);
        lemma_successor(before, after, id, c, z, x)
    }
}

/// A commit frees the current state of no surface.
proof fn lemma_currents_kept<S: Shell>(before: Scene<S>, after: Scene<S>, id: usize)
    requires
        settled_commit(before, after, id),
    ensures
        currents_kept(after),
{
    let m = before.shell.states();
    let mm = with_new(before, after, id);
    let n = after.key(id);
    let current = before.key(id);
    lemma_new_stack(before, after, id);
    order_is_enough(before, id);
    lemma_commit_roles(before, after, id);
    assert forall|j: usize| #![trigger after.key(j)] j < after.surfaces@.len() && after.surfaces@[j as int].current is Some implies after.shell.states().contains_key(
        after.key(j),
    ) by {
        if j != id {
            assert(after.surfaces@[j as int].current == before.surfaces@[j as int].current);
            let k = before.key(j);
            assert(surface_in_order(before, j));
            assert(m.contains_key(k));
            if freeable(m, current).contains(k) {
                assert(reaches(mm, n, n));
                assert(surface_in_order(before, id));
                let y = lemma_successor(before, after, id, current, n, k);
                lemma_reach_live(mm, n, y);
                assert(y != n);
                assert(y <= before.key(m[y].surface));
                assert(y == k);
            }
        }
    }
}

/// What may be freed with the current state of the surface `id` is no state of `id`,
/// except for that state itself.
proof fn lemma_freed_elsewhere<S: Shell>(before: Scene<S>, after: Scene<S>, id: usize, x: u64)
    requires
        settled_commit(before, after, id),
        released_by(before.shell.states(), before.key(id), x),
    ensures
        before.shell.states().contains_key(x),
        x != before.key(id) ==> before.shell.states()[x].surface != id,
{
    let m = before.shell.states();
    let mm = with_new(before, after, id);
    let current = before.key(id);
    lemma_new_stack(before, after, id);
    lemma_all_children(before, after, id);
    order_is_enough(before, id);
    assert(surface_in_order(before, id));
    lemma_released_reached(m, current, x);
    lemma_same_chain(m, mm, after.key(id), current, x);
    if x != current {
        lemma_no_cycle(before, mm, current, x);
    }
}

/// Of a surface of which `x` may be freed, what is shown with the new state is not
/// younger than any state `t` that is younger than `x`.
proof fn lemma_climb<S: Shell>(before: Scene<S>, after: Scene<S>, id: usize, x: u64, t: u64, y: u64)
    requires
        settled_commit(before, after, id),
        released_by(before.shell.states(), before.key(id), x),
        before.shell.states().contains_key(t),
        before.shell.states()[t].surface == before.shell.states()[x].surface,
        x < t,
        reaches(with_new(before, after, id), after.key(id), y),
        with_new(before, after, id)[y].surface == before.shell.states()[x].surface,
    ensures
        y <= t,
    decreases u64::MAX - x,
{
    let m = before.shell.states();
    let mm = with_new(before, after, id);
    let n = after.key(id);
    let current = before.key(id);
    lemma_new_stack(before, after, id);
    lemma_freed_elsewhere(before, after, id, x);
    order_is_enough(before, id);
    assert(surface_in_order(before, id));
    if x == current {
        assert(t <= before.key(m[t].surface));
    } else {
        let p = m[x].surface;
        assert(p != id);
        assert(y != n);
        lemma_reach_live(mm, n, y);
        assert(m.contains_key(y));
        if t == before.key(p) {
            assert(y <= before.key(m[y].surface));
        } else {
            assert(has_parent(m, t));
            let t1 = m[t].spec_parent()->0;
            let x1 = lemma_released_parent(m, current, x);
            lemma_freed_elsewhere(before, after, id, x1);
            let y1 = lemma_reach_parent(mm, n, y);
            lemma_reach_live(mm, n, y1);
            assert(has_child(m, x1, x));
            assert(is_child(before, p, m[x1].surface));
            assert(is_child(before, p, m[t1].surface));
            assert(is_child(before, p, mm[y1].surface)) by {
                lemma_all_children(before, after, id);
                assert(mm[y].surface == p);
            }
            assert(x1 < t1) by {
                if x1 == t1 {
                    assert(has_child(m, x1, t));
                    assert(x == t);
                } else if t1 < x1 {
                    assert(shows_newer(m, x1, t));
                    let d = choose|d: u64| #[trigger] has_child(m, x1, d) && m[d].surface == m[t].surface && t <= d;
                    assert(d == x);
                }
            }
            lemma_climb(before, after, id, x1, t1, y1);
            assert(y1 != n);
            assert(has_child(m, y1, y));
            if y1 == t1 {
                assert(y == t);
            } else {
                assert(shows_newer(m, t1, y));
                let d = choose|d: u64| #[trigger] has_child(m, t1, d) && m[d].surface == m[y].surface && y <= d;
                assert(d == t);
            }
        }
    }
}

/// Where `x` and `t` show the same state, so does what is in between.
proof fn lemma_between(m: States, x: u64, y: u64, t: u64, c: u64)
    requires
        one_each(m),
        shown_on(m),
        m.contains_key(x),
        m.contains_key(y),
        m.contains_key(t),
        m[x].surface == m[y].surface,
        m[t].surface == m[y].surface,
        x <= y < t,
        has_child(m, x, c),
        has_child(m, t, c),
    ensures
        has_child(m, y, c),
{
    if x < y {
        assert(shows_newer(m, y, c));
        let d = choose|d: u64| #[trigger] has_child(m, y, d) && m[d].surface == m[c].surface && c <= d;
        assert(shows_newer(m, t, d));
        let e = choose|e: u64| #[trigger] has_child(m, t, e) && m[e].surface == m[d].surface && d <= e;
        assert(e == c);
    }
}

/// What sets a state free that is shown by `t`: a state of the same surface as `t`,
/// which is not younger.
proof fn lemma_releaser<S: Shell>(before: Scene<S>, after: Scene<S>, id: usize, t: u64, c: u64) -> (x: u64)
    requires
        settled_commit(before, after, id),
        before.shell.states().contains_key(t),
        has_child(before.shell.states(), t, c),
        freeable(before.shell.states(), before.key(id)).contains(c),
    ensures
        freeable(before.shell.states(), before.key(id)).contains(x),
        has_child(before.shell.states(), x, c),
        before.shell.states()[x].surface == before.shell.states()[t].surface,
        x <= t,
{
    let m = before.shell.states();
    let current = before.key(id);
    assert(has_parent(m, c));
    assert(c != current);
    let x = lemma_released_parent(m, current, c);
    lemma_freed_elsewhere(before, after, id, x);
    assert(has_child(m, x, c));
    assert(m[c].spec_parent() == Some(x));
    assert(is_child(before, m[c].surface, m[x].surface));
    assert(is_child(before, m[c].surface, m[t].surface));
    x
}

/// What is shown with the new state of a surface of which `x` may be freed, where `t` is
/// younger.
proof fn lemma_shown_between<S: Shell>(before: Scene<S>, after: Scene<S>, id: usize, x: u64, t: u64) -> (y: u64)
    requires
        settled_commit(before, after, id),
        freeable(before.shell.states(), before.key(id)).contains(x),
        before.shell.states().contains_key(t),
        before.shell.states()[x].surface == before.shell.states()[t].surface,
        x < t,
    ensures
        reaches(with_new(before, after, id), after.key(id), y),
        x <= y <= t,
        before.shell.states().contains_key(y),
        before.shell.states()[y].surface == before.shell.states()[x].surface,
        linked(with_new(before, after, id)),
{
    let m = before.shell.states();
    let mm = with_new(before, after, id);
    let n = after.key(id);
    let current = before.key(id);
    lemma_new_stack(before, after, id);
    order_is_enough(before, id);
    assert(surface_in_order(before, id));
    assert(reaches(mm, n, n));
    let y = lemma_successor(before, after, id, current, n, x);
    lemma_climb(before, after, id, x, t, y);
    lemma_reach_live(mm, n, y);
    y
}

/// What a state shows is not freed without it.
proof fn lemma_held<S: Shell>(before: Scene<S>, after: Scene<S>, id: usize, t: u64, c: u64)
    requires
        settled_commit(before, after, id),
        before.shell.states().contains_key(t),
        has_child(before.shell.states(), t, c),
        freeable(before.shell.states(), before.key(id)).contains(c),
    ensures
        freeable(before.shell.states(), before.key(id)).contains(t) || reaches(
            with_new(before, after, id),
            after.key(id),
            t,
        ) || reaches(with_new(before, after, id), after.key(id), c),
{
    let m = before.shell.states();
    let mm = with_new(before, after, id);
    let n = after.key(id);
    let x = lemma_releaser(before, after, id, t, c);
    if x < t {
        let y = lemma_shown_between(before, after, id, x, t);
        if y < t {
            lemma_between(m, x, y, t, c);
            let i = choose|i: int| child_at(m, y, c, i);
            assert(y != n);
            assert(child_at(mm, y, c, i));
            assert(has_child(mm, y, c));
            lemma_reach_live(mm, n, y);
            assert(state_linked(mm, y));
            lemma_reach_step(mm, n, y, c);
        }
    }
}

/// What a state shows is not freed without it.
proof fn lemma_no_other_holder<S: Shell>(before: Scene<S>, after: Scene<S>, id: usize)
    requires
        settled_commit(before, after, id),
    ensures
        no_other_holder(
            before.shell.states(),
            before.key(id),
            after.key(id),
            after.shell.states()[after.key(id)],
        ),
{
    let m = before.shell.states();
    assert forall|t: u64, c: u64| m.contains_key(t) && #[trigger] has_child(m, t, c) && freeable(m, before.key(id)).contains(c) implies freeable(
        m,
        before.key(id),
    ).contains(t) || reaches(with_new(before, after, id), after.key(id), t) || reaches(
        with_new(before, after, id),
        after.key(id),
        c,
    ) by {
        lemma_held(before, after, id, t, c);
    }
}

/// In a settled scene, a commit keeps the current state of every surface, and whatever
/// a state shows that is kept. Surfaces stay in order.
pub proof fn commit_frees_nothing_in_use<S: Shell>(before: Scene<S>, after: Scene<S>, id: usize)
    requires
        settled(before),
        id < before.surfaces@.len(),
        before.surfaces@[id as int].current is Some,
        after.shell.valid(),
        commit_done(before, after, id),
    ensures
        in_order(after),
        !before.refuses(id) ==> currents_kept(after) && no_other_holder(
            before.shell.states(),
            before.key(id),
            after.key(id),
            after.shell.states()[after.key(id)],
        ),
{
    if !before.refuses(id) {
        lemma_currents_kept(before, after, id);
        lemma_no_other_holder(before, after, id);
    }
    commit_keeps_order(before, after, id);
}

/// What a commit leaves of the stacks and owners of states.
proof fn lemma_left<S: Shell>(before: Scene<S>, after: Scene<S>, id: usize)
    requires
        settled_commit(before, after, id),
    ensures
        ({
            let m = before.shell.states();
            let mm = with_new(before, after, id);
            let m2 = after.shell.states();
            let n = after.key(id);
            &&& forall|t: u64| #[trigger] m2.contains_key(t) ==> mm.contains_key(t) && m2[t].surface == mm[t].surface
            &&& forall|t: u64, c: u64| m2.contains_key(t) ==> #[trigger] has_child(m2, t, c) == has_child(mm, t, c)
            &&& m2.contains_key(n)
        }),
{
    let m = before.shell.states();
    let mm = with_new(before, after, id);
    let m2 = after.shell.states();
    let n = after.key(id);
    lemma_new_stack(before, after, id);
    assert forall|t: u64| #[trigger] m2.contains_key(t) implies mm.contains_key(t) && m2[t].surface == mm[t].surface
        && entries_of(m2, t) == entries_of(mm, t) by {
        if t != n {
            assert(m.contains_key(t));
        }
    }
    assert forall|t: u64, c: u64| m2.contains_key(t) implies #[trigger] has_child(m2, t, c) == has_child(mm, t, c) by {
        if has_child(mm, t, c) {
            let i = choose|i: int| child_at(mm, t, c, i);
            assert(child_at(m2, t, c, i));
        }
        if has_child(m2, t, c) {
            let i = choose|i: int| child_at(m2, t, c, i);
            assert(child_at(mm, t, c, i));
        }
    }
}

/// A commit keeps owners and roles.
proof fn lemma_commit_owned<S: Shell>(before: Scene<S>, after: Scene<S>, id: usize)
    requires
        settled_commit(before, after, id),
        in_order(after),
    ensures
        states_owned(after),
        roles_kept(after),
        children_listed(after),
{
    let m = before.shell.states();
    let mm = with_new(before, after, id);
    let m2 = after.shell.states();
    let n = after.key(id);
    lemma_new_stack(before, after, id);
    lemma_left(before, after, id);
    lemma_all_children(before, after, id);
    order_is_enough(before, id);
    assert(surface_in_order(before, id));
    lemma_commit_roles(before, after, id);
    assert forall|t: u64| #[trigger] m2.contains_key(t) implies ({
        let s = m2[t].surface;
        &&& s < after.surfaces@.len()
        &&& after.surfaces@[s as int].current is Some
        &&& t <= after.key(s)
    }) by {
        if t != n {
            assert(m.contains_key(t));
            let s = m[t].surface;
            if s != id {
                assert(after.surfaces@[s as int].current == before.surfaces@[s as int].current);
            }
        }
    }
    assert forall|t: u64, c: u64| m2.contains_key(t) && #[trigger] has_child(m2, t, c) implies is_child(
        after,
        m2[c].surface,
        m2[t].surface,
    ) by {
        assert(has_child(mm, t, c));
        assert(state_linked(m2, t));
        assert(m2.contains_key(c));
        assert(is_child(before, mm[c].surface, mm[t].surface));
    }
    assert forall|s: usize| #![trigger role_kept(after, s)] s < after.surfaces@.len() && after.surfaces@[s as int].current is Some implies role_kept(
        after,
        s,
    ) by {
        assert(before.surfaces@[s as int].current is Some) by {
            if s != id {
                assert(after.surfaces@[s as int].current == before.surfaces@[s as int].current);
            }
        }
        assert(role_kept(before, s));
        assert(after.is_subsurface(s) == before.is_subsurface(s));
        lemma_same_links(before, after, id);
        lemma_same_root(before.surfaces@, after.surfaces@, s as int);
        assert(after.surfaces@[s as int] == after.surfaces@[s as int]);
        if s != id {
            let k = before.key(s);
            assert(after.key(s) == k);
            assert(surface_in_order(before, s));
            assert(surface_in_order(after, s));
            assert(m.contains_key(k) && m2.contains_key(k));
        }
    }
}

/// The links between surfaces are the same after a commit.
proof fn lemma_same_links<S: Shell>(before: Scene<S>, after: Scene<S>, id: usize)
    requires
        settled_commit(before, after, id),
    ensures
        same_links(before.surfaces@, after.surfaces@),
{
    order_is_enough(before, id);
    assert(role_kept(before, id));
    assert forall|s: int| #![trigger after.surfaces@[s]] 0 <= s < after.surfaces@.len() implies has_subsurface_role(
        after.surfaces@,
        s,
    ) == has_subsurface_role(before.surfaces@, s) && parent_link(after.surfaces@, s) == parent_link(before.surfaces@, s) by {
    }
}

/// The links between surfaces are the same.
spec fn same_links(a: Seq<Surface>, b: Seq<Surface>) -> bool {
    &&& a.len() == b.len()
    &&& forall|s: int|
        #![trigger b[s]]
        0 <= s < b.len() ==> has_subsurface_role(b, s) == has_subsurface_role(a, s) && parent_link(b, s) == parent_link(a, s)
}

/// Where the links are the same, they end alike.
proof fn lemma_same_root(a: Seq<Surface>, b: Seq<Surface>, s: int)
    requires
        same_links(a, b),
        rooted(a, s),
    ensures
        rooted(b, s),
{
    let root = choose|root: usize| is_root(a, s, root);
    let steps = choose|steps: nat| #[trigger] root_within(a, s, steps) == Some(root);
    lemma_same_root_within(a, b, s, steps);
    assert(is_root(b, s, root));
}

/// Where the links are the same, they end alike.
proof fn lemma_same_root_within(a: Seq<Surface>, b: Seq<Surface>, s: int, steps: nat)
    requires
        same_links(a, b),
    ensures
        root_within(b, s, steps) == root_within(a, s, steps),
    decreases steps,
{
    if steps > 0 && 0 <= s < a.len() {
        assert(b[s] == b[s]);
        if has_subsurface_role(a, s) && parent_link(a, s) is Some {
            lemma_same_root_within(a, b, parent_link(a, s)->0 as int, (steps - 1) as nat);
        }
    }
}

/// A commit keeps the places of subsurfaces.
proof fn lemma_commit_places<S: Shell>(before: Scene<S>, after: Scene<S>, id: usize)
    requires
        settled_commit(before, after, id),
        in_order(after),
    ensures
        places_kept(after),
{
    let m = before.shell.states();
    let mm = with_new(before, after, id);
    let m2 = after.shell.states();
    let n = after.key(id);
    lemma_new_stack(before, after, id);
    lemma_left(before, after, id);
    order_is_enough(before, id);
    lemma_commit_roles(before, after, id);
    let entries = stack_entries(before.surfaces@[id as int].pending_state.stack);
    assert(stack_current(before, id)) by {
        assert(matters(before, id));
    }
    assert forall|t: u64, c: u64, i: int| m2.contains_key(t) && #[trigger] child_at(m2, t, c, i) implies after.subsurface(
        m2[c].surface,
    ).stack_index == entries_of(m2, t)[i].0 by {
        assert(has_child(m2, t, c));
        assert(state_linked(m2, t));
        assert(m2.contains_key(c) && c < t);
        let s = m2[c].surface;
        if t == n {
            assert(entries_of(m2, n) == entries);
            assert(entries[i].1->token == c);
            assert(entry_current(before, id, i));
            assert(m.contains_key(c) && m[c].surface == s);
        } else {
            assert(m.contains_key(t) && m.contains_key(c));
            assert(entries_of(m2, t) == entries_of(m, t));
            assert(child_at(m, t, c, i));
            assert(has_child(m, t, c));
            assert(is_child(before, s, m[t].surface));
        }
        assert(after.is_subsurface(s) == before.is_subsurface(s));
    }
}

/// A commit keeps what stacks show.
proof fn lemma_commit_shown<S: Shell>(before: Scene<S>, after: Scene<S>, id: usize)
    requires
        settled_commit(before, after, id),
        in_order(after),
    ensures
        one_each(after.shell.states()),
        shown_on(after.shell.states()),
{
    let m = before.shell.states();
    let mm = with_new(before, after, id);
    let m2 = after.shell.states();
    let n = after.key(id);
    lemma_new_stack(before, after, id);
    lemma_left(before, after, id);
    assert forall|t: u64, c: u64| m2.contains_key(t) && #[trigger] has_child(m2, t, c) implies m2.contains_key(c) && c < t
        && m.contains_key(c) && m2[c].surface == m[c].surface by {
        assert(state_linked(m2, t));
        assert(m2.contains_key(c));
        assert(has_child(mm, t, c));
        assert(c != n) by {
            if c == n {
                assert(m.contains_key(t));
            }
        }
    }
    assert forall|t: u64, a: u64, b: u64| m2.contains_key(t) && #[trigger] has_child(m2, t, a) && #[trigger] has_child(
        m2,
        t,
        b,
    ) && m2[a].surface == m2[b].surface implies a == b by {
        assert(has_child(mm, t, a) && has_child(mm, t, b));
        if t != n {
            assert(m.contains_key(t));
            assert(has_child(m, t, a) && has_child(m, t, b));
        }
    }
    assert forall|t: u64, u: u64, c: u64| #![trigger has_child(m2, t, c), m2.contains_key(u)] m2.contains_key(t)
        && m2.contains_key(u) && t < u && m2[t].surface == m2[u].surface && has_child(m2, t, c) implies shows_newer(m2, u, c) by {
        assert(mm.contains_key(u));
        assert(t != n);
        assert(m.contains_key(t));
        assert(has_child(mm, t, c));
        assert(has_child(m, t, c));
        if u == n {
            let s = m[c].surface;
            assert(is_child(before, s, m[t].surface));
            assert(has_child(mm, n, before.key(s)));
            assert(has_child(m2, n, before.key(s)));
            assert(c <= before.key(s));
            assert(m[before.key(s)].surface == s) by {
                assert(surface_in_order(before, s));
            }
        } else {
            assert(m.contains_key(u));
            assert(shows_newer(m, u, c));
            let d = choose|d: u64| #[trigger] has_child(m, u, d) && m[d].surface == m[c].surface && c <= d;
            assert(has_child(mm, u, d));
            assert(has_child(m2, u, d));
        }
    }
}

/// After a commit, states that are not current are held by a parent.
proof fn lemma_commit_held<S: Shell>(before: Scene<S>, after: Scene<S>, id: usize)
    requires
        settled_commit(before, after, id),
        in_order(after),
        states_owned(after),
    ensures
        old_states_held(after),
{
    let m = before.shell.states();
    let mm = with_new(before, after, id);
    let m2 = after.shell.states();
    let n = after.key(id);
    let current = before.key(id);
    lemma_new_stack(before, after, id);
    lemma_left(before, after, id);
    order_is_enough(before, id);
    assert(surface_in_order(before, id));
    lemma_commit_roles(before, after, id);
    assert forall|t: u64| #[trigger] m2.contains_key(t) implies (t != after.key(m2[t].surface) ==> m2[t].spec_parent() is Some)
        && (m2[t].spec_parent() is Some ==> has_parent(m2, t)) by {
        if t == n {
            assert(m2[n].surface == id);
            assert(m2[n].spec_parent() is None) by {
                lemma_new_parent(before, after, id);
            }
        } else {
            assert(m.contains_key(t));
            lemma_parent_stays(m, m2, current, n, t);
            let s = m[t].surface;
            if t != after.key(s) && m2[t].spec_parent() is None {
                assert(m[t].spec_parent() is None) by {
                    if m[t].spec_parent() is Some {
                        if reaches(mm, n, t) && freeable(m, current).contains(t) {
                            assert(adopted(mm, m2, n, t));
                        }
                    }
                }
                assert(t == before.key(s));
                assert(s == id) by {
                    if s != id {
                        assert(after.surfaces@[s as int].current == before.surfaces@[s as int].current);
                    }
                }
                assert(released_by(m, current, current));
                assert(freeable(m, current).contains(t));
                assert(reaches(mm, n, t));
                assert(adopted(mm, m2, n, t));
            }
        }
    }
}

/// The new state has no parent.
proof fn lemma_new_parent<S: Shell>(before: Scene<S>, after: Scene<S>, id: usize)
    requires
        settled_commit(before, after, id),
    ensures
        after.shell.states()[after.key(id)].spec_parent() is None,
{
    assert(role_kept(before, id));
}

/// Of each surface, at most one state is shown with the new state.
proof fn lemma_one_shown<S: Shell>(before: Scene<S>, after: Scene<S>, id: usize, y: u64, z: u64)
    requires
        settled_commit(before, after, id),
        reaches(with_new(before, after, id), after.key(id), y),
        reaches(with_new(before, after, id), after.key(id), z),
        with_new(before, after, id)[y].surface == with_new(before, after, id)[z].surface,
    ensures
        y == z,
    decreases after.key(id) - y,
{
    let m = before.shell.states();
    let mm = with_new(before, after, id);
    let n = after.key(id);
    lemma_new_stack(before, after, id);
    lemma_all_children(before, after, id);
    if y == n || z == n {
        if y != n {
            lemma_no_cycle(before, mm, n, y);
        }
        if z != n {
            lemma_no_cycle(before, mm, n, z);
        }
    } else {
        let y1 = lemma_reach_parent(mm, n, y);
        let z1 = lemma_reach_parent(mm, n, z);
        lemma_reach_live(mm, n, y1);
        lemma_reach_live(mm, n, z1);
        assert(is_child(before, mm[y].surface, mm[y1].surface));
        assert(is_child(before, mm[z].surface, mm[z1].surface));
        lemma_one_shown(before, after, id, y1, z1);
        if y1 != n {
            assert(has_child(m, y1, y) && has_child(m, y1, z));
            assert(state_linked(m, y1));
        }
    }
}

/// After a commit, the parent of a state is still the oldest one.
proof fn lemma_commit_oldest<S: Shell>(before: Scene<S>, after: Scene<S>, id: usize, t: u64, c: u64)
    requires
        settled_commit(before, after, id),
        in_order(after),
        old_states_held(after),
        after.shell.states().contains_key(t),
        has_child(after.shell.states(), t, c),
        after.shell.states()[c].spec_parent() is Some,
    ensures
        after.shell.states()[c].spec_parent()->0 <= t,
{
    let m = before.shell.states();
    let mm = with_new(before, after, id);
    let m2 = after.shell.states();
    let n = after.key(id);
    let current = before.key(id);
    lemma_new_stack(before, after, id);
    lemma_left(before, after, id);
    assert(state_linked(m2, t));
    assert(m2.contains_key(c) && c < t);
    assert(has_parent(m2, c));
    let parent = m2[c].spec_parent()->0;
    assert(mm.contains_key(parent));
    if t != n {
        assert(m.contains_key(t) && m.contains_key(c));
        assert(has_child(mm, t, c));
        assert(has_child(m, t, c));
        assert(has_parent(m, c));
        if reaches(mm, n, c) && freeable(m, current).contains(c) {
            assert(adopted(mm, m2, n, c));
            lemma_adopted_oldest(before, after, id, t, c, parent);
        }
    }
}

/// The parent that takes over a state is not younger than another one that shows it.
proof fn lemma_adopted_oldest<S: Shell>(before: Scene<S>, after: Scene<S>, id: usize, t: u64, c: u64, a: u64)
    requires
        settled_commit(before, after, id),
        before.shell.states().contains_key(t),
        before.shell.states().contains_key(c),
        after.shell.states().contains_key(t),
        has_child(before.shell.states(), t, c),
        freeable(before.shell.states(), before.key(id)).contains(c),
        reaches(with_new(before, after, id), after.key(id), a),
        has_child(with_new(before, after, id), a, c),
    ensures
        a <= t,
{
    let m = before.shell.states();
    let mm = with_new(before, after, id);
    let n = after.key(id);
    lemma_new_stack(before, after, id);
    lemma_all_children(before, after, id);
    lemma_reach_live(mm, n, a);
    let x = lemma_releaser(before, after, id, t, c);
    assert(c != n && t != n);
    assert(is_child(before, m[c].surface, m[t].surface));
    assert(is_child(before, mm[c].surface, mm[a].surface));
    if x < t {
        lemma_climb(before, after, id, x, t, a);
    } else {
        assert(reaches(mm, n, t));
        lemma_one_shown(before, after, id, a, t);
    }
}

/// A commit keeps a scene settled, and frees nothing that is in use.
pub proof fn commit_keeps_settled<S: Shell>(before: Scene<S>, after: Scene<S>, id: usize)
    requires
        settled(before),
        id < before.surfaces@.len(),
        before.surfaces@[id as int].current is Some,
        after.shell.valid(),
        commit_done(before, after, id),
    ensures
        settled(after),
{
    commit_frees_nothing_in_use(before, after, id);
    if before.refuses(id) {
        same_places_keep_settled(before, after);
    } else {
        lemma_commit_owned(before, after, id);
        lemma_commit_places(before, after, id);
        lemma_commit_shown(before, after, id);
        lemma_commit_held(before, after, id);
        let m2 = after.shell.states();
        assert forall|t: u64, c: u64| m2.contains_key(t) && #[trigger] has_child(m2, t, c) && m2[c].spec_parent() is Some implies m2[c].spec_parent()->0
            <= t by {
            lemma_commit_oldest(before, after, id, t, c);
        }
    }
}

/// What leaves all surfaces where they are keeps a scene settled.
pub proof fn same_places_keep_settled<S: Shell>(before: Scene<S>, after: Scene<S>)
    requires
        settled(before),
        after.shell.valid(),
        same_places(before, after),
    ensures
        settled(after),
{
    let m = before.shell.states();
    same_places_keep_order(before, after);
    assert forall|s: usize| #![trigger after.is_subsurface(s)] s < before.surfaces@.len() implies after.is_subsurface(s)
        == before.is_subsurface(s) && (before.is_subsurface(s) ==> after.subsurface(s) == before.subsurface(s)) by {
        assert(after.surfaces@[s as int] == after.surfaces@[s as int]);
    }
    assert(same_links(before.surfaces@, after.surfaces@)) by {
        assert forall|s: int| #![trigger after.surfaces@[s]] 0 <= s < after.surfaces@.len() implies has_subsurface_role(
            after.surfaces@,
            s,
        ) == has_subsurface_role(before.surfaces@, s) && parent_link(after.surfaces@, s) == parent_link(
            before.surfaces@,
            s,
        ) by {
            assert(after.surfaces@.len() == after.surfaces.len());
            assert(after.surfaces@[(s as usize) as int] == after.surfaces@[s]);
        }
    }
    assert forall|s: usize, p: usize| #[trigger] is_child(after, s, p) == is_child(before, s, p) by {
        assert(after.is_subsurface(s) == after.is_subsurface(s));
    }
    assert forall|s: usize| #![trigger role_kept(after, s)] s < after.surfaces@.len() && after.surfaces@[s as int].current is Some implies role_kept(
        after,
        s,
    ) by {
        assert(role_kept(before, s));
        assert(after.is_subsurface(s) == before.is_subsurface(s));
        lemma_same_root(before.surfaces@, after.surfaces@, s as int);
    }
    assert forall|t: u64| #[trigger] m.contains_key(t) implies after.key(m[t].surface) == before.key(m[t].surface) by {
        assert(after.surfaces@[m[t].surface as int].current == before.surfaces@[m[t].surface as int].current);
    }
    assert(states_owned(after)) by {
        assert forall|t: u64| #[trigger] m.contains_key(t) implies ({
            let s = m[t].surface;
            &&& s < after.surfaces@.len()
            &&& after.surfaces@[s as int].current is Some
            &&& t <= after.key(s)
        }) by {
            assert(after.surfaces@[m[t].surface as int].current == before.surfaces@[m[t].surface as int].current);
        }
    }
    assert(children_listed(after)) by {
        assert forall|t: u64, c: u64| m.contains_key(t) && #[trigger] has_child(m, t, c) implies is_child(
            after,
            m[c].surface,
            m[t].surface,
        ) by {
            assert(is_child(before, m[c].surface, m[t].surface));
        }
    }
    assert(places_kept(after)) by {
        assert forall|t: u64, c: u64, i: int| m.contains_key(t) && #[trigger] child_at(m, t, c, i) implies after.subsurface(
            m[c].surface,
        ).stack_index == entries_of(m, t)[i].0 by {
            assert(has_child(m, t, c));
            assert(is_child(before, m[c].surface, m[t].surface));
            assert(after.is_subsurface(m[c].surface));
        }
    }
}

/// A scene without surfaces is settled.
pub proof fn empty_is_settled<S: Shell>(scene: Scene<S>)
    requires
        scene.shell.valid(),
        scene.shell.states() == Map::<u64, SurfaceState>::empty(),
        scene.surfaces@.len() == 0,
    ensures
        settled(scene),
{
}

/// A new surface keeps a scene settled.
pub proof fn new_keeps_settled<S: Shell>(before: Scene<S>, after: Scene<S>, object_id: u32)
    requires
        settled(before),
        before.surfaces@.len() < usize::MAX,
        after.shell.valid(),
        new_surface(before, after, object_id),
    ensures
        settled(after),
{
    let m = before.shell.states();
    let m2 = after.shell.states();
    let new = before.surfaces@.len() as usize;
    let key = after.key(new);
    new_keeps_order(before, after, object_id);
    assert(!m.contains_key(key));
    assert forall|s: usize| s < before.surfaces@.len() implies #[trigger] after.surfaces@[s as int] == before.surfaces@[s as int] by {}
    assert forall|t: u64, c: u64| m2.contains_key(t) && #[trigger] has_child(m2, t, c) implies t != key && has_child(m, t, c)
        && m.contains_key(c) by {
        let i = choose|i: int| child_at(m2, t, c, i);
        if t == key {
            assert(entries_of(m2, t).len() == 1);
        } else {
            assert(child_at(m, t, c, i));
            assert(state_linked(m, t));
        }
    }
    assert forall|t: u64| #[trigger] m.contains_key(t) implies after.key(m[t].surface) == before.key(m[t].surface) by {
        assert(after.surfaces@[m[t].surface as int] == before.surfaces@[m[t].surface as int]);
    }
    assert(states_owned(after)) by {
        assert forall|t: u64| #[trigger] m2.contains_key(t) implies ({
            let s = m2[t].surface;
            &&& s < after.surfaces@.len()
            &&& after.surfaces@[s as int].current is Some
            &&& t <= after.key(s)
        }) by {
            if t != key {
                assert(m.contains_key(t));
                assert(after.surfaces@[m[t].surface as int] == before.surfaces@[m[t].surface as int]);
            }
        }
    }
    assert(roles_kept(after)) by {
        assert forall|s: usize| #![trigger role_kept(after, s)] s < after.surfaces@.len() && after.surfaces@[s as int].current is Some implies role_kept(
            after,
            s,
        ) by {
            if s == new {
                assert(root_within(after.surfaces@, s as int, 1) == Some(s));
                assert(is_root(after.surfaces@, s as int, s));
            } else {
                assert(after.surfaces@[s as int] == before.surfaces@[s as int]);
                assert(role_kept(before, s));
                assert(surface_in_order(before, s));
                let root = choose|root: usize| is_root(before.surfaces@, s as int, root);
                let steps = choose|steps: nat| #[trigger] root_within(before.surfaces@, s as int, steps) == Some(root);
                lemma_root_grown(before.surfaces@, after.surfaces@, s as int, steps);
                assert(is_root(after.surfaces@, s as int, root));
            }
        }
    }
    assert(children_listed(after)) by {
        assert forall|t: u64, c: u64| m2.contains_key(t) && #[trigger] has_child(m2, t, c) implies is_child(
            after,
            m2[c].surface,
            m2[t].surface,
        ) by {
            assert(is_child(before, m[c].surface, m[t].surface));
            assert(after.surfaces@[m[c].surface as int] == before.surfaces@[m[c].surface as int]);
        }
    }
    assert(places_kept(after)) by {
        assert forall|t: u64, c: u64, i: int| m2.contains_key(t) && #[trigger] child_at(m2, t, c, i) implies after.subsurface(
            m2[c].surface,
        ).stack_index == entries_of(m2, t)[i].0 by {
            assert(has_child(m2, t, c));
            assert(child_at(m, t, c, i));
            assert(is_child(before, m[c].surface, m[t].surface));
            assert(after.surfaces@[m[c].surface as int] == before.surfaces@[m[c].surface as int]);
        }
    }
    assert(shown_on(m2)) by {
        assert forall|t: u64, u: u64, c: u64| #![trigger has_child(m2, t, c), m2.contains_key(u)] m2.contains_key(t)
            && m2.contains_key(u) && t < u && m2[t].surface == m2[u].surface && has_child(m2, t, c) implies shows_newer(m2, u, c) by {
            assert(m.contains_key(t));
            assert(m[t].surface != new);
            assert(u != key);
            assert(m.contains_key(u));
            assert(shows_newer(m, u, c));
            let d = choose|d: u64| #[trigger] has_child(m, u, d) && m[d].surface == m[c].surface && c <= d;
            let i = choose|i: int| child_at(m, u, d, i);
            assert(child_at(m2, u, d, i));
            assert(has_child(m2, u, d));
            assert(state_linked(m, u));
        }
    }
    assert(old_states_held(after)) by {
        assert forall|t: u64| #[trigger] m2.contains_key(t) implies (t != after.key(m2[t].surface) ==> m2[t].spec_parent() is Some)
            && (m2[t].spec_parent() is Some ==> has_parent(m2, t)) by {
            if t != key {
                assert(m.contains_key(t));
                if m[t].spec_parent() is Some {
                    let p = m[t].spec_parent()->0;
                    assert(has_parent(m, t));
                    let i = choose|i: int| child_at(m, p, t, i);
                    assert(child_at(m2, p, t, i));
                }
            }
        }
    }
}

/// More surfaces do not change where links end.
proof fn lemma_root_grown(a: Seq<Surface>, b: Seq<Surface>, s: int, steps: nat)
    requires
        a.len() <= b.len(),
        forall|i: int| 0 <= i < a.len() ==> #[trigger] b[i] == a[i],
        root_within(a, s, steps) is Some,
    ensures
        root_within(b, s, steps) == root_within(a, s, steps),
    decreases steps,
{
    assert(b[s] == a[s]);
    if has_subsurface_role(a, s) {
        lemma_root_grown(a, b, parent_link(a, s)->0 as int, (steps - 1) as nat);
    }
}

/// Attaching a surface to a parent keeps a scene settled.
pub proof fn attach_keeps_settled<S: Shell>(before: Scene<S>, after: Scene<S>, parent: usize, surface: usize)
    requires
        settled(before),
        parent < before.surfaces@.len(),
        surface < before.surfaces@.len(),
        before.surfaces@[parent as int].current is Some,
        before.surfaces@[surface as int].current is Some,
        before.surfaces@[surface as int].role is None,
        stack_entries(before.surfaces@[parent as int].pending_state.stack).len() < usize::MAX - 1,
        after.shell.valid(),
        attach_done(before, after, parent, surface),
    ensures
        settled(after),
{
    let m = before.shell.states();
    let m2 = after.shell.states();
    let key = before.key(surface);
    assert(role_kept(before, surface));
    assert(surface_in_order(before, surface));
    attach_keeps_order(before, after, parent, surface);
    assert forall|t: u64| #[trigger] m2.contains_key(t) implies m.contains_key(t) && m2[t].surface == m[t].surface
        && entries_of(m2, t) == entries_of(m, t) by {}
    assert forall|t: u64, c: u64| m2.contains_key(t) implies #[trigger] has_child(m2, t, c) == has_child(m, t, c) by {
        if has_child(m, t, c) {
            let i = choose|i: int| child_at(m, t, c, i);
            assert(child_at(m2, t, c, i));
        }
        if has_child(m2, t, c) {
            let i = choose|i: int| child_at(m2, t, c, i);
            assert(child_at(m, t, c, i));
        }
    }
    assert forall|t: u64, c: u64| m2.contains_key(t) && #[trigger] has_child(m2, t, c) implies m.contains_key(c) && c != key by {
        assert(has_child(m, t, c));
        assert(state_linked(m, t));
    }
    assert forall|s: usize| s < before.surfaces@.len() implies #[trigger] after.surfaces@[s as int].current
        == before.surfaces@[s as int].current && (s != surface ==> after.surfaces@[s as int].role
        == before.surfaces@[s as int].role && after.surfaces@[s as int].pending_state.role_state
        == before.surfaces@[s as int].pending_state.role_state) by {}
    assert forall|t: u64| #[trigger] m.contains_key(t) implies after.key(m[t].surface) == before.key(m[t].surface) by {
        assert(after.surfaces@[m[t].surface as int].current == before.surfaces@[m[t].surface as int].current);
    }
    assert(states_owned(after)) by {
        assert forall|t: u64| #[trigger] m2.contains_key(t) implies ({
            let s = m2[t].surface;
            &&& s < after.surfaces@.len()
            &&& after.surfaces@[s as int].current is Some
            &&& t <= after.key(s)
        }) by {
            assert(m.contains_key(t));
            assert(after.surfaces@[m[t].surface as int].current == before.surfaces@[m[t].surface as int].current);
        }
    }
    assert(roles_kept(after)) by {
        assert forall|s: usize| #![trigger role_kept(after, s)] s < after.surfaces@.len() && after.surfaces@[s as int].current is Some implies role_kept(
            after,
            s,
        ) by {
            assert(after.surfaces@[s as int].current == before.surfaces@[s as int].current);
            assert(role_kept(before, s));
            assert(surface_in_order(before, s));
            assert(rooted(after.surfaces@, s as int));
        }
    }
    assert(children_listed(after)) by {
        assert forall|t: u64, c: u64| m2.contains_key(t) && #[trigger] has_child(m2, t, c) implies is_child(
            after,
            m2[c].surface,
            m2[t].surface,
        ) by {
            assert(has_child(m, t, c));
            let s = m[c].surface;
            assert(is_child(before, s, m[t].surface));
            assert(s != surface);
            assert(after.surfaces@[s as int].role == before.surfaces@[s as int].role);
        }
    }
    assert(places_kept(after)) by {
        assert forall|t: u64, c: u64, i: int| m2.contains_key(t) && #[trigger] child_at(m2, t, c, i) implies after.subsurface(
            m2[c].surface,
        ).stack_index == entries_of(m2, t)[i].0 by {
            assert(has_child(m2, t, c));
            assert(has_child(m, t, c));
            assert(child_at(m, t, c, i));
            let s = m[c].surface;
            assert(is_child(before, s, m[t].surface));
            assert(s != surface);
            assert(after.surfaces@[s as int].role == before.surfaces@[s as int].role);
        }
    }
    assert(one_each(m2)) by {
        assert forall|t: u64, a: u64, b: u64| m2.contains_key(t) && #[trigger] has_child(m2, t, a) && #[trigger] has_child(
            m2,
            t,
            b,
        ) && m2[a].surface == m2[b].surface implies a == b by {
            assert(has_child(m, t, a) && has_child(m, t, b));
        }
    }
    assert(shown_on(m2)) by {
        assert forall|t: u64, u: u64, c: u64| #![trigger has_child(m2, t, c), m2.contains_key(u)] m2.contains_key(t)
            && m2.contains_key(u) && t < u && m2[t].surface == m2[u].surface && has_child(m2, t, c) implies shows_newer(m2, u, c) by {
            assert(has_child(m, t, c));
            assert(m.contains_key(u));
            assert(shows_newer(m, u, c));
            let d = choose|d: u64| #[trigger] has_child(m, u, d) && m[d].surface == m[c].surface && c <= d;
            assert(has_child(m2, u, d));
        }
    }
    assert(old_states_held(after)) by {
        assert forall|t: u64| #[trigger] m2.contains_key(t) implies (t != after.key(m2[t].surface) ==> m2[t].spec_parent() is Some)
            && (m2[t].spec_parent() is Some ==> has_parent(m2, t)) by {
            assert(m.contains_key(t));
            if t != key && m[t].spec_parent() is Some {
                let p = m[t].spec_parent()->0;
                assert(has_parent(m, t));
                assert(m2.contains_key(p));
                assert(has_child(m2, p, t));
            }
        }
    }
    assert(parents_oldest(m2)) by {
        assert forall|t: u64, c: u64| m2.contains_key(t) && #[trigger] has_child(m2, t, c) && m2[c].spec_parent() is Some implies m2[c].spec_parent()->0
            <= t by {
            assert(has_child(m, t, c));
        }
    }
}

/// Of each surface, the state that is shown with the current state of a surface that is
/// no subsurface is the oldest one.
proof fn lemma_oldest_shown<S: Shell>(scene: Scene<S>, r: usize, t: u64, x: u64)
    requires
        settled(scene),
        r < scene.surfaces@.len(),
        scene.surfaces@[r as int].current is Some,
        !scene.is_subsurface(r),
        reaches(scene.shell.states(), scene.key(r), t),
        scene.shell.states().contains_key(x),
        scene.shell.states()[x].surface == scene.shell.states()[t].surface,
    ensures
        t <= x,
    decreases u64::MAX - t,
{
    let m = scene.shell.states();
    let root = scene.key(r);
    assert(surface_in_order(scene, r));
    assert(m.contains_key(root) && m[root].surface == r);
    lemma_reach_live(m, root, t);
    if t == root {
        if x != root {
            assert(has_parent(m, x));
            assert(is_child(scene, m[x].surface, m[m[x].spec_parent()->0].surface));
        }
    } else {
        let t1 = lemma_reach_parent(m, root, t);
        lemma_reach_live(m, root, t1);
        let p = m[t].surface;
        if x != scene.key(p) {
            assert(has_parent(m, x));
            let x1 = m[x].spec_parent()->0;
            assert(is_child(scene, p, m[x1].surface));
            assert(is_child(scene, p, m[t1].surface));
            lemma_oldest_shown(scene, r, t1, x1);
            if t1 == x1 {
                assert(x == t);
            } else {
                assert(shows_newer(m, x1, t));
                let d = choose|d: u64| #[trigger] has_child(m, x1, d) && m[d].surface == m[t].surface && t <= d;
                assert(d == x);
            }
        } else {
            assert(t <= scene.key(p));
        }
    }
}

/// In a settled scene, all that is shown with a surface that is no subsurface can be
/// gone through.
pub proof fn roots_are_visible<S: Shell>(scene: Scene<S>, r: usize)
    requires
        settled(scene),
        r < scene.surfaces@.len(),
        scene.surfaces@[r as int].current is Some,
        !scene.is_subsurface(r),
    ensures
        visible(scene.shell.states(), scene.surfaces@, scene.key(r)),
{
    let m = scene.shell.states();
    let root = scene.key(r);
    assert(surface_in_order(scene, r));
    assert forall|t: u64, c: u64, i: int| reaches(m, root, t) && #[trigger] child_at(m, t, c, i) implies link(
        m,
        scene.surfaces@,
        t,
        c,
        i,
    ) by {
        lemma_reach_live(m, root, t);
        assert(has_child(m, t, c));
        assert(has_parent(m, c));
        let x = m[c].spec_parent()->0;
        assert(x <= t);
        assert(is_child(scene, m[c].surface, m[t].surface));
        assert(is_child(scene, m[c].surface, m[x].surface));
        lemma_oldest_shown(scene, r, t, x);
    }
}

} // verus!
