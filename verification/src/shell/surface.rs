//! Wayland surface states.
//!
//! The states of all surfaces form a forest: the stack of a state names the
//! states of its immediate subsurfaces, which are always older than itself.
use dlv_list::{Index, VecList};
use vstd::prelude::*;
use crate::shell::roles::{RoleState, SubsurfaceState};
use crate::shell::stack::{
    clone_stack, distinct_indices, front_index, get, get_next_index, has_index, index_at, new_stack, push_back,
    stack_entries, SurfaceStackEntry,
};
use crate::shell::Shell;

verus! {

/// The surface state.
///
/// This holds the modifiable states of a surface.
pub struct SurfaceState {
    /// The surface that this is a state of.
    pub surface: usize,
    /// The index just past the last frame callback attached to this surface.
    /// Each surface state always owns a prefix of the surface's frame
    /// callbacks, so it's sufficient to store the index of the last one.
    pub frame_callback_end: u32,
    /// A stack of child surfaces and self.
    pub stack: VecList<SurfaceStackEntry>,
    /// The position of this surface state in its own stack.
    pub stack_index: Index<SurfaceStackEntry>,
    pub buffer: Option<u32>,
    /// Scale of the buffer, a fraction with a denominator of 120.
    pub buffer_scale: u32,
    pub role_state: Option<RoleState>,
}

/// Pending changes to a surface state.
pub struct PendingSurfaceState {
    pub buffer: Option<u32>,
    pub buffer_scale: Option<u32>,
    pub stack: VecList<SurfaceStackEntry>,
    pub role_state: Option<RoleState>,
    pub frame_callback_end: u32,
}

/// The entries of a stack: `stack_index` is where the surface itself stands, and
/// stands alone, and no subsurface is listed twice.
pub open spec fn stack_wf(
    entries: Seq<(Index<SurfaceStackEntry>, SurfaceStackEntry)>,
    stack_index: Index<SurfaceStackEntry>,
) -> bool {
    &&& entries.len() < usize::MAX
    &&& distinct_indices(entries)
    &&& has_index(entries, stack_index)
    &&& forall|i: int|
        #![trigger entries[i]]
        0 <= i < entries.len() ==> (entries[i].1 is Self_ <==> entries[i].0 == stack_index)
    &&& forall|i: int, j: int|
        #![trigger entries[i], entries[j]]
        0 <= i < j < entries.len() && entries[i].1 is Subsurface && entries[j].1 is Subsurface ==> entries[i].1->token
            != entries[j].1->token
}

/// The states that the shell holds.
pub type States = Map<u64, SurfaceState>;

/// The stack of the state `t`.
pub open spec fn entries_of(m: States, t: u64) -> Seq<(Index<SurfaceStackEntry>, SurfaceStackEntry)> {
    stack_entries(m[t].stack)
}

/// The state `c` stands in the stack of `t`, at position `i`.
pub open spec fn child_at(m: States, t: u64, c: u64, i: int) -> bool {
    &&& 0 <= i < entries_of(m, t).len()
    &&& entries_of(m, t)[i].1 is Subsurface
    &&& entries_of(m, t)[i].1->token == c
}

/// The state `c` stands in the stack of `t`.
pub open spec fn has_child(m: States, t: u64, c: u64) -> bool {
    exists|i: int| child_at(m, t, c, i)
}

/// What holds of one state among others: its stack is in order, and each state
/// in it is held by the shell, is older, and is the state of a subsurface.
pub open spec fn state_linked(m: States, t: u64) -> bool {
    &&& stack_wf(entries_of(m, t), m[t].stack_index)
    &&& forall|c: u64| #[trigger]
        has_child(m, t, c) ==> m.contains_key(c) && c < t && m[c].is_subsurface()
}

/// Each state is linked to others as it should be.
pub open spec fn linked(m: States) -> bool {
    &&& m.dom().finite()
    &&& forall|t: u64| #[trigger] m.contains_key(t) ==> state_linked(m, t)
}

/// `c` has a parent, which the shell holds, and in whose stack it stands.
pub open spec fn has_parent(m: States, c: u64) -> bool {
    &&& m[c].spec_parent() is Some
    &&& m.contains_key(m[c].spec_parent()->0)
    &&& has_child(m, m[c].spec_parent()->0, c)
}

/// Each state that stands in a stack has a parent.
pub open spec fn parented(m: States) -> bool {
    forall|t: u64, c: u64| m.contains_key(t) && #[trigger] has_child(m, t, c) ==> has_parent(m, c)
}

/// What holds of the states of a shell between two requests.
pub open spec fn forest(m: States) -> bool {
    linked(m) && parented(m)
}

/// `x` is `a`, or is shown with it, as a subsurface at any depth.
pub open spec fn reaches(m: States, a: u64, x: u64) -> bool
    decreases a,
{
    a == x || exists|c: u64| c < a && #[trigger] has_child(m, a, c) && reaches(m, c, x)
}

/// The two differ in nothing but the parents of states.
pub open spec fn same_shape(m0: States, m: States) -> bool {
    &&& m.dom() == m0.dom()
    &&& forall|t: u64| #[trigger] m.contains_key(t) ==> m[t] == m0[t].with_parent(m[t].spec_parent())
}

/// Freeing `t` sets `c` free as well: it stands in the stack of `t`, and `t` is
/// its oldest parent.
pub open spec fn releases(m: States, t: u64, c: u64) -> bool {
    has_child(m, t, c) && (m[c].spec_parent() is None || m[c].spec_parent() == Some(t))
}

/// `x` is set free with `a`, directly or through others.
pub open spec fn released_by(m: States, a: u64, x: u64) -> bool
    decreases a,
{
    a == x || exists|c: u64| c < a && #[trigger] releases(m, a, c) && released_by(m, c, x)
}

/// What may be freed once a surface has no more use for its state `current`:
/// nothing while some parent holds that state.
pub open spec fn freeable(m: States, current: u64) -> Set<u64> {
    Set::new(|x: u64| m[current].spec_parent() is None && m.contains_key(x) && released_by(m, current, x))
}

impl SurfaceState {
    /// The parent state, where this is the state of a subsurface.
    pub open spec fn spec_parent(self) -> Option<u64> {
        match self.role_state {
            Some(RoleState::Subsurface(s)) => s.parent,
            _ => None,
        }
    }

    /// This is the state of a subsurface.
    pub open spec fn is_subsurface(self) -> bool {
        match self.role_state {
            Some(RoleState::Subsurface(_)) => true,
            _ => false,
        }
    }

    /// The same state with another parent. Only subsurfaces have one.
    pub open spec fn with_parent(self, parent: Option<u64>) -> SurfaceState {
        if self.is_subsurface() {
            SurfaceState { role_state: Some(RoleState::Subsurface(SubsurfaceState { parent })), ..self }
        } else {
            self
        }
    }

    /// Create a new surface state.
    pub fn new(surface: usize) -> (r: SurfaceState)
        ensures
            r.surface == surface,
            r.frame_callback_end == 0,
            stack_entries(r.stack) == seq![(r.stack_index, SurfaceStackEntry::Self_)],
            r.buffer is None,
            r.buffer_scale == 120,
            r.role_state is None,
    {
        let mut stack = new_stack();
        let stack_index = push_back(&mut stack, SurfaceStackEntry::Self_);
        proof {
            assert(stack_entries(stack) =~= seq![(stack_index, SurfaceStackEntry::Self_)]);
        }
        SurfaceState {
            surface,
            frame_callback_end: 0,
            stack,
            stack_index,
            buffer: None,
            buffer_scale: 120,
            role_state: None,
        }
    }

    /// The role state that `changes` leave: their own, or else the one of this
    /// state.
    pub open spec fn next_role_state(self, changes: PendingSurfaceState) -> Option<RoleState> {
        match changes.role_state {
            Some(state) => Some(state),
            None => self.role_state,
        }
    }

    /// `new` is what `changes` make of this state, whatever its role state is.
    pub open spec fn changed(self, changes: PendingSurfaceState, new: SurfaceState) -> bool {
        &&& new.surface == self.surface
        &&& new.frame_callback_end == changes.frame_callback_end
        &&& stack_entries(new.stack) == stack_entries(changes.stack)
        &&& new.stack_index == self.stack_index
        &&& new.buffer == match changes.buffer {
            Some(buffer) => Some(buffer),
            None => self.buffer,
        }
        &&& new.buffer_scale == match changes.buffer_scale {
            Some(scale) => scale,
            None => self.buffer_scale,
        }
    }

    /// Create a new copy of this surface state, with `changes` applied. The
    /// buffer and the role state are moved out of the changes.
    pub fn apply_pending(&self, changes: &mut PendingSurfaceState) -> (r: SurfaceState)
        ensures
            self.changed(*old(changes), r),
            r.role_state == self.next_role_state(*old(changes)),
            *final(changes) == (PendingSurfaceState { buffer: None, role_state: None, ..*old(changes) }),
    {
        let role_state = match changes.role_state.take() {
            Some(state) => Some(state),
            None => self.role_state,
        };
        SurfaceState {
            surface: self.surface,
            frame_callback_end: changes.frame_callback_end,
            stack: clone_stack(&changes.stack),
            stack_index: self.stack_index,
            buffer: match changes.buffer.take() {
                Some(buffer) => Some(buffer),
                None => self.buffer,
            },
            buffer_scale: match changes.buffer_scale {
                Some(scale) => scale,
                None => self.buffer_scale,
            },
            role_state,
        }
    }

    /// Returns the token of the parent surface state of this surface state, if
    /// any. None if this surface is not a subsurface.
    pub fn parent(&self) -> (r: Option<u64>)
        ensures
            r == self.spec_parent(),
    {
        match self.role_state {
            Some(RoleState::Subsurface(s)) => s.parent,
            _ => None,
        }
    }

    /// Sets the parent token in the subsurface role state of this surface
    /// state. If this surface is not a subsurface, returns false, otherwise
    /// returns true.
    pub fn set_parent(&mut self, parent: Option<u64>) -> (r: bool)
        ensures
            r == old(self).is_subsurface(),
            *final(self) == old(self).with_parent(parent),
    {
        match self.role_state {
            Some(RoleState::Subsurface(_)) => {
                self.role_state = Some(RoleState::Subsurface(SubsurfaceState { parent }));
                true
            },
            _ => false,
        }
    }

    /// Assuming surface state `token` is going to be released, scan the tree
    /// for any transient children that might be able to be freed as well, and
    /// append them to `queue`.
    ///
    /// Items found by this function aren't guaranteed to be freed: those that
    /// a newer version of the surface state references are resurrected when
    /// that version is committed.
    pub fn scan_for_freeing<S: Shell>(token: u64, shell: &S, queue: &mut Vec<u64>)
        requires
            shell.valid(),
            forest(shell.states()),
            shell.states().contains_key(token),
        ensures
            final(queue)@.len() >= old(queue)@.len(),
            final(queue)@.take(old(queue)@.len() as int) == old(queue)@,
            final(queue)@.skip(old(queue)@.len() as int).no_duplicates(),
            final(queue)@.skip(old(queue)@.len() as int).to_set() == freeable(shell.states(), token),
    {
        let ghost m = shell.states();
        let ghost q0 = queue@;
        let start: usize = queue.len();
        let mut head: usize = start;
        if shell.get(token).parent().is_none() {
            queue.push(token);
        } else {
            proof {
                assert(freeable(m, token) =~= Set::<u64>::empty());
                assert(queue@.skip(start as int) =~= Seq::<u64>::empty());
                assert(queue@.take(start as int) =~= q0);
                assert(queue@.skip(start as int).to_set() =~= Set::<u64>::empty());
            }
            return;
        }
        proof {
            assert(queue@.skip(start as int) =~= seq![token]);
            assert(queue@.take(start as int) =~= q0);
            assert(released_by(m, token, token));
            assert(scanned(m, token, queue@, start as int, head as int));
        }
        while head < queue.len()
            invariant
                shell.valid(),
                m == shell.states(),
                forest(m),
                m.contains_key(token),
                m[token].spec_parent() is None,
                start == q0.len(),
                queue@.take(start as int) == q0,
                scanned(m, token, queue@, start as int, head as int),
            decreases m.dom().len() + start - head,
        {
            proof {
                lemma_queue_bounded(m, queue@, start as int);
            }
            let ghost q1 = queue@;
            SurfaceState::scan_children(token, shell, queue, start, head);
            proof {
                assert(queue@.take(start as int) =~= q1.take(start as int));
            }
            head = head + 1;
        }
        proof {
            let found = queue@.skip(start as int);
            assert(found[0] == token);
            assert forall|x: u64| #[trigger] found.to_set().contains(x) == freeable(m, token).contains(x) by {
                if found.contains(x) {
                    let i = choose|i: int| 0 <= i < found.len() && found[i] == x;
                    assert(queue@[i + start] == x);
                }
                if freeable(m, token).contains(x) {
                    assert forall|a: u64, c: u64| found.contains(a) && #[trigger] releases(m, a, c) implies found.contains(c) by {
                        let i = choose|i: int| 0 <= i < found.len() && found[i] == a;
                        assert(queue@[i + start] == a);
                        assert(releases(m, queue@[i + start], c));
                        let l = choose|l: int| start <= l < queue@.len() && queue@[l] == c;
                        assert(found[l - start] == c);
                    }
                    lemma_released_closed(m, found, token, x);
                }
            }
            assert(found.to_set() =~= freeable(m, token));
        }
    }

    /// One step of [`SurfaceState::scan_for_freeing`]: appends what the state at
    /// `head` releases.
    fn scan_children<S: Shell>(token: u64, shell: &S, queue: &mut Vec<u64>, start: usize, head: usize)
        requires
            shell.valid(),
            forest(shell.states()),
            shell.states().contains_key(token),
            shell.states()[token].spec_parent() is None,
            head < old(queue)@.len(),
            scanned(shell.states(), token, old(queue)@, start as int, head as int),
        ensures
            old(queue)@.len() <= final(queue)@.len(),
            final(queue)@.take(old(queue)@.len() as int) == old(queue)@,
            scanned(shell.states(), token, final(queue)@, start as int, head + 1),
    {
        let ghost m = shell.states();
        let ghost q1 = queue@;
        let current: u64 = queue[head];
        let state = shell.get(current);
        let ghost es = entries_of(m, current);
        let mut index = front_index(&state.stack);
        let ghost mut k: int = 0;
        proof {
            assert(state_linked(m, current));
            assert(q1 =~= queue@.take(q1.len() as int));
        }
        while index.is_some()
            invariant
                shell.valid(),
                m == shell.states(),
                forest(m),
                state_linked(m, current),
                m.contains_key(token),
                m[token].spec_parent() is None,
                *state == m[current],
                es == entries_of(m, current),
                start <= head < q1.len() <= queue@.len(),
                q1[head as int] == current,
                q1 == queue@.take(q1.len() as int),
                0 <= k <= es.len(),
                index == if k < es.len() { Some(es[k].0) } else { None },
                scanned(m, token, q1, start as int, head as int),
                forall|i: int, j: int| start <= i < j < queue@.len() ==> queue@[i] != queue@[j],
                forall|i: int|
                    #![trigger queue@[i]]
                    q1.len() <= i < queue@.len() ==> {
                        &&& m.contains_key(queue@[i])
                        &&& released_by(m, token, queue@[i])
                        &&& m[queue@[i]].spec_parent() == Some(current)
                        &&& listed_before(m, current, queue@[i], k)
                    },
                forall|j: int|
                    0 <= j < k && (#[trigger] es[j]).1 is Subsurface && releases(m, current, es[j].1->token)
                        ==> listed_from(queue@, start as int, es[j].1->token),
            decreases es.len() - k,
        {
            let at = index.unwrap();
            proof {
                assert(index_at(es, at, k));
            }
            let entry = get(&state.stack, at).unwrap();
            if let SurfaceStackEntry::Subsurface { token: child, .. } = entry {
                proof {
                    assert(child_at(m, current, child, k));
                    assert(has_child(m, current, child));
                }
                let release = match shell.get(child).parent() {
                    Some(parent) => parent == current,
                    None => true,
                };
                if release {
                    let ghost q2 = queue@;
                    proof {
                        assert(releases(m, current, child));
                        assert(q1[head as int] == current && released_by(m, token, current));
                        lemma_released_step(m, token, current, child);
                        assert forall|i: int| start <= i < q2.len() implies q2[i] != child by {
                            if q2[i] == child {
                                if i < q1.len() {
                                    assert(q1[i] == q2[i]);
                                    if i > start {
                                        assert(parent_listed(m, q1, start as int, head as int, i));
                                    }
                                } else {
                                    assert(listed_before(m, current, q2[i], k));
                                    let j = choose|j: int| 0 <= j < k && child_at(m, current, q2[i], j);
                                    assert(es[j].1->token == es[k].1->token);
                                }
                            }
                        }
                    }
                    queue.push(child);
                    proof {
                        assert(queue@.take(q1.len() as int) =~= q1);
                        assert forall|x: u64| listed_from(q2, start as int, x) implies #[trigger] listed_from(
                            queue@,
                            start as int,
                            x,
                        ) by {
                            let i = choose|i: int| start <= i < q2.len() && q2[i] == x;
                            assert(queue@[i] == x);
                        }
                        assert(queue@[queue@.len() - 1] == child);
                        assert(listed_from(queue@, start as int, child));
                        assert forall|i: int| #![trigger queue@[i]] q1.len() <= i < queue@.len() implies {
                            &&& m.contains_key(queue@[i])
                            &&& released_by(m, token, queue@[i])
                            &&& m[queue@[i]].spec_parent() == Some(current)
                            &&& listed_before(m, current, queue@[i], k + 1)
                        } by {
                            if i < q2.len() {
                                assert(queue@[i] == q2[i]);
                                let j = choose|j: int| 0 <= j < k && child_at(m, current, q2[i], j);
                                assert(child_at(m, current, queue@[i], j));
                            } else {
                                assert(child_at(m, current, queue@[i], k));
                            }
                        }
                    }
                }
            }
            index = get_next_index(&state.stack, at);
            proof {
                k = k + 1;
            }
        }
        proof {
            lemma_scan_advance(m, token, q1, queue@, start as int, head as int);
        }
    }
}

/// One of the first `k` entries of the stack of `t` is the state `c`.
spec fn listed_before(m: States, t: u64, c: u64, k: int) -> bool {
    exists|j: int| 0 <= j < k && child_at(m, t, c, j)
}

/// The list holds `x`, at `start` or behind it.
spec fn listed_from(queue: Seq<u64>, start: int, x: u64) -> bool {
    exists|i: int| start <= i < queue.len() && queue[i] == x
}

/// The parent of the state at `i` is listed before `head`, and before `i`.
spec fn parent_listed(m: States, queue: Seq<u64>, start: int, head: int, i: int) -> bool {
    exists|j: int| start <= j < head && j < i && m[queue[i]].spec_parent() == Some(#[trigger] queue[j])
}

/// What a scan has found: from `start` on, states that `token` releases, each
/// once, and with each before `head` all that it releases.
spec fn scanned(m: States, token: u64, queue: Seq<u64>, start: int, head: int) -> bool {
    &&& 0 <= start <= head <= queue.len()
    &&& start < queue.len()
    &&& queue[start] == token
    &&& forall|i: int, j: int| start <= i < j < queue.len() ==> queue[i] != queue[j]
    &&& forall|i: int|
        #![trigger queue[i]]
        start <= i < queue.len() ==> m.contains_key(queue[i]) && released_by(m, token, queue[i])
    &&& forall|i: int| start < i < queue.len() ==> #[trigger] parent_listed(m, queue, start, head, i)
    &&& forall|i: int, c: u64|
        #![trigger releases(m, queue[i], c)]
        start <= i < head && releases(m, queue[i], c) ==> listed_from(queue, start, c)
}

/// A scan advances by one state once all that this state releases is listed.
proof fn lemma_scan_advance(m: States, token: u64, q1: Seq<u64>, q: Seq<u64>, start: int, head: int)
    requires
        scanned(m, token, q1, start, head),
        head < q1.len() <= q.len(),
        q1 == q.take(q1.len() as int),
        forall|i: int, j: int| start <= i < j < q.len() ==> q[i] != q[j],
        forall|i: int|
            #![trigger q[i]]
            q1.len() <= i < q.len() ==> {
                &&& m.contains_key(q[i])
                &&& released_by(m, token, q[i])
                &&& m[q[i]].spec_parent() == Some(q1[head])
            },
        forall|j: int|
            0 <= j < entries_of(m, q1[head]).len() && (#[trigger] entries_of(m, q1[head])[j]).1 is Subsurface
                && releases(m, q1[head], entries_of(m, q1[head])[j].1->token) ==> listed_from(
                q,
                start,
                entries_of(m, q1[head])[j].1->token,
            ),
    ensures
        scanned(m, token, q, start, head + 1),
{
    assert forall|i: int| 0 <= i < q1.len() implies q[i] == #[trigger] q1[i] by {
        assert(q.take(q1.len() as int)[i] == q[i]);
    }
    assert forall|i: int, c: u64| #![trigger releases(m, q[i], c)] start <= i < head + 1 && releases(m, q[i], c) implies listed_from(
        q,
        start,
        c,
    ) by {
        assert(q[i] == q1[i]);
        if i == head {
            let j = choose|j: int| child_at(m, q1[head], c, j);
            assert(entries_of(m, q1[head])[j].1->token == c);
        } else {
            assert(releases(m, q1[i], c));
            let l = choose|l: int| start <= l < q1.len() && q1[l] == c;
            assert(q[l] == c);
        }
    }
    assert forall|i: int| start < i < q.len() implies #[trigger] parent_listed(m, q, start, head + 1, i) by {
        if i < q1.len() {
            assert(parent_listed(m, q1, start, head, i));
            let j = choose|j: int| start <= j < head && j < i && m[q1[i]].spec_parent() == Some(#[trigger] q1[j]);
            assert(q[j] == q1[j] && q[i] == q1[i]);
        } else {
            assert(q[head] == q1[head]);
            assert(m[q[i]].spec_parent() == Some(q[head]));
        }
    }
    assert(q[start] == q1[start]);
    assert forall|i: int| #![trigger q[i]] start <= i < q.len() implies m.contains_key(q[i]) && released_by(
        m,
        token,
        q[i],
    ) by {
        if i < q1.len() {
            assert(q[i] == q1[i]);
        }
    }
}

/// What is released by something released is released.
pub proof fn lemma_released_step(m: States, a: u64, x: u64, c: u64)
    requires
        released_by(m, a, x),
        releases(m, x, c),
        c < x,
    ensures
        released_by(m, a, c),
    decreases a,
{
    if a == x {
        assert(released_by(m, c, c));
    } else {
        let b = choose|b: u64| b < a && #[trigger] releases(m, a, b) && released_by(m, b, x);
        lemma_released_step(m, b, x, c);
    }
}

/// A list that holds whatever its members release holds all that is released by
/// a member.
proof fn lemma_released_closed(m: States, found: Seq<u64>, a: u64, x: u64)
    requires
        found.contains(a),
        forall|a: u64, c: u64| found.contains(a) && #[trigger] releases(m, a, c) ==> found.contains(c),
        released_by(m, a, x),
    ensures
        found.contains(x),
    decreases a,
{
    if a != x {
        let c = choose|c: u64| c < a && #[trigger] releases(m, a, c) && released_by(m, c, x);
        lemma_released_closed(m, found, c, x);
    }
}

/// A list of states without repetition is no longer than there are states.
proof fn lemma_queue_bounded(m: States, queue: Seq<u64>, start: int)
    requires
        m.dom().finite(),
        0 <= start <= queue.len(),
        forall|i: int, j: int| start <= i < j < queue.len() ==> queue[i] != queue[j],
        forall|i: int| start <= i < queue.len() ==> m.contains_key(#[trigger] queue[i]),
    ensures
        queue.len() - start <= m.dom().len(),
{
    let found = queue.skip(start);
    assert(found.no_duplicates());
    found.unique_seq_to_set();
    assert forall|x: u64| found.to_set().contains(x) implies m.dom().contains(x) by {
        let i = choose|i: int| 0 <= i < found.len() && found[i] == x;
        assert(queue[i + start] == x);
    }
    vstd::set_lib::lemma_len_subset(found.to_set(), m.dom());
}

/// What is shown with something that is shown with `a` is shown with `a`.
pub proof fn lemma_reach_step(m: States, a: u64, x: u64, c: u64)
    requires
        reaches(m, a, x),
        has_child(m, x, c),
        c < x,
    ensures
        reaches(m, a, c),
    decreases a,
{
    if a == x {
        assert(reaches(m, c, c));
    } else {
        let b = choose|b: u64| b < a && #[trigger] has_child(m, a, b) && reaches(m, b, x);
        lemma_reach_step(m, b, x, c);
    }
}

/// Whatever is shown with `a`, except `a`, stands in the stack of something
/// that is shown with `a`.
pub proof fn lemma_reach_parent(m: States, a: u64, x: u64) -> (p: u64)
    requires
        reaches(m, a, x),
        a != x,
    ensures
        reaches(m, a, p),
        has_child(m, p, x),
        x < p <= a,
    decreases a,
{
    let b = choose|b: u64| b < a && #[trigger] has_child(m, a, b) && reaches(m, b, x);
    if b == x {
        assert(reaches(m, a, a));
        a
    } else {
        let p = lemma_reach_parent(m, b, x);
        p
    }
}

/// The parents have no part in what is shown with a state.
pub proof fn lemma_same_shape(m0: States, m: States)
    requires
        same_shape(m0, m),
    ensures
        forall|t: u64, c: u64, i: int|
            m0.contains_key(t) ==> (#[trigger] child_at(m, t, c, i) <==> child_at(m0, t, c, i)),
        forall|t: u64, c: u64| m0.contains_key(t) ==> (#[trigger] has_child(m, t, c) <==> has_child(m0, t, c)),
        linked(m0) ==> linked(m),
{
    assert forall|t: u64| m0.contains_key(t) implies #[trigger] entries_of(m, t) == entries_of(m0, t) && m[t].stack_index
        == m0[t].stack_index && m[t].is_subsurface() == m0[t].is_subsurface() by {
        assert(m.contains_key(t));
    }
    assert forall|t: u64, c: u64| m0.contains_key(t) implies (#[trigger] has_child(m, t, c) <==> has_child(m0, t, c)) by {
        if has_child(m, t, c) {
            let i = choose|i: int| child_at(m, t, c, i);
            assert(child_at(m0, t, c, i));
        }
        if has_child(m0, t, c) {
            let i = choose|i: int| child_at(m0, t, c, i);
            assert(child_at(m, t, c, i));
        }
    }
    if linked(m0) {
        assert forall|t: u64| #[trigger] m.contains_key(t) implies state_linked(m, t) by {
            assert(m0.contains_key(t));
            assert(state_linked(m0, t));
            assert forall|c: u64| #[trigger] has_child(m, t, c) implies m.contains_key(c) && c < t && m[c].is_subsurface() by {
                assert(has_child(m0, t, c));
            }
        }
    }
}

/// The parents have no part in what is shown with a state.
pub proof fn lemma_same_reach(m0: States, m: States, a: u64, x: u64)
    requires
        same_shape(m0, m),
        linked(m0),
        m0.contains_key(a),
    ensures
        reaches(m, a, x) == reaches(m0, a, x),
    decreases a,
{
    lemma_same_shape(m0, m);
    if a != x {
        if reaches(m, a, x) {
            let c = choose|c: u64| c < a && #[trigger] has_child(m, a, c) && reaches(m, c, x);
            assert(has_child(m0, a, c));
            assert(state_linked(m0, a));
            lemma_same_reach(m0, m, c, x);
        }
        if reaches(m0, a, x) {
            let c = choose|c: u64| c < a && #[trigger] has_child(m0, a, c) && reaches(m0, c, x);
            assert(has_child(m, a, c));
            assert(state_linked(m0, a));
            lemma_same_reach(m0, m, c, x);
        }
    }
}

/// `x` was adopted: it now has a parent that is shown with `root` and has `x` in
/// its stack.
pub open spec fn adopted(m0: States, m: States, root: u64, x: u64) -> bool {
    exists|a: u64| reaches(m0, root, a) && #[trigger] has_child(m0, a, x) && m[x].spec_parent() == Some(a)
}

/// What [`resurrect`] makes of the states: those shown with `root` which had no
/// parent are adopted, and the others are as before.
pub open spec fn resurrected(m0: States, m: States, root: u64) -> bool {
    &&& same_shape(m0, m)
    &&& forall|x: u64| #[trigger]
        m0.contains_key(x) ==> if reaches(m0, root, x) && x != root && m0[x].spec_parent() is None {
            adopted(m0, m, root, x)
        } else {
            m[x].spec_parent() == m0[x].spec_parent()
        }
}

/// The traversal of [`resurrect`] has dealt with what is listed before `head`.
spec fn adopting(m0: States, m: States, root: u64, queue: Seq<u64>, start: int, head: int) -> bool {
    &&& same_shape(m0, m)
    &&& 0 <= start <= head <= queue.len()
    &&& start < queue.len()
    &&& queue[start] == root
    &&& forall|i: int, j: int| start <= i < j < queue.len() ==> queue[i] != queue[j]
    &&& forall|i: int|
        #![trigger queue[i]]
        start <= i < queue.len() ==> m0.contains_key(queue[i]) && reaches(m0, root, queue[i])
    &&& forall|x: u64| #[trigger]
        m0.contains_key(x) ==> m[x].spec_parent() == m0[x].spec_parent() || (m0[x].spec_parent() is None && adopted(
            m0,
            m,
            root,
            x,
        ))
    &&& forall|i: int, c: u64|
        #![trigger has_child(m0, queue[i], c)]
        start <= i < head && has_child(m0, queue[i], c) ==> listed_from(queue, start, c) && m[c].spec_parent() is Some
}

/// Tells whether `x` is in the list, at `start` or behind it.
fn is_listed(queue: &Vec<u64>, start: usize, x: u64) -> (r: bool)
    requires
        start <= queue@.len(),
    ensures
        r == listed_from(queue@, start as int, x),
{
    let mut i: usize = start;
    while i < queue.len()
        invariant
            start <= i <= queue@.len(),
            forall|j: int| start <= j < i ==> queue@[j] != x,
        decreases queue@.len() - i,
    {
        if queue[i] == x {
            return true;
        }
        i = i + 1;
    }
    false
}

/// One step of [`resurrect`]: deals with the children of the state at `head`.
fn adopt_children<S: Shell>(shell: &mut S, root: u64, queue: &mut Vec<u64>, start: usize, head: usize, m0: Ghost<States>)
    requires
        old(shell).valid(),
        linked(m0@),
        head < old(queue)@.len(),
        adopting(m0@, old(shell).states(), root, old(queue)@, start as int, head as int),
    ensures
        final(shell).valid(),
        final(shell).calls() == old(shell).calls(),
        final(shell).spec_has_room() == old(shell).spec_has_room(),
        old(queue)@.len() <= final(queue)@.len(),
        final(queue)@.take(old(queue)@.len() as int) == old(queue)@,
        adopting(m0@, final(shell).states(), root, final(queue)@, start as int, head + 1),
{
    let ghost m0 = m0@;
    let ghost q1 = queue@;
    let current: u64 = queue[head];
    let ghost es = entries_of(m0, current);
    proof {
        lemma_same_shape(m0, shell.states());
        assert(m0.contains_key(current) && shell.states().contains_key(current));
        assert(state_linked(m0, current));
        assert(q1 =~= queue@.take(q1.len() as int));
    }
    let mut index = front_index(&shell.get(current).stack);
    let ghost mut k: int = 0;
    while index.is_some()
        invariant
            shell.valid(),
            shell.calls() == old(shell).calls(),
            shell.spec_has_room() == old(shell).spec_has_room(),
            linked(m0),
            state_linked(m0, current),
            m0.contains_key(current),
            es == entries_of(m0, current),
            start <= head < q1.len() <= queue@.len(),
            q1[head as int] == current,
            q1 == queue@.take(q1.len() as int),
            0 <= k <= es.len(),
            index == if k < es.len() { Some(es[k].0) } else { None },
            adopting(m0, shell.states(), root, queue@, start as int, head as int),
            forall|j: int|
                0 <= j < k && (#[trigger] es[j]).1 is Subsurface ==> listed_from(queue@, start as int, es[j].1->token)
                    && shell.states()[es[j].1->token].spec_parent() is Some,
        decreases es.len() - k,
    {
        let at = index.unwrap();
        proof {
            assert(index_at(es, at, k));
            lemma_same_shape(m0, shell.states());
            assert(shell.states().contains_key(current));
        }
        let entry = get(&shell.get(current).stack, at).unwrap();
        index = get_next_index(&shell.get(current).stack, at);
        if let SurfaceStackEntry::Subsurface { token: child, .. } = entry {
            let ghost m = shell.states();
            let ghost q2 = queue@;
            proof {
                assert(child_at(m0, current, child, k));
                assert(has_child(m0, current, child));
                assert(queue@[head as int] == q1[head as int]) by {
                    assert(queue@.take(q1.len() as int)[head as int] == queue@[head as int]);
                }
                lemma_reach_step(m0, root, current, child);
                assert(m0.contains_key(child) && m.contains_key(child));
            }
            if !is_listed(queue, start, child) {
                queue.push(child);
            }
            proof {
                assert(queue@.take(q1.len() as int) =~= q1);
                assert forall|x: u64| listed_from(q2, start as int, x) implies #[trigger] listed_from(
                    queue@,
                    start as int,
                    x,
                ) by {
                    let i = choose|i: int| start <= i < q2.len() && q2[i] == x;
                    assert(queue@[i] == x);
                }
                assert(listed_from(queue@, start as int, child)) by {
                    if !listed_from(q2, start as int, child) {
                        assert(queue@[q2.len() as int] == child);
                    }
                }
            }
            if shell.get(child).parent().is_none() {
                shell.get_mut(child).set_parent(Some(current));
                proof {
                    assert(shell.states() == m.insert(child, m[child].with_parent(Some(current))));
                    assert(adopted(m0, shell.states(), root, child)) by {
                        assert(reaches(m0, root, current) && has_child(m0, current, child));
                    }
                }
            }
            proof {
                let m2 = shell.states();
                assert(m2.dom() =~= m0.dom());
                assert(m[child].is_subsurface());
                assert(same_shape(m0, m2));
                assert forall|x: u64| #[trigger] m0.contains_key(x) implies m2[x].spec_parent() == m0[x].spec_parent() || (
                m0[x].spec_parent() is None && adopted(m0, m2, root, x)) by {
                    if x != child && adopted(m0, m, root, x) {
                        let a = choose|a: u64|
                            reaches(m0, root, a) && #[trigger] has_child(m0, a, x) && m[x].spec_parent() == Some(a);
                        assert(m2[x] == m[x]);
                        assert(has_child(m0, a, x) && m2[x].spec_parent() == Some(a));
                    }
                }
                assert forall|i: int, c: u64|
                    #![trigger has_child(m0, queue@[i], c)]
                    start <= i < head && has_child(m0, queue@[i], c) implies listed_from(queue@, start as int, c)
                    && m2[c].spec_parent() is Some by {
                    assert(queue@[i] == q2[i]);
                    assert(has_child(m0, q2[i], c));
                }
                assert(m2[child].spec_parent() is Some);
            }
        }
        proof {
            k = k + 1;
        }
    }
    proof {
        let m = shell.states();
        assert(queue@.take(q1.len() as int)[head as int] == queue@[head as int]);
        assert forall|i: int, c: u64|
            #![trigger has_child(m0, queue@[i], c)]
            start <= i < head + 1 && has_child(m0, queue@[i], c) implies listed_from(queue@, start as int, c)
            && m[c].spec_parent() is Some by {
            if i == head {
                let j = choose|j: int| child_at(m0, current, c, j);
                assert(es[j].1->token == c);
            }
        }
    }
}

/// Goes through all that is shown with `root`, and gives each state that has no
/// parent the one in whose stack it stands. `scratch_buffer` is left as it was.
pub(crate) fn resurrect<S: Shell>(shell: &mut S, root: u64, scratch_buffer: &mut Vec<u64>)
    requires
        old(shell).valid(),
        linked(old(shell).states()),
        old(shell).states().contains_key(root),
    ensures
        final(shell).valid(),
        final(shell).calls() == old(shell).calls(),
        final(shell).spec_has_room() == old(shell).spec_has_room(),
        final(scratch_buffer)@ == old(scratch_buffer)@,
        resurrected(old(shell).states(), final(shell).states(), root),
{
    let ghost m0 = shell.states();
    let ghost q0 = scratch_buffer@;
    let start: usize = scratch_buffer.len();
    let mut head: usize = start;
    scratch_buffer.push(root);
    proof {
        assert(scratch_buffer@.take(start as int) =~= q0);
        assert(reaches(m0, root, root));
        assert(same_shape(m0, m0)) by {
            assert forall|t: u64| #[trigger] m0.contains_key(t) implies m0[t] == m0[t].with_parent(m0[t].spec_parent()) by {
                match m0[t].role_state {
                    Some(RoleState::Subsurface(x)) => {
                        assert(SubsurfaceState { parent: m0[t].spec_parent() } == x);
                    },
                    _ => {},
                }
            }
        }
    }
    while head < scratch_buffer.len()
        invariant
            shell.valid(),
            shell.calls() == old(shell).calls(),
            shell.spec_has_room() == old(shell).spec_has_room(),
            linked(m0),
            start == q0.len(),
            scratch_buffer@.take(start as int) == q0,
            adopting(m0, shell.states(), root, scratch_buffer@, start as int, head as int),
        decreases m0.dom().len() + start - head,
    {
        proof {
            lemma_queue_bounded(m0, scratch_buffer@, start as int);
        }
        let ghost q1 = scratch_buffer@;
        adopt_children(shell, root, scratch_buffer, start, head, Ghost(m0));
        proof {
            assert(scratch_buffer@.take(start as int) =~= q1.take(start as int));
        }
        head = head + 1;
    }
    proof {
        let m = shell.states();
        let queue = scratch_buffer@;
        assert forall|x: u64| #[trigger] m0.contains_key(x) implies if reaches(m0, root, x) && x != root
            && m0[x].spec_parent() is None {
            adopted(m0, m, root, x)
        } else {
            m[x].spec_parent() == m0[x].spec_parent()
        } by {
            if reaches(m0, root, x) && x != root {
                let p = lemma_reach_parent(m0, root, x);
                lemma_visited(m0, queue, start as int, root, p);
                let i = choose|i: int| start <= i < queue.len() && queue[i] == p;
                assert(has_child(m0, queue[i], x));
            } else if adopted(m0, m, root, x) {
                let a = choose|a: u64|
                    reaches(m0, root, a) && #[trigger] has_child(m0, a, x) && m[x].spec_parent() == Some(a);
                lemma_reach_live(m0, root, a);
                assert(state_linked(m0, a));
                lemma_reach_step(m0, root, a, x);
                lemma_reach_older(m0, root, a);
            }
        }
    }
    scratch_buffer.truncate(start);
    proof {
        assert(scratch_buffer@ =~= q0);
    }
}

/// What is shown with a state that the shell holds is held by the shell.
pub proof fn lemma_reach_live(m: States, a: u64, x: u64)
    requires
        linked(m),
        m.contains_key(a),
        reaches(m, a, x),
    ensures
        m.contains_key(x),
    decreases a,
{
    if a != x {
        let c = choose|c: u64| c < a && #[trigger] has_child(m, a, c) && reaches(m, c, x);
        assert(state_linked(m, a));
        lemma_reach_live(m, c, x);
    }
}

/// What is shown with a state is not younger.
pub proof fn lemma_reach_older(m: States, a: u64, x: u64)
    requires
        reaches(m, a, x),
    ensures
        x <= a,
    decreases a,
{
    if a != x {
        let c = choose|c: u64| c < a && #[trigger] has_child(m, a, c) && reaches(m, c, x);
        lemma_reach_older(m, c, x);
    }
}

/// A list that holds the children of all its members holds all that is shown
/// with a member.
proof fn lemma_visited(m: States, queue: Seq<u64>, start: int, a: u64, x: u64)
    requires
        0 <= start,
        listed_from(queue, start, a),
        forall|i: int, c: u64|
            #![trigger has_child(m, queue[i], c)]
            start <= i < queue.len() && has_child(m, queue[i], c) ==> listed_from(queue, start, c),
        reaches(m, a, x),
    ensures
        listed_from(queue, start, x),
    decreases a,
{
    if a != x {
        let c = choose|c: u64| c < a && #[trigger] has_child(m, a, c) && reaches(m, c, x);
        let i = choose|i: int| start <= i < queue.len() && queue[i] == a;
        assert(has_child(m, queue[i], c));
        lemma_visited(m, queue, start, c, x);
    }
}

} // verus!
