//! Going through a surface and its subsurfaces in the order they are stacked.
use vstd::prelude::*;
use vstd::pervasive::unreached;
use crate::shell::attach::has_subsurface_role;
use crate::shell::geometry::{point_laws, Point};
use crate::shell::roles::{Role, Subsurface};
use crate::shell::scene::{committed, Scene, Surface};
use crate::shell::stack::{
    back, front, get, get_next_index, get_previous_index, has_index, index_at, SurfaceStackEntry, SurfaceStackIndex,
};
use crate::shell::surface::{
    child_at, entries_of, freeable, has_child, lemma_reach_live, lemma_reach_older, lemma_reach_parent,
    lemma_reach_step, linked, reaches, state_linked, States, SurfaceState,
};
use crate::shell::Shell;

verus! {

/// What the entry `i` in the stack of `t` contributes to what is shown, from
/// bottom to top: the surface itself, or all that is shown with a subsurface.
/// Each state comes with its offset, where `t` has the offset `off`.
pub open spec fn item(m: States, t: u64, i: int, off: Point) -> Seq<(u64, Point)>
    decreases t, 2 * i,
{
    if 0 <= i < entries_of(m, t).len() {
        match entries_of(m, t)[i].1 {
            SurfaceStackEntry::Self_ => seq![(t, off)],
            SurfaceStackEntry::Subsurface { token, position } => if token < t {
                order_upto(m, token, entries_of(m, token).len() as int, off.plus(position))
            } else {
                Seq::empty()
            },
        }
    } else {
        Seq::empty()
    }
}

/// What the first `i` entries in the stack of `t` contribute.
pub open spec fn order_upto(m: States, t: u64, i: int, off: Point) -> Seq<(u64, Point)>
    decreases t, 2 * i,
{
    if i <= 0 {
        Seq::empty()
    } else {
        order_upto(m, t, i - 1, off) + item(m, t, i - 1, off)
    }
}

/// What the entries from `i` on in the stack of `t` contribute.
pub open spec fn order_from(m: States, t: u64, i: int, off: Point) -> Seq<(u64, Point)>
    decreases entries_of(m, t).len() - i,
{
    if i >= entries_of(m, t).len() {
        Seq::empty()
    } else {
        item(m, t, i, off) + order_from(m, t, i + 1, off)
    }
}

/// A surface state and the states of its subsurfaces, at any depth, from bottom
/// to top, with their offsets.
pub open spec fn order(m: States, t: u64, off: Point) -> Seq<(u64, Point)> {
    order_upto(m, t, entries_of(m, t).len() as int, off)
}

/// The role of the surface of `c` says that `c` is the entry `i` in the stack of
/// `t`, and `t` is its parent.
pub open spec fn link(m: States, surfaces: Seq<Surface>, t: u64, c: u64, i: int) -> bool {
    &&& m[c].spec_parent() == Some(t)
    &&& m[c].surface < surfaces.len()
    &&& has_subsurface_role(surfaces, m[c].surface as int)
    &&& surfaces[m[c].surface as int].role->0->Subsurface_0.stack_index == entries_of(m, t)[i].0
}

/// The links of all that is shown with `root` form a path towards it.
pub open spec fn visible(m: States, surfaces: Seq<Surface>, root: u64) -> bool {
    &&& linked(m)
    &&& m.contains_key(root)
    &&& m[root].surface < surfaces.len()
    &&& forall|t: u64, c: u64, i: int|
        reaches(m, root, t) && #[trigger] child_at(m, t, c, i) ==> link(m, surfaces, t, c, i)
}

/// Where a surface stands in its own stack.
pub open spec fn self_pos(m: States, t: u64) -> int {
    choose|i: int| index_at(entries_of(m, t), m[t].stack_index, i)
}

/// Where `c` stands in the stack of its parent.
pub open spec fn child_pos(m: States, c: u64) -> int {
    choose|i: int| child_at(m, m[c].spec_parent()->0, c, i)
}

/// What is above `t` in what is shown with `root`, except for what is in the
/// stack of `t`.
pub open spec fn above(m: States, root: u64, t: u64, off: Point) -> Seq<(u64, Point)>
    decreases root - t,
{
    let p = m[t].spec_parent()->0;
    if t == root || !(t < p <= root) {
        Seq::empty()
    } else {
        let i = child_pos(m, t);
        let parent_off = off.minus(entries_of(m, p)[i].1.spec_position());
        order_from(m, p, i + 1, parent_off) + above(m, root, p, parent_off)
    }
}

/// What is below `t` in what is shown with `root`, except for what is in the
/// stack of `t`.
pub open spec fn below(m: States, root: u64, t: u64, off: Point) -> Seq<(u64, Point)>
    decreases root - t,
{
    let p = m[t].spec_parent()->0;
    if t == root || !(t < p <= root) {
        Seq::empty()
    } else {
        let i = child_pos(m, t);
        let parent_off = off.minus(entries_of(m, p)[i].1.spec_position());
        below(m, root, p, parent_off) + order_upto(m, p, i, parent_off)
    }
}

/// The offset of `c`, seen from something that is shown with it.
pub open spec fn climb(m: States, c: u64, t: u64, off: Point) -> Point
    decreases c - t,
{
    let p = m[t].spec_parent()->0;
    if t == c || !(t < p <= c) {
        off
    } else {
        climb(m, c, p, off.minus(entries_of(m, p)[child_pos(m, t)].1.spec_position()))
    }
}

/// A stack is made of what is before an entry and what is from it on.
proof fn lemma_split(m: States, t: u64, i: int, off: Point)
    requires
        0 <= i <= entries_of(m, t).len(),
    ensures
        order(m, t, off) =~= order_upto(m, t, i, off) + order_from(m, t, i, off),
    decreases entries_of(m, t).len() - i,
{
    if i < entries_of(m, t).len() {
        lemma_split(m, t, i + 1, off);
        assert(order_upto(m, t, i + 1, off) == order_upto(m, t, i, off) + item(m, t, i, off));
        assert(order_from(m, t, i, off) == item(m, t, i, off) + order_from(m, t, i + 1, off));
        assert(order_upto(m, t, i + 1, off) + order_from(m, t, i + 1, off) =~= order_upto(m, t, i, off) + order_from(
            m,
            t,
            i,
            off,
        ));
    } else {
        assert(order_from(m, t, i, off) =~= Seq::empty());
    }
}

/// `b` is `a` with all offsets moved.
pub open spec fn moved(a: Seq<(u64, Point)>, b: Seq<(u64, Point)>, off: Point) -> bool {
    &&& a.len() == b.len()
    &&& forall|k: int| #![trigger a[k]] #![trigger b[k]] 0 <= k < a.len() ==> b[k] == (a[k].0, off.plus(a[k].1))
}

/// Moving a surface moves all that is shown with it.
proof fn lemma_moved(m: States, t: u64, i: int, a: Point, b: Point)
    ensures
        moved(item(m, t, i, b), item(m, t, i, a.plus(b)), a),
        moved(order_upto(m, t, i, b), order_upto(m, t, i, a.plus(b)), a),
    decreases t, 2 * i + 1,
{
    if 0 <= i < entries_of(m, t).len() {
        match entries_of(m, t)[i].1 {
            SurfaceStackEntry::Self_ => {},
            SurfaceStackEntry::Subsurface { token, position } => {
                if token < t {
                    lemma_moved(m, token, entries_of(m, token).len() as int, a, b.plus(position));
                    point_laws(a, b, position);
                }
            },
        }
    }
    if i > 0 {
        lemma_moved(m, t, i - 1, a, b);
    }
}

/// Moving a surface moves all that is shown with it.
proof fn lemma_moved_from(m: States, t: u64, i: int, a: Point, b: Point)
    ensures
        moved(order_from(m, t, i, b), order_from(m, t, i, a.plus(b)), a),
    decreases entries_of(m, t).len() - i,
{
    if i < entries_of(m, t).len() {
        lemma_moved(m, t, i, a, b);
        lemma_moved_from(m, t, i + 1, a, b);
    }
}

/// Every entry contributes something, and so does every stack.
proof fn lemma_nonempty(m: States, t: u64, i: int, off: Point)
    requires
        linked(m),
        m.contains_key(t),
        0 <= i < entries_of(m, t).len(),
    ensures
        item(m, t, i, off).len() > 0,
        order(m, t, off).len() > 0,
        order_from(m, t, i, off).len() > 0,
        order_from(m, t, i, off)[0] == item(m, t, i, off)[0],
        order_upto(m, t, i + 1, off).len() > 0,
        order_upto(m, t, i + 1, off).last() == item(m, t, i, off).last(),
    decreases t,
{
    assert(state_linked(m, t));
    match entries_of(m, t)[i].1 {
        SurfaceStackEntry::Self_ => {},
        SurfaceStackEntry::Subsurface { token, position } => {
            assert(child_at(m, t, token, i));
            assert(has_child(m, t, token));
            assert(state_linked(m, token));
            let j = choose|j: int| index_at(entries_of(m, token), m[token].stack_index, j);
            lemma_nonempty(m, token, j, off.plus(position));
        },
    }
    lemma_split(m, t, i, off);
}

/// What is shown with a state that is shown with `root`.
proof fn lemma_sub_visible(m: States, surfaces: Seq<Surface>, root: u64, t: u64, c: u64, i: int)
    requires
        visible(m, surfaces, root),
        reaches(m, root, t),
        child_at(m, t, c, i),
    ensures
        visible(m, surfaces, c),
        c < t,
        m[c].spec_parent() == Some(t),
        child_pos(m, c) == i,
{
    lemma_reach_live(m, root, t);
    assert(state_linked(m, t));
    assert(has_child(m, t, c));
    lemma_reach_step(m, root, t, c);
    assert(link(m, surfaces, t, c, i));
    assert forall|a: u64, d: u64, j: int| reaches(m, c, a) && #[trigger] child_at(m, a, d, j) implies link(
        m,
        surfaces,
        a,
        d,
        j,
    ) by {
        lemma_reach_trans(m, root, c, a);
    }
    let j = child_pos(m, c);
    assert(child_at(m, t, c, j));
    if i < j {
        assert(entries_of(m, t)[i].1->token == entries_of(m, t)[j].1->token);
    }
    if j < i {
        assert(entries_of(m, t)[j].1->token == entries_of(m, t)[i].1->token);
    }
}

/// To be shown with is transitive.
pub proof fn lemma_reach_trans(m: States, a: u64, b: u64, c: u64)
    requires
        reaches(m, a, b),
        reaches(m, b, c),
    ensures
        reaches(m, a, c),
    decreases a,
{
    if a != b {
        let x = choose|x: u64| x < a && #[trigger] has_child(m, a, x) && reaches(m, x, b);
        lemma_reach_trans(m, x, b, c);
    }
}

/// Whatever is shown with `root`, except for `root`, has its parent shown with
/// `root`.
proof fn lemma_parent_shown(m: States, surfaces: Seq<Surface>, root: u64, t: u64) -> (i: int)
    requires
        visible(m, surfaces, root),
        reaches(m, root, t),
        t != root,
    ensures
        m[t].spec_parent() is Some,
        t < m[t].spec_parent()->0 <= root,
        reaches(m, root, m[t].spec_parent()->0),
        child_at(m, m[t].spec_parent()->0, t, i),
        i == child_pos(m, t),
        link(m, surfaces, m[t].spec_parent()->0, t, i),
{
    let p = lemma_reach_parent(m, root, t);
    let i = choose|i: int| child_at(m, p, t, i);
    lemma_sub_visible(m, surfaces, root, p, t, i);
    lemma_reach_older(m, root, p);
    i
}

/// Above and below something shown with `c`, in the stack of the parent of `c`.
proof fn lemma_outer(m: States, surfaces: Seq<Surface>, s: u64, c: u64, i: int, t: u64, off: Point)
    requires
        visible(m, surfaces, s),
        child_at(m, s, c, i),
        reaches(m, c, t),
    ensures
        ({
            let s_off = climb(m, c, t, off).minus(entries_of(m, s)[i].1.spec_position());
            &&& climb(m, s, t, off) == s_off
            &&& above(m, s, t, off) =~= above(m, c, t, off) + order_from(m, s, i + 1, s_off)
            &&& below(m, s, t, off) =~= order_upto(m, s, i, s_off) + below(m, c, t, off)
        }),
    decreases c - t,
{
    assert(reaches(m, s, s));
    lemma_sub_visible(m, surfaces, s, s, c, i);
    if t == c {
        let s_off = off.minus(entries_of(m, s)[i].1.spec_position());
        assert(climb(m, s, s, s_off) == s_off);
        assert(above(m, s, s, s_off) =~= Seq::empty());
        assert(below(m, s, s, s_off) =~= Seq::empty());
        assert(above(m, c, c, off) =~= Seq::empty());
        assert(below(m, c, c, off) =~= Seq::empty());
    } else {
        let j = lemma_parent_shown(m, surfaces, c, t);
        let p = m[t].spec_parent()->0;
        let p_off = off.minus(entries_of(m, p)[j].1.spec_position());
        lemma_outer(m, surfaces, s, c, i, p, p_off);
        let s_off = climb(m, c, p, p_off).minus(entries_of(m, s)[i].1.spec_position());
        assert(above(m, s, t, off) == order_from(m, p, j + 1, p_off) + above(m, s, p, p_off));
        assert(above(m, c, t, off) == order_from(m, p, j + 1, p_off) + above(m, c, p, p_off));
        assert(below(m, s, t, off) == below(m, s, p, p_off) + order_upto(m, p, j, p_off));
        assert(below(m, c, t, off) == below(m, c, p, p_off) + order_upto(m, p, j, p_off));
    }
}

/// What is above `t` in what is shown with `root`.
pub open spec fn after(m: States, root: u64, t: u64, off: Point) -> Seq<(u64, Point)> {
    order_from(m, t, self_pos(m, t) + 1, off) + above(m, root, t, off)
}

/// What is below `t` in what is shown with `root`.
pub open spec fn before(m: States, root: u64, t: u64, off: Point) -> Seq<(u64, Point)> {
    below(m, root, t, off) + order_upto(m, t, self_pos(m, t), off)
}

/// A position in what the first `i` entries of a stack contribute belongs to one
/// of them.
proof fn lemma_locate(m: States, s: u64, i: int, off: Point, k: int) -> (e: int)
    requires
        0 <= i <= entries_of(m, s).len(),
        0 <= k < order_upto(m, s, i, off).len(),
    ensures
        0 <= e < i,
        order_upto(m, s, e, off).len() <= k < order_upto(m, s, e + 1, off).len(),
        order_upto(m, s, i, off)[k] == item(m, s, e, off)[k - order_upto(m, s, e, off).len()],
    decreases i,
{
    if k < order_upto(m, s, i - 1, off).len() {
        let e = lemma_locate(m, s, i - 1, off, k);
        e
    } else {
        i - 1
    }
}

/// In what is shown with `s`, what follows and what precedes a state is what is
/// above and below it.
proof fn lemma_around(m: States, surfaces: Seq<Surface>, s: u64, off: Point, k: int)
    requires
        visible(m, surfaces, s),
        0 <= k < order(m, s, off).len(),
    ensures
        ({
            let (t, t_off) = order(m, s, off)[k];
            &&& reaches(m, s, t)
            &&& climb(m, s, t, t_off) == off
            &&& order(m, s, off).skip(k + 1) =~= after(m, s, t, t_off)
            &&& order(m, s, off).take(k) =~= before(m, s, t, t_off)
        }),
    decreases s,
{
    let full = order(m, s, off);
    let len = entries_of(m, s).len() as int;
    let (t, t_off) = full[k];
    let e = lemma_locate(m, s, len, off, k);
    let start = order_upto(m, s, e, off).len() as int;
    lemma_split(m, s, e, off);
    lemma_split(m, s, e + 1, off);
    assert(state_linked(m, s));
    let it = item(m, s, e, off);
    assert(full =~= order_upto(m, s, e, off) + it + order_from(m, s, e + 1, off));
    match entries_of(m, s)[e].1 {
        SurfaceStackEntry::Self_ => {
            assert(t == s && t_off == off);
            let sp = self_pos(m, s);
            assert(index_at(entries_of(m, s), m[s].stack_index, e));
            assert(index_at(entries_of(m, s), m[s].stack_index, sp));
            assert(sp == e) by {
                if sp < e {
                    assert(entries_of(m, s)[sp].0 != entries_of(m, s)[e].0);
                }
                if e < sp {
                    assert(entries_of(m, s)[e].0 != entries_of(m, s)[sp].0);
                }
            }
            assert(above(m, s, s, off) =~= Seq::empty());
            assert(below(m, s, s, off) =~= Seq::empty());
        },
        SurfaceStackEntry::Subsurface { token: c, position } => {
            assert(child_at(m, s, c, e));
            assert(reaches(m, s, s));
            lemma_sub_visible(m, surfaces, s, s, c, e);
            let c_off = off.plus(position);
            assert(it == order(m, c, c_off));
            lemma_around(m, surfaces, c, c_off, k - start);
            assert(it[k - start] == (t, t_off));
            lemma_outer(m, surfaces, s, c, e, t, t_off);
            point_laws(off, position, off);
            assert(reaches(m, s, t)) by {
                assert(has_child(m, s, c));
            }
            assert(full.skip(k + 1) =~= it.skip(k - start + 1) + order_from(m, s, e + 1, off));
            assert(full.take(k) =~= order_upto(m, s, e, off) + it.take(k - start));
        },
    }
}

/// How much is above a state does not depend on its offset.
proof fn lemma_above_len(m: States, root: u64, t: u64, a: Point, b: Point)
    ensures
        above(m, root, t, a).len() == above(m, root, t, b).len(),
    decreases root - t,
{
    let p = m[t].spec_parent()->0;
    if !(t == root || !(t < p <= root)) {
        let i = child_pos(m, t);
        let pos = entries_of(m, p)[i].1.spec_position();
        point_laws(a.minus(pos), b.minus(pos), a);
        let d = a.minus(pos).minus(b.minus(pos));
        point_laws(a.minus(pos), b.minus(pos), d);
        lemma_moved_from(m, p, i + 1, d, b.minus(pos));
        lemma_above_len(m, root, p, a.minus(pos), b.minus(pos));
    }
}

/// No state is shown twice.
proof fn lemma_once(m: States, surfaces: Seq<Surface>, root: u64, off: Point, j: int, k: int)
    requires
        visible(m, surfaces, root),
        0 <= j < order(m, root, off).len(),
        0 <= k < order(m, root, off).len(),
        order(m, root, off)[j].0 == order(m, root, off)[k].0,
    ensures
        j == k,
{
    let full = order(m, root, off);
    lemma_around(m, surfaces, root, off, j);
    lemma_around(m, surfaces, root, off, k);
    let t = full[j].0;
    let a = full[j].1;
    let b = full[k].1;
    let d = a.minus(b);
    point_laws(a, b, d);
    lemma_moved_from(m, t, self_pos(m, t) + 1, d, b);
    lemma_above_len(m, root, t, a, b);
    assert(full.skip(j + 1).len() == full.skip(k + 1).len());
}

/// The offset of `t` from `root`, with which it is shown: the sum of the positions
/// that the stacks have for the states on the way from `root` to `t`.
pub open spec fn place(m: States, root: u64, t: u64) -> Point
    decreases root - t,
{
    let p = m[t].spec_parent()->0;
    if t == root || !(t < p <= root) {
        Point::spec_origin()
    } else {
        place(m, root, p).plus(entries_of(m, p)[child_pos(m, t)].1.spec_position())
    }
}

/// Offsets add up.
proof fn lemma_place(m: States, root: u64, t: u64, off: Point)
    ensures
        off == climb(m, root, t, off).plus(place(m, root, t)),
    decreases root - t,
{
    let p = m[t].spec_parent()->0;
    if t == root || !(t < p <= root) {
        point_laws(off, off, off);
    } else {
        let pos = entries_of(m, p)[child_pos(m, t)].1.spec_position();
        lemma_place(m, root, p, off.minus(pos));
        point_laws(off, pos, off);
        point_laws(climb(m, root, t, off), place(m, root, p), pos);
    }
}

/// All that is shown with a state is gone through.
proof fn lemma_occurs(m: States, s: u64, off: Point, x: u64) -> (k: int)
    requires
        linked(m),
        m.contains_key(s),
        reaches(m, s, x),
    ensures
        0 <= k < order(m, s, off).len(),
        order(m, s, off)[k].0 == x,
    decreases s,
{
    assert(state_linked(m, s));
    if x == s {
        let e = self_pos(m, s);
        assert(index_at(entries_of(m, s), m[s].stack_index, e));
        lemma_split(m, s, e, off);
        assert(order_from(m, s, e, off) == item(m, s, e, off) + order_from(m, s, e + 1, off));
        let k = order_upto(m, s, e, off).len() as int;
        assert(order(m, s, off)[k] == item(m, s, e, off)[0]);
        k
    } else {
        let c = choose|c: u64| c < s && #[trigger] has_child(m, s, c) && reaches(m, c, x);
        let e = choose|e: int| child_at(m, s, c, e);
        let c_off = off.plus(entries_of(m, s)[e].1->position);
        let j = lemma_occurs(m, c, c_off, x);
        assert(item(m, s, e, off) == order(m, c, c_off));
        lemma_split(m, s, e, off);
        assert(order_from(m, s, e, off) == item(m, s, e, off) + order_from(m, s, e + 1, off));
        let k = order_upto(m, s, e, off).len() + j;
        assert(order(m, s, off)[k] == item(m, s, e, off)[j]);
        k
    }
}

impl SurfaceState {
    /// Find the bottom of the subtree rooted at this surface. Returns the
    /// token, and its offset relative to this surface.
    ///
    /// # Example
    ///
    /// Say surface A has stack "B A C D", and surface B has stack "E B F G".
    /// Then `bottom` of A is E. Because B is the bottom of A's immediate stack,
    /// and the bottom surface of B's stack is E.
    pub fn bottom<S: Shell>(this: u64, shell: &S) -> (r: (u64, Point))
        requires
            shell.valid(),
            linked(shell.states()),
            shell.states().contains_key(this),
        ensures
            order(shell.states(), this, Point::spec_origin()).len() > 0,
            r == order(shell.states(), this, Point::spec_origin())[0],
    {
        let ghost m = shell.states();
        let mut current: u64 = this;
        let mut offset = Point::new(0, 0);
        loop
            invariant
                shell.valid(),
                m == shell.states(),
                linked(m),
                m.contains_key(current),
                order(m, this, Point::spec_origin()).len() > 0 || current == this && offset == Point::spec_origin(),
                order(m, this, Point::spec_origin())[0] == order(m, current, offset)[0],
            decreases current,
        {
            let ghost len = entries_of(m, current).len() as int;
            let ghost i = 0int;
            proof {
                assert(state_linked(m, current));
                lemma_nonempty(m, current, i, offset);
                lemma_split(m, current, 0, offset);
                assert(order_upto(m, current, 0, offset) =~= Seq::empty());
                assert(order_from(m, current, 0, offset) =~= order(m, current, offset));
            }
            // An entry isn't necessarily the bottom-most surface of the subtree,
            // because it can have a stack of its own. Unless it is the surface
            // itself, in which case we are done.
            match front(&shell.get(current).stack).unwrap() {
                SurfaceStackEntry::Self_ => {
                    return (current, offset);
                },
                SurfaceStackEntry::Subsurface { token, position } => {
                    proof {
                        assert(child_at(m, current, token, i));
                        assert(has_child(m, current, token));
                    }
                    current = token;
                    offset = offset.translate(position);
                },
            }
        }
    }

    /// Find the top of the subtree rooted at this surface. Returns the token,
    /// and its offset relative to this surface.
    pub fn top<S: Shell>(this: u64, shell: &S) -> (r: (u64, Point))
        requires
            shell.valid(),
            linked(shell.states()),
            shell.states().contains_key(this),
        ensures
            order(shell.states(), this, Point::spec_origin()).len() > 0,
            r == order(shell.states(), this, Point::spec_origin()).last(),
    {
        let ghost m = shell.states();
        let mut current: u64 = this;
        let mut offset = Point::new(0, 0);
        loop
            invariant
                shell.valid(),
                m == shell.states(),
                linked(m),
                m.contains_key(current),
                order(m, this, Point::spec_origin()).len() > 0 || current == this && offset == Point::spec_origin(),
                order(m, this, Point::spec_origin()).last() == order(m, current, offset).last(),
            decreases current,
        {
            let ghost len = entries_of(m, current).len() as int;
            let ghost i = len - 1;
            proof {
                assert(state_linked(m, current));
                lemma_nonempty(m, current, i, offset);
                lemma_split(m, current, 0, offset);
                assert(order_upto(m, current, 0, offset) =~= Seq::empty());
                assert(order_from(m, current, 0, offset) =~= order(m, current, offset));
            }
            // An entry isn't necessarily the top-most surface of the subtree,
            // because it can have a stack of its own. Unless it is the surface
            // itself, in which case we are done.
            match back(&shell.get(current).stack).unwrap() {
                SurfaceStackEntry::Self_ => {
                    return (current, offset);
                },
                SurfaceStackEntry::Subsurface { token, position } => {
                    proof {
                        assert(child_at(m, current, token, i));
                        assert(has_child(m, current, token));
                    }
                    current = token;
                    offset = offset.translate(position);
                },
            }
        }
    }

    /// The surface on top of the `index` surface in the subtree rooted at this
    /// surface. Returns the token, and its offset relative to this surface.
    ///
    /// # Example
    ///
    /// Say surface A has stack "B A C D", and surface D has stack "E D F G".
    /// Then the surface next to C is E. Because D is the next surface of C in
    /// A's stack, and the first surface of D's subtree is E.
    pub fn next_in_stack<S: Shell>(this: u64, index: SurfaceStackIndex, shell: &S) -> (r: Option<(u64, Point)>)
        requires
            shell.valid(),
            linked(shell.states()),
            shell.states().contains_key(this),
        ensures
            !has_index(entries_of(shell.states(), this), index.0) ==> r is None,
            forall|i: int|
                #![trigger index_at(entries_of(shell.states(), this), index.0, i)]
                index_at(entries_of(shell.states(), this), index.0, i) ==> r == ({
                    let rest = order_from(shell.states(), this, i + 1, Point::spec_origin());
                    if rest.len() > 0 {
                        Some(rest[0])
                    } else {
                        None
                    }
                }),
    {
        let ghost m = shell.states();
        let ghost es = entries_of(m, this);
        let ghost at = choose|i: int| index_at(es, index.0, i);
        let ghost origin = Point::spec_origin();
        let state = shell.get(this);
        proof {
            assert(state_linked(m, this));
            assert forall|i: int| #[trigger] index_at(es, index.0, i) implies i == at by {
                assert(index_at(es, index.0, at));
                if i < at {
                    assert(es[i].0 != es[at].0);
                }
                if at < i {
                    assert(es[at].0 != es[i].0);
                }
            }
        }
        match get_next_index(&state.stack, index.0) {
            Some(found) => {
                let ghost j = at + 1;
                proof {
                    assert(has_index(es, index.0));
                    assert(index_at(es, index.0, at));
                    assert(index_at(es, found, j));
                    lemma_nonempty(m, this, j, origin);
                }
                match get(&state.stack, found).unwrap() {
                    SurfaceStackEntry::Self_ => Some((this, Point::new(0, 0))),
                    SurfaceStackEntry::Subsurface { token, position } => {
                        proof {
                            assert(child_at(m, this, token, j));
                            assert(has_child(m, this, token));
                        }
                        let (end, offset) = SurfaceState::bottom(token, shell);
                        proof {
                            point_laws(position, origin, origin);
                            lemma_moved(m, token, entries_of(m, token).len() as int, position, origin);
                        }
                        Some((end, position.translate(offset)))
                    },
                }
            },
            None => None,
        }
    }

    /// The surface beneath the `index` surface in the subtree rooted at this
    /// surface. Returns the token, and its offset relative to this surface.
    ///
    /// # Example
    ///
    /// Say surface A has stack "B A C D", and surface C has stack "E C F G".
    /// Then the surface previous to D is G. Because C is the previous surface
    /// of D in A's stack, and the last surface of C's subtree is G.
    pub fn prev_in_stack<S: Shell>(this: u64, index: SurfaceStackIndex, shell: &S) -> (r: Option<(u64, Point)>)
        requires
            shell.valid(),
            linked(shell.states()),
            shell.states().contains_key(this),
        ensures
            !has_index(entries_of(shell.states(), this), index.0) ==> r is None,
            forall|i: int|
                #![trigger index_at(entries_of(shell.states(), this), index.0, i)]
                index_at(entries_of(shell.states(), this), index.0, i) ==> r == ({
                    let rest = order_upto(shell.states(), this, i, Point::spec_origin());
                    if rest.len() > 0 {
                        Some(rest.last())
                    } else {
                        None
                    }
                }),
    {
        let ghost m = shell.states();
        let ghost es = entries_of(m, this);
        let ghost at = choose|i: int| index_at(es, index.0, i);
        let ghost origin = Point::spec_origin();
        let state = shell.get(this);
        proof {
            assert(state_linked(m, this));
            assert forall|i: int| #[trigger] index_at(es, index.0, i) implies i == at by {
                assert(index_at(es, index.0, at));
                if i < at {
                    assert(es[i].0 != es[at].0);
                }
                if at < i {
                    assert(es[at].0 != es[i].0);
                }
            }
        }
        match get_previous_index(&state.stack, index.0) {
            Some(found) => {
                let ghost j = at - 1;
                proof {
                    assert(has_index(es, index.0));
                    assert(index_at(es, index.0, at));
                    assert(index_at(es, found, j));
                    lemma_nonempty(m, this, j, origin);
                }
                match get(&state.stack, found).unwrap() {
                    SurfaceStackEntry::Self_ => Some((this, Point::new(0, 0))),
                    SurfaceStackEntry::Subsurface { token, position } => {
                        proof {
                            assert(child_at(m, this, token, j));
                            assert(has_child(m, this, token));
                        }
                        let (end, offset) = SurfaceState::top(token, shell);
                        proof {
                            point_laws(position, origin, origin);
                            lemma_moved(m, token, entries_of(m, token).len() as int, position, origin);
                        }
                        Some((end, position.translate(offset)))
                    },
                }
            },
            None => None,
        }
    }
}

/// The surface of the state is shown: it is no subsurface, or is an active one.
pub open spec fn shows(m: States, surfaces: Seq<Surface>, t: u64) -> bool {
    match surfaces[m[t].surface as int].role {
        Some(Role::Subsurface(role)) => role.is_active,
        _ => true,
    }
}

/// The entries whose surface is shown.
pub open spec fn shown_only(m: States, surfaces: Seq<Surface>, list: Seq<(u64, Point)>) -> Seq<(u64, Point)> {
    list.filter(|e: (u64, Point)| shows(m, surfaces, e.0))
}

/// Double ended iterator over a surface and its subsurfaces. See
/// [`subsurface_iter`].
pub struct SubsurfaceIter<'a, S: Shell> {
    scene: &'a Scene<S>,
    /// Key and offset from the root surface, of the bottom and of the top of
    /// what is left.
    front: (u64, Point),
    back: (u64, Point),
    is_empty: bool,
    root: Ghost<u64>,
    lo: Ghost<int>,
    hi: Ghost<int>,
}

impl<'a, S: Shell> SubsurfaceIter<'a, S> {
    /// The states that are gone through.
    pub closed spec fn states(self) -> States {
        self.scene.shell.states()
    }

    /// All that is shown with the root.
    closed spec fn full(self) -> Seq<(u64, Point)> {
        order(self.states(), self.root@, Point::spec_origin())
    }

    /// The two ends are where they should be.
    closed spec fn positioned(self) -> bool {
        &&& self.scene.shell.valid()
        &&& visible(self.states(), self.scene.surfaces@, self.root@)
        &&& !self.is_empty ==> {
            &&& 0 <= self.lo@ <= self.hi@ < self.full().len()
            &&& self.front == self.full()[self.lo@]
            &&& self.back == self.full()[self.hi@]
        }
    }

    closed spec fn same_tree(self, other: Self) -> bool {
        &&& self.scene == other.scene
        &&& self.root == other.root
    }

    /// The iterator is in order: both ends are shown.
    pub closed spec fn wf(self) -> bool {
        &&& self.positioned()
        &&& !self.is_empty ==> shows(self.states(), self.scene.surfaces@, self.front.0) && shows(
            self.states(),
            self.scene.surfaces@,
            self.back.0,
        )
    }

    /// What the iterator has left to give, from bottom to top.
    pub closed spec fn rest(self) -> Seq<(u64, Point)> {
        if self.is_empty {
            Seq::empty()
        } else {
            shown_only(self.states(), self.scene.surfaces@, self.full().subrange(self.lo@, self.hi@ + 1))
        }
    }

    /// Tells whether the surface of the state is shown.
    fn is_shown(&self, token: u64) -> (r: bool)
        requires
            self.positioned(),
            reaches(self.states(), self.root@, token),
        ensures
            r == shows(self.states(), self.scene.surfaces@, token),
    {
        let ghost m = self.states();
        proof {
            lemma_reach_live(m, self.root@, token);
            if token != self.root@ {
                lemma_parent_shown(m, self.scene.surfaces@, self.root@, token);
            }
        }
        match &self.scene.surfaces[self.scene.shell.get(token).surface].role {
            Some(Role::Subsurface(role)) => role.is_active,
            _ => true,
        }
    }

    /// Advance the front to the next surface in the stack, or notice that there
    /// is none. The next surface might be deactivated.
    fn step_forward(&mut self)
        requires
            old(self).positioned(),
            !old(self).is_empty,
        ensures
            final(self).same_tree(*old(self)),
            old(self).lo@ == old(self).hi@ ==> *final(self) == (SubsurfaceIter { is_empty: true, ..*old(self) }),
            old(self).lo@ < old(self).hi@ ==> {
                &&& final(self).positioned()
                &&& !final(self).is_empty
                &&& final(self).lo@ == old(self).lo@ + 1 && final(self).hi@ == old(self).hi@
            },
    {
        proof {
            if self.front.0 == self.back.0 {
                lemma_once(
                    self.states(),
                    self.scene.surfaces@,
                    self.root@,
                    Point::spec_origin(),
                    self.lo@,
                    self.hi@,
                );
            }
        }
        if self.front.0 == self.back.0 {
            self.is_empty = true;
            return;
        }
        let ghost m = self.states();
        let ghost surfaces = self.scene.surfaces@;
        let ghost root = self.root@;
        let ghost full = self.full();
        let ghost at = self.lo@;
        let (token, token_offset) = self.front;
        let scene = self.scene;
        proof {
            lemma_around(m, surfaces, root, Point::spec_origin(), at);
            lemma_reach_live(m, root, token);
            assert(state_linked(m, token));
            assert(index_at(entries_of(m, token), m[token].stack_index, self_pos(m, token)));
            point_laws(token_offset, Point::spec_origin(), token_offset);
            lemma_moved_from(m, token, self_pos(m, token) + 1, token_offset, Point::spec_origin());
            assert(full.skip(at + 1)[0] == full[at + 1]);
        }
        let stack_index = scene.shell.get(token).stack_index;
        let index = SurfaceStackIndex(stack_index);
        let step = SurfaceState::next_in_stack(token, index, &scene.shell);
        proof {
            assert(index_at(entries_of(m, token), index.0, self_pos(m, token)));
            assert(order_from(m, token, self_pos(m, token) + 1, Point::spec_origin()).len() == 0 <==> step is None);
        }
        if let Some((next, offset)) = step {
            self.front = (next, token_offset.translate(offset));
        } else {
            // `token` is at the end of its own stack. This includes the case of
            // it being the only surface in its stack. So we need to return
            // upwards to the parent, and find the next surface in the parent's
            // stack. We do this repeatedly if we are also at the end of the
            // parent's stack.
            let mut current: u64 = token;
            let mut offset = token_offset;
            proof {
                assert(order_from(m, token, self_pos(m, token) + 1, Point::spec_origin()).len() == 0);
                assert(order_from(m, token, self_pos(m, token) + 1, token_offset) =~= Seq::empty());
                assert(after(m, root, token, token_offset) =~= above(m, root, token, token_offset));
                assert(full.skip(at + 1) == above(m, root, token, token_offset));
            }
            loop
                invariant_except_break
                    reaches(m, root, current),
                    above(m, root, current, offset).len() > 0,
                    above(m, root, current, offset)[0] == full[at + 1],
                invariant
                    scene.shell.valid(),
                    m == scene.shell.states(),
                    surfaces == scene.surfaces@,
                    visible(m, surfaces, root),
                    self.scene == scene,
                    *self == *old(self),
                ensures
                    (current, offset) == full[at + 1],
                decreases root - current,
            {
                let ghost i = 0int;
                proof {
                    assert(current != root);
                    lemma_parent_shown(m, surfaces, root, current);
                    lemma_reach_live(m, root, current);
                    lemma_reach_live(m, root, m[current].spec_parent()->0);
                    assert(child_at(m, m[current].spec_parent()->0, current, child_pos(m, current)));
                }
                let state = scene.shell.get(current);
                let parent: u64 = state.parent().unwrap();
                let index = match &scene.surfaces[state.surface].role {
                    Some(Role::Subsurface(role)) => role.stack_index,
                    _ => unreached(),
                };
                proof {
                    i = child_pos(m, current);
                    assert(index_at(entries_of(m, parent), index, i));
                }
                let position = get(&scene.shell.get(parent).stack, index).unwrap().position();
                let ghost old_offset = offset;
                offset = offset.translate_back(position);
                proof {
                    point_laws(offset, Point::spec_origin(), offset);
                    lemma_moved_from(m, parent, i + 1, offset, Point::spec_origin());
                }
                let index = SurfaceStackIndex(index);
                let step = SurfaceState::next_in_stack(parent, index, &scene.shell);
                proof {
                    assert(index_at(entries_of(m, parent), index.0, i));
                    assert(order_from(m, parent, i + 1, Point::spec_origin()).len() == 0 <==> step is None);
                    if step is None {
                        assert(order_from(m, parent, i + 1, offset) =~= Seq::empty());
                        assert(above(m, root, current, old_offset) =~= above(m, root, parent, offset));
                    }
                }
                if let Some((next, next_offset)) = step {
                    current = next;
                    offset = offset.translate(next_offset);
                    break;
                }
                current = parent;
            }
            self.front = (current, offset);
        }
        proof {
            self.lo@ = at + 1;
        }
    }

    /// Move the back to the previous surface in the stack, or notice that there
    /// is none. The previous surface might be deactivated.
    fn step_backward(&mut self)
        requires
            old(self).positioned(),
            !old(self).is_empty,
        ensures
            final(self).same_tree(*old(self)),
            old(self).lo@ == old(self).hi@ ==> *final(self) == (SubsurfaceIter { is_empty: true, ..*old(self) }),
            old(self).lo@ < old(self).hi@ ==> {
                &&& final(self).positioned()
                &&& !final(self).is_empty
                &&& final(self).hi@ == old(self).hi@ - 1 && final(self).lo@ == old(self).lo@
            },
    {
        proof {
            if self.front.0 == self.back.0 {
                lemma_once(
                    self.states(),
                    self.scene.surfaces@,
                    self.root@,
                    Point::spec_origin(),
                    self.lo@,
                    self.hi@,
                );
            }
        }
        if self.front.0 == self.back.0 {
            self.is_empty = true;
            return;
        }
        let ghost m = self.states();
        let ghost surfaces = self.scene.surfaces@;
        let ghost root = self.root@;
        let ghost full = self.full();
        let ghost at = self.hi@;
        let (token, token_offset) = self.back;
        let scene = self.scene;
        proof {
            lemma_around(m, surfaces, root, Point::spec_origin(), at);
            lemma_reach_live(m, root, token);
            assert(state_linked(m, token));
            assert(index_at(entries_of(m, token), m[token].stack_index, self_pos(m, token)));
            point_laws(token_offset, Point::spec_origin(), token_offset);
            lemma_moved(m, token, self_pos(m, token), token_offset, Point::spec_origin());
            assert(full.take(at).last() == full[at - 1]);
        }
        let stack_index = scene.shell.get(token).stack_index;
        let index = SurfaceStackIndex(stack_index);
        let step = SurfaceState::prev_in_stack(token, index, &scene.shell);
        proof {
            assert(index_at(entries_of(m, token), index.0, self_pos(m, token)));
            assert(order_upto(m, token, self_pos(m, token), Point::spec_origin()).len() == 0 <==> step is None);
        }
        if let Some((next, offset)) = step {
            self.back = (next, token_offset.translate(offset));
        } else {
            // `token` is at the end of its own stack. This includes the case of
            // it being the only surface in its stack. So we need to return
            // upwards to the parent, and find the next surface in the parent's
            // stack. We do this repeatedly if we are also at the end of the
            // parent's stack.
            let mut current: u64 = token;
            let mut offset = token_offset;
            proof {
                assert(order_upto(m, token, self_pos(m, token), Point::spec_origin()).len() == 0);
                assert(order_upto(m, token, self_pos(m, token), token_offset) =~= Seq::empty());
                assert(before(m, root, token, token_offset) =~= below(m, root, token, token_offset));
                assert(full.take(at) == below(m, root, token, token_offset));
            }
            loop
                invariant_except_break
                    reaches(m, root, current),
                    below(m, root, current, offset).len() > 0,
                    below(m, root, current, offset).last() == full[at - 1],
                invariant
                    scene.shell.valid(),
                    m == scene.shell.states(),
                    surfaces == scene.surfaces@,
                    visible(m, surfaces, root),
                    self.scene == scene,
                    *self == *old(self),
                ensures
                    (current, offset) == full[at - 1],
                decreases root - current,
            {
                let ghost i = 0int;
                proof {
                    assert(current != root);
                    lemma_parent_shown(m, surfaces, root, current);
                    lemma_reach_live(m, root, current);
                    lemma_reach_live(m, root, m[current].spec_parent()->0);
                    assert(child_at(m, m[current].spec_parent()->0, current, child_pos(m, current)));
                }
                let state = scene.shell.get(current);
                let parent: u64 = state.parent().unwrap();
                let index = match &scene.surfaces[state.surface].role {
                    Some(Role::Subsurface(role)) => role.stack_index,
                    _ => unreached(),
                };
                proof {
                    i = child_pos(m, current);
                    assert(index_at(entries_of(m, parent), index, i));
                }
                let position = get(&scene.shell.get(parent).stack, index).unwrap().position();
                let ghost old_offset = offset;
                offset = offset.translate_back(position);
                proof {
                    point_laws(offset, Point::spec_origin(), offset);
                    lemma_moved(m, parent, i, offset, Point::spec_origin());
                }
                let index = SurfaceStackIndex(index);
                let step = SurfaceState::prev_in_stack(parent, index, &scene.shell);
                proof {
                    assert(index_at(entries_of(m, parent), index.0, i));
                    assert(order_upto(m, parent, i, Point::spec_origin()).len() == 0 <==> step is None);
                    if step is None {
                        assert(order_upto(m, parent, i, offset) =~= Seq::empty());
                        assert(below(m, root, current, old_offset) =~= below(m, root, parent, offset));
                    }
                }
                if let Some((next, next_offset)) = step {
                    current = next;
                    offset = offset.translate(next_offset);
                    break;
                }
                current = parent;
            }
            self.back = (current, offset);
        }
        proof {
            self.hi@ = at - 1;
        }
    }

    /// Advance the front to the next surface that is shown.
    fn advance(&mut self)
        requires
            old(self).positioned(),
            !old(self).is_empty,
            shows(old(self).states(), old(self).scene.surfaces@, old(self).back.0),
        ensures
            final(self).same_tree(*old(self)),
            final(self).wf(),
            final(self).rest() == shown_only(
                old(self).states(),
                old(self).scene.surfaces@,
                old(self).full().subrange(old(self).lo@ + 1, old(self).hi@ + 1),
            ),
    {
        let ghost m = self.states();
        let ghost surfaces = self.scene.surfaces@;
        let ghost full = self.full();
        let ghost hi = self.hi@;
        let ghost target = shown_only(m, surfaces, full.subrange(self.lo@ + 1, hi + 1));
        loop
            invariant_except_break
                self.positioned(),
                self.same_tree(*old(self)),
                !self.is_empty,
                m == self.states(),
                surfaces == self.scene.surfaces@,
                full == self.full(),
                self.hi@ == hi,
                shows(m, surfaces, self.back.0),
                shown_only(m, surfaces, full.subrange(self.lo@ + 1, hi + 1)) == target,
            ensures
                self.wf(),
                self.same_tree(*old(self)),
                self.rest() == target,
            decreases hi - self.lo@,
        {
            let ghost lo = self.lo@;
            self.step_forward();
            if self.is_empty {
                proof {
                    assert(full.subrange(hi + 1, hi + 1) =~= Seq::empty());
                    lemma_none_shown(m, surfaces);
                }
                break;
            }
            proof {
                lemma_around(m, surfaces, self.root@, Point::spec_origin(), self.lo@);
            }
            if self.is_shown(self.front.0) {
                break;
            }
            proof {
                lemma_skip_hidden(m, surfaces, full, self.lo@, hi);
            }
        }
    }

    /// Move the back to the previous surface that is shown.
    fn retreat(&mut self)
        requires
            old(self).positioned(),
            !old(self).is_empty,
            shows(old(self).states(), old(self).scene.surfaces@, old(self).front.0),
        ensures
            final(self).same_tree(*old(self)),
            final(self).wf(),
            final(self).rest() == shown_only(
                old(self).states(),
                old(self).scene.surfaces@,
                old(self).full().subrange(old(self).lo@, old(self).hi@),
            ),
    {
        let ghost m = self.states();
        let ghost surfaces = self.scene.surfaces@;
        let ghost full = self.full();
        let ghost lo = self.lo@;
        let ghost target = shown_only(m, surfaces, full.subrange(lo, self.hi@));
        loop
            invariant_except_break
                self.positioned(),
                self.same_tree(*old(self)),
                !self.is_empty,
                m == self.states(),
                surfaces == self.scene.surfaces@,
                full == self.full(),
                self.lo@ == lo,
                shows(m, surfaces, self.front.0),
                shown_only(m, surfaces, full.subrange(lo, self.hi@)) == target,
            ensures
                self.wf(),
                self.same_tree(*old(self)),
                self.rest() == target,
            decreases self.hi@ - lo,
        {
            self.step_backward();
            if self.is_empty {
                proof {
                    assert(full.subrange(lo, lo) =~= Seq::empty());
                    lemma_none_shown(m, surfaces);
                }
                break;
            }
            proof {
                lemma_around(m, surfaces, self.root@, Point::spec_origin(), self.hi@);
            }
            if self.is_shown(self.back.0) {
                break;
            }
            proof {
                lemma_skip_hidden_back(m, surfaces, full, lo, self.hi@);
            }
        }
    }

    /// The next surface from the bottom, and its offset from the root.
    pub fn next(&mut self) -> (r: Option<(u64, Point)>)
        requires
            old(self).wf(),
        ensures
            final(self).wf(),
            old(self).rest().len() == 0 ==> r is None && final(self).rest() == old(self).rest(),
            old(self).rest().len() > 0 ==> r == Some(old(self).rest()[0]) && final(self).rest() == old(self).rest().skip(1),
    {
        if self.is_empty {
            None
        } else {
            let first = self.front;
            proof {
                lemma_first_shown(self.states(), self.scene.surfaces@, self.full(), self.lo@, self.hi@);
            }
            self.advance();
            Some(first)
        }
    }

    /// The next surface from the top, and its offset from the root.
    pub fn next_back(&mut self) -> (r: Option<(u64, Point)>)
        requires
            old(self).wf(),
        ensures
            final(self).wf(),
            old(self).rest().len() == 0 ==> r is None && final(self).rest() == old(self).rest(),
            old(self).rest().len() > 0 ==> r == Some(old(self).rest().last()) && final(self).rest()
                == old(self).rest().drop_last(),
    {
        if self.is_empty {
            None
        } else {
            let last = self.back;
            proof {
                lemma_last_shown(self.states(), self.scene.surfaces@, self.full(), self.lo@, self.hi@);
            }
            self.retreat();
            Some(last)
        }
    }
}

impl<'a, S: Shell> SubsurfaceIter<'a, S> {
    /// All that is left, from bottom to top.
    pub fn collect(self) -> (r: Vec<(u64, Point)>)
        requires
            self.wf(),
        ensures
            r@ == self.rest(),
    {
        let mut iter = self;
        let mut list: Vec<(u64, Point)> = Vec::new();
        loop
            invariant_except_break
                iter.wf(),
                list@ + iter.rest() == self.rest(),
            ensures
                list@ == self.rest(),
            decreases iter.rest().len(),
        {
            let ghost before = iter.rest();
            match iter.next() {
                Some(item) => {
                    list.push(item);
                    proof {
                        assert(list@ + iter.rest() =~= list@.drop_last() + before);
                        assert(list@ + iter.rest() =~= self.rest());
                    }
                },
                None => {
                    proof {
                        assert(list@ =~= list@ + before);
                    }
                    break;
                },
            }
        }
        list
    }

    /// All that is left, from top to bottom.
    pub fn collect_back(self) -> (r: Vec<(u64, Point)>)
        requires
            self.wf(),
        ensures
            r@ == self.rest().reverse(),
    {
        let mut iter = self;
        let mut list: Vec<(u64, Point)> = Vec::new();
        proof {
            assert(list@ + iter.rest().reverse() =~= self.rest().reverse());
        }
        loop
            invariant_except_break
                iter.wf(),
                list@ + iter.rest().reverse() == self.rest().reverse(),
            ensures
                list@ == self.rest().reverse(),
            decreases iter.rest().len(),
        {
            let ghost before = iter.rest();
            match iter.next_back() {
                Some(item) => {
                    list.push(item);
                    proof {
                        assert(list@ + iter.rest().reverse() =~= list@.drop_last() + before.reverse());
                        assert(list@ + iter.rest().reverse() =~= self.rest().reverse());
                    }
                },
                None => {
                    proof {
                        assert(list@ =~= list@ + before.reverse());
                    }
                    break;
                },
            }
        }
        list
    }
}

/// An empty list shows nothing.
proof fn lemma_none_shown(m: States, surfaces: Seq<Surface>)
    ensures
        shown_only(m, surfaces, Seq::empty()) == Seq::<(u64, Point)>::empty(),
{
    reveal(Seq::filter);
}

/// A list shows what its parts show.
proof fn lemma_shown_add(m: States, surfaces: Seq<Surface>, a: Seq<(u64, Point)>, b: Seq<(u64, Point)>)
    ensures
        shown_only(m, surfaces, a + b) == shown_only(m, surfaces, a) + shown_only(m, surfaces, b),
{
    Seq::filter_distributes_over_add(a, b, |e: (u64, Point)| shows(m, surfaces, e.0));
}

/// What a list of one element shows.
proof fn lemma_shown_one(m: States, surfaces: Seq<Surface>, e: (u64, Point))
    ensures
        shown_only(m, surfaces, seq![e]) == if shows(m, surfaces, e.0) {
            seq![e]
        } else {
            Seq::empty()
        },
{
    reveal(Seq::filter);
    let pred = |e: (u64, Point)| shows(m, surfaces, e.0);
    assert(seq![e].drop_last() =~= Seq::empty());
    assert(Seq::<(u64, Point)>::empty().filter(pred) =~= Seq::empty());
    assert(seq![e].filter(pred) =~= if shows(m, surfaces, e.0) {
        seq![e]
    } else {
        Seq::empty()
    });
}

proof fn lemma_skip_hidden(m: States, surfaces: Seq<Surface>, full: Seq<(u64, Point)>, lo: int, hi: int)
    requires
        0 <= lo <= hi < full.len(),
        !shows(m, surfaces, full[lo].0),
    ensures
        shown_only(m, surfaces, full.subrange(lo, hi + 1)) == shown_only(m, surfaces, full.subrange(lo + 1, hi + 1)),
{
    assert(full.subrange(lo, hi + 1) =~= seq![full[lo]] + full.subrange(lo + 1, hi + 1));
    lemma_shown_add(m, surfaces, seq![full[lo]], full.subrange(lo + 1, hi + 1));
    lemma_shown_one(m, surfaces, full[lo]);
    assert(Seq::<(u64, Point)>::empty() + shown_only(m, surfaces, full.subrange(lo + 1, hi + 1)) =~= shown_only(
        m,
        surfaces,
        full.subrange(lo + 1, hi + 1),
    ));
}

proof fn lemma_skip_hidden_back(m: States, surfaces: Seq<Surface>, full: Seq<(u64, Point)>, lo: int, hi: int)
    requires
        0 <= lo <= hi < full.len(),
        !shows(m, surfaces, full[hi].0),
    ensures
        shown_only(m, surfaces, full.subrange(lo, hi + 1)) == shown_only(m, surfaces, full.subrange(lo, hi)),
{
    assert(full.subrange(lo, hi + 1) =~= full.subrange(lo, hi) + seq![full[hi]]);
    lemma_shown_add(m, surfaces, full.subrange(lo, hi), seq![full[hi]]);
    lemma_shown_one(m, surfaces, full[hi]);
    assert(shown_only(m, surfaces, full.subrange(lo, hi)) + Seq::<(u64, Point)>::empty() =~= shown_only(
        m,
        surfaces,
        full.subrange(lo, hi),
    ));
}

proof fn lemma_first_shown(m: States, surfaces: Seq<Surface>, full: Seq<(u64, Point)>, lo: int, hi: int)
    requires
        0 <= lo <= hi < full.len(),
        shows(m, surfaces, full[lo].0),
    ensures
        shown_only(m, surfaces, full.subrange(lo, hi + 1)).len() > 0,
        shown_only(m, surfaces, full.subrange(lo, hi + 1))[0] == full[lo],
        shown_only(m, surfaces, full.subrange(lo, hi + 1)).skip(1) == shown_only(
            m,
            surfaces,
            full.subrange(lo + 1, hi + 1),
        ),
{
    let tail = shown_only(m, surfaces, full.subrange(lo + 1, hi + 1));
    assert(full.subrange(lo, hi + 1) =~= seq![full[lo]] + full.subrange(lo + 1, hi + 1));
    lemma_shown_add(m, surfaces, seq![full[lo]], full.subrange(lo + 1, hi + 1));
    lemma_shown_one(m, surfaces, full[lo]);
    assert((seq![full[lo]] + tail).skip(1) =~= tail);
}

proof fn lemma_last_shown(m: States, surfaces: Seq<Surface>, full: Seq<(u64, Point)>, lo: int, hi: int)
    requires
        0 <= lo <= hi < full.len(),
        shows(m, surfaces, full[hi].0),
    ensures
        shown_only(m, surfaces, full.subrange(lo, hi + 1)).len() > 0,
        shown_only(m, surfaces, full.subrange(lo, hi + 1)).last() == full[hi],
        shown_only(m, surfaces, full.subrange(lo, hi + 1)).drop_last() == shown_only(
            m,
            surfaces,
            full.subrange(lo, hi),
        ),
{
    let body = shown_only(m, surfaces, full.subrange(lo, hi));
    assert(full.subrange(lo, hi + 1) =~= full.subrange(lo, hi) + seq![full[hi]]);
    lemma_shown_add(m, surfaces, full.subrange(lo, hi), seq![full[hi]]);
    lemma_shown_one(m, surfaces, full[hi]);
    assert((body + seq![full[hi]]).drop_last() =~= body);
}

/// Double ended iterator for iterating over a surface and its subsurfaces in the
/// order they are stacked.
///
/// The forward order is from bottom to top. This iterates over the committed
/// states of the surfaces, as defined by `wl_surface.commit`, and skips the
/// states of subsurfaces that were deactivated.
pub fn subsurface_iter<S: Shell>(root: u64, scene: &Scene<S>) -> (r: SubsurfaceIter<'_, S>)
    requires
        scene.shell.valid(),
        visible(scene.shell.states(), scene.surfaces@, root),
    ensures
        r.wf(),
        r.states() == scene.shell.states(),
        r.rest() == shown_only(
            scene.shell.states(),
            scene.surfaces@,
            order(scene.shell.states(), root, Point::spec_origin()),
        ),
{
    let ghost m = scene.shell.states();
    let ghost surfaces = scene.surfaces@;
    let front = SurfaceState::bottom(root, &scene.shell);
    let back = SurfaceState::top(root, &scene.shell);
    let ghost full = order(m, root, Point::spec_origin());
    let mut iter = SubsurfaceIter {
        scene,
        front,
        back,
        is_empty: false,
        root: Ghost(root),
        lo: Ghost(0),
        hi: Ghost(full.len() - 1),
    };
    let ghost target = shown_only(m, surfaces, full);
    proof {
        assert(full.subrange(0, full.len() as int) =~= full);
    }
    // Neither end may be a deactivated surface.
    loop
        invariant_except_break
            iter.positioned(),
            iter.scene == scene,
            iter.root@ == root,
            m == scene.shell.states(),
            surfaces == scene.surfaces@,
            full == iter.full(),
            !iter.is_empty,
            iter.rest() == target,
        ensures
            iter.positioned(),
            iter.scene == scene,
            iter.root@ == root,
            iter.rest() == target,
            !iter.is_empty ==> shows(m, surfaces, iter.front.0),
        decreases iter.hi@ - iter.lo@,
    {
        proof {
            lemma_around(m, surfaces, root, Point::spec_origin(), iter.lo@);
        }
        if iter.is_shown(iter.front.0) {
            break;
        }
        proof {
            lemma_skip_hidden(m, surfaces, full, iter.lo@, iter.hi@);
        }
        iter.step_forward();
        if iter.is_empty {
            proof {
                assert(full.subrange(iter.hi@ + 1, iter.hi@ + 1) =~= Seq::empty());
                lemma_none_shown(m, surfaces);
            }
            break;
        }
    }
    if !iter.is_empty {
        proof {
            lemma_around(m, surfaces, root, Point::spec_origin(), iter.hi@);
        }
        if !iter.is_shown(iter.back.0) {
            proof {
                lemma_skip_hidden_back(m, surfaces, full, iter.lo@, iter.hi@);
            }
            iter.retreat();
        }
    }
    iter
}

/// What a list shows is in the list, and what is in the list and is shown is shown by
/// the list, as often.
proof fn lemma_shown(m: States, surfaces: Seq<Surface>, list: Seq<(u64, Point)>)
    ensures
        forall|k: int|
            #![trigger shown_only(m, surfaces, list)[k]]
            0 <= k < shown_only(m, surfaces, list).len() ==> shows(m, surfaces, shown_only(m, surfaces, list)[k].0)
                && list.contains(shown_only(m, surfaces, list)[k]),
        forall|j: int|
            #![trigger list[j]]
            0 <= j < list.len() && shows(m, surfaces, list[j].0) ==> shown_only(m, surfaces, list).contains(list[j]),
        states_differ(list) ==> states_differ(shown_only(m, surfaces, list)),
    decreases list.len(),
{
    let shown = shown_only(m, surfaces, list);
    if list.len() == 0 {
        assert(list =~= Seq::empty());
        lemma_none_shown(m, surfaces);
    } else {
        let head = list.drop_last();
        let last = list.last();
        let before = shown_only(m, surfaces, head);
        lemma_shown(m, surfaces, head);
        assert(list =~= head + seq![last]);
        lemma_shown_add(m, surfaces, head, seq![last]);
        lemma_shown_one(m, surfaces, last);
        assert forall|k: int|
            #![trigger shown[k]]
            0 <= k < shown.len() implies shows(m, surfaces, shown[k].0) && list.contains(shown[k]) by {
            if k < before.len() {
                assert(shown[k] == before[k]);
                let j = choose|j: int| 0 <= j < head.len() && head[j] == before[k];
                assert(list[j] == shown[k]);
            } else {
                assert(list[list.len() - 1] == shown[k]);
            }
        }
        assert forall|j: int|
            #![trigger list[j]]
            0 <= j < list.len() && shows(m, surfaces, list[j].0) implies shown.contains(list[j]) by {
            if j < head.len() {
                assert(head[j] == list[j]);
                let k = choose|k: int| 0 <= k < before.len() && before[k] == head[j];
                assert(shown[k] == list[j]);
            } else {
                assert(shown[shown.len() - 1] == list[j]);
            }
        }
        if states_differ(list) {
            assert(states_differ(head)) by {
                assert forall|j: int, k: int|
                    #![trigger head[j], head[k]]
                    0 <= j < k < head.len() implies head[j].0 != head[k].0 by {
                    assert(list[j].0 != list[k].0);
                }
            }
            assert forall|j: int, k: int|
                #![trigger shown[j], shown[k]]
                0 <= j < k < shown.len() implies shown[j].0 != shown[k].0 by {
                if k < before.len() {
                    assert(before[j].0 != before[k].0);
                } else {
                    assert(shown[j] == before[j]);
                    let i = choose|i: int| 0 <= i < head.len() && head[i] == before[j];
                    assert(list[i].0 != list[list.len() - 1].0);
                }
            }
        }
    }
}

/// No state is listed twice.
pub open spec fn states_differ(list: Seq<(u64, Point)>) -> bool {
    forall|j: int, k: int| #![trigger list[j], list[k]] 0 <= j < k < list.len() ==> list[j].0 != list[k].0
}

/// The state is listed.
pub open spec fn lists(list: Seq<(u64, Point)>, x: u64) -> bool {
    exists|k: int| 0 <= k < list.len() && (#[trigger] list[k]).0 == x
}

/// [`subsurface_iter`] goes through each state that is shown with `root`, and whose
/// surface is active, exactly once. Each comes with the sum of the positions on the
/// way from `root` to it, and `root` itself with none.
pub proof fn each_is_shown_once(m: States, surfaces: Seq<Surface>, root: u64)
    requires
        visible(m, surfaces, root),
    ensures
        ({
            let list = shown_only(m, surfaces, order(m, root, Point::spec_origin()));
            &&& states_differ(list)
            &&& forall|x: u64| #[trigger] lists(list, x) <==> reaches(m, root, x) && shows(m, surfaces, x)
            &&& forall|k: int| 0 <= k < list.len() ==> (#[trigger] list[k]).1 == place(m, root, list[k].0)
            &&& place(m, root, root) == Point::spec_origin()
        }),
{
    let full = order(m, root, Point::spec_origin());
    let list = shown_only(m, surfaces, full);
    assert(states_differ(full)) by {
        assert forall|j: int, k: int|
            #![trigger full[j], full[k]]
            0 <= j < k < full.len() implies full[j].0 != full[k].0 by {
            if full[j].0 == full[k].0 {
                lemma_once(m, surfaces, root, Point::spec_origin(), j, k);
            }
        }
    }
    lemma_shown(m, surfaces, full);
    assert forall|k: int| 0 <= k < list.len() implies reaches(m, root, list[k].0) && (#[trigger] list[k]).1 == place(
        m,
        root,
        list[k].0,
    ) by {
        let j = choose|j: int| 0 <= j < full.len() && full[j] == list[k];
        lemma_around(m, surfaces, root, Point::spec_origin(), j);
        lemma_place(m, root, full[j].0, full[j].1);
        point_laws(place(m, root, full[j].0), Point::spec_origin(), Point::spec_origin());
    }
    assert forall|x: u64| #[trigger] lists(list, x) <==> reaches(m, root, x) && shows(m, surfaces, x) by {
        if reaches(m, root, x) && shows(m, surfaces, x) {
            let j = lemma_occurs(m, root, Point::spec_origin(), x);
            assert(list.contains(full[j]));
            let k = choose|k: int| 0 <= k < list.len() && list[k] == full[j];
            assert(list[k].0 == x);
        }
    }
}

/// What is shown with a state after a commit is shown with it by the stacks from
/// before the commit.
proof fn lemma_committed_reach(m: States, m2: States, current: u64, n: u64, a: u64, x: u64)
    requires
        committed(m, m2, current, n),
        linked(m2),
        m2.contains_key(a),
        reaches(m2, a, x),
    ensures
        reaches(m.insert(n, m2[n]), a, x),
    decreases a,
{
    let mm = m.insert(n, m2[n]);
    if a != x {
        let c = choose|c: u64| c < a && #[trigger] has_child(m2, a, c) && reaches(m2, c, x);
        assert(state_linked(m2, a));
        lemma_committed_reach(m, m2, current, n, c, x);
        let i = choose|i: int| child_at(m2, a, c, i);
        if a != n {
            assert(m.contains_key(a));
        }
        assert(child_at(mm, a, c, i));
        assert(has_child(mm, a, c));
    }
}

/// A commit makes all that is shown with the new state `n` visible, so that it
/// can be gone through with [`subsurface_iter`], provided that nothing is shown
/// twice, that parents which are kept are those which show the state, and that
/// the roles know their place.
pub proof fn commit_makes_visible(m: States, m2: States, surfaces: Seq<Surface>, current: u64, n: u64)
    requires
        committed(m, m2, current, n),
        linked(m2),
        forall|t: u64| m.contains_key(t) ==> t < n,
        m2[n].surface < surfaces.len(),
        forall|t: u64, u: u64, c: u64|
            reaches(m2, n, t) && reaches(m2, n, u) && #[trigger] has_child(m2, t, c) && #[trigger] has_child(m2, u, c)
                ==> t == u,
        forall|t: u64, c: u64|
            reaches(m2, n, t) && #[trigger] has_child(m2, t, c) && !freeable(m, current).contains(c)
                && m[c].spec_parent() is Some ==> m[c].spec_parent() == Some(t),
        forall|t: u64, c: u64, i: int|
            reaches(m2, n, t) && #[trigger] child_at(m2, t, c, i) ==> {
                &&& m2[c].surface < surfaces.len()
                &&& has_subsurface_role(surfaces, m2[c].surface as int)
                &&& surfaces[m2[c].surface as int].role->0->Subsurface_0.stack_index == entries_of(m2, t)[i].0
            },
    ensures
        visible(m2, surfaces, n),
{
    let mm = m.insert(n, m2[n]);
    assert(m2.contains_key(n));
    assert forall|t: u64, c: u64, i: int| reaches(m2, n, t) && #[trigger] child_at(m2, t, c, i) implies link(
        m2,
        surfaces,
        t,
        c,
        i,
    ) by {
        assert(has_child(m2, t, c));
        lemma_reach_live(m2, n, t);
        assert(state_linked(m2, t));
        lemma_reach_step(m2, n, t, c);
        lemma_reach_older(m2, n, t);
        lemma_committed_reach(m, m2, current, n, n, c);
        assert(m.contains_key(c) && m2.contains_key(c));
        if freeable(m, current).contains(c) || m[c].spec_parent() is None {
            let a = choose|a: u64| reaches(mm, n, a) && #[trigger] has_child(mm, a, c) && m2[c].spec_parent() == Some(a);
            lemma_kept_reach(m, m2, current, n, a);
            let j = choose|j: int| child_at(mm, a, c, j);
            if a != n {
                assert(m.contains_key(a));
            }
            assert(child_at(m2, a, c, j));
            assert(has_child(m2, a, c));
            assert(a == t);
        }
    }
}

/// What is shown with the new state by the stacks from before a commit is shown
/// with it afterwards.
proof fn lemma_kept_reach(m: States, m2: States, current: u64, n: u64, x: u64)
    requires
        committed(m, m2, current, n),
        linked(m2),
        forall|t: u64| m.contains_key(t) ==> t < n,
        reaches(m.insert(n, m2[n]), n, x),
    ensures
        reaches(m2, n, x),
        m2.contains_key(x),
    decreases n - x,
{
    let mm = m.insert(n, m2[n]);
    if x == n {
        assert(m2.contains_key(n));
        assert(reaches(m2, n, n));
    } else {
        let p = lemma_reach_parent(mm, n, x);
        lemma_reach_older(mm, n, p);
        lemma_kept_reach(m, m2, current, n, p);
        let i = choose|i: int| child_at(mm, p, x, i);
        if p != n {
            assert(m.contains_key(p));
        }
        assert(child_at(m2, p, x, i));
        assert(has_child(m2, p, x));
        assert(state_linked(m2, p));
        lemma_reach_step(m2, n, p, x);
    }
}

} // verus!
