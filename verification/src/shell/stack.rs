//! Stacks of surfaces, kept in a [`dlv_list::VecList`].
//!
//! Every surface state has a stack, which holds the surface itself and its
//! immediate subsurfaces, in the order in which they are shown. An entry keeps
//! its index for as long as it is in the list, whatever is added or removed
//! around it.
use dlv_list::{Index, VecList};
use vstd::prelude::*;
use crate::shell::geometry::Point;

verus! {

/// An entry in a surface's stack.
///
/// Each surface has a stack, composed of the surface itself and its
/// subsurfaces.
#[derive(Clone, Copy, Debug, PartialEq, Eq, Structural)]
pub enum SurfaceStackEntry {
    /// The surface itself.
    Self_,
    /// A subsurface.
    Subsurface { token: u64, position: Point },
}

/// Index into a surface's stack.
#[derive(Clone, Copy, Debug)]
pub struct SurfaceStackIndex(pub Index<SurfaceStackEntry>);

/// The linked list of the `dlv_list` crate.
#[verifier::external_type_specification]
#[verifier::external_body]
#[verifier::reject_recursive_types(T)]
pub struct ExVecList<T>(dlv_list::VecList<T>);

/// The index type of the `dlv_list` crate.
#[verifier::external_type_specification]
#[verifier::external_body]
#[verifier::reject_recursive_types(T)]
pub struct ExIndex<T>(dlv_list::Index<T>);

/// What a stack holds, from the front of the list to its back: the index of
/// each entry, and the entry.
pub uninterp spec fn stack_entries(stack: VecList<SurfaceStackEntry>) -> Seq<
    (Index<SurfaceStackEntry>, SurfaceStackEntry),
>;

/// No index is given to two entries.
pub open spec fn distinct_indices(entries: Seq<(Index<SurfaceStackEntry>, SurfaceStackEntry)>) -> bool {
    forall|i: int, j: int|
        #![trigger entries[i], entries[j]]
        0 <= i < j < entries.len() ==> entries[i].0 != entries[j].0
}

/// The entry at position `i` has the index `index`.
pub open spec fn index_at(
    entries: Seq<(Index<SurfaceStackEntry>, SurfaceStackEntry)>,
    index: Index<SurfaceStackEntry>,
    i: int,
) -> bool {
    0 <= i < entries.len() && entries[i].0 == index
}

/// Some entry has the index `index`.
pub open spec fn has_index(
    entries: Seq<(Index<SurfaceStackEntry>, SurfaceStackEntry)>,
    index: Index<SurfaceStackEntry>,
) -> bool {
    exists|i: int| index_at(entries, index, i)
}

/// [`VecList::new`]: the list is empty.
#[verifier::external_body]
pub(crate) fn new_stack() -> (r: VecList<SurfaceStackEntry>)
    ensures
        stack_entries(r) == Seq::<(Index<SurfaceStackEntry>, SurfaceStackEntry)>::empty(),
{
    VecList::new()
}

/// [`VecList::push_back`]: the value becomes the last one, at an index that no
/// other entry of the list has. The list panics when it is as long as `usize`
/// can count.
#[verifier::external_body]
pub(crate) fn push_back(stack: &mut VecList<SurfaceStackEntry>, entry: SurfaceStackEntry) -> (r: Index<SurfaceStackEntry>)
    requires
        stack_entries(*old(stack)).len() < usize::MAX - 1,
    ensures
        stack_entries(*final(stack)) == stack_entries(*old(stack)).push((r, entry)),
        !has_index(stack_entries(*old(stack)), r),
{
    stack.push_back(entry)
}

/// [`VecList::push_front`]: the value becomes the first one, at an index that
/// no other entry of the list has. The list panics when it is as long as
/// `usize` can count.
#[verifier::external_body]
pub(crate) fn push_front(stack: &mut VecList<SurfaceStackEntry>, entry: SurfaceStackEntry) -> (r: Index<SurfaceStackEntry>)
    requires
        stack_entries(*old(stack)).len() < usize::MAX - 1,
    ensures
        stack_entries(*final(stack)) == seq![(r, entry)] + stack_entries(*old(stack)),
        !has_index(stack_entries(*old(stack)), r),
{
    stack.push_front(entry)
}

/// [`VecList::front_index`]: the index of the first entry.
#[verifier::external_body]
pub(crate) fn front_index(stack: &VecList<SurfaceStackEntry>) -> (r: Option<Index<SurfaceStackEntry>>)
    ensures
        r == if stack_entries(*stack).len() > 0 {
            Some(stack_entries(*stack)[0].0)
        } else {
            None
        },
{
    stack.front_index()
}

/// [`VecList::front`]: the first entry.
#[verifier::external_body]
pub(crate) fn front(stack: &VecList<SurfaceStackEntry>) -> (r: Option<SurfaceStackEntry>)
    ensures
        r == if stack_entries(*stack).len() > 0 {
            Some(stack_entries(*stack)[0].1)
        } else {
            None
        },
{
    stack.front().copied()
}

/// [`VecList::back`]: the last entry.
#[verifier::external_body]
pub(crate) fn back(stack: &VecList<SurfaceStackEntry>) -> (r: Option<SurfaceStackEntry>)
    ensures
        r == if stack_entries(*stack).len() > 0 {
            Some(stack_entries(*stack).last().1)
        } else {
            None
        },
{
    stack.back().copied()
}

/// [`VecList::get`]: the entry with the given index, if the list has one.
#[verifier::external_body]
pub(crate) fn get(stack: &VecList<SurfaceStackEntry>, index: Index<SurfaceStackEntry>) -> (r: Option<SurfaceStackEntry>)
    ensures
        r is Some == has_index(stack_entries(*stack), index),
        forall|i: int|
            #![trigger index_at(stack_entries(*stack), index, i)]
            index_at(stack_entries(*stack), index, i) ==> r == Some(stack_entries(*stack)[i].1),
{
    stack.get(index).copied()
}

/// [`VecList::get_mut`], used to overwrite the entry with the given index.
/// Nothing happens to a list that has no such entry.
#[verifier::external_body]
pub(crate) fn set_entry(stack: &mut VecList<SurfaceStackEntry>, index: Index<SurfaceStackEntry>, entry: SurfaceStackEntry)
    requires
        has_index(stack_entries(*old(stack)), index),
    ensures
        forall|i: int|
            #![trigger index_at(stack_entries(*old(stack)), index, i)]
            index_at(stack_entries(*old(stack)), index, i) ==> stack_entries(*final(stack))
                == stack_entries(*old(stack)).update(i, (index, entry)),
{
    *stack.get_mut(index).unwrap() = entry;
}

/// [`VecList::remove`]: takes the entry with the given index out of the list.
/// The call panics on an index that lies beyond all that the list ever held.
#[verifier::external_body]
pub(crate) fn remove(stack: &mut VecList<SurfaceStackEntry>, index: Index<SurfaceStackEntry>) -> (r: Option<SurfaceStackEntry>)
    requires
        has_index(stack_entries(*old(stack)), index),
    ensures
        forall|i: int|
            #![trigger index_at(stack_entries(*old(stack)), index, i)]
            index_at(stack_entries(*old(stack)), index, i) ==> {
                &&& r == Some(stack_entries(*old(stack))[i].1)
                &&& stack_entries(*final(stack)) == stack_entries(*old(stack)).remove(i)
            },
{
    stack.remove(index)
}

/// [`VecList::get_next_index`]: the index of the entry behind the one with the
/// given index. There is none behind the last entry, nor behind an index that
/// the list does not have.
#[verifier::external_body]
pub(crate) fn get_next_index(stack: &VecList<SurfaceStackEntry>, index: Index<SurfaceStackEntry>) -> (r: Option<
    Index<SurfaceStackEntry>,
>)
    ensures
        !has_index(stack_entries(*stack), index) ==> r is None,
        forall|i: int|
            #![trigger index_at(stack_entries(*stack), index, i)]
            index_at(stack_entries(*stack), index, i) ==> r == if i + 1 < stack_entries(*stack).len() {
                Some(stack_entries(*stack)[i + 1].0)
            } else {
                None
            },
{
    stack.get_next_index(index)
}

/// [`VecList::get_previous_index`]: the index of the entry before the one with
/// the given index. There is none before the first entry, nor before an index
/// that the list does not have.
#[verifier::external_body]
pub(crate) fn get_previous_index(stack: &VecList<SurfaceStackEntry>, index: Index<SurfaceStackEntry>) -> (r: Option<
    Index<SurfaceStackEntry>,
>)
    ensures
        !has_index(stack_entries(*stack), index) ==> r is None,
        forall|i: int|
            #![trigger index_at(stack_entries(*stack), index, i)]
            index_at(stack_entries(*stack), index, i) ==> r == if i > 0 {
                Some(stack_entries(*stack)[i - 1].0)
            } else {
                None
            },
{
    stack.get_previous_index(index)
}

/// `VecList::clone`: the copy holds the same entries at the same indices.
#[verifier::external_body]
pub(crate) fn clone_stack(stack: &VecList<SurfaceStackEntry>) -> (r: VecList<SurfaceStackEntry>)
    ensures
        stack_entries(r) == stack_entries(*stack),
{
    stack.clone()
}

impl SurfaceStackEntry {
    /// The position of an entry, relative to the surface the stack belongs to.
    pub open spec fn spec_position(self) -> Point {
        match self {
            SurfaceStackEntry::Self_ => Point::spec_origin(),
            SurfaceStackEntry::Subsurface { position, .. } => position,
        }
    }

    /// Position of a surface in a stack, relative to the surface the stack
    /// belongs to.
    pub fn position(&self) -> (r: Point)
        ensures
            r == self.spec_position(),
    {
        match *self {
            SurfaceStackEntry::Self_ => Point::new(0, 0),
            SurfaceStackEntry::Subsurface { position, .. } => position,
        }
    }

    /// Moves a subsurface. The surface the stack belongs to cannot be moved.
    pub fn set_position(&mut self, position: Point)
        requires
            *old(self) is Subsurface,
        ensures
            *final(self) == (SurfaceStackEntry::Subsurface { token: (*old(self))->token, position }),
    {
        if let SurfaceStackEntry::Subsurface { token, .. } = *self {
            *self = SurfaceStackEntry::Subsurface { token, position };
        }
    }
}

} // verus!
