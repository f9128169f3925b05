//! Telling clients which outputs their surfaces are on.
use vstd::prelude::*;
use crate::objects::input::EventHandlerAction;
use crate::server::maps::{ids_in, outputs_in, IdSet, OutputMap};

verus! {

/// A set of outputs, each known by a number.
pub struct OutputSet {
    pub outputs: IdSet,
}

impl OutputSet {
    pub open spec fn view(&self) -> Set<u32> {
        ids_in(self.outputs)
    }

    /// No outputs.
    pub fn new() -> (r: OutputSet)
        ensures
            r.view() == Set::<u32>::empty(),
    {
        OutputSet { outputs: IdSet::new() }
    }

    /// Adds an output.
    pub fn insert(&mut self, output: u32)
        ensures
            final(self).view() == old(self).view().insert(output),
    {
        self.outputs.insert(output);
    }

    /// Takes an output out.
    pub fn remove(&mut self, output: u32)
        ensures
            final(self).view() == old(self).view().remove(output),
    {
        self.outputs.remove(output);
    }

    /// Tells whether an output is in the set.
    pub fn contains(&self, output: u32) -> (r: bool)
        ensures
            r == self.view().contains(output),
    {
        self.outputs.contains(output)
    }
}

/// The output objects that a client has bound.
pub struct OutputState {
    /// For each output, the ids of the objects.
    pub all_outputs: OutputMap,
}

impl OutputState {
    /// The object `id` is bound to the output.
    pub open spec fn bound(&self, output: u32, id: u32) -> bool {
        outputs_in(self.all_outputs).contains_key(output) && outputs_in(self.all_outputs)[output].contains(id)
    }

    /// No output object is bound.
    pub fn new() -> (r: OutputState)
        ensures
            forall|output: u32, id: u32| !#[trigger] r.bound(output, id),
    {
        OutputState { all_outputs: OutputMap::new() }
    }

    /// The object `id` was bound to the output.
    pub fn bind(&mut self, output: u32, id: u32)
        ensures
            forall|o: u32, i: u32| #[trigger]
                final(self).bound(o, i) <==> old(self).bound(o, i) || (o == output && i == id),
    {
        self.all_outputs.entry(output).insert(id);
    }
}

/// What a client is told of a surface: the output objects that it has left, and then
/// those that it has entered.
#[derive(Debug)]
pub struct OutputMessages {
    pub leave: Vec<u32>,
    pub enter: Vec<u32>,
}

/// The outputs in `from` that are not in `to` and that the object `id` is bound to.
pub open spec fn lost(from: Set<u32>, to: Set<u32>, bound: OutputState, id: u32) -> Set<u32> {
    from.filter(|output: u32| !to.contains(output) && bound.bound(output, id))
}

/// Tells a client about the outputs that a surface is on.
pub struct OutputChangedEventHandler {
    /// Object id of the surface.
    pub object_id: u32,
    /// Current outputs that overlap with the surface.
    pub current_outputs: OutputSet,
}

/// The object ids that are bound to the outputs in `from` that are not in `to`, in an
/// order that is not fixed.
fn bound_to_difference(from: &OutputSet, to: &OutputSet, bound: &OutputState) -> (r: Vec<u32>)
    ensures
        forall|id: u32| #[trigger] r@.to_multiset().count(id) == lost(from.view(), to.view(), *bound, id).len(),
{
    let outputs = from.outputs.iter();
    let mut list: Vec<u32> = Vec::new();
    let mut i: usize = 0;
    proof {
        assert forall|id: u32| #[trigger] list@.to_multiset().count(id) == lost(
            outputs@.take(0).to_set(),
            to.view(),
            *bound,
            id,
        ).len() by {
            broadcast use vstd::seq_lib::group_to_multiset_ensures;
            assert(lost(outputs@.take(0).to_set(), to.view(), *bound, id) =~= Set::empty());
        }
    }
    while i < outputs.len()
        invariant
            0 <= i <= outputs@.len(),
            outputs@.no_duplicates(),
            outputs@.to_set() == from.view(),
            forall|id: u32| #[trigger]
                list@.to_multiset().count(id) == lost(outputs@.take(i as int).to_set(), to.view(), *bound, id).len(),
        decreases outputs@.len() - i,
    {
        let output: u32 = outputs[i];
        let ghost before = list@;
        let ghost part = outputs@.take(i as int).to_set();
        let ghost next = outputs@.take(i + 1).to_set();
        proof {
            lemma_next_item(outputs@, i as int);
            assert forall|id: u32| #[trigger] lost(next, to.view(), *bound, id) == if !to.view().contains(output)
                && bound.bound(output, id) {
                lost(part, to.view(), *bound, id).insert(output)
            } else {
                lost(part, to.view(), *bound, id)
            } by {
                if !to.view().contains(output) && bound.bound(output, id) {
                    assert(lost(next, to.view(), *bound, id) =~= lost(part, to.view(), *bound, id).insert(output));
                } else {
                    assert(lost(next, to.view(), *bound, id) =~= lost(part, to.view(), *bound, id));
                }
            }
            assert forall|id: u32| #[trigger] lost(part, to.view(), *bound, id).finite() by {}
        }
        if !to.contains(output) {
            if let Some(ids) = bound.all_outputs.get(output) {
                let ids = ids.iter();
                list = append_ids(list, &ids);
                proof {
                    assert forall|id: u32| ids@.contains(id) == #[trigger] bound.bound(output, id) by {
                        assert(ids@.to_set().contains(id) == ids@.contains(id));
                    }
                }
            }
        }
        proof {
            assert forall|id: u32| #[trigger] list@.to_multiset().count(id) == lost(next, to.view(), *bound, id).len() by {
                assert(before.to_multiset().count(id) == lost(part, to.view(), *bound, id).len());
                assert(lost(part, to.view(), *bound, id).finite());
                assert(!lost(part, to.view(), *bound, id).contains(output));
                assert(bound.bound(output, id) || !bound.bound(output, id));
            }
        }
        i = i + 1;
    }
    proof {
        assert(outputs@.take(i as int) =~= outputs@);
    }
    list
}

/// The first `n + 1` items are the first `n` items and one more.
proof fn lemma_next_item(items: Seq<u32>, n: int)
    requires
        0 <= n < items.len(),
        items.no_duplicates(),
    ensures
        items.take(n + 1).to_set() == items.take(n).to_set().insert(items[n]),
        !items.take(n).to_set().contains(items[n]),
        items.take(n).to_set().finite(),
{
    let before = items.take(n);
    let after = items.take(n + 1);
    assert forall|x: u32| #[trigger] after.contains(x) == (before.contains(x) || x == items[n]) by {
        if before.contains(x) {
            let j = choose|j: int| 0 <= j < before.len() && before[j] == x;
            assert(after[j] == x);
        }
        if x == items[n] {
            assert(after[n] == x);
        }
        if after.contains(x) && x != items[n] {
            let j = choose|j: int| 0 <= j < after.len() && after[j] == x;
            assert(before[j] == x);
        }
    }
    assert(after.to_set() =~= before.to_set().insert(items[n]));
    if before.contains(items[n]) {
        let j = choose|j: int| 0 <= j < before.len() && before[j] == items[n];
        assert(items[j] == items[n]);
    }
    vstd::seq_lib::seq_to_set_is_finite(before);
}

/// The list, followed by the ids, of which no two are the same.
fn append_ids(list: Vec<u32>, ids: &Vec<u32>) -> (r: Vec<u32>)
    requires
        ids@.no_duplicates(),
    ensures
        forall|id: u32| #[trigger]
            r@.to_multiset().count(id) == list@.to_multiset().count(id) + if ids@.contains(id) {
                1nat
            } else {
                0nat
            },
{
    let mut list = list;
    let ghost before = list@;
    let mut i: usize = 0;
    while i < ids.len()
        invariant
            0 <= i <= ids@.len(),
            ids@.no_duplicates(),
            forall|id: u32| #[trigger]
                list@.to_multiset().count(id) == before.to_multiset().count(id) + if ids@.take(i as int).to_set().contains(
                    id,
                ) {
                    1nat
                } else {
                    0nat
                },
        decreases ids@.len() - i,
    {
        let ghost last = list@;
        list.push(ids[i]);
        proof {
            broadcast use vstd::seq_lib::group_to_multiset_ensures;
            lemma_next_item(ids@, i as int);
            assert(list@.to_multiset() =~= last.to_multiset().insert(ids@[i as int]));
        }
        i = i + 1;
    }
    proof {
        assert(ids@.take(i as int) =~= ids@);
        assert forall|id: u32| ids@.to_set().contains(id) == #[trigger] ids@.contains(id) by {}
        assert forall|id: u32| #[trigger] list@.to_multiset().count(id) == before.to_multiset().count(id)
            + if ids@.contains(id) {
            1nat
        } else {
            0nat
        } by {
            assert(ids@.to_set().contains(id) == ids@.contains(id));
        }
    }
    list
}

impl OutputChangedEventHandler {
    /// The surface is on other outputs now. Each object that is bound to an output
    /// that was left or entered is told so, once for each such output. If the
    /// client has bound no output object, there is nothing to tell.
    pub fn handle_event(&mut self, new_outputs: OutputSet, bound: Option<&OutputState>) -> (r: (
        OutputMessages,
        EventHandlerAction,
    ))
        ensures
            r.1 == EventHandlerAction::Keep,
            final(self).object_id == old(self).object_id,
            final(self).current_outputs == new_outputs,
            match bound {
                None => r.0.leave@ == Seq::<u32>::empty() && r.0.enter@ == Seq::<u32>::empty(),
                Some(bound) => {
                    &&& forall|id: u32| #[trigger]
                        r.0.leave@.to_multiset().count(id) == lost(
                            old(self).current_outputs.view(),
                            new_outputs.view(),
                            *bound,
                            id,
                        ).len()
                    &&& forall|id: u32| #[trigger]
                        r.0.enter@.to_multiset().count(id) == lost(
                            new_outputs.view(),
                            old(self).current_outputs.view(),
                            *bound,
                            id,
                        ).len()
                },
            },
    {
        let messages = match bound {
            None => OutputMessages { leave: Vec::new(), enter: Vec::new() },
            Some(bound) => OutputMessages {
                leave: bound_to_difference(&self.current_outputs, &new_outputs, bound),
                enter: bound_to_difference(&new_outputs, &self.current_outputs, bound),
            },
        };
        self.current_outputs = new_outputs;
        (messages, EventHandlerAction::Keep)
    }
}

} // verus!
