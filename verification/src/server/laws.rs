//! What holds of a server, whatever its clients do.
use vstd::prelude::*;
use crate::objects::input::EventHandlerAction;
use crate::server::error::{spec_error_event, Error, ProtocolError};
use crate::server::events::{waiting, Aggregate, Arrival, Arrivals, ReceiverInner};
use crate::server::globals::Global;
use crate::server::handler::{keeps, HandlerOutput};
use crate::server::maps::AnyObject;
use crate::server::objects::{announcement, CoreEvent};
use crate::server::serial::{after, remembered, skipped};
use crate::server::signal::Signal;
use crate::server::store::{object_added, object_allocated, object_removed, Store, StoreEvent};
use crate::text::decimal;

verus! {

/// An object that was added is found under its id, all others stay, and those who listen
/// are told last of its id and its interface.
pub proof fn added_objects_are_found(before: Store, after: Store, id: u32, object: AnyObject, other: u32)
    requires
        object_added(before, after, id, object) || object_allocated(before, after, id, object),
    ensures
        after.objects().contains_key(id),
        after.objects()[id] == object,
        other != id ==> after.objects().contains_key(other) == before.objects().contains_key(other),
        other != id && before.objects().contains_key(other) ==> after.objects()[other] == before.objects()[other],
        after.pending().len() == before.pending().len() + 1,
        after.pending().drop_last() == before.pending(),
        after.pending().last() matches StoreEvent::Inserted { interface, object_id } && interface == object.interface
            && object_id == id,
{
    assert(after.pending().drop_last() =~= before.pending());
}

/// An object that was removed is not found any more, all others stay, and those who listen
/// are told last of its id and its interface.
pub proof fn removed_objects_are_gone(before: Store, after: Store, id: u32, other: u32)
    requires
        object_removed(before, after, id),
        before.objects().contains_key(id),
    ensures
        !after.objects().contains_key(id),
        other != id ==> after.objects().contains_key(other) == before.objects().contains_key(other),
        other != id && before.objects().contains_key(other) ==> after.objects()[other] == before.objects()[other],
        after.pending().len() == before.pending().len() + 1,
        after.pending().drop_last() == before.pending(),
        after.pending().last() matches StoreEvent::Removed { interface, object_id } && interface
            == before.objects()[id].interface && object_id == id,
{
    assert(after.pending().drop_last() =~= before.pending());
}

/// Removing an object that was added takes the store back to where it was, but for what is
/// told, and for where the server looks for ids.
pub proof fn removing_undoes_adding(before: Store, mid: Store, after: Store, id: u32, object: AnyObject)
    requires
        object_added(before, mid, id, object),
        object_removed(mid, after, id),
        !before.objects().contains_key(id),
        object.state is None ==> !before.states().contains_key(object.type_id),
        before.states().contains_key(object.type_id) ==> 0 < before.states()[object.type_id].1 < u64::MAX,
    ensures
        after.objects() == before.objects(),
        after.states() == before.states(),
        after.pending().len() == before.pending().len() + 2,
{
    assert(after.objects() =~= before.objects());
    assert(after.states() =~= before.states());
}

/// The first object of a type that has a state brings its own. Others share it, and count
/// themselves. The state goes with the last one. No other type is concerned.
pub proof fn states_are_shared(states: Map<u64, (u64, u64)>, object: AnyObject, other: u64)
    requires
        states.contains_key(object.type_id) ==> 0 < states[object.type_id].1 < u64::MAX,
        other != object.type_id,
    ensures
        ({
            let t = object.type_id;
            let with = Store::states_with(states, object);
            let without = Store::states_without(states, object);
            &&& object.state matches Some(state) ==> {
                &&& with.contains_key(t)
                &&& !states.contains_key(t) ==> with[t].0 == state && with[t].1 == 1
                &&& states.contains_key(t) ==> with[t].0 == states[t].0 && with[t].1 == states[t].1 + 1
            }
            &&& object.state is None ==> with == states
            &&& states.contains_key(t) ==> (without.contains_key(t) <==> states[t].1 > 1)
            &&& without.contains_key(t) ==> without[t].0 == states[t].0 && without[t].1 == states[t].1 - 1
            &&& with.contains_key(other) == states.contains_key(other) && without.contains_key(other)
                == states.contains_key(other)
            &&& states.contains_key(other) ==> with[other] == states[other] && without[other] == states[other]
        }),
{
}

/// An id that the server chose is out of reach for clients. Each takes one of those that
/// are left, which is given back when the object is removed.
pub proof fn server_ids_are_counted(before: Store, mid: Store, after: Store, id: u32, object: AnyObject)
    requires
        object_allocated(before, mid, id, object),
        object_removed(mid, after, id),
    ensures
        id >= 0xff00_0000,
        !before.objects().contains_key(id),
        mid.left() + 1 == before.left(),
        after.left() == before.left(),
        mid.next() >= 0xff00_0000,
        mid.next() != id,
        id < u32::MAX ==> mid.next() == id + 1,
{
}

/// A handler is kept only if it asks for it: one that fails, or that asks to be stopped, is
/// not.
pub proof fn handlers_ask_to_be_kept(output: HandlerOutput)
    ensures
        output == Ok::<EventHandlerAction, ()>(EventHandlerAction::Keep) ==> keeps(output),
        output == Ok::<EventHandlerAction, ()>(EventHandlerAction::Stop) ==> !keeps(output),
        output is Err ==> !keeps(output),
{
}

/// The tasks that are woken up by an event are those that wait for it, and no others.
pub proof fn waiting_tasks_are_woken<E>(receivers: Seq<ReceiverInner<E>>, n: int, task: u64)
    requires
        0 <= n <= receivers.len(),
    ensures
        waiting(receivers, n).contains(task) <==> exists|i: int| 0 <= i < n && (#[trigger] receivers[i]).waker == Some(task),
    decreases n,
{
    if n > 0 {
        waiting_tasks_are_woken(receivers, n - 1, task);
        let before = waiting(receivers, n - 1);
        let all = waiting(receivers, n);
        if before.contains(task) {
            let i = choose|i: int| 0 <= i < before.len() && before[i] == task;
            assert(all[i] == task);
        }
        if receivers[n - 1].waker == Some(task) {
            assert(all[before.len() as int] == task);
        }
        if all.contains(task) {
            let i = choose|i: int| 0 <= i < all.len() && all[i] == task;
            if i < before.len() {
                assert(before[i] == task);
                let j = choose|j: int| 0 <= j < n - 1 && (#[trigger] receivers[j]).waker == Some(task);
                assert(receivers[j].waker == Some(task));
            } else {
                assert(receivers[n - 1].waker == Some(task));
            }
        }
        if exists|i: int| 0 <= i < n && (#[trigger] receivers[i]).waker == Some(task) {
            let i = choose|i: int| 0 <= i < n && (#[trigger] receivers[i]).waker == Some(task);
            if i < n - 1 {
                assert(receivers[i].waker == Some(task));
            }
        }
    }
}

/// An object that came is seen behind all others, and one that went is not seen. Nothing
/// else changes.
pub proof fn arrivals_are_merged(items: Seq<Arrival>, id: u32, other: Arrival)
    ensures
        Arrivals::merged(items, Arrival::Came(id)).drop_last() == items,
        Arrivals::merged(items, Arrival::Came(id)).last() == Arrival::Came(id),
        !Arrivals::merged(items, Arrival::Went(id)).contains(Arrival::Came(id)),
        other != Arrival::Came(id) ==> Arrivals::merged(items, Arrival::Went(id)).contains(other) == items.contains(other),
    decreases items.len(),
{
    let pred = |item: Arrival| item != Arrival::Came(id);
    assert(items.push(Arrival::Came(id)).drop_last() =~= items);
    reveal(Seq::filter);
    let all = items.filter(pred);
    if items.len() > 0 {
        let rest = items.drop_last();
        arrivals_are_merged(rest, id, other);
        let part = rest.filter(pred);
        let last = items.last();
        assert(items =~= rest.push(last));
        lemma_push_contains(rest, last, other);
        lemma_push_contains(part, last, other);
        lemma_push_contains(part, last, Arrival::Came(id));
    }
}

proof fn lemma_push_contains(items: Seq<Arrival>, last: Arrival, x: Arrival)
    ensures
        items.push(last).contains(x) <==> items.contains(x) || x == last,
{
    let all = items.push(last);
    if items.contains(x) {
        let i = choose|i: int| 0 <= i < items.len() && items[i] == x;
        assert(all[i] == x);
    }
    assert(all[items.len() as int] == last);
    if all.contains(x) && x != last {
        let i = choose|i: int| 0 <= i < all.len() && all[i] == x;
        assert(items[i] == x);
    }
}

/// A client is told of what it did wrong, as an error of the display, and is then
/// disconnected. It is not told that the connection failed, because it would not hear of it.
pub proof fn errors_of_clients_are_told(id: u32, reason: String)
    ensures
        ({
            let told = |e: Error| spec_error_event(Err(e));
            let number = decimal(id as nat);
            &&& told(Error::UnknownObject(id)) == Some((1u32, 0u32, "Unknown object: "@ + number))
            &&& told(Error::UnknownGlobal(id)) == Some((1u32, 0u32, "Unknown Global: "@ + number))
            &&& told(Error::IdExists(id)) == Some(
                (1u32, 0u32, "NewId "@ + number + " sent by the client is already in use"@),
            )
            &&& told(Error::Deserialization(reason)) == Some((1u32, 1u32, "Deserialization error: "@ + reason@))
            &&& told(Error::Io(reason)) is None
            &&& Error::UnknownObject(id).spec_fatal() && Error::UnknownGlobal(id).spec_fatal() && Error::IdExists(
                id,
            ).spec_fatal() && Error::Deserialization(reason).spec_fatal() && Error::Io(reason).spec_fatal()
        }),
        spec_error_event(Ok(())) is None,
{
}

/// Other errors are told with the object and the code that they name, and only if they name
/// one. They alone decide whether the client is disconnected.
pub proof fn other_errors_decide_themselves(source: String, object_id_and_code: Option<(u32, u32)>, fatal: bool)
    ensures
        ({
            let e = Error::Custom { source, object_id_and_code, fatal };
            &&& e.spec_fatal() == fatal
            &&& spec_error_event(Err(e)) is Some <==> object_id_and_code is Some
            &&& object_id_and_code matches Some((object_id, code)) ==> spec_error_event(Err(e)) == Some(
                (object_id, code, source@),
            )
        }),
{
}

/// A global is announced to a registry with its name, its interface and its version.
pub proof fn announcements_say_all(registry: u32, name: u32, global: Global)
    ensures
        announcement(registry, name, global) matches CoreEvent::Global { registry: r, name: n, interface, version } && r
            == registry && n == name && interface == global.interface && version == global.version,
{
}

/// Numbers go up by one, and start again at 1 behind the last one. 0 is left out.
pub proof fn numbers_go_round(id: u32, other: u32)
    ensures
        after(id) != 0,
        id < u32::MAX ==> after(id) == id + 1,
        after(u32::MAX) == 1,
        id != 0 ==> !skipped(id, id, other),
        id != 0 ==> (skipped(id, after(id), other) <==> other == id),
{
}

/// What was allocated is remembered for as long as is set, and not longer.
pub proof fn memory_lasts_as_set(time: u64, expire: u64, now: u64, earlier: u64)
    ensures
        remembered(time, expire, now) <==> now < time + expire,
        earlier <= now && remembered(time, expire, now) ==> remembered(time, expire, earlier),
        expire > 0 ==> remembered(time, expire, time),
{
}

/// A task that waits in place of another one has that one woken up, and not itself.
pub proof fn displaced_tasks_are_woken(signal: Signal, task: u64, other: u64)
    requires
        task != other,
    ensures
        (Signal { set: false, waker: Some(other) }).displaced(task) == Some(other),
        (Signal { set: false, waker: Some(task) }).displaced(task) is None,
        (Signal { set: false, waker: None }).displaced(task) is None,
        signal.awaited(task).waker == Some(task),
        !signal.awaited(task).set,
        signal.sent().0.set,
        signal.sent().0.waker is None,
        signal.sent().1 == signal.waker,
{
}

} // verus!
