use runa::objects::input::{EventHandlerAction, KeyboardActivity, KeyboardEvent};
use runa::objects::seat::{Capability, SeatError};
use runa::server::broadcast::{Broadcast, SendOutcome};
use runa::server::error::{error_event, finish_dispatch, Error, ErrorEvent, ProtocolError, INVALID_METHOD};
use runa::server::events::{
    reserved_capacity, Aggregate, AggregateSender, Arrival, Arrivals, EventPoll, SingleState,
};
use runa::server::globals::{Global, GlobalStore, GlobalsUpdate};
use runa::server::handler::{
    DispatchStep, EventDispatcher, HandlersPoll, PairedEventHandler, Readiness, SourcePoll, Stopped,
};
use runa::server::listen::{
    display_name, lock_name, ConnectionManager, ConnectionManagerError, ListenerSearch, ManagerStep, SearchStep,
};
use runa::server::maps::AnyObject;
use runa::server::objects::{Callback, CoreEvent, Display, FireStep, Registry, REGISTRY_NAME};
use runa::server::provide_any::{request_ref, Demand, Offers, UNIT_TAG};
use runa::server::shared::Rc as SharedRc;
use runa::server::ring::{InputEvent, Ring};
use runa::server::serial::{EventSerial, IdAlloc, Serial};
use runa::server::signal::{AbortHandle, Abortable, Signal};
use runa::server::store::{GetError, Store, StoreEvent, CLIENT_MAX_ID};

fn object(handle: u64, type_id: u64, interface: &'static str, state: Option<u64>) -> AnyObject {
    AnyObject { handle, type_id, interface, state }
}

#[test]
fn objects_come_and_go() {
    let mut store = Store::new();
    assert!(store.try_insert_with(5, object(50, 1, "wl_a", None)));
    assert!(!store.try_insert_with(5, object(51, 1, "wl_a", None)));
    assert!(!store.try_insert_with(CLIENT_MAX_ID + 1, object(51, 1, "wl_a", None)));
    assert!(store.insert(6, object(60, 2, "wl_b", None)).is_ok());
    assert!(store.insert(6, object(60, 2, "wl_b", None)).is_err());
    assert!(store.contains(5));
    assert_eq!(store.get(5, 1).unwrap().handle, 50);
    assert_eq!(store.object(6).unwrap().interface, "wl_b");
    assert!(store.object(7).is_none());
    assert!(matches!(store.get(5, 2), Err(GetError::TypeMismatch(5))));
    assert!(matches!(store.get(7, 2), Err(GetError::IdNotFound(7))));
    let found = store.by_interface("wl_b");
    assert_eq!(found.len(), 1);
    assert_eq!(found[0].0, 6);
    assert_eq!(store.by_type("wl_a", 1), vec![5]);
    assert!(store.by_type("wl_a", 2).is_empty());
    assert_eq!(store.remove(5).unwrap().handle, 50);
    assert!(store.remove(5).is_none());
    let events = store.take_events();
    assert_eq!(events.len(), 3);
    assert!(matches!(events[0], StoreEvent::Inserted { interface: "wl_a", object_id: 5 }));
    assert!(matches!(events[2], StoreEvent::Removed { interface: "wl_a", object_id: 5 }));
    assert!(store.take_events().is_empty());
}

#[test]
fn server_ids_are_used_again() {
    let mut store = Store::new();
    let first = store.allocate(object(1, 1, "wl_a", None)).unwrap();
    assert_eq!(first, 0xff00_0000);
    let second = store.allocate(object(2, 1, "wl_a", None)).unwrap();
    assert_eq!(second, 0xff00_0001);
    store.remove(first);
    let third = store.allocate(object(3, 1, "wl_a", None)).unwrap();
    assert_eq!(third, 0xff00_0002);
}

#[test]
fn states_live_as_long_as_their_objects() {
    let mut store = Store::new();
    store.try_insert_with(1, object(1, 9, "wl_s", Some(100)));
    store.try_insert_with(2, object(2, 9, "wl_s", Some(200)));
    assert_eq!(store.get_state(9), Some(100));
    let (found, state) = store.get_with_state(2, 9).unwrap();
    assert_eq!((found.handle, state), (2, Some(100)));
    assert!(store.get_with_state(3, 9).is_err());
    store.remove(1);
    assert_eq!(store.get_state(9), Some(100));
    store.remove(2);
    assert_eq!(store.get_state(9), None);
}

#[test]
fn a_disconnect_takes_everything() {
    let mut store = Store::new();
    store.try_insert_with(1, object(1, 9, "wl_s", Some(100)));
    store.try_insert_with(2, object(2, 8, "wl_t", None));
    let mut all: Vec<(u32, Option<u64>)> = store.clear_for_disconnect().iter().map(|o| (o.0, o.2)).collect();
    all.sort();
    assert_eq!(all, vec![(1, Some(100)), (2, None)]);
    assert!(!store.contains(1));
    assert_eq!(store.get_state(9), None);
}

#[test]
fn globals_are_announced() {
    let registry_global = Global { handle: 0, interface: REGISTRY_NAME, version: 1 };
    let mut globals = GlobalStore::from_globals(&vec![registry_global]);
    let output = Global { handle: 1, interface: "wl_output", version: 4 };
    let name = globals.insert(output);
    assert_eq!(globals.len(), 2);
    assert_eq!(globals.get(name).unwrap().version, 4);
    assert_eq!(globals.find("wl_output").unwrap().0, name);
    assert!(globals.find("wl_seat").is_none());
    let registry = Registry { registry_id: 7 };
    let events = registry.announce(&globals);
    assert_eq!(events.len(), 2);
    assert!(events.iter().any(|e| matches!(
        e,
        CoreEvent::Global { registry: 7, name: n, interface: "wl_output", version: 4 } if *n == name
    )));
    let updates = globals.take_updates();
    // The update has the global itself.
    match updates.as_slice() {
        [GlobalsUpdate::Added(n, global)] => {
            assert_eq!(*n, name);
            assert!(std::rc::Rc::ptr_eq(global, globals.get(name).unwrap()));
        },
        other => panic!("{:?}", other),
    }
    assert!(globals.remove(name));
    assert!(!globals.remove(name));
    let updates = globals.take_updates();
    assert!(matches!(updates.as_slice(), [GlobalsUpdate::Removed(n)] if *n == name));
    let (event, action) = registry.handle_event(&updates[0]);
    assert!(matches!(event, CoreEvent::GlobalRemove { registry: 7, name: n } if n == name));
    assert_eq!(action, EventHandlerAction::Keep);
    assert_eq!(globals.names().len(), 1);
}

#[test]
fn a_client_binds_globals() {
    let mut store = Store::new();
    let mut globals = GlobalStore::new();
    globals.insert(Global { handle: 0, interface: REGISTRY_NAME, version: 1 });
    let name = globals.insert(Global { handle: 1, interface: "wl_output", version: 4 });
    let display = Display { initialized: true };
    let events = display.sync(&store, 2).unwrap();
    assert!(matches!(
        events.as_slice(),
        [CoreEvent::Done { callback: 2, callback_data: 0 }, CoreEvent::DeleteId { id: 2 }]
    ));
    let global = display.get_registry(&mut store, &globals, 2, object(0, 1, REGISTRY_NAME, None)).unwrap();
    assert_eq!(global.interface, REGISTRY_NAME);
    assert!(matches!(display.sync(&store, 2), Err(Error::IdExists(2))));
    let registry = Registry { registry_id: 2 };
    let proxy = object(1, 2, "wl_output", None);
    assert_eq!(registry.bind(&mut store, &globals, name, 3, proxy).unwrap().handle, 1);
    assert!(matches!(registry.bind(&mut store, &globals, name, 3, proxy), Err(Error::IdExists(3))));
    assert!(matches!(registry.bind(&mut store, &globals, 999, 4, proxy), Err(Error::UnknownGlobal(999))));
    assert!(store.contains(3));
}

#[test]
fn a_callback_fires_once() {
    let mut store = Store::new();
    store.try_insert_with(9, object(9, 1, "wl_callback", None));
    let mut callback = Callback::new();
    assert!(matches!(callback.poll_fire(9, 42, false, &mut store), FireStep::Wait));
    assert!(matches!(
        callback.poll_fire(9, 42, true, &mut store),
        FireStep::Send(CoreEvent::Done { callback: 9, callback_data: 42 })
    ));
    assert!(store.contains(9));
    assert!(matches!(callback.poll_fire(9, 42, true, &mut store), FireStep::Done));
    assert!(!store.contains(9));
    store.try_insert_with(10, object(10, 1, "wl_callback", None));
    assert!(matches!(Callback::fire(10, 1, &store), CoreEvent::Done { callback: 10, callback_data: 1 }));
    Callback::finish_fire(10, false, &mut store);
    assert!(store.contains(10));
    Callback::finish_fire(10, true, &mut store);
    assert!(!store.contains(10));
}

fn told(e: Error) -> Option<(u32, u32, String)> {
    error_event(&Err(e)).map(|event| (event.object_id, event.code, event.message))
}

#[test]
fn errors_are_told() {
    assert_eq!(error_event(&Ok(())), None);
    assert_eq!(
        error_event(&Err(Error::Deserialization("cut off".to_string()))),
        Some(ErrorEvent {
            object_id: 1,
            code: INVALID_METHOD,
            message: "Deserialization error: cut off".to_string()
        })
    );
    assert_eq!(told(Error::Io("broken pipe".to_string())), None);
    assert_eq!(Error::Io("broken pipe".to_string()).message(), "I/O error: broken pipe");
    assert_eq!(told(Error::UnknownObject(4)), Some((1, 0, "Unknown object: 4".to_string())));
    assert_eq!(told(Error::UnknownGlobal(12)), Some((1, 0, "Unknown Global: 12".to_string())));
    assert_eq!(
        told(Error::IdExists(7)),
        Some((1, 0, "NewId 7 sent by the client is already in use".to_string()))
    );
    let custom = Error::custom(&SeatError::MissingCapability(3, Capability::Touch));
    assert_eq!(custom.wayland_error(), Some((3, 0)));
    assert!(custom.fatal());
    assert_eq!(
        told(custom),
        Some((3, 0, "Seat does not have the capability Capability(TOUCH)".to_string()))
    );
    let custom = Error::Custom { source: "teapot".to_string(), object_id_and_code: Some((3, 418)), fatal: false };
    assert_eq!(told(custom.clone()), Some((3, 418, "teapot".to_string())));
    let end = finish_dispatch(&Err(custom.clone()), false, 12, 12, 1);
    assert!(!end.fatal);
    assert_eq!(end.consume, Some((12, 1)));
    let end = finish_dispatch(&Err(custom), true, 12, 12, 1);
    assert!(end.fatal);
    assert_eq!(end.consume, None);
    let end = finish_dispatch(&Ok(()), false, 12, 8, 0);
    assert!(end.fatal);
    assert_eq!(end.consume, Some((8, 0)));
}

#[test]
fn serials_count_up_and_skip_zero() {
    let mut ids: IdAlloc<&str> = IdAlloc::new();
    let a = ids.next_serial("a");
    let b = ids.next_serial("b");
    assert_ne!(a, b);
    assert_ne!(a, 0);
    assert_eq!(ids.get(a), Some(&"a"));
    assert_eq!(ids.len(), 2);
    assert!(ids.expire(a));
    assert!(!ids.expire(a));
    assert_eq!(ids.get(a), None);
}

#[test]
fn event_serials_expire() {
    let mut serials: EventSerial<u8> = EventSerial::new(10);
    let s = serials.next_serial(7, 100);
    assert_eq!(serials.get(s, 105), Some(&7));
    assert_eq!(serials.get(s, 200), None);
    assert_eq!(serials.iter(), vec![(s, &7)]);
    let t = serials.next_serial(8, 200);
    assert_eq!(serials.iter(), vec![(t, &8)]);
    let u = serials.next_serial(9, 201);
    let mut all = serials.iter();
    all.sort();
    assert_eq!(all, vec![(t, &8), (u, &9)]);
    assert_ne!(s, t);
    assert!(serials.expire(t, 201));
    assert_eq!(serials.get(t, 201), None);
}

#[test]
fn a_signal_is_sent_once() {
    let (mut signal, mut receiver) = Signal::new_pair();
    assert_eq!(receiver.poll(&mut signal, 1), (false, None));
    assert_eq!(receiver.poll(&mut signal, 2), (false, Some(1)));
    assert_eq!(signal.send(), Some(2));
    assert_eq!(receiver.poll(&mut signal, 2), (true, None));
    assert!(receiver.is_terminated());
}

#[test]
fn handlers_are_aborted() {
    let (mut handler, mut handle): (Abortable<()>, AbortHandle) = Abortable::new(());
    let keep = Some(EventHandlerAction::Keep);
    assert_eq!(handler.poll(&mut handle.inner, 1, keep), (keep, None));
    assert_eq!(handler.poll(&mut handle.inner, 1, None), (None, None));
    assert_eq!(handle.inner, Signal { set: false, waker: Some(1) });
    // The task that waited before is woken up when another one waits.
    assert_eq!(handler.poll(&mut handle.inner, 2, None), (None, Some(1)));
    assert_eq!(handle.abort(), Some(2));
    assert_eq!(handler.poll(&mut handle.inner, 1, keep), (Some(EventHandlerAction::Stop), None));
    assert_eq!(handle.inner, Signal { set: true, waker: None });
    let (mut handler, mut handle): (Abortable<()>, AbortHandle) = Abortable::new(());
    assert_eq!(handler.poll(&mut handle.inner, 3, keep), (keep, None));
    let (signal, wake) = handle.auto_abort().finish();
    assert!(signal.set);
    assert_eq!(wake, Some(3));
}

#[test]
fn states_are_aggregated() {
    let mut source: SingleState<u8> = SingleState::new();
    let mut receiver = source.new_receiver();
    assert!(matches!(receiver.poll_next(Some(&source)), EventPoll::Pending));
    source.send(1);
    source.send(2);
    assert!(matches!(receiver.poll_next(Some(&source)), EventPoll::Event(2)));
    assert!(matches!(receiver.poll_next(Some(&source)), EventPoll::Pending));
    assert!(matches!(receiver.poll_next::<u8>(None), EventPoll::End));
}

#[test]
fn arrivals_and_departures_cancel_out() {
    let mut sender: AggregateSender<Arrivals> = AggregateSender::new();
    let receiver = sender.new_receiver();
    assert!(matches!(sender.poll_next(receiver, true, 5), (EventPoll::Pending, _)));
    assert_eq!(sender.send(Arrival::Came(1)), vec![5]);
    sender.send(Arrival::Came(2));
    sender.send(Arrival::Went(1));
    assert!(matches!(sender.poll_next(receiver, true, 5).0, EventPoll::Event(Arrival::Came(2))));
    assert!(matches!(sender.poll_next(receiver, false, 5).0, EventPoll::End));
    let mut none = Arrivals::empty();
    assert!(none.next().is_none());
}

#[test]
fn full_queues_are_doubled() {
    assert_eq!(reserved_capacity(false, 8), None);
    assert_eq!(reserved_capacity(true, 8), Some(16));
}

#[test]
fn events_are_broadcast_to_all() {
    let mut broadcast = Broadcast::default();
    let event = |object_id| StoreEvent::Inserted { interface: "wl_a", object_id };
    // The channel stays open while nobody listens.
    assert_eq!(broadcast.broadcast_reserve(event(0)), SendOutcome::Inactive);
    let sender = broadcast.new_sender();
    assert_eq!((sender.capacity(), sender.overflow(), sender.await_active()), (16, false, false));
    let mut receiver = sender.new_receiver();
    let outcomes = broadcast.broadcast_all(&(1..18).map(event).collect());
    assert!(outcomes.iter().all(|o| matches!(o, SendOutcome::Sent)));
    assert_eq!(sender.capacity(), 32);
    broadcast.reserve(false, 32);
    assert_eq!(sender.capacity(), 32);
    broadcast.reserve(true, usize::MAX);
    assert_eq!(sender.capacity(), 32);
    broadcast.reserve(true, 32);
    assert_eq!(sender.capacity(), 64);
    for id in 1..18 {
        assert!(matches!(
            receiver.try_recv(),
            Ok(StoreEvent::Inserted { object_id, .. }) if object_id == id
        ));
    }
    receiver.deactivate();
    assert_eq!(broadcast.broadcast_reserve(event(18)), SendOutcome::Inactive);
}

#[test]
fn old_events_make_room() {
    let mut ring = Ring::new(2);
    let event = |time| {
        InputEvent::Keyboard(KeyboardEvent { time, object_id: 1, activity: KeyboardActivity::Leave })
    };
    assert_eq!(ring.broadcast(event(1)), SendOutcome::Inactive);
    assert!(ring.new_sender().overflow() && !ring.new_sender().await_active());
    let mut receiver = ring.new_sender().new_receiver();
    assert_eq!(ring.broadcast(event(2)), SendOutcome::Sent);
    assert_eq!(ring.broadcast(event(3)), SendOutcome::Sent);
    assert_eq!(ring.broadcast(event(4)), SendOutcome::SentDroppingOldest);
    ring.set_capacity(3);
    assert_eq!(ring.broadcast(event(5)), SendOutcome::Sent);
    assert!(matches!(receiver.try_recv(), Err(async_broadcast::TryRecvError::Overflowed(1))));
    for expected in 3..6 {
        match receiver.try_recv() {
            Ok(InputEvent::Keyboard(event)) => assert_eq!(event.time, expected),
            _ => panic!("no event"),
        }
    }
    assert!(receiver.try_recv().is_err());
}

#[test]
fn an_interrupted_event_is_handled_again() {
    let mut paired: PairedEventHandler<&str, u8> = PairedEventHandler::new("handler");
    assert!(paired.needs_event());
    assert!(matches!(paired.poll_next(SourcePoll::Pending), Readiness::Pending));
    assert!(matches!(paired.poll_next(SourcePoll::Event(9)), Readiness::Ready));
    let (handler, message) = paired.start_handle();
    assert_eq!(message, 9);
    paired.stop_handle(Some(Stopped::Interrupted { handler, message }));
    assert!(!paired.needs_event());
    assert!(matches!(paired.poll_next(SourcePoll::Pending), Readiness::Ready));
    let (handler, message) = paired.start_handle();
    assert_eq!((handler, message), ("handler", 9));
    let action = paired.stop_handle(Some(Stopped::Completed { output: Ok(EventHandlerAction::Stop), handler }));
    assert_eq!(action, EventHandlerAction::Stop);
}

#[test]
fn dispatchers_hand_out_events() {
    let mut dispatcher: EventDispatcher<PairedEventHandler<u8, u8>> = EventDispatcher::new();
    assert!(matches!(dispatcher.poll_next(HandlersPoll::Idle, 3), DispatchStep::Wait { wake: None }));
    assert_eq!(dispatcher.add_event_handler(), Some(3));
    let mut paired = PairedEventHandler::new(1);
    paired.poll_next(SourcePoll::Event(2));
    assert!(matches!(dispatcher.poll_next(HandlersPoll::Ready(paired), 3), DispatchStep::Event));
    let (fut, handler, message) = dispatcher.pending_event().unwrap().handle();
    assert_eq!((handler, message), (1, 2));
    let (back, _) = fut.finish(
        Some(Stopped::Completed { output: Ok(EventHandlerAction::Keep), handler }),
        &mut dispatcher,
    );
    let mut back = back.unwrap();
    assert_eq!((back.handler, back.message, back.running, back.should_retain), (Some(1), None, false, true));
    assert!(dispatcher.pending_event().is_none());
    // It goes on listening, and an event that is interrupted comes again.
    back.poll_next(SourcePoll::Event(5));
    dispatcher.poll_next(HandlersPoll::Ready(back), 3);
    let (fut, handler, message) = dispatcher.pending_event().unwrap().handle();
    let (back, _) = fut.finish(Some(Stopped::Interrupted { message, handler }), &mut dispatcher);
    let back = back.unwrap();
    assert_eq!((back.handler, back.message, back.running, back.should_retain), (Some(1), Some(5), false, true));
}

#[test]
fn displays_are_tried_in_turn() {
    assert_eq!(display_name(0), "wayland-0");
    assert_eq!(lock_name("wayland-12"), "wayland-12.lock");
    let mut search: ListenerSearch<u8> = ListenerSearch::new();
    assert_eq!(search.first(), "wayland-0");
    match search.advance::<()>(Err(1)) {
        SearchStep::Try(name) => assert_eq!(name, "wayland-1"),
        _ => panic!("one more should be tried"),
    }
    assert!(matches!(search.advance(Ok("socket")), SearchStep::Found("socket")));
    let mut search: ListenerSearch<u8> = ListenerSearch::new();
    let mut tried = 1;
    loop {
        match search.advance::<()>(Err(tried)) {
            SearchStep::Try(_) => tried += 1,
            SearchStep::Failed(e) => {
                assert_eq!(e, tried);
                break;
            },
            SearchStep::Found(_) => unreachable!(),
        }
    }
    println!("{}", tried);
}

#[test]
fn connections_are_managed() {
    let manager = ConnectionManager::new((), ());
    let step: ManagerStep<u8, &str, &str> = manager.accepted(Some(Ok(5)));
    assert!(matches!(step, ManagerStep::NewConnection(5)));
    let step: ManagerStep<u8, &str, &str> = manager.accepted(Some(Err("no")));
    assert!(matches!(step, ManagerStep::Stop(Err(ConnectionManagerError::Listener("no")))));
    let step: ManagerStep<u8, &str, &str> = manager.accepted(None);
    assert!(matches!(step, ManagerStep::Stop(Ok(()))));
    let step: ManagerStep<u8, &str, &str> = manager.connected(Ok(()));
    assert!(matches!(step, ManagerStep::Listen));
    let step: ManagerStep<u8, &str, &str> = manager.connected(Err("bad"));
    assert!(matches!(step, ManagerStep::Stop(Err(ConnectionManagerError::Server("bad")))));
}

#[test]
fn the_first_offer_is_taken() {
    let offers = Offers { list: vec![(1, 10), (2, 20), (1, 30)] };
    assert_eq!(request_ref(&offers, 1), Some(10));
    assert_eq!(request_ref(&offers, 2), Some(20));
    assert_eq!(request_ref(&offers, 3), None);
    assert_eq!(request_ref(&(), UNIT_TAG), Some(()));
    assert_eq!(request_ref(&(), UNIT_TAG + 1), None);
}

#[test]
fn values_are_made_when_asked_for() {
    let made = std::cell::Cell::new(0);
    let make = || {
        made.set(made.get() + 1);
        40
    };
    let mut demand: Demand<u64> = Demand::new(3);
    demand.provide_value(4, make).provide_value(5, make);
    assert_eq!(demand.into_value(), None);
    assert_eq!(made.get(), 0);
    let mut demand: Demand<u64> = Demand::new(4);
    demand.provide_value(3, make).provide_value(4, make).provide_value(4, || 41);
    assert_eq!(demand.into_value(), Some(40));
    assert_eq!(made.get(), 1);
    let (a, b) = (1, 2);
    let mut demand: Demand<&u64> = Demand::new(4);
    demand.provide_ref(4, &a).provide_ref(4, &b);
    assert_eq!(demand.into_value(), Some(&1));
}

#[test]
fn pointers_share_a_value() {
    let mut a = SharedRc::new(5);
    *SharedRc::get_mut(&mut a).unwrap() = 6;
    let mut b = a.clone();
    assert!(SharedRc::ptr_eq(&a, &b));
    assert!(!SharedRc::ptr_eq(&a, &SharedRc::new(6)));
    assert!(SharedRc::get_mut(&mut a).is_none());
    assert_eq!((SharedRc::strong_count(&a), SharedRc::weak_count(&a)), (2, 0));
    assert!(SharedRc::ptr_eq(&b, &a) && SharedRc::ptr_eq(&a, &a));
    *SharedRc::make_mut(&mut b) = 7;
    assert_eq!((*a.as_ref(), *b.as_ref()), (6, 7));
    assert!(!SharedRc::ptr_eq(&a, &b));
    // Alone, a pointer stays where it is.
    let c = b.clone();
    drop(a);
    drop(b);
    let mut d = c.clone();
    drop(c);
    assert_eq!(SharedRc::strong_count(&d), 1);
    *SharedRc::get_mut(&mut d).unwrap() = 8;
    assert_eq!(*d.as_ref(), 8);
}
