use runa::objects::compositor::{deallocate_surface, Compositor, CompositorState, Surface, SurfaceErrorKind};
use runa::objects::input::{
    deliveries, EventHandlerAction, KeyState, KeyboardActivity, KeyboardEvent, KeyboardEventHandler, KeyboardMessage,
    KeyboardState,
};
use runa::objects::keys::Keys;
use runa::objects::outputs::{OutputSet, OutputState};
use runa::objects::pointer::{
    ButtonState, Coords, PointerActivity, PointerEvent, PointerEventHandler, PointerMessage,
};
use runa::objects::seat::{
    Capabilities, ConfigMessage, Keyboard, KeyboardConfigHandler, NewSurfaceHandler, Pointer, Seat,
};
use runa::objects::shm::{
    handle_sigbus, sigbus_count, CreatePool, MapRecord, MapRecords, PoolCreated, Shm, ShmPool, SigbusCount,
};
use runa::objects::xdg_shell::{self, TopLevel, Unimplemented, WmBase, XdgEvent};
use runa::objects::states::{self, PointerState};
use runa::objects::{remove_object, Error, BUFFER_TYPE, POINTER_TYPE};
use runa::server::error::{Error as CoreError, ErrorEvent, ProtocolError};
use runa::server::maps::AnyObject;
use runa::server::broadcast::SendOutcome;
use runa::server::ring::{InputEvent, Ring};
use runa::server::store::{GetError, Store, StoreEvent};
use runa::shell::geometry::{Extent, Point, Rectangle};
use runa::shell::roles::Role;
use runa::shell::scene::{self, Scene};
use runa::shell::{RepeatInfo, SeatEvent, ShellCall, SurfaceStore};
use runa::types::{Fd, Fixed, NewId, Object, Str};
use runa::utils::replaceable;
use runa::server::events::EventPoll;

fn empty() -> Scene<SurfaceStore> {
    Scene { shell: SurfaceStore::new(), surfaces: vec![], layout_changes: vec![] }
}

fn insert(objects: &mut Store, id: u32, handle: u64, type_id: u64, interface: &'static str) {
    assert!(objects.try_insert_with(id, AnyObject { handle, type_id, interface, state: None }));
}

fn code(e: Error) -> Option<(u32, u32)> {
    match e {
        Error::Core(CoreError::Custom { object_id_and_code, fatal: true, .. }) => object_id_and_code,
        _ => None,
    }
}

fn text(e: &Error) -> &str {
    match e {
        Error::Core(CoreError::Custom { source, .. }) => source,
        _ => "",
    }
}

#[test]
fn surfaces_are_created_and_destroyed() {
    assert!(!CompositorState::default().render_event_handler_started);
    let mut objects = Store::new();
    let mut scene = empty();
    let handler = Compositor::create_surface(&mut objects, &mut scene, NewId(3), 1).unwrap();
    assert_eq!(handler.object_id, 3);
    assert!(matches!(
        Compositor::create_surface(&mut objects, &mut scene, NewId(3), 1),
        Err(Error::Core(CoreError::IdExists(3)))
    ));
    assert!(matches!(scene.shell.take_calls().as_slice(), [ShellCall::PostCommit { old: None, .. }]));
    Surface::frame(&mut objects, &mut scene, 3, NewId(8)).unwrap();
    Surface::frame(&mut objects, &mut scene, 3, NewId(9)).unwrap();
    assert!(Surface::frame(&mut objects, &mut scene, 3, NewId(9)).is_err());
    assert!(objects.contains(8) && objects.contains(9));
    let mut scratch = vec![];
    Surface::commit(&objects, &mut scene, 3, &mut scratch).unwrap();
    objects.take_events();
    Surface::destroy(&mut objects, &mut scene, 3, &mut scratch).unwrap();
    let removed: Vec<u32> = objects
        .take_events()
        .iter()
        .map(|event| match event {
            StoreEvent::Removed { object_id, .. } => *object_id,
            _ => panic!("nothing was inserted"),
        })
        .collect();
    assert_eq!(removed, vec![8, 9, 3]);
    for id in [3, 8, 9] {
        assert!(!objects.contains(id));
    }
    Compositor::create_region(&mut objects, NewId(4)).unwrap();
    assert!(Compositor::create_region(&mut objects, NewId(4)).is_err());
    remove_object(&mut objects, 4);
    assert!(!objects.contains(4));
}

#[test]
fn buffers_are_attached_and_damaged() {
    let mut objects = Store::new();
    let mut scene = empty();
    Compositor::create_surface(&mut objects, &mut scene, NewId(3), 1).unwrap();
    insert(&mut objects, 5, 55, BUFFER_TYPE, "wl_buffer");
    let offset = Surface::attach(&objects, &mut scene, 3, Object(5), 1, 0).unwrap_err();
    assert_eq!(text(&offset), "buffer offset is invalid");
    assert_eq!(code(offset), Some((3, 3)));
    assert_eq!(SurfaceErrorKind::InvalidOffset.message(), "buffer offset is invalid");
    assert!(matches!(
        Surface::attach(&objects, &mut scene, 3, Object(6), 0, 0),
        Err(Error::Get(GetError::IdNotFound(6)))
    ));
    assert!(matches!(
        Surface::attach(&objects, &mut scene, 3, Object(3), 0, 0),
        Err(Error::Get(GetError::TypeMismatch(3)))
    ));
    scene.shell.take_calls();
    Surface::damage(&objects, &mut scene, 3);
    assert!(scene.shell.take_calls().is_empty());
    Surface::attach(&objects, &mut scene, 3, Object(5), 0, 0).unwrap();
    Surface::damage(&objects, &mut scene, 3);
    assert!(matches!(scene.shell.take_calls().as_slice(), [ShellCall::DamageBuffer { buffer: 55 }]));
    Surface::set_buffer_scale(&objects, &mut scene, 3, 2);
    assert_eq!(scene.surfaces[0].pending_state.buffer_scale, Some(240));
    assert!(matches!(Surface::offset(), Error::NotImplemented("wl_surface.offset")));
    assert!(matches!(
        Surface::set_buffer_transform(),
        Error::NotImplemented("wl_surface.set_buffer_transform")
    ));
}

#[test]
fn a_role_outlives_no_surface() {
    let mut objects = Store::new();
    let mut scene = empty();
    let mut scratch = vec![];
    Compositor::create_surface(&mut objects, &mut scene, NewId(3), 1).unwrap();
    WmBase::get_xdg_surface(&mut objects, &mut scene, NewId(4), Object(3)).unwrap();
    xdg_shell::Surface::get_toplevel(&mut objects, &mut scene, 4, NewId(5)).unwrap();
    let e = Surface::destroy(&mut objects, &mut scene, 3, &mut scratch).unwrap_err();
    assert_eq!(text(&e), "surface was destroyed before its role object");
    assert_eq!(code(e), Some((3, 4)));
    let e = xdg_shell::Surface::destroy(&mut objects, &scene, 4).unwrap_err();
    assert_eq!(text(&e), "Surface 4 was destroyed before its role object");
    assert_eq!(code(e), Some((4, 6)));
    TopLevel::destroy(&mut objects, &mut scene, 5);
    xdg_shell::Surface::destroy(&mut objects, &scene, 4).unwrap();
    Surface::destroy(&mut objects, &mut scene, 3, &mut scratch).unwrap();
    assert!(!objects.contains(3) && !objects.contains(4) && !objects.contains(5));
}

#[test]
fn a_client_that_is_gone_leaves_nothing() {
    let mut objects = Store::new();
    let mut scene = empty();
    Compositor::create_surface(&mut objects, &mut scene, NewId(3), 1).unwrap();
    Surface::frame(&mut objects, &mut scene, 3, NewId(8)).unwrap();
    let token = scene.surfaces[0].current_key();
    let mut scratch = vec![];
    deallocate_surface(&Surface { inner: 0 }, &mut scene, &mut scratch);
    assert!(scene.surfaces[0].current.is_none());
    let next = scene::Surface::new(9, &mut scene);
    assert!(scene.surfaces[next].current_key() > token);
}

#[test]
fn configure_events_are_acknowledged() {
    let mut objects = Store::new();
    let mut scene = empty();
    Compositor::create_surface(&mut objects, &mut scene, NewId(3), 1).unwrap();
    assert!(matches!(
        WmBase::get_xdg_surface(&mut objects, &mut scene, NewId(4), Object(7)),
        Err(Error::Get(GetError::IdNotFound(7)))
    ));
    WmBase::get_xdg_surface(&mut objects, &mut scene, NewId(4), Object(3)).unwrap();
    assert!(WmBase::get_xdg_surface(&mut objects, &mut scene, NewId(4), Object(3)).is_err());
    let handler = xdg_shell::Surface::get_toplevel(&mut objects, &mut scene, 4, NewId(5)).unwrap();
    assert!(xdg_shell::Surface::get_toplevel(&mut objects, &mut scene, 4, NewId(5)).is_err());
    assert_eq!(handler.surface_object_id, 3);
    let (events, action) = handler.handle_event(&objects, &mut scene, Some((640, 480)));
    assert_eq!(action, EventHandlerAction::Keep);
    assert_eq!(
        events,
        vec![
            XdgEvent::ToplevelConfigure { object_id: 5, width: 640, height: 480 },
            XdgEvent::Configure { object_id: 4, serial: 1 },
        ]
    );
    for serial in 2..5 {
        let (events, _) = handler.handle_event(&objects, &mut scene, None);
        assert_eq!(events, vec![XdgEvent::Configure { object_id: 4, serial }]);
    }
    xdg_shell::Surface::ack_configure(&objects, &mut scene, 4, 3).unwrap();
    let base = |scene: &Scene<SurfaceStore>| match &scene.surfaces[0].role {
        Some(Role::XdgTopLevel(role)) => (role.base.last_ack, role.base.pending_serial.len()),
        _ => panic!("a top-level"),
    };
    assert_eq!(base(&scene), (Some(3), 1));
    assert!(matches!(
        xdg_shell::Surface::ack_configure(&objects, &mut scene, 4, 0),
        Err(Error::UnknownFatalError("ack_configure: serial is 0"))
    ));
    assert_eq!(base(&scene), (Some(3), 1));
    if let Some(Role::XdgTopLevel(role)) = &mut scene.surfaces[0].role {
        role.base.serial = u32::MAX;
    }
    let (events, _) = handler.handle_event(&objects, &mut scene, None);
    assert_eq!(events, vec![XdgEvent::Configure { object_id: 4, serial: u32::MAX }]);
    let (events, _) = handler.handle_event(&objects, &mut scene, None);
    assert_eq!(events, vec![XdgEvent::Configure { object_id: 4, serial: 1 }]);
}

#[test]
fn toplevels_have_titles_and_sizes() {
    let mut objects = Store::new();
    let mut scene = empty();
    let mut scratch = vec![];
    Compositor::create_surface(&mut objects, &mut scene, NewId(3), 1).unwrap();
    WmBase::get_xdg_surface(&mut objects, &mut scene, NewId(4), Object(3)).unwrap();
    xdg_shell::Surface::get_toplevel(&mut objects, &mut scene, 4, NewId(5)).unwrap();
    TopLevel::set_title(&objects, &mut scene, 5, Str(b"a\xffb"));
    TopLevel::set_app_id(&objects, &mut scene, 5, Str(b"app"));
    TopLevel::set_min_size(&objects, &mut scene, 5, 1, 2);
    TopLevel::set_max_size(&objects, &mut scene, 5, 30, 40);
    xdg_shell::Surface::set_window_geometry(&objects, &mut scene, 4, 1, 2, 3, 4);
    match &scene.surfaces[0].role {
        Some(Role::XdgTopLevel(role)) => {
            assert_eq!(role.title.as_deref(), Some("a\u{fffd}b"));
            assert_eq!(role.app_id.as_deref(), Some("app"));
            assert_eq!(role.current.min_size, None);
            assert_eq!(role.geometry(), None);
        },
        _ => panic!("a top-level"),
    }
    Surface::commit(&objects, &mut scene, 3, &mut scratch).unwrap();
    match &scene.surfaces[0].role {
        Some(Role::XdgTopLevel(role)) => {
            assert_eq!(role.current.min_size, Some(Extent { w: 1, h: 2 }));
            assert_eq!(role.current.max_size, Some(Extent { w: 30, h: 40 }));
            let area = Rectangle { loc: Point::new(1, 2), size: Extent { w: 3, h: 4 } };
            assert_eq!(role.geometry(), Some(area));
        },
        _ => panic!("a top-level"),
    }
    assert!(matches!(Unimplemented::Move.answer(), Error::NotImplemented("xdg_toplevel.move")));
    let e = xdg_shell::SurfaceError { kind: xdg_shell::SurfaceErrorKind::InvalidSize, object_id: 42 };
    assert_eq!(e.message(), "Width or height was zero or negative, xdg_surface: 42");
    let e = xdg_shell::SurfaceError { kind: xdg_shell::SurfaceErrorKind::DefunctRoleObject, object_id: 7 };
    assert_eq!(e.message(), "Surface 7 was destroyed before its role object");
}

fn keyboard(codes: &[u8], depressed_modifiers: u32) -> KeyboardActivity {
    let mut keys = Keys::new();
    for code in codes {
        keys.push(*code);
    }
    KeyboardActivity::Key(KeyboardState { keys, depressed_modifiers, ..KeyboardState::default() })
}

/// The event that a surface sends.
fn sent(surface: &scene::Surface, time: u32, activity: KeyboardActivity) -> KeyboardEvent {
    let mut ring = Ring::new(120);
    let mut receiver = ring.new_sender().new_receiver();
    assert_eq!(surface.keyboard_event(&mut ring, time, activity), SendOutcome::Sent);
    match receiver.try_recv() {
        Ok(InputEvent::Keyboard(event)) => event,
        _ => panic!("nothing was sent"),
    }
}

#[test]
fn keyboards_follow_the_focus() {
    let mut scene = empty();
    let a = scene::Surface::new(1, &mut scene);
    let b = scene::Surface::new(2, &mut scene);
    let mut handler = KeyboardEventHandler { focus: None };
    let (messages, action) = handler.handle_event(sent(&scene.surfaces[a], 10, keyboard(&[5], 0)));
    assert_eq!(action, EventHandlerAction::Keep);
    match messages.as_slice() {
        [KeyboardMessage::Enter { serial: 0, surface: 1, keys }, KeyboardMessage::Modifiers { mods_depressed: 0, .. }] => {
            assert_eq!(keys, &vec![5]);
        },
        other => panic!("{:?}", other),
    }
    let (messages, _) = handler.handle_event(sent(&scene.surfaces[a], 11, keyboard(&[6], 1)));
    assert!(matches!(
        messages.as_slice(),
        [
            KeyboardMessage::Key { time: 11, key: 6, state: KeyState::Pressed, .. },
            KeyboardMessage::Key { time: 11, key: 5, state: KeyState::Released, .. },
            KeyboardMessage::Modifiers { mods_depressed: 1, .. },
        ]
    ));
    let (messages, _) = handler.handle_event(sent(&scene.surfaces[b], 12, keyboard(&[], 1)));
    assert!(matches!(
        messages.as_slice(),
        [
            KeyboardMessage::Leave { surface: 1, .. },
            KeyboardMessage::Enter { surface: 2, .. },
            KeyboardMessage::Modifiers { .. },
        ]
    ));
    // Leaving a surface without the focus is not told, but the focus is gone.
    assert!(handler.handle_event(sent(&scene.surfaces[a], 13, KeyboardActivity::Leave)).0.is_empty());
    assert!(handler.focus.is_none());
    assert_eq!(deliveries(&vec![7, 8], 2), vec![(7, 0), (8, 0), (7, 1), (8, 1)]);
    let mut many = Keys::new();
    for code in 0..20 {
        many.push(code);
    }
    assert_eq!(many.to_vec(), (0..20).collect::<Vec<u8>>());
    assert!(many.contains(19) && !many.contains(20));
    assert_eq!(many.clone().to_vec(), many.to_vec());
    let mut ring = Ring::new(120);
    let mut receiver = ring.new_sender().new_receiver();
    scene.surfaces[b].pointer_event(&mut ring, 14, PointerActivity::Leave);
    assert!(matches!(
        receiver.try_recv(),
        Ok(InputEvent::Pointer(PointerEvent { time: 14, object_id: 2, kind: PointerActivity::Leave }))
    ));
}

fn coords(x: f32, y: f32) -> Coords {
    let fixed = |v: f32| Fixed::from_bits(fixed::FixedI32::<fixed::types::extra::U8>::from_num(v).to_bits());
    Coords { x: x.to_bits(), y: y.to_bits(), fixed_x: fixed(x), fixed_y: fixed(y) }
}

#[test]
fn pointers_follow_the_focus() {
    let event = |object_id, kind| PointerEvent { time: 1, object_id, kind };
    let motion = |x: f32, y: f32| PointerActivity::Motion { coords: coords(x, y) };
    let mut handler = PointerEventHandler { focus: None };
    // The first event on a surface has to be a motion.
    let button = PointerActivity::Button { button: 3, state: ButtonState::Pressed };
    assert!(matches!(handler.handle_event(event(1, button)), (m, EventHandlerAction::Keep) if m.is_empty()));
    let entered = handler.handle_event(event(1, motion(1.5, 2.0))).0;
    assert_eq!(
        entered,
        vec![PointerMessage::Enter { serial: 0, surface: 1, surface_x: Fixed(384), surface_y: Fixed(512) }]
    );
    assert!(handler.handle_event(event(1, motion(1.5, 2.0))).0.is_empty());
    assert_eq!(
        handler.handle_event(event(1, motion(-1.0, 2.0))).0,
        vec![PointerMessage::Motion { time: 1, surface_x: Fixed(-256), surface_y: Fixed(512) }]
    );
    assert_eq!(
        handler.handle_event(event(1, button)).0,
        vec![PointerMessage::Button { serial: 0, time: 1, button: 3, state: ButtonState::Pressed }]
    );
    let moved = handler.handle_event(event(2, motion(0.0, 0.0))).0;
    assert_eq!(moved[0], PointerMessage::Leave { serial: 0, surface: 1 });
    assert!(matches!(moved[1], PointerMessage::Enter { surface: 2, .. }));
    assert_eq!(
        handler.handle_event(event(2, PointerActivity::Leave)).0,
        vec![PointerMessage::Leave { serial: 0, surface: 2 }]
    );
    assert!(handler.focus.is_none());
}

#[test]
fn seats_have_capabilities() {
    let mut objects = Store::new();
    let nothing = Capabilities { pointer: false, keyboard: false, touch: false };
    let all = Capabilities { pointer: true, keyboard: true, touch: true };
    let repeat = RepeatInfo { rate: 25, delay: 600 };
    assert!(matches!(Seat::get_pointer(&mut objects, nothing, 2, NewId(3), 0), Err(e) if code(e.clone()) == Some((2, 0))));
    assert!(matches!(
        Seat::get_keyboard(&mut objects, nothing, repeat, 2, NewId(3), 0),
        Err(e) if code(e.clone()) == Some((2, 0))
    ));
    assert_eq!(text(&Seat::get_touch(nothing, 2)), "Seat does not have the capability Capability(TOUCH)");
    assert_eq!(code(Seat::get_touch(nothing, 2)), Some((2, 0)));
    assert!(matches!(Seat::get_touch(all, 2), Error::NotImplemented("wl_seat.get_touch")));
    let setup = Seat::get_pointer(&mut objects, all, 2, NewId(3), 0).unwrap().unwrap();
    assert!(!setup.subscribe);
    assert!(Seat::get_pointer(&mut objects, all, 2, NewId(4), 0).unwrap().is_none());
    assert!(Seat::get_pointer(&mut objects, all, 2, NewId(4), 0).is_err());
    let (messages, setup) = Seat::get_keyboard(&mut objects, all, repeat, 2, NewId(5), 0).unwrap();
    assert_eq!(messages, vec![ConfigMessage::Keymap, ConfigMessage::RepeatInfo(repeat)]);
    assert!(setup.is_some());

    let (message, ids, action) = KeyboardConfigHandler.handle_event(&objects, SeatEvent::RepeatInfoChanged, repeat);
    assert_eq!(message, Some(ConfigMessage::RepeatInfo(repeat)));
    assert_eq!(ids, vec![5]);
    assert_eq!(action, EventHandlerAction::Keep);
    assert_eq!(KeyboardConfigHandler.handle_event(&objects, SeatEvent::NameChanged, repeat).0, None);
    objects.remove(5);
    assert_eq!(
        KeyboardConfigHandler.handle_event(&objects, SeatEvent::KeymapChanged, repeat).2,
        EventHandlerAction::Stop
    );
}

#[test]
fn the_first_surface_is_listened_to() {
    let mut objects = Store::new();
    let mut scene = empty();
    let all = Capabilities { pointer: true, keyboard: true, touch: true };
    let handler = NewSurfaceHandler { receiver: POINTER_TYPE };
    Compositor::create_surface(&mut objects, &mut scene, NewId(3), 1).unwrap();
    let inserted = StoreEvent::Inserted { interface: "wl_surface", object_id: 3 };
    assert_eq!(handler.handle_event(&objects, inserted, 1), (false, EventHandlerAction::Stop));
    let setup = Seat::get_pointer(&mut objects, all, 2, NewId(4), 0).unwrap().unwrap();
    assert!(setup.subscribe);
    assert_eq!(handler.handle_event(&objects, inserted, 1), (true, EventHandlerAction::Keep));
    assert_eq!(handler.handle_event(&objects, inserted, 2), (false, EventHandlerAction::Keep));
    let other = StoreEvent::Inserted { interface: "wl_surface", object_id: 4 };
    assert_eq!(handler.handle_event(&objects, other, 1), (false, EventHandlerAction::Keep));
    let replaced = |new_interface| StoreEvent::Replaced { old_interface: "wl_callback", new_interface, object_id: 3 };
    assert_eq!(handler.handle_event(&objects, replaced("wl_surface"), 1), (true, EventHandlerAction::Keep));
    assert_eq!(handler.handle_event(&objects, replaced("wl_region"), 1), (false, EventHandlerAction::Keep));
    let removed = StoreEvent::Removed { interface: "wl_surface", object_id: 3 };
    assert_eq!(handler.handle_event(&objects, removed, 1), (false, EventHandlerAction::Keep));
}

#[test]
fn outputs_are_entered_and_left() {
    let mut objects = Store::new();
    let mut scene = empty();
    let mut handler = Compositor::create_surface(&mut objects, &mut scene, NewId(3), 1).unwrap();
    let mut bound = OutputState::new();
    bound.bind(1, 10);
    bound.bind(1, 11);
    bound.bind(2, 20);
    let set = |outputs: &[u32]| {
        let mut set = OutputSet::new();
        for output in outputs {
            set.insert(*output);
        }
        set
    };
    let (messages, action) = handler.handle_event(set(&[1, 3]), Some(&bound));
    let mut enter = messages.enter;
    enter.sort();
    assert_eq!(enter, vec![10, 11]);
    assert!(messages.leave.is_empty());
    assert_eq!(action, EventHandlerAction::Keep);
    let (messages, _) = handler.handle_event(set(&[2, 3]), Some(&bound));
    let mut leave = messages.leave;
    leave.sort();
    assert_eq!(leave, vec![10, 11]);
    assert_eq!(messages.enter, vec![20]);
    let (messages, _) = handler.handle_event(set(&[]), None);
    assert!(messages.leave.is_empty() && messages.enter.is_empty());
    assert!(!handler.current_outputs.contains(2));
    let mut some = set(&[1, 2]);
    some.remove(1);
    assert!(!some.contains(1) && some.contains(2));
}

#[test]
fn pools_are_mapped_and_resized() {
    let mut objects = Store::new();
    let mut records = MapRecords::new();
    assert_eq!(
        Shm::create_pool(5, 0),
        CreatePool::Refuse(ErrorEvent { object_id: 5, code: 1, message: "invalid size".to_string() })
    );
    assert_eq!(Shm::create_pool(5, 4096), CreatePool::Mmap(4096));
    let failed = Shm::pool_mapped(&mut objects, &mut records, 5, NewId(6), 3, 4096, Err(12)).unwrap_err();
    assert_eq!(text(&failed), "Mapping error: 12");
    assert_eq!(code(failed), Some((5, 2)));
    let mut pool = match Shm::pool_mapped(&mut objects, &mut records, 5, NewId(6), 3, 4096, Ok(0x1000)) {
        Ok(PoolCreated::Inserted(pool)) => pool,
        other => panic!("{:?}", other),
    };
    match Shm::pool_mapped(&mut objects, &mut records, 5, NewId(6), 4, 4096, Ok(0x8000)) {
        Ok(PoolCreated::Refused(event, record)) => {
            assert_eq!(event, ErrorEvent { object_id: 5, code: 0, message: "id already in use".to_string() });
            assert_eq!(record, MapRecord { start: 0x8000, len: 4096 });
        },
        other => panic!("{:?}", other),
    }
    let mut count = SigbusCount::new();
    assert_eq!(handle_sigbus(&records, &mut count, 0x1fff), Some(MapRecord { start: 0x1000, len: 4096 }));
    assert_eq!(handle_sigbus(&records, &mut count, 0x2000), None);
    assert_eq!(handle_sigbus(&records, &mut count, 0x8000), None);
    assert_eq!(sigbus_count(&count), 1);
    // A pool can only grow.
    assert!(pool.resize(&mut records, 4096).is_none());
    let (record, len) = pool.resize(&mut records, 8192).unwrap();
    assert_eq!(record, Some(MapRecord { start: 0x1000, len: 4096 }));
    assert_eq!(len, 8192);
    assert!(matches!(pool.resized(&mut records, None, len), Err(Error::UnknownFatalError("mmap failed"))));
    assert_eq!(pool.unmap(&mut records), None);
    assert_eq!(pool.resize(&mut records, -1).unwrap(), (None, usize::MAX));
    pool.resized(&mut records, Some(0x4000), 8192).unwrap();
    assert_eq!(handle_sigbus(&records, &mut count, 0x5fff), Some(MapRecord { start: 0x4000, len: 8192 }));
    assert_eq!(pool.unmap(&mut records), Some(MapRecord { start: 0x4000, len: 8192 }));
    assert_eq!((pool.addr, pool.len), (0, 0));
}

#[test]
fn buffers_are_parts_of_pools() {
    let mut objects = Store::new();
    let pool = ShmPool { inner: 6 };
    let (buffer, size) = pool.create_buffer(&mut objects, NewId(7), 16, 3, -1, 12, 1).unwrap();
    assert_eq!(size, (3, u32::MAX));
    assert_eq!(buffer.pool(), pool);
    assert_eq!((buffer.offset(), buffer.width(), buffer.height(), buffer.stride(), buffer.format()), (16, 3, -1, 12, 1));
    assert!(pool.create_buffer(&mut objects, NewId(7), 0, 1, 1, 4, 1).is_err());
    assert!(objects.contains(7));
}

#[test]
fn streams_are_replaced() {
    let (mut inner, replaceable, replace) = replaceable::<&str>();
    let pending = || EventPoll::<u8>::Pending;
    assert!(matches!(replaceable.poll_next(&mut inner, 1, pending()), EventPoll::Pending));
    // The task that waits is not woken up, and goes on waiting.
    assert_eq!(replace.replace(&mut inner, Some("a")), None);
    assert_eq!(inner.waker, Some(1));
    assert!(matches!(replaceable.poll_next(&mut inner, 1, EventPoll::Event(5)), EventPoll::Event(5)));
    assert!(matches!(replaceable.poll_next(&mut inner, 2, pending()), EventPoll::Pending));
    assert_eq!(replace.replace(&mut inner, None), Some("a"));
    assert_eq!(replace.replace(&mut inner, Some("b")), None);
    assert_eq!(inner.waker, Some(2));
    // A stream that ends can be replaced as long as the handle is there.
    assert!(matches!(replaceable.poll_next(&mut inner, 3, EventPoll::<u8>::End), EventPoll::Pending));
    assert!(!replaceable.is_terminated(&inner));
    assert_eq!(replace.finish(&mut inner), Some(3));
    assert!(matches!(replaceable.poll_next(&mut inner, 3, EventPoll::<u8>::End), EventPoll::End));
    assert!(replaceable.is_terminated(&inner));
}

#[test]
fn arguments_have_types() {
    assert_eq!(NewId::from(4), NewId(4));
    assert_eq!(Object::from(4), Object(4));
    assert_eq!(runa::types::String::from_text("hé").as_str().0, "hé".as_bytes());
    assert_eq!(Fixed::from_num(3), Fixed(768));
    assert_eq!(Fixed::from_num(-2), Fixed(-512));
    let mut fd = Fd::Raw(4);
    assert_eq!(fd.take(), None);
    assert_eq!(fd.assume_owned(), 4);
    assert!(fd.same(&Fd::Raw(4)));
    assert_eq!(fd.unwrap_owned(), 4);
    assert_eq!(fd.take(), Some(4));
    assert_eq!(fd.take(), None);
    assert_eq!(fd.as_raw_fd(), 4);
}

#[test]
fn input_objects_are_released() {
    let mut objects = Store::new();
    let all = Capabilities { pointer: true, keyboard: true, touch: true };
    Seat::get_pointer(&mut objects, all, 2, NewId(3), 0).unwrap();
    Seat::get_pointer(&mut objects, all, 2, NewId(4), 0).unwrap();
    insert(&mut objects, 5, 5, 99, "wl_seat");
    Seat::get_keyboard(&mut objects, all, RepeatInfo { rate: 1, delay: 2 }, 2, NewId(6), 0).unwrap();
    assert!(!Pointer::release(&mut objects, 3));
    objects.take_events();
    assert!(Pointer::release(&mut objects, 4));
    Seat::release(&mut objects, 5);
    assert!(Keyboard::release(&mut objects, 6));
    assert!(![4, 5, 6].iter().any(|id| objects.contains(*id)));
    assert!(matches!(
        objects.take_events().as_slice(),
        [
            StoreEvent::Removed { interface: "wl_pointer", object_id: 4 },
            StoreEvent::Removed { interface: "wl_seat", object_id: 5 },
            StoreEvent::Removed { interface: "wl_keyboard", object_id: 6 },
        ]
    ));
}

#[test]
fn the_last_pointer_ends_its_stream() {
    let mut state: PointerState<&str> = PointerState::new();
    let source = state.event_source.take().unwrap();
    assert!(state.handle.replace(&mut state.inner, Some("events")).is_none());
    assert!(matches!(source.poll_next(&mut state.inner, 7, EventPoll::<u8>::Pending), EventPoll::Pending));
    let (mut inner, wake) = state.finish();
    assert_eq!(wake, Some(7));
    assert!(source.is_terminated(&inner));
    assert!(matches!(source.poll_next(&mut inner, 7, EventPoll::Event(1)), EventPoll::End));
    let state: states::KeyboardState<&str> = states::KeyboardState::new();
    let (inner, wake) = state.finish();
    assert_eq!(wake, None);
    assert!(source.is_terminated(&inner));
}
