use runa::objects::{subcompositor, Error};
use runa::server::error::Error as CoreError;
use runa::server::events::EventPoll;
use runa::server::store::Store;
use runa::objects::compositor;
use runa::shell::geometry::Point;
use runa::shell::roles::{CustomRole, Role, RoleState, Subsurface};
use runa::shell::scene::{OutputEvent, Scene, Surface};
use runa::shell::stack::SurfaceStackIndex;
use runa::shell::surface::SurfaceState;
use runa::shell::tree::subsurface_iter;
use runa::shell::xdg;
use runa::shell::{Shell, ShellCall, SurfaceStore};
use runa::types::{NewId, Object};

fn empty() -> Scene<SurfaceStore> {
    Scene { shell: SurfaceStore::new(), surfaces: vec![], layout_changes: vec![] }
}

fn commit(scene: &mut Scene<SurfaceStore>, id: usize) -> Result<(), &'static str> {
    let mut scratch = vec![];
    let r = Surface::commit(scene, id, &mut scratch);
    assert!(r.is_err() || scratch.is_empty());
    r
}

fn key(scene: &Scene<SurfaceStore>, id: usize) -> u64 {
    scene.surfaces[id].current_key()
}

/// The object ids of all that is shown with a surface, from bottom to top.
fn shown(scene: &Scene<SurfaceStore>, id: usize) -> Vec<(u32, i32, i32)> {
    let mut iter = subsurface_iter(key(scene, id), scene);
    let mut list = vec![];
    while let Some((token, at)) = iter.next() {
        let surface = scene.shell.get(token).surface();
        list.push((scene.surfaces[surface].object_id(), at.x, at.y));
    }
    let mut iter = subsurface_iter(key(scene, id), scene);
    let mut reversed = vec![];
    while let Some((token, at)) = iter.next_back() {
        let surface = scene.shell.get(token).surface();
        reversed.push((scene.surfaces[surface].object_id(), at.x, at.y));
    }
    reversed.reverse();
    assert_eq!(list, reversed);
    list
}

/// A surface A with the subsurfaces B, C and D, where D has the subsurface E.
fn family() -> (Scene<SurfaceStore>, Vec<usize>) {
    let mut scene = empty();
    let ids: Vec<usize> = (1..6).map(|object_id| Surface::new(object_id, &mut scene)).collect();
    for child in [ids[1], ids[2], ids[3]] {
        assert!(Subsurface::attach(ids[0], child, &mut scene));
    }
    assert!(Subsurface::attach(ids[3], ids[4], &mut scene));
    for id in ids.iter().rev() {
        commit(&mut scene, *id).unwrap();
    }
    (scene, ids)
}

#[test]
fn new_surfaces_are_alone() {
    let mut scene = empty();
    let id = Surface::new(7, &mut scene);
    assert_eq!(scene.surfaces[id].object_id(), 7);
    assert!(!scene.surfaces[id].has_role());
    assert!(!scene.surfaces[id].role_is_active());
    assert_eq!(Surface::current(&scene, id).buffer(), None);
    assert_eq!(Surface::current(&scene, id).buffer_scale, 120);
    assert_eq!(shown(&scene, id), vec![(7, 0, 0)]);
    assert_eq!(Surface::parent(&scene, id), None);
    assert_eq!(Surface::root(&scene, id), id);
}

#[test]
fn a_commit_applies_the_pending_state() {
    let mut scene = empty();
    let id = Surface::new(7, &mut scene);
    let before = key(&scene, id);
    scene.surfaces[id].pending_state.set_buffer_from_object(33);
    scene.surfaces[id].pending_state.set_buffer_scale(240);
    scene.surfaces[id].add_frame_callback(90);
    assert_eq!(scene.surfaces[id].pending_state.buffer(), Some(33));
    commit(&mut scene, id).unwrap();
    let after = key(&scene, id);
    assert!(after > before);
    let state = Surface::current(&scene, id);
    assert_eq!(state.buffer(), Some(33));
    assert_eq!(state.buffer_scale, 240);
    assert_eq!(state.frame_callback_end, 1);
    assert_eq!(scene.surfaces[id].pending_state.buffer(), None);
    let calls = scene.shell.take_calls();
    assert!(matches!(
        calls.as_slice(),
        [ShellCall::AcquireBuffer { buffer: 33 }, ShellCall::PostCommit { old: Some(o), new }]
            if *o == before && *new == after
    ));
    SurfaceState::damage_buffer(after, &mut scene.shell);
    assert!(matches!(scene.shell.take_calls().as_slice(), [ShellCall::DamageBuffer { buffer: 33 }]));
    // What has no pending change stays.
    commit(&mut scene, id).unwrap();
    let state = Surface::current(&scene, id);
    assert_eq!(state.buffer(), Some(33));
    assert_eq!(state.buffer_scale, 240);
    assert!(matches!(scene.shell.take_calls().as_slice(), [ShellCall::PostCommit { .. }]));
}

#[test]
fn subsurfaces_are_shown_in_order() {
    let (scene, ids) = family();
    // Each new subsurface goes to the bottom.
    assert_eq!(
        shown(&scene, ids[0]),
        vec![(5, 0, 0), (4, 0, 0), (3, 0, 0), (2, 0, 0), (1, 0, 0)]
    );
    assert_eq!(SurfaceState::bottom(key(&scene, ids[0]), &scene.shell).0, key(&scene, ids[4]));
    assert_eq!(SurfaceState::top(key(&scene, ids[0]), &scene.shell).0, key(&scene, ids[0]));
    assert_eq!(Surface::parent(&scene, ids[4]), Some(ids[3]));
    assert_eq!(Surface::root(&scene, ids[4]), ids[0]);
    let stack_index = |id: usize| match &scene.surfaces[id].role {
        Some(Role::Subsurface(role)) => SurfaceStackIndex(role.stack_index),
        _ => panic!("a subsurface"),
    };
    let a = key(&scene, ids[0]);
    // Above D comes C, below C comes D itself, and below D nothing.
    assert_eq!(SurfaceState::next_in_stack(a, stack_index(ids[3]), &scene.shell).unwrap().0, key(&scene, ids[2]));
    assert_eq!(SurfaceState::prev_in_stack(a, stack_index(ids[2]), &scene.shell).unwrap().0, key(&scene, ids[3]));
    assert!(SurfaceState::prev_in_stack(a, stack_index(ids[3]), &scene.shell).is_none());
}

#[test]
fn a_subsurface_is_shown_once_its_parent_commits() {
    let (mut scene, ids) = family();
    let old = key(&scene, ids[2]);
    scene.surfaces[ids[2]].pending_state.set_buffer_from_object(5);
    commit(&mut scene, ids[2]).unwrap();
    let new = key(&scene, ids[2]);
    let tokens = |scene: &Scene<SurfaceStore>| {
        let mut iter = subsurface_iter(key(scene, ids[0]), scene);
        let mut list = vec![];
        while let Some((token, _)) = iter.next() {
            list.push(token);
        }
        list
    };
    assert!(tokens(&scene).contains(&old));
    assert!(!tokens(&scene).contains(&new));
    commit(&mut scene, ids[0]).unwrap();
    assert!(!tokens(&scene).contains(&old));
    assert!(tokens(&scene).contains(&new));
}

#[test]
fn cycles_are_refused() {
    let (mut scene, ids) = family();
    let before = scene.shell.take_calls().len();
    assert!(before > 0);
    // It has a role already.
    assert!(!Subsurface::attach(ids[0], ids[1], &mut scene));
    // It is the root of the other one.
    assert!(!Subsurface::attach(ids[4], ids[0], &mut scene));
    assert!(!Subsurface::attach(ids[0], ids[0], &mut scene));
    assert!(scene.shell.take_calls().is_empty());
}

#[test]
fn positions_add_up() {
    let (mut scene, ids) = family();
    let mut objects = Store::new();
    let create = |objects: &mut Store, id: u32, number: usize| {
        let object = runa::server::maps::AnyObject {
            handle: number as u64,
            type_id: runa::objects::SUBSURFACE_TYPE,
            interface: "wl_subsurface",
            state: None,
        };
        assert!(objects.try_insert_with(id, object));
    };
    create(&mut objects, 20, ids[3]);
    create(&mut objects, 21, ids[4]);
    subcompositor::Subsurface::set_position(&objects, &mut scene, 20, 10, 20);
    subcompositor::Subsurface::set_position(&objects, &mut scene, 21, 1, 2);
    assert_eq!(shown(&scene, ids[0])[0], (5, 0, 0));
    commit(&mut scene, ids[3]).unwrap();
    commit(&mut scene, ids[0]).unwrap();
    assert_eq!(shown(&scene, ids[0])[..2], [(5, 11, 22), (4, 10, 20)]);
}

#[test]
fn inactive_subsurfaces_are_skipped() {
    let (mut scene, ids) = family();
    Surface::deactivate_role(&mut scene, ids[2]);
    assert!(scene.surfaces[ids[2]].has_role());
    assert!(!scene.surfaces[ids[2]].role_is_active());
    assert_eq!(shown(&scene, ids[0]), vec![(5, 0, 0), (4, 0, 0), (2, 0, 0), (1, 0, 0)]);
    let calls = scene.shell.take_calls();
    assert!(matches!(calls.last(), Some(ShellCall::RoleDeactivated { role: "wl_subsurface", .. })));
    commit(&mut scene, ids[0]).unwrap();
    assert_eq!(shown(&scene, ids[0]), vec![(5, 0, 0), (4, 0, 0), (2, 0, 0), (1, 0, 0)]);
}

#[test]
fn destroying_a_parent_orphans_its_subsurfaces() {
    let (mut scene, ids) = family();
    let mut scratch = vec![];
    Surface::destroy(&mut scene, ids[0], &mut scratch);
    assert!(scene.surfaces[ids[0]].current.is_none());
    for child in [ids[1], ids[2], ids[3]] {
        assert!(!scene.surfaces[child].role_is_active());
        assert_eq!(Surface::current(&scene, child).parent(), None);
    }
    // The subsurface of a subsurface keeps its parent.
    assert!(scene.surfaces[ids[4]].role_is_active());
    assert_eq!(shown(&scene, ids[3]), vec![(5, 0, 0)]);
}

#[test]
fn buffers_wait_for_the_first_configure() {
    let mut scene = empty();
    let id = Surface::new(1, &mut scene);
    let toplevel = xdg::TopLevel::new(xdg::Surface::new(2), 3);
    Surface::set_role(&mut scene, id, Role::XdgTopLevel(toplevel));
    assert!(matches!(
        scene.shell.take_calls().as_slice(),
        [ShellCall::RoleAdded { role: "xdg_toplevel", .. }]
    ));
    commit(&mut scene, id).unwrap();
    assert_eq!(scene.layout_changes, vec![id]);
    scene.surfaces[id].pending_state.set_buffer_from_object(9);
    assert_eq!(commit(&mut scene, id), Err(xdg::EARLY_BUFFER));
    if let Some(Role::XdgTopLevel(role)) = &mut scene.surfaces[id].role {
        role.base.last_ack = Some(1);
    }
    assert_eq!(commit(&mut scene, id), Ok(()));
    assert_eq!(Surface::current(&scene, id).buffer(), Some(9));
    assert_eq!(scene.layout_changes, vec![id]);
}

#[test]
fn points_move_there_and_back() {
    let a = Point::new(3, -4);
    let b = Point::new(10, 20);
    assert_eq!(a.translate(b), Point::new(13, 16));
    assert_eq!(a.translate(b).translate_back(b), a);
    assert_eq!(Point::new(i32::MAX, 0).translate(Point::new(1, 0)), Point::new(i32::MIN, 0));
}

#[test]
fn clients_make_subsurfaces() {
    let mut scene = empty();
    let mut objects = Store::new();
    for id in [3, 4] {
        compositor::Compositor::create_surface(&mut objects, &mut scene, NewId(id), 0).unwrap();
    }
    let get = |objects: &mut Store, scene: &mut Scene<SurfaceStore>, id, surface, parent| {
        subcompositor::Subcompositor::get_subsurface(objects, scene, 2, NewId(id), Object(surface), Object(parent))
    };
    let bad = |r: Result<(), Error>| match r {
        Err(Error::Core(CoreError::Custom { source, object_id_and_code: Some((2, 0)), fatal: true })) => source,
        _ => panic!("not a bad surface"),
    };
    assert_eq!(bad(get(&mut objects, &mut scene, 5, 9, 4)), "Bad surface id 9");
    assert_eq!(bad(get(&mut objects, &mut scene, 5, 3, 8)), "Bad surface id 8");
    assert!(get(&mut objects, &mut scene, 4, 3, 4).is_err());
    assert!(get(&mut objects, &mut scene, 5, 3, 4).is_ok());
    assert_eq!(bad(get(&mut objects, &mut scene, 6, 3, 4)), "Bad surface id 3");
    assert!(objects.contains(5));
    assert!(!objects.contains(6));
    subcompositor::Subsurface::destroy(&mut objects, &mut scene, 5);
    assert!(!objects.contains(5));
    assert!(!scene.surfaces[0].role_is_active());
}

#[test]
fn states_and_roles_can_be_changed_in_place() {
    let (mut scene, ids) = family();
    scene.surfaces[ids[1]].pending_mut().set_buffer_scale(360);
    assert_eq!(scene.surfaces[ids[1]].pending().buffer_scale, Some(360));
    Surface::current_mut(&mut scene, ids[1]).set_buffer_scale(240);
    assert_eq!(Surface::current(&scene, ids[1]).buffer_scale, 240);
    assert!(scene.surfaces[ids[0]].role().is_none());
    assert!(scene.surfaces[ids[0]].role_mut().is_none());
    match scene.surfaces[ids[1]].role_mut() {
        Some(Role::Subsurface(role)) => role.sync = false,
        _ => panic!("not a subsurface"),
    }
    assert!(matches!(scene.surfaces[ids[1]].role(), Some(Role::Subsurface(role)) if !role.sync));
    assert!(Surface::current_mut(&mut scene, ids[0]).role_state_mut().is_none());
    let custom = RoleState::Custom(4);
    *Surface::current_mut(&mut scene, ids[1]).role_state_mut().unwrap() = custom;
    assert_eq!(Surface::current(&scene, ids[1]).role_state(), Some(custom));
    Surface::notify_layout_changed(&mut scene, ids[2]);
    assert_eq!(scene.layout_changes, vec![ids[2]]);
}

#[test]
fn each_surface_is_gone_through_once() {
    let (scene, ids) = family();
    let all = subsurface_iter(key(&scene, ids[0]), &scene).collect();
    let mut back = subsurface_iter(key(&scene, ids[0]), &scene).collect_back();
    back.reverse();
    assert_eq!(all, back);
    let mut tokens: Vec<u64> = all.iter().map(|(token, _)| *token).collect();
    tokens.sort();
    let mut currents: Vec<u64> = ids.iter().map(|id| key(&scene, *id)).collect();
    currents.sort();
    assert_eq!(tokens, currents);
}

#[test]
fn other_roles_can_stop_a_commit() {
    let mut scene = empty();
    let id = Surface::new(7, &mut scene);
    let role = CustomRole { name: "wl_other", is_active: true, refusal: Some("not yet"), state: 5 };
    Surface::set_role(&mut scene, id, Role::Custom(role));
    assert!(matches!(
        scene.shell.take_calls().as_slice(),
        [ShellCall::RoleAdded { role: "wl_other", .. }]
    ));
    assert_eq!(commit(&mut scene, id), Err("not yet"));
    assert!(scene.shell.take_calls().is_empty());
    if let Some(Role::Custom(role)) = scene.surfaces[id].role_mut() {
        role.refusal = None;
    }
    scene.surfaces[id].pending_mut().buffer = Some(9);
    assert_eq!(commit(&mut scene, id), Ok(()));
    // The role sees the commit before the shell does.
    let current = key(&scene, id);
    match scene.shell.take_calls().as_slice() {
        [ShellCall::AcquireBuffer { buffer: 9 }, ShellCall::RolePostCommit { role: 5, key }, ShellCall::PostCommit { new, .. }] =>
        {
            assert_eq!((*key, *new), (current, current));
        },
        other => panic!("{:?}", other),
    }
    Surface::deactivate_role(&mut scene, id);
    assert!(scene.surfaces[id].has_role() && !scene.surfaces[id].role_is_active());
    scene.shell.take_calls();
    assert_eq!(commit(&mut scene, id), Ok(()));
    assert!(matches!(scene.shell.take_calls().as_slice(), [ShellCall::PostCommit { .. }]));
}

#[test]
fn outputs_of_a_surface_are_announced() {
    let mut scene = empty();
    let id = Surface::new(7, &mut scene);
    let surface = &mut scene.surfaces[id];
    let mut receiver = surface.output_change_events.new_receiver();
    assert!(!surface.outputs().contains(3));
    surface.outputs_mut().insert(3);
    assert!(matches!(receiver.poll_next(Some(&surface.output_change_events)), EventPoll::Pending));
    surface.notify_output_changed();
    surface.outputs_mut().insert(4);
    assert!(matches!(receiver.poll_next(Some(&surface.output_change_events)), EventPoll::Event(OutputEvent)));
    assert!(surface.outputs().contains(3) && surface.outputs().contains(4));
    assert!(matches!(receiver.poll_next(Some(&surface.output_change_events)), EventPoll::Pending));
}

#[test]
fn destroying_empties_the_scratch_buffer() {
    let (mut scene, ids) = family();
    // The state of a subsurface has a parent.
    let mut scratch = vec![1, 2];
    Surface::destroy(&mut scene, ids[1], &mut scratch);
    assert_eq!(scratch, vec![1, 2]);
    Surface::destroy(&mut scene, ids[0], &mut scratch);
    assert!(scratch.is_empty());
}
