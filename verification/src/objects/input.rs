//! Objects related to input devices, like mouse and keyboard.
use vstd::prelude::*;
use crate::objects::keys::{key_codes, Keys};

verus! {

/// What to do with an event handler after it has handled an event.
#[derive(Clone, Copy, Debug, PartialEq, Eq, Structural)]
pub enum EventHandlerAction {
    /// Removes the handler from the event dispatcher.
    Stop,
    /// Keep the handler in the event dispatcher.
    Keep,
}

/// State of the keyboard.
#[derive(Clone)]
pub struct KeyboardState {
    /// All the currently pressed keys.
    pub keys: Keys,
    /// Depressed modifiers. What this number means is not well defined in the
    /// wayland protocol. In practice this is whatever is returned by the
    /// `xkb_state_serialize_mods` function.
    pub depressed_modifiers: u32,
    /// Latched modifiers.
    pub latched_modifiers: u32,
    /// Locked modifiers.
    pub locked_modifiers: u32,
    /// Effective keyboard layout, this is called "group" in the wayland
    /// protocol.
    pub effective_layout: u32,
}

/// A keyboard activity.
#[derive(Clone)]
pub enum KeyboardActivity {
    /// A key was pressed or released.
    Key(KeyboardState),
    /// Surface lost keyboard focus.
    Leave,
}

/// A keyboard activity on the surface with the given object id.
#[derive(Clone)]
pub struct KeyboardEvent {
    pub time: u32,
    pub object_id: u32,
    pub activity: KeyboardActivity,
}

/// Whether a key is down.
#[derive(Clone, Copy, Debug, PartialEq, Eq, Structural)]
pub enum KeyState {
    Released,
    Pressed,
}

/// An event for the `wl_keyboard` objects of a client.
#[derive(Debug)]
pub enum KeyboardMessage {
    Enter { serial: u32, surface: u32, keys: Vec<u8> },
    Leave { serial: u32, surface: u32 },
    Key { serial: u32, time: u32, key: u32, state: KeyState },
    Modifiers { serial: u32, mods_depressed: u32, mods_latched: u32, mods_locked: u32, group: u32 },
}

/// What a [`KeyboardMessage`] says.
pub enum KeyboardMessageView {
    Enter { serial: u32, surface: u32, keys: Seq<u8> },
    Leave { serial: u32, surface: u32 },
    Key { serial: u32, time: u32, key: u32, state: KeyState },
    Modifiers { serial: u32, mods_depressed: u32, mods_latched: u32, mods_locked: u32, group: u32 },
}

impl View for KeyboardMessage {
    type V = KeyboardMessageView;

    open spec fn view(&self) -> KeyboardMessageView {
        match *self {
            KeyboardMessage::Enter { serial, surface, keys } => KeyboardMessageView::Enter {
                serial,
                surface,
                keys: keys@,
            },
            KeyboardMessage::Leave { serial, surface } => KeyboardMessageView::Leave { serial, surface },
            KeyboardMessage::Key { serial, time, key, state } => KeyboardMessageView::Key { serial, time, key, state },
            KeyboardMessage::Modifiers { serial, mods_depressed, mods_latched, mods_locked, group } => {
                KeyboardMessageView::Modifiers { serial, mods_depressed, mods_latched, mods_locked, group }
            },
        }
    }
}

/// What the messages say.
pub open spec fn said(messages: Seq<KeyboardMessage>) -> Seq<KeyboardMessageView> {
    messages.map_values(|m: KeyboardMessage| m@)
}

impl KeyboardState {
    /// The modifiers of two states are the same.
    pub open spec fn same_modifiers(self, other: KeyboardState) -> bool {
        &&& self.effective_layout == other.effective_layout
        &&& self.locked_modifiers == other.locked_modifiers
        &&& self.latched_modifiers == other.latched_modifiers
        &&& self.depressed_modifiers == other.depressed_modifiers
    }

    /// The message that tells the modifiers.
    pub open spec fn spec_modifiers(self) -> KeyboardMessageView {
        KeyboardMessageView::Modifiers {
            serial: 0,
            mods_depressed: self.depressed_modifiers,
            mods_latched: self.latched_modifiers,
            mods_locked: self.locked_modifiers,
            group: self.effective_layout,
        }
    }

    fn modifiers(&self) -> (r: KeyboardMessage)
        ensures
            r@ == self.spec_modifiers(),
    {
        KeyboardMessage::Modifiers {
            serial: 0,
            mods_depressed: self.depressed_modifiers,
            mods_latched: self.latched_modifiers,
            mods_locked: self.locked_modifiers,
            group: self.effective_layout,
        }
    }
}

impl Default for KeyboardState {
    fn default() -> (r: KeyboardState)
        ensures
            key_codes(r.keys) == Seq::<u8>::empty(),
            r.depressed_modifiers == 0,
            r.latched_modifiers == 0,
            r.locked_modifiers == 0,
            r.effective_layout == 0,
    {
        KeyboardState {
            keys: Keys::new(),
            depressed_modifiers: 0,
            latched_modifiers: 0,
            locked_modifiers: 0,
            effective_layout: 0,
        }
    }
}

/// The keys in `keys` that are not in `other`.
pub open spec fn keys_without(keys: Seq<u8>, other: Seq<u8>) -> Seq<u8> {
    keys.filter(|k: u8| !other.contains(k))
}

/// One message for each key.
pub open spec fn key_messages(keys: Seq<u8>, time: u32, state: KeyState) -> Seq<KeyboardMessageView> {
    keys.map_values(|k: u8| KeyboardMessageView::Key { serial: 0, time, key: k as u32, state })
}

/// Keeps track of the surface that has the keyboard focus, and tells the client
/// what changes.
pub struct KeyboardEventHandler {
    /// The object id of the focused surface, and what was last told of the
    /// keyboard.
    pub focus: Option<(u32, KeyboardState)>,
}

impl KeyboardEventHandler {
    /// The surface with the given object id has the focus.
    pub open spec fn focused(self, object_id: u32) -> bool {
        self.focus is Some && (self.focus->0).0 == object_id
    }

    /// What is sent in response to an event.
    pub open spec fn response(self, event: KeyboardEvent) -> Seq<KeyboardMessageView> {
        match event.activity {
            KeyboardActivity::Leave => if self.focused(event.object_id) {
                seq![KeyboardMessageView::Leave { serial: 0, surface: event.object_id }]
            } else {
                Seq::empty()
            },
            KeyboardActivity::Key(state) => if self.focused(event.object_id) {
                let last = (self.focus->0).1;
                let new = key_codes(state.keys);
                let old = key_codes(last.keys);
                key_messages(keys_without(new, old), event.time, KeyState::Pressed) + key_messages(
                    keys_without(old, new),
                    event.time,
                    KeyState::Released,
                ) + (if state.same_modifiers(last) {
                    Seq::empty()
                } else {
                    seq![state.spec_modifiers()]
                })
            } else {
                (match self.focus {
                    Some((id, _)) => seq![KeyboardMessageView::Leave { serial: 0, surface: id }],
                    None => Seq::empty(),
                }) + seq![
                    KeyboardMessageView::Enter { serial: 0, surface: event.object_id, keys: key_codes(state.keys) },
                    state.spec_modifiers(),
                ]
            },
        }
    }

    /// The focus after an event.
    pub open spec fn next_focus(self, event: KeyboardEvent) -> Option<(u32, KeyboardState)> {
        match event.activity {
            KeyboardActivity::Leave => None,
            KeyboardActivity::Key(state) => Some((event.object_id, state)),
        }
    }

    /// Handles a keyboard activity. Returns the messages for the keyboard
    /// objects of the client: each of them goes to all keyboard objects before
    /// the next one does. See [`deliveries`]. The handler is always kept.
    pub fn handle_event(&mut self, event: KeyboardEvent) -> (r: (Vec<KeyboardMessage>, EventHandlerAction))
        ensures
            said(r.0@) == old(self).response(event),
            r.1 == EventHandlerAction::Keep,
            final(self).focus == old(self).next_focus(event),
            // The modifiers that are told are those of the event.
            forall|i: int| 0 <= i < r.0@.len() ==> ((#[trigger] r.0@[i]) matches KeyboardMessage::Modifiers {
                mods_depressed,
                mods_latched,
                mods_locked,
                group,
                ..
            } ==> (event.activity matches KeyboardActivity::Key(state) && mods_depressed == state.depressed_modifiers
                && mods_latched == state.latched_modifiers && mods_locked == state.locked_modifiers && group
                == state.effective_layout)),
            // The event that was handled is what is known from then on.
            event.activity matches KeyboardActivity::Key(state) ==> final(self).focus == Some((event.object_id, state)),
            event.activity is Leave ==> final(self).focus is None,
    {
        let ghost event0 = event;
        let object_id: u32 = event.object_id;
        let mut messages: Vec<KeyboardMessage> = Vec::new();
        match event.activity {
            KeyboardActivity::Leave => {
                if let Some((id, _)) = self.focus.take() {
                    // Leaving a surface that's not been previously focused is not
                    // told to the client.
                    if id == object_id {
                        messages.push(KeyboardMessage::Leave { serial: 0, surface: object_id });
                    }
                }
                proof {
                    assert(said(messages@) =~= old(self).response(event0));
                }
            },
            KeyboardActivity::Key(state) => {
                match self.focus.take() {
                    Some((id, last)) if id == object_id => {
                        push_key_changes(&mut messages, &state.keys, &last.keys, event.time, KeyState::Pressed);
                        push_key_changes(&mut messages, &last.keys, &state.keys, event.time, KeyState::Released);
                        if state.effective_layout != last.effective_layout || state.locked_modifiers
                            != last.locked_modifiers || state.latched_modifiers != last.latched_modifiers
                            || state.depressed_modifiers != last.depressed_modifiers {
                            messages.push(state.modifiers());
                        }
                        proof {
                            assert(said(messages@) =~= old(self).response(event0));
                        }
                    },
                    unfocused => {
                        // Focus changed, send leave event to old focus.
                        if let Some((id, _)) = unfocused {
                            messages.push(KeyboardMessage::Leave { serial: 0, surface: id });
                        }
                        // Send enter event to new focus.
                        messages.push(
                            KeyboardMessage::Enter { serial: 0, surface: object_id, keys: state.keys.to_vec() },
                        );
                        messages.push(state.modifiers());
                        proof {
                            assert(said(messages@) =~= old(self).response(event0));
                        }
                    },
                }
                self.focus = Some((object_id, state));
            },
        }
        proof {
            assert forall|i: int| 0 <= i < messages@.len() && (#[trigger] messages@[i]) is Modifiers implies (
            event0.activity matches KeyboardActivity::Key(state) && (messages@[i] matches KeyboardMessage::Modifiers {
                mods_depressed,
                mods_latched,
                mods_locked,
                group,
                ..
            } && mods_depressed == state.depressed_modifiers && mods_latched == state.latched_modifiers && mods_locked
                == state.locked_modifiers && group == state.effective_layout)) by {
                assert(said(messages@)[i] == messages@[i]@);
                modifiers_are_those_of_the_event(*old(self), event0, i);
            }
        }
        (messages, EventHandlerAction::Keep)
    }
}

/// Adds a message for each key in `keys` that is not in `other`.
fn push_key_changes(messages: &mut Vec<KeyboardMessage>, keys: &Keys, other: &Keys, time: u32, state: KeyState)
    ensures
        said(final(messages)@) == said(old(messages)@) + key_messages(
            keys_without(key_codes(*keys), key_codes(*other)),
            time,
            state,
        ),
{
    let codes = keys.as_slice();
    let ghost pred = |k: u8| !key_codes(*other).contains(k);
    let mut i: usize = 0;
    proof {
        reveal(Seq::filter);
        assert(codes@.take(0).filter(pred) =~= Seq::empty());
        assert(said(messages@) =~= said(old(messages)@) + key_messages(codes@.take(0).filter(pred), time, state));
    }
    while i < codes.len()
        invariant
            0 <= i <= codes@.len(),
            codes@ == key_codes(*keys),
            pred == (|k: u8| !key_codes(*other).contains(k)),
            said(messages@) == said(old(messages)@) + key_messages(codes@.take(i as int).filter(pred), time, state),
        decreases codes@.len() - i,
    {
        let key: u8 = codes[i];
        let ghost before = messages@;
        proof {
            let part = codes@.take(i + 1);
            assert(part.drop_last() =~= codes@.take(i as int));
            reveal(Seq::filter);
            assert(part.filter(pred) == if pred(key) {
                codes@.take(i as int).filter(pred).push(key)
            } else {
                codes@.take(i as int).filter(pred)
            });
        }
        if !other.contains(key) {
            messages.push(KeyboardMessage::Key { serial: 0, time, key: key as u32, state });
            proof {
                assert(said(messages@) =~= said(before).push(messages@.last()@));
            }
        }
        i = i + 1;
        proof {
            assert(said(messages@) =~= said(old(messages)@) + key_messages(codes@.take(i as int).filter(pred), time, state));
        }
    }
    proof {
        assert(codes@.take(i as int) =~= codes@);
    }
}

/// What the message numbers `0..count` are sent to, in order: each message goes
/// to all objects before the next one does.
pub open spec fn spec_deliveries(ids: Seq<u32>, count: nat) -> Seq<(u32, usize)>
    decreases count,
{
    if count == 0 {
        Seq::empty()
    } else {
        spec_deliveries(ids, (count - 1) as nat) + ids.map_values(|id: u32| (id, (count - 1) as usize))
    }
}

/// Pairs each of `count` messages, by its position, with each of the objects
/// that it is sent to.
pub fn deliveries(ids: &Vec<u32>, count: usize) -> (r: Vec<(u32, usize)>)
    ensures
        r@ == spec_deliveries(ids@, count as nat),
{
    let mut list: Vec<(u32, usize)> = Vec::new();
    let mut n: usize = 0;
    while n < count
        invariant
            n <= count,
            list@ == spec_deliveries(ids@, n as nat),
        decreases count - n,
    {
        let ghost f = |id: u32| (id, n);
        let ghost start = list@;
        let mut i: usize = 0;
        proof {
            assert(start =~= start + ids@.take(0).map_values(f));
        }
        while i < ids.len()
            invariant
                0 <= i <= ids@.len(),
                f == (|id: u32| (id, n)),
                list@ == start + ids@.take(i as int).map_values(f),
            decreases ids@.len() - i,
        {
            list.push((ids[i], n));
            proof {
                assert(ids@.take(i + 1) =~= ids@.take(i as int).push(ids@[i as int]));
                assert(list@ =~= start + ids@.take(i + 1).map_values(f));
            }
            i = i + 1;
        }
        proof {
            assert(ids@.take(i as int) =~= ids@);
            assert(ids@.map_values(f) =~= ids@.map_values(|id: u32| (id, ((n + 1) as nat - 1) as usize)));
        }
        n = n + 1;
    }
    list
}

/// The key messages that are sent for a focused surface turn the keys that it
/// was told of into those that are pressed now.
pub proof fn key_messages_update_keys(old_keys: Seq<u8>, new_keys: Seq<u8>)
    ensures
        old_keys.to_set().union(keys_without(new_keys, old_keys).to_set()).difference(
            keys_without(old_keys, new_keys).to_set(),
        ) == new_keys.to_set(),
{
    let pressed = keys_without(new_keys, old_keys);
    let released = keys_without(old_keys, new_keys);
    assert forall|k: u8| #[trigger] pressed.contains(k) <==> new_keys.contains(k) && !old_keys.contains(k) by {
        lemma_keys_without(new_keys, old_keys, k);
    }
    assert forall|k: u8| #[trigger] released.contains(k) <==> old_keys.contains(k) && !new_keys.contains(k) by {
        lemma_keys_without(old_keys, new_keys, k);
    }
    assert(old_keys.to_set().union(pressed.to_set()).difference(released.to_set()) =~= new_keys.to_set());
}

/// What is in `keys` and not in `other`.
proof fn lemma_keys_without(keys: Seq<u8>, other: Seq<u8>, k: u8)
    ensures
        keys_without(keys, other).contains(k) <==> keys.contains(k) && !other.contains(k),
    decreases keys.len(),
{
    let pred = |k: u8| !other.contains(k);
    reveal(Seq::filter);
    if keys.len() > 0 {
        let rest = keys.drop_last();
        lemma_keys_without(rest, other, k);
        let part = rest.filter(pred);
        let all = keys.filter(pred);
        if rest.contains(k) {
            let i = choose|i: int| 0 <= i < rest.len() && rest[i] == k;
            assert(keys[i] == k);
        }
        if keys.contains(k) && !rest.contains(k) {
            let i = choose|i: int| 0 <= i < keys.len() && keys[i] == k;
            if i < rest.len() {
                assert(rest[i] == k);
            }
            assert(k == keys.last());
        }
        if pred(keys.last()) {
            assert(all == part.push(keys.last()));
            if part.contains(k) {
                let i = choose|i: int| 0 <= i < part.len() && part[i] == k;
                assert(all[i] == k);
            }
            assert(all[part.len() as int] == keys.last());
            if all.contains(k) && k != keys.last() {
                let i = choose|i: int| 0 <= i < all.len() && all[i] == k;
                assert(part[i] == k);
            }
        }
        assert(keys[keys.len() - 1] == keys.last());
    }
}

/// A surface that does not have the focus is never told that a key changed or
/// that it was left, and the surface that loses the focus is told so before
/// another one gets it.
pub proof fn keyboard_focus_is_bracketed(handler: KeyboardEventHandler, event: KeyboardEvent, i: int)
    requires
        0 <= i < handler.response(event).len(),
    ensures
        ({
            let message = handler.response(event)[i];
            &&& message matches KeyboardMessageView::Leave { surface, .. } ==> handler.focused(surface) && i == 0
            &&& message is Key ==> handler.focused(event.object_id)
            &&& message matches KeyboardMessageView::Enter { surface, .. } ==> {
                &&& surface == event.object_id
                &&& !handler.focused(surface)
                &&& handler.focus is Some ==> i == 1 && handler.response(event)[0] == (KeyboardMessageView::Leave {
                    serial: 0,
                    surface: (handler.focus->0).0,
                })
            }
        }),
{
}

/// Whatever modifiers are told are those of the event, each under its own name.
pub proof fn modifiers_are_those_of_the_event(handler: KeyboardEventHandler, event: KeyboardEvent, i: int)
    requires
        0 <= i < handler.response(event).len(),
        handler.response(event)[i] is Modifiers,
    ensures
        event.activity matches KeyboardActivity::Key(state) && (handler.response(event)[i]
            matches KeyboardMessageView::Modifiers { mods_depressed, mods_latched, mods_locked, group, .. }
            && mods_depressed == state.depressed_modifiers && mods_latched == state.latched_modifiers && mods_locked
            == state.locked_modifiers && group == state.effective_layout),
{
}

/// What a client has come to know of the keyboard.
pub struct KnownKeyboard {
    /// The surface that has the focus.
    pub focus: Option<u32>,
    /// The keys that are down.
    pub keys: Set<u8>,
    pub depressed: u32,
    pub latched: u32,
    pub locked: u32,
    pub group: u32,
}

impl KnownKeyboard {
    /// What a client knows once it was told one more thing.
    pub open spec fn told(self, message: KeyboardMessageView) -> KnownKeyboard {
        match message {
            KeyboardMessageView::Enter { surface, keys, .. } => KnownKeyboard {
                focus: Some(surface),
                keys: keys.to_set(),
                ..self
            },
            KeyboardMessageView::Leave { surface, .. } => if self.focus == Some(surface) {
                KnownKeyboard { focus: None, keys: Set::empty(), ..self }
            } else {
                self
            },
            KeyboardMessageView::Key { key, state, .. } => KnownKeyboard {
                keys: if state is Pressed {
                    self.keys.insert(key as u8)
                } else {
                    self.keys.remove(key as u8)
                },
                ..self
            },
            KeyboardMessageView::Modifiers { mods_depressed, mods_latched, mods_locked, group, .. } => KnownKeyboard {
                depressed: mods_depressed,
                latched: mods_latched,
                locked: mods_locked,
                group,
                ..self
            },
        }
    }

    /// What a client knows once it was told all of the messages, one after the other.
    pub open spec fn told_all(self, messages: Seq<KeyboardMessageView>) -> KnownKeyboard
        decreases messages.len(),
    {
        if messages.len() == 0 {
            self
        } else {
            self.told_all(messages.drop_last()).told(messages.last())
        }
    }

    /// The client knows which surface has the focus and, if one of its surfaces has it,
    /// the keys that are down and the modifiers.
    pub open spec fn knows(self, focus: Option<(u32, KeyboardState)>) -> bool {
        match focus {
            None => self.focus is None,
            Some((surface, state)) => {
                &&& self.focus == Some(surface)
                &&& self.keys == key_codes(state.keys).to_set()
                &&& self.depressed == state.depressed_modifiers
                &&& self.latched == state.latched_modifiers
                &&& self.locked == state.locked_modifiers
                &&& self.group == state.effective_layout
            },
        }
    }
}

/// Being told of keys changes only the keys that are down.
proof fn lemma_told_keys(known: KnownKeyboard, keys: Seq<u8>, time: u32, state: KeyState)
    ensures
        known.told_all(key_messages(keys, time, state)) == (KnownKeyboard {
            keys: if state is Pressed {
                known.keys.union(keys.to_set())
            } else {
                known.keys.difference(keys.to_set())
            },
            ..known
        }),
    decreases keys.len(),
{
    let messages = key_messages(keys, time, state);
    if keys.len() == 0 {
        assert(known.keys.union(keys.to_set()) =~= known.keys);
        assert(known.keys.difference(keys.to_set()) =~= known.keys);
    } else {
        let rest = keys.drop_last();
        lemma_told_keys(known, rest, time, state);
        assert(messages.drop_last() =~= key_messages(rest, time, state));
        let last = keys.last();
        assert((last as u32) as u8 == last);
        assert(messages.last() == (KeyboardMessageView::Key { serial: 0, time, key: last as u32, state }));
        assert forall|k: u8| #[trigger] keys.contains(k) <==> rest.contains(k) || k == last by {
            if keys.contains(k) && k != last {
                let i = choose|i: int| 0 <= i < keys.len() && keys[i] == k;
                assert(rest[i] == k);
            }
            if rest.contains(k) {
                let i = choose|i: int| 0 <= i < rest.len() && rest[i] == k;
                assert(keys[i] == k);
            }
            assert(keys[keys.len() - 1] == last);
        }
        assert(keys.to_set() =~= rest.to_set().insert(last));
        assert(known.keys.union(keys.to_set()) =~= known.keys.union(rest.to_set()).insert(last));
        assert(known.keys.difference(keys.to_set()) =~= known.keys.difference(rest.to_set()).remove(last));
    }
}

/// Being told of two lists one after the other is being told of both.
proof fn lemma_told_both(known: KnownKeyboard, a: Seq<KeyboardMessageView>, b: Seq<KeyboardMessageView>)
    ensures
        known.told_all(a + b) == known.told_all(a).told_all(b),
    decreases b.len(),
{
    if b.len() == 0 {
        assert(a + b =~= a);
    } else {
        lemma_told_both(known, a, b.drop_last());
        assert((a + b).drop_last() =~= a + b.drop_last());
    }
}

/// A client that has followed what it was told knows the keyboard as it is: which of its
/// surfaces has the focus, which keys are down, and all modifiers. This does not hold
/// after a surface without the focus was left, which nobody is told of.
pub proof fn keyboard_is_known(handler: KeyboardEventHandler, event: KeyboardEvent, known: KnownKeyboard)
    requires
        known.knows(handler.focus),
        event.activity is Leave && handler.focus is Some ==> handler.focused(event.object_id),
    ensures
        known.told_all(handler.response(event)).knows(handler.next_focus(event)),
{
    let messages = handler.response(event);
    match event.activity {
        KeyboardActivity::Leave => {
            if handler.focused(event.object_id) {
                assert(messages.drop_last() =~= Seq::empty());
                assert(known.told_all(messages.drop_last()) == known);
            }
        },
        KeyboardActivity::Key(state) => {
            if handler.focused(event.object_id) {
                let last = (handler.focus->0).1;
                let new = key_codes(state.keys);
                let old = key_codes(last.keys);
                let pressed = key_messages(keys_without(new, old), event.time, KeyState::Pressed);
                let released = key_messages(keys_without(old, new), event.time, KeyState::Released);
                let modifiers = if state.same_modifiers(last) {
                    Seq::empty()
                } else {
                    seq![state.spec_modifiers()]
                };
                lemma_told_both(known, pressed + released, modifiers);
                lemma_told_both(known, pressed, released);
                lemma_told_keys(known, keys_without(new, old), event.time, KeyState::Pressed);
                lemma_told_keys(known.told_all(pressed), keys_without(old, new), event.time, KeyState::Released);
                key_messages_update_keys(old, new);
                let then = known.told_all(pressed + released);
                assert(then.keys == new.to_set());
                if !state.same_modifiers(last) {
                    assert(modifiers.drop_last() =~= Seq::empty());
                    assert(then.told_all(modifiers.drop_last()) == then);
                }
            } else {
                let n = messages.len() as int;
                let enter = messages[n - 2];
                assert(messages.last() == state.spec_modifiers());
                assert(messages.drop_last().last() == enter);
                assert(known.told_all(messages.drop_last()) == known.told_all(messages.drop_last().drop_last()).told(
                    enter,
                ));
            }
        },
    }
}

/// A client is told of nothing twice: where neither the focus, nor the keys, nor the
/// modifiers change, there are no messages, and there are modifiers among the messages
/// for a focused surface only if one of them has changed.
pub proof fn unchanged_keyboard_is_not_told(handler: KeyboardEventHandler, event: KeyboardEvent, state: KeyboardState)
    requires
        event.activity == KeyboardActivity::Key(state),
        handler.focused(event.object_id),
    ensures
        ({
            let last = (handler.focus->0).1;
            let told = handler.response(event);
            let same = state.depressed_modifiers == last.depressed_modifiers && state.latched_modifiers
                == last.latched_modifiers && state.locked_modifiers == last.locked_modifiers && state.effective_layout
                == last.effective_layout;
            &&& same <==> forall|i: int| 0 <= i < told.len() ==> !((#[trigger] told[i]) is Modifiers)
            &&& same && key_codes(state.keys).to_set() == key_codes(last.keys).to_set() ==> told.len() == 0
            &&& forall|i: int|
                0 <= i < told.len() ==> ((#[trigger] told[i]) matches KeyboardMessageView::Key { time, key, state: change, .. }
                    ==> {
                    &&& time == event.time
                    &&& key <= u8::MAX
                    &&& change is Pressed ==> key_codes(state.keys).contains(key as u8) && !key_codes(last.keys).contains(
                        key as u8,
                    )
                    &&& change is Released ==> !key_codes(state.keys).contains(key as u8) && key_codes(
                        last.keys,
                    ).contains(key as u8)
                })
        }),
{
    let last = (handler.focus->0).1;
    let told = handler.response(event);
    let new = key_codes(state.keys);
    let old = key_codes(last.keys);
    let pressed = keys_without(new, old);
    let released = keys_without(old, new);
    assert forall|k: u8| #[trigger] pressed.contains(k) <==> new.contains(k) && !old.contains(k) by {
        lemma_keys_without(new, old, k);
    }
    assert forall|k: u8| #[trigger] released.contains(k) <==> old.contains(k) && !new.contains(k) by {
        lemma_keys_without(old, new, k);
    }
    if new.to_set() == old.to_set() {
        assert forall|k: u8| new.contains(k) == old.contains(k) by {
            assert(new.to_set().contains(k) == old.to_set().contains(k));
        }
        if pressed.len() > 0 {
            assert(pressed.contains(pressed[0]));
        }
        if released.len() > 0 {
            assert(released.contains(released[0]));
        }
    }
    assert forall|i: int| 0 <= i < told.len() implies ((#[trigger] told[i]) matches KeyboardMessageView::Key { time, key, state: change, .. }
        ==> {
        &&& time == event.time
        &&& key <= u8::MAX
        &&& change is Pressed ==> new.contains(key as u8) && !old.contains(key as u8)
        &&& change is Released ==> !new.contains(key as u8) && old.contains(key as u8)
    }) by {
        if i < pressed.len() {
            assert(pressed.contains(pressed[i]));
            assert((pressed[i] as u32) as u8 == pressed[i]);
        } else if i < pressed.len() + released.len() {
            let j = i - pressed.len();
            assert(told[i] == key_messages(released, event.time, KeyState::Released)[j]);
            assert(released.contains(released[j]));
            assert((released[j] as u32) as u8 == released[j]);
        }
    }
    if !state.same_modifiers(last) {
        assert(told[told.len() - 1] is Modifiers);
    }
}

/// A surface that gets the focus is told which keys are down and, right after that, the
/// modifiers.
pub proof fn entering_tells_keys_and_modifiers(
    handler: KeyboardEventHandler,
    event: KeyboardEvent,
    state: KeyboardState,
)
    requires
        event.activity == KeyboardActivity::Key(state),
        !handler.focused(event.object_id),
    ensures
        ({
            let told = handler.response(event);
            let n = told.len() as int;
            &&& n == if handler.focus is Some {
                3int
            } else {
                2int
            }
            &&& told[n - 2] matches KeyboardMessageView::Enter { surface, keys, .. } && surface == event.object_id && keys
                == key_codes(state.keys)
            &&& told[n - 1] is Modifiers
        }),
{
}

/// Each message goes to every object, in the order of the objects, before the next one
/// goes to any.
pub proof fn deliveries_by_message(ids: Seq<u32>, count: nat)
    requires
        count <= usize::MAX,
    ensures
        spec_deliveries(ids, count).len() == count * ids.len(),
        forall|n: int, i: int|
            #![trigger spec_deliveries(ids, count)[n * ids.len() + i]]
            0 <= n < count && 0 <= i < ids.len() ==> spec_deliveries(ids, count)[n * ids.len() + i] == (ids[i], n as usize),
    decreases count,
{
    let all = spec_deliveries(ids, count);
    let len = ids.len() as int;
    if count > 0 {
        let m = count - 1;
        let before = spec_deliveries(ids, m as nat);
        deliveries_by_message(ids, m as nat);
        assert(count * len == m * len + len) by (nonlinear_arith)
            requires
                m == count - 1,
        ;
        assert forall|n: int, i: int|
            #![trigger all[n * len + i]]
            0 <= n < count && 0 <= i < len implies all[n * len + i] == (ids[i], n as usize) by {
            if n < m {
                assert(0 <= n * len + i < m * len) by (nonlinear_arith)
                    requires
                        0 <= n < m,
                        0 <= i < len,
                ;
                assert(before[n * len + i] == (ids[i], n as usize));
            } else {
                assert(n * len + i == m * len + i);
            }
        }
    } else {
        assert(0 * len == 0);
    }
}

/// What a message to the keyboards of a client says is what stands in it.
pub proof fn keyboard_messages_say_what_they_have(message: KeyboardMessage)
    ensures
        match message {
            KeyboardMessage::Enter { serial, surface, keys } => message@ == (KeyboardMessageView::Enter {
                serial,
                surface,
                keys: keys@,
            }),
            KeyboardMessage::Leave { serial, surface } => message@ == (KeyboardMessageView::Leave { serial, surface }),
            KeyboardMessage::Key { serial, time, key, state } => message@ == (KeyboardMessageView::Key {
                serial,
                time,
                key,
                state,
            }),
            KeyboardMessage::Modifiers { serial, mods_depressed, mods_latched, mods_locked, group } => message@ == (
            KeyboardMessageView::Modifiers { serial, mods_depressed, mods_latched, mods_locked, group }),
        },
{
}

/// Events of keyboards carry no serial, which is 0, and keys the time of the activity.
pub proof fn keyboard_messages_carry_no_serial(handler: KeyboardEventHandler, event: KeyboardEvent, i: int)
    requires
        0 <= i < handler.response(event).len(),
    ensures
        match handler.response(event)[i] {
            KeyboardMessageView::Enter { serial, .. } => serial == 0,
            KeyboardMessageView::Leave { serial, .. } => serial == 0,
            KeyboardMessageView::Key { serial, time, .. } => serial == 0 && time == event.time,
            KeyboardMessageView::Modifiers { serial, .. } => serial == 0,
        },
{
}

} // verus!
