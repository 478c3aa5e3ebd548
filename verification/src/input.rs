//! Engine-neutral player input. `InputState` keeps the window size and the
//! per-key press state; every change hands back an undo record that puts
//! the state back exactly, so input rides the rollback like any other
//! simulation state.

use vstd::prelude::*;
use std::collections::BTreeMap;

verus! {

#[derive(Debug, Clone, Copy, PartialEq, Eq, Structural, Hash, PartialOrd, Ord)]
pub enum Key {
    KeyW,
    KeyA,
    KeyS,
    KeyD,
    KeyE,
    Space,
    ControlLeft,
    ShiftLeft,
    Escape,
}

/// Number of keys tracked.
pub const KEY_COUNT: u8 = 9;

/// The position of `k` in declaration order, the slot its state is kept in.
pub open spec fn key_index(k: Key) -> u8 {
    match k {
        Key::KeyW => 0,
        Key::KeyA => 1,
        Key::KeyS => 2,
        Key::KeyD => 3,
        Key::KeyE => 4,
        Key::Space => 5,
        Key::ControlLeft => 6,
        Key::ShiftLeft => 7,
        Key::Escape => 8,
    }
}

/// The key kept in slot `i` (the last key for any slot past the end).
pub open spec fn key_at(i: u8) -> Key {
    if i == 0 {
        Key::KeyW
    } else if i == 1 {
        Key::KeyA
    } else if i == 2 {
        Key::KeyS
    } else if i == 3 {
        Key::KeyD
    } else if i == 4 {
        Key::KeyE
    } else if i == 5 {
        Key::Space
    } else if i == 6 {
        Key::ControlLeft
    } else if i == 7 {
        Key::ShiftLeft
    } else {
        Key::Escape
    }
}

impl Key {
    /// The key's slot.
    pub fn index(self) -> (r: u8)
        ensures
            r == key_index(self),
            r < KEY_COUNT,
    {
        match self {
            Key::KeyW => 0,
            Key::KeyA => 1,
            Key::KeyS => 2,
            Key::KeyD => 3,
            Key::KeyE => 4,
            Key::Space => 5,
            Key::ControlLeft => 6,
            Key::ShiftLeft => 7,
            Key::Escape => 8,
        }
    }

    /// The key kept in slot `i`.
    pub fn at(i: u8) -> (r: Key)
        requires
            i < KEY_COUNT,
        ensures
            key_index(r) == i,
            r == key_at(i),
    {
        if i == 0 {
            Key::KeyW
        } else if i == 1 {
            Key::KeyA
        } else if i == 2 {
            Key::KeyS
        } else if i == 3 {
            Key::KeyD
        } else if i == 4 {
            Key::KeyE
        } else if i == 5 {
            Key::Space
        } else if i == 6 {
            Key::ControlLeft
        } else if i == 7 {
            Key::ShiftLeft
        } else {
            Key::Escape
        }
    }
}

/// Distinct keys have distinct slots.
pub proof fn lemma_key_index_injective(a: Key, b: Key)
    ensures
        key_index(a) == key_index(b) <==> a == b,
        key_index(a) < KEY_COUNT,
{
}

#[derive(Debug, Clone, Copy, PartialEq, Eq, Structural, Hash)]
pub enum MouseButton {
    Left,
    Right,
    Middle,
    Other(u16),
}

/// The input events that change or are ignored by `InputState` (pointer
/// motion and wheel deltas are fractional and accumulate outside it).
#[derive(Debug, Clone, Copy, PartialEq, Eq, Structural)]
pub enum InputEvent {
    Resized { width: u32, height: u32 },
    Key { key: Key, pressed: bool },
    MouseButton { button: MouseButton, pressed: bool },
    Focused(bool),
}

#[derive(Debug, Clone, Copy, PartialEq, Eq, Structural, Hash)]
pub enum KeyState {
    Released,
    Pressed,
    Held,
}

/// How to put an `InputState` back as it was before one change.
#[derive(Debug, Clone)]
pub enum InputUndo {
    /// Restore the previous window size record.
    RestoreResize(Option<(u32, u32)>),
    /// Put the key back into the given state.
    RestoreKey(Key, KeyState),
    /// Forget the key: it had never been seen.
    ForgetKey(Key),
    /// Return the listed keys from `Held` to `Pressed`.
    Unstep(Vec<Key>),
}

#[derive(Debug)]
pub struct InputState {
    window_resized: Option<(u32, u32)>,
    keyboard_state: BTreeMap<u8, KeyState>,
}

/// The mathematical state of the input: the last window size and the
/// state of each key seen so far, by slot.
pub struct InputView {
    pub window_resized: Option<(u32, u32)>,
    pub keys: Map<u8, KeyState>,
}

impl InputState {
    #[verifier::type_invariant]
    spec fn slots_valid(self) -> bool {
        forall|i: u8| #[trigger] self.keyboard_state@.contains_key(i) ==> i < KEY_COUNT
    }
}

impl View for InputState {
    type V = InputView;

    closed spec fn view(&self) -> InputView {
        InputView { window_resized: self.window_resized, keys: self.keyboard_state@ }
    }
}

/// Only slots of real keys are ever recorded.
pub open spec fn input_wf(v: InputView) -> bool {
    forall|i: u8| #[trigger] v.keys.contains_key(i) ==> i < KEY_COUNT
}

/// The state after one event.
pub open spec fn after_update(v: InputView, ev: InputEvent) -> InputView {
    match ev {
        InputEvent::Resized { width, height } => InputView {
            window_resized: Some((width, height)),
            ..v
        },
        InputEvent::Key { key, pressed } => {
            let i = key_index(key);
            if v.keys.contains_key(i) {
                match v.keys[i] {
                    KeyState::Released => if pressed {
                        InputView { keys: v.keys.insert(i, KeyState::Pressed), ..v }
                    } else {
                        v
                    },
                    _ => if pressed {
                        v
                    } else {
                        InputView { keys: v.keys.insert(i, KeyState::Released), ..v }
                    },
                }
            } else {
                InputView {
                    keys: v.keys.insert(
                        i,
                        if pressed {
                            KeyState::Pressed
                        } else {
                            KeyState::Released
                        },
                    ),
                    ..v
                }
            }
        },
        _ => v,
    }
}

/// The undo record one event hands back; `None` when the event changed
/// nothing.
pub open spec fn undo_of_update(v: InputView, ev: InputEvent) -> Option<InputUndo> {
    match ev {
        InputEvent::Resized { .. } => Some(InputUndo::RestoreResize(v.window_resized)),
        InputEvent::Key { key, pressed } => {
            let i = key_index(key);
            if v.keys.contains_key(i) {
                match v.keys[i] {
                    KeyState::Released => if pressed {
                        Some(InputUndo::RestoreKey(key, KeyState::Released))
                    } else {
                        None
                    },
                    _ => if pressed {
                        None
                    } else {
                        Some(InputUndo::RestoreKey(key, v.keys[i]))
                    },
                }
            } else {
                Some(InputUndo::ForgetKey(key))
            }
        },
        _ => None,
    }
}

/// `step`: every `Pressed` key becomes `Held`.
pub open spec fn after_step(v: InputView) -> InputView {
    InputView {
        keys: Map::new(
            |i: u8| v.keys.contains_key(i),
            |i: u8|
                if v.keys[i] == KeyState::Pressed {
                    KeyState::Held
                } else {
                    v.keys[i]
                },
        ),
        ..v
    }
}

/// The undo record can be applied to `v`: every key it puts back is
/// recorded there.
pub open spec fn undo_applies(v: InputView, u: InputUndo) -> bool {
    match u {
        InputUndo::RestoreKey(k, _) => v.keys.contains_key(key_index(k)),
        InputUndo::Unstep(ks) => forall|j: int|
            0 <= j < ks@.len() ==> v.keys.contains_key(key_index(#[trigger] ks@[j])),
        _ => true,
    }
}

/// The state after applying an undo record.
pub open spec fn undone(v: InputView, u: InputUndo) -> InputView {
    match u {
        InputUndo::RestoreResize(w) => InputView { window_resized: w, ..v },
        InputUndo::RestoreKey(k, s) => InputView { keys: v.keys.insert(key_index(k), s), ..v },
        InputUndo::ForgetKey(k) => InputView { keys: v.keys.remove(key_index(k)), ..v },
        InputUndo::Unstep(ks) => InputView {
            keys: Map::new(
                |i: u8| v.keys.contains_key(i),
                |i: u8|
                    if exists|j: int| 0 <= j < ks@.len() && key_index(#[trigger] ks@[j]) == i {
                        KeyState::Pressed
                    } else {
                        v.keys[i]
                    },
            ),
            ..v
        },
    }
}

impl InputState {
    /// No window size recorded and no key seen.
    pub fn new() -> (r: InputState)
        ensures
            r@.window_resized is None,
            r@.keys == Map::<u8, KeyState>::empty(),
            input_wf(r@),
    {
        InputState { window_resized: None, keyboard_state: BTreeMap::new() }
    }

    /// Applies one event. Returns how to undo it, or `None` when the event
    /// changed nothing (a repeated press or release, a mouse button, a
    /// focus change). Applying the returned record right away restores the
    /// state before the event.
    pub fn update(&mut self, event: InputEvent) -> (r: Option<InputUndo>)
        ensures
            input_wf(final(self)@),
            final(self)@ == after_update(old(self)@, event),
            r == undo_of_update(old(self)@, event),
            match r {
                Some(u) => undo_applies(final(self)@, u) && undone(final(self)@, u) == old(self)@,
                None => final(self)@ == old(self)@,
            },
    {
        proof {
            use_type_invariant(&*self);
        }
        let ghost v0 = self@;
        match event {
            InputEvent::Resized { width, height } => {
                let old = self.window_resized;
                self.window_resized = Some((width, height));
                Some(InputUndo::RestoreResize(old))
            },
            InputEvent::Key { key, pressed } => {
                let i = key.index();
                match self.keyboard_state.get(&i) {
                    Some(st) => {
                        let st = *st;
                        match st {
                            KeyState::Released => {
                                if !pressed {
                                    None
                                } else {
                                    self.put_key(i, KeyState::Pressed);
                                    proof {
                                        assert(self@.keys.insert(i, KeyState::Released) =~= v0.keys);
                                    }
                                    Some(InputUndo::RestoreKey(key, KeyState::Released))
                                }
                            },
                            KeyState::Held | KeyState::Pressed => {
                                if pressed {
                                    None
                                } else {
                                    self.put_key(i, KeyState::Released);
                                    proof {
                                        assert(self@.keys.insert(i, st) =~= v0.keys);
                                    }
                                    Some(InputUndo::RestoreKey(key, st))
                                }
                            },
                        }
                    },
                    None => {
                        let state = if pressed {
                            KeyState::Pressed
                        } else {
                            KeyState::Released
                        };
                        self.put_key(i, state);
                        proof {
                            assert(self@.keys.remove(i) =~= v0.keys);
                        }
                        Some(InputUndo::ForgetKey(key))
                    },
                }
            },
            InputEvent::MouseButton { .. } | InputEvent::Focused(_) => None,
        }
    }

    /// Advances one tick: every key pressed this tick becomes held. Returns
    /// how to undo the step; applying it right away restores the state.
    pub fn step(&mut self) -> (r: Option<InputUndo>)
        ensures
            input_wf(final(self)@),
            final(self)@ == after_step(old(self)@),
            r matches Some(InputUndo::Unstep(ks)) && (forall|k: Key|
                ks@.contains(k) <==> old(self)@.keys.get(key_index(k)) == Some(KeyState::Pressed))
                && ks@.no_duplicates(),
            match r {
                Some(u) => undo_applies(final(self)@, u) && undone(final(self)@, u) == old(self)@,
                None => false,
            },
    {
        proof {
            use_type_invariant(&*self);
        }
        let ghost v0 = self@;
        let mut changed: Vec<Key> = Vec::new();
        let mut i: u8 = 0;
        while i < KEY_COUNT
            invariant
                i <= KEY_COUNT,
                input_wf(v0),
                self@.window_resized == v0.window_resized,
                self@.keys.dom() == v0.keys.dom(),
                forall|j: u8|
                    #[trigger] self@.keys.contains_key(j) ==> self@.keys[j] == if j < i
                        && v0.keys[j] == KeyState::Pressed {
                        KeyState::Held
                    } else {
                        v0.keys[j]
                    },
                forall|k: Key|
                    changed@.contains(k) <==> key_index(k) < i && v0.keys.get(key_index(k)) == Some(
                        KeyState::Pressed,
                    ),
                forall|a: int, b: int|
                    0 <= a < b < changed@.len() ==> key_index(changed@[a]) < key_index(
                        changed@[b],
                    ),
                forall|a: int| 0 <= a < changed@.len() ==> key_index(#[trigger] changed@[a]) < i,
            decreases KEY_COUNT - i,
        {
            let pressed_now = match self.keyboard_state.get(&i) {
                Some(st) => *st == KeyState::Pressed,
                None => false,
            };
            if pressed_now {
                proof {
                    assert(v0.keys.get(i) == Some(KeyState::Pressed));
                }
                let ghost pre = self@.keys;
                self.put_key(i, KeyState::Held);
                let k = Key::at(i);
                proof {
                    assert(self@.keys.dom() =~= pre.dom());
                }
                let ghost prev = changed@;
                changed.push(k);
                proof {
                    assert(changed@ == prev.push(k));
                    assert forall|kk: Key|
                        changed@.contains(kk) <==> prev.contains(kk) || kk == k by {
                        if changed@.contains(kk) {
                            let a = choose|a: int| 0 <= a < changed@.len() && changed@[a] == kk;
                            if a < prev.len() {
                                assert(prev[a] == kk);
                            }
                        }
                        if prev.contains(kk) {
                            let a = choose|a: int| 0 <= a < prev.len() && prev[a] == kk;
                            assert(changed@[a] == kk);
                        }
                        if kk == k {
                            assert(changed@[prev.len() as int] == k);
                        }
                    }
                    assert forall|kk: Key|
                        changed@.contains(kk) <==> key_index(kk) < i + 1 && v0.keys.get(
                            key_index(kk),
                        ) == Some(KeyState::Pressed) by {
                        lemma_key_index_injective(kk, k);
                        assert(prev.contains(kk) <==> key_index(kk) < i && v0.keys.get(
                            key_index(kk),
                        ) == Some(KeyState::Pressed));
                    }
                }
            }
            i = i + 1;
        }
        proof {
            assert(self@.keys =~= after_step(v0).keys);
            assert forall|a: int, b: int|
                0 <= a < changed@.len() && 0 <= b < changed@.len() && a != b implies changed@[a]
                != changed@[b] by {
                if a < b {
                    assert(key_index(changed@[a]) < key_index(changed@[b]));
                } else {
                    assert(key_index(changed@[b]) < key_index(changed@[a]));
                }
            }
            let u = InputUndo::Unstep(changed);
            let w = undone(self@, u);
            assert forall|j: int| 0 <= j < changed@.len() implies self@.keys.contains_key(
                key_index(#[trigger] changed@[j]),
            ) by {
                assert(changed@.contains(changed@[j]));
            }
            assert forall|x: u8| #[trigger] w.keys.contains_key(x) implies w.keys[x] == v0.keys[x] by {
                if exists|j: int| 0 <= j < changed@.len() && key_index(#[trigger] changed@[j]) == x {
                    let j = choose|j: int|
                        0 <= j < changed@.len() && key_index(#[trigger] changed@[j]) == x;
                    assert(changed@.contains(changed@[j]));
                } else if v0.keys[x] == KeyState::Pressed {
                    let k = key_at(x);
                    assert(changed@.contains(k));
                    let j = choose|j: int| 0 <= j < changed@.len() && changed@[j] == k;
                    assert(key_index(changed@[j]) == x);
                }
            }
            assert(w.keys =~= v0.keys);
        }
        Some(InputUndo::Unstep(changed))
    }

    /// Applies an undo record handed out by `update` or `step`.
    pub fn undo(&mut self, u: &InputUndo)
        requires
            undo_applies(old(self)@, *u),
        ensures
            input_wf(final(self)@),
            final(self)@ == undone(old(self)@, *u),
    {
        proof {
            use_type_invariant(&*self);
        }
        let ghost v0 = self@;
        match u {
            InputUndo::RestoreResize(w) => {
                self.window_resized = *w;
            },
            InputUndo::RestoreKey(k, s) => {
                self.put_key(k.index(), *s);
            },
            InputUndo::ForgetKey(k) => {
                self.forget_key(k.index());
            },
            InputUndo::Unstep(ks) => {
                assert(forall|a: int|
                    0 <= a < ks@.len() ==> v0.keys.contains_key(key_index(#[trigger] ks@[a])));
                let mut j: usize = 0;
                while j < ks.len()
                    invariant
                        j <= ks@.len(),
                        input_wf(v0),
                        forall|a: int|
                            0 <= a < ks@.len() ==> v0.keys.contains_key(
                                key_index(#[trigger] ks@[a]),
                            ),
                        *u == InputUndo::Unstep(*ks),
                        self@.window_resized == v0.window_resized,
                        self@.keys.dom() == v0.keys.dom(),
                        forall|x: u8|
                            #[trigger] self@.keys.contains_key(x) ==> self@.keys[x] == if exists|
                                a: int,
                            | 0 <= a < j && key_index(#[trigger] ks@[a]) == x {
                                KeyState::Pressed
                            } else {
                                v0.keys[x]
                            },
                    decreases ks@.len() - j,
                {
                    let k = ks[j];
                    let x = k.index();
                    let ghost pre = self@.keys;
                    self.put_key(x, KeyState::Pressed);
                    proof {
                        assert(ks@[j as int] == k);
                        assert(v0.keys.contains_key(key_index(k)));
                        assert(self@.keys.dom() =~= pre.dom());
                        assert forall|y: u8| #[trigger] self@.keys.contains_key(y) implies self@.keys[y]
                            == if exists|a: int| 0 <= a < j + 1 && key_index(#[trigger] ks@[a]) == y {
                            KeyState::Pressed
                        } else {
                            v0.keys[y]
                        } by {
                            if y == x {
                                assert(key_index(ks@[j as int]) == y);
                            } else {
                                if exists|a: int| 0 <= a < j + 1 && key_index(#[trigger] ks@[a]) == y {
                                    let a = choose|a: int|
                                        0 <= a < j + 1 && key_index(#[trigger] ks@[a]) == y;
                                    assert(a < j);
                                }
                            }
                        }
                    }
                    j = j + 1;
                }
                proof {
                    assert(self@.keys =~= undone(v0, *u).keys);
                }
            },
        }
    }

    /// Records key slot `i` in state `s`.
    fn put_key(&mut self, i: u8, s: KeyState)
        requires
            i < KEY_COUNT,
        ensures
            final(self)@ == (InputView { keys: old(self)@.keys.insert(i, s), ..old(self)@ }),
    {
        proof {
            use_type_invariant(&*self);
        }
        let mut ks: BTreeMap<u8, KeyState> = BTreeMap::new();
        std::mem::swap(&mut ks, &mut self.keyboard_state);
        ks.insert(i, s);
        self.keyboard_state = ks;
    }

    /// Forgets key slot `i`.
    fn forget_key(&mut self, i: u8)
        ensures
            final(self)@ == (InputView { keys: old(self)@.keys.remove(i), ..old(self)@ }),
    {
        proof {
            use_type_invariant(&*self);
        }
        let mut ks: BTreeMap<u8, KeyState> = BTreeMap::new();
        std::mem::swap(&mut ks, &mut self.keyboard_state);
        ks.remove(&i);
        self.keyboard_state = ks;
    }

    /// Whether `u` can be applied here: every key it puts back is
    /// recorded.
    pub fn can_undo(&self, u: &InputUndo) -> (r: bool)
        ensures
            r == undo_applies(self@, *u),
    {
        match u {
            InputUndo::RestoreKey(k, _) => self.keyboard_state.contains_key(&k.index()),
            InputUndo::Unstep(ks) => {
                let mut j: usize = 0;
                while j < ks.len()
                    invariant
                        j <= ks@.len(),
                        *u == InputUndo::Unstep(*ks),
                        forall|a: int|
                            0 <= a < j ==> self@.keys.contains_key(key_index(#[trigger] ks@[a])),
                    decreases ks@.len() - j,
                {
                    if !self.keyboard_state.contains_key(&ks[j].index()) {
                        proof {
                            let bad = ks@[j as int];
                            assert(!self@.keys.contains_key(key_index(bad)));
                            match u {
                                InputUndo::Unstep(vs) => {
                                    assert(vs@ == ks@);
                                    assert(!self@.keys.contains_key(key_index(vs@[j as int])));
                                },
                                _ => {},
                            }
                        }
                        return false;
                    }
                    j = j + 1;
                }
                true
            },
            _ => true,
        }
    }

    /// The last window size reported, if any.
    pub fn window_resized(&self) -> (r: Option<(u32, u32)>)
        ensures
            r == self@.window_resized,
    {
        self.window_resized
    }

    /// The key went down this tick.
    pub fn key_pressed(&self, key: &Key) -> (r: bool)
        ensures
            r == (self@.keys.get(key_index(*key)) == Some(KeyState::Pressed)),
    {
        match self.keyboard_state.get(&key.index()) {
            Some(KeyState::Pressed) => true,
            _ => false,
        }
    }

    /// The key is down, pressed this tick or earlier.
    pub fn key_held(&self, key: &Key) -> (r: bool)
        ensures
            r == (self@.keys.get(key_index(*key)) == Some(KeyState::Pressed)
                || self@.keys.get(key_index(*key)) == Some(KeyState::Held)),
    {
        match self.keyboard_state.get(&key.index()) {
            Some(KeyState::Pressed) | Some(KeyState::Held) => true,
            _ => false,
        }
    }
}

/// Whether key `k` is down in `v`.
pub open spec fn held(v: InputView, k: Key) -> bool {
    v.keys.get(key_index(k)) == Some(KeyState::Pressed) || v.keys.get(key_index(k)) == Some(
        KeyState::Held,
    )
}

/// The direction a free camera is asked to move along one axis: key
/// `first` asks for `first_dir`, key `last` for `last_dir`, and `last` wins
/// when both are down.
pub open spec fn axis_intent(v: InputView, first: Key, first_dir: int, last: Key, last_dir: int) -> int {
    if held(v, last) {
        last_dir
    } else if held(v, first) {
        first_dir
    } else {
        0
    }
}

impl InputState {
    /// The free camera's movement request, one sign per axis in its own
    /// frame: `x` from A/D, `y` from Control/Space, `z` from W/S (forward
    /// is `-z`). When both keys of an axis are down, D, Control and S win.
    pub fn movement_intent(&self) -> (r: (i32, i32, i32))
        ensures
            r.0 == axis_intent(self@, Key::KeyA, -1, Key::KeyD, 1),
            r.1 == axis_intent(self@, Key::Space, 1, Key::ControlLeft, -1),
            r.2 == axis_intent(self@, Key::KeyW, -1, Key::KeyS, 1),
    {
        let x: i32 = if self.key_held(&Key::KeyD) {
            1
        } else if self.key_held(&Key::KeyA) {
            -1
        } else {
            0
        };
        let y: i32 = if self.key_held(&Key::ControlLeft) {
            -1
        } else if self.key_held(&Key::Space) {
            1
        } else {
            0
        };
        let z: i32 = if self.key_held(&Key::KeyS) {
            1
        } else if self.key_held(&Key::KeyW) {
            -1
        } else {
            0
        };
        (x, y, z)
    }
}

/// A connected player's input and camera mode.
#[derive(Debug, Clone, Default)]
pub struct Client {
    pub input: InputState,
    pub fps_cam_mode: bool,
}

impl Client {
    /// One simulation tick of the player's input: pressing E this tick
    /// toggles the free camera, then every key pressed this tick becomes
    /// held. Returns the new camera mode when it toggled.
    pub fn tick(&mut self) -> (r: Option<bool>)
        ensures
            final(self).fps_cam_mode == (old(self).fps_cam_mode != (old(self).input@.keys.get(
                key_index(Key::KeyE),
            ) == Some(KeyState::Pressed))),
            final(self).input@ == after_step(old(self).input@),
            r == if old(self).input@.keys.get(key_index(Key::KeyE)) == Some(KeyState::Pressed) {
                Some(final(self).fps_cam_mode)
            } else {
                None
            },
    {
        let toggle = self.input.key_pressed(&Key::KeyE);
        if toggle {
            self.fps_cam_mode = !self.fps_cam_mode;
        }
        let _ = self.input.step();
        if toggle {
            Some(self.fps_cam_mode)
        } else {
            None
        }
    }
}

impl Clone for InputState {
    fn clone(&self) -> (r: InputState)
        ensures
            r@ == self@,
    {
        proof {
            use_type_invariant(self);
        }
        InputState { window_resized: self.window_resized, keyboard_state: self.keyboard_state.clone() }
    }
}

impl Default for InputState {
    fn default() -> (r: InputState)
        ensures
            r@.window_resized is None,
            r@.keys == Map::<u8, KeyState>::empty(),
    {
        InputState::new()
    }
}

} // verus!
