use game::input::{Client, InputEvent, InputState, InputUndo, Key, KeyState, MouseButton};

#[test]
fn press_step_release_with_undo() {
    let mut input = InputState::default();

    let undo_press = input.update(InputEvent::Key { key: Key::KeyE, pressed: true }).unwrap();
    assert!(input.key_pressed(&Key::KeyE));
    assert!(input.key_held(&Key::KeyE));

    let undo_step = input.step().unwrap();
    assert!(!input.key_pressed(&Key::KeyE), "step demotes Pressed to Held");
    assert!(input.key_held(&Key::KeyE));

    input.undo(&undo_step);
    assert!(input.key_pressed(&Key::KeyE), "undoing step restores Pressed");

    input.undo(&undo_press);
    assert!(!input.key_held(&Key::KeyE), "undoing press removes the key");
}

#[test]
fn repeated_press_and_release_change_nothing() {
    let mut input = InputState::new();
    assert!(input.update(InputEvent::Key { key: Key::Space, pressed: true }).is_some());
    assert!(input.update(InputEvent::Key { key: Key::Space, pressed: true }).is_none());
    input.step();
    assert!(input.update(InputEvent::Key { key: Key::Space, pressed: true }).is_none());
    assert!(input.key_held(&Key::Space));
    let undo = input.update(InputEvent::Key { key: Key::Space, pressed: false }).unwrap();
    assert!(matches!(undo, InputUndo::RestoreKey(Key::Space, KeyState::Held)));
    assert!(!input.key_held(&Key::Space));
    assert!(input.update(InputEvent::Key { key: Key::Space, pressed: false }).is_none());
    input.undo(&undo);
    assert!(input.key_held(&Key::Space));
    assert!(!input.key_pressed(&Key::Space));
}

#[test]
fn first_release_records_the_key_as_released() {
    let mut input = InputState::new();
    let undo = input.update(InputEvent::Key { key: Key::KeyW, pressed: false }).unwrap();
    assert!(matches!(undo, InputUndo::ForgetKey(Key::KeyW)));
    assert!(!input.key_held(&Key::KeyW));
    let undo2 = input.update(InputEvent::Key { key: Key::KeyW, pressed: true }).unwrap();
    assert!(matches!(undo2, InputUndo::RestoreKey(Key::KeyW, KeyState::Released)));
    assert!(input.key_pressed(&Key::KeyW));
}

#[test]
fn resize_is_recorded_and_undone() {
    let mut input = InputState::new();
    assert_eq!(input.window_resized(), None);
    let u1 = input.update(InputEvent::Resized { width: 800, height: 600 }).unwrap();
    assert_eq!(input.window_resized(), Some((800, 600)));
    let u2 = input.update(InputEvent::Resized { width: 1024, height: 768 }).unwrap();
    assert_eq!(input.window_resized(), Some((1024, 768)));
    input.undo(&u2);
    assert_eq!(input.window_resized(), Some((800, 600)));
    input.undo(&u1);
    assert_eq!(input.window_resized(), None);
}

#[test]
fn buttons_and_focus_are_ignored() {
    let mut input = InputState::new();
    assert!(input
        .update(InputEvent::MouseButton { button: MouseButton::Other(7), pressed: true })
        .is_none());
    assert!(input.update(InputEvent::Focused(false)).is_none());
    assert_eq!(input.window_resized(), None);
    assert!(!input.key_held(&Key::Escape));
}

#[test]
fn step_lists_exactly_the_pressed_keys_in_order() {
    let mut input = InputState::new();
    input.update(InputEvent::Key { key: Key::ShiftLeft, pressed: true });
    input.update(InputEvent::Key { key: Key::KeyA, pressed: true });
    input.update(InputEvent::Key { key: Key::KeyD, pressed: false });
    match input.step().unwrap() {
        InputUndo::Unstep(keys) => assert_eq!(keys, vec![Key::KeyA, Key::ShiftLeft]),
        _ => panic!("step hands back an Unstep"),
    }
    assert!(!input.key_pressed(&Key::KeyA));
    assert!(input.key_held(&Key::ShiftLeft));
    // A second step has nothing left to demote.
    match input.step().unwrap() {
        InputUndo::Unstep(keys) => assert!(keys.is_empty()),
        _ => panic!("step hands back an Unstep"),
    }
}

#[test]
fn key_slots_follow_declaration_order() {
    assert_eq!(Key::KeyW.index(), 0);
    assert_eq!(Key::Escape.index(), 8);
    for i in 0..9u8 {
        assert_eq!(Key::at(i).index(), i);
    }
}

#[test]
fn movement_intent_reads_held_keys_with_overrides() {
    let mut input = InputState::new();
    assert_eq!(input.movement_intent(), (0, 0, 0));
    input.update(InputEvent::Key { key: Key::KeyW, pressed: true });
    input.update(InputEvent::Key { key: Key::KeyA, pressed: true });
    input.update(InputEvent::Key { key: Key::Space, pressed: true });
    assert_eq!(input.movement_intent(), (-1, 1, -1));
    input.step();
    assert_eq!(input.movement_intent(), (-1, 1, -1), "held keys keep moving");
    input.update(InputEvent::Key { key: Key::KeyS, pressed: true });
    input.update(InputEvent::Key { key: Key::KeyD, pressed: true });
    input.update(InputEvent::Key { key: Key::ControlLeft, pressed: true });
    assert_eq!(input.movement_intent(), (1, -1, 1), "D, Control and S win");
    input.update(InputEvent::Key { key: Key::KeyD, pressed: false });
    assert_eq!(input.movement_intent(), (-1, -1, 1));
}

#[test]
fn pressing_e_toggles_the_free_camera_once() {
    let mut client = Client::default();
    assert!(!client.fps_cam_mode);
    client.input.update(InputEvent::Key { key: Key::KeyE, pressed: true });
    assert_eq!(client.tick(), Some(true));
    assert!(client.fps_cam_mode);
    // Still held: no second toggle.
    assert_eq!(client.tick(), None);
    assert!(client.fps_cam_mode);
    client.input.update(InputEvent::Key { key: Key::KeyE, pressed: false });
    client.input.update(InputEvent::Key { key: Key::KeyE, pressed: true });
    assert_eq!(client.tick(), Some(false));
}
