use ratrun::input::{dir_of, Dir, Key, MouseKind, Pointer};

#[test]
fn mouse_move_sets_pos_and_prefers_mouse() {
    let mut s = Pointer::new();
    s.on_mouse(MouseKind::Moved, 12, 7);
    assert_eq!(s.mouse_pos, Some((12, 7)));
    assert!(s.prefer_mouse);
}

#[test]
fn movement_key_reclaims_from_mouse() {
    let mut s = Pointer::new();
    s.on_mouse(MouseKind::Down, 1, 1);
    assert!(s.prefer_mouse);
    s.on_key(Key::Char('w'));
    assert!(!s.prefer_mouse);
    // ...but the cursor position is remembered for when the mouse returns.
    assert_eq!(s.mouse_pos, Some((1, 1)));
}

#[test]
fn scroll_does_not_grab_control() {
    let mut s = Pointer::new();
    s.on_mouse(MouseKind::Scroll, 3, 3);
    assert!(!s.prefer_mouse);
    assert_eq!(s.mouse_pos, None);
}

#[test]
fn other_keys_leave_the_mouse_in_control() {
    let mut s = Pointer::new();
    s.on_mouse(MouseKind::Drag, 4, 5);
    s.on_key(Key::Char('p'));
    s.on_key(Key::Other);
    assert!(s.prefer_mouse);
    s.on_mouse(MouseKind::Up, 9, 9);
    assert_eq!(s.mouse_pos, Some((4, 5)));
}

#[test]
fn arrows_and_wasd_map_to_directions() {
    assert_eq!(dir_of(Key::Up), Some(Dir::Up));
    assert_eq!(dir_of(Key::Char('S')), Some(Dir::Down));
    assert_eq!(dir_of(Key::Char('a')), Some(Dir::Left));
    assert_eq!(dir_of(Key::Right), Some(Dir::Right));
    assert_eq!(dir_of(Key::Char('x')), None);
    assert_eq!(dir_of(Key::Other), None);
}
