use knife::knife::{EditType, GestureState, Knife};

type Pt = (i64, i64);

#[test]
fn gesture_default_is_ready() {
    let g: GestureState<Pt> = GestureState::default();
    assert_eq!(g, GestureState::Ready);
    let k: Knife<Pt> = Knife::default();
    assert_eq!(k.gesture(), GestureState::Ready);
    assert!(!k.shift_locked());
    assert!(k.intersections().is_empty());
}

#[test]
fn single_click_begins_drag() {
    let mut k: Knife<Pt> = Knife::default();
    k.left_down(1, (3, 4), true);
    assert_eq!(k.gesture(), GestureState::Begun { start: (3, 4), current: (3, 4) });
    assert!(k.shift_locked());
    assert_eq!(k.drag_points(), Some(((3, 4), (3, 4))));
}

#[test]
fn double_click_does_not_begin_drag() {
    let mut k: Knife<Pt> = Knife::default();
    k.left_down(2, (3, 4), true);
    assert_eq!(k.gesture(), GestureState::Ready);
    assert!(!k.shift_locked());
    assert_eq!(k.drag_points(), None);
}

#[test]
fn drag_moves_only_the_end() {
    let mut k: Knife<Pt> = Knife::default();
    assert!(!k.left_drag_changed((1, 1)));
    assert_eq!(k.gesture(), GestureState::Ready);
    k.left_down(1, (0, 0), false);
    assert!(k.left_drag_changed((5, 2)));
    assert!(k.left_drag_changed((6, 3)));
    assert_eq!(k.gesture(), GestureState::Begun { start: (0, 0), current: (6, 3) });
}

#[test]
fn drag_end_refreshes_only_when_moved() {
    let mut k: Knife<Pt> = Knife::default();
    k.left_down(1, (0, 0), false);
    k.left_drag_changed((5, 2));
    assert!(!k.left_drag_ended((5, 2)));
    assert!(k.left_drag_ended((7, 2)));
    assert_eq!(k.drag_points(), Some(((0, 0), (7, 2))));
}

#[test]
fn finished_drag_without_crossings_makes_no_cut() {
    let mut k: Knife<Pt> = Knife::default();
    k.left_down(1, (0, 0), false);
    k.left_drag_changed((5, 2));
    let before = k.gesture();
    assert_eq!(k.finish_drag(), None);
    assert_eq!(k.gesture(), GestureState::Finished);
    let out = k.after_mouse_event(&before);
    assert!(out.repaint);
    assert_eq!(out.edit, Some(EditType::Normal));
    assert_eq!(k.gesture(), GestureState::Ready);
}

#[test]
fn finished_drag_with_crossings_cuts() {
    let mut k: Knife<Pt> = Knife::default();
    k.left_down(1, (0, 0), false);
    k.left_drag_changed((5, 2));
    k.set_intersections(vec![(1, 1), (3, 1)]);
    assert_eq!(k.intersections(), &vec![(1, 1), (3, 1)]);
    assert_eq!(k.finish_drag(), Some(((0, 0), (5, 2))));
}

#[test]
fn crossings_kept_without_drag() {
    let mut k: Knife<Pt> = Knife::default();
    k.set_intersections(vec![(1, 1)]);
    assert!(k.intersections().is_empty());
}

#[test]
fn event_without_change_needs_no_repaint() {
    let mut k: Knife<Pt> = Knife::default();
    let out = k.after_mouse_event(&GestureState::Ready);
    assert!(!out.repaint);
    assert_eq!(out.edit, None);
    k.left_down(1, (2, 2), false);
    let before = k.gesture();
    let out = k.after_mouse_event(&before);
    assert!(!out.repaint);
    assert_eq!(out.edit, None);
    let out = k.after_mouse_event(&GestureState::Ready);
    assert!(out.repaint);
    assert_eq!(k.gesture(), GestureState::Begun { start: (2, 2), current: (2, 2) });
}

#[test]
fn cancel_returns_to_ready() {
    let mut k: Knife<Pt> = Knife::default();
    k.left_down(1, (2, 2), true);
    k.cancel();
    assert_eq!(k.gesture(), GestureState::Ready);
    assert!(k.shift_locked());
}

#[test]
fn shift_keys_lock_and_free() {
    let mut k: Knife<Pt> = Knife::default();
    assert!(!k.key_down(false));
    assert!(!k.shift_locked());
    assert!(k.key_down(true));
    assert!(k.shift_locked());
    assert!(!k.key_up(false));
    assert!(k.shift_locked());
    assert!(k.key_up(true));
    assert!(!k.shift_locked());
}

#[test]
fn same_gesture_compares_points() {
    let a: GestureState<Pt> = GestureState::Begun { start: (0, 0), current: (1, 1) };
    let b: GestureState<Pt> = GestureState::Begun { start: (0, 0), current: (1, 2) };
    assert!(a.same_as(&a));
    assert!(!a.same_as(&b));
    assert!(!a.same_as(&GestureState::Ready));
    assert!(GestureState::<Pt>::Finished.same_as(&GestureState::Finished));
}
