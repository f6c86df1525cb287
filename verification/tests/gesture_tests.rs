use game_engine_rs::gesture::{Stroke, SwipeTracker};

#[test]
fn a_stroke_runs_from_press_to_release() {
    let mut tracker = SwipeTracker::<(i32, i32), u64>::new();
    tracker.pointer_down((1, 2), 100);
    tracker.pointer_move((5, 2));
    assert_eq!(
        tracker.pointer_up((40, 3)),
        Some(Stroke { start: (1, 2), end: (40, 3), started_at: 100 })
    );
    assert_eq!(tracker.pointer_up((41, 3)), None);
}

#[test]
fn release_without_press_gives_nothing() {
    let mut tracker = SwipeTracker::<(i32, i32), u64>::new();
    tracker.pointer_move((5, 5));
    assert_eq!(tracker.pointer_up((9, 9)), None);
    tracker.pointer_down((0, 0), 7);
    tracker.reset();
    assert_eq!(tracker.pointer_up((9, 9)), None);
}
