use game_engine_rs::{frame::target_fps, Color};

fn rgba(color: Color) -> [f32; 4] {
    color.to_rgba_bits().map(f32::from_bits)
}

#[test]
fn named_colors_have_their_components() {
    assert_eq!(rgba(Color::Red), [1.0, 0.0, 0.0, 1.0]);
    assert_eq!(rgba(Color::LightRed), [1.0, 0.5, 0.5, 1.0]);
    assert_eq!(rgba(Color::LightGray), [0.85, 0.85, 0.85, 1.0]);
    assert_eq!(rgba(Color::LightBlack), [0.2, 0.2, 0.2, 1.0]);
    assert_eq!(rgba(Color::LightYellow), [1.0, 1.0, 0.6, 1.0]);
    assert_eq!(rgba(Color::LightMagenta), [1.0, 0.6, 1.0, 1.0]);
    assert_eq!(rgba(Color::Black), [0.0, 0.0, 0.0, 1.0]);
}

#[test]
fn custom_colors_keep_their_components() {
    let c = Color::Custom(0.1f32.to_bits(), 0.2f32.to_bits(), 0.3f32.to_bits(), 0.4f32.to_bits());
    assert_eq!(rgba(c), [0.1, 0.2, 0.3, 0.4]);
}

#[test]
fn frame_rate_is_at_least_one() {
    assert_eq!(target_fps(0), 1);
    assert_eq!(target_fps(1), 1);
    assert_eq!(target_fps(60), 60);
}
