use bootgfx::{get_best_mode, ModeInfo};

fn mode(width: usize, height: usize, bgr: bool) -> ModeInfo {
    ModeInfo { width, height, bgr }
}

#[test]
fn picks_the_widest_qualifying_mode() {
    let modes = vec![
        mode(800, 600, true),
        mode(1024, 768, false),
        mode(1920, 1080, true),
        mode(1920, 1200, true),
    ];
    // the 1920x1200 mode is too tall, the 1024x768 one has the wrong layout
    assert_eq!(get_best_mode(&modes), Some(2));
}

#[test]
fn prefers_the_first_mode_of_maximal_width() {
    let modes = vec![
        mode(1024, 768, true),
        mode(1024, 600, true),
        mode(800, 600, true),
    ];
    assert_eq!(get_best_mode(&modes), Some(0));
}

#[test]
fn none_when_no_mode_qualifies() {
    assert_eq!(get_best_mode(&Vec::new()), None);
    let modes = vec![
        mode(2560, 1440, true),
        mode(1024, 768, false),
        mode(0, 768, true),
    ];
    assert_eq!(get_best_mode(&modes), None);
}
