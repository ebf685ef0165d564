use hexdefense::window::{on_resize_window, GameWindowPlugin, WindowSize};

#[test]
fn window_starts_at_default_size() {
    let size = GameWindowPlugin.build();
    assert_eq!(size, WindowSize { width: 1200, height: 900 });
}

#[test]
fn last_resize_wins() {
    let mut size = GameWindowPlugin.build();
    on_resize_window(&mut size, &vec![(800, 600), (1024, 768)]);
    assert_eq!(size, WindowSize { width: 1024, height: 768 });
    on_resize_window(&mut size, &vec![]);
    assert_eq!(size, WindowSize { width: 1024, height: 768 });
}
