use scenekit::constants::{DEFAULT_HEIGHT, DEFAULT_WIDTH, INITIAL_INDEX_LIMIT, INITIAL_VERTEX_LIMIT};
use scenekit::pipeline::{grow_limit, BufferLimits, PipelineConfig};
use scenekit::viewport::{Viewport, ViewportError};
use scenekit::window::WindowConfig;

#[test]
fn aspect_ratio_is_exact_fraction() {
    assert_eq!(Viewport { width: 800, height: 600 }.aspect_ratio(), Ok((800, 600)));
    let (w, h) = Viewport { width: 800, height: 600 }.aspect_ratio().unwrap();
    assert!((w as f32 / h as f32 - 4.0 / 3.0).abs() < 1e-6);
    assert_eq!(Viewport { width: 1920, height: 480 }.aspect_ratio(), Ok((1920, 480)));
}

#[test]
fn zero_height_viewport_fails() {
    assert_eq!(Viewport { width: 800, height: 0 }.aspect_ratio(), Err(ViewportError::DegenerateViewport));
}

#[test]
fn window_config_defaults() {
    let c = WindowConfig::default();
    assert_eq!(c.title, "untitled");
    assert_eq!((c.width, c.height), (DEFAULT_WIDTH, DEFAULT_HEIGHT));
    assert_eq!((c.width, c.height), (800, 600));
    assert_eq!(c.minimum_dimension, [250, 250]);
}

#[test]
fn window_config_validates_size() {
    let c = WindowConfig::new("scene".to_string(), 1024, 768).unwrap();
    assert_eq!(c.title, "scene");
    assert_eq!(c.viewport(), Viewport { width: 1024, height: 768 });
    assert!(matches!(WindowConfig::new("x".to_string(), 0, 768), Err(ViewportError::DegenerateViewport)));
    assert!(matches!(WindowConfig::new("x".to_string(), 1024, 0), Err(ViewportError::DegenerateViewport)));
}

#[test]
fn limits_grow_by_half_or_to_fit() {
    assert_eq!(grow_limit(128, 150), 192);
    assert_eq!(grow_limit(128, 500), 500);
    assert_eq!(grow_limit(0, 7), 7);
    assert_eq!(grow_limit(u32::MAX - 1, u32::MAX), u32::MAX);
}

#[test]
fn reserve_grows_only_what_is_too_small() {
    let mut l = BufferLimits::initial();
    assert_eq!((l.vertex_limit, l.index_limit), (INITIAL_VERTEX_LIMIT, INITIAL_INDEX_LIMIT));
    assert_eq!(l.reserve(100, 2000), (false, true));
    assert_eq!(l, BufferLimits { vertex_limit: 128, index_limit: 2000 });
    assert_eq!(l.reserve(129, 2001), (true, true));
    assert_eq!(l, BufferLimits { vertex_limit: 192, index_limit: 3000 });
    let cfg = PipelineConfig { initial_vertex_buffer_size: 64 };
    assert_eq!(cfg.initial_vertex_buffer_size, 64);
}
