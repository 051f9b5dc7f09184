use rustforge::input::{CameraInput, Key};
use rustforge::runner::{AppConfig, EngineState, FrameOutcome, LoopAction, LoopState, Recovery, WindowInput};

#[test]
fn test_context_aspect_ratio() {
    let window_size = (1920, 1080);
    let aspect = window_size.0 as f32 / window_size.1 as f32;
    assert!((aspect - 1.777).abs() < 0.01);
}

#[test]
fn test_create_depth_texture() {}

#[test]
fn app_config_defaults() {
    let c = AppConfig::default();
    assert_eq!(c.title, "RustForge Application");
    assert_eq!((c.width, c.height), (1024, 768));
    assert!(c.vsync);
    assert!(c.resizable);
}

#[test]
fn window_inputs_decide_the_loop() {
    let mut s = LoopState { width: 800, height: 600 };
    assert_eq!(s.on_input(WindowInput::CloseRequested, false), LoopAction::Exit);
    assert_eq!(s.on_input(WindowInput::EscapePressed, false), LoopAction::Exit);
    assert_eq!(s.on_input(WindowInput::CloseRequested, true), LoopAction::Wait);
    assert_eq!(s.on_input(WindowInput::RedrawRequested, false), LoopAction::Redraw);
    assert_eq!(s.on_input(WindowInput::Other, false), LoopAction::Wait);
    assert_eq!(s.on_input(WindowInput::Resized(1280, 720), false), LoopAction::Resize(1280, 720));
    assert_eq!(s, LoopState { width: 1280, height: 720 });
    assert_eq!(s.on_input(WindowInput::Resized(0, 720), false), LoopAction::Wait);
    assert_eq!(s, LoopState { width: 0, height: 720 });
    assert_eq!(s.after_frame(FrameOutcome::SurfaceLost), Recovery::Reconfigure(0, 720));
    assert_eq!(s.after_frame(FrameOutcome::Presented), Recovery::Continue);
    assert_eq!(s.after_frame(FrameOutcome::OutOfMemory), Recovery::Exit);
    assert_eq!(s.after_frame(FrameOutcome::Failed), Recovery::Report);
}

#[test]
fn engine_stops_on_close_and_reports_every_300_frames() {
    let mut e = EngineState::new();
    e.on_input(WindowInput::Resized(10, 10));
    assert!(e.running);
    let mut reports = 0;
    for _ in 0..600 {
        if e.count_frame() {
            reports += 1;
        }
    }
    assert_eq!(reports, 2);
    assert_eq!(e.frames, 600);
    e.on_input(WindowInput::EscapePressed);
    assert!(!e.running);
}

#[test]
fn camera_keys_set_direction() {
    let mut c = CameraInput::new();
    assert_eq!(c.direction(), (0, 0, 0));
    assert!(!c.is_moving());
    assert!(c.handle_key(Key::KeyW, true));
    assert!(c.handle_key(Key::ArrowLeft, true));
    assert!(c.handle_key(Key::Space, true));
    assert_eq!(c.direction(), (-1, 1, 1));
    assert!(c.handle_key(Key::ArrowDown, true));
    assert_eq!(c.direction(), (-1, 1, 0));
    assert!(c.is_moving());
    assert!(c.handle_key(Key::ShiftRight, true));
    assert!(c.shift_pressed);
    assert!(!c.handle_key(Key::Escape, true));
    assert!(!c.handle_key(Key::Other, true));
    assert!(c.handle_key(Key::KeyW, false));
    assert_eq!(c.direction(), (-1, 1, -1));
    assert!(c.handle_mouse_button(true, true));
    assert!(c.mouse_pressed);
    assert!(!c.handle_mouse_button(false, false));
    assert!(c.mouse_pressed);
    c.reset();
    assert_eq!(c, CameraInput::new());
}
