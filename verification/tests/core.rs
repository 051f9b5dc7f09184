use rustforge::error::{Error, Result};
use rustforge::math::Transform;
use rustforge::time::{FrameWindow, Time, FIXED_TIMESTEP_NANOS};
use glam::{Mat4, Quat, Vec3};
use std::time::Duration;

#[test]
fn test_error_display() {
    let graphics_err = Error::Graphics("Vulkan initialization failed".to_string());
    assert!(graphics_err.to_string().contains("Graphics error"));
    assert!(graphics_err.to_string().contains("Vulkan initialization failed"));

    let physics_err = Error::Physics("Rigid body creation failed".to_string());
    assert!(physics_err.to_string().contains("Physics error"));

    let init_err = Error::Init("Window creation failed".to_string());
    assert!(init_err.to_string().contains("Initialization error"));
}

#[test]
fn test_error_from_io() {
    let io_err = std::io::Error::new(std::io::ErrorKind::NotFound, "File not found");
    let rustforge_err: Error = io_err.into();

    match rustforge_err {
        Error::Io(_) => {}
        _ => panic!("Expected Io error variant"),
    }
}

fn success_function() -> Result<i32> {
    Ok(42)
}

fn error_function() -> Result<i32> {
    Err(Error::Other("Test error".to_string()))
}

#[test]
fn test_result_type() {
    assert_eq!(success_function().unwrap(), 42);
    assert!(error_function().is_err());
}

#[test]
fn error_messages_are_exact() {
    assert_eq!(Error::Ecs("no world".to_string()).to_string(), "ECS error: no world");
    assert_eq!(Error::Asset("a.png".to_string()).to_string(), "Asset loading error: a.png");
    assert_eq!(Error::Input("pad".to_string()).to_string(), "Input error: pad");
    assert_eq!(Error::Other("x".to_string()).to_string(), "Other error: x");
    let io = Error::Io(std::io::Error::new(std::io::ErrorKind::Other, "disk"));
    assert_eq!(io.to_string(), "IO error: disk");
}

#[test]
fn test_transform_default() {
    let t = Transform::default();
    assert_eq!(t.position, Vec3::ZERO);
    assert_eq!(t.rotation, Quat::IDENTITY);
    assert_eq!(t.scale, Vec3::ONE);
}

#[test]
fn test_transform_new() {
    let pos = Vec3::new(1.0, 2.0, 3.0);
    let rot = Quat::from_rotation_y(std::f32::consts::PI / 2.0);
    let scale = Vec3::new(2.0, 2.0, 2.0);

    let t = Transform::new(pos, rot, scale);
    assert_eq!(t.position, pos);
    assert_eq!(t.rotation, rot);
    assert_eq!(t.scale, scale);
}

#[test]
fn test_transform_matrix() {
    let t = Transform::default();
    let matrix = t.matrix();
    assert_eq!(matrix, Mat4::IDENTITY);

    let t2 = Transform::new(Vec3::new(1.0, 0.0, 0.0), Quat::IDENTITY, Vec3::ONE);
    let matrix2 = t2.matrix();
    let expected = Mat4::from_translation(Vec3::new(1.0, 0.0, 0.0));
    assert_eq!(matrix2, expected);
}

#[test]
fn test_time_creation() {
    let time = Time::new();
    assert_eq!(time.delta_time(), 0);
    assert_eq!(time.elapsed_time(), 0);
    assert_eq!(time.fixed_timestep() as u128, Duration::from_secs_f64(1.0 / 60.0).as_nanos());
}

#[test]
fn test_fixed_timestep() {
    let mut time = Time::new();
    let timestep = FIXED_TIMESTEP_NANOS;

    // Initially should not need fixed update
    assert!(!time.should_fixed_update());

    // Simulate time passing for one fixed timestep
    time.set_accumulator(timestep);
    assert!(time.should_fixed_update());

    // After fixed update, accumulator should be empty
    assert!(!time.should_fixed_update());

    // Test accumulator less than fixed timestep
    time.set_accumulator(timestep / 2);
    assert!(!time.should_fixed_update());

    // Test accumulator exactly at fixed timestep
    time.set_accumulator(timestep);
    assert!(time.should_fixed_update());
    assert!(!time.should_fixed_update());

    // Test multiple timesteps accumulated
    time.set_accumulator(timestep * 2 + timestep / 2);

    // Should be able to do 2 fixed updates
    assert!(time.should_fixed_update());
    assert!(time.should_fixed_update());

    // But not a third (only 0.5 timesteps left)
    assert!(!time.should_fixed_update());

    // Accumulator should still have 0.5 timesteps
    assert_eq!(time.accumulator(), timestep / 2);
}

#[test]
fn time_update_to_measures_delta_and_feeds_accumulator() {
    let mut time = Time::new();
    time.update_to(50_000_000);
    assert_eq!(time.delta_time(), 50_000_000);
    assert_eq!(time.elapsed_time(), 50_000_000);
    assert_eq!(time.accumulator(), 50_000_000);
    time.update_to(40_000_000);
    assert_eq!(time.delta_time(), 0);
    assert_eq!(time.accumulator(), 50_000_000);
    time.update();
    assert!(time.elapsed_time() < 10_000_000_000);
}

#[test]
fn draining_the_accumulator_grants_quotient_updates() {
    let mut time = Time::new();
    let step = time.fixed_timestep();
    time.set_accumulator(step * 7 + 5);
    let mut granted = 0;
    while time.should_fixed_update() {
        granted += 1;
    }
    assert_eq!(granted, 7);
    assert_eq!(time.accumulator(), 5);
}

#[test]
fn take_fixed_updates_caps_and_consumes_one_more_step() {
    let mut time = Time::new();
    let step = time.fixed_timestep();
    time.set_accumulator(step * 5 + 1);
    assert_eq!(time.take_fixed_updates(3), 3);
    assert_eq!(time.accumulator(), step + 1);

    time.set_accumulator(step * 2 + 1);
    assert_eq!(time.take_fixed_updates(3), 2);
    assert_eq!(time.accumulator(), 1);

    time.set_accumulator(step * 3);
    assert_eq!(time.take_fixed_updates(3), 3);
    assert_eq!(time.accumulator(), 0);
}

#[test]
fn frame_window_keeps_last_sixty_and_refreshes_every_ten() {
    let mut w = FrameWindow::new();
    assert_eq!(w.average_nanos(), None);
    let mut refreshes = 0;
    for k in 0..70u64 {
        if w.record(10 + k) {
            refreshes += 1;
        }
    }
    assert_eq!(refreshes, 7);
    // The last sixty durations are 20..=79.
    assert_eq!(w.average_nanos(), Some((20 + 79) * 60 / 2 / 60));
}

#[test]
fn frame_window_average_rounds_down() {
    let mut w = FrameWindow::new();
    assert!(!w.record(1));
    assert!(!w.record(2));
    assert_eq!(w.average_nanos(), Some(1));
}

#[test]
fn the_fixed_timestep_never_changes() {
    let mut time = Time::new();
    time.update_to(5_000_000);
    time.set_accumulator(FIXED_TIMESTEP_NANOS * 3);
    assert!(time.should_fixed_update());
    time.take_fixed_updates(1);
    time.update();
    assert_eq!(time.fixed_timestep(), FIXED_TIMESTEP_NANOS);
    assert_eq!(Time::default().fixed_timestep(), FIXED_TIMESTEP_NANOS);
}
