use particlinator::app::{App, InputEvent, SimulationState};
use particlinator::grid::{TOTAL_NUM_BIN_INDICES, TOTAL_NUM_PARTICLES};
use particlinator::spawner::{spawners_firing_at, Spawner};
use particlinator::templates::{startup_schedules, Templates};

fn spawner(start_frame: u64, end_frame: u64, spawn_every_n: u64) -> Spawner {
    Spawner { start_frame, end_frame, spawn_every_n }
}

#[test]
fn spawner_window_and_period() {
    let s = spawner(10, 20, 3);
    assert!(!s.is_active(9));
    assert!(s.is_active(10));
    assert!(s.is_active(11));
    assert!(s.is_active(19));
    assert!(!s.is_active(20));
    assert!(s.spawns_at(12));
    assert!(!s.spawns_at(13));
    assert_eq!(s.relative_frame(15), 5);
}

#[test]
fn firing_spawners_in_order() {
    let spawners = [spawner(0, 100, 2), spawner(50, 100, 1), spawner(0, 10, 1), spawner(0, 100, 5)];
    assert_eq!(spawners_firing_at(&spawners, 60), vec![0, 1, 3]);
    assert_eq!(spawners_firing_at(&spawners, 61), vec![1]);
    // a spawner fires on its own start frame
    assert_eq!(spawners_firing_at(&spawners, 0), vec![0, 2, 3]);
    assert_eq!(spawners_firing_at(&[spawner(4, 10, 2)], 4), vec![0]);
    assert_eq!(spawners_firing_at(&[spawner(4, 10, 2)], 10), Vec::<usize>::new());
    // a spawner outside its window is never asked for its period
    let idle = [spawner(5, 6, 0), spawner(0, 9, 4)];
    assert_eq!(spawners_firing_at(&idle, 8), vec![1]);
}

#[test]
fn template_schedules() {
    let t0 = Templates::t0();
    assert_eq!(t0.len(), 22 + 22 + 33);
    assert_eq!((t0[0].start_frame, t0[0].end_frame, t0[0].spawn_every_n), (120, 2520, 2));
    assert_eq!(t0[22].start_frame, 180);
    assert_eq!(t0[76].start_frame, 420);
    let t1 = Templates::t1();
    assert_eq!(t1.len(), 77);
    assert_eq!(t1[50].end_frame, 2470);
    let t2 = Templates::t2();
    assert_eq!(t2.len(), 58);
    assert_eq!(t2[17].start_frame, 120 + 17 * 20);
    assert_eq!(t2[18].start_frame, 480);
    assert_eq!(t2[57].start_frame, 480 + 19 * 20);
    assert!(t2.iter().all(|s| s.end_frame == 3400));
    let t3 = Templates::t3();
    assert_eq!(t3.len(), 80);
    assert_eq!((t3[21].start_frame, t3[21].end_frame), (140, 2580));
    assert_eq!((t3[79].start_frame, t3[79].end_frame), (500, 2220));
    let t4 = Templates::t4();
    assert_eq!(t4.len(), 200);
    assert_eq!((t4[0].start_frame, t4[1].start_frame, t4[199].start_frame), (120, 120, 615));
    let small = Templates::small();
    assert_eq!(small.len(), 38);
    assert_eq!((small[18].start_frame, small[19].start_frame, small[37].spawn_every_n), (120, 180, 5));
}

#[test]
fn app_starts_paused_and_empty() {
    let app = App::default();
    assert_eq!(app.frame_count, 0);
    assert!(app.lock_fps);
    assert!(app.render_menu);
    assert_eq!(app.simulation_state, SimulationState::Paused);
    assert_eq!(app.bin_indices.len(), TOTAL_NUM_BIN_INDICES);
    assert_eq!(app.bin_particles.len(), TOTAL_NUM_PARTICLES);
    assert!(app.spawners.is_empty());
    assert_eq!(SimulationState::default(), SimulationState::Paused);
}

#[test]
fn menu_buttons() {
    let mut app = App::default();
    app.frame_count = 40;
    app.num_particles = 12;
    assert!(!app.handle_input(Some(InputEvent::PauseOrUnpause)));
    assert_eq!(app.simulation_state, SimulationState::Running);
    assert!(app.is_running());
    app.handle_input(Some(InputEvent::PauseOrUnpause));
    assert_eq!(app.simulation_state, SimulationState::Paused);
    app.handle_input(Some(InputEvent::LockOrUnlock));
    assert!(!app.lock_fps);
    app.handle_input(Some(InputEvent::LockOrUnlock));
    assert!(app.lock_fps);
    assert!(app.handle_input(Some(InputEvent::SetColors)));
    assert!(!app.handle_input(None));
    assert_eq!((app.frame_count, app.num_particles), (40, 12));
    app.handle_input(Some(InputEvent::Reset));
    assert_eq!((app.frame_count, app.num_particles), (0, 0));
    assert_eq!(app.simulation_state, SimulationState::Paused);
}

#[test]
fn menu_key_restarts_running() {
    let mut app = App::default();
    app.frame_count = 9;
    app.lock_fps = false;
    app.toggle_menu_and_restart();
    assert!(!app.render_menu);
    assert!(app.lock_fps);
    assert!(app.is_running());
    assert_eq!(app.frame_count, 0);
    app.toggle_menu_and_restart();
    assert!(app.render_menu);
}

#[test]
fn frames_spawn_and_count_particles() {
    let mut app = App::default();
    app.spawners = vec![spawner(0, 10, 2), spawner(1, 10, 3)];
    app.frame_count = 6;
    assert_eq!(app.spawning_spawners(), vec![0, 1]);
    app.add_particles(2);
    app.advance_frame();
    assert_eq!((app.frame_count, app.num_particles), (7, 2));
    assert!(app.spawning_spawners().is_empty());
    app.reset_simulation();
    assert_eq!((app.frame_count, app.num_particles), (0, 0));
    assert_eq!(app.spawners.len(), 2);
}

#[test]
fn bin_upload_is_four_bytes_per_entry() {
    let mut app = App::default();
    app.bin_indices[1] = 0x0102_0304;
    let (indices, particles) = app.bin_upload_bytes();
    assert_eq!(indices.len(), 4 * TOTAL_NUM_BIN_INDICES);
    assert_eq!(particles.len(), 4 * TOTAL_NUM_PARTICLES);
    let word = &indices[4..8];
    assert!(word == [4, 3, 2, 1] || word == [1, 2, 3, 4]);
    assert_eq!(&indices[..4], &[0, 0, 0, 0]);
}

#[test]
fn startup_schedule_timings() {
    let s = startup_schedules();
    assert_eq!(s.len(), 246 + 246 + 197);
    assert_eq!((s[0].start_frame, s[0].end_frame, s[0].spawn_every_n), (120, 2120, 2));
    assert_eq!(s[246].start_frame, 180);
    assert_eq!(s[688].start_frame, 420);
}

#[test]
fn frame_step_runs_or_holds() {
    let mut app = App::default();
    app.spawners = vec![spawner(4, 10, 2), spawner(0, 10, 3)];
    app.frame_count = 6;
    // paused: nothing fires, nothing changes
    assert!(app.frame_step().is_empty());
    assert_eq!((app.frame_count, app.num_particles), (6, 0));
    app.handle_input(Some(InputEvent::PauseOrUnpause));
    assert_eq!(app.frame_step(), vec![0, 1]);
    assert_eq!((app.frame_count, app.num_particles), (7, 2));
    assert!(app.frame_step().is_empty());
    assert_eq!((app.frame_count, app.num_particles), (8, 2));
    assert_eq!(app.frame_step(), vec![0]);
    assert_eq!((app.frame_count, app.num_particles), (9, 3));
}
