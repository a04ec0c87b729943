//! Frame and input state of the application.
//!
//! The window loop feeds this state machine with the events it sees (a menu
//! button, the menu key, a new frame) and performs the rendering, the GPU
//! passes and the file dialog that the results call for.
use vstd::prelude::*;
use crate::grid::{TOTAL_NUM_BIN_INDICES, TOTAL_NUM_PARTICLES};
use crate::spawner::{firing_spawners, lemma_firing_spawners_exact, periods_defined, spawners_firing_at, Spawner};

verus! {

/// Whether the simulation advances.
#[derive(Clone, Copy, Debug, PartialEq, Eq, Structural)]
pub enum SimulationState {
    Paused,
    Running,
}

impl Default for SimulationState {
    fn default() -> (state: Self)
        ensures
            state == SimulationState::Paused,
    {
        SimulationState::Paused
    }
}

/// A button of the options menu.
#[derive(Clone, Copy, Debug, PartialEq, Eq, Structural)]
pub enum InputEvent {
    Reset,
    SetColors,
    PauseOrUnpause,
    LockOrUnlock,
}

/// The other state of the two.
pub open spec fn toggled(state: SimulationState) -> SimulationState {
    match state {
        SimulationState::Paused => SimulationState::Running,
        SimulationState::Running => SimulationState::Paused,
    }
}

/// Simulation state kept across frames.
pub struct App {
    /// Frames simulated since the last reset.
    pub frame_count: u64,
    /// Frames are paced to the target rate.
    pub lock_fps: bool,
    /// The options menu is drawn.
    pub render_menu: bool,
    /// Particles live in the simulation.
    pub num_particles: u32,
    /// Start of each bin in `bin_particles`, plus a closing entry.
    pub bin_indices: Vec<u32>,
    /// Particle indices, bin after bin.
    pub bin_particles: Vec<u32>,
    /// Whether the simulation advances.
    pub simulation_state: SimulationState,
    /// When each spawner emits.
    pub spawners: Vec<Spawner>,
}

impl Default for App {
    fn default() -> (app: Self)
        ensures
            app.frame_count == 0,
            app.lock_fps,
            app.render_menu,
            app.num_particles == 0,
            app.bin_indices@ == Seq::new(TOTAL_NUM_BIN_INDICES as nat, |i: int| 0u32),
            app.bin_particles@ == Seq::new(TOTAL_NUM_PARTICLES as nat, |i: int| 0u32),
            app.simulation_state == SimulationState::Paused,
            app.spawners@ == Seq::<Spawner>::empty(),
    {
        let bin_indices: Vec<u32> = vec![0; TOTAL_NUM_BIN_INDICES];
        let bin_particles: Vec<u32> = vec![0; TOTAL_NUM_PARTICLES];
        assert(bin_indices@ =~= Seq::new(TOTAL_NUM_BIN_INDICES as nat, |i: int| 0u32));
        assert(bin_particles@ =~= Seq::new(TOTAL_NUM_PARTICLES as nat, |i: int| 0u32));
        App {
            frame_count: 0,
            lock_fps: true,
            render_menu: true,
            num_particles: 0,
            bin_indices,
            bin_particles,
            simulation_state: SimulationState::default(),
            spawners: Vec::new(),
        }
    }
}

/// The state after a reset: no frame simulated, no particle alive.
pub open spec fn reset_state(app: App) -> App {
    App { frame_count: 0, num_particles: 0, ..app }
}

/// The state after a menu button (or none) was handled.
pub open spec fn input_effect(app: App, input: Option<InputEvent>) -> App {
    match input {
        Some(InputEvent::Reset) => reset_state(app),
        Some(InputEvent::PauseOrUnpause) => App { simulation_state: toggled(app.simulation_state), ..app },
        Some(InputEvent::LockOrUnlock) => App { lock_fps: !app.lock_fps, ..app },
        _ => app,
    }
}

/// The spawners that emit on the current frame of `app`: none while paused.
pub open spec fn frame_firing(app: App) -> Seq<usize> {
    if app.simulation_state == SimulationState::Running {
        firing_spawners(app.spawners@, app.frame_count as int, app.spawners@.len() as int)
    } else {
        Seq::empty()
    }
}

/// The state after one frame: while running, the particles emitted this
/// frame are counted and the frame counter moves on; while paused nothing
/// changes.
pub open spec fn frame_effect(app: App) -> App {
    if app.simulation_state == SimulationState::Running {
        App {
            num_particles: (app.num_particles + (frame_firing(app).len() as u32)) as u32,
            frame_count: (app.frame_count + 1) as u64,
            ..app
        }
    } else {
        app
    }
}

/// One frame can be taken: the periods of the active spawners are defined
/// and neither counter overflows.
pub open spec fn frame_fits(app: App) -> bool {
    app.simulation_state == SimulationState::Running ==> {
        &&& periods_defined(app.spawners@, app.frame_count as int)
        &&& app.num_particles + (frame_firing(app).len() as u32) <= u32::MAX
        &&& app.frame_count < u64::MAX
    }
}

impl App {
    /// One simulation frame: lists the spawners that emit on the current
    /// frame (none while paused), counts their particles as alive and moves
    /// to the next frame.  The caller emits the listed particles, bins and
    /// collides, and renders.
    pub fn frame_step(&mut self) -> (firing: Vec<usize>)
        requires
            frame_fits(*old(self)),
        ensures
            firing@ == frame_firing(*old(self)),
            *final(self) == frame_effect(*old(self)),
    {
        if !self.is_running() {
            return Vec::new();
        }
        let firing = self.spawning_spawners();
        self.add_particles(firing.len());
        self.advance_frame();
        firing
    }

    /// Starts the simulation over: frame zero, no particles.
    pub fn reset_simulation(&mut self)
        ensures
            *final(self) == reset_state(*old(self)),
    {
        self.frame_count = 0;
        self.num_particles = 0;
    }

    /// Applies a menu button; returns whether a colour image must be picked.
    pub fn handle_input(&mut self, input: Option<InputEvent>) -> (pick_colors: bool)
        ensures
            *final(self) == input_effect(*old(self), input),
            pick_colors == (input == Some(InputEvent::SetColors)),
    {
        match input {
            None => false,
            Some(InputEvent::Reset) => {
                self.reset_simulation();
                false
            },
            Some(InputEvent::SetColors) => true,
            Some(InputEvent::PauseOrUnpause) => {
                self.simulation_state = match self.simulation_state {
                    SimulationState::Paused => SimulationState::Running,
                    SimulationState::Running => SimulationState::Paused,
                };
                false
            },
            Some(InputEvent::LockOrUnlock) => {
                self.lock_fps = !self.lock_fps;
                false
            },
        }
    }

    /// The menu key: show or hide the menu and restart the simulation,
    /// running at the paced frame rate.
    pub fn toggle_menu_and_restart(&mut self)
        ensures
            *final(self) == (App {
                render_menu: !old(self).render_menu,
                simulation_state: SimulationState::Running,
                lock_fps: true,
                ..reset_state(*old(self))
            }),
    {
        self.render_menu = !self.render_menu;
        self.simulation_state = SimulationState::Running;
        self.lock_fps = true;
        self.reset_simulation();
    }

    /// Whether frames advance the simulation.
    pub fn is_running(&self) -> (running: bool)
        ensures
            running == (self.simulation_state == SimulationState::Running),
    {
        match self.simulation_state {
            SimulationState::Running => true,
            SimulationState::Paused => false,
        }
    }

    /// The spawners, by index, that emit a particle on the current frame.
    pub fn spawning_spawners(&self) -> (firing: Vec<usize>)
        requires
            periods_defined(self.spawners@, self.frame_count as int),
        ensures
            firing@ == firing_spawners(self.spawners@, self.frame_count as int, self.spawners@.len() as int),
    {
        spawners_firing_at(self.spawners.as_slice(), self.frame_count)
    }

    /// Counts `count` new particles as alive.
    pub fn add_particles(&mut self, count: usize)
        requires
            old(self).num_particles + (count as u32) <= u32::MAX,
        ensures
            *final(self) == (App { num_particles: (old(self).num_particles + (count as u32)) as u32, ..*old(self) }),
    {
        self.num_particles = self.num_particles + count as u32;
    }

    /// Moves on to the next frame.
    pub fn advance_frame(&mut self)
        requires
            old(self).frame_count < u64::MAX,
        ensures
            *final(self) == (App { frame_count: (old(self).frame_count + 1) as u64, ..*old(self) }),
    {
        self.frame_count = self.frame_count + 1;
    }
}

/// A paused frame emits nothing and changes nothing.
pub proof fn lemma_paused_frame_changes_nothing(app: App)
    requires
        app.simulation_state == SimulationState::Paused,
    ensures
        frame_firing(app) == Seq::<usize>::empty(),
        frame_effect(app) == app,
{
}

/// While running, a frame lists every spawner that fires on the current
/// frame and no other, each once and in increasing order, and counts one new
/// particle per listed spawner; the frame counter moves on by one.
pub proof fn lemma_running_frame_fires_every_spawner(app: App)
    requires
        app.simulation_state == SimulationState::Running,
    ensures
        forall|i: int|
            0 <= i < app.spawners@.len() ==> (#[trigger] frame_firing(app).contains(i as usize)
                <==> app.spawners@[i].fires_at(app.frame_count as int)),
        forall|k: int|
            0 <= k < frame_firing(app).len() ==> #[trigger] frame_firing(app)[k] < app.spawners@.len(),
        forall|k1: int, k2: int|
            0 <= k1 < k2 < frame_firing(app).len() ==> frame_firing(app)[k1] < frame_firing(app)[k2],
        frame_effect(app).num_particles == (app.num_particles + (frame_firing(app).len() as u32)) as u32,
        frame_effect(app).frame_count == (app.frame_count + 1) as u64,
{
    assert(app.spawners.len() == app.spawners@.len());
    let n = app.spawners@.len() as int;
    let f = frame_firing(app);
    lemma_firing_spawners_exact(app.spawners@, app.frame_count as int, n);
    assert forall|i: int|
        0 <= i < n implies (#[trigger] f.contains(i as usize) <==> app.spawners@[i].fires_at(app.frame_count as int)) by {
        if f.contains(i as usize) {
            let k = choose|k: int| 0 <= k < f.len() && f[k] == i as usize;
            assert(f[k] as int == i);
        }
    }
}

/// Pressing pause twice, or the frame-pacing button twice, leaves the state
/// as it was.
pub proof fn lemma_toggles_undo(app: App)
    ensures
        input_effect(input_effect(app, Some(InputEvent::PauseOrUnpause)), Some(InputEvent::PauseOrUnpause)) == app,
        input_effect(input_effect(app, Some(InputEvent::LockOrUnlock)), Some(InputEvent::LockOrUnlock)) == app,
{
}

/// A reset is idempotent, clears the frame counter and the particles, and
/// keeps everything else; choosing colours changes no state.
pub proof fn lemma_reset_and_colors(app: App)
    ensures
        input_effect(input_effect(app, Some(InputEvent::Reset)), Some(InputEvent::Reset))
            == input_effect(app, Some(InputEvent::Reset)),
        input_effect(app, Some(InputEvent::Reset)).frame_count == 0,
        input_effect(app, Some(InputEvent::Reset)).num_particles == 0,
        input_effect(app, Some(InputEvent::Reset)).simulation_state == app.simulation_state,
        input_effect(app, Some(InputEvent::SetColors)) == app,
        input_effect(app, None) == app,
{
}

} // verus!
