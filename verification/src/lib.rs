//! Particle binning and scheduling for a grid-based particle simulator.
//!
//! The simulation area is split into a square grid of bins with one row and
//! column of padding on each side.  Particles are sorted into bins every
//! substep (`binning`), bins are grouped into nine independent dispatches for
//! parallel collision passes (`dispatch`), and collision work is scheduled bin
//! pair by bin pair (`collision`).  Spawner schedules and the frame/input
//! state machine of the application live in `spawner`, `templates` and `app`;
//! `upload` gives the byte views of the integer tables sent to the device.

pub mod grid;
pub mod dispatch;
pub mod binning;
pub mod collision;
pub mod spawner;
pub mod templates;
pub mod app;
pub mod upload;

