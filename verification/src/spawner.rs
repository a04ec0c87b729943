//! When spawners emit particles.
//!
//! A spawner emits one particle on every frame that is a multiple of
//! `spawn_every_n`, from its start frame up to (not including) its end frame.  Where the
//! particle appears and how it moves is floating-point data kept beside the
//! schedule by the caller.
use vstd::prelude::*;

verus! {

/// The frames at which a spawner emits a particle.
#[derive(Clone, Copy, Debug)]
pub struct Spawner {
    /// Simulation frame where spawning starts.
    pub start_frame: u64,
    /// Simulation frame where spawning stops (no particle from then on).
    pub end_frame: u64,
    /// Emit on the frames that are a multiple of this.
    pub spawn_every_n: u64,
}

impl Spawner {
    /// `frame` lies in the spawning window: from the start frame, before the end frame.
    pub open spec fn active_at(self, frame: int) -> bool {
        self.start_frame <= frame < self.end_frame
    }

    /// The spawner emits a particle at `frame`.
    pub open spec fn fires_at(self, frame: int) -> bool {
        &&& self.active_at(frame)
        &&& frame % (self.spawn_every_n as int) == 0
    }

    /// Whether `frame` lies in the spawning window.
    pub fn is_active(&self, frame: u64) -> (active: bool)
        ensures
            active == self.active_at(frame as int),
    {
        frame >= self.start_frame && frame < self.end_frame
    }

    /// Whether `frame` is a frame on which this spawner emits, counting
    /// only the period (the start and end frames are checked apart).
    pub fn spawns_at(&self, frame: u64) -> (spawns: bool)
        requires
            self.spawn_every_n > 0,
        ensures
            spawns == (frame % self.spawn_every_n == 0),
    {
        frame % self.spawn_every_n == 0
    }

    /// Frames elapsed since the start frame, which sets the angle of the
    /// spinning spawners.
    pub fn relative_frame(&self, frame: u64) -> (elapsed: u64)
        requires
            frame >= self.start_frame,
        ensures
            elapsed == frame - self.start_frame,
    {
        frame - self.start_frame
    }
}

/// Indices, in increasing order, of the spawners among the first `upto` that
/// emit at `frame`.
pub open spec fn firing_spawners(spawners: Seq<Spawner>, frame: int, upto: int) -> Seq<usize>
    decreases upto,
{
    if upto <= 0 {
        Seq::empty()
    } else if spawners[upto - 1].fires_at(frame) {
        firing_spawners(spawners, frame, upto - 1).push((upto - 1) as usize)
    } else {
        firing_spawners(spawners, frame, upto - 1)
    }
}

/// Every spawner that is active at `frame` has a period to divide by.
pub open spec fn periods_defined(spawners: Seq<Spawner>, frame: int) -> bool {
    forall|i: int|
        #![trigger spawners[i]]
        0 <= i < spawners.len() && spawners[i].active_at(frame) ==> spawners[i].spawn_every_n > 0
}

/// The spawners that emit a particle at `frame`, by index, in order.
pub fn spawners_firing_at(spawners: &[Spawner], frame: u64) -> (firing: Vec<usize>)
    requires
        periods_defined(spawners@, frame as int),
    ensures
        firing@ == firing_spawners(spawners@, frame as int, spawners@.len() as int),
{
    let mut firing: Vec<usize> = Vec::new();
    let mut i: usize = 0;
    while i < spawners.len()
        invariant
            0 <= i <= spawners@.len(),
            periods_defined(spawners@, frame as int),
            firing@ == firing_spawners(spawners@, frame as int, i as int),
        decreases spawners@.len() - i,
    {
        let spawner = &spawners[i];
        if spawner.is_active(frame) {
            if spawner.spawns_at(frame) {
                firing.push(i);
            }
        }
        i += 1;
    }
    firing
}

/// The firing list holds exactly the spawners that emit, each once, in
/// increasing order.
pub proof fn lemma_firing_spawners_exact(spawners: Seq<Spawner>, frame: int, upto: int)
    requires
        0 <= upto <= spawners.len(),
        spawners.len() <= usize::MAX,
    ensures
        forall|k: int|
            #![trigger firing_spawners(spawners, frame, upto)[k]]
            0 <= k < firing_spawners(spawners, frame, upto).len() ==> {
                let i = firing_spawners(spawners, frame, upto)[k] as int;
                &&& 0 <= i < upto
                &&& spawners[i].fires_at(frame)
            },
        forall|k1: int, k2: int|
            0 <= k1 < k2 < firing_spawners(spawners, frame, upto).len()
                ==> firing_spawners(spawners, frame, upto)[k1] < firing_spawners(spawners, frame, upto)[k2],
        forall|i: int|
            0 <= i < upto && #[trigger] spawners[i].fires_at(frame)
                ==> firing_spawners(spawners, frame, upto).contains(i as usize),
    decreases upto,
{
    if upto > 0 {
        lemma_firing_spawners_exact(spawners, frame, upto - 1);
        let prev = firing_spawners(spawners, frame, upto - 1);
        let cur = firing_spawners(spawners, frame, upto);
        if spawners[upto - 1].fires_at(frame) {
            assert(cur == prev.push((upto - 1) as usize));
            assert forall|k: int| 0 <= k < prev.len() implies cur[k] == prev[k] by {}
            assert forall|k1: int, k2: int| 0 <= k1 < k2 < cur.len() implies cur[k1] < cur[k2] by {
                if k2 == cur.len() - 1 {
                    assert(prev[k1] < upto - 1);
                }
            }
            assert forall|i: int| 0 <= i < upto && #[trigger] spawners[i].fires_at(frame) implies cur.contains(i as usize) by {
                if i < upto - 1 {
                    let k = choose|k: int| 0 <= k < prev.len() && prev[k] == i as usize;
                    assert(cur[k] == i as usize);
                } else {
                    assert(cur[cur.len() - 1] == i as usize);
                }
            }
        }
    }
}

} // verus!
