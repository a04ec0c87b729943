//! Spawner timings of the preset scenes.
//!
//! Each preset places its spawners in groups; within a group the start (and
//! sometimes the end) frame moves by a fixed step from one spawner to the
//! next.  The positions and directions of the spawners are floating-point
//! data that the caller lays out in the same order.
use vstd::prelude::*;
use crate::spawner::{periods_defined, Spawner};

verus! {

/// Frames waited before any preset spawner starts.
pub const INITIAL_DELAY: u64 = 60 * 2;

/// The preset scenes.
pub struct Templates;

/// A group of `count` spawners: spawner `i` starts at `start + i * start_step`
/// and ends at `end - i * end_step`, emitting every `every` frames.
pub open spec fn schedule_run(count: nat, start: int, start_step: int, end: int, end_step: int, every: u64) -> Seq<Spawner> {
    Seq::new(count, |i: int| Spawner {
        start_frame: (start + i * start_step) as u64,
        end_frame: (end - i * end_step) as u64,
        spawn_every_n: every,
    })
}

/// Every spawner of the list has a period to divide by.
pub open spec fn periods_positive(spawners: Seq<Spawner>) -> bool {
    forall|i: int| 0 <= i < spawners.len() ==> #[trigger] spawners[i].spawn_every_n > 0
}

/// A list whose periods are all positive can be asked, at any frame, which
/// spawners fire.
pub proof fn lemma_positive_periods_defined(spawners: Seq<Spawner>, frame: int)
    requires
        periods_positive(spawners),
    ensures
        periods_defined(spawners, frame),
{
}

fn push_run(
    spawners: &mut Vec<Spawner>,
    count: u64,
    start: u64,
    start_step: u64,
    end: u64,
    end_step: u64,
    every: u64,
)
    requires
        start + count * start_step <= u64::MAX,
        count * end_step <= end,
    ensures
        final(spawners)@ == old(spawners)@ + schedule_run(count as nat, start as int, start_step as int, end as int, end_step as int, every),
{
    let ghost before = spawners@;
    let mut i: u64 = 0;
    while i < count
        invariant
            0 <= i <= count,
            start + count * start_step <= u64::MAX,
            count * end_step <= end,
            spawners@ == before + schedule_run(i as nat, start as int, start_step as int, end as int, end_step as int, every),
        decreases count - i,
    {
        proof {
            vstd::arithmetic::mul::lemma_mul_inequality(i as int, count as int, start_step as int);
            vstd::arithmetic::mul::lemma_mul_inequality(i as int, count as int, end_step as int);
        }
        let start_frame = start + i * start_step;
        let end_frame = end - i * end_step;
        spawners.push(Spawner { start_frame, end_frame, spawn_every_n: every });
        proof {
            assert(spawners@ =~= before + schedule_run(i as nat + 1, start as int, start_step as int, end as int, end_step as int, every));
        }
        i += 1;
    }
}

/// Timings of the start-up scene: a wall of spawners on the left, then one
/// on the right a second later, then a row along the top.
pub fn startup_schedules() -> (spawners: Vec<Spawner>)
    ensures
        spawners@ == schedule_run(246, 120, 0, 2120, 0, 2)
            + schedule_run(246, 180, 0, 2120, 0, 2)
            + schedule_run(197, 420, 0, 2120, 0, 2),
        periods_positive(spawners@),
{
    let mut spawners: Vec<Spawner> = Vec::new();
    push_run(&mut spawners, 246, INITIAL_DELAY, 0, 2000 + INITIAL_DELAY, 0, 2);
    push_run(&mut spawners, 246, 60 + INITIAL_DELAY, 0, 2000 + INITIAL_DELAY, 0, 2);
    push_run(&mut spawners, 197, 300 + INITIAL_DELAY, 0, 2000 + INITIAL_DELAY, 0, 2);
    spawners
}

impl Templates {
    /// Two side walls of spawners pushing inwards, then a row on top aiming
    /// at the centre.
    pub fn t0() -> (spawners: Vec<Spawner>)
        ensures
            spawners@ == schedule_run(22, 120, 0, 2520, 0, 2)
                + schedule_run(22, 180, 0, 2520, 0, 2)
                + schedule_run(33, 420, 0, 2520, 0, 2),
            periods_positive(spawners@),
    {
        let mut spawners: Vec<Spawner> = Vec::new();
        push_run(&mut spawners, 22, INITIAL_DELAY, 0, 2400 + INITIAL_DELAY, 0, 2);
        push_run(&mut spawners, 22, 60 + INITIAL_DELAY, 0, 2400 + INITIAL_DELAY, 0, 2);
        push_run(&mut spawners, 33, 300 + INITIAL_DELAY, 0, 2400 + INITIAL_DELAY, 0, 2);
        spawners
    }

    /// Like `t0`, every spawner aiming at the bottom centre.
    pub fn t1() -> (spawners: Vec<Spawner>)
        ensures
            spawners@ == schedule_run(22, 120, 0, 2470, 0, 2)
                + schedule_run(22, 180, 0, 2470, 0, 2)
                + schedule_run(33, 420, 0, 2470, 0, 2),
            periods_positive(spawners@),
    {
        let mut spawners: Vec<Spawner> = Vec::new();
        push_run(&mut spawners, 22, INITIAL_DELAY, 0, 2350 + INITIAL_DELAY, 0, 2);
        push_run(&mut spawners, 22, 60 + INITIAL_DELAY, 0, 2350 + INITIAL_DELAY, 0, 2);
        push_run(&mut spawners, 33, 300 + INITIAL_DELAY, 0, 2350 + INITIAL_DELAY, 0, 2);
        spawners
    }

    /// A ring of spinning spawners started one after another, then two rows
    /// of droppers along the top, also started one after another.
    pub fn t2() -> (spawners: Vec<Spawner>)
        ensures
            spawners@ == schedule_run(18, 120, 20, 3400, 0, 2)
                + schedule_run(20, 480, 20, 3400, 0, 2)
                + schedule_run(20, 480, 20, 3400, 0, 2),
            periods_positive(spawners@),
    {
        let mut spawners: Vec<Spawner> = Vec::new();
        let num_spawners_circle: u64 = 18;
        let delay_per_spawner: u64 = 20;
        let num_spawners: u64 = 20;
        push_run(&mut spawners, num_spawners_circle, INITIAL_DELAY, delay_per_spawner, 3400, 0, 2);
        let later = INITIAL_DELAY + num_spawners_circle * delay_per_spawner;
        push_run(&mut spawners, num_spawners, later, delay_per_spawner, 3400, 0, 2);
        push_run(&mut spawners, num_spawners, later, delay_per_spawner, 3400, 0, 2);
        spawners
    }

    /// Four rows of spawners along the borders, each one starting later and
    /// stopping earlier than the one before it.
    pub fn t3() -> (spawners: Vec<Spawner>)
        ensures
            spawners@ == schedule_run(20, 120, 20, 2600, 20, 2)
                + schedule_run(20, 120, 20, 2600, 20, 2)
                + schedule_run(20, 120, 20, 2600, 20, 2)
                + schedule_run(20, 120, 20, 2600, 20, 2),
            periods_positive(spawners@),
    {
        let mut spawners: Vec<Spawner> = Vec::new();
        let delay: u64 = 20;
        let num_spawners_per_dir: u64 = 20;
        push_run(&mut spawners, num_spawners_per_dir, INITIAL_DELAY, delay, 2600, delay, 2);
        push_run(&mut spawners, num_spawners_per_dir, INITIAL_DELAY, delay, 2600, delay, 2);
        push_run(&mut spawners, num_spawners_per_dir, INITIAL_DELAY, delay, 2600, delay, 2);
        push_run(&mut spawners, num_spawners_per_dir, INITIAL_DELAY, delay, 2600, delay, 2);
        spawners
    }

    /// A vertical line of back-to-back spawner pairs in the middle, started
    /// from the bottom up.
    pub fn t4() -> (spawners: Vec<Spawner>)
        ensures
            spawners@ == Seq::new(200, |k: int| Spawner {
                start_frame: (120 + 5 * (k / 2)) as u64,
                end_frame: 1200,
                spawn_every_n: 2,
            }),
            periods_positive(spawners@),
    {
        let mut spawners: Vec<Spawner> = Vec::new();
        let delay: u64 = 5;
        let mut i: u64 = 0;
        while i < 100
            invariant
                0 <= i <= 100,
                delay == 5,
                spawners@.len() == 2 * i,
                forall|k: int| #![trigger spawners@[k]] 0 <= k < 2 * i ==> spawners@[k] == (Spawner {
                    start_frame: (120 + 5 * (k / 2)) as u64,
                    end_frame: 1200,
                    spawn_every_n: 2,
                }),
            decreases 100 - i,
        {
            assert(i * delay == 5 * i) by (nonlinear_arith)
                requires
                    delay == 5,
            ;
            let start_frame = INITIAL_DELAY + i * delay;
            let ghost before = spawners@;
            spawners.push(Spawner { start_frame, end_frame: 1200, spawn_every_n: 2 });
            spawners.push(Spawner { start_frame, end_frame: 1200, spawn_every_n: 2 });
            proof {
                assert((2 * i) as int / 2 == i);
                assert((2 * i + 1) as int / 2 == i);
                assert forall|k: int| #![trigger spawners@[k]] 0 <= k < 2 * i + 2 implies spawners@[k] == (Spawner {
                    start_frame: (120 + 5 * (k / 2)) as u64,
                    end_frame: 1200,
                    spawn_every_n: 2,
                }) by {
                    if k < 2 * i {
                        assert(spawners@[k] == before[k]);
                    }
                }
            }
            i += 1;
        }
        proof {
            assert(spawners@ =~= Seq::new(200, |k: int| Spawner {
                start_frame: (120 + 5 * (k / 2)) as u64,
                end_frame: 1200,
                spawn_every_n: 2,
            }));
        }
        spawners
    }

    /// A small scene: two side walls of spawners emitting every five frames.
    pub fn small() -> (spawners: Vec<Spawner>)
        ensures
            spawners@ == schedule_run(19, 120, 0, 1920, 0, 5) + schedule_run(19, 180, 0, 1920, 0, 5),
            periods_positive(spawners@),
    {
        let mut spawners: Vec<Spawner> = Vec::new();
        push_run(&mut spawners, 19, INITIAL_DELAY, 0, 1800 + INITIAL_DELAY, 0, 5);
        push_run(&mut spawners, 19, 60 + INITIAL_DELAY, 0, 1800 + INITIAL_DELAY, 0, 5);
        spawners
    }
}

} // verus!
