//! Which particles are collided against which.
//!
//! The collision response itself is floating-point work done by the caller;
//! this module decides the order in which particle pairs are visited: for
//! every interior bin, its nine neighbouring bins (itself included), and for
//! each bin pair every particle of the first against every particle of the
//! second (within one bin, every particle against every other one).
use vstd::prelude::*;
use crate::binning::{bin_slot, bins_built, bins_in_grid, lemma_bins_hold_their_particles};
use crate::dispatch::neighbour_bin;
use crate::grid::{bin_row, bin_col, TOTAL_NUM_BIN_INDICES, TOTAL_NUM_BINS_WITH_PADDING, bin_index, get_bin_index, get_bin_index_above, get_bin_index_below, NUM_BINS_WITH_PADDING};

verus! {

/// The particles listed in `bin_particles[start..end]`, empty when `start >= end`.
pub open spec fn bin_range(bin_particles: Seq<u32>, start: int, end: int) -> Seq<u32> {
    if start < end {
        bin_particles.subrange(start, end)
    } else {
        Seq::empty()
    }
}

/// `(x, y)` for every `y` of `ys`, in order.
pub open spec fn pairs_with(x: u32, ys: Seq<u32>) -> Seq<(u32, u32)> {
    ys.map_values(|y: u32| (x, y))
}

/// Every `x` of `xs` against every `y` of `ys`, `xs` in the outer position.
pub open spec fn cross_pairs(xs: Seq<u32>, ys: Seq<u32>) -> Seq<(u32, u32)>
    decreases xs.len(),
{
    if xs.len() == 0 {
        Seq::empty()
    } else {
        cross_pairs(xs.drop_last(), ys) + pairs_with(xs.last(), ys)
    }
}

/// `(xs[a], xs[b])` for the positions `b < upto` other than `a`, in order.
pub open spec fn pairs_with_others(xs: Seq<u32>, a: int, upto: int) -> Seq<(u32, u32)>
    decreases upto,
{
    if upto <= 0 {
        Seq::empty()
    } else if upto - 1 == a {
        pairs_with_others(xs, a, upto - 1)
    } else {
        pairs_with_others(xs, a, upto - 1).push((xs[a], xs[upto - 1]))
    }
}

/// For each position `a < upto`, `xs[a]` against every other position of `xs`.
pub open spec fn pairs_within(xs: Seq<u32>, upto: int) -> Seq<(u32, u32)>
    decreases upto,
{
    if upto <= 0 {
        Seq::empty()
    } else {
        pairs_within(xs, upto - 1) + pairs_with_others(xs, upto - 1, xs.len() as int)
    }
}

/// The start and end entries of `bin` exist in `bin_indices`.
pub open spec fn bin_in_table(bin: int, bin_indices: Seq<u32>) -> bool {
    &&& 0 <= bin
    &&& bin + 1 < bin_indices.len()
    &&& bin + 1 <= u32::MAX
}

/// The particle range of `bin` can be read: the bin and its end entry exist,
/// and a non-empty range lies inside `bin_particles`.
pub open spec fn bin_readable(bin: int, bin_indices: Seq<u32>, bin_particles: Seq<u32>) -> bool {
    &&& bin_in_table(bin, bin_indices)
    &&& bin_indices[bin] < bin_indices[bin + 1] ==> bin_indices[bin + 1] <= bin_particles.len()
}

/// The particles of `bin` as `bin_indices` delimits them.
pub open spec fn bin_members(bin: int, bin_indices: Seq<u32>, bin_particles: Seq<u32>) -> Seq<u32> {
    bin_range(bin_particles, bin_indices[bin] as int, bin_indices[bin + 1] as int)
}

/// Every particle of `bin_a` against every particle of `bin_b`, as pairs of
/// particle indices, in the order in which they are collided.
pub fn collide_bins(bin_a: u32, bin_b: u32, bin_indices: &[u32], bin_particles: &[u32]) -> (pairs: Vec<(u32, u32)>)
    requires
        bin_readable(bin_a as int, bin_indices@, bin_particles@),
        bin_in_table(bin_b as int, bin_indices@),
        bin_members(bin_a as int, bin_indices@, bin_particles@).len() > 0
            ==> bin_readable(bin_b as int, bin_indices@, bin_particles@),
    ensures
        pairs@ == cross_pairs(
            bin_members(bin_a as int, bin_indices@, bin_particles@),
            bin_members(bin_b as int, bin_indices@, bin_particles@),
        ),
{
    let ghost xs = bin_members(bin_a as int, bin_indices@, bin_particles@);
    let ghost ys = bin_members(bin_b as int, bin_indices@, bin_particles@);
    let bin_start_a = bin_indices[bin_a as usize];
    let bin_end_a = bin_indices[(bin_a + 1) as usize];
    let bin_start_b = bin_indices[bin_b as usize];
    let bin_end_b = bin_indices[(bin_b + 1) as usize];
    let mut pairs: Vec<(u32, u32)> = Vec::new();
    if bin_start_a >= bin_end_a {
        return pairs;
    }
    let mut p_a = bin_start_a;
    while p_a < bin_end_a
        invariant
            bin_start_a <= p_a <= bin_end_a <= bin_particles@.len(),
            xs == bin_particles@.subrange(bin_start_a as int, bin_end_a as int),
            ys == bin_range(bin_particles@, bin_start_b as int, bin_end_b as int),
            bin_start_b < bin_end_b ==> bin_end_b <= bin_particles@.len(),
            pairs@ == cross_pairs(xs.take(p_a - bin_start_a), ys),
        decreases bin_end_a - p_a,
    {
        let particle_a = bin_particles[p_a as usize];
        let ghost before = pairs@;
        let mut p_b = bin_start_b;
        while p_b < bin_end_b
            invariant
                bin_start_a <= p_a < bin_end_a <= bin_particles@.len(),
                particle_a == bin_particles@[p_a as int],
                ys == bin_range(bin_particles@, bin_start_b as int, bin_end_b as int),
                bin_start_b < bin_end_b ==> bin_end_b <= bin_particles@.len(),
                p_b == bin_start_b || bin_start_b <= p_b <= bin_end_b,
                pairs@ == before + pairs_with(particle_a, ys.take(p_b - bin_start_b)),
            decreases bin_end_b - p_b,
        {
            let particle_b = bin_particles[p_b as usize];
            proof {
                assert(ys.take(p_b - bin_start_b + 1) =~= ys.take(p_b - bin_start_b).push(particle_b));
                assert(pairs_with(particle_a, ys.take(p_b - bin_start_b + 1))
                    =~= pairs_with(particle_a, ys.take(p_b - bin_start_b)).push((particle_a, particle_b)));
            }
            pairs.push((particle_a, particle_b));
            p_b += 1;
        }
        proof {
            if bin_start_b < bin_end_b {
                assert(ys.take(p_b - bin_start_b) =~= ys);
            } else {
                assert(ys.take(0) =~= ys);
            }
            let xt = xs.take(p_a - bin_start_a + 1);
            assert(xt.drop_last() =~= xs.take(p_a - bin_start_a));
            assert(xt.last() == particle_a);
        }
        p_a += 1;
    }
    proof {
        assert(xs.take(bin_end_a - bin_start_a) =~= xs);
    }
    pairs
}

/// Every particle of `bin` against every other particle of `bin`, as pairs
/// of particle indices, in the order in which they are collided.
pub fn collide_same_bins(bin: u32, bin_indices: &[u32], bin_particles: &[u32]) -> (pairs: Vec<(u32, u32)>)
    requires
        bin_readable(bin as int, bin_indices@, bin_particles@),
    ensures
        pairs@ == pairs_within(
            bin_members(bin as int, bin_indices@, bin_particles@),
            bin_members(bin as int, bin_indices@, bin_particles@).len() as int,
        ),
{
    let ghost xs = bin_members(bin as int, bin_indices@, bin_particles@);
    let bin_start = bin_indices[bin as usize];
    let bin_end = bin_indices[(bin + 1) as usize];
    let mut pairs: Vec<(u32, u32)> = Vec::new();
    if bin_start >= bin_end {
        return pairs;
    }
    let ghost n = (bin_end - bin_start) as int;
    let mut p_a = bin_start;
    while p_a < bin_end
        invariant
            bin_start <= p_a <= bin_end <= bin_particles@.len(),
            xs == bin_particles@.subrange(bin_start as int, bin_end as int),
            n == bin_end - bin_start,
            xs.len() == n,
            pairs@ == pairs_within(xs, p_a - bin_start),
        decreases bin_end - p_a,
    {
        let particle_a = bin_particles[p_a as usize];
        let ghost a = p_a - bin_start;
        let ghost before = pairs@;
        let mut p_b = bin_start;
        while p_b < bin_end
            invariant
                bin_start <= p_a < bin_end <= bin_particles@.len(),
                xs == bin_particles@.subrange(bin_start as int, bin_end as int),
                n == bin_end - bin_start,
                a == p_a - bin_start,
                particle_a == xs[a],
                bin_start <= p_b <= bin_end,
                pairs@ == before + pairs_with_others(xs, a, p_b - bin_start),
            decreases bin_end - p_b,
        {
            if p_a == p_b {
                p_b += 1;
                continue;
            }
            let particle_b = bin_particles[p_b as usize];
            proof {
                assert(particle_b == xs[p_b - bin_start]);
            }
            pairs.push((particle_a, particle_b));
            p_b += 1;
        }
        p_a += 1;
    }
    pairs
}

/// Interior bins visited by the solver: rows and columns 1..=100, that is
/// every bin of the padded grid but the outer ring.
pub open spec fn interior_side() -> int {
    100
}

/// Collision steps of one substep: nine per interior bin.
pub open spec fn solver_step_count() -> int {
    9 * interior_side() * interior_side()
}

/// Step `i` of the solver: interior bin `i / 9` in row-major order against
/// its neighbour `i % 9`, taken row above first (left, centre, right), then
/// its own row, then the row below.
pub open spec fn solver_step(i: int) -> (int, int) {
    let m = i / 9;
    let d = i % 9;
    let row = 1 + m / interior_side();
    let col = 1 + m % interior_side();
    (bin_index(row, col), bin_index(row + 1 - d / 3, col + d % 3 - 1))
}

/// The pairs that one solver step collides.
pub open spec fn step_pairs(step: (int, int), bin_indices: Seq<u32>, bin_particles: Seq<u32>) -> Seq<(u32, u32)> {
    let xs = bin_members(step.0, bin_indices, bin_particles);
    if step.0 == step.1 {
        pairs_within(xs, xs.len() as int)
    } else {
        cross_pairs(xs, bin_members(step.1, bin_indices, bin_particles))
    }
}

/// The bins a step reads can be read.
pub open spec fn step_readable(step: (int, int), bin_indices: Seq<u32>, bin_particles: Seq<u32>) -> bool {
    &&& bin_readable(step.0, bin_indices, bin_particles)
    &&& step.0 != step.1 ==> bin_in_table(step.1, bin_indices)
    &&& bin_members(step.0, bin_indices, bin_particles).len() > 0 ==> bin_readable(step.1, bin_indices, bin_particles)
}

/// The pairs of the first `count` solver steps, one step after another.
pub open spec fn solver_pairs(count: int, bin_indices: Seq<u32>, bin_particles: Seq<u32>) -> Seq<(u32, u32)>
    decreases count,
{
    if count <= 0 {
        Seq::empty()
    } else {
        solver_pairs(count - 1, bin_indices, bin_particles) + step_pairs(solver_step(count - 1), bin_indices, bin_particles)
    }
}

proof fn lemma_solver_step(row: int, col: int, d: int)
    requires
        1 <= row <= interior_side(),
        1 <= col <= interior_side(),
        0 <= d < 9,
    ensures
        solver_step(900 * (row - 1) + 9 * (col - 1) + d)
            == (bin_index(row, col), bin_index(row + 1 - d / 3, col + d % 3 - 1)),
{
    let m = 100 * (row - 1) + (col - 1);
    vstd::arithmetic::div_mod::lemma_fundamental_div_mod_converse(9 * m + d, 9, m, d);
    vstd::arithmetic::div_mod::lemma_fundamental_div_mod_converse(m, interior_side(), row - 1, col - 1);
}

fn push_step_pairs(
    pairs: &mut Vec<(u32, u32)>,
    bin_a: u32,
    bin_b: u32,
    bin_indices: &[u32],
    bin_particles: &[u32],
)
    requires
        step_readable((bin_a as int, bin_b as int), bin_indices@, bin_particles@),
    ensures
        final(pairs)@ == old(pairs)@ + step_pairs((bin_a as int, bin_b as int), bin_indices@, bin_particles@),
{
    let mut step = if bin_a == bin_b {
        collide_same_bins(bin_a, bin_indices, bin_particles)
    } else {
        collide_bins(bin_a, bin_b, bin_indices, bin_particles)
    };
    pairs.append(&mut step);
}

/// All particle pairs of one collision pass over the interior bins, in the
/// order in which they are collided (see `solver_step`).
pub fn bin_solver(bin_indices: &[u32], bin_particles: &[u32]) -> (pairs: Vec<(u32, u32)>)
    requires
        forall|i: int|
            #![trigger solver_step(i)]
            0 <= i < solver_step_count() ==> step_readable(solver_step(i), bin_indices@, bin_particles@),
    ensures
        pairs@ == solver_pairs(solver_step_count(), bin_indices@, bin_particles@),
{
    let mut pairs: Vec<(u32, u32)> = Vec::new();
    assert(interior_side() == NUM_BINS_WITH_PADDING - 2);
    let mut bin_row: u32 = 1;
    while bin_row <= NUM_BINS_WITH_PADDING - 2
        invariant
            interior_side() == NUM_BINS_WITH_PADDING - 2,
            1 <= bin_row <= interior_side() + 1,
            forall|i: int|
                #![trigger solver_step(i)]
                0 <= i < solver_step_count() ==> step_readable(solver_step(i), bin_indices@, bin_particles@),
            pairs@ == solver_pairs(900 * (bin_row - 1), bin_indices@, bin_particles@),
        decreases interior_side() + 1 - bin_row,
    {
        let mut bin_col: u32 = 1;
        while bin_col <= NUM_BINS_WITH_PADDING - 2
            invariant
                interior_side() == NUM_BINS_WITH_PADDING - 2,
                1 <= bin_row <= interior_side(),
                1 <= bin_col <= interior_side() + 1,
                forall|i: int|
                    #![trigger solver_step(i)]
                    0 <= i < solver_step_count() ==> step_readable(solver_step(i), bin_indices@, bin_particles@),
                pairs@ == solver_pairs(900 * (bin_row - 1) + 9 * (bin_col - 1), bin_indices@, bin_particles@),
            decreases interior_side() + 1 - bin_col,
        {
            let bin_number = get_bin_index(bin_row, bin_col);
            let bin_number_above = get_bin_index_above(bin_number);
            let bin_number_below = get_bin_index_below(bin_number);
            let mut d: u32 = 0;
            while d < 9
                invariant
                    1 <= bin_row <= interior_side(),
                    1 <= bin_col <= interior_side(),
                    0 <= d <= 9,
                    bin_number == bin_index(bin_row as int, bin_col as int),
                    bin_number_above == bin_number + NUM_BINS_WITH_PADDING,
                    bin_number_below == bin_number - NUM_BINS_WITH_PADDING,
                    forall|i: int|
                        #![trigger solver_step(i)]
                        0 <= i < solver_step_count() ==> step_readable(solver_step(i), bin_indices@, bin_particles@),
                    pairs@ == solver_pairs(900 * (bin_row - 1) + 9 * (bin_col - 1) + d, bin_indices@, bin_particles@),
                decreases 9 - d,
            {
                // Row above (left, centre, right), own row, row below.
                let neighbour = if d < 3 {
                    bin_number_above + d - 1
                } else if d < 6 {
                    bin_number + d - 4
                } else {
                    bin_number_below + d - 7
                };
                proof {
                    lemma_solver_step(bin_row as int, bin_col as int, d as int);
                    if d < 3 {
                        assert(d / 3 == 0 && d % 3 == d);
                    } else if d < 6 {
                        assert(d / 3 == 1 && d % 3 == d - 3);
                    } else {
                        assert(d / 3 == 2 && d % 3 == d - 6);
                    }
                }
                push_step_pairs(&mut pairs, bin_number, neighbour, bin_indices, bin_particles);
                d += 1;
            }
            bin_col += 1;
        }
        bin_row += 1;
    }
    pairs
}

/// Every pair of `cross_pairs(xs, ys)` takes its first particle from `xs`
/// and its second from `ys`.
proof fn lemma_cross_pairs_members(xs: Seq<u32>, ys: Seq<u32>)
    ensures
        forall|k: int|
            #![trigger cross_pairs(xs, ys)[k]]
            0 <= k < cross_pairs(xs, ys).len()
                ==> xs.contains(cross_pairs(xs, ys)[k].0) && ys.contains(cross_pairs(xs, ys)[k].1),
    decreases xs.len(),
{
    if xs.len() > 0 {
        let t = xs.drop_last();
        lemma_cross_pairs_members(t, ys);
        let a = cross_pairs(t, ys);
        let b = pairs_with(xs.last(), ys);
        assert forall|k: int|
            #![trigger cross_pairs(xs, ys)[k]]
            0 <= k < cross_pairs(xs, ys).len()
                implies xs.contains(cross_pairs(xs, ys)[k].0) && ys.contains(cross_pairs(xs, ys)[k].1) by {
            if k < a.len() {
                assert(cross_pairs(xs, ys)[k] == a[k]);
                let i = choose|i: int| 0 <= i < t.len() && t[i] == a[k].0;
                assert(xs[i] == t[i]);
            } else {
                assert(cross_pairs(xs, ys)[k] == b[k - a.len()]);
                assert(xs[xs.len() - 1] == xs.last());
                assert(ys[k - a.len()] == b[k - a.len()].1);
            }
        }
    }
}

proof fn lemma_pairs_with_others_members(xs: Seq<u32>, a: int, upto: int)
    requires
        0 <= a < xs.len(),
        upto <= xs.len(),
        forall|i: int, j: int| 0 <= i < j < xs.len() ==> xs[i] < xs[j],
    ensures
        forall|k: int|
            #![trigger pairs_with_others(xs, a, upto)[k]]
            0 <= k < pairs_with_others(xs, a, upto).len() ==> {
                let pair = pairs_with_others(xs, a, upto)[k];
                &&& pair.0 == xs[a]
                &&& xs.contains(pair.1)
                &&& pair.0 != pair.1
            },
    decreases upto,
{
    if upto > 0 {
        lemma_pairs_with_others_members(xs, a, upto - 1);
        let last = upto - 1;
        let prev = pairs_with_others(xs, a, upto - 1);
        if last != a {
            assert(xs[a] != xs[last]) by {
                if a < last {
                    assert(xs[a] < xs[last]);
                } else {
                    assert(xs[last] < xs[a]);
                }
            }
            let s = pairs_with_others(xs, a, upto);
            assert forall|k: int|
                #![trigger s[k]]
                0 <= k < s.len() implies {
                    let pair = s[k];
                    &&& pair.0 == xs[a]
                    &&& xs.contains(pair.1)
                    &&& pair.0 != pair.1
                } by {
                if k < prev.len() {
                    assert(s[k] == prev[k]);
                } else {
                    assert(s[k] == (xs[a], xs[last]));
                }
            }
        }
    }
}

proof fn lemma_pairs_within_members(xs: Seq<u32>, upto: int)
    requires
        upto <= xs.len(),
        forall|i: int, j: int| 0 <= i < j < xs.len() ==> xs[i] < xs[j],
    ensures
        forall|k: int|
            #![trigger pairs_within(xs, upto)[k]]
            0 <= k < pairs_within(xs, upto).len() ==> {
                let pair = pairs_within(xs, upto)[k];
                &&& xs.contains(pair.0)
                &&& xs.contains(pair.1)
                &&& pair.0 != pair.1
            },
    decreases upto,
{
    if upto > 0 {
        lemma_pairs_within_members(xs, upto - 1);
        lemma_pairs_with_others_members(xs, upto - 1, xs.len() as int);
        let a = pairs_within(xs, upto - 1);
        let b = pairs_with_others(xs, upto - 1, xs.len() as int);
        assert forall|k: int|
            #![trigger pairs_within(xs, upto)[k]]
            0 <= k < pairs_within(xs, upto).len() implies {
                let pair = pairs_within(xs, upto)[k];
                &&& xs.contains(pair.0)
                &&& xs.contains(pair.1)
                &&& pair.0 != pair.1
            } by {
            if k < a.len() {
                assert(pairs_within(xs, upto)[k] == a[k]);
            } else {
                assert(pairs_within(xs, upto)[k] == b[k - a.len()]);
            }
        }
    }
}

/// The bins of one solver step lie in the padded grid.
proof fn lemma_solver_step_in_grid(i: int)
    requires
        0 <= i < solver_step_count(),
    ensures
        0 <= solver_step(i).0 < TOTAL_NUM_BINS_WITH_PADDING,
        0 <= solver_step(i).1 < TOTAL_NUM_BINS_WITH_PADDING,
{
    let m = i / 9;
    assert(0 <= m < 10000);
    assert(0 <= m / 100 < 100);
    assert(0 <= i % 9 < 9);
    assert(0 <= m % 100 < 100);
}

/// Members of a built bin are particles of that bin, in increasing order.
proof fn lemma_bin_members_built(
    bin_ids: Seq<usize>,
    bin_indices: Seq<u32>,
    bin_particles: Seq<u32>,
    bin: int,
)
    requires
        bins_in_grid(bin_ids),
        bins_built(bin_ids, bin_indices, bin_particles),
        0 <= bin < TOTAL_NUM_BINS_WITH_PADDING,
    ensures
        bin_readable(bin, bin_indices, bin_particles),
        forall|x: u32|
            #[trigger] bin_members(bin, bin_indices, bin_particles).contains(x)
                ==> x < bin_ids.len() && bin_ids[x as int] == bin,
        forall|i: int, j: int|
            0 <= i < j < bin_members(bin, bin_indices, bin_particles).len()
                ==> bin_members(bin, bin_indices, bin_particles)[i] < bin_members(bin, bin_indices, bin_particles)[j],
{
    lemma_bins_hold_their_particles(bin_ids, bin_indices, bin_particles);
    let lo = bin_indices[bin] as int;
    let hi = bin_indices[bin + 1] as int;
    assert(lo <= bin_ids.len() && hi <= bin_ids.len());
    let xs = bin_members(bin, bin_indices, bin_particles);
    assert forall|x: u32| xs.contains(x) implies x < bin_ids.len() && bin_ids[x as int] == bin by {
        let i = choose|i: int| 0 <= i < xs.len() && xs[i] == x;
        assert(bin_particles[lo + i] == x);
        assert(bin_indices[bin] <= lo + i < bin_indices[bin + 1]);
    }
    assert forall|i: int, j: int| 0 <= i < j < xs.len() implies xs[i] < xs[j] by {
        assert(bin_particles[lo + i] == xs[i]);
        assert(bin_particles[lo + j] == xs[j]);
        assert(bin_indices[bin] <= lo + i < lo + j < bin_indices[bin + 1]);
    }
}

proof fn lemma_solver_pairs_distinct_upto(
    bin_ids: Seq<usize>,
    bin_indices: Seq<u32>,
    bin_particles: Seq<u32>,
    count: int,
)
    requires
        bins_in_grid(bin_ids),
        bins_built(bin_ids, bin_indices, bin_particles),
        0 <= count <= solver_step_count(),
    ensures
        forall|k: int|
            #![trigger solver_pairs(count, bin_indices, bin_particles)[k]]
            0 <= k < solver_pairs(count, bin_indices, bin_particles).len() ==> {
                let pair = solver_pairs(count, bin_indices, bin_particles)[k];
                &&& pair.0 < bin_ids.len()
                &&& pair.1 < bin_ids.len()
                &&& pair.0 != pair.1
            },
    decreases count,
{
    if count > 0 {
        lemma_solver_pairs_distinct_upto(bin_ids, bin_indices, bin_particles, count - 1);
        let step = solver_step(count - 1);
        lemma_solver_step_in_grid(count - 1);
        lemma_bin_members_built(bin_ids, bin_indices, bin_particles, step.0);
        lemma_bin_members_built(bin_ids, bin_indices, bin_particles, step.1);
        let xs = bin_members(step.0, bin_indices, bin_particles);
        let ys = bin_members(step.1, bin_indices, bin_particles);
        let a = solver_pairs(count - 1, bin_indices, bin_particles);
        let b = step_pairs(step, bin_indices, bin_particles);
        if step.0 == step.1 {
            lemma_pairs_within_members(xs, xs.len() as int);
        } else {
            lemma_cross_pairs_members(xs, ys);
        }
        assert forall|k: int|
            #![trigger solver_pairs(count, bin_indices, bin_particles)[k]]
            0 <= k < solver_pairs(count, bin_indices, bin_particles).len() implies {
                let pair = solver_pairs(count, bin_indices, bin_particles)[k];
                &&& pair.0 < bin_ids.len()
                &&& pair.1 < bin_ids.len()
                &&& pair.0 != pair.1
            } by {
            if k < a.len() {
                assert(solver_pairs(count, bin_indices, bin_particles)[k] == a[k]);
            } else {
                assert(solver_pairs(count, bin_indices, bin_particles)[k] == b[k - a.len()]);
                let pair = b[k - a.len()];
                if step.0 != step.1 {
                    assert(b == cross_pairs(xs, ys));
                    assert(pair == cross_pairs(xs, ys)[k - a.len()]);
                    assert(xs.contains(pair.0) && ys.contains(pair.1));
                    assert(pair.0 < bin_ids.len() && bin_ids[pair.0 as int] == step.0);
                    assert(pair.1 < bin_ids.len() && bin_ids[pair.1 as int] == step.1);
                } else {
                    assert(b == pairs_within(xs, xs.len() as int));
                    assert(pair == pairs_within(xs, xs.len() as int)[k - a.len()]);
                    assert(xs.contains(pair.0) && xs.contains(pair.1));
                    assert(pair.0 < bin_ids.len());
                    assert(pair.1 < bin_ids.len());
                }
            }
        }
    }
}

/// Bins laid out by `create_bin` are a valid input of `bin_solver`, and
/// every pair it returns is two different particles: a collision pass can
/// update the particle array pair by pair in place.
pub proof fn lemma_solver_on_built_bins(bin_ids: Seq<usize>, bin_indices: Seq<u32>, bin_particles: Seq<u32>)
    requires
        bins_in_grid(bin_ids),
        bins_built(bin_ids, bin_indices, bin_particles),
    ensures
        forall|i: int|
            #![trigger solver_step(i)]
            0 <= i < solver_step_count() ==> step_readable(solver_step(i), bin_indices, bin_particles),
        forall|k: int|
            #![trigger solver_pairs(solver_step_count(), bin_indices, bin_particles)[k]]
            0 <= k < solver_pairs(solver_step_count(), bin_indices, bin_particles).len() ==> {
                let pair = solver_pairs(solver_step_count(), bin_indices, bin_particles)[k];
                &&& pair.0 < bin_ids.len()
                &&& pair.1 < bin_ids.len()
                &&& pair.0 != pair.1
            },
{
    assert forall|i: int|
        #![trigger solver_step(i)]
        0 <= i < solver_step_count() implies step_readable(solver_step(i), bin_indices, bin_particles) by {
        lemma_solver_step_in_grid(i);
        lemma_bin_members_built(bin_ids, bin_indices, bin_particles, solver_step(i).0);
        lemma_bin_members_built(bin_ids, bin_indices, bin_particles, solver_step(i).1);
    }
    lemma_solver_pairs_distinct_upto(bin_ids, bin_indices, bin_particles, solver_step_count());
}

/// For each interior bin, the nine solver steps of that bin pair it with each
/// bin of its 3x3 neighbourhood once: step `9 * m + 3 * (1 - dr) + (dc + 1)`
/// of bin `m` (row-major over the interior) is the neighbour `dr` rows up and
/// `dc` columns across.
pub proof fn lemma_solver_visits_neighbourhood(row: int, col: int, dr: int, dc: int)
    requires
        1 <= row <= interior_side(),
        1 <= col <= interior_side(),
        -1 <= dr <= 1,
        -1 <= dc <= 1,
    ensures
        solver_step(900 * (row - 1) + 9 * (col - 1) + 3 * (1 - dr) + (dc + 1))
            == (bin_index(row, col), bin_index(row + dr, col + dc)),
{
    lemma_solver_step(row, col, 3 * (1 - dr) + (dc + 1));
}

/// `(bin, bin_particles[index])` for each position `other` in
/// `index + 1..upto` that holds the same particle as `index`.
pub open spec fn duplicates_of(bin_particles: Seq<u32>, bin: int, index: int, upto: int) -> Seq<(u32, u32)>
    decreases upto - index,
{
    if upto <= index + 1 {
        Seq::empty()
    } else if bin_particles[index] == bin_particles[upto - 1] {
        duplicates_of(bin_particles, bin, index, upto - 1).push((bin as u32, bin_particles[index]))
    } else {
        duplicates_of(bin_particles, bin, index, upto - 1)
    }
}

/// Duplicates within `start..end` found from the positions `start..upto`.
pub open spec fn duplicates_in(bin_particles: Seq<u32>, bin: int, start: int, upto: int, end: int) -> Seq<(u32, u32)>
    decreases upto - start,
{
    if upto <= start {
        Seq::empty()
    } else {
        duplicates_in(bin_particles, bin, start, upto - 1, end) + duplicates_of(bin_particles, bin, upto - 1, end)
    }
}

/// What the duplicate check reports for bins `0..count`.
pub open spec fn check_findings(bin_indices: Seq<u32>, bin_particles: Seq<u32>, count: int) -> Seq<(u32, u32)>
    decreases count,
{
    if count <= 0 {
        Seq::empty()
    } else {
        let bin = count - 1;
        let start = bin_indices[bin] as int;
        let end = bin_indices[bin + 1] as int;
        check_findings(bin_indices, bin_particles, count - 1) + duplicates_in(bin_particles, bin, start, end, end)
    }
}

/// The duplicate check can read every range it walks: the start table has
/// an entry for every bin and the closing one, and every non-empty bin range
/// lies inside `bin_particles`.
pub open spec fn check_readable(bin_indices: Seq<u32>, bin_particles: Seq<u32>) -> bool {
    &&& bin_indices.len() >= TOTAL_NUM_BIN_INDICES
    &&& forall|bin: int|
        #![trigger bin_indices[bin]]
        0 <= bin < TOTAL_NUM_BINS_WITH_PADDING && bin_indices[bin] < bin_indices[bin + 1]
            ==> bin_indices[bin + 1] <= bin_particles.len()
}

/// Looks, in every bin of the padded grid, for a particle listed twice in
/// that bin; reports `(bin, particle)` for every such repetition, in the
/// order found.
pub fn check(bin_indices: &[u32], bin_particles: &[u32]) -> (findings: Vec<(u32, u32)>)
    requires
        check_readable(bin_indices@, bin_particles@),
    ensures
        findings@ == check_findings(bin_indices@, bin_particles@, TOTAL_NUM_BINS_WITH_PADDING as int),
{
    let mut findings: Vec<(u32, u32)> = Vec::new();
    let mut bin: u32 = 0;
    while bin < TOTAL_NUM_BINS_WITH_PADDING as u32
        invariant
            0 <= bin <= TOTAL_NUM_BINS_WITH_PADDING,
            check_readable(bin_indices@, bin_particles@),
            findings@ == check_findings(bin_indices@, bin_particles@, bin as int),
        decreases TOTAL_NUM_BINS_WITH_PADDING - bin,
    {
        let bin_start = bin_indices[bin as usize];
        let bin_end = bin_indices[(bin + 1) as usize];
        let ghost before = findings@;
        let mut index = bin_start;
        while index < bin_end
            invariant
                bin < TOTAL_NUM_BINS_WITH_PADDING,
                index == bin_start || (bin_start < index <= bin_end),
                bin_start < bin_end ==> bin_end <= bin_particles@.len(),
                findings@ == before + duplicates_in(bin_particles@, bin as int, bin_start as int, index as int, bin_end as int),
            decreases bin_end - index,
        {
            let particle_id = bin_particles[index as usize];
            let ghost mid = findings@;
            let mut other_index = index + 1;
            while other_index < bin_end
                invariant
                    bin < TOTAL_NUM_BINS_WITH_PADDING,
                    index < other_index,
                    other_index <= bin_end || other_index == index + 1,
                    index < bin_end <= bin_particles@.len(),
                    particle_id == bin_particles@[index as int],
                    findings@ == mid + duplicates_of(bin_particles@, bin as int, index as int, other_index as int),
                decreases bin_end - other_index,
            {
                let other_particle_id = bin_particles[other_index as usize];
                if particle_id == other_particle_id {
                    findings.push((bin, particle_id));
                }
                other_index += 1;
            }
            proof {
                if other_index != bin_end {
                    assert(duplicates_of(bin_particles@, bin as int, index as int, other_index as int)
                        =~= duplicates_of(bin_particles@, bin as int, index as int, bin_end as int));
                }
            }
            index += 1;
        }
        bin += 1;
    }
    findings
}

proof fn lemma_no_duplicates_of(bin_particles: Seq<u32>, bin: int, index: int, upto: int)
    requires
        0 <= index,
        upto <= bin_particles.len(),
        forall|i: int, j: int| index <= i < j < upto ==> bin_particles[i] < bin_particles[j],
    ensures
        duplicates_of(bin_particles, bin, index, upto) == Seq::<(u32, u32)>::empty(),
    decreases upto - index,
{
    if upto > index + 1 {
        lemma_no_duplicates_of(bin_particles, bin, index, upto - 1);
        assert(bin_particles[index] < bin_particles[upto - 1]);
    }
}

proof fn lemma_no_duplicates_in(bin_particles: Seq<u32>, bin: int, start: int, upto: int, end: int)
    requires
        0 <= start,
        upto <= end <= bin_particles.len(),
        forall|i: int, j: int| start <= i < j < end ==> bin_particles[i] < bin_particles[j],
    ensures
        duplicates_in(bin_particles, bin, start, upto, end) == Seq::<(u32, u32)>::empty(),
    decreases upto - start,
{
    if upto > start {
        lemma_no_duplicates_in(bin_particles, bin, start, upto - 1, end);
        lemma_no_duplicates_of(bin_particles, bin, upto - 1, end);
        assert(duplicates_in(bin_particles, bin, start, upto, end) =~= Seq::<(u32, u32)>::empty());
    }
}

/// On bins laid out by `create_bin` the duplicate check finds nothing: no
/// bin lists a particle twice.
pub proof fn lemma_check_clean_on_built_bins(
    bin_ids: Seq<usize>,
    bin_indices: Seq<u32>,
    bin_particles: Seq<u32>,
    count: int,
)
    requires
        bins_in_grid(bin_ids),
        bins_built(bin_ids, bin_indices, bin_particles),
        0 <= count <= TOTAL_NUM_BINS_WITH_PADDING,
    ensures
        check_findings(bin_indices, bin_particles, count) == Seq::<(u32, u32)>::empty(),
    decreases count,
{
    if count > 0 {
        lemma_check_clean_on_built_bins(bin_ids, bin_indices, bin_particles, count - 1);
        let bin = count - 1;
        lemma_bins_hold_their_particles(bin_ids, bin_indices, bin_particles);
        let start = bin_indices[bin] as int;
        let end = bin_indices[bin + 1] as int;
        if start < end {
            assert forall|i: int, j: int| start <= i < j < end implies bin_particles[i] < bin_particles[j] by {
                assert(bin_indices[bin] <= i < j < bin_indices[bin + 1]);
            }
            assert(end <= bin_ids.len());
            lemma_no_duplicates_in(bin_particles, bin, start, end, end);
        }
        assert(check_findings(bin_indices, bin_particles, count) =~= Seq::<(u32, u32)>::empty());
    }
}

/// Every particle of the first list meets every particle of the second,
/// each pair once, in row-major order: the pair at `i * ys.len() + j` is
/// `(xs[i], ys[j])`, and there are no others.
pub proof fn lemma_cross_pairs_exact(xs: Seq<u32>, ys: Seq<u32>)
    ensures
        cross_pairs(xs, ys).len() == xs.len() * ys.len(),
        forall|i: int, j: int|
            0 <= i < xs.len() && 0 <= j < ys.len()
                ==> #[trigger] cross_pairs(xs, ys)[i * ys.len() + j] == (xs[i], ys[j]),
    decreases xs.len(),
{
    let m = ys.len() as int;
    if xs.len() > 0 {
        let t = xs.drop_last();
        let n = xs.len() as int;
        lemma_cross_pairs_exact(t, ys);
        let a = cross_pairs(t, ys);
        let b = pairs_with(xs.last(), ys);
        assert(a.len() == (n - 1) * m);
        assert((n - 1) * m + m == n * m) by (nonlinear_arith);
        assert forall|i: int, j: int|
            0 <= i < xs.len() && 0 <= j < ys.len()
                implies #[trigger] cross_pairs(xs, ys)[i * ys.len() + j] == (xs[i], ys[j]) by {
            if i < n - 1 {
                assert(i * m + j < (n - 1) * m) by (nonlinear_arith)
                    requires 0 <= i < n - 1, 0 <= j < m;
                assert(cross_pairs(xs, ys)[i * m + j] == a[i * m + j]);
                assert(t[i] == xs[i]);
            } else {
                assert(i * m == (n - 1) * m);
                assert(cross_pairs(xs, ys)[i * m + j] == b[j]);
            }
        }
    } else {
        assert(xs.len() * ys.len() == 0) by (nonlinear_arith)
            requires xs.len() == 0;
    }
}

/// Position, among the partners of `a`, of the partner `b != a`.
pub open spec fn partner_index(a: int, b: int) -> int {
    if b < a { b } else { b - 1 }
}

proof fn lemma_pairs_with_others_exact(xs: Seq<u32>, a: int, upto: int)
    requires
        0 <= a < xs.len(),
        0 <= upto <= xs.len(),
    ensures
        pairs_with_others(xs, a, upto).len() == (if a < upto { upto - 1 } else { upto }),
        forall|b: int|
            0 <= b < upto && b != a
                ==> #[trigger] pairs_with_others(xs, a, upto)[partner_index(a, b)] == (xs[a], xs[b]),
    decreases upto,
{
    if upto > 0 {
        lemma_pairs_with_others_exact(xs, a, upto - 1);
        let prev = pairs_with_others(xs, a, upto - 1);
        assert forall|b: int|
            0 <= b < upto && b != a
                implies #[trigger] pairs_with_others(xs, a, upto)[partner_index(a, b)] == (xs[a], xs[b]) by {
            if b < upto - 1 {
                assert(pairs_with_others(xs, a, upto)[partner_index(a, b)] == prev[partner_index(a, b)]);
            }
        }
    }
}

proof fn lemma_pairs_within_exact_upto(xs: Seq<u32>, upto: int)
    requires
        0 <= upto <= xs.len(),
    ensures
        pairs_within(xs, upto).len() == upto * (xs.len() - 1),
        forall|a: int, b: int|
            0 <= a < upto && 0 <= b < xs.len() && a != b
                ==> #[trigger] pairs_within(xs, upto)[a * (xs.len() - 1) + partner_index(a, b)] == (xs[a], xs[b]),
    decreases upto,
{
    let k = xs.len() - 1;
    if upto > 0 {
        lemma_pairs_within_exact_upto(xs, upto - 1);
        lemma_pairs_with_others_exact(xs, upto - 1, xs.len() as int);
        let prev = pairs_within(xs, upto - 1);
        let last = pairs_with_others(xs, upto - 1, xs.len() as int);
        assert((upto - 1) * k + k == upto * k) by (nonlinear_arith);
        assert forall|a: int, b: int|
            0 <= a < upto && 0 <= b < xs.len() && a != b
                implies #[trigger] pairs_within(xs, upto)[a * (xs.len() - 1) + partner_index(a, b)] == (xs[a], xs[b]) by {
            let p = partner_index(a, b);
            assert(0 <= p < k);
            if a < upto - 1 {
                assert(a * k + p < (upto - 1) * k) by (nonlinear_arith)
                    requires 0 <= a < upto - 1, 0 <= p < k;
                assert(pairs_within(xs, upto)[a * k + p] == prev[a * k + p]);
            } else {
                assert(a * k == (upto - 1) * k);
                assert(pairs_within(xs, upto)[a * k + p] == last[p]);
            }
        }
    } else {
        assert(0 * k == 0);
    }
}

/// Within one bin every particle meets every other particle of the bin,
/// each ordered pair once: `n * (n - 1)` pairs, the pair of `xs[a]` with
/// `xs[b]` (`b != a`) at `a * (n - 1)` plus the place of `b` among the
/// partners of `a`.
pub proof fn lemma_pairs_within_exact(xs: Seq<u32>)
    ensures
        pairs_within(xs, xs.len() as int).len() == xs.len() * (xs.len() - 1),
        forall|a: int, b: int|
            0 <= a < xs.len() && 0 <= b < xs.len() && a != b
                ==> #[trigger] pairs_within(xs, xs.len() as int)[a * (xs.len() - 1) + partner_index(a, b)]
                    == (xs[a], xs[b]),
{
    lemma_pairs_within_exact_upto(xs, xs.len() as int);
}

/// A solver step between two different bins collides every particle of the
/// first with every particle of the second (`|a| * |b|` pairs, in
/// row-major order); a step of a bin with itself collides every particle
/// with every other one of the bin.
pub proof fn lemma_step_pairs_exact(step: (int, int), bin_indices: Seq<u32>, bin_particles: Seq<u32>)
    ensures
        ({
            let xs = bin_members(step.0, bin_indices, bin_particles);
            let ys = bin_members(step.1, bin_indices, bin_particles);
            let pairs = step_pairs(step, bin_indices, bin_particles);
            &&& step.0 != step.1 ==> pairs.len() == xs.len() * ys.len()
            &&& step.0 != step.1 ==> forall|i: int, j: int|
                0 <= i < xs.len() && 0 <= j < ys.len() ==> #[trigger] pairs[i * ys.len() + j] == (xs[i], ys[j])
            &&& step.0 == step.1 ==> pairs.len() == xs.len() * (xs.len() - 1)
            &&& step.0 == step.1 ==> forall|a: int, b: int|
                0 <= a < xs.len() && 0 <= b < xs.len() && a != b
                    ==> #[trigger] pairs[a * (xs.len() - 1) + partner_index(a, b)] == (xs[a], xs[b])
        }),
{
    let xs = bin_members(step.0, bin_indices, bin_particles);
    let ys = bin_members(step.1, bin_indices, bin_particles);
    lemma_cross_pairs_exact(xs, ys);
    lemma_pairs_within_exact(xs);
}

proof fn lemma_solver_pairs_contains_step(
    count: int,
    i: int,
    k: int,
    bin_indices: Seq<u32>,
    bin_particles: Seq<u32>,
)
    requires
        0 <= i < count,
        0 <= k < step_pairs(solver_step(i), bin_indices, bin_particles).len(),
    ensures
        solver_pairs(count, bin_indices, bin_particles).contains(
            step_pairs(solver_step(i), bin_indices, bin_particles)[k],
        ),
    decreases count,
{
    let prev = solver_pairs(count - 1, bin_indices, bin_particles);
    let cur = solver_pairs(count, bin_indices, bin_particles);
    let x = step_pairs(solver_step(i), bin_indices, bin_particles)[k];
    if i == count - 1 {
        assert(cur[prev.len() + k] == x);
    } else {
        lemma_solver_pairs_contains_step(count - 1, i, k, bin_indices, bin_particles);
        let idx = choose|idx: int| 0 <= idx < prev.len() && prev[idx] == x;
        assert(cur[idx] == x);
    }
}

/// Where particle `p` sits within the members of its bin, once bins are built.
proof fn lemma_member_position(
    bin_ids: Seq<usize>,
    bin_indices: Seq<u32>,
    bin_particles: Seq<u32>,
    p: int,
)
    requires
        bins_in_grid(bin_ids),
        bins_built(bin_ids, bin_indices, bin_particles),
        0 <= p < bin_ids.len(),
    ensures
        ({
            let xs = bin_members(bin_ids[p] as int, bin_indices, bin_particles);
            let at = bin_slot(bin_ids, p) - bin_indices[bin_ids[p] as int];
            &&& 0 <= at < xs.len()
            &&& xs[at] == p
        }),
{
    lemma_bins_hold_their_particles(bin_ids, bin_indices, bin_particles);
    let b = bin_ids[p] as int;
    assert(bin_indices[b + 1] <= bin_ids.len());
}

/// A collision pass over built bins collides every particle `p` of an
/// interior bin with every other particle `q` of that bin's 3x3
/// neighbourhood (its own bin included): the pair `(p, q)` is among the
/// pass's pairs.
pub proof fn lemma_solver_collides_neighbours(
    bin_ids: Seq<usize>,
    bin_indices: Seq<u32>,
    bin_particles: Seq<u32>,
    p: int,
    q: int,
    dr: int,
    dc: int,
)
    requires
        bins_in_grid(bin_ids),
        bins_built(bin_ids, bin_indices, bin_particles),
        0 <= p < bin_ids.len(),
        0 <= q < bin_ids.len(),
        p != q,
        1 <= bin_row(bin_ids[p] as int) <= interior_side(),
        1 <= bin_col(bin_ids[p] as int) <= interior_side(),
        -1 <= dr <= 1,
        -1 <= dc <= 1,
        bin_ids[q] == neighbour_bin(bin_ids[p] as int, dr, dc),
    ensures
        solver_pairs(solver_step_count(), bin_indices, bin_particles).contains((p as u32, q as u32)),
{
    let bp_ = bin_ids[p] as int;
    let bq_ = bin_ids[q] as int;
    let row = bin_row(bp_);
    let col = bin_col(bp_);
    vstd::arithmetic::div_mod::lemma_fundamental_div_mod(bp_, NUM_BINS_WITH_PADDING as int);
    assert(bp_ == bin_index(row, col));
    let i = 900 * (row - 1) + 9 * (col - 1) + 3 * (1 - dr) + (dc + 1);
    lemma_solver_visits_neighbourhood(row, col, dr, dc);
    assert(solver_step(i) == (bp_, bq_));
    assert(0 <= i < solver_step_count());
    lemma_bins_hold_their_particles(bin_ids, bin_indices, bin_particles);
    lemma_member_position(bin_ids, bin_indices, bin_particles, p);
    lemma_member_position(bin_ids, bin_indices, bin_particles, q);
    lemma_step_pairs_exact(solver_step(i), bin_indices, bin_particles);
    let xs = bin_members(bp_, bin_indices, bin_particles);
    let ys = bin_members(bq_, bin_indices, bin_particles);
    let a = bin_slot(bin_ids, p) - bin_indices[bp_];
    let b = bin_slot(bin_ids, q) - bin_indices[bq_];
    let pairs = step_pairs(solver_step(i), bin_indices, bin_particles);
    if dr == 0 && dc == 0 {
        assert(bq_ == bp_);
        assert(a != b);
        let n = xs.len() as int;
        let k = a * (n - 1) + partner_index(a, b);
        assert(0 <= k < n * (n - 1)) by (nonlinear_arith)
            requires 0 <= a < n, 0 <= partner_index(a, b) < n - 1, k == a * (n - 1) + partner_index(a, b);
        assert(pairs[k] == (xs[a], xs[b]));
        lemma_solver_pairs_contains_step(solver_step_count(), i, k, bin_indices, bin_particles);
    } else {
        assert(bq_ != bp_);
        let n = xs.len() as int;
        let m = ys.len() as int;
        let k = a * m + b;
        assert(0 <= k < n * m) by (nonlinear_arith)
            requires 0 <= a < n, 0 <= b < m, k == a * m + b;
        assert(pairs[k] == (xs[a], ys[b]));
        lemma_solver_pairs_contains_step(solver_step_count(), i, k, bin_indices, bin_particles);
    }
}

proof fn lemma_duplicates_of_complete(bin_particles: Seq<u32>, bin: int, index: int, other: int, upto: int)
    requires
        index < other < upto,
        bin_particles[index] == bin_particles[other],
    ensures
        duplicates_of(bin_particles, bin, index, upto).contains((bin as u32, bin_particles[index])),
    decreases upto - index,
{
    let prev = duplicates_of(bin_particles, bin, index, upto - 1);
    let cur = duplicates_of(bin_particles, bin, index, upto);
    if other == upto - 1 {
        assert(cur[cur.len() - 1] == (bin as u32, bin_particles[index]));
    } else {
        lemma_duplicates_of_complete(bin_particles, bin, index, other, upto - 1);
        let t = choose|t: int| 0 <= t < prev.len() && prev[t] == (bin as u32, bin_particles[index]);
        if bin_particles[index] == bin_particles[upto - 1] {
            assert(cur[t] == prev[t]);
        } else {
            assert(cur == prev);
        }
    }
}

proof fn lemma_duplicates_of_sound(bin_particles: Seq<u32>, bin: int, index: int, upto: int, t: int)
    requires
        0 <= t < duplicates_of(bin_particles, bin, index, upto).len(),
    ensures
        duplicates_of(bin_particles, bin, index, upto)[t] == (bin as u32, bin_particles[index]),
        exists|other: int| index < other < upto && #[trigger] bin_particles[other] == bin_particles[index],
    decreases upto - index,
{
    let prev = duplicates_of(bin_particles, bin, index, upto - 1);
    if bin_particles[index] == bin_particles[upto - 1] && t == prev.len() {
        assert(bin_particles[upto - 1] == bin_particles[index]);
    } else {
        lemma_duplicates_of_sound(bin_particles, bin, index, upto - 1, t);
        let other = choose|other: int| index < other < upto - 1 && #[trigger] bin_particles[other] == bin_particles[index];
    }
}

proof fn lemma_duplicates_in_complete(bin_particles: Seq<u32>, bin: int, start: int, upto: int, end: int, index: int, x: (u32, u32))
    requires
        start <= index < upto,
        duplicates_of(bin_particles, bin, index, end).contains(x),
    ensures
        duplicates_in(bin_particles, bin, start, upto, end).contains(x),
    decreases upto - start,
{
    let prev = duplicates_in(bin_particles, bin, start, upto - 1, end);
    let last = duplicates_of(bin_particles, bin, upto - 1, end);
    let cur = duplicates_in(bin_particles, bin, start, upto, end);
    if index == upto - 1 {
        let t = choose|t: int| 0 <= t < last.len() && last[t] == x;
        assert(cur[prev.len() + t] == x);
    } else {
        lemma_duplicates_in_complete(bin_particles, bin, start, upto - 1, end, index, x);
        let t = choose|t: int| 0 <= t < prev.len() && prev[t] == x;
        assert(cur[t] == x);
    }
}

proof fn lemma_duplicates_in_sound(bin_particles: Seq<u32>, bin: int, start: int, upto: int, end: int, t: int)
    requires
        0 <= t < duplicates_in(bin_particles, bin, start, upto, end).len(),
    ensures
        exists|i: int, j: int|
            #![trigger bin_particles[i], bin_particles[j]]
            start <= i < upto && i < j < end && bin_particles[i] == bin_particles[j]
                && duplicates_in(bin_particles, bin, start, upto, end)[t] == (bin as u32, bin_particles[i]),
    decreases upto - start,
{
    let prev = duplicates_in(bin_particles, bin, start, upto - 1, end);
    let last = duplicates_of(bin_particles, bin, upto - 1, end);
    let cur = duplicates_in(bin_particles, bin, start, upto, end);
    if t < prev.len() {
        lemma_duplicates_in_sound(bin_particles, bin, start, upto - 1, end, t);
        let (i, j) = choose|i: int, j: int|
            #![trigger bin_particles[i], bin_particles[j]]
            start <= i < upto - 1 && i < j < end && bin_particles[i] == bin_particles[j]
                && prev[t] == (bin as u32, bin_particles[i]);
        assert(cur[t] == prev[t]);
    } else {
        lemma_duplicates_of_sound(bin_particles, bin, upto - 1, end, t - prev.len());
        let j = choose|other: int| upto - 1 < other < end && #[trigger] bin_particles[other] == bin_particles[upto - 1];
        assert(cur[t] == last[t - prev.len()]);
        assert(start <= upto - 1 < upto && upto - 1 < j < end && bin_particles[upto - 1] == bin_particles[j]);
    }
}

proof fn lemma_check_findings_complete(bin_indices: Seq<u32>, bin_particles: Seq<u32>, count: int, bin: int, x: (u32, u32))
    requires
        0 <= bin < count,
        duplicates_in(bin_particles, bin, bin_indices[bin] as int, bin_indices[bin + 1] as int, bin_indices[bin + 1] as int).contains(x),
    ensures
        check_findings(bin_indices, bin_particles, count).contains(x),
    decreases count,
{
    let prev = check_findings(bin_indices, bin_particles, count - 1);
    let cur = check_findings(bin_indices, bin_particles, count);
    let last = duplicates_in(bin_particles, count - 1, bin_indices[count - 1] as int, bin_indices[count] as int, bin_indices[count] as int);
    if bin == count - 1 {
        let t = choose|t: int| 0 <= t < last.len() && last[t] == x;
        assert(cur[prev.len() + t] == x);
    } else {
        lemma_check_findings_complete(bin_indices, bin_particles, count - 1, bin, x);
        let t = choose|t: int| 0 <= t < prev.len() && prev[t] == x;
        assert(cur[t] == x);
    }
}

proof fn lemma_check_findings_sound(bin_indices: Seq<u32>, bin_particles: Seq<u32>, count: int, t: int)
    requires
        0 <= t < check_findings(bin_indices, bin_particles, count).len(),
    ensures
        exists|bin: int, i: int, j: int|
            #![trigger bin_indices[bin], bin_particles[i], bin_particles[j]]
            0 <= bin < count && bin_indices[bin] <= i < j < bin_indices[bin + 1]
                && bin_particles[i] == bin_particles[j]
                && check_findings(bin_indices, bin_particles, count)[t] == (bin as u32, bin_particles[i]),
    decreases count,
{
    let prev = check_findings(bin_indices, bin_particles, count - 1);
    let cur = check_findings(bin_indices, bin_particles, count);
    let bin = count - 1;
    let start = bin_indices[bin] as int;
    let end = bin_indices[bin + 1] as int;
    if t < prev.len() {
        lemma_check_findings_sound(bin_indices, bin_particles, count - 1, t);
        let (b, i, j) = choose|b: int, i: int, j: int|
            #![trigger bin_indices[b], bin_particles[i], bin_particles[j]]
            0 <= b < count - 1 && bin_indices[b] <= i < j < bin_indices[b + 1]
                && bin_particles[i] == bin_particles[j] && prev[t] == (b as u32, bin_particles[i]);
        assert(cur[t] == prev[t]);
    } else {
        lemma_duplicates_in_sound(bin_particles, bin, start, end, end, t - prev.len());
        let (i, j) = choose|i: int, j: int|
            #![trigger bin_particles[i], bin_particles[j]]
            start <= i < end && i < j < end && bin_particles[i] == bin_particles[j]
                && duplicates_in(bin_particles, bin, start, end, end)[t - prev.len()] == (bin as u32, bin_particles[i]);
        assert(cur[t] == duplicates_in(bin_particles, bin, start, end, end)[t - prev.len()]);
    }
}

/// `finding` is `(bin, particle)` for a particle listed at two positions of
/// the range of `bin`, one of the first `count` bins.
pub open spec fn is_repeat(bin_indices: Seq<u32>, bin_particles: Seq<u32>, count: int, finding: (u32, u32)) -> bool {
    exists|bin: int, i: int, j: int|
        #![trigger bin_indices[bin], bin_particles[i], bin_particles[j]]
        0 <= bin < count && bin_indices[bin] <= i < j < bin_indices[bin + 1]
            && bin_particles[i] == bin_particles[j]
            && finding == (bin as u32, bin_particles[i])
}

/// The duplicate check reports exactly the repeats: a particle listed at two
/// positions of one bin's range gives a finding `(bin, particle)`, and every
/// finding is such a repeat.
pub proof fn lemma_check_reports_exactly_repeats(bin_indices: Seq<u32>, bin_particles: Seq<u32>)
    ensures
        forall|bin: int, i: int, j: int|
            #![trigger bin_indices[bin], bin_particles[i], bin_particles[j]]
            0 <= bin < TOTAL_NUM_BINS_WITH_PADDING && bin_indices[bin] <= i < j < bin_indices[bin + 1]
                && bin_particles[i] == bin_particles[j]
                ==> check_findings(bin_indices, bin_particles, TOTAL_NUM_BINS_WITH_PADDING as int)
                    .contains((bin as u32, bin_particles[i])),
        forall|t: int|
            0 <= t < check_findings(bin_indices, bin_particles, TOTAL_NUM_BINS_WITH_PADDING as int).len()
                ==> is_repeat(bin_indices, bin_particles, TOTAL_NUM_BINS_WITH_PADDING as int,
                    #[trigger] check_findings(bin_indices, bin_particles, TOTAL_NUM_BINS_WITH_PADDING as int)[t]),
{
    let nb = TOTAL_NUM_BINS_WITH_PADDING as int;
    assert forall|bin: int, i: int, j: int|
        #![trigger bin_indices[bin], bin_particles[i], bin_particles[j]]
        0 <= bin < nb && bin_indices[bin] <= i < j < bin_indices[bin + 1]
            && bin_particles[i] == bin_particles[j]
            implies check_findings(bin_indices, bin_particles, nb).contains((bin as u32, bin_particles[i])) by {
        let end = bin_indices[bin + 1] as int;
        lemma_duplicates_of_complete(bin_particles, bin, i, j, end);
        lemma_duplicates_in_complete(bin_particles, bin, bin_indices[bin] as int, end, end, i, (bin as u32, bin_particles[i]));
        lemma_check_findings_complete(bin_indices, bin_particles, nb, bin, (bin as u32, bin_particles[i]));
    }
    assert forall|t: int|
        0 <= t < check_findings(bin_indices, bin_particles, nb).len()
            implies is_repeat(bin_indices, bin_particles, nb, #[trigger] check_findings(bin_indices, bin_particles, nb)[t]) by {
        lemma_check_findings_sound(bin_indices, bin_particles, nb, t);
    }
}

} // verus!
