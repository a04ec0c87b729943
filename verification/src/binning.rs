//! Sorting particles into bins.
//!
//! Every substep each particle is assigned the bin that holds its position.
//! The bins are then laid out as a counting sort: `bin_indices[k]` is where
//! bin `k` starts in `bin_particles`, `bin_indices[k + 1]` where it ends, and
//! the particles of a bin are listed in increasing order of their index.
use vstd::prelude::*;
use crate::grid::{TOTAL_NUM_BINS_WITH_PADDING, TOTAL_NUM_BIN_INDICES};

verus! {

/// Number of particles in `bin_ids` assigned to `bin`.
pub open spec fn bin_count(bin_ids: Seq<usize>, bin: int) -> nat
    decreases bin_ids.len(),
{
    if bin_ids.len() == 0 {
        0
    } else {
        bin_count(bin_ids.drop_last(), bin) + (if bin_ids.last() == bin { 1nat } else { 0nat })
    }
}

/// Number of particles in bins below `bin`: where `bin` starts in the sorted list.
pub open spec fn bin_start(bin_ids: Seq<usize>, bin: int) -> nat
    decreases bin,
{
    if bin <= 0 {
        0
    } else {
        bin_start(bin_ids, bin - 1) + bin_count(bin_ids, bin - 1)
    }
}

/// Number of particles before particle `p` that share its bin.
pub open spec fn rank_in_bin(bin_ids: Seq<usize>, p: int) -> nat {
    bin_count(bin_ids.take(p), bin_ids[p] as int)
}

/// Position of particle `p` in the sorted list.
pub open spec fn bin_slot(bin_ids: Seq<usize>, p: int) -> int {
    (bin_start(bin_ids, bin_ids[p] as int) + rank_in_bin(bin_ids, p)) as int
}

/// Every particle is assigned a bin of the padded grid.
pub open spec fn bins_in_grid(bin_ids: Seq<usize>) -> bool {
    forall|p: int| 0 <= p < bin_ids.len() ==> #[trigger] bin_ids[p] < TOTAL_NUM_BINS_WITH_PADDING
}

/// `bin_indices` and `bin_particles` hold the bins of `bin_ids`: bin starts
/// for every bin and the closing entry, and each particle at its slot.
pub open spec fn bins_built(bin_ids: Seq<usize>, bin_indices: Seq<u32>, bin_particles: Seq<u32>) -> bool {
    &&& bin_indices.len() >= TOTAL_NUM_BIN_INDICES
    &&& bin_particles.len() >= bin_ids.len()
    &&& forall|k: int|
        #![trigger bin_indices[k]]
        0 <= k < TOTAL_NUM_BIN_INDICES ==> bin_indices[k] == bin_start(bin_ids, k)
    &&& forall|p: int|
        #![trigger bin_slot(bin_ids, p)]
        0 <= p < bin_ids.len() ==> bin_particles[bin_slot(bin_ids, p)] == p
}

proof fn lemma_count_take_step(s: Seq<usize>, i: int, bin: int)
    requires
        0 <= i < s.len(),
    ensures
        bin_count(s.take(i + 1), bin) == bin_count(s.take(i), bin) + (if s[i] == bin { 1nat } else { 0nat }),
{
    assert(s.take(i + 1).drop_last() =~= s.take(i));
}

proof fn lemma_count_take_monotone(s: Seq<usize>, i: int, j: int, bin: int)
    requires
        0 <= i <= j <= s.len(),
    ensures
        bin_count(s.take(i), bin) <= bin_count(s.take(j), bin),
        bin_count(s.take(s.len() as int), bin) == bin_count(s, bin),
    decreases j - i,
{
    assert(s.take(s.len() as int) =~= s);
    if i < j {
        lemma_count_take_step(s, j - 1, bin);
        lemma_count_take_monotone(s, i, j - 1, bin);
    }
}

proof fn lemma_rank_strict(s: Seq<usize>, p: int, q: int)
    requires
        0 <= p < q < s.len(),
        s[p] == s[q],
    ensures
        rank_in_bin(s, p) < rank_in_bin(s, q),
{
    lemma_count_take_step(s, p, s[p] as int);
    lemma_count_take_monotone(s, p + 1, q, s[p] as int);
}

proof fn lemma_rank_bound(s: Seq<usize>, p: int)
    requires
        0 <= p < s.len(),
    ensures
        rank_in_bin(s, p) < bin_count(s, s[p] as int),
{
    lemma_count_take_step(s, p, s[p] as int);
    lemma_count_take_monotone(s, p + 1, s.len() as int, s[p] as int);
}

proof fn lemma_start_monotone(s: Seq<usize>, a: int, b: int)
    requires
        0 <= a <= b,
    ensures
        bin_start(s, a) <= bin_start(s, b),
    decreases b - a,
{
    if a < b {
        lemma_start_monotone(s, a, b - 1);
    }
}

proof fn lemma_start_push(s: Seq<usize>, x: usize, bins: int)
    requires
        0 <= bins,
    ensures
        bin_start(s.push(x), bins) == bin_start(s, bins) + (if x < bins { 1nat } else { 0nat }),
    decreases bins,
{
    if bins > 0 {
        lemma_start_push(s, x, bins - 1);
        assert(s.push(x).drop_last() =~= s);
    }
}

proof fn lemma_start_total(s: Seq<usize>)
    requires
        bins_in_grid(s),
    ensures
        bin_start(s, TOTAL_NUM_BINS_WITH_PADDING as int) == s.len(),
    decreases s.len(),
{
    if s.len() == 0 {
        lemma_start_empty(s, TOTAL_NUM_BINS_WITH_PADDING as int);
    } else {
        let t = s.drop_last();
        assert(bins_in_grid(t)) by {
            assert forall|p: int| 0 <= p < t.len() implies #[trigger] t[p] < TOTAL_NUM_BINS_WITH_PADDING by {
                assert(t[p] == s[p]);
            }
        }
        lemma_start_total(t);
        assert(t.push(s.last()) =~= s);
        lemma_start_push(t, s.last(), TOTAL_NUM_BINS_WITH_PADDING as int);
    }
}

proof fn lemma_start_empty(s: Seq<usize>, bins: int)
    requires
        s.len() == 0,
    ensures
        bin_start(s, bins) == 0,
    decreases bins,
{
    if bins > 0 {
        lemma_start_empty(s, bins - 1);
    }
}

/// The slot of a particle lies in the range of its bin.
proof fn lemma_slot_in_bin(s: Seq<usize>, p: int)
    requires
        0 <= p < s.len(),
    ensures
        bin_start(s, s[p] as int) <= bin_slot(s, p) < bin_start(s, s[p] as int + 1),
{
    lemma_rank_bound(s, p);
}

/// Different particles have different slots.
proof fn lemma_slots_distinct(s: Seq<usize>, p: int, q: int)
    requires
        0 <= p < s.len(),
        0 <= q < s.len(),
        p != q,
    ensures
        bin_slot(s, p) != bin_slot(s, q),
{
    lemma_slot_in_bin(s, p);
    lemma_slot_in_bin(s, q);
    if s[p] == s[q] {
        if p < q {
            lemma_rank_strict(s, p, q);
        } else {
            lemma_rank_strict(s, q, p);
        }
    } else if s[p] < s[q] {
        lemma_start_monotone(s, s[p] as int + 1, s[q] as int);
    } else {
        lemma_start_monotone(s, s[q] as int + 1, s[p] as int);
    }
}

/// Adds, for every particle, one to the count of the bin it is assigned.
pub fn count_particles_per_bin(particles_per_bin: &mut [u32], bin_ids: &[usize])
    requires
        forall|p: int| 0 <= p < bin_ids@.len() ==> #[trigger] bin_ids@[p] < old(particles_per_bin)@.len(),
        forall|k: int|
            #![trigger old(particles_per_bin)@[k]]
            0 <= k < old(particles_per_bin)@.len()
                ==> old(particles_per_bin)@[k] + bin_count(bin_ids@, k) <= u32::MAX,
    ensures
        final(particles_per_bin)@.len() == old(particles_per_bin)@.len(),
        forall|k: int|
            #![trigger final(particles_per_bin)@[k]]
            0 <= k < old(particles_per_bin)@.len()
                ==> final(particles_per_bin)@[k] == old(particles_per_bin)@[k] + bin_count(bin_ids@, k),
{
    let ghost start = particles_per_bin@;
    let mut p: usize = 0;
    while p < bin_ids.len()
        invariant
            0 <= p <= bin_ids@.len(),
            particles_per_bin@.len() == start.len(),
            forall|q: int| 0 <= q < bin_ids@.len() ==> #[trigger] bin_ids@[q] < start.len(),
            forall|k: int|
                #![trigger start[k]]
                0 <= k < start.len() ==> start[k] + bin_count(bin_ids@, k) <= u32::MAX,
            forall|k: int|
                #![trigger particles_per_bin@[k]]
                0 <= k < start.len()
                    ==> particles_per_bin@[k] == start[k] + bin_count(bin_ids@.take(p as int), k),
        decreases bin_ids@.len() - p,
    {
        let bin = bin_ids[p];
        proof {
            assert forall|k: int| 0 <= k < start.len() implies
                bin_count(bin_ids@.take(p as int + 1), k)
                    == bin_count(bin_ids@.take(p as int), k) + (if bin_ids@[p as int] == k { 1nat } else { 0nat })
                by {
                lemma_count_take_step(bin_ids@, p as int, k);
            }
            lemma_count_take_monotone(bin_ids@, p as int + 1, bin_ids@.len() as int, bin as int);
            assert(start[bin as int] + bin_count(bin_ids@, bin as int) <= u32::MAX);
        }
        particles_per_bin[bin] = particles_per_bin[bin] + 1;
        p += 1;
    }
    proof {
        assert forall|k: int| 0 <= k < start.len() implies
            bin_count(bin_ids@.take(p as int), k) == bin_count(bin_ids@, k) by {
            lemma_count_take_monotone(bin_ids@, p as int, p as int, k);
        }
    }
}

/// Fills `bin_indices` with the start of every bin (the running sum of
/// `particles_per_bin`, plus a closing entry) and writes each particle index
/// into its bin's range of `bin_particles`, in increasing order within a bin.
pub fn init_bins(
    bin_indices: &mut Vec<u32>,
    bin_particles: &mut [u32],
    particles_per_bin: &[u32],
    bin_ids: &[usize],
)
    requires
        old(bin_indices)@.len() >= TOTAL_NUM_BIN_INDICES,
        particles_per_bin@.len() >= TOTAL_NUM_BINS_WITH_PADDING,
        bins_in_grid(bin_ids@),
        forall|k: int|
            #![trigger particles_per_bin@[k]]
            0 <= k < TOTAL_NUM_BINS_WITH_PADDING ==> particles_per_bin@[k] == bin_count(bin_ids@, k),
        bin_ids@.len() <= old(bin_particles)@.len(),
        bin_ids@.len() <= u32::MAX,
    ensures
        final(bin_indices)@.len() == old(bin_indices)@.len(),
        final(bin_particles)@.len() == old(bin_particles)@.len(),
        bins_built(bin_ids@, final(bin_indices)@, final(bin_particles)@),
        forall|k: int|
            #![trigger final(bin_indices)@[k]]
            TOTAL_NUM_BIN_INDICES <= k < old(bin_indices)@.len() ==> final(bin_indices)@[k] == old(bin_indices)@[k],
        forall|j: int|
            #![trigger final(bin_particles)@[j]]
            bin_ids@.len() <= j < old(bin_particles)@.len() ==> final(bin_particles)@[j] == old(bin_particles)@[j],
{
    let ghost ids = bin_ids@;
    let ghost n = bin_ids@.len() as int;
    let ghost old_indices = bin_indices@;
    let ghost old_particles = bin_particles@;
    proof {
        lemma_start_total(ids);
    }

    // Running sum of the counts: where each bin starts.
    bin_indices[0] = 0;
    let mut i: usize = 1;
    while i < TOTAL_NUM_BIN_INDICES
        invariant
            1 <= i <= TOTAL_NUM_BIN_INDICES,
            bin_indices@.len() == old_indices.len(),
            old_indices.len() >= TOTAL_NUM_BIN_INDICES,
            bin_start(ids, TOTAL_NUM_BINS_WITH_PADDING as int) == n,
            n <= u32::MAX,
            forall|k: int|
                #![trigger particles_per_bin@[k]]
                0 <= k < TOTAL_NUM_BINS_WITH_PADDING ==> particles_per_bin@[k] == bin_count(ids, k),
            particles_per_bin@.len() >= TOTAL_NUM_BINS_WITH_PADDING,
            forall|k: int| #![trigger bin_indices@[k]] 0 <= k < i ==> bin_indices@[k] == bin_start(ids, k),
            forall|k: int| #![trigger bin_indices@[k]] i <= k < old_indices.len() && k > 0 ==> bin_indices@[k] == old_indices[k],
        decreases TOTAL_NUM_BIN_INDICES - i,
    {
        proof {
            lemma_start_monotone(ids, i as int, TOTAL_NUM_BINS_WITH_PADDING as int);
        }
        bin_indices[i] = bin_indices[i - 1] + particles_per_bin[i - 1];
        i += 1;
    }

    // Place the particles, counting up from each bin's start.
    let mut next_slot = bin_indices.clone();
    proof {
        assert(next_slot@ =~= bin_indices@);
    }
    let mut p: usize = 0;
    while p < bin_ids.len()
        invariant
            0 <= p <= n,
            n == bin_ids@.len(),
            ids == bin_ids@,
            bins_in_grid(ids),
            n <= u32::MAX,
            bin_start(ids, TOTAL_NUM_BINS_WITH_PADDING as int) == n,
            bin_particles@.len() == old_particles.len(),
            n <= old_particles.len(),
            next_slot@.len() == old_indices.len(),
            old_indices.len() >= TOTAL_NUM_BIN_INDICES,
            forall|k: int|
                #![trigger next_slot@[k]]
                0 <= k < TOTAL_NUM_BINS_WITH_PADDING
                    ==> next_slot@[k] == bin_start(ids, k) + bin_count(ids.take(p as int), k),
            forall|q: int|
                #![trigger bin_slot(ids, q)]
                0 <= q < p ==> bin_particles@[bin_slot(ids, q)] == q,
            forall|j: int|
                #![trigger bin_particles@[j]]
                n <= j < old_particles.len() ==> bin_particles@[j] == old_particles[j],
        decreases n - p,
    {
        let bin = bin_ids[p];
        let ghost b = bin as int;
        proof {
            lemma_slot_in_bin(ids, p as int);
            lemma_start_monotone(ids, b + 1, TOTAL_NUM_BINS_WITH_PADDING as int);
            assert(next_slot@[b] == bin_slot(ids, p as int));
            assert forall|k: int| 0 <= k < TOTAL_NUM_BINS_WITH_PADDING implies
                bin_count(ids.take(p as int + 1), k)
                    == bin_count(ids.take(p as int), k) + (if ids[p as int] == k { 1nat } else { 0nat })
                by {
                lemma_count_take_step(ids, p as int, k);
            }
        }
        let slot = next_slot[bin] as usize;
        next_slot[bin] = next_slot[bin] + 1;
        bin_particles[slot] = p as u32;
        proof {
            assert forall|q: int|
                #![trigger bin_slot(ids, q)]
                0 <= q < p + 1 implies bin_particles@[bin_slot(ids, q)] == q by {
                if q < p {
                    lemma_slots_distinct(ids, q, p as int);
                    lemma_slot_in_bin(ids, q);
                    lemma_start_monotone(ids, ids[q] as int + 1, TOTAL_NUM_BINS_WITH_PADDING as int);
                }
            }
        }
        p += 1;
    }
}

/// Counts the particles of each bin and lays the bins out (see `init_bins`).
pub fn create_bin(bin_indices: &mut Vec<u32>, bin_particles: &mut Vec<u32>, bin_ids: &[usize])
    requires
        old(bin_indices)@.len() >= TOTAL_NUM_BIN_INDICES,
        bins_in_grid(bin_ids@),
        bin_ids@.len() <= old(bin_particles)@.len(),
        bin_ids@.len() <= u32::MAX,
    ensures
        final(bin_indices)@.len() == old(bin_indices)@.len(),
        final(bin_particles)@.len() == old(bin_particles)@.len(),
        bins_built(bin_ids@, final(bin_indices)@, final(bin_particles)@),
        forall|k: int|
            #![trigger final(bin_indices)@[k]]
            TOTAL_NUM_BIN_INDICES <= k < old(bin_indices)@.len() ==> final(bin_indices)@[k] == old(bin_indices)@[k],
        forall|j: int|
            #![trigger final(bin_particles)@[j]]
            bin_ids@.len() <= j < old(bin_particles)@.len() ==> final(bin_particles)@[j] == old(bin_particles)@[j],
{
    let mut particles_per_bin: Vec<u32> = vec![0; TOTAL_NUM_BINS_WITH_PADDING];
    proof {
        assert forall|k: int| 0 <= k < TOTAL_NUM_BINS_WITH_PADDING implies
            #[trigger] particles_per_bin@[k] + bin_count(bin_ids@, k) <= u32::MAX by {
            lemma_count_take_monotone(bin_ids@, bin_ids@.len() as int, bin_ids@.len() as int, k);
            lemma_count_bound(bin_ids@, k);
        }
    }
    count_particles_per_bin(particles_per_bin.as_mut_slice(), bin_ids);
    init_bins(bin_indices, bin_particles.as_mut_slice(), particles_per_bin.as_slice(), bin_ids);
}

proof fn lemma_count_bound(s: Seq<usize>, bin: int)
    ensures
        bin_count(s, bin) <= s.len(),
    decreases s.len(),
{
    if s.len() > 0 {
        lemma_count_bound(s.drop_last(), bin);
    }
}

proof fn lemma_rank_witness(s: Seq<usize>, bin: int, r: int) -> (p: int)
    requires
        0 <= r < bin_count(s, bin),
    ensures
        0 <= p < s.len(),
        s[p] == bin,
        rank_in_bin(s, p) == r,
    decreases s.len(),
{
    let t = s.drop_last();
    if r < bin_count(t, bin) {
        let p = lemma_rank_witness(t, bin, r);
        assert(s.take(p) =~= t.take(p));
        p
    } else {
        let p = s.len() - 1;
        assert(s.take(p) =~= t);
        p
    }
}

proof fn lemma_find_bin(s: Seq<usize>, j: int, bins: int) -> (k: int)
    requires
        0 <= j < bin_start(s, bins),
    ensures
        0 <= k < bins,
        bin_start(s, k) <= j < bin_start(s, k + 1),
    decreases bins,
{
    if j >= bin_start(s, bins - 1) {
        bins - 1
    } else {
        lemma_find_bin(s, j, bins - 1)
    }
}

/// Every one of the first `bin_ids.len()` slots holds a particle, and that
/// particle's slot is this one.
proof fn lemma_slot_inverse(bin_ids: Seq<usize>, bin_indices: Seq<u32>, bin_particles: Seq<u32>, j: int)
    requires
        bins_in_grid(bin_ids),
        bins_built(bin_ids, bin_indices, bin_particles),
        0 <= j < bin_ids.len(),
    ensures
        bin_particles[j] < bin_ids.len(),
        bin_slot(bin_ids, bin_particles[j] as int) == j,
{
    lemma_start_total(bin_ids);
    let k = lemma_find_bin(bin_ids, j, TOTAL_NUM_BINS_WITH_PADDING as int);
    let p = lemma_rank_witness(bin_ids, k, j - bin_start(bin_ids, k));
    assert(bin_slot(bin_ids, p) == j);
}

/// What the bins hold once built: bin `k` occupies
/// `bin_indices[k]..bin_indices[k + 1]` of `bin_particles`, a range as long as
/// the number of particles assigned to `k`; it lists exactly those particles,
/// in increasing order; the ranges follow one another from 0 to the number of
/// particles; and no particle is listed twice.
pub proof fn lemma_bins_hold_their_particles(
    bin_ids: Seq<usize>,
    bin_indices: Seq<u32>,
    bin_particles: Seq<u32>,
)
    requires
        bins_in_grid(bin_ids),
        bins_built(bin_ids, bin_indices, bin_particles),
    ensures
        bin_indices[0] == 0,
        bin_indices[TOTAL_NUM_BINS_WITH_PADDING as int] == bin_ids.len(),
        forall|k: int|
            #![trigger bin_indices[k]]
            0 <= k <= TOTAL_NUM_BINS_WITH_PADDING ==> bin_indices[k] <= bin_ids.len(),
        forall|k: int|
            #![trigger bin_indices[k + 1]]
            0 <= k < TOTAL_NUM_BINS_WITH_PADDING
                ==> bin_indices[k + 1] == bin_indices[k] + bin_count(bin_ids, k),
        forall|k: int, j: int|
            #![trigger bin_indices[k], bin_particles[j]]
            0 <= k < TOTAL_NUM_BINS_WITH_PADDING && bin_indices[k] <= j < bin_indices[k + 1] ==> {
                &&& bin_particles[j] < bin_ids.len()
                &&& bin_ids[bin_particles[j] as int] == k
            },
        forall|k: int, j1: int, j2: int|
            #![trigger bin_indices[k], bin_particles[j1], bin_particles[j2]]
            0 <= k < TOTAL_NUM_BINS_WITH_PADDING && bin_indices[k] <= j1 < j2 < bin_indices[k + 1]
                ==> bin_particles[j1] < bin_particles[j2],
        forall|p: int|
            #![trigger bin_slot(bin_ids, p)]
            0 <= p < bin_ids.len() ==> {
                &&& bin_indices[bin_ids[p] as int] <= bin_slot(bin_ids, p) < bin_indices[bin_ids[p] + 1]
                &&& bin_particles[bin_slot(bin_ids, p)] == p
            },
        forall|j1: int, j2: int|
            #![trigger bin_particles[j1], bin_particles[j2]]
            0 <= j1 < bin_ids.len() && 0 <= j2 < bin_ids.len() && bin_particles[j1] == bin_particles[j2]
                ==> j1 == j2,
{
    lemma_start_total(bin_ids);
    assert(bin_indices[0] == bin_start(bin_ids, 0));
    assert(bin_indices[TOTAL_NUM_BINS_WITH_PADDING as int] == bin_start(bin_ids, TOTAL_NUM_BINS_WITH_PADDING as int));
    assert forall|k: int|
        #![trigger bin_indices[k]]
        0 <= k <= TOTAL_NUM_BINS_WITH_PADDING implies bin_indices[k] <= bin_ids.len() by {
        lemma_start_monotone(bin_ids, k, TOTAL_NUM_BINS_WITH_PADDING as int);
    }
    assert forall|k: int|
        #![trigger bin_indices[k + 1]]
        0 <= k < TOTAL_NUM_BINS_WITH_PADDING
            implies bin_indices[k + 1] == bin_indices[k] + bin_count(bin_ids, k) by {
        assert(bin_indices[k] == bin_start(bin_ids, k));
        assert(bin_indices[k + 1] == bin_start(bin_ids, k + 1));
    }
    assert forall|k: int, j: int|
        #![trigger bin_indices[k], bin_particles[j]]
        0 <= k < TOTAL_NUM_BINS_WITH_PADDING && bin_indices[k] <= j < bin_indices[k + 1] implies {
            &&& bin_particles[j] < bin_ids.len()
            &&& bin_ids[bin_particles[j] as int] == k
        } by {
        assert(bin_indices[k] == bin_start(bin_ids, k));
        assert(bin_indices[k + 1] == bin_start(bin_ids, k + 1));
        let p = lemma_rank_witness(bin_ids, k, j - bin_start(bin_ids, k));
        assert(bin_slot(bin_ids, p) == j);
    }
    assert forall|k: int, j1: int, j2: int|
        #![trigger bin_indices[k], bin_particles[j1], bin_particles[j2]]
        0 <= k < TOTAL_NUM_BINS_WITH_PADDING && bin_indices[k] <= j1 < j2 < bin_indices[k + 1]
            implies bin_particles[j1] < bin_particles[j2] by {
        assert(bin_indices[k] == bin_start(bin_ids, k));
        assert(bin_indices[k + 1] == bin_start(bin_ids, k + 1));
        let p1 = lemma_rank_witness(bin_ids, k, j1 - bin_start(bin_ids, k));
        let p2 = lemma_rank_witness(bin_ids, k, j2 - bin_start(bin_ids, k));
        assert(bin_slot(bin_ids, p1) == j1);
        assert(bin_slot(bin_ids, p2) == j2);
        if p2 < p1 {
            lemma_rank_strict(bin_ids, p2, p1);
        }
    }
    assert forall|p: int|
        #![trigger bin_slot(bin_ids, p)]
        0 <= p < bin_ids.len() implies {
            &&& bin_indices[bin_ids[p] as int] <= bin_slot(bin_ids, p) < bin_indices[bin_ids[p] + 1]
            &&& bin_particles[bin_slot(bin_ids, p)] == p
        } by {
        lemma_slot_in_bin(bin_ids, p);
        assert(bin_indices[bin_ids[p] as int] == bin_start(bin_ids, bin_ids[p] as int));
        assert(bin_indices[bin_ids[p] + 1] == bin_start(bin_ids, bin_ids[p] + 1));
    }
    assert forall|j1: int, j2: int|
        #![trigger bin_particles[j1], bin_particles[j2]]
        0 <= j1 < bin_ids.len() && 0 <= j2 < bin_ids.len() && bin_particles[j1] == bin_particles[j2]
            implies j1 == j2 by {
        lemma_slot_inverse(bin_ids, bin_indices, bin_particles, j1);
        lemma_slot_inverse(bin_ids, bin_indices, bin_particles, j2);
    }
}

} // verus!
