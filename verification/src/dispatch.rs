//! The nine collision dispatches.
//!
//! Interior bins are split into nine groups by the remainder of their row and
//! column modulo three.  Two bins of one group are at least three rows or
//! three columns apart, so their 3x3 neighbourhoods never overlap and the
//! bins of one group can be processed in parallel.
use vstd::prelude::*;
use crate::grid::{THREADS_PER_GROUP, bin_index, bin_row, bin_col, get_bin_index, lemma_bin_index_decode, NUM_BINS_WITH_PADDING};

verus! {

/// Rows and columns of the padded grid below this bound are walked by a dispatch.
pub open spec fn dispatch_limit() -> int {
    NUM_BINS_WITH_PADDING - 1
}

/// Bins `(row, col)`, `(row, col + 3)`, ... of one row, for columns below the limit.
pub open spec fn row_cells(row: int, col: int) -> Seq<u32>
    decreases dispatch_limit() + 3 - col,
{
    if col >= dispatch_limit() {
        Seq::empty()
    } else {
        seq![bin_index(row, col) as u32] + row_cells(row, col + 3)
    }
}

/// Rows `row`, `row + 3`, ... below the limit, each walked from column `col_offset`.
pub open spec fn dispatch_rows(row: int, col_offset: int) -> Seq<u32>
    decreases dispatch_limit() + 3 - row,
{
    if row >= dispatch_limit() {
        Seq::empty()
    } else {
        row_cells(row, col_offset) + dispatch_rows(row + 3, col_offset)
    }
}

/// Bins `(row, col)`, `(row + 3, col)`, ... of one column, for rows below the limit.
pub open spec fn column_cells(row: int, col: int) -> Seq<u32>
    decreases dispatch_limit() + 3 - row,
{
    if row >= dispatch_limit() {
        Seq::empty()
    } else {
        seq![bin_index(row, col) as u32] + column_cells(row + 3, col)
    }
}

/// The bins that `create_dispatch(row_offset, col_offset)` lists.
///
/// With a column offset inside the grid this is every third column of every
/// third row, row by row.  With a column offset at or past the limit no row
/// has a column to walk; each row after the first then still lists its
/// offset column once.
pub open spec fn dispatch_cells(row_offset: int, col_offset: int) -> Seq<u32> {
    if col_offset < dispatch_limit() {
        dispatch_rows(row_offset, col_offset)
    } else {
        column_cells(row_offset + 3, col_offset)
    }
}

/// The inputs on which `create_dispatch` stays within `u32`.
pub open spec fn dispatch_fits(row_offset: int, col_offset: int) -> bool {
    col_offset < dispatch_limit() || (
        row_offset + 3 <= u32::MAX
        && (row_offset + 3 < dispatch_limit() ==> col_offset + 3 <= u32::MAX)
        && forall|row: int|
            #![trigger bin_index(row, col_offset)]
            row_offset < row < dispatch_limit() && (row - row_offset) % 3 == 0
                ==> bin_index(row, col_offset) <= u32::MAX
    )
}

/// What is left to list when the walk stands at `row`, `col`.
pub open spec fn dispatch_pending(row: int, col: int, col_offset: int) -> Seq<u32> {
    if col_offset >= dispatch_limit() {
        column_cells(row + 3, col_offset)
    } else if row >= dispatch_limit() {
        Seq::empty()
    } else {
        row_cells(row, col) + dispatch_rows(row + 3, col_offset)
    }
}

/// Bins of the dispatch that starts at `row_offset`, `col_offset`: every third
/// row and every third column, row by row.
pub fn create_dispatch(row_offset: u32, col_offset: u32) -> (dispatch: Vec<u32>)
    requires
        dispatch_fits(row_offset as int, col_offset as int),
    ensures
        dispatch@ == dispatch_cells(row_offset as int, col_offset as int),
{
    let mut dispatch: Vec<u32> = Vec::new();
    let mut col = col_offset;
    let mut row = row_offset;
    loop
        invariant_except_break
            dispatch_fits(row_offset as int, col_offset as int),
            col_offset < dispatch_limit() ==> (row < dispatch_limit() || (row == row_offset && col == col_offset)),
            col_offset < dispatch_limit() ==> col <= dispatch_limit() + 2,
            col_offset >= dispatch_limit() ==> col == col_offset || col == col_offset + 3,
            col_offset >= dispatch_limit() ==> row == row_offset || (row < dispatch_limit() && (row - row_offset) % 3 == 0 && row > row_offset),
            dispatch@ + dispatch_pending(row as int, col as int, col_offset as int)
                == dispatch_cells(row_offset as int, col_offset as int),
        ensures
            dispatch@ == dispatch_cells(row_offset as int, col_offset as int),
        decreases dispatch_limit() + 4 - row, dispatch_limit() + 4 - col,
    {
        if col >= NUM_BINS_WITH_PADDING - 1 {
            if col_offset < NUM_BINS_WITH_PADDING - 1 {
                assert(row_cells(row as int, col as int) =~= Seq::empty());
            }
            row += 3;
            col = col_offset;
        }
        if row >= NUM_BINS_WITH_PADDING - 1 {
            assert(dispatch@ =~= dispatch_cells(row_offset as int, col_offset as int));
            break;
        }
        assert(bin_index(row as int, col as int) <= u32::MAX);
        let bin = get_bin_index(row, col);
        proof {
            if col_offset < dispatch_limit() {
                assert(row_cells(row as int, col as int) =~= seq![bin] + row_cells(row as int, col + 3));
                assert(dispatch@.push(bin) + dispatch_pending(row as int, col + 3, col_offset as int)
                    =~= dispatch@ + dispatch_pending(row as int, col as int, col_offset as int));
            } else {
                assert(column_cells(row as int, col as int) =~= seq![bin] + column_cells(row + 3, col as int));
                assert(dispatch@.push(bin) + column_cells(row + 3, col_offset as int)
                    =~= dispatch@ + column_cells(row as int, col_offset as int));
            }
        }
        dispatch.push(bin);
        col += 3;
    }
    dispatch
}

/// Bin `(row, col)` lies on the lattice that starts at `row_offset`, `col_offset`
/// and steps by three, inside the walked part of the grid.
pub open spec fn on_dispatch_lattice(row: int, col: int, row_offset: int, col_offset: int) -> bool {
    &&& row_offset <= row < dispatch_limit()
    &&& (row - row_offset) % 3 == 0
    &&& col_offset <= col < dispatch_limit()
    &&& (col - col_offset) % 3 == 0
}

proof fn lemma_row_cells(row: int, col: int)
    requires
        0 <= row < dispatch_limit(),
        0 <= col,
    ensures
        forall|i: int|
            #![trigger row_cells(row, col)[i]]
            0 <= i < row_cells(row, col).len() ==> {
                let b = row_cells(row, col)[i] as int;
                &&& bin_index(row, 0) <= b < bin_index(row, dispatch_limit())
                &&& bin_row(b) == row
                &&& col <= bin_col(b) < dispatch_limit()
                &&& (bin_col(b) - col) % 3 == 0
                &&& b == bin_index(bin_row(b), bin_col(b))
            },
        forall|i: int, j: int|
            0 <= i < j < row_cells(row, col).len() ==> row_cells(row, col)[i] < row_cells(row, col)[j],
        forall|c: int|
            #![trigger bin_index(row, c)]
            col <= c < dispatch_limit() && (c - col) % 3 == 0
                ==> row_cells(row, col).contains(bin_index(row, c) as u32),
    decreases dispatch_limit() + 3 - col,
{
    if col < dispatch_limit() {
        lemma_row_cells(row, col + 3);
        lemma_bin_index_decode(row, col);
        let s = row_cells(row, col);
        let rest = row_cells(row, col + 3);
        assert(s == seq![bin_index(row, col) as u32] + rest);
        assert forall|i: int| 0 < i < s.len() implies s[i] == rest[i - 1] by {}
        assert forall|c: int|
            #![trigger bin_index(row, c)]
            col <= c < dispatch_limit() && (c - col) % 3 == 0
                implies s.contains(bin_index(row, c) as u32) by {
            if c == col {
                assert(s[0] == bin_index(row, c) as u32);
            } else {
                assert(rest.contains(bin_index(row, c) as u32));
                let k = choose|k: int| 0 <= k < rest.len() && rest[k] == bin_index(row, c) as u32;
                assert(s[k + 1] == bin_index(row, c) as u32);
            }
        }
    }
}

proof fn lemma_dispatch_rows(row: int, col_offset: int)
    requires
        0 <= row,
        0 <= col_offset < dispatch_limit(),
    ensures
        forall|i: int|
            #![trigger dispatch_rows(row, col_offset)[i]]
            0 <= i < dispatch_rows(row, col_offset).len() ==> {
                let b = dispatch_rows(row, col_offset)[i] as int;
                &&& bin_index(row, 0) <= b
                &&& on_dispatch_lattice(bin_row(b), bin_col(b), row, col_offset)
                &&& b == bin_index(bin_row(b), bin_col(b))
            },
        forall|i: int, j: int|
            0 <= i < j < dispatch_rows(row, col_offset).len()
                ==> dispatch_rows(row, col_offset)[i] < dispatch_rows(row, col_offset)[j],
        forall|r: int, c: int|
            #![trigger bin_index(r, c)]
            on_dispatch_lattice(r, c, row, col_offset)
                ==> dispatch_rows(row, col_offset).contains(bin_index(r, c) as u32),
    decreases dispatch_limit() + 3 - row,
{
    if row < dispatch_limit() {
        lemma_row_cells(row, col_offset);
        lemma_dispatch_rows(row + 3, col_offset);
        let a = row_cells(row, col_offset);
        let rest = dispatch_rows(row + 3, col_offset);
        let s = dispatch_rows(row, col_offset);
        assert(s == a + rest);
        assert forall|i: int| 0 <= i < s.len() implies
            (i < a.len() ==> s[i] == a[i]) && (i >= a.len() ==> s[i] == rest[i - a.len()]) by {}
        assert forall|i: int, j: int| 0 <= i < j < s.len() implies s[i] < s[j] by {
            if j < a.len() {
            } else if i >= a.len() {
                assert(rest[i - a.len()] < rest[j - a.len()]);
            } else {
                assert(a[i] < bin_index(row, dispatch_limit()));
                assert(bin_index(row + 3, 0) <= rest[j - a.len()]);
            }
        }
        assert forall|i: int|
            #![trigger s[i]]
            0 <= i < s.len() implies {
                let b = s[i] as int;
                &&& bin_index(row, 0) <= b
                &&& on_dispatch_lattice(bin_row(b), bin_col(b), row, col_offset)
                &&& b == bin_index(bin_row(b), bin_col(b))
            } by {
            if i < a.len() {
                assert(a[i] == s[i]);
            } else {
                assert(rest[i - a.len()] == s[i]);
            }
        }
        assert forall|r: int, c: int|
            #![trigger bin_index(r, c)]
            on_dispatch_lattice(r, c, row, col_offset)
                implies s.contains(bin_index(r, c) as u32) by {
            if r == row {
                assert(a.contains(bin_index(r, c) as u32));
                let k = choose|k: int| 0 <= k < a.len() && a[k] == bin_index(r, c) as u32;
                assert(s[k] == bin_index(r, c) as u32);
            } else {
                assert(on_dispatch_lattice(r, c, row + 3, col_offset));
                assert(rest.contains(bin_index(r, c) as u32));
                let k = choose|k: int| 0 <= k < rest.len() && rest[k] == bin_index(r, c) as u32;
                assert(s[k + a.len()] == bin_index(r, c) as u32);
            }
        }
    }
}

/// The dispatch at `row_offset`, `col_offset` (each in 1..=3) is the lattice
/// of every third row and column from the offsets, listed in increasing order,
/// so no bin is listed twice.
pub proof fn lemma_dispatch_is_lattice(row_offset: int, col_offset: int)
    requires
        1 <= row_offset <= 3,
        1 <= col_offset <= 3,
    ensures
        forall|i: int|
            #![trigger dispatch_cells(row_offset, col_offset)[i]]
            0 <= i < dispatch_cells(row_offset, col_offset).len() ==> {
                let b = dispatch_cells(row_offset, col_offset)[i] as int;
                &&& on_dispatch_lattice(bin_row(b), bin_col(b), row_offset, col_offset)
                &&& b == bin_index(bin_row(b), bin_col(b))
            },
        forall|r: int, c: int|
            #![trigger bin_index(r, c)]
            on_dispatch_lattice(r, c, row_offset, col_offset)
                ==> dispatch_cells(row_offset, col_offset).contains(bin_index(r, c) as u32),
        forall|i: int, j: int|
            0 <= i < j < dispatch_cells(row_offset, col_offset).len()
                ==> dispatch_cells(row_offset, col_offset)[i] < dispatch_cells(row_offset, col_offset)[j],
{
    lemma_dispatch_rows(row_offset, col_offset);
}

/// The bin `dr` rows and `dc` columns away from `bin`.
pub open spec fn neighbour_bin(bin: int, dr: int, dc: int) -> int {
    bin_index(bin_row(bin) + dr, bin_col(bin) + dc)
}

/// The offset, in 1..=3, of the dispatch that holds row or column `x`.
pub open spec fn lattice_offset(x: int) -> int {
    (x - 1) % 3 + 1
}

/// Every interior bin (rows and columns 1..=100) lies in exactly one of the
/// nine dispatches with offsets in 1..=3: the one whose offsets are its row
/// and column taken modulo three.
pub proof fn lemma_dispatches_partition_interior(row: int, col: int)
    requires
        1 <= row < dispatch_limit(),
        1 <= col < dispatch_limit(),
    ensures
        forall|row_offset: int, col_offset: int|
            1 <= row_offset <= 3 && 1 <= col_offset <= 3 ==> (
                #[trigger] dispatch_cells(row_offset, col_offset).contains(bin_index(row, col) as u32)
                    <==> (row_offset == lattice_offset(row) && col_offset == lattice_offset(col))),
{
    lemma_bin_index_decode(row, col);
    assert forall|row_offset: int, col_offset: int|
        1 <= row_offset <= 3 && 1 <= col_offset <= 3 implies (
            #[trigger] dispatch_cells(row_offset, col_offset).contains(bin_index(row, col) as u32)
                <==> (row_offset == lattice_offset(row) && col_offset == lattice_offset(col))) by {
        lemma_dispatch_is_lattice(row_offset, col_offset);
        let d = dispatch_cells(row_offset, col_offset);
        if d.contains(bin_index(row, col) as u32) {
            let k = choose|k: int| 0 <= k < d.len() && d[k] == bin_index(row, col) as u32;
            assert(on_dispatch_lattice(bin_row(d[k] as int), bin_col(d[k] as int), row_offset, col_offset));
        }
        if row_offset == lattice_offset(row) && col_offset == lattice_offset(col) {
            assert(on_dispatch_lattice(row, col, row_offset, col_offset));
        }
    }
}

/// Two different bins of one dispatch are three or more rows or columns
/// apart, so their 3x3 neighbourhoods share no bin: the bins of a dispatch can
/// be collided against their neighbours in parallel.
pub proof fn lemma_dispatch_bins_independent(row_offset: int, col_offset: int)
    requires
        1 <= row_offset <= 3,
        1 <= col_offset <= 3,
    ensures
        forall|i: int, j: int|
            #![trigger dispatch_cells(row_offset, col_offset)[i], dispatch_cells(row_offset, col_offset)[j]]
            0 <= i < dispatch_cells(row_offset, col_offset).len()
            && 0 <= j < dispatch_cells(row_offset, col_offset).len() && i != j ==> {
                let bi = dispatch_cells(row_offset, col_offset)[i] as int;
                let bj = dispatch_cells(row_offset, col_offset)[j] as int;
                &&& bi != bj
                &&& (bin_row(bi) - bin_row(bj) >= 3 || bin_row(bj) - bin_row(bi) >= 3
                    || bin_col(bi) - bin_col(bj) >= 3 || bin_col(bj) - bin_col(bi) >= 3)
                &&& forall|dr1: int, dc1: int, dr2: int, dc2: int|
                    -1 <= dr1 <= 1 && -1 <= dc1 <= 1 && -1 <= dr2 <= 1 && -1 <= dc2 <= 1 ==>
                        #[trigger] neighbour_bin(bi, dr1, dc1) != #[trigger] neighbour_bin(bj, dr2, dc2)
            },
{
    lemma_dispatch_is_lattice(row_offset, col_offset);
    let d = dispatch_cells(row_offset, col_offset);
    assert forall|i: int, j: int|
        #![trigger d[i], d[j]]
        0 <= i < d.len() && 0 <= j < d.len() && i != j implies {
            let bi = d[i] as int;
            let bj = d[j] as int;
            &&& bi != bj
            &&& (bin_row(bi) - bin_row(bj) >= 3 || bin_row(bj) - bin_row(bi) >= 3
                || bin_col(bi) - bin_col(bj) >= 3 || bin_col(bj) - bin_col(bi) >= 3)
            &&& forall|dr1: int, dc1: int, dr2: int, dc2: int|
                -1 <= dr1 <= 1 && -1 <= dc1 <= 1 && -1 <= dr2 <= 1 && -1 <= dc2 <= 1 ==>
                    #[trigger] neighbour_bin(bi, dr1, dc1) != #[trigger] neighbour_bin(bj, dr2, dc2)
        } by {
        let bi = d[i] as int;
        let bj = d[j] as int;
        if i < j {
            assert(d[i] < d[j]);
        } else {
            assert(d[j] < d[i]);
        }
        let (ri, ci, rj, cj) = (bin_row(bi), bin_col(bi), bin_row(bj), bin_col(bj));
        assert(on_dispatch_lattice(ri, ci, row_offset, col_offset));
        assert(on_dispatch_lattice(rj, cj, row_offset, col_offset));
        assert forall|dr1: int, dc1: int, dr2: int, dc2: int|
            -1 <= dr1 <= 1 && -1 <= dc1 <= 1 && -1 <= dr2 <= 1 && -1 <= dc2 <= 1 implies
                #[trigger] neighbour_bin(bi, dr1, dc1) != #[trigger] neighbour_bin(bj, dr2, dc2) by {
            if bin_index(ri + dr1, ci + dc1) == bin_index(rj + dr2, cj + dc2) {
                lemma_bin_index_decode(ri + dr1, ci + dc1);
                lemma_bin_index_decode(rj + dr2, cj + dc2);
            }
        }
    }
}

/// The nine dispatches, in order of row offset and then column offset, each
/// offset in 1..=3.
pub fn create_dispatches() -> (dispatches: [Vec<u32>; 9])
    ensures
        forall|k: int|
            #![trigger dispatches@[k]]
            0 <= k < 9 ==> dispatches@[k]@ == dispatch_cells(k / 3 + 1, k % 3 + 1),
{
    let dispatches = [
        create_dispatch(1, 1),
        create_dispatch(1, 2),
        create_dispatch(1, 3),
        create_dispatch(2, 1),
        create_dispatch(2, 2),
        create_dispatch(2, 3),
        create_dispatch(3, 1),
        create_dispatch(3, 2),
        create_dispatch(3, 3),
    ];
    dispatches
}

/// Total length of the first `count` dispatches.
pub open spec fn lengths_before(dispatches: Seq<Vec<u32>>, count: int) -> int
    decreases count,
{
    if count <= 0 {
        0
    } else {
        lengths_before(dispatches, count - 1) + dispatches[count - 1]@.len()
    }
}

/// Sum of the lengths of the first `count` dispatches, each length taken as a
/// `u32` (as the metadata records it).
pub open spec fn offsets_before(dispatches: Seq<Vec<u32>>, count: int) -> int
    decreases count,
{
    if count <= 0 {
        0
    } else {
        offsets_before(dispatches, count - 1) + (dispatches[count - 1]@.len() as u32) as int
    }
}

proof fn lemma_offsets_before_monotone(dispatches: Seq<Vec<u32>>, i: int, j: int)
    requires
        0 <= i <= j,
    ensures
        offsets_before(dispatches, i) <= offsets_before(dispatches, j),
    decreases j - i,
{
    if i < j {
        lemma_offsets_before_monotone(dispatches, i, j - 1);
    }
}

/// The first `count` dispatches, one after another.
pub open spec fn concat_before(dispatches: Seq<Vec<u32>>, count: int) -> Seq<u32>
    decreases count,
{
    if count <= 0 {
        Seq::empty()
    } else {
        concat_before(dispatches, count - 1) + dispatches[count - 1]@
    }
}

proof fn lemma_lengths_before_monotone(dispatches: Seq<Vec<u32>>, i: int, j: int)
    requires
        0 <= i <= j,
    ensures
        lengths_before(dispatches, i) <= lengths_before(dispatches, j),
    decreases j - i,
{
    if i < j {
        lemma_lengths_before_monotone(dispatches, i, j - 1);
    }
}

/// For each dispatch, its offset in the concatenated dispatch list and its length.
pub fn create_dispatch_metadata(dispatches: &[Vec<u32>; 9]) -> (metadata: [(u32, u32); 9])
    requires
        offsets_before(dispatches@, 9) <= u32::MAX,
    ensures
        forall|i: int|
            #![trigger metadata@[i]]
            0 <= i < 9 ==> metadata@[i] == (
                offsets_before(dispatches@, i) as u32,
                dispatches@[i]@.len() as u32,
            ),
{
    let mut metadata = [(0u32, 0u32); 9];
    let mut current_offset = 0u32;
    let mut i: usize = 0;
    while i < 9
        invariant
            0 <= i <= 9,
            offsets_before(dispatches@, 9) <= u32::MAX,
            current_offset == offsets_before(dispatches@, i as int),
            forall|k: int|
                #![trigger metadata@[k]]
                0 <= k < i ==> metadata@[k] == (
                    offsets_before(dispatches@, k) as u32,
                    dispatches@[k]@.len() as u32,
                ),
        decreases 9 - i,
    {
        proof {
            lemma_offsets_before_monotone(dispatches@, i as int + 1, 9);
        }
        let length = dispatches[i].len() as u32;
        metadata[i] = (current_offset, length);
        current_offset += length;
        i += 1;
    }
    metadata
}

/// All dispatches, one after another, as uploaded to the device.
pub fn concat_dispatches(dispatches: &[Vec<u32>; 9]) -> (flat: Vec<u32>)
    ensures
        flat@ == concat_before(dispatches@, 9),
{
    let mut flat: Vec<u32> = Vec::new();
    let mut i: usize = 0;
    while i < 9
        invariant
            0 <= i <= 9,
            flat@ == concat_before(dispatches@, i as int),
        decreases 9 - i,
    {
        let dispatch = &dispatches[i];
        let mut j: usize = 0;
        while j < dispatch.len()
            invariant
                0 <= i < 9,
                *dispatch == dispatches@[i as int],
                0 <= j <= dispatch@.len(),
                flat@ == concat_before(dispatches@, i as int) + dispatch@.take(j as int),
            decreases dispatch@.len() - j,
        {
            proof {
                assert(dispatch@.take(j as int + 1) == dispatch@.take(j as int).push(dispatch@[j as int]));
            }
            flat.push(dispatch[j]);
            j += 1;
        }
        proof {
            assert(dispatch@.take(dispatch@.len() as int) == dispatch@);
        }
        i += 1;
    }
    flat
}

proof fn lemma_concat_before_prefix(dispatches: Seq<Vec<u32>>, i: int, j: int)
    requires
        0 <= i < j <= dispatches.len(),
    ensures
        concat_before(dispatches, j).len() == lengths_before(dispatches, j),
        concat_before(dispatches, j).subrange(
            lengths_before(dispatches, i),
            lengths_before(dispatches, i) + dispatches[i]@.len(),
        ) == dispatches[i]@,
    decreases j - i,
{
    lemma_concat_len(dispatches, j);
    if j == i + 1 {
        lemma_concat_len(dispatches, i);
        assert(concat_before(dispatches, j).subrange(
            lengths_before(dispatches, i),
            lengths_before(dispatches, i) + dispatches[i]@.len(),
        ) =~= dispatches[i]@);
    } else {
        lemma_concat_before_prefix(dispatches, i, j - 1);
        lemma_lengths_before_monotone(dispatches, i + 1, j - 1);
        lemma_concat_len(dispatches, j - 1);
        lemma_lengths_before_monotone(dispatches, 0, i);
        let a = concat_before(dispatches, j - 1);
        assert(lengths_before(dispatches, i + 1) == lengths_before(dispatches, i) + dispatches[i]@.len());
        assert(concat_before(dispatches, j).subrange(
            lengths_before(dispatches, i),
            lengths_before(dispatches, i) + dispatches[i]@.len(),
        ) =~= a.subrange(
            lengths_before(dispatches, i),
            lengths_before(dispatches, i) + dispatches[i]@.len(),
        ));
    }
}

proof fn lemma_concat_len(dispatches: Seq<Vec<u32>>, j: int)
    requires
        0 <= j,
    ensures
        concat_before(dispatches, j).len() == lengths_before(dispatches, j),
    decreases j,
{
    if j > 0 {
        lemma_concat_len(dispatches, j - 1);
    }
}

/// The metadata locates each dispatch in the concatenated list: when the
/// total length fits in `u32`, entry `i` gives the offset and length of the
/// slice that is dispatch `i`.
pub proof fn lemma_metadata_locates_dispatches(dispatches: Seq<Vec<u32>>, i: int)
    requires
        dispatches.len() == 9,
        0 <= i < 9,
    ensures
        lengths_before(dispatches, 9) <= u32::MAX ==> {
            &&& offsets_before(dispatches, i) == lengths_before(dispatches, i)
            &&& (dispatches[i]@.len() as u32) == dispatches[i]@.len()
        },
        concat_before(dispatches, 9).len() == lengths_before(dispatches, 9),
        concat_before(dispatches, 9).subrange(
            lengths_before(dispatches, i),
            lengths_before(dispatches, i) + dispatches[i]@.len(),
        ) == dispatches[i]@,
{
    lemma_concat_before_prefix(dispatches, i, 9);
    if lengths_before(dispatches, 9) <= u32::MAX {
        lemma_offsets_match_lengths(dispatches, i);
        lemma_lengths_before_monotone(dispatches, i + 1, 9);
        lemma_lengths_before_monotone(dispatches, 0, i);
        assert(lengths_before(dispatches, i + 1) == lengths_before(dispatches, i) + dispatches[i]@.len());
    }
}

proof fn lemma_offsets_match_lengths(dispatches: Seq<Vec<u32>>, count: int)
    requires
        0 <= count <= 9,
        dispatches.len() == 9,
        lengths_before(dispatches, 9) <= u32::MAX,
    ensures
        offsets_before(dispatches, count) == lengths_before(dispatches, count),
    decreases count,
{
    if count > 0 {
        lemma_offsets_match_lengths(dispatches, count - 1);
        lemma_lengths_before_monotone(dispatches, count, 9);
        lemma_lengths_before_monotone(dispatches, 0, count - 1);
    }
}

/// `count` divided by `by`, rounded up.
pub open spec fn ceil_div(count: int, by: int) -> int {
    (count + by - 1) / by
}

/// `ceil_div(count, THREADS_PER_GROUP)` workgroups give every item a thread,
/// with fewer than one workgroup's worth of threads to spare.
pub proof fn lemma_workgroups_cover(count: int)
    requires
        0 <= count,
    ensures
        count <= ceil_div(count, THREADS_PER_GROUP as int) * THREADS_PER_GROUP,
        ceil_div(count, THREADS_PER_GROUP as int) * THREADS_PER_GROUP < count + THREADS_PER_GROUP,
{
    let t = THREADS_PER_GROUP as int;
    vstd::arithmetic::div_mod::lemma_fundamental_div_mod(count + t - 1, t);
}

/// Workgroups of `THREADS_PER_GROUP` threads that cover `count` items.
pub fn workgroups_for(count: u32) -> (groups: u32)
    ensures
        groups == ceil_div(count as int, THREADS_PER_GROUP as int),
{
    let whole = count / THREADS_PER_GROUP;
    if count % THREADS_PER_GROUP == 0 {
        whole
    } else {
        whole + 1
    }
}

/// Workgroups for each dispatch, one thread per bin, truncated to `u32`.
pub fn dispatch_compute_groups(dispatches: &[Vec<u32>; 9]) -> (groups: [u32; 9])
    ensures
        forall|i: int|
            #![trigger groups@[i]]
            0 <= i < 9 ==> groups@[i] == ceil_div(dispatches@[i]@.len() as int, THREADS_PER_GROUP as int) as u32,
{
    let mut groups = [0u32; 9];
    let mut i: usize = 0;
    while i < 9
        invariant
            0 <= i <= 9,
            forall|k: int|
                #![trigger groups@[k]]
                0 <= k < i ==> groups@[k] == ceil_div(dispatches@[k]@.len() as int, THREADS_PER_GROUP as int) as u32,
        decreases 9 - i,
    {
        let len = dispatches[i].len();
        let whole = len / (THREADS_PER_GROUP as usize);
        let rounded = if len % (THREADS_PER_GROUP as usize) == 0 { whole } else { whole + 1 };
        assert(rounded == ceil_div(len as int, THREADS_PER_GROUP as int));
        groups[i] = rounded as u32;
        i += 1;
    }
    groups
}

/// Dispatch metadata laid out for the uniform buffer: for each dispatch its
/// offset and length, padded with two zero words to a 16-byte stride.
pub fn dispatch_uniform_metadata(metadata: &[(u32, u32); 9]) -> (words: [u32; 36])
    ensures
        forall|i: int|
            #![trigger metadata@[i]]
            0 <= i < 9 ==> {
                &&& words@[4 * i] == metadata@[i].0
                &&& words@[4 * i + 1] == metadata@[i].1
                &&& words@[4 * i + 2] == 0
                &&& words@[4 * i + 3] == 0
            },
{
    let mut words = [0u32; 36];
    let mut i: usize = 0;
    while i < 9
        invariant
            0 <= i <= 9,
            forall|k: int|
                #![trigger metadata@[k]]
                0 <= k < i ==> {
                    &&& words@[4 * k] == metadata@[k].0
                    &&& words@[4 * k + 1] == metadata@[k].1
                    &&& words@[4 * k + 2] == 0
                    &&& words@[4 * k + 3] == 0
                },
            forall|w: int| 4 * i <= w < 36 ==> words@[w] == 0,
        decreases 9 - i,
    {
        let (offset, length) = metadata[i];
        words[4 * i] = offset;
        words[4 * i + 1] = length;
        i += 1;
    }
    words
}

} // verus!
