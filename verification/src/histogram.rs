//! Binning scaled points into a dense two-dimensional histogram.
//!
//! Cell `(row, col)` of the histogram counts the points whose scaled
//! coordinates are exactly `(col, row)`; points outside the window are
//! silently dropped. Accumulation over a point sequence distributes over
//! concatenation, so partitioning the sequence into chunks, accumulating each
//! chunk on its own and merging the partial histograms by elementwise
//! addition yields the histogram of the whole sequence, whatever the chunk
//! boundaries.

use vstd::prelude::*;

verus! {

/// A dense row-major grid of visit counts.
pub struct Histogram {
    pub counts: Vec<u64>,
    pub width: usize,
    pub height: usize,
}

impl Histogram {
    /// The counts vector covers exactly the grid.
    pub open spec fn wf(&self) -> bool {
        self.counts@.len() == self.width * self.height
    }
}

/// Whether a scaled point lies inside a `w` by `h` pixel window.
pub open spec fn in_window(p: (i32, i32), w: int, h: int) -> bool {
    0 <= p.0 < w && 0 <= p.1 < h
}

/// How many points of `pairs` land exactly on cell `(col, row)`.
pub open spec fn cell_count(pairs: Seq<(i32, i32)>, col: int, row: int) -> nat
    decreases pairs.len(),
{
    if pairs.len() == 0 {
        0
    } else {
        cell_count(pairs.drop_last(), col, row) + if pairs.last().0 == col && pairs.last().1
            == row {
            1nat
        } else {
            0nat
        }
    }
}

/// How many points of `pairs` lie inside the window.
pub open spec fn window_count(pairs: Seq<(i32, i32)>, w: int, h: int) -> nat
    decreases pairs.len(),
{
    if pairs.len() == 0 {
        0
    } else {
        window_count(pairs.drop_last(), w, h) + if in_window(pairs.last(), w, h) {
            1nat
        } else {
            0nat
        }
    }
}

/// Sum of all cells of a histogram.
pub open spec fn sum_counts(s: Seq<u64>) -> int
    decreases s.len(),
{
    if s.len() == 0 {
        0
    } else {
        sum_counts(s.drop_last()) + s.last()
    }
}

/// A histogram's cells agree with the counts of a point sequence.
pub open spec fn histogram_of(h: Histogram, pairs: Seq<(i32, i32)>) -> bool {
    &&& h.wf()
    &&& forall|col: int, row: int|
        0 <= col < h.width && 0 <= row < h.height ==> #[trigger] h.counts@[row * h.width as int
            + col] == cell_count(pairs, col, row)
}

pub proof fn lemma_cell_count_le_len(pairs: Seq<(i32, i32)>, col: int, row: int)
    ensures
        cell_count(pairs, col, row) <= pairs.len(),
    decreases pairs.len(),
{
    if pairs.len() > 0 {
        lemma_cell_count_le_len(pairs.drop_last(), col, row);
    }
}

pub proof fn lemma_sum_zero(s: Seq<u64>)
    requires
        forall|i: int| 0 <= i < s.len() ==> s[i] == 0,
    ensures
        sum_counts(s) == 0,
    decreases s.len(),
{
    if s.len() > 0 {
        lemma_sum_zero(s.drop_last());
    }
}

/// Updating one cell moves the sum by the difference at that cell.
pub proof fn lemma_sum_update(s: Seq<u64>, i: int, v: u64)
    requires
        0 <= i < s.len(),
    ensures
        sum_counts(s.update(i, v)) == sum_counts(s) + v - s[i],
    decreases s.len(),
{
    let n = s.len() as int;
    if i == n - 1 {
        assert(s.update(i, v).drop_last() =~= s.drop_last());
        assert(s.update(i, v).last() == v);
    } else {
        lemma_sum_update(s.drop_last(), i, v);
        assert(s.update(i, v).drop_last() =~= s.drop_last().update(i, v));
        assert(s.update(i, v).last() == s.last());
    }
}

/// Accumulation distributes over concatenation of point sequences: the
/// histogram of `s1 + s2` holds, cell by cell, the sum of the histograms of
/// `s1` and of `s2`.
pub proof fn lemma_cell_count_concat(s1: Seq<(i32, i32)>, s2: Seq<(i32, i32)>, col: int, row: int)
    ensures
        cell_count(s1 + s2, col, row) == cell_count(s1, col, row) + cell_count(s2, col, row),
    decreases s2.len(),
{
    if s2.len() == 0 {
        assert(s1 + s2 =~= s1);
    } else {
        lemma_cell_count_concat(s1, s2.drop_last(), col, row);
        assert((s1 + s2).drop_last() =~= s1 + s2.drop_last());
        assert((s1 + s2).last() == s2.last());
    }
}

/// The per-chunk cell counts, summed over a partition.
pub open spec fn chunks_cell_count(chunks: Seq<Seq<(i32, i32)>>, col: int, row: int) -> nat
    decreases chunks.len(),
{
    if chunks.len() == 0 {
        0
    } else {
        cell_count(chunks.first(), col, row) + chunks_cell_count(chunks.drop_first(), col, row)
    }
}

/// Partitioning a point sequence into any chunks and summing the per-chunk
/// cell counts yields the cell counts of the whole sequence: merge order and
/// chunk boundaries cannot change the histogram.
pub proof fn lemma_cell_count_chunks(chunks: Seq<Seq<(i32, i32)>>, col: int, row: int)
    ensures
        cell_count(chunks.flatten(), col, row) == chunks_cell_count(chunks, col, row),
    decreases chunks.len(),
{
    if chunks.len() == 0 {
        assert(chunks.flatten() =~= Seq::<(i32, i32)>::empty());
    } else {
        lemma_cell_count_chunks(chunks.drop_first(), col, row);
        assert(chunks.flatten() == chunks.first() + chunks.drop_first().flatten());
        lemma_cell_count_concat(chunks.first(), chunks.drop_first().flatten(), col, row);
    }
}

/// Total number of points across a partition.
pub open spec fn chunks_total(chunks: Seq<Seq<(i32, i32)>>) -> int
    decreases chunks.len(),
{
    if chunks.len() == 0 {
        0
    } else {
        chunks.first().len() + chunks_total(chunks.drop_first())
    }
}

/// The views of a vector of chunk vectors.
pub open spec fn chunk_views(chunks: Seq<Vec<(i32, i32)>>) -> Seq<Seq<(i32, i32)>> {
    chunks.map_values(|v: Vec<(i32, i32)>| v@)
}

proof fn lemma_chunks_count_take_step(s: Seq<Seq<(i32, i32)>>, i: int, col: int, row: int)
    requires
        0 <= i < s.len(),
    ensures
        chunks_cell_count(s.take(i + 1), col, row) == chunks_cell_count(s.take(i), col, row)
            + cell_count(s[i], col, row),
        chunks_total(s.take(i + 1)) == chunks_total(s.take(i)) + s[i].len(),
    decreases i,
{
    if i == 0 {
        assert(s.take(1).first() == s[0]);
        assert(s.take(1).drop_first() =~= Seq::<Seq<(i32, i32)>>::empty());
        assert(s.take(0) =~= Seq::<Seq<(i32, i32)>>::empty());
    } else {
        lemma_chunks_count_take_step(s.drop_first(), i - 1, col, row);
        assert(s.take(i + 1).first() == s[0]);
        assert(s.take(i).first() == s[0]);
        assert(s.take(i + 1).drop_first() =~= s.drop_first().take(i));
        assert(s.take(i).drop_first() =~= s.drop_first().take(i - 1));
        assert(s.drop_first()[i - 1] == s[i]);
    }
}

/// Accumulates a partitioned point sequence the way a pool of workers would:
/// one full-size partial histogram per chunk, merged by elementwise
/// addition. The result is, cell for cell, the histogram of the flattened
/// sequence: chunk boundaries and worker count cannot change it.
pub fn accumulate_chunks(chunks: &Vec<Vec<(i32, i32)>>, width: usize, height: usize) -> (h:
    Histogram)
    requires
        width * height <= usize::MAX,
        chunks_total(chunk_views(chunks@)) <= u64::MAX,
    ensures
        h.width == width,
        h.height == height,
        histogram_of(h, chunk_views(chunks@).flatten()),
{
    let empty: Vec<(i32, i32)> = Vec::new();
    let mut acc = accumulate_scaled(&empty, width, height);
    proof {
        assert(chunk_views(chunks@).take(0) =~= Seq::<Seq<(i32, i32)>>::empty());
    }
    let n = chunks.len();
    let mut i: usize = 0;
    while i < n
        invariant
            i <= n,
            n == chunks@.len(),
            width * height <= usize::MAX,
            chunks_total(chunk_views(chunks@)) <= u64::MAX,
            acc.width == width,
            acc.height == height,
            acc.wf(),
            chunks_total(chunk_views(chunks@).take(i as int)) >= 0,
            forall|col: int, row: int|
                0 <= col < width && 0 <= row < height ==> #[trigger] acc.counts@[row * width as int
                    + col] == chunks_cell_count(chunk_views(chunks@).take(i as int), col, row),
            forall|col: int, row: int|
                0 <= col < width && 0 <= row < height ==> #[trigger] acc.counts@[row * width as int
                    + col] <= chunks_total(chunk_views(chunks@).take(i as int)),
        decreases n - i,
    {
        let part = accumulate_scaled(&chunks[i], width, height);
        let ghost cv = chunk_views(chunks@);
        proof {
            assert(cv[i as int] == chunks@[i as int]@);
            assert forall|col: int, row: int| 0 <= col < width && 0 <= row < height implies
                #[trigger] acc.counts@[row * width as int + col] + part.counts@[row * width as int
                + col] <= u64::MAX by {
                lemma_chunks_count_take_step(cv, i as int, col, row);
                lemma_cell_count_le_len(cv[i as int], col, row);
                lemma_chunks_total_prefix(cv, i as int + 1);
            }
            assert forall|j: int| 0 <= j < acc.counts@.len() implies acc.counts@[j]
                + part.counts@[j] <= u64::MAX by {
                let col = j % width as int;
                let row = j / width as int;
                assert(width as int >= 1) by (nonlinear_arith)
                    requires
                        0 <= j < width * height,
                ;
                vstd::arithmetic::div_mod::lemma_fundamental_div_mod(j, width as int);
                assert(0 <= col < width && 0 <= row < height && row * width as int + col == j)
                    by (nonlinear_arith)
                    requires
                        j == width as int * (j / width as int) + j % width as int,
                        col == j % width as int,
                        row == j / width as int,
                        0 <= j < width * height,
                        width >= 1,
                ;
            }
        }
        let merged = merge(&acc, &part);
        proof {
            assert forall|col: int, row: int| 0 <= col < width && 0 <= row < height implies
                #[trigger] merged.counts@[row * width as int + col] == chunks_cell_count(
                cv.take(i as int + 1),
                col,
                row,
            ) && merged.counts@[row * width as int + col] <= chunks_total(cv.take(i as int + 1)) by {
                assert(0 <= row * width as int + col < width * height) by (nonlinear_arith)
                    requires
                        0 <= col < width as int,
                        0 <= row < height as int,
                ;
                lemma_chunks_count_take_step(cv, i as int, col, row);
                lemma_cell_count_le_len(cv[i as int], col, row);
            }
            lemma_chunks_total_step_nonneg(cv, i as int);
        }
        acc = merged;
        i = i + 1;
    }
    proof {
        let cv = chunk_views(chunks@);
        assert(cv.take(n as int) =~= cv);
        assert forall|col: int, row: int| 0 <= col < width && 0 <= row < height implies
            #[trigger] acc.counts@[row * width as int + col] == cell_count(
            cv.flatten(),
            col,
            row,
        ) by {
            lemma_cell_count_chunks(cv, col, row);
        }
    }
    acc
}

/// A prefix of a partition holds at most the whole partition's points.
proof fn lemma_chunks_total_prefix(s: Seq<Seq<(i32, i32)>>, i: int)
    requires
        0 <= i <= s.len(),
    ensures
        chunks_total(s.take(i)) <= chunks_total(s),
        chunks_total(s.take(i)) >= 0,
        chunks_total(s) >= 0,
    decreases s.len(),
{
    if s.len() == 0 {
        assert(s.take(i) =~= s);
    } else if i == 0 {
        assert(s.take(0) =~= Seq::<Seq<(i32, i32)>>::empty());
        lemma_chunks_total_prefix(s.drop_first(), 0);
    } else {
        lemma_chunks_total_prefix(s.drop_first(), i - 1);
        assert(s.take(i).first() == s[0]);
        assert(s.take(i).drop_first() =~= s.drop_first().take(i - 1));
    }
}

proof fn lemma_chunks_total_step_nonneg(s: Seq<Seq<(i32, i32)>>, i: int)
    requires
        0 <= i < s.len(),
    ensures
        chunks_total(s.take(i + 1)) >= 0,
{
    lemma_chunks_total_prefix(s, i + 1);
}

/// Bins a sequence of already scaled points into a fresh `width` by `height`
/// histogram. Points outside the window are dropped, so the cells sum to the
/// number of in-window points.
pub fn accumulate_scaled(pairs: &Vec<(i32, i32)>, width: usize, height: usize) -> (h: Histogram)
    requires
        width * height <= usize::MAX,
    ensures
        h.width == width,
        h.height == height,
        histogram_of(h, pairs@),
        sum_counts(h.counts@) == window_count(pairs@, width as int, height as int),
{
    let cells: usize = width * height;
    let mut counts: Vec<u64> = Vec::new();
    let mut z: usize = 0;
    while z < cells
        invariant
            z <= cells,
            counts@.len() == z,
            forall|i: int| 0 <= i < z ==> counts@[i] == 0,
        decreases cells - z,
    {
        counts.push(0);
        z = z + 1;
    }
    proof {
        lemma_sum_zero(counts@);
        assert(pairs@.take(0) =~= Seq::<(i32, i32)>::empty());
        assert forall|col: int, row: int|
            0 <= col < width && 0 <= row < height implies #[trigger] counts@[row * width as int
            + col] == cell_count(pairs@.take(0), col, row) by {
            assert(0 <= row * (width as int) + col && row * (width as int) + col < width * height)
                by (nonlinear_arith)
                requires
                    0 <= col && col < (width as int),
                    0 <= row && row < (height as int),
            ;
        }
    }

    let n = pairs.len();
    let mut i: usize = 0;
    while i < n
        invariant
            i <= n,
            n == pairs@.len(),
            counts@.len() == cells,
            cells == width * height,
            width * height <= usize::MAX,
            forall|col: int, row: int|
                0 <= col < width && 0 <= row < height ==> #[trigger] counts@[row * width as int
                    + col] == cell_count(pairs@.take(i as int), col, row),
            sum_counts(counts@) == window_count(pairs@.take(i as int), width as int, height as int),
        decreases n - i,
    {
        let (sx, sy) = pairs[i];
        let ghost prefix = pairs@.take(i as int);
        let ghost prefix1 = pairs@.take(i as int + 1);
        proof {
            assert(prefix1.drop_last() =~= prefix);
            assert(prefix1.last() == pairs@[i as int]);
        }
        if sx >= 0 && sy >= 0 && (sx as usize) < width && (sy as usize) < height {
            proof {
                assert((sy as int) * (width as int) + (sx as int) < width * height)
                    by (nonlinear_arith)
                    requires
                        0 <= (sx as int) && (sx as int) < (width as int),
                        0 <= (sy as int) && (sy as int) < (height as int),
                ;
            }
            let idx: usize = (sy as usize) * width + (sx as usize);
            proof {
                assert(counts@[idx as int] == cell_count(prefix, sx as int, sy as int));
                lemma_cell_count_le_len(prefix, sx as int, sy as int);
            }
            let c = counts[idx];
            let ghost counts0 = counts@;
            counts.set(idx, c + 1);
            proof {
                lemma_sum_update(counts0, idx as int, (c + 1) as u64);
                assert(in_window(pairs@[i as int], width as int, height as int));
                assert(sum_counts(counts@) == window_count(prefix1, width as int, height as int));
                assert forall|col: int, row: int|
                    0 <= col < width && 0 <= row < height implies #[trigger] counts@[row
                    * width as int + col] == cell_count(prefix1, col, row) by {
                    assert(0 <= row * (width as int) + col && row * (width as int) + col < width
                        * height) by (nonlinear_arith)
                        requires
                            0 <= col && col < (width as int),
                            0 <= row && row < (height as int),
                    ;
                    if row * width as int + col == idx as int {
                        assert(col == sx as int && row == sy as int) by (nonlinear_arith)
                            requires
                                row * (width as int) + col == (sy as int) * (width as int) + (
                                sx as int),
                                0 <= col && col < (width as int),
                                0 <= (sx as int) && (sx as int) < (width as int),
                                0 <= row,
                                0 <= (sy as int),
                        ;
                        assert(cell_count(prefix1, col, row) == cell_count(prefix, col, row) + 1);
                        assert(counts@[idx as int] == c + 1);
                    } else {
                        assert(counts@[row * width as int + col] == counts0[row * width as int
                            + col]);
                        assert(!(col == sx as int && row == sy as int));
                        assert(cell_count(prefix1, col, row) == cell_count(prefix, col, row));
                    }
                }
            }
        } else {
            proof {
                assert(!in_window(pairs@[i as int], width as int, height as int));
                assert forall|col: int, row: int|
                    0 <= col < width && 0 <= row < height implies #[trigger] counts@[row
                    * width as int + col] == cell_count(prefix1, col, row) by {
                    assert(cell_count(prefix1, col, row) == cell_count(prefix, col, row));
                }
            }
        }
        i = i + 1;
    }
    proof {
        assert(pairs@.take(n as int) =~= pairs@);
    }
    Histogram { counts, width, height }
}

/// Merges two partial histograms of the same dimensions by elementwise
/// addition; the order of the arguments cannot matter.
pub fn merge(a: &Histogram, b: &Histogram) -> (m: Histogram)
    requires
        a.wf(),
        b.wf(),
        a.width == b.width,
        a.height == b.height,
        forall|i: int| 0 <= i < a.counts@.len() ==> a.counts@[i] + b.counts@[i] <= u64::MAX,
    ensures
        m.width == a.width,
        m.height == a.height,
        m.wf(),
        m.counts@.len() == a.counts@.len(),
        forall|i: int| 0 <= i < m.counts@.len() ==> m.counts@[i] == a.counts@[i] + b.counts@[i],
{
    let n = a.counts.len();
    let mut counts: Vec<u64> = Vec::new();
    let mut i: usize = 0;
    while i < n
        invariant
            i <= n,
            n == a.counts@.len(),
            n == b.counts@.len(),
            counts@.len() == i,
            forall|j: int| 0 <= j < n ==> a.counts@[j] + b.counts@[j] <= u64::MAX,
            forall|j: int| 0 <= j < i ==> counts@[j] == a.counts@[j] + b.counts@[j],
        decreases n - i,
    {
        counts.push(a.counts[i] + b.counts[i]);
        i = i + 1;
    }
    Histogram { counts, width: a.width, height: a.height }
}

} // verus!
