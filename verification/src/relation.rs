//! The parity-check relation of a code as a sparse matrix: a redundant view
//! of its incidence lists, against which a hard decision can be checked.

use crate::code::LDPCCode;
use crate::graph::{row_sum, TannerGraph};
use crate::incidence::lists_without_repeats;
use nalgebra::DMatrix;
use nalgebra_sparse::csr::CsrMatrix;
use nalgebra_sparse::ops::serial::spmm_csr_dense;
use nalgebra_sparse::ops::Op;
use vstd::prelude::*;

verus! {

/// The sparse matrix type of nalgebra_sparse, in compressed sparse row form.
/// Nothing inside a value of it is visible here.
#[verifier::external_type_specification]
#[verifier::external_body]
#[verifier::reject_recursive_types(T)]
pub struct ExCsrMatrix<T>(CsrMatrix<T>);

/// What a sparse matrix holds, written out as a table: one row per row of
/// the matrix, one entry per column, 0 where the matrix stores nothing.
pub uninterp spec fn sparse_table(matrix: CsrMatrix<u8>) -> Seq<Seq<u8>>;

/// The number of columns of a sparse matrix.
pub uninterp spec fn sparse_width(matrix: CsrMatrix<u8>) -> nat;

/// The value that the part `from .. to` of the parallel arrays `indices` and
/// `values` gives to column `col`: the value stored with that index, or 0.
pub open spec fn lane_value(
    indices: Seq<usize>,
    values: Seq<u8>,
    from: int,
    to: int,
    col: int,
) -> u8
    decreases to - from,
{
    if from >= to {
        0
    } else if indices[to - 1] == col {
        values[to - 1]
    } else {
        lane_value(indices, values, from, to - 1, col)
    }
}

/// The table that lanes describe: row `r` is the part
/// `offsets[r] .. offsets[r + 1]` of `indices` and `values`.
pub open spec fn table_of_lanes(
    cols: nat,
    offsets: Seq<usize>,
    indices: Seq<usize>,
    values: Seq<u8>,
) -> Seq<Seq<u8>> {
    Seq::new(
        (offsets.len() - 1) as nat,
        |r: int|
            Seq::new(
                cols,
                |j: int| lane_value(indices, values, offsets[r] as int, offsets[r + 1] as int, j),
            ),
    )
}

/// The offsets cut `indices` into lanes, one after the other, and every
/// index is that of a column.
pub open spec fn lanes_laid_out(cols: nat, offsets: Seq<usize>, indices: Seq<usize>) -> bool {
    &&& offsets.len() >= 1
    &&& offsets[0] == 0
    &&& offsets.last() == indices.len()
    &&& forall|r: int| 0 <= r < offsets.len() - 1 ==> offsets[r] <= #[trigger] offsets[r + 1]
    &&& forall|k: int| 0 <= k < indices.len() ==> (#[trigger] indices[k]) < cols
}

/// No lane holds an index twice.
pub open spec fn lanes_without_repeats(offsets: Seq<usize>, indices: Seq<usize>) -> bool {
    forall|r: int, k1: int, k2: int|
        #![trigger offsets[r], indices[k1], indices[k2]]
        0 <= r < offsets.len() - 1 && offsets[r] <= k1 < k2 < offsets[r + 1] ==> indices[k1]
            != indices[k2]
}

/// The sum of the products of the first `end` entries of `row` with those of
/// `x`.
pub open spec fn dot_before(row: Seq<u8>, x: Seq<u8>, end: int) -> int
    decreases end,
{
    if end <= 0 {
        0
    } else {
        dot_before(row, x, end - 1) + row[end - 1] * x[end - 1]
    }
}

/// `CsrMatrix::try_from_unsorted_csr_data` of nalgebra_sparse. On lanes that
/// are laid out and that come with one value for each index, it gives a
/// matrix if and only if no lane holds an index twice; the matrix has the
/// given number of columns and holds the values at the places that the lanes
/// name.
#[verifier::external_body]
fn sparse_from_lanes(
    rows: usize,
    cols: usize,
    offsets: Vec<usize>,
    indices: Vec<usize>,
    values: Vec<u8>,
) -> (matrix: Option<CsrMatrix<u8>>)
    requires
        offsets.len() == rows + 1,
        values.len() == indices.len(),
        lanes_laid_out(cols as nat, offsets@, indices@),
    ensures
        matrix is Some <==> lanes_without_repeats(offsets@, indices@),
        matrix matches Some(h) ==> sparse_width(h) == cols && sparse_table(h) == table_of_lanes(
            cols as nat,
            offsets@,
            indices@,
            values@,
        ),
{
    CsrMatrix::try_from_unsorted_csr_data(rows, cols, offsets, indices, values).ok()
}

/// `spmm_csr_dense` of nalgebra_sparse, on the matrix and one dense column
/// held in a `DMatrix` of nalgebra: the product of the matrix with the
/// column. It is asked for only where no entry of the product exceeds what a
/// byte holds.
#[verifier::external_body]
fn sparse_times(matrix: &CsrMatrix<u8>, x: &Vec<u8>) -> (y: Vec<u8>)
    requires
        x.len() == sparse_width(*matrix),
        forall|r: int|
            0 <= r < sparse_table(*matrix).len() ==> dot_before(
                #[trigger] sparse_table(*matrix)[r],
                x@,
                x.len() as int,
            ) <= 255,
    ensures
        y.len() == sparse_table(*matrix).len(),
        forall|r: int|
            0 <= r < y.len() ==> #[trigger] y[r] == dot_before(
                sparse_table(*matrix)[r],
                x@,
                x.len() as int,
            ),
{
    let column = DMatrix::from_vec(x.len(), 1, x.clone());
    let mut product = DMatrix::<u8>::zeros(matrix.nrows(), 1);
    spmm_csr_dense(0, &mut product, 1, Op::NoOp(matrix), Op::NoOp(&column));
    product.as_slice().to_vec()
}

/// The list names the bit `b`.
pub open spec fn names(row: Seq<usize>, b: int) -> bool {
    exists|j: int| 0 <= j < row.len() && #[trigger] row[j] == b
}

/// The row of the parity-check relation for a check that names the bits of
/// `row`, among `n` bits: 1 at the bits named, 0 elsewhere.
pub open spec fn incidence_row(row: Seq<usize>, n: nat) -> Seq<u8> {
    Seq::new(
        n,
        |b: int|
            if names(row, b) {
                1u8
            } else {
                0u8
            },
    )
}

/// The parity-check relation of a graph, written out as a table: one row per
/// check, one entry per bit.
pub open spec fn incidence_table(g: TannerGraph) -> Seq<Seq<u8>> {
    Seq::new(g.m, |c: int| incidence_row(g.check_to_bits[c], g.n))
}

/// Where every value is 1, a lane gives 1 to the columns that it names and 0
/// to the others.
proof fn lemma_lane_of_ones(indices: Seq<usize>, values: Seq<u8>, from: int, to: int, col: int)
    requires
        0 <= from <= to <= indices.len(),
        values.len() == indices.len(),
        forall|k: int| from <= k < to ==> values[k] == 1,
    ensures
        lane_value(indices, values, from, to, col) == (if exists|k: int|
            from <= k < to && #[trigger] indices[k] == col {
            1u8
        } else {
            0u8
        }),
    decreases to - from,
{
    if from < to {
        lemma_lane_of_ones(indices, values, from, to - 1, col);
    }
}

/// Two rows that differ at place `p` only, where one holds 0 and the other
/// 1, differ in their product with `x` by `x[p]`.
proof fn lemma_dot_with_one_more(before: Seq<u8>, after: Seq<u8>, x: Seq<u8>, p: int, end: int)
    requires
        0 <= p,
        end <= before.len() == after.len(),
        forall|j: int| 0 <= j < end && j != p ==> before[j] == after[j],
        p < end ==> before[p] == 0 && after[p] == 1,
    ensures
        dot_before(after, x, end) == dot_before(before, x, end) + if p < end {
            x[p] as int
        } else {
            0
        },
    decreases end,
{
    if end > 0 {
        lemma_dot_with_one_more(before, after, x, p, end - 1);
    }
}

/// A row of zeros has the product 0 with every column.
proof fn lemma_dot_of_zeros(row: Seq<u8>, x: Seq<u8>, end: int)
    requires
        end <= row.len(),
        forall|j: int| 0 <= j < end ==> row[j] == 0,
    ensures
        dot_before(row, x, end) == 0,
    decreases end,
{
    if end > 0 {
        lemma_dot_of_zeros(row, x, end - 1);
    }
}

/// The relation reproduces the incidence lists: the product of the row of a
/// check with a flip pattern is the sum of the flips at the bits that the
/// check names, where it names no bit twice.
pub proof fn lemma_relation_row_sums_the_flips(row: Seq<usize>, flips: Seq<u8>)
    requires
        forall|j: int| 0 <= j < row.len() ==> (#[trigger] row[j]) < flips.len(),
        forall|j1: int, j2: int|
            #![trigger row[j1], row[j2]]
            0 <= j1 < j2 < row.len() ==> row[j1] != row[j2],
    ensures
        dot_before(incidence_row(row, flips.len()), flips, flips.len() as int) == row_sum(
            row,
            flips,
        ),
    decreases row.len(),
{
    let n = flips.len();
    if row.len() == 0 {
        lemma_dot_of_zeros(incidence_row(row, n), flips, n as int);
    } else {
        let shorter = row.drop_last();
        let b = row.last() as int;
        assert forall|j: int| 0 <= j < shorter.len() implies (#[trigger] shorter[j]) < n by {}
        assert forall|j1: int, j2: int|
            #![trigger shorter[j1], shorter[j2]]
            0 <= j1 < j2 < shorter.len() implies shorter[j1] != shorter[j2] by {}
        lemma_relation_row_sums_the_flips(shorter, flips);
        let before = incidence_row(shorter, n);
        let after = incidence_row(row, n);
        assert(!names(shorter, b));
        assert(names(row, b));
        assert forall|p: int| 0 <= p < n && p != b implies before[p] == after[p] by {
            if names(row, p) {
                let j = choose|j: int| 0 <= j < row.len() && #[trigger] row[j] == p;
                assert(shorter[j] == p);
            }
        }
        lemma_dot_with_one_more(before, after, flips, b, n as int);
    }
}

/// Binary flips at the bits of a list sum to no more than the length of the
/// list.
proof fn lemma_row_sum_of_binary_flips(row: Seq<usize>, flips: Seq<u8>)
    requires
        forall|j: int| 0 <= j < row.len() ==> (#[trigger] row[j]) < flips.len(),
        forall|b: int| 0 <= b < flips.len() ==> #[trigger] flips[b] <= 1,
    ensures
        0 <= row_sum(row, flips) <= row.len(),
    decreases row.len(),
{
    if row.len() > 0 {
        lemma_row_sum_of_binary_flips(row.drop_last(), flips);
    }
}

/// The product of the parity-check relation with a flip pattern, modulo 2:
/// the syndrome that the pattern implies.
pub fn relation_syndrome(code: &LDPCCode, relation: &CsrMatrix<u8>, flips: &Vec<u8>) -> (syndrome:
    Vec<bool>)
    requires
        sparse_width(*relation) == code@.n,
        sparse_table(*relation) == incidence_table(code@),
        code@.dc <= 255,
        flips.len() == code@.n,
        forall|b: int| 0 <= b < flips.len() ==> #[trigger] flips[b] <= 1,
    ensures
        syndrome@ == code@.syndrome_of(flips@),
{
    let m = code.m();
    let ghost g = code@;
    let ghost table = sparse_table(*relation);
    proof {
        assert forall|c: int| 0 <= c < g.m implies dot_before(
            #[trigger] table[c],
            flips@,
            flips.len() as int,
        ) == row_sum(g.check_to_bits[c], flips@) && row_sum(g.check_to_bits[c], flips@) <= 255 by {
            let row = g.check_to_bits[c];
            assert forall|j: int| 0 <= j < row.len() implies (#[trigger] row[j]) < flips.len() by {
                assert(g.check_edge_returns(c, j));
            }
            assert forall|j1: int, j2: int|
                #![trigger row[j1], row[j2]]
                0 <= j1 < j2 < row.len() implies row[j1] != row[j2] by {}
            lemma_relation_row_sums_the_flips(row, flips@);
            lemma_row_sum_of_binary_flips(row, flips@);
        }
    }
    let product = sparse_times(relation, flips);
    let mut syndrome: Vec<bool> = Vec::new();
    let mut c: usize = 0;
    while c < m
        invariant
            c <= m,
            m == g.m,
            product.len() == m,
            forall|r: int|
                0 <= r < m ==> #[trigger] product[r] == row_sum(g.check_to_bits[r], flips@),
            syndrome.len() == c,
            forall|r: int| 0 <= r < c ==> #[trigger] syndrome[r] == g.syndrome_of(flips@)[r],
        decreases m - c,
    {
        syndrome.push(product[c] % 2 == 1);
        c += 1;
    }
    syndrome
}

/// The lanes hold the lists, one lane per list and one after the other, each
/// index with the value 1.
pub open spec fn lanes_hold_lists(
    rows: Seq<Seq<usize>>,
    width: nat,
    offsets: Seq<usize>,
    indices: Seq<usize>,
    values: Seq<u8>,
) -> bool {
    &&& offsets.len() == rows.len() + 1
    &&& offsets[0] == 0
    &&& offsets.last() == indices.len()
    &&& values.len() == indices.len()
    &&& forall|r: int| 0 <= r < rows.len() ==> (#[trigger] rows[r]).len() == width
    &&& forall|r: int| 0 <= r < rows.len() ==> #[trigger] offsets[r + 1] == offsets[r] + width
    &&& forall|r: int, j: int|
        0 <= r < rows.len() && 0 <= j < width ==> indices[offsets[r] + j] == #[trigger] rows[r][j]
    &&& forall|k: int| 0 <= k < values.len() ==> #[trigger] values[k] == 1
}

/// Lanes that hold the lists of a description are laid out, repeat an index
/// exactly where a list names a bit twice, and describe the table of the
/// parity-check relation.
proof fn lemma_lanes_of_lists(
    rows: Seq<Seq<usize>>,
    width: nat,
    n: nat,
    offsets: Seq<usize>,
    indices: Seq<usize>,
    values: Seq<u8>,
)
    requires
        lanes_hold_lists(rows, width, offsets, indices, values),
        forall|k: int| 0 <= k < indices.len() ==> (#[trigger] indices[k]) < n,
    ensures
        lanes_laid_out(n, offsets, indices),
        lanes_without_repeats(offsets, indices) <==> lists_without_repeats(rows),
        table_of_lanes(n, offsets, indices, values) == Seq::new(
            rows.len(),
            |c: int| incidence_row(rows[c], n),
        ),
{
    assert forall|r: int| 0 <= r < offsets.len() - 1 implies offsets[r] <= #[trigger] offsets[r
        + 1] by {}
    if lists_without_repeats(rows) {
        assert forall|r: int, k1: int, k2: int|
            #![trigger offsets[r], indices[k1], indices[k2]]
            0 <= r < offsets.len() - 1 && offsets[r] <= k1 < k2 < offsets[r + 1] implies indices[k1]
            != indices[k2] by {
            let j1 = k1 - offsets[r];
            let j2 = k2 - offsets[r];
            assert(indices[offsets[r] + j1] == rows[r][j1]);
            assert(indices[offsets[r] + j2] == rows[r][j2]);
        }
    }
    if lanes_without_repeats(offsets, indices) {
        assert forall|r: int, j1: int, j2: int|
            #![trigger rows[r][j1], rows[r][j2]]
            0 <= r < rows.len() && 0 <= j1 < j2 < rows[r].len() implies rows[r][j1]
            != rows[r][j2] by {}
    }
    let table = table_of_lanes(n, offsets, indices, values);
    assert forall|r: int| 0 <= r < rows.len() implies (#[trigger] table[r]) =~= incidence_row(
        rows[r],
        n,
    ) by {
        lemma_lane_holds_list(rows, width, n, offsets, indices, values, r);
    }
}

/// The lane of a list gives 1 to the bits that the list names, and 0 to the
/// others.
proof fn lemma_lane_holds_list(
    rows: Seq<Seq<usize>>,
    width: nat,
    n: nat,
    offsets: Seq<usize>,
    indices: Seq<usize>,
    values: Seq<u8>,
    r: int,
)
    requires
        lanes_hold_lists(rows, width, offsets, indices, values),
        0 <= r < rows.len(),
    ensures
        forall|b: int|
            0 <= b < n ==> lane_value(
                indices,
                values,
                offsets[r] as int,
                offsets[r + 1] as int,
                b,
            ) == #[trigger] incidence_row(rows[r], n)[b],
{
    let from = offsets[r] as int;
    let to = offsets[r + 1] as int;
    lemma_offsets_are_ordered(offsets, width as int, r + 1, rows.len() as int);
    assert forall|b: int| 0 <= b < n implies lane_value(indices, values, from, to, b)
        == #[trigger] incidence_row(rows[r], n)[b] by {
        lemma_lane_of_ones(indices, values, from, to, b);
        if exists|k: int| from <= k < to && #[trigger] indices[k] == b {
            let k = choose|k: int| from <= k < to && #[trigger] indices[k] == b;
            let j = k - from;
            assert(indices[offsets[r] + j] == rows[r][j]);
        }
    }
}

/// Offsets that grow by `width` from lane to lane are ordered.
proof fn lemma_offsets_are_ordered(offsets: Seq<usize>, width: int, lower: int, upper: int)
    requires
        0 <= width,
        0 <= lower <= upper < offsets.len(),
        forall|r: int| 0 <= r < offsets.len() - 1 ==> #[trigger] offsets[r + 1] == offsets[r] + width,
    ensures
        offsets[lower] <= offsets[upper],
    decreases upper - lower,
{
    if lower < upper {
        assert(offsets[(upper - 1) + 1] == offsets[upper - 1] + width);
        lemma_offsets_are_ordered(offsets, width, lower, upper - 1);
    }
}

impl LDPCCode {
    /// The parity-check relation of the code as a sparse matrix: one row per
    /// check, one column per bit, and a 1 for every bit that a check names.
    pub fn parity_check_matrix(&self) -> (relation: CsrMatrix<u8>)
        ensures
            sparse_width(relation) == self@.n,
            sparse_table(relation) == incidence_table(self@),
    {
        proof {
            use_type_invariant(self);
            self.lemma_view();
        }
        let ghost g = self@;
        let ghost rows = g.check_to_bits;
        let mut offsets: Vec<usize> = Vec::new();
        offsets.push(0);
        let mut indices: Vec<usize> = Vec::new();
        let mut values: Vec<u8> = Vec::new();
        let mut c: usize = 0;
        while c < self.m
            invariant
                c <= self.m,
                g == self@,
                g.wf(),
                rows == g.check_to_bits,
                g.m == self.m,
                g.n == self.n,
                g.dc == self.dc,
                self.parity_nghbs.len() == self.m,
                forall|r: int| 0 <= r < self.m ==> (#[trigger] self.parity_nghbs[r])@ == rows[r],
                lanes_hold_lists(rows.take(c as int), self.dc as nat, offsets@, indices@, values@),
                forall|k: int| 0 <= k < indices.len() ==> (#[trigger] indices[k]) < self.n,
            decreases self.m - c,
        {
            let ghost lanes = offsets@;
            let ghost filled = indices@;
            let mut j: usize = 0;
            while j < self.dc
                invariant
                    j <= self.dc,
                    c < self.m,
                    g.wf(),
                    rows == g.check_to_bits,
                    g.m == self.m,
                    g.n == self.n,
                    g.dc == self.dc,
                    self.parity_nghbs.len() == self.m,
                    self.parity_nghbs[c as int]@ == rows[c as int],
                    rows[c as int].len() == self.dc,
                    offsets@ == lanes,
                    values.len() == indices.len(),
                    indices@ == filled + rows[c as int].take(j as int),
                    forall|k: int| 0 <= k < indices.len() ==> (#[trigger] indices[k]) < self.n,
                    forall|k: int| 0 <= k < values.len() ==> #[trigger] values[k] == 1,
                decreases self.dc - j,
            {
                proof {
                    assert(g.check_edge_returns(c as int, j as int));
                    assert(rows[c as int].take(j + 1) =~= rows[c as int].take(j as int).push(
                        rows[c as int][j as int],
                    ));
                }
                indices.push(self.parity_nghbs[c][j]);
                values.push(1);
                j += 1;
            }
            offsets.push(indices.len());
            c += 1;
            proof {
                let longer = rows.take(c as int);
                assert forall|r: int| 0 <= r < longer.len() implies #[trigger] offsets[r + 1]
                    == offsets[r] + self.dc by {}
                assert forall|r: int, k: int|
                    0 <= r < longer.len() && 0 <= k < self.dc implies indices[offsets[r] + k]
                    == #[trigger] longer[r][k] by {
                    if r < c - 1 {
                        lemma_offsets_are_ordered(lanes, self.dc as int, r + 1, c - 1);
                    }
                }
            }
        }
        proof {
            assert(rows.take(c as int) =~= rows);
            lemma_lanes_of_lists(rows, self.dc as nat, g.n, offsets@, indices@, values@);
            assert(lists_without_repeats(rows)) by {
                assert forall|r: int, j1: int, j2: int|
                    #![trigger rows[r][j1], rows[r][j2]]
                    0 <= r < rows.len() && 0 <= j1 < j2 < rows[r].len() implies rows[r][j1]
                    != rows[r][j2] by {}
            }
        }
        sparse_from_lanes(self.m, self.n, offsets, indices, values).unwrap()
    }

    /// Checks a hard decision against the parity-check relation: whether the
    /// product of the relation with `flips`, modulo 2, is `syndrome`. There
    /// is no verdict where a check has more than 255 bits, so that a byte
    /// might not hold an entry of the product, where `flips` is not one
    /// decision per bit, or where a decision is neither 0 nor 1.
    #[verifier::loop_isolation(false)]
    pub fn relation_confirms(&self, flips: &Vec<u8>, syndrome: &Vec<bool>) -> (verdict: Option<bool>)
        ensures
            verdict is Some <==> {
                &&& self@.dc <= 255
                &&& flips.len() == self@.n
                &&& forall|b: int| 0 <= b < flips.len() ==> #[trigger] flips[b] <= 1
            },
            verdict matches Some(same) ==> same == (self@.syndrome_of(flips@) == syndrome@),
    {
        if self.dc() > 255 || flips.len() != self.n() {
            return None;
        }
        let mut b: usize = 0;
        while b < flips.len()
            invariant
                b <= flips.len(),
                forall|a: int| 0 <= a < b ==> #[trigger] flips[a] <= 1,
            decreases flips.len() - b,
        {
            if flips[b] > 1 {
                return None;
            }
            b += 1;
        }
        let relation = self.parity_check_matrix();
        let implied = relation_syndrome(self, &relation, flips);
        if implied.len() != syndrome.len() {
            return Some(false);
        }
        let mut c: usize = 0;
        while c < implied.len()
            invariant
                c <= implied.len(),
                implied.len() == syndrome.len(),
                forall|r: int| 0 <= r < c ==> implied[r] == syndrome[r],
            decreases implied.len() - c,
        {
            if implied[c] != syndrome[c] {
                return Some(false);
            }
            c += 1;
        }
        assert(implied@ =~= syndrome@);
        Some(true)
    }
}

} // verus!
