//! From a code description, the incidence lists of the checks, to the Tanner
//! graph: the lists inverted, and the reciprocal position of every edge.

use crate::graph::{lemma_degree_invariants, TannerGraph};
use vstd::prelude::*;

verus! {

/// The position `(c1, j1)` comes before `(c2, j2)` when the lists are read
/// one after the other.
pub open spec fn listed_before(c1: int, j1: int, c2: int, j2: int) -> bool {
    c1 < c2 || (c1 == c2 && j1 < j2)
}

/// The checks of the edges at bit `b` that are listed before position
/// `(c, j)`, in the order of listing.
pub open spec fn checks_before(rows: Seq<Seq<usize>>, b: int, c: int, j: int) -> Seq<usize>
    decreases c, j,
{
    if j > 0 {
        let rest = checks_before(rows, b, c, j - 1);
        if rows[c][j - 1] == b {
            rest.push(c as usize)
        } else {
            rest
        }
    } else if c > 0 {
        checks_before(rows, b, c - 1, rows[c - 1].len() as int)
    } else {
        Seq::empty()
    }
}

/// The local positions, each in the list of its check, of the edges at bit
/// `b` that are listed before position `(c, j)`, in the order of listing.
pub open spec fn slots_before(rows: Seq<Seq<usize>>, b: int, c: int, j: int) -> Seq<usize>
    decreases c, j,
{
    if j > 0 {
        let rest = slots_before(rows, b, c, j - 1);
        if rows[c][j - 1] == b {
            rest.push((j - 1) as usize)
        } else {
            rest
        }
    } else if c > 0 {
        slots_before(rows, b, c - 1, rows[c - 1].len() as int)
    } else {
        Seq::empty()
    }
}

/// The number of edges at bit `b` in the whole description.
pub open spec fn degree_of_bit(rows: Seq<Seq<usize>>, b: int) -> nat {
    checks_before(rows, b, rows.len() as int, 0).len()
}

/// No list names a bit twice.
pub open spec fn lists_without_repeats(rows: Seq<Seq<usize>>) -> bool {
    forall|c: int, j1: int, j2: int|
        #![trigger rows[c][j1], rows[c][j2]]
        0 <= c < rows.len() && 0 <= j1 < j2 < rows[c].len() ==> rows[c][j1] != rows[c][j2]
}

/// The description is that of a regular code: neither side is empty, there
/// is one list per check, every list names `dc > 0` existing bits, each of
/// them once, and every bit is named `dv > 0` times.
pub open spec fn regular_description(
    n: nat,
    m: nat,
    dv: nat,
    dc: nat,
    rows: Seq<Seq<usize>>,
) -> bool {
    &&& n > 0
    &&& m > 0
    &&& dv > 0
    &&& dc > 0
    &&& rows.len() == m
    &&& forall|c: int| 0 <= c < m ==> (#[trigger] rows[c]).len() == dc
    &&& forall|c: int, j: int| 0 <= c < m && 0 <= j < dc ==> (#[trigger] rows[c][j]) < n
    &&& lists_without_repeats(rows)
    &&& forall|b: int| 0 <= b < n ==> #[trigger] degree_of_bit(rows, b) == dv
}

/// The Tanner graph of a description: the given lists on the check side; on
/// the bit side, for each bit, the checks that name it, in the order of
/// listing; and for every edge the position that it has at its other end.
pub open spec fn tanner_graph_of(
    n: nat,
    m: nat,
    dv: nat,
    dc: nat,
    rows: Seq<Seq<usize>>,
) -> TannerGraph {
    TannerGraph {
        n,
        m,
        dv,
        dc,
        check_to_bits: rows,
        bit_to_checks: Seq::new(n, |b: int| checks_before(rows, b, m as int, 0)),
        check_back: Seq::new(
            m,
            |c: int|
                Seq::new(
                    rows[c].len(),
                    |j: int| checks_before(rows, rows[c][j] as int, c, j).len() as usize,
                ),
        ),
        bit_back: Seq::new(n, |b: int| slots_before(rows, b, m as int, 0)),
    }
}

/// `(c, j)` is a position up to which a description can have been read:
/// inside a list, at its end, or at the end of all lists.
pub open spec fn reading_position(rows: Seq<Seq<usize>>, c: int, j: int) -> bool {
    ||| 0 <= c < rows.len() && 0 <= j <= rows[c].len()
    ||| c == rows.len() && j == 0
}

/// Every edge that is listed at bit `b` before a position is an edge of the
/// description at `b`, comes before that position, and stands in the list of
/// `b` at the place that was free when it was read.
proof fn lemma_listed_edges(rows: Seq<Seq<usize>>, b: int, c: int, j: int)
    requires
        reading_position(rows, c, j),
        rows.len() <= usize::MAX,
        forall|r: int| 0 <= r < rows.len() ==> (#[trigger] rows[r]).len() <= usize::MAX,
    ensures
        slots_before(rows, b, c, j).len() == checks_before(rows, b, c, j).len(),
        forall|i: int|
            #![trigger checks_before(rows, b, c, j)[i]]
            #![trigger slots_before(rows, b, c, j)[i]]
            0 <= i < checks_before(rows, b, c, j).len() ==> {
                let ci = checks_before(rows, b, c, j)[i] as int;
                let ji = slots_before(rows, b, c, j)[i] as int;
                &&& 0 <= ci < rows.len()
                &&& 0 <= ji < rows[ci].len()
                &&& listed_before(ci, ji, c, j)
                &&& rows[ci][ji] == b
                &&& checks_before(rows, b, ci, ji).len() == i
            },
    decreases c, j,
{
    if j > 0 {
        lemma_listed_edges(rows, b, c, j - 1);
    } else if c > 0 {
        lemma_listed_edges(rows, b, c - 1, rows[c - 1].len() as int);
    }
}

/// What is listed at bit `b` before a position stays listed, at the same
/// place, when reading goes on.
proof fn lemma_listing_grows(rows: Seq<Seq<usize>>, b: int, c1: int, j1: int, c2: int, j2: int)
    requires
        reading_position(rows, c1, j1),
        reading_position(rows, c2, j2),
        listed_before(c1, j1, c2, j2) || (c1 == c2 && j1 == j2),
    ensures
        checks_before(rows, b, c1, j1).len() <= checks_before(rows, b, c2, j2).len(),
        slots_before(rows, b, c1, j1).len() <= slots_before(rows, b, c2, j2).len(),
        forall|i: int|
            0 <= i < checks_before(rows, b, c1, j1).len() ==> checks_before(rows, b, c1, j1)[i]
                == #[trigger] checks_before(rows, b, c2, j2)[i],
        forall|i: int|
            0 <= i < slots_before(rows, b, c1, j1).len() ==> slots_before(rows, b, c1, j1)[i]
                == #[trigger] slots_before(rows, b, c2, j2)[i],
    decreases c2, j2,
{
    if c1 == c2 && j1 == j2 {
    } else if j2 > 0 {
        lemma_listing_grows(rows, b, c1, j1, c2, j2 - 1);
    } else {
        lemma_listing_grows(rows, b, c1, j1, c2 - 1, rows[c2 - 1].len() as int);
    }
}

/// The edge at position `(c, j)` of the description is listed at its bit, at
/// the place that was free when it was read, once reading has passed it.
proof fn lemma_edge_is_listed(rows: Seq<Seq<usize>>, c: int, j: int, c2: int, j2: int)
    requires
        0 <= c < rows.len(),
        0 <= j < rows[c].len(),
        reading_position(rows, c2, j2),
        listed_before(c, j, c2, j2),
        rows.len() <= usize::MAX,
        forall|r: int| 0 <= r < rows.len() ==> (#[trigger] rows[r]).len() <= usize::MAX,
    ensures
        ({
            let b = rows[c][j] as int;
            let i = checks_before(rows, b, c, j).len() as int;
            &&& i < checks_before(rows, b, c2, j2).len()
            &&& i < slots_before(rows, b, c2, j2).len()
            &&& checks_before(rows, b, c2, j2)[i] == c
            &&& slots_before(rows, b, c2, j2)[i] == j
        }),
{
    let b = rows[c][j] as int;
    lemma_listed_edges(rows, b, c, j);
    lemma_listed_edges(rows, b, c, j + 1);
    lemma_listing_grows(rows, b, c, j + 1, c2, j2);
}

/// A bit that the list being read has named already stands last, with this
/// list, among the edges listed at the bit.
pub(crate) proof fn lemma_repeat_stands_last(rows: Seq<Seq<usize>>, c: int, named: int, j: int)
    requires
        0 <= c < rows.len(),
        0 <= named < j <= rows[c].len(),
        rows.len() <= usize::MAX,
        forall|r: int| 0 <= r < rows.len() ==> (#[trigger] rows[r]).len() <= usize::MAX,
    ensures
        checks_before(rows, rows[c][named] as int, c, j).len() > 0,
        checks_before(rows, rows[c][named] as int, c, j).last() == c,
{
    let b = rows[c][named] as int;
    let listed = checks_before(rows, b, c, j);
    lemma_edge_is_listed(rows, c, named, c, j);
    lemma_listed_edges(rows, b, c, j);
    let last = listed.len() - 1;
    let c_last = listed[last] as int;
    let j_last = slots_before(rows, b, c, j)[last] as int;
    if c_last < c {
        lemma_listing_grows(rows, b, c_last, j_last, c, named);
    }
}

/// Where the last edge listed at a bit comes from the list being read, that
/// list has named the bit already.
pub(crate) proof fn lemma_last_is_repeat(rows: Seq<Seq<usize>>, b: int, c: int, j: int)
    requires
        0 <= c < rows.len(),
        0 <= j <= rows[c].len(),
        rows.len() <= usize::MAX,
        forall|r: int| 0 <= r < rows.len() ==> (#[trigger] rows[r]).len() <= usize::MAX,
        checks_before(rows, b, c, j).len() > 0,
        checks_before(rows, b, c, j).last() == c,
    ensures
        exists|named: int| 0 <= named < j && #[trigger] rows[c][named] == b,
{
    lemma_listed_edges(rows, b, c, j);
    let last = checks_before(rows, b, c, j).len() - 1;
}

/// The Tanner graph of a regular description is well formed: in particular
/// every edge is listed at both of its ends, and the positions cached for it
/// resolve to each other.
pub proof fn lemma_described_graph_is_well_formed(
    n: nat,
    m: nat,
    dv: nat,
    dc: nat,
    rows: Seq<Seq<usize>>,
)
    requires
        regular_description(n, m, dv, dc, rows),
        m <= usize::MAX,
        dv <= usize::MAX,
        dc <= usize::MAX,
    ensures
        tanner_graph_of(n, m, dv, dc, rows).wf(),
{
    let g = tanner_graph_of(n, m, dv, dc, rows);
    assert(g.simple()) by {
        assert forall|c: int, j1: int, j2: int|
            #![trigger g.check_to_bits[c][j1], g.check_to_bits[c][j2]]
            0 <= c < g.m && 0 <= j1 < j2 < g.dc implies g.check_to_bits[c][j1]
            != g.check_to_bits[c][j2] by {}
    }
    assert forall|b: int| 0 <= b < n implies (#[trigger] g.bit_to_checks[b]).len() == dv by {
        assert(degree_of_bit(rows, b) == dv);
    }
    assert forall|b: int| 0 <= b < n implies (#[trigger] g.bit_back[b]).len() == dv by {
        assert(degree_of_bit(rows, b) == dv);
        lemma_listed_edges(rows, b, m as int, 0);
    }
    assert forall|c: int, j: int| 0 <= c < m && 0 <= j < dc implies #[trigger] g.check_edge_returns(
        c,
        j,
    ) by {
        let b = rows[c][j] as int;
        assert(degree_of_bit(rows, b) == dv);
        lemma_edge_is_listed(rows, c, j, m as int, 0);
    }
    assert forall|b: int, i: int| 0 <= b < n && 0 <= i < dv implies #[trigger] g.bit_edge_returns(
        b,
        i,
    ) by {
        assert(degree_of_bit(rows, b) == dv);
        lemma_listed_edges(rows, b, m as int, 0);
    }
}

/// The edges of a regular description, counted at the bits and counted at
/// the checks, are as many: `dv * n == dc * m`.
pub proof fn lemma_description_is_balanced(
    n: nat,
    m: nat,
    dv: nat,
    dc: nat,
    rows: Seq<Seq<usize>>,
)
    requires
        regular_description(n, m, dv, dc, rows),
        m <= usize::MAX,
        dv <= usize::MAX,
        dc <= usize::MAX,
    ensures
        dv * n == dc * m,
{
    lemma_described_graph_is_well_formed(n, m, dv, dc, rows);
    lemma_degree_invariants(tanner_graph_of(n, m, dv, dc, rows));
}

} // verus!
