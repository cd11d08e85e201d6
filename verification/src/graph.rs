//! The mathematical model of a regular Tanner graph, and what holds of every
//! well-formed one.

use vstd::arithmetic::div_mod::{
    lemma_fundamental_div_mod, lemma_fundamental_div_mod_converse, lemma_mod_bound,
};
use vstd::arithmetic::mul::lemma_mul_is_commutative;
use vstd::prelude::*;
use vstd::relations::injective_on;
use vstd::set_lib::{lemma_int_range, lemma_map_size, set_int_range};

verus! {

/// A bipartite graph between `n` bit nodes and `m` check nodes. The
/// neighbours of every node are listed in a fixed local order, and every edge
/// records the local position that it has at its other end.
pub struct TannerGraph {
    /// Number of bit nodes.
    pub n: nat,
    /// Number of check nodes.
    pub m: nat,
    /// Degree of every bit node.
    pub dv: nat,
    /// Degree of every check node.
    pub dc: nat,
    /// For each check, the bits incident to it.
    pub check_to_bits: Seq<Seq<usize>>,
    /// For each bit, the checks incident to it.
    pub bit_to_checks: Seq<Seq<usize>>,
    /// For each check `c` and local position `j`, the local position of `c`
    /// in the neighbour list of the bit `check_to_bits[c][j]`.
    pub check_back: Seq<Seq<usize>>,
    /// For each bit `b` and local position `i`, the local position of `b`
    /// in the neighbour list of the check `bit_to_checks[b][i]`.
    pub bit_back: Seq<Seq<usize>>,
}

impl TannerGraph {
    /// The four tables have the shape that `n`, `m`, `dv` and `dc` announce:
    /// one row per node, one entry per incident edge.
    pub open spec fn shaped(self) -> bool {
        &&& self.check_to_bits.len() == self.m
        &&& self.check_back.len() == self.m
        &&& self.bit_to_checks.len() == self.n
        &&& self.bit_back.len() == self.n
        &&& forall|c: int|
            0 <= c < self.m ==> (#[trigger] self.check_to_bits[c]).len() == self.dc
        &&& forall|c: int| 0 <= c < self.m ==> (#[trigger] self.check_back[c]).len() == self.dc
        &&& forall|b: int|
            0 <= b < self.n ==> (#[trigger] self.bit_to_checks[b]).len() == self.dv
        &&& forall|b: int| 0 <= b < self.n ==> (#[trigger] self.bit_back[b]).len() == self.dv
    }

    /// The edge at local position `j` of check `c` leads to an existing bit,
    /// and the position recorded for it there leads back to `(c, j)`.
    pub open spec fn check_edge_returns(self, c: int, j: int) -> bool {
        let b = self.check_to_bits[c][j] as int;
        let i = self.check_back[c][j] as int;
        &&& b < self.n
        &&& i < self.dv
        &&& self.bit_to_checks[b][i] == c
        &&& self.bit_back[b][i] == j
    }

    /// The edge at local position `i` of bit `b` leads to an existing check,
    /// and the position recorded for it there leads back to `(b, i)`.
    pub open spec fn bit_edge_returns(self, b: int, i: int) -> bool {
        let c = self.bit_to_checks[b][i] as int;
        let j = self.bit_back[b][i] as int;
        &&& c < self.m
        &&& j < self.dc
        &&& self.check_to_bits[c][j] == b
        &&& self.check_back[c][j] == i
    }

    /// No check lists a bit twice: between a check and a bit there is at most
    /// one edge.
    pub open spec fn simple(self) -> bool {
        forall|c: int, j1: int, j2: int|
            #![trigger self.check_to_bits[c][j1], self.check_to_bits[c][j2]]
            0 <= c < self.m && 0 <= j1 < j2 < self.dc ==> self.check_to_bits[c][j1]
                != self.check_to_bits[c][j2]
    }

    /// A validated regular Tanner graph: no side is empty, no node is
    /// isolated, the tables are rectangular, no check lists a bit twice, and
    /// every edge is listed at both of its ends with matching positions.
    pub open spec fn wf(self) -> bool {
        &&& self.n > 0
        &&& self.m > 0
        &&& self.dv > 0
        &&& self.dc > 0
        &&& self.shaped()
        &&& self.simple()
        &&& forall|c: int, j: int|
            0 <= c < self.m && 0 <= j < self.dc ==> #[trigger] self.check_edge_returns(c, j)
        &&& forall|b: int, i: int|
            0 <= b < self.n && 0 <= i < self.dv ==> #[trigger] self.bit_edge_returns(b, i)
    }

    /// The parity outcome of every check against the flip pattern `flips`:
    /// `true` where the check is violated.
    pub open spec fn syndrome_of(self, flips: Seq<u8>) -> Seq<bool> {
        Seq::new(self.m, |c: int| check_violated(self.check_to_bits[c], flips))
    }
}

/// The sum of the flip values at the bits that `row` lists.
pub open spec fn row_sum(row: Seq<usize>, flips: Seq<u8>) -> int
    decreases row.len(),
{
    if row.len() == 0 {
        0
    } else {
        row_sum(row.drop_last(), flips) + flips[row.last() as int]
    }
}

/// A check is violated by a flip pattern when the flips at its bits sum to an
/// odd number.
pub open spec fn check_violated(row: Seq<usize>, flips: Seq<u8>) -> bool {
    row_sum(row, flips) % 2 == 1
}

/// Edge symmetry, from the bit side: the check and the position recorded for
/// the edge at local position `i` of bit `b` exist, and the position recorded
/// for that edge at the check resolves back to `(b, i)`.
pub proof fn lemma_bit_edge_round_trip(g: TannerGraph, b: int, i: int)
    requires
        g.wf(),
        0 <= b < g.n,
        0 <= i < g.dv,
    ensures
        0 <= g.bit_to_checks[b][i] < g.m,
        0 <= g.bit_back[b][i] < g.dc,
        g.check_to_bits[g.bit_to_checks[b][i] as int][g.bit_back[b][i] as int] == b,
        g.check_back[g.bit_to_checks[b][i] as int][g.bit_back[b][i] as int] == i,
{
    assert(g.bit_edge_returns(b, i));
}

/// Edge symmetry, from the check side: the bit and the position recorded for
/// the edge at local position `j` of check `c` exist, and the position
/// recorded for that edge at the bit resolves back to `(c, j)`.
pub proof fn lemma_check_edge_round_trip(g: TannerGraph, c: int, j: int)
    requires
        g.wf(),
        0 <= c < g.m,
        0 <= j < g.dc,
    ensures
        0 <= g.check_to_bits[c][j] < g.n,
        0 <= g.check_back[c][j] < g.dv,
        g.bit_to_checks[g.check_to_bits[c][j] as int][g.check_back[c][j] as int] == c,
        g.bit_back[g.check_to_bits[c][j] as int][g.check_back[c][j] as int] == j,
{
    assert(g.check_edge_returns(c, j));
}

/// As no check lists a bit twice, no bit lists a check twice.
pub proof fn lemma_bits_list_no_check_twice(g: TannerGraph, b: int, i1: int, i2: int)
    requires
        g.wf(),
        0 <= b < g.n,
        0 <= i1 < i2 < g.dv,
    ensures
        g.bit_to_checks[b][i1] != g.bit_to_checks[b][i2],
{
    lemma_bit_edge_round_trip(g, b, i1);
    lemma_bit_edge_round_trip(g, b, i2);
}

/// The number that stands for the pair `(major, minor)` when every major
/// value owns `width` consecutive numbers.
pub open spec fn pair_code(major: int, minor: int, width: int) -> int {
    major * width + minor
}

proof fn lemma_pair_code_decodes(major: int, minor: int, width: int)
    requires
        0 <= major,
        0 <= minor < width,
    ensures
        pair_code(major, minor, width) / width == major,
        pair_code(major, minor, width) % width == minor,
{
    lemma_fundamental_div_mod_converse(pair_code(major, minor, width), width, major, minor);
}

proof fn lemma_pair_code_bound(major: int, minor: int, width: int, count: int)
    requires
        0 <= major < count,
        0 <= minor < width,
    ensures
        0 <= pair_code(major, minor, width) < count * width,
{
    assert(0 <= major * width && (major + 1) * width <= count * width) by (nonlinear_arith)
        requires
            0 <= major < count,
            0 < width,
    ;
    assert((major + 1) * width == major * width + width) by (nonlinear_arith);
}

proof fn lemma_code_splits(q: int, width: int, count: int)
    requires
        0 < width,
        0 <= q < count * width,
    ensures
        0 <= q / width < count,
        0 <= q % width < width,
        pair_code(q / width, q % width, width) == q,
{
    lemma_fundamental_div_mod(q, width);
    lemma_mod_bound(q, width);
    lemma_mul_is_commutative(width, q / width);
    assert(0 <= q / width < count) by (nonlinear_arith)
        requires
            0 < width,
            0 <= q < count * width,
            q == (q / width) * width + q % width,
            0 <= q % width < width,
    ;
}

/// The edge that `q` stands for when counted from the bit side, as the number
/// that stands for it when counted from the check side.
pub open spec fn edge_code_at_check(g: TannerGraph, q: int) -> int {
    let b = q / (g.dv as int);
    let i = q % (g.dv as int);
    pair_code(g.bit_to_checks[b][i] as int, g.bit_back[b][i] as int, g.dc as int)
}

/// Degree invariants of a regular code: every bit node has exactly `dv`
/// incident checks, every check node has exactly `dc` incident bits, and
/// counting the edges from either side gives the same number,
/// `dv * n == dc * m`.
pub proof fn lemma_degree_invariants(g: TannerGraph)
    requires
        g.wf(),
    ensures
        forall|b: int| 0 <= b < g.n ==> (#[trigger] g.bit_to_checks[b]).len() == g.dv,
        forall|c: int| 0 <= c < g.m ==> (#[trigger] g.check_to_bits[c]).len() == g.dc,
        g.dv * g.n == g.dc * g.m,
{
    let dv = g.dv as int;
    let dc = g.dc as int;
    let n = g.n as int;
    let m = g.m as int;
    let from_bits = set_int_range(0, n * dv);
    let from_checks = set_int_range(0, m * dc);
    let f = |q: int| edge_code_at_check(g, q);
    assert(0 <= n * dv && 0 <= m * dc) by (nonlinear_arith)
        requires
            0 <= n,
            0 <= dv,
            0 <= m,
            0 <= dc,
    ;
    lemma_int_range(0, n * dv);
    lemma_int_range(0, m * dc);
    assert forall|q: int| from_bits.contains(q) implies from_checks.contains(#[trigger] f(q)) by {
        lemma_code_splits(q, dv, n);
        lemma_bit_edge_round_trip(g, q / dv, q % dv);
        lemma_pair_code_bound(
            g.bit_to_checks[q / dv][q % dv] as int,
            g.bit_back[q / dv][q % dv] as int,
            dc,
            m,
        );
    }
    assert(injective_on(f, from_bits)) by {
        assert forall|q1: int, q2: int|
            from_bits.contains(q1) && from_bits.contains(q2) && #[trigger] f(q1) == #[trigger] f(
                q2,
            ) implies q1 == q2 by {
            lemma_code_splits(q1, dv, n);
            lemma_code_splits(q2, dv, n);
            let (b1, i1) = (q1 / dv, q1 % dv);
            let (b2, i2) = (q2 / dv, q2 % dv);
            lemma_bit_edge_round_trip(g, b1, i1);
            lemma_bit_edge_round_trip(g, b2, i2);
            lemma_pair_code_decodes(g.bit_to_checks[b1][i1] as int, g.bit_back[b1][i1] as int, dc);
            lemma_pair_code_decodes(g.bit_to_checks[b2][i2] as int, g.bit_back[b2][i2] as int, dc);
        }
    }
    assert forall|r: int| from_checks.contains(r) implies from_bits.map(f).contains(r) by {
        lemma_code_splits(r, dc, m);
        let (c, j) = (r / dc, r % dc);
        lemma_check_edge_round_trip(g, c, j);
        let b = g.check_to_bits[c][j] as int;
        let i = g.check_back[c][j] as int;
        let q = pair_code(b, i, dv);
        lemma_pair_code_bound(b, i, dv, n);
        lemma_pair_code_decodes(b, i, dv);
        assert(from_bits.contains(q) && f(q) == r);
    }
    assert(from_bits.map(f) =~= from_checks);
    lemma_map_size(from_bits, from_checks, f);
    lemma_mul_is_commutative(n, dv);
    lemma_mul_is_commutative(m, dc);
}

} // verus!
