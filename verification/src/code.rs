//! The executable Tanner graph of a regular LDPC code.

use crate::graph::TannerGraph;
use crate::incidence::{
    checks_before, degree_of_bit, lemma_described_graph_is_well_formed,
    lemma_description_is_balanced, lemma_last_is_repeat, lemma_repeat_stands_last,
    lists_without_repeats, regular_description, slots_before, tanner_graph_of,
};
use vstd::prelude::*;

verus! {

/// The rows of a table, each taken by its view.
pub open spec fn rows_of<T>(table: Seq<Vec<T>>) -> Seq<Seq<T>> {
    Seq::new(table.len(), |r: int| table[r]@)
}

/// Why a code description was refused.
#[derive(Debug, Clone, Copy, PartialEq, Eq, Structural)]
pub enum CodeError {
    /// The description is not that of a regular code.
    MalformedCode,
}

/// `count` empty rows.
fn empty_rows(count: usize) -> (table: Vec<Vec<usize>>)
    ensures
        table.len() == count,
        forall|r: int| 0 <= r < count ==> (#[trigger] table[r])@ == Seq::<usize>::empty(),
{
    let mut table: Vec<Vec<usize>> = Vec::new();
    let mut r: usize = 0;
    while r < count
        invariant
            r <= count,
            table.len() == r,
            forall|k: int| 0 <= k < r ==> (#[trigger] table[k])@ == Seq::<usize>::empty(),
        decreases count - r,
    {
        table.push(Vec::new());
        r += 1;
    }
    table
}

/// A validated regular LDPC code: the adjacency of its Tanner graph in both
/// directions, with the reciprocal position of every edge cached.
#[derive(Debug)]
pub struct LDPCCode {
    pub(crate) n: usize,
    pub(crate) m: usize,
    pub(crate) dv: usize,
    pub(crate) dc: usize,
    pub(crate) parity_nghbs: Vec<Vec<usize>>,
    pub(crate) bit_nghbs: Vec<Vec<usize>>,
    pub(crate) parity_back: Vec<Vec<usize>>,
    pub(crate) bit_back: Vec<Vec<usize>>,
}

/// A copy of a table.
fn copy_of(table: &Vec<Vec<usize>>) -> (copy: Vec<Vec<usize>>)
    ensures
        rows_of(copy@) == rows_of(table@),
{
    let copy = table.clone();
    proof {
        assert forall|r: int| 0 <= r < table.len() implies (#[trigger] copy[r])@ == table[r]@ by {}
    }
    copy
}

impl Clone for LDPCCode {
    fn clone(&self) -> (copy: Self)
        ensures
            copy@ == self@,
    {
        proof {
            use_type_invariant(self);
        }
        LDPCCode {
            n: self.n,
            m: self.m,
            dv: self.dv,
            dc: self.dc,
            parity_nghbs: copy_of(&self.parity_nghbs),
            bit_nghbs: copy_of(&self.bit_nghbs),
            parity_back: copy_of(&self.parity_back),
            bit_back: copy_of(&self.bit_back),
        }
    }
}

impl View for LDPCCode {
    type V = TannerGraph;

    closed spec fn view(&self) -> TannerGraph {
        TannerGraph {
            n: self.n as nat,
            m: self.m as nat,
            dv: self.dv as nat,
            dc: self.dc as nat,
            check_to_bits: rows_of(self.parity_nghbs@),
            bit_to_checks: rows_of(self.bit_nghbs@),
            check_back: rows_of(self.parity_back@),
            bit_back: rows_of(self.bit_back@),
        }
    }
}

impl LDPCCode {
    /// Every value of this type holds a validated graph.
    #[verifier::type_invariant]
    pub open spec fn inv(&self) -> bool {
        self@.wf()
    }

    /// Inside the crate, the graph is read off the fields directly.
    pub(crate) proof fn lemma_view(&self)
        ensures
            self@.n == self.n,
            self@.m == self.m,
            self@.dv == self.dv,
            self@.dc == self.dc,
            self@.check_to_bits == rows_of(self.parity_nghbs@),
            self@.bit_to_checks == rows_of(self.bit_nghbs@),
            self@.check_back == rows_of(self.parity_back@),
            self@.bit_back == rows_of(self.bit_back@),
            self.parity_nghbs.len() == self@.check_to_bits.len(),
            self.parity_back.len() == self@.check_back.len(),
            self.bit_nghbs.len() == self@.bit_to_checks.len(),
            self.bit_back.len() == self@.bit_back.len(),
            forall|c: int|
                0 <= c < self.parity_nghbs.len() ==> (#[trigger] self.parity_nghbs[c])@
                    == self@.check_to_bits[c],
            forall|c: int|
                0 <= c < self.parity_back.len() ==> (#[trigger] self.parity_back[c])@
                    == self@.check_back[c],
            forall|b: int|
                0 <= b < self.bit_nghbs.len() ==> (#[trigger] self.bit_nghbs[b])@
                    == self@.bit_to_checks[b],
            forall|b: int|
                0 <= b < self.bit_back.len() ==> (#[trigger] self.bit_back[b])@ == self@.bit_back[b],
    {
    }

    /// Builds the Tanner graph of a code description: `n` bits, `m` checks,
    /// the degrees `dv` and `dc` that the description claims, and for each
    /// check the bits incident to it. The lists are inverted, and the
    /// reciprocal position of every edge is computed once and kept. A
    /// description that is not that of a regular code is refused: one with
    /// an empty side, with a list that is empty, that names a bit that does
    /// not exist or names a bit twice, or with a node whose degree is not
    /// the claimed one.
    pub fn new(n: usize, m: usize, dv: usize, dc: usize, parity_checks: Vec<Vec<usize>>) -> (res:
        Result<LDPCCode, CodeError>)
        ensures
            res is Ok <==> regular_description(
                n as nat,
                m as nat,
                dv as nat,
                dc as nat,
                rows_of(parity_checks@),
            ),
            res matches Ok(code) ==> code@ == tanner_graph_of(
                n as nat,
                m as nat,
                dv as nat,
                dc as nat,
                rows_of(parity_checks@),
            ),
    {
        let ghost rows = rows_of(parity_checks@);
        if n == 0 || m == 0 || dv == 0 || dc == 0 || parity_checks.len() != m {
            return Err(CodeError::MalformedCode);
        }
        let mut c: usize = 0;
        while c < m
            invariant
                c <= m,
                parity_checks.len() == m,
                rows == rows_of(parity_checks@),
                forall|r: int| 0 <= r < c ==> (#[trigger] rows[r]).len() == dc,
                forall|r: int, k: int| 0 <= r < c && 0 <= k < dc ==> (#[trigger] rows[r][k]) < n,
            decreases m - c,
        {
            if parity_checks[c].len() != dc {
                assert(rows[c as int].len() != dc);
                return Err(CodeError::MalformedCode);
            }
            let mut j: usize = 0;
            while j < dc
                invariant
                    j <= dc,
                    c < m,
                    parity_checks.len() == m,
                    parity_checks[c as int].len() == dc,
                    rows == rows_of(parity_checks@),
                    forall|k: int| 0 <= k < j ==> (#[trigger] rows[c as int][k]) < n,
                decreases dc - j,
            {
                if parity_checks[c][j] >= n {
                    assert(!(rows[c as int][j as int] < n));
                    return Err(CodeError::MalformedCode);
                }
                j += 1;
            }
            c += 1;
        }
        match m.checked_mul(dc) {
            Some(edges) => {
                if n > edges {
                    proof {
                        if regular_description(n as nat, m as nat, dv as nat, dc as nat, rows) {
                            lemma_description_is_balanced(
                                n as nat,
                                m as nat,
                                dv as nat,
                                dc as nat,
                                rows,
                            );
                            assert(n <= dv * n) by (nonlinear_arith)
                                requires
                                    dv >= 1,
                                    n >= 0,
                            ;
                        }
                    }
                    return Err(CodeError::MalformedCode);
                }
            },
            None => {},
        }
        let mut bit_nghbs = empty_rows(n);
        let mut bit_back = empty_rows(n);
        let mut parity_back: Vec<Vec<usize>> = Vec::new();
        c = 0;
        while c < m
            invariant
                c <= m,
                parity_checks.len() == m,
                rows == rows_of(parity_checks@),
                forall|r: int| 0 <= r < m ==> (#[trigger] rows[r]).len() == dc,
                forall|r: int, k: int| 0 <= r < m && 0 <= k < dc ==> (#[trigger] rows[r][k]) < n,
                bit_nghbs.len() == n,
                bit_back.len() == n,
                forall|b: int|
                    0 <= b < n ==> (#[trigger] bit_nghbs[b])@ == checks_before(rows, b, c as int, 0),
                forall|b: int|
                    0 <= b < n ==> (#[trigger] bit_back[b])@ == slots_before(rows, b, c as int, 0),
                parity_back.len() == c,
                forall|r: int|
                    0 <= r < c ==> (#[trigger] parity_back[r])@ == Seq::new(
                        dc as nat,
                        |k: int| checks_before(rows, rows[r][k] as int, r, k).len() as usize,
                    ),
                forall|r: int, j1: int, j2: int|
                    #![trigger rows[r][j1], rows[r][j2]]
                    0 <= r < c && 0 <= j1 < j2 < dc ==> rows[r][j1] != rows[r][j2],
            decreases m - c,
        {
            let mut back_row: Vec<usize> = Vec::new();
            let mut j: usize = 0;
            while j < dc
                invariant
                    j <= dc,
                    c < m,
                    parity_checks.len() == m,
                    rows == rows_of(parity_checks@),
                    forall|r: int| 0 <= r < m ==> (#[trigger] rows[r]).len() == dc,
                    forall|r: int, k: int|
                        0 <= r < m && 0 <= k < dc ==> (#[trigger] rows[r][k]) < n,
                    bit_nghbs.len() == n,
                    bit_back.len() == n,
                    forall|b: int|
                        0 <= b < n ==> (#[trigger] bit_nghbs[b])@ == checks_before(
                            rows,
                            b,
                            c as int,
                            j as int,
                        ),
                    forall|b: int|
                        0 <= b < n ==> (#[trigger] bit_back[b])@ == slots_before(
                            rows,
                            b,
                            c as int,
                            j as int,
                        ),
                    back_row@ == Seq::new(
                        j as nat,
                        |k: int| checks_before(rows, rows[c as int][k] as int, c as int, k).len() as usize,
                    ),
                    forall|r: int, j1: int, j2: int|
                        #![trigger rows[r][j1], rows[r][j2]]
                        0 <= r < c && 0 <= j1 < j2 < dc ==> rows[r][j1] != rows[r][j2],
                    forall|j1: int, j2: int|
                        #![trigger rows[c as int][j1], rows[c as int][j2]]
                        0 <= j1 < j2 < j ==> rows[c as int][j1] != rows[c as int][j2],
                decreases dc - j,
            {
                let b = parity_checks[c][j];
                let degree = bit_nghbs[b].len();
                if degree > 0 && bit_nghbs[b][degree - 1] == c {
                    proof {
                        lemma_last_is_repeat(rows, b as int, c as int, j as int);
                        let named = choose|named: int|
                            0 <= named < j && #[trigger] rows[c as int][named] == b;
                    }
                    return Err(CodeError::MalformedCode);
                }
                proof {
                    assert forall|named: int| 0 <= named < j implies rows[c as int][named]
                        != rows[c as int][j as int] by {
                        if rows[c as int][named] == b {
                            lemma_repeat_stands_last(rows, c as int, named, j as int);
                        }
                    }
                }
                back_row.push(bit_nghbs[b].len());
                bit_nghbs[b].push(c);
                bit_back[b].push(j);
                j += 1;
                assert(back_row@ =~= Seq::new(
                    j as nat,
                    |k: int| checks_before(rows, rows[c as int][k] as int, c as int, k).len() as usize,
                ));
            }
            parity_back.push(back_row);
            c += 1;
        }
        assert(lists_without_repeats(rows)) by {
            assert forall|r: int, j1: int, j2: int|
                #![trigger rows[r][j1], rows[r][j2]]
                0 <= r < rows.len() && 0 <= j1 < j2 < rows[r].len() implies rows[r][j1]
                != rows[r][j2] by {}
        }
        let mut b: usize = 0;
        while b < n
            invariant
                b <= n,
                rows == rows_of(parity_checks@),
                rows.len() == m,
                lists_without_repeats(rows),
                bit_nghbs.len() == n,
                forall|a: int|
                    0 <= a < n ==> (#[trigger] bit_nghbs[a])@ == checks_before(rows, a, m as int, 0),
                forall|a: int| 0 <= a < b ==> #[trigger] degree_of_bit(rows, a) == dv,
            decreases n - b,
        {
            if bit_nghbs[b].len() != dv {
                assert(degree_of_bit(rows, b as int) != dv);
                return Err(CodeError::MalformedCode);
            }
            b += 1;
        }
        proof {
            let g = tanner_graph_of(n as nat, m as nat, dv as nat, dc as nat, rows);
            lemma_described_graph_is_well_formed(n as nat, m as nat, dv as nat, dc as nat, rows);
            assert(rows_of(bit_nghbs@) =~= g.bit_to_checks);
            assert(rows_of(bit_back@) =~= g.bit_back);
            assert(rows_of(parity_back@) =~= g.check_back);
        }
        Ok(
            LDPCCode {
                n,
                m,
                dv,
                dc,
                parity_nghbs: parity_checks,
                bit_nghbs,
                parity_back,
                bit_back,
            },
        )
    }

    /// The code length: the number of bit nodes.
    pub fn n(&self) -> (r: usize)
        ensures
            r == self@.n,
            self@.wf(),
    {
        proof {
            use_type_invariant(self);
        }
        self.n
    }

    /// The number of check nodes.
    pub fn m(&self) -> (r: usize)
        ensures
            r == self@.m,
            self@.wf(),
    {
        proof {
            use_type_invariant(self);
        }
        self.m
    }

    /// The degree of every bit node.
    pub fn dv(&self) -> (r: usize)
        ensures
            r == self@.dv,
            self@.wf(),
    {
        proof {
            use_type_invariant(self);
        }
        self.dv
    }

    /// The degree of every check node.
    pub fn dc(&self) -> (r: usize)
        ensures
            r == self@.dc,
            self@.wf(),
    {
        proof {
            use_type_invariant(self);
        }
        self.dc
    }

    /// For each check, the bits incident to it.
    pub fn parity_nghbs(&self) -> (table: &Vec<Vec<usize>>)
        ensures
            rows_of(table@) == self@.check_to_bits,
            self@.wf(),
    {
        proof {
            use_type_invariant(self);
        }
        &self.parity_nghbs
    }

    /// For each bit, the checks incident to it.
    pub fn bit_nghbs(&self) -> (table: &Vec<Vec<usize>>)
        ensures
            rows_of(table@) == self@.bit_to_checks,
            self@.wf(),
    {
        proof {
            use_type_invariant(self);
        }
        &self.bit_nghbs
    }

    /// For each check and each of its edges, the local position of the edge
    /// at its bit.
    pub fn parity_back(&self) -> (table: &Vec<Vec<usize>>)
        ensures
            rows_of(table@) == self@.check_back,
            self@.wf(),
    {
        proof {
            use_type_invariant(self);
        }
        &self.parity_back
    }

    /// For each bit and each of its edges, the local position of the edge at
    /// its check.
    pub fn bit_back(&self) -> (table: &Vec<Vec<usize>>)
        ensures
            rows_of(table@) == self@.bit_back,
            self@.wf(),
    {
        proof {
            use_type_invariant(self);
        }
        &self.bit_back
    }
}

} // verus!
