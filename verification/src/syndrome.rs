//! The syndrome that a flip pattern implies, computed over the incidence
//! lists of the code.

use crate::code::LDPCCode;
use crate::graph::check_violated;
use vstd::prelude::*;

verus! {

/// Whether the flips at the bits that `row` lists sum to an odd number.
fn row_violated(row: &Vec<usize>, flips: &Vec<u8>) -> (violated: bool)
    requires
        forall|k: int| 0 <= k < row.len() ==> (#[trigger] row[k]) < flips.len(),
    ensures
        violated == check_violated(row@, flips@),
{
    let mut odd = false;
    let mut k: usize = 0;
    while k < row.len()
        invariant
            k <= row.len(),
            forall|k: int| 0 <= k < row.len() ==> (#[trigger] row[k]) < flips.len(),
            odd == check_violated(row@.take(k as int), flips@),
        decreases row.len() - k,
    {
        assert(row@.take(k + 1).drop_last() =~= row@.take(k as int));
        if flips[row[k]] % 2 == 1 {
            odd = !odd;
        }
        k += 1;
    }
    assert(row@.take(k as int) =~= row@);
    odd
}

/// The parity outcome of every check of `code` against `flips`.
pub fn implied_syndrome(code: &LDPCCode, flips: &Vec<u8>) -> (syndrome: Vec<bool>)
    requires
        flips.len() == code@.n,
    ensures
        syndrome@ == code@.syndrome_of(flips@),
{
    proof {
        use_type_invariant(code);
        code.lemma_view();
    }
    let ghost g = code@;
    let mut syndrome: Vec<bool> = Vec::new();
    let mut c: usize = 0;
    while c < code.m
        invariant
            c <= code.m,
            g == code@,
            g.wf(),
            g.m == code.m,
            code.parity_nghbs.len() == code.m,
            forall|a: int|
                0 <= a < code.m ==> (#[trigger] code.parity_nghbs[a])@ == g.check_to_bits[a],
            flips.len() == g.n,
            syndrome.len() == c,
            forall|a: int|
                0 <= a < c ==> syndrome[a] == check_violated(#[trigger] g.check_to_bits[a], flips@),
        decreases code.m - c,
    {
        proof {
            assert forall|k: int| 0 <= k < code.parity_nghbs[c as int].len() implies (
            #[trigger] code.parity_nghbs[c as int][k]) < flips.len() by {
                assert(g.check_edge_returns(c as int, k));
            }
        }
        syndrome.push(row_violated(&code.parity_nghbs[c], flips));
        c += 1;
    }
    syndrome
}

/// Whether `flips` implies exactly the syndrome `syndrome`.
pub fn syndrome_matches(code: &LDPCCode, flips: &Vec<u8>, syndrome: &Vec<bool>) -> (same: bool)
    requires
        flips.len() == code@.n,
    ensures
        same == (code@.syndrome_of(flips@) == syndrome@),
{
    proof {
        use_type_invariant(code);
        code.lemma_view();
    }
    let ghost g = code@;
    if syndrome.len() != code.m {
        return false;
    }
    let mut c: usize = 0;
    while c < code.m
        invariant
            c <= code.m,
            g == code@,
            g.wf(),
            g.m == code.m,
            code.parity_nghbs.len() == code.m,
            forall|a: int|
                0 <= a < code.m ==> (#[trigger] code.parity_nghbs[a])@ == g.check_to_bits[a],
            flips.len() == g.n,
            syndrome.len() == code.m,
            forall|a: int|
                0 <= a < c ==> syndrome[a] == check_violated(#[trigger] g.check_to_bits[a], flips@),
        decreases code.m - c,
    {
        proof {
            assert forall|k: int| 0 <= k < code.parity_nghbs[c as int].len() implies (
            #[trigger] code.parity_nghbs[c as int][k]) < flips.len() by {
                assert(g.check_edge_returns(c as int, k));
            }
        }
        if row_violated(&code.parity_nghbs[c], flips) != syndrome[c] {
            return false;
        }
        c += 1;
    }
    assert(g.syndrome_of(flips@) =~= syndrome@);
    true
}

} // verus!
