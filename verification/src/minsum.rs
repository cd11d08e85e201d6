//! The message store and the three phases of one round of min-sum message
//! passing: check-to-bit update, bit-to-check update, hard decision.

use crate::code::LDPCCode;
use crate::graph::TannerGraph;
use crate::llr::{
    damp, damped, in_llr_range, magnitude, magnitude_of, saturate, saturate_llr, saturate_sum,
    LLR_LIMIT,
};
use vstd::prelude::*;

verus! {

/// The values of a row of messages.
pub open spec fn ints_of(row: Seq<i64>) -> Seq<int> {
    Seq::new(row.len(), |k: int| row[k] as int)
}

/// The values of a table of messages, row by row.
pub open spec fn messages_of(table: Seq<Vec<i64>>) -> Seq<Seq<int>> {
    Seq::new(table.len(), |a: int| ints_of(table[a]@))
}

/// `msgs` holds one message in range for each of the `width` edges of each of
/// `rows` nodes.
pub open spec fn edge_table(msgs: Seq<Seq<int>>, rows: nat, width: nat) -> bool {
    &&& msgs.len() == rows
    &&& forall|a: int| 0 <= a < rows ==> (#[trigger] msgs[a]).len() == width
    &&& forall|a: int, k: int|
        0 <= a < rows && 0 <= k < width ==> in_llr_range(#[trigger] msgs[a][k])
}

/// The channel evidence for each bit: the given values, saturated.
pub open spec fn channel_prior(channel_llr: Seq<i64>) -> Seq<int> {
    Seq::new(channel_llr.len(), |b: int| saturate(channel_llr[b] as int))
}

/// The least magnitude among the first `end` messages of `arriving`, the one
/// at position `skip` left out; `LLR_LIMIT` where there is no other.
pub open spec fn least_other_magnitude_before(arriving: Seq<int>, skip: int, end: int) -> int
    decreases end,
{
    if end <= 0 {
        LLR_LIMIT as int
    } else {
        let rest = least_other_magnitude_before(arriving, skip, end - 1);
        if end - 1 != skip && magnitude(arriving[end - 1]) < rest {
            magnitude(arriving[end - 1])
        } else {
            rest
        }
    }
}

/// Whether an odd number of the first `end` messages of `arriving` is
/// negative, the one at position `skip` left out.
pub open spec fn odd_other_negatives_before(arriving: Seq<int>, skip: int, end: int) -> bool
    decreases end,
{
    if end <= 0 {
        false
    } else {
        let rest = odd_other_negatives_before(arriving, skip, end - 1);
        if end - 1 != skip && arriving[end - 1] < 0 {
            !rest
        } else {
            rest
        }
    }
}

/// The sum of the first `end` messages of `arriving`.
pub open spec fn total_before(arriving: Seq<int>, end: int) -> int
    decreases end,
{
    if end <= 0 {
        0
    } else {
        total_before(arriving, end - 1) + arriving[end - 1]
    }
}

/// The sum of all messages of `arriving`.
pub open spec fn total(arriving: Seq<int>) -> int {
    total_before(arriving, arriving.len() as int)
}

/// What a check sends along its edge at local position `skip`, given what
/// arrives along all of its edges: the least magnitude among the other
/// messages, damped for the round, with the product of the other messages'
/// signs, and negated once more where the check is violated.
pub open spec fn outgoing_check_message(
    arriving: Seq<int>,
    skip: int,
    violated: bool,
    round: nat,
) -> int {
    let least = least_other_magnitude_before(arriving, skip, arriving.len() as int);
    let odd = odd_other_negatives_before(arriving, skip, arriving.len() as int);
    if odd != violated {
        -damped(least, round)
    } else {
        damped(least, round)
    }
}

/// What a bit sends along its edge at local position `skip`: what it sent
/// before, plus all that arrives along its other edges, saturated.
pub open spec fn outgoing_bit_message(previous: int, arriving: Seq<int>, skip: int) -> int {
    saturate(previous + total(arriving) - arriving[skip])
}

/// The bit-to-check messages that arrive at check `c`, in the order of its
/// edges.
pub open spec fn arriving_at_check(g: TannerGraph, bit_msgs: Seq<Seq<int>>, c: int) -> Seq<int> {
    Seq::new(g.dc, |k: int| bit_msgs[g.check_to_bits[c][k] as int][g.check_back[c][k] as int])
}

/// The check-to-bit messages that arrive at bit `b`, in the order of its
/// edges.
pub open spec fn arriving_at_bit(g: TannerGraph, check_msgs: Seq<Seq<int>>, b: int) -> Seq<int> {
    Seq::new(g.dv, |k: int| check_msgs[g.bit_to_checks[b][k] as int][g.bit_back[b][k] as int])
}

/// The check-to-bit messages of a round, from the bit-to-check messages
/// before it and the target syndrome.
pub open spec fn check_update(
    g: TannerGraph,
    bit_msgs: Seq<Seq<int>>,
    syndrome: Seq<bool>,
    round: nat,
) -> Seq<Seq<int>> {
    Seq::new(
        g.m,
        |c: int|
            Seq::new(
                g.dc,
                |j: int|
                    outgoing_check_message(arriving_at_check(g, bit_msgs, c), j, syndrome[c], round),
            ),
    )
}

/// The bit-to-check messages after a round, from those before it and the
/// check-to-bit messages of the round.
pub open spec fn bit_update(
    g: TannerGraph,
    bit_msgs: Seq<Seq<int>>,
    check_msgs: Seq<Seq<int>>,
) -> Seq<Seq<int>> {
    Seq::new(
        g.n,
        |b: int|
            Seq::new(
                g.dv,
                |i: int| outgoing_bit_message(bit_msgs[b][i], arriving_at_bit(g, check_msgs, b), i),
            ),
    )
}

/// The total evidence for bit `b`: its channel prior and all that arrives.
pub open spec fn belief(g: TannerGraph, prior: Seq<int>, check_msgs: Seq<Seq<int>>, b: int) -> int {
    prior[b] + total(arriving_at_bit(g, check_msgs, b))
}

/// The flip decision for every bit: 1 where the total evidence is not
/// positive, 0 where it is.
pub open spec fn hard_decision(g: TannerGraph, prior: Seq<int>, check_msgs: Seq<Seq<int>>) -> Seq<
    u8,
> {
    Seq::new(
        g.n,
        |b: int|
            if belief(g, prior, check_msgs, b) <= 0 {
                1u8
            } else {
                0u8
            },
    )
}

/// The bit-to-check messages before the first round: on every edge of a bit,
/// the channel prior of that bit.
pub open spec fn initial_bit_messages(g: TannerGraph, prior: Seq<int>) -> Seq<Seq<int>> {
    Seq::new(g.n, |b: int| Seq::new(g.dv, |i: int| prior[b]))
}

/// The check-to-bit messages before the first round: zero on every edge.
pub open spec fn initial_check_messages(g: TannerGraph) -> Seq<Seq<int>> {
    Seq::new(g.m, |c: int| Seq::new(g.dc, |j: int| 0int))
}

/// The bit-to-check and check-to-bit messages of one decode call, each
/// addressed by a node and the local position of an edge at that node.
#[derive(Debug)]
pub struct MessageStore {
    /// For each bit and each of its edges, the message to the check.
    pub bit_to_check: Vec<Vec<i64>>,
    /// For each check and each of its edges, the message to the bit.
    pub check_to_bit: Vec<Vec<i64>>,
}

/// A row of `width` copies of `value`.
fn constant_row(value: i64, width: usize) -> (row: Vec<i64>)
    ensures
        row@ == Seq::new(width as nat, |k: int| value),
{
    let mut row: Vec<i64> = Vec::new();
    let mut k: usize = 0;
    while k < width
        invariant
            k <= width,
            row@ == Seq::new(k as nat, |k: int| value),
        decreases width - k,
    {
        row.push(value);
        k += 1;
    }
    row
}

/// What a check sends along the edge at position `skip`, from what arrives.
fn check_message_from(arriving: &Vec<i64>, skip: usize, violated: bool, round: u32) -> (r: i64)
    requires
        forall|k: int| 0 <= k < arriving.len() ==> in_llr_range(#[trigger] arriving[k] as int),
    ensures
        r == outgoing_check_message(ints_of(arriving@), skip as int, violated, round as nat),
        in_llr_range(r as int),
{
    let ghost values = ints_of(arriving@);
    let mut least: u64 = LLR_LIMIT as u64;
    let mut odd = false;
    let mut k: usize = 0;
    while k < arriving.len()
        invariant
            k <= arriving.len(),
            values == ints_of(arriving@),
            forall|k: int| 0 <= k < arriving.len() ==> in_llr_range(#[trigger] arriving[k] as int),
            least == least_other_magnitude_before(values, skip as int, k as int),
            odd == odd_other_negatives_before(values, skip as int, k as int),
            least <= LLR_LIMIT,
        decreases arriving.len() - k,
    {
        if k != skip {
            let mag = magnitude_of(arriving[k]);
            if mag < least {
                least = mag;
            }
            if arriving[k] < 0 {
                odd = !odd;
            }
        }
        k += 1;
    }
    let mag = damp(least, round) as i64;
    if odd != violated {
        -mag
    } else {
        mag
    }
}

/// The exact sum of a row of messages.
fn total_of(arriving: &Vec<i64>) -> (sum: i128)
    requires
        forall|k: int| 0 <= k < arriving.len() ==> in_llr_range(#[trigger] arriving[k] as int),
    ensures
        sum == total(ints_of(arriving@)),
        -(arriving.len() * LLR_LIMIT) <= sum <= arriving.len() * LLR_LIMIT,
{
    let ghost values = ints_of(arriving@);
    let mut sum: i128 = 0;
    let mut k: usize = 0;
    while k < arriving.len()
        invariant
            k <= arriving.len(),
            values == ints_of(arriving@),
            forall|k: int| 0 <= k < arriving.len() ==> in_llr_range(#[trigger] arriving[k] as int),
            sum == total_before(values, k as int),
            -(k * LLR_LIMIT) <= sum <= k * LLR_LIMIT,
        decreases arriving.len() - k,
    {
        sum = sum + arriving[k] as i128;
        k += 1;
    }
    sum
}

/// Collects into `arriving` the messages that `table` holds at the edges
/// `(nodes[k], slots[k])`.
fn gather(table: &Vec<Vec<i64>>, nodes: &Vec<usize>, slots: &Vec<usize>, arriving: &mut Vec<i64>)
    requires
        nodes.len() == slots.len(),
        forall|k: int|
            0 <= k < nodes.len() ==> (#[trigger] nodes[k]) < table.len() && slots[k]
                < table[nodes[k] as int].len(),
    ensures
        final(arriving)@ == Seq::new(
            nodes.len() as nat,
            |k: int| table[nodes[k] as int][slots[k] as int],
        ),
{
    arriving.clear();
    let mut k: usize = 0;
    while k < nodes.len()
        invariant
            k <= nodes.len(),
            nodes.len() == slots.len(),
            forall|k: int|
                0 <= k < nodes.len() ==> (#[trigger] nodes[k]) < table.len() && slots[k]
                    < table[nodes[k] as int].len(),
            arriving@ == Seq::new(k as nat, |k: int| table[nodes[k] as int][slots[k] as int]),
        decreases nodes.len() - k,
    {
        arriving.push(table[nodes[k]][slots[k]]);
        k += 1;
        assert(arriving@ =~= Seq::new(
            k as nat,
            |k: int| table[nodes[k] as int][slots[k] as int],
        ));
    }
}

impl MessageStore {
    /// The bit-to-check messages, as values.
    pub open spec fn bit_messages(&self) -> Seq<Seq<int>> {
        messages_of(self.bit_to_check@)
    }

    /// The check-to-bit messages, as values.
    pub open spec fn check_messages(&self) -> Seq<Seq<int>> {
        messages_of(self.check_to_bit@)
    }

    /// The store mirrors the graph: one message in range for every edge, in
    /// each direction.
    pub open spec fn fits(&self, g: TannerGraph) -> bool {
        &&& edge_table(self.bit_messages(), g.n, g.dv)
        &&& edge_table(self.check_messages(), g.m, g.dc)
    }

    /// The store at the start of a decode call: every bit sends its channel
    /// prior along each of its edges, and every check sends zero.
    pub fn new(code: &LDPCCode, channel_llr: &Vec<i64>) -> (store: MessageStore)
        requires
            channel_llr.len() == code@.n,
        ensures
            store.fits(code@),
            store.bit_messages() == initial_bit_messages(code@, channel_prior(channel_llr@)),
            store.check_messages() == initial_check_messages(code@),
    {
        proof {
            use_type_invariant(code);
            code.lemma_view();
        }
        let ghost prior = channel_prior(channel_llr@);
        let mut bit_to_check: Vec<Vec<i64>> = Vec::new();
        let mut b: usize = 0;
        while b < code.n
            invariant
                b <= code.n,
                channel_llr.len() == code.n,
                prior == channel_prior(channel_llr@),
                bit_to_check.len() == b,
                forall|a: int|
                    0 <= a < b ==> (#[trigger] bit_to_check[a])@ == Seq::new(
                        code.dv as nat,
                        |i: int| prior[a] as i64,
                    ),
            decreases code.n - b,
        {
            bit_to_check.push(constant_row(saturate_llr(channel_llr[b]), code.dv));
            b += 1;
        }
        let mut check_to_bit: Vec<Vec<i64>> = Vec::new();
        let mut c: usize = 0;
        while c < code.m
            invariant
                c <= code.m,
                check_to_bit.len() == c,
                forall|a: int|
                    0 <= a < c ==> (#[trigger] check_to_bit[a])@ == Seq::new(
                        code.dc as nat,
                        |j: int| 0i64,
                    ),
            decreases code.m - c,
        {
            check_to_bit.push(constant_row(0, code.dc));
            c += 1;
        }
        let store = MessageStore { bit_to_check, check_to_bit };
        proof {
            let g = code@;
            assert forall|a: int| 0 <= a < g.n implies (#[trigger] store.bit_messages()[a])
                =~= Seq::new(g.dv, |i: int| prior[a]) by {}
            assert forall|a: int| 0 <= a < g.m implies (#[trigger] store.check_messages()[a])
                =~= Seq::new(g.dc, |j: int| 0int) by {}
        }
        store
    }

    /// The check-to-bit phase of a round: every check replaces what it sends
    /// along each of its edges, from the bit-to-check messages that arrive
    /// along its other edges and from its syndrome bit.
    #[verifier::loop_isolation(false)]
    pub fn update_checks(&mut self, code: &LDPCCode, syndrome: &Vec<bool>, round: u32)
        requires
            old(self).fits(code@),
            syndrome.len() == code@.m,
        ensures
            final(self).fits(code@),
            final(self).bit_messages() == old(self).bit_messages(),
            final(self).check_messages() == check_update(
                code@,
                old(self).bit_messages(),
                syndrome@,
                round as nat,
            ),
    {
        proof {
            use_type_invariant(code);
            code.lemma_view();
        }
        let ghost g = code@;
        let ghost bits = self.bit_messages();
        proof {
            assert forall|a: int| 0 <= a < code.m implies (#[trigger] self.check_to_bit[a]).len()
                == code.dc by {
                assert(self.check_messages()[a].len() == g.dc);
            }
        }
        let mut arriving: Vec<i64> = Vec::new();
        let mut c: usize = 0;
        while c < code.m
            invariant
                c <= code.m,
                self.bit_to_check == old(self).bit_to_check,
                self.check_to_bit.len() == code.m,
                forall|a: int|
                    0 <= a < code.m ==> (#[trigger] self.check_to_bit[a]).len() == code.dc,
                forall|a: int, j: int|
                    0 <= a < c && 0 <= j < code.dc ==> (#[trigger] self.check_to_bit[a][j]) as int
                        == outgoing_check_message(
                        arriving_at_check(g, bits, a),
                        j,
                        syndrome[a],
                        round as nat,
                    ),
                forall|a: int, j: int|
                    0 <= a < c && 0 <= j < code.dc ==> in_llr_range(
                        (#[trigger] self.check_to_bit[a][j]) as int,
                    ),
            decreases code.m - c,
        {
            proof {
                assert forall|k: int| 0 <= k < code.dc implies (#[trigger] code.parity_nghbs[c as int][k])
                    < self.bit_to_check.len() && code.parity_back[c as int][k]
                    < self.bit_to_check[code.parity_nghbs[c as int][k] as int].len() by {
                    assert(g.check_edge_returns(c as int, k));
                    assert(bits[code.parity_nghbs[c as int][k] as int].len() == g.dv);
                }
            }
            gather(&self.bit_to_check, &code.parity_nghbs[c], &code.parity_back[c], &mut arriving);
            proof {
                assert(ints_of(arriving@) =~= arriving_at_check(g, bits, c as int));
                assert forall|k: int| 0 <= k < arriving.len() implies in_llr_range(
                    #[trigger] arriving[k] as int,
                ) by {
                    assert(in_llr_range(
                        bits[g.check_to_bits[c as int][k] as int][g.check_back[c as int][k] as int],
                    ));
                }
            }
            let ghost before = self.check_to_bit;
            let mut j: usize = 0;
            while j < code.dc
                invariant
                    j <= code.dc,
                    c < code.m,
                    self.bit_to_check == old(self).bit_to_check,
                    self.check_to_bit.len() == code.m,
                    forall|a: int|
                        0 <= a < code.m ==> (#[trigger] self.check_to_bit[a]).len() == code.dc,
                    forall|a: int| 0 <= a < code.m && a != c ==> self.check_to_bit[a] == before[a],
                    forall|k: int|
                        0 <= k < j ==> (#[trigger] self.check_to_bit[c as int][k]) as int
                            == outgoing_check_message(
                            ints_of(arriving@),
                            k,
                            syndrome[c as int],
                            round as nat,
                        ),
                    forall|k: int|
                        0 <= k < j ==> in_llr_range((#[trigger] self.check_to_bit[c as int][k]) as int),
                decreases code.dc - j,
            {
                let out = check_message_from(&arriving, j, syndrome[c], round);
                self.check_to_bit[c][j] = out;
                j += 1;
            }
            proof {
                assert forall|a: int, j: int| 0 <= a < c && 0 <= j < code.dc implies (
                #[trigger] self.check_to_bit[a][j]) == before[a][j] by {}
            }
            c += 1;
        }
        proof {
            let target = check_update(g, bits, syndrome@, round as nat);
            assert forall|a: int| 0 <= a < g.m implies (#[trigger] self.check_messages()[a])
                =~= target[a] by {
                assert forall|j: int| 0 <= j < g.dc implies self.check_messages()[a][j]
                    == target[a][j] by {
                    assert(self.check_to_bit[a][j] as int == outgoing_check_message(
                        arriving_at_check(g, bits, a),
                        j,
                        syndrome[a],
                        round as nat,
                    ));
                }
            }
            assert forall|a: int, j: int| 0 <= a < g.m && 0 <= j < g.dc implies in_llr_range(
                #[trigger] self.check_messages()[a][j],
            ) by {}
        }
    }

    /// Collects the check-to-bit messages that arrive at bit `b`.
    fn gather_at_bit(&self, code: &LDPCCode, b: usize, arriving: &mut Vec<i64>)
        requires
            edge_table(self.check_messages(), code@.m, code@.dc),
            b < code@.n,
        ensures
            ints_of(final(arriving)@) == arriving_at_bit(code@, self.check_messages(), b as int),
            final(arriving).len() == code@.dv,
            forall|k: int|
                0 <= k < final(arriving).len() ==> in_llr_range(#[trigger] final(arriving)[k] as int),
    {
        proof {
            use_type_invariant(code);
            code.lemma_view();
        }
        let ghost g = code@;
        let ghost checks = self.check_messages();
        proof {
            assert forall|k: int| 0 <= k < code.dv implies (#[trigger] code.bit_nghbs[b as int][k])
                < self.check_to_bit.len() && code.bit_back[b as int][k]
                < self.check_to_bit[code.bit_nghbs[b as int][k] as int].len() by {
                assert(g.bit_edge_returns(b as int, k));
                assert(checks[code.bit_nghbs[b as int][k] as int].len() == g.dc);
            }
        }
        gather(&self.check_to_bit, &code.bit_nghbs[b], &code.bit_back[b], arriving);
        proof {
            assert forall|k: int| 0 <= k < arriving.len() implies in_llr_range(
                #[trigger] arriving[k] as int,
            ) by {
                assert(in_llr_range(
                    checks[g.bit_to_checks[b as int][k] as int][g.bit_back[b as int][k] as int],
                ));
            }
        }
    }

    /// The bit-to-check phase of a round: every bit adds to what it sends
    /// along each of its edges all that arrives along its other edges.
    #[verifier::loop_isolation(false)]
    pub fn update_bits(&mut self, code: &LDPCCode)
        requires
            old(self).fits(code@),
        ensures
            final(self).fits(code@),
            final(self).check_messages() == old(self).check_messages(),
            final(self).bit_messages() == bit_update(
                code@,
                old(self).bit_messages(),
                old(self).check_messages(),
            ),
    {
        proof {
            use_type_invariant(code);
            code.lemma_view();
        }
        let ghost g = code@;
        let ghost bits = self.bit_messages();
        let ghost checks = self.check_messages();
        let ghost start = self.bit_to_check;
        proof {
            assert forall|a: int| 0 <= a < code.n implies (#[trigger] self.bit_to_check[a]).len()
                == code.dv by {
                assert(bits[a].len() == g.dv);
            }
        }
        let mut arriving: Vec<i64> = Vec::new();
        let mut b: usize = 0;
        while b < code.n
            invariant
                b <= code.n,
                self.check_to_bit == old(self).check_to_bit,
                self.bit_to_check.len() == code.n,
                forall|a: int| 0 <= a < code.n ==> (#[trigger] self.bit_to_check[a]).len() == code.dv,
                forall|a: int| b <= a < code.n ==> self.bit_to_check[a] == start[a],
                forall|a: int, i: int|
                    0 <= a < b && 0 <= i < code.dv ==> (#[trigger] self.bit_to_check[a][i]) as int
                        == outgoing_bit_message(bits[a][i], arriving_at_bit(g, checks, a), i),
            decreases code.n - b,
        {
            self.gather_at_bit(code, b, &mut arriving);
            let sum = total_of(&arriving);
            let ghost before = self.bit_to_check;
            let mut i: usize = 0;
            while i < code.dv
                invariant
                    i <= code.dv,
                    b < code.n,
                    self.check_to_bit == old(self).check_to_bit,
                    self.bit_to_check.len() == code.n,
                    forall|a: int|
                        0 <= a < code.n ==> (#[trigger] self.bit_to_check[a]).len() == code.dv,
                    forall|a: int| 0 <= a < code.n && a != b ==> self.bit_to_check[a] == before[a],
                    forall|k: int|
                        i <= k < code.dv ==> (#[trigger] self.bit_to_check[b as int][k])
                            == start[b as int][k],
                    forall|k: int|
                        0 <= k < i ==> (#[trigger] self.bit_to_check[b as int][k]) as int
                            == outgoing_bit_message(bits[b as int][k], ints_of(arriving@), k),
                decreases code.dv - i,
            {
                let previous = self.bit_to_check[b][i];
                let next = saturate_sum(previous as i128 + sum - arriving[i] as i128);
                self.bit_to_check[b][i] = next;
                i += 1;
            }
            proof {
                assert forall|a: int, i: int| 0 <= a < b && 0 <= i < code.dv implies (
                #[trigger] self.bit_to_check[a][i]) == before[a][i] by {}
            }
            b += 1;
        }
        proof {
            let target = bit_update(g, bits, checks);
            assert forall|a: int| 0 <= a < g.n implies (#[trigger] self.bit_messages()[a])
                =~= target[a] by {
                assert forall|i: int| 0 <= i < g.dv implies self.bit_messages()[a][i]
                    == target[a][i] by {
                    assert(self.bit_to_check[a][i] as int == outgoing_bit_message(
                        bits[a][i],
                        arriving_at_bit(g, checks, a),
                        i,
                    ));
                }
            }
        }
    }

    /// The hard decision of a round: a bit is flipped where its channel prior
    /// and all that arrives at it sum to no more than zero.
    #[verifier::loop_isolation(false)]
    pub fn hard_decision(&self, code: &LDPCCode, channel_llr: &Vec<i64>) -> (flips: Vec<u8>)
        requires
            self.fits(code@),
            channel_llr.len() == code@.n,
        ensures
            flips@ == hard_decision(code@, channel_prior(channel_llr@), self.check_messages()),
    {
        proof {
            use_type_invariant(code);
            code.lemma_view();
        }
        let ghost g = code@;
        let ghost prior = channel_prior(channel_llr@);
        let ghost checks = self.check_messages();
        let mut flips: Vec<u8> = Vec::new();
        let mut arriving: Vec<i64> = Vec::new();
        let mut b: usize = 0;
        while b < code.n
            invariant
                b <= code.n,
                flips.len() == b,
                forall|a: int|
                    0 <= a < b ==> #[trigger] flips[a] == (if belief(g, prior, checks, a) <= 0 {
                        1u8
                    } else {
                        0u8
                    }),
            decreases code.n - b,
        {
            self.gather_at_bit(code, b, &mut arriving);
            let sum = total_of(&arriving);
            let evidence = saturate_llr(channel_llr[b]) as i128 + sum;
            flips.push(
                if evidence <= 0 {
                    1
                } else {
                    0
                },
            );
            b += 1;
        }
        flips
    }
}

} // verus!
