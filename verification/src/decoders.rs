//! The decoder abstraction and the min-sum belief-propagation decoder.

use crate::code::LDPCCode;
use crate::graph::{
    lemma_bit_edge_round_trip, lemma_check_edge_round_trip, row_sum, TannerGraph,
};
use crate::llr::{damped, saturate};
use crate::minsum::{
    arriving_at_bit, bit_update, channel_prior, check_update, hard_decision, initial_bit_messages,
    initial_check_messages, total_before, MessageStore,
};
use crate::syndrome::syndrome_matches;
use vstd::arithmetic::power2::lemma2_to64;
use vstd::prelude::*;

verus! {

/// A list of 0s and 1s, one per bit: 1 where the bit has to be flipped.
pub type FlipErrors = Vec<u8>;

/// Why a decode call returned no correction.
#[derive(Debug, PartialEq, Eq)]
pub enum DecodeErrors {
    /// The request does not fit the code. No message was passed.
    ImproperParams(String),
    /// The iteration budget was used up before the implied syndrome matched
    /// the target. Carries the last hard decision and the number of rounds
    /// that were run.
    NonConvergence { hard_decision: FlipErrors, iterations: u32 },
}

/// What a decode call reports, as plain values.
pub enum DecodeReport {
    /// A flip pattern whose implied syndrome is the target.
    Correction(Seq<u8>),
    /// No convergence within the budget.
    NonConvergence { hard_decision: Seq<u8>, iterations: nat },
    /// The request was rejected, with this message.
    ImproperParams(Seq<char>),
}

/// The report that a result stands for.
pub open spec fn report_of(res: Result<FlipErrors, DecodeErrors>) -> DecodeReport {
    match res {
        Ok(flips) => DecodeReport::Correction(flips@),
        Err(DecodeErrors::NonConvergence { hard_decision, iterations }) => {
            DecodeReport::NonConvergence {
                hard_decision: hard_decision@,
                iterations: iterations as nat,
            }
        },
        Err(DecodeErrors::ImproperParams(message)) => DecodeReport::ImproperParams(message@),
    }
}

/// The message of the rejection of a request whose channel values are not one
/// per bit.
pub open spec fn channel_length_message() -> Seq<char> {
    "channel_llr length does not match code length"@
}

/// The message of the rejection of a request whose syndrome is not one bit
/// per check.
pub open spec fn syndrome_length_message() -> Seq<char> {
    "syndrome length does not match code length"@
}

/// The bit-to-check messages at the start of round `round`.
pub open spec fn bit_messages_before(
    g: TannerGraph,
    prior: Seq<int>,
    syndrome: Seq<bool>,
    round: nat,
) -> Seq<Seq<int>>
    decreases round,
{
    if round == 0 {
        initial_bit_messages(g, prior)
    } else {
        let earlier = bit_messages_before(g, prior, syndrome, (round - 1) as nat);
        bit_update(g, earlier, check_update(g, earlier, syndrome, (round - 1) as nat))
    }
}

/// The check-to-bit messages of round `round`.
pub open spec fn check_messages_in(
    g: TannerGraph,
    prior: Seq<int>,
    syndrome: Seq<bool>,
    round: nat,
) -> Seq<Seq<int>> {
    check_update(g, bit_messages_before(g, prior, syndrome, round), syndrome, round)
}

/// The hard decision of round `round`.
pub open spec fn decision_in(
    g: TannerGraph,
    prior: Seq<int>,
    syndrome: Seq<bool>,
    round: nat,
) -> Seq<u8> {
    hard_decision(g, prior, check_messages_in(g, prior, syndrome, round))
}

/// The hard decision of round `round` implies the target syndrome.
pub open spec fn converges_in(
    g: TannerGraph,
    prior: Seq<int>,
    syndrome: Seq<bool>,
    round: nat,
) -> bool {
    g.syndrome_of(decision_in(g, prior, syndrome, round)) == syndrome
}

/// The first of the rounds `0 .. budget` whose hard decision implies the
/// target syndrome, if there is one.
pub open spec fn first_convergence(
    g: TannerGraph,
    prior: Seq<int>,
    syndrome: Seq<bool>,
    budget: nat,
) -> Option<nat>
    decreases budget,
{
    if budget == 0 {
        None
    } else {
        match first_convergence(g, prior, syndrome, (budget - 1) as nat) {
            Some(round) => Some(round),
            None => if converges_in(g, prior, syndrome, (budget - 1) as nat) {
                Some((budget - 1) as nat)
            } else {
                None
            },
        }
    }
}

/// The hard decision that is at hand after `rounds` rounds: that of the last
/// round, or, before any round, that of the channel priors alone.
pub open spec fn last_decision(
    g: TannerGraph,
    prior: Seq<int>,
    syndrome: Seq<bool>,
    rounds: nat,
) -> Seq<u8> {
    if rounds == 0 {
        hard_decision(g, prior, initial_check_messages(g))
    } else {
        decision_in(g, prior, syndrome, (rounds - 1) as nat)
    }
}

/// What min-sum decoding with a budget of `max_iter` rounds reports: the hard
/// decision of the first round that converges, or else non-convergence after
/// `max_iter` rounds with the last hard decision.
pub open spec fn min_sum_report(
    g: TannerGraph,
    prior: Seq<int>,
    syndrome: Seq<bool>,
    max_iter: nat,
) -> DecodeReport {
    match first_convergence(g, prior, syndrome, max_iter) {
        Some(round) => DecodeReport::Correction(decision_in(g, prior, syndrome, round)),
        None => DecodeReport::NonConvergence {
            hard_decision: last_decision(g, prior, syndrome, max_iter),
            iterations: max_iter,
        },
    }
}

/// `flips` is a correction for `syndrome`: one binary decision per bit, which
/// together imply the syndrome.
pub open spec fn corrects(g: TannerGraph, flips: Seq<u8>, syndrome: Seq<bool>) -> bool {
    &&& flips.len() == g.n
    &&& forall|b: int| 0 <= b < flips.len() ==> #[trigger] flips[b] <= 1
    &&& g.syndrome_of(flips) == syndrome
}

/// The algorithm-specific step of a decoder, on a request that fits the code.
pub trait DecoderInternal {
    /// What the algorithm reports for a request.
    spec fn algorithm_report(
        &self,
        g: TannerGraph,
        channel_llr: Seq<i64>,
        syndrome: Seq<bool>,
    ) -> DecodeReport;

    /// Runs the algorithm. Whatever the algorithm, a correction that it
    /// returns implies the target syndrome.
    fn _decode(&self, code: &LDPCCode, channel_llr: &Vec<i64>, syndrome: &Vec<bool>) -> (res:
        Result<FlipErrors, DecodeErrors>)
        requires
            channel_llr.len() == code@.n,
            syndrome.len() == code@.m,
        ensures
            report_of(res) == self.algorithm_report(code@, channel_llr@, syndrome@),
            res matches Ok(flips) ==> corrects(code@, flips@, syndrome@),
            !(res matches Err(DecodeErrors::ImproperParams(_))),
    ;
}

/// What `decode` reports for a request: a rejection where the request does
/// not fit the code, and else what the algorithm reports.
pub open spec fn decode_report<D: DecoderInternal>(
    decoder: &D,
    g: TannerGraph,
    channel_llr: Seq<i64>,
    syndrome: Seq<bool>,
) -> DecodeReport {
    if channel_llr.len() != g.n {
        DecodeReport::ImproperParams(channel_length_message())
    } else if syndrome.len() != g.m {
        DecodeReport::ImproperParams(syndrome_length_message())
    } else {
        decoder.algorithm_report(g, channel_llr, syndrome)
    }
}

/// A decoder: given a code, one channel log-likelihood ratio per bit and one
/// syndrome bit per check, it finds a flip pattern that explains the syndrome.
pub trait Decoder: DecoderInternal + Sized {
    /// Validates the request, then runs the algorithm.
    fn decode(&self, code: &LDPCCode, channel_llr: &Vec<i64>, syndrome: &Vec<bool>) -> (res:
        Result<FlipErrors, DecodeErrors>)
        ensures
            report_of(res) == decode_report(self, code@, channel_llr@, syndrome@),
            res matches Ok(flips) ==> corrects(code@, flips@, syndrome@),
            res matches Err(DecodeErrors::ImproperParams(_)) <==> channel_llr.len() != code@.n
                || syndrome.len() != code@.m,
    {
        if code.n() != channel_llr.len() {
            return Err(
                DecodeErrors::ImproperParams(
                    "channel_llr length does not match code length".to_owned(),
                ),
            );
        }
        if code.m() != syndrome.len() {
            return Err(
                DecodeErrors::ImproperParams("syndrome length does not match code length".to_owned()),
            );
        }
        self._decode(code, channel_llr, syndrome)
    }
}

/// Min-sum belief-propagation decoder with a budget of `max_iter` rounds.
#[derive(Debug, Clone, Copy)]
pub struct DecoderMinSumBP {
    /// The number of rounds after which decoding gives up.
    pub max_iter: u32,
}

/// Once a first converging round is found within a budget, a larger budget
/// finds the same round.
pub proof fn lemma_first_convergence_stays(
    g: TannerGraph,
    prior: Seq<int>,
    syndrome: Seq<bool>,
    budget: nat,
    larger: nat,
)
    requires
        budget <= larger,
        first_convergence(g, prior, syndrome, budget) is Some,
    ensures
        first_convergence(g, prior, syndrome, larger) == first_convergence(
            g,
            prior,
            syndrome,
            budget,
        ),
    decreases larger,
{
    if budget < larger {
        lemma_first_convergence_stays(g, prior, syndrome, budget, (larger - 1) as nat);
    }
}

impl DecoderMinSumBP {
    /// A decoder that gives up after `max_iter` rounds.
    pub fn new(max_iter: u32) -> (decoder: DecoderMinSumBP)
        ensures
            decoder.max_iter == max_iter,
    {
        DecoderMinSumBP { max_iter }
    }
}

impl DecoderInternal for DecoderMinSumBP {
    open spec fn algorithm_report(
        &self,
        g: TannerGraph,
        channel_llr: Seq<i64>,
        syndrome: Seq<bool>,
    ) -> DecodeReport {
        min_sum_report(g, channel_prior(channel_llr), syndrome, self.max_iter as nat)
    }

    fn _decode(&self, code: &LDPCCode, channel_llr: &Vec<i64>, syndrome: &Vec<bool>) -> (res:
        Result<FlipErrors, DecodeErrors>) {
        let ghost g = code@;
        let ghost prior = channel_prior(channel_llr@);
        let mut store = MessageStore::new(code, channel_llr);
        let mut decision = store.hard_decision(code, channel_llr);
        let mut round: u32 = 0;
        while round < self.max_iter
            invariant
                round <= self.max_iter,
                g == code@,
                prior == channel_prior(channel_llr@),
                channel_llr.len() == g.n,
                syndrome.len() == g.m,
                store.fits(g),
                store.bit_messages() == bit_messages_before(g, prior, syndrome@, round as nat),
                decision@ == last_decision(g, prior, syndrome@, round as nat),
                first_convergence(g, prior, syndrome@, round as nat) is None,
            decreases self.max_iter - round,
        {
            store.update_checks(code, syndrome, round);
            store.update_bits(code);
            decision = store.hard_decision(code, channel_llr);
            if syndrome_matches(code, &decision, syndrome) {
                proof {
                    assert(first_convergence(g, prior, syndrome@, (round + 1) as nat) == Some(
                        round as nat,
                    ));
                    lemma_first_convergence_stays(
                        g,
                        prior,
                        syndrome@,
                        (round + 1) as nat,
                        self.max_iter as nat,
                    );
                    assert forall|b: int| 0 <= b < decision.len() implies #[trigger] decision[b]
                        <= 1 by {}
                }
                return Ok(decision);
            }
            round += 1;
        }
        Err(DecodeErrors::NonConvergence { hard_decision: decision, iterations: self.max_iter })
    }
}

impl Decoder for DecoderMinSumBP {

}

/// The first converging round within a budget is a round of the budget that
/// converges and that no converging round precedes; there is none only where
/// no round of the budget converges.
pub proof fn lemma_first_convergence_is_least(
    g: TannerGraph,
    prior: Seq<int>,
    syndrome: Seq<bool>,
    budget: nat,
)
    ensures
        match first_convergence(g, prior, syndrome, budget) {
            Some(round) => {
                &&& round < budget
                &&& converges_in(g, prior, syndrome, round)
                &&& forall|earlier: nat|
                    earlier < round ==> !#[trigger] converges_in(g, prior, syndrome, earlier)
            },
            None => forall|round: nat|
                round < budget ==> !#[trigger] converges_in(g, prior, syndrome, round),
        },
    decreases budget,
{
    if budget > 0 {
        lemma_first_convergence_is_least(g, prior, syndrome, (budget - 1) as nat);
    }
}

/// Idempotence: two calls of `decode` with the same request on the same code
/// report the same, since what a call reports is a function of the decoder,
/// the code and the request alone.
pub proof fn lemma_decode_is_repeatable<D: Decoder>(
    decoder: &D,
    g: TannerGraph,
    channel_llr: Seq<i64>,
    syndrome: Seq<bool>,
    first: Result<FlipErrors, DecodeErrors>,
    second: Result<FlipErrors, DecodeErrors>,
)
    requires
        report_of(first) == decode_report(decoder, g, channel_llr, syndrome),
        report_of(second) == decode_report(decoder, g, channel_llr, syndrome),
    ensures
        report_of(first) == report_of(second),
{
}

/// The sum of messages that are all zero is zero.
proof fn lemma_total_of_zeros(arriving: Seq<int>, end: int)
    requires
        end <= arriving.len(),
        forall|k: int| 0 <= k < end ==> arriving[k] == 0,
    ensures
        total_before(arriving, end) == 0,
    decreases end,
{
    if end > 0 {
        lemma_total_of_zeros(arriving, end - 1);
    }
}

/// No check is violated where no bit is flipped.
proof fn lemma_row_sum_without_flips(row: Seq<usize>, flips: Seq<u8>)
    requires
        forall|k: int| 0 <= k < row.len() ==> 0 <= #[trigger] row[k] < flips.len(),
        forall|b: int| 0 <= b < flips.len() ==> flips[b] == 0,
    ensures
        row_sum(row, flips) == 0,
    decreases row.len(),
{
    if row.len() > 0 {
        lemma_row_sum_without_flips(row.drop_last(), flips);
    }
}

/// Convergence on a clean word: where every channel value favours "not
/// flipped" and no check is violated, min-sum decoding with a budget of at
/// least one round converges in its first round, to the all-zero flip
/// pattern.
pub proof fn lemma_clean_word_converges_at_once(
    decoder: DecoderMinSumBP,
    g: TannerGraph,
    channel_llr: Seq<i64>,
    syndrome: Seq<bool>,
)
    requires
        g.wf(),
        channel_llr.len() == g.n,
        syndrome.len() == g.m,
        forall|b: int| 0 <= b < g.n ==> channel_llr[b] > 0,
        forall|c: int| 0 <= c < g.m ==> !syndrome[c],
        decoder.max_iter >= 1,
    ensures
        first_convergence(g, channel_prior(channel_llr), syndrome, decoder.max_iter as nat)
            == Some(0nat),
        decode_report(&decoder, g, channel_llr, syndrome) == DecodeReport::Correction(
            Seq::new(g.n, |b: int| 0u8),
        ),
{
    let max_iter = decoder.max_iter as nat;
    let prior = channel_prior(channel_llr);
    let checks = check_messages_in(g, prior, syndrome, 0);
    let decision = decision_in(g, prior, syndrome, 0);
    let none = Seq::new(g.n, |b: int| 0u8);
    lemma2_to64();
    assert forall|c: int, j: int| 0 <= c < g.m && 0 <= j < g.dc implies #[trigger] checks[c][j]
        == 0 by {}
    assert forall|b: int| 0 <= b < g.n implies #[trigger] decision[b] == 0u8 by {
        let arriving = arriving_at_bit(g, checks, b);
        assert forall|k: int| 0 <= k < arriving.len() implies arriving[k] == 0 by {
            lemma_bit_edge_round_trip(g, b, k);
        }
        lemma_total_of_zeros(arriving, arriving.len() as int);
    }
    assert(decision =~= none);
    assert forall|c: int| 0 <= c < g.m implies #[trigger] g.syndrome_of(none)[c] == syndrome[c] by {
        assert forall|k: int| 0 <= k < g.check_to_bits[c].len() implies 0
            <= #[trigger] g.check_to_bits[c][k] < none.len() by {
            lemma_check_edge_round_trip(g, c, k);
        }
        lemma_row_sum_without_flips(g.check_to_bits[c], none);
    }
    assert(g.syndrome_of(none) =~= syndrome);
    assert(first_convergence(g, prior, syndrome, 0) is None);
    lemma_first_convergence_stays(g, prior, syndrome, 1, max_iter);
}

/// No round converges to a syndrome that no flip pattern implies.
proof fn lemma_no_round_converges(
    g: TannerGraph,
    prior: Seq<int>,
    syndrome: Seq<bool>,
    budget: nat,
)
    requires
        forall|flips: Seq<u8>| flips.len() == g.n ==> #[trigger] g.syndrome_of(flips) != syndrome,
    ensures
        first_convergence(g, prior, syndrome, budget) is None,
    decreases budget,
{
    if budget > 0 {
        lemma_no_round_converges(g, prior, syndrome, (budget - 1) as nat);
    }
}

/// Bounded iteration: for a syndrome that no flip pattern implies, min-sum
/// decoding reports non-convergence after exactly `max_iter` rounds, with the
/// hard decision of the last round, whatever the channel values.
pub proof fn lemma_unreachable_syndrome_exhausts(
    decoder: DecoderMinSumBP,
    g: TannerGraph,
    channel_llr: Seq<i64>,
    syndrome: Seq<bool>,
)
    requires
        channel_llr.len() == g.n,
        syndrome.len() == g.m,
        forall|flips: Seq<u8>| flips.len() == g.n ==> #[trigger] g.syndrome_of(flips) != syndrome,
    ensures
        decode_report(&decoder, g, channel_llr, syndrome) == (DecodeReport::NonConvergence {
            hard_decision: last_decision(
                g,
                channel_prior(channel_llr),
                syndrome,
                decoder.max_iter as nat,
            ),
            iterations: decoder.max_iter as nat,
        }),
{
    lemma_no_round_converges(g, channel_prior(channel_llr), syndrome, decoder.max_iter as nat);
}

} // verus!
