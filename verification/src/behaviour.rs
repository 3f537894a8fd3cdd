//! What holds of the selector over one request and over runs of requests.

use vstd::prelude::*;
use crate::available_channels::{
    lemma_bank_to_search, lemma_search_from, lemma_select_in_plan, PoolState, Step,
};
use crate::channel_mask::{all_enabled, bank_clear};
use crate::join_channels::JoinState;
use crate::subband::Subband;

verus! {

/// The state after the first `n` of the requests `events`, made in order.
pub open spec fn state_after(start: JoinState, events: Seq<Option<u32>>, n: nat) -> JoinState
    decreases n,
{
    if n == 0 {
        start
    } else {
        state_after(start, events, (n - 1) as nat).step(events[n - 1]).0
    }
}

/// The answer to request `n` of `events`, counted from zero.
pub open spec fn answer_to(start: JoinState, events: Seq<Option<u32>>, n: nat) -> Step {
    state_after(start, events, n).step(events[n as int]).1
}

/// Channel `k` banks on from `channel`, in the same lane.
pub open spec fn banks_on(channel: usize, k: int) -> usize {
    ((channel + 8 * k) % 72) as usize
}

/// One request keeps the state well formed, and a channel it selects is a
/// channel of the plan. The attempts made on the preferred subband do not
/// pass the attempts permitted.
pub proof fn lemma_step_in_plan(state: JoinState, entropy: Option<u32>)
    requires
        state.wf(),
    ensures
        state.step(entropy).0.wf(),
        state.step(entropy).1 matches Step::Chosen(c) ==> c < 72,
        state.num_retries <= state.max_retries ==> state.step(entropy).0.num_retries
            <= state.step(entropy).0.max_retries,
        state.step(entropy).0.max_retries == state.max_retries,
        state.step(entropy).0.preferred_subband == state.preferred_subband,
{
    if !state.biased() {
        lemma_select_in_plan(state.pool.restart(), entropy);
    }
}

/// Whatever requests are made, and however many, every channel selected is
/// a channel of the plan.
pub proof fn lemma_every_channel_in_plan(start: JoinState, events: Seq<Option<u32>>, n: nat)
    requires
        start.wf(),
        n < events.len(),
    ensures
        state_after(start, events, n).wf(),
        state_after(start, events, n + 1).wf(),
        answer_to(start, events, n) matches Step::Chosen(c) ==> c < 72,
    decreases n,
{
    if n > 0 {
        lemma_every_channel_in_plan(start, events, (n - 1) as nat);
    }
    lemma_step_in_plan(state_after(start, events, n), events[n as int]);
}

/// One call of the selector.
pub enum Call {
    /// Install a bias: the subband and the attempts permitted.
    SetBias(Subband, usize),
    /// Remove the bias.
    ClearBias,
    /// Start the next join cycle.
    Reset,
    /// Ask for the next channel, with or without a random word.
    Next(Option<u32>),
}

/// The state after one call.
pub open spec fn apply(state: JoinState, call: Call) -> JoinState {
    match call {
        Call::SetBias(subband, max_retries) => state.with_bias(subband, max_retries),
        Call::ClearBias => state.without_bias(),
        Call::Reset => state.restarted(),
        Call::Next(entropy) => state.step(entropy).0,
    }
}

/// The state after the first `n` of `calls`, made in order.
pub open spec fn state_after_calls(start: JoinState, calls: Seq<Call>, n: nat) -> JoinState
    decreases n,
{
    if n == 0 {
        start
    } else {
        apply(state_after_calls(start, calls, (n - 1) as nat), calls[n - 1])
    }
}

/// Whatever calls are made, in whatever order, the state stays well formed
/// and every channel that a request selects is a channel of the plan.
pub proof fn lemma_calls_stay_in_plan(start: JoinState, calls: Seq<Call>, n: nat)
    requires
        start.wf(),
        n < calls.len(),
    ensures
        state_after_calls(start, calls, n).wf(),
        state_after_calls(start, calls, n + 1).wf(),
        calls[n as int] matches Call::Next(entropy) ==> (state_after_calls(start, calls, n).step(
            entropy,
        ).1 matches Step::Chosen(c) ==> c < 72),
    decreases n,
{
    if n > 0 {
        lemma_calls_stay_in_plan(start, calls, (n - 1) as nat);
    }
    if let Call::Next(entropy) = calls[n as int] {
        lemma_step_in_plan(state_after_calls(start, calls, n), entropy);
    }
}

/// Without an active bias, the first selection of a cycle needs a random
/// word and is a standard channel: the low six bits of the word, never a
/// channel of the wide bank.
pub proof fn lemma_first_pick_is_standard(state: JoinState, entropy: Option<u32>)
    requires
        state.wf(),
        !state.biased(),
        state.pool.previous is None,
    ensures
        entropy is None ==> state.step(entropy) == (state, Step::NeedEntropy),
        entropy matches Some(word) ==> state.step(entropy).1 == Step::Chosen(
            (word & 63u32) as usize,
        ),
        state.step(entropy).1 matches Step::Chosen(c) ==> c < 64,
{
    assert(state.pool.mask[0]);
    lemma_select_in_plan(state.pool, entropy);
}

/// Without an active bias, the channel selected after channel `c` is the one
/// eight on, wrapping at 72, as long as that one is still enabled; no random
/// word is needed for it.
pub proof fn lemma_paired_step(state: JoinState, c: usize, entropy: Option<u32>)
    requires
        state.wf(),
        !state.biased(),
        state.pool.previous == Some(c),
        state.pool.mask[banks_on(c, 1) as int],
    ensures
        state.step(entropy).1 == Step::Chosen(banks_on(c, 1)),
        state.step(entropy).0.pool == state.pool.mark(banks_on(c, 1)),
{
}

/// The last permitted biased attempt takes one of the eight channels of the
/// preferred subband and enters it into the pool; with a single attempt
/// permitted and a fresh pool, the selection after it is the channel eight on.
pub proof fn lemma_bias_range(state: JoinState, subband: Subband, word: u32, entropy: Option<u32>)
    requires
        state.wf(),
        state.pool == PoolState::fresh(),
        state.preferred_subband == Some(subband),
        state.num_retries == 0,
        state.max_retries == 1,
    ensures
        ({
            let (second, first) = state.step(Some(word));
            &&& first matches Step::Chosen(c)
            &&& subband.spec_first_channel() <= c <= subband.spec_first_channel() + 7
            &&& c == subband.spec_first_channel() + word % 8
            &&& !second.biased()
            &&& second.pool == state.pool.mark(c)
            &&& second.step(entropy).1 == Step::Chosen((c + 8) as usize)
        }),
{
    let (second, first) = state.step(Some(word));
    let c = state.biased_channel(word);
    assert(second.pool.mask[c + 8]);
}

/// A channel that is disabled is not selected, and stays disabled, as long
/// as the cycle goes on: the pool has a last selection, is not exhausted,
/// and no bias is active.
pub proof fn lemma_disabled_stays_out(state: JoinState, channel: usize, entropy: Option<u32>)
    requires
        state.wf(),
        !state.biased(),
        state.pool.previous is Some,
        !state.pool.exhausted(),
        channel < 72,
        !state.pool.mask[channel as int],
    ensures
        state.step(entropy).1 != Step::Chosen(channel),
        !state.step(entropy).0.pool.mask[channel as int],
        !state.step(entropy).0.biased(),
        state.step(entropy).0.pool.previous is Some,
{
    lemma_select_in_plan(state.pool, entropy);
}

/// The channel of the last permitted biased attempt is not selected again
/// by the requests that follow it, up to the request at which the pool is
/// found exhausted and starts a new cycle.
pub proof fn lemma_bias_boundary(
    state: JoinState,
    word: u32,
    events: Seq<Option<u32>>,
    n: nat,
)
    requires
        state.wf(),
        state.biased(),
        state.num_retries + 1 == state.max_retries,
        n < events.len(),
        forall|i: nat| i <= n ==> !(#[trigger] state_after(
            state.step(Some(word)).0,
            events,
            i,
        )).pool.exhausted(),
    ensures
        state.step(Some(word)).1 == Step::Chosen(state.biased_channel(word)),
        answer_to(state.step(Some(word)).0, events, n) != Step::Chosen(state.biased_channel(word)),
{
    lemma_after_boundary(state.step(Some(word)).0, state.biased_channel(word), events, n);
}

/// Over a run in which the pool is never found exhausted, a channel that
/// was disabled at its start is selected by none of the requests.
pub proof fn lemma_after_boundary(
    start: JoinState,
    channel: usize,
    events: Seq<Option<u32>>,
    n: nat,
)
    requires
        start.wf(),
        !start.biased(),
        start.pool.previous is Some,
        channel < 72,
        !start.pool.mask[channel as int],
        n < events.len(),
        forall|i: nat| i <= n ==> !(#[trigger] state_after(start, events, i)).pool.exhausted(),
    ensures
        answer_to(start, events, n) != Step::Chosen(channel),
        !state_after(start, events, n + 1).pool.mask[channel as int],
        !state_after(start, events, n + 1).biased(),
        state_after(start, events, n + 1).pool.previous is Some,
        state_after(start, events, n + 1).wf(),
    decreases n,
{
    if n > 0 {
        lemma_after_boundary(start, channel, events, (n - 1) as nat);
    }
    let state = state_after(start, events, n);
    lemma_step_in_plan(state, events[n as int]);
    lemma_disabled_stays_out(state, channel, events[n as int]);
}

/// How far `channel` is from `origin`, counted upwards and wrapping at 72.
pub open spec fn distance(origin: usize, channel: int) -> int {
    if channel >= origin {
        channel - origin
    } else {
        channel + 72 - origin
    }
}

/// Whether `channel` is one of the `k` channels that follow `origin` in its
/// lane, bank by bank.
#[verifier::opaque]
pub open spec fn on_walk(origin: usize, channel: int, k: nat) -> bool {
    distance(origin, channel) % 8 == 0 && 8 <= distance(origin, channel) <= 8 * k
}

/// The channel `k` banks on, without the remainder: 72 is taken off once
/// where the sum passes the last channel.
pub proof fn lemma_banks_on(origin: usize, k: int)
    requires
        origin < 72,
        0 <= k <= 8,
    ensures
        banks_on(origin, k) == if origin + 8 * k < 72 {
            origin + 8 * k
        } else {
            origin + 8 * k - 72
        },
{
}

/// The walk of `k` banks from `origin` is the walk of one bank less and the
/// channel `k` banks on; it never comes back to `origin` within eight banks.
#[verifier::spinoff_prover]
pub proof fn lemma_walk_grows(origin: usize, channel: int, k: nat)
    requires
        origin < 72,
        0 <= channel < 72,
        1 <= k <= 8,
    ensures
        on_walk(origin, channel, k) == (on_walk(origin, channel, (k - 1) as nat) || channel
            == banks_on(origin, k as int)),
        !on_walk(origin, banks_on(origin, k as int) as int, (k - 1) as nat),
        !on_walk(origin, origin as int, k),
        banks_on(banks_on(origin, k - 1), 1) == banks_on(origin, k as int),
        banks_on(origin, k as int) < 72,
        banks_on(origin, 0) == origin,
        channel % 8 != origin % 8 ==> !on_walk(origin, channel, k),
{
    reveal(on_walk);
    let target = banks_on(origin, k as int) as int;
    let before = banks_on(origin, k - 1) as int;
    lemma_banks_on(origin, k as int);
    lemma_banks_on(origin, k - 1);
    lemma_banks_on(origin, 0);
    lemma_banks_on(before as usize, 1);
    assert(distance(origin, target) == 8 * k);
    assert(banks_on(before as usize, 1) == target);
    if distance(origin, channel) == 8 * k {
        assert(channel == target);
    }
    if channel % 8 != origin % 8 {
        assert(distance(origin, channel) % 8 != 0);
    }
}

/// A walk along a lane: where the state reached after `from` requests has
/// `p` as its last selection, no active bias, and the `k` channels after
/// `p` in its lane enabled, the next `k` requests select exactly those, in
/// order, and disable nothing else.
pub proof fn lemma_lane_walk(
    start: JoinState,
    events: Seq<Option<u32>>,
    from: nat,
    p: usize,
    k: nat,
)
    requires
        state_after(start, events, from).wf(),
        !state_after(start, events, from).biased(),
        state_after(start, events, from).pool.previous == Some(p),
        k <= 8,
        from + k <= events.len(),
        forall|j: int|
            1 <= j <= k ==> state_after(start, events, from).pool.mask[#[trigger] banks_on(p, j) as int],
    ensures
        state_after(start, events, from + k).wf(),
        !state_after(start, events, from + k).biased(),
        state_after(start, events, from + k).pool.previous == Some(banks_on(p, k as int)),
        forall|c: int|
            0 <= c < 72 ==> #[trigger] state_after(start, events, from + k).pool.mask[c] == (
            state_after(start, events, from).pool.mask[c] && !on_walk(p, c, k)),
        k >= 1 ==> answer_to(start, events, (from + k - 1) as nat) == Step::Chosen(
            banks_on(p, k as int),
        ),
    decreases k,
{
    let origin = state_after(start, events, from);
    if k > 0 {
        lemma_lane_walk(start, events, from, p, (k - 1) as nat);
        let before = state_after(start, events, (from + k - 1) as nat);
        let next = banks_on(p, k as int);
        lemma_walk_grows(p, next as int, k);
        assert(origin.pool.mask[next as int]);
        assert(before.pool.mask[next as int]);
        lemma_paired_step(before, banks_on(p, k - 1), events[from + k - 1]);
        let after = state_after(start, events, from + k);
        assert(after == before.step(events[from + k - 1]).0);
        assert(after.pool.mask == before.pool.mask.update(next as int, false));
        assert forall|c: int| 0 <= c < 72 implies #[trigger] after.pool.mask[c] == (
        origin.pool.mask[c] && !on_walk(p, c, k)) by {
            lemma_walk_grows(p, c, k);
            assert(before.pool.mask[c] == (origin.pool.mask[c] && !on_walk(p, c, (k - 1) as nat)));
        }
    } else {
        reveal(on_walk);
    }
}

/// Where the walk arrives at a used channel whose bank still holds an
/// enabled channel, the selection is made in that bank, with a random word:
/// it is an enabled channel of the bank, and until a word leads to one the
/// state stays as it is.
pub proof fn lemma_turn_in_bank(state: JoinState, q: usize, entropy: Option<u32>)
    requires
        state.wf(),
        !state.biased(),
        state.pool.previous == Some(q),
        !state.pool.mask[banks_on(q, 1) as int],
        !bank_clear(state.pool.mask, banks_on(q, 1) as int / 8),
    ensures
        entropy is None ==> state.step(entropy).1 is NeedEntropy,
        state.step(entropy).1 is NeedEntropy ==> state.step(entropy).0 == state,
        state.step(entropy).1 matches Step::Chosen(c) ==> c / 8 == banks_on(q, 1) / 8
            && state.pool.mask[c as int],
{
    let bank = banks_on(q, 1) as int / 8;
    let open = choose|c: int| bank * 8 <= c < bank * 8 + 8 && state.pool.mask[c];
    assert(state.pool.mask[open]);
    assert(!state.pool.exhausted());
    lemma_bank_to_search(state.pool.mask, bank);
    if let Some(word) = entropy {
        lemma_search_from(state.pool.mask, bank, word, 0);
    }
}

/// Once a lane has been walked all the way round, the next selection is
/// made in the bank where the walk began, on another channel: where `p` was
/// the last selection and is disabled, the eight channels after it in its
/// lane were enabled and the bank of `p` is not used up, the ninth
/// selection after `p` is in the bank of `p` and is not `p`. Until a random
/// word leads to an enabled channel of that bank, the state stays as it is.
pub proof fn lemma_lane_return(
    start: JoinState,
    events: Seq<Option<u32>>,
    from: nat,
    p: usize,
    entropy: Option<u32>,
)
    requires
        state_after(start, events, from).wf(),
        !state_after(start, events, from).biased(),
        state_after(start, events, from).pool.previous == Some(p),
        !state_after(start, events, from).pool.mask[p as int],
        from + 8 <= events.len(),
        forall|j: int|
            1 <= j <= 8 ==> state_after(start, events, from).pool.mask[#[trigger] banks_on(p, j) as int],
        !bank_clear(state_after(start, events, from + 8).pool.mask, p as int / 8),
    ensures
        forall|k: nat|
            1 <= k <= 8 ==> #[trigger] answer_to(start, events, (from + k - 1) as nat)
                == Step::Chosen(banks_on(p, k as int)),
        ({
            let state = state_after(start, events, from + 8);
            &&& entropy is None ==> state.step(entropy).1 is NeedEntropy
            &&& state.step(entropy).1 is NeedEntropy ==> state.step(entropy).0 == state
            &&& state.step(entropy).1 matches Step::Chosen(c) ==> c / 8 == p / 8 && c != p
        }),
{
    assert forall|k: nat| 1 <= k <= 8 implies #[trigger] answer_to(
        start,
        events,
        (from + k - 1) as nat,
    ) == Step::Chosen(banks_on(p, k as int)) by {
        lemma_lane_walk(start, events, from, p, k);
    }
    lemma_lane_walk(start, events, from, p, 8);
    let origin = state_after(start, events, from);
    let state = state_after(start, events, from + 8);
    lemma_walk_grows(p, p as int, 8);
    assert(!state.pool.mask[p as int]);
    assert(banks_on(banks_on(p, 8), 1) == p);
    lemma_turn_in_bank(state, banks_on(p, 8), entropy);
}

/// The channel that begins the walk of a cycle, given the random word of
/// the first request: the channel of the last permitted biased attempt
/// where a bias is active, else the low six bits of the word.
pub open spec fn first_channel(start: JoinState, word: u32) -> usize {
    if start.biased() {
        start.biased_channel(word)
    } else {
        (word & 63u32) as usize
    }
}

/// Starting a cycle, without active bias or with a single biased attempt
/// left: the first selection is a standard channel, the next eight follow it
/// bank by bank, and the tenth is back in the bank of the first, on another
/// channel.
pub proof fn lemma_bank_return(start: JoinState, events: Seq<Option<u32>>, entropy: Option<u32>)
    requires
        start.wf(),
        start.pool.previous is None,
        start.biased() ==> start.num_retries + 1 == start.max_retries,
        events.len() >= 9,
        events[0] is Some,
    ensures
        ({
            let first = first_channel(start, events[0]->0);
            let state = state_after(start, events, 9);
            &&& first < 64
            &&& answer_to(start, events, 0) == Step::Chosen(first)
            &&& forall|k: nat|
                1 <= k <= 8 ==> #[trigger] answer_to(start, events, k) == Step::Chosen(
                    banks_on(first, k as int),
                )
            &&& entropy is None ==> state.step(entropy).1 is NeedEntropy
            &&& state.step(entropy).1 is NeedEntropy ==> state.step(entropy).0 == state
            &&& state.step(entropy).1 matches Step::Chosen(c) ==> c / 8 == first / 8 && c != first
        }),
{
    let first = first_channel(start, events[0]->0);
    if !start.biased() {
        lemma_first_pick_is_standard(start, events[0]);
    }
    assert(state_after(start, events, 0) == start);
    let one = state_after(start, events, 1);
    assert(one == start.step(events[0]).0);
    assert(one.pool == start.pool.mark(first));
    assert(start.pool.mask == all_enabled());
    lemma_step_in_plan(start, events[0]);
    lemma_lane_walk(start, events, 1, first, 8);
    let other: int = if first % 8 == 0 {
        first / 8 * 8 + 1
    } else {
        first / 8 * 8
    };
    lemma_walk_grows(first, other, 8);
    assert(one.pool.mask[other]);
    assert(state_after(start, events, 9).pool.mask[other]);
    lemma_lane_return(start, events, 1, first, entropy);
    assert forall|k: nat| 1 <= k <= 8 implies #[trigger] answer_to(start, events, k)
        == Step::Chosen(banks_on(first, k as int)) by {
        assert(answer_to(start, events, (1 + k - 1) as nat) == Step::Chosen(
            banks_on(first, k as int),
        ));
    }
}

/// Removing the bias and then restarting the cycle gives the state of a new
/// selector, whatever the state was: the first selection is again the low
/// six bits of a random word.
pub proof fn lemma_clear_then_reset(state: JoinState, word: u32)
    ensures
        state.without_bias().restarted() == JoinState::initial(),
        state.without_bias().restarted().step(Some(word)).1 == Step::Chosen(
            (word & 63u32) as usize,
        ),
        (word & 63u32) < 64,
{
    assert(JoinState::initial().pool.mask[0]);
    assert(word & 63u32 < 64u32) by (bit_vector);
}

} // verus!
