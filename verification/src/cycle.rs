//! Counting through a cycle: every selection uses up one enabled channel,
//! so the selections of a cycle are distinct and in the end cover every
//! channel that was enabled.

use vstd::prelude::*;
use crate::available_channels::{lemma_select_in_plan, PoolState, Step};
use crate::behaviour::{answer_to, lemma_step_in_plan, state_after};
use crate::channel_mask::all_enabled;
use crate::join_channels::JoinState;

verus! {

/// How many of the first `n` channels are enabled.
pub open spec fn enabled_below(mask: Seq<bool>, n: nat) -> nat
    decreases n,
{
    if n == 0 {
        0
    } else {
        enabled_below(mask, (n - 1) as nat) + if mask[n - 1] {
            1nat
        } else {
            0nat
        }
    }
}

/// How many of the 72 channels are enabled.
pub open spec fn enabled_count(mask: Seq<bool>) -> nat {
    enabled_below(mask, 72)
}

/// How many of the first `n` requests were answered with a channel.
pub open spec fn picks(start: JoinState, events: Seq<Option<u32>>, n: nat) -> nat
    decreases n,
{
    if n == 0 {
        0
    } else {
        picks(start, events, (n - 1) as nat) + if answer_to(start, events, (n - 1) as nat) is Chosen {
            1nat
        } else {
            0nat
        }
    }
}

/// Disabling an enabled channel takes one from the count.
pub proof fn lemma_count_after_disable(mask: Seq<bool>, c: int, n: nat)
    requires
        0 <= c < mask.len(),
        n <= mask.len(),
        mask[c],
    ensures
        enabled_below(mask.update(c, false), n) + (if c < n {
            1nat
        } else {
            0nat
        }) == enabled_below(mask, n),
    decreases n,
{
    if n > 0 {
        lemma_count_after_disable(mask, c, (n - 1) as nat);
    }
}

/// The count is zero exactly where no channel is enabled.
pub proof fn lemma_count_zero(mask: Seq<bool>, n: nat)
    requires
        n <= mask.len(),
    ensures
        (enabled_below(mask, n) == 0) == (forall|i: int| 0 <= i < n ==> !#[trigger] mask[i]),
    decreases n,
{
    if n > 0 {
        lemma_count_zero(mask, (n - 1) as nat);
    }
}

/// With every channel enabled the count is the number of channels.
pub proof fn lemma_count_full(n: nat)
    requires
        n <= 72,
    ensures
        enabled_below(all_enabled(), n) == n,
    decreases n,
{
    if n > 0 {
        lemma_count_full((n - 1) as nat);
    }
}

/// Whether `start` is in the middle of a cycle with no bias active.
pub open spec fn in_cycle(start: JoinState) -> bool {
    start.wf() && !start.biased() && start.pool.previous is Some
}

/// Through a cycle, as long as fewer selections were made than channels
/// were enabled at its start: every selection was enabled at the start and
/// is disabled afterwards, nothing else is disabled, and the enabled
/// channels are as many fewer as selections were made.
pub proof fn lemma_cycle_counts(start: JoinState, events: Seq<Option<u32>>, n: nat)
    requires
        in_cycle(start),
        n <= events.len(),
        n > 0 ==> picks(start, events, (n - 1) as nat) < enabled_count(start.pool.mask),
    ensures
        in_cycle(state_after(start, events, n)),
        enabled_count(state_after(start, events, n).pool.mask) + picks(start, events, n)
            == enabled_count(start.pool.mask),
        forall|x: int|
            0 <= x < 72 && #[trigger] state_after(start, events, n).pool.mask[x]
                ==> start.pool.mask[x],
        forall|i: nat|
            i < n ==> (#[trigger] answer_to(start, events, i) matches Step::Chosen(c) ==> c < 72
                && start.pool.mask[c as int] && !state_after(start, events, n).pool.mask[c as int]),
        forall|x: int|
            0 <= x < 72 && start.pool.mask[x] && !#[trigger] state_after(
                start,
                events,
                n,
            ).pool.mask[x] ==> exists|i: nat|
                i < n && #[trigger] answer_to(start, events, i) == Step::Chosen(x as usize),
    decreases n,
{
    if n > 0 {
        let m = (n - 1) as nat;
        lemma_cycle_counts(start, events, m);
        let before = state_after(start, events, m);
        let after = state_after(start, events, n);
        let step = answer_to(start, events, m);
        assert(after == before.step(events[m as int]).0);
        lemma_count_zero(before.pool.mask, 72);
        assert(!before.pool.exhausted());
        lemma_step_in_plan(before, events[m as int]);
        lemma_select_in_plan(before.pool, events[m as int]);
        match step {
            Step::Chosen(c) => {
                assert(after.pool == before.pool.mark(c));
                lemma_count_after_disable(before.pool.mask, c as int, 72);
                assert forall|x: int|
                    0 <= x < 72 && start.pool.mask[x] && !#[trigger] after.pool.mask[x] implies exists|
                    i: nat,
                |
                    i < n && #[trigger] answer_to(start, events, i) == Step::Chosen(x as usize) by {
                    if x == c {
                        assert(answer_to(start, events, m) == Step::Chosen(x as usize));
                    } else {
                        assert(!before.pool.mask[x]);
                    }
                }
            },
            Step::NeedEntropy => {
                assert(after == before);
            },
        }
    }
}

/// Within a cycle no channel is selected twice.
pub proof fn lemma_picks_distinct(start: JoinState, events: Seq<Option<u32>>, i: nat, j: nat)
    requires
        in_cycle(start),
        i < j < events.len(),
        picks(start, events, j) < enabled_count(start.pool.mask),
    ensures
        answer_to(start, events, j) matches Step::Chosen(c) ==> start.pool.mask[c as int]
            && answer_to(start, events, i) != Step::Chosen(c),
{
    lemma_cycle_counts(start, events, j);
    let state = state_after(start, events, j);
    lemma_count_zero(state.pool.mask, 72);
    assert(!state.pool.exhausted());
    lemma_select_in_plan(state.pool, events[j as int]);
}

/// Once as many selections were made as channels were enabled at the start,
/// every one of those channels has been selected.
pub proof fn lemma_picks_cover(start: JoinState, events: Seq<Option<u32>>, n: nat, x: int)
    requires
        in_cycle(start),
        n <= events.len(),
        n > 0 ==> picks(start, events, (n - 1) as nat) < enabled_count(start.pool.mask),
        picks(start, events, n) == enabled_count(start.pool.mask),
        0 <= x < 72,
        start.pool.mask[x],
    ensures
        state_after(start, events, n).pool.exhausted(),
        exists|i: nat| i < n && #[trigger] answer_to(start, events, i) == Step::Chosen(x as usize),
{
    lemma_cycle_counts(start, events, n);
    let state = state_after(start, events, n);
    lemma_count_zero(state.pool.mask, 72);
    assert(!state.pool.mask[x]);
}

/// After the last permitted biased attempt on a fresh pool, which took
/// channel `c`: the requests that follow select 71 channels before the pool
/// is exhausted, none of them `c`, no two of them the same, and in the end
/// every channel but `c`.
pub proof fn lemma_cycle_after_bias(
    state: JoinState,
    word: u32,
    events: Seq<Option<u32>>,
    i: nat,
    j: nat,
    n: nat,
    x: int,
)
    requires
        state.wf(),
        state.biased(),
        state.num_retries + 1 == state.max_retries,
        state.pool == PoolState::fresh(),
    ensures
        ({
            let c = state.biased_channel(word);
            let start = state.step(Some(word)).0;
            &&& state.step(Some(word)).1 == Step::Chosen(c)
            &&& in_cycle(start)
            &&& enabled_count(start.pool.mask) == 71
            &&& i < j < events.len() && picks(start, events, j) < 71 ==> (answer_to(
                start,
                events,
                j,
            ) matches Step::Chosen(b) ==> b != c && answer_to(start, events, i) != Step::Chosen(b))
            &&& j < events.len() && picks(start, events, j) < 71 ==> answer_to(start, events, j)
                != Step::Chosen(c)
            &&& 0 < n <= events.len() && picks(start, events, (n - 1) as nat) < 71 && picks(
                start,
                events,
                n,
            ) == 71 && 0 <= x < 72 && x != c ==> exists|k: nat|
                k < n && #[trigger] answer_to(start, events, k) == Step::Chosen(x as usize)
        }),
{
    let c = state.biased_channel(word);
    let start = state.step(Some(word)).0;
    lemma_step_in_plan(state, Some(word));
    assert(start.pool == PoolState::fresh().mark(c));
    lemma_count_full(72);
    assert(all_enabled()[c as int]);
    lemma_count_after_disable(all_enabled(), c as int, 72);
    if j < events.len() && picks(start, events, j) < 71 {
        lemma_cycle_counts(start, events, j);
        let at = state_after(start, events, j);
        lemma_count_zero(at.pool.mask, 72);
        assert(!at.pool.exhausted());
        lemma_select_in_plan(at.pool, events[j as int]);
        if i < j {
            lemma_picks_distinct(start, events, i, j);
        }
    }
    if 0 < n <= events.len() && picks(start, events, (n - 1) as nat) < 71 && picks(
        start,
        events,
        n,
    ) == 71 && 0 <= x < 72 && x != c {
        lemma_picks_cover(start, events, n, x);
    }
}

} // verus!
