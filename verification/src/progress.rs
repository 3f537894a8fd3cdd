//! Why a request can always be answered with a channel: the bank that is
//! searched holds an enabled channel, so some random word leads to a
//! selection. In a cycle that began in the ordinary way that bank is the one
//! at which the walk arrives.

use vstd::prelude::*;
use crate::available_channels::{
    bank_to_search, lemma_bank_to_search, lemma_select_in_plan, offset_at, search_from, PoolState,
    Step,
};
use crate::behaviour::{distance, lemma_every_channel_in_plan, lemma_step_in_plan, state_after};
use crate::channel_mask::all_enabled;
use crate::join_channels::JoinState;

verus! {

/// The shape of the mask in the middle of a cycle. The walk along the lane
/// of the last selection began at `origin` and has disabled the channels of
/// that lane from `origin` up to the last selection; every other lane is
/// either untouched or used up.
pub open spec fn lane_order(pool: PoolState, origin: usize) -> bool {
    &&& pool.previous is Some
    &&& origin < 72
    &&& origin % 8 == pool.previous->0 % 8
    &&& forall|c: int|
        0 <= c < 72 && c % 8 == origin % 8 ==> (#[trigger] pool.mask[c] == (distance(origin, c)
            > distance(origin, pool.previous->0 as int)))
    &&& forall|c: int, d: int|
        0 <= c < 72 && 0 <= d < 72 && c % 8 == d % 8 && c % 8 != origin % 8 ==> #[trigger] pool.mask[c]
            == #[trigger] pool.mask[d]
}

/// A state in which the cycle runs in order: the pool is fresh, or its mask
/// has the shape of [`lane_order`]; and biased attempts are only pending on
/// a fresh pool.
pub open spec fn orderly_at(state: JoinState, origin: usize) -> bool {
    &&& state.wf()
    &&& state.pool.previous is None || lane_order(state.pool, origin)
    &&& state.biased() ==> state.pool.previous is None
}

/// A state in which the cycle runs in order, see [`orderly_at`].
pub open spec fn orderly(state: JoinState) -> bool {
    exists|origin: usize| orderly_at(state, origin)
}

/// Where the walk began after a request: at the channel selected, if the
/// request began a cycle or left the lane; else where it began before.
pub open spec fn origin_after(state: JoinState, origin: usize, entropy: Option<u32>) -> usize {
    match state.step(entropy).1 {
        Step::Chosen(c) => if state.pool.previous is None || state.pool.exhausted() || c % 8
            != origin % 8 {
            c
        } else {
            origin
        },
        Step::NeedEntropy => origin,
    }
}

proof fn lemma_low_offset(m: u32)
    by (bit_vector)
    requires
        m < 8,
    ensures
        (m >> 0u32) & 7u32 == m,
{
}

/// A request keeps the cycle in order.
pub proof fn lemma_step_keeps_order(state: JoinState, origin: usize, entropy: Option<u32>)
    requires
        orderly_at(state, origin),
    ensures
        orderly_at(state.step(entropy).0, origin_after(state, origin, entropy)),
{
    let (after, step) = state.step(entropy);
    lemma_step_in_plan(state, entropy);
    if let Step::Chosen(c) = step {
        if state.biased() {
            if after.pool.previous is Some {
                lemma_order_begins(state.pool, c);
            }
        } else {
            let start = state.pool.restart();
            lemma_select_in_plan(start, entropy);
            if start.previous is None {
                assert(start.mask == all_enabled());
                lemma_order_begins(start, c);
            } else {
                let p = start.previous->0;
                let next = (p + 8) % 72;
                assert(start == state.pool);
                if start.mask[next] {
                    assert(c == next);
                    lemma_order_goes_on(start, origin);
                } else {
                    lemma_order_turns(start, origin, c);
                }
            }
        }
    }
}

/// The first selection of a cycle puts the mask in order.
proof fn lemma_order_begins(pool: PoolState, c: usize)
    requires
        pool.mask == all_enabled(),
        c < 72,
    ensures
        lane_order(pool.mark(c), c),
{
}

/// A step along the lane keeps the mask in order.
proof fn lemma_order_goes_on(pool: PoolState, origin: usize)
    requires
        pool.wf(),
        lane_order(pool, origin),
        pool.mask[(pool.previous->0 + 8) % 72],
    ensures
        lane_order(pool.mark(((pool.previous->0 + 8) % 72) as usize), origin),
        ((pool.previous->0 + 8) % 72) % 8 == origin % 8,
{
    let p = pool.previous->0 as int;
    let next = (p + 8) % 72;
    assert(next == if p + 8 < 72 {
        p + 8
    } else {
        p + 8 - 72
    });
    let after = pool.mark(next as usize);
    assert(next % 8 == origin % 8);
    assert(distance(origin, next) > distance(origin, p));
    assert(distance(origin, next) == distance(origin, p) + 8);
    assert forall|c: int| 0 <= c < 72 && c % 8 == origin % 8 implies (#[trigger] after.mask[c] == (
    distance(origin, c) > distance(origin, next))) by {
        assert(pool.mask[c] == (distance(origin, c) > distance(origin, p)));
        assert(distance(origin, c) % 8 == 0);
        assert(distance(origin, p) % 8 == 0);
        if distance(origin, c) == distance(origin, next) {
            assert(c == next);
        }
    }
    assert forall|c: int, d: int|
        0 <= c < 72 && 0 <= d < 72 && c % 8 == d % 8 && c % 8 != origin % 8 implies #[trigger] after.mask[c]
        == #[trigger] after.mask[d] by {
        assert(pool.mask[c] == pool.mask[d]);
    }
}

/// Where the lane is used up, the walk is back at the bank where it began.
proof fn lemma_lane_used_up(pool: PoolState, origin: usize, c: int)
    requires
        pool.wf(),
        lane_order(pool, origin),
        !pool.mask[(pool.previous->0 + 8) % 72],
        0 <= c < 72,
        c % 8 == origin % 8,
    ensures
        (pool.previous->0 + 8) % 72 == origin,
        !pool.mask[c],
{
    let p = pool.previous->0 as int;
    let next = (p + 8) % 72;
    assert(next == if p + 8 < 72 {
        p + 8
    } else {
        p + 8 - 72
    });
    assert(next % 8 == origin % 8);
    assert(pool.mask[next] == (distance(origin, next) > distance(origin, p)));
    assert(distance(origin, p) % 8 == 0);
    assert(distance(origin, next) % 8 == 0);
    assert(distance(origin, p) == 64);
    assert(pool.mask[c] == (distance(origin, c) > distance(origin, p)));
    assert(distance(origin, c) % 8 == 0);
}

/// Leaving a lane that is used up for another one keeps the mask in order.
proof fn lemma_order_turns(pool: PoolState, origin: usize, c: usize)
    requires
        pool.wf(),
        lane_order(pool, origin),
        !pool.mask[(pool.previous->0 + 8) % 72],
        c < 72,
        pool.mask[c as int],
    ensures
        c % 8 != origin % 8,
        lane_order(pool.mark(c), c),
{
    let after = pool.mark(c);
    if c % 8 == origin % 8 {
        lemma_lane_used_up(pool, origin, c as int);
    }
    assert forall|x: int| 0 <= x < 72 && x % 8 == c % 8 implies (#[trigger] after.mask[x] == (
    distance(c, x) > distance(c, c as int))) by {
        assert(pool.mask[x] == pool.mask[c as int]);
    }
    assert forall|x: int, d: int|
        0 <= x < 72 && 0 <= d < 72 && x % 8 == d % 8 && x % 8 != c % 8 implies #[trigger] after.mask[x]
        == #[trigger] after.mask[d] by {
        if x % 8 == origin % 8 {
            lemma_lane_used_up(pool, origin, x);
            lemma_lane_used_up(pool, origin, d);
        } else {
            assert(pool.mask[x] == pool.mask[d]);
        }
    }
}

/// From every state of the selector some random word leads to a selection:
/// no request has to be repeated for ever.
pub proof fn lemma_some_word_selects(state: JoinState)
    requires
        state.wf(),
    ensures
        exists|word: u32| #[trigger] state.step(Some(word)).1 is Chosen,
{
    let pool = state.pool.restart();
    if state.biased() || pool.previous is None {
        assert(state.step(Some(0u32)).1 is Chosen);
    } else {
        let p = pool.previous->0 as int;
        let next = (p + 8) % 72;
        assert(pool == state.pool);
        if pool.mask[next] {
            assert(state.step(Some(0u32)).1 is Chosen);
        } else {
            lemma_bank_to_search(pool.mask, next / 8);
            let bank = bank_to_search(pool.mask, next / 8);
            let c = choose|c: int| bank * 8 <= c < bank * 8 + 8 && pool.mask[c];
            let lane = (c - bank * 8) as u32;
            lemma_low_offset(lane);
            assert(offset_at(lane, 0) == c - bank * 8);
            assert(search_from(pool.mask, bank, lane, 0) == Some(c as usize));
            assert(state.step(Some(lane)).1 is Chosen);
        }
    }
}

/// Whatever requests were made, some random word leads to a selection at
/// the next one.
pub proof fn lemma_run_never_stalls(start: JoinState, events: Seq<Option<u32>>, n: nat)
    requires
        start.wf(),
        n <= events.len(),
    ensures
        state_after(start, events, n).wf(),
        exists|word: u32| #[trigger] state_after(start, events, n).step(Some(word)).1 is Chosen,
{
    if n > 0 {
        lemma_every_channel_in_plan(start, events, (n - 1) as nat);
    }
    lemma_some_word_selects(state_after(start, events, n));
}

/// In an orderly state the search stays in the bank at which the walk
/// arrives: that bank still holds an enabled channel.
pub proof fn lemma_orderly_search_stays(state: JoinState, origin: usize)
    requires
        orderly_at(state, origin),
        state.pool.previous is Some,
        !state.pool.exhausted(),
        !state.pool.mask[(state.pool.previous->0 + 8) % 72],
    ensures
        bank_to_search(state.pool.mask, (state.pool.previous->0 + 8) % 72 / 8) == (
        state.pool.previous->0 + 8) % 72 / 8,
{
    let pool = state.pool;
    let next = (pool.previous->0 + 8) % 72;
    let c = choose|c: int| 0 <= c < 72 && pool.mask[c];
    if c % 8 == origin % 8 {
        lemma_lane_used_up(pool, origin, c);
    }
    lemma_lane_used_up(pool, origin, origin as int);
    let found = (next / 8) * 8 + c % 8;
    assert(pool.mask[found] == pool.mask[c]);
    lemma_bank_to_search(pool.mask, next / 8);
}

/// A run of requests that starts in an orderly state stays orderly.
pub proof fn lemma_run_stays_orderly(start: JoinState, events: Seq<Option<u32>>, n: nat)
    requires
        orderly(start),
        n <= events.len(),
    ensures
        orderly(state_after(start, events, n)),
    decreases n,
{
    if n > 0 {
        lemma_run_stays_orderly(start, events, (n - 1) as nat);
        let before = state_after(start, events, (n - 1) as nat);
        let origin = choose|origin: usize| orderly_at(before, origin);
        lemma_step_keeps_order(before, origin, events[n - 1]);
    }
}

/// A new selector is orderly, and so is one whose cycle was restarted,
/// whatever bias is configured.
pub proof fn lemma_restart_is_orderly(state: JoinState)
    ensures
        orderly(JoinState::initial()),
        orderly(state.restarted()),
{
    assert(orderly_at(JoinState::initial(), 0));
    assert(orderly_at(state.restarted(), 0));
}

} // verus!
