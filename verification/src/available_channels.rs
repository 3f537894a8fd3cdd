//! The channel pool: which channels are still unused in the current cycle,
//! and the walk that picks the next one.

use vstd::prelude::*;
use crate::channel_mask::{all_clear, all_enabled, bank_clear, ChannelMask, NUM_BANKS};

verus! {

/// Number of three-bit offsets taken from one random word.
pub const OFFSETS_PER_WORD: u32 = 10;

/// What a request for the next channel comes to.
#[derive(Clone, Copy, Debug, PartialEq, Eq, Structural)]
pub enum Step {
    /// This channel was selected, and the state has moved on.
    Chosen(usize),
    /// A fresh random word is needed: ask again with one.
    NeedEntropy,
}

/// The `k`-th offset taken from `word`: three bits, lowest bits first.
pub open spec fn offset_at(word: u32, k: nat) -> int {
    ((word >> ((3 * k) as u32)) & 7u32) as int
}

/// The first enabled channel of `bank` among the candidates that `word`
/// yields from its `k`-th offset to its tenth, if there is one.
pub open spec fn search_from(mask: Seq<bool>, bank: int, word: u32, k: nat) -> Option<usize>
    decreases 10 - k,
{
    if k >= 10 {
        None
    } else if mask[bank * 8 + offset_at(word, k)] {
        Some((bank * 8 + offset_at(word, k)) as usize)
    } else {
        search_from(mask, bank, word, k + 1)
    }
}

/// The first enabled channel of `bank` among the ten candidates of `word`.
pub open spec fn search(mask: Seq<bool>, bank: int, word: u32) -> Option<usize> {
    search_from(mask, bank, word, 0)
}

/// Every offset is below eight.
pub proof fn lemma_offset_range(word: u32, k: nat)
    requires
        k < 10,
    ensures
        0 <= offset_at(word, k) < 8,
{
    let shift: u32 = (3 * k) as u32;
    assert((word >> shift) & 7u32 < 8u32) by (bit_vector);
}

/// A channel found by the search lies in the bank searched and is enabled;
/// the search fails only where none of the ten candidates is enabled.
pub proof fn lemma_search_from(mask: Seq<bool>, bank: int, word: u32, k: nat)
    requires
        0 <= bank < 9,
    ensures
        match search_from(mask, bank, word, k) {
            Some(c) => bank * 8 <= c < bank * 8 + 8 && mask[c as int],
            None => forall|j: nat| k <= j < 10 ==> !mask[bank * 8 + #[trigger] offset_at(word, j)],
        },
    decreases 10 - k,
{
    if k < 10 {
        lemma_offset_range(word, k);
        lemma_search_from(mask, bank, word, k + 1);
    }
}

/// The bank `skipped` banks on from `bank`, going round the nine banks.
pub open spec fn bank_round(bank: int, skipped: int) -> int {
    (bank + skipped) % 9
}

/// The first bank that holds an enabled channel, going round from the bank
/// `skipped` banks on from `bank` to the last before `bank`; `bank` itself
/// where none of them does.
pub open spec fn bank_to_search_from(mask: Seq<bool>, bank: int, skipped: nat) -> int
    decreases 9 - skipped,
{
    if skipped >= 9 {
        bank
    } else if !bank_clear(mask, bank_round(bank, skipped as int)) {
        bank_round(bank, skipped as int)
    } else {
        bank_to_search_from(mask, bank, skipped + 1)
    }
}

/// The bank in which a channel is looked for when the walk arrives at a used
/// channel of `bank`: `bank` itself where it still holds an enabled channel,
/// else the first bank after it, going round, that does; `bank` where no
/// channel is enabled at all.
#[verifier::opaque]
pub open spec fn bank_to_search(mask: Seq<bool>, bank: int) -> int {
    bank_to_search_from(mask, bank, 0)
}

/// The bank found is one of the nine; it holds an enabled channel unless
/// every bank from the one `skipped` banks on is clear.
pub proof fn lemma_bank_to_search_from(mask: Seq<bool>, bank: int, skipped: nat)
    requires
        0 <= bank < 9,
    ensures
        0 <= bank_to_search_from(mask, bank, skipped) < 9,
        !bank_clear(mask, bank_to_search_from(mask, bank, skipped)) || (bank_to_search_from(
            mask,
            bank,
            skipped,
        ) == bank && forall|t: int|
            skipped <= t < 9 ==> bank_clear(mask, #[trigger] bank_round(bank, t))),
    decreases 9 - skipped,
{
    if skipped < 9 {
        lemma_bank_to_search_from(mask, bank, skipped + 1);
    }
}

/// The bank to search is one of the nine. It is the bank asked for where
/// that holds an enabled channel, and it holds an enabled channel wherever
/// the mask has one at all.
pub proof fn lemma_bank_to_search(mask: Seq<bool>, bank: int)
    requires
        0 <= bank < 9,
        mask.len() == 72,
    ensures
        0 <= bank_to_search(mask, bank) < 9,
        !bank_clear(mask, bank) ==> bank_to_search(mask, bank) == bank,
        !all_clear(mask) ==> !bank_clear(mask, bank_to_search(mask, bank)),
{
    reveal(bank_to_search);
    lemma_bank_to_search_from(mask, bank, 0);
    assert(bank_round(bank, 0) == bank);
    if !all_clear(mask) && bank_clear(mask, bank_to_search(mask, bank)) {
        let c = choose|c: int| 0 <= c < 72 && mask[c];
        let t = (c / 8 - bank + 9) % 9;
        assert(bank_round(bank, t) == c / 8);
        assert(bank_clear(mask, c / 8));
    }
}

/// The pool as contracts see it.
pub struct PoolState {
    /// One flag per channel: whether it can still be selected in this cycle.
    pub mask: Seq<bool>,
    /// The channel selected last, if any was since the cycle began.
    pub previous: Option<usize>,
}

impl PoolState {
    /// The pool at the start of a cycle.
    pub open spec fn fresh() -> PoolState {
        PoolState { mask: all_enabled(), previous: None }
    }

    /// Until a first channel is selected every channel is enabled; afterwards
    /// the last selection is a channel of the plan.
    pub open spec fn wf(self) -> bool {
        &&& self.mask.len() == 72
        &&& match self.previous {
            None => self.mask == all_enabled(),
            Some(p) => p < 72,
        }
    }

    /// Every channel has been used since the cycle began.
    pub open spec fn exhausted(self) -> bool {
        all_clear(self.mask)
    }

    /// The pool after `channel` was selected.
    pub open spec fn mark(self, channel: usize) -> PoolState {
        PoolState { mask: self.mask.update(channel as int, false), previous: Some(channel) }
    }

    /// The pool from which a selection starts: a fresh one where this one is
    /// exhausted, else this one.
    pub open spec fn restart(self) -> PoolState {
        if self.exhausted() {
            PoolState::fresh()
        } else {
            self
        }
    }

    /// The channel that the walk selects, given the random word at hand.
    ///
    /// The first selection of a cycle is the low six bits of the word. Every
    /// later one is eight channels on, wrapping at 72, where that channel is
    /// still enabled, and otherwise the result of searching its bank, or
    /// where that bank is used up, the next bank that is not.
    pub open spec fn select(self, entropy: Option<u32>) -> Step {
        match self.previous {
            None => match entropy {
                Some(word) => Step::Chosen((word & 63u32) as usize),
                None => Step::NeedEntropy,
            },
            Some(p) => {
                let next = (p + 8) % 72;
                if self.mask[next] {
                    Step::Chosen(next as usize)
                } else {
                    match entropy {
                        Some(word) => match search(
                            self.mask,
                            bank_to_search(self.mask, next / 8),
                            word,
                        ) {
                            Some(c) => Step::Chosen(c),
                            None => Step::NeedEntropy,
                        },
                        None => Step::NeedEntropy,
                    }
                }
            },
        }
    }

    /// One request for the next channel: the pool afterwards and the answer.
    pub open spec fn next(self, entropy: Option<u32>) -> (PoolState, Step) {
        let start = self.restart();
        match start.select(entropy) {
            Step::Chosen(c) => (start.mark(c), Step::Chosen(c)),
            Step::NeedEntropy => (start, Step::NeedEntropy),
        }
    }
}

/// The channels that have not been tried in the current cycle, and the one
/// tried last.
#[derive(Clone, Copy, Debug)]
pub struct AvailableChannels {
    data: ChannelMask,
    previous: Option<usize>,
}

impl AvailableChannels {
    /// The mask and the last selection.
    pub closed spec fn view(&self) -> PoolState {
        PoolState { mask: self.data@, previous: self.previous }
    }

    /// The invariant of the pool, see [`PoolState::wf`].
    pub open spec fn wf(&self) -> bool {
        self@.wf()
    }

    /// A pool at the start of a cycle.
    pub fn new() -> (pool: Self)
        ensures
            pool@ == PoolState::fresh(),
            pool.wf(),
    {
        AvailableChannels { data: ChannelMask::new(), previous: None }
    }

    /// A pool with the given mask and last selection, where the two make a
    /// well-formed pool.
    pub fn from_parts(data: ChannelMask, previous: Option<usize>) -> (pool: Option<Self>)
        ensures
            pool is Some == (PoolState { mask: data@, previous }).wf(),
            pool matches Some(p) ==> p@ == (PoolState { mask: data@, previous }),
    {
        broadcast use ChannelMask::lemma_view_len;
        let valid = match previous {
            Some(p) => p < 72,
            None => data.is_full(),
        };
        if valid {
            Some(AvailableChannels { data, previous })
        } else {
            None
        }
    }

    /// The mask of the channels that can still be selected.
    pub fn mask(&self) -> (data: ChannelMask)
        ensures
            data@ == self@.mask,
    {
        self.data
    }

    /// The channel selected last, if any.
    pub fn previous(&self) -> (previous: Option<usize>)
        ensures
            previous == self@.previous,
    {
        self.previous
    }

    /// Whether `channel` can still be selected in this cycle.
    pub fn is_available(&self, channel: usize) -> (available: bool)
        ensures
            available == (channel < 72 && self@.mask[channel as int]),
    {
        channel < 72 && self.data.is_enabled(channel)
    }

    /// Whether every channel has been used since the cycle began.
    pub fn is_exhausted(&self) -> (exhausted: bool)
        ensures
            exhausted == self@.exhausted(),
    {
        broadcast use ChannelMask::lemma_view_len;
        let mut bank: usize = 0;
        while bank < NUM_BANKS
            invariant
                bank <= 9,
                self.data@.len() == 72,
                forall|c: int| 0 <= c < bank * 8 ==> !self.data@[c],
            decreases 9 - bank,
        {
            if !self.data.bank_is_clear(bank) {
                return false;
            }
            bank += 1;
        }
        true
    }

    /// Starts a new cycle: every channel is enabled again and no selection
    /// is remembered.
    pub fn reset(&mut self)
        ensures
            final(self)@ == PoolState::fresh(),
            final(self).wf(),
    {
        self.data = ChannelMask::new();
        self.previous = None;
    }

    /// Records `channel` as selected: it is disabled and remembered as the
    /// last selection.
    pub fn mark_used(&mut self, channel: usize)
        requires
            channel < 72,
        ensures
            final(self)@ == old(self)@.mark(channel),
            final(self).wf(),
    {
        broadcast use ChannelMask::lemma_view_len;
        self.data.set_channel(channel, false);
        self.previous = Some(channel);
    }

    /// The bank in which to look for a channel when the walk arrives at a
    /// used channel of `bank`, see [`bank_to_search`].
    pub fn find_open_bank(&self, bank: usize) -> (found: usize)
        requires
            bank < 9,
        ensures
            found == bank_to_search(self@.mask, bank as int),
            found < 9,
    {
        proof {
            reveal(bank_to_search);
        }
        let mut skipped: usize = 0;
        while skipped < NUM_BANKS
            invariant
                skipped <= 9,
                bank < 9,
                bank_to_search_from(self@.mask, bank as int, skipped as nat) == bank_to_search(
                    self@.mask,
                    bank as int,
                ),
            decreases 9 - skipped,
        {
            let candidate: usize = (bank + skipped) % 9;
            if !self.data.bank_is_clear(candidate) {
                return candidate;
            }
            skipped += 1;
        }
        bank
    }

    /// Searches `bank` for an enabled channel at the ten offsets of `word`,
    /// lowest bits first.
    pub fn search_bank(&self, bank: usize, word: u32) -> (found: Option<usize>)
        requires
            bank < 9,
        ensures
            found == search(self@.mask, bank as int, word),
    {
        let mut used: u32 = 0;
        while used < OFFSETS_PER_WORD
            invariant
                used <= 10,
                bank < 9,
                search_from(self@.mask, bank as int, word, used as nat) == search(
                    self@.mask,
                    bank as int,
                    word,
                ),
            decreases 10 - used,
        {
            proof {
                lemma_offset_range(word, used as nat);
            }
            let offset: usize = ((word >> (3 * used)) & 0b111) as usize;
            let channel: usize = offset + bank * 8;
            if self.data.is_enabled(channel) {
                return Some(channel);
            }
            used += 1;
        }
        None
    }

    /// The channel that the walk selects from this pool, which is left as it
    /// is, or the request for a random word where the walk needs one and
    /// `entropy` holds none, or none of its offsets leads to an enabled
    /// channel. Where the walk arrives at a used channel, the search is made
    /// in its bank, or in the next bank round that is not used up.
    pub fn get_next_channel_inner(&self, entropy: Option<u32>) -> (step: Step)
        requires
            self.wf(),
        ensures
            step == self@.select(entropy),
    {
        match self.previous {
            Some(previous) => {
                let next: usize = (previous + 8) % 72;
                if self.data.is_enabled(next) {
                    Step::Chosen(next)
                } else {
                    match entropy {
                        Some(word) => match self.search_bank(
                            self.find_open_bank(next / 8),
                            word,
                        ) {
                            Some(channel) => Step::Chosen(channel),
                            None => Step::NeedEntropy,
                        },
                        None => Step::NeedEntropy,
                    }
                }
            },
            None => match entropy {
                Some(word) => Step::Chosen((word & 0b111111) as usize),
                None => Step::NeedEntropy,
            },
        }
    }

    /// Answers one request for the next channel.
    ///
    /// An exhausted pool first starts a new cycle. A selected channel is
    /// disabled and remembered; where a random word is needed the pool waits
    /// unchanged for the next request.
    pub fn get_next(&mut self, entropy: Option<u32>) -> (step: Step)
        requires
            old(self).wf(),
        ensures
            (final(self)@, step) == old(self)@.next(entropy),
            final(self).wf(),
            step matches Step::Chosen(c) ==> c < 72,
    {
        if self.is_exhausted() {
            self.reset();
        }
        let step = self.get_next_channel_inner(entropy);
        proof {
            lemma_select_in_plan(self@, entropy);
        }
        match step {
            Step::Chosen(channel) => {
                self.mark_used(channel);
            },
            Step::NeedEntropy => {},
        }
        step
    }
}

impl Default for AvailableChannels {
    fn default() -> (pool: Self)
        ensures
            pool@ == PoolState::fresh(),
            pool.wf(),
    {
        AvailableChannels::new()
    }
}

/// Whatever the walk selects is a channel of the plan; all but the first
/// selection of a cycle are enabled channels.
pub proof fn lemma_select_in_plan(pool: PoolState, entropy: Option<u32>)
    requires
        pool.wf(),
    ensures
        pool.select(entropy) matches Step::Chosen(c) ==> c < 72 && pool.mask[c as int],
        pool.select(entropy) matches Step::Chosen(c) ==> (pool.previous is None ==> c < 64),
{
    match pool.previous {
        None => {
            if let Some(word) = entropy {
                assert(word & 63u32 < 64u32) by (bit_vector);
            }
        },
        Some(p) => {
            let next = (p + 8) % 72;
            if let Some(word) = entropy {
                lemma_bank_to_search(pool.mask, next / 8);
                lemma_search_from(pool.mask, bank_to_search(pool.mask, next / 8), word, 0);
            }
        },
    }
}

} // verus!
