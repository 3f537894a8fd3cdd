//! The bias controller: steers the first join attempts to a preferred
//! subband and hands every other request to the channel pool.

use vstd::prelude::*;
use crate::available_channels::{AvailableChannels, PoolState, Step};
use crate::subband::Subband;

verus! {

/// The join state as contracts see it.
pub struct JoinState {
    /// How many attempts may be made on the preferred subband.
    pub max_retries: usize,
    /// How many attempts have been made on the preferred subband.
    pub num_retries: usize,
    /// The preferred subband, if one is configured.
    pub preferred_subband: Option<Subband>,
    /// The channel pool.
    pub pool: PoolState,
}

impl JoinState {
    /// The state of a new selector: no bias, no attempts, a fresh pool.
    pub open spec fn initial() -> JoinState {
        JoinState {
            max_retries: 0,
            num_retries: 0,
            preferred_subband: None,
            pool: PoolState::fresh(),
        }
    }

    /// The pool is well formed.
    pub open spec fn wf(self) -> bool {
        self.pool.wf()
    }

    /// Whether the next request is answered from the preferred subband.
    pub open spec fn biased(self) -> bool {
        self.preferred_subband is Some && self.num_retries < self.max_retries
    }

    /// The channel that a biased attempt takes from `word`.
    pub open spec fn biased_channel(self, word: u32) -> usize {
        ((word as int) % 8 + self.preferred_subband->0.spec_first_channel()) as usize
    }

    /// The state after a bias was installed.
    pub open spec fn with_bias(self, subband: Subband, max_retries: usize) -> JoinState {
        JoinState { preferred_subband: Some(subband), max_retries, ..self }
    }

    /// The state after the bias was removed.
    pub open spec fn without_bias(self) -> JoinState {
        JoinState { preferred_subband: None, max_retries: 0, ..self }
    }

    /// The state at the start of the next join cycle: the bias stays as
    /// configured, the attempts and the pool start over.
    pub open spec fn restarted(self) -> JoinState {
        JoinState { num_retries: 0, pool: PoolState::fresh(), ..self }
    }

    /// One request for the next channel: the state afterwards and the answer.
    ///
    /// A biased attempt needs a random word and takes one of the eight
    /// channels of the preferred subband; the last one permitted also enters
    /// its channel into the pool as the last selection. Every other request
    /// is the pool's.
    pub open spec fn step(self, entropy: Option<u32>) -> (JoinState, Step) {
        if self.biased() {
            match entropy {
                Some(word) => {
                    let channel = self.biased_channel(word);
                    let attempts = (self.num_retries + 1) as usize;
                    let pool = if attempts == self.max_retries {
                        self.pool.mark(channel)
                    } else {
                        self.pool
                    };
                    (JoinState { num_retries: attempts, pool, ..self }, Step::Chosen(channel))
                },
                None => (self, Step::NeedEntropy),
            }
        } else {
            let (pool, step) = self.pool.next(entropy);
            (JoinState { pool, ..self }, step)
        }
    }
}

/// Selects the channel of each join attempt.
#[derive(Clone, Copy, Debug)]
pub struct JoinChannels {
    max_retries: usize,
    num_retries: usize,
    preferred_subband: Option<Subband>,
    available_channels: AvailableChannels,
}

impl JoinChannels {
    /// The configuration, the attempts made and the pool.
    pub closed spec fn view(&self) -> JoinState {
        JoinState {
            max_retries: self.max_retries,
            num_retries: self.num_retries,
            preferred_subband: self.preferred_subband,
            pool: self.available_channels@,
        }
    }

    /// The invariant of the selector, see [`JoinState::wf`].
    pub open spec fn wf(&self) -> bool {
        self@.wf()
    }

    /// A selector without bias, at the start of a cycle.
    pub fn new() -> (join: Self)
        ensures
            join@ == JoinState::initial(),
            join.wf(),
    {
        JoinChannels {
            max_retries: 0,
            num_retries: 0,
            preferred_subband: None,
            available_channels: AvailableChannels::new(),
        }
    }

    /// A selector with the given configuration, attempts and pool.
    pub fn from_parts(
        max_retries: usize,
        num_retries: usize,
        preferred_subband: Option<Subband>,
        available_channels: AvailableChannels,
    ) -> (join: Self)
        ensures
            join@ == (JoinState {
                max_retries,
                num_retries,
                preferred_subband,
                pool: available_channels@,
            }),
    {
        JoinChannels { max_retries, num_retries, preferred_subband, available_channels }
    }

    /// Prefers `subband` for the next `max_retries` attempts that have not
    /// been made yet. With more than one attempt the selector departs from
    /// the regional rules, which allow a single biased attempt.
    pub fn set_join_bias(&mut self, subband: Subband, max_retries: usize)
        ensures
            final(self)@ == old(self)@.with_bias(subband, max_retries),
    {
        self.preferred_subband = Some(subband);
        self.max_retries = max_retries;
    }

    /// Removes the bias: no subband is preferred and no biased attempt is
    /// permitted.
    pub fn clear_join_bias(&mut self)
        ensures
            final(self)@ == old(self)@.without_bias(),
    {
        self.preferred_subband = None;
        self.max_retries = 0;
    }

    /// Starts the next join cycle, once the answer to a join request has
    /// arrived. The bias stays as configured.
    pub fn reset(&mut self)
        ensures
            final(self)@ == old(self)@.restarted(),
            final(self).wf(),
    {
        self.num_retries = 0;
        self.available_channels = AvailableChannels::new();
    }

    /// Answers one request for the next channel.
    ///
    /// Where the answer is [`Step::NeedEntropy`] nothing was selected: the
    /// caller draws a random word and asks again with it.
    pub fn get_next_channel(&mut self, entropy: Option<u32>) -> (step: Step)
        requires
            old(self).wf(),
        ensures
            (final(self)@, step) == old(self)@.step(entropy),
            final(self).wf(),
            step matches Step::Chosen(c) ==> c < 72,
    {
        match self.preferred_subband {
            Some(subband) if self.num_retries < self.max_retries => {
                match entropy {
                    Some(word) => {
                        self.num_retries += 1;
                        let channel: usize = (word as usize % 8) + subband.first_channel();
                        if self.num_retries == self.max_retries {
                            self.available_channels.mark_used(channel);
                        }
                        Step::Chosen(channel)
                    },
                    None => Step::NeedEntropy,
                }
            },
            _ => self.available_channels.get_next(entropy),
        }
    }

    /// How many attempts may be made on the preferred subband.
    pub fn max_retries(&self) -> (n: usize)
        ensures
            n == self@.max_retries,
    {
        self.max_retries
    }

    /// How many attempts have been made on the preferred subband.
    pub fn num_retries(&self) -> (n: usize)
        ensures
            n == self@.num_retries,
    {
        self.num_retries
    }

    /// The preferred subband, if one is configured.
    pub fn preferred_subband(&self) -> (subband: Option<Subband>)
        ensures
            subband == self@.preferred_subband,
    {
        self.preferred_subband
    }

    /// The channel pool.
    pub fn available_channels(&self) -> (pool: &AvailableChannels)
        ensures
            pool@ == self@.pool,
    {
        &self.available_channels
    }
}

impl Default for JoinChannels {
    fn default() -> (join: Self)
        ensures
            join@ == JoinState::initial(),
            join.wf(),
    {
        JoinChannels::new()
    }
}

} // verus!
