//! A dense set of the 72 channels of a fixed channel plan.

use vstd::prelude::*;

verus! {

/// Number of channels in a fixed channel plan.
pub const NUM_CHANNELS: usize = 72;

/// Number of banks: eight of standard channels and one of wide channels.
pub const NUM_BANKS: usize = 9;

/// Whether bit `j` of `byte` is set.
pub open spec fn bit_is_set(byte: u8, j: u8) -> bool {
    (byte >> j) & 1u8 == 1u8
}

/// The mask that nine bytes stand for: channel `c` is bit `c % 8` of byte
/// `c / 8`.
pub open spec fn mask_of_bytes(bytes: Seq<u8>) -> Seq<bool> {
    Seq::new(72, |c: int| bit_is_set(bytes[c / 8], (c % 8) as u8))
}

/// The mask in which every channel is enabled.
pub open spec fn all_enabled() -> Seq<bool> {
    Seq::new(72, |c: int| true)
}

/// Whether `mask` has no enabled channel among the eight of `bank`.
pub open spec fn bank_clear(mask: Seq<bool>, bank: int) -> bool {
    forall|c: int| bank * 8 <= c < bank * 8 + 8 ==> !#[trigger] mask[c]
}

/// Whether `mask` has no enabled channel at all.
pub open spec fn all_clear(mask: Seq<bool>) -> bool {
    forall|c: int| 0 <= c < mask.len() ==> !#[trigger] mask[c]
}

proof fn lemma_bit_after_clear(x: u8, b: u8, j: u8)
    by (bit_vector)
    requires
        b < 8,
        j < 8,
    ensures
        bit_is_set(x & !(1u8 << b), j) == (j != b && bit_is_set(x, j)),
{
}

proof fn lemma_bit_after_set(x: u8, b: u8, j: u8)
    by (bit_vector)
    requires
        b < 8,
        j < 8,
    ensures
        bit_is_set(x | (1u8 << b), j) == (j == b || bit_is_set(x, j)),
{
}

proof fn lemma_bit_test(x: u8, b: u8)
    by (bit_vector)
    requires
        b < 8,
    ensures
        (x & (1u8 << b) != 0u8) == bit_is_set(x, b),
{
}

proof fn lemma_zero_byte(j: u8)
    by (bit_vector)
    requires
        j < 8,
    ensures
        !bit_is_set(0u8, j),
{
}

proof fn lemma_nonzero_byte(x: u8)
    by (bit_vector)
    requires
        x != 0u8,
    ensures
        bit_is_set(x, 0) || bit_is_set(x, 1) || bit_is_set(x, 2) || bit_is_set(x, 3)
            || bit_is_set(x, 4) || bit_is_set(x, 5) || bit_is_set(x, 6) || bit_is_set(x, 7),
{
}

proof fn lemma_full_byte(j: u8)
    by (bit_vector)
    requires
        j < 8,
    ensures
        bit_is_set(0xFFu8, j),
{
}

/// One bit per channel, nine bytes for the nine banks; a set bit means that
/// the channel can still be selected.
#[derive(Clone, Copy, Debug)]
pub struct ChannelMask {
    bytes: [u8; 9],
}

impl ChannelMask {
    /// The mask as a sequence of 72 flags, indexed by channel.
    pub closed spec fn view(&self) -> Seq<bool> {
        mask_of_bytes(self.bytes@)
    }

    /// The view always has one flag per channel.
    pub broadcast proof fn lemma_view_len(&self)
        ensures
            #[trigger] self@.len() == 72,
    {
    }

    /// A mask with every channel enabled.
    pub fn new() -> (mask: Self)
        ensures
            mask@ == all_enabled(),
    {
        let mask = ChannelMask { bytes: [0xFFu8; 9] };
        proof {
            assert forall|c: int| 0 <= c < 72 implies mask@[c] by {
                lemma_full_byte((c % 8) as u8);
            }
            assert(mask@ =~= all_enabled());
        }
        mask
    }

    /// The mask that `bytes` stand for, see [`mask_of_bytes`].
    pub fn from_bytes(bytes: [u8; 9]) -> (mask: Self)
        ensures
            mask@ == mask_of_bytes(bytes@),
    {
        ChannelMask { bytes }
    }

    /// The nine bytes that stand for the mask.
    pub fn to_bytes(&self) -> (bytes: [u8; 9])
        ensures
            mask_of_bytes(bytes@) == self@,
    {
        self.bytes
    }

    /// Whether every channel is enabled.
    pub fn is_full(&self) -> (full: bool)
        ensures
            full == (self@ == all_enabled()),
    {
        let mut channel: usize = 0;
        while channel < NUM_CHANNELS
            invariant
                channel <= 72,
                forall|c: int| 0 <= c < channel ==> self@[c],
            decreases 72 - channel,
        {
            if !self.is_enabled(channel) {
                assert(all_enabled()[channel as int]);
                return false;
            }
            channel += 1;
        }
        assert(self@ =~= all_enabled());
        true
    }

    /// Whether channel `index` is enabled.
    pub fn is_enabled(&self, index: usize) -> (enabled: bool)
        requires
            index < 72,
        ensures
            enabled == self@[index as int],
    {
        let bit: u8 = (index % 8) as u8;
        let byte: u8 = self.bytes[index / 8];
        proof {
            lemma_bit_test(byte, bit);
        }
        byte & (1u8 << bit) != 0
    }

    /// Enables or disables channel `index`, leaving every other channel as it was.
    pub fn set_channel(&mut self, index: usize, value: bool)
        requires
            index < 72,
        ensures
            final(self)@ == old(self)@.update(index as int, value),
    {
        let bit: u8 = (index % 8) as u8;
        let bank: usize = index / 8;
        let byte: u8 = self.bytes[bank];
        let changed: u8 = if value {
            byte | (1u8 << bit)
        } else {
            byte & !(1u8 << bit)
        };
        self.bytes[bank] = changed;
        proof {
            assert forall|c: int| 0 <= c < 72 implies self@[c] == old(self)@.update(
                index as int,
                value,
            )[c] by {
                if c / 8 == bank as int {
                    lemma_bit_after_clear(byte, bit, (c % 8) as u8);
                    lemma_bit_after_set(byte, bit, (c % 8) as u8);
                }
            }
            assert(self@ =~= old(self)@.update(index as int, value));
        }
    }

    /// Whether none of the eight channels of `bank` is enabled.
    pub fn bank_is_clear(&self, bank: usize) -> (clear: bool)
        requires
            bank < 9,
        ensures
            clear == bank_clear(self@, bank as int),
    {
        let byte: u8 = self.bytes[bank];
        proof {
            if byte == 0u8 {
                assert forall|c: int| bank * 8 <= c < bank * 8 + 8 implies !self@[c] by {
                    lemma_zero_byte((c % 8) as u8);
                }
            } else {
                lemma_nonzero_byte(byte);
                let j: u8 = choose|j: u8| j < 8 && bit_is_set(byte, j);
                assert(self@[bank * 8 + j]);
            }
        }
        byte == 0
    }
}

impl Default for ChannelMask {
    fn default() -> (mask: Self)
        ensures
            mask@ == all_enabled(),
    {
        ChannelMask::new()
    }
}

} // verus!
