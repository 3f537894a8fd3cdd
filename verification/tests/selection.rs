use lorawan_join::{
    AvailableChannels, ChannelMask, InvalidSubband, JoinChannels, Step, Subband,
};

/// A small deterministic generator of 32-bit words.
struct Words(u32);

impl Words {
    fn next_u32(&mut self) -> u32 {
        self.0 ^= self.0 << 13;
        self.0 ^= self.0 >> 17;
        self.0 ^= self.0 << 5;
        self.0
    }
}

fn pick(join_channels: &mut JoinChannels, words: &mut Words) -> usize {
    let mut entropy = None;
    loop {
        match join_channels.get_next_channel(entropy) {
            Step::Chosen(channel) => return channel,
            Step::NeedEntropy => entropy = Some(words.next_u32()),
        }
    }
}

/// A pool in which the lane of channel 5 has been walked once round.
fn pool_after_lane_five() -> AvailableChannels {
    let mut pool = AvailableChannels::new();
    assert_eq!(pool.get_next(Some(5)), Step::Chosen(5));
    for k in 1..9 {
        assert_eq!(pool.get_next(None), Step::Chosen(5 + 8 * k));
    }
    pool
}

#[test]
fn mask_starts_full_and_clears_single_channels() {
    let mut mask = ChannelMask::new();
    for c in 0..72 {
        assert!(mask.is_enabled(c));
    }
    mask.set_channel(0, false);
    mask.set_channel(37, false);
    mask.set_channel(71, false);
    for c in 0..72 {
        assert_eq!(mask.is_enabled(c), c != 0 && c != 37 && c != 71);
    }
    mask.set_channel(37, true);
    assert!(mask.is_enabled(37));
    assert!(!mask.is_enabled(0));
}

#[test]
fn mask_bank_is_clear_only_without_enabled_channel() {
    let mut mask = ChannelMask::new();
    for c in 16..23 {
        mask.set_channel(c, false);
    }
    assert!(!mask.bank_is_clear(2));
    mask.set_channel(23, false);
    assert!(mask.bank_is_clear(2));
    assert!(!mask.bank_is_clear(1));
    assert!(!mask.bank_is_clear(3));
}

#[test]
fn subband_numbers() {
    assert_eq!(Subband::from_number(1), Ok(Subband::_1));
    assert_eq!(Subband::from_number(8), Ok(Subband::_8));
    assert_eq!(Subband::from_number(0), Err(InvalidSubband));
    assert_eq!(Subband::from_number(9), Err(InvalidSubband));
    assert_eq!(Subband::_5.number(), 5);
    assert_eq!(Subband::_1.first_channel(), 0);
    assert_eq!(Subband::_8.first_channel(), 56);
}

#[test]
fn first_pick_needs_a_word_and_takes_its_low_six_bits() {
    let mut join_channels = JoinChannels::new();
    assert_eq!(join_channels.get_next_channel(None), Step::NeedEntropy);
    assert_eq!(join_channels.available_channels().previous(), None);
    assert_eq!(join_channels.get_next_channel(Some(0xFFFF_FFC7)), Step::Chosen(7));
    assert_eq!(join_channels.available_channels().previous(), Some(7));
    assert!(!join_channels.available_channels().is_available(7));
}

#[test]
fn first_pick_is_never_on_the_wide_bank() {
    for word in [0u32, 63, 64, 71, 127, u32::MAX, 0x8000_0040] {
        let mut pool = AvailableChannels::new();
        match pool.get_next(Some(word)) {
            Step::Chosen(c) => assert_eq!(c, (word % 64) as usize),
            Step::NeedEntropy => panic!("a word was given"),
        }
    }
}

#[test]
fn walk_steps_by_eight_without_entropy() {
    let mut pool = AvailableChannels::new();
    assert_eq!(pool.get_next(Some(60)), Step::Chosen(60));
    assert_eq!(pool.get_next(None), Step::Chosen(68));
    assert_eq!(pool.get_next(None), Step::Chosen(4));
    assert_eq!(pool.get_next(Some(0xDEAD_BEEF)), Step::Chosen(12));
    assert_eq!(pool.previous(), Some(12));
}

#[test]
fn tenth_pick_returns_to_the_first_bank() {
    let mut pool = pool_after_lane_five();
    assert_eq!(pool.previous(), Some(69));
    // the lane is used up: the walk needs a word to search bank 0
    assert_eq!(pool.get_next_channel_inner(None), Step::NeedEntropy);
    assert_eq!(pool.get_next(None), Step::NeedEntropy);
    assert_eq!(pool.previous(), Some(69));
    // offsets 5 (used), then 2
    assert_eq!(pool.get_next(Some(5 | (2 << 3))), Step::Chosen(2));
    assert_eq!(pool.previous(), Some(2));
    assert_eq!(pool.get_next(None), Step::Chosen(10));
}

#[test]
fn search_uses_ten_offsets_of_a_word() {
    let pool = pool_after_lane_five();
    // all ten offsets are 5
    assert_eq!(pool.search_bank(0, 0o5555555555), None);
    assert_eq!(pool.get_next_channel_inner(Some(0o5555555555)), Step::NeedEntropy);
    // the two bits above the tenth offset are not looked at
    assert_eq!(pool.search_bank(0, 0o35555555555), None);
    // the tenth offset is 3
    assert_eq!(pool.search_bank(0, 0o3555555555), Some(3));
    assert_eq!(pool.get_next_channel_inner(Some(0o3555555555)), Step::Chosen(3));
    // the first offset wins over later ones
    assert_eq!(pool.search_bank(0, 0o71), Some(1));
    // another bank, nothing used there but channel 21
    assert_eq!(pool.search_bank(2, 0o75), Some(23));
    assert_eq!(pool.search_bank(8, 0o5555555565), Some(70));
}

#[test]
fn failed_search_leaves_the_pool_unchanged() {
    let mut pool = pool_after_lane_five();
    assert_eq!(pool.get_next(Some(0o5555555555)), Step::NeedEntropy);
    assert_eq!(pool.previous(), Some(69));
    for c in 0..72 {
        assert_eq!(pool.is_available(c), c % 8 != 5);
    }
    assert!(!pool.is_available(72));
}

#[test]
fn pool_is_exhausted_after_72_picks_and_starts_over() {
    let mut join_channels = JoinChannels::new();
    let mut words = Words(0x2545_F491);
    let mut seen = [false; 72];
    for _ in 0..72 {
        assert!(!join_channels.available_channels().is_exhausted());
        let c = pick(&mut join_channels, &mut words);
        assert!(c < 72);
        assert!(!seen[c]);
        seen[c] = true;
    }
    assert!(join_channels.available_channels().is_exhausted());
    // the next request starts a new cycle
    assert_eq!(join_channels.get_next_channel(None), Step::NeedEntropy);
    assert!(!join_channels.available_channels().is_exhausted());
    assert_eq!(join_channels.available_channels().previous(), None);
    assert_eq!(join_channels.get_next_channel(Some(64 + 9)), Step::Chosen(9));
}

#[test]
fn thousands_of_picks_stay_in_range() {
    let mut join_channels = JoinChannels::new();
    join_channels.set_join_bias(Subband::_7, 3);
    let mut words = Words(0x1234_5678);
    for _ in 0..7000 {
        assert!(pick(&mut join_channels, &mut words) < 72);
    }
}

#[test]
fn pool_reset_enables_every_channel() {
    let mut pool = pool_after_lane_five();
    pool.reset();
    assert_eq!(pool.previous(), None);
    for c in 0..72 {
        assert!(pool.is_available(c));
    }
    assert!(!pool.is_exhausted());
}

#[test]
fn mark_used_disables_and_remembers() {
    let mut pool = AvailableChannels::new();
    pool.mark_used(40);
    assert_eq!(pool.previous(), Some(40));
    assert!(!pool.is_available(40));
    assert!(pool.is_available(48));
    assert_eq!(pool.get_next(None), Step::Chosen(48));
}

#[test]
fn biased_pick_takes_word_modulo_eight_on_the_subband() {
    let mut join_channels = JoinChannels::new();
    join_channels.set_join_bias(Subband::_3, 1);
    assert_eq!(join_channels.preferred_subband(), Some(Subband::_3));
    assert_eq!(join_channels.max_retries(), 1);
    assert_eq!(join_channels.get_next_channel(None), Step::NeedEntropy);
    assert_eq!(join_channels.num_retries(), 0);
    assert_eq!(join_channels.get_next_channel(Some(13)), Step::Chosen(21));
    assert_eq!(join_channels.num_retries(), 1);
    assert_eq!(join_channels.available_channels().previous(), Some(21));
    assert_eq!(join_channels.get_next_channel(None), Step::Chosen(29));
}

#[test]
fn bias_range_for_every_subband() {
    for n in 1..=8usize {
        for word in [0u32, 7, 8, 0xFFFF_FFFF, 0x1234_5678] {
            let mut join_channels = JoinChannels::new();
            join_channels.set_join_bias(Subband::from_number(n).unwrap(), 1);
            let first = match join_channels.get_next_channel(Some(word)) {
                Step::Chosen(c) => c,
                Step::NeedEntropy => panic!("a word was given"),
            };
            assert_eq!(first, (n - 1) * 8 + (word % 8) as usize);
            assert_eq!(join_channels.get_next_channel(None), Step::Chosen(first + 8));
        }
    }
}

#[test]
fn several_biased_attempts_enter_only_the_last_into_the_pool() {
    let mut join_channels = JoinChannels::new();
    join_channels.set_join_bias(Subband::_2, 3);
    assert_eq!(join_channels.get_next_channel(Some(1)), Step::Chosen(9));
    assert_eq!(join_channels.available_channels().previous(), None);
    assert!(join_channels.available_channels().is_available(9));
    assert_eq!(join_channels.get_next_channel(Some(1)), Step::Chosen(9));
    assert_eq!(join_channels.get_next_channel(Some(6)), Step::Chosen(14));
    assert_eq!(join_channels.num_retries(), 3);
    assert_eq!(join_channels.available_channels().previous(), Some(14));
    assert!(!join_channels.available_channels().is_available(14));
    assert_eq!(join_channels.get_next_channel(None), Step::Chosen(22));
    assert_eq!(join_channels.num_retries(), 3);
}

#[test]
fn last_biased_channel_stays_away_for_the_rest_of_the_cycle() {
    let mut join_channels = JoinChannels::new();
    join_channels.set_join_bias(Subband::_4, 1);
    let mut words = Words(0x9E37_79B9);
    let biased = pick(&mut join_channels, &mut words);
    assert!((24..32).contains(&biased));
    for _ in 0..71 {
        assert_ne!(pick(&mut join_channels, &mut words), biased);
    }
    assert!(join_channels.available_channels().is_exhausted());
}

#[test]
fn bias_with_no_attempts_is_inactive() {
    let mut join_channels = JoinChannels::new();
    join_channels.set_join_bias(Subband::_8, 0);
    assert_eq!(join_channels.get_next_channel(Some(0xFF)), Step::Chosen(63));
    assert_eq!(join_channels.num_retries(), 0);
}

#[test]
fn reset_keeps_the_bias_and_restarts_attempts_and_pool() {
    let mut join_channels = JoinChannels::new();
    join_channels.set_join_bias(Subband::_5, 1);
    assert_eq!(join_channels.get_next_channel(Some(2)), Step::Chosen(34));
    assert_eq!(join_channels.get_next_channel(None), Step::Chosen(42));
    join_channels.reset();
    assert_eq!(join_channels.num_retries(), 0);
    assert_eq!(join_channels.max_retries(), 1);
    assert_eq!(join_channels.preferred_subband(), Some(Subband::_5));
    assert_eq!(join_channels.available_channels().previous(), None);
    assert!(join_channels.available_channels().is_available(34));
    assert_eq!(join_channels.get_next_channel(Some(2)), Step::Chosen(34));
}

#[test]
fn clear_then_reset_behaves_like_a_new_selector() {
    let mut join_channels = JoinChannels::new();
    join_channels.set_join_bias(Subband::_6, 4);
    assert_eq!(join_channels.get_next_channel(Some(3)), Step::Chosen(43));
    join_channels.clear_join_bias();
    join_channels.reset();
    assert_eq!(join_channels.preferred_subband(), None);
    assert_eq!(join_channels.max_retries(), 0);
    assert_eq!(join_channels.num_retries(), 0);
    let mut fresh = JoinChannels::new();
    for word in [0u32, 43, 0xABCD_EF01] {
        let mut a = join_channels;
        let mut b = fresh;
        assert_eq!(a.get_next_channel(Some(word)), b.get_next_channel(Some(word)));
        assert_eq!(a.get_next_channel(None), b.get_next_channel(None));
    }
    assert_eq!(fresh.get_next_channel(None), Step::NeedEntropy);
    assert_eq!(join_channels.get_next_channel(None), Step::NeedEntropy);
}

#[test]
fn mask_bytes_hold_one_bit_per_channel() {
    let mut mask = ChannelMask::new();
    assert_eq!(mask.to_bytes(), [0xFF; 9]);
    assert!(mask.is_full());
    mask.set_channel(0, false);
    mask.set_channel(15, false);
    mask.set_channel(66, false);
    assert!(!mask.is_full());
    assert_eq!(mask.to_bytes(), [0xFE, 0x7F, 0xFF, 0xFF, 0xFF, 0xFF, 0xFF, 0xFF, 0xFB]);
    let again = ChannelMask::from_bytes([0x01, 0, 0, 0, 0, 0, 0, 0, 0x80]);
    for c in 0..72 {
        assert_eq!(again.is_enabled(c), c == 0 || c == 71);
    }
}

#[test]
fn pool_from_parts_accepts_only_well_formed_states() {
    let full = ChannelMask::new();
    let mut used = ChannelMask::new();
    used.set_channel(9, false);
    assert!(AvailableChannels::from_parts(full, None).is_some());
    assert!(AvailableChannels::from_parts(used, None).is_none());
    assert!(AvailableChannels::from_parts(used, Some(72)).is_none());
    let mut pool = AvailableChannels::from_parts(used, Some(9)).unwrap();
    assert_eq!(pool.previous(), Some(9));
    assert_eq!(pool.mask().to_bytes(), used.to_bytes());
    assert_eq!(pool.get_next(None), Step::Chosen(17));
}

#[test]
fn selector_from_parts_resumes_where_it_was() {
    let mut join_channels = JoinChannels::new();
    join_channels.set_join_bias(Subband::_2, 2);
    assert_eq!(join_channels.get_next_channel(Some(4)), Step::Chosen(12));
    let pool = AvailableChannels::from_parts(
        join_channels.available_channels().mask(),
        join_channels.available_channels().previous(),
    )
    .unwrap();
    let mut restored = JoinChannels::from_parts(
        join_channels.max_retries(),
        join_channels.num_retries(),
        join_channels.preferred_subband(),
        pool,
    );
    assert_eq!(restored.num_retries(), 1);
    assert_eq!(restored.get_next_channel(Some(7)), Step::Chosen(15));
    assert_eq!(restored.get_next_channel(None), Step::Chosen(23));
    assert_eq!(join_channels.get_next_channel(Some(7)), Step::Chosen(15));
}

/// A selector that has used lanes 0 to 6 and channels 7 and 15: 65 picks.
fn selector_after_65_picks() -> JoinChannels {
    let mut join_channels = JoinChannels::new();
    for lane in 0..7u32 {
        assert_eq!(
            join_channels.get_next_channel(Some(lane)),
            Step::Chosen(lane as usize)
        );
        for k in 1..9 {
            assert_eq!(
                join_channels.get_next_channel(None),
                Step::Chosen(lane as usize + 8 * k)
            );
        }
    }
    assert_eq!(join_channels.get_next_channel(Some(7)), Step::Chosen(7));
    assert_eq!(join_channels.get_next_channel(None), Step::Chosen(15));
    join_channels
}

#[test]
fn bias_in_the_middle_of_a_cycle_does_not_stall() {
    let mut join_channels = selector_after_65_picks();
    join_channels.set_join_bias(Subband::_1, 1);
    assert_eq!(join_channels.get_next_channel(Some(3)), Step::Chosen(3));
    assert_eq!(join_channels.available_channels().previous(), Some(3));
    // bank 1 is used up: the search goes on to bank 2, where only 23 is left
    assert_eq!(join_channels.available_channels().find_open_bank(1), 2);
    assert_eq!(join_channels.get_next_channel(None), Step::NeedEntropy);
    assert_eq!(join_channels.get_next_channel(Some(0o5555555555)), Step::NeedEntropy);
    assert_eq!(join_channels.get_next_channel(Some(7)), Step::Chosen(23));
    assert_eq!(join_channels.get_next_channel(None), Step::Chosen(31));
}

#[test]
fn bias_in_the_middle_of_a_cycle_ends_the_cycle_with_any_words() {
    for seed in [1u32, 0x2545_F491, 0xDEAD_BEEF, 77] {
        for word in 0..8u32 {
            let mut join_channels = selector_after_65_picks();
            join_channels.set_join_bias(Subband::_1, 1);
            assert_eq!(
                join_channels.get_next_channel(Some(word)),
                Step::Chosen(word as usize)
            );
            let mut words = Words(seed);
            let mut seen = Vec::new();
            for _ in 0..7 {
                let c = pick(&mut join_channels, &mut words);
                assert!(c < 72);
                assert_eq!(c % 8, 7);
                assert!(c > 15);
                assert!(!seen.contains(&c));
                seen.push(c);
            }
            assert!(join_channels.available_channels().is_exhausted());
        }
    }
}

#[test]
fn search_goes_round_to_the_next_bank_that_is_not_used_up() {
    let only_bank_0 = ChannelMask::from_bytes([0xFF, 0, 0, 0, 0, 0, 0, 0, 0]);
    let mut pool = AvailableChannels::from_parts(only_bank_0, Some(60)).unwrap();
    assert_eq!(pool.find_open_bank(8), 0);
    assert_eq!(pool.find_open_bank(0), 0);
    assert_eq!(pool.find_open_bank(3), 0);
    assert_eq!(pool.get_next_channel_inner(None), Step::NeedEntropy);
    assert_eq!(pool.get_next(Some(2)), Step::Chosen(2));
    assert_eq!(pool.previous(), Some(2));

    let two_banks = ChannelMask::from_bytes([0, 0, 0, 0x10, 0, 0, 0x01, 0, 0]);
    let mut pool = AvailableChannels::from_parts(two_banks, Some(20)).unwrap();
    assert_eq!(pool.find_open_bank(3), 3);
    assert_eq!(pool.find_open_bank(4), 6);
    assert_eq!(pool.find_open_bank(7), 3);
    assert_eq!(pool.get_next(None), Step::Chosen(28));
    // from 28 the walk arrives at 36, in bank 4; the next open bank is 6
    assert_eq!(pool.get_next(Some(0o1111111111)), Step::NeedEntropy);
    assert_eq!(pool.get_next(Some(1)), Step::Chosen(48));
    assert!(pool.is_exhausted());
}

#[test]
fn search_of_an_exhausted_pool_finds_nothing() {
    let none = ChannelMask::from_bytes([0; 9]);
    let pool = AvailableChannels::from_parts(none, Some(5)).unwrap();
    assert!(pool.is_exhausted());
    assert_eq!(pool.find_open_bank(4), 4);
    assert_eq!(pool.get_next_channel_inner(Some(0)), Step::NeedEntropy);
}

#[test]
fn cycle_after_a_single_biased_attempt_covers_every_other_channel_once() {
    for (n, seed) in [(1usize, 0x9E37_79B9u32), (4, 0x0BAD_CAFE), (8, 12345)] {
        let mut join_channels = JoinChannels::new();
        join_channels.set_join_bias(Subband::from_number(n).unwrap(), 1);
        let mut words = Words(seed);
        let biased = pick(&mut join_channels, &mut words);
        assert_eq!(biased / 8, n - 1);
        let mut seen = [false; 72];
        seen[biased] = true;
        for _ in 0..71 {
            assert!(!join_channels.available_channels().is_exhausted());
            let c = pick(&mut join_channels, &mut words);
            assert!(c < 72);
            assert_ne!(c, biased);
            assert!(!seen[c]);
            seen[c] = true;
        }
        assert!(seen.iter().all(|&s| s));
        assert!(join_channels.available_channels().is_exhausted());
    }
}
