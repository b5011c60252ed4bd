use pico_demux::config::ConstConfig;
use pico_demux::model::VirtChannelError;
use pico_demux::virt_channels::split_into_virt_channels;
use std::collections::HashMap;

const VOLT: i64 = 1_000_000;

fn config(virt_channel_count: usize) -> ConstConfig {
    ConstConfig {
        sync_point_threshold: 5 * VOLT,
        arduino_hz: 100,
        virt_channel_count,
        arduino_hz_tolerance: 200,
        virt_channel_noise_threshold: VOLT / 2,
    }
}

/// A block that starts with `lead` samples at 0 V and then holds `pulses`
/// cycles: a pulse of `slot` samples at 6 V followed by one plateau of
/// `slot` samples for each of `levels`.
fn synthetic_block(lead: usize, slot: usize, pulses: usize, levels: &[i64]) -> Vec<i64> {
    let mut block = vec![0i64; lead];
    for _ in 0..pulses {
        for _ in 0..slot {
            block.push(6 * VOLT);
        }
        for &level in levels {
            for _ in 0..slot {
                block.push(level);
            }
        }
    }
    block
}

fn cycle(values: &[i64]) -> HashMap<usize, i64> {
    values.iter().copied().enumerate().collect()
}

#[test]
fn reference_settings() {
    let config = ConstConfig::get_config();
    assert_eq!(config.sync_point_threshold, 3_500_000);
    assert_eq!(config.arduino_hz, 14_700);
    assert_eq!(config.virt_channel_count, 4);
    assert_eq!(config.arduino_hz_tolerance, 800);
    assert_eq!(config.virt_channel_noise_threshold, 500_000);
}

#[test]
fn thousand_samples_with_five_pulses() {
    // Pulses centred near 100, 300, 500, 700 and 900, with plateaus of
    // 1 V, 2 V and 3 V between them.
    let block = synthetic_block(75, 50, 5, &[VOLT, 2 * VOLT, 3 * VOLT]);
    let block: Vec<i64> = block.into_iter().take(1000).collect();
    assert_eq!(block.len(), 1000);
    let mut raw_data = HashMap::new();
    raw_data.insert(0u8, block);
    let cycles = split_into_virt_channels(&raw_data, 5000, &config(3)).unwrap();
    let expected = cycle(&[VOLT, 2 * VOLT, 3 * VOLT]);
    assert_eq!(cycles, vec![expected.clone(), expected.clone(), expected]);
}

#[test]
fn plateaus_are_recovered_exactly() {
    let levels = [-2 * VOLT, 0, 250_000, 4 * VOLT, 1];
    let block = synthetic_block(200, 30, 7, &levels);
    let mut raw_data = HashMap::new();
    raw_data.insert(3u8, block);
    let cycles = split_into_virt_channels(&raw_data, 3000, &config(5)).unwrap();
    assert_eq!(cycles.len(), 5);
    for found in &cycles {
        assert_eq!(found, &cycle(&levels));
    }
}

#[test]
fn plateaus_with_small_noise_are_recovered_by_the_mean() {
    let mut block = synthetic_block(75, 50, 4, &[VOLT, 2 * VOLT, 3 * VOLT]);
    for (index, sample) in block.iter_mut().enumerate() {
        if *sample < 5 * VOLT {
            *sample += (index as i64 % 3) - 1;
        }
    }
    let mut raw_data = HashMap::new();
    raw_data.insert(0u8, block);
    let cycles = split_into_virt_channels(&raw_data, 5000, &config(3)).unwrap();
    assert_eq!(cycles.len(), 2);
    for found in &cycles {
        for channel in 0..3usize {
            let level = (channel as i64 + 1) * VOLT;
            assert!((found[&channel] - level).abs() <= 1);
        }
    }
}

#[test]
fn channel_without_elevated_sample_fails_the_call() {
    let mut raw_data = HashMap::new();
    raw_data.insert(0u8, vec![VOLT; 1000]);
    assert_eq!(
        split_into_virt_channels(&raw_data, 5000, &config(3)),
        Err(VirtChannelError::NoSyncPulse)
    );
}

#[test]
fn channel_with_one_pulse_has_not_enough_data() {
    let block = synthetic_block(75, 50, 2, &[VOLT, 2 * VOLT, 3 * VOLT]);
    let mut raw_data = HashMap::new();
    raw_data.insert(0u8, block);
    assert_eq!(
        split_into_virt_channels(&raw_data, 5000, &config(3)),
        Err(VirtChannelError::NotEnoughData)
    );
}

#[test]
fn channel_with_elevated_samples_but_no_pulse_has_not_enough_data() {
    let mut block = vec![0i64; 1000];
    block[500] = 6 * VOLT;
    let mut raw_data = HashMap::new();
    raw_data.insert(0u8, block);
    assert_eq!(
        split_into_virt_channels(&raw_data, 5000, &config(3)),
        Err(VirtChannelError::NotEnoughData)
    );
}

#[test]
fn two_pulses_give_one_cycle() {
    let block = synthetic_block(75, 50, 3, &[VOLT, 2 * VOLT, 3 * VOLT]);
    let mut raw_data = HashMap::new();
    raw_data.insert(0u8, block);
    assert_eq!(
        split_into_virt_channels(&raw_data, 5000, &config(3)),
        Ok(vec![cycle(&[VOLT, 2 * VOLT, 3 * VOLT])])
    );
}

#[test]
fn missing_sync_pulse_is_reported_before_missing_cycles() {
    let mut raw_data = HashMap::new();
    raw_data.insert(1u8, synthetic_block(75, 50, 2, &[VOLT, 2 * VOLT, 3 * VOLT]));
    raw_data.insert(200u8, vec![0i64; 1000]);
    assert_eq!(
        split_into_virt_channels(&raw_data, 5000, &config(3)),
        Err(VirtChannelError::NoSyncPulse)
    );
    let mut raw_data = HashMap::new();
    raw_data.insert(1u8, vec![0i64; 1000]);
    raw_data.insert(200u8, synthetic_block(75, 50, 2, &[VOLT, 2 * VOLT, 3 * VOLT]));
    assert_eq!(
        split_into_virt_channels(&raw_data, 5000, &config(3)),
        Err(VirtChannelError::NoSyncPulse)
    );
}

#[test]
fn no_channel_gives_no_cycle() {
    let raw_data: HashMap<u8, Vec<i64>> = HashMap::new();
    assert_eq!(split_into_virt_channels(&raw_data, 5000, &config(3)), Ok(vec![]));
}

#[test]
fn channels_come_in_ascending_order() {
    let blocks = [
        (255u8, synthetic_block(75, 50, 4, &[7 * VOLT / 2, 0, VOLT])),
        (0u8, synthetic_block(75, 50, 3, &[VOLT, 2 * VOLT, 3 * VOLT])),
        (17u8, synthetic_block(75, 50, 4, &[4 * VOLT, 3 * VOLT, 2 * VOLT])),
    ];
    let mut expected = vec![cycle(&[VOLT, 2 * VOLT, 3 * VOLT])];
    expected.push(cycle(&[4 * VOLT, 3 * VOLT, 2 * VOLT]));
    expected.push(cycle(&[4 * VOLT, 3 * VOLT, 2 * VOLT]));
    expected.push(cycle(&[7 * VOLT / 2, 0, VOLT]));
    expected.push(cycle(&[7 * VOLT / 2, 0, VOLT]));
    for rotation in 0..3 {
        let mut raw_data = HashMap::new();
        for offset in 0..3 {
            let (channel, block) = &blocks[(rotation + offset) % 3];
            raw_data.insert(*channel, block.clone());
        }
        assert_eq!(split_into_virt_channels(&raw_data, 5000, &config(3)), Ok(expected.clone()));
    }
}

#[test]
fn same_input_gives_same_output() {
    let mut block = synthetic_block(40, 50, 6, &[VOLT, 2 * VOLT, 3 * VOLT, 4 * VOLT]);
    for (index, sample) in block.iter_mut().enumerate() {
        *sample += (index as i64 * 7919) % 1000;
    }
    let mut raw_data = HashMap::new();
    raw_data.insert(4u8, block.clone());
    raw_data.insert(2u8, block);
    let first = split_into_virt_channels(&raw_data, 5000, &config(4));
    let second = split_into_virt_channels(&raw_data.clone(), 5000, &config(4));
    assert!(first.is_ok());
    assert_eq!(first, second);
}

#[test]
fn nominal_width_is_rounded_down() {
    // 5099 samples per second at 100 Hz: 50 samples, as with 5000.
    let block = synthetic_block(75, 50, 3, &[VOLT, 2 * VOLT, 3 * VOLT]);
    let mut raw_data = HashMap::new();
    raw_data.insert(0u8, block);
    assert_eq!(
        split_into_virt_channels(&raw_data, 5099, &config(3)),
        split_into_virt_channels(&raw_data, 5000, &config(3))
    );
}

#[test]
fn slot_cut_off_by_the_block_end_is_left_out() {
    // The third pulse closes the second only; the block ends inside the
    // third plateau of the second cycle, which the second cycle does not
    // reach into, so both stay whole up to the pulse.
    let mut block = synthetic_block(75, 50, 3, &[VOLT, 2 * VOLT, 3 * VOLT]);
    block.truncate(75 + 200 + 200 + 10);
    let mut raw_data = HashMap::new();
    raw_data.insert(0u8, block);
    assert_eq!(
        split_into_virt_channels(&raw_data, 5000, &config(3)),
        Ok(vec![cycle(&[VOLT, 2 * VOLT, 3 * VOLT])])
    );
}
