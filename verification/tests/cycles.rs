use pico_demux::cycles::determine_virt_channel_samples;
use std::collections::HashMap;

fn cycle(values: &[(usize, i64)]) -> HashMap<usize, i64> {
    values.iter().copied().collect()
}

#[test]
fn one_cycle_reads_each_slot() {
    // Pulses at 2 and 14 with 3 channels: spacing 3, slots at 5, 8 and 11,
    // radius 1.
    let data: Vec<i64> = vec![0, 0, 9, 9, 10, 10, 10, 20, 20, 20, 30, 30, 30, 9, 9, 9];
    let cycles = determine_virt_channel_samples(&vec![2, 14], 3, &data, 5);
    assert_eq!(cycles, vec![cycle(&[(0, 10), (1, 20), (2, 30)])]);
}

#[test]
fn slot_width_is_rounded_down() {
    // Pulses at 0 and 11 with 2 channels: spacing 3, slots at 3 and 6.
    let data: Vec<i64> = vec![0, 0, 1, 1, 1, 2, 2, 2, 3, 3, 3, 0];
    let cycles = determine_virt_channel_samples(&vec![0, 11], 2, &data, 5);
    assert_eq!(cycles, vec![cycle(&[(0, 1), (1, 2)])]);
}

#[test]
fn every_pair_of_neighbours_gives_a_cycle() {
    let mut data: Vec<i64> = Vec::new();
    for round in 0..4i64 {
        for slot in 0..4i64 {
            for _ in 0..10 {
                data.push(round * 100 + slot);
            }
        }
    }
    // Pulses in the middle of each first slot.
    let cycles = determine_virt_channel_samples(&vec![5, 45, 85, 125], 3, &data, 1);
    assert_eq!(
        cycles,
        vec![
            cycle(&[(0, 1), (1, 2), (2, 3)]),
            cycle(&[(0, 101), (1, 102), (2, 103)]),
            cycle(&[(0, 201), (1, 202), (2, 203)]),
        ]
    );
}

#[test]
fn fewer_than_two_pulses_give_no_cycle() {
    let data = vec![1i64; 100];
    assert_eq!(determine_virt_channel_samples(&vec![], 3, &data, 5), vec![]);
    assert_eq!(determine_virt_channel_samples(&vec![50], 3, &data, 5), vec![]);
}

#[test]
fn slot_outside_the_block_is_left_out() {
    // Pulses at 0 and 40 with 3 channels: slots at 10, 20 and 30, radius 3.
    let data = vec![4i64; 25];
    let cycles = determine_virt_channel_samples(&vec![0, 40], 3, &data, 5);
    assert_eq!(cycles, vec![cycle(&[(0, 4), (1, 4)])]);
    let data = vec![4i64; 5];
    let cycles = determine_virt_channel_samples(&vec![0, 40], 3, &data, 5);
    assert_eq!(cycles, vec![cycle(&[])]);
}

#[test]
fn no_virtual_channel_gives_empty_cycles() {
    let data = vec![4i64; 50];
    let cycles = determine_virt_channel_samples(&vec![0, 20, 40], 0, &data, 5);
    assert_eq!(cycles, vec![cycle(&[]), cycle(&[])]);
}

#[test]
fn coinciding_pulses_read_the_pulse_itself() {
    let data: Vec<i64> = vec![1, 2, 3, 4, 5];
    let cycles = determine_virt_channel_samples(&vec![3, 3], 2, &data, 5);
    assert_eq!(cycles, vec![cycle(&[(0, 4), (1, 4)])]);
}

#[test]
fn noisy_slot_gives_its_median() {
    // Pulses at 0 and 36 with 2 channels: spacing 12, slots at 12 and 24,
    // radius 4.
    let mut data = vec![0i64; 40];
    for index in 8..=16 {
        data[index] = 100;
    }
    data[10] = 9000;
    for index in 20..=28 {
        data[index] = 200 + (index as i64 % 2);
    }
    let cycles = determine_virt_channel_samples(&vec![0, 36], 2, &data, 50);
    // 200, 201, 200, 201, ... from index 20 to 28: five times 200, four
    // times 201, mean 1804 / 9 rounded down.
    assert_eq!(cycles, vec![cycle(&[(0, 100), (1, 200)])]);
}
