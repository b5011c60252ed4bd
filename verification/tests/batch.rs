use pico_demux::batch::take_blocks;
use pico_demux::cycles::cycle_row;
use std::collections::HashMap;

fn ramp(len: usize) -> Vec<i64> {
    (0..len as i64).collect()
}

#[test]
fn empty_stream_gives_no_block() {
    let mut stream: Vec<i64> = Vec::new();
    assert_eq!(take_blocks(&mut stream, 4), Vec::<Vec<i64>>::new());
    assert_eq!(stream, vec![]);
}

#[test]
fn short_stream_is_left_alone() {
    let mut stream = ramp(3);
    assert_eq!(take_blocks(&mut stream, 4), Vec::<Vec<i64>>::new());
    assert_eq!(stream, vec![0, 1, 2]);
}

#[test]
fn stream_of_one_block_is_left_alone() {
    let mut stream = ramp(4);
    assert_eq!(take_blocks(&mut stream, 4), Vec::<Vec<i64>>::new());
    assert_eq!(stream, vec![0, 1, 2, 3]);
}

#[test]
fn one_sample_more_frees_a_block() {
    let mut stream = ramp(5);
    assert_eq!(take_blocks(&mut stream, 4), vec![vec![0, 1, 2, 3]]);
    assert_eq!(stream, vec![4]);
}

#[test]
fn blocks_come_in_the_order_of_the_stream() {
    let mut stream = ramp(14);
    assert_eq!(
        take_blocks(&mut stream, 4),
        vec![vec![0, 1, 2, 3], vec![4, 5, 6, 7], vec![8, 9, 10, 11]]
    );
    assert_eq!(stream, vec![12, 13]);
}

#[test]
fn whole_number_of_blocks_leaves_the_last() {
    let mut stream = ramp(12);
    assert_eq!(take_blocks(&mut stream, 4), vec![vec![0, 1, 2, 3], vec![4, 5, 6, 7]]);
    assert_eq!(stream, vec![8, 9, 10, 11]);
}

#[test]
fn blocks_of_one_sample() {
    let mut stream = ramp(3);
    assert_eq!(take_blocks(&mut stream, 1), vec![vec![0], vec![1]]);
    assert_eq!(stream, vec![2]);
}

#[test]
fn row_has_a_column_for_each_channel() {
    let mut cycle: HashMap<usize, i64> = HashMap::new();
    cycle.insert(2, 30);
    cycle.insert(0, 10);
    cycle.insert(1, 20);
    assert_eq!(cycle_row(&cycle, 3), vec![Some(10), Some(20), Some(30)]);
}

#[test]
fn row_marks_missing_channels() {
    let mut cycle: HashMap<usize, i64> = HashMap::new();
    cycle.insert(3, 30);
    cycle.insert(1, -5);
    assert_eq!(cycle_row(&cycle, 5), vec![None, Some(-5), None, Some(30), None]);
    assert_eq!(cycle_row(&cycle, 2), vec![None, Some(-5)]);
    assert_eq!(cycle_row(&cycle, 0), vec![]);
}
