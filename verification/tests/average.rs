use pico_demux::average::get_average_sample;
use pico_demux::model::VirtChannelError;

#[test]
fn quiet_window_gives_the_mean() {
    // Radius 2 around index 3: 10, 11, 13, 12, 14; spread 4, mean 12.
    let data = vec![0i64, 10, 11, 13, 12, 14, 0];
    assert_eq!(get_average_sample(3, &data, 6, 5), Ok(12));
}

#[test]
fn window_with_an_outlier_gives_the_median() {
    // Radius 2 around index 3: 10, 11, 900, 12, 14; median 12, mean 189.
    let data = vec![0i64, 10, 11, 900, 12, 14, 0];
    assert_eq!(get_average_sample(3, &data, 6, 5), Ok(12));
    assert_eq!(get_average_sample(3, &data, 6, 891), Ok(189));
}

#[test]
fn median_differs_from_mean() {
    // Radius 1 around index 1: 1, 2, 30; mean 11, median 2.
    let data = vec![1i64, 2, 30];
    assert_eq!(get_average_sample(1, &data, 3, 30), Ok(11));
    assert_eq!(get_average_sample(1, &data, 3, 29), Ok(2));
}

#[test]
fn spread_at_the_threshold_gives_the_median() {
    let data = vec![1i64, 2, 30];
    // The spread is 29.
    assert_eq!(get_average_sample(1, &data, 3, 29), Ok(2));
    assert_eq!(get_average_sample(1, &data, 3, 30), Ok(11));
}

#[test]
fn mean_is_rounded_down() {
    let data = vec![1i64, 2, 2];
    assert_eq!(get_average_sample(1, &data, 3, 10), Ok(1));
    let data = vec![-1i64, -2, -2];
    assert_eq!(get_average_sample(1, &data, 3, 10), Ok(-2));
    let data = vec![-1i64, 0, 0];
    assert_eq!(get_average_sample(1, &data, 3, 10), Ok(-1));
}

#[test]
fn window_is_sorted_before_the_median_is_taken() {
    let data = vec![50i64, -3, 7, 41, 0];
    assert_eq!(get_average_sample(2, &data, 6, 0), Ok(7));
    let data = vec![5i64, 4, 3, 2, 1];
    assert_eq!(get_average_sample(2, &data, 6, 0), Ok(3));
}

#[test]
fn non_positive_threshold_always_gives_the_median() {
    let data = vec![4i64, 4, 4];
    assert_eq!(get_average_sample(1, &data, 3, 0), Ok(4));
    assert_eq!(get_average_sample(1, &data, 3, -1), Ok(4));
}

#[test]
fn narrow_slot_reads_one_sample() {
    let data = vec![7i64, 8, 9];
    assert_eq!(get_average_sample(0, &data, 2, 1), Ok(7));
    assert_eq!(get_average_sample(2, &data, 0, 1), Ok(9));
}

#[test]
fn window_before_the_block_is_out_of_bounds() {
    let data = vec![1i64; 10];
    assert_eq!(get_average_sample(1, &data, 6, 5), Err(VirtChannelError::OutOfBounds));
    assert_eq!(get_average_sample(2, &data, 6, 5), Ok(1));
}

#[test]
fn window_behind_the_block_is_out_of_bounds() {
    let data = vec![1i64; 10];
    assert_eq!(get_average_sample(8, &data, 6, 5), Err(VirtChannelError::OutOfBounds));
    assert_eq!(get_average_sample(7, &data, 6, 5), Ok(1));
    assert_eq!(get_average_sample(10, &data, 0, 5), Err(VirtChannelError::OutOfBounds));
}

#[test]
fn empty_block_is_out_of_bounds() {
    let data: Vec<i64> = Vec::new();
    assert_eq!(get_average_sample(0, &data, 0, 5), Err(VirtChannelError::OutOfBounds));
}

#[test]
fn index_at_the_end_of_the_address_space_is_out_of_bounds() {
    let data = vec![1i64; 10];
    assert_eq!(
        get_average_sample(usize::MAX, &data, usize::MAX, 5),
        Err(VirtChannelError::OutOfBounds)
    );
    assert_eq!(get_average_sample(usize::MAX, &data, 3, 5), Err(VirtChannelError::OutOfBounds));
}

#[test]
fn plateau_gives_its_level() {
    let data = vec![2_000_000i64; 101];
    assert_eq!(get_average_sample(50, &data, 150, 500_000), Ok(2_000_000));
    assert_eq!(get_average_sample(50, &data, 150, 0), Ok(2_000_000));
}

#[test]
fn extreme_samples_do_not_overflow() {
    let data = vec![i64::MAX; 9];
    assert_eq!(get_average_sample(4, &data, 12, 1), Ok(i64::MAX));
    let data = vec![i64::MIN; 9];
    assert_eq!(get_average_sample(4, &data, 12, 1), Ok(i64::MIN));
    let data = vec![i64::MIN, i64::MAX, i64::MAX];
    assert_eq!(get_average_sample(1, &data, 3, i64::MAX), Ok(i64::MAX));
}
