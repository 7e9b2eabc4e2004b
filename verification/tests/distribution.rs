use rosu_nps::calc::integer_sqrt;
use rosu_nps::calc::prefers_scan;
use rosu_nps::calc_distribution;
use rosu_nps::calc_distribution_2;
use rosu_nps::calc_distribution_smart;
use rosu_nps::Density;
use rosu_nps::NpsError;
use rosu_nps::TimeIndex;

fn sorted(times: Vec<i32>) -> TimeIndex {
    TimeIndex::new(times).expect("timestamps in chronological order")
}

fn fractions(numerators: &[u128], denominator: u64) -> Vec<Density> {
    numerators.iter().map(|&numerator| Density { numerator, denominator }).collect()
}

fn plain_counts(times: &[i32], parts: usize) -> Vec<u128> {
    let first = times[0] as i64;
    let span = times[times.len() - 1] as i64 - first;
    let mut counts = vec![0u128; parts];
    for &t in times {
        let raw = ((t as i64 - first) * parts as i64 / span) as usize;
        counts[raw.min(parts - 1)] += 1;
    }
    counts
}

#[test]
fn searches_bucket_a_quarter_second_grid() {
    let map = sorted(vec![0, 250, 500, 750, 1000]);
    assert_eq!(calc_distribution(&map, 4), Ok(fractions(&[4000, 4000, 4000, 8000], 1000)));
}

#[test]
fn scan_buckets_a_quarter_second_grid() {
    let map = sorted(vec![0, 250, 500, 750, 1000]);
    assert_eq!(calc_distribution_2(&map, 4), Ok(fractions(&[4000, 4000, 4000, 8000], 1000)));
}

#[test]
fn buckets_of_fractional_width() {
    let map = sorted(vec![0, 1, 2, 3, 10]);
    let expected = Ok(fractions(&[12000, 4000, 0, 4000], 10));
    assert_eq!(calc_distribution(&map, 4), expected);
    assert_eq!(calc_distribution_2(&map, 4), expected);
    assert_eq!(calc_distribution_smart(&map, 4), expected);
}

#[test]
fn one_bucket_holds_everything() {
    let map = sorted(vec![10, 20, 30, 1010]);
    let expected = Ok(fractions(&[4000], 1000));
    assert_eq!(calc_distribution(&map, 1), expected);
    assert_eq!(calc_distribution_2(&map, 1), expected);
}

#[test]
fn more_buckets_than_milliseconds() {
    let map = sorted(vec![0, 1, 2]);
    let expected = Ok(fractions(&[5000, 0, 5000, 0, 5000], 2));
    assert_eq!(calc_distribution(&map, 5), expected);
    assert_eq!(calc_distribution_2(&map, 5), expected);
}

#[test]
fn negative_timestamps() {
    let map = sorted(vec![-1000, -600, -500, 0]);
    let expected = Ok(fractions(&[4000, 4000], 1000));
    assert_eq!(calc_distribution(&map, 2), expected);
    assert_eq!(calc_distribution_2(&map, 2), expected);
}

#[test]
fn widest_timeline() {
    let map = sorted(vec![i32::MIN, -1, 0, i32::MAX]);
    let expected = Ok(fractions(&[4000, 4000], 4_294_967_295));
    assert_eq!(calc_distribution(&map, 2), expected);
    assert_eq!(calc_distribution_2(&map, 2), expected);
}

#[test]
fn note_on_a_seam_belongs_to_the_later_bucket() {
    let map = sorted(vec![0, 500, 1000]);
    let expected = Ok(fractions(&[2000, 4000], 1000));
    assert_eq!(calc_distribution(&map, 2), expected);
    assert_eq!(calc_distribution_2(&map, 2), expected);
}

#[test]
fn note_on_a_seam_is_counted_once() {
    let times = vec![0, 100, 200, 300, 400, 500, 600, 700, 800, 900, 1000];
    let map = sorted(times.clone());
    for parts in [1i32, 2, 4, 5, 10, 20, 50, 100, 1000] {
        for result in [calc_distribution(&map, parts), calc_distribution_2(&map, parts)] {
            let buckets = result.expect("a distribution");
            let counted: u128 =
                buckets.iter().map(|d| d.numerator / (1000 * parts as u128)).sum();
            assert_eq!(counted, times.len() as u128);
            for d in &buckets {
                assert_eq!(d.numerator % (1000 * parts as u128), 0);
            }
        }
    }
}

#[test]
fn simultaneous_notes_yield_zeros() {
    let map = sorted(vec![5, 5, 5]);
    let zeros = Ok(fractions(&[0, 0, 0], 1));
    assert_eq!(calc_distribution(&map, 3), zeros);
    assert_eq!(calc_distribution_2(&map, 3), zeros);
    assert_eq!(calc_distribution_smart(&map, 3), zeros);
}

#[test]
fn single_note_yields_zeros() {
    let map = sorted(vec![42]);
    let zeros = Ok(fractions(&[0, 0], 1));
    assert_eq!(calc_distribution(&map, 2), zeros);
    assert_eq!(calc_distribution_2(&map, 2), zeros);
}

#[test]
fn bucket_count_must_be_positive() {
    let map = sorted(vec![0, 1000]);
    for parts in [0, -1, i32::MIN] {
        assert_eq!(calc_distribution(&map, parts), Err(NpsError::InvalidArgument));
        assert_eq!(calc_distribution_2(&map, parts), Err(NpsError::InvalidArgument));
        assert_eq!(calc_distribution_smart(&map, parts), Err(NpsError::InvalidArgument));
    }
}

#[test]
fn empty_beatmap_has_no_distribution() {
    let map = sorted(vec![]);
    assert_eq!(calc_distribution(&map, 4), Err(NpsError::EmptyInput));
    assert_eq!(calc_distribution_2(&map, 4), Err(NpsError::EmptyInput));
    assert_eq!(calc_distribution_smart(&map, 4), Err(NpsError::EmptyInput));
}

#[test]
fn bad_bucket_count_comes_before_empty_beatmap() {
    let map = sorted(vec![]);
    assert_eq!(calc_distribution(&map, 0), Err(NpsError::InvalidArgument));
    assert_eq!(calc_distribution_2(&map, 0), Err(NpsError::InvalidArgument));
    assert_eq!(calc_distribution_smart(&map, 0), Err(NpsError::InvalidArgument));
}

#[test]
fn both_computations_agree_with_a_plain_count() {
    let times: Vec<i32> = (0..400).map(|i| (i * i) % 997 + i * 3).collect();
    let mut times = times;
    times.sort();
    let map = sorted(times.clone());
    let span = (times[times.len() - 1] - times[0]) as u64;
    for parts in [1usize, 2, 3, 7, 19, 20, 21, 64, 400, 2200] {
        let scale = 1000 * parts as u128;
        let numerators: Vec<u128> =
            plain_counts(&times, parts).iter().map(|c| c * scale).collect();
        let expected = Ok(fractions(&numerators, span));
        assert_eq!(calc_distribution(&map, parts as i32), expected);
        assert_eq!(calc_distribution_2(&map, parts as i32), expected);
        assert_eq!(calc_distribution_smart(&map, parts as i32), expected);
    }
}

#[test]
fn square_root_rounds_down() {
    assert_eq!(integer_sqrt(0), 0);
    assert_eq!(integer_sqrt(1), 1);
    assert_eq!(integer_sqrt(2), 1);
    assert_eq!(integer_sqrt(3), 1);
    assert_eq!(integer_sqrt(4), 2);
    assert_eq!(integer_sqrt(15), 3);
    assert_eq!(integer_sqrt(16), 4);
    assert_eq!(integer_sqrt(17), 4);
    assert_eq!(integer_sqrt(999_999), 999);
    assert_eq!(integer_sqrt(1_000_000), 1000);
    assert_eq!(integer_sqrt(u64::MAX), 4_294_967_295);
    assert_eq!(integer_sqrt(4_294_967_295 * 4_294_967_295), 4_294_967_295);
    assert_eq!(integer_sqrt(4_294_967_295 * 4_294_967_295 - 1), 4_294_967_294);
}

#[test]
fn scan_is_preferred_above_the_square_root() {
    assert!(!prefers_scan(16, 4));
    assert!(prefers_scan(16, 5));
    assert!(prefers_scan(15, 4));
    assert!(!prefers_scan(15, 3));
    assert!(prefers_scan(0, 1));
    assert!(!prefers_scan(1, 1));
    assert!(!prefers_scan(100, 0));
    assert!(!prefers_scan(0, 0));
    assert!(!prefers_scan(0, -5));
    assert!(prefers_scan(1_000_000, 1001));
    assert!(!prefers_scan(1_000_000, 1000));
}
