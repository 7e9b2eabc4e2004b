use rosu_nps::calc_distribution_smart;
use rosu_nps::calculate_average_notes_per_second;
use rosu_nps::Density;
use rosu_nps::Frequency;
use rosu_nps::KeyValue;
use rosu_nps::NpsError;
use rosu_nps::TimeIndex;

fn chronological(times: Vec<i32>) -> TimeIndex {
    TimeIndex::new(times).expect("timestamps in chronological order")
}

fn hertz(numerator: i64, denominator: u128) -> Frequency {
    Frequency { numerator, denominator }
}

fn bucket(key: i32, numerator: u128, denominator: u64) -> KeyValue {
    KeyValue { key, value: Density { numerator, denominator } }
}

#[test]
fn period_is_rounded_to_the_nearest_integer() {
    assert_eq!(hertz(1, 4).bucket_count(), Some(4));
    assert_eq!(hertz(1, 2).bucket_count(), Some(2));
    assert_eq!(hertz(1, 1).bucket_count(), Some(1));
    assert_eq!(hertz(4, 9).bucket_count(), Some(2));
    assert_eq!(hertz(4, 11).bucket_count(), Some(3));
    assert_eq!(hertz(1, 1000).bucket_count(), Some(1000));
    assert_eq!(hertz(3, 1000).bucket_count(), Some(333));
    assert_eq!(hertz(7, 1000).bucket_count(), Some(143));
}

#[test]
fn half_a_period_is_rounded_up() {
    assert_eq!(hertz(2, 5).bucket_count(), Some(3));
    assert_eq!(hertz(2, 3).bucket_count(), Some(2));
    assert_eq!(hertz(2, 1).bucket_count(), Some(1));
    assert_eq!(hertz(6, 3).bucket_count(), Some(1));
}

#[test]
fn period_below_one_half_selects_nothing() {
    assert_eq!(hertz(3, 1).bucket_count(), None);
    assert_eq!(hertz(201, 100).bucket_count(), None);
    assert_eq!(hertz(i64::MAX, 1).bucket_count(), None);
    assert_eq!(hertz(1, 0).bucket_count(), None);
}

#[test]
fn frequency_must_be_positive() {
    assert_eq!(hertz(0, 1).bucket_count(), None);
    assert_eq!(hertz(-1, 4).bucket_count(), None);
    assert_eq!(hertz(i64::MIN, u128::MAX).bucket_count(), None);
    assert_eq!(hertz(0, 0).bucket_count(), None);
}

#[test]
fn period_must_fit_the_bucket_count() {
    assert_eq!(hertz(1, 2_147_483_647).bucket_count(), Some(2_147_483_647));
    assert_eq!(hertz(2, 4_294_967_294).bucket_count(), Some(2_147_483_647));
    assert_eq!(hertz(2, 4_294_967_295).bucket_count(), None);
    assert_eq!(hertz(1, 2_147_483_648).bucket_count(), None);
    assert_eq!(hertz(1, u128::MAX).bucket_count(), None);
    assert_eq!(hertz(2, u128::MAX).bucket_count(), None);
    assert_eq!(hertz(i64::MAX, u128::MAX).bucket_count(), None);
}

#[test]
fn buckets_carry_their_first_millisecond() {
    let map = chronological(vec![0, 1, 2, 3, 10]);
    assert_eq!(
        calculate_average_notes_per_second(&map, hertz(1, 4)),
        Ok(vec![
            bucket(0, 12000, 10),
            bucket(3, 4000, 10),
            bucket(5, 0, 10),
            bucket(8, 4000, 10),
        ])
    );
}

#[test]
fn keys_start_at_the_first_note() {
    let map = chronological(vec![-1000, -600, -500, 0]);
    assert_eq!(
        calculate_average_notes_per_second(&map, hertz(1, 2)),
        Ok(vec![bucket(-1000, 4000, 1000), bucket(-500, 4000, 1000)])
    );
}

#[test]
fn keys_of_an_instant_are_that_instant() {
    let map = chronological(vec![70, 70]);
    assert_eq!(
        calculate_average_notes_per_second(&map, hertz(1, 3)),
        Ok(vec![bucket(70, 0, 1), bucket(70, 0, 1), bucket(70, 0, 1)])
    );
}

#[test]
fn keys_reach_across_the_widest_timeline() {
    let map = chronological(vec![i32::MIN, i32::MAX]);
    assert_eq!(
        calculate_average_notes_per_second(&map, hertz(1, 2)),
        Ok(vec![
            bucket(i32::MIN, 2000, 4_294_967_295),
            bucket(0, 2000, 4_294_967_295),
        ])
    );
}

#[test]
fn values_are_those_of_the_distribution() {
    let times: Vec<i32> = (0..300).map(|i| i * 50 + (i % 5) * 11).collect();
    let map = chronological(times);
    for (frequency, parts) in
        [(hertz(1, 4), 4), (hertz(1, 1), 1), (hertz(2, 1), 1), (hertz(1, 17), 17), (hertz(3, 1000), 333)]
    {
        let buckets = calculate_average_notes_per_second(&map, frequency).expect("buckets");
        let values: Vec<Density> = buckets.iter().map(|kv| kv.value).collect();
        assert_eq!(Ok(values), calc_distribution_smart(&map, parts));
    }
}

#[test]
fn frequencies_with_one_rounded_period_agree() {
    let map = chronological(vec![0, 90, 180, 400, 950, 1000]);
    let four = calculate_average_notes_per_second(&map, hertz(1, 4));
    assert_eq!(calculate_average_notes_per_second(&map, hertz(4, 15)), four);
    assert_eq!(calculate_average_notes_per_second(&map, hertz(10, 41)), four);
    assert_eq!(calculate_average_notes_per_second(&map, hertz(2, 7)), four);
    assert_eq!(four.expect("buckets").len(), 4);
}

#[test]
fn frequency_that_is_not_positive_fails() {
    let map = chronological(vec![0, 1000]);
    assert_eq!(
        calculate_average_notes_per_second(&map, hertz(0, 1)),
        Err(NpsError::InvalidArgument)
    );
    assert_eq!(
        calculate_average_notes_per_second(&map, hertz(-1, 4)),
        Err(NpsError::InvalidArgument)
    );
    assert_eq!(
        calculate_average_notes_per_second(&map, hertz(i64::MIN, 1)),
        Err(NpsError::InvalidArgument)
    );
}

#[test]
fn frequency_without_a_bucket_count_fails() {
    let map = chronological(vec![0, 1000]);
    assert_eq!(
        calculate_average_notes_per_second(&map, hertz(3, 1)),
        Err(NpsError::InvalidArgument)
    );
    assert_eq!(
        calculate_average_notes_per_second(&map, hertz(1, 2_147_483_648)),
        Err(NpsError::InvalidArgument)
    );
}

#[test]
fn frequency_on_empty_beatmap_fails() {
    let map = chronological(vec![]);
    assert_eq!(
        calculate_average_notes_per_second(&map, hertz(1, 4)),
        Err(NpsError::EmptyInput)
    );
    assert_eq!(
        calculate_average_notes_per_second(&map, hertz(0, 4)),
        Err(NpsError::InvalidArgument)
    );
}

#[test]
fn bit_pattern_of_a_quarter() {
    assert_eq!(
        Frequency::from_binary64(0.25f64.to_bits()),
        Some(hertz(1 << 52, 1 << 54))
    );
    assert_eq!(Frequency::from_binary64(0.25f64.to_bits()).unwrap().bucket_count(), Some(4));
}

#[test]
fn bit_pattern_keeps_the_exact_value() {
    for value in [0.001f64, 0.005, 0.01, 0.02, 0.05, 0.1, 0.25, 0.3, 0.5, 1.0, 1.5, 2.0, 3.0, 1e-9, 123456.789] {
        let f = Frequency::from_binary64(value.to_bits()).expect("within reach");
        assert!(f.numerator > 0);
        assert!(f.denominator.is_power_of_two());
        assert_eq!(f.numerator as f64 / f.denominator as f64, value);
    }
}

#[test]
fn bit_pattern_selects_the_rounded_period() {
    for (value, parts) in [
        (0.001f64, Some(1000)),
        (0.005, Some(200)),
        (0.01, Some(100)),
        (0.02, Some(50)),
        (0.05, Some(20)),
        (0.1, Some(10)),
        (0.25, Some(4)),
        (0.375, Some(3)),
        (0.4, Some(2)),
        (0.5, Some(2)),
        (1.0, Some(1)),
        (2.0, Some(1)),
        (2.0000000000000004, None),
        (3.0, None),
        (1e-9, Some(1_000_000_000)),
        (1e-10, None),
    ] {
        let f = Frequency::from_binary64(value.to_bits()).expect("within reach");
        assert_eq!(f.bucket_count(), parts);
    }
}

#[test]
fn bit_pattern_that_is_no_positive_number() {
    assert_eq!(Frequency::from_binary64(0.0f64.to_bits()), None);
    assert_eq!(Frequency::from_binary64((-0.0f64).to_bits()), None);
    assert_eq!(Frequency::from_binary64((-0.25f64).to_bits()), None);
    assert_eq!(Frequency::from_binary64(f64::NAN.to_bits()), None);
    assert_eq!(Frequency::from_binary64(f64::INFINITY.to_bits()), None);
    assert_eq!(Frequency::from_binary64(f64::NEG_INFINITY.to_bits()), None);
    assert_eq!(Frequency::from_binary64(u64::MAX), None);
}

#[test]
fn bit_pattern_beyond_reach() {
    assert_eq!(Frequency::from_binary64(f64::MAX.to_bits()), None);
    assert_eq!(Frequency::from_binary64(f64::MIN_POSITIVE.to_bits()), None);
    assert_eq!(Frequency::from_binary64(1u64), None);
    assert_eq!(Frequency::from_binary64(4503599627370496.0f64.to_bits()), None);
    assert!(Frequency::from_binary64(4503599627370495.5f64.to_bits()).is_some());
    let smallest = f64::from_bits(948u64 << 52);
    assert_eq!(
        Frequency::from_binary64(smallest.to_bits()),
        Some(hertz(1 << 52, 1 << 127))
    );
    assert_eq!(Frequency::from_binary64((948u64 << 52) - 1), None);
}
