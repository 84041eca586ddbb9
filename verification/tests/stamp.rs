use tgrep::stamp::default_output_name;
use tgrep::stamp::name_with_stamp;
use tgrep::stamp::Moment;

fn name(year: i32, month: u32, day: u32, hour: u32, minute: u32, second: u32) -> Option<String> {
    default_output_name(Moment { year, month, day, hour, minute, second })
}

#[test]
fn a_name_holds_date_and_time() {
    assert_eq!(name(2026, 12, 31, 23, 59, 58).unwrap(), "output_20261231_235958.log");
}

#[test]
fn small_numbers_are_padded() {
    assert_eq!(name(7, 1, 2, 3, 4, 5).unwrap(), "output_00070102_030405.log");
    assert_eq!(name(0, 2, 29, 0, 0, 0).unwrap(), "output_00000229_000000.log");
}

#[test]
fn long_and_negative_years_have_a_sign() {
    assert_eq!(name(10000, 1, 1, 0, 0, 0).unwrap(), "output_+100000101_000000.log");
    assert_eq!(name(-1, 1, 1, 0, 0, 0).unwrap(), "output_-00010101_000000.log");
    assert_eq!(name(262142, 12, 31, 0, 0, 0).unwrap(), "output_+2621421231_000000.log");
    assert_eq!(name(-262143, 1, 1, 0, 0, 0).unwrap(), "output_-2621430101_000000.log");
}

#[test]
fn moments_that_do_not_exist_have_no_name() {
    assert_eq!(name(2026, 2, 29, 0, 0, 0), None);
    assert_eq!(name(1900, 2, 29, 0, 0, 0), None);
    assert_eq!(name(2026, 0, 1, 0, 0, 0), None);
    assert_eq!(name(2026, 4, 31, 0, 0, 0), None);
    assert_eq!(name(2026, 1, 0, 0, 0, 0), None);
    assert_eq!(name(2026, 1, 1, 24, 0, 0), None);
    assert_eq!(name(2026, 1, 1, 0, 60, 0), None);
    assert_eq!(name(2026, 1, 1, 0, 0, 60), None);
    assert_eq!(name(262143, 1, 1, 0, 0, 0), None);
    assert_eq!(name(-262144, 1, 1, 0, 0, 0), None);
}

#[test]
fn leap_days_have_a_name() {
    assert_eq!(name(2024, 2, 29, 0, 0, 0).unwrap(), "output_20240229_000000.log");
    assert_eq!(name(2000, 2, 29, 0, 0, 0).unwrap(), "output_20000229_000000.log");
}

#[test]
fn a_stamp_has_fourteen_digits() {
    let written = name(2026, 8, 5, 10, 0, 0).unwrap();
    let stamp = &written["output_".len()..written.len() - ".log".len()];
    assert_eq!(stamp.len(), 15);
    assert_eq!(stamp.chars().filter(|c| c.is_ascii_digit()).count(), 14);
    assert_eq!(stamp.as_bytes()[8], b'_');
}

#[test]
fn moments_a_second_apart_have_different_names() {
    assert_ne!(name(2026, 8, 5, 10, 0, 0), name(2026, 8, 5, 10, 0, 1));
    assert_ne!(name(2026, 8, 5, 10, 0, 0), name(2026, 8, 6, 10, 0, 0));
}

#[test]
fn a_stamp_stands_between_prefix_and_suffix() {
    assert_eq!(name_with_stamp("x"), "output_x.log");
}
