use quarterpastmarch::assignment::{
    assign_shortcut_to_date, default_offsets, Offset, ShortcutAssignment,
};
use quarterpastmarch::calendar::{CalendarDate, MAX_YEAR, MIN_YEAR};
use quarterpastmarch::fraction::{Fraction, HALF_BITS, QUARTER_BITS};
use quarterpastmarch::sorting::sort_by_date;

fn date(year: i32, month: u32, day: u32) -> CalendarDate {
    CalendarDate::new(year, month, day).unwrap()
}

fn offset(value: f32, label: &str) -> Offset {
    Offset::new(Fraction::from_bits(value.to_bits()).unwrap(), label)
}

fn texts(list: &Vec<ShortcutAssignment>) -> Vec<(String, String)> {
    list.iter().map(|a| (a.date.iso_text(), a.label.clone())).collect()
}

fn pairs(expected: &[(&str, &str)]) -> Vec<(String, String)> {
    expected.iter().map(|(d, l)| (d.to_string(), l.to_string())).collect()
}

#[test]
fn default_offsets_are_a_quarter_and_a_half() {
    let offsets = default_offsets();
    assert_eq!(offsets.len(), 2);
    assert_eq!(offsets[0].fraction.bits(), 0.25f32.to_bits());
    assert_eq!(offsets[0].fraction.bits(), QUARTER_BITS);
    assert_eq!(offsets[0].label, "quarter past");
    assert_eq!(offsets[1].fraction.bits(), 0.5f32.to_bits());
    assert_eq!(offsets[1].fraction.bits(), HALF_BITS);
    assert_eq!(offsets[1].label, "half past");
}

#[test]
fn january_2020_yields_its_quarter_and_half() {
    let offsets = vec![offset(0.25, "quarter past"), offset(0.5, "half past")];
    let list = assign_shortcut_to_date(2020, 1, &offsets);
    assert_eq!(list[0].date, date(2020, 4, 23));
    assert_eq!(list[0].label, "quarter past January");
    assert_eq!(list[1].date, date(2020, 7, 16));
    assert_eq!(list[1].label, "half past January");
}

#[test]
fn a_leap_year_is_listed_month_by_month() {
    let list = assign_shortcut_to_date(2020, 1, &default_offsets());
    let expected = pairs(&[
        ("2020-04-23", "quarter past January"),
        ("2020-07-16", "half past January"),
        ("2020-05-15", "quarter past February"),
        ("2020-07-31", "half past February"),
        ("2020-06-07", "quarter past March"),
        ("2020-08-15", "half past March"),
        ("2020-06-30", "quarter past April"),
        ("2020-08-30", "half past April"),
        ("2020-07-23", "quarter past May"),
        ("2020-09-15", "half past May"),
        ("2020-08-15", "quarter past June"),
        ("2020-09-30", "half past June"),
        ("2020-09-07", "quarter past July"),
        ("2020-10-15", "half past July"),
        ("2020-09-30", "quarter past August"),
        ("2020-10-31", "half past August"),
        ("2020-10-23", "quarter past September"),
        ("2020-11-15", "half past September"),
        ("2020-11-15", "quarter past October"),
        ("2020-11-30", "half past October"),
        ("2020-12-07", "quarter past November"),
        ("2020-12-15", "half past November"),
    ]);
    assert_eq!(texts(&list), expected);
}

#[test]
fn a_common_year_differs_in_january_only() {
    let list = assign_shortcut_to_date(2021, 1, &default_offsets());
    assert_eq!(list.len(), 22);
    assert_eq!(list[0].date, date(2021, 4, 24));
    assert_eq!(list[1].date, date(2021, 7, 17));
    assert_eq!(list[2].date, date(2021, 5, 15));
    assert_eq!(list[3].date, date(2021, 7, 31));
    assert_eq!(list[20].date, date(2021, 12, 7));
    assert_eq!(list[21].date, date(2021, 12, 15));
    assert_eq!(list[21].label, "half past November");
}

#[test]
fn eleven_months_of_each_year_get_each_offset() {
    let two = default_offsets();
    for years in 1..=12 {
        assert_eq!(assign_shortcut_to_date(2020, years, &two).len(), (years as usize) * 11 * 2);
    }
    let three = vec![offset(0.1, "a"), offset(0.3, "b"), offset(0.9, "c")];
    assert_eq!(assign_shortcut_to_date(1999, 7, &three).len(), 7 * 11 * 3);
    let one = vec![offset(0.75, "three quarters past")];
    assert_eq!(assign_shortcut_to_date(-10, 25, &one).len(), 25 * 11);
}

#[test]
fn december_yields_no_assignment() {
    for year in [1900, 2000, 2020, 2021, 2024, 2100] {
        let list = assign_shortcut_to_date(year, 1, &default_offsets());
        assert_eq!(list.len(), 22);
        for assignment in &list {
            assert!(!assignment.label.ends_with("December"));
            assert_eq!(assignment.date.year(), year);
        }
        assert!(list.iter().any(|a| a.label == "half past November"));
    }
}

#[test]
fn no_offsets_or_no_years_yield_nothing() {
    assert_eq!(assign_shortcut_to_date(2020, 3, &Vec::new()).len(), 0);
    assert_eq!(assign_shortcut_to_date(2020, 0, &default_offsets()).len(), 0);
    assert_eq!(assign_shortcut_to_date(2020, -4, &default_offsets()).len(), 0);
    assert_eq!(assign_shortcut_to_date(i32::MAX, 0, &default_offsets()).len(), 0);
}

#[test]
fn years_follow_each_other_in_the_list() {
    let list = assign_shortcut_to_date(2020, 3, &default_offsets());
    for (i, assignment) in list.iter().enumerate() {
        assert_eq!(assignment.date.year(), 2020 + (i / 22) as i32);
    }
    assert_eq!(list[22].date, date(2021, 4, 24));
    assert_eq!(list[44].date, date(2022, 4, 24));
    assert_eq!(list[44].label, "quarter past January");
    assert_eq!(list[45].label, "half past January");
    assert_eq!(list[46].label, "quarter past February");
}

#[test]
fn the_first_and_the_last_year_of_the_calendar_are_served() {
    let first = assign_shortcut_to_date(MIN_YEAR, 1, &default_offsets());
    assert_eq!(first.len(), 22);
    assert_eq!(first[0].date.year(), MIN_YEAR);
    let last = assign_shortcut_to_date(MAX_YEAR, 1, &default_offsets());
    assert_eq!(last.len(), 22);
    assert_eq!(last[21].date, date(MAX_YEAR, 12, 15));
}

#[test]
fn a_fraction_is_taken_in_single_precision() {
    // Seven tenths of the 306 days after February are 214.2, of the 30 after
    // November exactly 21.
    let list = assign_shortcut_to_date(2021, 1, &vec![offset(0.7, "well past")]);
    assert_eq!(list.len(), 11);
    assert_eq!(list[1].date, date(2021, 2, 28).plus_days(214).unwrap());
    assert_eq!(list[10].date, date(2021, 11, 30).plus_days(21).unwrap());
    assert_eq!(list[10].label, "well past November");
    for (i, assignment) in list.iter().enumerate() {
        let month = (i + 1) as u32;
        let last = CalendarDate::last_day_of_month(2021, month).unwrap();
        let remaining = date(2021, 12, 31).days_since(&last);
        let expected = (remaining as f32 * 0.7f32).floor() as i64;
        assert_eq!(assignment.date, last.plus_days(expected).unwrap());
    }
}

#[test]
fn sorting_orders_by_date() {
    let sorted = sort_by_date(assign_shortcut_to_date(2020, 10, &default_offsets()));
    assert_eq!(sorted.len(), 220);
    for pair in sorted.windows(2) {
        assert!(!pair[1].date.is_before(&pair[0].date));
    }
    assert_eq!(sorted[0].date, date(2020, 4, 23));
    assert_eq!(sorted[219].date, date(2029, 12, 15));
}

#[test]
fn sorting_keeps_the_order_of_entries_of_one_day() {
    let sorted = sort_by_date(assign_shortcut_to_date(2021, 1, &default_offsets()));
    let expected = pairs(&[
        ("2021-04-24", "quarter past January"),
        ("2021-05-15", "quarter past February"),
        ("2021-06-07", "quarter past March"),
        ("2021-06-30", "quarter past April"),
        ("2021-07-17", "half past January"),
        ("2021-07-23", "quarter past May"),
        ("2021-07-31", "half past February"),
        ("2021-08-15", "half past March"),
        ("2021-08-15", "quarter past June"),
        ("2021-08-30", "half past April"),
        ("2021-09-07", "quarter past July"),
        ("2021-09-15", "half past May"),
        ("2021-09-30", "half past June"),
        ("2021-09-30", "quarter past August"),
        ("2021-10-15", "half past July"),
        ("2021-10-23", "quarter past September"),
        ("2021-10-31", "half past August"),
        ("2021-11-15", "half past September"),
        ("2021-11-15", "quarter past October"),
        ("2021-11-30", "half past October"),
        ("2021-12-07", "quarter past November"),
        ("2021-12-15", "half past November"),
    ]);
    assert_eq!(texts(&sorted), expected);
}

#[test]
fn sorting_handles_small_and_reversed_lists() {
    assert_eq!(sort_by_date(Vec::new()).len(), 0);
    let one = sort_by_date(vec![ShortcutAssignment::new(date(2020, 1, 1), "only")]);
    assert_eq!(texts(&one), pairs(&[("2020-01-01", "only")]));
    let reversed = vec![
        ShortcutAssignment::new(date(2020, 3, 1), "c"),
        ShortcutAssignment::new(date(2020, 2, 1), "b1"),
        ShortcutAssignment::new(date(2020, 2, 1), "b2"),
        ShortcutAssignment::new(date(2019, 12, 31), "a"),
    ];
    let sorted = sort_by_date(reversed);
    assert_eq!(
        texts(&sorted),
        pairs(&[
            ("2019-12-31", "a"),
            ("2020-02-01", "b1"),
            ("2020-02-01", "b2"),
            ("2020-03-01", "c"),
        ])
    );
}

#[test]
fn generating_twice_gives_the_same_list() {
    let first = sort_by_date(assign_shortcut_to_date(2020, 10, &default_offsets()));
    let second = sort_by_date(assign_shortcut_to_date(2020, 10, &default_offsets()));
    assert_eq!(texts(&first), texts(&second));
}
