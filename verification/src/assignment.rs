//! Shortcut assignments: for each month of a year and each offset, the date
//! that lies the offset's fraction of the way from the month's last day to
//! the year's last day.

use crate::calendar::{
    day_number_of, days_before_month, days_in_month, days_in_year, lemma_day_number_in_range,
    lemma_day_number_orders, lemma_days_before_month, month_name, CalendarDate, MAX_YEAR,
    MIN_YEAR,
};
use crate::fraction::{scaled_days, Fraction, HALF_BITS, QUARTER_BITS};
use vstd::arithmetic::div_mod::lemma_fundamental_div_mod;
use vstd::prelude::*;

verus! {

/// How far past a month's end a shortcut falls, and what it is called.
#[derive(Debug)]
pub struct Offset {
    pub fraction: Fraction,
    pub label: String,
}

/// A shortcut and the date it falls on.
#[derive(Debug)]
pub struct ShortcutAssignment {
    pub date: CalendarDate,
    pub label: String,
}

impl Offset {
    /// Whether the fraction lies strictly between 0 and 1.
    pub open spec fn wf(&self) -> bool {
        self.fraction.wf()
    }

    /// The offset with the given fraction and label.
    pub fn new(fraction: Fraction, label: &str) -> (made: Offset)
        ensures
            made.fraction == fraction,
            made.label@ == label@,
    {
        Offset { fraction, label: String::from_str(label) }
    }
}

/// The usual offsets: a quarter and a half of the way from a month's end to
/// the year's end.
pub fn default_offsets() -> (offsets: Vec<Offset>)
    ensures
        offsets.len() == 2,
        offsets[0].fraction.bits == QUARTER_BITS,
        offsets[0].label@ == "quarter past"@,
        offsets[1].fraction.bits == HALF_BITS,
        offsets[1].label@ == "half past"@,
        forall|j: int| 0 <= j < offsets.len() ==> (#[trigger] offsets[j]).wf(),
{
    let mut offsets: Vec<Offset> = Vec::new();
    offsets.push(Offset::new(Fraction { bits: QUARTER_BITS }, "quarter past"));
    offsets.push(Offset::new(Fraction { bits: HALF_BITS }, "half past"));
    offsets
}

impl Clone for Offset {
    fn clone(&self) -> (copy: Self)
        ensures
            copy == *self,
    {
        Offset { fraction: self.fraction, label: self.label.clone() }
    }
}

impl ShortcutAssignment {
    /// The date and the label's text.
    pub open spec fn view(&self) -> (CalendarDate, Seq<char>) {
        (self.date, self.label@)
    }

    /// The assignment of the shortcut called `label` to `date`.
    pub fn new(date: CalendarDate, label: &str) -> (made: ShortcutAssignment)
        ensures
            made.date == date,
            made.label@ == label@,
    {
        ShortcutAssignment { date, label: String::from_str(label) }
    }
}

impl Clone for ShortcutAssignment {
    fn clone(&self) -> (copy: Self)
        ensures
            copy == *self,
    {
        ShortcutAssignment { date: self.date, label: self.label.clone() }
    }
}

/// Number of days of `year` that follow the last day of `month`.
pub open spec fn days_after_month(year: int, month: int) -> int {
    days_in_year(year) - days_before_month(year, month + 1)
}

/// Whether `assignment` is the shortcut of `month` of `year` under `offset`:
/// it falls the offset's fraction of the remaining days past the month's
/// last day, and is called by the offset's label and the month's name.
pub open spec fn is_shortcut_of(
    assignment: ShortcutAssignment,
    year: int,
    month: int,
    offset: Offset,
) -> bool {
    &&& assignment.date.wf()
    &&& assignment.date.year == year
    &&& assignment.date.day_number() == day_number_of(year, month, days_in_month(year, month))
        + scaled_days(days_after_month(year, month) as nat, offset.fraction.bits)
    &&& assignment.label@ == offset.label@ + " "@ + month_name(month)
}

/// Where the shortcut of the `months`-th month counted from the first
/// January, under the `offset`-th of `offsets` offsets, stands in the list.
pub open spec fn slot(months: int, offset: int, offsets: int) -> int {
    months * offsets + offset
}

/// Whether `list` holds, in order of year, month and offset, the shortcuts
/// of January to November of each of `num_years` years from `start_year`.
pub open spec fn is_assignment_list(
    list: Seq<ShortcutAssignment>,
    start_year: int,
    num_years: int,
    offsets: Seq<Offset>,
) -> bool {
    &&& list.len() == (if num_years > 0 {
        num_years
    } else {
        0
    }) * 11 * offsets.len()
    &&& forall|months: int, j: int|
        0 <= months < 11 * num_years && 0 <= j < offsets.len() ==> is_shortcut_of(
            list[#[trigger] slot(months, j, offsets.len() as int)],
            start_year + months / 11,
            months % 11 + 1,
            offsets[j],
        )
}

/// December is followed by no day of its year, every other month by some,
/// and by fewer than a year's worth.
pub proof fn lemma_days_after_month(year: int, month: int)
    requires
        1 <= month <= 12,
    ensures
        days_after_month(year, 12) == 0,
        month < 12 ==> 0 < days_after_month(year, month) <= 335,
        days_after_month(year, month) == day_number_of(year, 12, 31) - day_number_of(
            year,
            month,
            days_in_month(year, month),
        ),
{
    lemma_days_before_month(year);
}

/// A date between the first and the last day of a year lies in that year.
pub proof fn lemma_date_within_year(date: CalendarDate, year: int)
    requires
        date.wf(),
        day_number_of(year, 1, 1) <= date.day_number() <= day_number_of(year, 12, 31),
    ensures
        date.year == year,
{
    lemma_day_number_orders(date.year as int, date.month as int, date.day as int, year, 1, 1);
    lemma_day_number_orders(date.year as int, date.month as int, date.day as int, year, 12, 31);
}

/// Slots are filled month after month, and within a month offset after offset.
pub proof fn lemma_slot_order(months: int, j: int, later_months: int, offsets: int)
    requires
        0 <= j < offsets,
        months < later_months,
    ensures
        slot(months, j, offsets) < slot(later_months, 0, offsets),
{
    assert(months * offsets + offsets <= later_months * offsets) by (nonlinear_arith)
        requires
            months < later_months,
            0 < offsets,
    ;
}

/// Past the last offset of a month comes the first of the next month.
pub proof fn lemma_slot_next_month(months: int, offsets: int)
    ensures
        slot(months + 1, 0, offsets) == slot(months, offsets, offsets),
{
    assert((months + 1) * offsets == months * offsets + offsets) by (nonlinear_arith);
}

/// Every entry of an assignment list is the shortcut of one month from
/// January to November of one of its years, under one of the offsets: the
/// month and the offset that its place in the list gives. December has no
/// entry.
pub proof fn lemma_entries_are_shortcuts(
    list: Seq<ShortcutAssignment>,
    start_year: int,
    num_years: int,
    offsets: Seq<Offset>,
    i: int,
) -> (at: (int, int))
    requires
        is_assignment_list(list, start_year, num_years, offsets),
        0 <= i < list.len(),
    ensures
        0 <= at.0 < 11 * num_years,
        0 <= at.1 < offsets.len(),
        i == slot(at.0, at.1, offsets.len() as int),
        is_shortcut_of(list[i], start_year + at.0 / 11, at.0 % 11 + 1, offsets[at.1]),
        list[i].date.wf(),
        start_year <= list[i].date.year < start_year + num_years,
{
    let count = offsets.len() as int;
    assert(count > 0 && num_years > 0) by (nonlinear_arith)
        requires
            0 <= i < (if num_years > 0 {
                num_years
            } else {
                0
            }) * 11 * count,
            count >= 0,
    ;
    let months = i / count;
    let j = i % count;
    lemma_fundamental_div_mod(i, count);
    assert(months < 11 * num_years) by (nonlinear_arith)
        requires
            i == count * months + j,
            0 <= j,
            i < num_years * 11 * count,
            count > 0,
    ;
    assert(months >= 0) by (nonlinear_arith)
        requires
            i == count * months + j,
            j < count,
            i >= 0,
            count > 0,
    ;
    assert(slot(months, j, count) == i) by (nonlinear_arith)
        requires
            i == count * months + j,
    ;
    assert(is_shortcut_of(
        list[slot(months, j, count)],
        start_year + months / 11,
        months % 11 + 1,
        offsets[j],
    ));
    (months, j)
}

/// The shortcuts of `num_years` years from `start_year` on: for each year,
/// for each month that is followed by days of its year, for each offset,
/// one assignment. The list is in that order, not yet sorted by date.
pub fn assign_shortcut_to_date(start_year: i32, num_years: i32, offsets: &Vec<Offset>) -> (list:
    Vec<ShortcutAssignment>)
    requires
        num_years > 0 ==> MIN_YEAR <= start_year && start_year + num_years - 1 <= MAX_YEAR,
        forall|j: int| 0 <= j < offsets.len() ==> (#[trigger] offsets[j]).wf(),
    ensures
        is_assignment_list(list@, start_year as int, num_years as int, offsets@),
        forall|i: int|
            0 <= i < list.len() ==> (#[trigger] list[i]).date.wf() && start_year
                <= list[i].date.year < start_year + num_years,
{
    let mut list: Vec<ShortcutAssignment> = Vec::new();
    let ghost count = offsets.len() as int;
    let mut year_offset: i32 = 0;
    assert(slot(0, 0, count) == 0);
    while year_offset < num_years
        invariant
            0 <= year_offset,
            num_years > 0 ==> year_offset <= num_years,
            num_years <= 0 ==> year_offset == 0,
            num_years > 0 ==> MIN_YEAR <= start_year && start_year + num_years - 1 <= MAX_YEAR,
            count == offsets.len(),
            forall|j: int| 0 <= j < offsets.len() ==> (#[trigger] offsets[j]).wf(),
            list.len() == slot(11 * year_offset, 0, count),
            forall|months: int, j: int|
                0 <= months < 11 * year_offset && 0 <= j < count ==> is_shortcut_of(
                    list[#[trigger] slot(months, j, count)],
                    start_year + months / 11,
                    months % 11 + 1,
                    offsets[j],
                ),
        decreases num_years - year_offset,
    {
        let year: i32 = start_year + year_offset;
        let year_end = CalendarDate::last_day_of_year(year);
        assert(year_end is Some);
        let year_end = year_end.unwrap();
        let mut month_num: u32 = 1;
        while month_num <= 12
            invariant
                1 <= month_num <= 13,
                0 <= year_offset < num_years,
                year == start_year + year_offset,
                MIN_YEAR <= year <= MAX_YEAR,
                year_end.wf(),
                year_end.year == year && year_end.month == 12 && year_end.day == 31,
                count == offsets.len(),
                forall|j: int| 0 <= j < offsets.len() ==> (#[trigger] offsets[j]).wf(),
                list.len() == slot(
                    11 * year_offset + (if month_num <= 12 {
                        month_num - 1
                    } else {
                        11
                    }),
                    0,
                    count,
                ),
                forall|months: int, j: int|
                    0 <= months < 11 * year_offset + (if month_num <= 12 {
                        month_num - 1
                    } else {
                        11
                    }) && 0 <= j < count ==> is_shortcut_of(
                        list[#[trigger] slot(months, j, count)],
                        start_year + months / 11,
                        months % 11 + 1,
                        offsets[j],
                    ),
            decreases 13 - month_num,
        {
            let last_day_of_month = CalendarDate::last_day_of_month(year, month_num);
            assert(last_day_of_month is Some);
            let last_day_of_month = last_day_of_month.unwrap();
            let name = last_day_of_month.month_name();
            let days_till_year_end: i64 = year_end.days_since(&last_day_of_month);
            proof {
                lemma_days_after_month(year as int, month_num as int);
                lemma_day_number_in_range(year_end);
            }
            if days_till_year_end > 0 {
                let ghost months_done = 11 * year_offset + month_num - 1;
                let mut j: usize = 0;
                while j < offsets.len()
                    invariant
                        0 <= j <= offsets.len(),
                        1 <= month_num <= 11,
                        0 <= year_offset,
                        year == start_year + year_offset,
                        months_done == 11 * year_offset + month_num - 1,
                        count == offsets.len(),
                        forall|j: int| 0 <= j < offsets.len() ==> (#[trigger] offsets[j]).wf(),
                        year_end.wf(),
                        year_end.year == year && year_end.month == 12 && year_end.day == 31,
                        last_day_of_month.wf(),
                        last_day_of_month.year == year && last_day_of_month.month == month_num,
                        last_day_of_month.day == days_in_month(year as int, month_num as int),
                        name@ == month_name(month_num as int),
                        days_till_year_end == days_after_month(year as int, month_num as int),
                        0 < days_till_year_end <= 335,
                        year_end.day_number() == last_day_of_month.day_number()
                            + days_till_year_end,
                        year_end.day_number() <= crate::calendar::max_day_number(),
                        list.len() == slot(months_done, j as int, count),
                        forall|months: int, i: int|
                            0 <= months <= months_done && 0 <= i < count && (months < months_done
                                || i < j) ==> is_shortcut_of(
                                list[#[trigger] slot(months, i, count)],
                                start_year + months / 11,
                                months % 11 + 1,
                                offsets[i],
                            ),
                    decreases offsets.len() - j,
                {
                    let offset = &offsets[j];
                    let days_offset: u16 = offset.fraction.of_days(days_till_year_end as u16);
                    proof {
                        lemma_day_number_in_range(last_day_of_month);
                    }
                    let date = last_day_of_month.plus_days(days_offset as i64);
                    assert(date is Some);
                    let date = date.unwrap();
                    let mut relative_date = offset.label.clone();
                    relative_date.append(" ");
                    relative_date.append(name.as_str());
                    let ghost before = list@;
                    list.push(ShortcutAssignment { date, label: relative_date });
                    proof {
                        lemma_day_number_orders(
                            year as int,
                            1,
                            1,
                            year as int,
                            month_num as int,
                            last_day_of_month.day as int,
                        );
                        lemma_date_within_year(date, year as int);
                        assert(is_shortcut_of(
                            list@[slot(months_done, j as int, count)],
                            year as int,
                            month_num as int,
                            offsets@[j as int],
                        ));
                        assert forall|months: int, i: int|
                            0 <= months <= months_done && 0 <= i < count && (months < months_done
                                || i < j + 1) implies is_shortcut_of(
                            list@[#[trigger] slot(months, i, count)],
                            start_year + months / 11,
                            months % 11 + 1,
                            offsets@[i],
                        ) by {
                            if months < months_done {
                                lemma_slot_order(months, i, months_done, count);
                                assert(list@[slot(months, i, count)] == before[slot(
                                    months,
                                    i,
                                    count,
                                )]);
                            } else if i < j {
                                assert(list@[slot(months, i, count)] == before[slot(
                                    months,
                                    i,
                                    count,
                                )]);
                            }
                        }
                    }
                    j = j + 1;
                }
                proof {
                    lemma_slot_next_month(months_done, count);
                }
            }
            month_num = month_num + 1;
        }
        year_offset = year_offset + 1;
    }
    proof {
        assert(list.len() == (if num_years > 0 {
            num_years as int
        } else {
            0
        }) * 11 * offsets.len()) by (nonlinear_arith)
            requires
                list.len() == (11 * year_offset) * count + 0,
                count == offsets.len(),
                num_years > 0 ==> year_offset == num_years,
                num_years <= 0 ==> year_offset == 0,
        ;
        assert forall|i: int| 0 <= i < list.len() implies (#[trigger] list[i]).date.wf()
            && start_year <= list[i].date.year < start_year + num_years by {
            lemma_entries_are_shortcuts(
                list@,
                start_year as int,
                num_years as int,
                offsets@,
                i,
            );
        }
    }
    list
}

} // verus!
