//! Resolving a day to its shortcut: the first assignment of a sorted list
//! that does not fall before the day, or the last one when all do.

use crate::assignment::ShortcutAssignment;
use crate::calendar::CalendarDate;
use crate::sorting::sorted_by_date;
use vstd::prelude::*;

verus! {

/// A day and the assignment it resolves to.
#[derive(Debug)]
pub struct ClosestMapping {
    pub query_date: CalendarDate,
    pub assignment: ShortcutAssignment,
}

impl Clone for ClosestMapping {
    fn clone(&self) -> (copy: Self)
        ensures
            copy == *self,
    {
        ClosestMapping { query_date: self.query_date, assignment: self.assignment.clone() }
    }
}

/// How many entries at the front of `list` fall before day number `day`.
pub open spec fn entries_before(list: Seq<ShortcutAssignment>, day: int) -> int
    decreases list.len(),
{
    if list.len() == 0 || list[0].date.day_number() >= day {
        0
    } else {
        1 + entries_before(list.skip(1), day)
    }
}

/// The place in `list` of the assignment that day number `day` resolves to:
/// that of the first entry that does not fall before the day, or the last
/// place when every entry falls before it.
pub open spec fn closest_position(list: Seq<ShortcutAssignment>, day: int) -> int {
    if entries_before(list, day) < list.len() {
        entries_before(list, day)
    } else {
        list.len() - 1
    }
}

/// The entries counted by [`entries_before`] fall before the day, and the
/// entry after them, if there is one, does not.
pub proof fn lemma_entries_before(list: Seq<ShortcutAssignment>, day: int)
    ensures
        0 <= entries_before(list, day) <= list.len(),
        forall|i: int|
            0 <= i < entries_before(list, day) ==> (#[trigger] list[i]).date.day_number() < day,
        entries_before(list, day) < list.len() ==> list[entries_before(
            list,
            day,
        )].date.day_number() >= day,
    decreases list.len(),
{
    if !(list.len() == 0 || list[0].date.day_number() >= day) {
        let rest = list.skip(1);
        lemma_entries_before(rest, day);
        assert forall|i: int| 0 <= i < entries_before(list, day) implies (
        #[trigger] list[i]).date.day_number() < day by {
            if i > 0 {
                assert(list[i] == rest[i - 1]);
            }
        }
        if entries_before(list, day) < list.len() {
            assert(list[entries_before(list, day)] == rest[entries_before(rest, day)]);
        }
    }
}

/// In a sorted list, the place up to which entries fall before the day and
/// from which on they do not is the count of [`entries_before`].
pub proof fn lemma_entries_before_is(list: Seq<ShortcutAssignment>, day: int, place: int)
    requires
        0 <= place <= list.len(),
        forall|i: int| 0 <= i < place ==> (#[trigger] list[i]).date.day_number() < day,
        forall|i: int| place <= i < list.len() ==> (#[trigger] list[i]).date.day_number() >= day,
    ensures
        entries_before(list, day) == place,
{
    lemma_entries_before(list, day);
    let found = entries_before(list, day);
    if found < place {
        assert(list[found].date.day_number() < day);
    } else if found > place {
        assert(list[place].date.day_number() >= day);
    }
}

/// What a day resolves to in a sorted list that is not empty: an assignment
/// of that very day if there is one; else the first later assignment, if
/// the day lies before the last one; else the last assignment.
pub proof fn lemma_closest_policy(list: Seq<ShortcutAssignment>, day: int)
    requires
        list.len() > 0,
        sorted_by_date(list),
    ensures
        0 <= closest_position(list, day) < list.len(),
        (exists|i: int| 0 <= i < list.len() && (#[trigger] list[i]).date.day_number() == day)
            ==> list[closest_position(list, day)].date.day_number() == day,
        !(exists|i: int| 0 <= i < list.len() && (#[trigger] list[i]).date.day_number() == day)
            && day < list.last().date.day_number() ==> {
            &&& list[closest_position(list, day)].date.day_number() > day
            &&& forall|i: int|
                0 <= i < closest_position(list, day) ==> (#[trigger] list[i]).date.day_number()
                    < day
        },
        !(exists|i: int| 0 <= i < list.len() && (#[trigger] list[i]).date.day_number() == day)
            && day >= list.last().date.day_number() ==> closest_position(list, day) == list.len()
            - 1,
{
    lemma_entries_before(list, day);
    let found = entries_before(list, day);
    if exists|i: int| 0 <= i < list.len() && (#[trigger] list[i]).date.day_number() == day {
        let i = choose|i: int| 0 <= i < list.len() && (#[trigger] list[i]).date.day_number() == day;
        assert(found <= i);
        assert(list[found].date.day_number() <= list[i].date.day_number());
    } else if day < list.last().date.day_number() {
        assert(found < list.len());
        assert(list[found].date.day_number() != day);
    } else {
        if found < list.len() {
            assert(list[found].date.day_number() <= list.last().date.day_number());
            assert(list[found].date.day_number() != day);
        }
    }
}

/// The place in `assignments` of the assignment that `date` resolves to.
pub fn find_closest_index(assignments: &Vec<ShortcutAssignment>, date: &CalendarDate) -> (place:
    usize)
    requires
        assignments.len() > 0,
        sorted_by_date(assignments@),
        forall|i: int| 0 <= i < assignments.len() ==> (#[trigger] assignments[i]).date.wf(),
        date.wf(),
    ensures
        place == closest_position(assignments@, date.day_number()),
        place < assignments.len(),
{
    let mut low: usize = 0;
    let mut high: usize = assignments.len();
    while low < high
        invariant
            0 <= low <= high <= assignments.len(),
            date.wf(),
            forall|i: int| 0 <= i < assignments.len() ==> (#[trigger] assignments[i]).date.wf(),
            forall|i: int|
                0 <= i < low ==> (#[trigger] assignments[i]).date.day_number()
                    < date.day_number(),
            forall|i: int|
                high <= i < assignments.len() ==> (#[trigger] assignments[i]).date.day_number()
                    >= date.day_number(),
            sorted_by_date(assignments@),
        decreases high - low,
    {
        let middle: usize = low + (high - low) / 2;
        if assignments[middle].date.is_before(date) {
            assert forall|i: int| 0 <= i < middle + 1 implies (
            #[trigger] assignments[i]).date.day_number() < date.day_number() by {
                assert(assignments@[i].date.day_number()
                    <= assignments@[middle as int].date.day_number());
            }
            low = middle + 1;
        } else {
            assert forall|i: int| middle <= i < assignments.len() implies (
            #[trigger] assignments[i]).date.day_number() >= date.day_number() by {
                assert(assignments@[middle as int].date.day_number()
                    <= assignments@[i].date.day_number());
            }
            high = middle;
        }
    }
    proof {
        lemma_entries_before_is(assignments@, date.day_number(), low as int);
    }
    if low < assignments.len() {
        low
    } else {
        assignments.len() - 1
    }
}

/// Resolves each of `dates` against `assignments` and adds the mappings, in
/// the order of `dates`, to the end of `closest_shortcut_for_dates`.
pub fn find_closest_shortcut(
    assignments: &Vec<ShortcutAssignment>,
    dates: &Vec<CalendarDate>,
    closest_shortcut_for_dates: &mut Vec<ClosestMapping>,
)
    requires
        assignments.len() > 0,
        sorted_by_date(assignments@),
        forall|i: int| 0 <= i < assignments.len() ==> (#[trigger] assignments[i]).date.wf(),
        forall|i: int| 0 <= i < dates.len() ==> (#[trigger] dates[i]).wf(),
    ensures
        final(closest_shortcut_for_dates)@.len() == old(closest_shortcut_for_dates)@.len()
            + dates.len(),
        final(closest_shortcut_for_dates)@.take(old(closest_shortcut_for_dates)@.len() as int)
            == old(closest_shortcut_for_dates)@,
        forall|i: int|
            0 <= i < dates.len() ==> is_resolved(
                #[trigger] final(closest_shortcut_for_dates)@[old(
                    closest_shortcut_for_dates,
                )@.len() + i],
                dates[i],
                assignments@,
            ),
{
    let ghost start = closest_shortcut_for_dates@;
    let mut next: usize = 0;
    while next < dates.len()
        invariant
            0 <= next <= dates.len(),
            assignments.len() > 0,
            sorted_by_date(assignments@),
            forall|i: int| 0 <= i < assignments.len() ==> (#[trigger] assignments[i]).date.wf(),
            forall|i: int| 0 <= i < dates.len() ==> (#[trigger] dates[i]).wf(),
            closest_shortcut_for_dates@.len() == start.len() + next,
            closest_shortcut_for_dates@.take(start.len() as int) == start,
            forall|i: int|
                0 <= i < next ==> is_resolved(
                    #[trigger] closest_shortcut_for_dates@[start.len() + i],
                    dates[i],
                    assignments@,
                ),
        decreases dates.len() - next,
    {
        let date = dates[next];
        let place = find_closest_index(assignments, &date);
        let ghost before = closest_shortcut_for_dates@;
        closest_shortcut_for_dates.push(
            ClosestMapping { query_date: date, assignment: assignments[place].clone() },
        );
        proof {
            assert(closest_shortcut_for_dates@.take(start.len() as int) =~= before.take(
                start.len() as int,
            ));
            assert forall|i: int| 0 <= i < next + 1 implies is_resolved(
                #[trigger] closest_shortcut_for_dates@[start.len() + i],
                dates[i],
                assignments@,
            ) by {
                if i < next {
                    assert(closest_shortcut_for_dates@[start.len() + i] == before[start.len()
                        + i]);
                }
            }
        }
        next = next + 1;
    }
}

/// Whether `mapping` pairs `date` with the assignment of `assignments` that
/// the date resolves to.
pub open spec fn is_resolved(
    mapping: ClosestMapping,
    date: CalendarDate,
    assignments: Seq<ShortcutAssignment>,
) -> bool {
    &&& mapping.query_date == date
    &&& mapping.assignment == assignments[closest_position(assignments, date.day_number())]
}

} // verus!
