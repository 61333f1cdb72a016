//! Ordering a list of assignments by date, entries of one date staying in
//! the order they had.

use crate::assignment::ShortcutAssignment;
use vstd::prelude::*;

verus! {

/// Whether no entry of `list` falls on a later date than an entry after it.
pub open spec fn sorted_by_date(list: Seq<ShortcutAssignment>) -> bool {
    forall|i: int, j: int|
        0 <= i <= j < list.len() ==> (#[trigger] list[i]).date.day_number() <= (
        #[trigger] list[j]).date.day_number()
}

/// The entries of `list` that fall on day number `day`, in their order.
pub open spec fn on_day(list: Seq<ShortcutAssignment>, day: int) -> Seq<ShortcutAssignment> {
    list.filter(|a: ShortcutAssignment| a.date.day_number() == day)
}

/// Whether `sorted` holds the entries of `list` in order of date, those of
/// one date in the order they have in `list`.
pub open spec fn is_stable_sort_of(
    sorted: Seq<ShortcutAssignment>,
    list: Seq<ShortcutAssignment>,
) -> bool {
    &&& sorted_by_date(sorted)
    &&& sorted.to_multiset() == list.to_multiset()
    &&& forall|day: int| #[trigger] on_day(sorted, day) == on_day(list, day)
}

/// Putting an entry into a list adds it to the entries of its day, after
/// those before the place and before those from the place on, and changes
/// no other day.
pub proof fn lemma_on_day_insert(
    list: Seq<ShortcutAssignment>,
    place: int,
    entry: ShortcutAssignment,
    day: int,
)
    requires
        0 <= place <= list.len(),
    ensures
        on_day(list.insert(place, entry), day) == on_day(list.take(place), day) + on_day(
            seq![entry],
            day,
        ) + on_day(list.skip(place), day),
        on_day(list, day) == on_day(list.take(place), day) + on_day(list.skip(place), day),
        on_day(seq![entry], day) == (if entry.date.day_number() == day {
            seq![entry]
        } else {
            Seq::empty()
        }),
{
    let pred = |a: ShortcutAssignment| a.date.day_number() == day;
    assert(list.insert(place, entry) =~= list.take(place) + seq![entry] + list.skip(place));
    assert(list =~= list.take(place) + list.skip(place));
    Seq::filter_distributes_over_add(list.take(place), seq![entry], pred);
    Seq::filter_distributes_over_add(list.take(place) + seq![entry], list.skip(place), pred);
    Seq::filter_distributes_over_add(list.take(place), list.skip(place), pred);
    assert(seq![entry].filter(pred) == (if entry.date.day_number() == day {
        seq![entry]
    } else {
        Seq::empty()
    })) by {
        reveal_with_fuel(Seq::filter, 2);
        assert(seq![entry].drop_last() =~= Seq::<ShortcutAssignment>::empty());
        assert(Seq::<ShortcutAssignment>::empty().push(entry) =~= seq![entry]);
    }
}

/// A list none of whose entries falls on `day` has no entries of that day.
pub proof fn lemma_on_day_none(list: Seq<ShortcutAssignment>, day: int)
    requires
        forall|i: int| 0 <= i < list.len() ==> (#[trigger] list[i]).date.day_number() != day,
    ensures
        on_day(list, day) == Seq::<ShortcutAssignment>::empty(),
{
    let pred = |a: ShortcutAssignment| a.date.day_number() == day;
    assert(list.all(|a: ShortcutAssignment| !pred(a)));
    list.lemma_all_neg_filter_empty(pred);
    assert(list.filter(pred) =~= Seq::<ShortcutAssignment>::empty());
}

/// Putting an entry into a list adds it to what the list holds.
pub proof fn lemma_insert_to_multiset(
    list: Seq<ShortcutAssignment>,
    place: int,
    entry: ShortcutAssignment,
)
    requires
        0 <= place <= list.len(),
    ensures
        list.insert(place, entry).to_multiset() == list.to_multiset().insert(entry),
{
    let longer = list.insert(place, entry);
    assert(longer.remove(place) =~= list);
    vstd::seq_lib::to_multiset_remove(longer, place);
    longer.to_multiset_ensures();
    assert(longer.contains(entry)) by {
        assert(longer[place] == entry);
    }
    assert(longer.to_multiset() =~= list.to_multiset().insert(entry));
}

/// The entries of `list` in order of date; entries of one date keep the
/// order they had.
pub fn sort_by_date(list: Vec<ShortcutAssignment>) -> (sorted: Vec<ShortcutAssignment>)
    requires
        forall|i: int| 0 <= i < list.len() ==> (#[trigger] list[i]).date.wf(),
    ensures
        is_stable_sort_of(sorted@, list@),
        forall|i: int| 0 <= i < sorted.len() ==> (#[trigger] sorted[i]).date.wf(),
{
    let ghost whole = list@;
    let mut rest = list;
    let mut sorted: Vec<ShortcutAssignment> = Vec::new();
    proof {
        assert(rest@ =~= whole.take(rest.len() as int));
        assert(whole.skip(rest.len() as int) =~= Seq::<ShortcutAssignment>::empty());
        assert(sorted@.to_multiset().add(rest@.to_multiset()) =~= whole.to_multiset()) by {
            sorted@.to_multiset_ensures();
        }
    }
    while rest.len() > 0
        invariant
            rest.len() <= whole.len(),
            rest@ == whole.take(rest.len() as int),
            forall|i: int| 0 <= i < whole.len() ==> (#[trigger] whole[i]).date.wf(),
            forall|i: int| 0 <= i < sorted.len() ==> (#[trigger] sorted[i]).date.wf(),
            sorted_by_date(sorted@),
            sorted@.to_multiset().add(rest@.to_multiset()) == whole.to_multiset(),
            forall|day: int| #[trigger]
                on_day(sorted@, day) == on_day(whole.skip(rest.len() as int), day),
        decreases rest.len(),
    {
        let ghost longer = rest@;
        let ghost before = sorted@;
        let entry = rest.pop().unwrap();
        let ghost placed = entry;
        let mut place: usize = 0;
        while place < sorted.len() && sorted[place].date.is_before(&entry.date)
            invariant
                place <= sorted.len(),
                entry.date.wf(),
                forall|i: int| 0 <= i < sorted.len() ==> (#[trigger] sorted[i]).date.wf(),
                forall|i: int|
                    0 <= i < place ==> (#[trigger] sorted[i]).date.day_number()
                        < entry.date.day_number(),
            decreases sorted.len() - place,
        {
            place = place + 1;
        }
        sorted.insert(place, entry);
        proof {
            let kept = rest.len() as int;
            let later = whole.skip(kept + 1);
            assert(longer =~= rest@.push(placed));
            vstd::seq_lib::to_multiset_build(rest@, placed);
            lemma_insert_to_multiset(before, place as int, placed);
            assert(sorted@.to_multiset().add(rest@.to_multiset()) =~= whole.to_multiset());
            assert(rest@ =~= whole.take(kept));
            assert(whole.skip(kept) =~= later.insert(0, placed));
            assert forall|day: int| #[trigger]
                on_day(sorted@, day) == on_day(whole.skip(kept), day) by {
                lemma_on_day_insert(before, place as int, placed, day);
                lemma_on_day_insert(later, 0, placed, day);
                lemma_on_day_none(later.take(0), day);
                assert(later.skip(0) =~= later);
                assert(on_day(before, day) == on_day(later, day));
                if placed.date.day_number() == day {
                    lemma_on_day_none(before.take(place as int), day);
                }
                assert(on_day(sorted@, day) =~= on_day(whole.skip(kept), day));
            }
            assert forall|i: int, j: int| 0 <= i <= j < sorted@.len() implies (
            #[trigger] sorted@[i]).date.day_number() <= (
            #[trigger] sorted@[j]).date.day_number() by {
                if i < place && j > place {
                    assert(sorted@[i] == before[i] && sorted@[j] == before[j - 1]);
                } else if i > place {
                    assert(sorted@[i] == before[i - 1] && sorted@[j] == before[j - 1]);
                } else if j < place {
                    assert(sorted@[i] == before[i] && sorted@[j] == before[j]);
                } else if i == place && j > place {
                    assert(sorted@[j] == before[j - 1]);
                    assert(before[place as int].date.day_number() <= before[j
                        - 1].date.day_number());
                } else if i < place && j == place {
                    assert(sorted@[i] == before[i]);
                }
            }
            assert forall|i: int| 0 <= i < sorted.len() implies (
            #[trigger] sorted[i]).date.wf() by {
                if i < place {
                    assert(sorted@[i] == before[i]);
                } else if i > place {
                    assert(sorted@[i] == before[i - 1]);
                }
            }
        }
    }
    proof {
        assert(whole.skip(0) =~= whole);
        assert(rest@.to_multiset() =~= vstd::multiset::Multiset::empty()) by {
            rest@.to_multiset_ensures();
        }
        assert(sorted@.to_multiset() =~= whole.to_multiset());
    }
    sorted
}

} // verus!
