//! The same configuration always gives the same site: what the contracts
//! of this library say pins every result down, up to which `String` holds a
//! text.

use crate::assignment::{
    is_assignment_list, is_shortcut_of, lemma_entries_are_shortcuts, slot, Offset,
    ShortcutAssignment,
};
use crate::calendar::lemma_day_number_names_one_date;
use crate::partition::{in_year, is_resolved_in_year};
use crate::plan::{is_site_plan, SitePlan};
use crate::resolver::{closest_position, entries_before, lemma_entries_before, ClosestMapping};
use crate::site::{is_page_of, manifest_text, PagePlan};
use crate::sorting::{is_stable_sort_of, on_day, sorted_by_date};
use vstd::prelude::*;

verus! {

/// Whether two lists hold, place by place, assignments of the same date and
/// the same label text.
pub open spec fn alike(a: Seq<ShortcutAssignment>, b: Seq<ShortcutAssignment>) -> bool {
    &&& a.len() == b.len()
    &&& forall|i: int| 0 <= i < a.len() ==> (#[trigger] a[i])@ == b[i]@
}

/// Whether two lists of offsets hold, place by place, the same fraction and
/// the same label text.
pub open spec fn same_offsets(a: Seq<Offset>, b: Seq<Offset>) -> bool {
    &&& a.len() == b.len()
    &&& forall|j: int|
        0 <= j < a.len() ==> (#[trigger] a[j]).fraction == b[j].fraction && a[j].label@
            == b[j].label@
}

/// Two assignment lists of the same years under the same offsets are alike.
pub proof fn lemma_assignment_list_is_determined(
    a: Seq<ShortcutAssignment>,
    b: Seq<ShortcutAssignment>,
    start_year: int,
    num_years: int,
    offsets_a: Seq<Offset>,
    offsets_b: Seq<Offset>,
)
    requires
        is_assignment_list(a, start_year, num_years, offsets_a),
        is_assignment_list(b, start_year, num_years, offsets_b),
        same_offsets(offsets_a, offsets_b),
    ensures
        alike(a, b),
{
    assert forall|i: int| 0 <= i < a.len() implies (#[trigger] a[i])@ == b[i]@ by {
        let at = lemma_entries_are_shortcuts(a, start_year, num_years, offsets_a, i);
        let count = offsets_a.len() as int;
        assert(is_shortcut_of(
            b[slot(at.0, at.1, count)],
            start_year + at.0 / 11,
            at.0 % 11 + 1,
            offsets_b[at.1],
        ));
        lemma_day_number_names_one_date(a[i].date, b[i].date);
    }
}

/// Lists that are alike have alike entries on every day.
pub proof fn lemma_on_day_alike(a: Seq<ShortcutAssignment>, b: Seq<ShortcutAssignment>, day: int)
    requires
        alike(a, b),
    ensures
        alike(on_day(a, day), on_day(b, day)),
    decreases a.len(),
{
    reveal(Seq::filter);
    if a.len() > 0 {
        assert(a.last()@ == b.last()@);
        assert(alike(a.drop_last(), b.drop_last())) by {
            assert forall|i: int| 0 <= i < a.drop_last().len() implies (
            #[trigger] a.drop_last()[i])@ == b.drop_last()[i]@ by {
                assert(a[i]@ == b[i]@);
            }
        }
        lemma_on_day_alike(a.drop_last(), b.drop_last(), day);
    }
}

/// Lists that are alike have alike entries in every year.
pub proof fn lemma_in_year_alike(a: Seq<ShortcutAssignment>, b: Seq<ShortcutAssignment>, year: int)
    requires
        alike(a, b),
    ensures
        alike(in_year(a, year), in_year(b, year)),
    decreases a.len(),
{
    reveal(Seq::filter);
    if a.len() > 0 {
        assert(a.last()@ == b.last()@);
        assert(alike(a.drop_last(), b.drop_last())) by {
            assert forall|i: int| 0 <= i < a.drop_last().len() implies (
            #[trigger] a.drop_last()[i])@ == b.drop_last()[i]@ by {
                assert(a[i]@ == b[i]@);
            }
        }
        lemma_in_year_alike(a.drop_last(), b.drop_last(), year);
    }
}

/// In lists that are alike, a day resolves at the same place.
pub proof fn lemma_closest_position_alike(
    a: Seq<ShortcutAssignment>,
    b: Seq<ShortcutAssignment>,
    day: int,
)
    requires
        alike(a, b),
    ensures
        entries_before(a, day) == entries_before(b, day),
        closest_position(a, day) == closest_position(b, day),
    decreases a.len(),
{
    if a.len() > 0 {
        assert(a[0]@ == b[0]@);
        assert(alike(a.skip(1), b.skip(1))) by {
            assert forall|i: int| 0 <= i < a.skip(1).len() implies (#[trigger] a.skip(1)[i])@
                == b.skip(1)[i]@ by {
                assert(a[i + 1]@ == b[i + 1]@);
            }
        }
        lemma_closest_position_alike(a.skip(1), b.skip(1), day);
    }
}

/// A list has an entry on each day on which it has entries.
proof fn lemma_on_day_witness(list: Seq<ShortcutAssignment>, day: int) -> (place: int)
    requires
        on_day(list, day).len() > 0,
    ensures
        0 <= place < list.len(),
        list[place].date.day_number() == day,
{
    let pred = |a: ShortcutAssignment| a.date.day_number() == day;
    let entry = on_day(list, day)[0];
    list.lemma_filter_pred(pred, 0);
    assert(list.filter(pred).contains(entry));
    list.lemma_filter_contains_rev(pred, entry);
    choose|place: int| 0 <= place < list.len() && list[place] == entry
}

/// Two sorted lists of the same length that have alike entries on every day
/// are alike: sorting leaves no choice.
pub proof fn lemma_sorted_lists_alike(t: Seq<ShortcutAssignment>, u: Seq<ShortcutAssignment>)
    requires
        sorted_by_date(t),
        sorted_by_date(u),
        t.len() == u.len(),
        forall|day: int| alike(#[trigger] on_day(t, day), on_day(u, day)),
    ensures
        alike(t, u),
    decreases t.len(),
{
    if t.len() > 0 {
        let shorter_t = t.drop_last();
        let shorter_u = u.drop_last();
        let last_t = t.last().date.day_number();
        let last_u = u.last().date.day_number();
        assert forall|day: int|
            #[trigger] on_day(t, day) == (if last_t == day {
                on_day(shorter_t, day).push(t.last())
            } else {
                on_day(shorter_t, day)
            }) && on_day(u, day) == (if last_u == day {
                on_day(shorter_u, day).push(u.last())
            } else {
                on_day(shorter_u, day)
            }) by {
            reveal(Seq::filter);
        }
        assert(last_t == last_u) by {
            assert(alike(on_day(t, last_t), on_day(u, last_t)));
            let in_u = lemma_on_day_witness(u, last_t);
            assert(u[in_u].date.day_number() <= u.last().date.day_number());
            assert(alike(on_day(t, last_u), on_day(u, last_u)));
            let in_t = lemma_on_day_witness(t, last_u);
            assert(t[in_t].date.day_number() <= t.last().date.day_number());
        }
        assert forall|day: int|
            alike(#[trigger] on_day(shorter_t, day), on_day(shorter_u, day)) by {
            assert(alike(on_day(t, day), on_day(u, day)));
            if day == last_t {
                let with_t = on_day(t, day);
                let with_u = on_day(u, day);
                assert forall|i: int| 0 <= i < on_day(shorter_t, day).len() implies (
                #[trigger] on_day(shorter_t, day)[i])@ == on_day(shorter_u, day)[i]@ by {
                    assert(with_t[i]@ == with_u[i]@);
                }
            }
        }
        assert(t.last()@ == u.last()@) by {
            let with_t = on_day(t, last_t);
            let with_u = on_day(u, last_t);
            assert(alike(with_t, with_u));
            assert(with_t[with_t.len() - 1]@ == with_u[with_t.len() - 1]@);
        }
        assert(sorted_by_date(shorter_t)) by {
            assert forall|i: int, j: int| 0 <= i <= j < shorter_t.len() implies (
            #[trigger] shorter_t[i]).date.day_number() <= (
            #[trigger] shorter_t[j]).date.day_number() by {
                assert(t[i].date.day_number() <= t[j].date.day_number());
            }
        }
        assert(sorted_by_date(shorter_u)) by {
            assert forall|i: int, j: int| 0 <= i <= j < shorter_u.len() implies (
            #[trigger] shorter_u[i]).date.day_number() <= (
            #[trigger] shorter_u[j]).date.day_number() by {
                assert(u[i].date.day_number() <= u[j].date.day_number());
            }
        }
        lemma_sorted_lists_alike(shorter_t, shorter_u);
        assert forall|i: int| 0 <= i < t.len() implies (#[trigger] t[i])@ == u[i]@ by {
            if i < t.len() - 1 {
                assert(shorter_t[i]@ == shorter_u[i]@);
            }
        }
    }
}

/// Sorting lists that are alike gives lists that are alike.
pub proof fn lemma_stable_sort_is_determined(
    t: Seq<ShortcutAssignment>,
    a: Seq<ShortcutAssignment>,
    u: Seq<ShortcutAssignment>,
    b: Seq<ShortcutAssignment>,
)
    requires
        is_stable_sort_of(t, a),
        is_stable_sort_of(u, b),
        alike(a, b),
    ensures
        alike(t, u),
{
    t.to_multiset_ensures();
    a.to_multiset_ensures();
    u.to_multiset_ensures();
    b.to_multiset_ensures();
    assert forall|day: int| alike(#[trigger] on_day(t, day), on_day(u, day)) by {
        lemma_on_day_alike(a, b, day);
        assert(on_day(t, day) == on_day(a, day));
        assert(on_day(u, day) == on_day(b, day));
    }
    lemma_sorted_lists_alike(t, u);
}

/// Two site plans of the same years under the same offsets agree: their
/// tables are alike, and they resolve the same days to assignments of the
/// same date and label text.
pub proof fn lemma_site_plan_is_determined(
    p: SitePlan,
    q: SitePlan,
    start_year: i32,
    num_years: i32,
    offsets_p: Seq<Offset>,
    offsets_q: Seq<Offset>,
)
    requires
        is_site_plan(p, start_year, num_years, offsets_p),
        is_site_plan(q, start_year, num_years, offsets_q),
        same_offsets(offsets_p, offsets_q),
    ensures
        alike(p.assignments@, q.assignments@),
        p.mappings@.len() == q.mappings@.len(),
        forall|i: int|
            0 <= i < p.mappings@.len() ==> (#[trigger] p.mappings@[i]).query_date
                == q.mappings@[i].query_date && p.mappings@[i].assignment@
                == q.mappings@[i].assignment@,
{
    let table_p = p.assignments@;
    let table_q = q.assignments@;
    let list_p = choose|list: Seq<ShortcutAssignment>| #[trigger]
        is_stable_sort_of(table_p, list) && is_assignment_list(
            list,
            start_year as int,
            num_years as int,
            offsets_p,
        );
    let list_q = choose|list: Seq<ShortcutAssignment>| #[trigger]
        is_stable_sort_of(table_q, list) && is_assignment_list(
            list,
            start_year as int,
            num_years as int,
            offsets_q,
        );
    lemma_assignment_list_is_determined(
        list_p,
        list_q,
        start_year as int,
        num_years as int,
        offsets_p,
        offsets_q,
    );
    lemma_stable_sort_is_determined(table_p, list_p, table_q, list_q);
    assert forall|i: int| 0 <= i < p.mappings@.len() implies (
    #[trigger] p.mappings@[i]).query_date == q.mappings@[i].query_date && p.mappings@[i].assignment@
        == q.mappings@[i].assignment@ by {
        let of_p = p.mappings@[i];
        let of_q = q.mappings@[i];
        lemma_day_number_names_one_date(of_p.query_date, of_q.query_date);
        let date = of_p.query_date;
        assert(is_resolved_in_year(of_p, date, table_p));
        assert(is_resolved_in_year(of_q, date, table_q));
        lemma_in_year_alike(table_p, table_q, date.year as int);
        lemma_closest_position_alike(
            in_year(table_p, date.year as int),
            in_year(table_q, date.year as int),
            date.day_number(),
        );
        lemma_entries_before(in_year(table_p, date.year as int), date.day_number());
    }
}

/// The pages of two resolved days that agree are the same texts.
pub proof fn lemma_page_is_determined(
    page_a: PagePlan,
    page_b: PagePlan,
    mapping_a: ClosestMapping,
    mapping_b: ClosestMapping,
    host: Seq<char>,
    output_root: Seq<char>,
)
    requires
        is_page_of(page_a, mapping_a, host, output_root),
        is_page_of(page_b, mapping_b, host, output_root),
        mapping_a.query_date == mapping_b.query_date,
        mapping_a.assignment@ == mapping_b.assignment@,
    ensures
        page_a.date@ == page_b.date@,
        page_a.closest@ == page_b.closest@,
        page_a.slug@ == page_b.slug@,
        page_a.dir_name@ == page_b.dir_name@,
        page_a.path@ == page_b.path@,
        page_a.url@ == page_b.url@,
{
}

/// Lists of the same addresses, in the same order, give the same manifest.
pub proof fn lemma_manifest_is_determined(urls_a: Seq<String>, urls_b: Seq<String>)
    requires
        urls_a.len() == urls_b.len(),
        forall|i: int| 0 <= i < urls_a.len() ==> (#[trigger] urls_a[i])@ == urls_b[i]@,
    ensures
        manifest_text(urls_a) == manifest_text(urls_b),
    decreases urls_a.len(),
{
    if urls_a.len() > 0 {
        assert(urls_a.last()@ == urls_b.last()@);
        assert forall|i: int| 0 <= i < urls_a.drop_last().len() implies (
        #[trigger] urls_a.drop_last()[i])@ == urls_b.drop_last()[i]@ by {
            assert(urls_a[i]@ == urls_b[i]@);
        }
        lemma_manifest_is_determined(urls_a.drop_last(), urls_b.drop_last());
    }
}

} // verus!
