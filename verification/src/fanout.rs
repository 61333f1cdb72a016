//! Running the units of work that render and store the pages, and joining
//! their outcomes.
//!
//! The units run outside this library, at the same time and in no order
//! that could be known. What is decided here is which unit to start next,
//! with a bound on how many are in flight, and what the run comes to: the
//! addresses of all pages, in the order of the pages, or the first failure
//! in that order, whichever unit ended first.

use crate::site::PagePlan;
use vstd::prelude::*;

verus! {

/// How the unit of work for one page ended.
#[derive(Clone, Copy, PartialEq, Eq, Structural, Debug)]
pub enum UnitOutcome {
    /// The page was rendered and its file written.
    Written,
    /// The renderer failed.
    RenderFailed,
    /// The page's directory could not be created.
    DirectoryFailed,
    /// The page's file could not be written.
    WriteFailed,
}

/// Why a run failed.
#[derive(Debug)]
pub enum RunError {
    /// The page of the day `date` could not be rendered.
    Render { date: String },
    /// Nothing could be stored at `path`.
    Storage { path: String },
}

/// The place of the first outcome that is a failure, or the number of
/// outcomes when none is.
pub open spec fn first_failure(outcomes: Seq<UnitOutcome>) -> int
    decreases outcomes.len(),
{
    if outcomes.len() == 0 {
        0
    } else if outcomes[0] != UnitOutcome::Written {
        0
    } else {
        1 + first_failure(outcomes.skip(1))
    }
}

/// Whether `error` reports the failure `outcome` of the unit of `page`: a
/// failure to render with the page's day, a failure to store with the
/// directory or file that could not be stored.
pub open spec fn is_error_of(error: RunError, page: PagePlan, outcome: UnitOutcome) -> bool {
    match outcome {
        UnitOutcome::Written => false,
        UnitOutcome::RenderFailed => error matches RunError::Render { date } && date@
            == page.date@,
        UnitOutcome::DirectoryFailed => error matches RunError::Storage { path } && path@
            == page.dir_name@,
        UnitOutcome::WriteFailed => error matches RunError::Storage { path } && path@
            == page.path@,
    }
}

/// No outcome before the first failure is a failure, and the outcome there,
/// if there is one, is.
pub proof fn lemma_first_failure(outcomes: Seq<UnitOutcome>)
    ensures
        0 <= first_failure(outcomes) <= outcomes.len(),
        forall|i: int|
            0 <= i < first_failure(outcomes) ==> #[trigger] outcomes[i] == UnitOutcome::Written,
        first_failure(outcomes) < outcomes.len() ==> outcomes[first_failure(outcomes)]
            != UnitOutcome::Written,
    decreases outcomes.len(),
{
    if outcomes.len() > 0 && outcomes[0] == UnitOutcome::Written {
        let rest = outcomes.skip(1);
        lemma_first_failure(rest);
        assert forall|i: int| 0 <= i < first_failure(outcomes) implies #[trigger] outcomes[i]
            == UnitOutcome::Written by {
            if i > 0 {
                assert(outcomes[i] == rest[i - 1]);
            }
        }
        if first_failure(outcomes) < outcomes.len() {
            assert(outcomes[first_failure(outcomes)] == rest[first_failure(rest)]);
        }
    }
}

/// The place up to which no outcome is a failure and at which one is, or
/// the end, is the place of the first failure.
pub proof fn lemma_first_failure_is(outcomes: Seq<UnitOutcome>, place: int)
    requires
        0 <= place <= outcomes.len(),
        forall|i: int| 0 <= i < place ==> #[trigger] outcomes[i] == UnitOutcome::Written,
        place < outcomes.len() ==> outcomes[place] != UnitOutcome::Written,
    ensures
        first_failure(outcomes) == place,
{
    lemma_first_failure(outcomes);
    let found = first_failure(outcomes);
    if found < place {
        assert(outcomes[found] == UnitOutcome::Written);
    } else if found > place {
        assert(outcomes[place] == UnitOutcome::Written);
    }
}

/// Whether `joined` is the outcome of a run whose units ended as
/// `outcomes` says, `outcomes[i]` being the outcome of the unit of
/// `pages[i]`: the addresses of all pages, in the order of the pages, when
/// every unit wrote its page; else the failure of the first unit, in that
/// order, that failed.
pub open spec fn is_join_of(
    joined: Result<Vec<String>, RunError>,
    pages: Seq<PagePlan>,
    outcomes: Seq<UnitOutcome>,
) -> bool {
    &&& joined is Ok <==> first_failure(outcomes) == outcomes.len()
    &&& joined matches Ok(urls) ==> urls@.len() == pages.len() && forall|i: int|
        0 <= i < urls@.len() ==> (#[trigger] urls@[i])@ == pages[i].url@
    &&& joined matches Err(error) ==> is_error_of(
        error,
        pages[first_failure(outcomes)],
        outcomes[first_failure(outcomes)],
    )
}

/// The error that reports the failure `outcome` of the unit of `page`.
fn error_of(page: &PagePlan, outcome: UnitOutcome) -> (error: RunError)
    requires
        outcome != UnitOutcome::Written,
    ensures
        is_error_of(error, *page, outcome),
{
    match outcome {
        UnitOutcome::RenderFailed => RunError::Render { date: page.date.clone() },
        UnitOutcome::DirectoryFailed => RunError::Storage { path: page.dir_name.clone() },
        _ => RunError::Storage { path: page.path.clone() },
    }
}

/// The outcome of the run, from the outcomes of all its units, `outcomes[i]`
/// being that of the unit of `pages[i]`.
pub fn join_outcomes(pages: &Vec<PagePlan>, outcomes: &Vec<UnitOutcome>) -> (joined: Result<
    Vec<String>,
    RunError,
>)
    requires
        pages.len() == outcomes.len(),
    ensures
        is_join_of(joined, pages@, outcomes@),
{
    let mut urls: Vec<String> = Vec::new();
    let mut next: usize = 0;
    while next < pages.len()
        invariant
            0 <= next <= pages.len(),
            pages.len() == outcomes.len(),
            urls.len() == next,
            forall|i: int| 0 <= i < next ==> #[trigger] outcomes[i] == UnitOutcome::Written,
            forall|i: int| 0 <= i < urls.len() ==> (#[trigger] urls[i])@ == pages[i].url@,
        decreases pages.len() - next,
    {
        proof {
            if outcomes[next as int] != UnitOutcome::Written {
                lemma_first_failure_is(outcomes@, next as int);
            }
        }
        match outcomes[next] {
            UnitOutcome::Written => {
                urls.push(pages[next].url.clone());
            },
            failure => {
                return Err(error_of(&pages[next], failure));
            },
        }
        next = next + 1;
    }
    proof {
        lemma_first_failure_is(outcomes@, next as int);
    }
    Ok(urls)
}

/// What the coordinator of a run does next.
#[derive(Debug)]
pub enum Action {
    /// Start the unit of work for the page at this place.
    Start { unit: usize },
    /// Wait for a unit in flight to end, and record its outcome.
    Wait,
    /// The run is over, with this outcome.
    Done { outcome: Result<Vec<String>, RunError> },
}

/// How many of the first `upto` units have no outcome yet.
pub open spec fn pending(outcomes: Seq<Option<UnitOutcome>>, upto: int) -> int
    decreases upto,
{
    if upto <= 0 {
        0
    } else {
        pending(outcomes, upto - 1) + (if outcomes[upto - 1] is None {
            1int
        } else {
            0int
        })
    }
}

/// Whether an outcome is there and is a failure.
pub open spec fn is_failure(outcome: Option<UnitOutcome>) -> bool {
    outcome matches Some(o) && o != UnitOutcome::Written
}

/// The coordinator of a run: it starts the units of work in the order of
/// the pages, never more than `limit` at a time and none after a failure
/// was recorded, and it alone keeps the outcomes.
#[derive(Debug)]
pub struct Coordinator {
    pub pages: Vec<PagePlan>,
    pub limit: usize,
    pub started: usize,
    pub in_flight: usize,
    pub failed: bool,
    pub outcomes: Vec<Option<UnitOutcome>>,
}

/// As long as units are pending some unit has no outcome, and recording an
/// outcome leaves one fewer pending.
pub proof fn lemma_pending(outcomes: Seq<Option<UnitOutcome>>, upto: int)
    requires
        0 <= upto <= outcomes.len(),
    ensures
        0 <= pending(outcomes, upto) <= upto,
        pending(outcomes, upto) == 0 ==> forall|i: int|
            0 <= i < upto ==> (#[trigger] outcomes[i]) is Some,
        forall|unit: int, outcome: UnitOutcome|
            0 <= unit < upto && outcomes[unit] is None ==> #[trigger] pending(
                outcomes.update(unit, Some(outcome)),
                upto,
            ) == pending(outcomes, upto) - 1,
        forall|unit: int, outcome: UnitOutcome|
            upto <= unit < outcomes.len() ==> #[trigger] pending(
                outcomes.update(unit, Some(outcome)),
                upto,
            ) == pending(outcomes, upto),
    decreases upto,
{
    if upto > 0 {
        lemma_pending(outcomes, upto - 1);
        assert forall|unit: int, outcome: UnitOutcome|
            0 <= unit < upto && outcomes[unit] is None implies #[trigger] pending(
            outcomes.update(unit, Some(outcome)),
            upto,
        ) == pending(outcomes, upto) - 1 by {
            let recorded = outcomes.update(unit, Some(outcome));
            if unit < upto - 1 {
                assert(pending(recorded, upto - 1) == pending(outcomes, upto - 1) - 1);
            } else {
                assert(pending(recorded, upto - 1) == pending(outcomes, upto - 1));
            }
        }
        assert forall|unit: int, outcome: UnitOutcome|
            upto <= unit < outcomes.len() implies #[trigger] pending(
            outcomes.update(unit, Some(outcome)),
            upto,
        ) == pending(outcomes, upto) by {
            let recorded = outcomes.update(unit, Some(outcome));
            assert(pending(recorded, upto - 1) == pending(outcomes, upto - 1));
        }
    }
}

impl Coordinator {
    /// What holds of a coordinator at all times: the units started are the
    /// first `started`, those of them without an outcome are in flight, and
    /// these are never more than the limit.
    pub open spec fn wf(&self) -> bool {
        &&& self.limit >= 1
        &&& self.outcomes@.len() == self.pages@.len()
        &&& self.started <= self.pages@.len()
        &&& forall|i: int|
            self.started <= i < self.outcomes@.len() ==> (#[trigger] self.outcomes@[i]) is None
        &&& self.in_flight == pending(self.outcomes@, self.started as int)
        &&& self.in_flight <= self.limit
        &&& self.failed <==> exists|i: int|
            0 <= i < self.started && is_failure(#[trigger] self.outcomes@[i])
    }

    /// Whether every outcome recorded so far is the one that `fates` gives
    /// its unit.
    pub open spec fn agrees_with(&self, fates: Seq<UnitOutcome>) -> bool {
        &&& fates.len() == self.pages@.len()
        &&& forall|i: int|
            0 <= i < self.outcomes@.len() ==> ((#[trigger] self.outcomes@[i]) matches Some(o)
                ==> o == fates[i])
    }

    /// A coordinator for `pages` that keeps at most `limit` units in
    /// flight, and at least one.
    pub fn new(pages: Vec<PagePlan>, limit: usize) -> (made: Coordinator)
        ensures
            made.wf(),
            made.pages == pages,
            made.limit == (if limit == 0 {
                1
            } else {
                limit
            }),
            made.started == 0,
            made.in_flight == 0,
            !made.failed,
            forall|i: int| 0 <= i < made.outcomes@.len() ==> (#[trigger] made.outcomes@[i]) is None,
    {
        let mut outcomes: Vec<Option<UnitOutcome>> = Vec::new();
        let mut next: usize = 0;
        while next < pages.len()
            invariant
                0 <= next <= pages.len(),
                outcomes.len() == next,
                forall|i: int| 0 <= i < outcomes.len() ==> (#[trigger] outcomes[i]) is None,
            decreases pages.len() - next,
        {
            outcomes.push(None);
            next = next + 1;
        }
        Coordinator {
            pages,
            limit: if limit == 0 {
                1
            } else {
                limit
            },
            started: 0,
            in_flight: 0,
            failed: false,
            outcomes,
        }
    }

    /// Whether this coordinator is in a state that it can be in.
    pub fn is_sound(&self) -> (sound: bool)
        ensures
            sound == self.wf(),
    {
        if self.limit < 1 || self.outcomes.len() != self.pages.len() || self.started
            > self.pages.len() || self.in_flight > self.limit {
            return false;
        }
        let mut waiting: usize = 0;
        let mut failure: bool = false;
        let mut next: usize = 0;
        while next < self.started
            invariant
                0 <= next <= self.started <= self.outcomes.len(),
                waiting == pending(self.outcomes@, next as int),
                waiting <= next,
                failure <==> exists|i: int|
                    0 <= i < next && is_failure(#[trigger] self.outcomes@[i]),
            decreases self.started - next,
        {
            match self.outcomes[next] {
                None => {
                    waiting = waiting + 1;
                },
                Some(UnitOutcome::Written) => {},
                Some(_) => {
                    failure = true;
                },
            }
            next = next + 1;
        }
        if waiting != self.in_flight || failure != self.failed {
            return false;
        }
        while next < self.outcomes.len()
            invariant
                self.started <= next <= self.outcomes.len(),
                forall|i: int| self.started <= i < next ==> (#[trigger] self.outcomes@[i]) is None,
            decreases self.outcomes.len() - next,
        {
            if self.outcomes[next].is_some() {
                return false;
            }
            next = next + 1;
        }
        true
    }

    /// Records that the unit at place `unit` ended with `outcome`. Only a
    /// unit in flight is taken; anything else changes nothing.
    pub fn record(&mut self, unit: usize, outcome: UnitOutcome) -> (taken: bool)
        requires
            old(self).wf(),
        ensures
            final(self).wf(),
            taken <==> unit < old(self).started && old(self).outcomes@[unit as int] is None,
            !taken ==> *final(self) == *old(self),
            taken ==> {
                &&& final(self).outcomes@ == old(self).outcomes@.update(unit as int, Some(outcome))
                &&& final(self).in_flight == old(self).in_flight - 1
                &&& final(self).failed == (old(self).failed || outcome != UnitOutcome::Written)
                &&& final(self).pages == old(self).pages
                &&& final(self).limit == old(self).limit
                &&& final(self).started == old(self).started
            },
    {
        if unit >= self.started {
            return false;
        }
        if self.outcomes[unit].is_some() {
            return false;
        }
        let ghost before = self.outcomes@;
        proof {
            lemma_pending(before, self.started as int);
        }
        self.outcomes.set(unit, Some(outcome));
        self.in_flight = self.in_flight - 1;
        if outcome != UnitOutcome::Written {
            self.failed = true;
        }
        proof {
            if old(self).failed {
                let i = choose|i: int| 0 <= i < self.started && is_failure(#[trigger] before[i]);
                assert(is_failure(self.outcomes@[i]));
            }
            if outcome != UnitOutcome::Written {
                assert(is_failure(self.outcomes@[unit as int]));
            }
            if !self.failed {
                assert forall|i: int| 0 <= i < self.started implies !is_failure(
                    #[trigger] self.outcomes@[i],
                ) by {
                    if i != unit {
                        assert(!is_failure(before[i]));
                    }
                }
            }
        }
        true
    }

    /// Whether the run is over: nothing is in flight, and either a failure
    /// was recorded or every unit was started.
    pub open spec fn is_over(&self) -> bool {
        self.in_flight == 0 && (self.failed || self.started == self.pages@.len())
    }

    /// Whether a unit can be started: no failure was recorded, a unit is
    /// left, and fewer units than the limit are in flight.
    pub open spec fn can_start(&self) -> bool {
        !self.failed && self.started < self.pages@.len() && self.in_flight < self.limit
    }

    /// The outcome of a run that is over.
    fn outcome(&self) -> (joined: Result<Vec<String>, RunError>)
        requires
            self.wf(),
            self.is_over(),
        ensures
            forall|fates: Seq<UnitOutcome>| #[trigger]
                self.agrees_with(fates) ==> is_join_of(joined, self.pages@, fates),
            joined is Ok ==> forall|i: int|
                0 <= i < self.outcomes@.len() ==> (#[trigger] self.outcomes@[i]) == Some(
                    UnitOutcome::Written,
                ),
    {
        let mut urls: Vec<String> = Vec::new();
        let mut next: usize = 0;
        proof {
            lemma_pending(self.outcomes@, self.started as int);
        }
        while next < self.started
            invariant
                0 <= next <= self.started,
                self.wf(),
                urls.len() == next,
                forall|i: int| 0 <= i < self.started ==> (#[trigger] self.outcomes@[i]) is Some,
                forall|i: int|
                    0 <= i < next ==> (#[trigger] self.outcomes@[i]) == Some(UnitOutcome::Written),
                forall|i: int| 0 <= i < urls.len() ==> (#[trigger] urls[i])@ == self.pages[i].url@,
            decreases self.started - next,
        {
            match self.outcomes[next] {
                Some(UnitOutcome::Written) => {
                    urls.push(self.pages[next].url.clone());
                },
                Some(failure) => {
                    let error = error_of(&self.pages[next], failure);
                    proof {
                        assert forall|fates: Seq<UnitOutcome>| #[trigger]
                            self.agrees_with(fates) implies is_join_of(
                            Err(error),
                            self.pages@,
                            fates,
                        ) by {
                            assert forall|i: int| 0 <= i < next implies #[trigger] fates[i]
                                == UnitOutcome::Written by {
                                assert(self.outcomes@[i] == Some(UnitOutcome::Written));
                            }
                            assert(self.outcomes@[next as int] == Some(failure));
                            lemma_first_failure_is(fates, next as int);
                        }
                    }
                    return Err(error);
                },
                None => {
                    assert(false);
                },
            }
            next = next + 1;
        }
        proof {
            if self.failed {
                let i = choose|i: int|
                    0 <= i < self.started && is_failure(#[trigger] self.outcomes@[i]);
                assert(self.outcomes@[i] == Some(UnitOutcome::Written));
                assert(false);
            }
            assert forall|fates: Seq<UnitOutcome>| #[trigger]
                self.agrees_with(fates) implies is_join_of(Ok(urls), self.pages@, fates) by {
                assert forall|i: int| 0 <= i < fates.len() implies #[trigger] fates[i]
                    == UnitOutcome::Written by {
                    assert(self.outcomes@[i] == Some(UnitOutcome::Written));
                }
                lemma_first_failure_is(fates, fates.len() as int);
            }
        }
        Ok(urls)
    }

    /// What to do next. When the run is over, its outcome: whatever order
    /// the units ended in, it is the outcome of joining the outcomes of all
    /// units in the order of the pages, and it is a success only when every
    /// page was written. Else, where a unit can be started, the next unit in
    /// the order of the pages, which is then in flight. Else to wait for a
    /// unit in flight.
    pub fn next_action(&mut self) -> (action: Action)
        requires
            old(self).wf(),
        ensures
            final(self).wf(),
            final(self).pages == old(self).pages,
            final(self).limit == old(self).limit,
            final(self).outcomes == old(self).outcomes,
            final(self).failed == old(self).failed,
            action is Done <==> old(self).is_over(),
            action is Start <==> old(self).can_start(),
            action is Wait ==> old(self).in_flight > 0,
            !(action is Start) ==> *final(self) == *old(self),
            action matches Action::Start { unit } ==> {
                &&& unit == old(self).started
                &&& final(self).started == old(self).started + 1
                &&& final(self).in_flight == old(self).in_flight + 1
            },
            action matches Action::Done { outcome } ==> forall|fates: Seq<UnitOutcome>| #[trigger]
                old(self).agrees_with(fates) ==> is_join_of(outcome, old(self).pages@, fates),
            action matches Action::Done { outcome } ==> (outcome is Ok ==> forall|i: int|
                0 <= i < old(self).outcomes@.len() ==> (#[trigger] old(self).outcomes@[i])
                    == Some(UnitOutcome::Written)),
    {
        if self.in_flight == 0 && (self.failed || self.started == self.pages.len()) {
            Action::Done { outcome: self.outcome() }
        } else if !self.failed && self.started < self.pages.len() && self.in_flight
            < self.limit {
            let unit = self.started;
            self.started = self.started + 1;
            self.in_flight = self.in_flight + 1;
            proof {
                if self.failed {
                    let i = choose|i: int|
                        0 <= i < self.started && is_failure(#[trigger] self.outcomes@[i]);
                    assert(i < unit);
                }
            }
            Action::Start { unit }
        } else {
            Action::Wait
        }
    }
}

} // verus!
