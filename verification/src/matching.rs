//! The five greedy passes as functions on a ledger: the places left in each
//! project, the load left for each member of staff, and what each student
//! has been given so far.
//!
//! Projects and staff are scanned in the order of the problem's arenas, so
//! the outcome is determined by the problem alone.
use crate::representation::{
    AllocationView, IncompleteAllocationView, ProblemView, ProjectView, StaffView,
};
use crate::search::{
    count, first_index, lemma_count_none, lemma_count_push, lemma_count_update, lemma_first_index,
};
use vstd::prelude::*;

verus! {

/// The state of the matching between two steps.
pub struct Ledger {
    /// The places left in each project.
    pub projects: Seq<nat>,
    /// The load left for each member of staff.
    pub staff: Seq<nat>,
    /// What each student has been given so far.
    pub slots: Seq<IncompleteAllocationView>,
}

impl Ledger {
    /// Takes one place of `project` and gives it to `student`.
    pub open spec fn give_project(self, student: int, project: int) -> Ledger {
        Ledger {
            projects: self.projects.update(project, (self.projects[project] - 1) as nat),
            staff: self.staff,
            slots: self.slots.update(
                student,
                IncompleteAllocationView {
                    student: self.slots[student].student,
                    project: Some(project as nat),
                    supervisor: self.slots[student].supervisor,
                },
            ),
        }
    }

    /// Takes one unit of the load of `staff` and makes them the supervisor
    /// of `student`.
    pub open spec fn give_supervisor(self, student: int, staff: int) -> Ledger {
        Ledger {
            projects: self.projects,
            staff: self.staff.update(staff, (self.staff[staff] - 1) as nat),
            slots: self.slots.update(
                student,
                IncompleteAllocationView {
                    student: self.slots[student].student,
                    project: self.slots[student].project,
                    supervisor: Some(staff as nat),
                },
            ),
        }
    }
}

/// The ledger before the first pass: every project has its multiplicity,
/// every member of staff their load, and no student has anything.
pub open spec fn opening(problem: ProblemView) -> Ledger {
    Ledger {
        projects: problem.projects.map_values(|p: ProjectView| p.multiplicity),
        staff: problem.staffs.map_values(|s: StaffView| s.load),
        slots: Seq::new(
            problem.students.len(),
            |i: int| IncompleteAllocationView { student: i as nat, project: None, supervisor: None },
        ),
    }
}

/// Whether a position has at least one unit left.
pub open spec fn has_room(left: Seq<nat>) -> spec_fn(int) -> bool {
    |k: int| left[k] >= 1
}

/// Whether the scan of a ranked list ends at a position: the project there
/// is missing from the ledger, or has a place left.
pub open spec fn choice_settles(choices: Seq<nat>, places: Seq<nat>) -> spec_fn(int) -> bool {
    |j: int| choices[j] >= places.len() || places[choices[j] as int] >= 1
}

/// The preference pass for one student: they get the first project of their
/// ranked list that has a place left. A ranked project that is missing from
/// the ledger, met before any project with a place, fails the run.
pub open spec fn preference_step(problem: ProblemView, ledger: Ledger, student: int) -> Option<
    Ledger,
> {
    let choices = problem.students[student].choices;
    let j = first_index(choice_settles(choices, ledger.projects), 0, choices.len() as int);
    if j >= choices.len() {
        Some(ledger)
    } else if choices[j] >= ledger.projects.len() {
        None
    } else {
        Some(ledger.give_project(student, choices[j] as int))
    }
}

/// The preference pass over the first `n` students, in input order.
pub open spec fn preference_pass(problem: ProblemView, ledger: Ledger, n: int) -> Option<Ledger>
    decreases n,
{
    if n <= 0 {
        Some(ledger)
    } else {
        match preference_pass(problem, ledger, n - 1) {
            Some(before) => preference_step(problem, before, n - 1),
            None => None,
        }
    }
}

/// The fallback project pass for one student: a student without a project
/// gets the first project that has a place left, if there is one.
pub open spec fn spare_project_step(ledger: Ledger, student: int) -> Ledger {
    let p = first_index(has_room(ledger.projects), 0, ledger.projects.len() as int);
    if ledger.slots[student].project is None && p < ledger.projects.len() {
        ledger.give_project(student, p)
    } else {
        ledger
    }
}

/// The fallback project pass over the first `n` students, in input order.
pub open spec fn spare_project_pass(ledger: Ledger, n: int) -> Ledger
    decreases n,
{
    if n <= 0 {
        ledger
    } else {
        spare_project_step(spare_project_pass(ledger, n - 1), n - 1)
    }
}

/// Whether the proposer pass ends at a student: they have a project, and its
/// proposer is missing from the ledger or has load left.
pub open spec fn proposer_settles(problem: ProblemView, ledger: Ledger) -> spec_fn(int) -> bool {
    |i: int|
        ledger.slots[i].project is Some && {
            let s = problem.projects[ledger.slots[i].project.unwrap() as int].proposer;
            s >= ledger.staff.len() || ledger.staff[s as int] >= 1
        }
}

/// The proposer pass: the first student, in input order, whose project's
/// proposer has load left gets that proposer as supervisor, and the pass
/// ends there; no later student is looked at. A proposer who is missing
/// from the ledger, met before that, fails the run.
pub open spec fn proposer_pass(problem: ProblemView, ledger: Ledger) -> Option<Ledger> {
    let i = first_index(proposer_settles(problem, ledger), 0, ledger.slots.len() as int);
    if i >= ledger.slots.len() {
        Some(ledger)
    } else {
        let s = problem.projects[ledger.slots[i].project.unwrap() as int].proposer;
        if s >= ledger.staff.len() {
            None
        } else {
            Some(ledger.give_supervisor(i, s as int))
        }
    }
}

/// Whether a member of staff has load left and supervises the subject area.
pub open spec fn can_supervise(problem: ProblemView, load: Seq<nat>, area: Seq<char>) -> spec_fn(
    int,
) -> bool {
    |s: int| load[s] >= 1 && problem.staffs[s].subject_areas.contains(area)
}

/// The subject-area pass for one student: a student with a project and no
/// supervisor gets the first member of staff who has load left and
/// supervises the project's subject area, if there is one.
pub open spec fn subject_area_step(problem: ProblemView, ledger: Ledger, student: int) -> Ledger {
    let slot = ledger.slots[student];
    if slot.project is Some && slot.supervisor is None {
        let area = problem.projects[slot.project.unwrap() as int].subject_area;
        let s = first_index(can_supervise(problem, ledger.staff, area), 0, ledger.staff.len() as int);
        if s < ledger.staff.len() {
            ledger.give_supervisor(student, s)
        } else {
            ledger
        }
    } else {
        ledger
    }
}

/// The subject-area pass over the first `n` students, in input order.
pub open spec fn subject_area_pass(problem: ProblemView, ledger: Ledger, n: int) -> Ledger
    decreases n,
{
    if n <= 0 {
        ledger
    } else {
        subject_area_step(problem, subject_area_pass(problem, ledger, n - 1), n - 1)
    }
}

/// The capacity pass for one student: a student with a project and no
/// supervisor gets the first member of staff who has load left, if there is
/// one.
pub open spec fn spare_staff_step(ledger: Ledger, student: int) -> Ledger {
    let slot = ledger.slots[student];
    let s = first_index(has_room(ledger.staff), 0, ledger.staff.len() as int);
    if slot.project is Some && slot.supervisor is None && s < ledger.staff.len() {
        ledger.give_supervisor(student, s)
    } else {
        ledger
    }
}

/// The capacity pass over the first `n` students, in input order.
pub open spec fn spare_staff_pass(ledger: Ledger, n: int) -> Ledger
    decreases n,
{
    if n <= 0 {
        ledger
    } else {
        spare_staff_step(spare_staff_pass(ledger, n - 1), n - 1)
    }
}

/// The ledger after the two project passes.
pub open spec fn after_projects(problem: ProblemView) -> Option<Ledger> {
    let n = problem.students.len() as int;
    match preference_pass(problem, opening(problem), n) {
        Some(ledger) => Some(spare_project_pass(ledger, n)),
        None => None,
    }
}

/// The ledger after all five passes.
pub open spec fn closing(problem: ProblemView) -> Option<Ledger> {
    let n = problem.students.len() as int;
    match after_projects(problem) {
        Some(ledger) => match proposer_pass(problem, ledger) {
            Some(ledger) => Some(spare_staff_pass(subject_area_pass(problem, ledger, n), n)),
            None => None,
        },
        None => None,
    }
}

/// The students that have both a project and a supervisor, in input order.
pub open spec fn completed(slots: Seq<IncompleteAllocationView>) -> Seq<AllocationView>
    decreases slots.len(),
{
    if slots.len() == 0 {
        Seq::empty()
    } else {
        let before = completed(slots.drop_last());
        match slots.last().complete() {
            Some(allocation) => before.push(allocation),
            None => before,
        }
    }
}

/// The allocations that the five passes produce for a problem, or `None`
/// when a pass looks up a record that is missing from the ledger.
pub open spec fn solution_of(problem: ProblemView) -> Option<Seq<AllocationView>> {
    match closing(problem) {
        Some(ledger) => Some(completed(ledger.slots)),
        None => None,
    }
}

/// Whether what a student has been given names records of `problem`, the
/// student is the one at position `i`, and they are in one of three states:
/// with nothing, with a project only, or with a project and a supervisor.
pub open spec fn slot_fits(slot: IncompleteAllocationView, i: int, problem: ProblemView) -> bool {
    &&& slot.student == i
    &&& slot.project matches Some(p) ==> p < problem.projects.len()
    &&& slot.supervisor matches Some(s) ==> s < problem.staffs.len()
    &&& slot.supervisor is Some ==> slot.project is Some
}

impl Ledger {
    /// The ledger has one entry for each record of `problem`, and every key
    /// in it names a record of `problem`.
    pub open spec fn fits(self, problem: ProblemView) -> bool {
        &&& self.projects.len() == problem.projects.len()
        &&& self.staff.len() == problem.staffs.len()
        &&& self.slots.len() == problem.students.len()
        &&& forall|i: int|
            0 <= i < self.slots.len() ==> slot_fits(#[trigger] self.slots[i], i, problem)
    }

    /// No student has a supervisor yet.
    pub open spec fn unsupervised(self) -> bool {
        forall|i: int| 0 <= i < self.slots.len() ==> (#[trigger] self.slots[i]).supervisor is None
    }
}

/// Giving a project of the problem to a student of the problem keeps the
/// ledger fitting the problem.
pub proof fn lemma_give_project_fits(
    problem: ProblemView,
    ledger: Ledger,
    student: int,
    project: int,
)
    requires
        ledger.fits(problem),
        0 <= student < ledger.slots.len(),
        0 <= project < ledger.projects.len(),
    ensures
        ledger.give_project(student, project).fits(problem),
{
    let after = ledger.give_project(student, project);
    assert forall|i: int| 0 <= i < after.slots.len() implies slot_fits(
        #[trigger] after.slots[i],
        i,
        problem,
    ) by {
        assert(slot_fits(ledger.slots[i], i, problem));
    }
}

/// Giving a member of staff of the problem to a student of the problem who
/// has a project keeps the ledger fitting the problem.
pub proof fn lemma_give_supervisor_fits(
    problem: ProblemView,
    ledger: Ledger,
    student: int,
    staff: int,
)
    requires
        ledger.fits(problem),
        0 <= student < ledger.slots.len(),
        0 <= staff < ledger.staff.len(),
        ledger.slots[student].project is Some,
    ensures
        ledger.give_supervisor(student, staff).fits(problem),
{
    let after = ledger.give_supervisor(student, staff);
    assert forall|i: int| 0 <= i < after.slots.len() implies slot_fits(
        #[trigger] after.slots[i],
        i,
        problem,
    ) by {
        assert(slot_fits(ledger.slots[i], i, problem));
    }
}

/// Once the preference pass has failed, it has failed for good.
pub proof fn lemma_preference_pass_stays_failed(
    problem: ProblemView,
    ledger: Ledger,
    i: int,
    n: int,
)
    requires
        i <= n,
        preference_pass(problem, ledger, i) is None,
    ensures
        preference_pass(problem, ledger, n) is None,
    decreases n - i,
{
    if i < n {
        lemma_preference_pass_stays_failed(problem, ledger, i, n - 1);
    }
}

/// Whether a student has been given the project `p`.
pub open spec fn holds_project(p: nat) -> spec_fn(IncompleteAllocationView) -> bool {
    |slot: IncompleteAllocationView| slot.project == Some(p)
}

/// Whether a student has been given the supervisor `s`.
pub open spec fn holds_supervisor(s: nat) -> spec_fn(IncompleteAllocationView) -> bool {
    |slot: IncompleteAllocationView| slot.supervisor == Some(s)
}

/// Whether an allocation is to the project `p`.
pub open spec fn on_project(p: nat) -> spec_fn(AllocationView) -> bool {
    |a: AllocationView| a.project == p
}

/// Whether an allocation is under the supervisor `s`.
pub open spec fn under_supervisor(s: nat) -> spec_fn(AllocationView) -> bool {
    |a: AllocationView| a.supervisor == s
}

/// Nothing is lost and nothing is made up: for every project, the places
/// left and the students holding it add up to its multiplicity; for every
/// member of staff, the load left and the students they supervise add up to
/// their load.
pub open spec fn balanced(problem: ProblemView, ledger: Ledger) -> bool {
    &&& ledger.fits(problem)
    &&& forall|p: int|
        0 <= p < ledger.projects.len() ==> #[trigger] ledger.projects[p] + count(
            ledger.slots,
            holds_project(p as nat),
        ) == problem.projects[p].multiplicity
    &&& forall|s: int|
        0 <= s < ledger.staff.len() ==> #[trigger] ledger.staff[s] + count(
            ledger.slots,
            holds_supervisor(s as nat),
        ) == problem.staffs[s].load
}

/// The opening ledger is balanced.
pub proof fn lemma_opening_balanced(problem: ProblemView)
    ensures
        balanced(problem, opening(problem)),
        opening(problem).unsupervised(),
        forall|i: int|
            0 <= i < opening(problem).slots.len() ==> (#[trigger] opening(problem).slots[i]).project
                is None,
{
    let ledger = opening(problem);
    assert forall|p: int| 0 <= p < ledger.projects.len() implies #[trigger] ledger.projects[p]
        + count(ledger.slots, holds_project(p as nat)) == problem.projects[p].multiplicity by {
        lemma_count_none(ledger.slots, holds_project(p as nat));
    }
    assert forall|s: int| 0 <= s < ledger.staff.len() implies #[trigger] ledger.staff[s] + count(
        ledger.slots,
        holds_supervisor(s as nat),
    ) == problem.staffs[s].load by {
        lemma_count_none(ledger.slots, holds_supervisor(s as nat));
    }
}

/// Giving a place that is left to a student without a project keeps the
/// ledger balanced.
pub proof fn lemma_give_project_balanced(
    problem: ProblemView,
    ledger: Ledger,
    student: int,
    project: int,
)
    requires
        balanced(problem, ledger),
        0 <= student < ledger.slots.len(),
        0 <= project < ledger.projects.len(),
        ledger.slots[student].project is None,
        ledger.projects[project] >= 1,
    ensures
        balanced(problem, ledger.give_project(student, project)),
{
    let after = ledger.give_project(student, project);
    let slot = after.slots[student];
    assert forall|p: int| 0 <= p < after.projects.len() implies #[trigger] after.projects[p]
        + count(after.slots, holds_project(p as nat)) == problem.projects[p].multiplicity by {
        lemma_count_update(ledger.slots, holds_project(p as nat), student, slot);
        assert(ledger.projects[p] + count(ledger.slots, holds_project(p as nat))
            == problem.projects[p].multiplicity);
    }
    assert forall|s: int| 0 <= s < after.staff.len() implies #[trigger] after.staff[s] + count(
        after.slots,
        holds_supervisor(s as nat),
    ) == problem.staffs[s].load by {
        lemma_count_update(ledger.slots, holds_supervisor(s as nat), student, slot);
        assert(ledger.staff[s] + count(ledger.slots, holds_supervisor(s as nat))
            == problem.staffs[s].load);
    }
    assert forall|i: int| 0 <= i < after.slots.len() implies slot_fits(
        #[trigger] after.slots[i],
        i,
        problem,
    ) by {
        assert(slot_fits(ledger.slots[i], i, problem));
    }
}

/// Giving load that is left to a student with a project and without a
/// supervisor keeps the ledger balanced.
pub proof fn lemma_give_supervisor_balanced(
    problem: ProblemView,
    ledger: Ledger,
    student: int,
    staff: int,
)
    requires
        balanced(problem, ledger),
        0 <= student < ledger.slots.len(),
        0 <= staff < ledger.staff.len(),
        ledger.slots[student].project is Some,
        ledger.slots[student].supervisor is None,
        ledger.staff[staff] >= 1,
    ensures
        balanced(problem, ledger.give_supervisor(student, staff)),
{
    let after = ledger.give_supervisor(student, staff);
    let slot = after.slots[student];
    assert forall|p: int| 0 <= p < after.projects.len() implies #[trigger] after.projects[p]
        + count(after.slots, holds_project(p as nat)) == problem.projects[p].multiplicity by {
        lemma_count_update(ledger.slots, holds_project(p as nat), student, slot);
        assert(ledger.projects[p] + count(ledger.slots, holds_project(p as nat))
            == problem.projects[p].multiplicity);
    }
    assert forall|s: int| 0 <= s < after.staff.len() implies #[trigger] after.staff[s] + count(
        after.slots,
        holds_supervisor(s as nat),
    ) == problem.staffs[s].load by {
        lemma_count_update(ledger.slots, holds_supervisor(s as nat), student, slot);
        assert(ledger.staff[s] + count(ledger.slots, holds_supervisor(s as nat))
            == problem.staffs[s].load);
    }
    assert forall|i: int| 0 <= i < after.slots.len() implies slot_fits(
        #[trigger] after.slots[i],
        i,
        problem,
    ) by {
        assert(slot_fits(ledger.slots[i], i, problem));
    }
}

/// The preference pass keeps the ledger balanced, gives nobody a
/// supervisor, and leaves the students it has not reached as they were.
pub proof fn lemma_preference_pass(problem: ProblemView, ledger: Ledger, n: int)
    requires
        balanced(problem, ledger),
        ledger.unsupervised(),
        forall|i: int| 0 <= i < ledger.slots.len() ==> (#[trigger] ledger.slots[i]).project is None,
        0 <= n <= ledger.slots.len(),
    ensures
        preference_pass(problem, ledger, n) matches Some(after) ==> {
            &&& balanced(problem, after)
            &&& after.unsupervised()
            &&& forall|i: int| n <= i < ledger.slots.len() ==> after.slots[i] == ledger.slots[i]
        },
        problem.wf() ==> preference_pass(problem, ledger, n) is Some,
    decreases n,
{
    if n > 0 {
        lemma_preference_pass(problem, ledger, n - 1);
        if let Some(before) = preference_pass(problem, ledger, n - 1) {
            let choices = problem.students[n - 1].choices;
            lemma_first_index(choice_settles(choices, before.projects), 0, choices.len() as int);
            let j = first_index(choice_settles(choices, before.projects), 0, choices.len() as int);
            if j < choices.len() && choices[j] < before.projects.len() {
                assert(before.slots[n - 1] == ledger.slots[n - 1]);
                lemma_give_project_balanced(problem, before, n - 1, choices[j] as int);
            }
        }
    }
}

/// The fallback project pass keeps the ledger balanced and gives nobody a
/// supervisor.
pub proof fn lemma_spare_project_pass(problem: ProblemView, ledger: Ledger, n: int)
    requires
        balanced(problem, ledger),
        ledger.unsupervised(),
        0 <= n <= ledger.slots.len(),
    ensures
        balanced(problem, spare_project_pass(ledger, n)),
        spare_project_pass(ledger, n).unsupervised(),
    decreases n,
{
    if n > 0 {
        lemma_spare_project_pass(problem, ledger, n - 1);
        let before = spare_project_pass(ledger, n - 1);
        lemma_first_index(has_room(before.projects), 0, before.projects.len() as int);
        let p = first_index(has_room(before.projects), 0, before.projects.len() as int);
        if before.slots[n - 1].project is None && p < before.projects.len() {
            lemma_give_project_balanced(problem, before, n - 1, p);
        }
    }
}

/// The proposer pass keeps the ledger balanced.
pub proof fn lemma_proposer_pass(problem: ProblemView, ledger: Ledger)
    requires
        balanced(problem, ledger),
        ledger.unsupervised(),
    ensures
        proposer_pass(problem, ledger) matches Some(after) ==> balanced(problem, after),
        problem.wf() ==> proposer_pass(problem, ledger) is Some,
{
    lemma_first_index(proposer_settles(problem, ledger), 0, ledger.slots.len() as int);
    let i = first_index(proposer_settles(problem, ledger), 0, ledger.slots.len() as int);
    if i < ledger.slots.len() {
        assert(slot_fits(ledger.slots[i], i, problem));
        let s = problem.projects[ledger.slots[i].project.unwrap() as int].proposer;
        if s < ledger.staff.len() {
            lemma_give_supervisor_balanced(problem, ledger, i, s as int);
        }
    }
}

/// The subject-area pass keeps the ledger balanced.
pub proof fn lemma_subject_area_pass(problem: ProblemView, ledger: Ledger, n: int)
    requires
        balanced(problem, ledger),
        0 <= n <= ledger.slots.len(),
    ensures
        balanced(problem, subject_area_pass(problem, ledger, n)),
    decreases n,
{
    if n > 0 {
        lemma_subject_area_pass(problem, ledger, n - 1);
        let before = subject_area_pass(problem, ledger, n - 1);
        let slot = before.slots[n - 1];
        if slot.project is Some && slot.supervisor is None {
            let area = problem.projects[slot.project.unwrap() as int].subject_area;
            let able = can_supervise(problem, before.staff, area);
            lemma_first_index(able, 0, before.staff.len() as int);
            let s = first_index(able, 0, before.staff.len() as int);
            if s < before.staff.len() {
                lemma_give_supervisor_balanced(problem, before, n - 1, s);
            }
        }
    }
}

/// The capacity pass keeps the ledger balanced.
pub proof fn lemma_spare_staff_pass(problem: ProblemView, ledger: Ledger, n: int)
    requires
        balanced(problem, ledger),
        0 <= n <= ledger.slots.len(),
    ensures
        balanced(problem, spare_staff_pass(ledger, n)),
    decreases n,
{
    if n > 0 {
        lemma_spare_staff_pass(problem, ledger, n - 1);
        let before = spare_staff_pass(ledger, n - 1);
        let slot = before.slots[n - 1];
        lemma_first_index(has_room(before.staff), 0, before.staff.len() as int);
        let s = first_index(has_room(before.staff), 0, before.staff.len() as int);
        if slot.project is Some && slot.supervisor is None && s < before.staff.len() {
            lemma_give_supervisor_balanced(problem, before, n - 1, s);
        }
    }
}

/// The ledger after all five passes is balanced, and a problem whose keys
/// all name its own records gets that far.
pub proof fn lemma_closing_balanced(problem: ProblemView)
    ensures
        closing(problem) matches Some(ledger) ==> balanced(problem, ledger),
        problem.wf() ==> closing(problem) is Some,
{
    let n = problem.students.len() as int;
    lemma_opening_balanced(problem);
    lemma_preference_pass(problem, opening(problem), n);
    if let Some(first) = preference_pass(problem, opening(problem), n) {
        lemma_spare_project_pass(problem, first, n);
        let second = spare_project_pass(first, n);
        lemma_proposer_pass(problem, second);
        if let Some(third) = proposer_pass(problem, second) {
            lemma_subject_area_pass(problem, third, n);
            lemma_spare_staff_pass(problem, subject_area_pass(problem, third, n), n);
        }
    }
}

/// The completed allocations name records of the problem, come in input
/// order of their students, and hold a project or a supervisor no more
/// often than the students of the ledger do.
pub proof fn lemma_completed(problem: ProblemView, slots: Seq<IncompleteAllocationView>)
    requires
        slots.len() <= problem.students.len(),
        forall|i: int| 0 <= i < slots.len() ==> slot_fits(#[trigger] slots[i], i, problem),
    ensures
        completed(slots).len() <= slots.len(),
        forall|k: int|
            0 <= k < completed(slots).len() ==> (#[trigger] completed(slots)[k]).within(problem)
                && completed(slots)[k].student < slots.len(),
        forall|k: int, l: int|
            0 <= k < l < completed(slots).len() ==> (#[trigger] completed(slots)[k]).student < (
            #[trigger] completed(slots)[l]).student,
        forall|p: nat| #[trigger]
            count(completed(slots), on_project(p)) <= count(slots, holds_project(p)),
        forall|s: nat| #[trigger]
            count(completed(slots), under_supervisor(s)) <= count(slots, holds_supervisor(s)),
    decreases slots.len(),
{
    if slots.len() > 0 {
        let rest = slots.drop_last();
        lemma_completed(problem, rest);
        assert(slot_fits(slots.last(), slots.len() - 1, problem));
        assert forall|p: nat| #[trigger]
            count(completed(slots), on_project(p)) <= count(slots, holds_project(p)) by {
            if let Some(a) = slots.last().complete() {
                lemma_count_push(completed(rest), on_project(p), a);
            }
        }
        assert forall|s: nat| #[trigger]
            count(completed(slots), under_supervisor(s)) <= count(
            slots,
            holds_supervisor(s),
        ) by {
            if let Some(a) = slots.last().complete() {
                lemma_count_push(completed(rest), under_supervisor(s), a);
            }
        }
    }
}

/// What the five passes guarantee of every problem, whatever it holds.
///
/// Every allocation names a student, a project and a member of staff of the
/// problem; the allocations come in input order of their students, each
/// student at most once; no project has more students than its
/// multiplicity, and no member of staff more than their load. A problem
/// whose keys all name its own records always has a solution.
pub proof fn lemma_solution_sound(problem: ProblemView)
    ensures
        problem.wf() ==> solution_of(problem) is Some,
        solution_of(problem) matches Some(allocations) ==> {
            &&& allocations.len() <= problem.students.len()
            &&& forall|k: int|
                0 <= k < allocations.len() ==> (#[trigger] allocations[k]).within(problem)
            &&& forall|k: int, l: int|
                0 <= k < l < allocations.len() ==> (#[trigger] allocations[k]).student < (
                #[trigger] allocations[l]).student
            &&& forall|p: int|
                0 <= p < problem.projects.len() ==> count(allocations, on_project(p as nat)) <= (
                #[trigger] problem.projects[p]).multiplicity
            &&& forall|s: int|
                0 <= s < problem.staffs.len() ==> count(allocations, under_supervisor(s as nat))
                    <= (#[trigger] problem.staffs[s]).load
        },
{
    lemma_closing_balanced(problem);
    if let Some(ledger) = closing(problem) {
        lemma_completed(problem, ledger.slots);
        let allocations = completed(ledger.slots);
        assert forall|p: int| 0 <= p < problem.projects.len() implies count(
            allocations,
            on_project(p as nat),
        ) <= (#[trigger] problem.projects[p]).multiplicity by {
            assert(count(allocations, on_project(p as nat)) <= count(
                ledger.slots,
                holds_project(p as nat),
            ));
            assert(ledger.projects[p] + count(ledger.slots, holds_project(p as nat))
                == problem.projects[p].multiplicity);
        }
        assert forall|s: int| 0 <= s < problem.staffs.len() implies count(
            allocations,
            under_supervisor(s as nat),
        ) <= (#[trigger] problem.staffs[s]).load by {
            assert(count(allocations, under_supervisor(s as nat)) <= count(
                ledger.slots,
                holds_supervisor(s as nat),
            ));
            assert(ledger.staff[s] + count(ledger.slots, holds_supervisor(s as nat))
                == problem.staffs[s].load);
        }
    }
}

} // verus!
