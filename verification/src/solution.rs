//! The allocation engine: capacity pools for projects and staff, and the
//! five greedy passes that fill an allocation for each student.
use crate::matching::{
    can_supervise, choice_settles, closing, completed, has_room, lemma_give_project_fits,
    lemma_give_supervisor_fits, lemma_preference_pass_stays_failed, lemma_solution_sound,
    on_project, opening, preference_pass, preference_step, proposer_pass, proposer_settles,
    slot_fits, solution_of, spare_project_pass, spare_project_step, spare_staff_pass,
    spare_staff_step, subject_area_pass, subject_area_step, under_supervisor, Ledger,
};
use crate::rckey::RcKey;
use crate::representation::{
    allocation_views, key_views, Allocation, IncompleteAllocation, IncompleteAllocationView,
    Problem, Project, Solution, Staff,
};
use crate::search::{count, lemma_first_index_unique};
use vstd::prelude::*;

verus! {

/// A record that the matching looked up was not in the capacity pools.
#[derive(Debug)]
pub struct SolutionError;

/// A project with the places it has left.
#[derive(Debug)]
pub struct AllocatableProject {
    pub project: RcKey<Project>,
    pub remaining: u32,
}

/// A member of staff with the load they have left.
#[derive(Debug)]
pub struct AllocatableStaff {
    pub staff: RcKey<Staff>,
    pub remaining: u32,
}

impl AllocatableProject {
    /// Takes one place if one is left, and says whether it did. The test and
    /// the decrement are one step.
    pub fn take(&mut self) -> (taken: bool)
        ensures
            taken == (old(self).remaining >= 1),
            final(self).project == old(self).project,
            final(self).remaining == old(self).remaining - if taken {
                1int
            } else {
                0int
            },
    {
        if self.remaining >= 1 {
            self.remaining -= 1;
            true
        } else {
            false
        }
    }
}

impl AllocatableStaff {
    /// Takes one unit of load if one is left, and says whether it did. The
    /// test and the decrement are one step.
    pub fn take(&mut self) -> (taken: bool)
        ensures
            taken == (old(self).remaining >= 1),
            final(self).staff == old(self).staff,
            final(self).remaining == old(self).remaining - if taken {
                1int
            } else {
                0int
            },
    {
        if self.remaining >= 1 {
            self.remaining -= 1;
            true
        } else {
            false
        }
    }
}

/// Every entry of a project pool sits at the position that its key names.
pub open spec fn projects_keyed(pool: Seq<AllocatableProject>) -> bool {
    forall|p: int| 0 <= p < pool.len() ==> (#[trigger] pool[p]).project@ == p
}

/// Every entry of a staff pool sits at the position that its key names.
pub open spec fn staff_keyed(pool: Seq<AllocatableStaff>) -> bool {
    forall|s: int| 0 <= s < pool.len() ==> (#[trigger] pool[s]).staff@ == s
}

/// The position of the pool entry for the project `key`. A pool holds the
/// entry for a key at the position that the key names; the lookup fails
/// when that position is outside the pool or holds another key.
pub fn lookup_project(pool: &Vec<AllocatableProject>, key: RcKey<Project>) -> (r: Result<
    usize,
    SolutionError,
>)
    ensures
        match r {
            Ok(p) => p == key@ && p < pool.len() && pool[p as int].project@ == key@,
            Err(_) => !(key@ < pool.len() && pool[key@ as int].project@ == key@),
        },
{
    let p = key.index();
    if p < pool.len() && pool[p].project == key {
        Ok(p)
    } else {
        Err(SolutionError)
    }
}

/// The position of the pool entry for the member of staff `key`. A pool
/// holds the entry for a key at the position that the key names; the lookup
/// fails when that position is outside the pool or holds another key.
pub fn lookup_staff(pool: &Vec<AllocatableStaff>, key: RcKey<Staff>) -> (r: Result<
    usize,
    SolutionError,
>)
    ensures
        match r {
            Ok(s) => s == key@ && s < pool.len() && pool[s as int].staff@ == key@,
            Err(_) => !(key@ < pool.len() && pool[key@ as int].staff@ == key@),
        },
{
    let s = key.index();
    if s < pool.len() && pool[s].staff == key {
        Ok(s)
    } else {
        Err(SolutionError)
    }
}

/// The places left in each project of a pool.
pub open spec fn places_left(pool: Seq<AllocatableProject>) -> Seq<nat> {
    pool.map_values(|entry: AllocatableProject| entry.remaining as nat)
}

/// The load left for each member of staff of a pool.
pub open spec fn load_left(pool: Seq<AllocatableStaff>) -> Seq<nat> {
    pool.map_values(|entry: AllocatableStaff| entry.remaining as nat)
}

/// What each student has been given so far.
pub open spec fn slots_of(allocations: Seq<IncompleteAllocation>) -> Seq<IncompleteAllocationView> {
    allocations.map_values(|a: IncompleteAllocation| a@)
}

/// The two capacity pools and the allocation of each student, while the
/// passes run. The pools are in the order of the problem's arenas, and the
/// fallback passes scan them in that order.
struct Matching {
    projects: Vec<AllocatableProject>,
    staff: Vec<AllocatableStaff>,
    allocations: Vec<IncompleteAllocation>,
}

impl View for Matching {
    type V = Ledger;

    closed spec fn view(&self) -> Ledger {
        Ledger {
            projects: places_left(self.projects@),
            staff: load_left(self.staff@),
            slots: slots_of(self.allocations@),
        }
    }
}

impl Matching {
    /// Every pool entry sits at the position that its key names.
    spec fn keyed(&self) -> bool {
        projects_keyed(self.projects@) && staff_keyed(self.staff@)
    }

    /// Nothing has changed since `before`.
    spec fn same_as(&self, before: &Matching) -> bool {
        &&& self.projects@ == before.projects@
        &&& self.staff@ == before.staff@
        &&& self.allocations@ == before.allocations@
    }

    /// The pools at full capacity and an empty allocation for each student.
    fn new(problem: &Problem) -> (m: Matching)
        ensures
            m.keyed(),
            m@ == opening(problem@),
            m@.fits(problem@),
    {
        let mut projects: Vec<AllocatableProject> = Vec::new();
        let mut p: usize = 0;
        while p < problem.projects.len()
            invariant
                p <= problem.projects.len(),
                projects.len() == p,
                forall|k: int|
                    0 <= k < p ==> (#[trigger] projects[k]).project@ == k && projects[k].remaining
                        == problem.projects[k].multiplicity,
            decreases problem.projects.len() - p,
        {
            projects.push(
                AllocatableProject {
                    project: RcKey::from(p),
                    remaining: problem.projects[p].multiplicity,
                },
            );
            p += 1;
        }
        let mut staff: Vec<AllocatableStaff> = Vec::new();
        let mut s: usize = 0;
        while s < problem.staffs.len()
            invariant
                s <= problem.staffs.len(),
                staff.len() == s,
                forall|k: int|
                    0 <= k < s ==> (#[trigger] staff[k]).staff@ == k && staff[k].remaining
                        == problem.staffs[k].load,
            decreases problem.staffs.len() - s,
        {
            staff.push(AllocatableStaff { staff: RcKey::from(s), remaining: problem.staffs[s].load });
            s += 1;
        }
        let mut allocations: Vec<IncompleteAllocation> = Vec::new();
        let mut i: usize = 0;
        while i < problem.students.len()
            invariant
                i <= problem.students.len(),
                allocations.len() == i,
                forall|k: int|
                    0 <= k < i ==> (#[trigger] allocations[k])@ == (IncompleteAllocationView {
                        student: k as nat,
                        project: None,
                        supervisor: None,
                    }),
            decreases problem.students.len() - i,
        {
            allocations.push(
                IncompleteAllocation { student: RcKey::from(i), project: None, supervisor: None },
            );
            i += 1;
        }
        let m = Matching { projects, staff, allocations };
        assert(m@.projects =~= opening(problem@).projects);
        assert(m@.staff =~= opening(problem@).staff);
        assert(m@.slots =~= opening(problem@).slots);
        m
    }

    /// The preference pass for one student: the first project of the ranked
    /// list that has a place left is taken and given to the student.
    fn prefer(&mut self, problem: &Problem, student: usize) -> (r: Result<(), SolutionError>)
        requires
            old(self).keyed(),
            old(self)@.fits(problem@),
            student < problem.students.len(),
        ensures
            final(self).keyed(),
            match r {
                Ok(_) => preference_step(problem@, old(self)@, student as int) == Some(
                    final(self)@,
                ) && final(self)@.fits(problem@),
                Err(_) => preference_step(problem@, old(self)@, student as int) is None,
            },
    {
        let choices = &problem.students[student].choices;
        let ghost settles = choice_settles(key_views(choices@), old(self)@.projects);
        let mut j: usize = 0;
        while j < choices.len()
            invariant
                j <= choices.len(),
                student < self.allocations.len(),
                choices == &problem.students[student as int].choices,
                self.same_as(old(self)),
                old(self).keyed(),
                old(self)@.fits(problem@),
                settles == choice_settles(key_views(choices@), old(self)@.projects),
                forall|k: int| 0 <= k < j ==> !#[trigger] settles(k),
            decreases choices.len() - j,
        {
            let choice = choices[j];
            let p = match lookup_project(&self.projects, choice) {
                Ok(p) => p,
                Err(e) => {
                    proof {
                        assert(settles(j as int));
                        lemma_first_index_unique(settles, 0, choices.len() as int, j as int);
                    }
                    return Err(e);
                },
            };
            if self.projects[p].take() {
                self.allocations[student].project = Some(choice);
                proof {
                    let after = old(self)@.give_project(student as int, p as int);
                    assert(settles(j as int));
                    lemma_first_index_unique(settles, 0, choices.len() as int, j as int);
                    assert(self@.projects =~= after.projects);
                    assert(self@.slots =~= after.slots);
                    lemma_give_project_fits(problem@, old(self)@, student as int, p as int);
                }
                return Ok(());
            }
            assert(!settles(j as int));
            assert(self.projects@ =~= old(self).projects@);
            j += 1;
        }
        proof {
            lemma_first_index_unique(settles, 0, choices.len() as int, choices.len() as int);
        }
        Ok(())
    }

    /// Takes a place of the first project that has one left and gives it to
    /// the student.
    fn give_spare_project(&mut self, problem: &Problem, student: usize)
        requires
            old(self).keyed(),
            old(self)@.fits(problem@),
            student < problem.students.len(),
            old(self).allocations[student as int].project is None,
        ensures
            final(self).keyed(),
            final(self)@.fits(problem@),
            final(self)@ == spare_project_step(old(self)@, student as int),
    {
        let ghost room = has_room(old(self)@.projects);
        let mut p: usize = 0;
        while p < self.projects.len()
            invariant
                p <= self.projects.len(),
                student < self.allocations.len(),
                self.same_as(old(self)),
                old(self).keyed(),
                old(self)@.fits(problem@),
                old(self).allocations[student as int].project is None,
                room == has_room(old(self)@.projects),
                forall|k: int| 0 <= k < p ==> !#[trigger] room(k),
            decreases self.projects.len() - p,
        {
            if self.projects[p].take() {
                self.allocations[student].project = Some(self.projects[p].project);
                proof {
                    let after = old(self)@.give_project(student as int, p as int);
                    assert(room(p as int));
                    lemma_first_index_unique(room, 0, self.projects.len() as int, p as int);
                    assert(self@.projects =~= after.projects);
                    assert(self@.slots =~= after.slots);
                    lemma_give_project_fits(problem@, old(self)@, student as int, p as int);
                }
                return;
            }
            assert(!room(p as int));
            assert(self.projects@ =~= old(self).projects@);
            p += 1;
        }
        proof {
            lemma_first_index_unique(room, 0, self.projects.len() as int, p as int);
        }
    }

    /// Takes a unit of load of the first member of staff who has one left
    /// and supervises `area`, and makes them the student's supervisor.
    fn give_subject_supervisor(&mut self, problem: &Problem, student: usize, area: &String)
        requires
            old(self).keyed(),
            old(self)@.fits(problem@),
            student < problem.students.len(),
            old(self).allocations[student as int].project matches Some(project)
                && problem@.projects[project@ as int].subject_area == area@,
            old(self).allocations[student as int].supervisor is None,
        ensures
            final(self).keyed(),
            final(self)@.fits(problem@),
            final(self)@ == subject_area_step(problem@, old(self)@, student as int),
    {
        let ghost able = can_supervise(problem@, old(self)@.staff, area@);
        let mut s: usize = 0;
        while s < self.staff.len()
            invariant
                s <= self.staff.len(),
                student < self.allocations.len(),
                self.same_as(old(self)),
                old(self).keyed(),
                old(self)@.fits(problem@),
                old(self).allocations[student as int].project matches Some(project)
                    && problem@.projects[project@ as int].subject_area == area@,
                old(self).allocations[student as int].supervisor is None,
                able == can_supervise(problem@, old(self)@.staff, area@),
                forall|k: int| 0 <= k < s ==> !#[trigger] able(k),
            decreases self.staff.len() - s,
        {
            if problem.staffs[s].supervises(area) && self.staff[s].take() {
                self.allocations[student].supervisor = Some(self.staff[s].staff);
                proof {
                    let after = old(self)@.give_supervisor(student as int, s as int);
                    assert(able(s as int));
                    lemma_first_index_unique(able, 0, self.staff.len() as int, s as int);
                    assert(self@.staff =~= after.staff);
                    assert(self@.slots =~= after.slots);
                    lemma_give_supervisor_fits(problem@, old(self)@, student as int, s as int);
                }
                return;
            }
            assert(!able(s as int));
            assert(self.staff@ =~= old(self).staff@);
            s += 1;
        }
        proof {
            lemma_first_index_unique(able, 0, self.staff.len() as int, s as int);
        }
    }

    /// Takes a unit of load of the first member of staff who has one left
    /// and makes them the student's supervisor.
    fn give_spare_supervisor(&mut self, problem: &Problem, student: usize)
        requires
            old(self).keyed(),
            old(self)@.fits(problem@),
            student < problem.students.len(),
            old(self).allocations[student as int].project is Some,
            old(self).allocations[student as int].supervisor is None,
        ensures
            final(self).keyed(),
            final(self)@.fits(problem@),
            final(self)@ == spare_staff_step(old(self)@, student as int),
    {
        let ghost room = has_room(old(self)@.staff);
        let mut s: usize = 0;
        while s < self.staff.len()
            invariant
                s <= self.staff.len(),
                student < self.allocations.len(),
                self.same_as(old(self)),
                old(self).keyed(),
                old(self)@.fits(problem@),
                old(self).allocations[student as int].project is Some,
                old(self).allocations[student as int].supervisor is None,
                room == has_room(old(self)@.staff),
                forall|k: int| 0 <= k < s ==> !#[trigger] room(k),
            decreases self.staff.len() - s,
        {
            if self.staff[s].take() {
                self.allocations[student].supervisor = Some(self.staff[s].staff);
                proof {
                    let after = old(self)@.give_supervisor(student as int, s as int);
                    assert(room(s as int));
                    lemma_first_index_unique(room, 0, self.staff.len() as int, s as int);
                    assert(self@.staff =~= after.staff);
                    assert(self@.slots =~= after.slots);
                    lemma_give_supervisor_fits(problem@, old(self)@, student as int, s as int);
                }
                return;
            }
            assert(!room(s as int));
            assert(self.staff@ =~= old(self).staff@);
            s += 1;
        }
        proof {
            lemma_first_index_unique(room, 0, self.staff.len() as int, s as int);
        }
    }

    /// The preference pass: each student, in input order, gets the first
    /// project of their ranked list that has a place left.
    fn preference_pass(&mut self, problem: &Problem) -> (r: Result<(), SolutionError>)
        requires
            old(self).keyed(),
            old(self)@.fits(problem@),
        ensures
            final(self).keyed(),
            match r {
                Ok(_) => preference_pass(
                    problem@,
                    old(self)@,
                    problem.students.len() as int,
                ) == Some(final(self)@) && final(self)@.fits(problem@),
                Err(_) => preference_pass(problem@, old(self)@, problem.students.len() as int)
                    is None,
            },
    {
        let n = self.allocations.len();
        let mut i: usize = 0;
        while i < n
            invariant
                i <= n,
                n == problem.students.len(),
                self.keyed(),
                self@.fits(problem@),
                preference_pass(problem@, old(self)@, i as int) == Some(self@),
            decreases n - i,
        {
            match self.prefer(problem, i) {
                Ok(_) => {},
                Err(e) => {
                    proof {
                        lemma_preference_pass_stays_failed(problem@, old(self)@, i + 1, n as int);
                    }
                    return Err(e);
                },
            }
            i += 1;
        }
        Ok(())
    }

    /// The fallback project pass: each student without a project, in input
    /// order, gets the first project that has a place left.
    fn spare_project_pass(&mut self, problem: &Problem)
        requires
            old(self).keyed(),
            old(self)@.fits(problem@),
        ensures
            final(self).keyed(),
            final(self)@.fits(problem@),
            final(self)@ == spare_project_pass(old(self)@, problem.students.len() as int),
    {
        let n = self.allocations.len();
        let mut i: usize = 0;
        while i < n
            invariant
                i <= n,
                n == problem.students.len(),
                self.keyed(),
                self@.fits(problem@),
                self@ == spare_project_pass(old(self)@, i as int),
            decreases n - i,
        {
            if self.allocations[i].project.is_none() {
                self.give_spare_project(problem, i);
            }
            i += 1;
        }
    }

    /// The proposer pass: the first student, in input order, whose project's
    /// proposer has load left gets that proposer, and the pass ends.
    fn proposer_pass(&mut self, problem: &Problem) -> (r: Result<(), SolutionError>)
        requires
            old(self).keyed(),
            old(self)@.fits(problem@),
        ensures
            final(self).keyed(),
            match r {
                Ok(_) => proposer_pass(problem@, old(self)@) == Some(final(self)@)
                    && final(self)@.fits(problem@),
                Err(_) => proposer_pass(problem@, old(self)@) is None,
            },
    {
        let ghost settles = proposer_settles(problem@, old(self)@);
        let n = self.allocations.len();
        let mut i: usize = 0;
        while i < n
            invariant
                i <= n,
                n == self.allocations.len(),
                self.same_as(old(self)),
                old(self).keyed(),
                old(self)@.fits(problem@),
                settles == proposer_settles(problem@, old(self)@),
                forall|k: int| 0 <= k < i ==> !#[trigger] settles(k),
            decreases n - i,
        {
            assert(slot_fits(old(self)@.slots[i as int], i as int, problem@));
            if let Some(project) = self.allocations[i].project {
                let proposer = problem.projects[project.index()].proposer;
                let s = match lookup_staff(&self.staff, proposer) {
                    Ok(s) => s,
                    Err(e) => {
                        proof {
                            assert(settles(i as int));
                            lemma_first_index_unique(settles, 0, n as int, i as int);
                        }
                        return Err(e);
                    },
                };
                if self.staff[s].take() {
                    self.allocations[i].supervisor = Some(proposer);
                    proof {
                        let after = old(self)@.give_supervisor(i as int, s as int);
                        assert(settles(i as int));
                        lemma_first_index_unique(settles, 0, n as int, i as int);
                        assert(self@.staff =~= after.staff);
                        assert(self@.slots =~= after.slots);
                        lemma_give_supervisor_fits(problem@, old(self)@, i as int, s as int);
                    }
                    return Ok(());
                }
                assert(self.staff@ =~= old(self).staff@);
            }
            assert(!settles(i as int));
            i += 1;
        }
        proof {
            lemma_first_index_unique(settles, 0, n as int, n as int);
        }
        Ok(())
    }

    /// The subject-area pass: each student with a project and no
    /// supervisor, in input order, gets the first member of staff who has
    /// load left and supervises the project's subject area.
    fn subject_area_pass(&mut self, problem: &Problem)
        requires
            old(self).keyed(),
            old(self)@.fits(problem@),
        ensures
            final(self).keyed(),
            final(self)@.fits(problem@),
            final(self)@ == subject_area_pass(
                problem@,
                old(self)@,
                problem.students.len() as int,
            ),
    {
        let n = self.allocations.len();
        let mut i: usize = 0;
        while i < n
            invariant
                i <= n,
                n == problem.students.len(),
                self.keyed(),
                self@.fits(problem@),
                self@ == subject_area_pass(problem@, old(self)@, i as int),
            decreases n - i,
        {
            assert(slot_fits(self@.slots[i as int], i as int, problem@));
            if self.allocations[i].supervisor.is_none() {
                if let Some(project) = self.allocations[i].project {
                    let area = &problem.projects[project.index()].subject_area;
                    self.give_subject_supervisor(problem, i, area);
                }
            }
            i += 1;
        }
    }

    /// The capacity pass: each student with a project and no supervisor, in
    /// input order, gets the first member of staff who has load left.
    fn spare_staff_pass(&mut self, problem: &Problem)
        requires
            old(self).keyed(),
            old(self)@.fits(problem@),
        ensures
            final(self).keyed(),
            final(self)@.fits(problem@),
            final(self)@ == spare_staff_pass(old(self)@, problem.students.len() as int),
    {
        let n = self.allocations.len();
        let mut i: usize = 0;
        while i < n
            invariant
                i <= n,
                n == problem.students.len(),
                self.keyed(),
                self@.fits(problem@),
                self@ == spare_staff_pass(old(self)@, i as int),
            decreases n - i,
        {
            if self.allocations[i].project.is_some() && self.allocations[i].supervisor.is_none() {
                self.give_spare_supervisor(problem, i);
            }
            i += 1;
        }
    }

    /// The students that have both a project and a supervisor, in input
    /// order.
    fn complete(&self) -> (out: Vec<Allocation>)
        ensures
            allocation_views(out@) == completed(self@.slots),
    {
        let mut out: Vec<Allocation> = Vec::new();
        let mut i: usize = 0;
        while i < self.allocations.len()
            invariant
                i <= self.allocations.len(),
                allocation_views(out@) == completed(self@.slots.take(i as int)),
            decreases self.allocations.len() - i,
        {
            proof {
                assert(self@.slots.take(i + 1).drop_last() =~= self@.slots.take(i as int));
            }
            let ghost before = allocation_views(out@);
            if let Some(allocation) = self.allocations[i].complete() {
                out.push(allocation);
                assert(allocation_views(out@) =~= before.push(allocation@));
            }
            i += 1;
        }
        assert(self@.slots.take(self.allocations.len() as int) =~= self@.slots);
        out
    }
}

/// Allocates students to projects and supervisors in five greedy passes.
///
/// 1. Each student, in input order, gets the first project of their ranked
///    list that has a place left.
/// 2. Each student still without a project gets the first project, in input
///    order, that has a place left.
/// 3. The first student whose project's proposer has load left gets that
///    proposer as supervisor. The pass ends there: no later student gets
///    their proposer in this pass, whatever load is left.
/// 4. Each student with a project and no supervisor gets the first member of
///    staff, in input order, who has load left and supervises the project's
///    subject area.
/// 5. Each student with a project and still no supervisor gets the first
///    member of staff who has load left.
///
/// Students left without a project or without a supervisor are dropped; the
/// others come out in input order. Every allocation names records of the
/// problem, no project gets more students than its multiplicity, and no
/// member of staff more than their load. The run fails only when a pass
/// looks up a key that names no record of the problem, which cannot happen
/// when the problem is well formed.
pub fn solve(problem: Problem) -> (r: Result<Solution, SolutionError>)
    ensures
        match r {
            Ok(solution) => {
                &&& solution.problem == problem
                &&& solution_of(problem@) == Some(solution@.allocations)
                &&& solution.wf()
                &&& solution.allocations.len() <= problem.students.len()
                &&& forall|k: int, l: int|
                    0 <= k < l < solution@.allocations.len() ==> (
                    #[trigger] solution@.allocations[k]).student < (
                    #[trigger] solution@.allocations[l]).student
                &&& forall|p: int|
                    0 <= p < problem@.projects.len() ==> count(
                        solution@.allocations,
                        on_project(p as nat),
                    ) <= (#[trigger] problem@.projects[p]).multiplicity
                &&& forall|s: int|
                    0 <= s < problem@.staffs.len() ==> count(
                        solution@.allocations,
                        under_supervisor(s as nat),
                    ) <= (#[trigger] problem@.staffs[s]).load
            },
            Err(_) => solution_of(problem@) is None,
        },
        problem.wf() ==> r is Ok,
{
    proof {
        lemma_solution_sound(problem@);
    }
    let mut matching = Matching::new(&problem);
    match matching.preference_pass(&problem) {
        Ok(_) => {},
        Err(e) => {
            return Err(e);
        },
    }
    matching.spare_project_pass(&problem);
    match matching.proposer_pass(&problem) {
        Ok(_) => {},
        Err(e) => {
            return Err(e);
        },
    }
    matching.subject_area_pass(&problem);
    matching.spare_staff_pass(&problem);
    let allocations = matching.complete();
    assert(closing(problem@) == Some(matching@));
    Ok(Solution { problem, allocations })
}

} // verus!
