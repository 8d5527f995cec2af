//! The records of an allocation problem, how they are read from text, and
//! what is computed from a finished allocation: its score and its report.
use crate::order::{sort_lines, sorted_lines};
use crate::rckey::RcKey;
use crate::search::{first_index, lemma_first_index, lemma_first_index_unique};
use crate::text::{
    chars_of, cut, decimal, fields, lemma_fields_nonempty, lines, number, parse_u32,
    push_decimal, slice, spans_within, split, split_lines, texts,
};
use vstd::prelude::*;
use vstd::string::{is_ascii, StringExecFns};

verus! {

/// A member of staff who can supervise students.
#[allow(non_snake_case)]
#[derive(Debug)]
pub struct Staff {
    pub staffID: String,
    /// How many students this member of staff can supervise.
    pub load: u32,
    /// The subject areas this member of staff can supervise, read as a set.
    pub subject_areas: Vec<String>,
}

/// What a member of staff holds: identifier, load, subject areas.
pub struct StaffView {
    pub id: Seq<char>,
    pub load: nat,
    pub subject_areas: Seq<Seq<char>>,
}

impl View for Staff {
    type V = StaffView;

    open spec fn view(&self) -> StaffView {
        StaffView {
            id: self.staffID@,
            load: self.load as nat,
            subject_areas: texts(self.subject_areas@),
        }
    }
}

/// A project that students can be assigned to.
#[allow(non_snake_case)]
#[derive(Debug)]
pub struct Project {
    pub projectID: u32,
    /// The member of staff who proposed the project.
    pub proposer: RcKey<Staff>,
    pub subject_area: String,
    /// How many students the project can host.
    pub multiplicity: u32,
}

/// What a project holds: number, the position of its proposer among the
/// staff, subject area, multiplicity.
pub struct ProjectView {
    pub id: nat,
    pub proposer: nat,
    pub subject_area: Seq<char>,
    pub multiplicity: nat,
}

impl View for Project {
    type V = ProjectView;

    open spec fn view(&self) -> ProjectView {
        ProjectView {
            id: self.projectID as nat,
            proposer: self.proposer@,
            subject_area: self.subject_area@,
            multiplicity: self.multiplicity as nat,
        }
    }
}

/// A student, with the projects they would like, most wanted first.
#[allow(non_snake_case)]
#[derive(Debug)]
pub struct Student {
    pub studentID: String,
    pub choices: Vec<RcKey<Project>>,
}

/// What a student holds: identifier, and the positions of the chosen
/// projects among the projects, most wanted first.
pub struct StudentView {
    pub id: Seq<char>,
    pub choices: Seq<nat>,
}

/// The positions that a sequence of keys names.
pub open spec fn key_views<T>(keys: Seq<RcKey<T>>) -> Seq<nat> {
    keys.map_values(|k: RcKey<T>| k@)
}

impl View for Student {
    type V = StudentView;

    open spec fn view(&self) -> StudentView {
        StudentView { id: self.studentID@, choices: key_views(self.choices@) }
    }
}

/// All staff, projects and students of one run. A key of a member of staff
/// is a position in `staffs`, a key of a project a position in `projects`,
/// a key of a student a position in `students`.
#[derive(Debug)]
pub struct Problem {
    pub staffs: Vec<Staff>,
    pub projects: Vec<Project>,
    pub students: Vec<Student>,
}

/// What a problem holds, record by record in input order.
pub struct ProblemView {
    pub staffs: Seq<StaffView>,
    pub projects: Seq<ProjectView>,
    pub students: Seq<StudentView>,
}

/// What a sequence of staff holds.
pub open spec fn staff_views(v: Seq<Staff>) -> Seq<StaffView> {
    v.map_values(|s: Staff| s@)
}

/// What a sequence of projects holds.
pub open spec fn project_views(v: Seq<Project>) -> Seq<ProjectView> {
    v.map_values(|p: Project| p@)
}

/// What a sequence of students holds.
pub open spec fn student_views(v: Seq<Student>) -> Seq<StudentView> {
    v.map_values(|s: Student| s@)
}

impl View for Problem {
    type V = ProblemView;

    open spec fn view(&self) -> ProblemView {
        ProblemView {
            staffs: staff_views(self.staffs@),
            projects: project_views(self.projects@),
            students: student_views(self.students@),
        }
    }
}

impl ProblemView {
    /// Every key in the problem names a record of the problem.
    pub open spec fn wf(self) -> bool {
        &&& forall|p: int|
            0 <= p < self.projects.len() ==> (#[trigger] self.projects[p]).proposer
                < self.staffs.len()
        &&& forall|s: int, j: int|
            0 <= s < self.students.len() && 0 <= j < self.students[s].choices.len()
                ==> #[trigger] self.students[s].choices[j] < self.projects.len()
    }
}

/// Input that is malformed, or that names a record that does not exist.
#[derive(Debug)]
pub struct ParseError;

/// The member of staff that a line of the staff file describes: an
/// identifier, a load, then any number of subject areas.
pub open spec fn staff_of_line(line: Seq<char>) -> Option<StaffView> {
    let f = fields(line, ' ');
    if f.len() >= 2 && number(f[1]) is Some {
        Some(StaffView { id: f[0], load: number(f[1]).unwrap() as nat, subject_areas: f.skip(2) })
    } else {
        None
    }
}

impl Staff {
    /// Reads a member of staff from a line.
    pub fn from_str(s: &str) -> (r: Result<Staff, ParseError>)
        ensures
            match r {
                Ok(staff) => staff_of_line(s@) == Some(staff@),
                Err(_) => staff_of_line(s@) is None,
            },
    {
        let line = chars_of(s);
        let ascii = s.is_ascii();
        let f = split(&line, ' ');
        assert(cut(s@, f@).len() == f.len());
        if f.len() < 2 {
            return Err(ParseError);
        }
        assert(cut(s@, f@)[1] == f@[1].of(s@));
        let load = match parse_u32(&line, f[1]) {
            Some(n) => n,
            None => {
                return Err(ParseError);
            },
        };
        let mut areas: Vec<String> = Vec::new();
        let mut i: usize = 2;
        while i < f.len()
            invariant
                2 <= i <= f.len(),
                ascii ==> is_ascii(s),
                spans_within(f@, s@.len()),
                texts(areas@) == cut(s@, f@).subrange(2, i as int),
            decreases f.len() - i,
        {
            let ghost before = texts(areas@);
            areas.push(slice(s, ascii, f[i]).to_owned());
            assert(texts(areas@) =~= before.push(f@[i as int].of(s@)));
            assert(cut(s@, f@).subrange(2, i + 1) =~= before.push(f@[i as int].of(s@)));
            i += 1;
        }
        let staff = Staff { staffID: slice(s, ascii, f[0]).to_owned(), load, subject_areas: areas };
        assert(staff@.subject_areas =~= fields(s@, ' ').skip(2));
        assert(cut(s@, f@)[0] == f@[0].of(s@));
        Ok(staff)
    }

    /// Whether this member of staff supervises the subject area.
    pub fn supervises(&self, area: &String) -> (r: bool)
        ensures
            r == self@.subject_areas.contains(area@),
    {
        let mut i: usize = 0;
        while i < self.subject_areas.len()
            invariant
                i <= self.subject_areas.len(),
                forall|k: int| 0 <= k < i ==> self@.subject_areas[k] != area@,
            decreases self.subject_areas.len() - i,
        {
            if self.subject_areas[i] == *area {
                assert(self@.subject_areas[i as int] == area@);
                return true;
            }
            i += 1;
        }
        false
    }
}

/// A project as its line describes it, its proposer still a name.
#[allow(non_snake_case)]
#[derive(Debug)]
pub struct RawProject {
    pub projectID: u32,
    pub proposer: String,
    pub multiplicity: u32,
    pub subject_area: String,
}

/// What a project line holds.
pub struct RawProjectView {
    pub id: nat,
    pub proposer: Seq<char>,
    pub multiplicity: nat,
    pub subject_area: Seq<char>,
}

impl View for RawProject {
    type V = RawProjectView;

    open spec fn view(&self) -> RawProjectView {
        RawProjectView {
            id: self.projectID as nat,
            proposer: self.proposer@,
            multiplicity: self.multiplicity as nat,
            subject_area: self.subject_area@,
        }
    }
}

/// The project that a line of the project file describes: a number, the
/// proposer's identifier, a multiplicity and a subject area. Further fields
/// are ignored.
pub open spec fn raw_project_of_line(line: Seq<char>) -> Option<RawProjectView> {
    let f = fields(line, ' ');
    if f.len() >= 4 && number(f[0]) is Some && number(f[2]) is Some {
        Some(
            RawProjectView {
                id: number(f[0]).unwrap() as nat,
                proposer: f[1],
                multiplicity: number(f[2]).unwrap() as nat,
                subject_area: f[3],
            },
        )
    } else {
        None
    }
}

/// Whether the member of staff at a position has the identifier `name`.
pub open spec fn is_named(staffs: Seq<StaffView>, name: Seq<char>) -> spec_fn(int) -> bool {
    |i: int| staffs[i].id == name
}

/// The position of the first member of staff with the identifier `name`,
/// or the number of staff if there is none.
pub open spec fn staff_named(staffs: Seq<StaffView>, name: Seq<char>) -> int {
    first_index(is_named(staffs, name), 0, staffs.len() as int)
}

/// The project with its proposer resolved to a key, if the proposer exists.
pub open spec fn resolve_project(raw: RawProjectView, staffs: Seq<StaffView>) -> Option<
    ProjectView,
> {
    let k = staff_named(staffs, raw.proposer);
    if k < staffs.len() {
        Some(
            ProjectView {
                id: raw.id,
                proposer: k as nat,
                subject_area: raw.subject_area,
                multiplicity: raw.multiplicity,
            },
        )
    } else {
        None
    }
}

impl RawProject {
    /// Reads a project from a line.
    pub fn from_str(s: &str) -> (r: Result<RawProject, ParseError>)
        ensures
            match r {
                Ok(raw) => raw_project_of_line(s@) == Some(raw@),
                Err(_) => raw_project_of_line(s@) is None,
            },
    {
        let line = chars_of(s);
        let ascii = s.is_ascii();
        let f = split(&line, ' ');
        assert(cut(s@, f@).len() == f.len());
        if f.len() < 4 {
            return Err(ParseError);
        }
        assert(cut(s@, f@)[0] == f@[0].of(s@));
        assert(cut(s@, f@)[1] == f@[1].of(s@));
        assert(cut(s@, f@)[2] == f@[2].of(s@));
        assert(cut(s@, f@)[3] == f@[3].of(s@));
        let id = match parse_u32(&line, f[0]) {
            Some(n) => n,
            None => {
                return Err(ParseError);
            },
        };
        let multiplicity = match parse_u32(&line, f[2]) {
            Some(n) => n,
            None => {
                return Err(ParseError);
            },
        };
        Ok(
            RawProject {
                projectID: id,
                proposer: slice(s, ascii, f[1]).to_owned(),
                multiplicity,
                subject_area: slice(s, ascii, f[3]).to_owned(),
            },
        )
    }

    /// Resolves the proposer's name to the key of the first member of staff
    /// who has it; fails if nobody has.
    pub fn process(self, staffs: &Vec<Staff>) -> (r: Result<Project, ParseError>)
        ensures
            match r {
                Ok(project) => resolve_project(self@, staff_views(staffs@)) == Some(project@),
                Err(_) => resolve_project(self@, staff_views(staffs@)) is None,
            },
    {
        match find_staff(staffs, &self.proposer) {
            Some(proposer) => Ok(
                Project {
                    projectID: self.projectID,
                    proposer,
                    subject_area: self.subject_area,
                    multiplicity: self.multiplicity,
                },
            ),
            None => Err(ParseError),
        }
    }
}

/// The key of the first member of staff with the identifier `name`.
pub fn find_staff(staffs: &Vec<Staff>, name: &String) -> (r: Option<RcKey<Staff>>)
    ensures
        match r {
            Some(key) => key@ == staff_named(staff_views(staffs@), name@) && key@ < staffs.len(),
            None => staff_named(staff_views(staffs@), name@) == staffs.len(),
        },
{
    let ghost named = is_named(staff_views(staffs@), name@);
    let mut i: usize = 0;
    while i < staffs.len()
        invariant
            i <= staffs.len(),
            named == is_named(staff_views(staffs@), name@),
            forall|j: int| 0 <= j < i ==> !#[trigger] named(j),
        decreases staffs.len() - i,
    {
        if *name == staffs[i].staffID {
            proof {
                lemma_first_index_unique(named, 0, staffs.len() as int, i as int);
            }
            return Some(RcKey::from(i));
        }
        i += 1;
    }
    proof {
        lemma_first_index_unique(named, 0, staffs.len() as int, staffs.len() as int);
    }
    None
}

/// A student as their line describes them, their choices still numbers.
#[allow(non_snake_case)]
#[derive(Debug)]
pub struct RawStudent {
    pub studentID: String,
    pub choices: Vec<u32>,
}

/// What a student line holds.
pub struct RawStudentView {
    pub id: Seq<char>,
    pub choices: Seq<nat>,
}

impl View for RawStudent {
    type V = RawStudentView;

    open spec fn view(&self) -> RawStudentView {
        RawStudentView { id: self.studentID@, choices: self.choices@.map_values(|c: u32| c as nat) }
    }
}

/// The student that a line of the student file describes: an identifier,
/// then any number of project numbers, most wanted first.
pub open spec fn raw_student_of_line(line: Seq<char>) -> Option<RawStudentView> {
    let f = fields(line, ' ');
    if forall|j: int| 1 <= j < f.len() ==> number(#[trigger] f[j]) is Some {
        Some(
            RawStudentView {
                id: f[0],
                choices: Seq::new((f.len() - 1) as nat, |j: int| number(f[j + 1]).unwrap() as nat),
            },
        )
    } else {
        None
    }
}

/// Whether the project at a position has the number `id`.
pub open spec fn is_numbered(projects: Seq<ProjectView>, id: nat) -> spec_fn(int) -> bool {
    |i: int| projects[i].id == id
}

/// The position of the first project with the number `id`, or the number
/// of projects if there is none.
pub open spec fn project_numbered(projects: Seq<ProjectView>, id: nat) -> int {
    first_index(is_numbered(projects, id), 0, projects.len() as int)
}

/// The student with each choice resolved to a key, if every chosen project
/// exists.
pub open spec fn resolve_student(raw: RawStudentView, projects: Seq<ProjectView>) -> Option<
    StudentView,
> {
    if forall|j: int|
        0 <= j < raw.choices.len() ==> project_numbered(projects, #[trigger] raw.choices[j])
            < projects.len() {
        Some(
            StudentView {
                id: raw.id,
                choices: Seq::new(
                    raw.choices.len(),
                    |j: int| project_numbered(projects, raw.choices[j]) as nat,
                ),
            },
        )
    } else {
        None
    }
}

/// The key of the first project with the number `id`.
pub fn find_project(projects: &Vec<Project>, id: u32) -> (r: Option<RcKey<Project>>)
    ensures
        match r {
            Some(key) => key@ == project_numbered(project_views(projects@), id as nat) && key@
                < projects.len(),
            None => project_numbered(project_views(projects@), id as nat) == projects.len(),
        },
{
    let ghost numbered = is_numbered(project_views(projects@), id as nat);
    let mut i: usize = 0;
    while i < projects.len()
        invariant
            i <= projects.len(),
            numbered == is_numbered(project_views(projects@), id as nat),
            forall|j: int| 0 <= j < i ==> !#[trigger] numbered(j),
        decreases projects.len() - i,
    {
        if projects[i].projectID == id {
            proof {
                lemma_first_index_unique(numbered, 0, projects.len() as int, i as int);
            }
            return Some(RcKey::from(i));
        }
        i += 1;
    }
    proof {
        lemma_first_index_unique(numbered, 0, projects.len() as int, projects.len() as int);
    }
    None
}

impl RawStudent {
    /// Reads a student from a line.
    pub fn from_str(s: &str) -> (r: Result<RawStudent, ParseError>)
        ensures
            match r {
                Ok(raw) => raw_student_of_line(s@) == Some(raw@),
                Err(_) => raw_student_of_line(s@) is None,
            },
    {
        let line = chars_of(s);
        let ascii = s.is_ascii();
        let f = split(&line, ' ');
        proof {
            lemma_fields_nonempty(s@, ' ');
        }
        assert(cut(s@, f@).len() == f.len());
        let mut choices: Vec<u32> = Vec::new();
        let mut i: usize = 1;
        while i < f.len()
            invariant
                1 <= i <= f.len(),
                line@ == s@,
                spans_within(f@, s@.len()),
                cut(s@, f@) == fields(s@, ' '),
                choices.len() == i - 1,
                forall|j: int|
                    1 <= j < i ==> number(#[trigger] cut(s@, f@)[j]) == Some(choices@[j - 1]),
            decreases f.len() - i,
        {
            assert(cut(s@, f@)[i as int] == f@[i as int].of(s@));
            match parse_u32(&line, f[i]) {
                Some(n) => choices.push(n),
                None => {
                    return Err(ParseError);
                },
            }
            i += 1;
        }
        assert(cut(s@, f@)[0] == f@[0].of(s@));
        let raw = RawStudent { studentID: slice(s, ascii, f[0]).to_owned(), choices };
        assert(raw@.choices =~= raw_student_of_line(s@).unwrap().choices);
        Ok(raw)
    }

    /// Resolves each chosen project number to the key of the first project
    /// that has it; fails if a number belongs to no project.
    pub fn process(self, projects: &Vec<Project>) -> (r: Result<Student, ParseError>)
        ensures
            match r {
                Ok(student) => resolve_student(self@, project_views(projects@)) == Some(student@),
                Err(_) => resolve_student(self@, project_views(projects@)) is None,
            },
    {
        let ghost all = project_views(projects@);
        let mut choices: Vec<RcKey<Project>> = Vec::new();
        let mut j: usize = 0;
        while j < self.choices.len()
            invariant
                j <= self.choices.len(),
                all == project_views(projects@),
                choices.len() == j,
                forall|k: int|
                    #![trigger choices@[k]]
                    #![trigger self@.choices[k]]
                    0 <= k < j ==> choices@[k]@ == project_numbered(all, self@.choices[k])
                        && project_numbered(all, self@.choices[k]) < all.len(),
            decreases self.choices.len() - j,
        {
            match find_project(projects, self.choices[j]) {
                Some(key) => choices.push(key),
                None => {
                    assert(!(project_numbered(all, self@.choices[j as int]) < all.len()));
                    return Err(ParseError);
                },
            }
            j += 1;
        }
        let student = Student { studentID: self.studentID, choices };
        assert(student@.choices =~= resolve_student(self@, all).unwrap().choices);
        Ok(student)
    }
}

/// The values of a sequence of options when all of them are there.
pub open spec fn gather<T>(s: Seq<Option<T>>) -> Option<Seq<T>> {
    if forall|i: int| 0 <= i < s.len() ==> (#[trigger] s[i]) is Some {
        Some(Seq::new(s.len(), |i: int| s[i].unwrap()))
    } else {
        None
    }
}

/// The staff that the staff file describes, one per line, if every line
/// describes one.
pub open spec fn staffs_of_text(text: Seq<char>) -> Option<Seq<StaffView>> {
    gather(staff_entries(text))
}

/// What each line of the staff file describes.
pub open spec fn staff_entries(text: Seq<char>) -> Seq<Option<StaffView>> {
    lines(text).map_values(|l: Seq<char>| staff_of_line(l))
}

/// The project that a line describes, with its proposer found among `staffs`.
pub open spec fn project_of_line(line: Seq<char>, staffs: Seq<StaffView>) -> Option<ProjectView> {
    match raw_project_of_line(line) {
        Some(raw) => resolve_project(raw, staffs),
        None => None,
    }
}

/// The projects that the project file describes, one per line, if every line
/// describes one and names a proposer among `staffs`.
pub open spec fn projects_of_text(text: Seq<char>, staffs: Seq<StaffView>) -> Option<
    Seq<ProjectView>,
> {
    gather(project_entries(text, staffs))
}

/// What each line of the project file describes.
pub open spec fn project_entries(text: Seq<char>, staffs: Seq<StaffView>) -> Seq<
    Option<ProjectView>,
> {
    lines(text).map_values(|l: Seq<char>| project_of_line(l, staffs))
}

/// The student that a line describes, with their choices found among
/// `projects`.
pub open spec fn student_of_line(line: Seq<char>, projects: Seq<ProjectView>) -> Option<
    StudentView,
> {
    match raw_student_of_line(line) {
        Some(raw) => resolve_student(raw, projects),
        None => None,
    }
}

/// The students that the student file describes, one per line, if every
/// line describes one and chooses among `projects` only.
pub open spec fn students_of_text(text: Seq<char>, projects: Seq<ProjectView>) -> Option<
    Seq<StudentView>,
> {
    gather(student_entries(text, projects))
}

/// What each line of the student file describes.
pub open spec fn student_entries(text: Seq<char>, projects: Seq<ProjectView>) -> Seq<
    Option<StudentView>,
> {
    lines(text).map_values(|l: Seq<char>| student_of_line(l, projects))
}

/// The problem that the three files describe. Staff are read first, then
/// projects against the staff, then students against the projects; one line
/// that fails makes the whole input fail.
pub open spec fn problem_of_texts(staffs: Seq<char>, projects: Seq<char>, students: Seq<char>)
    -> Option<ProblemView> {
    match staffs_of_text(staffs) {
        None => None,
        Some(staffs) => match projects_of_text(projects, staffs) {
            None => None,
            Some(projects) => match students_of_text(students, projects) {
                None => None,
                Some(students) => Some(ProblemView { staffs, projects, students }),
            },
        },
    }
}

/// A problem read from text refers to its own records only.
pub proof fn lemma_problem_of_texts_wf(staffs: Seq<char>, projects: Seq<char>, students: Seq<char>)
    requires
        problem_of_texts(staffs, projects, students) is Some,
    ensures
        problem_of_texts(staffs, projects, students).unwrap().wf(),
{
    let problem = problem_of_texts(staffs, projects, students).unwrap();
    let project_lines = lines(projects);
    let student_lines = lines(students);
    assert forall|p: int| 0 <= p < problem.projects.len() implies (#[trigger] problem.projects[p]).proposer
        < problem.staffs.len() by {
        assert(project_entries(projects, problem.staffs)[p] is Some);
        let raw = raw_project_of_line(project_lines[p]).unwrap();
        lemma_first_index(is_named(problem.staffs, raw.proposer), 0, problem.staffs.len() as int);
    }
    assert forall|s: int, j: int|
        0 <= s < problem.students.len() && 0 <= j < problem.students[s].choices.len() implies #[trigger] problem.students[s].choices[j]
        < problem.projects.len() by {
        let entry = student_entries(students, problem.projects)[s];
        assert(entry is Some);
        assert(entry == student_of_line(student_lines[s], problem.projects));
        let raw = raw_student_of_line(student_lines[s]).unwrap();
        assert(problem.students[s] == resolve_student(raw, problem.projects).unwrap());
        assert(project_numbered(problem.projects, raw.choices[j]) < problem.projects.len());
        lemma_first_index(
            is_numbered(problem.projects, raw.choices[j]),
            0,
            problem.projects.len() as int,
        );
    }
}

/// Reads the staff file.
fn read_staffs(text: &str) -> (r: Result<Vec<Staff>, ParseError>)
    ensures
        match r {
            Ok(staffs) => staffs_of_text(text@) == Some(staff_views(staffs@)),
            Err(_) => staffs_of_text(text@) is None,
        },
{
    let chars = chars_of(text);
    let ascii = text.is_ascii();
    let all = split_lines(&chars);
    let ghost parsed = staff_entries(text@);
    let mut staffs: Vec<Staff> = Vec::new();
    let mut i: usize = 0;
    while i < all.len()
        invariant
            i <= all.len(),
            ascii ==> is_ascii(text),
            spans_within(all@, text@.len()),
            cut(text@, all@) == lines(text@),
            parsed == staff_entries(text@),
            staffs.len() == i,
            forall|k: int| 0 <= k < i ==> #[trigger] parsed[k] == Some(staffs@[k]@),
        decreases all.len() - i,
    {
        assert(cut(text@, all@)[i as int] == all@[i as int].of(text@));
        match Staff::from_str(slice(text, ascii, all[i])) {
            Ok(staff) => staffs.push(staff),
            Err(e) => {
                assert(parsed[i as int] is None);
                return Err(e);
            },
        }
        i += 1;
    }
    assert(staff_views(staffs@) =~= gather(parsed).unwrap());
    Ok(staffs)
}

/// Reads the project file against the staff already read.
fn read_projects(text: &str, staffs: &Vec<Staff>) -> (r: Result<Vec<Project>, ParseError>)
    ensures
        match r {
            Ok(projects) => projects_of_text(text@, staff_views(staffs@)) == Some(
                project_views(projects@),
            ),
            Err(_) => projects_of_text(text@, staff_views(staffs@)) is None,
        },
{
    let chars = chars_of(text);
    let ascii = text.is_ascii();
    let all = split_lines(&chars);
    let ghost known = staff_views(staffs@);
    let ghost parsed = project_entries(text@, known);
    let mut projects: Vec<Project> = Vec::new();
    let mut i: usize = 0;
    while i < all.len()
        invariant
            i <= all.len(),
            ascii ==> is_ascii(text),
            spans_within(all@, text@.len()),
            cut(text@, all@) == lines(text@),
            known == staff_views(staffs@),
            parsed == project_entries(text@, known),
            projects.len() == i,
            forall|k: int| 0 <= k < i ==> #[trigger] parsed[k] == Some(projects@[k]@),
        decreases all.len() - i,
    {
        assert(cut(text@, all@)[i as int] == all@[i as int].of(text@));
        let raw = match RawProject::from_str(slice(text, ascii, all[i])) {
            Ok(raw) => raw,
            Err(e) => {
                assert(parsed[i as int] is None);
                return Err(e);
            },
        };
        match raw.process(staffs) {
            Ok(project) => projects.push(project),
            Err(e) => {
                assert(parsed[i as int] is None);
                return Err(e);
            },
        }
        i += 1;
    }
    assert(project_views(projects@) =~= gather(parsed).unwrap());
    Ok(projects)
}

/// Reads the student file against the projects already read.
fn read_students(text: &str, projects: &Vec<Project>) -> (r: Result<Vec<Student>, ParseError>)
    ensures
        match r {
            Ok(students) => students_of_text(text@, project_views(projects@)) == Some(
                student_views(students@),
            ),
            Err(_) => students_of_text(text@, project_views(projects@)) is None,
        },
{
    let chars = chars_of(text);
    let ascii = text.is_ascii();
    let all = split_lines(&chars);
    let ghost known = project_views(projects@);
    let ghost parsed = student_entries(text@, known);
    let mut students: Vec<Student> = Vec::new();
    let mut i: usize = 0;
    while i < all.len()
        invariant
            i <= all.len(),
            ascii ==> is_ascii(text),
            spans_within(all@, text@.len()),
            cut(text@, all@) == lines(text@),
            known == project_views(projects@),
            parsed == student_entries(text@, known),
            students.len() == i,
            forall|k: int| 0 <= k < i ==> #[trigger] parsed[k] == Some(students@[k]@),
        decreases all.len() - i,
    {
        assert(cut(text@, all@)[i as int] == all@[i as int].of(text@));
        let raw = match RawStudent::from_str(slice(text, ascii, all[i])) {
            Ok(raw) => raw,
            Err(e) => {
                assert(parsed[i as int] is None);
                return Err(e);
            },
        };
        match raw.process(projects) {
            Ok(student) => students.push(student),
            Err(e) => {
                assert(parsed[i as int] is None);
                return Err(e);
            },
        }
        i += 1;
    }
    assert(student_views(students@) =~= gather(parsed).unwrap());
    Ok(students)
}

impl Problem {
    /// Every key in the problem names a record of the problem.
    pub open spec fn wf(&self) -> bool {
        self@.wf()
    }

    /// Reads a problem from the contents of the staff file, the project file
    /// and the student file.
    pub fn from_files(staffs: &str, projects: &str, students: &str) -> (r: Result<
        Self,
        ParseError,
    >)
        ensures
            match r {
                Ok(problem) => problem_of_texts(staffs@, projects@, students@) == Some(problem@)
                    && problem.wf(),
                Err(_) => problem_of_texts(staffs@, projects@, students@) is None,
            },
    {
        let staffs_read = read_staffs(staffs)?;
        let projects_read = read_projects(projects, &staffs_read)?;
        let students_read = read_students(students, &projects_read)?;
        proof {
            lemma_problem_of_texts_wf(staffs@, projects@, students@);
        }
        Ok(Problem { staffs: staffs_read, projects: projects_read, students: students_read })
    }
}

/// What one student has been given so far: possibly a project, possibly a
/// supervisor.
#[derive(Debug, Clone, Copy)]
pub struct IncompleteAllocation {
    pub student: RcKey<Student>,
    pub project: Option<RcKey<Project>>,
    pub supervisor: Option<RcKey<Staff>>,
}

/// The position of a student among the students, and the positions of the
/// project and the supervisor they have been given, if any.
pub struct IncompleteAllocationView {
    pub student: nat,
    pub project: Option<nat>,
    pub supervisor: Option<nat>,
}

impl View for IncompleteAllocation {
    type V = IncompleteAllocationView;

    open spec fn view(&self) -> IncompleteAllocationView {
        IncompleteAllocationView {
            student: self.student@,
            project: match self.project {
                Some(key) => Some(key@),
                None => None,
            },
            supervisor: match self.supervisor {
                Some(key) => Some(key@),
                None => None,
            },
        }
    }
}

/// A student with the project and the supervisor they were given.
#[derive(Debug, Clone, Copy)]
pub struct Allocation {
    pub student: RcKey<Student>,
    pub project: RcKey<Project>,
    pub supervisor: RcKey<Staff>,
}

/// The positions of a student, their project and their supervisor.
pub struct AllocationView {
    pub student: nat,
    pub project: nat,
    pub supervisor: nat,
}

impl View for Allocation {
    type V = AllocationView;

    open spec fn view(&self) -> AllocationView {
        AllocationView {
            student: self.student@,
            project: self.project@,
            supervisor: self.supervisor@,
        }
    }
}

impl AllocationView {
    /// The three keys name records of `problem`.
    pub open spec fn within(self, problem: ProblemView) -> bool {
        &&& self.student < problem.students.len()
        &&& self.project < problem.projects.len()
        &&& self.supervisor < problem.staffs.len()
    }
}

impl IncompleteAllocationView {
    /// The allocation, when both the project and the supervisor are there.
    pub open spec fn complete(self) -> Option<AllocationView> {
        match (self.project, self.supervisor) {
            (Some(project), Some(supervisor)) => Some(
                AllocationView { student: self.student, project, supervisor },
            ),
            _ => None,
        }
    }
}

impl IncompleteAllocation {
    /// The allocation, when both the project and the supervisor are there.
    pub fn complete(self) -> (r: Option<Allocation>)
        ensures
            match r {
                Some(allocation) => self@.complete() == Some(allocation@),
                None => self@.complete() is None,
            },
    {
        let Some(project) = self.project else {
            return None;
        };
        let Some(supervisor) = self.supervisor else {
            return None;
        };
        Some(Allocation { student: self.student, project, supervisor })
    }
}

/// What a sequence of allocations holds.
pub open spec fn allocation_views(v: Seq<Allocation>) -> Seq<AllocationView> {
    v.map_values(|a: Allocation| a@)
}

/// The allocations of one run, with the problem that their keys refer to.
#[derive(Debug)]
pub struct Solution {
    pub problem: Problem,
    pub allocations: Vec<Allocation>,
}

/// What a solution holds.
pub struct SolutionView {
    pub problem: ProblemView,
    pub allocations: Seq<AllocationView>,
}

impl View for Solution {
    type V = SolutionView;

    open spec fn view(&self) -> SolutionView {
        SolutionView { problem: self.problem@, allocations: allocation_views(self.allocations@) }
    }
}

impl SolutionView {
    /// Every allocation names records of the problem.
    pub open spec fn wf(self) -> bool {
        forall|k: int|
            0 <= k < self.allocations.len() ==> (#[trigger] self.allocations[k]).within(
                self.problem,
            )
    }
}

impl Solution {
    /// Every allocation names records of the problem.
    pub open spec fn wf(&self) -> bool {
        self@.wf()
    }
}

/// What the student's wish is worth: 4 for the project they ranked first,
/// 3 for the second, 2 for the third, 1 for the fourth, and nothing for any
/// other project. A project ranked more than once counts where it comes
/// first.
pub open spec fn preference_term(choices: Seq<nat>, project: nat) -> nat {
    if choices.len() > 0 && choices[0] == project {
        4
    } else if choices.len() > 1 && choices[1] == project {
        3
    } else if choices.len() > 2 && choices[2] == project {
        2
    } else if choices.len() > 3 && choices[3] == project {
        1
    } else {
        0
    }
}

/// What the supervisor's fit is worth: 4 for the project's proposer,
/// otherwise 2 for a member of staff who supervises the project's subject
/// area, otherwise nothing.
pub open spec fn supervisor_term(project: ProjectView, key: nat, supervisor: StaffView) -> nat {
    if project.proposer == key {
        4
    } else if supervisor.subject_areas.contains(project.subject_area) {
        2
    } else {
        0
    }
}

/// The score of one allocation: the two terms added.
pub open spec fn allocation_score(problem: ProblemView, a: AllocationView) -> nat {
    preference_term(problem.students[a.student as int].choices, a.project) + supervisor_term(
        problem.projects[a.project as int],
        a.supervisor,
        problem.staffs[a.supervisor as int],
    )
}

/// The score of a solution: the scores of its allocations added.
pub open spec fn total_score(problem: ProblemView, allocations: Seq<AllocationView>) -> nat
    decreases allocations.len(),
{
    if allocations.len() == 0 {
        0
    } else {
        total_score(problem, allocations.drop_last()) + allocation_score(
            problem,
            allocations.last(),
        )
    }
}

/// A student who is given the project that first occurs at rank `n` of
/// their list, for `n` from 1 to 4, earns `5 - n` for it.
pub proof fn lemma_preference_term_ranked(choices: Seq<nat>, project: nat, n: int)
    requires
        1 <= n <= 4,
        n <= choices.len(),
        choices[n - 1] == project,
        forall|m: int| 0 <= m < n - 1 ==> choices[m] != project,
    ensures
        preference_term(choices, project) == 5 - n,
{
}

/// A student who is given a project that is not among the first four of
/// their list earns nothing for it; so does one whose list does not hold
/// the project at all.
pub proof fn lemma_preference_term_unranked(choices: Seq<nat>, project: nat)
    requires
        forall|m: int| 0 <= m < choices.len() && m < 4 ==> choices[m] != project,
    ensures
        preference_term(choices, project) == 0,
{
}

/// An allocation scores at most 8.
pub proof fn lemma_allocation_score_bound(problem: ProblemView, a: AllocationView)
    ensures
        allocation_score(problem, a) <= 8,
{
}

/// An allocation scores 0, 2, 4, 6 or 8 unless the student was given the
/// project that first occurs second or fourth in their list.
pub proof fn lemma_allocation_score_even(problem: ProblemView, a: AllocationView)
    requires
        preference_term(problem.students[a.student as int].choices, a.project) != 3,
        preference_term(problem.students[a.student as int].choices, a.project) != 1,
    ensures
        allocation_score(problem, a) == 0 || allocation_score(problem, a) == 2
            || allocation_score(problem, a) == 4 || allocation_score(problem, a) == 6
            || allocation_score(problem, a) == 8,
{
}

/// A solution scores at most 8 for each allocation, and no less than any
/// of its beginnings.
pub proof fn lemma_total_score_bound(
    problem: ProblemView,
    allocations: Seq<AllocationView>,
    k: int,
)
    requires
        0 <= k <= allocations.len(),
    ensures
        total_score(problem, allocations.take(k)) <= total_score(problem, allocations),
        total_score(problem, allocations) <= 8 * allocations.len(),
    decreases allocations.len(),
{
    if allocations.len() > 0 {
        let rest = allocations.drop_last();
        if k < allocations.len() {
            lemma_total_score_bound(problem, rest, k);
            assert(rest.take(k) =~= allocations.take(k));
        } else {
            lemma_total_score_bound(problem, rest, k - 1);
            assert(allocations.take(k) =~= allocations);
        }
    } else {
        assert(allocations.take(k) =~= allocations);
    }
}

/// The report line of an allocation: the student's identifier, the
/// project's number and the supervisor's identifier, with one space between
/// them.
pub open spec fn allocation_line(problem: ProblemView, a: AllocationView) -> Seq<char> {
    problem.students[a.student as int].id + seq![' '] + decimal(
        problem.projects[a.project as int].id,
    ) + seq![' '] + problem.staffs[a.supervisor as int].id
}

/// The report lines of the allocations, in the order of the allocations.
pub open spec fn allocation_lines(problem: ProblemView, allocations: Seq<AllocationView>) -> Seq<
    Seq<char>,
> {
    allocations.map_values(|a: AllocationView| allocation_line(problem, a))
}

/// The lines one after the other, each followed by a line feed.
pub open spec fn with_line_ends(lines: Seq<Seq<char>>) -> Seq<char>
    decreases lines.len(),
{
    if lines.len() == 0 {
        Seq::empty()
    } else {
        with_line_ends(lines.drop_last()) + lines.last() + seq!['\n']
    }
}

/// The report: the lines of the allocations in ascending order, each
/// followed by a line feed, then the total score with nothing after it.
pub open spec fn report(problem: ProblemView, allocations: Seq<AllocationView>) -> Seq<char> {
    with_line_ends(sorted_lines(allocation_lines(problem, allocations))) + decimal(
        total_score(problem, allocations),
    )
}

impl Allocation {
    /// The score of the allocation.
    pub fn score(&self, problem: &Problem) -> (r: u32)
        requires
            self@.within(problem@),
        ensures
            r == allocation_score(problem@, self@),
            r <= 8,
    {
        let choices = &problem.students[self.student.index()].choices;
        let project = &problem.projects[self.project.index()];
        let supervisor = &problem.staffs[self.supervisor.index()];
        let mut score: u32 = 0;
        if choices.len() > 0 && choices[0] == self.project {
            score += 4;
        } else if choices.len() > 1 && choices[1] == self.project {
            score += 3;
        } else if choices.len() > 2 && choices[2] == self.project {
            score += 2;
        } else if choices.len() > 3 && choices[3] == self.project {
            score += 1;
        }
        if project.proposer == self.supervisor {
            score += 4;
        } else if supervisor.supervises(&project.subject_area) {
            score += 2;
        }
        score
    }

    /// The report line.
    pub fn to_string(&self, problem: &Problem) -> (s: String)
        requires
            self@.within(problem@),
        ensures
            s@ == allocation_line(problem@, self@),
    {
        proof {
            reveal_strlit(" ");
        }
        let mut s = String::new();
        s.append(problem.students[self.student.index()].studentID.as_str());
        s.append(" ");
        push_decimal(&mut s, problem.projects[self.project.index()].projectID);
        s.append(" ");
        s.append(problem.staffs[self.supervisor.index()].staffID.as_str());
        assert(s@ =~= allocation_line(problem@, self@));
        s
    }
}

impl Solution {
    /// The total score: the scores of the allocations added.
    pub fn score(&self) -> (r: u32)
        requires
            self.wf(),
            total_score(self@.problem, self@.allocations) <= u32::MAX,
        ensures
            r == total_score(self@.problem, self@.allocations),
    {
        let ghost all = self@.allocations;
        let mut total: u32 = 0;
        let mut i: usize = 0;
        while i < self.allocations.len()
            invariant
                i <= self.allocations.len(),
                all == self@.allocations,
                self.wf(),
                total_score(self@.problem, all) <= u32::MAX,
                total == total_score(self@.problem, all.take(i as int)),
            decreases self.allocations.len() - i,
        {
            proof {
                assert(all.take(i + 1).drop_last() =~= all.take(i as int));
                lemma_total_score_bound(self@.problem, all, i + 1);
                assert(all[i as int].within(self@.problem));
            }
            total += self.allocations[i].score(&self.problem);
            i += 1;
        }
        assert(all.take(i as int) =~= all);
        total
    }

    /// The report: one line for each allocation, in ascending order, then
    /// the total score.
    pub fn to_string(&self) -> (s: String)
        requires
            self.wf(),
            total_score(self@.problem, self@.allocations) <= u32::MAX,
        ensures
            s@ == report(self@.problem, self@.allocations),
    {
        let ghost all = self@.allocations;
        let ghost given = allocation_lines(self@.problem, all);
        let mut lines: Vec<String> = Vec::new();
        let mut i: usize = 0;
        while i < self.allocations.len()
            invariant
                i <= self.allocations.len(),
                all == self@.allocations,
                given == allocation_lines(self@.problem, all),
                self.wf(),
                texts(lines@) == given.take(i as int),
            decreases self.allocations.len() - i,
        {
            let ghost before = texts(lines@);
            assert(all[i as int].within(self@.problem));
            lines.push(self.allocations[i].to_string(&self.problem));
            assert(texts(lines@) =~= before.push(given[i as int]));
            assert(given.take(i + 1) =~= before.push(given[i as int]));
            i += 1;
        }
        assert(given.take(i as int) =~= given);
        let sorted = sort_lines(lines);
        let ghost ordered = sorted_lines(given);
        proof {
            reveal_strlit("\n");
        }
        let mut out = String::new();
        let mut k: usize = 0;
        while k < sorted.len()
            invariant
                k <= sorted.len(),
                texts(sorted@) == ordered,
                "\n"@ == seq!['\n'],
                out@ == with_line_ends(ordered.take(k as int)),
            decreases sorted.len() - k,
        {
            proof {
                assert(ordered.take(k + 1).drop_last() =~= ordered.take(k as int));
                assert(ordered.take(k + 1).last() == sorted@[k as int]@);
            }
            out.append(sorted[k].as_str());
            out.append("\n");
            k += 1;
        }
        assert(ordered.take(k as int) =~= ordered);
        push_decimal(&mut out, self.score());
        out
    }
}

} // verus!
