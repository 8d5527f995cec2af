//! From the contents of the three input files to the text of the report.
use crate::error::ProgramError;
use crate::matching::{lemma_solution_sound, solution_of};
use crate::representation::{
    lemma_total_score_bound, problem_of_texts, report, student_entries, total_score, Problem,
};
use crate::solution::solve;
use crate::text::{lemma_lines_len, lines};
use vstd::prelude::*;

verus! {

/// The number of student lines up to which the total score is sure to fit
/// 32 bits: each student earns 8 points at most.
pub const MAX_STUDENTS: usize = 0x1fff_ffff;

/// The total score of what the three files describe fits 32 bits. Input
/// that does not parse has no score, and fits.
pub open spec fn score_fits(staffs: Seq<char>, projects: Seq<char>, students: Seq<char>) -> bool {
    match problem_of_texts(staffs, projects, students) {
        Some(problem) => match solution_of(problem) {
            Some(allocations) => total_score(problem, allocations) <= u32::MAX,
            None => true,
        },
        None => true,
    }
}

/// The score fits whenever the student file has no more than `MAX_STUDENTS`
/// lines, and so whenever it has no more than `MAX_STUDENTS` characters.
pub proof fn lemma_score_fits(staffs: Seq<char>, projects: Seq<char>, students: Seq<char>)
    requires
        lines(students).len() <= MAX_STUDENTS || students.len() <= MAX_STUDENTS,
    ensures
        score_fits(staffs, projects, students),
{
    lemma_lines_len(students);
    if let Some(problem) = problem_of_texts(staffs, projects, students) {
        assert(problem.students.len() == student_entries(students, problem.projects).len());
        lemma_solution_sound(problem);
        if let Some(allocations) = solution_of(problem) {
            lemma_total_score_bound(problem, allocations, 0);
        }
    }
}

/// Reads the problem from the contents of the staff file, the project file
/// and the student file, allocates, and renders the report.
///
/// Input that does not parse gives `ProgramError::ParseError`. Input that
/// parses always has a solution, so no other error comes out.
pub fn compute(staffs_file: String, projects_file: String, students_file: String) -> (r: Result<
    String,
    ProgramError,
>)
    requires
        score_fits(staffs_file@, projects_file@, students_file@),
    ensures
        match problem_of_texts(staffs_file@, projects_file@, students_file@) {
            Some(problem) => solution_of(problem) matches Some(allocations) && r matches Ok(text)
                && text@ == report(problem, allocations),
            None => r matches Err(ProgramError::ParseError),
        },
{
    let problem = match Problem::from_files(
        staffs_file.as_str(),
        projects_file.as_str(),
        students_file.as_str(),
    ) {
        Ok(problem) => problem,
        Err(e) => {
            return Err(ProgramError::from(e));
        },
    };
    let solution = match solve(problem) {
        Ok(solution) => solution,
        Err(e) => {
            return Err(ProgramError::from(e));
        },
    };
    Ok(solution.to_string())
}

} // verus!
