use project_allocation::intermediate::compute;
use project_allocation::rckey::RcKey;
use project_allocation::representation::{
    Allocation, IncompleteAllocation, Problem, Project, Solution, Staff, Student,
};
use project_allocation::solution::solve;
use project_allocation::ProgramError;

fn report(staffs: &str, projects: &str, students: &str) -> String {
    match compute(staffs.to_string(), projects.to_string(), students.to_string()) {
        Ok(text) => text,
        Err(e) => panic!("unexpected error: {}", e.to_string()),
    }
}

fn solved(staffs: &str, projects: &str, students: &str) -> Solution {
    let problem = Problem::from_files(staffs, projects, students).expect("input parses");
    match solve(problem) {
        Ok(solution) => solution,
        Err(_) => panic!("a problem read from text has a solution"),
    }
}

fn triples(solution: &Solution) -> Vec<(usize, usize, usize)> {
    solution
        .allocations
        .iter()
        .map(|a| (a.student.index(), a.project.index(), a.supervisor.index()))
        .collect()
}

#[test]
fn first_choice_with_proposer_scores_eight() {
    assert_eq!(report("S1 2 Math", "1 S1 1 Math", "A 1"), "A 1 S1\n8");
}

#[test]
fn first_choice_with_proposer_is_the_only_allocation() {
    let solution = solved("S1 2 Math", "1 S1 1 Math", "A 1");
    assert_eq!(triples(&solution), vec![(0, 0, 0)]);
    assert_eq!(solution.allocations[0].score(&solution.problem), 8);
    assert_eq!(solution.score(), 8);
}

#[test]
fn student_without_supervisor_is_dropped() {
    let solution = solved("S1 0 Math", "1 S1 1 Math", "A 1");
    assert!(solution.allocations.is_empty());
    assert_eq!(solution.score(), 0);
    assert_eq!(report("S1 0 Math", "1 S1 1 Math", "A 1"), "0");
}

#[test]
fn contested_project_goes_to_the_earlier_student() {
    let solution = solved("S1 2 Math", "1 S1 1 Math", "A 1\nB 1");
    assert_eq!(triples(&solution), vec![(0, 0, 0)]);
    assert_eq!(solution.to_string(), "A 1 S1\n8");
}

#[test]
fn loser_of_a_contested_project_falls_back_to_a_spare_one() {
    let solution = solved("S1 2 Math", "1 S1 1 Math\n2 S1 1 Art", "A 1\nB 1");
    // A takes project 1 and its proposer; B gets the spare project 2 and,
    // the proposer pass having ended, the first member of staff with load.
    assert_eq!(triples(&solution), vec![(0, 0, 0), (1, 1, 0)]);
    assert_eq!(solution.allocations[0].score(&solution.problem), 8);
    assert_eq!(solution.allocations[1].score(&solution.problem), 4);
    assert_eq!(solution.to_string(), "A 1 S1\nB 2 S1\n12");
}

#[test]
fn second_choice_scores_three_for_the_wish() {
    // Project 1 has no place, so A gets the second choice: 3 + 4.
    let solution = solved("S1 1 Math", "1 S1 0 Math\n2 S1 1 Math", "A 1 2");
    assert_eq!(triples(&solution), vec![(0, 1, 0)]);
    assert_eq!(solution.allocations[0].score(&solution.problem), 7);
    assert_eq!(solution.to_string(), "A 2 S1\n7");
}

#[test]
fn third_and_fourth_choice_score_two_and_one() {
    let staffs = "S1 2 Math";
    let projects = "1 S1 0 Math\n2 S1 0 Math\n3 S1 1 Math\n4 S1 1 Math";
    let solution = solved(staffs, projects, "A 1 2 3 4\nB 1 2 3 4");
    assert_eq!(triples(&solution), vec![(0, 2, 0), (1, 3, 0)]);
    assert_eq!(solution.allocations[0].score(&solution.problem), 2 + 4);
    assert_eq!(solution.allocations[1].score(&solution.problem), 1 + 4);
    assert_eq!(solution.score(), 11);
}

#[test]
fn fifth_choice_scores_nothing_for_the_wish() {
    let staffs = "S1 1 Math";
    let projects = "1 S1 0 Math\n2 S1 0 Math\n3 S1 0 Math\n4 S1 0 Math\n5 S1 1 Math";
    let solution = solved(staffs, projects, "A 1 2 3 4 5");
    assert_eq!(triples(&solution), vec![(0, 4, 0)]);
    assert_eq!(solution.allocations[0].score(&solution.problem), 4);
}

#[test]
fn repeated_choice_counts_where_it_comes_first() {
    let solution = solved("S1 1 Math", "1 S1 1 Math", "A 1 1");
    assert_eq!(solution.allocations[0].score(&solution.problem), 8);
}

#[test]
fn proposer_pass_ends_after_its_first_assignment() {
    let staffs = "S0 2 Math\nS1 1 Math\nS2 1 Math";
    let projects = "1 S1 1 Math\n2 S2 1 Math";
    let solution = solved(staffs, projects, "A 1\nB 2");
    // A gets the proposer S1. B's proposer S2 has load left, but the pass
    // is over: B gets S0, the first with load who supervises Math.
    assert_eq!(triples(&solution), vec![(0, 0, 1), (1, 1, 0)]);
    assert_eq!(solution.allocations[1].score(&solution.problem), 4 + 2);
    assert_eq!(solution.to_string(), "A 1 S1\nB 2 S0\n14");
}

#[test]
fn proposer_pass_skips_proposers_without_load() {
    let staffs = "S1 0 Math\nS2 1 Art";
    let projects = "1 S1 1 Math\n2 S2 1 Art";
    let solution = solved(staffs, projects, "A 1\nB 2");
    // A's proposer has no load, so the pass goes on to B and ends there.
    // Nobody is left with load for A.
    assert_eq!(triples(&solution), vec![(1, 1, 1)]);
    assert_eq!(solution.to_string(), "B 2 S2\n8");
}

#[test]
fn subject_area_pass_prefers_matching_staff() {
    let staffs = "P 0 Math\nX 1 Art\nY 1 Math";
    let solution = solved(staffs, "1 P 1 Math", "A 1");
    assert_eq!(triples(&solution), vec![(0, 0, 2)]);
    assert_eq!(solution.allocations[0].score(&solution.problem), 4 + 2);
}

#[test]
fn capacity_pass_takes_anyone_with_load() {
    let staffs = "P 0 Math\nX 1 Art";
    let solution = solved(staffs, "1 P 1 Math", "A 1");
    assert_eq!(triples(&solution), vec![(0, 0, 1)]);
    assert_eq!(solution.allocations[0].score(&solution.problem), 4);
    assert_eq!(solution.to_string(), "A 1 X\n4");
}

#[test]
fn student_without_choices_gets_a_spare_project() {
    let solution = solved("S1 1 Math", "7 S1 1 Math", "A");
    assert_eq!(triples(&solution), vec![(0, 0, 0)]);
    assert_eq!(solution.to_string(), "A 7 S1\n4");
}

#[test]
fn student_stays_without_project_when_all_are_full() {
    let solution = solved("S1 5 Math", "1 S1 0 Math", "A 1");
    assert!(solution.allocations.is_empty());
}

#[test]
fn no_project_or_staff_exceeds_its_capacity() {
    let staffs = "S1 2 Math\nS2 1 Art";
    let projects = "1 S1 2 Math\n2 S2 1 Art";
    let students = "A 1\nB 1\nC 1\nD 2\nE 2";
    let solution = solved(staffs, projects, students);
    for (p, project) in solution.problem.projects.iter().enumerate() {
        let n = solution.allocations.iter().filter(|a| a.project.index() == p).count();
        assert!(n <= project.multiplicity as usize);
    }
    for (s, staff) in solution.problem.staffs.iter().enumerate() {
        let n = solution.allocations.iter().filter(|a| a.supervisor.index() == s).count();
        assert!(n <= staff.load as usize);
    }
    for a in solution.allocations.iter() {
        assert!(a.student.index() < solution.problem.students.len());
        assert!(a.project.index() < solution.problem.projects.len());
        assert!(a.supervisor.index() < solution.problem.staffs.len());
    }
    assert_eq!(triples(&solution), vec![(0, 0, 0), (1, 0, 0), (3, 1, 1)]);
}

#[test]
fn solution_score_is_the_sum_of_allocation_scores() {
    let staffs = "S0 2 Math\nS1 1 Math\nS2 1 Math";
    let projects = "1 S1 1 Math\n2 S2 1 Math";
    let solution = solved(staffs, projects, "A 1\nB 2");
    let sum: u32 = solution.allocations.iter().map(|a| a.score(&solution.problem)).sum();
    assert_eq!(solution.score(), sum);
    assert_eq!(solution.score(), solution.score());
}

#[test]
fn report_lines_are_sorted_as_text() {
    let staffs = "S 3 Math";
    let projects = "9 S 1 Math\n10 S 1 Math\n2 S 1 Math";
    let solution = solved(staffs, projects, "Z 2\nA 9\nA 10");
    // Whoever supervises, S is the proposer of every project: 4 + 4 each.
    assert_eq!(solution.to_string(), "A 10 S\nA 9 S\nZ 2 S\n24");
}

#[test]
fn allocation_line_names_student_project_and_supervisor() {
    let solution = solved("Dr-Who 1 Time", "4294967295 Dr-Who 1 Time", "Ada 4294967295");
    assert_eq!(solution.allocations[0].to_string(&solution.problem), "Ada 4294967295 Dr-Who");
}

#[test]
fn identifiers_may_hold_any_characters() {
    let staffs = "Müller 1 Física\nŌe 1 物理";
    let projects = "3 Müller 1 Física\n4 Ōe 1 物理";
    assert_eq!(report(staffs, projects, "Zoë 4 3\nÅsa 4"), "Zoë 4 Ōe\nÅsa 3 Müller\n12");
}

#[test]
fn empty_input_gives_a_score_and_no_lines() {
    assert_eq!(report("", "", ""), "0");
}

#[test]
fn dangling_choice_fails_the_run() {
    let problem = Problem {
        staffs: vec![],
        projects: vec![],
        students: vec![Student { studentID: "A".to_string(), choices: vec![RcKey::from(3)] }],
    };
    assert!(!matches!(solve(problem), Ok(_)));
}

#[test]
fn dangling_proposer_fails_the_run() {
    let problem = Problem {
        staffs: vec![Staff { staffID: "S".to_string(), load: 1, subject_areas: vec![] }],
        projects: vec![Project {
            projectID: 1,
            proposer: RcKey::from(1),
            subject_area: "Math".to_string(),
            multiplicity: 1,
        }],
        students: vec![Student { studentID: "A".to_string(), choices: vec![RcKey::from(0)] }],
    };
    assert!(solve(problem).is_err());
}

#[test]
fn dangling_choice_behind_a_free_project_is_never_looked_up() {
    let problem = Problem {
        staffs: vec![Staff { staffID: "S".to_string(), load: 1, subject_areas: vec![] }],
        projects: vec![Project {
            projectID: 1,
            proposer: RcKey::from(0),
            subject_area: "Math".to_string(),
            multiplicity: 1,
        }],
        students: vec![Student {
            studentID: "A".to_string(),
            choices: vec![RcKey::from(0), RcKey::from(9)],
        }],
    };
    let solution = solve(problem).expect("the scan ends at the first choice");
    assert_eq!(triples(&solution), vec![(0, 0, 0)]);
}

#[test]
fn projects_with_equal_fields_are_different_records() {
    let staffs = "S 2 Math";
    let projects = "1 S 1 Math\n1 S 1 Math";
    // Both students name project number 1, which resolves to the first
    // record; the second record is only reached by the fallback pass.
    let solution = solved(staffs, projects, "A 1\nB 1");
    assert_eq!(triples(&solution), vec![(0, 0, 0), (1, 1, 0)]);
    assert_eq!(solution.allocations[1].score(&solution.problem), 4);
}

#[test]
fn complete_needs_project_and_supervisor() {
    let student: RcKey<Student> = RcKey::from(2);
    let none = IncompleteAllocation { student, project: None, supervisor: None };
    assert!(none.complete().is_none());
    let project_only =
        IncompleteAllocation { student, project: Some(RcKey::from(1)), supervisor: None };
    assert!(project_only.complete().is_none());
    let supervisor_only =
        IncompleteAllocation { student, project: None, supervisor: Some(RcKey::from(0)) };
    assert!(supervisor_only.complete().is_none());
    let both = IncompleteAllocation {
        student,
        project: Some(RcKey::from(1)),
        supervisor: Some(RcKey::from(0)),
    };
    let allocation: Allocation = both.complete().expect("both are there");
    assert_eq!(allocation.student, RcKey::from(2));
    assert_eq!(allocation.project, RcKey::from(1));
    assert_eq!(allocation.supervisor, RcKey::from(0));
}

#[test]
fn compute_reports_input_that_does_not_parse() {
    let r = compute("S1 2 Math".to_string(), "X1 S1 1 Math".to_string(), "A X1".to_string());
    assert!(matches!(r, Err(ProgramError::ParseError)));
}
