use project_allocation::representation::ParseError;
use project_allocation::solution::SolutionError;
use project_allocation::{FileHandlingError, FileMode, ProgramError};

#[test]
fn read_error_names_the_file() {
    let e = FileHandlingError::read_error("staff");
    assert_eq!(e.name, "staff");
    assert!(matches!(e.mode, FileMode::Read));
    assert_eq!(e.to_string(), "Failed to read the staff file.");
}

#[test]
fn write_error_names_the_file() {
    let e = FileHandlingError::write_error("output");
    assert_eq!(e.name, "output");
    assert!(matches!(e.mode, FileMode::Write));
    assert_eq!(e.to_string(), "Failed to write the output file.");
}

#[test]
fn program_error_wraps_a_file_error() {
    let e = ProgramError::from(FileHandlingError::read_error("projects"));
    assert!(matches!(e, ProgramError::FileHandlingError(_)));
    assert_eq!(e.to_string(), "Failed to read the projects file.");
}

#[test]
fn program_error_from_parse_error() {
    let e = ProgramError::from(ParseError);
    assert!(matches!(e, ProgramError::ParseError));
    assert_eq!(e.to_string(), "Failed to parse file.");
}

#[test]
fn program_error_from_solution_error() {
    let e = ProgramError::from(SolutionError);
    assert!(matches!(e, ProgramError::SolutionError));
    assert_eq!(e.to_string(), "The solution failed due to programmer error.");
}

#[test]
fn wrong_number_of_arguments_has_its_own_message() {
    assert_eq!(
        ProgramError::WrongNumberOfArguments.to_string(),
        "Must enter exactly 4 arguments."
    );
}
