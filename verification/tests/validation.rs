use gale_shapley::MatchError;
use gale_shapley::match_students_to_schools;
use gale_shapley::validate_inputs;

#[test]
fn zero_schools_is_shape_error() {
    let students: Vec<Vec<usize>> = vec![vec![]];
    let schools: Vec<Vec<usize>> = vec![];
    let caps: Vec<usize> = vec![];
    assert_eq!(validate_inputs(&students, &schools, &caps), Err(MatchError::InputShapeError));
}

#[test]
fn zero_students_is_shape_error() {
    let students: Vec<Vec<usize>> = vec![];
    let schools: Vec<Vec<usize>> = vec![vec![]];
    let caps: Vec<usize> = vec![1];
    assert_eq!(validate_inputs(&students, &schools, &caps), Err(MatchError::InputShapeError));
}

#[test]
fn capacity_count_mismatch_is_shape_error() {
    // two schools but a capacity list of length one must fail before any
    // school record is built
    let students = vec![vec![0], vec![1]];
    let schools = vec![vec![0], vec![0]];
    let caps = vec![1];
    assert_eq!(validate_inputs(&students, &schools, &caps), Err(MatchError::InputShapeError));
    assert_eq!(
        match_students_to_schools(students, schools, caps),
        Err(MatchError::InputShapeError)
    );
}

#[test]
fn duplicate_in_school_preferences() {
    let students = vec![vec![0]];
    let schools = vec![vec![0, 0]];
    let caps = vec![1];
    assert_eq!(validate_inputs(&students, &schools, &caps), Err(MatchError::DuplicateEntryError));
}

#[test]
fn out_of_range_student_id_in_school_preferences() {
    let students = vec![vec![0]];
    let schools = vec![vec![0, 5]];
    let caps = vec![1];
    assert_eq!(validate_inputs(&students, &schools, &caps), Err(MatchError::OutOfRangeIdError));
}

#[test]
fn duplicate_in_student_preferences() {
    let students = vec![vec![0, 0]];
    let schools = vec![vec![0]];
    let caps = vec![1];
    assert_eq!(validate_inputs(&students, &schools, &caps), Err(MatchError::DuplicateEntryError));
}

#[test]
fn out_of_range_school_id_in_student_preferences() {
    let students = vec![vec![0, 7]];
    let schools = vec![vec![0]];
    let caps = vec![1];
    assert_eq!(validate_inputs(&students, &schools, &caps), Err(MatchError::OutOfRangeIdError));
}

#[test]
fn zero_capacity_is_invalid() {
    let students = vec![vec![0]];
    let schools = vec![vec![0]];
    let caps = vec![0];
    assert_eq!(validate_inputs(&students, &schools, &caps), Err(MatchError::InvalidCapacityError));
}

#[test]
fn duplicate_reported_before_out_of_range_in_same_list() {
    // one list violating both rules: duplicates are checked first
    let students = vec![vec![0]];
    let schools = vec![vec![9, 9]];
    let caps = vec![1];
    assert_eq!(validate_inputs(&students, &schools, &caps), Err(MatchError::DuplicateEntryError));
}

#[test]
fn school_lists_checked_before_student_lists() {
    // the student list has a duplicate, the school list an out-of-range
    // id; school lists are validated first
    let students = vec![vec![0, 0]];
    let schools = vec![vec![3]];
    let caps = vec![1];
    assert_eq!(validate_inputs(&students, &schools, &caps), Err(MatchError::OutOfRangeIdError));
}

#[test]
fn list_checks_come_before_capacity_check() {
    let students = vec![vec![0, 0]];
    let schools = vec![vec![0]];
    let caps = vec![0];
    assert_eq!(validate_inputs(&students, &schools, &caps), Err(MatchError::DuplicateEntryError));
}

#[test]
fn revalidating_malformed_input_gives_identical_error() {
    let students = vec![vec![1, 1, 0]];
    let schools = vec![vec![0], vec![0]];
    let caps = vec![1, 1];
    let first = validate_inputs(&students, &schools, &caps);
    let second = validate_inputs(&students, &schools, &caps);
    let third = validate_inputs(&students, &schools, &caps);
    assert_eq!(first, Err(MatchError::DuplicateEntryError));
    assert_eq!(first, second);
    assert_eq!(second, third);
}

#[test]
fn well_formed_inputs_pass() {
    let students = vec![vec![0, 1], vec![1]];
    let schools = vec![vec![0, 1], vec![1, 0]];
    let caps = vec![1, 2];
    assert_eq!(validate_inputs(&students, &schools, &caps), Ok(()));
}

#[test]
fn empty_preference_lists_are_well_formed() {
    let students = vec![vec![]];
    let schools = vec![vec![]];
    let caps = vec![3];
    assert_eq!(validate_inputs(&students, &schools, &caps), Ok(()));
}
