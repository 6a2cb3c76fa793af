use gale_shapley::match_students_to_schools;

fn position(list: &[usize], id: usize) -> Option<usize> {
    list.iter().position(|&x| x == id)
}

/// Check the no-blocking-pair property by brute force: whenever a student
/// prefers a school to its assignment and that school ranks the student,
/// the school must be full of strictly better-ranked students.
fn assert_stable(
    students: &[Vec<usize>],
    schools: &[Vec<usize>],
    caps: &[usize],
    result: &[Option<usize>],
) {
    for (s, prefs) in students.iter().enumerate() {
        let matched_pos = result[s].map(|t| position(prefs, t).expect("match must be listed"));
        let preferred_end = matched_pos.unwrap_or(prefs.len());
        for &t in &prefs[..preferred_end] {
            if let Some(rank_s) = position(&schools[t], s) {
                let held: Vec<usize> = (0..students.len())
                    .filter(|&x| result[x] == Some(t))
                    .collect();
                assert_eq!(held.len(), caps[t], "school {} must be full", t);
                for x in held {
                    let rank_x = position(&schools[t], x).expect("held student must be ranked");
                    assert!(rank_x < rank_s, "school {} must prefer {} to {}", t, x, s);
                }
            }
        }
    }
}

#[test]
fn two_students_two_schools_both_get_first_available_choice() {
    let students = vec![vec![0, 1], vec![0, 1]];
    let schools = vec![vec![0, 1], vec![0, 1]];
    let caps = vec![1, 1];
    let result = match_students_to_schools(students, schools, caps).unwrap();
    assert_eq!(result, vec![Some(0), Some(1)]);
}

#[test]
fn school_keeps_its_preferred_student() {
    // one school with one seat prefers student 1: student 0 proposes
    // first, is displaced, and ends up unmatched
    let students = vec![vec![0], vec![0]];
    let schools = vec![vec![1, 0]];
    let caps = vec![1];
    let result = match_students_to_schools(students, schools, caps).unwrap();
    assert_eq!(result, vec![None, Some(0)]);
}

#[test]
fn identical_inputs_give_identical_outputs() {
    let students = vec![vec![1, 0], vec![0, 1], vec![0, 1]];
    let schools = vec![vec![2, 1, 0], vec![0, 1, 2]];
    let caps = vec![1, 2];
    let first = match_students_to_schools(students.clone(), schools.clone(), caps.clone());
    let second = match_students_to_schools(students.clone(), schools.clone(), caps.clone());
    let third = match_students_to_schools(students, schools, caps);
    assert!(first.is_ok());
    assert_eq!(first, second);
    assert_eq!(second, third);
}

#[test]
fn chain_of_displacements() {
    // everyone wants school 0, which holds one seat and prefers the
    // latest proposers; each proposal displaces the current holder
    let students = vec![vec![0], vec![0], vec![0, 1]];
    let schools = vec![vec![2, 1, 0], vec![2]];
    let caps = vec![1, 1];
    let result = match_students_to_schools(students, schools, caps).unwrap();
    assert_eq!(result, vec![None, None, Some(0)]);
}

#[test]
fn capacity_two_school_admits_two_and_rejects_the_dominated() {
    let students = vec![vec![0], vec![0], vec![0]];
    let schools = vec![vec![0, 1, 2]];
    let caps = vec![2];
    let result = match_students_to_schools(students, schools, caps).unwrap();
    assert_eq!(result, vec![Some(0), Some(0), None]);
}

#[test]
fn empty_preference_list_student_stays_unmatched() {
    let students = vec![vec![], vec![0]];
    let schools = vec![vec![0, 1]];
    let caps = vec![1];
    let result = match_students_to_schools(students, schools, caps).unwrap();
    assert_eq!(result, vec![None, Some(0)]);
}

#[test]
fn unranked_student_is_rejected_everywhere() {
    // school 0 does not rank student 1 at all
    let students = vec![vec![0], vec![0]];
    let schools = vec![vec![0]];
    let caps = vec![2];
    let result = match_students_to_schools(students, schools, caps).unwrap();
    assert_eq!(result, vec![Some(0), None]);
}

#[test]
fn displaced_student_resumes_from_next_choice() {
    // student 0 is displaced from school 0 and falls back to school 1,
    // displacing nobody there
    let students = vec![vec![0, 1], vec![0]];
    let schools = vec![vec![1, 0], vec![0]];
    let caps = vec![1, 1];
    let result = match_students_to_schools(students, schools, caps).unwrap();
    assert_eq!(result, vec![Some(1), Some(0)]);
}

#[test]
fn held_sets_never_exceed_capacity_and_counts_agree() {
    let students = vec![
        vec![0, 1, 2],
        vec![0, 2, 1],
        vec![0, 1],
        vec![1, 0, 2],
        vec![2],
    ];
    let schools = vec![
        vec![4, 3, 2, 1, 0],
        vec![0, 1, 2, 3, 4],
        vec![2, 0, 3],
    ];
    let caps = vec![2, 1, 1];
    let result = match_students_to_schools(students.clone(), schools.clone(), caps.clone())
        .unwrap();
    // per-school tallies stay within capacity
    for t in 0..schools.len() {
        let held = result.iter().filter(|&&slot| slot == Some(t)).count();
        assert!(held <= caps[t], "school {} holds {} over capacity {}", t, held, caps[t]);
    }
    // total matched students equals the size of the mapping
    let matched = result.iter().filter(|slot| slot.is_some()).count();
    let held_total: usize = (0..schools.len())
        .map(|t| result.iter().filter(|&&slot| slot == Some(t)).count())
        .sum();
    assert_eq!(matched, held_total);
    assert_stable(&students, &schools, &caps, &result);
}

#[test]
fn outcomes_are_stable_matchings() {
    let students = vec![vec![1, 0], vec![1, 0], vec![1, 0], vec![0, 1]];
    let schools = vec![vec![0, 1, 2, 3], vec![3, 2, 1, 0]];
    let caps = vec![2, 1];
    let result = match_students_to_schools(students.clone(), schools.clone(), caps.clone())
        .unwrap();
    assert_stable(&students, &schools, &caps, &result);
    // school 1 keeps its favourite proposer, student 3
    assert_eq!(result[3], Some(1));
}

#[test]
fn single_student_single_school() {
    let students = vec![vec![0]];
    let schools = vec![vec![0]];
    let caps = vec![1];
    let result = match_students_to_schools(students, schools, caps).unwrap();
    assert_eq!(result, vec![Some(0)]);
}
