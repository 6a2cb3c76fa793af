//! Structural validation of the three raw inputs.
//!
//! Validation runs before any algorithm state exists and either accepts the
//! inputs or reports exactly one typed failure, found in a fixed
//! deterministic order: zero schools, zero students, capacity-count
//! mismatch, then each school's list (duplicates before out-of-range ids),
//! then each student's list (likewise), then non-positive capacities.

use vstd::prelude::*;

verus! {

/// The typed validation failures. The matching engine itself cannot fail:
/// every id it touches was range-checked beforehand.
#[derive(Clone, Copy, Debug, PartialEq, Eq, Structural)]
pub enum MatchError {
    /// Zero schools, zero students, or capacity-count/school-count mismatch.
    InputShapeError,
    /// A preference list contains the same id twice.
    DuplicateEntryError,
    /// A preference list references an id outside the valid range.
    OutOfRangeIdError,
    /// A capacity value is not positive.
    InvalidCapacityError,
}

/// The sequence holds some id twice.
pub open spec fn has_dup(s: Seq<usize>) -> bool {
    exists|i: int, j: int| 0 <= i < j < s.len() && s[i] == s[j]
}

/// Every id in the sequence lies below `n`.
pub open spec fn ids_in_range(s: Seq<usize>, n: int) -> bool {
    forall|i: int| 0 <= i < s.len() ==> s[i] < n
}

/// A preference list is well-formed: duplicate-free with all ids below `n`.
pub open spec fn list_ok(s: Seq<usize>, n: int) -> bool {
    !has_dup(s) && ids_in_range(s, n)
}

/// First failure among the preference lists from index `i` on, checking each
/// list for duplicates before out-of-range ids, lists in ascending order.
pub open spec fn check_lists(lists: Seq<Seq<usize>>, n: int, i: int) -> Result<(), MatchError>
    decreases lists.len() - i,
{
    if i < 0 || i >= lists.len() {
        Ok(())
    } else if has_dup(lists[i]) {
        Err(MatchError::DuplicateEntryError)
    } else if !ids_in_range(lists[i], n) {
        Err(MatchError::OutOfRangeIdError)
    } else {
        check_lists(lists, n, i + 1)
    }
}

/// Some capacity is zero.
pub open spec fn has_zero_cap(caps: Seq<usize>) -> bool {
    exists|i: int| 0 <= i < caps.len() && caps[i] == 0
}

/// The outcome of validation as a function of the inputs alone: either
/// `Ok(())` or the first typed failure in the fixed checking order.
pub open spec fn spec_validate(
    student_prefs: Seq<Seq<usize>>,
    school_prefs: Seq<Seq<usize>>,
    caps: Seq<usize>,
) -> Result<(), MatchError> {
    if school_prefs.len() == 0 {
        Err(MatchError::InputShapeError)
    } else if student_prefs.len() == 0 {
        Err(MatchError::InputShapeError)
    } else if caps.len() != school_prefs.len() {
        Err(MatchError::InputShapeError)
    } else {
        match check_lists(school_prefs, student_prefs.len() as int, 0) {
            Err(e) => Err(e),
            Ok(()) => match check_lists(student_prefs, school_prefs.len() as int, 0) {
                Err(e) => Err(e),
                Ok(()) => if has_zero_cap(caps) {
                    Err(MatchError::InvalidCapacityError)
                } else {
                    Ok(())
                },
            },
        }
    }
}

/// All inputs passed validation: every list on both sides is well-formed and
/// every capacity is positive.
pub open spec fn valid_inputs(
    student_prefs: Seq<Seq<usize>>,
    school_prefs: Seq<Seq<usize>>,
    caps: Seq<usize>,
) -> bool {
    &&& student_prefs.len() >= 1
    &&& school_prefs.len() >= 1
    &&& caps.len() == school_prefs.len()
    &&& forall|s: int| 0 <= s < student_prefs.len() ==> list_ok(
        student_prefs[s],
        school_prefs.len() as int,
    )
    &&& forall|t: int| 0 <= t < school_prefs.len() ==> list_ok(
        school_prefs[t],
        student_prefs.len() as int,
    )
    &&& forall|t: int| 0 <= t < caps.len() ==> caps[t] >= 1
}

/// A run of `check_lists` that reaches the end without a failure certifies
/// every list from `i` on; and conversely.
proof fn lemma_check_lists_ok(lists: Seq<Seq<usize>>, n: int, i: int)
    requires
        0 <= i,
    ensures
        check_lists(lists, n, i) is Ok <==> forall|k: int|
            i <= k < lists.len() ==> #[trigger] list_ok(lists[k], n),
    decreases lists.len() - i,
{
    if 0 <= i < lists.len() {
        lemma_check_lists_ok(lists, n, i + 1);
        if has_dup(lists[i]) || !ids_in_range(lists[i], n) {
            assert(!list_ok(lists[i], n));
            assert(check_lists(lists, n, i) is Err);
        } else {
            assert(check_lists(lists, n, i) == check_lists(lists, n, i + 1));
            if check_lists(lists, n, i + 1) is Ok {
                assert forall|k: int| i <= k < lists.len() implies #[trigger] list_ok(
                    lists[k],
                    n,
                ) by {
                    if k == i {
                        assert(!has_dup(lists[i]) && ids_in_range(lists[i], n));
                    }
                }
            } else {
                let k0 = choose|k: int|
                    i + 1 <= k < lists.len() && !(#[trigger] list_ok(lists[k], n));
                assert(!list_ok(lists[k0], n));
            }
        }
    }
}

/// Validation succeeds exactly on inputs that `valid_inputs` accepts.
pub proof fn lemma_spec_validate_ok(
    student_prefs: Seq<Seq<usize>>,
    school_prefs: Seq<Seq<usize>>,
    caps: Seq<usize>,
)
    ensures
        spec_validate(student_prefs, school_prefs, caps) is Ok <==> valid_inputs(
            student_prefs,
            school_prefs,
            caps,
        ),
{
    lemma_check_lists_ok(school_prefs, student_prefs.len() as int, 0);
    lemma_check_lists_ok(student_prefs, school_prefs.len() as int, 0);
    if spec_validate(student_prefs, school_prefs, caps) is Ok {
        assert(!has_zero_cap(caps));
        assert forall|t: int| 0 <= t < caps.len() implies caps[t] >= 1 by {
            assert(caps[t] != 0);
        }
    }
}

/// The list holds no duplicate id.
fn list_has_no_dup(l: &Vec<usize>) -> (r: bool)
    ensures
        r == !has_dup(l@),
{
    let n = l.len();
    for i in 0..n
        invariant
            n == l@.len(),
            forall|a: int, b: int| 0 <= a < b < l@.len() && a < i ==> l@[a] != l@[b],
    {
        let mut j = i + 1;
        while j < n
            invariant
                n == l@.len(),
                i < j <= n,
                forall|b: int| i < b < j ==> l@[i as int] != l@[b],
                forall|a: int, b: int| 0 <= a < b < l@.len() && a < i ==> l@[a] != l@[b],
            decreases n - j,
        {
            if l[i] == l[j] {
                assert(has_dup(l@));
                return false;
            }
            j = j + 1;
        }
    }
    true
}

/// Every id in the list lies below `n`.
fn list_ids_in_range(l: &Vec<usize>, n: usize) -> (r: bool)
    ensures
        r == ids_in_range(l@, n as int),
{
    let len = l.len();
    for i in 0..len
        invariant
            len == l@.len(),
            forall|k: int| 0 <= k < i ==> l@[k] < n,
    {
        if l[i] >= n {
            return false;
        }
    }
    true
}

/// Check the lists in ascending order, reporting the first list that has a
/// duplicate or an out-of-range id.
fn check_pref_lists(lists: &Vec<Vec<usize>>, n: usize) -> (r: Result<(), MatchError>)
    ensures
        r == check_lists(lists.deep_view(), n as int, 0),
{
    let len = lists.len();
    for i in 0..len
        invariant
            len == lists@.len(),
            lists.deep_view().len() == lists@.len(),
            forall|k: int| 0 <= k < lists@.len() ==> lists.deep_view()[k] == lists@[k]@,
            check_lists(lists.deep_view(), n as int, 0) == check_lists(
                lists.deep_view(),
                n as int,
                i as int,
            ),
    {
        if !list_has_no_dup(&lists[i]) {
            return Err(MatchError::DuplicateEntryError);
        }
        if !list_ids_in_range(&lists[i], n) {
            return Err(MatchError::OutOfRangeIdError);
        }
    }
    Ok(())
}

/// Check the three raw inputs for structural well-formedness in the fixed
/// deterministic order, returning the first typed failure found, if any.
/// The result is a function of the inputs alone, so re-validating identical
/// input always yields the identical outcome.
pub fn validate_inputs(
    student_preferences: &Vec<Vec<usize>>,
    school_preferences: &Vec<Vec<usize>>,
    school_capacities: &Vec<usize>,
) -> (r: Result<(), MatchError>)
    ensures
        r == spec_validate(
            student_preferences.deep_view(),
            school_preferences.deep_view(),
            school_capacities@,
        ),
        r is Ok <==> valid_inputs(
            student_preferences.deep_view(),
            school_preferences.deep_view(),
            school_capacities@,
        ),
{
    proof {
        lemma_spec_validate_ok(
            student_preferences.deep_view(),
            school_preferences.deep_view(),
            school_capacities@,
        );
    }
    let num_students = student_preferences.len();
    let num_schools = school_preferences.len();
    if num_schools == 0 {
        return Err(MatchError::InputShapeError);
    }
    if num_students == 0 {
        return Err(MatchError::InputShapeError);
    }
    if school_capacities.len() != num_schools {
        return Err(MatchError::InputShapeError);
    }
    if let Err(e) = check_pref_lists(school_preferences, num_students) {
        return Err(e);
    }
    if let Err(e) = check_pref_lists(student_preferences, num_schools) {
        return Err(e);
    }
    let caps_len = school_capacities.len();
    for t in 0..caps_len
        invariant
            caps_len == school_capacities@.len(),
            forall|k: int| 0 <= k < t ==> school_capacities@[k] != 0,
    {
        if school_capacities[t] == 0 {
            assert(has_zero_cap(school_capacities@));
            return Err(MatchError::InvalidCapacityError);
        }
    }
    Ok(())
}

} // verus!
