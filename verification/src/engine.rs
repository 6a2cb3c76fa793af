//! The deferred-acceptance work-list loop.
//!
//! A FIFO queue is seeded with every student id in ascending order. Each
//! dequeued student proposes to the next school on its list (advancing its
//! cursor exactly once per dequeue); the school admits into free room,
//! admits while displacing its worst held student, or rejects, and rejected
//! or displaced students re-enter the queue. The loop terminates because
//! every proposal advances a cursor that is bounded by the student's list
//! length.

use vstd::prelude::*;
use std::collections::VecDeque;
use crate::school::Decision;
use crate::school::School;
use crate::validate::has_dup;
use crate::validate::MatchError;

verus! {

/// The assignment and the held sets tell one story: student `s` is mapped
/// to school `t` exactly when `t`'s held set contains `s`.
pub open spec fn consistent(asg: Seq<Option<usize>>, schools: Seq<School>) -> bool {
    &&& forall|s: int|
        0 <= s < asg.len() && (#[trigger] asg[s]) is Some ==> {
            let t = asg[s].unwrap() as int;
            &&& 0 <= t < schools.len()
            &&& schools[t].holds(s as usize)
        }
    &&& forall|t: int, i: int|
        0 <= t < schools.len() && 0 <= i < schools[t].held@.len() ==> {
            let h = #[trigger] schools[t].held@[i];
            &&& (h as int) < asg.len()
            &&& asg[h as int] == Some(t as usize)
        }
}

/// Number of students the assignment maps somewhere.
pub open spec fn count_matched(asg: Seq<Option<usize>>) -> int
    decreases asg.len(),
{
    if asg.len() == 0 {
        0
    } else {
        count_matched(asg.drop_last()) + if asg.last() is Some {
            1int
        } else {
            0int
        }
    }
}

/// Sum of the held-set sizes across all schools.
pub open spec fn total_held(schools: Seq<School>) -> int
    decreases schools.len(),
{
    if schools.len() == 0 {
        0
    } else {
        total_held(schools.drop_last()) + schools.last().held@.len()
    }
}

/// Sum, over the students from index `i` on, of the proposals each still
/// has left (list length minus cursor). The matching loop's termination
/// measure.
pub open spec fn sum_remaining(sp: Seq<Seq<usize>>, cursors: Seq<usize>, i: int) -> int
    decreases cursors.len() - i,
{
    if i < 0 || i >= cursors.len() {
        0
    } else {
        (sp[i].len() - cursors[i]) + sum_remaining(sp, cursors, i + 1)
    }
}

/// Every held student of `sch` is ranked strictly ahead of student `s`.
pub open spec fn school_prefers_all_held(sch: School, s: int) -> bool {
    forall|i: int|
        0 <= i < sch.held@.len() ==> sch.rank_val(#[trigger] sch.held@[i] as int) < sch.rank_val(s)
}

/// A proposal student `s` already made (position `j` of its list) is
/// settled: the school does not rank `s`, or still holds `s`, or is full
/// with every held student ranked strictly ahead of `s`. Schools only ever
/// trade a held student for a better one, so this persists.
pub open spec fn proposal_settled(sp: Seq<Seq<usize>>, schools: Seq<School>, s: int, j: int) -> bool {
    let t = sp[s][j] as int;
    &&& 0 <= t < schools.len()
    &&& {
        ||| !schools[t].ranks(s)
        ||| schools[t].holds(s as usize)
        ||| (schools[t].held@.len() == schools[t].capacity && school_prefers_all_held(
            schools[t],
            s,
        ))
    }
}

/// Every proposal of student `s` before cursor position `c` is settled.
pub open spec fn settled_up_to(sp: Seq<Seq<usize>>, schools: Seq<School>, s: int, c: int) -> bool {
    forall|j: int| 0 <= j < c ==> #[trigger] proposal_settled(sp, schools, s, j)
}

/// The school at position `j` of `pref` is strictly preferred to
/// assignment `a`: the assigned school, if any, does not occur at or
/// before `j`.
pub open spec fn better_than_match(pref: Seq<usize>, j: int, a: Option<usize>) -> bool {
    match a {
        None => true,
        Some(tm) => forall|jm: int| 0 <= jm <= j ==> pref[jm] != tm,
    }
}

/// No blocking pair: whenever student `s` prefers school `t` to its
/// assignment and `t` ranks `s`, school `t` is at full capacity with every
/// held student ranked strictly ahead of `s`.
pub open spec fn stable(sp: Seq<Seq<usize>>, asg: Seq<Option<usize>>, schools: Seq<School>) -> bool {
    forall|s: int, j: int|
        0 <= s < sp.len() && 0 <= j < sp[s].len() && better_than_match(
            sp[s],
            j,
            asg[s],
        ) ==> {
            let t = #[trigger] sp[s][j] as int;
            ||| !(0 <= t < schools.len())
            ||| !schools[t].ranks(s)
            ||| (schools[t].held@.len() == schools[t].capacity && school_prefers_all_held(
                schools[t],
                s,
            ))
        }
}

/// Overwriting one assignment entry changes the matched count by the two
/// entries' difference.
proof fn lemma_count_matched_update(asg: Seq<Option<usize>>, i: int, v: Option<usize>)
    requires
        0 <= i < asg.len(),
    ensures
        count_matched(asg.update(i, v)) == count_matched(asg) - (if asg[i] is Some {
            1int
        } else {
            0int
        }) + (if v is Some {
            1int
        } else {
            0int
        }),
    decreases asg.len(),
{
    let a2 = asg.update(i, v);
    if i == asg.len() - 1 {
        assert(a2.drop_last() =~= asg.drop_last());
    } else {
        lemma_count_matched_update(asg.drop_last(), i, v);
        assert(a2.drop_last() =~= asg.drop_last().update(i, v));
        assert(a2.last() == asg.last());
    }
}

/// An assignment with no matched student has matched count zero.
proof fn lemma_count_matched_none(asg: Seq<Option<usize>>)
    requires
        forall|s: int| 0 <= s < asg.len() ==> (#[trigger] asg[s]) is None,
    ensures
        count_matched(asg) == 0,
    decreases asg.len(),
{
    if asg.len() > 0 {
        lemma_count_matched_none(asg.drop_last());
    }
}

/// Replacing one school changes the held total by the two held sizes'
/// difference.
proof fn lemma_total_held_update(schools: Seq<School>, t: int, sch: School)
    requires
        0 <= t < schools.len(),
    ensures
        total_held(schools.update(t, sch)) == total_held(schools) - schools[t].held@.len()
            + sch.held@.len(),
    decreases schools.len(),
{
    let s2 = schools.update(t, sch);
    if t == schools.len() - 1 {
        assert(s2.drop_last() =~= schools.drop_last());
    } else {
        lemma_total_held_update(schools.drop_last(), t, sch);
        assert(s2.drop_last() =~= schools.drop_last().update(t, sch));
        assert(s2.last() == schools.last());
    }
}

/// All-empty held sets sum to zero.
proof fn lemma_total_held_empty(schools: Seq<School>)
    requires
        forall|t: int| 0 <= t < schools.len() ==> (#[trigger] schools[t]).held@.len() == 0,
    ensures
        total_held(schools) == 0,
    decreases schools.len(),
{
    if schools.len() > 0 {
        lemma_total_held_empty(schools.drop_last());
    }
}

/// Two cursor sequences that agree from index `i` on give the same
/// remaining-proposal sum from `i` on.
proof fn lemma_sum_remaining_agree(sp: Seq<Seq<usize>>, c1: Seq<usize>, c2: Seq<usize>, i: int)
    requires
        c1.len() == c2.len(),
        forall|k: int| i <= k < c1.len() ==> c1[k] == c2[k],
    ensures
        sum_remaining(sp, c1, i) == sum_remaining(sp, c2, i),
    decreases c1.len() - i,
{
    if 0 <= i < c1.len() {
        lemma_sum_remaining_agree(sp, c1, c2, i + 1);
    }
}

/// Raising one cursor lowers the remaining-proposal sum by the same amount.
proof fn lemma_sum_remaining_update(sp: Seq<Seq<usize>>, c: Seq<usize>, k: int, v: usize, i: int)
    requires
        0 <= i <= k < c.len(),
    ensures
        sum_remaining(sp, c.update(k, v), i) == sum_remaining(sp, c, i) + c[k] - v,
    decreases c.len() - i,
{
    let c2 = c.update(k, v);
    if i == k {
        lemma_sum_remaining_agree(sp, c2, c, i + 1);
    } else {
        lemma_sum_remaining_update(sp, c, k, v, i + 1);
    }
}

/// The remaining-proposal sum is non-negative while every cursor stays
/// within its list.
proof fn lemma_sum_remaining_nonneg(sp: Seq<Seq<usize>>, c: Seq<usize>, i: int)
    requires
        forall|k: int| 0 <= k < c.len() ==> #[trigger] c[k] <= sp[k].len(),
    ensures
        sum_remaining(sp, c, i) >= 0,
    decreases c.len() - i,
{
    if 0 <= i < c.len() {
        lemma_sum_remaining_nonneg(sp, c, i + 1);
    }
}

/// Popping the front of a duplicate-free queue keeps it duplicate-free and
/// removes exactly the front element.
proof fn lemma_pop_front(q: Seq<usize>)
    requires
        q.len() > 0,
        !has_dup(q),
    ensures
        !has_dup(q.subrange(1, q.len() as int)),
        forall|x: usize|
            #[trigger] q.subrange(1, q.len() as int).contains(x) <==> q.contains(x) && x != q[0],
{
    let r = q.subrange(1, q.len() as int);
    assert forall|x: usize| #[trigger] r.contains(x) implies q.contains(x) && x != q[0] by {
        let i = choose|i: int| 0 <= i < r.len() && r[i] == x;
        assert(q[i + 1] == x);
        assert(q.contains(x));
        if x == q[0] {
            assert(has_dup(q));
        }
    }
    assert forall|x: usize| q.contains(x) && x != q[0] implies #[trigger] r.contains(x) by {
        let i = choose|i: int| 0 <= i < q.len() && q[i] == x;
        assert(i >= 1);
        assert(r[i - 1] == x);
    }
    assert forall|i: int, j: int| 0 <= i < j < r.len() implies r[i] != r[j] by {
        assert(q[i + 1] == r[i] && q[j + 1] == r[j]);
    }
}

/// Appending an element not yet present keeps a queue duplicate-free and
/// adds exactly that element.
proof fn lemma_push_back(q: Seq<usize>, x: usize)
    requires
        !has_dup(q),
        !q.contains(x),
    ensures
        !has_dup(q.push(x)),
        forall|y: usize| #[trigger] q.push(x).contains(y) <==> q.contains(y) || y == x,
{
    let r = q.push(x);
    assert forall|y: usize| #[trigger] r.contains(y) implies q.contains(y) || y == x by {
        let i = choose|i: int| 0 <= i < r.len() && r[i] == y;
        if i < q.len() {
            assert(q[i] == y);
        }
    }
    assert forall|y: usize| q.contains(y) || y == x implies #[trigger] r.contains(y) by {
        if q.contains(y) {
            let i = choose|i: int| 0 <= i < q.len() && q[i] == y;
            assert(r[i] == y);
        } else {
            assert(r[q.len() as int] == y);
        }
    }
    assert forall|i: int, j: int| 0 <= i < j < r.len() implies r[i] != r[j] by {
        if j < q.len() {
            assert(q[i] == r[i] && q[j] == r[j]);
        } else {
            assert(r[j] == x && q[i] == r[i]);
            assert(q.contains(q[i]));
        }
    }
}

/// Everything the matching loop keeps true between iterations:
/// validated inputs, well-formed schools, a duplicate-free queue of
/// unmatched students, cursors within bounds, assignment and held sets
/// consistent, matched students standing at their cursor's last position,
/// unmatched students queued or exhausted, every past proposal settled,
/// and the matched count equal to the held total.
pub open spec fn engine_inv(
    sp: Seq<Seq<usize>>,
    schools: Seq<School>,
    asg: Seq<Option<usize>>,
    queue: Seq<usize>,
    cursors: Seq<usize>,
) -> bool {
    let n_students = sp.len() as int;
    let n_schools = schools.len() as int;
    &&& asg.len() == n_students
    &&& cursors.len() == n_students
    &&& forall|s: int|
        0 <= s < n_students ==> crate::validate::list_ok(#[trigger] sp[s], n_schools)
    &&& forall|t: int|
        0 <= t < n_schools ==> (#[trigger] schools[t]).wf() && schools[t].rank@.len()
            == n_students
    &&& forall|i: int| 0 <= i < queue.len() ==> (#[trigger] queue[i] as int) < n_students
    &&& !has_dup(queue)
    &&& forall|i: int| 0 <= i < queue.len() ==> asg[#[trigger] queue[i] as int] is None
    &&& forall|s: int| 0 <= s < n_students ==> #[trigger] cursors[s] <= sp[s].len()
    &&& consistent(asg, schools)
    &&& forall|s: int|
        0 <= s < n_students && (#[trigger] asg[s]) is Some ==> {
            let c = cursors[s] as int;
            1 <= c && sp[s][c - 1] == asg[s].unwrap()
        }
    &&& forall|s: int|
        0 <= s < n_students && (#[trigger] asg[s]) is None ==> queue.contains(s as usize)
            || cursors[s] == sp[s].len()
    &&& forall|s: int|
        0 <= s < n_students ==> settled_up_to(sp, schools, s, #[trigger] cursors[s] as int)
    &&& count_matched(asg) == total_held(schools)
}

/// Settled proposals stay settled when school `t` admits into free room:
/// held students stay held, and no settlement relied on `t` being full.
proof fn lemma_settled_room(
    sp: Seq<Seq<usize>>,
    schools: Seq<School>,
    s: int,
    c: int,
    t: int,
    sch2: School,
)
    requires
        settled_up_to(sp, schools, s, c),
        0 <= t < schools.len(),
        schools[t].held@.len() < schools[t].capacity,
        sch2.rank == schools[t].rank,
        sch2.capacity == schools[t].capacity,
        forall|x: usize| #[trigger] sch2.holds(x) <==> schools[t].holds(x) || x == sch2.held@.last(),
        forall|x: usize| schools[t].holds(x) ==> #[trigger] sch2.holds(x),
    ensures
        settled_up_to(sp, schools.update(t, sch2), s, c),
{
    let schools2 = schools.update(t, sch2);
    assert forall|j: int| 0 <= j < c implies #[trigger] proposal_settled(sp, schools2, s, j) by {
        assert(proposal_settled(sp, schools, s, j));
        let tj = sp[s][j] as int;
        if tj == t {
            if schools[t].holds(s as usize) {
                assert(sch2.holds(s as usize));
            }
        }
    }
}

/// Settled proposals stay settled when school `t` trades its worst held
/// student `w` for the strictly better-ranked proposer `p`: the school
/// stays full and its held set only improves.
proof fn lemma_settled_displace(
    sp: Seq<Seq<usize>>,
    schools: Seq<School>,
    s: int,
    c: int,
    t: int,
    w: usize,
    p: usize,
    sch2: School,
)
    requires
        settled_up_to(sp, schools, s, c),
        0 <= s <= usize::MAX,
        0 <= t < schools.len(),
        schools[t].wf(),
        schools[t].held@.len() == schools[t].capacity,
        schools[t].holds(w),
        schools[t].ranks(p as int),
        schools[t].rank_val(p as int) < schools[t].rank_val(w as int),
        forall|i: int|
            0 <= i < schools[t].held@.len() ==> schools[t].rank_val(
                #[trigger] schools[t].held@[i] as int,
            ) <= schools[t].rank_val(w as int),
        sch2.rank == schools[t].rank,
        sch2.capacity == schools[t].capacity,
        sch2.held@.len() == schools[t].held@.len(),
        forall|x: usize|
            #[trigger] sch2.holds(x) <==> (schools[t].holds(x) && x != w) || x == p,
    ensures
        settled_up_to(sp, schools.update(t, sch2), s, c),
{
    let schools2 = schools.update(t, sch2);
    let sch = schools[t];
    // every student held afterwards is ranked no worse than `w`, strictly
    // unless it is `w` itself (which is gone)
    assert forall|i: int|
        0 <= i < sch2.held@.len() implies sch2.rank_val(#[trigger] sch2.held@[i] as int)
        < sch.rank_val(w as int) by {
        let x = sch2.held@[i];
        assert(sch2.holds(x));
        if x == p {
        } else {
            assert(sch.holds(x) && x != w);
            let k = choose|k: int| 0 <= k < sch.held@.len() && sch.held@[k] == x;
            assert(sch.rank_val(x as int) <= sch.rank_val(w as int));
            assert(sch.ranks(x as int) && sch.ranks(w as int));
            assert(sch.rank_val(x as int) != sch.rank_val(w as int));
        }
    }
    assert forall|j: int| 0 <= j < c implies #[trigger] proposal_settled(sp, schools2, s, j) by {
        assert(proposal_settled(sp, schools, s, j));
        let tj = sp[s][j] as int;
        if tj == t {
            if !sch.ranks(s) {
                // rank table unchanged
            } else if sch.holds(s as usize) && s as usize != w {
                assert(sch2.holds(s as usize));
            } else if sch.holds(s as usize) && s as usize == w {
                // the displaced student: the school is full and now prefers
                // every held student to it
                assert(sch2.held@.len() == sch2.capacity);
                assert(sch.ranks(s));
                assert(s == w as int);
                assert(sch2.rank_val(s) == sch.rank_val(w as int));
                assert(school_prefers_all_held(sch2, s));
            } else if sch.held@.len() == sch.capacity && school_prefers_all_held(sch, s) {
                assert(sch.rank_val(w as int) < sch.rank_val(s)) by {
                    let k = choose|k: int| 0 <= k < sch.held@.len() && sch.held@[k] == w;
                }
                assert forall|i: int|
                    0 <= i < sch2.held@.len() implies sch2.rank_val(
                    #[trigger] sch2.held@[i] as int,
                ) < sch2.rank_val(s) by {
                    let x = sch2.held@[i];
                    assert(sch2.holds(x));
                    if x == p {
                        assert(sch.rank_val(p as int) < sch.rank_val(w as int));
                    } else {
                        assert(sch.holds(x));
                        let k = choose|k: int| 0 <= k < sch.held@.len() && sch.held@[k] == x;
                        assert(sch.rank_val(x as int) < sch.rank_val(s));
                    }
                }
                assert(school_prefers_all_held(sch2, s));
            }
        }
    }
}

/// A dequeued student whose cursor has reached the end of its list is
/// retired: dropping it from the queue preserves the loop invariant.
proof fn lemma_step_retire(
    sp: Seq<Seq<usize>>,
    schools: Seq<School>,
    asg: Seq<Option<usize>>,
    q: Seq<usize>,
    cursors: Seq<usize>,
)
    requires
        engine_inv(sp, schools, asg, q, cursors),
        sp.len() <= usize::MAX,
        q.len() > 0,
        cursors[q[0] as int] == sp[q[0] as int].len(),
    ensures
        engine_inv(sp, schools, asg, q.subrange(1, q.len() as int), cursors),
{
    lemma_pop_front(q);
    let q1 = q.subrange(1, q.len() as int);
    assert forall|i: int|
        0 <= i < q1.len() implies (#[trigger] q1[i] as int) < sp.len() && asg[q1[i] as int]
        is None by {
        assert(q1[i] == q[i + 1]);
    }
    assert forall|s: int|
        0 <= s < sp.len() && (#[trigger] asg[s]) is None implies q1.contains(s as usize)
        || cursors[s] == sp[s].len() by {
        if q.contains(s as usize) {
            if s as usize == q[0] {
                assert(s == q[0] as int);
            } else {
                assert(q1.contains(s as usize));
            }
        }
    }
}

/// A rejected proposal (unranked, or dominated by a full held set)
/// advances the student's cursor and requeues it at the back.
proof fn lemma_step_reject(
    sp: Seq<Seq<usize>>,
    schools: Seq<School>,
    asg: Seq<Option<usize>>,
    q: Seq<usize>,
    cursors: Seq<usize>,
    c1: usize,
)
    requires
        engine_inv(sp, schools, asg, q, cursors),
        sp.len() <= usize::MAX,
        q.len() > 0,
        cursors[q[0] as int] < sp[q[0] as int].len(),
        c1 == cursors[q[0] as int] + 1,
        ({
            let s = q[0] as int;
            let t = sp[s][cursors[s] as int] as int;
            ||| !schools[t].ranks(s)
            ||| (schools[t].held@.len() == schools[t].capacity && school_prefers_all_held(
                schools[t],
                s,
            ))
        }),
    ensures
        engine_inv(
            sp,
            schools,
            asg,
            q.subrange(1, q.len() as int).push(q[0]),
            cursors.update(q[0] as int, c1),
        ),
{
    lemma_pop_front(q);
    let s0 = q[0];
    let s = s0 as int;
    let c = cursors[s] as int;
    let q1 = q.subrange(1, q.len() as int);
    lemma_push_back(q1, s0);
    let q2 = q1.push(s0);
    let cursors2 = cursors.update(s, c1);
    assert forall|i: int|
        0 <= i < q2.len() implies (#[trigger] q2[i] as int) < sp.len() && asg[q2[i] as int]
        is None by {
        if i < q1.len() {
            assert(q1[i] == q[i + 1]);
        } else {
            assert(q2[i] == s0);
        }
    }
    assert forall|x: int|
        0 <= x < sp.len() && (#[trigger] asg[x]) is None implies q2.contains(x as usize)
        || cursors2[x] == sp[x].len() by {
        if q.contains(x as usize) {
            if x as usize == s0 {
                assert(q2.contains(s0));
            } else {
                assert(q1.contains(x as usize));
            }
        }
    }
    assert forall|x: int|
        0 <= x < sp.len() implies settled_up_to(
        sp,
        schools,
        x,
        #[trigger] cursors2[x] as int,
    ) by {
        if x == s {
            assert forall|j: int| 0 <= j < c1 implies #[trigger] proposal_settled(
                sp,
                schools,
                x,
                j,
            ) by {
                if j < c {
                    assert(settled_up_to(sp, schools, s, c));
                } else {
                    assert(j == c);
                    assert((sp[s][c] as int) < schools.len());
                }
            }
        } else {
            assert(settled_up_to(sp, schools, x, cursors[x] as int));
        }
    }
}

/// An accepted proposal into free room admits the student, records the
/// assignment, and does not requeue it.
proof fn lemma_step_room(
    sp: Seq<Seq<usize>>,
    schools: Seq<School>,
    asg: Seq<Option<usize>>,
    q: Seq<usize>,
    cursors: Seq<usize>,
    c1: usize,
    t_id: usize,
    sch2: School,
)
    requires
        engine_inv(sp, schools, asg, q, cursors),
        sp.len() <= usize::MAX,
        q.len() > 0,
        cursors[q[0] as int] < sp[q[0] as int].len(),
        c1 == cursors[q[0] as int] + 1,
        t_id == sp[q[0] as int][cursors[q[0] as int] as int],
        (t_id as int) < schools.len(),
        schools[t_id as int].ranks(q[0] as int),
        schools[t_id as int].held@.len() < schools[t_id as int].capacity,
        sch2.rank == schools[t_id as int].rank,
        sch2.capacity == schools[t_id as int].capacity,
        sch2.wf(),
        sch2.held@ == schools[t_id as int].held@.push(q[0]),
    ensures
        engine_inv(
            sp,
            schools.update(t_id as int, sch2),
            asg.update(q[0] as int, Some(t_id)),
            q.subrange(1, q.len() as int),
            cursors.update(q[0] as int, c1),
        ),
{
    lemma_pop_front(q);
    let s0 = q[0];
    let s = s0 as int;
    let c = cursors[s] as int;
    let t = t_id as int;
    let sch = schools[t];
    let q1 = q.subrange(1, q.len() as int);
    let schools2 = schools.update(t, sch2);
    let asg2 = asg.update(s, Some(t_id));
    let cursors2 = cursors.update(s, c1);
    // the proposer is not yet held anywhere: queue members are unmatched
    assert forall|tt: int, x: usize|
        0 <= tt < schools.len() && #[trigger] schools[tt].holds(x) implies asg[x as int] == Some(
        tt as usize,
    ) && (x as int) < asg.len() by {
        let i = choose|i: int| 0 <= i < schools[tt].held@.len() && schools[tt].held@[i] == x;
    }
    assert(!sch.holds(s0));
    lemma_push_back(sch.held@, s0);
    // queue conjuncts
    assert forall|i: int|
        0 <= i < q1.len() implies (#[trigger] q1[i] as int) < sp.len() && asg2[q1[i] as int]
        is None by {
        assert(q1[i] == q[i + 1]);
        assert(q1.contains(q1[i]));
        assert(q1[i] != s0);
    }
    // consistency
    assert forall|x: int|
        0 <= x < asg2.len() && (#[trigger] asg2[x]) is Some implies {
        let tx = asg2[x].unwrap() as int;
        &&& 0 <= tx < schools2.len()
        &&& schools2[tx].holds(x as usize)
    } by {
        if x == s {
            assert(sch2.holds(s0));
        } else {
            let tx = asg[x].unwrap() as int;
            if tx == t {
                assert(sch2.holds(x as usize));
            }
        }
    }
    assert forall|tt: int, i: int|
        0 <= tt < schools2.len() && 0 <= i < schools2[tt].held@.len() implies {
        let h = #[trigger] schools2[tt].held@[i];
        &&& (h as int) < asg2.len()
        &&& asg2[h as int] == Some(tt as usize)
    } by {
        let h = schools2[tt].held@[i];
        if tt == t {
            assert(sch2.holds(h));
            if h == s0 {
            } else {
                assert(sch.holds(h));
                assert(asg[h as int] == Some(t_id));
            }
        } else {
            assert(schools[tt].holds(h));
            assert(asg[h as int] == Some(tt as usize));
            assert(h as int != s);
        }
    }
    // matched position
    assert forall|x: int|
        0 <= x < sp.len() && (#[trigger] asg2[x]) is Some implies {
        let cx = cursors2[x] as int;
        1 <= cx && sp[x][cx - 1] == asg2[x].unwrap()
    } by {
        if x == s {
            assert(sp[s][c] == t_id);
        }
    }
    // unmatched students are queued or exhausted
    assert forall|x: int|
        0 <= x < sp.len() && (#[trigger] asg2[x]) is None implies q1.contains(x as usize)
        || cursors2[x] == sp[x].len() by {
        if q.contains(x as usize) {
            if x as usize == s0 {
                assert(x == s);
            } else {
                assert(q1.contains(x as usize));
            }
        }
    }
    // settled proposals
    assert forall|x: int|
        0 <= x < sp.len() implies settled_up_to(
        sp,
        schools2,
        x,
        #[trigger] cursors2[x] as int,
    ) by {
        lemma_settled_room(sp, schools, x, cursors[x] as int, t, sch2);
        if x == s {
            assert forall|j: int| 0 <= j < c1 implies #[trigger] proposal_settled(
                sp,
                schools2,
                x,
                j,
            ) by {
                if j < c {
                    assert(settled_up_to(sp, schools2, s, c));
                } else {
                    assert(j == c);
                    assert(sch2.holds(s0));
                }
            }
        }
    }
    // conservation
    lemma_count_matched_update(asg, s, Some(t_id));
    lemma_total_held_update(schools, t, sch2);
}

/// An accepted proposal that displaces the full school's worst held
/// student `w`: `w` is evicted, loses its assignment and is requeued (its
/// cursor untouched), and the proposer is admitted in its place.
proof fn lemma_step_displace(
    sp: Seq<Seq<usize>>,
    schools: Seq<School>,
    asg: Seq<Option<usize>>,
    q: Seq<usize>,
    cursors: Seq<usize>,
    c1: usize,
    t_id: usize,
    w: usize,
    sch2: School,
)
    requires
        engine_inv(sp, schools, asg, q, cursors),
        sp.len() <= usize::MAX,
        schools.len() <= usize::MAX,
        q.len() > 0,
        cursors[q[0] as int] < sp[q[0] as int].len(),
        c1 == cursors[q[0] as int] + 1,
        t_id == sp[q[0] as int][cursors[q[0] as int] as int],
        (t_id as int) < schools.len(),
        schools[t_id as int].ranks(q[0] as int),
        schools[t_id as int].held@.len() == schools[t_id as int].capacity,
        schools[t_id as int].holds(w),
        schools[t_id as int].rank_val(q[0] as int) < schools[t_id as int].rank_val(w as int),
        forall|i: int|
            0 <= i < schools[t_id as int].held@.len() ==> schools[t_id as int].rank_val(
                #[trigger] schools[t_id as int].held@[i] as int,
            ) <= schools[t_id as int].rank_val(w as int),
        sch2.rank == schools[t_id as int].rank,
        sch2.capacity == schools[t_id as int].capacity,
        sch2.wf(),
        sch2.held@.len() == schools[t_id as int].held@.len(),
        forall|x: usize|
            #[trigger] sch2.holds(x) <==> (schools[t_id as int].holds(x) && x != w) || x == q[0],
    ensures
        engine_inv(
            sp,
            schools.update(t_id as int, sch2),
            asg.update(w as int, None).update(q[0] as int, Some(t_id)),
            q.subrange(1, q.len() as int).push(w),
            cursors.update(q[0] as int, c1),
        ),
{
    lemma_pop_front(q);
    let s0 = q[0];
    let s = s0 as int;
    let c = cursors[s] as int;
    let t = t_id as int;
    let sch = schools[t];
    let q1 = q.subrange(1, q.len() as int);
    let schools2 = schools.update(t, sch2);
    let asg2 = asg.update(w as int, None).update(s, Some(t_id));
    let cursors2 = cursors.update(s, c1);
    // held membership determines the assignment everywhere
    assert forall|tt: int, x: usize|
        0 <= tt < schools.len() && #[trigger] schools[tt].holds(x) implies asg[x as int] == Some(
        tt as usize,
    ) && (x as int) < asg.len() by {
        let i = choose|i: int| 0 <= i < schools[tt].held@.len() && schools[tt].held@[i] == x;
    }
    assert(!sch.holds(s0));
    assert(asg[w as int] == Some(t_id));
    assert(w != s0);
    // the displaced student is matched, so it is not in the queue
    assert(!q.contains(w)) by {
        if q.contains(w) {
            let i = choose|i: int| 0 <= i < q.len() && q[i] == w;
        }
    }
    lemma_push_back(q1, w);
    let q2 = q1.push(w);
    // queue conjuncts
    assert forall|i: int|
        0 <= i < q2.len() implies (#[trigger] q2[i] as int) < sp.len() && asg2[q2[i] as int]
        is None by {
        if i < q1.len() {
            assert(q1[i] == q[i + 1]);
            assert(q1.contains(q1[i]));
            assert(q1[i] != s0 && q1[i] != w);
        } else {
            assert(q2[i] == w);
        }
    }
    // consistency
    assert forall|x: int|
        0 <= x < asg2.len() && (#[trigger] asg2[x]) is Some implies {
        let tx = asg2[x].unwrap() as int;
        &&& 0 <= tx < schools2.len()
        &&& schools2[tx].holds(x as usize)
    } by {
        if x == s {
            assert(sch2.holds(s0));
        } else if x == w as int {
            assert(false);
        } else {
            let tx = asg[x].unwrap() as int;
            assert(schools[tx].holds(x as usize));
            if tx == t {
                assert(x as usize != w);
                assert(sch2.holds(x as usize));
            }
        }
    }
    assert forall|tt: int, i: int|
        0 <= tt < schools2.len() && 0 <= i < schools2[tt].held@.len() implies {
        let h = #[trigger] schools2[tt].held@[i];
        &&& (h as int) < asg2.len()
        &&& asg2[h as int] == Some(tt as usize)
    } by {
        let h = schools2[tt].held@[i];
        if tt == t {
            assert(sch2.holds(h));
            if h == s0 {
            } else {
                assert(sch.holds(h) && h != w);
                assert(asg[h as int] == Some(t_id));
                assert(h as int != s && h as int != w as int);
            }
        } else {
            assert(schools[tt].holds(h));
            assert(asg[h as int] == Some(tt as usize));
            assert(h as int != s);
            assert(h != w) by {
                if h == w {
                    assert(asg[w as int] == Some(tt as usize));
                    assert(asg[w as int] == Some(t_id));
                }
            }
        }
    }
    // matched position
    assert forall|x: int|
        0 <= x < sp.len() && (#[trigger] asg2[x]) is Some implies {
        let cx = cursors2[x] as int;
        1 <= cx && sp[x][cx - 1] == asg2[x].unwrap()
    } by {
        if x == s {
            assert(sp[s][c] == t_id);
        }
    }
    // unmatched students are queued or exhausted
    assert forall|x: int|
        0 <= x < sp.len() && (#[trigger] asg2[x]) is None implies q2.contains(x as usize)
        || cursors2[x] == sp[x].len() by {
        if x == w as int {
            assert(q2.contains(w));
        } else if q.contains(x as usize) {
            if x as usize == s0 {
                assert(x == s);
            } else {
                assert(q1.contains(x as usize));
                assert(q2.contains(x as usize));
            }
        }
    }
    // settled proposals
    assert forall|x: int|
        0 <= x < sp.len() implies settled_up_to(
        sp,
        schools2,
        x,
        #[trigger] cursors2[x] as int,
    ) by {
        lemma_settled_displace(sp, schools, x, cursors[x] as int, t, w, s0, sch2);
        if x == s {
            assert forall|j: int| 0 <= j < c1 implies #[trigger] proposal_settled(
                sp,
                schools2,
                x,
                j,
            ) by {
                if j < c {
                    assert(settled_up_to(sp, schools2, s, c));
                } else {
                    assert(j == c);
                    assert(sch2.holds(s0));
                }
            }
        }
    }
    // conservation: one student unassigned, one assigned, held size kept
    lemma_count_matched_update(asg, w as int, None);
    lemma_count_matched_update(asg.update(w as int, None), s, Some(t_id));
    lemma_total_held_update(schools, t, sch2);
    assert(asg.update(w as int, None)[s] == asg[s]);
}

/// When the queue has drained, the invariant yields stability: a student
/// preferring school `t` to its assignment has already proposed to `t` and
/// been rejected or displaced, so `t` is full of better-ranked students.
proof fn lemma_stable_at_exit(
    sp: Seq<Seq<usize>>,
    schools: Seq<School>,
    asg: Seq<Option<usize>>,
    q: Seq<usize>,
    cursors: Seq<usize>,
)
    requires
        engine_inv(sp, schools, asg, q, cursors),
        sp.len() <= usize::MAX,
        q.len() == 0,
    ensures
        stable(sp, asg, schools),
{
    assert forall|tt: int, x: usize|
        0 <= tt < schools.len() && #[trigger] schools[tt].holds(x) implies asg[x as int] == Some(
        tt as usize,
    ) by {
        let i = choose|i: int| 0 <= i < schools[tt].held@.len() && schools[tt].held@[i] == x;
    }
    assert forall|s: int, j: int|
        0 <= s < sp.len() && 0 <= j < sp[s].len() && better_than_match(
            sp[s],
            j,
            asg[s],
        ) implies {
        let t = #[trigger] sp[s][j] as int;
        ||| !(0 <= t < schools.len())
        ||| !schools[t].ranks(s)
        ||| (schools[t].held@.len() == schools[t].capacity && school_prefers_all_held(
            schools[t],
            s,
        ))
    } by {
        let t = sp[s][j] as int;
        assert(!q.contains(s as usize)) by {
            if q.contains(s as usize) {
                let i = choose|i: int| 0 <= i < q.len() && q[i] == s as usize;
            }
        }
        if asg[s] is None {
            assert(cursors[s] == sp[s].len());
            assert(settled_up_to(sp, schools, s, cursors[s] as int));
            assert(proposal_settled(sp, schools, s, j));
            if schools[t].holds(s as usize) {
                assert(s as usize as int == s);
                assert(asg[s] is Some);
                assert(false);
            }
        } else {
            let cm = cursors[s] as int;
            let tm = asg[s].unwrap();
            assert(1 <= cm && sp[s][cm - 1] == tm);
            if j >= cm - 1 {
                assert(0 <= cm - 1 <= j && sp[s][cm - 1] == tm);
                assert(false);
            }
            assert(settled_up_to(sp, schools, s, cursors[s] as int));
            assert(proposal_settled(sp, schools, s, j));
            if schools[t].holds(s as usize) {
                assert(asg[s] == Some(t as usize));
                assert(sp[s][j] == tm);
                assert(false);
            }
        }
    }
}

/// Run the deferred-acceptance loop over the given schools: seed the queue
/// with every student in ascending order, let each dequeued student
/// propose to the next school on its list, and let schools admit, displace
/// or reject until the queue drains. Returns the assignment; entry `s` is
/// `Some(t)` exactly when school `t` still holds student `s`, matched
/// students stand at the position their cursor last passed, the matched
/// count equals the held total, and no blocking pair remains.
#[verifier::rlimit(100)]
pub fn run_matching(student_prefs: &Vec<Vec<usize>>, schools: &mut Vec<School>) -> (assignment:
    Vec<Option<usize>>)
    requires
        forall|s: int|
            0 <= s < student_prefs@.len() ==> crate::validate::list_ok(
                #[trigger] student_prefs.deep_view()[s],
                old(schools)@.len() as int,
            ),
        forall|t: int|
            0 <= t < old(schools)@.len() ==> {
                let sch = #[trigger] old(schools)@[t];
                &&& sch.wf()
                &&& sch.rank@.len() == student_prefs@.len()
                &&& sch.held@.len() == 0
            },
    ensures
        assignment@.len() == student_prefs@.len(),
        final(schools)@.len() == old(schools)@.len(),
        forall|t: int|
            0 <= t < final(schools)@.len() ==> {
                let sch = #[trigger] final(schools)@[t];
                &&& sch.wf()
                &&& sch.capacity == old(schools)@[t].capacity
                &&& sch.rank == old(schools)@[t].rank
            },
        forall|t: int|
            0 <= t < final(schools)@.len() ==> (#[trigger] final(schools)@[t]).held@.len()
                <= final(schools)@[t].capacity,
        consistent(assignment@, final(schools)@),
        count_matched(assignment@) == total_held(final(schools)@),
        stable(student_prefs.deep_view(), assignment@, final(schools)@),
        assignment@ == spec_run(
            student_prefs.deep_view(),
            ranks_of(old(schools)@),
            caps_of(old(schools)@),
            start_state(student_prefs@.len() as int, old(schools)@.len() as int),
        ),
{
    let ghost sp = student_prefs.deep_view();
    let ghost ranks0 = ranks_of(old(schools)@);
    let ghost caps0 = caps_of(old(schools)@);
    let n_students = student_prefs.len();
    let n_schools = schools.len();
    proof {
        assert(sp.len() == n_students);
        assert forall|s: int| 0 <= s < n_students implies #[trigger] sp[s]
            == student_prefs@[s]@ by {}
    }
    let mut queue: VecDeque<usize> = VecDeque::new();
    for s in 0..n_students
        invariant
            queue@.len() == s,
            forall|i: int| 0 <= i < s ==> (#[trigger] queue@[i] as int) == i,
    {
        queue.push_back(s);
    }
    let mut cursors: Vec<usize> = vec![0; n_students];
    let mut assignment: Vec<Option<usize>> = vec![None; n_students];
    proof {
        lemma_count_matched_none(assignment@);
        lemma_total_held_empty(schools@);
        assert(!has_dup(queue@));
        assert forall|s: int|
            0 <= s < n_students && (#[trigger] assignment@[s]) is None implies queue@.contains(
            s as usize,
        ) || cursors@[s] == sp[s].len() by {
            assert(queue@[s] == s as usize);
        }
        assert(engine_inv(sp, schools@, assignment@, queue@, cursors@));
    }
    let ghost st0 = exec_state(schools@, assignment@, queue@, cursors@);
    proof {
        assert(st0 == start_state(n_students as int, n_schools as int)) by {
            assert(st0.held =~~= start_state(n_students as int, n_schools as int).held);
            assert(st0.asg =~= start_state(n_students as int, n_schools as int).asg);
            assert(st0.queue =~= start_state(n_students as int, n_schools as int).queue);
            assert(st0.cursors =~= start_state(n_students as int, n_schools as int).cursors);
        }
    }
    while queue.len() > 0
        invariant
            engine_inv(sp, schools@, assignment@, queue@, cursors@),
            schools@.len() == n_schools,
            forall|t: int|
                0 <= t < n_schools ==> (#[trigger] schools@[t]).capacity
                    == old(schools)@[t].capacity && schools@[t].rank == old(schools)@[t].rank,
            spec_run(sp, ranks0, caps0, exec_state(schools@, assignment@, queue@, cursors@))
                == spec_run(sp, ranks0, caps0, st0),
        decreases sum_remaining(sp, cursors@, 0), queue@.len(),
    {
        proof {
            lemma_sum_remaining_nonneg(sp, cursors@, 0);
        }
        let ghost q_pre = queue@;
        let ghost cursors_pre = cursors@;
        let ghost asg_pre = assignment@;
        let ghost schools_pre = schools@;
        let ghost est_pre = exec_state(schools_pre, asg_pre, q_pre, cursors_pre);
        proof {
            assert(state_wf(sp, est_pre));
            assert(ranks0 == ranks_of(schools_pre)) by {
                assert(ranks0 =~= ranks_of(schools_pre));
            }
            assert(caps0 == caps_of(schools_pre)) by {
                assert(caps0 =~= caps_of(schools_pre));
            }
        }
        let student = queue.pop_front().unwrap();
        let c = cursors[student];
        if c >= student_prefs[student].len() {
            // cursor exhausted: the student is retired, permanently
            // unmatched, and is not re-enqueued
            proof {
                lemma_step_retire(sp, schools_pre, asg_pre, q_pre, cursors_pre);
                lemma_model_retire(sp, schools_pre, asg_pre, q_pre, cursors_pre);
                assert(exec_state(schools@, assignment@, queue@, cursors@) == exec_state(
                    schools_pre,
                    asg_pre,
                    q_pre.subrange(1, q_pre.len() as int),
                    cursors_pre,
                ));
                assert(spec_run(sp, ranks0, caps0, est_pre) == spec_run(
                    sp,
                    ranks0,
                    caps0,
                    exec_state(schools@, assignment@, queue@, cursors@),
                ));
            }
        } else {
            let school_id = student_prefs[student][c];
            proof {
                assert(school_id == sp[student as int][c as int]);
                assert((school_id as int) < n_schools);
            }
            let c1 = c + 1;
            cursors[student] = c1;
            let mut sch = schools.remove(school_id);
            proof {
                assert(sch == schools_pre[school_id as int]);
                if sch.holds(student) {
                    let i = choose|i: int|
                        0 <= i < sch.held@.len() && sch.held@[i] == student;
                    assert(schools_pre[school_id as int].held@[i] == student);
                    assert(asg_pre[student as int] == Some(school_id));
                    assert(asg_pre[q_pre[0] as int] is None);
                    assert(false);
                }
            }
            let d = sch.would_accept(student);
            match d {
                Decision::RejectUnranked | Decision::RejectDominated => {
                    queue.push_back(student);
                    schools.insert(school_id, sch);
                    proof {
                        assert(schools@ =~= schools_pre.update(
                            school_id as int,
                            schools_pre[school_id as int],
                        ));
                        assert(schools@ =~= schools_pre);
                        lemma_step_reject(sp, schools_pre, asg_pre, q_pre, cursors_pre, c1);
                        lemma_sum_remaining_update(sp, cursors_pre, student as int, c1, 0);
                        lemma_model_reject(sp, schools_pre, asg_pre, q_pre, cursors_pre, c1);
                        assert(exec_state(schools@, assignment@, queue@, cursors@) == exec_state(
                            schools_pre,
                            asg_pre,
                            q_pre.subrange(1, q_pre.len() as int).push(student),
                            cursors_pre.update(student as int, c1),
                        ));
                        assert(spec_run(sp, ranks0, caps0, est_pre) == spec_run(
                            sp,
                            ranks0,
                            caps0,
                            exec_state(schools@, assignment@, queue@, cursors@),
                        ));
                    }
                }
                Decision::AcceptRoom => {
                    sch.add_student(student);
                    assignment[student] = Some(school_id);
                    let ghost sch2 = sch;
                    schools.insert(school_id, sch);
                    proof {
                        assert(schools@ =~= schools_pre.update(school_id as int, sch2));
                        lemma_step_room(
                            sp,
                            schools_pre,
                            asg_pre,
                            q_pre,
                            cursors_pre,
                            c1,
                            school_id,
                            sch2,
                        );
                        lemma_sum_remaining_update(sp, cursors_pre, student as int, c1, 0);
                        lemma_model_room(
                            sp,
                            schools_pre,
                            asg_pre,
                            q_pre,
                            cursors_pre,
                            c1,
                            school_id,
                            sch2,
                        );
                        assert(exec_state(schools@, assignment@, queue@, cursors@) == exec_state(
                            schools_pre.update(school_id as int, sch2),
                            asg_pre.update(student as int, Some(school_id)),
                            q_pre.subrange(1, q_pre.len() as int),
                            cursors_pre.update(student as int, c1),
                        ));
                        assert(spec_run(sp, ranks0, caps0, est_pre) == spec_run(
                            sp,
                            ranks0,
                            caps0,
                            exec_state(schools@, assignment@, queue@, cursors@),
                        ));
                    }
                }
                Decision::AcceptDisplacing(worst) => {
                    let ghost sch0 = sch;
                    sch.remove_student(worst);
                    let ghost schr = sch;
                    assignment[worst] = None;
                    queue.push_back(worst);
                    sch.add_student(student);
                    assignment[student] = Some(school_id);
                    let ghost sch2 = sch;
                    schools.insert(school_id, sch);
                    proof {
                        assert(schools@ =~= schools_pre.update(school_id as int, sch2));
                        assert(sch2.held@ == schr.held@.push(student));
                        assert(schr.wf());
                        assert(!schr.holds(student));
                        assert(!has_dup(schr.held@) && !schr.held@.contains(student));
                        lemma_push_back(schr.held@, student);
                        assert forall|x: usize| #[trigger] sch2.holds(x) <==> (sch0.holds(x)
                            && x != worst) || x == student by {
                            assert(sch2.holds(x) <==> schr.holds(x) || x == student);
                        }
                        lemma_step_displace(
                            sp,
                            schools_pre,
                            asg_pre,
                            q_pre,
                            cursors_pre,
                            c1,
                            school_id,
                            worst,
                            sch2,
                        );
                        lemma_sum_remaining_update(sp, cursors_pre, student as int, c1, 0);
                        let pos_x = choose|pos: int|
                            {
                                &&& 0 <= pos < sch0.held@.len()
                                &&& sch0.held@[pos] == worst
                                &&& schr.held@ == sch0.held@.update(
                                    pos,
                                    sch0.held@.last(),
                                ).drop_last()
                            };
                        assert(sch2.held@ == sch0.held@.update(
                            pos_x,
                            sch0.held@.last(),
                        ).drop_last().push(student));
                        lemma_model_displace(
                            sp,
                            schools_pre,
                            asg_pre,
                            q_pre,
                            cursors_pre,
                            c1,
                            school_id,
                            worst,
                            pos_x,
                            sch2,
                        );
                        assert(exec_state(schools@, assignment@, queue@, cursors@) == exec_state(
                            schools_pre.update(school_id as int, sch2),
                            asg_pre.update(worst as int, None).update(
                                student as int,
                                Some(school_id),
                            ),
                            q_pre.subrange(1, q_pre.len() as int).push(worst),
                            cursors_pre.update(student as int, c1),
                        ));
                        assert(spec_run(sp, ranks0, caps0, est_pre) == spec_run(
                            sp,
                            ranks0,
                            caps0,
                            exec_state(schools@, assignment@, queue@, cursors@),
                        ));
                    }
                }
            }
        }
        proof {
            lemma_sum_remaining_nonneg(sp, cursors@, 0);
        }
    }
    proof {
        lemma_stable_at_exit(sp, schools@, assignment@, queue@, cursors@);
        let est = exec_state(schools@, assignment@, queue@, cursors@);
        assert(state_wf(sp, est));
        assert(spec_run(sp, ranks0, caps0, est) == assignment@);
    }
    assignment
}

/// School `sch` was derived from preference list `prefs` and capacity
/// `cap` over `n` students: the rank table holds exactly the list
/// positions.
pub open spec fn school_from(sch: School, prefs: Seq<usize>, cap: usize, n: int) -> bool {
    &&& sch.wf()
    &&& sch.capacity == cap
    &&& sch.rank@.len() == n
    &&& forall|j: int|
        0 <= j < prefs.len() ==> sch.rank@[#[trigger] prefs[j] as int] == Some(j as usize)
    &&& forall|s: int|
        0 <= s < n && (#[trigger] sch.rank@[s]) is Some ==> {
            let j = sch.rank@[s].unwrap() as int;
            0 <= j < prefs.len() && prefs[j] == s
        }
}

/// Build one school record per school from the validated preference lists
/// and capacities, each with an empty held set.
pub fn build_schools(
    school_preferences: &Vec<Vec<usize>>,
    school_capacities: &Vec<usize>,
    num_students: usize,
) -> (schools: Vec<School>)
    requires
        school_capacities@.len() == school_preferences@.len(),
        forall|t: int|
            0 <= t < school_preferences@.len() ==> crate::validate::list_ok(
                #[trigger] school_preferences.deep_view()[t],
                num_students as int,
            ),
        forall|t: int| 0 <= t < school_capacities@.len() ==> #[trigger] school_capacities@[t] >= 1,
    ensures
        schools@.len() == school_preferences@.len(),
        forall|t: int|
            0 <= t < schools@.len() ==> school_from(
                #[trigger] schools@[t],
                school_preferences.deep_view()[t],
                school_capacities@[t],
                num_students as int,
            ),
        forall|t: int| 0 <= t < schools@.len() ==> (#[trigger] schools@[t]).held@.len() == 0,
{
    let n_schools = school_preferences.len();
    let mut schools: Vec<School> = Vec::new();
    for t in 0..n_schools
        invariant
            n_schools == school_preferences@.len(),
            schools@.len() == t,
            forall|k: int|
                0 <= k < t ==> school_from(
                    #[trigger] schools@[k],
                    school_preferences.deep_view()[k],
                    school_capacities@[k],
                    num_students as int,
                ),
            forall|k: int| 0 <= k < t ==> (#[trigger] schools@[k]).held@.len() == 0,
    {
        assert(school_preferences.deep_view()[t as int] == school_preferences@[t as int]@);
        let school = School::new(school_capacities[t], &school_preferences[t], num_students);
        schools.push(school);
    }
    schools
}

/// The run's full outcome for a successful matching `out`: there is a set
/// of school records derived exactly from the validated school preference
/// lists and capacities whose final held sets agree with `out` entry for
/// entry, conserve the matched count, and admit no blocking pair.
pub open spec fn matching_ok(
    sp: Seq<Seq<usize>>,
    tp: Seq<Seq<usize>>,
    caps: Seq<usize>,
    out: Seq<Option<usize>>,
) -> bool {
    exists|schools: Seq<School>|
        {
            &&& #[trigger] schools.len() == tp.len()
            &&& forall|t: int|
                0 <= t < schools.len() ==> school_from(
                    #[trigger] schools[t],
                    tp[t],
                    caps[t],
                    sp.len() as int,
                )
            &&& consistent(out, schools)
            &&& count_matched(out) == total_held(schools)
            &&& stable(sp, out, schools)
        }
}

/// Compute the student-proposing deferred-acceptance assignment for the
/// three raw inputs, or report the first validation failure. On success, entry `s`
/// of the result names the school that admitted student `s`, and `None`
/// marks a student no school admitted.
pub fn match_students_to_schools(
    student_preferences: Vec<Vec<usize>>,
    school_preferences: Vec<Vec<usize>>,
    school_capacities: Vec<usize>,
) -> (r: Result<Vec<Option<usize>>, MatchError>)
    ensures
        r is Ok <==> crate::validate::spec_validate(
            student_preferences.deep_view(),
            school_preferences.deep_view(),
            school_capacities@,
        ) is Ok,
        r is Err ==> r->Err_0 == crate::validate::spec_validate(
            student_preferences.deep_view(),
            school_preferences.deep_view(),
            school_capacities@,
        )->Err_0,
        r is Ok ==> r->Ok_0@.len() == student_preferences@.len(),
        r is Ok ==> matching_ok(
            student_preferences.deep_view(),
            school_preferences.deep_view(),
            school_capacities@,
            r->Ok_0@,
        ),
        r is Ok ==> r->Ok_0@ == spec_matching(
            student_preferences.deep_view(),
            school_preferences.deep_view(),
            school_capacities@,
        ),
{
    if let Err(e) = crate::validate::validate_inputs(
        &student_preferences,
        &school_preferences,
        &school_capacities,
    ) {
        return Err(e);
    }
    let num_students = student_preferences.len();
    let mut schools = build_schools(&school_preferences, &school_capacities, num_students);
    let ghost schools0 = schools@;
    let assignment = run_matching(&student_preferences, &mut schools);
    proof {
        let sp = student_preferences.deep_view();
        let tp = school_preferences.deep_view();
        let caps = school_capacities@;
        let w = schools@;
        assert(w.len() == tp.len());
        assert forall|t: int| 0 <= t < w.len() implies school_from(
            #[trigger] w[t],
            tp[t],
            caps[t],
            sp.len() as int,
        ) by {
            assert(w[t].capacity == schools0[t].capacity && w[t].rank == schools0[t].rank);
        }
        assert(matching_ok(sp, tp, caps, assignment@));
        // the schools built from the validated lists carry exactly the
        // rank tables and capacities the model derives from the raw inputs
        let model_ranks = Seq::new(tp.len(), |t: int| spec_rank_table(tp[t], sp.len() as int));
        assert(ranks_of(schools0) == model_ranks) by {
            assert forall|t: int| 0 <= t < tp.len() implies ranks_of(schools0)[t] == model_ranks[t] by {
                let sch = schools0[t];
                let prefs = tp[t];
                assert(school_from(sch, prefs, caps[t], sp.len() as int));
                assert forall|s: int| 0 <= s < sp.len() implies sch.rank@[s] == spec_rank_table(
                    prefs,
                    sp.len() as int,
                )[s] by {
                    if sch.rank@[s] is Some {
                        let j = sch.rank@[s].unwrap() as int;
                        assert(0 <= j < prefs.len() && prefs[j] == s);
                        assert(prefs.contains(s as usize)) by {
                            assert(prefs[j] == s as usize);
                        }
                        let i0 = prefs.index_of(s as usize);
                        assert(0 <= i0 < prefs.len() && prefs[i0] == s as usize);
                        assert(i0 == j) by {
                            if i0 != j {
                                assert(crate::validate::has_dup(prefs));
                            }
                        }
                    } else {
                        if prefs.contains(s as usize) {
                            let i0 = choose|i: int| 0 <= i < prefs.len() && prefs[i] == s as usize;
                            assert(sch.rank@[prefs[i0] as int] == Some(i0 as usize));
                            assert(false);
                        }
                    }
                }
                assert(ranks_of(schools0)[t] =~= spec_rank_table(prefs, sp.len() as int));
            }
            assert(ranks_of(schools0) =~= model_ranks);
        }
        assert(caps_of(schools0) == caps) by {
            assert forall|t: int| 0 <= t < tp.len() implies caps_of(schools0)[t] == caps[t] by {
                assert(school_from(schools0[t], tp[t], caps[t], sp.len() as int));
            }
            assert(caps_of(schools0) =~= caps);
        }
        assert(assignment@ == spec_matching(sp, tp, caps));
    }
    Ok(assignment)
}

/// Ghost image of the loop state: per-school held sequences, the running
/// assignment, the work queue, and the per-student cursors.
pub struct EngineState {
    pub held: Seq<Seq<usize>>,
    pub asg: Seq<Option<usize>>,
    pub queue: Seq<usize>,
    pub cursors: Seq<int>,
}

/// Bounds under which one step of the model is meaningful: queued ids and
/// cursors stay within their ranges.
pub open spec fn state_wf(sp: Seq<Seq<usize>>, st: EngineState) -> bool {
    &&& st.cursors.len() == sp.len()
    &&& forall|i: int| 0 <= i < st.queue.len() ==> (#[trigger] st.queue[i] as int) < sp.len()
    &&& forall|s: int| 0 <= s < sp.len() ==> 0 <= #[trigger] st.cursors[s] <= sp[s].len()
}

/// The worst-ranked member of a held sequence under the rank table
/// `ranks_t`; ranks are duplicate-free, so it is unique when it exists.
pub open spec fn spec_worst(ranks_t: Seq<Option<usize>>, held_t: Seq<usize>) -> usize {
    choose|w: usize|
        held_t.contains(w) && forall|i: int|
            0 <= i < held_t.len() ==> (#[trigger] ranks_t[held_t[i] as int]).unwrap()
                <= ranks_t[w as int].unwrap()
}

/// One dequeue of the work-list loop as a function of the state: retire an
/// exhausted student, or advance its cursor and let the proposed-to school
/// reject, admit into room, or admit displacing its worst held student.
pub open spec fn spec_step(
    sp: Seq<Seq<usize>>,
    ranks: Seq<Seq<Option<usize>>>,
    caps: Seq<usize>,
    st: EngineState,
) -> EngineState {
    let s0 = st.queue[0];
    let s = s0 as int;
    let q1 = st.queue.drop_first();
    if st.cursors[s] >= sp[s].len() {
        EngineState { held: st.held, asg: st.asg, queue: q1, cursors: st.cursors }
    } else {
        let c = st.cursors[s];
        let t_id = sp[s][c];
        let t = t_id as int;
        let cursors2 = st.cursors.update(s, c + 1);
        if ranks[t][s] is None {
            EngineState { held: st.held, asg: st.asg, queue: q1.push(s0), cursors: cursors2 }
        } else if st.held[t].len() < caps[t] {
            EngineState {
                held: st.held.update(t, st.held[t].push(s0)),
                asg: st.asg.update(s, Some(t_id)),
                queue: q1,
                cursors: cursors2,
            }
        } else {
            let w = spec_worst(ranks[t], st.held[t]);
            if ranks[t][s].unwrap() < ranks[t][w as int].unwrap() {
                let pos = choose|pos: int| 0 <= pos < st.held[t].len() && st.held[t][pos] == w;
                EngineState {
                    held: st.held.update(
                        t,
                        st.held[t].update(pos, st.held[t].last()).drop_last().push(s0),
                    ),
                    asg: st.asg.update(w as int, None).update(s, Some(t_id)),
                    queue: q1.push(w),
                    cursors: cursors2,
                }
            } else {
                EngineState { held: st.held, asg: st.asg, queue: q1.push(s0), cursors: cursors2 }
            }
        }
    }
}

/// Sum, over the students from index `i` on, of the model's remaining
/// proposals.
pub open spec fn sum_left(sp: Seq<Seq<usize>>, cursors: Seq<int>, i: int) -> int
    decreases cursors.len() - i,
{
    if i < 0 || i >= cursors.len() {
        0
    } else {
        (sp[i].len() - cursors[i]) + sum_left(sp, cursors, i + 1)
    }
}

/// Two cursor sequences that agree from `i` on give the same remaining sum.
proof fn lemma_sum_left_agree(sp: Seq<Seq<usize>>, c1: Seq<int>, c2: Seq<int>, i: int)
    requires
        c1.len() == c2.len(),
        forall|k: int| i <= k < c1.len() ==> c1[k] == c2[k],
    ensures
        sum_left(sp, c1, i) == sum_left(sp, c2, i),
    decreases c1.len() - i,
{
    if 0 <= i < c1.len() {
        lemma_sum_left_agree(sp, c1, c2, i + 1);
    }
}

/// Raising one cursor lowers the remaining sum by the same amount.
proof fn lemma_sum_left_update(sp: Seq<Seq<usize>>, c: Seq<int>, k: int, v: int, i: int)
    requires
        0 <= i <= k < c.len(),
    ensures
        sum_left(sp, c.update(k, v), i) == sum_left(sp, c, i) + c[k] - v,
    decreases c.len() - i,
{
    if i == k {
        lemma_sum_left_agree(sp, c.update(k, v), c, i + 1);
    } else {
        lemma_sum_left_update(sp, c, k, v, i + 1);
    }
}

/// The remaining sum is non-negative while every cursor is within bounds.
proof fn lemma_sum_left_nonneg(sp: Seq<Seq<usize>>, c: Seq<int>, i: int)
    requires
        forall|k: int| 0 <= k < c.len() ==> #[trigger] c[k] <= sp[k].len(),
    ensures
        sum_left(sp, c, i) >= 0,
    decreases c.len() - i,
{
    if 0 <= i < c.len() {
        lemma_sum_left_nonneg(sp, c, i + 1);
    }
}

/// Run the loop to quiescence: the final assignment is a function of the
/// preference data and the starting state alone.
pub open spec fn spec_run(
    sp: Seq<Seq<usize>>,
    ranks: Seq<Seq<Option<usize>>>,
    caps: Seq<usize>,
    st: EngineState,
) -> Seq<Option<usize>>
    decreases sum_left(sp, st.cursors, 0), st.queue.len()
        when state_wf(sp, st)
        via spec_run_decreases
{
    if st.queue.len() == 0 {
        st.asg
    } else {
        spec_run(sp, ranks, caps, spec_step(sp, ranks, caps, st))
    }
}

#[via_fn]
proof fn spec_run_decreases(
    sp: Seq<Seq<usize>>,
    ranks: Seq<Seq<Option<usize>>>,
    caps: Seq<usize>,
    st: EngineState,
) {
    if st.queue.len() > 0 {
        let st2 = spec_step(sp, ranks, caps, st);
        lemma_sum_left_nonneg(sp, st.cursors, 0);
        let s = st.queue[0] as int;
        if st.cursors[s] >= sp[s].len() {
        } else {
            lemma_sum_left_update(sp, st.cursors, s, st.cursors[s] + 1, 0);
            lemma_sum_left_nonneg(sp, st2.cursors, 0);
        }
    }
}

/// A non-empty held sequence has a worst-ranked member.
proof fn lemma_exists_worst(ranks_t: Seq<Option<usize>>, held_t: Seq<usize>)
    requires
        held_t.len() > 0,
    ensures
        exists|w: usize|
            held_t.contains(w) && forall|i: int|
                0 <= i < held_t.len() ==> (#[trigger] ranks_t[held_t[i] as int]).unwrap()
                    <= ranks_t[w as int].unwrap(),
    decreases held_t.len(),
{
    let last = held_t.last();
    if held_t.len() == 1 {
        assert(held_t.contains(last)) by {
            assert(held_t[0] == last);
        }
        assert forall|i: int|
            0 <= i < held_t.len() implies (#[trigger] ranks_t[held_t[i] as int]).unwrap()
            <= ranks_t[last as int].unwrap() by {
            assert(i == 0);
        }
    } else {
        let rest = held_t.drop_last();
        lemma_exists_worst(ranks_t, rest);
        let w0 = choose|w: usize|
            rest.contains(w) && forall|i: int|
                0 <= i < rest.len() ==> (#[trigger] ranks_t[rest[i] as int]).unwrap()
                    <= ranks_t[w as int].unwrap();
        let iw = choose|i: int| 0 <= i < rest.len() && rest[i] == w0;
        assert(held_t[iw] == w0);
        assert(held_t.contains(w0));
        assert(held_t.contains(last));
        let w = if ranks_t[last as int].unwrap() >= ranks_t[w0 as int].unwrap() {
            last
        } else {
            w0
        };
        assert forall|i: int|
            0 <= i < held_t.len() implies (#[trigger] ranks_t[held_t[i] as int]).unwrap()
            <= ranks_t[w as int].unwrap() by {
            if i < held_t.len() - 1 {
                assert(rest[i] == held_t[i]);
                assert(ranks_t[rest[i] as int].unwrap() <= ranks_t[w0 as int].unwrap());
            }
        }
    }
}

/// Under an injective rank table, a held member that every member ranks at
/// or below is the `spec_worst` member.
proof fn lemma_spec_worst_is(sch: School, w: usize)
    requires
        sch.wf(),
        sch.holds(w),
        forall|i: int|
            0 <= i < sch.held@.len() ==> sch.rank_val(#[trigger] sch.held@[i] as int)
                <= sch.rank_val(w as int),
    ensures
        spec_worst(sch.rank@, sch.held@) == w,
{
    let ranks_t = sch.rank@;
    let held_t = sch.held@;
    assert forall|i: int|
        0 <= i < held_t.len() implies (#[trigger] ranks_t[held_t[i] as int]).unwrap()
        <= ranks_t[w as int].unwrap() by {
        assert(sch.rank_val(held_t[i] as int) <= sch.rank_val(w as int));
    }
    let w2 = spec_worst(ranks_t, held_t);
    assert(held_t.contains(w2) && forall|i: int|
        0 <= i < held_t.len() ==> (#[trigger] ranks_t[held_t[i] as int]).unwrap()
            <= ranks_t[w2 as int].unwrap());
    let i1 = choose|i: int| 0 <= i < held_t.len() && held_t[i] == w;
    let i2 = choose|i: int| 0 <= i < held_t.len() && held_t[i] == w2;
    assert(ranks_t[w as int].unwrap() <= ranks_t[w2 as int].unwrap());
    assert(ranks_t[w2 as int].unwrap() <= ranks_t[w as int].unwrap());
    if w != w2 {
        assert(sch.ranks(w as int) && sch.ranks(w2 as int));
        assert(sch.rank_val(w as int) != sch.rank_val(w2 as int));
        assert(false);
    }
}

/// The model state that a given executable state denotes.
pub open spec fn exec_state(
    schools: Seq<School>,
    asg: Seq<Option<usize>>,
    queue: Seq<usize>,
    cursors: Seq<usize>,
) -> EngineState {
    EngineState {
        held: Seq::new(schools.len(), |t: int| schools[t].held@),
        asg: asg,
        queue: queue,
        cursors: cursors.map_values(|v: usize| v as int),
    }
}

/// The rank tables of a school sequence.
pub open spec fn ranks_of(schools: Seq<School>) -> Seq<Seq<Option<usize>>> {
    Seq::new(schools.len(), |t: int| schools[t].rank@)
}

/// The capacities of a school sequence.
pub open spec fn caps_of(schools: Seq<School>) -> Seq<usize> {
    Seq::new(schools.len(), |t: int| schools[t].capacity)
}

/// The state the loop starts from: empty held sets, an empty assignment,
/// every student queued in ascending order, every cursor at zero.
pub open spec fn start_state(n_students: int, n_schools: int) -> EngineState {
    EngineState {
        held: Seq::new(n_schools as nat, |t: int| Seq::empty()),
        asg: Seq::new(n_students as nat, |s: int| None),
        queue: Seq::new(n_students as nat, |s: int| s as usize),
        cursors: Seq::new(n_students as nat, |s: int| 0),
    }
}

/// The rank table a school derives from its preference list over `n`
/// students: each listed student's position, `None` for the rest.
pub open spec fn spec_rank_table(prefs: Seq<usize>, n: int) -> Seq<Option<usize>> {
    Seq::new(
        n as nat,
        |s: int|
            if prefs.contains(s as usize) {
                Some(prefs.index_of(s as usize) as usize)
            } else {
                None
            },
    )
}

/// The matching as a function of the three raw inputs alone: the fixed
/// ascending seeding order and FIFO requeue discipline leave the
/// deferred-acceptance run no other freedom, so identical inputs always
/// produce this, and only this, assignment.
pub open spec fn spec_matching(
    sp: Seq<Seq<usize>>,
    tp: Seq<Seq<usize>>,
    caps: Seq<usize>,
) -> Seq<Option<usize>> {
    spec_run(
        sp,
        Seq::new(tp.len(), |t: int| spec_rank_table(tp[t], sp.len() as int)),
        caps,
        start_state(sp.len() as int, tp.len() as int),
    )
}

/// Retiring an exhausted student matches the model step.
proof fn lemma_model_retire(
    sp: Seq<Seq<usize>>,
    schools: Seq<School>,
    asg: Seq<Option<usize>>,
    q: Seq<usize>,
    cursors: Seq<usize>,
)
    requires
        engine_inv(sp, schools, asg, q, cursors),
        q.len() > 0,
        cursors[q[0] as int] == sp[q[0] as int].len(),
    ensures
        spec_step(sp, ranks_of(schools), caps_of(schools), exec_state(schools, asg, q, cursors))
            == exec_state(schools, asg, q.subrange(1, q.len() as int), cursors),
{
    let st = exec_state(schools, asg, q, cursors);
    let s = q[0] as int;
    assert(st.cursors[s] == cursors[s] as int);
    let st2 = spec_step(sp, ranks_of(schools), caps_of(schools), st);
    let target = exec_state(schools, asg, q.subrange(1, q.len() as int), cursors);
    assert(st2.queue =~= target.queue);
    assert(st2 == target);
}

/// A rejection (unranked, or dominated by a full held set) matches the
/// model step: cursor advanced, student requeued, nothing else moved.
proof fn lemma_model_reject(
    sp: Seq<Seq<usize>>,
    schools: Seq<School>,
    asg: Seq<Option<usize>>,
    q: Seq<usize>,
    cursors: Seq<usize>,
    c1: usize,
)
    requires
        engine_inv(sp, schools, asg, q, cursors),
        q.len() > 0,
        cursors[q[0] as int] < sp[q[0] as int].len(),
        c1 == cursors[q[0] as int] + 1,
        ({
            let s = q[0] as int;
            let t = sp[s][cursors[s] as int] as int;
            ||| !schools[t].ranks(s)
            ||| (schools[t].held@.len() == schools[t].capacity && school_prefers_all_held(
                schools[t],
                s,
            ))
        }),
    ensures
        spec_step(sp, ranks_of(schools), caps_of(schools), exec_state(schools, asg, q, cursors))
            == exec_state(
            schools,
            asg,
            q.subrange(1, q.len() as int).push(q[0]),
            cursors.update(q[0] as int, c1),
        ),
{
    let st = exec_state(schools, asg, q, cursors);
    let s = q[0] as int;
    let c = cursors[s] as int;
    let t = sp[s][c] as int;
    let sch = schools[t];
    assert(st.cursors[s] == c);
    assert((sp[s][c] as int) < schools.len());
    assert(ranks_of(schools)[t] == sch.rank@);
    assert(caps_of(schools)[t] == sch.capacity);
    assert(st.held[t] == sch.held@);
    let st2 = spec_step(sp, ranks_of(schools), caps_of(schools), st);
    let target = exec_state(
        schools,
        asg,
        q.subrange(1, q.len() as int).push(q[0]),
        cursors.update(s, c1),
    );
    if !sch.ranks(s) {
        assert(sch.rank@[s] is None);
    } else {
        // full and dominated: the worst held member exists and outranks
        // the proposer, so the model also requeues
        assert(sch.held@.len() == sch.capacity && school_prefers_all_held(sch, s));
        assert(sch.held@.len() > 0);
        lemma_exists_worst(sch.rank@, sch.held@);
        let w = spec_worst(sch.rank@, sch.held@);
        assert(sch.held@.contains(w) && forall|i: int|
            0 <= i < sch.held@.len() ==> (#[trigger] sch.rank@[sch.held@[i] as int]).unwrap()
                <= sch.rank@[w as int].unwrap());
        let iw = choose|i: int| 0 <= i < sch.held@.len() && sch.held@[i] == w;
        assert(sch.rank_val(sch.held@[iw] as int) < sch.rank_val(s));
        assert(!(sch.rank@[s].unwrap() < sch.rank@[w as int].unwrap()));
    }
    assert(st2.queue =~= target.queue);
    assert(st2.cursors =~= target.cursors);
    assert(st2 == target);
}

/// An admission into free room matches the model step.
proof fn lemma_model_room(
    sp: Seq<Seq<usize>>,
    schools: Seq<School>,
    asg: Seq<Option<usize>>,
    q: Seq<usize>,
    cursors: Seq<usize>,
    c1: usize,
    t_id: usize,
    sch2: School,
)
    requires
        engine_inv(sp, schools, asg, q, cursors),
        q.len() > 0,
        cursors[q[0] as int] < sp[q[0] as int].len(),
        c1 == cursors[q[0] as int] + 1,
        t_id == sp[q[0] as int][cursors[q[0] as int] as int],
        (t_id as int) < schools.len(),
        schools[t_id as int].ranks(q[0] as int),
        schools[t_id as int].held@.len() < schools[t_id as int].capacity,
        sch2.held@ == schools[t_id as int].held@.push(q[0]),
    ensures
        spec_step(sp, ranks_of(schools), caps_of(schools), exec_state(schools, asg, q, cursors))
            == exec_state(
            schools.update(t_id as int, sch2),
            asg.update(q[0] as int, Some(t_id)),
            q.subrange(1, q.len() as int),
            cursors.update(q[0] as int, c1),
        ),
{
    let st = exec_state(schools, asg, q, cursors);
    let s = q[0] as int;
    let c = cursors[s] as int;
    let t = t_id as int;
    let sch = schools[t];
    assert(st.cursors[s] == c);
    assert(ranks_of(schools)[t] == sch.rank@);
    assert(caps_of(schools)[t] == sch.capacity);
    assert(st.held[t] == sch.held@);
    assert(sch.rank@[s] is Some);
    let st2 = spec_step(sp, ranks_of(schools), caps_of(schools), st);
    let target = exec_state(
        schools.update(t, sch2),
        asg.update(s, Some(t_id)),
        q.subrange(1, q.len() as int),
        cursors.update(s, c1),
    );
    assert(st2.held =~= target.held);
    assert(st2.queue =~= target.queue);
    assert(st2.cursors =~= target.cursors);
    assert(st2 == target);
}

/// An admission that displaces the worst held student matches the model
/// step, eviction slot and all.
proof fn lemma_model_displace(
    sp: Seq<Seq<usize>>,
    schools: Seq<School>,
    asg: Seq<Option<usize>>,
    q: Seq<usize>,
    cursors: Seq<usize>,
    c1: usize,
    t_id: usize,
    w: usize,
    pos_x: int,
    sch2: School,
)
    requires
        engine_inv(sp, schools, asg, q, cursors),
        q.len() > 0,
        cursors[q[0] as int] < sp[q[0] as int].len(),
        c1 == cursors[q[0] as int] + 1,
        t_id == sp[q[0] as int][cursors[q[0] as int] as int],
        (t_id as int) < schools.len(),
        schools[t_id as int].ranks(q[0] as int),
        schools[t_id as int].held@.len() == schools[t_id as int].capacity,
        schools[t_id as int].holds(w),
        schools[t_id as int].rank_val(q[0] as int) < schools[t_id as int].rank_val(w as int),
        forall|i: int|
            0 <= i < schools[t_id as int].held@.len() ==> schools[t_id as int].rank_val(
                #[trigger] schools[t_id as int].held@[i] as int,
            ) <= schools[t_id as int].rank_val(w as int),
        0 <= pos_x < schools[t_id as int].held@.len(),
        schools[t_id as int].held@[pos_x] == w,
        sch2.held@ == schools[t_id as int].held@.update(
            pos_x,
            schools[t_id as int].held@.last(),
        ).drop_last().push(q[0]),
    ensures
        spec_step(sp, ranks_of(schools), caps_of(schools), exec_state(schools, asg, q, cursors))
            == exec_state(
            schools.update(t_id as int, sch2),
            asg.update(w as int, None).update(q[0] as int, Some(t_id)),
            q.subrange(1, q.len() as int).push(w),
            cursors.update(q[0] as int, c1),
        ),
{
    let st = exec_state(schools, asg, q, cursors);
    let s = q[0] as int;
    let c = cursors[s] as int;
    let t = t_id as int;
    let sch = schools[t];
    assert(st.cursors[s] == c);
    assert(ranks_of(schools)[t] == sch.rank@);
    assert(caps_of(schools)[t] == sch.capacity);
    assert(st.held[t] == sch.held@);
    assert(sch.rank@[s] is Some);
    lemma_spec_worst_is(sch, w);
    assert(spec_worst(sch.rank@, sch.held@) == w);
    assert(sch.rank@[s].unwrap() < sch.rank@[w as int].unwrap()) by {
        assert(sch.rank_val(s) < sch.rank_val(w as int));
    }
    let pos = choose|pos: int| 0 <= pos < sch.held@.len() && sch.held@[pos] == w;
    assert(pos == pos_x) by {
        if pos != pos_x {
            assert(sch.held@[pos] == sch.held@[pos_x]);
            assert(has_dup(sch.held@));
        }
    }
    let st2 = spec_step(sp, ranks_of(schools), caps_of(schools), st);
    let target = exec_state(
        schools.update(t, sch2),
        asg.update(w as int, None).update(s, Some(t_id)),
        q.subrange(1, q.len() as int).push(w),
        cursors.update(s, c1),
    );
    assert(st2.held =~= target.held);
    assert(st2.queue =~= target.queue);
    assert(st2.cursors =~= target.cursors);
    assert(st2 == target);
}

} // verus!
