//! One record per school: fixed capacity, a rank table derived once from the
//! school's preference list, and the currently held set of proposers.
//!
//! The rank table maps each acceptable student id to its position in the
//! school's preference list (lower = more preferred); unranked students have
//! no entry. Ranks of distinct students are distinct, so the worst held
//! student is always uniquely determined.

use vstd::prelude::*;
use crate::validate::has_dup;
use crate::validate::list_ok;

verus! {

/// Mutable per-school state for one run of the matching engine.
pub struct School {
    /// Fixed positive number of students the school can hold.
    pub capacity: usize,
    /// `rank[s] == Some(j)` when student `s` stands at position `j` of the
    /// school's preference list; `None` when the school does not rank `s`.
    pub rank: Vec<Option<usize>>,
    /// Currently held student ids, unordered, at most `capacity` many.
    pub held: Vec<usize>,
}

/// The outcome of asking a school to evaluate one proposing candidate.
#[derive(Clone, Copy, Debug, PartialEq, Eq, Structural)]
pub enum Decision {
    /// The candidate has no entry in this school's rank table.
    RejectUnranked,
    /// The held set has room; the candidate is admitted outright.
    AcceptRoom,
    /// The held set is full and the candidate outranks the worst held
    /// student, who is carried here and must be evicted first.
    AcceptDisplacing(usize),
    /// The held set is full and the candidate does not outrank the worst
    /// held student.
    RejectDominated,
}

impl School {
    /// The school ranks student `s`.
    pub open spec fn ranks(self, s: int) -> bool {
        0 <= s < self.rank@.len() && self.rank@[s] is Some
    }

    /// The rank of student `s`; meaningful only when `self.ranks(s)`.
    pub open spec fn rank_val(self, s: int) -> int {
        self.rank@[s].unwrap() as int
    }

    /// The school currently holds student `s`.
    pub open spec fn holds(self, s: usize) -> bool {
        self.held@.contains(s)
    }

    /// Well-formedness: positive capacity, the held set within capacity and
    /// duplicate-free, every held student ranked, and ranks injective.
    pub open spec fn wf(self) -> bool {
        &&& self.capacity >= 1
        &&& self.held@.len() <= self.capacity
        &&& !has_dup(self.held@)
        &&& forall|i: int| 0 <= i < self.held@.len() ==> self.ranks(#[trigger] self.held@[i] as int)
        &&& forall|a: int, b: int|
            #![trigger self.rank_val(a), self.rank_val(b)]
            self.ranks(a) && self.ranks(b) && a != b ==> self.rank_val(a) != self.rank_val(b)
    }

    /// Build one school from its capacity and preference list: the rank
    /// table holds each listed student's list position, the held set starts
    /// empty.
    pub fn new(capacity: usize, preferences: &Vec<usize>, num_students: usize) -> (school: School)
        requires
            capacity >= 1,
            list_ok(preferences@, num_students as int),
        ensures
            school.wf(),
            school.capacity == capacity,
            school.held@.len() == 0,
            school.rank@.len() == num_students,
            forall|j: int|
                0 <= j < preferences@.len() ==> school.rank@[#[trigger] preferences@[j] as int]
                    == Some(j as usize),
            forall|s: int|
                0 <= s < num_students && #[trigger] school.rank@[s] is Some ==> {
                    let j = school.rank@[s].unwrap() as int;
                    0 <= j < preferences@.len() && preferences@[j] == s
                },
    {
        let mut rank: Vec<Option<usize>> = vec![None; num_students];
        let num_prefs = preferences.len();
        for j in 0..num_prefs
            invariant
                num_prefs == preferences@.len(),
                rank@.len() == num_students,
                forall|k: int|
                    0 <= k < j ==> rank@[#[trigger] preferences@[k] as int] == Some(k as usize),
                forall|s: int|
                    0 <= s < num_students && #[trigger] rank@[s] is Some ==> {
                        let jj = rank@[s].unwrap() as int;
                        0 <= jj < j && preferences@[jj] == s
                    },
        {
            let student = preferences[j];
            rank[student] = Some(j);
            assert forall|k: int| 0 <= k < j + 1 implies rank@[#[trigger] preferences@[k] as int]
                == Some(k as usize) by {
                if k < j {
                    assert(preferences@[k] != preferences@[j as int]);
                }
            }
        }
        let school = School { capacity, rank, held: Vec::new() };
        assert forall|a: int, b: int|
            #![trigger school.rank_val(a), school.rank_val(b)]
            school.ranks(a) && school.ranks(b) && a != b implies school.rank_val(a)
            != school.rank_val(b) by {
            let ja = school.rank@[a].unwrap() as int;
            let jb = school.rank@[b].unwrap() as int;
            assert(preferences@[ja] == a && preferences@[jb] == b);
        }
        school
    }

    /// Look the candidate up in the rank table.
    pub fn rank_of(&self, student: usize) -> (r: Option<usize>)
        requires
            (student as int) < self.rank@.len(),
        ensures
            r == self.rank@[student as int],
    {
        self.rank[student]
    }

    /// Decide what admitting `student` would take: rejection for lack of a
    /// rank entry, admission into free room, admission displacing the
    /// uniquely worst held student, or rejection as dominated by every held
    /// student.
    pub fn would_accept(&self, student: usize) -> (d: Decision)
        requires
            self.wf(),
            (student as int) < self.rank@.len(),
            !self.holds(student),
        ensures
            match d {
                Decision::RejectUnranked => !self.ranks(student as int),
                Decision::AcceptRoom => self.ranks(student as int) && self.held@.len()
                    < self.capacity,
                Decision::AcceptDisplacing(worst) => {
                    &&& self.ranks(student as int)
                    &&& self.held@.len() == self.capacity
                    &&& self.holds(worst)
                    &&& self.rank_val(student as int) < self.rank_val(worst as int)
                    &&& forall|i: int|
                        0 <= i < self.held@.len() ==> self.rank_val(
                            #[trigger] self.held@[i] as int,
                        ) <= self.rank_val(worst as int)
                },
                Decision::RejectDominated => {
                    &&& self.ranks(student as int)
                    &&& self.held@.len() == self.capacity
                    &&& forall|i: int|
                        0 <= i < self.held@.len() ==> self.rank_val(
                            #[trigger] self.held@[i] as int,
                        ) < self.rank_val(student as int)
                },
            },
    {
        let student_rank = match self.rank_of(student) {
            Some(rank) => rank,
            None => { return Decision::RejectUnranked; },
        };
        if self.held.len() < self.capacity {
            return Decision::AcceptRoom;
        }
        let mut worst_idx: usize = 0;
        let mut worst_rank: usize = self.rank[self.held[0]].unwrap();
        let held_len = self.held.len();
        for i in 1..held_len
            invariant
                held_len == self.held@.len(),
                0 < held_len,
                worst_idx < i,
                self.ranks(self.held@[worst_idx as int] as int),
                worst_rank == self.rank_val(self.held@[worst_idx as int] as int),
                forall|k: int|
                    0 <= k < i ==> self.rank_val(#[trigger] self.held@[k] as int) <= worst_rank,
        {
            let current = self.held[i];
            let rank = self.rank[current].unwrap();
            if rank > worst_rank {
                worst_idx = i;
                worst_rank = rank;
            }
        }
        if student_rank < worst_rank {
            Decision::AcceptDisplacing(self.held[worst_idx])
        } else {
            let worst = self.held[worst_idx];
            assert(self.rank_val(student as int) != self.rank_val(worst as int)) by {
                assert(self.held@.contains(worst));
            }
            assert forall|i: int|
                0 <= i < self.held@.len() implies self.rank_val(#[trigger] self.held@[i] as int)
                < self.rank_val(student as int) by {
                assert(self.held@.contains(self.held@[i]));
                assert(self.rank_val(self.held@[i] as int) != self.rank_val(student as int));
            }
            Decision::RejectDominated
        }
    }

    /// Add a ranked, not yet held student to the held set; the caller must
    /// first make room, evicting if the school was full.
    pub fn add_student(&mut self, student: usize)
        requires
            old(self).wf(),
            old(self).held@.len() < old(self).capacity,
            old(self).ranks(student as int),
            !old(self).holds(student),
        ensures
            final(self).held@ == old(self).held@.push(student),
            final(self).capacity == old(self).capacity,
            final(self).rank == old(self).rank,
            final(self).wf(),
    {
        self.held.push(student);
        assert forall|i: int| 0 <= i < self.held@.len() implies self.ranks(
            #[trigger] self.held@[i] as int,
        ) by {
            if i < self.held@.len() - 1 {
                assert(old(self).ranks(old(self).held@[i] as int));
            }
        }
        assert forall|a: int, b: int|
            #![trigger self.rank_val(a), self.rank_val(b)]
            self.ranks(a) && self.ranks(b) && a != b implies self.rank_val(a) != self.rank_val(
            b,
        ) by {
            assert(old(self).ranks(a) && old(self).ranks(b));
            assert(old(self).rank_val(a) != old(self).rank_val(b));
        }
        assert(!has_dup(self.held@)) by {
            let h = self.held@;
            let o = old(self).held@;
            assert forall|i: int, j: int| 0 <= i < j < h.len() implies h[i] != h[j] by {
                if j < h.len() - 1 {
                    assert(o[i] == h[i] && o[j] == h[j]);
                } else {
                    assert(h[j] == student && o.contains(o[i]));
                }
            }
        }
    }

    /// Remove a currently held student (the evicted one on displacement).
    /// The held set is unordered, so removal swaps with the last element.
    pub fn remove_student(&mut self, student: usize)
        requires
            old(self).wf(),
            old(self).holds(student),
        ensures
            final(self).held@.len() == old(self).held@.len() - 1,
            forall|x: usize|
                #[trigger] final(self).holds(x) <==> old(self).holds(x) && x != student,
            final(self).capacity == old(self).capacity,
            final(self).rank == old(self).rank,
            final(self).wf(),
            exists|pos: int|
                {
                    &&& 0 <= pos < old(self).held@.len()
                    &&& old(self).held@[pos] == student
                    &&& final(self).held@ == old(self).held@.update(
                        pos,
                        old(self).held@.last(),
                    ).drop_last()
                },
    {
        let ghost o = old(self).held@;
        let len = self.held.len();
        let mut pos: usize = 0;
        while pos < len
            invariant
                len == self.held@.len(),
                pos <= len,
                *self == *old(self),
                forall|k: int| 0 <= k < pos ==> self.held@[k] != student,
            decreases len - pos,
        {
            if self.held[pos] == student {
                break;
            }
            pos = pos + 1;
        }
        assert(pos < len && o[pos as int] == student) by {
            let w = choose|w: int| 0 <= w < o.len() && o[w] == student;
            assert(pos <= w);
        }
        self.held.swap_remove(pos);
        let ghost h = self.held@;
        // After the swap-remove, position `pos` holds the old last element
        // (unless `pos` was last) and everything else is unchanged.
        assert forall|x: usize| #[trigger] h.contains(x) implies o.contains(x) && x != student by {
            let i = choose|i: int| 0 <= i < h.len() && h[i] == x;
            if i == pos as int {
                assert(o[o.len() - 1] == x);
            } else {
                assert(o[i] == x);
            }
            assert(o.contains(x));
            let j = choose|j: int| 0 <= j < o.len() && o[j] == x;
            if x == student {
                assert(o[j] == o[pos as int] && j != pos as int || j == pos as int);
                if j != pos as int {
                    assert(has_dup(o));
                }
                if i == pos as int {
                    assert(o[o.len() - 1] == student);
                    if pos as int != o.len() - 1 {
                        assert(has_dup(o));
                    }
                }
            }
        }
        assert forall|x: usize| o.contains(x) && x != student implies #[trigger] h.contains(x) by {
            let j = choose|j: int| 0 <= j < o.len() && o[j] == x;
            if j == o.len() - 1 {
                if pos as int == o.len() - 1 {
                    assert(o[pos as int] == student);
                } else {
                    assert(h[pos as int] == x);
                }
            } else {
                assert(h[j] == x);
            }
        }
        assert(!has_dup(h)) by {
            assert forall|i: int, j: int| 0 <= i < j < h.len() implies h[i] != h[j] by {
                if i == pos as int {
                    assert(h[i] == o[o.len() - 1] && h[j] == o[j]);
                } else if j == pos as int {
                    assert(h[j] == o[o.len() - 1] && h[i] == o[i]);
                } else {
                    assert(h[i] == o[i] && h[j] == o[j]);
                }
            }
        }
        assert forall|i: int| 0 <= i < h.len() implies self.ranks(#[trigger] h[i] as int) by {
            assert(h.contains(h[i]));
            let j = choose|j: int| 0 <= j < o.len() && o[j] == h[i];
            assert(old(self).ranks(o[j] as int));
        }
        assert forall|a: int, b: int|
            #![trigger self.rank_val(a), self.rank_val(b)]
            self.ranks(a) && self.ranks(b) && a != b implies self.rank_val(a) != self.rank_val(
            b,
        ) by {
            assert(old(self).ranks(a) && old(self).ranks(b));
            assert(old(self).rank_val(a) != old(self).rank_val(b));
        }
    }
}

} // verus!
