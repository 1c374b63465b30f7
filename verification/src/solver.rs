//! Role indexing and the backtracking search over lab/discussion
//! alternatives.
//!
//! The preference index holds the time-sorted pool of normalized meetings and,
//! per desired course, the pool positions of its lecture, lab, discussion and
//! exam meetings. A sentinel position one past the pool stands for "no such
//! requirement", so the search treats courses with and without a lab (or
//! discussion) uniformly. The search walks the Cartesian product of lab and
//! discussion alternatives, pruning as soon as the chosen set stops being
//! feasible, and records every complete assignment.

use vstd::prelude::*;
use vstd::multiset::Multiset;
use std::collections::HashMap;
use crate::parse::{CourseListContext, MeetingType, MeetingView, SectionMeeting};
use crate::parse::{lemma_norm_all_lectures, norm_all, views_of};
use crate::utils::{ErrorKind, SolveError};

verus! {

broadcast use
    vstd::std_specs::hash::group_hash_axioms,
    vstd::seq_lib::group_to_multiset_ensures;

/// The pool is ordered by meeting start.
pub open spec fn pool_sorted(s: Seq<SectionMeeting>) -> bool {
    forall|i: int, j: int| 0 <= i < j < s.len() ==> s[i].u_start <= s[j].u_start
}

/// The position a lecture identifier resolves to: the last index of the
/// desired list holding it, or -1 when it is absent.
pub open spec fn course_of(ids: Seq<u64>, lid: u64) -> int
    decreases ids.len(),
{
    if ids.len() == 0 {
        -1
    } else if ids.last() == lid {
        ids.len() - 1
    } else {
        course_of(ids.drop_last(), lid)
    }
}

pub proof fn lemma_course_of(ids: Seq<u64>, lid: u64)
    ensures
        -1 <= course_of(ids, lid) < ids.len(),
        ids.contains(lid) <==> 0 <= course_of(ids, lid) < ids.len(),
        ids.contains(lid) ==> ids[course_of(ids, lid)] == lid,
    decreases ids.len(),
{
    if ids.len() > 0 {
        lemma_course_of(ids.drop_last(), lid);
        if ids.last() == lid {
            assert(ids[ids.len() - 1] == lid);
            assert(ids.contains(lid));
        } else {
            if ids.drop_last().contains(lid) {
                let w = choose|w: int|
                    0 <= w < ids.drop_last().len() && ids.drop_last()[w] == lid;
                assert(ids[w] == lid);
                assert(ids.contains(lid));
            }
            if ids.contains(lid) {
                let w = choose|w: int| 0 <= w < ids.len() && ids[w] == lid;
                assert(w != ids.len() - 1);
                assert(ids.drop_last()[w] == lid);
                assert(ids.drop_last().contains(lid));
            }
        }
    }
}


/// The course a pool position belongs to: the last desired index holding its
/// lecture identifier.
pub open spec fn cof_in(ids: Seq<u64>, pool: Seq<SectionMeeting>, i: int) -> int {
    course_of(ids, pool[i].lecture_id)
}

/// Entry `t` of `lists[k]` is a pool position below `hi` of role `mt` owned
/// by course `k`.
pub open spec fn entry_ok_upto(
    ids: Seq<u64>,
    pool: Seq<SectionMeeting>,
    lists: Seq<Vec<usize>>,
    k: int,
    t: int,
    mt: MeetingType,
    hi: int,
) -> bool {
    let e = lists[k]@[t] as int;
    &&& 0 <= e < hi
    &&& pool[e].meeting_type == mt
    &&& cof_in(ids, pool, e) == k
}

/// `lists` fully and exclusively indexes the pool positions below `hi` of
/// role `mt`: entry correctness, strict ascent, and completeness.
pub open spec fn lists_wf_upto(
    ids: Seq<u64>,
    pool: Seq<SectionMeeting>,
    lists: Seq<Vec<usize>>,
    mt: MeetingType,
    hi: int,
) -> bool {
    &&& lists.len() == ids.len()
    &&& forall|k: int, t: int|
        0 <= k < lists.len() && 0 <= t < lists[k]@.len() ==> #[trigger] entry_ok_upto(
            ids,
            pool,
            lists,
            k,
            t,
            mt,
            hi,
        )
    &&& forall|k: int, t1: int, t2: int|
        0 <= k < lists.len() && 0 <= t1 < t2 < lists[k]@.len() ==> #[trigger] lists[k]@[t1]
            < #[trigger] lists[k]@[t2]
    &&& forall|e: int|
        0 <= e < hi && (#[trigger] pool[e]).meeting_type == mt ==> 0 <= cof_in(ids, pool, e)
            < lists.len() && lists[cof_in(ids, pool, e)]@.contains(e as usize)
}

/// The exam slots over the pool positions below `hi`: each slot holds the
/// highest exam position of its course seen so far, or nothing.
pub open spec fn exams_upto(
    ids: Seq<u64>,
    pool: Seq<SectionMeeting>,
    exams: Seq<Option<usize>>,
    hi: int,
) -> bool {
    &&& exams.len() == ids.len()
    &&& forall|k: int|
        0 <= k < exams.len() && (#[trigger] exams[k]) is Some ==> {
            let e = exams[k]->0 as int;
            &&& 0 <= e < hi
            &&& pool[e].meeting_type == MeetingType::Exam
            &&& cof_in(ids, pool, e) == k
        }
    &&& forall|i: int|
        0 <= i < hi && (#[trigger] pool[i]).meeting_type == MeetingType::Exam ==> 0 <= cof_in(
            ids,
            pool,
            i,
        ) < exams.len() && exams[cof_in(ids, pool, i)] is Some && i <= exams[cof_in(
            ids,
            pool,
            i,
        )]->0 as int
}

/// The diagnostics list holds exactly the `Other`-typed pool positions below
/// `hi`.
pub open spec fn others_upto(
    ids: Seq<u64>,
    pool: Seq<SectionMeeting>,
    others: Seq<usize>,
    hi: int,
) -> bool {
    &&& forall|t: int|
        0 <= t < others.len() ==> {
            let e = (#[trigger] others[t]) as int;
            0 <= e < hi && pool[e].meeting_type == MeetingType::Other
        }
    &&& forall|i: int|
        0 <= i < hi && (#[trigger] pool[i]).meeting_type == MeetingType::Other
            ==> others.contains(i as usize)
}

/// Time-sorted meeting pool plus role-partitioned pool positions per desired
/// course, ready for the backtracking search.
pub struct CoursePreferences {
    /// The desired lecture identifiers, one per course, in request order.
    pub lecture_ids: Vec<u64>,
    /// The pool of normalized meetings, sorted by `u_start`.
    pub sections: Vec<SectionMeeting>,
    /// Per course, the pool positions of its lab alternatives, or the
    /// sentinel alone when it has none.
    pub lab_sections: Vec<Vec<usize>>,
    /// Per course, the pool positions of its lecture meetings.
    pub lecture_sections: Vec<Vec<usize>>,
    /// Per course, the pool positions of its discussion alternatives, or the
    /// sentinel alone when it has none.
    pub discussion_sections: Vec<Vec<usize>>,
    /// One past the last pool position: the "no requirement" marker.
    pub sentinel_idx: usize,
    /// Per course, the pool position of its exam meeting, if any.
    pub exam_sections: Vec<Option<usize>>,
    /// Structured diagnostics: pool positions whose meeting type was
    /// unrecognized; they take part in no schedule.
    pub other_sections: Vec<usize>,
}

impl CoursePreferences {
    /// Number of desired courses.
    pub open spec fn n(self) -> int {
        self.lecture_ids@.len() as int
    }

    /// Pool size.
    pub open spec fn p(self) -> int {
        self.sections@.len() as int
    }

    /// The course a pool position belongs to.
    pub open spec fn cof(self, i: int) -> int {
        course_of(self.lecture_ids@, self.sections@[i].lecture_id)
    }

    /// Whether course `k` has any meeting of role `mt` in the pool.
    pub open spec fn has_role(self, k: int, mt: MeetingType) -> bool {
        exists|i: int|
            0 <= i < self.p() && (#[trigger] self.sections@[i]).meeting_type == mt && self.cof(i)
                == k
    }

    /// `lists` fully and exclusively indexes the pool positions of role `mt`:
    /// entry correctness, strict ascent, and completeness.
    pub open spec fn role_lists_wf(self, lists: Seq<Vec<usize>>, mt: MeetingType) -> bool {
        lists_wf_upto(self.lecture_ids@, self.sections@, lists, mt, self.p())
    }

    /// An alternative list after sentinel insertion: the role's positions
    /// where the course has the role, the sentinel alone where it does not.
    pub open spec fn alt_lists_wf(self, lists: Seq<Vec<usize>>, mt: MeetingType) -> bool {
        &&& lists.len() == self.n()
        &&& forall|k: int, t: int|
            0 <= k < lists.len() && 0 <= t < lists[k]@.len() && self.has_role(k, mt)
                ==> #[trigger] entry_ok_upto(
                self.lecture_ids@,
                self.sections@,
                lists,
                k,
                t,
                mt,
                self.p(),
            )
        &&& forall|k: int, t1: int, t2: int|
            0 <= k < lists.len() && 0 <= t1 < t2 < lists[k]@.len() ==> #[trigger] lists[k]@[t1]
                < #[trigger] lists[k]@[t2]
        &&& forall|e: int|
            0 <= e < self.p() && (#[trigger] self.sections@[e]).meeting_type == mt
                ==> lists[self.cof(e)]@.contains(e as usize)
        &&& forall|k: int|
            0 <= k < lists.len() && !self.has_role(k, mt) ==> (#[trigger] lists[k])@ == seq![
                self.sentinel_idx,
            ]
        &&& forall|k: int| 0 <= k < lists.len() ==> (#[trigger] lists[k])@.len() >= 1
    }

    /// The exam slot per course: the highest exam position of the course, or
    /// nothing when it has none.
    pub open spec fn exams_wf(self) -> bool {
        exams_upto(self.lecture_ids@, self.sections@, self.exam_sections@, self.p())
    }

    /// The diagnostics list holds exactly the `Other`-typed pool positions.
    pub open spec fn others_wf(self) -> bool {
        others_upto(self.lecture_ids@, self.sections@, self.other_sections@, self.p())
    }

    /// A fully validated preference index: the search relies on exactly this.
    #[verifier::opaque]
    pub open spec fn wf(self) -> bool {
        &&& pool_sorted(self.sections@)
        &&& self.sentinel_idx as int == self.p()
        &&& forall|i: int|
            0 <= i < self.p() ==> self.lecture_ids@.contains(
                (#[trigger] self.sections@[i]).lecture_id,
            )
        &&& self.role_lists_wf(self.lecture_sections@, MeetingType::Lecture)
        &&& self.alt_lists_wf(self.lab_sections@, MeetingType::Lab)
        &&& self.alt_lists_wf(self.discussion_sections@, MeetingType::Discussion)
        &&& self.exams_wf()
        &&& self.others_wf()
    }
}


proof fn lemma_lists_push(
    ids: Seq<u64>,
    pool: Seq<SectionMeeting>,
    old_l: Seq<Vec<usize>>,
    new_l: Seq<Vec<usize>>,
    c: int,
    idx: int,
    mt: MeetingType,
)
    requires
        lists_wf_upto(ids, pool, old_l, mt, idx),
        0 <= c < old_l.len(),
        new_l.len() == old_l.len(),
        new_l[c]@ == old_l[c]@.push(idx as usize),
        forall|j: int| 0 <= j < old_l.len() && j != c ==> old_l[j] == #[trigger] new_l[j],
        0 <= idx < pool.len(),
        idx <= usize::MAX,
        pool[idx].meeting_type == mt,
        cof_in(ids, pool, idx) == c,
    ensures
        lists_wf_upto(ids, pool, new_l, mt, idx + 1),
{
    assert forall|k: int, t: int|
        0 <= k < new_l.len() && 0 <= t < new_l[k]@.len() implies #[trigger] entry_ok_upto(
        ids,
        pool,
        new_l,
        k,
        t,
        mt,
        idx + 1,
    ) by {
        if k == c && t == old_l[c]@.len() {
            assert(new_l[k]@[t] == idx as usize);
        } else {
            assert(new_l[k]@[t] == old_l[k]@[t]);
            assert(entry_ok_upto(ids, pool, old_l, k, t, mt, idx));
        }
    }
    assert forall|k: int, t1: int, t2: int|
        0 <= k < new_l.len() && 0 <= t1 < t2 < new_l[k]@.len() implies new_l[k]@[t1]
        < new_l[k]@[t2] by {
        if k == c && t2 == old_l[c]@.len() {
            assert(entry_ok_upto(ids, pool, old_l, k, t1, mt, idx));
            assert(old_l[k]@[t1] < idx as usize);
        } else {
            assert(new_l[k]@[t1] == old_l[k]@[t1] && new_l[k]@[t2] == old_l[k]@[t2]);
        }
    }
    assert forall|e: int|
        0 <= e < idx + 1 && (#[trigger] pool[e]).meeting_type == mt implies 0 <= cof_in(
        ids,
        pool,
        e,
    ) < new_l.len() && new_l[cof_in(ids, pool, e)]@.contains(e as usize) by {
        if e == idx {
            assert(new_l[c]@[old_l[c]@.len() as int] == idx as usize);
            assert(new_l[c]@.contains(idx as usize));
        } else {
            let kk = cof_in(ids, pool, e);
            assert(old_l[kk]@.contains(e as usize));
            let w = choose|w: int| 0 <= w < old_l[kk]@.len() && old_l[kk]@[w] == e as usize;
            assert(new_l[kk]@[w] == e as usize);
            assert(new_l[kk]@.contains(e as usize));
        }
    }
}

proof fn lemma_lists_skip(
    ids: Seq<u64>,
    pool: Seq<SectionMeeting>,
    lists: Seq<Vec<usize>>,
    idx: int,
    mt: MeetingType,
)
    requires
        lists_wf_upto(ids, pool, lists, mt, idx),
        0 <= idx < pool.len(),
        pool[idx].meeting_type != mt,
    ensures
        lists_wf_upto(ids, pool, lists, mt, idx + 1),
{
    assert forall|k: int, t: int|
        0 <= k < lists.len() && 0 <= t < lists[k]@.len() implies #[trigger] entry_ok_upto(
        ids,
        pool,
        lists,
        k,
        t,
        mt,
        idx + 1,
    ) by {
        assert(entry_ok_upto(ids, pool, lists, k, t, mt, idx));
    }
}

proof fn lemma_exams_set(
    ids: Seq<u64>,
    pool: Seq<SectionMeeting>,
    old_e: Seq<Option<usize>>,
    new_e: Seq<Option<usize>>,
    c: int,
    idx: int,
)
    requires
        exams_upto(ids, pool, old_e, idx),
        0 <= c < old_e.len(),
        new_e == old_e.update(c, Some(idx as usize)),
        0 <= idx < pool.len(),
        idx <= usize::MAX,
        pool[idx].meeting_type == MeetingType::Exam,
        cof_in(ids, pool, idx) == c,
    ensures
        exams_upto(ids, pool, new_e, idx + 1),
{
    assert forall|i: int|
        0 <= i < idx + 1 && (#[trigger] pool[i]).meeting_type == MeetingType::Exam implies 0
        <= cof_in(ids, pool, i) < new_e.len() && new_e[cof_in(ids, pool, i)] is Some && i
        <= new_e[cof_in(ids, pool, i)]->0 as int by {
        let kk = cof_in(ids, pool, i);
        if i == idx {
            assert(new_e[kk] == Some(idx as usize));
        } else {
            assert(0 <= kk < old_e.len() && old_e[kk] is Some && i <= old_e[kk]->0 as int);
            if kk == c {
                assert(new_e[kk] == Some(idx as usize));
                assert(old_e[kk]->0 as int <= idx) by {
                    assert(old_e[kk] is Some);
                }
            } else {
                assert(new_e[kk] == old_e[kk]);
            }
        }
    }
}

proof fn lemma_exams_skip(
    ids: Seq<u64>,
    pool: Seq<SectionMeeting>,
    exams: Seq<Option<usize>>,
    idx: int,
)
    requires
        exams_upto(ids, pool, exams, idx),
        0 <= idx < pool.len(),
        pool[idx].meeting_type != MeetingType::Exam,
    ensures
        exams_upto(ids, pool, exams, idx + 1),
{
}

proof fn lemma_others_push(
    ids: Seq<u64>,
    pool: Seq<SectionMeeting>,
    old_o: Seq<usize>,
    new_o: Seq<usize>,
    idx: int,
)
    requires
        others_upto(ids, pool, old_o, idx),
        new_o == old_o.push(idx as usize),
        0 <= idx < pool.len(),
        idx <= usize::MAX,
        pool[idx].meeting_type == MeetingType::Other,
    ensures
        others_upto(ids, pool, new_o, idx + 1),
{
    assert forall|i: int|
        0 <= i < idx + 1 && (#[trigger] pool[i]).meeting_type == MeetingType::Other
        implies new_o.contains(i as usize) by {
        if i == idx {
            assert(new_o[old_o.len() as int] == idx as usize);
        } else {
            assert(old_o.contains(i as usize));
            let w = choose|w: int| 0 <= w < old_o.len() && old_o[w] == i as usize;
            assert(new_o[w] == i as usize);
        }
    }
}

proof fn lemma_others_skip(
    ids: Seq<u64>,
    pool: Seq<SectionMeeting>,
    others: Seq<usize>,
    idx: int,
)
    requires
        others_upto(ids, pool, others, idx),
        0 <= idx < pool.len(),
        pool[idx].meeting_type != MeetingType::Other,
    ensures
        others_upto(ids, pool, others, idx + 1),
{
}

/// Append a pool position to course `k`'s list inside a list-of-lists.
fn push_entry(lists: &mut Vec<Vec<usize>>, k: usize, e: usize)
    requires
        k < old(lists)@.len(),
    ensures
        final(lists)@.len() == old(lists)@.len(),
        final(lists)@[k as int]@ == old(lists)@[k as int]@.push(e),
        forall|j: int|
            0 <= j < old(lists)@.len() && j != k ==> old(lists)@[j] == #[trigger] final(lists)@[j],
{
    let mut inner = lists.remove(k);
    inner.push(e);
    let ghost pushed = inner@;
    lists.insert(k, inner);
    proof {
        assert(lists@ =~= old(lists)@.update(k as int, lists@[k as int]));
        assert(lists@[k as int]@ == pushed);
    }
}

/// Sort a meeting pool by start offset. The result is a permutation of the
/// input, witnessed at the view level.
fn sort_meetings(input: Vec<SectionMeeting>) -> (r: Vec<SectionMeeting>)
    ensures
        pool_sorted(r@),
        views_of(r@).to_multiset() == views_of(input@).to_multiset(),
{
    let mut src = input;
    let mut out: Vec<SectionMeeting> = Vec::new();
    while src.len() > 0
        invariant
            pool_sorted(out@),
            forall|a: int, b: int|
                0 <= a < out@.len() && 0 <= b < src@.len() ==> (#[trigger] out@[a]).u_start
                    <= (#[trigger] src@[b]).u_start,
            views_of(out@).to_multiset().add(views_of(src@).to_multiset()) == views_of(
                input@,
            ).to_multiset(),
        decreases src.len(),
    {
        let mut mi: usize = 0;
        let mut q: usize = 1;
        while q < src.len()
            invariant
                src@.len() > 0,
                0 <= mi < src@.len(),
                mi < q,
                1 <= q <= src@.len(),
                forall|k: int| 0 <= k < q ==> src@[mi as int].u_start <= (#[trigger] src@[k]).u_start,
            decreases src.len() - q,
        {
            if src[q].u_start < src[mi].u_start {
                mi = q;
            }
            q += 1;
        }
        let ghost pre_src = src@;
        let ghost pre_out = out@;
        let x = src.remove(mi);
        out.push(x);
        proof {
            assert(views_of(pre_src.remove(mi as int)) =~= views_of(pre_src).remove(mi as int));
            assert(views_of(pre_out.push(x)) =~= views_of(pre_out).push(x@));
            assert(views_of(pre_src)[mi as int] == x@);
            assert(views_of(pre_src).to_multiset().contains(x@)) by {
                assert(views_of(pre_src)[mi as int] == x@);
            }
            assert(views_of(out@).to_multiset() =~= views_of(pre_out).to_multiset().insert(x@));
            assert(views_of(src@).to_multiset() =~= views_of(pre_src).to_multiset().remove(x@));
            assert(views_of(out@).to_multiset().add(views_of(src@).to_multiset()) =~= views_of(
                pre_out,
            ).to_multiset().add(views_of(pre_src).to_multiset()));
        }
    }
    out
}


proof fn lemma_take_step_contains(ids: Seq<u64>, i: int, x: u64)
    requires
        0 <= i < ids.len(),
    ensures
        ids.take(i + 1).contains(x) <==> (ids.take(i).contains(x) || ids[i] == x),
{
    if ids.take(i).contains(x) {
        let s0 = ids.take(i);
        let w = choose|w: int| 0 <= w < s0.len() && s0[w] == x;
        assert(ids.take(i + 1)[w] == x);
        assert(ids.take(i + 1).contains(x));
    }
    if ids[i] == x {
        assert(ids.take(i + 1)[i] == x);
        assert(ids.take(i + 1).contains(x));
    }
    if ids.take(i + 1).contains(x) {
        let s1 = ids.take(i + 1);
        let w = choose|w: int| 0 <= w < s1.len() && s1[w] == x;
        if w < i {
            assert(ids.take(i)[w] == x);
            assert(ids.take(i).contains(x));
        } else {
            assert(ids[i] == x);
        }
    }
}
#[verifier::spinoff_prover]
fn lecture_positions(lecture_ids: &Vec<u64>) -> (m: HashMap<u64, usize>)
    ensures
        forall|x: u64| #[trigger] m@.contains_key(x) <==> lecture_ids@.contains(x),
        forall|x: u64|
            #[trigger] m@.contains_key(x) ==> m@[x] as int == course_of(lecture_ids@, x),
{
    let ghost ids = lecture_ids@;
    let mut m: HashMap<u64, usize> = HashMap::new();
    let mut ci: usize = 0;
    while ci < lecture_ids.len()
        invariant
            ids == lecture_ids@,
            0 <= ci <= ids.len(),
            forall|x: u64| #[trigger] m@.contains_key(x) <==> ids.take(ci as int).contains(x),
            forall|x: u64|
                #[trigger] m@.contains_key(x) ==> m@[x] as int == course_of(
                    ids.take(ci as int),
                    x,
                ),
        decreases lecture_ids.len() - ci,
    {
        let lid = lecture_ids[ci];
        m.insert(lid, ci);
        proof {
            assert(ids.take(ci as int + 1).drop_last() =~= ids.take(ci as int));
            assert(ids.take(ci as int + 1).last() == lid);
            assert forall|x: u64| #[trigger] m@.contains_key(x) <==> ids.take(
                ci as int + 1,
            ).contains(x) by {
                lemma_take_step_contains(ids, ci as int, x);
            }
            assert forall|x: u64| #[trigger] m@.contains_key(x) implies m@[x] as int == course_of(
                ids.take(ci as int + 1),
                x,
            ) by {
                if x == lid {
                    assert(course_of(ids.take(ci as int + 1), x) == ci as int);
                } else {
                    assert(course_of(ids.take(ci as int + 1), x) == course_of(
                        ids.take(ci as int),
                        x,
                    ));
                }
            }
        }
        ci += 1;
    }
    proof {
        assert(ids.take(ids.len() as int) =~= ids);
    }
    m
}

/// Walk the sorted pool once and partition its positions by course and role:
/// lecture, lab and discussion lists, the exam slot, and the diagnostics list
/// of unrecognized meeting types.
#[verifier::spinoff_prover]
#[verifier::rlimit(60)]
fn index_sections(
    lecture_ids: &Vec<u64>,
    sections: &Vec<SectionMeeting>,
    positions: &HashMap<u64, usize>,
) -> (r: (Vec<Vec<usize>>, Vec<Vec<usize>>, Vec<Vec<usize>>, Vec<Option<usize>>, Vec<usize>))
    requires
        forall|i: int|
            0 <= i < sections@.len() ==> lecture_ids@.contains(
                (#[trigger] sections@[i]).lecture_id,
            ),
        forall|x: u64| #[trigger] positions@.contains_key(x) <==> lecture_ids@.contains(x),
        forall|x: u64|
            #[trigger] positions@.contains_key(x) ==> positions@[x] as int == course_of(
                lecture_ids@,
                x,
            ),
    ensures
        lists_wf_upto(lecture_ids@, sections@, r.0@, MeetingType::Lecture, sections@.len() as int),
        lists_wf_upto(lecture_ids@, sections@, r.1@, MeetingType::Lab, sections@.len() as int),
        lists_wf_upto(
            lecture_ids@,
            sections@,
            r.2@,
            MeetingType::Discussion,
            sections@.len() as int,
        ),
        exams_upto(lecture_ids@, sections@, r.3@, sections@.len() as int),
        others_upto(lecture_ids@, sections@, r.4@, sections@.len() as int),
{
    let ghost ids = lecture_ids@;
    let ghost pool = sections@;
    let n = lecture_ids.len();
    let mut lecture_sections: Vec<Vec<usize>> = Vec::new();
    let mut lab_sections: Vec<Vec<usize>> = Vec::new();
    let mut discussion_sections: Vec<Vec<usize>> = Vec::new();
    let mut exam_sections: Vec<Option<usize>> = Vec::new();
    let mut ki: usize = 0;
    while ki < n
        invariant
            0 <= ki <= n,
            n == ids.len(),
            lecture_sections@.len() == ki,
            lab_sections@.len() == ki,
            discussion_sections@.len() == ki,
            exam_sections@.len() == ki,
            forall|j: int| 0 <= j < ki ==> (#[trigger] lecture_sections@[j])@.len() == 0,
            forall|j: int| 0 <= j < ki ==> (#[trigger] lab_sections@[j])@.len() == 0,
            forall|j: int| 0 <= j < ki ==> (#[trigger] discussion_sections@[j])@.len() == 0,
            forall|j: int| 0 <= j < ki ==> (#[trigger] exam_sections@[j]) is None,
        decreases n - ki,
    {
        lecture_sections.push(Vec::new());
        lab_sections.push(Vec::new());
        discussion_sections.push(Vec::new());
        exam_sections.push(None);
        ki += 1;
    }
    let mut other_sections: Vec<usize> = Vec::new();
    proof {
        assert forall|k: int, t: int|
            0 <= k < lecture_sections@.len() && 0 <= t < lecture_sections@[k]@.len()
            implies #[trigger] entry_ok_upto(
            ids, pool, lecture_sections@, k, t, MeetingType::Lecture, 0,
        ) by {
            assert(lecture_sections@[k]@.len() == 0);
        }
        assert forall|k: int, t: int|
            0 <= k < lab_sections@.len() && 0 <= t < lab_sections@[k]@.len()
            implies #[trigger] entry_ok_upto(
            ids, pool, lab_sections@, k, t, MeetingType::Lab, 0,
        ) by {
            assert(lab_sections@[k]@.len() == 0);
        }
        assert forall|k: int, t: int|
            0 <= k < discussion_sections@.len() && 0 <= t < discussion_sections@[k]@.len()
            implies #[trigger] entry_ok_upto(
            ids, pool, discussion_sections@, k, t, MeetingType::Discussion, 0,
        ) by {
            assert(discussion_sections@[k]@.len() == 0);
        }
        assert forall|k: int, t1: int, t2: int|
            0 <= k < lecture_sections@.len() && 0 <= t1 < t2 < lecture_sections@[k]@.len()
            implies #[trigger] lecture_sections@[k]@[t1]
            < #[trigger] lecture_sections@[k]@[t2] by {
            assert(lecture_sections@[k]@.len() == 0);
        }
        assert forall|k: int, t1: int, t2: int|
            0 <= k < lab_sections@.len() && 0 <= t1 < t2 < lab_sections@[k]@.len()
            implies #[trigger] lab_sections@[k]@[t1] < #[trigger] lab_sections@[k]@[t2] by {
            assert(lab_sections@[k]@.len() == 0);
        }
        assert forall|k: int, t1: int, t2: int|
            0 <= k < discussion_sections@.len() && 0 <= t1 < t2 < discussion_sections@[
            k]@.len() implies #[trigger] discussion_sections@[k]@[t1]
            < #[trigger] discussion_sections@[k]@[t2] by {
            assert(discussion_sections@[k]@.len() == 0);
        }
        assert(lists_wf_upto(ids, pool, lecture_sections@, MeetingType::Lecture, 0));
        assert(lists_wf_upto(ids, pool, lab_sections@, MeetingType::Lab, 0));
        assert(lists_wf_upto(ids, pool, discussion_sections@, MeetingType::Discussion, 0));
        assert(exams_upto(ids, pool, exam_sections@, 0));
        assert(others_upto(ids, pool, other_sections@, 0));
    }

    let mut idx: usize = 0;
    while idx < sections.len()
        invariant
            ids == lecture_ids@,
            pool == sections@,
            n == ids.len(),
            0 <= idx <= pool.len(),
            forall|i: int| 0 <= i < pool.len() ==> ids.contains((#[trigger] pool[i]).lecture_id),
            forall|x: u64| #[trigger] positions@.contains_key(x) <==> ids.contains(x),
            forall|x: u64|
                #[trigger] positions@.contains_key(x) ==> positions@[x] as int == course_of(
                    ids,
                    x,
                ),
            lists_wf_upto(ids, pool, lecture_sections@, MeetingType::Lecture, idx as int),
            lists_wf_upto(ids, pool, lab_sections@, MeetingType::Lab, idx as int),
            lists_wf_upto(ids, pool, discussion_sections@, MeetingType::Discussion, idx as int),
            exams_upto(ids, pool, exam_sections@, idx as int),
            others_upto(ids, pool, other_sections@, idx as int),
        decreases sections.len() - idx,
    {
        let m_lid = sections[idx].lecture_id;
        let mtype = sections[idx].meeting_type;
        proof {
            assert(ids.contains(m_lid));
            lemma_course_of(ids, m_lid);
        }
        let c = match positions.get(&m_lid) {
            Some(c) => *c,
            None => {
                proof {
                    assert(false);
                }
                0
            },
        };
        proof {
            assert(c as int == course_of(ids, m_lid));
            assert(0 <= c < n);
            assert(cof_in(ids, pool, idx as int) == c as int);
        }
        match mtype {
            MeetingType::Lecture => {
                let ghost old_l = lecture_sections@;
                push_entry(&mut lecture_sections, c, idx);
                proof {
                    lemma_lists_push(
                        ids, pool, old_l, lecture_sections@, c as int, idx as int,
                        MeetingType::Lecture,
                    );
                    lemma_lists_skip(ids, pool, lab_sections@, idx as int, MeetingType::Lab);
                    lemma_lists_skip(
                        ids, pool, discussion_sections@, idx as int, MeetingType::Discussion,
                    );
                    lemma_exams_skip(ids, pool, exam_sections@, idx as int);
                    lemma_others_skip(ids, pool, other_sections@, idx as int);
                }
            },
            MeetingType::Discussion => {
                let ghost old_l = discussion_sections@;
                push_entry(&mut discussion_sections, c, idx);
                proof {
                    lemma_lists_push(
                        ids, pool, old_l, discussion_sections@, c as int, idx as int,
                        MeetingType::Discussion,
                    );
                    lemma_lists_skip(
                        ids, pool, lecture_sections@, idx as int, MeetingType::Lecture,
                    );
                    lemma_lists_skip(ids, pool, lab_sections@, idx as int, MeetingType::Lab);
                    lemma_exams_skip(ids, pool, exam_sections@, idx as int);
                    lemma_others_skip(ids, pool, other_sections@, idx as int);
                }
            },
            MeetingType::Lab => {
                let ghost old_l = lab_sections@;
                push_entry(&mut lab_sections, c, idx);
                proof {
                    lemma_lists_push(
                        ids, pool, old_l, lab_sections@, c as int, idx as int, MeetingType::Lab,
                    );
                    lemma_lists_skip(
                        ids, pool, lecture_sections@, idx as int, MeetingType::Lecture,
                    );
                    lemma_lists_skip(
                        ids, pool, discussion_sections@, idx as int, MeetingType::Discussion,
                    );
                    lemma_exams_skip(ids, pool, exam_sections@, idx as int);
                    lemma_others_skip(ids, pool, other_sections@, idx as int);
                }
            },
            MeetingType::Exam => {
                let ghost old_e = exam_sections@;
                exam_sections.set(c, Some(idx));
                proof {
                    lemma_exams_set(ids, pool, old_e, exam_sections@, c as int, idx as int);
                    lemma_lists_skip(
                        ids, pool, lecture_sections@, idx as int, MeetingType::Lecture,
                    );
                    lemma_lists_skip(ids, pool, lab_sections@, idx as int, MeetingType::Lab);
                    lemma_lists_skip(
                        ids, pool, discussion_sections@, idx as int, MeetingType::Discussion,
                    );
                    lemma_others_skip(ids, pool, other_sections@, idx as int);
                }
            },
            MeetingType::Other => {
                let ghost old_o = other_sections@;
                other_sections.push(idx);
                proof {
                    lemma_others_push(ids, pool, old_o, other_sections@, idx as int);
                    lemma_lists_skip(
                        ids, pool, lecture_sections@, idx as int, MeetingType::Lecture,
                    );
                    lemma_lists_skip(ids, pool, lab_sections@, idx as int, MeetingType::Lab);
                    lemma_lists_skip(
                        ids, pool, discussion_sections@, idx as int, MeetingType::Discussion,
                    );
                    lemma_exams_skip(ids, pool, exam_sections@, idx as int);
                }
            },
        }
        idx += 1;
    }
    (lecture_sections, lab_sections, discussion_sections, exam_sections, other_sections)
}

/// Append the sentinel to every course's list that stayed empty: a single
/// iterable no-op choice standing for "no such requirement".
#[verifier::spinoff_prover]
fn add_sentinels(lists: &mut Vec<Vec<usize>>, sentinel: usize)
    ensures
        final(lists)@.len() == old(lists)@.len(),
        forall|j: int|
            0 <= j < old(lists)@.len() && old(lists)@[j]@.len() > 0
                ==> #[trigger] final(lists)@[j] == old(lists)@[j],
        forall|j: int|
            0 <= j < old(lists)@.len() && old(lists)@[j]@.len() == 0
                ==> (#[trigger] final(lists)@[j])@ == seq![sentinel],
{
    let ghost pre = old(lists)@;
    let n = lists.len();
    let mut k: usize = 0;
    while k < n
        invariant
            0 <= k <= n,
            n == pre.len(),
            lists@.len() == n,
            pre == old(lists)@,
            forall|j: int| k <= j < n ==> #[trigger] lists@[j] == pre[j],
            forall|j: int| 0 <= j < k && pre[j]@.len() > 0 ==> #[trigger] lists@[j] == pre[j],
            forall|j: int|
                0 <= j < k && pre[j]@.len() == 0 ==> (#[trigger] lists@[j])@ == seq![sentinel],
        decreases n - k,
    {
        if lists[k].len() == 0 {
            push_entry(lists, k, sentinel);
            proof {
                assert(lists@[k as int]@ =~= seq![sentinel]);
            }
        }
        k += 1;
    }
}


/// After sentinel insertion, an alternative-list family is well formed:
/// courses with the role keep their full ascending lists, the others hold
/// the sentinel alone.
#[verifier::spinoff_prover]
proof fn lemma_alt_lists(
    prefs: CoursePreferences,
    pre: Seq<Vec<usize>>,
    cur: Seq<Vec<usize>>,
    mt: MeetingType,
)
    requires
        pre.len() == prefs.lecture_ids@.len(),
        cur.len() == pre.len(),
        prefs.sentinel_idx as int == prefs.p(),
        lists_wf_upto(prefs.lecture_ids@, prefs.sections@, pre, mt, prefs.p()),
        forall|j: int| 0 <= j < pre.len() && pre[j]@.len() > 0 ==> #[trigger] cur[j] == pre[j],
        forall|j: int|
            0 <= j < pre.len() && pre[j]@.len() == 0 ==> (#[trigger] cur[j])@ == seq![
                prefs.sentinel_idx,
            ],
    ensures
        prefs.alt_lists_wf(cur, mt),
{
    let ids = prefs.lecture_ids@;
    let pool = prefs.sections@;
    assert forall|k: int|
        0 <= k < pre.len() implies (prefs.has_role(k, mt) <==> pre[k]@.len() > 0) by {
        if prefs.has_role(k, mt) {
            let i = choose|i: int|
                0 <= i < prefs.p() && (#[trigger] prefs.sections@[i]).meeting_type == mt
                    && prefs.cof(i) == k;
            assert(pre[cof_in(ids, pool, i)]@.contains(i as usize));
        }
        if pre[k]@.len() > 0 {
            assert(entry_ok_upto(ids, pool, pre, k, 0, mt, prefs.p()));
            let e = pre[k]@[0] as int;
            assert(prefs.sections@[e].meeting_type == mt && prefs.cof(e) == k);
            assert(prefs.has_role(k, mt));
        }
    }
    assert forall|k: int, t: int|
        0 <= k < cur.len() && 0 <= t < cur[k]@.len() && prefs.has_role(k, mt)
        implies #[trigger] entry_ok_upto(ids, pool, cur, k, t, mt, prefs.p()) by {
        assert(cur[k] == pre[k]);
        assert(entry_ok_upto(ids, pool, pre, k, t, mt, prefs.p()));
    }
    assert forall|k: int, t1: int, t2: int|
        0 <= k < cur.len() && 0 <= t1 < t2 < cur[k]@.len() implies #[trigger] cur[k]@[t1]
        < #[trigger] cur[k]@[t2] by {
        if pre[k]@.len() > 0 {
            assert(cur[k] == pre[k]);
        } else {
            assert(cur[k]@.len() == 1);
        }
    }
    assert forall|e: int|
        0 <= e < prefs.p() && (#[trigger] prefs.sections@[e]).meeting_type == mt
        implies cur[prefs.cof(e)]@.contains(e as usize) by {
        assert(pre[cof_in(ids, pool, e)]@.contains(e as usize));
        assert(cur[prefs.cof(e)] == pre[prefs.cof(e)]);
    }
    assert forall|k: int|
        0 <= k < cur.len() && !prefs.has_role(k, mt) implies (#[trigger] cur[k])@ == seq![
        prefs.sentinel_idx,
    ] by {
        assert(pre[k]@.len() == 0);
    }
    assert forall|k: int| 0 <= k < cur.len() implies (#[trigger] cur[k])@.len() >= 1 by {
        if pre[k]@.len() > 0 {
            assert(cur[k] == pre[k]);
        }
    }
}

impl CoursePreferences {
    /// Build the preference index for the desired lectures: normalize the
    /// raw records into the meeting pool, sort it by start offset, partition
    /// its positions by course and role, and place the sentinel where a
    /// course lacks a lab or discussion. Fails exactly when normalization
    /// fails, with the same error.
    #[verifier::spinoff_prover]
    #[verifier::rlimit(60)]
    pub fn new(lecture_ids: Vec<u64>, course_ctx: CourseListContext) -> (r: Result<
        Self,
        SolveError,
    >)
        ensures
            r is Ok <==> norm_all(
                course_ctx.type_names(),
                course_ctx.courses(),
                lecture_ids@,
            ) is Ok,
            r is Err ==> r->Err_0.kind == norm_all(
                course_ctx.type_names(),
                course_ctx.courses(),
                lecture_ids@,
            )->Err_0,
            r is Ok ==> (r->Ok_0).wf(),
            r is Ok ==> (r->Ok_0).lecture_ids@ == lecture_ids@,
            r is Ok ==> views_of((r->Ok_0).sections@).to_multiset() == norm_all(
                course_ctx.type_names(),
                course_ctx.courses(),
                lecture_ids@,
            )->Ok_0.to_multiset(),
    {
        let ghost ids = lecture_ids@;
        let raw = match course_ctx.meetings_from_lectures(&lecture_ids) {
            Ok(v) => v,
            Err(e) => {
                return Err(e);
            },
        };
        proof {
            lemma_norm_all_lectures(course_ctx.type_names(), course_ctx.courses(), ids);
        }
        let ghost norm_views = norm_all(course_ctx.type_names(), course_ctx.courses(), ids)->Ok_0;
        let sections = sort_meetings(raw);
        let ghost pool = sections@;
        proof {
            assert forall|i: int|
                0 <= i < pool.len() implies ids.contains((#[trigger] pool[i]).lecture_id) by {
                assert(views_of(pool)[i] == pool[i]@);
                assert(views_of(pool).contains(pool[i]@));
                assert(views_of(pool).to_multiset().contains(pool[i]@));
                assert(norm_views.to_multiset().contains(pool[i]@));
                assert(norm_views.contains(pool[i]@));
                let w = choose|w: int| 0 <= w < norm_views.len() && norm_views[w] == pool[i]@;
                assert(ids.contains(norm_views[w].lecture_id));
            }
        }
        let positions = lecture_positions(&lecture_ids);
        let (lecture_sections, mut lab_sections, mut discussion_sections, exam_sections,
            other_sections) = index_sections(&lecture_ids, &sections, &positions);
        let ghost pre_labs = lab_sections@;
        let ghost pre_discs = discussion_sections@;
        let sentinel_idx = sections.len();
        add_sentinels(&mut lab_sections, sentinel_idx);
        add_sentinels(&mut discussion_sections, sentinel_idx);

        let prefs = CoursePreferences {
            lecture_ids,
            sections,
            lab_sections,
            lecture_sections,
            discussion_sections,
            sentinel_idx,
            exam_sections,
            other_sections,
        };
        proof {
            assert(prefs.lecture_ids@ == ids);
            assert(prefs.sections@ == pool);
            lemma_alt_lists(prefs, pre_labs, prefs.lab_sections@, MeetingType::Lab);
            lemma_alt_lists(
                prefs,
                pre_discs,
                prefs.discussion_sections@,
                MeetingType::Discussion,
            );
            assert(prefs.wf()) by {
                reveal(CoursePreferences::wf);
            }
        }
        Ok(prefs)
    }
}


/// Highest end offset among chosen meetings strictly before pool position
/// `i`; zero when none is chosen there.
pub open spec fn watermark(pool: Seq<SectionMeeting>, mask: Seq<bool>, i: int) -> int
    decreases i,
{
    if i <= 0 {
        0
    } else {
        let w = watermark(pool, mask, i - 1);
        if mask[i - 1] && pool[i - 1].u_end > w {
            pool[i - 1].u_end as int
        } else {
            w
        }
    }
}

/// No two chosen meetings overlap: walking the time-sorted pool, every
/// chosen meeting starts strictly after the running maximum end of the
/// chosen meetings before it.
pub open spec fn no_overlap(pool: Seq<SectionMeeting>, mask: Seq<bool>) -> bool {
    forall|i: int|
        0 <= i < pool.len() && mask[i] ==> (#[trigger] pool[i]).u_start > watermark(pool, mask, i)
}

/// How many positions of `list` are chosen in `mask`; the sentinel, one past
/// the mask, never counts.
pub open spec fn count_chosen(list: Seq<usize>, mask: Seq<bool>) -> int
    decreases list.len(),
{
    if list.len() == 0 {
        0
    } else {
        count_chosen(list.drop_last(), mask) + if (list.last() as int) < mask.len()
            && mask[list.last() as int] {
            1int
        } else {
            0int
        }
    }
}

/// No course has two chosen lab meetings or two chosen discussion meetings.
pub open spec fn roles_ok(prefs: CoursePreferences, mask: Seq<bool>) -> bool {
    forall|k: int|
        0 <= k < prefs.n() ==> #[trigger] count_chosen(prefs.lab_sections@[k]@, mask) <= 1
            && count_chosen(prefs.discussion_sections@[k]@, mask) <= 1
}

/// The incremental feasibility verdict over a chosen-set mask.
#[verifier::opaque]
pub open spec fn feasible(prefs: CoursePreferences, mask: Seq<bool>) -> bool {
    &&& no_overlap(prefs.sections@, mask)
    &&& roles_ok(prefs, mask)
}

/// The chosen pool positions strictly below `i`, in ascending order.
pub open spec fn chosen_upto(mask: Seq<bool>, i: int) -> Seq<int>
    decreases i,
{
    if i <= 0 {
        Seq::empty()
    } else {
        chosen_upto(mask, i - 1) + if mask[i - 1] {
            seq![i - 1]
        } else {
            Seq::empty()
        }
    }
}

/// The meetings at the given pool positions, in position order.
pub open spec fn pick(pool: Seq<SectionMeeting>, idxs: Seq<int>) -> Seq<MeetingView> {
    Seq::new(idxs.len(), |t: int| pool[idxs[t]]@)
}

/// The schedule a complete mask denotes: the chosen meetings in pool order,
/// which is start-time order.
pub open spec fn extract(pool: Seq<SectionMeeting>, mask: Seq<bool>) -> Seq<MeetingView> {
    pick(pool, chosen_upto(mask, mask.len() as int))
}

/// The mask with every listed position set to `val`.
pub open spec fn mark_list(mask: Seq<bool>, list: Seq<usize>, val: bool) -> Seq<bool>
    decreases list.len(),
{
    if list.len() == 0 {
        mask
    } else {
        mark_list(mask, list.drop_last(), val).update(list.last() as int, val)
    }
}

proof fn lemma_seq_step_contains(list: Seq<usize>, x: usize)
    requires
        list.len() > 0,
    ensures
        list.contains(x) <==> (list.drop_last().contains(x) || list.last() == x),
{
    if list.drop_last().contains(x) {
        let w = choose|w: int| 0 <= w < list.drop_last().len() && list.drop_last()[w] == x;
        assert(list[w] == x);
        assert(list.contains(x));
    }
    if list.last() == x {
        assert(list[list.len() - 1] == x);
        assert(list.contains(x));
    }
    if list.contains(x) {
        let w = choose|w: int| 0 <= w < list.len() && list[w] == x;
        if w < list.len() - 1 {
            assert(list.drop_last()[w] == x);
            assert(list.drop_last().contains(x));
        }
    }
}

proof fn lemma_mark_list_effect(mask: Seq<bool>, list: Seq<usize>, val: bool)
    requires
        mask.len() <= usize::MAX,
        forall|t: int| 0 <= t < list.len() ==> (#[trigger] list[t]) < mask.len(),
    ensures
        mark_list(mask, list, val).len() == mask.len(),
        forall|i: int|
            0 <= i < mask.len() ==> #[trigger] mark_list(mask, list, val)[i] == (if list.contains(
                i as usize,
            ) {
                val
            } else {
                mask[i]
            }),
    decreases list.len(),
{
    if list.len() > 0 {
        lemma_mark_list_effect(mask, list.drop_last(), val);
        assert forall|i: int| 0 <= i < mask.len() implies #[trigger] mark_list(mask, list, val)[i]
            == (if list.contains(i as usize) {
            val
        } else {
            mask[i]
        }) by {
            lemma_seq_step_contains(list, i as usize);
            let l = list.last() as int;
            if i == l {
                assert(mark_list(mask, list, val)[i] == val);
                assert(list.contains(i as usize));
            } else {
                assert(mark_list(mask, list, val)[i] == mark_list(mask, list.drop_last(), val)[i]);
            }
        }
    } else {
        assert forall|i: int| 0 <= i < mask.len() implies !(#[trigger] list.contains(
            i as usize,
        )) by {
            if list.contains(i as usize) {
                let w = choose|w: int| 0 <= w < list.len() && list[w] == i as usize;
                assert(false);
            }
        }
    }
}

/// The mask after unconditionally choosing course `k`'s lecture meetings and
/// its exam meeting, if it has one.
pub open spec fn course_mask(prefs: CoursePreferences, mask: Seq<bool>, k: int) -> Seq<bool> {
    let m1 = mark_list(mask, prefs.lecture_sections@[k]@, true);
    match prefs.exam_sections@[k] {
        Some(e) => m1.update(e as int, true),
        None => m1,
    }
}

/// Every schedule the search emits from cursor `k` onward, in search order:
/// course `k`'s fixed meetings are chosen and checked, then each lab and
/// discussion alternative (the sentinel standing for "none") is tried in
/// list order, infeasible branches are pruned, and a complete mask is
/// recorded once every course is placed.
#[verifier::opaque]
pub open spec fn search_model(prefs: CoursePreferences, k: int, mask: Seq<bool>) -> Seq<
    Seq<MeetingView>,
>
    decreases prefs.n() - k, 4int, 0int,
{
    if k < 0 || k >= prefs.n() {
        if k == prefs.n() {
            seq![extract(prefs.sections@, mask)]
        } else {
            Seq::empty()
        }
    } else {
        let m = course_mask(prefs, mask, k);
        if !feasible(prefs, m) {
            Seq::empty()
        } else {
            labs_model(prefs, k, m, prefs.lab_sections@[k]@)
        }
    }
}

/// The schedules contributed by the given lab alternatives of course `k`,
/// in list order.
#[verifier::opaque]
pub open spec fn labs_model(
    prefs: CoursePreferences,
    k: int,
    mask: Seq<bool>,
    labs: Seq<usize>,
) -> Seq<Seq<MeetingView>>
    decreases prefs.n() - k, 3int, labs.len(),
{
    if labs.len() == 0 || !(0 <= k < prefs.n()) {
        Seq::empty()
    } else {
        labs_model(prefs, k, mask, labs.drop_last()) + lab_one(prefs, k, mask, labs.last())
    }
}

/// The schedules one lab alternative of course `k` contributes: the sentinel
/// leaves the mask alone, a real position is chosen and checked.
#[verifier::opaque]
pub open spec fn lab_one(prefs: CoursePreferences, k: int, mask: Seq<bool>, l: usize) -> Seq<
    Seq<MeetingView>,
>
    decreases prefs.n() - k, 2int, 0int,
{
    if !(0 <= k < prefs.n()) {
        Seq::empty()
    } else if l == prefs.sentinel_idx {
        discs_model(prefs, k, mask, prefs.discussion_sections@[k]@)
    } else {
        let m2 = mask.update(l as int, true);
        if feasible(prefs, m2) {
            discs_model(prefs, k, m2, prefs.discussion_sections@[k]@)
        } else {
            Seq::empty()
        }
    }
}

/// The schedules contributed by the given discussion alternatives of course
/// `k`, in list order.
#[verifier::opaque]
pub open spec fn discs_model(
    prefs: CoursePreferences,
    k: int,
    mask: Seq<bool>,
    discs: Seq<usize>,
) -> Seq<Seq<MeetingView>>
    decreases prefs.n() - k, 1int, discs.len(),
{
    if discs.len() == 0 || !(0 <= k < prefs.n()) {
        Seq::empty()
    } else {
        discs_model(prefs, k, mask, discs.drop_last()) + disc_one(prefs, k, mask, discs.last())
    }
}

/// The schedules one discussion alternative of course `k` contributes,
/// recursing to the next course when the chosen set stays feasible.
#[verifier::opaque]
pub open spec fn disc_one(prefs: CoursePreferences, k: int, mask: Seq<bool>, d: usize) -> Seq<
    Seq<MeetingView>,
>
    decreases prefs.n() - k, 0int, 0int,
{
    if !(0 <= k < prefs.n()) {
        Seq::empty()
    } else if d == prefs.sentinel_idx {
        search_model(prefs, k + 1, mask)
    } else {
        let m2 = mask.update(d as int, true);
        if feasible(prefs, m2) {
            search_model(prefs, k + 1, m2)
        } else {
            Seq::empty()
        }
    }
}

/// The views of a list of schedules.
pub open spec fn sols_views(s: Seq<Vec<SectionMeeting>>) -> Seq<Seq<MeetingView>> {
    Seq::new(s.len(), |i: int| views_of(s[i]@))
}

/// The all-false mask over a pool of size `p`.
pub open spec fn empty_mask(p: int) -> Seq<bool> {
    Seq::new(p as nat, |i: int| false)
}

/// Set every listed pool position of the mask to `val`.
pub fn mask_values(indices: &Vec<usize>, schedule_mask: &mut Vec<bool>, val: bool)
    requires
        forall|t: int|
            0 <= t < indices@.len() ==> (#[trigger] indices@[t]) < old(schedule_mask)@.len(),
    ensures
        final(schedule_mask)@ == mark_list(old(schedule_mask)@, indices@, val),
        final(schedule_mask)@.len() == old(schedule_mask)@.len(),
{
    let ghost m0 = old(schedule_mask)@;
    let ghost idxs = indices@;
    let mlen = schedule_mask.len();
    let mut t: usize = 0;
    while t < indices.len()
        invariant
            0 <= t <= idxs.len(),
            idxs == indices@,
            m0 == old(schedule_mask)@,
            m0.len() == mlen,
            forall|u: int| 0 <= u < idxs.len() ==> (#[trigger] idxs[u]) < m0.len(),
            schedule_mask@ == mark_list(m0, idxs.take(t as int), val),
        decreases indices.len() - t,
    {
        proof {
            lemma_mark_list_effect(m0, idxs.take(t as int), val);
            assert(idxs.take(t as int + 1).drop_last() =~= idxs.take(t as int));
        }
        let e = indices[t];
        schedule_mask.set(e, val);
        t += 1;
    }
    proof {
        assert(idxs.take(idxs.len() as int) =~= idxs);
        lemma_mark_list_effect(m0, idxs, val);
    }
}

/// The backtracking composer: owns a validated preference index and
/// enumerates every conflict-free complete schedule.
pub struct BTSolver {
    pub prefs: CoursePreferences,
}

impl BTSolver {
    /// Wrap a preference index for solving.
    pub fn new(prefs: CoursePreferences) -> (s: Self)
        ensures
            s.prefs == prefs,
    {
        BTSolver { prefs }
    }

    /// The incremental feasibility check: one walk over the mask in pool
    /// order verifies that no two chosen meetings overlap (by a running
    /// maximum-end watermark) and that no course has two chosen labs or two
    /// chosen discussions.
    #[verifier::spinoff_prover]
    #[verifier::rlimit(100)]
    fn feasible(&self, schedule_mask: &Vec<bool>) -> (b: bool)
        requires
            self.prefs.wf(),
            schedule_mask@.len() == self.prefs.p(),
        ensures
            b == feasible(self.prefs, schedule_mask@),
    {
        proof {
            lemma_wf_lens(self.prefs);
        }
        let ghost pool = self.prefs.sections@;
        let ghost mask = schedule_mask@;
        let mut ending: u64 = 0;
        let mut i: usize = 0;
        while i < self.prefs.sections.len()
            invariant
                pool == self.prefs.sections@,
                mask == schedule_mask@,
                mask.len() == pool.len(),
                0 <= i <= pool.len(),
                ending as int == watermark(pool, mask, i as int),
                forall|j: int|
                    0 <= j < i && mask[j] ==> (#[trigger] pool[j]).u_start > watermark(
                        pool,
                        mask,
                        j,
                    ),
            decreases self.prefs.sections.len() - i,
        {
            if schedule_mask[i] {
                let st = self.prefs.sections[i].u_start;
                let en = self.prefs.sections[i].u_end;
                if st <= ending {
                    proof {
                        reveal(feasible);
                        assert(!no_overlap(pool, mask));
                    }
                    return false;
                }
                if en > ending {
                    ending = en;
                }
            }
            i += 1;
        }
        assert(no_overlap(pool, mask));

        let n = self.prefs.lecture_ids.len();
        let mut k: usize = 0;
        while k < n
            invariant
                self.prefs.wf(),
                mask == schedule_mask@,
                mask.len() == self.prefs.p(),
                n == self.prefs.n(),
                self.prefs.lab_sections@.len() == n,
                self.prefs.discussion_sections@.len() == n,
                0 <= k <= n,
                no_overlap(self.prefs.sections@, mask),
                forall|j: int|
                    0 <= j < k ==> #[trigger] count_chosen(self.prefs.lab_sections@[j]@, mask)
                        <= 1 && count_chosen(self.prefs.discussion_sections@[j]@, mask) <= 1,
            decreases n - k,
        {
            let ghost labs = self.prefs.lab_sections@[k as int]@;
            let mut cnt: usize = 0;
            let lab_len = self.prefs.lab_sections[k].len();
            let mut t: usize = 0;
            while t < lab_len
                invariant
                    mask == schedule_mask@,
                    labs == self.prefs.lab_sections@[k as int]@,
                    0 <= k < self.prefs.lab_sections@.len(),
                    lab_len == labs.len(),
                    0 <= t <= lab_len,
                    cnt <= t,
                    cnt == count_chosen(labs.take(t as int), mask),
                decreases lab_len - t,
            {
                proof {
                    assert(labs.take(t as int + 1).drop_last() =~= labs.take(t as int));
                }
                let e = self.prefs.lab_sections[k][t];
                if e < schedule_mask.len() && schedule_mask[e] {
                    cnt += 1;
                }
                t += 1;
            }
            proof {
                assert(labs.take(labs.len() as int) =~= labs);
            }
            if cnt > 1 {
                proof {
                    reveal(feasible);
                    assert(!roles_ok(self.prefs, mask));
                }
                return false;
            }

            let ghost discs = self.prefs.discussion_sections@[k as int]@;
            let mut dcnt: usize = 0;
            let disc_len = self.prefs.discussion_sections[k].len();
            let mut u: usize = 0;
            while u < disc_len
                invariant
                    mask == schedule_mask@,
                    discs == self.prefs.discussion_sections@[k as int]@,
                    0 <= k < self.prefs.discussion_sections@.len(),
                    disc_len == discs.len(),
                    0 <= u <= disc_len,
                    dcnt <= u,
                    dcnt == count_chosen(discs.take(u as int), mask),
                decreases disc_len - u,
            {
                proof {
                    assert(discs.take(u as int + 1).drop_last() =~= discs.take(u as int));
                }
                let e = self.prefs.discussion_sections[k][u];
                if e < schedule_mask.len() && schedule_mask[e] {
                    dcnt += 1;
                }
                u += 1;
            }
            proof {
                assert(discs.take(discs.len() as int) =~= discs);
            }
            if dcnt > 1 {
                proof {
                    reveal(feasible);
                    assert(!roles_ok(self.prefs, mask));
                }
                return false;
            }
            proof {
                assert(count_chosen(self.prefs.lab_sections@[k as int]@, mask) <= 1);
                assert(count_chosen(self.prefs.discussion_sections@[k as int]@, mask) <= 1);
            }
            k += 1;
        }
        proof {
            reveal(feasible);
            assert(roles_ok(self.prefs, mask));
        }
        true
    }
}



proof fn lemma_wf_lens(prefs: CoursePreferences)
    requires
        prefs.wf(),
    ensures
        prefs.lecture_sections@.len() == prefs.n(),
        prefs.lab_sections@.len() == prefs.n(),
        prefs.discussion_sections@.len() == prefs.n(),
        prefs.exam_sections@.len() == prefs.n(),
        prefs.sentinel_idx as int == prefs.p(),
{
    reveal(CoursePreferences::wf);
}

proof fn lemma_wf_course(prefs: CoursePreferences, k: int)
    requires
        prefs.wf(),
        0 <= k < prefs.n(),
    ensures
        prefs.lecture_sections@.len() == prefs.n(),
        prefs.lab_sections@.len() == prefs.n(),
        prefs.discussion_sections@.len() == prefs.n(),
        prefs.exam_sections@.len() == prefs.n(),
        prefs.sentinel_idx as int == prefs.p(),
        prefs.exam_sections@[k] is Some ==> (prefs.exam_sections@[k]->0 as int) < prefs.p(),
        forall|t: int|
            0 <= t < prefs.lecture_sections@[k]@.len() ==> (
            #[trigger] prefs.lecture_sections@[k]@[t]) < prefs.p(),
{
    reveal(CoursePreferences::wf);
    assert forall|t: int|
        0 <= t < prefs.lecture_sections@[k]@.len() implies (
        #[trigger] prefs.lecture_sections@[k]@[t]) < prefs.p() by {
        assert(entry_ok_upto(
            prefs.lecture_ids@, prefs.sections@, prefs.lecture_sections@, k, t,
            MeetingType::Lecture, prefs.p(),
        ));
    }
}

proof fn lemma_alt_entry(
    prefs: CoursePreferences,
    lists: Seq<Vec<usize>>,
    k: int,
    t: int,
    mt: MeetingType,
)
    requires
        prefs.wf(),
        0 <= k < prefs.n(),
        (lists == prefs.lab_sections@ && mt == MeetingType::Lab) || (lists
            == prefs.discussion_sections@ && mt == MeetingType::Discussion),
        0 <= t < lists[k]@.len(),
        lists[k]@[t] != prefs.sentinel_idx,
    ensures
        entry_ok_upto(prefs.lecture_ids@, prefs.sections@, lists, k, t, mt, prefs.p()),
{
    reveal(CoursePreferences::wf);
    if !prefs.has_role(k, mt) {
        assert(lists[k]@ == seq![prefs.sentinel_idx]);
        assert(false);
    }
}

proof fn lemma_sols_push(
    s_old: Seq<Vec<SectionMeeting>>,
    s_new: Seq<Vec<SectionMeeting>>,
    v: Vec<SectionMeeting>,
)
    requires
        s_new == s_old.push(v),
    ensures
        sols_views(s_new) =~= sols_views(s_old) + seq![views_of(v@)],
{
    assert forall|i: int|
        0 <= i < sols_views(s_new).len() implies sols_views(s_new)[i] == (sols_views(s_old)
        + seq![views_of(v@)])[i] by {
        if i < s_old.len() {
            assert(s_new[i] == s_old[i]);
        } else {
            assert(s_new[i] == v);
        }
    }
}

proof fn lemma_pick_push(
    pool: Seq<SectionMeeting>,
    idxs: Seq<int>,
    vs: Seq<SectionMeeting>,
    x: SectionMeeting,
    i: int,
)
    requires
        views_of(vs) == pick(pool, idxs),
        x@ == pool[i]@,
    ensures
        views_of(vs.push(x)) =~= pick(pool, idxs + seq![i]),
{
    let nvs = vs.push(x);
    let nidx = idxs + seq![i];
    assert(views_of(vs).len() == vs.len());
    assert(pick(pool, idxs).len() == idxs.len());
    assert(vs.len() == idxs.len());
    assert forall|u: int|
        0 <= u < nvs.len() implies views_of(nvs)[u] == pick(pool, nidx)[u] by {
        if u < vs.len() {
            assert(nvs[u] == vs[u]);
            assert(views_of(vs)[u] == vs[u]@);
            assert(nidx[u] == idxs[u]);
            assert(pick(pool, idxs)[u] == pool[idxs[u]]@);
        } else {
            assert(nvs[u] == x);
            assert(nidx[u] == i);
        }
    }
}

/// What choosing course `k`'s fixed meetings does to a mask holding only
/// earlier courses' choices: the result stays within courses up to `k`,
/// leaves `k`'s lab and discussion positions unchosen, and unmarking
/// restores the original mask exactly.
proof fn lemma_course_mask_props(prefs: CoursePreferences, m0: Seq<bool>, k: int)
    requires
        prefs.wf(),
        0 <= k < prefs.n(),
        m0.len() == prefs.p(),
        forall|i: int| 0 <= i < prefs.p() && m0[i] ==> 0 <= #[trigger] prefs.cof(i) < k,
    ensures
        ({
            let cm = course_mask(prefs, m0, k);
            &&& cm.len() == prefs.p()
            &&& forall|i: int|
                0 <= i < prefs.p() && cm[i] ==> 0 <= #[trigger] prefs.cof(i) < k + 1
            &&& forall|i: int|
                0 <= i < prefs.p() && (#[trigger] prefs.sections@[i]).meeting_type
                    == MeetingType::Lab && prefs.cof(i) == k ==> !cm[i]
            &&& forall|i: int|
                0 <= i < prefs.p() && (#[trigger] prefs.sections@[i]).meeting_type
                    == MeetingType::Discussion && prefs.cof(i) == k ==> !cm[i]
            &&& (match prefs.exam_sections@[k] {
                Some(e) => mark_list(cm, prefs.lecture_sections@[k]@, false).update(
                    e as int,
                    false,
                ) =~= m0,
                None => mark_list(cm, prefs.lecture_sections@[k]@, false) =~= m0,
            })
        }),
{
    reveal(CoursePreferences::wf);
    let cm = course_mask(prefs, m0, k);
    let ll = prefs.lecture_sections@[k]@;
    assert forall|t: int| 0 <= t < ll.len() implies (#[trigger] ll[t]) < m0.len() by {
        assert(entry_ok_upto(
            prefs.lecture_ids@, prefs.sections@, prefs.lecture_sections@, k, t,
            MeetingType::Lecture, prefs.p(),
        ));
    }
    lemma_mark_list_effect(m0, ll, true);
    assert forall|i: int|
        0 <= i < prefs.p() && cm[i] implies 0 <= #[trigger] prefs.cof(i) < k + 1 by {
        if m0[i] {
        } else if ll.contains(i as usize) {
            let w = choose|w: int| 0 <= w < ll.len() && ll[w] == i as usize;
            assert(entry_ok_upto(
                prefs.lecture_ids@, prefs.sections@, prefs.lecture_sections@, k, w,
                MeetingType::Lecture, prefs.p(),
            ));
        } else {
            assert(prefs.exam_sections@[k] == Some(i as usize));
        }
    }
    assert forall|i: int|
        0 <= i < prefs.p() && ((#[trigger] prefs.sections@[i]).meeting_type == MeetingType::Lab
            || prefs.sections@[i].meeting_type == MeetingType::Discussion) && prefs.cof(i) == k
        implies !cm[i] by {
        assert(!m0[i]);
        if ll.contains(i as usize) {
            let w = choose|w: int| 0 <= w < ll.len() && ll[w] == i as usize;
            assert(entry_ok_upto(
                prefs.lecture_ids@, prefs.sections@, prefs.lecture_sections@, k, w,
                MeetingType::Lecture, prefs.p(),
            ));
        }
        if prefs.exam_sections@[k] == Some(i as usize) {
            assert(prefs.sections@[i].meeting_type == MeetingType::Exam);
        }
    }
    lemma_mark_list_effect(cm, ll, false);
    assert forall|i: int|
        0 <= i < m0.len() implies mark_list(cm, ll, false)[i] == (if ll.contains(i as usize) {
        false
    } else {
        cm[i]
    }) by {}
    match prefs.exam_sections@[k] {
        Some(e) => {
            assert forall|i: int|
                0 <= i < m0.len() implies mark_list(cm, ll, false).update(e as int, false)[i]
                == m0[i] by {
                if ll.contains(i as usize) {
                    let w = choose|w: int| 0 <= w < ll.len() && ll[w] == i as usize;
                    assert(entry_ok_upto(
                        prefs.lecture_ids@, prefs.sections@, prefs.lecture_sections@, k, w,
                        MeetingType::Lecture, prefs.p(),
                    ));
                    assert(prefs.cof(i) == k);
                    assert(!m0[i]);
                } else if i == e as int {
                    assert(prefs.sections@[i].meeting_type == MeetingType::Exam);
                    assert(prefs.cof(i) == cof_in(prefs.lecture_ids@, prefs.sections@, i));
                    assert(prefs.cof(i) == k);
                    assert(!m0[i]);
                }
            }
        },
        None => {
            assert forall|i: int|
                0 <= i < m0.len() implies mark_list(cm, ll, false)[i] == m0[i] by {
                if ll.contains(i as usize) {
                    let w = choose|w: int| 0 <= w < ll.len() && ll[w] == i as usize;
                    assert(entry_ok_upto(
                        prefs.lecture_ids@, prefs.sections@, prefs.lecture_sections@, k, w,
                        MeetingType::Lecture, prefs.p(),
                    ));
                    assert(prefs.cof(i) == k);
                    assert(!m0[i]);
                }
            }
        },
    }
}

impl BTSolver {
    /// Recursive step of the search at course cursor `n_added`: choose the
    /// course's fixed lecture and exam meetings, prune if that already
    /// conflicts, then try every lab alternative, and restore the mask
    /// before returning. Appends exactly the schedules of the search model.
    #[verifier::spinoff_prover]
    #[verifier::rlimit(100)]
    fn search(
        &self,
        solutions: &mut Vec<Vec<SectionMeeting>>,
        n_added: usize,
        schedule_mask: &mut Vec<bool>,
    )
        requires
            self.prefs.wf(),
            n_added as int <= self.prefs.n(),
            old(schedule_mask)@.len() == self.prefs.p(),
            forall|i: int|
                0 <= i < self.prefs.p() && old(schedule_mask)@[i] ==> 0 <= #[trigger] self.prefs.cof(
                    i,
                ) < n_added as int,
        ensures
            final(schedule_mask)@ == old(schedule_mask)@,
            sols_views(final(solutions)@) == sols_views(old(solutions)@) + search_model(
                self.prefs,
                n_added as int,
                old(schedule_mask)@,
            ),
        decreases self.prefs.n() - n_added, 3int,
    {
        let ghost prefs = self.prefs;
        let ghost m0 = old(schedule_mask)@;
        let ghost k = n_added as int;
        if n_added == self.prefs.lecture_ids.len() {
            let mut valid_sections: Vec<SectionMeeting> = Vec::new();
            let mut idx: usize = 0;
            while idx < self.prefs.sections.len()
                invariant
                    prefs == self.prefs,
                    m0 == schedule_mask@,
                    m0.len() == prefs.p(),
                    0 <= idx <= prefs.p(),
                    views_of(valid_sections@) == pick(
                        prefs.sections@,
                        chosen_upto(m0, idx as int),
                    ),
                decreases self.prefs.sections.len() - idx,
            {
                let ghost pre_valid = valid_sections@;
                let ghost pre_idxs = chosen_upto(m0, idx as int);
                if schedule_mask[idx] {
                    let sm = self.prefs.sections[idx].clone();
                    valid_sections.push(sm);
                    proof {
                        assert(sm@ == prefs.sections@[idx as int]@);
                        assert(chosen_upto(m0, idx as int + 1) == pre_idxs + seq![idx as int]);
                        lemma_pick_push(prefs.sections@, pre_idxs, pre_valid, sm, idx as int);
                    }
                } else {
                    proof {
                        assert(chosen_upto(m0, idx as int + 1) == pre_idxs + Seq::<int>::empty());
                        assert(chosen_upto(m0, idx as int + 1) =~= pre_idxs);
                    }
                }
                idx += 1;
            }
            let ghost sols_pre = solutions@;
            solutions.push(valid_sections);
            proof {
                reveal(search_model);
                lemma_sols_push(sols_pre, solutions@, valid_sections);
                assert(views_of(valid_sections@) == extract(prefs.sections@, m0));
                assert(search_model(prefs, k, m0) == seq![extract(prefs.sections@, m0)]);
                assert(sols_views(solutions@) =~= sols_views(old(solutions)@) + search_model(
                    prefs,
                    k,
                    m0,
                ));
            }
            return ;
        }
        proof {
            lemma_wf_course(prefs, k);
        }
        mask_values(&self.prefs.lecture_sections[n_added], schedule_mask, true);
        if let Some(exam_idx) = self.prefs.exam_sections[n_added] {
            schedule_mask.set(exam_idx, true);
        }
        let ghost cm = course_mask(prefs, m0, k);
        proof {
            lemma_mark_list_effect(m0, prefs.lecture_sections@[k]@, true);
            assert(schedule_mask@ =~= cm);
            lemma_course_mask_props(prefs, m0, k);
        }
        if !self.feasible(schedule_mask) {
            mask_values(&self.prefs.lecture_sections[n_added], schedule_mask, false);
            if let Some(exam_idx) = self.prefs.exam_sections[n_added] {
                schedule_mask.set(exam_idx, false);
            }
            proof {
                reveal(search_model);
                lemma_course_mask_props(prefs, m0, k);
                assert(schedule_mask@ =~= m0);
                assert(search_model(prefs, k, m0) == Seq::<Seq<MeetingView>>::empty());
                assert(sols_views(solutions@) =~= sols_views(old(solutions)@) + search_model(
                    prefs,
                    k,
                    m0,
                ));
            }
            return ;
        }
        let ghost entry_sols = sols_views(solutions@);
        let ghost labs = self.prefs.lab_sections@[k]@;
        let lab_len = self.prefs.lab_sections[n_added].len();
        proof {
            reveal(labs_model);
            assert(labs_model(prefs, k, cm, labs.take(0)) == Seq::<Seq<MeetingView>>::empty());
            assert(sols_views(solutions@) =~= entry_sols + labs_model(prefs, k, cm, labs.take(0)));
        }
        let mut t: usize = 0;
        while t < lab_len
            invariant
                prefs == self.prefs,
                prefs.wf(),
                0 <= k < prefs.n(),
                k == n_added as int,
                m0 == old(schedule_mask)@,
                m0.len() == prefs.p(),
                cm == course_mask(prefs, m0, k),
                schedule_mask@ == cm,
                cm.len() == prefs.p(),
                forall|i: int|
                    0 <= i < prefs.p() && cm[i] ==> 0 <= #[trigger] prefs.cof(i) < k + 1,
                forall|i: int|
                    0 <= i < prefs.p() && (#[trigger] prefs.sections@[i]).meeting_type
                        == MeetingType::Lab && prefs.cof(i) == k ==> !cm[i],
                forall|i: int|
                    0 <= i < prefs.p() && (#[trigger] prefs.sections@[i]).meeting_type
                        == MeetingType::Discussion && prefs.cof(i) == k ==> !cm[i],
                prefs.lab_sections@.len() == prefs.n(),
                labs == prefs.lab_sections@[k]@,
                lab_len == labs.len(),
                0 <= t <= lab_len,
                entry_sols == sols_views(old(solutions)@),
                sols_views(solutions@) == entry_sols + labs_model(
                    prefs,
                    k,
                    cm,
                    labs.take(t as int),
                ),
            decreases lab_len - t,
        {
            let ghost pre_model = labs_model(prefs, k, cm, labs.take(t as int));
            let ghost pre_sols = sols_views(solutions@);
            self.try_lab(solutions, n_added, schedule_mask, t);
            proof {
                reveal(labs_model);
                assert(labs.take(t as int + 1).drop_last() =~= labs.take(t as int));
                assert(labs.take(t as int + 1).last() == labs[t as int]);
                assert(labs_model(prefs, k, cm, labs.take(t as int + 1)) == pre_model + lab_one(
                    prefs,
                    k,
                    cm,
                    labs[t as int],
                ));
                assert(sols_views(solutions@) =~= entry_sols + (pre_model + lab_one(
                    prefs,
                    k,
                    cm,
                    labs[t as int],
                )));
            }
            t += 1;
        }
        proof {
            lemma_wf_course(prefs, k);
        }
        mask_values(&self.prefs.lecture_sections[n_added], schedule_mask, false);
        if let Some(exam_idx) = self.prefs.exam_sections[n_added] {
            schedule_mask.set(exam_idx, false);
        }
        proof {
            reveal(search_model);
            lemma_course_mask_props(prefs, m0, k);
            assert(schedule_mask@ =~= m0);
            assert(labs.take(lab_len as int) =~= labs);
            assert(search_model(prefs, k, m0) == labs_model(prefs, k, cm, labs));
        }
    }

    /// Try one lab alternative of course `n_added` on top of the current
    /// mask: the sentinel passes straight to the discussion alternatives, a
    /// real position is chosen, checked and later unchosen.
    #[verifier::spinoff_prover]
    #[verifier::rlimit(100)]
    fn try_lab(
        &self,
        solutions: &mut Vec<Vec<SectionMeeting>>,
        n_added: usize,
        schedule_mask: &mut Vec<bool>,
        t: usize,
    )
        requires
            self.prefs.wf(),
            (n_added as int) < self.prefs.n(),
            old(schedule_mask)@.len() == self.prefs.p(),
            (t as int) < self.prefs.lab_sections@[n_added as int]@.len(),
            forall|i: int|
                0 <= i < self.prefs.p() && old(schedule_mask)@[i] ==> 0 <= #[trigger] self.prefs.cof(
                    i,
                ) <= n_added as int,
            forall|i: int|
                0 <= i < self.prefs.p() && (#[trigger] self.prefs.sections@[i]).meeting_type
                    == MeetingType::Lab && self.prefs.cof(i) == n_added as int ==> !old(
                    schedule_mask,
                )@[i],
            forall|i: int|
                0 <= i < self.prefs.p() && (#[trigger] self.prefs.sections@[i]).meeting_type
                    == MeetingType::Discussion && self.prefs.cof(i) == n_added as int ==> !old(
                    schedule_mask,
                )@[i],
        ensures
            final(schedule_mask)@ == old(schedule_mask)@,
            sols_views(final(solutions)@) == sols_views(old(solutions)@) + lab_one(
                self.prefs,
                n_added as int,
                old(schedule_mask)@,
                self.prefs.lab_sections@[n_added as int]@[t as int],
            ),
        decreases self.prefs.n() - n_added, 2int,
    {
        let ghost prefs = self.prefs;
        let ghost k = n_added as int;
        let ghost m0 = old(schedule_mask)@;
        proof {
            lemma_wf_course(prefs, k);
        }
        let lab_idx = self.prefs.lab_sections[n_added][t];
        if lab_idx != self.prefs.sentinel_idx {
            proof {
                lemma_alt_entry(prefs, prefs.lab_sections@, k, t as int, MeetingType::Lab);
            }
            schedule_mask.set(lab_idx, true);
            let ghost lm = m0.update(lab_idx as int, true);
            proof {
                assert(schedule_mask@ == lm);
                assert forall|i: int|
                    0 <= i < prefs.p() && lm[i] implies 0 <= #[trigger] prefs.cof(i) <= k by {
                    if i != lab_idx as int {
                        assert(m0[i]);
                    }
                }
                assert forall|i: int|
                    0 <= i < prefs.p() && (#[trigger] prefs.sections@[i]).meeting_type
                        == MeetingType::Discussion && prefs.cof(i) == k implies !lm[i] by {
                    assert(!m0[i]);
                    assert(i != lab_idx as int);
                }
            }
            if self.feasible(schedule_mask) {
                self.search_discs(solutions, n_added, schedule_mask);
            }
            schedule_mask.set(lab_idx, false);
            proof {
                reveal(lab_one);
                assert(!m0[lab_idx as int]);
                assert(schedule_mask@ =~= m0);
                if feasible(prefs, lm) {
                    assert(sols_views(solutions@) =~= sols_views(old(solutions)@) + lab_one(
                        prefs,
                        k,
                        m0,
                        lab_idx,
                    ));
                } else {
                    assert(lab_one(prefs, k, m0, lab_idx) == Seq::<Seq<MeetingView>>::empty());
                    assert(sols_views(solutions@) =~= sols_views(old(solutions)@) + lab_one(
                        prefs,
                        k,
                        m0,
                        lab_idx,
                    ));
                }
            }
        } else {
            self.search_discs(solutions, n_added, schedule_mask);
            proof {
                reveal(lab_one);
                assert(sols_views(solutions@) =~= sols_views(old(solutions)@) + lab_one(
                    prefs,
                    k,
                    m0,
                    lab_idx,
                ));
            }
        }
    }

    /// Try every discussion alternative of course `n_added` on top of the
    /// current mask, in list order, and restore the mask before returning.
    #[verifier::spinoff_prover]
    #[verifier::rlimit(100)]
    fn search_discs(
        &self,
        solutions: &mut Vec<Vec<SectionMeeting>>,
        n_added: usize,
        schedule_mask: &mut Vec<bool>,
    )
        requires
            self.prefs.wf(),
            (n_added as int) < self.prefs.n(),
            old(schedule_mask)@.len() == self.prefs.p(),
            forall|i: int|
                0 <= i < self.prefs.p() && old(schedule_mask)@[i] ==> 0 <= #[trigger] self.prefs.cof(
                    i,
                ) <= n_added as int,
            forall|i: int|
                0 <= i < self.prefs.p() && (#[trigger] self.prefs.sections@[i]).meeting_type
                    == MeetingType::Discussion && self.prefs.cof(i) == n_added as int ==> !old(
                    schedule_mask,
                )@[i],
        ensures
            final(schedule_mask)@ == old(schedule_mask)@,
            sols_views(final(solutions)@) == sols_views(old(solutions)@) + discs_model(
                self.prefs,
                n_added as int,
                old(schedule_mask)@,
                self.prefs.discussion_sections@[n_added as int]@,
            ),
        decreases self.prefs.n() - n_added, 1int,
    {
        let ghost prefs = self.prefs;
        let ghost m0 = old(schedule_mask)@;
        let ghost k = n_added as int;
        proof {
            lemma_wf_course(prefs, k);
        }
        let ghost entry_sols = sols_views(solutions@);
        let ghost discs = self.prefs.discussion_sections@[k]@;
        let disc_len = self.prefs.discussion_sections[n_added].len();
        proof {
            reveal(discs_model);
            assert(discs_model(prefs, k, m0, discs.take(0)) == Seq::<Seq<MeetingView>>::empty());
            assert(sols_views(solutions@) =~= entry_sols + discs_model(prefs, k, m0, discs.take(0)));
        }
        let mut u: usize = 0;
        while u < disc_len
            invariant
                prefs == self.prefs,
                prefs.wf(),
                0 <= k < prefs.n(),
                k == n_added as int,
                m0 == old(schedule_mask)@,
                m0.len() == prefs.p(),
                schedule_mask@ == m0,
                forall|i: int|
                    0 <= i < prefs.p() && m0[i] ==> 0 <= #[trigger] prefs.cof(i) <= k,
                forall|i: int|
                    0 <= i < prefs.p() && (#[trigger] prefs.sections@[i]).meeting_type
                        == MeetingType::Discussion && prefs.cof(i) == k ==> !m0[i],
                prefs.discussion_sections@.len() == prefs.n(),
                discs == prefs.discussion_sections@[k]@,
                disc_len == discs.len(),
                0 <= u <= disc_len,
                entry_sols == sols_views(old(solutions)@),
                sols_views(solutions@) == entry_sols + discs_model(
                    prefs,
                    k,
                    m0,
                    discs.take(u as int),
                ),
            decreases disc_len - u,
        {
            let ghost pre_model = discs_model(prefs, k, m0, discs.take(u as int));
            self.try_disc(solutions, n_added, schedule_mask, u);
            proof {
                reveal(discs_model);
                assert(discs.take(u as int + 1).drop_last() =~= discs.take(u as int));
                assert(discs.take(u as int + 1).last() == discs[u as int]);
                assert(discs_model(prefs, k, m0, discs.take(u as int + 1)) == pre_model
                    + disc_one(prefs, k, m0, discs[u as int]));
                assert(sols_views(solutions@) =~= entry_sols + (pre_model + disc_one(
                    prefs,
                    k,
                    m0,
                    discs[u as int],
                )));
            }
            u += 1;
        }
        proof {
            assert(discs.take(disc_len as int) =~= discs);
        }
    }

    /// Try one discussion alternative of course `n_added`: the sentinel
    /// recurses to the next course directly, a real position is chosen,
    /// checked and later unchosen.
    #[verifier::spinoff_prover]
    #[verifier::rlimit(100)]
    fn try_disc(
        &self,
        solutions: &mut Vec<Vec<SectionMeeting>>,
        n_added: usize,
        schedule_mask: &mut Vec<bool>,
        u: usize,
    )
        requires
            self.prefs.wf(),
            (n_added as int) < self.prefs.n(),
            old(schedule_mask)@.len() == self.prefs.p(),
            (u as int) < self.prefs.discussion_sections@[n_added as int]@.len(),
            forall|i: int|
                0 <= i < self.prefs.p() && old(schedule_mask)@[i] ==> 0 <= #[trigger] self.prefs.cof(
                    i,
                ) <= n_added as int,
            forall|i: int|
                0 <= i < self.prefs.p() && (#[trigger] self.prefs.sections@[i]).meeting_type
                    == MeetingType::Discussion && self.prefs.cof(i) == n_added as int ==> !old(
                    schedule_mask,
                )@[i],
        ensures
            final(schedule_mask)@ == old(schedule_mask)@,
            sols_views(final(solutions)@) == sols_views(old(solutions)@) + disc_one(
                self.prefs,
                n_added as int,
                old(schedule_mask)@,
                self.prefs.discussion_sections@[n_added as int]@[u as int],
            ),
        decreases self.prefs.n() - n_added, 0int,
    {
        let ghost prefs = self.prefs;
        let ghost k = n_added as int;
        let ghost m0 = old(schedule_mask)@;
        let n_total = self.prefs.lecture_ids.len();
        proof {
            lemma_wf_course(prefs, k);
            assert(n_added < n_total);
        }
        let disc_idx = self.prefs.discussion_sections[n_added][u];
        if disc_idx != self.prefs.sentinel_idx {
            proof {
                lemma_alt_entry(
                    prefs, prefs.discussion_sections@, k, u as int, MeetingType::Discussion,
                );
            }
            schedule_mask.set(disc_idx, true);
            let ghost dm = m0.update(disc_idx as int, true);
            proof {
                assert(schedule_mask@ == dm);
                assert forall|i: int|
                    0 <= i < prefs.p() && dm[i] implies 0 <= #[trigger] prefs.cof(i) < k + 1 by {
                    if i != disc_idx as int {
                        assert(m0[i]);
                    }
                }
            }
            if self.feasible(schedule_mask) {
                self.search(solutions, n_added + 1, schedule_mask);
            }
            schedule_mask.set(disc_idx, false);
            proof {
                reveal(disc_one);
                assert(!m0[disc_idx as int]);
                assert(schedule_mask@ =~= m0);
                if feasible(prefs, dm) {
                    assert(sols_views(solutions@) =~= sols_views(old(solutions)@) + disc_one(
                        prefs,
                        k,
                        m0,
                        disc_idx,
                    ));
                } else {
                    assert(disc_one(prefs, k, m0, disc_idx) == Seq::<Seq<MeetingView>>::empty());
                    assert(sols_views(solutions@) =~= sols_views(old(solutions)@) + disc_one(
                        prefs,
                        k,
                        m0,
                        disc_idx,
                    ));
                }
            }
        } else {
            proof {
                assert forall|i: int|
                    0 <= i < prefs.p() && m0[i] implies 0 <= #[trigger] prefs.cof(i) < k + 1 by {}
            }
            self.search(solutions, n_added + 1, schedule_mask);
            proof {
                reveal(disc_one);
                assert(sols_views(solutions@) =~= sols_views(old(solutions)@) + disc_one(
                    prefs,
                    k,
                    m0,
                    disc_idx,
                ));
            }
        }
    }

    /// Enumerate every conflict-free complete schedule: the exhaustive,
    /// deterministic depth-first search over all lab and discussion
    /// alternatives, starting from an empty chosen set.
    pub fn solve(&self) -> (r: Vec<Vec<SectionMeeting>>)
        requires
            self.prefs.wf(),
        ensures
            sols_views(r@) == search_model(self.prefs, 0, empty_mask(self.prefs.p())),
    {
        let mut schedule_mask: Vec<bool> = Vec::new();
        let mut i: usize = 0;
        while i < self.prefs.sections.len()
            invariant
                0 <= i <= self.prefs.sections@.len(),
                schedule_mask@.len() == i,
                forall|j: int| 0 <= j < i ==> !(#[trigger] schedule_mask@[j]),
            decreases self.prefs.sections.len() - i,
        {
            schedule_mask.push(false);
            i += 1;
        }
        proof {
            assert(schedule_mask@ =~= empty_mask(self.prefs.p()));
        }
        let mut solutions: Vec<Vec<SectionMeeting>> = Vec::new();
        self.search(&mut solutions, 0, &mut schedule_mask);
        proof {
            assert(sols_views(solutions@) =~= Seq::<Seq<MeetingView>>::empty() + search_model(
                self.prefs,
                0,
                empty_mask(self.prefs.p()),
            ));
            assert(Seq::<Seq<MeetingView>>::empty() + search_model(
                self.prefs,
                0,
                empty_mask(self.prefs.p()),
            ) =~= search_model(self.prefs, 0, empty_mask(self.prefs.p())));
        }
        solutions
    }
}


/// A schedule in pool order: meetings ascend by start, and each starts no
/// earlier than the end of every meeting before it.
pub open spec fn schedule_ok(s: Seq<MeetingView>) -> bool {
    forall|a: int, b: int|
        0 <= a < b < s.len() ==> (#[trigger] s[a]).u_start <= (#[trigger] s[b]).u_start && s[
        b].u_start >= s[a].u_end
}

proof fn lemma_watermark_ge(pool: Seq<SectionMeeting>, mask: Seq<bool>, j: int, i: int)
    requires
        0 <= j < i <= pool.len(),
        mask[j],
    ensures
        watermark(pool, mask, i) >= pool[j].u_end,
    decreases i,
{
    if j < i - 1 {
        lemma_watermark_ge(pool, mask, j, i - 1);
    }
}

proof fn lemma_chosen_upto_props(mask: Seq<bool>, i: int)
    requires
        i <= mask.len(),
    ensures
        ({
            let idxs = chosen_upto(mask, i);
            &&& forall|t: int| 0 <= t < idxs.len() ==> 0 <= #[trigger] idxs[t] < i && mask[idxs[t]]
            &&& forall|t1: int, t2: int|
                0 <= t1 < t2 < idxs.len() ==> #[trigger] idxs[t1] < #[trigger] idxs[t2]
        }),
    decreases i,
{
    if i > 0 {
        lemma_chosen_upto_props(mask, i - 1);
        let prev = chosen_upto(mask, i - 1);
        let idxs = chosen_upto(mask, i);
        assert forall|t: int|
            0 <= t < idxs.len() implies 0 <= #[trigger] idxs[t] < i && mask[idxs[t]] by {
            if t < prev.len() {
                assert(idxs[t] == prev[t]);
            } else {
                assert(mask[i - 1]);
                assert(idxs[t] == i - 1);
            }
        }
        assert forall|t1: int, t2: int|
            0 <= t1 < t2 < idxs.len() implies #[trigger] idxs[t1] < #[trigger] idxs[t2] by {
            if t2 < prev.len() {
                assert(idxs[t1] == prev[t1] && idxs[t2] == prev[t2]);
            } else {
                assert(idxs[t1] == prev[t1] && idxs[t2] == i - 1);
            }
        }
    }
}

proof fn lemma_extract_ok(pool: Seq<SectionMeeting>, mask: Seq<bool>)
    requires
        pool_sorted(pool),
        no_overlap(pool, mask),
        mask.len() == pool.len(),
    ensures
        schedule_ok(extract(pool, mask)),
{
    let idxs = chosen_upto(mask, mask.len() as int);
    let s = extract(pool, mask);
    lemma_chosen_upto_props(mask, mask.len() as int);
    assert forall|a: int, b: int|
        0 <= a < b < s.len() implies (#[trigger] s[a]).u_start <= (#[trigger] s[b]).u_start && s[
        b].u_start >= s[a].u_end by {
        let ja = idxs[a];
        let jb = idxs[b];
        assert(ja < jb);
        assert(mask[jb]);
        assert(s[a] == pool[ja]@ && s[b] == pool[jb]@);
        assert(pool[jb].u_start > watermark(pool, mask, jb));
        lemma_watermark_ge(pool, mask, ja, jb);
        assert(pool[ja].u_start <= pool[jb].u_start);
    }
}

proof fn lemma_count_unchosen(list: Seq<usize>, mask: Seq<bool>)
    requires
        forall|j: int| 0 <= j < mask.len() ==> !mask[j],
    ensures
        count_chosen(list, mask) == 0,
    decreases list.len(),
{
    if list.len() > 0 {
        lemma_count_unchosen(list.drop_last(), mask);
    }
}

proof fn lemma_course_mask_len(prefs: CoursePreferences, mask: Seq<bool>, k: int)
    requires
        prefs.wf(),
        0 <= k < prefs.n(),
        mask.len() == prefs.p(),
        mask.len() <= usize::MAX,
    ensures
        course_mask(prefs, mask, k).len() == prefs.p(),
{
    reveal(CoursePreferences::wf);
    let ll = prefs.lecture_sections@[k]@;
    assert forall|t: int| 0 <= t < ll.len() implies (#[trigger] ll[t]) < mask.len() by {
        assert(entry_ok_upto(
            prefs.lecture_ids@, prefs.sections@, prefs.lecture_sections@, k, t,
            MeetingType::Lecture, prefs.p(),
        ));
    }
    lemma_mark_list_effect(mask, ll, true);
}


proof fn lemma_alt_bounds(prefs: CoursePreferences, k: int)
    requires
        prefs.wf(),
        0 <= k < prefs.n(),
    ensures
        forall|t: int|
            0 <= t < prefs.lab_sections@[k]@.len() ==> (#[trigger] prefs.lab_sections@[k]@[t])
                == prefs.sentinel_idx || (prefs.lab_sections@[k]@[t] as int) < prefs.p(),
        forall|t: int|
            0 <= t < prefs.discussion_sections@[k]@.len() ==> (
            #[trigger] prefs.discussion_sections@[k]@[t]) == prefs.sentinel_idx || (
            prefs.discussion_sections@[k]@[t] as int) < prefs.p(),
{
    assert forall|t: int|
        0 <= t < prefs.lab_sections@[k]@.len() implies (#[trigger] prefs.lab_sections@[k]@[t])
        == prefs.sentinel_idx || (prefs.lab_sections@[k]@[t] as int) < prefs.p() by {
        if prefs.lab_sections@[k]@[t] != prefs.sentinel_idx {
            lemma_alt_entry(prefs, prefs.lab_sections@, k, t, MeetingType::Lab);
        }
    }
    assert forall|t: int|
        0 <= t < prefs.discussion_sections@[k]@.len() implies (
        #[trigger] prefs.discussion_sections@[k]@[t]) == prefs.sentinel_idx || (
        prefs.discussion_sections@[k]@[t] as int) < prefs.p() by {
        if prefs.discussion_sections@[k]@[t] != prefs.sentinel_idx {
            lemma_alt_entry(prefs, prefs.discussion_sections@, k, t, MeetingType::Discussion);
        }
    }
}

#[verifier::spinoff_prover]
#[verifier::rlimit(100)]
proof fn lemma_model_ok(prefs: CoursePreferences, k: int, mask: Seq<bool>)
    requires
        prefs.wf(),
        mask.len() == prefs.p(),
        mask.len() <= usize::MAX,
        feasible(prefs, mask),
    ensures
        ({
            let m = search_model(prefs, k, mask);
            forall|i: int| 0 <= i < m.len() ==> schedule_ok(#[trigger] m[i])
        }),
    decreases prefs.n() - k, 5int, 0int,
{
    reveal(search_model);
    reveal(labs_model);
    reveal(lab_one);
    reveal(discs_model);
    reveal(disc_one);
    reveal(CoursePreferences::wf);
    if k == prefs.n() {
        reveal(feasible);
        lemma_extract_ok(prefs.sections@, mask);
        assert(search_model(prefs, k, mask) == seq![extract(prefs.sections@, mask)]);
        assert(search_model(prefs, k, mask)[0] == extract(prefs.sections@, mask));
    } else if 0 <= k < prefs.n() {
        let cm = course_mask(prefs, mask, k);
        lemma_course_mask_len(prefs, mask, k);
        if feasible(prefs, cm) {
            lemma_alt_bounds(prefs, k);
            lemma_labs_ok(prefs, k, cm, prefs.lab_sections@[k]@);
            assert(search_model(prefs, k, mask) == labs_model(
                prefs,
                k,
                cm,
                prefs.lab_sections@[k]@,
            ));
        } else {
            assert(search_model(prefs, k, mask) == Seq::<Seq<MeetingView>>::empty());
        }
    } else {
        assert(search_model(prefs, k, mask) == Seq::<Seq<MeetingView>>::empty());
    }
}

proof fn lemma_labs_ok(prefs: CoursePreferences, k: int, mask: Seq<bool>, labs: Seq<usize>)
    requires
        prefs.wf(),
        0 <= k < prefs.n(),
        mask.len() == prefs.p(),
        mask.len() <= usize::MAX,
        feasible(prefs, mask),
        forall|t: int|
            0 <= t < labs.len() ==> (#[trigger] labs[t]) == prefs.sentinel_idx || (
            labs[t] as int) < prefs.p(),
    ensures
        ({
            let m = labs_model(prefs, k, mask, labs);
            forall|i: int| 0 <= i < m.len() ==> schedule_ok(#[trigger] m[i])
        }),
    decreases prefs.n() - k, 4int, labs.len(),
{
    reveal(search_model);
    reveal(labs_model);
    reveal(lab_one);
    reveal(discs_model);
    reveal(disc_one);
    if labs.len() > 0 {
        lemma_labs_ok(prefs, k, mask, labs.drop_last());
        lemma_lab_one_ok(prefs, k, mask, labs.last());
        let rest = labs_model(prefs, k, mask, labs.drop_last());
        let this = lab_one(prefs, k, mask, labs.last());
        assert(labs_model(prefs, k, mask, labs) == rest + this);
        assert forall|i: int|
            0 <= i < (rest + this).len() implies schedule_ok(#[trigger] (rest + this)[i]) by {
            if i < rest.len() {
                assert((rest + this)[i] == rest[i]);
            } else {
                assert((rest + this)[i] == this[i - rest.len()]);
            }
        }
    }
}

proof fn lemma_lab_one_ok(prefs: CoursePreferences, k: int, mask: Seq<bool>, l: usize)
    requires
        prefs.wf(),
        0 <= k < prefs.n(),
        mask.len() == prefs.p(),
        mask.len() <= usize::MAX,
        feasible(prefs, mask),
        l == prefs.sentinel_idx || (l as int) < prefs.p(),
    ensures
        ({
            let m = lab_one(prefs, k, mask, l);
            forall|i: int| 0 <= i < m.len() ==> schedule_ok(#[trigger] m[i])
        }),
    decreases prefs.n() - k, 3int, 0int,
{
    reveal(search_model);
    reveal(labs_model);
    reveal(lab_one);
    reveal(discs_model);
    reveal(disc_one);
    lemma_alt_bounds(prefs, k);
    if l == prefs.sentinel_idx {
        lemma_discs_ok(prefs, k, mask, prefs.discussion_sections@[k]@);
        assert(lab_one(prefs, k, mask, l) == discs_model(
            prefs,
            k,
            mask,
            prefs.discussion_sections@[k]@,
        ));
    } else {
        let m2 = mask.update(l as int, true);
        if feasible(prefs, m2) {
            lemma_discs_ok(prefs, k, m2, prefs.discussion_sections@[k]@);
            assert(m2.len() == prefs.p());
            assert(lab_one(prefs, k, mask, l) == discs_model(
                prefs,
                k,
                m2,
                prefs.discussion_sections@[k]@,
            ));
        } else {
            assert(lab_one(prefs, k, mask, l) == Seq::<Seq<MeetingView>>::empty());
        }
    }
}

proof fn lemma_discs_ok(prefs: CoursePreferences, k: int, mask: Seq<bool>, discs: Seq<usize>)
    requires
        prefs.wf(),
        0 <= k < prefs.n(),
        mask.len() == prefs.p(),
        mask.len() <= usize::MAX,
        feasible(prefs, mask),
        forall|t: int|
            0 <= t < discs.len() ==> (#[trigger] discs[t]) == prefs.sentinel_idx || (
            discs[t] as int) < prefs.p(),
    ensures
        ({
            let m = discs_model(prefs, k, mask, discs);
            forall|i: int| 0 <= i < m.len() ==> schedule_ok(#[trigger] m[i])
        }),
    decreases prefs.n() - k, 2int, discs.len(),
{
    reveal(search_model);
    reveal(labs_model);
    reveal(lab_one);
    reveal(discs_model);
    reveal(disc_one);
    if discs.len() > 0 {
        lemma_discs_ok(prefs, k, mask, discs.drop_last());
        lemma_disc_one_ok(prefs, k, mask, discs.last());
        let rest = discs_model(prefs, k, mask, discs.drop_last());
        let this = disc_one(prefs, k, mask, discs.last());
        assert(discs_model(prefs, k, mask, discs) == rest + this);
        assert forall|i: int|
            0 <= i < (rest + this).len() implies schedule_ok(#[trigger] (rest + this)[i]) by {
            if i < rest.len() {
                assert((rest + this)[i] == rest[i]);
            } else {
                assert((rest + this)[i] == this[i - rest.len()]);
            }
        }
    }
}

proof fn lemma_disc_one_ok(prefs: CoursePreferences, k: int, mask: Seq<bool>, d: usize)
    requires
        prefs.wf(),
        0 <= k < prefs.n(),
        mask.len() == prefs.p(),
        mask.len() <= usize::MAX,
        feasible(prefs, mask),
        d == prefs.sentinel_idx || (d as int) < prefs.p(),
    ensures
        ({
            let m = disc_one(prefs, k, mask, d);
            forall|i: int| 0 <= i < m.len() ==> schedule_ok(#[trigger] m[i])
        }),
    decreases prefs.n() - k, 1int, 0int,
{
    reveal(search_model);
    reveal(labs_model);
    reveal(lab_one);
    reveal(discs_model);
    reveal(disc_one);
    if d == prefs.sentinel_idx {
        lemma_model_ok(prefs, k + 1, mask);
        assert(disc_one(prefs, k, mask, d) == search_model(prefs, k + 1, mask));
    } else {
        let m2 = mask.update(d as int, true);
        if feasible(prefs, m2) {
            lemma_model_ok(prefs, k + 1, m2);
            assert(disc_one(prefs, k, mask, d) == search_model(prefs, k + 1, m2));
        } else {
            assert(disc_one(prefs, k, mask, d) == Seq::<Seq<MeetingView>>::empty());
        }
    }
}

/// No-overlap invariant: every schedule the search returns lists its
/// meetings in ascending start order, and each meeting starts no earlier
/// than the running maximum end of all meetings before it.
pub proof fn lemma_schedules_no_overlap(prefs: CoursePreferences, schedules: Seq<Seq<MeetingView>>)
    requires
        prefs.wf(),
        prefs.p() <= usize::MAX,
        schedules == search_model(prefs, 0, empty_mask(prefs.p())),
    ensures
        forall|i: int| 0 <= i < schedules.len() ==> schedule_ok(#[trigger] schedules[i]),
{
    let mask = empty_mask(prefs.p());
    assert(feasible(prefs, mask)) by {
        reveal(feasible);
        reveal(CoursePreferences::wf);
        assert forall|kk: int|
            0 <= kk < prefs.n() implies #[trigger] count_chosen(prefs.lab_sections@[kk]@, mask)
            <= 1 && count_chosen(prefs.discussion_sections@[kk]@, mask) <= 1 by {
            lemma_count_unchosen(prefs.lab_sections@[kk]@, mask);
            lemma_count_unchosen(prefs.discussion_sections@[kk]@, mask);
        }
    }
    lemma_model_ok(prefs, 0, mask);
}

/// Idempotence: the search result is a function of the preference index
/// alone, so two runs on the same unmodified index return the same
/// schedules in the same order - both equal the search model of the index.
pub proof fn lemma_solve_idempotent(
    prefs: CoursePreferences,
    r1: Seq<Seq<MeetingView>>,
    r2: Seq<Seq<MeetingView>>,
)
    requires
        r1 == search_model(prefs, 0, empty_mask(prefs.p())),
        r2 == search_model(prefs, 0, empty_mask(prefs.p())),
    ensures
        r1 == r2,
{
}

} // verus!
