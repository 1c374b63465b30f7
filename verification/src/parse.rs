//! Normalization of raw meeting records into a uniform time representation.
//!
//! A raw section record carries, per meeting entry, a weekday bitmask and
//! begin/end clock times written as up-to-four-digit strings in `HHMM` form.
//! Normalization turns each set weekday bit into one [`SectionMeeting`] whose
//! `u_start`/`u_end` are seconds since the start of a 14-day window: days 0-6
//! are the ordinary week, days 7-13 hold final-exam blocks so that exams never
//! spuriously conflict with regular-week meetings.

use vstd::prelude::*;
use vstd::string::*;
use std::collections::HashMap;
use crate::utils::{ErrorKind, SolveError};

verus! {

broadcast use vstd::std_specs::hash::group_hash_axioms;

/// The role a meeting plays in a course's weekly schedule. An unrecognized
/// meeting-type name maps to `Other`; such meetings take part in no schedule.
#[derive(Clone, Copy, Debug, PartialEq, Eq, Structural)]
pub enum MeetingType {
    Lecture,
    Discussion,
    Lab,
    Exam,
    Other,
}

/// Role assigned to a meeting-type display name.
pub open spec fn type_of_name(s: Seq<char>) -> MeetingType {
    if s == "Lecture"@ {
        MeetingType::Lecture
    } else if s == "Lab"@ {
        MeetingType::Lab
    } else if s == "Discussion"@ {
        MeetingType::Discussion
    } else if s == "Exam"@ {
        MeetingType::Exam
    } else {
        MeetingType::Other
    }
}

/// Character-wise string comparison, so that classification can be verified
/// against the view of the name.
fn str_eq(a: &str, b: &str) -> (r: bool)
    ensures
        r == (a@ == b@),
{
    let n = a.unicode_len();
    if n != b.unicode_len() {
        assert(a@ != b@) by {
            assert(a@.len() != b@.len());
        }
        return false;
    }
    let mut i: usize = 0;
    while i < n
        invariant
            0 <= i <= n,
            n == a@.len(),
            n == b@.len(),
            forall|k: int| 0 <= k < i ==> a@[k] == b@[k],
        decreases n - i,
    {
        if a.get_char(i) != b.get_char(i) {
            return false;
        }
        i += 1;
    }
    proof {
        assert(a@ =~= b@);
    }
    true
}

impl MeetingType {
    /// Classify a meeting-type display name.
    pub fn from_name(value: &str) -> (r: Self)
        ensures
            r == type_of_name(value@),
    {
        if str_eq(value, "Lecture") {
            MeetingType::Lecture
        } else if str_eq(value, "Lab") {
            MeetingType::Lab
        } else if str_eq(value, "Discussion") {
            MeetingType::Discussion
        } else if str_eq(value, "Exam") {
            MeetingType::Exam
        } else {
            MeetingType::Other
        }
    }
}

impl<'a> From<&'a str> for MeetingType {
    fn from(value: &str) -> (r: Self) {
        MeetingType::from_name(value)
    }
}

impl<'a> vstd::std_specs::convert::FromSpecImpl<&'a str> for MeetingType {
    open spec fn obeys_from_spec() -> bool {
        true
    }

    open spec fn from_spec(v: &'a str) -> MeetingType {
        type_of_name(v@)
    }
}

/// Whether a character is an ASCII decimal digit.
pub open spec fn is_clock_digit(c: char) -> bool {
    48 <= c as u32 <= 57
}

/// Numeric value of an ASCII decimal digit.
pub open spec fn digit_val(c: char) -> int {
    c as u32 - 48
}

/// Value of a string of decimal digits.
pub open spec fn digits_val(s: Seq<char>) -> int
    decreases s.len(),
{
    if s.len() == 0 {
        0
    } else {
        digits_val(s.drop_last()) * 10 + digit_val(s.last())
    }
}

/// A clock string is one to four ASCII digits (`HHMM` form, possibly without
/// leading zeros).
pub open spec fn clock_digits_ok(s: Seq<char>) -> bool {
    &&& 1 <= s.len() <= 4
    &&& forall|i: int| 0 <= i < s.len() ==> is_clock_digit(#[trigger] s[i])
}

/// What parsing a clock string yields: the digit value, or nothing when the
/// string is not in the expected digit encoding.
pub open spec fn spec_parse_clock(s: Seq<char>) -> Option<u64> {
    if clock_digits_ok(s) {
        Some(digits_val(s) as u64)
    } else {
        None
    }
}

proof fn lemma_digits_val_bound(s: Seq<char>)
    requires
        forall|i: int| 0 <= i < s.len() ==> is_clock_digit(#[trigger] s[i]),
        s.len() <= 4,
    ensures
        0 <= digits_val(s),
        s.len() <= 1 ==> digits_val(s) <= 9,
        s.len() <= 2 ==> digits_val(s) <= 99,
        s.len() <= 3 ==> digits_val(s) <= 999,
        digits_val(s) <= 9999,
    decreases s.len(),
{
    if s.len() > 0 {
        lemma_digits_val_bound(s.drop_last());
    }
}

/// Parse a begin/end clock value: one to four decimal digits, read as `HHMM`.
pub fn parse_clock(s: &str) -> (r: Option<u64>)
    ensures
        r == spec_parse_clock(s@),
        r is Some ==> r->0 <= 9999,
{
    let n = s.unicode_len();
    if n < 1 || n > 4 {
        return None;
    }
    let mut val: u64 = 0;
    let mut i: usize = 0;
    while i < n
        invariant
            0 <= i <= n,
            1 <= n <= 4,
            n == s@.len(),
            forall|k: int| 0 <= k < i ==> is_clock_digit(#[trigger] s@[k]),
            val == digits_val(s@.take(i as int)),
            val <= 9999,
        decreases n - i,
    {
        let c = s.get_char(i);
        let u = c as u32;
        if u < 48 || u > 57 {
            assert(!is_clock_digit(s@[i as int]));
            return None;
        }
        proof {
            lemma_digits_val_bound(s@.take(i as int));
            assert(s@.take(i as int + 1).drop_last() =~= s@.take(i as int));
        }
        val = val * 10 + ((u - 48) as u64);
        i += 1;
    }
    proof {
        assert(s@.take(n as int) =~= s@);
        lemma_digits_val_bound(s@);
    }
    Some(val)
}

/// Seconds past midnight encoded by a clock value in `HHMM` form.
pub open spec fn clock_secs(d: int) -> int {
    (d / 100) * 3600 + (d % 100) * 60
}

/// A clock value that names a real time of day: hours below 24, minutes
/// below 60.
pub open spec fn valid_clock(d: int) -> bool {
    &&& 0 <= d
    &&& d / 100 < 24
    &&& d % 100 < 60
}

/// The mathematical value of one normalized meeting.
pub ghost struct MeetingView {
    pub u_start: int,
    pub u_end: int,
    pub section_id: u64,
    pub lecture_id: u64,
    pub section_name: Seq<char>,
    pub meeting_type: MeetingType,
}

/// The meeting emitted for weekday `day` from clock values `bd`/`ed`:
/// week-relative second offsets, shifted a week later for exam blocks.
pub open spec fn spec_meeting(
    day: int,
    bd: int,
    ed: int,
    mt: MeetingType,
    name: Seq<char>,
    lid: u64,
    sid: u64,
) -> MeetingView {
    let shift: int = if mt is Exam {
        7 * 86400int
    } else {
        0
    };
    MeetingView {
        u_start: day * 86400 + clock_secs(bd) + shift,
        u_end: day * 86400 + clock_secs(ed) + shift,
        section_id: sid,
        lecture_id: lid,
        section_name: name,
        meeting_type: mt,
    }
}

/// One scheduled time block, owned by a physical section and pulled in for a
/// desired lecture.
pub struct SectionMeeting {
    /// Seconds since the start of the 14-day window.
    pub u_start: u64,
    /// End of the block, same origin as `u_start`.
    pub u_end: u64,
    /// The physical section owning this meeting.
    pub section_id: u64,
    /// The desired top-level course this meeting was pulled in for.
    pub lecture_id: u64,
    /// Display label copied from the owning section's record.
    pub section_name: String,
    /// The role tag.
    pub meeting_type: MeetingType,
}

impl View for SectionMeeting {
    type V = MeetingView;

    open spec fn view(&self) -> MeetingView {
        MeetingView {
            u_start: self.u_start as int,
            u_end: self.u_end as int,
            section_id: self.section_id,
            lecture_id: self.lecture_id,
            section_name: self.section_name@,
            meeting_type: self.meeting_type,
        }
    }
}

impl Clone for SectionMeeting {
    fn clone(&self) -> (r: Self)
        ensures
            r@ == self@,
    {
        SectionMeeting {
            u_start: self.u_start,
            u_end: self.u_end,
            section_id: self.section_id,
            lecture_id: self.lecture_id,
            section_name: self.section_name.clone(),
            meeting_type: self.meeting_type,
        }
    }
}

/// The views of a sequence of meetings.
pub open spec fn views_of(s: Seq<SectionMeeting>) -> Seq<MeetingView> {
    Seq::new(s.len(), |i: int| s[i]@)
}

/// Time encoding round-trip: for any weekday bit and any valid clock pair in
/// ascending order, the derived interval is ordered (`start < end`) and both
/// offsets fall within that weekday's window - the window a week later for an
/// exam block.
pub proof fn lemma_time_encoding(
    day: int,
    bd: int,
    ed: int,
    mt: MeetingType,
    name: Seq<char>,
    lid: u64,
    sid: u64,
)
    requires
        0 <= day < 8,
        valid_clock(bd),
        valid_clock(ed),
        bd < ed,
    ensures
        ({
            let m = spec_meeting(day, bd, ed, mt, name, lid, sid);
            let shift: int = if mt is Exam {
                7 * 86400int
            } else {
                0
            };
            &&& m.u_start < m.u_end
            &&& day * 86400 + shift <= m.u_start
            &&& m.u_end < (day + 1) * 86400 + shift
        }),
{
    assert(clock_secs(bd) < clock_secs(ed)) by {
        assert(bd / 100 <= ed / 100) by (nonlinear_arith)
            requires 0 <= bd < ed;
        assert(bd == 100 * (bd / 100) + bd % 100) by (nonlinear_arith);
        assert(ed == 100 * (ed / 100) + ed % 100) by (nonlinear_arith);
    }
    assert(clock_secs(ed) < 86400);
    assert(0 <= clock_secs(bd));
}


/// A raw meeting entry as the upstream record set carries it: any field may
/// be absent, and absence is judged during normalization.
pub struct RawMeeting {
    /// Weekday bitmask: bit `i` set means the meeting happens on day `i`.
    pub in_session: Option<u64>,
    /// Identifier resolved through the meeting-type lookup.
    pub meeting_type: Option<u64>,
    /// Begin clock value in `HHMM` digit form.
    pub begin_time: Option<String>,
    /// End clock value in `HHMM` digit form.
    pub end_time: Option<String>,
}

/// A reference from a lecture to one of its linked sections.
pub struct RawLink {
    /// The linked section's identifier.
    pub parent: Option<u64>,
}

/// A raw section record: linked-section references, meeting entries, and a
/// display label.
pub struct SectionRecord {
    /// References to the lab/discussion sections linked to this lecture.
    pub linked_sections: Option<Vec<RawLink>>,
    /// The section's raw meeting entries.
    pub meetings: Option<Vec<RawMeeting>>,
    /// Human-readable course/section label.
    pub course_number: String,
}

/// One entry of the raw meeting-type table.
pub struct RawMeetingType {
    pub id: Option<u64>,
    pub name: Option<String>,
}

/// One entry of the raw classes collection.
pub struct RawClass {
    pub id: Option<u64>,
    pub record: SectionRecord,
}

/// The whole raw catalog handed in by the data-retrieval collaborator: the
/// meeting-type table and the classes collection, either of which may be
/// missing or of the wrong shape.
pub struct RawCatalog {
    pub meeting_types: Option<Vec<RawMeetingType>>,
    pub classes: Option<Vec<RawClass>>,
}

/// Mathematical value of a raw meeting entry.
pub ghost struct MeetingEntryView {
    pub in_session: Option<u64>,
    pub meeting_type: Option<u64>,
    pub begin_time: Option<Seq<char>>,
    pub end_time: Option<Seq<char>>,
}

/// Mathematical value of a raw section record.
pub ghost struct RecordView {
    pub linked_sections: Option<Seq<Option<u64>>>,
    pub meetings: Option<Seq<MeetingEntryView>>,
    pub course_number: Seq<char>,
}

impl View for RawMeeting {
    type V = MeetingEntryView;

    open spec fn view(&self) -> MeetingEntryView {
        MeetingEntryView {
            in_session: self.in_session,
            meeting_type: self.meeting_type,
            begin_time: match self.begin_time {
                Some(s) => Some(s@),
                None => None,
            },
            end_time: match self.end_time {
                Some(s) => Some(s@),
                None => None,
            },
        }
    }
}

/// The views of a sequence of raw meeting entries.
pub open spec fn entry_views(s: Seq<RawMeeting>) -> Seq<MeetingEntryView> {
    Seq::new(s.len(), |i: int| s[i]@)
}

/// The linked-section identifiers of a sequence of raw links.
pub open spec fn link_views(s: Seq<RawLink>) -> Seq<Option<u64>> {
    Seq::new(s.len(), |i: int| s[i].parent)
}

impl View for SectionRecord {
    type V = RecordView;

    open spec fn view(&self) -> RecordView {
        RecordView {
            linked_sections: match self.linked_sections {
                Some(v) => Some(link_views(v@)),
                None => None,
            },
            meetings: match self.meetings {
                Some(v) => Some(entry_views(v@)),
                None => None,
            },
            course_number: self.course_number@,
        }
    }
}

/// The meeting-type lookup a well-formed table denotes: later entries win.
pub open spec fn types_model(ts: Seq<RawMeetingType>) -> Map<u64, Seq<char>>
    decreases ts.len(),
{
    if ts.len() == 0 {
        Map::empty()
    } else {
        types_model(ts.drop_last()).insert(ts.last().id->0, ts.last().name->0@)
    }
}

/// The section-record lookup a well-formed classes collection denotes.
pub open spec fn classes_model(cs: Seq<RawClass>) -> Map<u64, RecordView>
    decreases cs.len(),
{
    if cs.len() == 0 {
        Map::empty()
    } else {
        classes_model(cs.drop_last()).insert(cs.last().id->0, cs.last().record@)
    }
}

/// Every entry of the meeting-type table carries an id and a name.
pub open spec fn types_list_wf(ts: Seq<RawMeetingType>) -> bool {
    forall|i: int|
        0 <= i < ts.len() ==> (#[trigger] ts[i]).id is Some && ts[i].name is Some
}

/// Every entry of the classes collection carries an id.
pub open spec fn classes_list_wf(cs: Seq<RawClass>) -> bool {
    forall|i: int| 0 <= i < cs.len() ==> (#[trigger] cs[i]).id is Some
}

/// A raw catalog whose two collections are present and whose entries carry
/// their mandatory fields.
pub open spec fn catalog_wf(c: RawCatalog) -> bool {
    &&& c.meeting_types is Some
    &&& types_list_wf(c.meeting_types->0@)
    &&& c.classes is Some
    &&& classes_list_wf(c.classes->0@)
}

/// The view-level contents of a meeting-type map.
pub open spec fn string_views(m: Map<u64, String>) -> Map<u64, Seq<char>> {
    Map::new(|k: u64| m.dom().contains(k), |k: u64| m[k]@)
}

/// The view-level contents of a section-record map.
pub open spec fn record_views(m: Map<u64, SectionRecord>) -> Map<u64, RecordView> {
    Map::new(|k: u64| m.dom().contains(k), |k: u64| m[k]@)
}

proof fn lemma_string_views_insert(m: Map<u64, String>, k: u64, v: String)
    ensures
        string_views(m.insert(k, v)) =~= string_views(m).insert(k, v@),
{
}

proof fn lemma_record_views_insert(m: Map<u64, SectionRecord>, k: u64, v: SectionRecord)
    ensures
        record_views(m.insert(k, v)) =~= record_views(m).insert(k, v@),
{
}


/// Role of a meeting-type identifier under the lookup. A missing identifier
/// classifies as `Other`, like an unrecognized name.
pub open spec fn classify(types: Map<u64, Seq<char>>, id: u64) -> MeetingType {
    if types.dom().contains(id) {
        type_of_name(types[id])
    } else {
        MeetingType::Other
    }
}

/// The meetings one raw entry denotes for the weekday bits at and above
/// `day`, or the error parsing its clock values at the first set bit.
pub open spec fn norm_bits(
    day: int,
    bits: u64,
    bt: Seq<char>,
    et: Seq<char>,
    mt: MeetingType,
    name: Seq<char>,
    lid: u64,
    sid: u64,
) -> Result<Seq<MeetingView>, ErrorKind>
    decreases 8 - day,
{
    if day < 0 || day >= 8 {
        Ok(Seq::empty())
    } else if bits & (1u64 << (day as u64)) != 0 {
        match (spec_parse_clock(bt), spec_parse_clock(et)) {
            (Some(bd), Some(ed)) => match norm_bits(day + 1, bits, bt, et, mt, name, lid, sid) {
                Ok(rest) => Ok(
                    seq![spec_meeting(day, bd as int, ed as int, mt, name, lid, sid)] + rest,
                ),
                Err(e) => Err(e),
            },
            _ => Err(ErrorKind::UnparsableTime),
        }
    } else {
        norm_bits(day + 1, bits, bt, et, mt, name, lid, sid)
    }
}

/// The meetings one raw entry denotes, or the first error validating it.
pub open spec fn norm_entry(
    types: Map<u64, Seq<char>>,
    e: MeetingEntryView,
    name: Seq<char>,
    lid: u64,
    sid: u64,
) -> Result<Seq<MeetingView>, ErrorKind> {
    if e.in_session is None || e.meeting_type is None || e.begin_time is None
        || e.end_time is None {
        Err(ErrorKind::MalformedInput)
    } else {
        norm_bits(
            0,
            e.in_session->0,
            bt_of(e),
            et_of(e),
            classify(types, e.meeting_type->0),
            name,
            lid,
            sid,
        )
    }
}

/// Begin-time view of an entry known to carry one.
pub open spec fn bt_of(e: MeetingEntryView) -> Seq<char> {
    e.begin_time->0
}

/// End-time view of an entry known to carry one.
pub open spec fn et_of(e: MeetingEntryView) -> Seq<char> {
    e.end_time->0
}

/// The meetings a section's entry list denotes, in entry order, or the first
/// error among them.
pub open spec fn norm_entries(
    types: Map<u64, Seq<char>>,
    es: Seq<MeetingEntryView>,
    name: Seq<char>,
    lid: u64,
    sid: u64,
) -> Result<Seq<MeetingView>, ErrorKind>
    decreases es.len(),
{
    if es.len() == 0 {
        Ok(Seq::empty())
    } else {
        match norm_entries(types, es.drop_last(), name, lid, sid) {
            Err(e) => Err(e),
            Ok(acc) => match norm_entry(types, es.last(), name, lid, sid) {
                Err(e) => Err(e),
                Ok(more) => Ok(acc + more),
            },
        }
    }
}

/// The meetings one section contributes when pulled in for lecture `lid`:
/// its record must be present and carry its meetings field.
pub open spec fn norm_section(
    types: Map<u64, Seq<char>>,
    courses: Map<u64, RecordView>,
    lid: u64,
    sid: u64,
) -> Result<Seq<MeetingView>, ErrorKind> {
    if !courses.dom().contains(sid) {
        Err(ErrorKind::UnknownReference)
    } else if courses[sid].meetings is None {
        Err(ErrorKind::MalformedInput)
    } else {
        norm_entries(types, courses[sid].meetings->0, courses[sid].course_number, lid, sid)
    }
}

/// The meetings a lecture's linked-section list contributes, in list order.
pub open spec fn norm_links(
    types: Map<u64, Seq<char>>,
    courses: Map<u64, RecordView>,
    lid: u64,
    links: Seq<Option<u64>>,
) -> Result<Seq<MeetingView>, ErrorKind>
    decreases links.len(),
{
    if links.len() == 0 {
        Ok(Seq::empty())
    } else {
        match norm_links(types, courses, lid, links.drop_last()) {
            Err(e) => Err(e),
            Ok(acc) => match links.last() {
                None => Err(ErrorKind::MalformedInput),
                Some(sid) => match norm_section(types, courses, lid, sid) {
                    Err(e) => Err(e),
                    Ok(more) => Ok(acc + more),
                },
            },
        }
    }
}

/// The meetings one desired lecture pulls in: its own section's, then those
/// of every section its record links to.
pub open spec fn norm_lecture(
    types: Map<u64, Seq<char>>,
    courses: Map<u64, RecordView>,
    lid: u64,
) -> Result<Seq<MeetingView>, ErrorKind> {
    match norm_section(types, courses, lid, lid) {
        Err(e) => Err(e),
        Ok(own) => match courses[lid].linked_sections {
            None => Err(ErrorKind::MalformedInput),
            Some(links) => match norm_links(types, courses, lid, links) {
                Err(e) => Err(e),
                Ok(more) => Ok(own + more),
            },
        },
    }
}

/// What normalization denotes for a whole list of desired lectures: every
/// meeting of every lecture and its linked sections, in input order, or the
/// first validation error.
pub open spec fn norm_all(
    types: Map<u64, Seq<char>>,
    courses: Map<u64, RecordView>,
    ids: Seq<u64>,
) -> Result<Seq<MeetingView>, ErrorKind>
    decreases ids.len(),
{
    if ids.len() == 0 {
        Ok(Seq::empty())
    } else {
        match norm_all(types, courses, ids.drop_last()) {
            Err(e) => Err(e),
            Ok(acc) => match norm_lecture(types, courses, ids.last()) {
                Err(e) => Err(e),
                Ok(more) => Ok(acc + more),
            },
        }
    }
}

proof fn lemma_norm_entries_prefix_err(
    types: Map<u64, Seq<char>>,
    es: Seq<MeetingEntryView>,
    name: Seq<char>,
    lid: u64,
    sid: u64,
    m: int,
)
    requires
        0 <= m <= es.len(),
        norm_entries(types, es.take(m), name, lid, sid) is Err,
    ensures
        norm_entries(types, es, name, lid, sid) == norm_entries(types, es.take(m), name, lid, sid),
    decreases es.len(),
{
    if es.len() > m {
        assert(es.drop_last().take(m) =~= es.take(m));
        lemma_norm_entries_prefix_err(types, es.drop_last(), name, lid, sid, m);
    } else {
        assert(es.take(m) =~= es);
    }
}

proof fn lemma_norm_links_prefix_err(
    types: Map<u64, Seq<char>>,
    courses: Map<u64, RecordView>,
    lid: u64,
    links: Seq<Option<u64>>,
    m: int,
)
    requires
        0 <= m <= links.len(),
        norm_links(types, courses, lid, links.take(m)) is Err,
    ensures
        norm_links(types, courses, lid, links) == norm_links(types, courses, lid, links.take(m)),
    decreases links.len(),
{
    if links.len() > m {
        assert(links.drop_last().take(m) =~= links.take(m));
        lemma_norm_links_prefix_err(types, courses, lid, links.drop_last(), m);
    } else {
        assert(links.take(m) =~= links);
    }
}

proof fn lemma_norm_all_prefix_err(
    types: Map<u64, Seq<char>>,
    courses: Map<u64, RecordView>,
    ids: Seq<u64>,
    m: int,
)
    requires
        0 <= m <= ids.len(),
        norm_all(types, courses, ids.take(m)) is Err,
    ensures
        norm_all(types, courses, ids) == norm_all(types, courses, ids.take(m)),
    decreases ids.len(),
{
    if ids.len() > m {
        assert(ids.drop_last().take(m) =~= ids.take(m));
        lemma_norm_all_prefix_err(types, courses, ids.drop_last(), m);
    } else {
        assert(ids.take(m) =~= ids);
    }
}

/// Normalized lookups over the raw catalog: meeting-type id to display name,
/// and section id to raw record.
pub struct CourseListContext {
    id_to_meet_string: HashMap<u64, String>,
    pub id_to_course: HashMap<u64, SectionRecord>,
}

impl CourseListContext {
    /// The meeting-type lookup, at the view level.
    pub closed spec fn type_names(&self) -> Map<u64, Seq<char>> {
        string_views(self.id_to_meet_string@)
    }

    /// The section-record lookup, at the view level.
    pub closed spec fn courses(&self) -> Map<u64, RecordView> {
        record_views(self.id_to_course@)
    }

    /// Validate the raw catalog's two collections and build the lookups.
    /// Fails, with a `MalformedInput` error, exactly when a collection is
    /// missing or an entry lacks a mandatory field.
    pub fn new(catalog: RawCatalog) -> (r: Result<Self, SolveError>)
        ensures
            r is Ok <==> catalog_wf(catalog),
            r is Ok ==> (r->Ok_0).type_names() == types_model(catalog.meeting_types->0@),
            r is Ok ==> (r->Ok_0).courses() == classes_model(catalog.classes->0@),
            r is Err ==> (r->Err_0).kind == ErrorKind::MalformedInput,
    {
        let mut mt_list = match catalog.meeting_types {
            Some(l) => l,
            None => {
                return Err(SolveError { kind: ErrorKind::MalformedInput, msg: "invalid meetingTypes" });
            },
        };
        let mut class_list = match catalog.classes {
            Some(l) => l,
            None => {
                return Err(SolveError { kind: ErrorKind::MalformedInput, msg: "invalid nodes" });
            },
        };
        let ghost mts = mt_list@;
        let ghost css = class_list@;
        let mt_total = mt_list.len();
        let class_total = class_list.len();

        let mut id_to_meet_string: HashMap<u64, String> = HashMap::new();
        let mut i: usize = 0;
        while mt_list.len() > 0
            invariant
                mts == catalog.meeting_types->0@,
                css == catalog.classes->0@,
                catalog.meeting_types is Some,
                catalog.classes is Some,
                mts.len() == mt_total,
                i + mt_list@.len() == mts.len(),
                mt_list@ == mts.subrange(i as int, mts.len() as int),
                forall|k: int|
                    0 <= k < i ==> (#[trigger] mts[k]).id is Some && mts[k].name is Some,
                string_views(id_to_meet_string@) == types_model(mts.take(i as int)),
            decreases mt_list.len(),
        {
            let entry = mt_list.remove(0);
            proof {
                assert(entry == mts[i as int]);
                assert(mt_list@ =~= mts.subrange(i as int + 1, mts.len() as int));
            }
            let id = match entry.id {
                Some(id) => id,
                None => {
                    assert(mts[i as int].id is None);
                    return Err(SolveError { kind: ErrorKind::MalformedInput, msg: "invalid id" });
                },
            };
            let name = match entry.name {
                Some(n) => n,
                None => {
                    assert(mts[i as int].name is None);
                    return Err(SolveError { kind: ErrorKind::MalformedInput, msg: "invalid name" });
                },
            };
            proof {
                lemma_string_views_insert(id_to_meet_string@, id, name);
                assert(mts.take(i as int + 1).drop_last() =~= mts.take(i as int));
            }
            id_to_meet_string.insert(id, name);
            i += 1;
        }
        proof {
            assert(mts.take(mts.len() as int) =~= mts);
        }

        let mut id_to_course: HashMap<u64, SectionRecord> = HashMap::new();
        let mut j: usize = 0;
        while class_list.len() > 0
            invariant
                mts == catalog.meeting_types->0@,
                css == catalog.classes->0@,
                catalog.meeting_types is Some,
                catalog.classes is Some,
                types_list_wf(mts),
                css.len() == class_total,
                j + class_list@.len() == css.len(),
                class_list@ == css.subrange(j as int, css.len() as int),
                forall|k: int| 0 <= k < j ==> (#[trigger] css[k]).id is Some,
                record_views(id_to_course@) == classes_model(css.take(j as int)),
            decreases class_list.len(),
        {
            let entry = class_list.remove(0);
            proof {
                assert(entry == css[j as int]);
                assert(class_list@ =~= css.subrange(j as int + 1, css.len() as int));
            }
            let id = match entry.id {
                Some(id) => id,
                None => {
                    assert(css[j as int].id is None);
                    return Err(SolveError { kind: ErrorKind::MalformedInput, msg: "invalid id" });
                },
            };
            proof {
                lemma_record_views_insert(id_to_course@, id, entry.record);
                assert(css.take(j as int + 1).drop_last() =~= css.take(j as int));
                assert(entry.record@ == css[j as int].record@);
            }
            id_to_course.insert(id, entry.record);
            j += 1;
        }
        proof {
            assert(css.take(css.len() as int) =~= css);
        }

        Ok(CourseListContext { id_to_meet_string, id_to_course })
    }
}


impl CourseListContext {
    /// Resolve a meeting-type identifier to its role.
    fn meeting_type_from_id(&self, id: u64) -> (r: MeetingType)
        ensures
            r == classify(self.type_names(), id),
    {
        match self.id_to_meet_string.get(&id) {
            Some(name) => {
                proof {
                    assert(self.id_to_meet_string@.contains_key(id));
                    assert(self.type_names()[id] == name@);
                }
                MeetingType::from_name(name.as_str())
            },
            None => {
                proof {
                    assert(!self.id_to_meet_string@.contains_key(id));
                }
                MeetingType::Other
            },
        }
    }

    /// Append every meeting of one section to the pool, pulled in for
    /// `lecture_id`. Appends exactly what the section denotes, or reports the
    /// first validation error and leaves the partial pool to be discarded.
    fn push_meetings(
        &self,
        meetings: &mut Vec<SectionMeeting>,
        lecture_id: u64,
        section_id: u64,
    ) -> (r: Result<(), SolveError>)
        ensures
            r is Ok <==> norm_section(self.type_names(), self.courses(), lecture_id, section_id) is Ok,
            r is Ok ==> views_of(final(meetings)@) == views_of(old(meetings)@) + norm_section(
                self.type_names(),
                self.courses(),
                lecture_id,
                section_id,
            )->Ok_0,
            r is Err ==> r->Err_0.kind == norm_section(
                self.type_names(),
                self.courses(),
                lecture_id,
                section_id,
            )->Err_0,
    {
        let ghost types = self.type_names();
        let ghost courses = self.courses();
        let rec = match self.id_to_course.get(&section_id) {
            Some(r) => r,
            None => {
                proof {
                    assert(!self.id_to_course@.contains_key(section_id));
                }
                return Err(
                    SolveError {
                        kind: ErrorKind::UnknownReference,
                        msg: "section id is not in id_to_course",
                    },
                );
            },
        };
        proof {
            assert(self.id_to_course@.contains_key(section_id));
            assert(courses.dom().contains(section_id));
            assert(courses[section_id] == rec@);
        }
        let ms = match &rec.meetings {
            Some(v) => v,
            None => {
                return Err(
                    SolveError {
                        kind: ErrorKind::MalformedInput,
                        msg: "meetings not in id_to_course[section_id]",
                    },
                );
            },
        };
        let ghost entries = entry_views(ms@);
        let ghost name = rec.course_number@;
        proof {
            assert(courses[section_id].meetings == Some(entries));
            assert(courses[section_id].course_number == name);
        }
        let ghost base = views_of(meetings@);
        let mut mi: usize = 0;
        while mi < ms.len()
            invariant
                0 <= mi <= ms.len(),
                types == self.type_names(),
                courses == self.courses(),
                courses.dom().contains(section_id),
                courses[section_id].meetings == Some(entries),
                courses[section_id].course_number == name,
                rec.course_number@ == name,
                entries == entry_views(ms@),
                base == views_of(old(meetings)@),
                norm_entries(types, entries.take(mi as int), name, lecture_id, section_id) is Ok,
                views_of(meetings@) == base + norm_entries(
                    types,
                    entries.take(mi as int),
                    name,
                    lecture_id,
                    section_id,
                )->Ok_0,
            decreases ms.len() - mi,
        {
            let ghost prev_acc = norm_entries(
                types,
                entries.take(mi as int),
                name,
                lecture_id,
                section_id,
            )->Ok_0;
            proof {
                assert(entries.take(mi as int + 1).drop_last() =~= entries.take(mi as int));
            }
            let entry = &ms[mi];
            proof {
                assert(entry@ == entries[mi as int]);
            }
            let bits = match entry.in_session {
                Some(b) => b,
                None => {
                    proof {
                        lemma_norm_entries_prefix_err(
                            types, entries, name, lecture_id, section_id, mi as int + 1,
                        );
                    }
                    return Err(
                        SolveError { kind: ErrorKind::MalformedInput, msg: "invalid inSession" },
                    );
                },
            };
            let mtid = match entry.meeting_type {
                Some(v) => v,
                None => {
                    proof {
                        lemma_norm_entries_prefix_err(
                            types, entries, name, lecture_id, section_id, mi as int + 1,
                        );
                    }
                    return Err(
                        SolveError { kind: ErrorKind::MalformedInput, msg: "invalid meetingType" },
                    );
                },
            };
            let begin_s = match &entry.begin_time {
                Some(s) => s,
                None => {
                    proof {
                        lemma_norm_entries_prefix_err(
                            types, entries, name, lecture_id, section_id, mi as int + 1,
                        );
                    }
                    return Err(
                        SolveError { kind: ErrorKind::MalformedInput, msg: "invalid beginTime" },
                    );
                },
            };
            let end_s = match &entry.end_time {
                Some(s) => s,
                None => {
                    proof {
                        lemma_norm_entries_prefix_err(
                            types, entries, name, lecture_id, section_id, mi as int + 1,
                        );
                    }
                    return Err(
                        SolveError { kind: ErrorKind::MalformedInput, msg: "invalid endTime" },
                    );
                },
            };
            let mt = self.meeting_type_from_id(mtid);
            let parsed_b = parse_clock(begin_s.as_str());
            let parsed_e = parse_clock(end_s.as_str());
            let ghost bseq = begin_s@;
            let ghost eseq = end_s@;
            proof {
                assert(entries[mi as int].begin_time == Some(bseq));
                assert(entries[mi as int].end_time == Some(eseq));
                assert(norm_entry(types, entries[mi as int], name, lecture_id, section_id)
                    == norm_bits(0, bits, bseq, eseq, mt, name, lecture_id, section_id));
            }
            let ghost mut cur: Seq<MeetingView> = Seq::empty();
            let ghost entry_base = views_of(meetings@);
            proof {
                assert(views_of(meetings@) =~= entry_base + cur);
            }
            let mut day: u64 = 0;
            while day < 8
                invariant
                    0 <= day <= 8,
                    types == self.type_names(),
                    courses == self.courses(),
                    courses.dom().contains(section_id),
                    courses[section_id].meetings == Some(entries),
                    courses[section_id].course_number == name,
                    rec.course_number@ == name,
                    entries == entry_views(ms@),
                    base == views_of(old(meetings)@),
                    0 <= mi < entries.len(),
                    norm_entries(types, entries.take(mi as int), name, lecture_id, section_id)
                        is Ok,
                    prev_acc == norm_entries(
                        types,
                        entries.take(mi as int),
                        name,
                        lecture_id,
                        section_id,
                    )->Ok_0,
                    entry_base == base + prev_acc,
                    views_of(meetings@) == entry_base + cur,
                    norm_entry(types, entries[mi as int], name, lecture_id, section_id)
                        == norm_bits(0, bits, bseq, eseq, mt, name, lecture_id, section_id),
                    parsed_b == spec_parse_clock(bseq),
                    parsed_b is Some ==> parsed_b->0 <= 9999,
                    parsed_e == spec_parse_clock(eseq),
                    parsed_e is Some ==> parsed_e->0 <= 9999,
                    norm_bits(0, bits, bseq, eseq, mt, name, lecture_id, section_id) == (
                    match norm_bits(
                        day as int,
                        bits,
                        bseq,
                        eseq,
                        mt,
                        name,
                        lecture_id,
                        section_id,
                    ) {
                        Ok(rest) => Ok::<Seq<MeetingView>, ErrorKind>(cur + rest),
                        Err(e) => Err(e),
                    }),
                decreases 8 - day,
            {
                proof {
                    assert((day as int) as u64 == day);
                }
                if bits & (1u64 << day) != 0 {
                    let bd = match parsed_b {
                        Some(v) => v,
                        None => {
                            proof {
                                assert(norm_bits(
                                    day as int, bits, bseq, eseq, mt, name, lecture_id, section_id,
                                ) == Err::<Seq<MeetingView>, ErrorKind>(ErrorKind::UnparsableTime));
                                assert(entries.take(mi as int + 1).drop_last() =~= entries.take(
                                    mi as int,
                                ));
                                lemma_norm_entries_prefix_err(
                                    types, entries, name, lecture_id, section_id, mi as int + 1,
                                );
                            }
                            return Err(
                                SolveError {
                                    kind: ErrorKind::UnparsableTime,
                                    msg: "cannot parse start_digits",
                                },
                            );
                        },
                    };
                    let ed = match parsed_e {
                        Some(v) => v,
                        None => {
                            proof {
                                assert(norm_bits(
                                    day as int, bits, bseq, eseq, mt, name, lecture_id, section_id,
                                ) == Err::<Seq<MeetingView>, ErrorKind>(ErrorKind::UnparsableTime));
                                assert(entries.take(mi as int + 1).drop_last() =~= entries.take(
                                    mi as int,
                                ));
                                lemma_norm_entries_prefix_err(
                                    types, entries, name, lecture_id, section_id, mi as int + 1,
                                );
                            }
                            return Err(
                                SolveError {
                                    kind: ErrorKind::UnparsableTime,
                                    msg: "cannot parse end_digits",
                                },
                            );
                        },
                    };
                    let shift: u64 = if mt == MeetingType::Exam {
                        7 * 86400
                    } else {
                        0
                    };
                    let u_start = day * 86400 + (bd / 100) * 3600 + (bd % 100) * 60 + shift;
                    let u_end = day * 86400 + (ed / 100) * 3600 + (ed % 100) * 60 + shift;
                    let sm = SectionMeeting {
                        u_start,
                        u_end,
                        section_id,
                        lecture_id,
                        section_name: rec.course_number.clone(),
                        meeting_type: mt,
                    };
                    proof {
                        assert(sm@ == spec_meeting(
                            day as int, bd as int, ed as int, mt, name, lecture_id, section_id,
                        ));
                    }
                    let ghost pre = meetings@;
                    meetings.push(sm);
                    proof {
                        let m = spec_meeting(
                            day as int, bd as int, ed as int, mt, name, lecture_id, section_id,
                        );
                        let old_cur = cur;
                        cur = cur + seq![m];
                        assert(meetings@ == pre.push(sm));
                        assert(views_of(pre) == entry_base + old_cur);
                        assert(views_of(pre).len() == pre.len());
                        assert(entry_base.len() + old_cur.len() == pre.len());
                        assert forall|i: int| 0 <= i < views_of(meetings@).len() implies views_of(
                            meetings@,
                        )[i] == (entry_base + cur)[i] by {
                            assert(views_of(meetings@)[i] == meetings@[i]@);
                            if i < pre.len() {
                                assert(meetings@[i] == pre[i]);
                                assert(views_of(pre)[i] == pre[i]@);
                                if i < entry_base.len() {
                                    assert((entry_base + cur)[i] == entry_base[i]);
                                    assert((entry_base + old_cur)[i] == entry_base[i]);
                                } else {
                                    assert((entry_base + cur)[i] == cur[i - entry_base.len()]);
                                    assert(cur[i - entry_base.len()] == old_cur[i
                                        - entry_base.len()]);
                                    assert((entry_base + old_cur)[i] == old_cur[i
                                        - entry_base.len()]);
                                }
                            } else {
                                assert(i == pre.len());
                                assert(meetings@[i] == sm);
                                assert((entry_base + cur)[i] == cur[i - entry_base.len()]);
                                assert(cur[old_cur.len() as int] == m);
                            }
                        }
                        assert(views_of(meetings@) =~= entry_base + cur);
                        match norm_bits(
                            day as int + 1, bits, bseq, eseq, mt, name, lecture_id, section_id,
                        ) {
                            Ok(rest) => {
                                assert(norm_bits(
                                    day as int, bits, bseq, eseq, mt, name, lecture_id, section_id,
                                ) == Ok::<Seq<MeetingView>, ErrorKind>(seq![m] + rest));
                                assert(old_cur + (seq![m] + rest) =~= cur + rest);
                            },
                            Err(e) => {
                                assert(norm_bits(
                                    day as int, bits, bseq, eseq, mt, name, lecture_id, section_id,
                                ) == Err::<Seq<MeetingView>, ErrorKind>(e));
                            },
                        }
                    }
                } else {
                    proof {
                        assert(norm_bits(
                            day as int, bits, bseq, eseq, mt, name, lecture_id, section_id,
                        ) == norm_bits(
                            day as int + 1, bits, bseq, eseq, mt, name, lecture_id, section_id,
                        ));
                    }
                }
                day += 1;
            }
            proof {
                assert(norm_bits(8, bits, bseq, eseq, mt, name, lecture_id, section_id)
                    == Ok::<Seq<MeetingView>, ErrorKind>(Seq::empty()));
                assert(cur + Seq::<MeetingView>::empty() =~= cur);
                assert(norm_entry(types, entries[mi as int], name, lecture_id, section_id)
                    == Ok::<Seq<MeetingView>, ErrorKind>(cur));
                assert(norm_entries(types, entries.take(mi as int + 1), name, lecture_id, section_id)
                    == Ok::<Seq<MeetingView>, ErrorKind>(prev_acc + cur));
                assert(views_of(meetings@) =~= base + (prev_acc + cur));
            }
            mi += 1;
        }
        proof {
            assert(entries.take(ms.len() as int) =~= entries);
        }
        Ok(())
    }
}


impl CourseListContext {
    /// Generate the pool of meetings for the desired lectures: each lecture's
    /// own section first, then every section its record links to, in input
    /// order. Fails with the first validation error, exactly as the
    /// normalization model says.
    pub fn meetings_from_lectures(&self, lecture_ids: &Vec<u64>) -> (r: Result<
        Vec<SectionMeeting>,
        SolveError,
    >)
        ensures
            r is Ok <==> norm_all(self.type_names(), self.courses(), lecture_ids@) is Ok,
            r is Ok ==> views_of(r->Ok_0@) == norm_all(
                self.type_names(),
                self.courses(),
                lecture_ids@,
            )->Ok_0,
            r is Err ==> r->Err_0.kind == norm_all(
                self.type_names(),
                self.courses(),
                lecture_ids@,
            )->Err_0,
    {
        let ghost types = self.type_names();
        let ghost courses = self.courses();
        let ghost ids = lecture_ids@;
        let mut meetings: Vec<SectionMeeting> = Vec::new();
        let mut li: usize = 0;
        while li < lecture_ids.len()
            invariant
                0 <= li <= lecture_ids.len(),
                types == self.type_names(),
                courses == self.courses(),
                ids == lecture_ids@,
                norm_all(types, courses, ids.take(li as int)) is Ok,
                views_of(meetings@) == norm_all(types, courses, ids.take(li as int))->Ok_0,
            decreases lecture_ids.len() - li,
        {
            let ghost prev_acc = norm_all(types, courses, ids.take(li as int))->Ok_0;
            proof {
                assert(ids.take(li as int + 1).drop_last() =~= ids.take(li as int));
            }
            let lid = lecture_ids[li];
            match self.push_meetings(&mut meetings, lid, lid) {
                Ok(_) => {},
                Err(e) => {
                    proof {
                        lemma_norm_all_prefix_err(types, courses, ids, li as int + 1);
                    }
                    return Err(e);
                },
            }
            proof {
                assert(courses.dom().contains(lid));
            }
            let ghost own = norm_section(types, courses, lid, lid)->Ok_0;
            let rec = match self.id_to_course.get(&lid) {
                Some(r) => r,
                None => {
                    proof {
                        assert(self.id_to_course@.contains_key(lid));
                        assert(false);
                    }
                    return Err(
                        SolveError {
                            kind: ErrorKind::UnknownReference,
                            msg: "lecture id is not in id_to_course",
                        },
                    );
                },
            };
            proof {
                assert(courses[lid] == rec@);
            }
            let links = match &rec.linked_sections {
                Some(v) => v,
                None => {
                    proof {
                        lemma_norm_all_prefix_err(types, courses, ids, li as int + 1);
                    }
                    return Err(
                        SolveError { kind: ErrorKind::MalformedInput, msg: "invalid linkedSections" },
                    );
                },
            };
            let ghost lviews = link_views(links@);
            proof {
                assert(courses[lid].linked_sections == Some(lviews));
            }
            let ghost lec_base = views_of(meetings@);
            let mut xi: usize = 0;
            while xi < links.len()
                invariant
                    0 <= xi <= links.len(),
                    types == self.type_names(),
                    courses == self.courses(),
                    ids == lecture_ids@,
                    0 <= li < ids.len(),
                    lid == ids[li as int],
                    norm_all(types, courses, ids.take(li as int)) is Ok,
                    prev_acc == norm_all(types, courses, ids.take(li as int))->Ok_0,
                    courses.dom().contains(lid),
                    courses[lid].linked_sections == Some(lviews),
                    lviews == link_views(links@),
                    norm_section(types, courses, lid, lid) is Ok,
                    own == norm_section(types, courses, lid, lid)->Ok_0,
                    lec_base == prev_acc + own,
                    norm_links(types, courses, lid, lviews.take(xi as int)) is Ok,
                    views_of(meetings@) == lec_base + norm_links(
                        types,
                        courses,
                        lid,
                        lviews.take(xi as int),
                    )->Ok_0,
                decreases links.len() - xi,
            {
                proof {
                    assert(lviews.take(xi as int + 1).drop_last() =~= lviews.take(xi as int));
                    assert(lviews[xi as int] == links@[xi as int].parent);
                }
                let parent = match links[xi].parent {
                    Some(p) => p,
                    None => {
                        proof {
                            lemma_norm_links_prefix_err(types, courses, lid, lviews, xi as int + 1);
                            assert(ids.take(li as int + 1).drop_last() =~= ids.take(li as int));
                            lemma_norm_all_prefix_err(types, courses, ids, li as int + 1);
                        }
                        return Err(
                            SolveError {
                                kind: ErrorKind::MalformedInput,
                                msg: "section id doesn't have linked parent",
                            },
                        );
                    },
                };
                let ghost link_acc = norm_links(types, courses, lid, lviews.take(xi as int))->Ok_0;
                match self.push_meetings(&mut meetings, lid, parent) {
                    Ok(_) => {},
                    Err(e) => {
                        proof {
                            lemma_norm_links_prefix_err(types, courses, lid, lviews, xi as int + 1);
                            assert(ids.take(li as int + 1).drop_last() =~= ids.take(li as int));
                            lemma_norm_all_prefix_err(types, courses, ids, li as int + 1);
                        }
                        return Err(e);
                    },
                }
                proof {
                    assert(views_of(meetings@) =~= lec_base + (link_acc + norm_section(
                        types,
                        courses,
                        lid,
                        parent,
                    )->Ok_0));
                }
                xi += 1;
            }
            proof {
                assert(lviews.take(links@.len() as int) =~= lviews);
                let links_total = norm_links(types, courses, lid, lviews)->Ok_0;
                assert(norm_lecture(types, courses, lid) == Ok::<Seq<MeetingView>, ErrorKind>(
                    own + links_total,
                ));
                assert(norm_all(types, courses, ids.take(li as int + 1))
                    == Ok::<Seq<MeetingView>, ErrorKind>(prev_acc + (own + links_total)));
                assert(views_of(meetings@) =~= prev_acc + (own + links_total));
            }
            li += 1;
        }
        proof {
            assert(ids.take(lecture_ids@.len() as int) =~= ids);
        }
        Ok(meetings)
    }
}


proof fn lemma_norm_bits_lecture(
    day: int,
    bits: u64,
    bt: Seq<char>,
    et: Seq<char>,
    mt: MeetingType,
    name: Seq<char>,
    lid: u64,
    sid: u64,
)
    ensures
        ({
            let r = norm_bits(day, bits, bt, et, mt, name, lid, sid);
            r is Ok ==> forall|j: int|
                0 <= j < r->Ok_0.len() ==> (#[trigger] r->Ok_0[j]).lecture_id == lid
        }),
    decreases 8 - day,
{
    if day >= 0 && day < 8 {
        lemma_norm_bits_lecture(day + 1, bits, bt, et, mt, name, lid, sid);
    }
}

proof fn lemma_norm_entries_lecture(
    types: Map<u64, Seq<char>>,
    es: Seq<MeetingEntryView>,
    name: Seq<char>,
    lid: u64,
    sid: u64,
)
    ensures
        ({
            let r = norm_entries(types, es, name, lid, sid);
            r is Ok ==> forall|j: int|
                0 <= j < r->Ok_0.len() ==> (#[trigger] r->Ok_0[j]).lecture_id == lid
        }),
    decreases es.len(),
{
    if es.len() > 0 {
        lemma_norm_entries_lecture(types, es.drop_last(), name, lid, sid);
        let e = es.last();
        if !(e.in_session is None || e.meeting_type is None || e.begin_time is None
            || e.end_time is None) {
            lemma_norm_bits_lecture(
                0,
                e.in_session->0,
                bt_of(e),
                et_of(e),
                classify(types, e.meeting_type->0),
                name,
                lid,
                sid,
            );
        }
    }
}

proof fn lemma_norm_section_lecture(
    types: Map<u64, Seq<char>>,
    courses: Map<u64, RecordView>,
    lid: u64,
    sid: u64,
)
    ensures
        ({
            let r = norm_section(types, courses, lid, sid);
            r is Ok ==> forall|j: int|
                0 <= j < r->Ok_0.len() ==> (#[trigger] r->Ok_0[j]).lecture_id == lid
        }),
{
    if courses.dom().contains(sid) && courses[sid].meetings is Some {
        lemma_norm_entries_lecture(
            types,
            courses[sid].meetings->0,
            courses[sid].course_number,
            lid,
            sid,
        );
    }
}

proof fn lemma_norm_links_lecture(
    types: Map<u64, Seq<char>>,
    courses: Map<u64, RecordView>,
    lid: u64,
    links: Seq<Option<u64>>,
)
    ensures
        ({
            let r = norm_links(types, courses, lid, links);
            r is Ok ==> forall|j: int|
                0 <= j < r->Ok_0.len() ==> (#[trigger] r->Ok_0[j]).lecture_id == lid
        }),
    decreases links.len(),
{
    if links.len() > 0 {
        lemma_norm_links_lecture(types, courses, lid, links.drop_last());
        if links.last() is Some {
            lemma_norm_section_lecture(types, courses, lid, links.last()->0);
        }
    }
}

/// Every meeting normalization emits is tagged with one of the requested
/// lecture identifiers.
pub proof fn lemma_norm_all_lectures(
    types: Map<u64, Seq<char>>,
    courses: Map<u64, RecordView>,
    ids: Seq<u64>,
)
    ensures
        ({
            let r = norm_all(types, courses, ids);
            r is Ok ==> forall|j: int|
                0 <= j < r->Ok_0.len() ==> ids.contains((#[trigger] r->Ok_0[j]).lecture_id)
        }),
    decreases ids.len(),
{
    if ids.len() > 0 {
        lemma_norm_all_lectures(types, courses, ids.drop_last());
        let lid = ids.last();
        let prev = norm_all(types, courses, ids.drop_last());
        if prev is Ok {
            if norm_section(types, courses, lid, lid) is Ok {
                lemma_norm_section_lecture(types, courses, lid, lid);
                if courses[lid].linked_sections is Some {
                    lemma_norm_links_lecture(
                        types,
                        courses,
                        lid,
                        courses[lid].linked_sections->0,
                    );
                }
            }
            assert forall|j: int|
                0 <= j < prev->Ok_0.len() implies ids.contains(
                (#[trigger] prev->Ok_0[j]).lecture_id) by {
                assert(ids.drop_last().contains(prev->Ok_0[j].lecture_id));
                let v = prev->Ok_0[j].lecture_id;
                let w = choose|w: int|
                    0 <= w < ids.drop_last().len() && ids.drop_last()[w] == v;
                assert(ids[w] == prev->Ok_0[j].lecture_id);
            }
            assert(ids.contains(lid)) by {
                assert(ids[ids.len() - 1] == lid);
            }
        }
    }
}


/// Display label of each day of the 14-day window.
pub open spec fn day_name(day: u64) -> Seq<char> {
    if day == 0 {
        "SAT"@
    } else if day == 1 {
        "MON"@
    } else if day == 2 {
        "TUE"@
    } else if day == 3 {
        "WED"@
    } else if day == 4 {
        "THR"@
    } else if day == 5 {
        "FRI"@
    } else if day == 6 {
        "SUN"@
    } else if day == 7 {
        "EX_SAT"@
    } else if day == 8 {
        "EX_MON"@
    } else if day == 9 {
        "EX_TUE"@
    } else if day == 10 {
        "EX_WED"@
    } else if day == 11 {
        "EX_THR"@
    } else if day == 12 {
        "EX_FRI"@
    } else if day == 13 {
        "EX_SUN"@
    } else {
        "INVALID"@
    }
}

/// Name a day of the 14-day window: the ordinary week first, then the
/// exam-week days, and a marker for anything outside the window.
pub fn day_to_str(day: u64) -> (r: &'static str)
    ensures
        r@ == day_name(day),
{
    match day {
        0 => "SAT",
        1 => "MON",
        2 => "TUE",
        3 => "WED",
        4 => "THR",
        5 => "FRI",
        6 => "SUN",
        7 => "EX_SAT",
        8 => "EX_MON",
        9 => "EX_TUE",
        10 => "EX_WED",
        11 => "EX_THR",
        12 => "EX_FRI",
        13 => "EX_SUN",
        _ => "INVALID",
    }
}

/// The character of one decimal digit.
pub open spec fn digit_char(v: int) -> char {
    if v == 0 {
        '0'
    } else if v == 1 {
        '1'
    } else if v == 2 {
        '2'
    } else if v == 3 {
        '3'
    } else if v == 4 {
        '4'
    } else if v == 5 {
        '5'
    } else if v == 6 {
        '6'
    } else if v == 7 {
        '7'
    } else if v == 8 {
        '8'
    } else {
        '9'
    }
}

/// Decimal rendering of a value below 100, without a leading zero.
pub open spec fn dec_digits(v: int) -> Seq<char> {
    if v < 10 {
        seq![digit_char(v)]
    } else {
        seq![digit_char(v / 10), digit_char(v % 10)]
    }
}

/// Two-digit decimal rendering of a value below 100, zero-padded.
pub open spec fn two_digits(v: int) -> Seq<char> {
    seq![digit_char(v / 10), digit_char(v % 10)]
}

/// Relies on std's `format!` with `"{}:{:0>2} {}"`: the first value in
/// plain decimal, the second zero-padded to two digits, then a space and
/// the given meridiem tag.
#[verifier::external_body]
fn format_clock(hour: u64, minute: u64, tag: &str) -> (r: String)
    requires
        hour < 100,
        minute < 60,
    ensures
        r@ == dec_digits(hour as int) + seq![':'] + two_digits(minute as int) + seq![' '] + tag@,
{
    format!("{}:{:0>2} {}", hour, minute, tag)
}

/// Twelve-hour-style rendering of a week-relative offset's time of day:
/// the hour (midnight shown as 12), the minute, and AM before noon.
pub fn hour_to_murican(u_time: u64) -> (r: String)
    ensures
        ({
            let hour0 = u_time as int % 86400 / 3600;
            let minute = u_time as int % 86400 % 3600 / 60;
            let shown = if hour0 == 0 {
                12int
            } else {
                hour0
            };
            let tag = if hour0 >= 12 {
                "PM"@
            } else {
                "AM"@
            };
            r@ == dec_digits(shown) + seq![':'] + two_digits(minute) + seq![' '] + tag
        }),
{
    let hour = u_time % (24 * 3600) / 3600;
    let am_or_pm = if hour >= 12 {
        "PM"
    } else {
        "AM"
    };
    let hour = if hour == 0 {
        12
    } else {
        hour
    };
    let minute = u_time % (24 * 3600) % 3600 / 60;
    format_clock(hour, minute, am_or_pm)
}

/// Display label of a meeting role.
pub open spec fn type_label(mt: MeetingType) -> Seq<char> {
    match mt {
        MeetingType::Lecture => "Lecture"@,
        MeetingType::Discussion => "Discussion"@,
        MeetingType::Lab => "Lab"@,
        MeetingType::Exam => "Exam"@,
        MeetingType::Other => "Other"@,
    }
}

impl MeetingType {
    /// Name this role.
    pub fn label(&self) -> (r: &'static str)
        ensures
            r@ == type_label(*self),
    {
        match self {
            MeetingType::Lecture => "Lecture",
            MeetingType::Discussion => "Discussion",
            MeetingType::Lab => "Lab",
            MeetingType::Exam => "Exam",
            MeetingType::Other => "Other",
        }
    }
}

/// Relies on std's `format!` with
/// `"{} {{ start: {} {}, end: {} {}, type: {} }}"`: the six pieces glued
/// with the literal punctuation shown.
#[verifier::external_body]
fn format_meeting(name: &str, sd: &str, st: &str, ed: &str, et: &str, ty: &str) -> (r: String)
    ensures
        r@ == name@ + " { start: "@ + sd@ + " "@ + st@ + ", end: "@ + ed@ + " "@ + et@
            + ", type: "@ + ty@ + " }"@,
{
    format!("{} {{ start: {} {}, end: {} {}, type: {} }}", name, sd, st, ed, et, ty)
}

/// The rendering `describe` promises for one meeting.
pub open spec fn meeting_text(m: MeetingView) -> Seq<char> {
    let sd = day_name((m.u_start / 86400) as u64);
    let ed = day_name((m.u_end / 86400) as u64);
    let st = clock_of_offset(m.u_start);
    let et = clock_of_offset(m.u_end);
    m.section_name + " { start: "@ + sd + " "@ + st + ", end: "@ + ed + " "@ + et + ", type: "@
        + type_label(m.meeting_type) + " }"@
}

/// The clock rendering of a week-relative offset.
pub open spec fn clock_of_offset(t: int) -> Seq<char> {
    let hour0 = t % 86400 / 3600;
    let minute = t % 86400 % 3600 / 60;
    let shown = if hour0 == 0 {
        12int
    } else {
        hour0
    };
    let tag = if hour0 >= 12 {
        "PM"@
    } else {
        "AM"@
    };
    dec_digits(shown) + seq![':'] + two_digits(minute) + seq![' '] + tag
}

impl SectionMeeting {
    /// Human-readable rendering: the label, both endpoints as day names and
    /// clock times, and the role.
    pub fn describe(&self) -> (r: String)
        ensures
            r@ == meeting_text(self@),
    {
        let start_day = self.u_start / 86400;
        let end_day = self.u_end / 86400;
        let st = hour_to_murican(self.u_start);
        let et = hour_to_murican(self.u_end);
        format_meeting(
            self.section_name.as_str(),
            day_to_str(start_day),
            st.as_str(),
            day_to_str(end_day),
            et.as_str(),
            self.meeting_type.label(),
        )
    }
}

} // verus!
