use course_scheduler::parse::{
    parse_clock, CourseListContext, MeetingType, RawCatalog, RawClass, RawLink, RawMeeting,
    RawMeetingType, SectionMeeting, SectionRecord,
};
use course_scheduler::solver::{BTSolver, CoursePreferences};
use course_scheduler::utils::ErrorKind;

const DAY: u64 = 86400;

fn meeting(bits: u64, mt: u64, begin: &str, end: &str) -> RawMeeting {
    RawMeeting {
        in_session: Some(bits),
        meeting_type: Some(mt),
        begin_time: Some(begin.to_string()),
        end_time: Some(end.to_string()),
    }
}

fn section(links: Vec<u64>, meetings: Vec<RawMeeting>, name: &str) -> SectionRecord {
    SectionRecord {
        linked_sections: Some(links.into_iter().map(|p| RawLink { parent: Some(p) }).collect()),
        meetings: Some(meetings),
        course_number: name.to_string(),
    }
}

fn standard_types() -> Vec<RawMeetingType> {
    vec![
        RawMeetingType { id: Some(1), name: Some("Lecture".to_string()) },
        RawMeetingType { id: Some(2), name: Some("Lab".to_string()) },
        RawMeetingType { id: Some(3), name: Some("Discussion".to_string()) },
        RawMeetingType { id: Some(4), name: Some("Exam".to_string()) },
        RawMeetingType { id: Some(5), name: Some("Orientation".to_string()) },
    ]
}

fn catalog(classes: Vec<(u64, SectionRecord)>) -> RawCatalog {
    RawCatalog {
        meeting_types: Some(standard_types()),
        classes: Some(
            classes
                .into_iter()
                .map(|(id, record)| RawClass { id: Some(id), record })
                .collect(),
        ),
    }
}

fn solve(cat: RawCatalog, want: Vec<u64>) -> Vec<Vec<SectionMeeting>> {
    let ctx = CourseListContext::new(cat).unwrap();
    let prefs = CoursePreferences::new(want, ctx).unwrap();
    BTSolver::new(prefs).solve()
}

#[test]
fn clock_parsing() {
    assert_eq!(parse_clock("1130"), Some(1130));
    assert_eq!(parse_clock("0900"), Some(900));
    assert_eq!(parse_clock("900"), Some(900));
    assert_eq!(parse_clock("0"), Some(0));
    assert_eq!(parse_clock(""), None);
    assert_eq!(parse_clock("12345"), None);
    assert_eq!(parse_clock("12x0"), None);
    assert_eq!(parse_clock("-130"), None);
}

#[test]
fn meeting_type_classification() {
    assert_eq!(MeetingType::from_name("Lecture"), MeetingType::Lecture);
    assert_eq!(MeetingType::from_name("Lab"), MeetingType::Lab);
    assert_eq!(MeetingType::from_name("Discussion"), MeetingType::Discussion);
    assert_eq!(MeetingType::from_name("Exam"), MeetingType::Exam);
    assert_eq!(MeetingType::from_name("Orientation"), MeetingType::Other);
    assert_eq!(MeetingType::from("Lab"), MeetingType::Lab);
}

#[test]
fn time_encoding_round_trip() {
    // one meeting on day 2, 11:30-12:45
    let cat = catalog(vec![(10, section(vec![], vec![meeting(1 << 2, 1, "1130", "1245")], "A"))]);
    let res = solve(cat, vec![10]);
    assert_eq!(res.len(), 1);
    assert_eq!(res[0].len(), 1);
    let m = &res[0][0];
    assert_eq!(m.u_start, 2 * DAY + 11 * 3600 + 30 * 60);
    assert_eq!(m.u_end, 2 * DAY + 12 * 3600 + 45 * 60);
    assert!(m.u_start < m.u_end);
    assert!(2 * DAY <= m.u_start && m.u_end < 3 * DAY);
    assert_eq!(m.meeting_type, MeetingType::Lecture);
    assert_eq!(m.lecture_id, 10);
    assert_eq!(m.section_id, 10);
    assert_eq!(m.section_name, "A");
}

#[test]
fn exam_shifted_a_week() {
    let cat = catalog(vec![(
        10,
        section(
            vec![],
            vec![meeting(1 << 1, 1, "0900", "0950"), meeting(1 << 1, 4, "0800", "1000")],
            "A",
        ),
    )]);
    let res = solve(cat, vec![10]);
    assert_eq!(res.len(), 1);
    let exam = res[0].iter().find(|m| m.meeting_type == MeetingType::Exam).unwrap();
    assert_eq!(exam.u_start, (7 + 1) * DAY + 8 * 3600);
    assert_eq!(exam.u_end, (7 + 1) * DAY + 10 * 3600);
    // the exam does not conflict with the regular-week lecture at the same hour
    assert_eq!(res[0].len(), 2);
}

#[test]
fn one_course_one_lab() {
    // Scenario: lecture 9:00-9:50 on three weekdays, one lab alternative on
    // another day, no discussion, no exam: exactly one schedule of 4 meetings.
    let lecture_days = (1 << 1) | (1 << 3) | (1 << 5);
    let cat = catalog(vec![
        (100, section(vec![101], vec![meeting(lecture_days, 1, "0900", "0950")], "C")),
        (101, section(vec![], vec![meeting(1 << 2, 2, "1000", "1150")], "C-L")),
    ]);
    let res = solve(cat, vec![100]);
    assert_eq!(res.len(), 1);
    assert_eq!(res[0].len(), 4);
    let labs = res[0].iter().filter(|m| m.meeting_type == MeetingType::Lab).count();
    let lectures = res[0].iter().filter(|m| m.meeting_type == MeetingType::Lecture).count();
    assert_eq!(labs, 1);
    assert_eq!(lectures, 3);
}

#[test]
fn overlapping_lectures_give_no_schedule() {
    // Scenario: two desired courses whose lectures overlap on the same day.
    let cat = catalog(vec![
        (100, section(vec![], vec![meeting(1 << 1, 1, "0900", "0950")], "A")),
        (200, section(vec![], vec![meeting(1 << 1, 1, "0900", "0950")], "B")),
    ]);
    let res = solve(cat, vec![100, 200]);
    assert_eq!(res.len(), 0);
}

#[test]
fn conflicting_lab_alternative_is_skipped() {
    // Scenario: two mutually exclusive labs; one overlaps the lecture.
    let cat = catalog(vec![
        (100, section(vec![101, 102], vec![meeting(1 << 1, 1, "0900", "0950")], "C")),
        (101, section(vec![], vec![meeting(1 << 1, 2, "0930", "1130")], "C-L1")),
        (102, section(vec![], vec![meeting(1 << 2, 2, "0930", "1130")], "C-L2")),
    ]);
    let res = solve(cat, vec![100]);
    assert_eq!(res.len(), 1);
    assert_eq!(res[0].len(), 2);
    let lab = res[0].iter().find(|m| m.meeting_type == MeetingType::Lab).unwrap();
    assert_eq!(lab.section_id, 102);
}

#[test]
fn sentinel_transparency() {
    // A course with no lab alternatives contributes no lab meeting to any
    // schedule, whatever the other course picks.
    let cat = catalog(vec![
        (100, section(vec![], vec![meeting(1 << 1, 1, "0900", "0950")], "A")),
        (200, section(vec![201], vec![meeting(1 << 2, 1, "0900", "0950")], "B")),
        (201, section(vec![], vec![meeting(1 << 3, 2, "0900", "1050")], "B-L")),
    ]);
    let res = solve(cat, vec![100, 200]);
    assert_eq!(res.len(), 1);
    let labs_of_a = res[0]
        .iter()
        .filter(|m| m.lecture_id == 100 && m.meeting_type == MeetingType::Lab)
        .count();
    assert_eq!(labs_of_a, 0);
}

#[test]
fn no_overlap_in_every_schedule() {
    // Two courses with two lab choices each; every returned schedule is
    // sorted by start and free of overlaps.
    let cat = catalog(vec![
        (100, section(vec![101, 102], vec![meeting(1 << 1, 1, "0900", "0950")], "A")),
        (101, section(vec![], vec![meeting(1 << 2, 2, "0900", "1050")], "A-L1")),
        (102, section(vec![], vec![meeting(1 << 3, 2, "0900", "1050")], "A-L2")),
        (200, section(vec![201], vec![meeting(1 << 1, 1, "1000", "1050")], "B")),
        (201, section(vec![], vec![meeting(1 << 4, 3, "0900", "1050")], "B-D")),
    ]);
    let res = solve(cat, vec![100, 200]);
    assert_eq!(res.len(), 2);
    for schedule in &res {
        let mut max_end = 0u64;
        for m in schedule {
            assert!(m.u_start >= max_end);
            if m.u_end > max_end {
                max_end = m.u_end;
            }
        }
    }
}

#[test]
fn solve_is_idempotent() {
    let cat = catalog(vec![
        (100, section(vec![101, 102], vec![meeting(1 << 1, 1, "0900", "0950")], "A")),
        (101, section(vec![], vec![meeting(1 << 2, 2, "0900", "1050")], "A-L1")),
        (102, section(vec![], vec![meeting(1 << 3, 2, "0900", "1050")], "A-L2")),
    ]);
    let ctx = CourseListContext::new(cat).unwrap();
    let prefs = CoursePreferences::new(vec![100], ctx).unwrap();
    let solver = BTSolver::new(prefs);
    let first = solver.solve();
    let second = solver.solve();
    assert_eq!(first.len(), second.len());
    for (a, b) in first.iter().zip(second.iter()) {
        assert_eq!(a.len(), b.len());
        for (x, y) in a.iter().zip(b.iter()) {
            assert_eq!(x.u_start, y.u_start);
            assert_eq!(x.u_end, y.u_end);
            assert_eq!(x.section_id, y.section_id);
            assert_eq!(x.lecture_id, y.lecture_id);
        }
    }
}

#[test]
fn other_meetings_neither_help_nor_block() {
    // An unrecognized meeting type overlapping the lecture is ignored.
    let cat = catalog(vec![(
        100,
        section(
            vec![],
            vec![meeting(1 << 1, 1, "0900", "0950"), meeting(1 << 1, 5, "0900", "0950")],
            "A",
        ),
    )]);
    let res = solve(cat, vec![100]);
    assert_eq!(res.len(), 1);
    assert_eq!(res[0].len(), 1);
    assert_eq!(res[0][0].meeting_type, MeetingType::Lecture);
}

#[test]
fn missing_meeting_types_table() {
    let cat = RawCatalog { meeting_types: None, classes: Some(vec![]) };
    let err = match CourseListContext::new(cat) {
        Err(e) => e,
        Ok(_) => panic!("expected an error"),
    };
    assert_eq!(err.kind, ErrorKind::MalformedInput);
    assert_eq!(err.message(), "invalid meetingTypes");
}

#[test]
fn missing_classes_collection() {
    let cat = RawCatalog { meeting_types: Some(standard_types()), classes: None };
    let err = match CourseListContext::new(cat) {
        Err(e) => e,
        Ok(_) => panic!("expected an error"),
    };
    assert_eq!(err.kind, ErrorKind::MalformedInput);
    assert_eq!(err.message(), "invalid nodes");
}

#[test]
fn unknown_lecture_id() {
    let cat = catalog(vec![(100, section(vec![], vec![], "A"))]);
    let ctx = CourseListContext::new(cat).unwrap();
    let err = match CoursePreferences::new(vec![999], ctx) {
        Err(e) => e,
        Ok(_) => panic!("expected an error"),
    };
    assert_eq!(err.kind, ErrorKind::UnknownReference);
}

#[test]
fn unknown_linked_section() {
    let cat = catalog(vec![(100, section(vec![777], vec![], "A"))]);
    let ctx = CourseListContext::new(cat).unwrap();
    let err = match CoursePreferences::new(vec![100], ctx) {
        Err(e) => e,
        Ok(_) => panic!("expected an error"),
    };
    assert_eq!(err.kind, ErrorKind::UnknownReference);
}

#[test]
fn unparsable_clock_value() {
    let cat = catalog(vec![(100, section(vec![], vec![meeting(1 << 1, 1, "9:00", "0950")], "A"))]);
    let ctx = CourseListContext::new(cat).unwrap();
    let err = match CoursePreferences::new(vec![100], ctx) {
        Err(e) => e,
        Ok(_) => panic!("expected an error"),
    };
    assert_eq!(err.kind, ErrorKind::UnparsableTime);
}

#[test]
fn missing_meetings_field() {
    let rec = SectionRecord {
        linked_sections: Some(vec![]),
        meetings: None,
        course_number: "A".to_string(),
    };
    let cat = catalog(vec![(100, rec)]);
    let ctx = CourseListContext::new(cat).unwrap();
    let err = match CoursePreferences::new(vec![100], ctx) {
        Err(e) => e,
        Ok(_) => panic!("expected an error"),
    };
    assert_eq!(err.kind, ErrorKind::MalformedInput);
}

#[test]
fn missing_linked_parent() {
    let rec = SectionRecord {
        linked_sections: Some(vec![RawLink { parent: None }]),
        meetings: Some(vec![]),
        course_number: "A".to_string(),
    };
    let cat = catalog(vec![(100, rec)]);
    let ctx = CourseListContext::new(cat).unwrap();
    let err = match CoursePreferences::new(vec![100], ctx) {
        Err(e) => e,
        Ok(_) => panic!("expected an error"),
    };
    assert_eq!(err.kind, ErrorKind::MalformedInput);
}

#[test]
fn empty_bitmask_yields_no_meetings() {
    let cat = catalog(vec![(100, section(vec![], vec![meeting(0, 1, "0900", "0950")], "A"))]);
    let res = solve(cat, vec![100]);
    // the course has no lecture meeting at all; the single schedule is empty
    assert_eq!(res.len(), 1);
    assert_eq!(res[0].len(), 0);
}
