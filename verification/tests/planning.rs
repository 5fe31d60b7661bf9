use org_plugin::org_date::{parse as parse_date, Date};
use org_plugin::planning::{parse, plan_edit, plan_write, Field, PlanEdit, PlanWrite, Planning};

const SCHED: &str = "<2026-09-03 Thu>";
const DEAD: &str = "<2026-09-10 Thu>";

#[test]
fn a_planning_line_reads_every_field() {
    let p = parse("  CLOSED: [2026-09-01 Tue 10:11] DEADLINE: <2026-09-10 Thu> SCHEDULED: <2026-09-03 Thu>")
        .expect("a planning line");
    assert_eq!(p.closed.as_deref(), Some("[2026-09-01 Tue 10:11]"));
    assert_eq!(p.deadline.as_deref(), Some(DEAD));
    assert_eq!(p.scheduled.as_deref(), Some(SCHED));
}

#[test]
fn a_stamp_with_a_repeater_survives_whole() {
    let p = parse("SCHEDULED: <2026-09-03 Thu .+1d/3d>").expect("a planning line");
    assert_eq!(p.scheduled.as_deref(), Some("<2026-09-03 Thu .+1d/3d>"));
    assert_eq!(p.render(0).as_deref(), Some("SCHEDULED: <2026-09-03 Thu .+1d/3d>"));
}

#[test]
fn prose_that_mentions_a_keyword_is_not_a_planning_line() {
    assert_eq!(parse("I should note the SCHEDULED: field here"), None);
    assert_eq!(parse("the body starts here"), None);
    assert_eq!(parse(""), None);
    assert_eq!(parse("SCHEDULED:"), None);
    assert_eq!(parse("SCHEDULED: soon"), None);
}

#[test]
fn scheduling_an_unplanned_headline_inserts_a_line() {
    assert_eq!(
        plan_edit(4, Some("the body starts here"), Field::Scheduled, Some(SCHED.into())),
        PlanEdit::Insert { line: 5, text: "SCHEDULED: <2026-09-03 Thu>".into() }
    );
}

#[test]
fn a_headline_at_end_of_file_still_gets_one() {
    assert_eq!(
        plan_edit(4, None, Field::Deadline, Some(DEAD.into())),
        PlanEdit::Insert { line: 5, text: "DEADLINE: <2026-09-10 Thu>".into() }
    );
}

#[test]
fn rescheduling_replaces_rather_than_stacking() {
    let existing = "  SCHEDULED: <2026-09-01 Tue>";
    let edit = plan_edit(4, Some(existing), Field::Scheduled, Some(SCHED.into()));
    assert_eq!(
        edit,
        PlanEdit::Replace {
            line: 5,
            len: existing.len() as u32,
            text: "  SCHEDULED: <2026-09-03 Thu>".into(),
        }
    );
}

#[test]
fn adding_a_schedule_keeps_an_existing_deadline() {
    let existing = "  DEADLINE: <2026-09-10 Thu>";
    let PlanEdit::Replace { text, .. } = plan_edit(4, Some(existing), Field::Scheduled, Some(SCHED.into())) else {
        panic!("expected a replace");
    };
    assert_eq!(text, "  DEADLINE: <2026-09-10 Thu> SCHEDULED: <2026-09-03 Thu>");
}

#[test]
fn a_closed_stamp_is_never_collateral() {
    let existing = "CLOSED: [2026-09-01 Tue 10:11]";
    let PlanEdit::Replace { text, .. } = plan_edit(0, Some(existing), Field::Scheduled, Some(SCHED.into())) else {
        panic!("expected a replace");
    };
    assert_eq!(text, "CLOSED: [2026-09-01 Tue 10:11] SCHEDULED: <2026-09-03 Thu>");
}

#[test]
fn clearing_the_last_field_removes_the_line() {
    let existing = "  SCHEDULED: <2026-09-01 Tue>";
    assert_eq!(
        plan_edit(4, Some(existing), Field::Scheduled, None),
        PlanEdit::Delete { line: 5, len: existing.len() as u32 }
    );
}

#[test]
fn clearing_one_of_two_fields_keeps_the_line() {
    let existing = "  DEADLINE: <2026-09-10 Thu> SCHEDULED: <2026-09-03 Thu>";
    let PlanEdit::Replace { text, .. } = plan_edit(4, Some(existing), Field::Scheduled, None) else {
        panic!("expected a replace");
    };
    assert_eq!(text, "  DEADLINE: <2026-09-10 Thu>");
}

#[test]
fn clearing_a_field_that_was_never_set_is_not_an_edit() {
    assert_eq!(plan_edit(4, Some("the body"), Field::Scheduled, None), PlanEdit::Nothing);
    assert_eq!(
        plan_edit(4, Some("  DEADLINE: <2026-09-10 Thu>"), Field::Scheduled, None),
        PlanEdit::Nothing
    );
}

#[test]
fn setting_the_same_date_twice_is_not_an_edit() {
    assert_eq!(
        plan_edit(4, Some("  SCHEDULED: <2026-09-03 Thu>"), Field::Scheduled, Some(SCHED.into())),
        PlanEdit::Nothing
    );
}

#[test]
fn an_existing_lines_indentation_is_kept() {
    let PlanEdit::Replace { text, .. } = plan_edit(
        0,
        Some("      SCHEDULED: <2026-09-01 Tue>"),
        Field::Scheduled,
        Some(SCHED.into()),
    ) else {
        panic!("expected a replace");
    };
    assert_eq!(text, "      SCHEDULED: <2026-09-03 Thu>");
}

#[test]
fn a_rendered_line_reads_back_as_its_stamps() {
    let p = Planning {
        closed: Some("[2026-09-01 Tue 10:11]".to_string()),
        deadline: None,
        scheduled: Some("<2026-09-03 Thu .+1d/3d>".to_string()),
    };
    let line = p.render(4).expect("a line");
    assert_eq!(line, "    CLOSED: [2026-09-01 Tue 10:11] SCHEDULED: <2026-09-03 Thu .+1d/3d>");
    assert_eq!(parse(&line), Some(p));
}

#[test]
fn a_written_line_reads_back_with_the_other_fields_kept() {
    let next = "  CLOSED: [2026-09-01 Tue 10:11] SCHEDULED: <2026-09-01 Tue>";
    let PlanEdit::Replace { text, .. } = plan_edit(3, Some(next), Field::Deadline, Some(DEAD.into())) else {
        panic!("expected a replace");
    };
    let back = parse(&text).expect("a planning line");
    assert_eq!(back.closed.as_deref(), Some("[2026-09-01 Tue 10:11]"));
    assert_eq!(back.deadline.as_deref(), Some(DEAD));
    assert_eq!(back.scheduled.as_deref(), Some("<2026-09-01 Tue>"));
}

const TODAY: Date = Date { year: 2026, month: 9, day: 2 };

#[test]
fn an_answered_date_joins_the_existing_planning_line() {
    let next = "  DEADLINE: <2026-09-10 Thu>";
    let w = plan_write(0, "* TODO task", Some(next), Field::Scheduled, "2026-09-03", TODAY);
    assert_eq!(
        w,
        PlanWrite::Write {
            from: 1,
            to: 1,
            to_len: next.len() as u32,
            text: "  DEADLINE: <2026-09-10 Thu> SCHEDULED: <2026-09-03 Thu>".to_string(),
        }
    );
    let PlanWrite::Write { text, .. } = w else { unreachable!() };
    let back = parse(&text).expect("a planning line");
    assert_eq!(back.scheduled.as_deref(), Some("<2026-09-03 Thu>"));
    assert_eq!(back.deadline.as_deref(), Some(DEAD));
}

#[test]
fn an_answer_for_an_unplanned_headline_rewrites_it_with_the_new_line() {
    let w = plan_write(0, "* TODO task", Some("body"), Field::Scheduled, "+1d", TODAY);
    assert_eq!(
        w,
        PlanWrite::Write {
            from: 0,
            to: 0,
            to_len: 11,
            text: "* TODO task\nSCHEDULED: <2026-09-03 Thu>".to_string(),
        }
    );
}

#[test]
fn a_blank_answer_takes_the_last_field_and_its_line_away() {
    let next = "SCHEDULED: <2026-09-03 Thu>";
    let w = plan_write(4, "* TODO task", Some(next), Field::Scheduled, "   ", TODAY);
    assert_eq!(
        w,
        PlanWrite::Write { from: 4, to: 5, to_len: next.len() as u32, text: "* TODO task".to_string() }
    );
    assert_eq!(plan_write(4, "* task", None, Field::Deadline, "", TODAY), PlanWrite::Nothing);
}

#[test]
fn a_date_the_parser_refuses_is_reported() {
    let message = parse_date("nonsense", TODAY).expect_err("refused");
    assert_eq!(
        plan_write(0, "* task", None, Field::Scheduled, "nonsense", TODAY),
        PlanWrite::Refused(message)
    );
}
