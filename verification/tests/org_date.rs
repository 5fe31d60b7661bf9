use org_plugin::org_date::{parse, Date, Plan};
use org_plugin::timestamp::{day_name, weekday};

/// Wednesday, 2 September 2026 — every test states the day it asserts
/// against, because a date test anchored on "now" passes until the day it
/// does not.
const TODAY: Date = Date { year: 2026, month: 9, day: 2 };

fn on(input: &str) -> Plan {
    parse(input, TODAY).unwrap_or_else(|e| panic!("`{input}`: {e}"))
}

#[test]
fn the_anchor_is_the_wednesday_the_tests_assume() {
    assert_eq!(day_name(weekday(2026, 9, 2)), "Wed");
}

#[test]
fn an_absolute_date_renders_with_its_day_name() {
    assert_eq!(on("2026-09-15").render(), "<2026-09-15 Tue>");
}

#[test]
fn day_offsets_cross_a_month_boundary() {
    assert_eq!(on("+1d").render(), "<2026-09-03 Thu>");
    assert_eq!(on("+28d").render(), "<2026-09-30 Wed>");
    assert_eq!(on("+29d").render(), "<2026-10-01 Thu>");
    assert_eq!(on("-2d").render(), "<2026-08-31 Mon>");
}

#[test]
fn a_bare_count_is_days_as_org_means_it() {
    assert_eq!(on("+3").render(), on("+3d").render());
}

#[test]
fn weeks_are_seven_days() {
    assert_eq!(on("+1w").render(), "<2026-09-09 Wed>");
    assert_eq!(on("-2w").render(), "<2026-08-19 Wed>");
}

#[test]
fn months_move_the_field_and_clamp_rather_than_adding_thirty_days() {
    let jan31 = Date { year: 2026, month: 1, day: 31 };
    assert_eq!(parse("+1m", jan31).unwrap().render(), "<2026-02-28 Sat>");
    let jan31_leap = Date { year: 2028, month: 1, day: 31 };
    assert_eq!(parse("+1m", jan31_leap).unwrap().render(), "<2028-02-29 Tue>");
}

#[test]
fn years_are_twelve_months_including_across_a_leap_day() {
    assert_eq!(on("+1y").render(), "<2027-09-02 Thu>");
    let leap_day = Date { year: 2028, month: 2, day: 29 };
    assert_eq!(
        parse("+1y", leap_day).unwrap().render(),
        "<2029-02-28 Wed>",
        "the 29th clamps rather than spilling into March"
    );
}

#[test]
fn the_named_days_resolve() {
    assert_eq!(on("today").render(), "<2026-09-02 Wed>");
    assert_eq!(on(".").render(), "<2026-09-02 Wed>");
    assert_eq!(on("tomorrow").render(), "<2026-09-03 Thu>");
    assert_eq!(on("yesterday").render(), "<2026-09-01 Tue>");
}

#[test]
fn a_weekday_name_is_the_soonest_such_day() {
    assert_eq!(on("fri").render(), "<2026-09-04 Fri>");
    assert_eq!(on("mon").render(), "<2026-09-07 Mon>", "the coming Monday");
    assert_eq!(on("sun").render(), "<2026-09-06 Sun>");
}

#[test]
fn a_weekday_name_matching_today_is_today() {
    assert_eq!(on("wed").render(), "<2026-09-02 Wed>");
    assert_eq!(on("+7d").render(), "<2026-09-09 Wed>", "…and this is a week");
}

#[test]
fn weekday_names_are_case_insensitive() {
    assert_eq!(on("FRI").render(), on("fri").render());
    assert_eq!(on("Tomorrow").render(), on("tomorrow").render());
}

#[test]
fn a_repeater_rides_along_verbatim() {
    assert_eq!(on("+1d .+1d/3d").render(), "<2026-09-03 Thu .+1d/3d>");
    assert_eq!(on("2026-09-15 +1w").render(), "<2026-09-15 Tue +1w>");
    assert_eq!(on("fri ++2d").render(), "<2026-09-04 Fri ++2d>");
}

#[test]
fn a_trailing_token_that_is_not_a_repeater_is_not_silently_dropped() {
    let err = parse("+1d sideways", TODAY).expect_err("refused");
    assert!(err.contains("sideways"), "{err}");
}

#[test]
fn a_malformed_date_names_the_forms_that_would_have_worked() {
    for bad in ["nonsense", "2026-13-01", "2026-02-30", "+", "+1q"] {
        let err = match parse(bad, TODAY) {
            Err(e) => e,
            Ok(p) => panic!("`{bad}` should not parse, got {}", p.render()),
        };
        assert!(err.contains("org:"), "`{bad}` must fail by naming the problem: {err}");
    }
    let err = parse("nonsense", TODAY).expect_err("refused");
    assert!(err.contains("+1d") && err.contains("fri"), "{err}");
}

#[test]
fn an_empty_answer_is_refused_here_and_handled_by_the_caller() {
    assert!(parse("", TODAY).is_err());
    assert!(parse("   ", TODAY).is_err());
}
