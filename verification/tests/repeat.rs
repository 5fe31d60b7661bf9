use org_plugin::org_date::Date;
use org_plugin::repeat::{from_days, next_date, parse, shift, to_days, Base, Unit};

fn d(year: i32, month: u32, day: u32) -> Date {
    Date { year, month, day }
}

#[test]
fn the_three_bases_are_distinguished() {
    assert_eq!(parse("+1d").unwrap().base, Base::Stamp);
    assert_eq!(parse("++1d").unwrap().base, Base::StampCatchUp);
    assert_eq!(parse(".+1d").unwrap().base, Base::Completion);
}

#[test]
fn a_habit_range_parses() {
    let r = parse(".+1d/3d").unwrap();
    assert_eq!(r.base, Base::Completion);
    assert_eq!((r.count, r.unit), (1, Unit::Day));
    assert_eq!(r.max, Some((3, Unit::Day)));
    assert_eq!(r.window_days(), (1, 3));
}

#[test]
fn a_repeater_without_a_max_has_no_slack() {
    let r = parse(".+2d").unwrap();
    assert_eq!(r.max, None, "no `/MAX` was written");
    assert_eq!(r.window_days(), (2, 2));
}

#[test]
fn every_unit_parses() {
    for (s, u) in [("+1d", Unit::Day), ("+1w", Unit::Week), ("+1m", Unit::Month), ("+1y", Unit::Year)] {
        assert_eq!(parse(s).unwrap().unit, u, "{s}");
    }
}

#[test]
fn rendering_round_trips() {
    for s in ["+1d", "++2w", ".+1d/3d", ".+3m", "+10y", ".+2w/1m"] {
        assert_eq!(parse(s).unwrap().render(), s, "{s}");
    }
}

#[test]
fn non_repeaters_are_refused() {
    for s in ["", "1d", "-1d", "+", "+d", "+1x", "+0d", ".+1d/", "+1d/x"] {
        assert!(parse(s).is_none(), "{s:?} must not parse");
    }
}

#[test]
fn plus_keeps_the_cadence_and_dotplus_restarts_from_today() {
    let stamp = d(2026, 9, 1);
    let today = d(2026, 9, 10);
    assert_eq!(
        next_date(&parse("+3d").unwrap(), stamp, today),
        d(2026, 9, 4),
        "`+` counts from the stamp — still in the past, deliberately"
    );
    assert_eq!(
        next_date(&parse(".+3d").unwrap(), stamp, today),
        d(2026, 9, 13),
        "`.+` counts from the completion date"
    );
}

#[test]
fn plusplus_catches_up_past_today() {
    let stamp = d(2026, 1, 1);
    let today = d(2026, 9, 10);
    let got = next_date(&parse("++1m").unwrap(), stamp, today);
    assert_eq!(got, d(2026, 10, 1));
    assert_eq!(next_date(&parse("+1m").unwrap(), stamp, today), d(2026, 2, 1));
}

#[test]
fn plusplus_on_a_future_stamp_shifts_once() {
    let stamp = d(2026, 12, 1);
    let today = d(2026, 9, 10);
    assert_eq!(next_date(&parse("++1m").unwrap(), stamp, today), d(2027, 1, 1));
}

#[test]
fn a_month_shift_clamps_into_the_target_month() {
    assert_eq!(shift(d(2026, 1, 31), 1, Unit::Month), d(2026, 2, 28));
    assert_eq!(shift(d(2024, 1, 31), 1, Unit::Month), d(2024, 2, 29));
    assert_eq!(shift(d(2026, 1, 31), 3, Unit::Month), d(2026, 4, 30));
}

#[test]
fn day_and_week_shifts_roll_over_months_and_years() {
    assert_eq!(shift(d(2026, 12, 30), 3, Unit::Day), d(2027, 1, 2));
    assert_eq!(shift(d(2026, 2, 26), 1, Unit::Week), d(2026, 3, 5));
    assert_eq!(shift(d(2024, 2, 28), 1, Unit::Day), d(2024, 2, 29), "leap");
    assert_eq!(shift(d(2026, 2, 28), 1, Unit::Day), d(2026, 3, 1));
}

#[test]
fn a_year_shift_is_twelve_months_and_clamps_on_leap_day() {
    assert_eq!(shift(d(2026, 6, 15), 1, Unit::Year), d(2027, 6, 15));
    assert_eq!(shift(d(2024, 2, 29), 1, Unit::Year), d(2025, 2, 28));
}

#[test]
fn the_day_conversion_round_trips_and_matches_known_epochs() {
    assert_eq!(to_days(d(1970, 1, 1)), 0);
    assert_eq!(to_days(d(2000, 1, 1)), 10_957);
    assert_eq!(from_days(0), d(1970, 1, 1));
    for n in [-100_000i64, -1, 0, 1, 19_000, 100_000] {
        assert_eq!(to_days(from_days(n)), n, "round trip at {n}");
    }
}

#[test]
fn the_catch_up_loop_is_bounded() {
    let got = next_date(&parse("++1d").unwrap(), d(1900, 1, 1), d(2026, 9, 10));
    assert!(got.year >= 1900, "terminated with a real date, got {got:?}");
}

#[test]
fn an_unpadded_token_renders_back_byte_for_byte() {
    for t in ["+1d", "++2w", ".+1d/3d", "+10y", "++12m/400d"] {
        assert_eq!(parse(t).expect("a repeater").render(), t);
    }
    assert_eq!(parse("+01d").expect("a repeater").render(), "+1d");
}

#[test]
fn catch_up_lands_on_the_first_shift_past_today() {
    let rep = parse("++1w").expect("a repeater");
    let stamp = Date { year: 2026, month: 8, day: 1 };
    let today = Date { year: 2026, month: 9, day: 2 };
    assert_eq!(next_date(&rep, stamp, today), Date { year: 2026, month: 9, day: 5 });
    let on_a_shift = Date { year: 2026, month: 8, day: 29 };
    assert_eq!(next_date(&rep, stamp, on_a_shift), Date { year: 2026, month: 9, day: 5 });
}
