use org_plugin::local_time::{epoch_day_from_local_secs, roam_file_stamp, today_local};
use org_plugin::org_date::Date;

#[test]
fn the_local_day_wins_east_of_greenwich() {
    let utc_evening = 1_788_548_400_i64; // 2026-09-04 19:00:00 UTC
    let offset = 5 * 3600 + 30 * 60; // +05:30
    let utc_day = utc_evening.div_euclid(86_400);
    let local_day = epoch_day_from_local_secs(utc_evening + offset);
    assert_eq!(
        local_day,
        utc_day + 1,
        "past local midnight the agenda must have rolled to the next day; equal days here is the bug — the agenda opening on yesterday"
    );
}

#[test]
fn the_local_day_also_wins_west_of_greenwich() {
    let utc_early = 1_788_570_600_i64; // 2026-09-05 01:10:00 UTC
    let offset = -(8 * 3600); // -08:00
    let utc_day = utc_early.div_euclid(86_400);
    let local_day = epoch_day_from_local_secs(utc_early + offset);
    assert_eq!(local_day, utc_day - 1, "it is still the previous evening in California");
}

#[test]
fn days_below_the_epoch_round_downward() {
    assert_eq!(epoch_day_from_local_secs(-1), -1);
    assert_eq!(epoch_day_from_local_secs(-86_400), -1);
    assert_eq!(epoch_day_from_local_secs(-86_401), -2);
    assert_eq!((-1_i64) / 86_400, 0, "the truncating division this avoids");
}

#[test]
fn a_file_stamp_is_the_local_date_and_time() {
    // 2026-09-04 19:00:00 UTC, seen at +05:30.
    assert_eq!(roam_file_stamp(1_788_548_400 + 19_800), "20260905003000");
    assert_eq!(roam_file_stamp(0), "19700101000000");
    assert_eq!(roam_file_stamp(-1), "19691231235959");
}

#[test]
fn today_is_the_local_date() {
    assert_eq!(today_local(1_788_548_400 + 19_800), Date { year: 2026, month: 9, day: 5 });
    assert_eq!(today_local(-1), Date { year: 1969, month: 12, day: 31 });
}
