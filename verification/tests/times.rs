use chrono::{DateTime, TimeDelta, Timelike};
use fpgahog::clock::{
    offset_is_possible, resolve_timeout, seconds_later, try_parse_timeout, Moment, Span,
};
use fpgahog::util::{
    command_for_later, format_timeout, format_timeout_abs, format_timeout_at, installed_binary,
    is_build_output, prog_for_later,
};

fn seconds(secs: i64) -> Span {
    Span { secs, nanos: 0 }
}

const MINUTE: i64 = 60;
const HOUR: i64 = 3600;
const DAY: i64 = 86_400;

#[test]
fn every_magnitude_formats_without_panicking() {
    assert_eq!(format_timeout(seconds(5)), "5s");
    assert_eq!(format_timeout(seconds(5 * MINUTE)), "5m");
    assert_eq!(format_timeout(seconds(5 * HOUR)), "5h");
    assert_eq!(format_timeout(seconds(3 * DAY)), "3d");
    assert_eq!(format_timeout(seconds(14 * DAY)), "2w");
}

#[test]
fn long_reservations_do_not_panic() {
    assert_eq!(format_timeout(seconds(60 * DAY)), "8w");
    assert_eq!(format_timeout(seconds(400 * DAY)), "1y");
    assert_eq!(format_timeout(seconds(365 * 4 * DAY)), "4y");
}

#[test]
fn expired_claims_read_naturally() {
    assert_eq!(format_timeout(seconds(-30)), "-30s");
    assert_eq!(format_timeout(seconds(-2 * HOUR)), "-2h");
    assert_eq!(format_timeout(seconds(-10 * DAY)), "-1w");
}

#[test]
fn units_change_at_their_borders() {
    for (secs, text) in [
        (0, "0s"),
        (59, "59s"),
        (60, "1m"),
        (3599, "59m"),
        (3600, "1h"),
        (DAY - 1, "23h"),
        (DAY, "1d"),
        (7 * DAY - 1, "6d"),
        (7 * DAY, "1w"),
        (365 * DAY - 1, "52w"),
        (365 * DAY, "1y"),
        (-365 * DAY, "-1y"),
        (-119, "-1m"),
        (-(7 * DAY - 1), "-6d"),
    ] {
        assert_eq!(format_timeout(seconds(secs)), text);
    }
}

fn moment(at: DateTime<chrono::Utc>) -> Moment {
    Moment { secs: at.timestamp(), nanos: at.timestamp_subsec_nanos() }
}

fn utc(secs: i64, nanos: u32) -> DateTime<chrono::Utc> {
    DateTime::from_timestamp(secs, nanos).unwrap()
}

#[test]
fn time_left_is_truncated_towards_zero() {
    let now = Moment { secs: 1000, nanos: 900_000_000 };
    assert_eq!(format_timeout_at(Moment { secs: 1002, nanos: 0 }, now), "1s");
    assert_eq!(format_timeout_at(Moment { secs: 1000, nanos: 0 }, now), "0s");
    assert_eq!(format_timeout_at(Moment { secs: 999, nanos: 0 }, now), "-1s");
    assert_eq!(format_timeout_at(Moment { secs: 1000 + 3 * HOUR, nanos: 900_000_000 }, now), "3h");
    let far = Moment { secs: 8_000_000_000_000, nanos: 0 };
    assert!(format_timeout_abs(far).ends_with('y'));
    // seen on the last second of a minute, a leap second counts
    let leap = Moment { secs: 59, nanos: 1_500_000_000 };
    assert_eq!(format_timeout_at(Moment { secs: 61, nanos: 0 }, leap), {
        let between = utc(61, 0) - utc(59, 1_500_000_000);
        format!("{}s", between.num_seconds())
    });
}

#[test]
fn later_moments_agree_with_the_calendar() {
    for (secs, nanos) in [(0, 0), (59, 999_999_999), (59, 1_999_999_999), (-1, 5), (1_700_000_039, 0)] {
        let at = utc(secs, nanos);
        for add in [0u32, 1, 61, 300] {
            assert_eq!(
                seconds_later(moment(at), add),
                moment(at + TimeDelta::seconds(add as i64)),
                "{} {} {}",
                secs,
                nanos,
                add
            );
        }
    }
}

fn now() -> Moment {
    moment(chrono::Local::now().with_timezone(&chrono::Utc))
}

#[test]
fn real_timeouts_are_not_mistaken_for_board_names() {
    for timeout in ["15min", "4h", "30s", "2026-12-24 10:00"] {
        assert!(try_parse_timeout(timeout, now()).is_ok(), "{} should read as a timeout", timeout);
    }
    for name in ["host", "u280", "v80", "fpga0", "fpga1"] {
        assert!(try_parse_timeout(name, now()).is_err(), "{} should not read as a timeout", name);
    }
}

#[test]
fn durations_count_from_now_and_dates_do_not() {
    let now = Moment { secs: 1_700_000_000, nanos: 250 };
    assert_eq!(try_parse_timeout("15min", now), Ok(Moment { secs: 1_700_000_900, nanos: 250 }));
    assert_eq!(try_parse_timeout("4h", now), Ok(Moment { secs: 1_700_014_400, nanos: 250 }));
    let date = try_parse_timeout("2030-01-01 00:00:00 UTC", now).unwrap();
    assert_eq!(date, Moment { secs: 1_893_456_000, nanos: 0 });
    let err = try_parse_timeout("v80", now).unwrap_err();
    assert!(err.starts_with("`v80` is neither a duration (") && err.contains(") nor a date ("), "{}", err);
}

#[test]
fn each_outcome_of_reading_a_timeout_is_kept() {
    let now = Moment { secs: 100, nanos: 999_999_999 };
    let never = || Err("unused".to_string());
    assert_eq!(resolve_timeout("x", now, Ok((1, 1)), never()), Ok(Moment { secs: 102, nanos: 0 }));
    assert_eq!(resolve_timeout("x", now, Err("a".into()), Ok(now)), Ok(now));
    assert_eq!(
        resolve_timeout("x", now, Err("a".into()), Err("b".into())),
        Err("`x` is neither a duration (a) nor a date (b)".to_string())
    );
}

#[test]
fn offsets_of_a_day_are_impossible() {
    for text in ["2026-12-24 10:00:00 +0200", "2026-12-24 10:00:00 +23:59", "4h", "15min", "10:00", "May 5, 2026", "-99:00", "+2400", "host+2400", "10:00+2400",
        "Ma 5, 2026 10:00 +3000", "board 2026-12-24", "2026-12-2 +2400", "abc", "x:00 +2400", "meeting -9930", "lunch at -9930", "May 5 +2400",
        "2026-12-24 x +2400", "2026-12-24 10:00 +2400 ", "2026-12-24 10:00 +24000a", "2026-12-24 10:00 +2400é", "2026-12-24 10:00 +24:60", "2026-12-24 10:00 +2460",
        "2026-12-24 10:00 +2:400", "2026-12-24 1:00 +2400", "2026-12-2410:00 +2400", "2026-12-24 10:00am +2400", "2026-12-24 10:00:00.1234567890+2400",
        "10:00am+2400", "10:00 am pm +2400", "100:00 +2400", "10:0 +2400", "May 5, 2026 9:00 +2400", "May 5, 26 10:00 +2400", "May 5,2026 10:00 +2400",
        "May 5, 2026at10:00 +2400", "May 5, 20261 10:00 +2400", "May. 5, 2026 10:00 +2400", "Septemberly 5, 2026 10:00 +2400", "5 May 2026 10:00 +2400",
        "2026-12-24T10:00:00+24:00", "2026/12/24 10:00 +2400", "May 123, 2026 10:00 +2400"] {
        assert!(offset_is_possible(text), "{}", text);
        // whatever comes of it, it can be read
        let read = try_parse_timeout(text, now());
        assert!(read.is_ok() || read.unwrap_err().starts_with('`'), "{}", text);
    }
    for text in ["2026-12-24 10:00:00 +2400", "2026-12-24 +99:00", "10:00 -24:00", "May 5, 2026 10:00 +3000", "2026-12-24+2400",
        "2026-12-24 10:00 +9959x", "9:30pm +2500", "September 17, 2012 at 10:09am -24:00", "2026-12-24 10:00:00.123456789+2400", "2026-12-24  10:00+24:00",
        "2026-12-24   -99:59", "2026-12-24 10:00 +2400:", "2026-12-24 10:00 +2400/", "1:00 PM  -2400", "10:00:00 +2400", "may 5 2026, 10:00:59 pm +2400",
        "May 5, 2026,at 10:00 +2400", "May 05, 2026 at 10:00AM\u{a0}+2400", "XXX 99, 9999 99:99 +2400"] {
        assert!(!offset_is_possible(text), "{}", text);
    }
}

#[test]
fn an_installed_binary_is_preferred_for_later() {
    let running = "/scratch/someone/fpgahog/target/release/fpgahog";
    assert_eq!(command_for_later("/tmp/fpgahog", true, running), "/tmp/fpgahog");
    assert_eq!(prog_for_later(true, running), installed_binary());
    assert_eq!(installed_binary(), "/var/lib/fpgahog/pkg/bin/fpgahog");
}

#[test]
fn without_an_install_the_running_binary_is_used() {
    let running = "/scratch/someone/fpgahog/target/release/fpgahog";
    assert_eq!(command_for_later("/nonexistent/fpgahog", false, running), running);
    assert_eq!(prog_for_later(false, running), running);
}

#[test]
fn cargo_build_outputs_are_recognised() {
    assert!(is_build_output("/scratch/someone/fpgahog/target/release/fpgahog"));
    assert!(is_build_output("/scratch/someone/fpgahog/target/debug/fpgahog"));
    assert!(!is_build_output("/var/lib/fpgahog/pkg/bin/fpgahog"));
    assert!(!is_build_output("/nix/store/abc-fpgahog/bin/fpgahog"));
}

#[test]
fn paths_are_read_by_their_steps() {
    for path in ["target/release/x", "./target/./debug", "/a//target//release/", "target/debug"] {
        assert!(is_build_output(path), "{}", path);
        let parts: Vec<String> = std::path::Path::new(path)
            .components()
            .map(|part| part.as_os_str().to_string_lossy().into_owned())
            .collect();
        assert!(parts.windows(2).any(|p| p[0] == "target" && (p[1] == "release" || p[1] == "debug")));
    }
    for path in ["target", "/target/x/release", "mytarget/release", "target/../release", ""] {
        assert!(!is_build_output(path), "{}", path);
    }
}

#[test]
fn the_calendar_ends_where_chrono_ends_it() {
    assert_eq!(utc(8_210_266_876_799, 999_999_999).timestamp(), 8_210_266_876_799);
    assert!(DateTime::from_timestamp(8_210_266_876_800, 0).is_none());
    // it can end in a leap second
    let last = Moment { secs: 8_210_266_876_799, nanos: 1_000_000_000 };
    let now = Moment { secs: 1_700_000_000, nanos: 0 };
    assert_eq!(try_parse_timeout("31 Dec 262142 23:59:60 +0000", now), Ok(last));
    assert_eq!(format_timeout_at(last, Moment { secs: 8_210_266_876_790, nanos: 0 }), "10s");
    assert_eq!(format_timeout_at(last, now), "260291y");
    assert_eq!(seconds_later(last, 0), last);
    assert_eq!(utc(-8_334_601_228_800, 0).timestamp(), -8_334_601_228_800);
    assert!(DateTime::from_timestamp(-8_334_601_228_801, 0).is_none());
}

#[test]
fn a_leap_second_can_follow_any_second() {
    let leap = utc(17, 0).with_nanosecond(1_250_000_000).unwrap();
    let later = utc(20, 500_000_000);
    assert_eq!(moment(leap), Moment { secs: 17, nanos: 1_250_000_000 });
    for add in [0u32, 1, 61] {
        assert_eq!(seconds_later(moment(leap), add), moment(leap + TimeDelta::seconds(add as i64)));
    }
    assert_eq!(
        format_timeout_at(moment(later), moment(leap)),
        format!("{}s", (later - leap).num_seconds())
    );
    assert_eq!(
        format_timeout_at(moment(leap), moment(later)),
        format!("{}s", (leap - later).num_seconds())
    );
    assert_eq!(
        resolve_timeout("x", moment(leap), Ok((0, 700_000_000)), Err(String::new())),
        Ok(moment(leap + TimeDelta::nanoseconds(700_000_000)))
    );
    assert_eq!(
        resolve_timeout("x", moment(leap), Ok((0, 800_000_000)), Err(String::new())),
        Ok(moment(leap + TimeDelta::nanoseconds(800_000_000)))
    );
}
