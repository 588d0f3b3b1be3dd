use daylight::geo::parse_coordinate;
use daylight::orchestrate::plan_run;
use daylight::sessions::{count_successes, reload_command};
use daylight::solar::{classify, parse_time_12h, resolve_from_parts};
use daylight::store::{bootstrap_content, directive, directive_content, read_state};
use daylight::{Error, SunState};

fn b(s: &str) -> Vec<u8> {
    s.as_bytes().to_vec()
}

#[test]
fn classify_boundaries() {
    let sunrise = 1000i64;
    let sunset = 2000i64;
    assert_eq!(classify(sunrise, sunset, 1000), SunState::Up);
    assert_eq!(classify(sunrise, sunset, 2000), SunState::Down);
    assert_eq!(classify(sunrise, sunset, 999), SunState::Down);
    assert_eq!(classify(sunrise, sunset, 1999), SunState::Up);
}

#[test]
fn parse_time_examples() {
    assert_eq!(parse_time_12h(&b("6:32:00 AM")), Some(6 * 3600 + 32 * 60));
    assert_eq!(parse_time_12h(&b("12:00:00 AM")), Some(0));
    assert_eq!(parse_time_12h(&b("12:00:01 PM")), Some(12 * 3600 + 1));
    assert_eq!(parse_time_12h(&b("11:59:59 PM")), Some(86399));
    assert_eq!(parse_time_12h(&b("7:05:09 PM")), Some(19 * 3600 + 5 * 60 + 9));
}

#[test]
fn parse_time_rejects_malformed() {
    assert_eq!(parse_time_12h(&b("")), None);
    assert_eq!(parse_time_12h(&b("6:32:00")), None);
    assert_eq!(parse_time_12h(&b("13:00:00 AM")), None);
    assert_eq!(parse_time_12h(&b("0:00:00 AM")), None);
    assert_eq!(parse_time_12h(&b("6:61:00 AM")), None);
    assert_eq!(parse_time_12h(&b("6:32:61 AM")), None);
    assert_eq!(parse_time_12h(&b("6:32:00 XM")), None);
}

#[test]
fn resolve_classifies_against_anchored_events() {
    let day = 86400i64 * 100;
    let sunrise = b("6:00:00 AM");
    let sunset = b("6:00:00 PM");
    let up = resolve_from_parts(&sunrise, &sunset, day, day + 21600).unwrap();
    assert_eq!(up, SunState::Up);
    let down = resolve_from_parts(&sunrise, &sunset, day, day + 64800).unwrap();
    assert_eq!(down, SunState::Down);
    let before = resolve_from_parts(&sunrise, &sunset, day, day + 21599).unwrap();
    assert_eq!(before, SunState::Down);
    let late = resolve_from_parts(&sunrise, &sunset, day, day + 64799).unwrap();
    assert_eq!(late, SunState::Up);
}

#[test]
fn resolve_rejects_malformed_events() {
    let r = resolve_from_parts(&b("sunrise"), &b("6:00:00 PM"), 0, 0);
    assert_eq!(r, Err(Error::ParseError));
}

#[test]
fn store_round_trip() {
    assert_eq!(read_state(&directive_content(SunState::Up)), SunState::Up);
    assert_eq!(read_state(&directive_content(SunState::Down)), SunState::Down);
}

#[test]
fn store_directives() {
    assert_eq!(directive(SunState::Up), b("set bg=light"));
    assert_eq!(directive(SunState::Down), b("set bg=dark"));
    assert_eq!(directive_content(SunState::Down), b("set bg=dark\n"));
}

#[test]
fn store_reads_by_substring() {
    assert_eq!(read_state(&b("set bg=dark\n")), SunState::Down);
    assert_eq!(read_state(&b("set bg=light\n")), SunState::Up);
    assert_eq!(read_state(&b("  dark  \n\n")), SunState::Down);
    assert_eq!(read_state(&b("")), SunState::Up);
    assert_eq!(read_state(&b("anything else")), SunState::Up);
}

#[test]
fn scenario_missing_state_file_bootstraps_light() {
    // a missing state file is created with the Up directive and then read as Up
    let content = bootstrap_content();
    assert_eq!(content, b("set bg=light\n"));
    assert_eq!(read_state(&content), SunState::Up);
}

#[test]
fn coordinate_accepts_lat_lon() {
    let c = parse_coordinate(&b("12.34,-56.78")).unwrap();
    assert_eq!(c.lat, b("12.34"));
    assert_eq!(c.lon, b("-56.78"));
}

#[test]
fn coordinate_takes_first_two_components() {
    let c = parse_coordinate(&b("1,2,3")).unwrap();
    assert_eq!(c.lat, b("1"));
    assert_eq!(c.lon, b("2"));
}

#[test]
fn coordinate_accepts_signs_and_bare_fractions() {
    let c = parse_coordinate(&b("+5,.5")).unwrap();
    assert_eq!(c.lat, b("+5"));
    assert_eq!(c.lon, b(".5"));
}

#[test]
fn coordinate_rejects_malformed() {
    assert!(parse_coordinate(&b("12.34")).is_err());
    assert!(parse_coordinate(&b("")).is_err());
    assert!(parse_coordinate(&b("abc,1")).is_err());
    assert!(parse_coordinate(&b("1.2.3,4")).is_err());
    assert!(parse_coordinate(&b("1,")).is_err());
    assert!(parse_coordinate(&b("1,2,x")).is_err());
    match parse_coordinate(&b("12.34")) {
        Err(e) => assert_eq!(e, Error::ParseError),
        Ok(_) => panic!("expected a parse failure"),
    }
}

#[test]
fn reload_command_appends_theme() {
    assert_eq!(reload_command(&b("gruvbox")), b("AirlineTheme gruvbox"));
    assert_eq!(reload_command(&b("")), b("AirlineTheme "));
}

#[test]
fn scenario_one_session_refused() {
    // two sessions discovered, one refused: the run still counts one success
    let outcomes = vec![true, false];
    assert_eq!(count_successes(&outcomes), 1);
}

#[test]
fn count_successes_tallies() {
    assert_eq!(count_successes(&vec![]), 0);
    assert_eq!(count_successes(&vec![true, true, false, true]), 3);
}

#[test]
fn plan_prefers_forced_state() {
    let p = plan_run(Some(SunState::Down), SunState::Up, SunState::Up);
    assert_eq!(p.target, SunState::Down);
    assert!(p.apply);
}

#[test]
fn scenario_no_op_run() {
    // state file reads Up, resolver computes Up: nothing is touched
    let p = plan_run(None, SunState::Up, SunState::Up);
    assert_eq!(p.target, SunState::Up);
    assert!(!p.apply);
}

#[test]
fn plan_applies_on_change() {
    let p = plan_run(None, SunState::Up, SunState::Down);
    assert_eq!(p.target, SunState::Up);
    assert!(p.apply);
}
