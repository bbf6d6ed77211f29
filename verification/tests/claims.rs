use fpgahog::cable::{Host, UsbEntry};
use fpgahog::claiming::{
    check_enforceable, check_free, claimed_line, clear_enforceable, clear_free, decide_claim,
    do_claim, finish_claim, next_minute, schedule_maintenance, split_claim_args,
    Asker, ClaimArgs, ClaimOutcome,
};
use fpgahog::claims::{
    check_access, describe, do_check, find_conflicts, guards_a_board, keep_locks_asserted,
    next_recheck, report_conflicts, RECHECK_MINUTES,
};
use fpgahog::clock::{seconds_later, Moment};
use fpgahog::command::ClaimCommand;
use fpgahog::diskstate::{load_default, Claim, DiskState, FpgaSpec, ResourceId, Settings};
use fpgahog::fpga::{Account, Process};

fn now() -> Moment {
    let now = chrono::Local::now();
    Moment { secs: now.timestamp(), nanos: now.timestamp_subsec_nanos() }
}

fn shifted(from: Moment, seconds: i64) -> Moment {
    Moment { secs: from.secs + seconds, nanos: from.nanos }
}

fn claim_of(user: &str, resources: &[&str], exclusive: bool) -> Claim {
    Claim {
        id: 1,
        timeout: shifted(now(), 3600),
        soft_timeout: None,
        exclusive,
        user: user.to_string(),
        comment: String::new(),
        resources: resources.iter().map(|r| ResourceId::parse(r)).collect(),
    }
}

fn state_with(claims: Vec<Claim>) -> DiskState {
    DiskState {
        hogger: None,
        overmounts: vec![],
        claims,
        settings: Settings { authorized_keys_file: vec![], fpgas: vec![] },
        disabled_systemd_units: vec![],
        device_locks: vec![],
        cable_locks: vec![],
        pending_replug: vec![],
        recheck_at: None,
        last_claim_id: 0,
        state_version: 3,
    }
}

#[test]
fn different_fpgas_never_collide() {
    let state = state_with(vec![claim_of("colleague", &["v80"], true)]);
    let conflicts = find_conflicts(&state, "me", &[ResourceId::parse("u280")], true);
    assert!(conflicts.is_empty());
}

#[test]
fn exclusive_claims_collide_on_the_same_board() {
    let state = state_with(vec![claim_of("colleague", &["u280"], true)]);
    let conflicts = find_conflicts(&state, "me", &[ResourceId::parse("u280")], true);
    assert_eq!(conflicts.len(), 1);
    assert_eq!(conflicts[0].user, "colleague");
    assert_eq!(conflicts[0].resource, ResourceId::Fpga("u280".into()));
}

#[test]
fn shared_claims_coexist_but_an_exclusive_one_does_not() {
    let state = state_with(vec![claim_of("colleague", &["u280"], false)]);
    assert!(find_conflicts(&state, "me", &[ResourceId::parse("u280")], false).is_empty());
    assert_eq!(find_conflicts(&state, "me", &[ResourceId::parse("u280")], true).len(), 1);

    let state = state_with(vec![claim_of("colleague", &["u280"], true)]);
    assert_eq!(find_conflicts(&state, "me", &[ResourceId::parse("u280")], false).len(), 1);
}

#[test]
fn my_own_claims_do_not_block_me() {
    let state = state_with(vec![claim_of("me", &["u280"], true)]);
    assert!(find_conflicts(&state, "me", &[ResourceId::parse("u280")], true).is_empty());
}

#[test]
fn host_and_fpga_claims_are_independent() {
    let state = state_with(vec![claim_of("colleague", &["host"], true)]);
    assert!(find_conflicts(&state, "me", &[ResourceId::parse("u280")], true).is_empty());
    assert_eq!(find_conflicts(&state, "me", &[ResourceId::Host], true).len(), 1);
}

#[test]
fn conflicts_are_reported_with_who_and_how_long() {
    let at = now();
    let mut claim = claim_of("colleague", &["u280"], false);
    claim.timeout = shifted(at, 7200);
    let state = state_with(vec![claim]);
    let conflicts = find_conflicts(&state, "me", &[ResourceId::parse("u280")], true);
    assert_eq!(
        report_conflicts(&conflicts, at),
        vec![
            "Claim refused. Already claimed by someone else:",
            "  u280       colleague (shared) for another 2h",
        ]
    );
}

fn words(line: &str) -> Vec<String> {
    line.split_whitespace().map(String::from).collect()
}

fn known() -> Vec<String> {
    words("host v80 u280")
}

/// Stand-in for real timeout parsing ("15min", "4h"), so these tests are about argument order
/// alone.
fn timeoutish(text: &str) -> bool {
    let digits = text.trim_end_matches(|c: char| c.is_ascii_alphabetic());
    !digits.is_empty() && digits.len() < text.len() && digits.chars().all(|c| c.is_ascii_digit())
}

#[test]
fn hosthog_form_claims_the_host() {
    let parsed = split_claim_args(&words("15min some benchmarks"), &known(), timeoutish).unwrap();
    assert_eq!(
        parsed,
        ClaimArgs { resources: "host".into(), timeout: "15min".into(), comment: words("some benchmarks") }
    );
}

#[test]
fn fpgahog_form_names_the_resource_first() {
    let parsed = split_claim_args(&words("u280 4h perf tests"), &known(), timeoutish).unwrap();
    assert_eq!(
        parsed,
        ClaimArgs { resources: "u280".into(), timeout: "4h".into(), comment: words("perf tests") }
    );
    let several = split_claim_args(&words("host,v80 2h"), &known(), timeoutish).unwrap();
    assert_eq!(several.resources, "host,v80");
    assert!(several.comment.is_empty());
}

#[test]
fn a_board_name_inside_a_hosthog_comment_stays_a_comment() {
    let parsed = split_claim_args(&words("2h u280 tests"), &known(), timeoutish).unwrap();
    assert_eq!(parsed.resources, "host");
    assert_eq!(parsed.comment, words("u280 tests"));
}

#[test]
fn a_resource_without_a_timeout_is_refused() {
    let err = split_claim_args(&words("u280"), &known(), timeoutish).unwrap_err();
    assert!(err.contains("timeout"), "{}", err);
}

#[test]
fn an_unknown_word_that_is_not_a_timeout_is_refused() {
    let err = split_claim_args(&words("u2800 4h"), &known(), timeoutish).unwrap_err();
    assert!(err.contains("unknown resource `u2800`"), "{}", err);
}

#[test]
fn an_alias_that_reads_as_a_timeout_is_refused() {
    let err = split_claim_args(&words("1h 2h"), &words("host 1h"), timeoutish).unwrap_err();
    assert!(err.contains("`1h`"), "{}", err);
    assert!(err.to_lowercase().contains("rename"), "{}", err);
}

#[test]
fn each_argument_error_has_its_text() {
    let go = |line: &str| split_claim_args(&words(line), &known(), timeoutish).unwrap_err();
    assert_eq!(go(""), "missing timeout");
    assert_eq!(go("u280"), "missing timeout after `u280`");
    assert_eq!(go("x"), "unknown resource `x`. Known resources: host, v80, u280.");
    assert_eq!(
        split_claim_args(&words("host,1h 2h"), &words("host 1h"), timeoutish).unwrap_err(),
        "FPGA alias `1h` also reads as a timeout, so `claim 1h ...` is ambiguous. Rename it in settings.fpgas."
    );
}

fn state() -> DiskState {
    let mut state = load_default();
    state.settings.fpgas = vec![
        FpgaSpec { alias: "u280".into(), bdf: "0000:c1:00.0".into(), pci_id: String::new(), devices: vec!["/dev/u280_v0".into()], cables: vec![] },
        FpgaSpec { alias: "v80".into(), bdf: "0000:61:00.0".into(), pci_id: String::new(), devices: vec![], cables: vec![] },
    ];
    state
}

const MINUTE: i64 = 60;
const HOUR: i64 = 3600;

fn claim(user: &str, resources: &str, exclusive: bool, left: i64) -> Claim {
    Claim {
        id: 0,
        timeout: shifted(now(), left),
        soft_timeout: None,
        exclusive,
        user: user.into(),
        comment: String::new(),
        resources: ResourceId::parse_list(resources),
    }
}

#[test]
fn no_recheck_without_an_enforceable_exclusive_board_claim() {
    let mut s = state();
    s.claims = vec![
        claim("me", "host", true, HOUR),
        claim("me", "u280", false, HOUR),
        claim("me", "v80", true, HOUR),
    ];
    assert_eq!(next_recheck(&s, now()), None);
}

#[test]
fn an_exclusive_board_claim_keeps_a_recheck_queued() {
    let mut s = state();
    s.claims = vec![claim("me", "u280", true, 4 * HOUR)];
    let now = now();
    assert_eq!(next_recheck(&s, now), Some(shifted(now, RECHECK_MINUTES as i64 * MINUTE)));
}

#[test]
fn a_pending_recheck_is_not_queued_twice() {
    let mut s = state();
    s.claims = vec![claim("me", "u280", true, 4 * HOUR)];
    let now = now();
    s.recheck_at = Some(shifted(now, 3 * MINUTE));
    assert_eq!(next_recheck(&s, now), None);
}

#[test]
fn a_recheck_in_the_past_is_replaced() {
    let mut s = state();
    s.claims = vec![claim("me", "u280", true, 4 * HOUR)];
    let now = now();
    s.recheck_at = Some(shifted(now, -MINUTE));
    assert_eq!(next_recheck(&s, now), Some(shifted(now, RECHECK_MINUTES as i64 * MINUTE)));
}

#[test]
fn an_expired_claim_stops_the_rechecks() {
    let mut s = state();
    s.claims = vec![claim("me", "u280", true, -MINUTE)];
    assert_eq!(next_recheck(&s, now()), None);
}

#[test]
fn a_recheck_is_queued_once_and_then_forgotten() {
    let mut s = state();
    s.claims = vec![claim("me", "u280", true, 4 * HOUR)];
    let now = now();
    let due = shifted(now, 300);
    assert!(guards_a_board(&s, now));
    assert_eq!(keep_locks_asserted(&mut s, now), Some(due));
    assert_eq!(s.recheck_at, Some(due));
    assert_eq!(keep_locks_asserted(&mut s, now), None);
    assert_eq!(s.recheck_at, Some(due));
    s.claims.clear();
    assert_eq!(keep_locks_asserted(&mut s, now), None);
    assert_eq!(s.recheck_at, None);
}

#[test]
fn a_free_board_is_usable() {
    let outcome = check_access(&state(), "me", &ResourceId::parse_list("u280"), now());
    assert!(outcome.blocking.is_empty() && outcome.sharing.is_empty());
}

#[test]
fn someone_elses_exclusive_claim_blocks() {
    let mut s = state();
    s.claims = vec![claim("colleague", "u280", true, HOUR)];
    let outcome = check_access(&s, "me", &ResourceId::parse_list("u280"), now());
    assert_eq!(outcome.blocking.len(), 1);
    assert_eq!(outcome.blocking[0].user, "colleague");
}

#[test]
fn my_own_exclusive_claim_does_not_block_me() {
    let mut s = state();
    s.claims = vec![claim("me", "u280", true, HOUR)];
    assert!(check_access(&s, "me", &ResourceId::parse_list("u280"), now()).blocking.is_empty());
}

#[test]
fn a_shared_claim_is_reported_without_blocking() {
    let mut s = state();
    s.claims = vec![claim("colleague", "u280", false, HOUR)];
    let outcome = check_access(&s, "me", &ResourceId::parse_list("u280"), now());
    assert!(outcome.blocking.is_empty());
    assert_eq!(outcome.sharing.len(), 1);
}

#[test]
fn an_expired_claim_is_ignored() {
    let mut s = state();
    s.claims = vec![claim("colleague", "u280", true, -5 * MINUTE)];
    assert!(check_access(&s, "me", &ResourceId::parse_list("u280"), now()).blocking.is_empty());
}

#[test]
fn a_hog_blocks_every_board() {
    let mut s = state();
    s.claims = vec![claim("colleague", "host,v80,u280", true, HOUR)];
    assert_eq!(check_access(&s, "me", &ResourceId::parse_list("v80"), now()).blocking.len(), 1);
}

#[test]
fn check_says_who_shares_and_who_blocks() {
    let at = now();
    let mut s = state();
    let report = do_check(" ,", &s, "me", at, "fpgahog");
    assert_eq!((report.code, report.err), (2, vec!["No resource given. Try `fpgahog list`.".to_string()]));
    let report = do_check("x9", &s, "me", at, "fpgahog");
    assert_eq!(report.code, 2);
    assert_eq!(
        report.err,
        vec!["unknown resource `x9`. Known resources: host, u280, v80.\nRun `fpgahog discover --write` to register this host's FPGAs."]
    );
    assert_eq!(do_check("u280", &s, "me", at, "fpgahog").code, 0);
    let mut shared = claim("colleague", "u280,v80", false, 0);
    shared.timeout = shifted(at, 300);
    shared.comment = "perf".into();
    s.claims = vec![shared];
    let report = do_check("u280", &s, "me", at, "fpgahog");
    assert_eq!(report.code, 0);
    assert_eq!(report.out, vec!["note: u280,v80 is also in use by colleague (shared, 5m left): perf"]);
    s.claims[0].exclusive = true;
    s.claims[0].comment.clear();
    let report = do_check("u280", &s, "me", at, "fpgahog");
    assert_eq!(report.code, 1);
    assert_eq!(report.err, vec!["u280,v80 is claimed exclusively by colleague for another 5m"]);
    assert!(report.out.is_empty());
    assert_eq!(describe(&s.claims[0]), "");
}

fn board_with_only_a_cable() -> FpgaSpec {
    FpgaSpec {
        alias: "v80".into(),
        bdf: "0000:61:00.0".into(),
        pci_id: String::new(),
        devices: vec![],
        cables: vec!["XFL1EZVSAG4S".into()],
    }
}

#[test]
fn a_board_with_only_a_cable_keeps_a_recheck_queued() {
    let mut state = load_default();
    state.settings.fpgas = vec![board_with_only_a_cable()];
    state.claims = vec![Claim {
        id: 1,
        timeout: shifted(now(), HOUR),
        soft_timeout: None,
        exclusive: true,
        user: "me".into(),
        comment: String::new(),
        resources: ResourceId::parse_list("v80"),
    }];
    assert!(next_recheck(&state, now()).is_some());
}

#[test]
fn a_board_with_only_a_cable_is_enforceable() {
    assert!(check_enforceable(&[board_with_only_a_cable()], false));
}

#[test]
fn a_board_with_neither_is_still_refused() {
    let mut spec = board_with_only_a_cable();
    spec.cables.clear();
    assert!(!check_enforceable(&[spec.clone()], false));
    assert!(check_enforceable(&[spec.clone()], true));
    let refused = clear_enforceable(&[spec.clone()], false, "fpgahog");
    assert_eq!(
        refused.err,
        vec![
            "v80 (0000:61:00.0) has no device nodes or cables configured, so an exclusive claim cannot be enforced.",
            "Load the board's driver and re-run `fpgahog discover --write`, add device nodes or cable\n\
             serials to settings.fpgas[] by hand, or pass --force to take an advisory claim.",
        ]
    );
    let forced = clear_enforceable(&[spec], true, "fpgahog");
    assert!(forced.passed);
    assert_eq!(forced.out, vec!["--force given: recording an advisory claim that blocks nobody."]);
}

fn host(processes: Vec<Process>) -> Host {
    let usb: Vec<UsbEntry> = vec![];
    Host {
        usb,
        dev: "/dev".into(),
        processes,
        accounts: vec![Account { name: "theo".into(), uid: 1234 }],
    }
}

fn busy() -> Host {
    host(vec![Process {
        name: "4711".into(),
        open_files: Some(vec!["/dev/u280_v0".into()]),
        status: Some("Uid:\t1234\n".into()),
        cmdline: Some("run\0-x\0".into()),
    }])
}

#[test]
fn a_board_in_use_is_refused_unless_forced() {
    let specs = state().settings.fpgas;
    assert!(check_free(&specs, &host(vec![]), Some(1000), false));
    assert!(check_free(&specs, &busy(), Some(1234), false));
    assert!(!check_free(&specs, &busy(), Some(1000), false));
    assert!(check_free(&specs, &busy(), Some(1000), true));
    let refused = clear_free(&specs, &busy(), None, false);
    assert_eq!(
        refused.err,
        vec![
            "u280 is in use by:",
            "  pid 4711     run -x (theo)",
            "               holding /dev/u280_v0",
            "\nClaim refused. Re-run with --force to claim anyway\n\
             (their cables are re-plugged, which cuts them off; open device files keep working until closed).",
        ]
    );
    let forced = clear_free(&specs, &busy(), None, true);
    assert_eq!(
        forced.out,
        vec!["--force given: claiming anyway. Cables they hold open are re-plugged; open device files keep working until closed."]
    );
}

fn asker(at: Moment) -> Asker {
    Asker { name: "me".into(), uid: Some(1000), now: at, prog: "fpgahog".into() }
}

fn command(args: &str) -> ClaimCommand {
    ClaimCommand { args: words(args), soft_timeout: None, exclusive: false, shared: false, force: false }
}

#[test]
fn boards_are_claimed_exclusively_and_the_host_is_shared() {
    let at = now();
    let mut s = state();
    let outcome = do_claim(&command("u280 4h perf tests"), &mut s, &asker(at), &host(vec![])).unwrap();
    let claim = outcome.claim.unwrap();
    assert!(claim.exclusive);
    assert_eq!(claim.id, 1);
    assert_eq!(claim.timeout, shifted(at, 4 * HOUR));
    assert_eq!(claim.comment, "perf tests");
    assert_eq!(claim.resources_str(), "u280");
    assert!(outcome.evict.is_empty() && outcome.err.is_empty());
    let outcome = do_claim(&command("15min"), &mut s, &asker(at), &host(vec![])).unwrap();
    let claim = outcome.claim.unwrap();
    assert!(!claim.exclusive);
    assert_eq!((claim.id, claim.resources.len()), (2, 1));
    assert_eq!(s.claims.len(), 2);
    assert_eq!(claimed_line(&claim, "X"), "Claimed host until X (shared)");
    assert_eq!(claimed_line(&s.claims[0], "X"), "Claimed u280 until X (exclusive): perf tests");
}

#[test]
fn soft_timeouts_are_read_like_hard_ones() {
    let at = now();
    let mut s = state();
    let mut cmd = command("host 2h");
    cmd.soft_timeout = Some("30min".into());
    let claim = do_claim(&cmd, &mut s, &asker(at), &host(vec![])).unwrap().claim.unwrap();
    assert_eq!(claim.soft_timeout, Some(shifted(at, 30 * MINUTE)));
    cmd.soft_timeout = Some("soon".into());
    let outcome = do_claim(&cmd, &mut s, &asker(at), &host(vec![])).unwrap();
    assert_eq!(outcome.claim, None);
    assert!(outcome.err[0].starts_with("`soon` is neither a duration ("), "{:?}", outcome.err);
    assert_eq!(s.claims.len(), 1);
}

#[test]
fn a_refused_claim_changes_nothing() {
    let at = now();
    let mut s = state();
    s.claims = vec![claim("colleague", "u280", true, HOUR)];
    for (cmd, start) in [
        (command("u280 4h"), "Claim refused. Already claimed by someone else:"),
        (command("v80 4h"), "v80 (0000:61:00.0) has no device nodes"),
        (command("x 4h"), "unknown resource `x`"),
        (command("host never"), "`never` is neither a duration ("),
    ] {
        let outcome = do_claim(&cmd, &mut s, &asker(at), &host(vec![])).unwrap();
        assert_eq!(outcome.claim, None);
        assert!(outcome.err[0].starts_with(start), "{:?}", outcome.err);
        assert_eq!(s.claims.len(), 1);
    }
    let mut both = command("host 4h");
    both.exclusive = true;
    both.shared = true;
    let outcome = do_claim(&both, &mut s, &asker(at), &host(vec![])).unwrap();
    assert_eq!(outcome.err, vec!["--exclusive and --shared contradict each other."]);
    let outcome = do_claim(&command("x 4h"), &mut s, &asker(at), &host(vec![])).unwrap();
    assert_eq!(outcome.err[1], "Run `fpgahog discover --write` to register this host's FPGAs.");
}

#[test]
fn a_forced_claim_evicts_from_its_boards() {
    let at = now();
    let mut s = state();
    let mut cmd = command("u280 4h");
    let refused = do_claim(&cmd, &mut s, &asker(at), &busy()).unwrap();
    assert_eq!(refused.claim, None);
    cmd.force = true;
    let outcome = do_claim(&cmd, &mut s, &asker(at), &busy()).unwrap();
    assert!(outcome.claim.is_some());
    assert_eq!(outcome.evict.len(), 1);
    assert_eq!(outcome.out.len(), 1);
    cmd.shared = true;
    let mut fresh = state();
    assert!(do_claim(&cmd, &mut fresh, &asker(at), &busy()).unwrap().evict.is_empty());
}

#[test]
fn a_decision_waits_for_its_timeouts() {
    let at = now();
    let mut s = state();
    let cmd = command("u280 4h");
    let decision = decide_claim(&cmd, &s, &asker(at), &host(vec![]), timeoutish);
    assert_eq!(decision.accepted.as_ref().unwrap().timeout, "4h");
    let outcome = finish_claim(&mut s, decision, "me", false, Err("no".into()), None);
    assert_eq!((outcome.claim, outcome.err), (None, vec!["no".to_string()]));
    let decision = decide_claim(&cmd, &s, &asker(at), &host(vec![]), timeoutish);
    let outcome = finish_claim(&mut s, decision, "me", false, Ok(at), Some(Ok(at)));
    assert_eq!(outcome.claim.unwrap().soft_timeout, Some(at));
    assert_eq!(s.claims.len(), 1);
}

/// What comes of a claim with these words and this soft timeout.
fn claimed(s: &mut DiskState, args: &[&str], soft: Option<&str>) -> Option<ClaimOutcome> {
    let mut cmd = command("");
    cmd.args = args.iter().map(|word| word.to_string()).collect();
    cmd.soft_timeout = soft.map(String::from);
    do_claim(&cmd, s, &asker(now()), &host(vec![]))
}

#[test]
fn texts_that_cannot_be_read_are_told_apart() {
    let odd = "2026-12-24 10:00:00 +2400";
    for (args, soft) in [
        (vec!["u280", odd], None),
        (vec![odd], None),
        (vec!["u280", "4h"], Some("10:00:00 -99:00")),
    ] {
        let mut s = state();
        assert_eq!(claimed(&mut s, &args, soft), None);
        assert_eq!(s, state());
    }
    // an alias is read too, to see whether it is one
    let mut s = state();
    s.settings.fpgas[0].alias = "2026-12-24+2400".into();
    assert_eq!(claimed(&mut s, &["host,2026-12-24+2400", "4h"], None), None);
    s.settings.fpgas[0].alias = "4h".into();
    let outcome = claimed(&mut s, &["host,4h", "4h"], None).unwrap();
    assert!(outcome.err[0].starts_with("FPGA alias `4h` also reads as a timeout"), "{:?}", outcome.err);
    // what is only a comment is not read
    let mut s = state();
    assert!(claimed(&mut s, &["u280", "4h", odd], None).unwrap().claim.is_some());
    assert!(claimed(&mut s, &["4h", odd], None).unwrap().claim.is_some());
    // a word that only ends like one can be read
    let outcome = claimed(&mut s, &["meeting -9930"], None).unwrap();
    assert!(outcome.err[0].starts_with("unknown resource `meeting -9930`."), "{:?}", outcome.err);
    assert_eq!(s.claims.len(), 2);
}

#[test]
fn a_refusal_reads_no_timeout() {
    let odd = "2026-12-24 10:00:00 +2400";
    let mut s = state();
    s.claims = vec![claim("colleague", "u280", true, HOUR)];
    for (args, start) in [
        (vec!["u280", odd], "Claim refused. Already claimed by someone else:"),
        (vec!["v80", odd], "v80 (0000:61:00.0) has no device nodes"),
        (vec!["x", odd], "unknown resource `x`"),
        (vec![], "missing timeout"),
    ] {
        let outcome = claimed(&mut s, &args, Some(odd)).unwrap();
        assert_eq!(outcome.claim, None);
        assert!(outcome.err[0].starts_with(start), "{:?}", outcome.err);
    }
    // the soft timeout is not read where the other is none
    let outcome = claimed(&mut s, &["host", "never"], Some(odd)).unwrap();
    assert!(outcome.err[0].starts_with("`never` is neither a duration ("), "{:?}", outcome.err);
    assert_eq!(s.claims.len(), 1);
}

#[test]
fn ended_claims_keep_their_ids() {
    let mut s = state();
    let first = claimed(&mut s, &["u280", "4h"], None).unwrap().claim.unwrap();
    s.claims.clear();
    let second = claimed(&mut s, &["u280", "4h"], None).unwrap().claim.unwrap();
    assert_eq!((first.id, second.id, s.last_claim_id), (1, 2, 2));
}

#[test]
fn jobs_run_in_the_next_minute() {
    let at = Moment { secs: 1_700_000_000, nanos: 5 };
    assert_eq!(next_minute(at), Moment { secs: 1_700_000_061, nanos: 5 });
    assert_eq!(seconds_later(at, 0), at);
    let job = schedule_maintenance(at, "/var/lib/fpgahog/pkg/bin/fpgahog");
    assert_eq!(job.at, Moment { secs: 1_700_000_061, nanos: 5 });
    assert_eq!(job.command, "/var/lib/fpgahog/pkg/bin/fpgahog maintenance 2>&1 | logger -t fpgahog");
    assert_eq!(job.warning, None);
    let job = schedule_maintenance(at, "/x/target/debug/fpgahog");
    assert_eq!(
        job.warning.unwrap(),
        "WARN: the job below runs /x/target/debug/fpgahog, a build output. If it is gone by then, the claim is not ended on time. Install with `just install`."
    );
}
