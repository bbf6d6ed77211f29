use fpgahog::clock::Moment;
use fpgahog::diskstate::{
    check_version, ensure_claim_ids, expand_authorized_keys_file, load, load_default, lock_progress,
    maintenance, maintenance_at, maintenance_line, migrate, migration_line, state_file, Claim,
    DiskState, FpgaSpec, LockAttempt, LockProgress, ResourceId, Settings, DEFAULT_STATE_VERSION,
};
use fpgahog::hog::User;

fn now() -> Moment {
    let now = chrono::Local::now();
    Moment { secs: now.timestamp(), nanos: now.timestamp_subsec_nanos() }
}

#[test]
fn resource_ids_round_trip_as_plain_strings() {
    assert_eq!(ResourceId::parse("host"), ResourceId::Host);
    assert_eq!(ResourceId::parse("HOST"), ResourceId::Host);
    assert_eq!(ResourceId::parse("u280"), ResourceId::Fpga("u280".into()));
    assert_eq!(ResourceId::Host.to_string(), "host");
    assert_eq!(ResourceId::Fpga("v80".into()).to_string(), "v80");

    let encoded = ResourceId::Fpga("v80".into()).to_string();
    assert_eq!(encoded, "v80");
    let decoded: ResourceId = ResourceId::from_stored("host").unwrap();
    assert_eq!(decoded, ResourceId::Host);
    assert_eq!(ResourceId::from_stored("").unwrap_err(), "empty resource id");
}

#[test]
fn resource_lists_drop_blanks_and_duplicates() {
    let parsed = ResourceId::parse_list("host, u280 ,,u280");
    assert_eq!(parsed, vec![ResourceId::Host, ResourceId::Fpga("u280".into())]);
    assert!(ResourceId::parse_list("  ,, ").is_empty());
}

#[test]
fn only_boards_have_an_alias() {
    assert_eq!(ResourceId::Host.alias(), None);
    assert_eq!(ResourceId::Fpga("v80".into()).alias(), Some("v80"));
}

/// What an older statefile reads as: no boards, no locks, and claims on the whole host.
fn v2_state() -> DiskState {
    let mut state = load_default();
    state.settings.authorized_keys_file = vec!["%h/.ssh/authorized_keys".into()];
    state.claims = vec![Claim {
        id: 0,
        timeout: Moment { secs: 1_893_456_000, nanos: 0 },
        soft_timeout: None,
        exclusive: true,
        user: "someone".into(),
        comment: "benchmarks".into(),
        resources: vec![ResourceId::Host],
    }];
    state.state_version = 2;
    state
}

#[test]
fn v2_statefile_migrates_to_host_claims() {
    let mut state = v2_state();
    assert_eq!(state.state_version, 2);
    assert_eq!(state.claims[0].resources, vec![ResourceId::Host]);
    assert!(state.settings.fpgas.is_empty());
    assert!(state.device_locks.is_empty());

    migrate(&mut state);
    assert_eq!(state.state_version, DEFAULT_STATE_VERSION);
    assert!(check_version(&state).is_ok());
    assert!(state.claims[0].covers(&ResourceId::Host));
}

fn at(id: u64, user: &str, resources: &[&str], timeout: Moment) -> Claim {
    Claim {
        id,
        timeout,
        soft_timeout: None,
        exclusive: true,
        user: user.into(),
        comment: String::new(),
        resources: resources.iter().map(|r| ResourceId::parse(r)).collect(),
    }
}

#[test]
fn hogger_is_still_recognised_after_a_partial_release() {
    let mut expired = now();
    expired.secs -= 3600;
    let mut state = load_default();
    state.hogger = Some(at(7, "me", &["host", "u280", "v80"], expired));
    state.claims = vec![at(7, "me", &["host", "v80"], expired)];

    let mut needs_release = false;
    let dropped = maintenance(&mut state, &mut needs_release);

    assert_eq!(dropped.len(), 1);
    assert!(needs_release, "expiring a trimmed hogging claim must still unhog ssh");
    assert_eq!(maintenance_line(&dropped, needs_release), "Maintenance: 1 claims expired, 1 hogs released");
}

#[test]
fn maintenance_keeps_what_still_runs() {
    let here = Moment { secs: 1000, nanos: 500 };
    let mut state = load_default();
    state.claims = vec![
        at(1, "a", &["host"], Moment { secs: 1000, nanos: 501 }),
        at(2, "b", &["host"], here),
        at(3, "c", &["host"], Moment { secs: 999, nanos: 999 }),
        at(4, "d", &["host"], Moment { secs: 1001, nanos: 0 }),
    ];
    state.hogger = Some(at(1, "a", &["host"], here));
    let mut needs_release = false;
    let dropped = maintenance_at(&mut state, &mut needs_release, here);
    assert_eq!(dropped.iter().map(|c| c.id).collect::<Vec<u64>>(), vec![2, 3]);
    assert_eq!(state.claims.iter().map(|c| c.id).collect::<Vec<u64>>(), vec![1, 4]);
    assert!(!needs_release);
    assert_eq!(maintenance_line(&[], false), "Maintenance: 0 claims expired, 0 hogs released");
}

#[test]
fn migration_registers_as_a_change_so_it_gets_written_back() {
    let baseline = v2_state();
    let mut upgraded = v2_state();
    migrate(&mut upgraded);
    ensure_claim_ids(&mut upgraded);

    assert_ne!(baseline, upgraded, "a migration must count as a change");
    assert_eq!(upgraded.state_version, DEFAULT_STATE_VERSION);
    assert!(upgraded.claims.iter().all(|c| c.id != 0), "every claim needs an id");
    let again = load(load(v2_state()));
    assert_eq!(again, upgraded);
}

#[test]
fn a_migration_is_told() {
    assert_eq!(
        migration_line(&v2_state()).unwrap(),
        "Migrated statefile from version 2 to 3 (1 claims are now `host` claims)."
    );
    assert_eq!(migration_line(&load_default()), None);
}

#[test]
fn other_versions_are_refused() {
    let mut state = load_default();
    state.state_version = 4;
    migrate(&mut state);
    assert_eq!(
        check_version(&state).unwrap_err(),
        "Statefile is of version 4. Supported versions: [3]. (/var/lib/fpgahog/fpgahog.json)"
    );
}

#[test]
fn claim_ids_are_unique_and_never_reused() {
    let mut state = load_default();
    state.claims = vec![at(3, "a", &["u280"], now())];
    assert_eq!(state.next_claim_id(), 4);
    // a dropped claim still counts while it is the hogger, so ids are not recycled
    state.hogger = Some(at(9, "a", &["host"], now()));
    assert_eq!(state.next_claim_id(), 10);
}

#[test]
fn ids_of_claims_that_are_gone_are_not_given_again() {
    let mut state = load_default();
    let first = state.next_claim_id();
    state.claims.push(at(first, "a", &["u280"], now()));
    state.claims.clear();
    state.hogger = None;
    let second = state.next_claim_id();
    assert!(second > first);
    assert_eq!((first, second, state.last_claim_id), (1, 2, 2));
    // an older statefile, which keeps no last id, has it from its claims when it is loaded
    let mut stored = load_default();
    stored.claims = vec![at(0, "a", &["u280"], now()), at(7, "b", &["v80"], now())];
    let mut state = load(stored);
    assert_eq!(state.last_claim_id, 8);
    state.claims.clear();
    assert_eq!(state.next_claim_id(), 9);
    state.last_claim_id = 0;
    state.claims = vec![at(4, "a", &["u280"], now())];
    state.remember_claim_ids();
    assert_eq!((state.last_claim_id, state.highest_claim_id()), (4, 4));
}

#[test]
fn claims_without_an_id_get_fresh_ones() {
    let here = now();
    let mut state = load_default();
    state.claims = vec![
        at(0, "a", &["u280"], here),
        at(5, "b", &["v80"], here),
        at(0, "c", &["host"], here),
    ];
    state.hogger = Some(at(0, "c", &["host"], here));
    ensure_claim_ids(&mut state);
    assert_eq!(state.claims.iter().map(|c| c.id).collect::<Vec<u64>>(), vec![6, 5, 7]);
    assert_eq!(state.hogger.as_ref().unwrap().id, 7, "the hogger belongs to the claim of c");
    state.hogger = Some(at(0, "nobody", &["host"], here));
    ensure_claim_ids(&mut state);
    assert_eq!(state.hogger.unwrap().id, 8);
}

#[test]
fn claims_only_cover_what_they_name() {
    let claim = Claim {
        id: 1,
        timeout: now(),
        soft_timeout: None,
        exclusive: true,
        user: "me".into(),
        comment: String::new(),
        resources: vec![ResourceId::Fpga("u280".into())],
    };
    assert!(claim.covers_alias("u280"));
    assert!(!claim.covers_alias("v80"));
    assert!(!claim.covers(&ResourceId::Host));
    assert_eq!(claim.resources_str(), "u280");
}

#[test]
fn hosthog_v1_statefile_is_read_and_upgraded() {
    let mut state = load_default();
    state.state_version = 1;
    migrate(&mut state);
    ensure_claim_ids(&mut state);
    assert_eq!(state.state_version, DEFAULT_STATE_VERSION);
    assert!(check_version(&state).is_ok());
    assert_eq!(state.settings.authorized_keys_file.len(), 2);
}

#[test]
fn state_is_kept_apart_from_hosthogs() {
    assert_eq!(state_file(), "/var/lib/fpgahog/fpgahog.json");
}

#[test]
fn foreign_claims_are_those_of_others_on_the_resource() {
    let mut state = load_default();
    state.claims = vec![
        at(1, "me", &["u280"], now()),
        at(2, "you", &["u280", "host"], now()),
        at(3, "you", &["v80"], now()),
    ];
    let found = state.foreign_claims_on(&ResourceId::parse("u280"), "me");
    assert_eq!(found.iter().map(|c| c.id).collect::<Vec<u64>>(), vec![2]);
}

#[test]
fn boards_are_found_by_alias() {
    let spec = |alias: &str, bdf: &str| FpgaSpec {
        alias: alias.into(),
        bdf: bdf.into(),
        pci_id: String::new(),
        devices: vec![],
        cables: vec![],
    };
    let settings = Settings {
        authorized_keys_file: vec![],
        fpgas: vec![spec("a", "1"), spec("b", "2"), spec("a", "3")],
    };
    assert_eq!(settings.fpga("a").unwrap().bdf, "1");
    assert_eq!(settings.fpga("b").unwrap().bdf, "2");
    assert!(settings.fpga("c").is_none());
    assert_eq!(settings.aliases(), vec!["a", "b", "a"]);
}

#[test]
fn key_patterns_expand_for_each_user() {
    let mut state = load_default();
    state.settings.authorized_keys_file.push("%u/%u%h/%h".into());
    let users = vec![
        User { name: "ann".into(), home: "/home/ann".into() },
        User { name: "bob".into(), home: "/h/%u".into() },
    ];
    assert_eq!(
        expand_authorized_keys_file(&state.settings, users),
        vec![
            "/home/ann/.ssh/authorized_keys",
            "/etc/ssh/authorized_keys.d/ann",
            "ann/%u/home/ann/%h",
            "/h/bob/.ssh/authorized_keys",
            "/etc/ssh/authorized_keys.d/bob",
            "bob/%u/h/%u/%h",
        ]
    );
}

#[test]
fn a_second_writer_waits_for_the_first() {
    let go = |attempt, over| lock_progress(attempt, over, "/run/lock", None, 30);
    assert_eq!(go(LockAttempt::WouldBlock, false), LockProgress::Waiting);
    assert_eq!(go(LockAttempt::Acquired, true), LockProgress::Held);
    assert_eq!(
        go(LockAttempt::WouldBlock, true),
        LockProgress::GaveUp("another fpgahog is still running; gave up after 30s waiting for /run/lock".into())
    );
    assert_eq!(
        go(LockAttempt::Failed("bad".into()), false),
        LockProgress::GaveUp("cannot lock /run/lock: bad".into())
    );
}

#[test]
fn the_lock_names_the_process_holding_it() {
    match lock_progress(LockAttempt::WouldBlock, true, "/l", Some(" 4711\n"), 1) {
        LockProgress::GaveUp(err) => assert_eq!(
            err,
            "another fpgahog is still running (pid 4711); gave up after 1s waiting for /l"
        ),
        other => panic!("{:?}", other),
    }
}
