use fpgahog::clock::Moment;
use fpgahog::diskstate::{load_default, Claim, DiskState, FpgaSpec, ResourceId};
use fpgahog::fpga::intended_owners;
use fpgahog::hog::{
    apply_hog, do_hog, do_release, escape, has_stray_overmounts, hog_ssh, hog_targets,
    mount_points_contain, overlay_dir, overlay_file, overlay_keys, prepare_hog, release_claims,
    release_host, release_line, release_ssh, spared_users, ssh_hogged_command, ssh_hogged_message,
    ssh_hogged_message_at, uncovered_key_patterns, unescape_mount_path, KeyFiles, Overmounted,
    Unmounted, User,
};
use fpgahog::systemd_units::{disable_resource, enable_resource, failure_lines, UnitError, UnitResult};
use std::cell::RefCell;

const MOUNTS: &str = "zroot/root/nixos /nix/store zfs ro 0 0
tmpfs /etc/ssh/authorized_keys.d/christianK tmpfs rw 0 0
nfs:/export/home /home/some\\040one/.ssh/authorized_keys nfs4 rw 0 0
";

#[test]
fn a_prefix_of_a_mounted_name_is_not_itself_mounted() {
    assert!(mount_points_contain(MOUNTS, "/etc/ssh/authorized_keys.d/christianK"));
    assert!(!mount_points_contain(MOUNTS, "/etc/ssh/authorized_keys.d/chris"));
}

#[test]
fn escaped_whitespace_in_mount_points_still_matches() {
    assert!(mount_points_contain(MOUNTS, "/home/some one/.ssh/authorized_keys"));
}

#[test]
fn every_escape_is_undone() {
    assert_eq!(unescape_mount_path("a\\040b\\011c\\012d\\134e"), "a b\tc\nd\\e");
    assert_eq!(unescape_mount_path("\\134040"), "\\040");
}

#[test]
fn a_key_path_sshd_reads_but_hog_skips_is_reported() {
    let sshd = "Port 22\nAuthorizedKeysCommand none\nAuthorizedKeysCommandUser none\nAuthorizedKeysFile /etc/ssh/authorized_keys.d/%u\n";
    let partial = vec![String::from("%h/.ssh/authorized_keys")];
    assert_eq!(uncovered_key_patterns(sshd, &partial), vec!["/etc/ssh/authorized_keys.d/%u"]);

    let defaults = vec![
        String::from("%h/.ssh/authorized_keys"),
        String::from("/etc/ssh/authorized_keys.d/%u"),
    ];
    assert!(uncovered_key_patterns(sshd, &defaults).is_empty());
}

#[test]
fn relative_and_none_patterns_follow_sshd_semantics() {
    let sshd = "authorizedkeysfile .ssh/authorized_keys none\n";
    assert_eq!(uncovered_key_patterns(sshd, &[]), vec!["%h/.ssh/authorized_keys"]);
}

const LATER: Moment = Moment { secs: 2_000_003_600, nanos: 0 };
const NOW: Moment = Moment { secs: 2_000_000_000, nanos: 0 };

fn claim(user: &str, resources: &str, exclusive: bool) -> Claim {
    Claim {
        id: 0,
        timeout: LATER,
        soft_timeout: None,
        exclusive,
        user: user.into(),
        comment: String::new(),
        resources: ResourceId::parse_list(resources),
    }
}

#[test]
fn bare_release_keeps_shared_claims_like_hosthog() {
    let mut claims = vec![
        claim("me", "host", true),
        claim("me", "u280", false),
        claim("other", "v80", true),
    ];
    let released = release_claims(&mut claims, "me", &[]);
    assert_eq!(released, vec!["host"]);
    assert_eq!(claims.len(), 2);
    assert!(claims.iter().any(|c| c.user == "me" && !c.exclusive && c.covers_alias("u280")));
    assert!(claims.iter().any(|c| c.user == "other"));
}

#[test]
fn naming_a_resource_releases_it_even_from_a_shared_claim() {
    let mut claims = vec![claim("me", "host,u280", true), claim("me", "v80", false)];
    let released = release_claims(&mut claims, "me", &[ResourceId::parse("u280"), ResourceId::parse("v80")]);
    assert_eq!(claims.len(), 1);
    assert_eq!(claims[0].resources, vec![ResourceId::Host]);
    assert!(!released.is_empty());
    assert_eq!(released, vec!["u280,v80"]);
}

#[test]
fn only_what_was_held_is_said_to_be_released() {
    let asked = [ResourceId::parse("u280"), ResourceId::parse("v80")];
    let mut claims = vec![claim("me", "u280", true), claim("other", "v80", true)];
    assert_eq!(release_claims(&mut claims, "me", &asked), vec!["u280"]);
    assert_eq!(claims.len(), 1);
    assert!(release_claims(&mut claims, "me", &asked).is_empty());
}

#[test]
fn the_claims_of_others_are_not_released() {
    let mut claims = vec![claim("other", "u280", true)];
    assert!(release_claims(&mut claims, "me", &[ResourceId::parse("u280")]).is_empty());
    assert_eq!(claims.len(), 1);
    assert_eq!(release_line(&[]), "Nothing to release (you hold no matching claims).");
    assert_eq!(release_line(&["a".to_string(), "b".to_string()]), "Released: a, b");
}

fn hogged(id: u64) -> DiskState {
    let mut state = load_default();
    let mut behind = claim("me", "host,u280", true);
    behind.id = id;
    state.hogger = Some(behind.clone());
    state.claims = vec![behind, claim("other", "v80", true)];
    state
}

fn texts(items: &[&str]) -> Vec<String> {
    items.iter().map(|i| i.to_string()).collect()
}

#[test]
fn a_hog_is_undone_only_when_its_claim_is_gone() {
    let mut state = hogged(7);
    let step = do_release(&texts(&["u280"]), &mut state, "me");
    assert!(!step.release_host);
    assert_eq!(state.claims.len(), 2);
    let step = do_release(&[], &mut state, "other");
    assert!(!step.release_host, "somebody else's release must not unhog");
    let step = do_release(&texts(&["host"]), &mut state, "me");
    assert!(step.release_host);
    assert_eq!(step.released, vec!["host"]);
    let mut state = hogged(7);
    let step = do_release(&[], &mut state, "me");
    assert!(step.release_host);
    assert_eq!(step.released, vec!["host", "u280"]);
}

#[test]
fn releasing_the_host_drops_the_claim_behind_the_hog() {
    let mut state = hogged(7);
    state.overmounts = texts(&["/a", "/b", "/c"]);
    release_host(&mut state, &[Unmounted::Released, Unmounted::Failed, Unmounted::NotMounted]);
    assert_eq!(state.overmounts, vec!["/b"]);
    assert_eq!(state.hogger, None);
    assert_eq!(state.claims.len(), 1);
    assert!(has_stray_overmounts(&state));
    release_ssh(&mut state, &[Unmounted::Released]);
    assert!(state.overmounts.is_empty());
    assert!(!has_stray_overmounts(&state));
    release_host(&mut state, &[]);
    assert_eq!(state.claims.len(), 1);
}

#[test]
fn a_hog_is_recorded_before_anything_that_can_fail() {
    let log = RefCell::new(Vec::<String>::new());
    let mut state = load_default();
    let claim = Claim {
        id: 1,
        timeout: NOW,
        soft_timeout: None,
        exclusive: true,
        user: "me".into(),
        comment: String::new(),
        resources: vec![ResourceId::Host],
    };
    let warning = apply_hog(
        &mut state,
        claim,
        |state: &mut DiskState| {
            state.overmounts.push("/etc/ssh/authorized_keys.d/theo".into());
            log.borrow_mut().push("ssh".into());
        },
        |state: &DiskState| {
            log.borrow_mut().push(format!(
                "persist overmounts={} hogged={}",
                state.overmounts.len(),
                state.hogger.is_some()
            ))
        },
        |_: &mut DiskState| {
            log.borrow_mut().push("units".into());
            Err(String::from("system bus unreachable"))
        },
        |_: &mut DiskState| log.borrow_mut().push("boards".into()),
    );
    assert_eq!(*log.borrow(), vec!["ssh", "persist overmounts=1 hogged=true", "units", "boards"]);
    assert!(state.hogger.is_some());
    assert_eq!(
        warning.unwrap(),
        "WARN: system bus unreachable. ssh is hogged regardless, and `release` undoes it."
    );
}

fn board(alias: &str) -> FpgaSpec {
    FpgaSpec { alias: alias.into(), bdf: String::new(), pci_id: String::new(), devices: vec![], cables: vec![] }
}

#[test]
fn a_hog_takes_every_board_or_changes_nothing() {
    let mut state = load_default();
    state.settings.fpgas = vec![board("u280"), board("v80")];
    assert_eq!(
        prepare_hog(&mut state, "me", NOW, "fpgahog").unwrap_err(),
        vec!["Hogging not allowed. Claim exclusive access first: fpgahog claim host <timeout> --exclusive"]
    );
    state.claims = vec![claim("me", "host,v80", true), claim("other", "u280", false)];
    assert_eq!(
        prepare_hog(&mut state, "me", NOW, "fpgahog").unwrap_err(),
        vec![
            "Cannot hog: these FPGAs are claimed by someone else:",
            "  u280       other for another 1h",
            "Wait for them to expire, or ask. Nothing was changed.",
        ]
    );
    assert_eq!(state.claims[0].resources_str(), "host,v80");
    state.claims.pop();
    state.hogger = Some(claim("other", "host", true));
    assert_eq!(
        prepare_hog(&mut state, "me", NOW, "fpgahog").unwrap_err(),
        vec!["Hogging not allowed. The host is already hogged by other."]
    );
    state.hogger = None;
    let behind = prepare_hog(&mut state, "me", NOW, "fpgahog").unwrap();
    assert_eq!(behind.resources_str(), "host,v80,u280");
    assert_eq!(state.claims[0], behind);
}

#[test]
fn a_refused_hog_runs_no_step() {
    let mut state = load_default();
    let ran = RefCell::new(0);
    let step = |_: &mut DiskState| *ran.borrow_mut() += 1;
    let outcome = do_hog(
        &mut state,
        "me",
        NOW,
        "fpgahog",
        step,
        |_: &DiskState| *ran.borrow_mut() += 1,
        |_: &mut DiskState| Ok(()),
        step,
    );
    assert!(outcome.is_err());
    assert_eq!(*ran.borrow(), 0);
    state.claims = vec![claim("me", "host", true)];
    let outcome = do_hog(
        &mut state,
        "me",
        NOW,
        "fpgahog",
        step,
        |_: &DiskState| *ran.borrow_mut() += 1,
        |_: &mut DiskState| Ok(()),
        step,
    );
    assert_eq!(outcome, Ok(None));
    assert_eq!(*ran.borrow(), 3);
    assert_eq!(state.hogger.unwrap().user, "me");
}

#[test]
fn key_files_of_everyone_else_are_targets() {
    let mut state = load_default();
    state.overmounts = texts(&["/etc/ssh/authorized_keys.d/ann"]);
    let users = vec![
        User { name: "ann".into(), home: "/home/ann".into() },
        User { name: "christianK".into(), home: "/home/ck".into() },
        User { name: "root".into(), home: "/root".into() },
    ];
    let spared = spared_users(&[], "me");
    assert_eq!(spared, vec!["root", "me"]);
    assert_eq!(spared_users(&texts(&["x"]), "me"), vec!["x"]);
    let files = hog_targets(&state, users, &spared, MOUNTS);
    assert_eq!(files.targets, vec!["/home/ann/.ssh/authorized_keys", "/home/ck/.ssh/authorized_keys"]);
    assert_eq!(files.already, 2);
    let outcomes = [Overmounted::Locked, Overmounted::Failed("cannot mount".into())];
    let report = hog_ssh(&mut state, &files, &outcomes, Some("AuthorizedKeysFile keys\n"));
    assert_eq!(
        report,
        vec![
            "WARN: cannot mount",
            "1 authorized_keys files locked (2 already locked, 0 do not exist, 1 failed)",
            "WARN: sshd reads keys from %h/keys but settings.authorized_keys_file does not cover it, so logins that way still work.",
        ]
    );
    assert_eq!(state.overmounts.len(), 2);
    let mut empty = load_default();
    let none = KeyFiles { targets: texts(&["/a"]), already: 0 };
    assert_eq!(
        hog_ssh(&mut empty, &none, &[Overmounted::Absent], None),
        vec![
            "0 authorized_keys files locked (0 already locked, 1 do not exist, 0 failed)",
            "WARN: no key file is locked, so nobody has been locked out of ssh.",
        ]
    );
}

#[test]
fn keys_are_restricted_line_by_line() {
    assert_eq!(overlay_keys("ssh-rsa A\n\nssh-rsa B\n", "sudo x status"), "restrict,command=\"sudo x status\" ssh-rsa A\n\nrestrict,command=\"sudo x status\" ssh-rsa B");
    assert_eq!(ssh_hogged_command("/bin/x"), "sudo /bin/x status");
    assert_eq!(escape("/a_b/c"), "_a__b_c");
    assert_eq!(overlay_dir(), "/var/lib/fpgahog/overlay");
    assert_eq!(overlay_file("/a_b"), "/var/lib/fpgahog/overlay/_a__b");
}

#[test]
fn a_locked_out_user_is_told_who_and_how_long() {
    let mut behind = claim("me", "host", true);
    behind.comment = "perf".into();
    assert_eq!(
        ssh_hogged_message_at(&behind, NOW),
        "This system has been hogged by me.\nComment: perf\nThis claim will time out in 1h."
    );
    assert!(ssh_hogged_message(&behind).starts_with("This system has been hogged by me.\nComment: perf\n"));
}

fn unit(name: &str, failure: Option<UnitError>) -> UnitResult {
    UnitResult { name: name.into(), failure }
}

#[test]
fn units_are_recorded_until_they_are_started() {
    let mut state = load_default();
    state.disabled_systemd_units = texts(&["a.timer"]);
    let results = [
        unit("a.timer", None),
        unit("b.timer", None),
        unit("c.timer", Some(UnitError::AccessDenied)),
        unit("d.timer", Some(UnitError::Other("busy".into()))),
    ];
    assert_eq!(disable_resource(&mut state, &results), Err("could not stop c.timer, d.timer".to_string()));
    assert_eq!(state.disabled_systemd_units, vec!["a.timer", "b.timer"]);
    assert_eq!(
        failure_lines("stop", &results),
        vec![
            "WARN: insufficient permissions to stop c.timer; run as root",
            "WARN: cannot stop d.timer: busy",
        ]
    );
    let results = [unit("a.timer", Some(UnitError::Other("x".into()))), unit("b.timer", None)];
    assert_eq!(enable_resource(&mut state, &results), Err("could not start a.timer".to_string()));
    assert_eq!(state.disabled_systemd_units, vec!["a.timer"]);
    assert_eq!(enable_resource(&mut state, &[unit("a.timer", None)]), Ok(()));
    assert!(state.disabled_systemd_units.is_empty());
}

#[test]
fn a_bare_release_leaves_no_board() {
    let mut state = load_default();
    state.claims = vec![
        claim("me", "u280", true),
        claim("other", "u280,v80", true),
        claim("me", "v80", false),
        claim("me", "x,y", true),
    ];
    release_claims(&mut state.claims, "me", &[]);
    let owners = intended_owners(&state, NOW);
    assert_eq!(
        owners,
        vec![("u280".to_string(), "other".to_string()), ("v80".to_string(), "other".to_string())]
    );
}
