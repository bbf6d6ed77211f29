use fpgahog::clock::Moment;
use fpgahog::diskstate::{
    load_default, Claim, DeviceLock, DiskState, FpgaSpec, Ownership, ResourceId,
};
use fpgahog::discovery::do_discover;
use fpgahog::cable::Cable;
use fpgahog::fpga::{
    devices_to_restore, drifted_locks, find_uid, find_username, foreign_holders, given_back,
    given_back_line, handed_line, handover_line, holders, intended_owners, known_names,
    lock_devices, lock_is_intact, locks_for, proc_uid, resolve, retaken, sync_device_locks, Account, FileInfo, Process, Takeover, LOCKED_MODE,
};
use fpgahog::inventory::{
    bracketed, device_prefix, discover, guess_devices, merge_into_settings, next_free_alias, replacement_line,
    DiscoveredFpga, PciEntry,
};

/// A time at which the claims last, and the one at which they end.
const NOW: Moment = Moment { secs: 1_900_000_000, nanos: 0 };
const END: Moment = Moment { secs: 2_000_000_000, nanos: 0 };

fn claim(user: &str, resources: &[&str], exclusive: bool) -> Claim {
    Claim {
        id: 1,
        timeout: END,
        soft_timeout: None,
        exclusive,
        user: user.into(),
        comment: String::new(),
        resources: resources.iter().map(|r| ResourceId::parse(r)).collect(),
    }
}

#[test]
fn intended_owners_names_the_holder_of_each_board() {
    let mut state = load_default();
    state.claims = vec![
        claim("anubhav", &["u280"], true),
        claim("colleague", &["v80"], true),
    ];
    let owners = intended_owners(&state, NOW);
    assert_eq!(owners.len(), 2);
    assert!(owners.contains(&("u280".to_string(), "anubhav".to_string())));
    assert!(owners.contains(&("v80".to_string(), "colleague".to_string())));
}

#[test]
fn shared_and_host_claims_own_no_devices() {
    let mut state = load_default();
    state.claims = vec![
        claim("anubhav", &["u280"], false),
        claim("colleague", &["host"], true),
    ];
    assert!(intended_owners(&state, NOW).is_empty());
}

#[test]
fn a_board_changing_hands_is_re_pointed_not_left_alone() {
    let mut state = load_default();
    state.claims = vec![claim("newcomer", &["u280"], true)];
    let owners = intended_owners(&state, NOW);
    let owner = owners.iter().find(|(alias, _)| alias == "u280").unwrap();
    assert_eq!(owner.1, "newcomer", "the new holder must be the intended owner");
}

#[test]
fn the_first_exclusive_claim_owns_a_board() {
    let mut state = load_default();
    state.claims = vec![claim("a", &["host", "u280"], true), claim("b", &["u280", "v80"], true)];
    assert_eq!(
        intended_owners(&state, NOW),
        vec![("u280".to_string(), "a".to_string()), ("v80".to_string(), "b".to_string())]
    );
}

fn file(path: &str, uid: u32, gid: u32, mode: u32) -> FileInfo {
    FileInfo { path: path.to_string(), found: Ok(Ownership { uid, gid, mode }) }
}

fn gone(path: &str) -> FileInfo {
    FileInfo { path: path.to_string(), found: Err("No such file".into()) }
}

fn scratch(devices: &[&str]) -> FpgaSpec {
    FpgaSpec {
        alias: "scratch".into(),
        bdf: "0000:00:00.0".into(),
        pci_id: String::new(),
        devices: devices.iter().map(|d| d.to_string()).collect(),
        cables: vec![],
    }
}

fn accounts() -> Vec<Account> {
    vec![Account { name: "me".into(), uid: 1000 }, Account { name: "new".into(), uid: 2000 }]
}

#[test]
fn locking_captures_and_restores_the_original_mode() {
    let me = 1000;
    let path = "/tmp/fake_device";
    let spec = scratch(&[path]);
    let mut state = load_default();
    state.settings.fpgas = vec![spec.clone()];

    let step = lock_devices(&spec, me, &mut state, &[file(path, me, 50, 0o100666)]);
    assert!(step.failures.is_empty(), "locking failed: {:?}", step.failures);
    assert_eq!(step.taken, vec![Takeover { path: path.into(), uid: me, gid: 50 }]);
    assert_eq!(state.device_locks.len(), 1);
    assert_eq!(state.device_locks[0].orig_mode, 0o666, "original mode must be recorded");
    let locked = [file(path, me, 50, 0o100000 | LOCKED_MODE)];
    assert_eq!(lock_is_intact(&state.device_locks[0], &locked), Some(true));

    // No claim backs it, so converging must hand it back exactly as it was.
    assert_eq!(devices_to_restore(&state, NOW), vec![true]);
    let (given, ownership) = given_back(&state.device_locks[0]);
    assert_eq!(given, path);
    assert_eq!(ownership.mode, 0o666, "original mode must come back");
    assert_eq!(ownership, Ownership { uid: me, gid: 50, mode: 0o666 });
    let step = sync_device_locks(&mut state, &accounts(), NOW, &[true], &locked);
    assert!(state.device_locks.is_empty(), "the lock should be gone");
    assert!(step.taken.is_empty());
}

#[test]
fn a_released_file_is_as_it_was() {
    let mut state = claimed_state("me");
    state.device_locks.clear();
    let files = [file("/dev/a", 3, 4, 0o100640), file("/dev/b", 5, 6, 0o2660)];
    let step = sync_device_locks(&mut state, &accounts(), NOW, &[], &files);
    let locked = Ownership { uid: 1000, gid: 4, mode: 0o600 };
    assert_eq!(step.taken.len(), 2);
    assert_eq!((step.taken[0].path.as_str(), step.taken[0].ownership()), ("/dev/a", locked));
    // a change of hands in between does not matter
    state.claims[0].user = "new".into();
    let taken = [file("/dev/a", 1000, 4, 0o600), file("/dev/b", 1000, 6, 0o600)];
    sync_device_locks(&mut state, &accounts(), NOW, &[false, false], &taken);
    assert!(state.device_locks.iter().all(|lock| lock.claimant_uid == 2000));
    assert_eq!(devices_to_restore(&state, END), vec![true, true]);
    let given: Vec<(String, Ownership)> = state.device_locks.iter().map(given_back).collect();
    assert_eq!(
        given,
        vec![
            ("/dev/a".to_string(), Ownership { uid: 3, gid: 4, mode: 0o640 }),
            ("/dev/b".to_string(), Ownership { uid: 5, gid: 6, mode: 0o2660 }),
        ]
    );
    sync_device_locks(&mut state, &accounts(), END, &[true, true], &files);
    assert!(state.device_locks.is_empty());
}

#[test]
fn what_is_done_to_device_files_is_told() {
    let mut state = load_default();
    state.device_locks = vec![held("/dev/a", 1000)];
    let lock = &state.device_locks[0];
    assert_eq!(given_back_line(lock, None), "released /dev/a (scratch)");
    assert_eq!(
        given_back_line(lock, Some("chown: no")),
        "WARN: could not restore /dev/a: chown: no. Will retry."
    );
    let hand = retaken(lock);
    assert_eq!(hand, Takeover { path: "/dev/a".into(), uid: 1000, gid: 5 });
    assert_eq!(handed_line(&state, &hand, true, None), "re-asserted lock on /dev/a (scratch)");
    assert_eq!(
        handed_line(&state, &hand, true, Some("chmod: no")),
        "WARN: could not re-assert /dev/a: chmod: no"
    );
    assert_eq!(handed_line(&state, &hand, false, None), "locked /dev/a for uid 1000");
    assert_eq!(
        handed_line(&state, &hand, false, Some("chmod: no")),
        "WARN: enforcement failed for scratch: /dev/a: chmod: no"
    );
    assert_eq!(handed_line(&load_default(), &hand, true, None), "re-asserted lock on /dev/a ()");
}

#[test]
fn a_file_that_cannot_be_read_is_a_failure() {
    let spec = scratch(&["/dev/a", "/dev/b", "/dev/a"]);
    let mut state = load_default();
    let step = lock_devices(&spec, 7, &mut state, &[file("/dev/a", 0, 0, 0o666), gone("/dev/b")]);
    assert_eq!(step.failures, vec!["/dev/b: No such file"]);
    assert_eq!(state.device_locks.len(), 1);
    assert_eq!(locks_for(&state, "scratch").len(), 1);
    assert_eq!(locks_for(&state, "other").len(), 0);
    assert_eq!(lock_is_intact(&state.device_locks[0], &[gone("/dev/a")]), None);
}

#[test]
fn no_failure_means_that_every_device_is_in_hand() {
    let spec = scratch(&["/dev/a"]);
    let mut state = load_default();
    // a lock that is held for somebody else is a failure
    state.device_locks = vec![held("/dev/a", 2000)];
    let files = [file("/dev/a", 2000, 5, LOCKED_MODE)];
    let step = lock_devices(&spec, 7, &mut state, &files);
    assert_eq!(step.failures, vec!["/dev/a: already locked for uid 2000"]);
    assert!(step.taken.is_empty());
    assert_eq!(state.device_locks, vec![held("/dev/a", 2000)]);
    // a file that is no longer the way its lock left it is taken over again
    state.device_locks = vec![held("/dev/a", 7)];
    let step = lock_devices(&spec, 7, &mut state, &[file("/dev/a", 0, 0, 0o666)]);
    assert!(step.failures.is_empty());
    assert_eq!(step.taken, vec![Takeover { path: "/dev/a".into(), uid: 7, gid: 5 }]);
    // one that is needs nothing
    let step = lock_devices(&spec, 7, &mut state, &[file("/dev/a", 7, 5, LOCKED_MODE)]);
    assert!(step.failures.is_empty() && step.taken.is_empty());
    assert_eq!(state.device_locks, vec![held("/dev/a", 7)]);
    let step = lock_devices(&spec, 7, &mut state, &[gone("/dev/a")]);
    assert_eq!(step.failures, vec!["/dev/a: No such file"]);
}

#[test]
fn an_expired_claim_owns_no_board() {
    let mut state = load_default();
    state.claims = vec![claim("me", &["scratch"], true)];
    assert_eq!(intended_owners(&state, NOW).len(), 1);
    assert!(intended_owners(&state, END).is_empty());
    let mut fresh = claim("new", &["scratch"], true);
    fresh.timeout = Moment { secs: END.secs, nanos: 1 };
    state.claims.push(fresh);
    assert_eq!(intended_owners(&state, END), vec![("scratch".to_string(), "new".to_string())]);
    // and its files are given back
    let mut state = claimed_state("me");
    let locked = [file("/dev/a", 1000, 5, LOCKED_MODE), file("/dev/b", 0, 6, 0o666)];
    assert_eq!(devices_to_restore(&state, NOW), vec![false]);
    assert_eq!(devices_to_restore(&state, END), vec![true]);
    let step = sync_device_locks(&mut state, &accounts(), END, &[true], &locked);
    assert!(step.taken.is_empty() && state.device_locks.is_empty());
    assert_eq!(handover_line(&claimed_state("new"), &accounts(), END, &held("/dev/a", 1000)), None);
}

fn held(path: &str, uid: u32) -> DeviceLock {
    DeviceLock {
        path: path.into(),
        alias: "scratch".into(),
        orig_uid: 0,
        orig_gid: 5,
        orig_mode: 0o666,
        claimant_uid: uid,
    }
}

fn claimed_state(user: &str) -> DiskState {
    let mut state = load_default();
    state.settings.fpgas = vec![scratch(&["/dev/a", "/dev/b"])];
    state.claims = vec![claim(user, &["scratch"], true)];
    state.device_locks = vec![held("/dev/a", 1000)];
    state
}

#[test]
fn synced_devices_follow_the_claims() {
    let mut state = claimed_state("new");
    let files = [file("/dev/a", 1000, 5, 0o600), file("/dev/b", 0, 6, 0o666)];
    assert_eq!(devices_to_restore(&state, NOW), vec![false]);
    let step = sync_device_locks(&mut state, &accounts(), NOW, &[false], &files);
    assert_eq!(
        step.taken,
        vec![
            Takeover { path: "/dev/a".into(), uid: 2000, gid: 5 },
            Takeover { path: "/dev/b".into(), uid: 2000, gid: 6 },
        ]
    );
    assert_eq!(state.device_locks.len(), 2);
    assert!(state.device_locks.iter().all(|l| l.claimant_uid == 2000));
    assert_eq!(state.device_locks[0].orig_mode, 0o666);
    // what was handed on does not match its file any more
    assert_eq!(drifted_locks(&state, &files).len(), 2);
    let locked = [file("/dev/a", 2000, 5, 0o600), file("/dev/b", 2000, 6, 0o600)];
    assert!(drifted_locks(&state, &locked).is_empty());
    let reloaded = [file("/dev/a", 0, 0, 0o666), gone("/dev/b")];
    assert_eq!(drifted_locks(&state, &reloaded), vec![state.device_locks[0].clone()]);
}

#[test]
fn a_holder_without_an_account_changes_nothing() {
    let mut state = claimed_state("stranger");
    let step = sync_device_locks(&mut state, &accounts(), NOW, &[false], &[file("/dev/b", 0, 0, 0o666)]);
    assert!(step.taken.is_empty());
    assert_eq!(state.device_locks, vec![held("/dev/a", 1000)]);
}

#[test]
fn what_could_not_be_restored_is_kept() {
    let mut state = claimed_state("me");
    state.claims.clear();
    sync_device_locks(&mut state, &accounts(), NOW, &[false], &[]);
    assert_eq!(state.device_locks, vec![held("/dev/a", 1000)]);
}

#[test]
fn failures_name_the_board() {
    let mut state = claimed_state("me");
    let step = sync_device_locks(&mut state, &accounts(), NOW, &[false], &[file("/dev/a", 1000, 5, 0o600), gone("/dev/b")]);
    assert_eq!(step.failures, vec!["WARN: enforcement failed for scratch: /dev/b: No such file"]);
}

#[test]
fn resources_resolve_to_boards() {
    let state = claimed_state("me");
    assert_eq!(known_names(&state), vec!["host", "scratch"]);
    let specs = resolve(&state, &ResourceId::parse_list("host,scratch"), "hog").unwrap();
    assert_eq!(specs.len(), 1);
    assert_eq!(
        resolve(&state, &ResourceId::parse_list("scratch,x,y"), "hog").unwrap_err(),
        "unknown resource `x`. Known resources: host, scratch.\nRun `hog discover --write` to register this host's FPGAs."
    );
}

fn process(name: &str, open: Option<&[&str]>, status: Option<&str>, cmdline: Option<&str>) -> Process {
    Process {
        name: name.into(),
        open_files: open.map(|files| files.iter().map(|f| f.to_string()).collect()),
        status: status.map(String::from),
        cmdline: cmdline.map(String::from),
    }
}

#[test]
fn holders_are_found_among_the_processes() {
    let devices = vec!["/dev/a".to_string(), "/dev/b".to_string()];
    let processes = vec![
        process("300", Some(&["/dev/b", "/dev/a"]), Some("Name: x\nUid:\t2000\t0\n"), Some("run\0it\0\0")),
        process("self", Some(&["/dev/a"]), None, None),
        process("20", Some(&["/dev/a"]), Some("Uid:\n"), Some("\0\0")),
        process("7", None, None, None),
        process("8", Some(&["/dev/null"]), None, None),
        process("+9", Some(&["/dev/a"]), Some("no uid"), None),
        process("4294967296", Some(&["/dev/a"]), None, None),
    ];
    let found = holders(&devices, &processes, &accounts());
    let seen: Vec<(u32, u32, &str, &str, &str)> = found
        .iter()
        .map(|h| (h.pid, h.uid, h.user.as_str(), h.cmdline.as_str(), h.device.as_str()))
        .collect();
    assert_eq!(
        seen,
        vec![
            (9, 0, "<unknown>", "<pid 9>", "/dev/a"),
            (20, 0, "<unknown>", "<pid 20>", "/dev/a"),
            (300, 2000, "new", "run it", "/dev/b"),
        ]
    );
    assert_eq!(foreign_holders(&found, Some(0)).len(), 1);
    assert_eq!(foreign_holders(&found, None).len(), 3);
    assert_eq!(find_uid(&accounts(), "new"), Some(2000));
    assert_eq!(find_uid(&accounts(), "x"), None);
    assert_eq!(find_username(&accounts(), 1000), "me");
}

#[test]
fn coyote_platform_drivers_map_to_their_node_names() {
    assert_eq!(device_prefix("coyote_driver_versal").as_deref(), Some("coyote_versal_fpga_"));
    assert_eq!(
        device_prefix("coyote_driver_ultrascale_plus").as_deref(),
        Some("coyote_ultrascale_plus_fpga_")
    );
    assert_eq!(device_prefix("coyote_driver").as_deref(), Some("coyote_fpga_"));
    assert_eq!(device_prefix("xdma").as_deref(), Some("xdma"));
    assert_eq!(device_prefix("nvme"), None);
}

#[test]
fn every_listed_driver_has_its_prefix() {
    for (driver, prefix) in [("ami", "ami"), ("xocl", "xocl"), ("xclmgmt", "xclmgmt")] {
        assert_eq!(device_prefix(driver).as_deref(), Some(prefix));
    }
}

fn pci(name: &str, vendor: Option<&str>, device: Option<&str>, driver: Option<&str>) -> PciEntry {
    PciEntry {
        name: name.into(),
        vendor: vendor.map(String::from),
        device: device.map(String::from),
        driver: driver.map(String::from),
        numa_node: Some("1\n".into()),
    }
}

#[test]
fn only_fpga_vendors_are_boards() {
    let found = discover(&[
        pci("0000:c1:00.0", Some("0x10ee\n"), Some("0x903f\n"), Some("xdma")),
        pci("0000:00:01.0", Some("0x8086\n"), None, None),
        pci("0000:61:00.0", Some(" 0x1172"), None, None),
        pci("0000:02:00.0", None, None, None),
    ]);
    assert_eq!(found.len(), 2);
    assert_eq!((found[0].bdf.as_str(), found[0].pci_id.as_str()), ("0000:61:00.0", "1172:"));
    assert_eq!((found[1].bdf.as_str(), found[1].pci_id.as_str()), ("0000:c1:00.0", "10ee:903f"));
    assert_eq!(found[1].driver.as_deref(), Some("xdma"));
    assert_eq!(found[1].numa_node.as_deref(), Some("1"));
}

fn board(bdf: &str, pci_id: &str, driver: Option<&str>) -> DiscoveredFpga {
    DiscoveredFpga {
        bdf: bdf.into(),
        pci_id: pci_id.into(),
        driver: driver.map(String::from),
        numa_node: None,
    }
}

fn names(items: &[&str]) -> Vec<String> {
    items.iter().map(|i| i.to_string()).collect()
}

#[test]
fn devices_are_guessed_only_where_one_board_uses_the_driver() {
    let dev = names(&["xdma0_user", "null", "xdma0_control"]);
    let one = [board("1", "x", Some("xdma")), board("2", "x", None)];
    assert_eq!(guess_devices(&one[0], &one, &dev), vec!["/dev/xdma0_control", "/dev/xdma0_user"]);
    assert!(guess_devices(&one[1], &one, &dev).is_empty());
    let two = [board("1", "x", Some("xdma")), board("2", "x", Some("xdma"))];
    assert!(guess_devices(&two[0], &two, &dev).is_empty());
    let odd = [board("1", "x", Some("nvme"))];
    assert!(guess_devices(&odd[0], &odd, &dev).is_empty());
}

#[test]
fn placeholders_are_numbered_from_the_first_free() {
    assert_eq!(next_free_alias(&[]), "fpga0");
    assert_eq!(next_free_alias(&names(&["fpga1", "fpga0", "x", "fpga3"])), "fpga2");
}

#[test]
fn merging_keeps_what_an_admin_has_set() {
    let mut state = load_default();
    state.settings.fpgas = vec![
        FpgaSpec { alias: "u280".into(), bdf: "1".into(), pci_id: "old".into(), devices: names(&["/dev/a", "/dev/b"]), cables: names(&["S"]) },
        FpgaSpec { alias: "v80".into(), bdf: "2".into(), pci_id: "same".into(), devices: names(&["/dev/c"]), cables: vec![] },
    ];
    let found = [board("1", "new", Some("xdma")), board("2", "same", Some("ami")), board("3", "x", None)];
    let dev = names(&["xdma0", "ami0"]);
    let report = merge_into_settings(&mut state, &found, &dev, &names(&["/dev/a"]));
    assert_eq!((report.added, report.updated), (1, 2));
    assert_eq!(
        report.notes,
        vec![
            "NOTE: u280 now reports new (was old). Check that this is the same card.",
            "NOTE: u280 has 1 configured device node(s) that do not exist.",
            "NOTE: none of v80's configured device nodes exist any more. Replacing [\"/dev/c\"] with [\"/dev/ami0\"].",
        ]
    );
    let fpgas = &state.settings.fpgas;
    assert_eq!(fpgas[0].alias, "u280");
    assert_eq!(fpgas[0].pci_id, "new");
    assert_eq!(fpgas[0].devices, names(&["/dev/a", "/dev/b"]));
    assert_eq!(fpgas[0].cables, names(&["S"]));
    assert_eq!(fpgas[1].devices, names(&["/dev/ami0"]));
    assert_eq!((fpgas[2].alias.as_str(), fpgas[2].bdf.as_str()), ("fpga0", "3"));
}

#[test]
fn merging_twice_changes_nothing() {
    let mut state = load_default();
    state.settings.fpgas = vec![
        FpgaSpec { alias: "u280".into(), bdf: "1".into(), pci_id: "old".into(), devices: names(&["/dev/a", "/dev/b"]), cables: names(&["S"]) },
        FpgaSpec { alias: "v80".into(), bdf: "2".into(), pci_id: "same".into(), devices: names(&["/dev/c"]), cables: vec![] },
    ];
    let found = [board("1", "new", Some("xdma")), board("2", "same", Some("ami")), board("3", "x", None)];
    let dev = names(&["xdma0", "ami0"]);
    let existing = names(&["/dev/a", "/dev/xdma0", "/dev/ami0"]);
    let report = merge_into_settings(&mut state, &found, &dev, &existing);
    assert_eq!((report.added, report.updated), (1, 2));
    let once: Vec<FpgaSpec> = state.settings.fpgas.clone();
    let report = merge_into_settings(&mut state, &found, &dev, &existing);
    assert_eq!((report.added, report.updated), (0, 0));
    assert_eq!(state.settings.fpgas, once);
}

#[test]
fn discovering_shows_and_writes_only_when_asked() {
    let mut state = load_default();
    assert_eq!(do_discover(true, &mut state, &[], &[], &[], &[]), vec!["No FPGA-like PCI devices found."]);
    let found = [board("0000:c1:00.0", "10ee:903f", Some("xdma"))];
    let cables = [
        Cable { serial: "217702174005".into(), product: "A-FPGA0".into(), jtag: "/dev/j".into(), consoles: vec![], port_disable: String::new() },
        Cable { serial: "OTHER".into(), product: "B".into(), jtag: "/dev/k".into(), consoles: vec![], port_disable: String::new() },
    ];
    let head = vec![
        "PCI address     PCI id       Driver           NUMA",
        "0000:c1:00.0    10ee:903f    xdma             ?",
        "",
        "Cable serial    Product          JTAG node",
        "217702174005    A-FPGA0          /dev/j",
        "OTHER           B                /dev/k",
        "",
    ];
    let mut expected = head.clone();
    expected.push("Nothing written. Re-run with --write to register these boards.");
    assert_eq!(do_discover(false, &mut state, &found, &cables, &[], &[]), expected);
    assert!(state.settings.fpgas.is_empty());
    let mut expected = head;
    expected.extend([
        "1 board(s) added, 0 updated.",
        "fpga0: cable 217702174005 assigned",
        "NOTE: cable OTHER (B) is not assigned to a board; add its serial to settings.fpgas[].cables",
        "Registered under placeholder names (fpga0, fpga1, ...). Edit settings.fpgas in\nthe statefile to give them real names, and check that each `devices` list holds\nthe right character devices before relying on enforcement.",
        "NOTE: fpga0 (0000:c1:00.0) has no device nodes, so exclusive claims on it cannot be enforced.",
    ]);
    assert_eq!(do_discover(true, &mut state, &found, &cables, &[], &[]), expected);
    assert_eq!(state.settings.fpgas[0].cables, names(&["217702174005"]));
}

#[test]
fn a_change_of_hands_is_told() {
    let lock = held("/dev/a", 1000);
    let told = |user: &str| handover_line(&claimed_state(user), &accounts(), NOW, &lock);
    assert_eq!(told("new").unwrap(), "scratch changed hands: re-pointing /dev/a at uid 2000");
    assert_eq!(told("me"), None);
    assert_eq!(
        told("stranger").unwrap(),
        "WARN: scratch is claimed by unknown user stranger. Leaving /dev/a untouched."
    );
    assert_eq!(handover_line(&load_default(), &accounts(), NOW, &lock), None);
}

#[test]
fn the_owner_of_a_process_is_its_first_uid() {
    assert_eq!(proc_uid("Name:\tx\nUid:\t7\t8\t9\t10\nUid:\t1\n"), Some(7));
    assert_eq!(proc_uid("Uid:\n"), None);
    assert_eq!(proc_uid("Gid:\t7\n"), None);
    assert_eq!(proc_uid("Uid: x\n"), None);
}

#[test]
fn lists_are_shown_in_brackets() {
    assert_eq!(bracketed(&[]), "[]");
    assert_eq!(bracketed(&names(&["\"a\"", "b"])), "[\"a\", b]");
    assert_eq!(
        replacement_line("u280", "[]", "[x]"),
        "NOTE: none of u280's configured device nodes exist any more. Replacing [] with [x]."
    );
}

#[test]
fn shared_claims_change_no_owner() {
    let mut state = load_default();
    state.claims = vec![claim("a", &["u280"], true), claim("b", &["v80"], true)];
    let before = intended_owners(&state, NOW);
    state.claims.insert(0, claim("c", &["u280", "x"], false));
    state.claims.push(claim("d", &["v80", "y"], false));
    assert_eq!(intended_owners(&state, NOW), before);
}
