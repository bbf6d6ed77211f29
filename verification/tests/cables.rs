use fpgahog::cable::{
    assign, assign_by, board_paths, describe, discover, duplicate_serials, eviction_lines, find,
    foreign_cable_holders, paths, render_rules, report_foreign_holders, valid_serial, Cable,
    CableView, Host, UsbEntry, REPLUG_WAIT,
};
use fpgahog::cable_locks::{
    action_line, begin_eviction, departure_is_over, end_eviction, eviction_progress, invalid_serial_line, is_gone,
    original_ownership, plan, plan_sync, ports_to_check, ports_to_enable, reenable_disabled_ports, restore, sync, unusable_name_line, view, wanted, wanted_warnings, Action,
    PortInfo, Progress, Scene, Wanted, DEPARTURE_TRIES,
};
use fpgahog::clock::Moment;
use fpgahog::diskstate::{
    load_default, CableLock, Claim, DiskState, FpgaSpec, Ownership, ResourceId, LOCK_WAIT,
};
use fpgahog::fpga::{Account, FileInfo, Process, Takeover};

const DEV: &str = "/dev";

fn text(value: &str) -> Option<String> {
    Some(value.to_string())
}

/// A cable at usb `name` on bus 3, followed by one interface for each console.
fn plugged(
    name: &str,
    vendor: &str,
    serial: &str,
    product: &str,
    devnum: u32,
    consoles: &[u32],
) -> Vec<UsbEntry> {
    let mut out = vec![UsbEntry {
        name: name.to_string(),
        vendor: Some(format!("{}\n", vendor)),
        serial: Some(format!("{}\n", serial)),
        product: Some(format!("{}\n", product)),
        busnum: text("3\n"),
        devnum: Some(format!("{}\n", devnum)),
        port: format!("/sys/devices/usb3/3-0:1.0/usb3-port{}", &name[2..]),
        children: vec![],
    }];
    for (index, number) in consoles.iter().enumerate() {
        out.push(UsbEntry {
            name: format!("{}:1.{}", name, index),
            vendor: None,
            serial: None,
            product: None,
            busnum: None,
            devnum: None,
            port: String::new(),
            children: vec![format!("ttyUSB{}", number), "power".to_string()],
        });
    }
    out
}

fn u280(devnum: u32, consoles: &[u32]) -> Vec<UsbEntry> {
    plugged("3-2", "0403", "217702174005", "A-U280-P32G", devnum, consoles)
}

#[test]
fn a_cable_is_found_with_its_jtag_node_consoles_and_port() {
    let usb = u280(6, &[0, 4, 5, 6]);
    let cable = find(&usb, DEV, "217702174005").unwrap().unwrap();
    assert_eq!(cable.product, "A-U280-P32G");
    assert_eq!(cable.jtag, "/dev/bus/usb/003/006");
    assert_eq!(cable.consoles, vec!["/dev/ttyUSB0", "/dev/ttyUSB4", "/dev/ttyUSB5", "/dev/ttyUSB6"]);
    assert!(cable.port_disable.ends_with("usb3-port2/disable"), "{}", cable.port_disable);
}

#[test]
fn three_consoles_are_as_good_as_four() {
    let usb = plugged("3-1", "0403", "XFL1EZVSAG4S", "A-V80", 2, &[1, 2, 3]);
    assert_eq!(find(&usb, DEV, "XFL1EZVSAG4S").unwrap().unwrap().consoles.len(), 3);
}

#[test]
fn consoles_are_sorted_as_text_and_belong_to_their_device() {
    let mut usb = plugged("3-1", "0403", "S1", "A", 2, &[10, 9]);
    usb.extend(plugged("3-11", "0403", "S2", "B", 12, &[3]));
    let cable = find(&usb, "/dev/", "S1").unwrap().unwrap();
    assert_eq!(cable.consoles, vec!["/dev/ttyUSB10", "/dev/ttyUSB9"]);
    assert_eq!(find(&usb, DEV, "S2").unwrap().unwrap().jtag, "/dev/bus/usb/003/012");
}

#[test]
fn an_unplugged_cable_is_none() {
    assert_eq!(find(&[], DEV, "217702174005").unwrap(), None);
    assert!(is_gone(&[], DEV, "217702174005"));
    assert!(!is_gone(&u280(6, &[]), DEV, "217702174005"));
    // it is waited for as long as there are tries left
    assert!(departure_is_over(&[], DEV, "217702174005", 0));
    assert!(!departure_is_over(&u280(6, &[]), DEV, "217702174005", 79));
    assert!(departure_is_over(&u280(6, &[]), DEV, "217702174005", 80));
    assert_eq!(DEPARTURE_TRIES, 80);
}

#[test]
fn a_device_without_numbers_is_no_cable() {
    let mut usb = u280(6, &[0]);
    usb[0].devnum = text("six");
    assert_eq!(find(&usb, DEV, "217702174005").unwrap(), None);
    usb[0].devnum = text("4294967296");
    assert_eq!(find(&usb, DEV, "217702174005").unwrap(), None);
    usb[0].devnum = text(" +7 \n");
    assert_eq!(find(&usb, DEV, "217702174005").unwrap().unwrap().jtag, "/dev/bus/usb/003/007");
    usb[0].product = None;
    assert_eq!(find(&usb, DEV, "217702174005").unwrap().unwrap().product, "");
}

#[test]
fn two_devices_with_one_serial_are_an_error() {
    let mut usb = plugged("3-1", "0403", "SAME", "A-V80", 2, &[1]);
    usb.extend(plugged("3-2", "0403", "SAME", "A-U280-P32G", 3, &[5]));
    let err = find(&usb, DEV, "SAME").unwrap_err();
    assert!(err.contains("share serial"));
    assert_eq!(err, "2 USB devices share serial SAME; not locking any of them");
    assert!(!is_gone(&usb, DEV, "SAME"));
}

#[test]
fn discover_offers_only_ftdi_and_xilinx_devices() {
    let mut usb = plugged("3-2", "0403", "217702174005", "A-U280-P32G", 3, &[5]);
    usb.extend(plugged("1-1", "046d", "MOUSE1", "USB Mouse", 4, &[]));
    let serials: Vec<String> = discover(&usb, DEV).into_iter().map(|c| c.serial).collect();
    assert_eq!(serials, vec!["217702174005"]);
    usb.extend(plugged("2-1", "03fd", "XILINX", "Platform", 9, &[]));
    let serials: Vec<String> = discover(&usb, DEV).into_iter().map(|c| c.serial).collect();
    assert_eq!(serials, vec!["XILINX", "217702174005"]);
}

#[test]
fn only_plain_serials_are_accepted() {
    for good in ["XFL1EZVSAG4S", "217702174005", "a.b_c-d"] {
        assert!(valid_serial(good), "{}", good);
    }
    for bad in ["", "a\"b", "a b", "a,b", "x\ny"] {
        assert!(!valid_serial(bad), "{:?}", bad);
    }
}

fn entry(serial: &str, user: &str) -> (String, String) {
    (serial.to_string(), user.to_string())
}

#[test]
fn each_cable_gets_a_usb_line_and_a_tty_line() {
    let text = render_rules(&[entry("217702174005", "anubhav")]);
    assert!(text.contains(
        "SUBSYSTEM==\"usb\", ENV{DEVTYPE}==\"usb_device\", ATTR{serial}==\"217702174005\", OWNER=\"anubhav\", MODE=\"0600\"\n"
    ));
    assert!(text.contains(
        "SUBSYSTEM==\"tty\", ATTRS{serial}==\"217702174005\", OWNER=\"anubhav\", MODE=\"0600\"\n"
    ));
    assert_eq!(text.lines().filter(|l| l.starts_with("SUBSYSTEM")).count(), 2);
}

#[test]
fn without_cables_the_rules_are_a_comment() {
    assert_eq!(
        render_rules(&[]),
        "# Written by fpgahog: cables held by exclusive claims. Rewritten on every change.\n"
    );
}

fn want(serial: &str, user: &str, uid: u32) -> Wanted {
    Wanted { serial: serial.into(), alias: "u280".into(), user: user.into(), uid }
}

fn lock(serial: &str, user: &str, uid: u32) -> CableLock {
    CableLock {
        serial: serial.into(),
        alias: "u280".into(),
        claimant: user.into(),
        claimant_uid: uid,
        jtag_orig: Ownership { uid: 0, gid: 0, mode: 0o666 },
        console_orig: None,
        port_disable: String::new(),
    }
}

#[test]
fn a_newly_claimed_cable_is_recorded() {
    let actions = plan(&[want("S1", "anubhav", 2049)], &[], |_| true);
    assert_eq!(actions, vec![Action::Record(want("S1", "anubhav", 2049))]);
}

#[test]
fn a_held_cable_needs_nothing() {
    assert!(plan(&[want("S1", "anubhav", 2049)], &[lock("S1", "anubhav", 2049)], |_| true).is_empty());
}

#[test]
fn a_released_cable_that_is_plugged_in_is_restored() {
    let actions = plan(&[], &[lock("S1", "anubhav", 2049)], |_| true);
    assert_eq!(actions, vec![Action::Restore(lock("S1", "anubhav", 2049))]);
}

#[test]
fn a_released_cable_that_is_unplugged_is_dropped() {
    let actions = plan(&[], &[lock("S1", "anubhav", 2049)], |_| false);
    assert_eq!(actions, vec![Action::Drop(lock("S1", "anubhav", 2049))]);
}

#[test]
fn a_board_that_changed_hands_is_repointed() {
    let actions = plan(&[want("S1", "theo", 1234)], &[lock("S1", "anubhav", 2049)], |_| true);
    assert_eq!(actions, vec![Action::Repoint(want("S1", "theo", 1234))]);
}

#[test]
fn locks_are_dealt_with_before_new_cables() {
    let locks = [lock("S1", "a", 1), lock("S2", "b", 2), lock("S3", "c", 3)];
    let actions = plan(&[want("S4", "d", 4), want("S2", "x", 2)], &locks, |serial| serial == "S3");
    assert_eq!(
        actions,
        vec![
            Action::Drop(lock("S1", "a", 1)),
            Action::Repoint(want("S2", "x", 2)),
            Action::Restore(lock("S3", "c", 3)),
            Action::Record(want("S4", "d", 4)),
        ]
    );
}

fn file(path: &str, uid: u32, gid: u32, mode: u32) -> FileInfo {
    FileInfo { path: path.to_string(), found: Ok(Ownership { uid, gid, mode }) }
}

#[test]
fn original_ownership_is_read_from_the_cables_files() {
    let usb = plugged("3-2", "0403", "S1", "A-U280-P32G", 3, &[5]);
    let cable = find(&usb, DEV, "S1").unwrap().unwrap();
    let me = 1000;
    // the kind of file is part of the mode that is read, and does not count
    let files = [file("/dev/bus/usb/003/003", me, 7, 0o020666), file("/dev/ttyUSB5", me, 8, 0o020660)];
    let (jtag, console) = original_ownership(Some(&cable), &files, me + 1, 27);
    assert_eq!(jtag.mode, 0o666);
    assert_eq!(jtag.uid, me);
    assert_eq!(jtag.gid, 7);
    assert_eq!(console.unwrap().mode, 0o660);
}

#[test]
fn files_already_locked_for_the_claimant_fall_back_to_defaults() {
    let usb = plugged("3-2", "0403", "S1", "A-U280-P32G", 3, &[5]);
    let cable = find(&usb, DEV, "S1").unwrap().unwrap();
    let me = 1000;
    let files = [file("/dev/bus/usb/003/003", me, 7, 0o600), file("/dev/ttyUSB5", me, 8, 0o600)];
    let (jtag, console) = original_ownership(Some(&cable), &files, me, 27);
    assert_eq!(jtag, Ownership { uid: 0, gid: 0, mode: 0o666 });
    assert_eq!(console, Some(Ownership { uid: 0, gid: 27, mode: 0o660 }));
}

#[test]
fn an_absent_cable_gets_the_defaults() {
    let (jtag, console) = original_ownership(None, &[], 2049, 27);
    assert_eq!(jtag, Ownership { uid: 0, gid: 0, mode: 0o666 });
    assert_eq!(console, Some(Ownership { uid: 0, gid: 27, mode: 0o660 }));
}

#[test]
fn a_cable_without_consoles_has_no_console_to_restore() {
    let usb = plugged("3-2", "0403", "S1", "A-U280-P32G", 3, &[]);
    let cable = find(&usb, DEV, "S1").unwrap().unwrap();
    assert_eq!(original_ownership(Some(&cable), &[], 1, 27).1, None);
    let lock = lock("S1", "me", 1);
    assert_eq!(restore(&cable, &lock), vec![("/dev/bus/usb/003/003".to_string(), lock.jtag_orig)]);
}

/// A time at which the claims last.
const NOW: Moment = Moment { secs: 1_900_000_000, nanos: 0 };

fn later() -> Moment {
    Moment { secs: 2_000_000_000, nanos: 0 }
}

fn accounts() -> Vec<Account> {
    vec![
        Account { name: "me".into(), uid: 1000 },
        Account { name: "theo".into(), uid: 1234 },
        Account { name: "root".into(), uid: 0 },
    ]
}

fn state_with_claim(exclusive: bool) -> DiskState {
    let mut state = load_default();
    state.settings.fpgas.push(FpgaSpec {
        alias: "u280".into(),
        bdf: "0000:c1:00.0".into(),
        pci_id: String::new(),
        devices: vec![],
        cables: vec!["217702174005".into()],
    });
    state.claims.push(Claim {
        id: 1,
        timeout: later(),
        soft_timeout: None,
        exclusive,
        user: "me".into(),
        comment: String::new(),
        resources: vec![ResourceId::Fpga("u280".into())],
    });
    state
}

/// The scene with the U280 cable plugged in, its files as udev usually makes them.
fn scene(devnum: u32, consoles: &[u32], uid: u32, jtag_mode: u32, console_mode: u32) -> Scene {
    let mut files = vec![file(&format!("/dev/bus/usb/003/{:03}", devnum), uid, 0, jtag_mode)];
    for number in consoles {
        files.push(file(&format!("/dev/ttyUSB{}", number), uid, 20, console_mode));
    }
    Scene { usb: u280(devnum, consoles), dev: DEV.into(), files, dialout_gid: 20 }
}

fn run_sync(state: &mut DiskState, scene: &Scene) -> Vec<Takeover> {
    let plan = plan_sync(state, &accounts(), NOW, &scene.usb, &scene.dev);
    let done: Vec<bool> = plan.actions.iter().map(|_| true).collect();
    sync(state, &accounts(), NOW, &done, scene)
}

#[test]
fn an_exclusive_claim_locks_the_cable_and_writes_the_rule() {
    let scene = scene(6, &[0, 4], 0, 0o666, 0o660);
    let mut state = state_with_claim(true);
    let plan = plan_sync(&state, &accounts(), NOW, &scene.usb, DEV);
    assert_eq!(plan.rules, vec![entry("217702174005", "me")]);
    assert!(plan.warnings.is_empty());
    let taken = run_sync(&mut state, &scene);
    let hand = |path: &str, gid: u32| Takeover { path: path.into(), uid: 1000, gid };
    assert_eq!(
        taken,
        vec![hand("/dev/bus/usb/003/006", 0), hand("/dev/ttyUSB0", 20), hand("/dev/ttyUSB4", 20)]
    );
    assert_eq!(state.cable_locks.len(), 1);
    assert_eq!(state.cable_locks[0].jtag_orig.mode, 0o666);
    assert_eq!(state.cable_locks[0].console_orig.unwrap().mode, 0o660);
    assert_eq!(state.cable_locks[0].port_disable, "/sys/devices/usb3/3-0:1.0/usb3-port2/disable");
}

#[test]
fn a_shared_claim_locks_nothing() {
    let scene = scene(6, &[0], 0, 0o666, 0o660);
    let mut state = state_with_claim(false);
    assert!(plan_sync(&state, &accounts(), NOW, &scene.usb, DEV).rules.is_empty());
    assert!(run_sync(&mut state, &scene).is_empty());
    assert!(state.cable_locks.is_empty());
}

#[test]
fn releasing_restores_the_files_and_removes_the_rule() {
    let open = scene(6, &[0, 4], 0, 0o666, 0o660);
    let mut state = state_with_claim(true);
    run_sync(&mut state, &open);
    state.claims.clear();
    let locked = scene(6, &[0, 4], 1000, 0o600, 0o600);
    let plan = plan_sync(&state, &accounts(), NOW, &locked.usb, DEV);
    assert!(plan.rules.is_empty());
    assert_eq!(plan.actions, vec![Action::Restore(state.cable_locks[0].clone())]);
    let cable = find(&locked.usb, DEV, "217702174005").unwrap().unwrap();
    let jtag = Ownership { uid: 0, gid: 0, mode: 0o666 };
    let console = Ownership { uid: 0, gid: 20, mode: 0o660 };
    assert_eq!(
        restore(&cable, &state.cable_locks[0]),
        vec![
            ("/dev/bus/usb/003/006".to_string(), jtag),
            ("/dev/ttyUSB0".to_string(), console),
            ("/dev/ttyUSB4".to_string(), console),
        ]
    );
    // what could not be restored is tried again
    sync(&mut state, &accounts(), NOW, &[false], &locked);
    assert_eq!(state.cable_locks.len(), 1);
    run_sync(&mut state, &open);
    assert!(state.cable_locks.is_empty());
}

#[test]
fn a_replugged_cable_is_locked_again() {
    let mut state = state_with_claim(true);
    run_sync(&mut state, &scene(6, &[0, 4], 0, 0o666, 0o660));
    let taken = run_sync(&mut state, &scene(7, &[1, 2, 3], 0, 0o644, 0o640));
    assert_eq!(taken.len(), 4);
    assert!(taken.iter().all(|t| t.uid == 1000));
    assert_eq!(state.cable_locks.len(), 1);
    assert_eq!(state.cable_locks[0].jtag_orig.mode, 0o666);
    // once everything is the claimant's there is nothing left to do
    let locked = scene(7, &[1, 2, 3], 1000, 0o600, 0o600);
    assert!(plan_sync(&state, &accounts(), NOW, &locked.usb, DEV).actions.is_empty());
    assert!(run_sync(&mut state, &locked).is_empty());
}

#[test]
fn an_unplugged_released_cable_is_dropped() {
    let mut state = state_with_claim(true);
    run_sync(&mut state, &scene(6, &[0], 0, 0o666, 0o660));
    state.claims.clear();
    let empty = Scene { usb: vec![], dev: DEV.into(), files: vec![], dialout_gid: 20 };
    assert!(plan_sync(&state, &accounts(), NOW, &empty.usb, DEV).rules.is_empty());
    run_sync(&mut state, &empty);
    assert!(state.cable_locks.is_empty());
    assert!(plan_sync(&state, &accounts(), NOW, &empty.usb, DEV).rules.is_empty());
}

#[test]
fn an_expired_claim_locks_no_cable() {
    let mut state = state_with_claim(true);
    let open = scene(6, &[0], 0, 0o666, 0o660);
    assert!(wanted(&state, &accounts(), later()).is_empty());
    let plan = plan_sync(&state, &accounts(), later(), &open.usb, DEV);
    assert!(plan.rules.is_empty() && plan.actions.is_empty());
    assert!(sync(&mut state, &accounts(), later(), &[], &open).is_empty());
    assert!(state.cable_locks.is_empty());
    // once it has locked one, its end gives the cable back
    run_sync(&mut state, &open);
    let plan = plan_sync(&state, &accounts(), later(), &open.usb, DEV);
    assert!(plan.rules.is_empty());
    assert_eq!(plan.actions, vec![Action::Restore(state.cable_locks[0].clone())]);
}

#[test]
fn a_released_cable_is_as_it_was() {
    let open = scene(6, &[0, 4], 0, 0o664, 0o640);
    let mut state = state_with_claim(true);
    let taken = run_sync(&mut state, &open);
    state.claims.clear();
    let lock = state.cable_locks[0].clone();
    let cable = find(&open.usb, DEV, "217702174005").unwrap().unwrap();
    let files: Vec<FileInfo> = restore(&cable, &lock)
        .into_iter()
        .map(|(path, owner)| file(&path, owner.uid, owner.gid, owner.mode))
        .collect();
    assert_eq!(files, open.files);
    assert_eq!(taken.len(), files.len());
    let plan = plan_sync(&state, &accounts(), NOW, &open.usb, DEV);
    assert_eq!(plan.actions, vec![Action::Restore(lock)]);
    assert!(plan.rules.is_empty());
    assert!(run_sync(&mut state, &open).is_empty());
    assert!(state.cable_locks.is_empty());
}

#[test]
fn a_cable_follows_its_board_to_a_new_holder() {
    let mut state = state_with_claim(true);
    run_sync(&mut state, &scene(6, &[0], 0, 0o666, 0o660));
    state.claims[0].user = "theo".into();
    let taken = run_sync(&mut state, &scene(6, &[0], 1000, 0o600, 0o600));
    assert_eq!(state.cable_locks.len(), 1);
    assert_eq!(state.cable_locks[0].claimant, "theo");
    assert_eq!(state.cable_locks[0].claimant_uid, 1234);
    assert_eq!(state.cable_locks[0].jtag_orig, Ownership { uid: 0, gid: 0, mode: 0o666 });
    assert!(taken.iter().all(|t| t.uid == 1234) && taken.len() == 2);
}

#[test]
fn view_reports_whether_the_files_are_really_locked() {
    let mut state = state_with_claim(true);
    run_sync(&mut state, &scene(6, &[0], 0, 0o666, 0o660));
    let locked = scene(6, &[0], 1000, 0o600, 0o600);
    assert_eq!(view(&state, "217702174005", &locked, &[]), CableView::Present { locked: true });
    let open = scene(6, &[0], 1000, 0o666, 0o600);
    assert_eq!(view(&state, "217702174005", &open, &[]), CableView::Present { locked: false });
    assert_eq!(view(&state, "NOPE", &open, &[]), CableView::Absent);
    assert_eq!(view(&state, "bad serial", &open, &[]), CableView::Invalid);
}

#[test]
fn eviction_disconnects_and_reconnects_the_port_then_waits_for_the_cable() {
    let usb = u280(6, &[0]);
    let there = ["/dev/bus/usb/003/006".to_string()];
    let go = |usb: &[UsbEntry], there: &[String], over: bool| {
        eviction_progress(usb, DEV, "217702174005", there, over, 2)
    };
    assert_eq!(go(&[], &[], false), Progress::Waiting);
    assert_eq!(go(&usb, &[], false), Progress::Waiting);
    assert_eq!(go(&usb, &there, false), Progress::Back);
    assert_eq!(go(&usb, &there, true), Progress::Back);
}

#[test]
fn a_cable_that_does_not_come_back_is_an_error() {
    let usb = u280(6, &[0]);
    match eviction_progress(&usb, DEV, "217702174005", &[], true, 0) {
        Progress::GaveUp(err) => {
            assert!(err.contains("did not come back"), "{}", err);
            assert_eq!(err, "cable 217702174005 did not come back within 0s");
        }
        other => panic!("{:?}", other),
    }
}

#[test]
fn an_eviction_is_written_down_while_it_runs() {
    let cable = find(&u280(6, &[0]), DEV, "217702174005").unwrap().unwrap();
    let mut state = load_default();
    state.pending_replug = vec!["/other/disable".into()];
    begin_eviction(&mut state, &cable);
    assert_eq!(state.pending_replug, vec!["/other/disable", "/sys/devices/usb3/3-0:1.0/usb3-port2/disable"]);
    end_eviction(&mut state, &cable, true);
    assert_eq!(state.pending_replug.len(), 2);
    end_eviction(&mut state, &cable, false);
    assert_eq!(state.pending_replug, vec!["/other/disable"]);
}

#[test]
fn a_board_without_cables_says_nothing() {
    assert_eq!(describe(true, &[]), None);
}

#[test]
fn each_state_has_its_phrase() {
    assert_eq!(describe(true, &[CableView::Present { locked: true }]).as_deref(), Some("cable locked"));
    assert_eq!(describe(true, &[CableView::Present { locked: false }]).as_deref(), Some("cable NOT locked"));
    assert_eq!(describe(false, &[CableView::Present { locked: false }]).as_deref(), Some("cable unlocked"));
    assert_eq!(describe(true, &[CableView::Absent]).as_deref(), Some("cable absent"));
}

#[test]
fn an_invalid_serial_is_reported_first() {
    let views = [CableView::Present { locked: true }, CableView::Invalid];
    assert_eq!(describe(true, &views).as_deref(), Some("cable serial invalid"));
}

fn board(alias: &str, cables: &[&str]) -> FpgaSpec {
    FpgaSpec {
        alias: alias.into(),
        bdf: String::new(),
        pci_id: String::new(),
        devices: vec![],
        cables: cables.iter().map(|c| c.to_string()).collect(),
    }
}

fn cable(serial: &str, product: &str) -> Cable {
    Cable {
        serial: serial.into(),
        product: product.into(),
        jtag: String::new(),
        consoles: vec![],
        port_disable: String::new(),
    }
}

fn rose() -> Vec<Cable> {
    vec![cable("XFL1EZVSAG4S", "A-V80"), cable("217702174005", "A-U280-P32G")]
}

#[test]
fn boards_get_the_cable_named_after_them() {
    let pairs = assign(&[board("v80", &[]), board("u280", &[])], &rose());
    assert_eq!(pairs, vec![
        ("v80".to_string(), "XFL1EZVSAG4S".to_string()),
        ("u280".to_string(), "217702174005".to_string()),
    ]);
}

#[test]
fn placeholder_names_match_nothing() {
    assert!(assign(&[board("fpga0", &[])], &rose()).is_empty());
}

#[test]
fn a_board_matching_two_cables_is_left_for_a_human() {
    assert!(assign(&[board("a", &[])], &rose()).is_empty());
}

#[test]
fn a_cable_matching_two_boards_is_left_for_a_human() {
    assert!(assign(&[board("u280", &[]), board("280", &[])], &rose()).is_empty());
}

#[test]
fn a_board_with_cables_is_never_touched() {
    assert!(assign(&[board("u280", &["SET-BY-HAND"])], &rose()).is_empty());
}

#[test]
fn a_cable_with_an_invalid_serial_is_not_assigned() {
    assert!(assign(&[board("v80", &[])], &[cable("bad serial", "A-V80")]).is_empty());
}

#[test]
fn assignment_goes_by_the_given_names() {
    let specs = [board("left", &[]), board("right", &[])];
    let names = ["x".to_string(), "y".to_string()];
    let products = ["has y".to_string(), "has x".to_string()];
    let pairs = assign_by(&specs, &rose(), &names, &products);
    assert_eq!(pairs, vec![entry("left", "217702174005"), entry("right", "XFL1EZVSAG4S")]);
}

fn lock_with_port(serial: &str, port: &str) -> CableLock {
    CableLock {
        serial: serial.into(),
        alias: "u280".into(),
        claimant: "me".into(),
        claimant_uid: 0,
        jtag_orig: Ownership { uid: 0, gid: 0, mode: 0o666 },
        console_orig: None,
        port_disable: port.into(),
    }
}

const PORT: &str = "/sys/usb3-port2/disable";

fn port(value: &str) -> PortInfo {
    PortInfo { path: PORT.into(), value: text(value) }
}

#[test]
fn a_pending_replug_is_finished_on_the_next_pass() {
    let mut state = load_default();
    state.pending_replug = vec![PORT.into()];
    assert_eq!(ports_to_check(&state), vec![PORT]);
    assert_eq!(ports_to_enable(&state, &[port("1\n")]), vec![PORT]);
    reenable_disabled_ports(&mut state, &[port("1\n")], &[true]);
    assert!(state.pending_replug.is_empty());
}

#[test]
fn a_port_that_cannot_be_enabled_is_not_forgotten() {
    let mut state = load_default();
    state.pending_replug = vec!["/gone".into(), PORT.into()];
    reenable_disabled_ports(&mut state, &[port("1\n")], &[false]);
    assert_eq!(state.pending_replug, vec![PORT]);
    reenable_disabled_ports(&mut state, &[port("1\n")], &[]);
    assert_eq!(state.pending_replug, vec![PORT]);
    reenable_disabled_ports(&mut state, &[port("1\n")], &[true]);
    assert!(state.pending_replug.is_empty());
    // nor is that of a cable that is held
    state.cable_locks.push(lock_with_port("217702174005", PORT));
    reenable_disabled_ports(&mut state, &[port("1\n")], &[false]);
    assert_eq!(state.pending_replug, vec![PORT]);
}

#[test]
fn a_locked_cable_whose_port_is_disabled_is_re_enabled() {
    let mut state = load_default();
    state.cable_locks.push(lock_with_port("217702174005", PORT));
    state.cable_locks.push(lock_with_port("OTHER", ""));
    assert_eq!(ports_to_enable(&state, &[port("1")]), vec![PORT]);
    reenable_disabled_ports(&mut state, &[port("1")], &[true]);
    assert!(state.pending_replug.is_empty());
}

#[test]
fn an_enabled_port_is_left_alone() {
    let mut state = load_default();
    state.pending_replug = vec![PORT.into()];
    assert!(ports_to_enable(&state, &[port("0")]).is_empty());
    reenable_disabled_ports(&mut state, &[port("0")], &[]);
    assert!(state.pending_replug.is_empty());
}

#[test]
fn status_says_the_port_is_disabled_rather_than_absent() {
    let mut state = load_default();
    state.cable_locks.push(lock_with_port("217702174005", PORT));
    let empty = Scene { usb: vec![], dev: DEV.into(), files: vec![], dialout_gid: 20 };
    assert_eq!(view(&state, "217702174005", &empty, &[port("1\n")]), CableView::PortDisabled);
    assert_eq!(view(&state, "217702174005", &empty, &[port("0\n")]), CableView::Absent);
    assert_eq!(describe(true, &[CableView::PortDisabled]).as_deref(), Some("cable port disabled"));
}

#[test]
fn eviction_fits_inside_the_statefile_lock_wait() {
    let worst = 2 * (REPLUG_WAIT + 1);
    assert!(worst < LOCK_WAIT, "worst case {}s vs lock wait {}s", worst, LOCK_WAIT);
}

#[test]
fn a_serial_on_two_boards_is_rejected() {
    assert_eq!(duplicate_serials(&[board("v80", &["S1"]), board("u280", &["S1"])]), vec!["S1".to_string()]);
}

#[test]
fn a_serial_listed_twice_on_one_board_is_rejected() {
    assert_eq!(duplicate_serials(&[board("u280", &["S1", "S1"])]), vec!["S1".to_string()]);
}

#[test]
fn distinct_serials_are_fine() {
    assert!(duplicate_serials(&[board("v80", &["S1"]), board("u280", &["S2"])]).is_empty());
}

#[test]
fn a_duplicate_is_never_locked() {
    let mut state = load_default();
    state.settings.fpgas = vec![board("v80", &["S1"]), board("u280", &["S1"])];
    state.claims = vec![Claim {
        id: 1,
        timeout: later(),
        soft_timeout: None,
        exclusive: true,
        user: "me".into(),
        comment: String::new(),
        resources: ResourceId::parse_list("v80"),
    }];
    assert!(wanted(&state, &accounts(), NOW).is_empty());
    assert_eq!(
        wanted_warnings(&state, &accounts(), NOW),
        vec!["WARN: cable S1 is listed by more than one board; locking it for none of them"]
    );
}

#[test]
fn every_reason_not_to_lock_a_cable_is_told() {
    let mut state = state_with_claim(true);
    state.settings.fpgas[0].cables = vec!["bad\tserial".into(), "S2".into()];
    assert_eq!(wanted(&state, &accounts(), NOW), vec![want("S2", "me", 1000)]);
    assert_eq!(
        wanted_warnings(&state, &accounts(), NOW),
        vec!["WARN: u280 lists an invalid cable serial \"bad\\tserial\"; skipping it"]
    );
    state.settings.fpgas[0].cables = vec!["S2".into()];
    state.claims[0].user = "o\"neil".into();
    assert_eq!(
        wanted_warnings(&state, &accounts(), NOW),
        vec!["WARN: user name \"o\\\"neil\" cannot go into a udev rule; not locking cable S2"]
    );
    state.claims[0].user = "nobody".into();
    assert!(wanted(&state, &accounts(), NOW).is_empty());
    assert_eq!(
        wanted_warnings(&state, &accounts(), NOW),
        vec!["WARN: u280 is claimed by unknown user nobody; leaving cable S2 alone"]
    );
}

#[test]
fn a_shared_serial_is_warned_about_once() {
    let mut state = state_with_claim(true);
    let mut usb = plugged("3-1", "0403", "217702174005", "A", 2, &[]);
    usb.extend(plugged("3-2", "0403", "217702174005", "B", 3, &[]));
    state.cable_locks.push(lock("217702174005", "me", 1000));
    let plan = plan_sync(&state, &accounts(), NOW, &usb, DEV);
    assert_eq!(plan.warnings, vec!["WARN: 2 USB devices share serial 217702174005; not locking any of them"]);
}

#[test]
fn assign_skips_a_serial_another_board_already_uses() {
    let specs = [board("v80", &["217702174005"]), board("u280", &[])];
    assert!(assign(&specs, &[cable("217702174005", "A-U280-P32G")]).is_empty());
}

#[test]
fn a_cable_somebody_else_holds_is_told_with_who_does() {
    let host = Host {
        usb: u280(6, &[0]),
        dev: DEV.into(),
        processes: vec![
            Process {
                name: "77".into(),
                open_files: Some(vec!["/dev/null".into(), "/dev/ttyUSB0".into()]),
                status: text("Name:\tpicocom\nUid:\t1234\t1234\t1234\t1234\n"),
                cmdline: text("picocom\0/dev/ttyUSB0\0"),
            },
            Process {
                name: "76".into(),
                open_files: Some(vec!["/dev/ttyUSB0".into()]),
                status: text("Uid: 1000\n"),
                cmdline: None,
            },
        ],
        accounts: accounts(),
    };
    let boards = [board("u280", &["bad serial", "217702174005"])];
    let held = foreign_cable_holders(&boards, &host, Some(1000));
    assert_eq!(held.len(), 1);
    assert_eq!(held[0].alias, "u280");
    assert_eq!(held[0].holders.len(), 1);
    assert_eq!(
        report_foreign_holders(&held),
        vec!["pid 77 (picocom /dev/ttyUSB0, theo) holds u280's cable 217702174005"]
    );
    assert_eq!(
        eviction_lines(&held[0]),
        vec!["cutting pid 77 (picocom /dev/ttyUSB0, theo) off u280's cable"]
    );
    let all = foreign_cable_holders(&boards, &host, None);
    assert_eq!(all[0].holders.iter().map(|h| h.pid).collect::<Vec<u32>>(), vec![76, 77]);
    assert_eq!(
        board_paths(&boards[0], &host.usb, DEV),
        paths(&find(&host.usb, DEV, "217702174005").unwrap().unwrap())
    );
    assert_eq!(board_paths(&boards[0], &host.usb, DEV), vec!["/dev/bus/usb/003/006", "/dev/ttyUSB0"]);
}

#[test]
fn each_action_is_told() {
    let told = |action: Action, failed: Option<&str>| action_line(&action, failed);
    assert_eq!(told(Action::Record(want("S1", "me", 1)), None), None);
    assert_eq!(
        told(Action::Repoint(want("S1", "theo", 1)), None).unwrap(),
        "u280 changed hands: cable S1 now belongs to theo"
    );
    assert_eq!(
        told(Action::Drop(lock("S1", "me", 1)), None).unwrap(),
        "released cable S1 (u280); it is unplugged, udev restores it on return"
    );
    assert_eq!(
        told(Action::Restore(lock("S1", "me", 1)), None).unwrap(),
        "released cable S1 (u280)"
    );
    assert_eq!(
        told(Action::Restore(lock("S1", "me", 1)), Some("chown: no")).unwrap(),
        "WARN: could not restore cable S1: chown: no. Will retry."
    );
}

#[test]
fn what_cannot_be_locked_is_shown_in_quotes() {
    assert_eq!(
        invalid_serial_line("u280", "<s>"),
        "WARN: u280 lists an invalid cable serial <s>; skipping it"
    );
    assert_eq!(
        unusable_name_line("<u>", "S1"),
        "WARN: user name <u> cannot go into a udev rule; not locking cable S1"
    );
}
