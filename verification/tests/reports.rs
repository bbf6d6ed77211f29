use fpgahog::cable::UsbEntry;
use fpgahog::cable_locks::Scene;
use fpgahog::clock::Moment;
use fpgahog::diskstate::{
    load_default, CableLock, Claim, DeviceLock, DiskState, FpgaSpec, Ownership, ResourceId,
};
use fpgahog::fpga::FileInfo;
use fpgahog::inventory::DiscoveredFpga;
use fpgahog::report::{
    claim_summary, device_summary, do_list, enforcement_summary, invalid_cable_line, show_fpgas,
    show_status, table_lines, Row, Sight,
};

const NOW: Moment = Moment { secs: 2_000_000_000, nanos: 0 };

fn at(secs: i64) -> Moment {
    Moment { secs: NOW.secs + secs, nanos: 0 }
}

fn file(path: &str, uid: u32, mode: u32) -> FileInfo {
    FileInfo { path: path.into(), found: Ok(Ownership { uid, gid: 0, mode }) }
}

fn sight(files: Vec<FileInfo>) -> Sight {
    Sight {
        now: NOW,
        prog: "fpgahog".into(),
        discovered: vec![DiscoveredFpga {
            bdf: "0000:c1:00.0".into(),
            pci_id: "10ee:903f".into(),
            driver: Some("xdma".into()),
            numa_node: None,
        }],
        scene: Scene { usb: vec![], dev: "/dev".into(), files, dialout_gid: 20 },
        ports: vec![],
        mounts: "tmpfs /a tmpfs rw 0 0\n".into(),
    }
}

fn spec() -> FpgaSpec {
    FpgaSpec {
        alias: "u280".into(),
        bdf: "0000:c1:00.0".into(),
        pci_id: "10ee:0000".into(),
        devices: vec!["/dev/a".into(), "/dev/b".into()],
        cables: vec![],
    }
}

fn claim(user: &str, exclusive: bool) -> Claim {
    Claim {
        id: 1,
        timeout: at(7200),
        soft_timeout: None,
        exclusive,
        user: user.into(),
        comment: "perf".into(),
        resources: ResourceId::parse_list("u280"),
    }
}

fn state() -> DiskState {
    let mut state = load_default();
    state.settings.fpgas = vec![spec()];
    state
}

fn lock(path: &str) -> DeviceLock {
    DeviceLock {
        path: path.into(),
        alias: "u280".into(),
        orig_uid: 0,
        orig_gid: 0,
        orig_mode: 0o666,
        claimant_uid: 1000,
    }
}

#[test]
fn device_summaries_tell_claimed_from_enforced() {
    let mut s = state();
    let open = [file("/dev/a", 0, 0o666), file("/dev/b", 0, 0o666)];
    assert_eq!(device_summary(&s, &spec(), &open), "unlocked");
    assert_eq!(device_summary(&s, &spec(), &open[..1]), "unlocked, 1 of 2 nodes missing");
    s.claims = vec![claim("me", true)];
    s.device_locks = vec![lock("/dev/a"), lock("/dev/b")];
    assert_eq!(device_summary(&s, &spec(), &open), "ENFORCEMENT FAILED: 0/2 locked");
    let held = [file("/dev/a", 1000, 0o600), file("/dev/b", 1000, 0o100600)];
    assert_eq!(device_summary(&s, &spec(), &held), "2/2 locked");
    assert_eq!(
        device_summary(&s, &spec(), &held[..1]),
        "ENFORCEMENT FAILED: 1/2 locked, 1 nodes missing"
    );
    s.claims[0].exclusive = false;
    assert_eq!(device_summary(&s, &spec(), &held), "unlocked");
}

#[test]
fn a_board_with_nothing_to_guard_is_advisory() {
    let mut s = state();
    s.claims = vec![claim("me", true)];
    let mut bare = spec();
    bare.devices.clear();
    assert_eq!(enforcement_summary(&s, &bare, &sight(vec![])), "advisory (no device nodes)");
    bare.cables = vec!["S1".into()];
    assert_eq!(enforcement_summary(&s, &bare, &sight(vec![])), "cable absent");
    let mut both = spec();
    both.cables = vec!["bad serial".into()];
    assert_eq!(
        enforcement_summary(&s, &both, &sight(vec![])),
        "ENFORCEMENT FAILED: 0/2 locked, 2 nodes missing, cable serial invalid"
    );
}

#[test]
fn claims_are_summed_up_in_a_phrase() {
    let mut s = state();
    assert_eq!(claim_summary(&s, "u280", NOW), "free");
    s.claims = vec![claim("me", true), claim("you", false)];
    assert_eq!(claim_summary(&s, "u280", NOW), "me (exclusive), 2h left");
    s.claims.remove(0);
    assert_eq!(claim_summary(&s, "u280", NOW), "you (shared), 2h left");
}

fn row(cells: &[&str]) -> Row {
    Row { cells: cells.iter().map(|c| c.to_string()).collect() }
}

#[test]
fn columns_are_as_wide_as_their_widest_cell() {
    assert_eq!(
        table_lines(&[row(&["A", "Bee", "C"]), row(&["long cell", "ü", "last"])]),
        vec!["A          Bee  C", "long cell  ü    last"]
    );
    assert!(table_lines(&[]).is_empty());
}

#[test]
fn status_shows_boards_and_claims() {
    let mut s = state();
    s.claims = vec![claim("me", true), claim("you", false)];
    s.claims[1].soft_timeout = Some(at(-90));
    s.device_locks = vec![lock("/dev/a"), lock("/dev/b")];
    let seen = sight(vec![file("/dev/a", 1000, 0o600), file("/dev/b", 1000, 0o600)]);
    let expected = vec![
        "FPGAs:",
        "Resource  PCI address   Driver  Claim                    Enforcement",
        "u280      0000:c1:00.0  xdma    me (exclusive), 2h left  2/2 locked",
        "",
        "Active claims:",
        "Remaining   User  Resources  Comment",
        "2h          me    u280       (exclusive) perf",
        "-1m (soft)  you   u280       perf",
    ];
    assert_eq!(show_status(&s, &seen), expected);
    s.overmounts = vec!["/a".into(), "/b".into()];
    s.hogger = Some(claim("me", true));
    let lines = show_status(&s, &seen);
    assert_eq!(
        lines[..4],
        [
            "".to_string(),
            "This system has been hogged by me.\nComment: perf\nThis claim will time out in 2h.".to_string(),
            "2 keys were disabled to hog, 1 keys are still disabled".to_string(),
            "".to_string(),
        ]
    );
}

#[test]
fn unregistered_boards_are_mentioned() {
    let s = load_default();
    assert_eq!(
        show_fpgas(&s, &sight(vec![])),
        vec![
            "No FPGAs registered yet, but 1 FPGA-like PCI device(s) are present.",
            "Run `sudo fpgahog discover --write` to register them.\n",
        ]
    );
    let mut nothing = sight(vec![]);
    nothing.discovered.clear();
    assert!(show_fpgas(&s, &nothing).is_empty());
    assert_eq!(
        do_list(&s, &sight(vec![])),
        vec![
            "No FPGAs registered on this host.",
            "Unregistered FPGA-like PCI devices:",
            "  0000:c1:00.0  10ee:903f  driver=xdma",
            "Run `sudo fpgahog discover --write` to register them.",
        ]
    );
}

#[test]
fn list_shows_everything_about_a_board() {
    let mut s = state();
    s.settings.fpgas[0].cables =
        vec!["bad\nserial".into(), "DUP".into(), "S1".into(), "S2".into(), "DUP".into()];
    s.cable_locks.push(CableLock {
        serial: "S1".into(),
        alias: "u280".into(),
        claimant: "me".into(),
        claimant_uid: 1000,
        jtag_orig: Ownership { uid: 0, gid: 0, mode: 0o666 },
        console_orig: None,
        port_disable: String::new(),
    });
    let mut seen = sight(vec![file("/dev/a", 0, 0o666)]);
    seen.scene.usb = vec![UsbEntry {
        name: "3-2".into(),
        vendor: Some("0403".into()),
        serial: Some("S1".into()),
        product: Some("A-U280".into()),
        busnum: Some("3".into()),
        devnum: Some("6".into()),
        port: "/sys/p".into(),
        children: vec![],
    }];
    assert_eq!(
        do_list(&s, &seen),
        vec![
            "u280",
            "  pci address  0000:c1:00.0",
            "  pci id       10ee:0000",
            "  driver       xdma",
            "  numa node    ?",
            "  WARNING      the card at this address now reports 10ee:903f",
            "  device       /dev/a",
            "  device       /dev/b  (MISSING)",
            "  cable        \"bad\\nserial\"  (INVALID SERIAL)",
            "  cable        DUP  (DUPLICATE SERIAL: listed by more than one board)",
            "  cable        S1 A-U280",
            "    jtag       /dev/bus/usb/003/006",
            "    consoles   -",
            "  cable        S2  (ABSENT)",
            "  cable        DUP  (DUPLICATE SERIAL: listed by more than one board)",
            "  claim        free",
            "  enforcement  unlocked, 1 of 2 nodes missing, cable serial invalid",
            "",
        ]
    );
    seen.discovered.clear();
    s.settings.fpgas[0].devices.clear();
    s.settings.fpgas[0].cables.clear();
    let lines = do_list(&s, &seen);
    assert_eq!(lines[3], "  driver       MISSING: no PCI device at this address");
    assert_eq!(lines[4], "  devices      (none configured: claims cannot be enforced)");
}

#[test]
fn an_invalid_serial_is_listed_in_quotes() {
    assert_eq!(invalid_cable_line("<s>"), "  cable        <s>  (INVALID SERIAL)");
}
