//! What `status`, `list` and `discover` show.
use vstd::prelude::*;
use crate::cable::{
    all_serials, cable_found, cable_phrase, duplicate_serials, find, is_valid_serial, valid_serial,
    CableView,
};
use crate::cable_locks::{cable_view, view, PortInfo, PortInfoModel, Scene, SceneModel};
use crate::claims::{kind_phrase, kind_text};
use crate::clock::Moment;
use crate::diskstate::{
    resource_names, Claim, ClaimModel, DeviceLockModel, DiskState, DiskStateModel, FpgaSpec,
    FpgaSpecModel, SettingsModel,
};
use crate::fpga::{
    file_found, intact, lock_is_intact, lock_of, locks_for, look_up_file, FileInfo, FileInfoModel,
};
use crate::hog::{hogged_message, is_mount_point, is_overmounted, ssh_hogged_message_at};
use crate::inventory::{DiscoveredFpga, DiscoveredModel};
use crate::seqs::{
    concat_all, every_item, find_first, lemma_concat_next, lemma_filter_next, lemma_filter_shorter,
    lemma_first_where_is, lemma_map_next, lemma_take_all, lemma_take_next, lemma_views_add,
    lemma_views_push, opt_view, repeats, some_item, views,
};
use crate::text::{
    decimal, decimal_text, is_among, join, joined, padded, padded_text, quoted, quoted_text,
    same_text, starts_with, text_or, text_or_else, width,
};
use crate::util::{format_timeout_at, time_left};

verus! {

/// What there is to see of the host when it is reported on.
#[derive(Debug, PartialEq, Eq)]
pub struct Sight {
    pub now: Moment,
    /// What this program is called.
    pub prog: String,
    /// Boards on the PCI bus.
    pub discovered: Vec<DiscoveredFpga>,
    /// The cables, and what all device files and files of cables are like.
    pub scene: Scene,
    pub ports: Vec<PortInfo>,
    /// The list of mounts.
    pub mounts: String,
}

#[verifier::ext_equal]
pub struct SightModel {
    pub now: Moment,
    pub prog: Seq<char>,
    pub discovered: Seq<DiscoveredModel>,
    pub scene: SceneModel,
    pub ports: Seq<PortInfoModel>,
    pub mounts: Seq<char>,
}

impl View for Sight {
    type V = SightModel;

    open spec fn view(&self) -> SightModel {
        SightModel {
            now: self.now,
            prog: self.prog@,
            discovered: views(self.discovered@),
            scene: self.scene@,
            ports: views(self.ports@),
            mounts: self.mounts@,
        }
    }
}

pub open spec fn is_missing(files: Seq<FileInfoModel>) -> spec_fn(Seq<char>) -> bool {
    |path: Seq<char>| file_found(files, path) is Err
}

pub open spec fn holds_exclusively(alias: Seq<char>) -> spec_fn(ClaimModel) -> bool {
    |claim: ClaimModel| claim.exclusive && claim.covers_alias(alias)
}

pub open spec fn holds_file(path: Seq<char>, files: Seq<FileInfoModel>) -> spec_fn(
    DeviceLockModel,
) -> bool {
    |lock: DeviceLockModel| lock.path == path && intact(lock, files) == Some(true)
}

pub open spec fn is_held_by(locks: Seq<DeviceLockModel>, files: Seq<FileInfoModel>) -> spec_fn(
    Seq<char>,
) -> bool {
    |path: Seq<char>| some_item(locks, holds_file(path, files))
}

/// How well the device files of a board are protected, in one phrase. An exclusive claim whose
/// files are missing or not the claimant's protects nothing, and the phrase says so.
pub open spec fn device_phrase(
    state: DiskStateModel,
    spec: FpgaSpecModel,
    files: Seq<FileInfoModel>,
) -> Seq<char> {
    let total = spec.devices.len();
    let missing = spec.devices.filter(is_missing(files)).len();
    let locks = state.device_locks.filter(lock_of(spec.alias));
    let held = spec.devices.filter(is_held_by(locks, files)).len();
    if !some_item(state.claims, holds_exclusively(spec.alias)) {
        if missing > 0 {
            "unlocked, "@ + decimal(missing) + " of "@ + decimal(total) + " nodes missing"@
        } else {
            "unlocked"@
        }
    } else if held == total {
        decimal(held) + "/"@ + decimal(total) + " locked"@
    } else {
        let problem = "ENFORCEMENT FAILED: "@ + decimal(held) + "/"@ + decimal(total)
            + " locked"@;
        if missing > 0 {
            problem + ", "@ + decimal(missing) + " nodes missing"@
        } else {
            problem
        }
    }
}

fn is_held_exclusively(state: &DiskState, alias: &str) -> (yes: bool)
    ensures
        yes == some_item(state@.claims, holds_exclusively(alias@)),
{
    let ghost pred = holds_exclusively(alias@);
    for i in 0..state.claims.len()
        invariant
            pred == holds_exclusively(alias@),
            forall|j: int| 0 <= j < i ==> !pred(#[trigger] state@.claims[j]),
    {
        if state.claims[i].exclusive && state.claims[i].covers_alias(alias) {
            assert(pred(state@.claims[i as int]));
            return true;
        }
    }
    false
}

fn count_missing(paths: &[String], files: &[FileInfo]) -> (count: usize)
    ensures
        count == views(paths@).filter(is_missing(views(files@))).len(),
{
    let ghost pred = is_missing(views(files@));
    let ghost all = views(paths@);
    let mut count: usize = 0;
    proof {
        reveal(Seq::filter);
        assert(all.take(0).filter(pred) =~= Seq::empty());
    }
    for i in 0..paths.len()
        invariant
            pred == is_missing(views(files@)),
            all == views(paths@),
            count <= i,
            count == all.take(i as int).filter(pred).len(),
    {
        proof {
            lemma_filter_next(all, i as int, pred);
        }
        if look_up_file(files, paths[i].as_str()).is_err() {
            count = count + 1;
        }
    }
    proof {
        lemma_take_all(all);
    }
    count
}

fn is_file_held(state: &DiskState, alias: &str, path: &str, files: &[FileInfo]) -> (yes: bool)
    ensures
        yes == is_held_by(state@.device_locks.filter(lock_of(alias@)), views(files@))(path@),
{
    let locks = locks_for(state, alias);
    let ghost all = views(locks@);
    let ghost pred = holds_file(path@, views(files@));
    for i in 0..locks.len()
        invariant
            all == views(locks@),
            all == state@.device_locks.filter(lock_of(alias@)),
            pred == holds_file(path@, views(files@)),
            forall|j: int| 0 <= j < i ==> !pred(#[trigger] all[j]),
    {
        let lock = locks[i];
        if same_text(lock.path.as_str(), path) {
            if let Some(true) = lock_is_intact(lock, files) {
                assert(pred(all[i as int]));
                return true;
            }
        }
    }
    false
}

fn count_held(state: &DiskState, spec: &FpgaSpec, files: &[FileInfo]) -> (count: usize)
    ensures
        count == spec@.devices.filter(
            is_held_by(state@.device_locks.filter(lock_of(spec@.alias)), views(files@)),
        ).len(),
{
    let ghost pred = is_held_by(
        state@.device_locks.filter(lock_of(spec@.alias)),
        views(files@),
    );
    let ghost all = spec@.devices;
    let mut count: usize = 0;
    proof {
        reveal(Seq::filter);
        assert(all.take(0).filter(pred) =~= Seq::empty());
    }
    for i in 0..spec.devices.len()
        invariant
            pred == is_held_by(
                state@.device_locks.filter(lock_of(spec@.alias)),
                views(files@),
            ),
            all == spec@.devices,
            count <= i,
            count == all.take(i as int).filter(pred).len(),
    {
        proof {
            lemma_filter_next(all, i as int, pred);
        }
        if is_file_held(state, spec.alias.as_str(), spec.devices[i].as_str(), files) {
            count = count + 1;
        }
    }
    proof {
        lemma_take_all(all);
    }
    count
}

/// How well the device files of a board are protected; see [`device_phrase`].
pub fn device_summary(state: &DiskState, spec: &FpgaSpec, files: &[FileInfo]) -> (out: String)
    ensures
        out@ == device_phrase(state@, spec@, views(files@)),
{
    let total: usize = spec.devices.len();
    assert(spec@.devices.len() == total);
    let missing: usize = count_missing(&spec.devices, files);
    if !is_held_exclusively(state, spec.alias.as_str()) {
        if missing > 0 {
            let mut out = "unlocked, ".to_string();
            out.append(decimal_text(missing as u64).as_str());
            out.append(" of ");
            out.append(decimal_text(total as u64).as_str());
            out.append(" nodes missing");
            return out;
        }
        return "unlocked".to_string();
    }
    let held: usize = count_held(state, spec, files);
    if held == total {
        let mut out = decimal_text(held as u64);
        out.append("/");
        out.append(decimal_text(total as u64).as_str());
        out.append(" locked");
        return out;
    }
    let mut out = "ENFORCEMENT FAILED: ".to_string();
    out.append(decimal_text(held as u64).as_str());
    out.append("/");
    out.append(decimal_text(total as u64).as_str());
    out.append(" locked");
    if missing > 0 {
        out.append(", ");
        out.append(decimal_text(missing as u64).as_str());
        out.append(" nodes missing");
    }
    out
}

pub open spec fn to_cable_view(state: DiskStateModel, sight: SightModel) -> spec_fn(
    Seq<char>,
) -> CableView {
    |serial: Seq<char>| cable_view(state.cable_locks, serial, sight.scene, sight.ports)
}

/// How well a board is protected, in one phrase.
pub open spec fn enforcement_phrase(
    state: DiskStateModel,
    spec: FpgaSpecModel,
    sight: SightModel,
) -> Seq<char> {
    let claimed = some_item(state.claims, holds_exclusively(spec.alias));
    let cables = cable_phrase(claimed, spec.cables.map_values(to_cable_view(state, sight)));
    let devices = device_phrase(state, spec, sight.scene.files);
    match cables {
        None => if spec.devices.len() == 0 {
            "advisory (no device nodes)"@
        } else {
            devices
        },
        Some(cables) => if spec.devices.len() == 0 {
            cables
        } else {
            devices + ", "@ + cables
        },
    }
}

fn cable_views(state: &DiskState, spec: &FpgaSpec, sight: &Sight) -> (out: Vec<CableView>)
    ensures
        out@ == spec@.cables.map_values(to_cable_view(state@, sight@)),
{
    let ghost f = to_cable_view(state@, sight@);
    let ghost all = spec@.cables;
    let mut out: Vec<CableView> = Vec::new();
    assert(out@ =~= all.take(0).map_values(f));
    for i in 0..spec.cables.len()
        invariant
            f == to_cable_view(state@, sight@),
            all == spec@.cables,
            out@ == all.take(i as int).map_values(f),
    {
        proof {
            lemma_map_next(all, i as int, f);
        }
        out.push(view(state, spec.cables[i].as_str(), &sight.scene, &sight.ports));
    }
    proof {
        lemma_take_all(all);
    }
    out
}

/// How well a board is protected; see [`enforcement_phrase`].
pub fn enforcement_summary(state: &DiskState, spec: &FpgaSpec, sight: &Sight) -> (out: String)
    ensures
        out@ == enforcement_phrase(state@, spec@, sight@),
{
    let claimed = is_held_exclusively(state, spec.alias.as_str());
    let seen = cable_views(state, spec, sight);
    assert(spec@.devices.len() == spec.devices@.len());
    match crate::cable::describe(claimed, &seen) {
        None => {
            if spec.devices.len() == 0 {
                "advisory (no device nodes)".to_string()
            } else {
                device_summary(state, spec, &sight.scene.files)
            }
        },
        Some(cables) => {
            if spec.devices.len() == 0 {
                cables
            } else {
                let mut out = device_summary(state, spec, &sight.scene.files);
                out.append(", ");
                out.append(cables.as_str());
                out
            }
        },
    }
}

pub open spec fn covers_board(alias: Seq<char>) -> spec_fn(ClaimModel) -> bool {
    |claim: ClaimModel| claim.covers_alias(alias)
}

/// Who has claimed a board, in one phrase.
pub open spec fn claim_phrase(state: DiskStateModel, alias: Seq<char>, now: Moment) -> Seq<char> {
    match find_first(state.claims, covers_board(alias)) {
        Some(claim) => claim.user + " ("@ + kind_phrase(claim.exclusive) + "), "@ + time_left(
            claim.timeout,
            now,
        ) + " left"@,
        None => "free"@,
    }
}

/// Who has claimed a board; see [`claim_phrase`].
pub fn claim_summary(state: &DiskState, alias: &str, now: Moment) -> (out: String)
    requires
        state@.wf(),
        now.wf(),
    ensures
        out@ == claim_phrase(state@, alias@, now),
{
    let ghost pred = covers_board(alias@);
    for i in 0..state.claims.len()
        invariant
            state@.wf(),
            now.wf(),
            pred == covers_board(alias@),
            forall|j: int| 0 <= j < i ==> !pred(#[trigger] state@.claims[j]),
    {
        let claim = &state.claims[i];
        if claim.covers_alias(alias) {
            proof {
                lemma_first_where_is(state@.claims, pred, i as int);
                assert(state@.claims[i as int].wf());
            }
            let mut out = claim.user.clone();
            out.append(" (");
            out.append(kind_text(claim.exclusive).as_str());
            out.append("), ");
            out.append(format_timeout_at(claim.timeout, now).as_str());
            out.append(" left");
            return out;
        }
    }
    proof {
        lemma_first_where_is(state@.claims, pred, state@.claims.len() as int);
    }
    "free".to_string()
}

/// The width of the column `c`: that of its widest cell.
pub open spec fn column_width(rows: Seq<Seq<Seq<char>>>, c: int) -> nat
    decreases rows.len(),
{
    if rows.len() == 0 {
        0
    } else {
        let before = column_width(rows.drop_last(), c);
        let row = rows.last();
        if c < row.len() && row[c].len() > before {
            row[c].len()
        } else {
            before
        }
    }
}

/// A row with its cells as wide as the columns of `rows`, but for the last, which is not padded.
pub open spec fn row_line(row: Seq<Seq<char>>, rows: Seq<Seq<Seq<char>>>) -> Seq<char> {
    join(
        Seq::new(
            row.len(),
            |c: int|
                if c == row.len() - 1 {
                    row[c]
                } else {
                    padded(row[c], column_width(rows, c) as int)
                },
        ),
        "  "@,
    )
}

pub open spec fn to_row_line(rows: Seq<Seq<Seq<char>>>) -> spec_fn(Seq<Seq<char>>) -> Seq<char> {
    |row: Seq<Seq<char>>| row_line(row, rows)
}

/// Rows as left-aligned columns, each as wide as its widest cell.
pub open spec fn table(rows: Seq<Seq<Seq<char>>>) -> Seq<Seq<char>> {
    rows.map_values(to_row_line(rows))
}

/// A row of a table.
#[derive(Debug, PartialEq, Eq)]
pub struct Row {
    pub cells: Vec<String>,
}

impl View for Row {
    type V = Seq<Seq<char>>;

    open spec fn view(&self) -> Seq<Seq<char>> {
        views(self.cells@)
    }
}

fn width_of_column(rows: &[Row], c: usize) -> (widest: usize)
    ensures
        widest == column_width(views(rows@), c as int),
{
    let ghost all = views(rows@);
    let mut widest: usize = 0;
    assert(all.take(0) =~= Seq::empty());
    for i in 0..rows.len()
        invariant
            all == views(rows@),
            widest == column_width(all.take(i as int), c as int),
    {
        proof {
            lemma_take_next(all, i as int);
            assert(all[i as int].len() == rows@[i as int].cells@.len());
        }
        if c < rows[i].cells.len() {
            assert(all[i as int][c as int] == rows@[i as int].cells@[c as int]@);
            let wide: usize = width(rows[i].cells[c].as_str());
            if wide > widest {
                widest = wide;
            }
        }
    }
    proof {
        lemma_take_all(all);
    }
    widest
}

fn render_row(row: &Row, rows: &[Row]) -> (line: String)
    ensures
        line@ == row_line(row@, views(rows@)),
{
    let ghost cells = row@;
    let ghost all = views(rows@);
    let ghost shown = Seq::new(
        cells.len(),
        |c: int|
            if c == cells.len() - 1 {
                cells[c]
            } else {
                padded(cells[c], column_width(all, c) as int)
            },
    );
    let total: usize = row.cells.len();
    let mut parts: Vec<String> = Vec::new();
    assert(views(parts@) =~= shown.take(0));
    for c in 0..total
        invariant
            cells == row@,
            all == views(rows@),
            total == row.cells@.len(),
            shown == Seq::new(
                cells.len(),
                |c: int|
                    if c == cells.len() - 1 {
                        cells[c]
                    } else {
                        padded(cells[c], column_width(all, c) as int)
                    },
            ),
            views(parts@) == shown.take(c as int),
    {
        let cell = row.cells[c].as_str();
        let part = if c == total - 1 {
            cell.to_string()
        } else {
            padded_text(cell, width_of_column(rows, c))
        };
        proof {
            lemma_take_next(shown, c as int);
            lemma_views_push(parts@, part);
        }
        parts.push(part);
    }
    proof {
        lemma_take_all(shown);
    }
    joined(&parts, "  ")
}

/// Rows as left-aligned columns; see [`table`]. The first row is the header.
pub fn table_lines(rows: &[Row]) -> (lines: Vec<String>)
    ensures
        views(lines@) == table(views(rows@)),
{
    let ghost all = views(rows@);
    let ghost f = to_row_line(all);
    let mut lines: Vec<String> = Vec::new();
    assert(views(lines@) =~= all.take(0).map_values(f));
    for i in 0..rows.len()
        invariant
            all == views(rows@),
            f == to_row_line(all),
            views(lines@) == all.take(i as int).map_values(f),
    {
        let line = render_row(&rows[i], rows);
        proof {
            lemma_map_next(all, i as int, f);
            lemma_views_push(lines@, line);
        }
        lines.push(line);
    }
    proof {
        lemma_take_all(all);
    }
    lines
}

pub open spec fn board_at(bdf: Seq<char>) -> spec_fn(DiscoveredModel) -> bool {
    |board: DiscoveredModel| board.bdf == bdf
}

/// What is on the PCI bus at the address of a board.
pub open spec fn found_at(discovered: Seq<DiscoveredModel>, bdf: Seq<char>) -> Option<
    DiscoveredModel,
> {
    find_first(discovered, board_at(bdf))
}

fn find_board<'a>(discovered: &'a [DiscoveredFpga], bdf: &str) -> (found: Option<&'a DiscoveredFpga>)
    ensures
        opt_view(found) == found_at(views(discovered@), bdf@),
{
    let ghost pred = board_at(bdf@);
    for i in 0..discovered.len()
        invariant
            pred == board_at(bdf@),
            forall|j: int| 0 <= j < i ==> !pred(#[trigger] views(discovered@)[j]),
    {
        if same_text(discovered[i].bdf.as_str(), bdf) {
            proof {
                lemma_first_where_is(views(discovered@), pred, i as int);
            }
            return Some(&discovered[i]);
        }
    }
    proof {
        lemma_first_where_is(views(discovered@), pred, discovered@.len() as int);
    }
    None
}

/// The row of `status` about one board.
pub open spec fn to_board_row(state: DiskStateModel, sight: SightModel) -> spec_fn(
    FpgaSpecModel,
) -> Seq<Seq<char>> {
    |spec: FpgaSpecModel|
        seq![
            spec.alias,
            spec.bdf,
            match found_at(sight.discovered, spec.bdf) {
                Some(found) => text_or(found.driver, "-"@),
                None => "-"@,
            },
            claim_phrase(state, spec.alias, sight.now),
            enforcement_phrase(state, spec, sight),
        ]
}

pub open spec fn board_header() -> Seq<Seq<char>> {
    seq!["Resource"@, "PCI address"@, "Driver"@, "Claim"@, "Enforcement"@]
}

/// The part of `status` about the boards.
pub open spec fn boards_report(state: DiskStateModel, sight: SightModel) -> Seq<Seq<char>> {
    if state.settings.fpgas.len() == 0 {
        if sight.discovered.len() == 0 {
            Seq::empty()
        } else {
            seq![
                "No FPGAs registered yet, but "@ + decimal(sight.discovered.len())
                    + " FPGA-like PCI device(s) are present."@,
                "Run `sudo "@ + sight.prog + " discover --write` to register them.\n"@,
            ]
        }
    } else {
        (seq!["FPGAs:"@] + table(
            seq![board_header()] + state.settings.fpgas.map_values(to_board_row(state, sight)),
        )).push(Seq::empty())
    }
}

fn board_row(state: &DiskState, spec: &FpgaSpec, sight: &Sight) -> (row: Row)
    requires
        state@.wf(),
        sight.now.wf(),
    ensures
        row@ == to_board_row(state@, sight@)(spec@),
{
    let driver = match find_board(&sight.discovered, spec.bdf.as_str()) {
        Some(found) => text_or_else(&found.driver, "-"),
        None => "-".to_string(),
    };
    let mut cells: Vec<String> = Vec::new();
    cells.push(spec.alias.clone());
    cells.push(spec.bdf.clone());
    cells.push(driver);
    cells.push(claim_summary(state, spec.alias.as_str(), sight.now));
    cells.push(enforcement_summary(state, spec, sight));
    let row = Row { cells };
    assert(row@ =~= to_board_row(state@, sight@)(spec@));
    row
}

/// The part of `status` about the boards; see [`boards_report`].
pub fn show_fpgas(state: &DiskState, sight: &Sight) -> (lines: Vec<String>)
    requires
        state@.wf(),
        sight.now.wf(),
    ensures
        views(lines@) == boards_report(state@, sight@),
{
    let mut lines: Vec<String> = Vec::new();
    proof {
        assert(state@.settings.fpgas.len() == state.settings.fpgas@.len());
        assert(sight@.discovered.len() == sight.discovered@.len());
    }
    if state.settings.fpgas.len() == 0 {
        if sight.discovered.len() > 0 {
            let mut line = "No FPGAs registered yet, but ".to_string();
            line.append(decimal_text(sight.discovered.len() as u64).as_str());
            line.append(" FPGA-like PCI device(s) are present.");
            lines.push(line);
            let mut hint = "Run `sudo ".to_string();
            hint.append(sight.prog.as_str());
            hint.append(" discover --write` to register them.\n");
            lines.push(hint);
        }
        assert(views(lines@) =~= boards_report(state@, sight@));
        return lines;
    }
    let mut header: Vec<String> = Vec::new();
    header.push("Resource".to_string());
    header.push("PCI address".to_string());
    header.push("Driver".to_string());
    header.push("Claim".to_string());
    header.push("Enforcement".to_string());
    let mut rows: Vec<Row> = Vec::new();
    rows.push(Row { cells: header });
    let ghost f = to_board_row(state@, sight@);
    let ghost all = state@.settings.fpgas;
    let ghost first = seq![board_header()];
    proof {
        assert(views(header@) =~= board_header());
        assert(views(rows@) =~= first + all.take(0).map_values(f));
    }
    for i in 0..state.settings.fpgas.len()
        invariant
            state@.wf(),
            sight.now.wf(),
            f == to_board_row(state@, sight@),
            all == state@.settings.fpgas,
            views(rows@) == first + all.take(i as int).map_values(f),
    {
        let row = board_row(state, &state.settings.fpgas[i], sight);
        proof {
            lemma_map_next(all, i as int, f);
            lemma_views_push(rows@, row);
            let before = all.take(i as int).map_values(f);
            assert((first + before).push(row@) =~= first + before.push(row@));
        }
        rows.push(row);
    }
    proof {
        lemma_take_all(all);
    }
    lines.push("FPGAs:".to_string());
    let mut body = table_lines(&rows);
    proof {
        assert(views(lines@) =~= seq!["FPGAs:"@]);
        lemma_views_add(lines@, body@);
    }
    lines.append(&mut body);
    let blank = String::new();
    proof {
        lemma_views_push(lines@, blank);
        assert(blank@ =~= Seq::empty());
    }
    lines.push(blank);
    lines
}

/// What is left of a claim: until its soft timeout if it has one.
pub open spec fn remaining_phrase(claim: ClaimModel, now: Moment) -> Seq<char> {
    match claim.soft_timeout {
        Some(soft) => time_left(soft, now) + " (soft)"@,
        None => time_left(claim.timeout, now),
    }
}

pub open spec fn to_claim_row(now: Moment) -> spec_fn(ClaimModel) -> Seq<Seq<char>> {
    |claim: ClaimModel|
        seq![
            remaining_phrase(claim, now),
            claim.user,
            resource_names(claim.resources),
            if claim.exclusive {
                "(exclusive) "@ + claim.comment
            } else {
                claim.comment
            },
        ]
}

pub open spec fn claim_header() -> Seq<Seq<char>> {
    seq!["Remaining"@, "User"@, "Resources"@, "Comment"@]
}

pub open spec fn is_mounted_in(mounts: Seq<char>) -> spec_fn(Seq<char>) -> bool {
    |file: Seq<char>| is_mount_point(mounts, file)
}

/// The part of `status` about a hog.
pub open spec fn hog_report(state: DiskStateModel, sight: SightModel) -> Seq<Seq<char>> {
    if state.overmounts.len() == 0 {
        Seq::empty()
    } else {
        let message = match state.hogger {
            Some(claim) => seq![hogged_message(claim, sight.now)],
            None => Seq::empty(),
        };
        let active = state.overmounts.filter(is_mounted_in(sight.mounts)).len();
        seq![Seq::empty()] + message + seq![
            decimal(state.overmounts.len()) + " keys were disabled to hog, "@ + decimal(active)
                + " keys are still disabled"@,
            Seq::empty(),
        ]
    }
}

/// What `status` shows.
pub open spec fn status_report(state: DiskStateModel, sight: SightModel) -> Seq<Seq<char>> {
    hog_report(state, sight) + boards_report(state, sight) + seq!["Active claims:"@] + table(
        seq![claim_header()] + state.claims.map_values(to_claim_row(sight.now)),
    )
}

fn claim_row(claim: &Claim, now: Moment) -> (row: Row)
    requires
        claim@.wf(),
        now.wf(),
    ensures
        row@ == to_claim_row(now)(claim@),
{
    let remaining = match claim.soft_timeout {
        Some(soft) => {
            let mut out = format_timeout_at(soft, now);
            out.append(" (soft)");
            out
        },
        None => format_timeout_at(claim.timeout, now),
    };
    let comment = if claim.exclusive {
        let mut out = "(exclusive) ".to_string();
        out.append(claim.comment.as_str());
        out
    } else {
        claim.comment.clone()
    };
    let mut cells: Vec<String> = Vec::new();
    cells.push(remaining);
    cells.push(claim.user.clone());
    cells.push(claim.resources_str());
    cells.push(comment);
    let row = Row { cells };
    assert(row@ =~= to_claim_row(now)(claim@));
    row
}

fn count_mounted(files: &[String], mounts: &str) -> (count: usize)
    ensures
        count == views(files@).filter(is_mounted_in(mounts@)).len(),
{
    let ghost pred = is_mounted_in(mounts@);
    let ghost all = views(files@);
    let mut count: usize = 0;
    proof {
        reveal(Seq::filter);
        assert(all.take(0).filter(pred) =~= Seq::empty());
    }
    for i in 0..files.len()
        invariant
            pred == is_mounted_in(mounts@),
            all == views(files@),
            count <= i,
            count == all.take(i as int).filter(pred).len(),
    {
        proof {
            lemma_filter_next(all, i as int, pred);
        }
        if is_overmounted(mounts, files[i].as_str()) {
            count = count + 1;
        }
    }
    proof {
        lemma_take_all(all);
    }
    count
}

fn show_hog(state: &DiskState, sight: &Sight) -> (lines: Vec<String>)
    requires
        state@.wf(),
        sight.now.wf(),
    ensures
        views(lines@) == hog_report(state@, sight@),
{
    let mut lines: Vec<String> = Vec::new();
    assert(state@.overmounts.len() == state.overmounts@.len());
    if state.overmounts.len() > 0 {
        lines.push(String::new());
        if let Some(claim) = &state.hogger {
            lines.push(ssh_hogged_message_at(claim, sight.now));
        }
        let mut line = decimal_text(state.overmounts.len() as u64);
        line.append(" keys were disabled to hog, ");
        line.append(
            decimal_text(count_mounted(&state.overmounts, sight.mounts.as_str()) as u64).as_str(),
        );
        line.append(" keys are still disabled");
        lines.push(line);
        lines.push(String::new());
    }
    assert(views(lines@) =~~= hog_report(state@, sight@));
    lines
}

/// What `status` shows; see [`status_report`].
pub fn show_status(state: &DiskState, sight: &Sight) -> (lines: Vec<String>)
    requires
        state@.wf(),
        sight.now.wf(),
    ensures
        views(lines@) == status_report(state@, sight@),
{
    let mut lines = show_hog(state, sight);
    let mut boards = show_fpgas(state, sight);
    proof {
        lemma_views_add(lines@, boards@);
    }
    lines.append(&mut boards);
    let title = "Active claims:".to_string();
    proof {
        lemma_views_push(lines@, title);
        assert(views(lines@).push(title@) =~= views(lines@) + seq!["Active claims:"@]);
    }
    lines.push(title);
    let mut header: Vec<String> = Vec::new();
    header.push("Remaining".to_string());
    header.push("User".to_string());
    header.push("Resources".to_string());
    header.push("Comment".to_string());
    let mut rows: Vec<Row> = Vec::new();
    rows.push(Row { cells: header });
    let ghost f = to_claim_row(sight@.now);
    let ghost all = state@.claims;
    let ghost first = seq![claim_header()];
    proof {
        assert(views(header@) =~= claim_header());
        assert(views(rows@) =~= first + all.take(0).map_values(f));
    }
    for i in 0..state.claims.len()
        invariant
            state@.wf(),
            sight.now.wf(),
            f == to_claim_row(sight@.now),
            all == state@.claims,
            views(rows@) == first + all.take(i as int).map_values(f),
    {
        assert(state@.claims[i as int].wf());
        let row = claim_row(&state.claims[i], sight.now);
        proof {
            lemma_map_next(all, i as int, f);
            lemma_views_push(rows@, row);
            let before = all.take(i as int).map_values(f);
            assert((first + before).push(row@) =~= first + before.push(row@));
        }
        rows.push(row);
    }
    proof {
        lemma_take_all(all);
    }
    let mut body = table_lines(&rows);
    proof {
        lemma_views_add(lines@, body@);
    }
    lines.append(&mut body);
    lines
}

/// A board under an exclusive claim that does not really hold each of its device files never reads
/// as locked: it says that enforcement failed.
pub proof fn law_missing_protection_is_said(
    state: DiskStateModel,
    spec: FpgaSpecModel,
    files: Seq<FileInfoModel>,
    d: int,
)
    requires
        some_item(state.claims, holds_exclusively(spec.alias)),
        0 <= d < spec.devices.len(),
        !is_held_by(state.device_locks.filter(lock_of(spec.alias)), files)(spec.devices[d]),
    ensures
        starts_with(device_phrase(state, spec, files), "ENFORCEMENT FAILED: "@),
{
    let pred = is_held_by(state.device_locks.filter(lock_of(spec.alias)), files);
    assert(!every_item(spec.devices, pred));
    lemma_filter_shorter(spec.devices, pred);
    let start = "ENFORCEMENT FAILED: "@;
    assert(device_phrase(state, spec, files).take(start.len() as int) =~= start);
}

pub open spec fn to_device_line(files: Seq<FileInfoModel>) -> spec_fn(Seq<char>) -> Seq<char> {
    |path: Seq<char>|
        "  device       "@ + path + if is_missing(files)(path) {
            "  (MISSING)"@
        } else {
            Seq::empty()
        }
}

/// What `list` says of a serial that is not valid; `shown` is the serial in quotes.
pub open spec fn invalid_cable_message(shown: Seq<char>) -> Seq<char> {
    "  cable        "@ + shown + "  (INVALID SERIAL)"@
}

/// What `list` says of a serial that is not valid, which is `shown` in quotes.
pub fn invalid_cable_line(shown: &str) -> (line: String)
    ensures
        line@ == invalid_cable_message(shown@),
{
    let mut line = "  cable        ".to_string();
    line.append(shown);
    line.append("  (INVALID SERIAL)");
    line
}

/// The lines of `list` about one cable.
pub open spec fn to_cable_lines(duplicates: Seq<Seq<char>>, scene: SceneModel) -> spec_fn(
    Seq<char>,
) -> Seq<Seq<char>> {
    |serial: Seq<char>|
        if duplicates.contains(serial) {
            seq![
                "  cable        "@ + serial
                    + "  (DUPLICATE SERIAL: listed by more than one board)"@,
            ]
        } else if !is_valid_serial(serial) {
            seq![invalid_cable_message(quoted(serial))]
        } else {
            match cable_found(scene.usb, scene.dev, serial) {
                Ok(Some(found)) => seq![
                    "  cable        "@ + found.serial + " "@ + found.product,
                    "    jtag       "@ + found.jtag,
                    "    consoles   "@ + if found.consoles.len() == 0 {
                        "-"@
                    } else {
                        join(found.consoles, " "@)
                    },
                ],
                Ok(None) => seq!["  cable        "@ + serial + "  (ABSENT)"@],
                Err(why) => seq!["  cable        "@ + serial + "  ("@ + why + ")"@],
            }
        }
}

/// What `list` says of what is on the PCI bus at a board's address.
pub open spec fn slot_lines(spec: FpgaSpecModel, found: Option<DiscoveredModel>) -> Seq<Seq<char>> {
    match found {
        Some(found) => seq![
            "  driver       "@ + text_or(found.driver, "(none bound)"@),
            "  numa node    "@ + text_or(found.numa_node, "?"@),
        ] + if found.pci_id != spec.pci_id && spec.pci_id.len() > 0 {
            seq!["  WARNING      the card at this address now reports "@ + found.pci_id]
        } else {
            Seq::empty()
        },
        None => seq!["  driver       MISSING: no PCI device at this address"@],
    }
}

pub open spec fn device_lines(spec: FpgaSpecModel, files: Seq<FileInfoModel>) -> Seq<Seq<char>> {
    if spec.devices.len() == 0 {
        seq!["  devices      (none configured: claims cannot be enforced)"@]
    } else {
        spec.devices.map_values(to_device_line(files))
    }
}

/// What `list` says of one board.
pub open spec fn to_board_lines(state: DiskStateModel, sight: SightModel) -> spec_fn(
    FpgaSpecModel,
) -> Seq<Seq<char>> {
    |spec: FpgaSpecModel|
        seq![spec.alias, "  pci address  "@ + spec.bdf, "  pci id       "@ + spec.pci_id]
            + slot_lines(spec, found_at(sight.discovered, spec.bdf)) + device_lines(
            spec,
            sight.scene.files,
        ) + concat_all(
            spec.cables.map_values(
                to_cable_lines(repeats(all_serials(state.settings.fpgas)), sight.scene),
            ),
        ) + seq![
            "  claim        "@ + claim_phrase(state, spec.alias, sight.now),
            "  enforcement  "@ + enforcement_phrase(state, spec, sight),
            Seq::empty(),
        ]
}

pub open spec fn is_unregistered(settings: SettingsModel) -> spec_fn(DiscoveredModel) -> bool {
    |board: DiscoveredModel| !some_item(settings.fpgas, crate::inventory::at_bdf(board.bdf))
}

pub open spec fn to_unregistered_line() -> spec_fn(DiscoveredModel) -> Seq<char> {
    |board: DiscoveredModel|
        "  "@ + board.bdf + "  "@ + board.pci_id + "  driver="@ + text_or(board.driver, "-"@)
}

pub open spec fn unregistered_report(settings: SettingsModel, sight: SightModel) -> Seq<Seq<char>> {
    let boards = sight.discovered.filter(is_unregistered(settings));
    if boards.len() == 0 {
        Seq::empty()
    } else {
        (seq!["Unregistered FPGA-like PCI devices:"@] + boards.map_values(
            to_unregistered_line(),
        )).push("Run `sudo "@ + sight.prog + " discover --write` to register them."@)
    }
}

/// What `list` shows.
pub open spec fn list_report(state: DiskStateModel, sight: SightModel) -> Seq<Seq<char>> {
    let none = if state.settings.fpgas.len() == 0 {
        seq!["No FPGAs registered on this host."@]
    } else {
        Seq::empty()
    };
    none + concat_all(state.settings.fpgas.map_values(to_board_lines(state, sight)))
        + unregistered_report(state.settings, sight)
}

fn show_slot(spec: &FpgaSpec, found: Option<&DiscoveredFpga>) -> (lines: Vec<String>)
    ensures
        views(lines@) == slot_lines(spec@, opt_view(found)),
{
    let mut lines: Vec<String> = Vec::new();
    match found {
        Some(found) => {
            let mut driver = "  driver       ".to_string();
            driver.append(text_or_else(&found.driver, "(none bound)").as_str());
            lines.push(driver);
            let mut node = "  numa node    ".to_string();
            node.append(text_or_else(&found.numa_node, "?").as_str());
            lines.push(node);
            if !same_text(found.pci_id.as_str(), spec.pci_id.as_str())
                && !spec.pci_id.as_str().is_empty() {
                let mut warning =
                    "  WARNING      the card at this address now reports ".to_string();
                warning.append(found.pci_id.as_str());
                lines.push(warning);
            }
        },
        None => {
            lines.push("  driver       MISSING: no PCI device at this address".to_string());
        },
    }
    assert(views(lines@) =~= slot_lines(spec@, opt_view(found)));
    lines
}

fn show_devices(spec: &FpgaSpec, files: &[FileInfo]) -> (lines: Vec<String>)
    ensures
        views(lines@) == device_lines(spec@, views(files@)),
{
    let mut lines: Vec<String> = Vec::new();
    assert(spec@.devices.len() == spec.devices@.len());
    if spec.devices.len() == 0 {
        lines.push("  devices      (none configured: claims cannot be enforced)".to_string());
        assert(views(lines@) =~= device_lines(spec@, views(files@)));
        return lines;
    }
    let ghost f = to_device_line(views(files@));
    let ghost all = spec@.devices;
    assert(views(lines@) =~= all.take(0).map_values(f));
    for i in 0..spec.devices.len()
        invariant
            f == to_device_line(views(files@)),
            all == spec@.devices,
            views(lines@) == all.take(i as int).map_values(f),
    {
        let mut line = "  device       ".to_string();
        line.append(spec.devices[i].as_str());
        if look_up_file(files, spec.devices[i].as_str()).is_err() {
            line.append("  (MISSING)");
        }
        proof {
            assert(line@ =~= f(all[i as int]));
            lemma_map_next(all, i as int, f);
            lemma_views_push(lines@, line);
        }
        lines.push(line);
    }
    proof {
        lemma_take_all(all);
    }
    lines
}

fn show_cable(serial: &str, duplicates: &[String], scene: &Scene) -> (lines: Vec<String>)
    ensures
        views(lines@) == to_cable_lines(views(duplicates@), scene@)(serial@),
{
    let mut lines: Vec<String> = Vec::new();
    let mut line = "  cable        ".to_string();
    if is_among(serial, duplicates) {
        line.append(serial);
        line.append("  (DUPLICATE SERIAL: listed by more than one board)");
        lines.push(line);
    } else if !valid_serial(serial) {
        let shown = quoted_text(serial);
        lines.push(invalid_cable_line(shown.as_str()));
    } else {
        match find(&scene.usb, scene.dev.as_str(), serial) {
            Ok(Some(found)) => {
                line.append(found.serial.as_str());
                line.append(" ");
                line.append(found.product.as_str());
                lines.push(line);
                let mut jtag = "    jtag       ".to_string();
                jtag.append(found.jtag.as_str());
                lines.push(jtag);
                let mut consoles = "    consoles   ".to_string();
                assert(found@.consoles.len() == found.consoles@.len());
                if found.consoles.len() == 0 {
                    consoles.append("-");
                } else {
                    consoles.append(joined(&found.consoles, " ").as_str());
                }
                lines.push(consoles);
            },
            Ok(None) => {
                line.append(serial);
                line.append("  (ABSENT)");
                lines.push(line);
            },
            Err(why) => {
                line.append(serial);
                line.append("  (");
                line.append(why.as_str());
                line.append(")");
                lines.push(line);
            },
        }
    }
    assert(views(lines@) =~= to_cable_lines(views(duplicates@), scene@)(serial@));
    lines
}

fn show_board(state: &DiskState, spec: &FpgaSpec, sight: &Sight) -> (lines: Vec<String>)
    requires
        state@.wf(),
        sight.now.wf(),
    ensures
        views(lines@) == to_board_lines(state@, sight@)(spec@),
{
    let mut lines: Vec<String> = Vec::new();
    lines.push(spec.alias.clone());
    let mut bdf = "  pci address  ".to_string();
    bdf.append(spec.bdf.as_str());
    lines.push(bdf);
    let mut pci_id = "  pci id       ".to_string();
    pci_id.append(spec.pci_id.as_str());
    lines.push(pci_id);
    let ghost head = views(lines@);
    assert(head =~= seq![spec@.alias, "  pci address  "@ + spec@.bdf, "  pci id       "@
        + spec@.pci_id]);
    let mut slot = show_slot(spec, find_board(&sight.discovered, spec.bdf.as_str()));
    let ghost slot_views = views(slot@);
    proof {
        lemma_views_add(lines@, slot@);
    }
    lines.append(&mut slot);
    let mut devices = show_devices(spec, &sight.scene.files);
    let ghost device_views = views(devices@);
    proof {
        lemma_views_add(lines@, devices@);
    }
    lines.append(&mut devices);
    let duplicates = duplicate_serials(&state.settings.fpgas);
    let ghost f = to_cable_lines(views(duplicates@), sight@.scene);
    let ghost all = spec@.cables;
    let ghost sofar = views(lines@);
    proof {
        assert(all.take(0).map_values(f) =~= Seq::empty());
        assert(sofar + concat_all(all.take(0).map_values(f)) =~= sofar);
    }
    for i in 0..spec.cables.len()
        invariant
            f == to_cable_lines(views(duplicates@), sight@.scene),
            all == spec@.cables,
            views(lines@) == sofar + concat_all(all.take(i as int).map_values(f)),
    {
        let mut more = show_cable(spec.cables[i].as_str(), &duplicates, &sight.scene);
        proof {
            lemma_concat_next(all, i as int, f);
            lemma_views_add(lines@, more@);
            let before = concat_all(all.take(i as int).map_values(f));
            assert((sofar + before) + views(more@) =~= sofar + (before + views(more@)));
        }
        lines.append(&mut more);
    }
    proof {
        lemma_take_all(all);
    }
    let ghost cabled = views(lines@);
    let mut tail: Vec<String> = Vec::new();
    let mut claim = "  claim        ".to_string();
    claim.append(claim_summary(state, spec.alias.as_str(), sight.now).as_str());
    tail.push(claim);
    let mut enforcement = "  enforcement  ".to_string();
    enforcement.append(enforcement_summary(state, spec, sight).as_str());
    tail.push(enforcement);
    tail.push(String::new());
    proof {
        assert(views(tail@) =~= seq![
            "  claim        "@ + claim_phrase(state@, spec@.alias, sight@.now),
            "  enforcement  "@ + enforcement_phrase(state@, spec@, sight@),
            Seq::empty(),
        ]);
        lemma_views_add(lines@, tail@);
    }
    lines.append(&mut tail);
    lines
}

fn show_unregistered(state: &DiskState, sight: &Sight) -> (lines: Vec<String>)
    ensures
        views(lines@) == unregistered_report(state@.settings, sight@),
{
    let ghost pred = is_unregistered(state@.settings);
    let ghost f = to_unregistered_line();
    let ghost all = sight@.discovered;
    let mut found: Vec<String> = Vec::new();
    proof {
        reveal(Seq::filter);
        assert(views(found@) =~= all.take(0).filter(pred).map_values(f));
    }
    for i in 0..sight.discovered.len()
        invariant
            pred == is_unregistered(state@.settings),
            f == to_unregistered_line(),
            all == sight@.discovered,
            views(found@) == all.take(i as int).filter(pred).map_values(f),
    {
        let board = &sight.discovered[i];
        proof {
            lemma_filter_next(all, i as int, pred);
        }
        if !is_registered(state, board.bdf.as_str()) {
            let mut line = "  ".to_string();
            line.append(board.bdf.as_str());
            line.append("  ");
            line.append(board.pci_id.as_str());
            line.append("  driver=");
            line.append(text_or_else(&board.driver, "-").as_str());
            proof {
                let kept = all.take(i as int).filter(pred);
                assert(kept.push(board@).map_values(f) =~= kept.map_values(f).push(line@));
                lemma_views_push(found@, line);
            }
            found.push(line);
        }
    }
    proof {
        lemma_take_all(all);
        assert(views(found@).len() == found@.len());
    }
    let mut lines: Vec<String> = Vec::new();
    if found.len() == 0 {
        assert(views(lines@) =~= Seq::empty());
        return lines;
    }
    lines.push("Unregistered FPGA-like PCI devices:".to_string());
    let ghost first = views(lines@);
    let ghost middle = views(found@);
    proof {
        assert(first =~= seq!["Unregistered FPGA-like PCI devices:"@]);
        lemma_views_add(lines@, found@);
    }
    lines.append(&mut found);
    let mut hint = "Run `sudo ".to_string();
    hint.append(sight.prog.as_str());
    hint.append(" discover --write` to register them.");
    proof {
        lemma_views_push(lines@, hint);
    }
    lines.push(hint);
    lines
}

fn is_registered(state: &DiskState, bdf: &str) -> (yes: bool)
    ensures
        yes == some_item(state@.settings.fpgas, crate::inventory::at_bdf(bdf@)),
{
    let ghost pred = crate::inventory::at_bdf(bdf@);
    let ghost all = state@.settings.fpgas;
    for i in 0..state.settings.fpgas.len()
        invariant
            pred == crate::inventory::at_bdf(bdf@),
            all == state@.settings.fpgas,
            forall|j: int| 0 <= j < i ==> !pred(#[trigger] all[j]),
    {
        if same_text(state.settings.fpgas[i].bdf.as_str(), bdf) {
            assert(pred(all[i as int]));
            return true;
        }
    }
    false
}

/// What `list` shows; see [`list_report`].
pub fn do_list(state: &DiskState, sight: &Sight) -> (lines: Vec<String>)
    requires
        state@.wf(),
        sight.now.wf(),
    ensures
        views(lines@) == list_report(state@, sight@),
{
    let mut lines: Vec<String> = Vec::new();
    assert(state@.settings.fpgas.len() == state.settings.fpgas@.len());
    if state.settings.fpgas.len() == 0 {
        lines.push("No FPGAs registered on this host.".to_string());
        assert(views(lines@) =~= seq!["No FPGAs registered on this host."@]);
    } else {
        assert(views(lines@) =~= Seq::empty());
    }
    let ghost first = views(lines@);
    let ghost f = to_board_lines(state@, sight@);
    let ghost all = state@.settings.fpgas;
    proof {
        assert(all.take(0).map_values(f) =~= Seq::empty());
        assert(first + concat_all(all.take(0).map_values(f)) =~= first);
    }
    for i in 0..state.settings.fpgas.len()
        invariant
            state@.wf(),
            sight.now.wf(),
            f == to_board_lines(state@, sight@),
            all == state@.settings.fpgas,
            views(lines@) == first + concat_all(all.take(i as int).map_values(f)),
    {
        let mut more = show_board(state, &state.settings.fpgas[i], sight);
        proof {
            lemma_concat_next(all, i as int, f);
            lemma_views_add(lines@, more@);
            let before = concat_all(all.take(i as int).map_values(f));
            assert((first + before) + views(more@) =~= first + (before + views(more@)));
        }
        lines.append(&mut more);
    }
    proof {
        lemma_take_all(all);
    }
    let mut rest = show_unregistered(state, sight);
    proof {
        lemma_views_add(lines@, rest@);
    }
    lines.append(&mut rest);
    lines
}

} // verus!
