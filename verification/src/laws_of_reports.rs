//! What holds of reports: nothing that should be shown is left out.
use vstd::prelude::*;
use crate::claims::kind_phrase;
use crate::clock::Moment;
use crate::diskstate::{resource_names, ClaimModel, DiskStateModel, FpgaSpecModel, ResourceModel};
use crate::fpga::{file_found, lock_of, FileInfoModel};
use crate::laws_of_hogs::law_joined_parts_are_all_there;
use crate::laws_of_locks::has_passage;
use crate::report::{
    board_header, boards_report, claim_header, claim_phrase, column_width, covers_board,
    device_lines, device_phrase, enforcement_phrase, found_at, hog_report, holds_exclusively,
    is_held_by, is_missing, is_unregistered, list_report, row_line, slot_lines, status_report,
    table, to_board_lines, to_board_row, to_cable_lines, to_claim_row, to_device_line,
    to_unregistered_line, unregistered_report, SightModel,
};
use crate::seqs::{
    concat_all, first_where, lemma_concat_members, lemma_filter_members, lemma_first_where,
    some_item,
};
use crate::text::{decimal, join, padded, text_or};
use crate::util::time_left;

verus! {

pub proof fn lemma_passage_within(text: Seq<char>, part: Seq<char>, piece: Seq<char>)
    requires
        has_passage(text, part),
        has_passage(part, piece),
    ensures
        has_passage(text, piece),
{
    let a = choose|a: int|
        0 <= a <= a + part.len() <= text.len() && #[trigger] text.subrange(a, a + part.len())
            == part;
    let b = choose|b: int|
        0 <= b <= b + piece.len() <= part.len() && #[trigger] part.subrange(b, b + piece.len())
            == piece;
    let start = a + b;
    let inner = text.subrange(a, a + part.len());
    assert(text.subrange(start, start + piece.len()) =~= inner.subrange(b, b + piece.len()));
}

proof fn lemma_passage_of_sum(a: Seq<char>, b: Seq<char>, c: Seq<char>)
    ensures
        has_passage(a + b + c, b),
{
    let all = a + b + c;
    let start = a.len() as int;
    assert(all.subrange(start, start + b.len()) =~= b);
}

/// No cell of a table is cut short or left out.
pub proof fn law_no_cell_is_cut_short(rows: Seq<Seq<Seq<char>>>, r: int, c: int)
    requires
        0 <= r < rows.len(),
        0 <= c < rows[r].len(),
    ensures
        table(rows).len() == rows.len(),
        has_passage(table(rows)[r], rows[r][c]),
{
    let row = rows[r];
    let parts = Seq::new(
        row.len(),
        |c: int|
            if c == row.len() - 1 {
                row[c]
            } else {
                padded(row[c], column_width(rows, c) as int)
            },
    );
    law_joined_parts_are_all_there(parts, "  "@);
    assert(row_line(row, rows) == join(parts, "  "@));
    assert(has_passage(join(parts, "  "@), parts[c]));
    assert(has_passage(parts[c], row[c])) by {
        assert(parts[c].subrange(0, row[c].len() as int) =~= row[c]);
        assert(parts[c].subrange(0int, 0int + row[c].len()) == row[c]);
    }
    lemma_passage_within(row_line(row, rows), parts[c], row[c]);
}

/// Every row of a table is lined up: a column is as wide as the widest cell in it.
pub proof fn law_columns_are_as_wide_as_their_cells(rows: Seq<Seq<Seq<char>>>, c: int)
    ensures
        forall|r: int|
            0 <= r < rows.len() && c < (#[trigger] rows[r]).len() ==> rows[r][c].len()
                <= column_width(rows, c),
        column_width(rows, c) > 0 ==> exists|r: int|
            0 <= r < rows.len() && c < (#[trigger] rows[r]).len() && rows[r][c].len()
                == column_width(rows, c),
    decreases rows.len(),
{
    if rows.len() > 0 {
        let rest = rows.drop_last();
        law_columns_are_as_wide_as_their_cells(rest, c);
        let n = rows.len() - 1;
        assert forall|r: int| 0 <= r < rows.len() && c < (
        #[trigger] rows[r]).len() implies rows[r][c].len() <= column_width(rows, c) by {
            if r < n {
                assert(rest[r] == rows[r]);
            }
        }
        if column_width(rows, c) > 0 {
            if c < rows[n].len() && rows[n][c].len() > column_width(rest, c) {
                assert(rows[n][c].len() == column_width(rows, c));
            } else {
                let r = choose|r: int|
                    0 <= r < rest.len() && c < (#[trigger] rest[r]).len() && rest[r][c].len()
                        == column_width(rest, c);
                assert(rows[r] == rest[r]);
            }
        }
    }
}

/// A line that tells of the claim.
pub open spec fn tells_of_claim(line: Seq<char>, claim: ClaimModel, now: Moment) -> bool {
    &&& has_passage(line, claim.user)
    &&& has_passage(line, resource_names(claim.resources))
    &&& has_passage(line, claim.comment)
    &&& claim.exclusive ==> has_passage(line, "(exclusive) "@)
    &&& match claim.soft_timeout {
        Some(soft) => has_passage(line, time_left(soft, now) + " (soft)"@),
        None => has_passage(line, time_left(claim.timeout, now)),
    }
}

/// The status has a line for every claim.
pub proof fn law_the_status_shows_every_claim(state: DiskStateModel, sight: SightModel, i: int)
    requires
        0 <= i < state.claims.len(),
    ensures
        exists|l: int|
            0 <= l < status_report(state, sight).len() && tells_of_claim(
                #[trigger] status_report(state, sight)[l],
                state.claims[i],
                sight.now,
            ),
{
    let rows = seq![claim_header()] + state.claims.map_values(to_claim_row(sight.now));
    let all = status_report(state, sight);
    let head = hog_report(state, sight) + boards_report(state, sight) + seq!["Active claims:"@];
    let claim = state.claims[i];
    let row = rows[i + 1];
    assert(row == to_claim_row(sight.now)(claim));
    law_no_cell_is_cut_short(rows, i + 1, 0);
    law_no_cell_is_cut_short(rows, i + 1, 1);
    law_no_cell_is_cut_short(rows, i + 1, 2);
    law_no_cell_is_cut_short(rows, i + 1, 3);
    let line = table(rows)[i + 1];
    assert(all[head.len() + i + 1] == line);
    if claim.exclusive {
        let cell = "(exclusive) "@ + claim.comment;
        lemma_passage_of_sum("(exclusive) "@, claim.comment, Seq::empty());
        assert("(exclusive) "@ + claim.comment + Seq::<char>::empty() =~= cell);
        lemma_passage_of_sum(Seq::empty(), "(exclusive) "@, claim.comment);
        assert(Seq::<char>::empty() + "(exclusive) "@ + claim.comment =~= cell);
        lemma_passage_within(line, cell, claim.comment);
        lemma_passage_within(line, cell, "(exclusive) "@);
    }
    assert(tells_of_claim(all[head.len() + i + 1], claim, sight.now));
}

/// A line that tells of the board.
pub open spec fn tells_of_board(
    line: Seq<char>,
    state: DiskStateModel,
    spec: FpgaSpecModel,
    sight: SightModel,
) -> bool {
    &&& has_passage(line, spec.alias)
    &&& has_passage(line, spec.bdf)
    &&& has_passage(line, claim_phrase(state, spec.alias, sight.now))
    &&& has_passage(line, enforcement_phrase(state, spec, sight))
    &&& forall|k: int| #[trigger]
        is_first_found_at(sight, k, spec.bdf) ==> has_passage(
            line,
            text_or(sight.discovered[k].driver, "-"@),
        )
}

/// What was found first at the address.
pub open spec fn is_first_found_at(sight: SightModel, k: int, bdf: Seq<char>) -> bool {
    &&& 0 <= k < sight.discovered.len()
    &&& sight.discovered[k].bdf == bdf
    &&& forall|j: int| 0 <= j < k ==> (#[trigger] sight.discovered[j]).bdf != bdf
}

/// The status has a line for every board.
pub proof fn law_the_status_shows_every_board(state: DiskStateModel, sight: SightModel, b: int)
    requires
        0 <= b < state.settings.fpgas.len(),
    ensures
        exists|l: int|
            0 <= l < status_report(state, sight).len() && tells_of_board(
                #[trigger] status_report(state, sight)[l],
                state,
                state.settings.fpgas[b],
                sight,
            ),
{
    let rows = seq![board_header()] + state.settings.fpgas.map_values(to_board_row(state, sight));
    let all = status_report(state, sight);
    let hogs = hog_report(state, sight);
    let boards = boards_report(state, sight);
    let spec = state.settings.fpgas[b];
    let row = rows[b + 1];
    assert(row == to_board_row(state, sight)(spec));
    law_no_cell_is_cut_short(rows, b + 1, 0);
    law_no_cell_is_cut_short(rows, b + 1, 1);
    law_no_cell_is_cut_short(rows, b + 1, 2);
    law_no_cell_is_cut_short(rows, b + 1, 3);
    law_no_cell_is_cut_short(rows, b + 1, 4);
    let line = table(rows)[b + 1];
    assert forall|k: int| #[trigger] is_first_found_at(sight, k, spec.bdf) implies has_passage(
        line,
        text_or(sight.discovered[k].driver, "-"@),
    ) by {
        let pred = crate::report::board_at(spec.bdf);
        assert forall|j: int| 0 <= j < k implies !pred(#[trigger] sight.discovered[j]) by {}
        crate::seqs::lemma_first_where_is(sight.discovered, pred, k);
        assert(row[2] == text_or(sight.discovered[k].driver, "-"@));
    }
    assert(boards[b + 2] == line);
    assert(all[hogs.len() + b + 2] == line);
    assert(tells_of_board(all[hogs.len() + b + 2], state, spec, sight));
}

/// A board that no claim covers is shown as free, any other with the first claim on it.
pub proof fn law_a_board_is_shown_as_claimed(
    state: DiskStateModel,
    alias: Seq<char>,
    now: Moment,
    c: int,
)
    ensures
        (forall|i: int|
            0 <= i < state.claims.len() ==> !(#[trigger] state.claims[i]).resources.contains(
                ResourceModel::Fpga(alias),
            )) ==> claim_phrase(state, alias, now) == "free"@,
        0 <= c < state.claims.len() && state.claims[c].resources.contains(ResourceModel::Fpga(alias))
            && (forall|i: int|
            0 <= i < c ==> !(#[trigger] state.claims[i]).resources.contains(
                ResourceModel::Fpga(alias),
            )) ==> claim_phrase(state, alias, now) == state.claims[c].user + " ("@ + kind_phrase(
            state.claims[c].exclusive,
        ) + "), "@ + time_left(state.claims[c].timeout, now) + " left"@,
{
    let pred = covers_board(alias);
    let at = first_where(state.claims, pred);
    lemma_first_where(state.claims, pred);
    assert forall|i: int| 0 <= i < state.claims.len() implies pred(#[trigger] state.claims[i])
        == state.claims[i].resources.contains(ResourceModel::Fpga(alias)) by {}
    if at < state.claims.len() {
        assert(pred(state.claims[at]));
    }
}

/// File `d` of the board is locked for the claimant, and the lock stands.
pub open spec fn is_held_file(
    state: DiskStateModel,
    spec: FpgaSpecModel,
    files: Seq<FileInfoModel>,
    d: int,
) -> bool {
    exists|k: int|
        {
            &&& 0 <= k < state.device_locks.len()
            &&& (#[trigger] state.device_locks[k]).alias == spec.alias
            &&& state.device_locks[k].path == spec.devices[d]
            &&& file_found(files, spec.devices[d]) matches Ok(meta)
            &&& meta.uid == state.device_locks[k].claimant_uid
            &&& meta.mode == 0o600
        }
}

/// The board is claimed exclusively.
pub open spec fn is_exclusively_claimed(state: DiskStateModel, alias: Seq<char>) -> bool {
    exists|i: int|
        0 <= i < state.claims.len() && (#[trigger] state.claims[i]).exclusive
            && state.claims[i].resources.contains(ResourceModel::Fpga(alias))
}

/// A claimed board is called locked if every one of its files is, and enforcement is said to have
/// failed if one is not; a board that is not claimed is called unlocked.
pub proof fn law_protection_is_shown_as_it_is(
    state: DiskStateModel,
    spec: FpgaSpecModel,
    files: Seq<FileInfoModel>,
)
    ensures
        ({
            let shown = device_phrase(state, spec, files);
            let total = decimal(spec.devices.len());
            let claimed = is_exclusively_claimed(state, spec.alias);
            let held = forall|d: int|
                0 <= d < spec.devices.len() ==> #[trigger] is_held_file(state, spec, files, d);
            let missing = exists|d: int|
                0 <= d < spec.devices.len() && file_found(files, #[trigger] spec.devices[d]) is Err;
            &&& claimed && held ==> shown == total + "/"@ + total + " locked"@
            &&& claimed && !held ==> exists|n: nat|
                n < spec.devices.len() && has_passage(
                    shown,
                    "ENFORCEMENT FAILED: "@ + #[trigger] decimal(n) + "/"@ + total + " locked"@,
                )
            &&& !claimed && !missing ==> shown == "unlocked"@
            &&& !claimed && missing ==> exists|n: nat|
                0 < n <= spec.devices.len() && shown == "unlocked, "@ + #[trigger] decimal(n)
                    + " of "@ + total + " nodes missing"@
        }),
{
    let shown = device_phrase(state, spec, files);
    let claimed = is_exclusively_claimed(state, spec.alias);
    let pred = holds_exclusively(spec.alias);
    assert(some_item(state.claims, pred) == claimed) by {
        if some_item(state.claims, pred) {
            let i = choose|i: int| 0 <= i < state.claims.len() && pred(#[trigger] state.claims[i]);
            assert(state.claims[i].exclusive);
        }
        if claimed {
            let i = choose|i: int|
                0 <= i < state.claims.len() && (#[trigger] state.claims[i]).exclusive
                    && state.claims[i].resources.contains(ResourceModel::Fpga(spec.alias));
            assert(pred(state.claims[i]));
        }
    }
    let locks = state.device_locks.filter(lock_of(spec.alias));
    lemma_filter_members(state.device_locks, lock_of(spec.alias));
    let is_held = is_held_by(locks, files);
    let held_files = spec.devices.filter(is_held);
    let gone = spec.devices.filter(is_missing(files));
    crate::seqs::lemma_filter_shorter(spec.devices, is_held);
    crate::seqs::lemma_filter_shorter(spec.devices, is_missing(files));
    lemma_filter_members(spec.devices, is_held);
    lemma_filter_members(spec.devices, is_missing(files));
    assert forall|d: int| 0 <= d < spec.devices.len() implies is_held(spec.devices[d])
        == #[trigger] is_held_file(state, spec, files, d) by {
        let path = spec.devices[d];
        let on_path = crate::report::holds_file(path, files);
        if is_held(path) {
            let l = choose|l: int| 0 <= l < locks.len() && on_path(#[trigger] locks[l]);
            assert(locks.contains(locks[l]));
            assert(state.device_locks.contains(locks[l]));
            let k = choose|k: int|
                0 <= k < state.device_locks.len() && state.device_locks[k] == locks[l];
            assert(state.device_locks[k].alias == spec.alias);
        }
        if is_held_file(state, spec, files, d) {
            let k = choose|k: int|
                {
                    &&& 0 <= k < state.device_locks.len()
                    &&& (#[trigger] state.device_locks[k]).alias == spec.alias
                    &&& state.device_locks[k].path == spec.devices[d]
                    &&& file_found(files, spec.devices[d]) matches Ok(meta)
                    &&& meta.uid == state.device_locks[k].claimant_uid
                    &&& meta.mode == 0o600
                };
            assert(state.device_locks.contains(state.device_locks[k]));
            assert(locks.contains(state.device_locks[k]));
            let l = choose|l: int| 0 <= l < locks.len() && locks[l] == state.device_locks[k];
            assert(on_path(locks[l]));
        }
    }
    let held = forall|d: int|
        0 <= d < spec.devices.len() ==> #[trigger] is_held_file(state, spec, files, d);
    let missing = exists|d: int|
        0 <= d < spec.devices.len() && file_found(files, #[trigger] spec.devices[d]) is Err;
    assert(held == (held_files.len() == spec.devices.len())) by {
        if held {
            assert(crate::seqs::every_item(spec.devices, is_held)) by {
                assert forall|d: int| 0 <= d < spec.devices.len() implies is_held(
                    #[trigger] spec.devices[d],
                ) by {
                    assert(is_held_file(state, spec, files, d));
                }
            }
            crate::seqs::lemma_filter_all(spec.devices, is_held);
        } else {
            let d = choose|d: int|
                0 <= d < spec.devices.len() && !#[trigger] is_held_file(state, spec, files, d);
            assert(!is_held(spec.devices[d]));
        }
    }
    assert(missing == (gone.len() > 0)) by {
        if missing {
            let d = choose|d: int|
                0 <= d < spec.devices.len() && file_found(files, #[trigger] spec.devices[d]) is Err;
            assert(spec.devices.contains(spec.devices[d]));
            assert(gone.contains(spec.devices[d]));
        }
        if gone.len() > 0 {
            assert(gone.contains(gone[0]));
            let d = choose|d: int| 0 <= d < spec.devices.len() && spec.devices[d] == gone[0];
            assert(file_found(files, spec.devices[d]) is Err);
        }
    }
    if claimed && !held {
        let n = held_files.len();
        let problem = "ENFORCEMENT FAILED: "@ + decimal(n) + "/"@ + decimal(spec.devices.len())
            + " locked"@;
        assert(shown.subrange(0, problem.len() as int) =~= problem);
        assert(shown.subrange(0int, 0int + problem.len()) == problem);
        assert(has_passage(shown, problem));
    }
    if !claimed && missing {
        assert(shown == "unlocked, "@ + decimal(gone.len()) + " of "@ + decimal(spec.devices.len())
            + " nodes missing"@);
    }
}

/// The list tells every board's address and id, every file and cable of it, and what is said of
/// its claim and its protection.
pub proof fn law_the_list_shows_every_board(
    state: DiskStateModel,
    sight: SightModel,
    b: int,
    line: Seq<char>,
)
    requires
        0 <= b < state.settings.fpgas.len(),
        ({
            let spec = state.settings.fpgas[b];
            ||| line == spec.alias
            ||| line == "  pci address  "@ + spec.bdf
            ||| line == "  pci id       "@ + spec.pci_id
            ||| exists|d: int|
                0 <= d < spec.devices.len() && line == "  device       "@ + #[trigger] spec.devices[d]
                    + if file_found(sight.scene.files, spec.devices[d]) is Err {
                    "  (MISSING)"@
                } else {
                    Seq::empty()
                }
            ||| line == "  claim        "@ + claim_phrase(state, spec.alias, sight.now)
            ||| line == "  enforcement  "@ + enforcement_phrase(state, spec, sight)
        }),
    ensures
        list_report(state, sight).contains(line),
{
    let spec = state.settings.fpgas[b];
    let f = to_board_lines(state, sight);
    let lists = state.settings.fpgas.map_values(f);
    let mine = lists[b];
    let head = seq![spec.alias, "  pci address  "@ + spec.bdf, "  pci id       "@ + spec.pci_id];
    let slot = slot_lines(spec, found_at(sight.discovered, spec.bdf));
    let devices = device_lines(spec, sight.scene.files);
    let cables = concat_all(
        spec.cables.map_values(
            to_cable_lines(
                crate::seqs::repeats(crate::cable::all_serials(state.settings.fpgas)),
                sight.scene,
            ),
        ),
    );
    let tail = seq![
        "  claim        "@ + claim_phrase(state, spec.alias, sight.now),
        "  enforcement  "@ + enforcement_phrase(state, spec, sight),
        Seq::empty(),
    ];
    assert(mine == head + slot + devices + cables + tail);
    let n: int = (head.len() + slot.len()) as int;
    let m: int = n + devices.len() + cables.len();
    assert(mine.contains(line)) by {
        assert(mine[0] == spec.alias);
        assert(mine[1] == "  pci address  "@ + spec.bdf);
        assert(mine[2] == "  pci id       "@ + spec.pci_id);
        assert(mine[m] == tail[0]);
        assert(mine[m + 1] == tail[1]);
        if exists|d: int|
            0 <= d < spec.devices.len() && line == "  device       "@ + #[trigger] spec.devices[d]
                + if file_found(sight.scene.files, spec.devices[d]) is Err {
                "  (MISSING)"@
            } else {
                Seq::empty()
            } {
            let d = choose|d: int|
                0 <= d < spec.devices.len() && line == "  device       "@ + #[trigger] spec.devices[d]
                    + if file_found(sight.scene.files, spec.devices[d]) is Err {
                    "  (MISSING)"@
                } else {
                    Seq::empty()
                };
            assert(devices[d] == to_device_line(sight.scene.files)(spec.devices[d]));
            assert(devices[d] == line);
            assert(mine[n + d] == devices[d]);
        }
    }
    lemma_concat_members(lists);
    let body = concat_all(lists);
    assert(body.contains(line));
    let k = choose|k: int| 0 <= k < body.len() && body[k] == line;
    let all = list_report(state, sight);
    assert(all[k] == line);
}

/// Every board that was found and is not registered is listed.
pub proof fn law_the_list_shows_every_unregistered_board(
    state: DiskStateModel,
    sight: SightModel,
    k: int,
)
    requires
        0 <= k < sight.discovered.len(),
        forall|b: int|
            0 <= b < state.settings.fpgas.len() ==> (#[trigger] state.settings.fpgas[b]).bdf
                != sight.discovered[k].bdf,
    ensures
        list_report(state, sight).contains(
            "  "@ + sight.discovered[k].bdf + "  "@ + sight.discovered[k].pci_id + "  driver="@
                + text_or(sight.discovered[k].driver, "-"@),
        ),
{
    let found = sight.discovered[k];
    let pred = is_unregistered(state.settings);
    let boards = sight.discovered.filter(pred);
    lemma_filter_members(sight.discovered, pred);
    assert(pred(found)) by {
        let at = crate::inventory::at_bdf(found.bdf);
        if some_item(state.settings.fpgas, at) {
            let b = choose|b: int|
                0 <= b < state.settings.fpgas.len() && at(#[trigger] state.settings.fpgas[b]);
            assert(state.settings.fpgas[b].bdf == found.bdf);
        }
    }
    assert(sight.discovered.contains(found));
    assert(boards.contains(found));
    let i = choose|i: int| 0 <= i < boards.len() && boards[i] == found;
    let lines = unregistered_report(state.settings, sight);
    let line = to_unregistered_line()(found);
    assert(lines[i + 1] == line);
    let all = list_report(state, sight);
    assert(all[all.len() - lines.len() + i + 1] == line);
}

/// What the list says of a cable: that it is listed twice, is not valid, is absent or is not the only
/// one with its serial; or else its product, its node and its consoles.
pub open spec fn is_cable_line(
    state: DiskStateModel,
    sight: SightModel,
    serial: Seq<char>,
    line: Seq<char>,
) -> bool {
    let twice = crate::seqs::repeats(crate::cable::all_serials(state.settings.fpgas)).contains(serial);
    if twice {
        line == "  cable        "@ + serial + "  (DUPLICATE SERIAL: listed by more than one board)"@
    } else if !crate::cable::is_valid_serial(serial) {
        line == "  cable        "@ + crate::text::quoted(serial) + "  (INVALID SERIAL)"@
    } else {
        match crate::cable::cable_found(sight.scene.usb, sight.scene.dev, serial) {
            Ok(Some(found)) => {
                ||| line == "  cable        "@ + found.serial + " "@ + found.product
                ||| line == "    jtag       "@ + found.jtag
                ||| found.consoles.len() == 0 && line == "    consoles   "@ + "-"@
                ||| found.consoles.len() > 0 && line == "    consoles   "@ + join(
                    found.consoles,
                    " "@,
                )
            },
            Ok(None) => line == "  cable        "@ + serial + "  (ABSENT)"@,
            Err(why) => line == "  cable        "@ + serial + "  ("@ + why + ")"@,
        }
    }
}

/// What the list says of the slot of a board: the driver and the node of what was found there, and
/// another card than the one that is registered; or that nothing is there.
pub open spec fn is_slot_line(spec: FpgaSpecModel, sight: SightModel, line: Seq<char>) -> bool {
    if exists|k: int|
        0 <= k < sight.discovered.len() && (#[trigger] sight.discovered[k]).bdf == spec.bdf {
        exists|k: int|
            {
                &&& 0 <= k < sight.discovered.len()
                &&& (#[trigger] sight.discovered[k]).bdf == spec.bdf
                &&& forall|j: int|
                    0 <= j < k ==> (#[trigger] sight.discovered[j]).bdf != spec.bdf
                &&& {
                    ||| line == "  driver       "@ + text_or(
                        sight.discovered[k].driver,
                        "(none bound)"@,
                    )
                    ||| line == "  numa node    "@ + text_or(sight.discovered[k].numa_node, "?"@)
                    ||| sight.discovered[k].pci_id != spec.pci_id && spec.pci_id.len() > 0 && line
                        == "  WARNING      the card at this address now reports "@
                        + sight.discovered[k].pci_id
                }
            }
    } else {
        line == "  driver       MISSING: no PCI device at this address"@
    }
}

/// The list tells what is in every board's slot, and of every cable of every board how it is.
pub proof fn law_the_list_shows_every_slot_and_cable(
    state: DiskStateModel,
    sight: SightModel,
    b: int,
    line: Seq<char>,
)
    requires
        0 <= b < state.settings.fpgas.len(),
        is_slot_line(state.settings.fpgas[b], sight, line) || exists|c: int|
            0 <= c < state.settings.fpgas[b].cables.len() && is_cable_line(
                state,
                sight,
                #[trigger] state.settings.fpgas[b].cables[c],
                line,
            ),
    ensures
        list_report(state, sight).contains(line),
{
    let spec = state.settings.fpgas[b];
    let lists = state.settings.fpgas.map_values(to_board_lines(state, sight));
    let mine = lists[b];
    let head = seq![spec.alias, "  pci address  "@ + spec.bdf, "  pci id       "@ + spec.pci_id];
    let slot = slot_lines(spec, found_at(sight.discovered, spec.bdf));
    let devices = device_lines(spec, sight.scene.files);
    let f = to_cable_lines(
        crate::seqs::repeats(crate::cable::all_serials(state.settings.fpgas)),
        sight.scene,
    );
    let each = spec.cables.map_values(f);
    let cables = concat_all(each);
    let tail = seq![
        "  claim        "@ + claim_phrase(state, spec.alias, sight.now),
        "  enforcement  "@ + enforcement_phrase(state, spec, sight),
        Seq::empty(),
    ];
    assert(mine == head + slot + devices + cables + tail);
    lemma_concat_members(each);
    assert(mine.contains(line)) by {
        if is_slot_line(spec, sight, line) {
            lemma_slot(spec, sight, line);
            let s = choose|s: int| 0 <= s < slot.len() && slot[s] == line;
            assert(mine[3 + s] == line);
        } else {
            let c = choose|c: int|
                0 <= c < spec.cables.len() && is_cable_line(
                    state,
                    sight,
                    #[trigger] spec.cables[c],
                    line,
                );
            let here = each[c];
            assert(here == f(spec.cables[c]));
            assert(here.contains(line)) by {
                if here[0] != line {
                    if here[1] != line {
                        assert(here[2] == line);
                    }
                }
            }
            assert(cables.contains(line));
            let k = choose|k: int| 0 <= k < cables.len() && cables[k] == line;
            assert(mine[3 + slot.len() + devices.len() + k] == line);
        }
    }
    lemma_concat_members(lists);
    let body = concat_all(lists);
    assert(body.contains(line));
    let k = choose|k: int| 0 <= k < body.len() && body[k] == line;
    assert(list_report(state, sight)[k] == line);
}

proof fn lemma_slot(spec: FpgaSpecModel, sight: SightModel, line: Seq<char>)
    requires
        is_slot_line(spec, sight, line),
    ensures
        slot_lines(spec, found_at(sight.discovered, spec.bdf)).contains(line),
{
    let pred = crate::report::board_at(spec.bdf);
    let at = first_where(sight.discovered, pred);
    lemma_first_where(sight.discovered, pred);
    let slot = slot_lines(spec, found_at(sight.discovered, spec.bdf));
    assert forall|k: int| 0 <= k < sight.discovered.len() implies pred(
        #[trigger] sight.discovered[k],
    ) == (sight.discovered[k].bdf == spec.bdf) by {}
    if at < sight.discovered.len() {
        assert(pred(sight.discovered[at]));
        assert(sight.discovered[at].bdf == spec.bdf);
        assert(slot[0] == "  driver       "@ + text_or(
            sight.discovered[at].driver,
            "(none bound)"@,
        ));
        assert(slot[1] == "  numa node    "@ + text_or(sight.discovered[at].numa_node, "?"@));
        if sight.discovered[at].pci_id != spec.pci_id && spec.pci_id.len() > 0 {
            assert(slot[2] == "  WARNING      the card at this address now reports "@
                + sight.discovered[at].pci_id);
        }
    } else {
        assert(slot[0] == "  driver       MISSING: no PCI device at this address"@);
    }
}

/// As long as key files are locked, the status says how many were and how many still are.
pub proof fn law_locked_key_files_are_counted(state: DiskStateModel, sight: SightModel)
    ensures
        state.overmounts.len() == 0 ==> hog_report(state, sight).len() == 0,
        state.overmounts.len() > 0 ==> exists|n: nat|
            n <= state.overmounts.len() && hog_report(state, sight).contains(
                decimal(state.overmounts.len()) + " keys were disabled to hog, "@
                    + #[trigger] decimal(n) + " keys are still disabled"@,
            ),
        state.overmounts.len() > 0 && (forall|i: int|
            0 <= i < state.overmounts.len() ==> crate::hog::is_mount_point(
                sight.mounts,
                #[trigger] state.overmounts[i],
            )) ==> hog_report(state, sight).contains(
            decimal(state.overmounts.len()) + " keys were disabled to hog, "@ + decimal(
                state.overmounts.len(),
            ) + " keys are still disabled"@,
        ),
{
    if state.overmounts.len() > 0 {
        let all = hog_report(state, sight);
        let pred = crate::report::is_mounted_in(sight.mounts);
        let n = state.overmounts.filter(pred).len();
        crate::seqs::lemma_filter_shorter(state.overmounts, pred);
        let line = decimal(state.overmounts.len()) + " keys were disabled to hog, "@ + decimal(n)
            + " keys are still disabled"@;
        let at: int = if state.hogger is Some {
            2
        } else {
            1
        };
        assert(all[at] == line);
        assert(all.contains(line));
        if forall|i: int|
            0 <= i < state.overmounts.len() ==> crate::hog::is_mount_point(
                sight.mounts,
                #[trigger] state.overmounts[i],
            ) {
            assert(crate::seqs::every_item(state.overmounts, pred));
            crate::seqs::lemma_filter_all(state.overmounts, pred);
        }
    }
}

/// Files and cables are both told of; a board that has neither is called advisory.
pub proof fn law_both_kinds_of_protection_are_shown(
    state: DiskStateModel,
    spec: FpgaSpecModel,
    sight: SightModel,
)
    ensures
        spec.devices.len() == 0 && spec.cables.len() == 0 ==> enforcement_phrase(state, spec, sight)
            == "advisory (no device nodes)"@,
        spec.devices.len() > 0 ==> has_passage(
            enforcement_phrase(state, spec, sight),
            device_phrase(state, spec, sight.scene.files),
        ),
        spec.cables.len() > 0 ==> ({
            let views = spec.cables.map_values(crate::report::to_cable_view(state, sight));
            let claimed = is_exclusively_claimed(state, spec.alias);
            &&& crate::cable::cable_phrase(claimed, views) matches Some(phrase)
            &&& has_passage(enforcement_phrase(state, spec, sight), phrase)
        }),
{
    let pred = holds_exclusively(spec.alias);
    let claimed = is_exclusively_claimed(state, spec.alias);
    assert(some_item(state.claims, pred) == claimed) by {
        if some_item(state.claims, pred) {
            let i = choose|i: int| 0 <= i < state.claims.len() && pred(#[trigger] state.claims[i]);
            assert(state.claims[i].exclusive);
        }
        if claimed {
            let i = choose|i: int|
                0 <= i < state.claims.len() && (#[trigger] state.claims[i]).exclusive
                    && state.claims[i].resources.contains(ResourceModel::Fpga(spec.alias));
            assert(pred(state.claims[i]));
        }
    }
    let shown = enforcement_phrase(state, spec, sight);
    let views = spec.cables.map_values(crate::report::to_cable_view(state, sight));
    let devices = device_phrase(state, spec, sight.scene.files);
    let none = Seq::<char>::empty();
    if spec.devices.len() > 0 {
        match crate::cable::cable_phrase(claimed, views) {
            Some(cables) => {
                lemma_passage_of_sum(none, devices, ", "@ + cables);
                assert(none + devices + (", "@ + cables) =~= shown);
                lemma_passage_of_sum(devices + ", "@, cables, none);
                assert(devices + ", "@ + cables + none =~= shown);
            },
            None => {
                lemma_passage_of_sum(none, devices, none);
                assert(none + devices + none =~= shown);
            },
        }
    } else if spec.cables.len() > 0 {
        let cables = crate::cable::cable_phrase(claimed, views)->0;
        lemma_passage_of_sum(none, cables, none);
        assert(none + cables + none =~= shown);
    }
}

} // verus!
