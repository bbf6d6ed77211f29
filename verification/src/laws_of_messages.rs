//! What holds of the lines that commands print: each fact they are about has its line.
use vstd::prelude::*;
use crate::cable::{
    all_cables, cable_found, to_cut_line, to_hold_line, to_hold_lines, CableModel, HeldCableModel,
    HostModel, UsbEntryModel,
};
use crate::cable_locks::{
    action_told, cables_wanted, has_gone, serials_sought, sync_warnings, to_find_warning,
    to_lock_serial, to_wanted_serial, to_warning, verdicts, ActionModel, WantedModel,
};
use crate::claiming::{
    availability, claimed_message, enforceability, foreign_users, is_ambiguous, is_unenforceable,
    is_used_by_others, names_known_resources, split, to_unenforceable_line, to_use_lines,
    to_user_lines,
};
use crate::claims::{
    check_report, conflict_report, is_live_foreign, kind_phrase, recheck_due, to_conflict_line,
    ConflictModel,
};
use crate::clock::Moment;
use crate::discovery::{
    assignment_lines, board_columns, cable_columns, found_report, to_found_cable_line,
    to_found_line, with_cables,
};
use crate::diskstate::{
    highest_id, maintenance_message, name_of, resource_list, resource_names, CableLockModel,
    ClaimModel, DeviceLockModel, DiskStateModel, FpgaSpecModel, ResourceModel,
};
use crate::fpga::{
    account_with, command_line, file_found, given_back_told, handed_told, handover_told, holders_of,
    intact, is_given_back, is_uid_line, law_each_board_has_one_owner, live_owners, owner_of,
    status_uid, uid_of, to_holder, username_of, AccountModel, FileInfoModel, HolderModel,
    ProcessModel, TakeoverModel,
};
use crate::hog::{hogged_message, release_message};
use crate::inventory::{
    changed_card_note, count_present, gives_way, merge_notes, replaced_note, stale_note,
    DiscoveredModel,
};
use crate::laws_of_boards::{
    holds_board, law_every_held_board_is_owned, lemma_sorted_members, runs_for,
};
use crate::laws_of_cables::{
    is_read_from, is_readable_device, law_a_serial_means_the_only_cable_that_has_it,
    law_every_cable_is_a_readable_device, law_every_readable_device_is_a_cable,
};
use crate::laws_of_claims::{is_in_the_way, law_a_check_misses_no_claim, lists_a_timeout};
use crate::laws_of_locks::has_passage;
use crate::laws_of_text::law_text_is_cut_at_every_separator;
use crate::seqs::{
    concat_all, distinct, first_where, keyed, lemma_concat_members, lemma_distinct,
    lemma_filter_members, lemma_first_where, lemma_somes_members, some_item, somes,
};
use crate::text::{
    decimal, lines, padded, parsed_number, pieces, starts_with, text_or, trim, words, Cut,
};
use crate::util::{is_step, passes_build_output, path_steps, time_left};

verus! {

/// Everybody who holds a cable has a line that names the process, the board and the cable.
pub proof fn law_everybody_who_holds_a_cable_is_named(held: Seq<HeldCableModel>, c: int, h: int)
    requires
        0 <= c < held.len(),
        0 <= h < held[c].holders.len(),
    ensures
        ({
            let holder = held[c].holders[h];
            concat_all(held.map_values(to_hold_lines())).contains(
                "pid "@ + decimal(holder.pid as nat) + " ("@ + holder.cmdline + ", "@ + holder.user
                    + ")"@ + " holds "@ + held[c].alias + "'s cable "@ + held[c].cable.serial,
            )
        }),
{
    let lists = held.map_values(to_hold_lines());
    let line = to_hold_line(held[c])(held[c].holders[h]);
    assert(lists[c][h] == line);
    assert(lists[c].contains(line));
    lemma_concat_members(lists);
}

/// Every conflict has a line that names the resource, the holder and the time it lasts.
pub proof fn law_every_conflict_has_a_line(found: Seq<ConflictModel>, now: Moment, c: int)
    requires
        0 <= c < found.len(),
    ensures
        conflict_report(found, now).len() == found.len() + 1,
        conflict_report(found, now).contains(
            "  "@ + padded(name_of(found[c].resource), 10) + " "@ + found[c].user + " ("@
                + kind_phrase(found[c].exclusive) + ") for another "@ + time_left(
                found[c].until,
                now,
            ),
        ),
{
    let all = conflict_report(found, now);
    assert(all[c + 1] == to_conflict_line(now)(found[c]));
}

/// A board that nothing can protect is named; without force it stands in the way of the claim.
pub proof fn law_every_unprotected_board_is_named(
    specs: Seq<FpgaSpecModel>,
    force: bool,
    prog: Seq<char>,
)
    ensures
        enforceability(specs, force, prog).passed <==> force || forall|i: int|
            0 <= i < specs.len() ==> (#[trigger] specs[i]).devices.len() > 0
                || specs[i].cables.len() > 0,
        forall|i: int|
            0 <= i < specs.len() && (#[trigger] specs[i]).devices.len() == 0
                && specs[i].cables.len() == 0 ==> enforceability(specs, force, prog).err.contains(
                specs[i].alias + " ("@ + specs[i].bdf
                    + ") has no device nodes or cables configured, so an exclusive claim cannot be enforced."@,
            ),
{
    let bad = specs.filter(is_unenforceable());
    let out = enforceability(specs, force, prog);
    lemma_filter_members(specs, is_unenforceable());
    let named = bad.map_values(to_unenforceable_line());
    assert forall|i: int|
        0 <= i < specs.len() && (#[trigger] specs[i]).devices.len() == 0 && specs[i].cables.len()
            == 0 implies bad.len() > 0 && out.err.contains(to_unenforceable_line()(specs[i])) by {
        assert(specs.contains(specs[i]));
        assert(bad.contains(specs[i]));
        let k = choose|k: int| 0 <= k < bad.len() && bad[k] == specs[i];
        assert(named[k] == to_unenforceable_line()(specs[i]));
        assert(out.err[k] == named[k]);
    }
    if bad.len() > 0 {
        assert(bad.contains(bad[0]));
        let i = choose|i: int| 0 <= i < specs.len() && specs[i] == bad[0];
        assert(specs[i].devices.len() == 0 && specs[i].cables.len() == 0);
    }
}

/// Everybody else who uses one of the boards is named, with the process and the file; without force
/// each of them stands in the way of the claim.
pub proof fn law_everybody_who_uses_a_board_is_named(
    specs: Seq<FpgaSpecModel>,
    host: HostModel,
    my_uid: Option<u32>,
    force: bool,
    b: int,
    holder: HolderModel,
)
    requires
        0 <= b < specs.len(),
        foreign_users(specs[b], host, my_uid).contains(holder),
    ensures
        ({
            let out = availability(specs, host, my_uid, force);
            &&& out.passed == force
            &&& out.err.contains(specs[b].alias + " is in use by:"@)
            &&& out.err.contains(
                "  pid "@ + padded(decimal(holder.pid as nat), 8) + " "@ + holder.cmdline + " ("@
                    + holder.user + ")"@,
            )
            &&& out.err.contains(
                "  "@ + padded(Seq::empty(), 12) + " holding "@ + holder.device,
            )
        }),
{
    let users = foreign_users(specs[b], host, my_uid);
    let u = choose|u: int| 0 <= u < users.len() && users[u] == holder;
    let inner = users.map_values(to_user_lines());
    let body = concat_all(inner);
    let mine = seq![specs[b].alias + " is in use by:"@] + body;
    let lists = specs.map_values(to_use_lines(host, my_uid));
    let all = concat_all(lists);
    let out = availability(specs, host, my_uid, force);
    assert(lists[b] == mine);
    let pred = is_used_by_others(host, my_uid);
    assert(pred(specs[b]));
    assert(some_item(specs, pred));
    lemma_concat_members(inner);
    lemma_concat_members(lists);
    let one = to_user_lines()(holder)[0];
    let two = to_user_lines()(holder)[1];
    assert(inner[u] == to_user_lines()(holder));
    assert(inner[u][0] == one && inner[u][1] == two);
    assert(inner[u].contains(one) && inner[u].contains(two));
    assert forall|line: Seq<char>| #[trigger] body.contains(line) implies mine.contains(line) by {
        let k = choose|k: int| 0 <= k < body.len() && body[k] == line;
        assert(mine[k + 1] == line);
    }
    assert(body.contains(one) && body.contains(two));
    assert(mine[0] == specs[b].alias + " is in use by:"@);
    assert(mine.contains(mine[0]));
    assert forall|line: Seq<char>| #[trigger] mine.contains(line) implies out.err.contains(line) by {
        assert(lists[b].contains(line));
        assert(all.contains(line));
        let k = choose|k: int| 0 <= k < all.len() && all[k] == line;
        assert(out.err[k] == line);
    }
    assert(mine.contains(one) && mine.contains(two));
}

/// If nobody else uses any of the boards, they are free.
pub proof fn law_unused_boards_are_free(
    specs: Seq<FpgaSpecModel>,
    host: HostModel,
    my_uid: Option<u32>,
    force: bool,
)
    requires
        forall|b: int|
            0 <= b < specs.len() ==> foreign_users(#[trigger] specs[b], host, my_uid).len() == 0,
    ensures
        availability(specs, host, my_uid, force).passed,
        availability(specs, host, my_uid, force).err.len() == 0,
{
    let pred = is_used_by_others(host, my_uid);
    if some_item(specs, pred) {
        let b = choose|b: int| 0 <= b < specs.len() && pred(#[trigger] specs[b]);
        assert(foreign_users(specs[b], host, my_uid).len() > 0);
    }
    let lists = specs.map_values(to_use_lines(host, my_uid));
    let all = concat_all(lists);
    lemma_concat_members(lists);
    if all.len() > 0 {
        assert(all.contains(all[0]));
        let b = choose|b: int| 0 <= b < lists.len() && (#[trigger] lists[b]).contains(all[0]);
        assert(foreign_users(specs[b], host, my_uid).len() == 0);
        assert(lists[b].len() == 0);
    }
}

/// One of the lines says who claims what, for how long, and why.
pub open spec fn is_told_in(lines: Seq<Seq<char>>, claim: ClaimModel, now: Moment) -> bool {
    exists|l: int|
        {
            &&& 0 <= l < lines.len()
            &&& has_passage(#[trigger] lines[l], claim.user)
            &&& has_passage(lines[l], resource_names(claim.resources))
            &&& has_passage(lines[l], time_left(claim.timeout, now))
            &&& has_passage(lines[l], claim.comment)
        }
}

/// A check says of each claim that is in the way who holds what for how long.
pub proof fn law_every_claim_in_the_way_is_told(
    text: Seq<char>,
    state: DiskStateModel,
    me: Seq<char>,
    now: Moment,
    prog: Seq<char>,
    c: int,
)
    requires
        check_report(text, state, me, now, prog).code != 2,
        0 <= c < state.claims.len(),
        is_in_the_way(state.claims[c], me, resource_list(text), now),
    ensures
        state.claims[c].exclusive ==> is_told_in(
            check_report(text, state, me, now, prog).err,
            state.claims[c],
            now,
        ),
        !state.claims[c].exclusive ==> is_told_in(
            check_report(text, state, me, now, prog).out,
            state.claims[c],
            now,
        ),
{
    let requested = resource_list(text);
    let claim = state.claims[c];
    law_a_check_misses_no_claim(state.claims, me, requested, now);
    assert(state.claims.contains(claim));
    let found = state.claims.filter(is_live_foreign(me, requested, now, claim.exclusive));
    assert(found.contains(claim));
    let l = choose|l: int| 0 <= l < found.len() && found[l] == claim;
    let what = resource_names(claim.resources);
    let left = time_left(claim.timeout, now);
    let tail = crate::claims::comment_phrase(claim.comment);
    let report = check_report(text, state, me, now, prog);
    if claim.exclusive {
        let line = report.err[l];
        assert(line == what + " is claimed exclusively by "@ + claim.user + " for another "@ + left
            + tail);
        lemma_there(line, what, 0);
        let a = what + " is claimed exclusively by "@;
        lemma_there(line, claim.user, a.len() as int);
        let b = a + claim.user + " for another "@;
        lemma_there(line, left, b.len() as int);
        lemma_comment_there(line, b + left, claim.comment);
        assert(is_told_in(report.err, claim, now));
    } else {
        let line = report.out[l];
        assert(line == "note: "@ + what + " is also in use by "@ + claim.user + " (shared, "@ + left
            + " left)"@ + tail);
        lemma_there(line, what, "note: "@.len() as int);
        let a = "note: "@ + what + " is also in use by "@;
        lemma_there(line, claim.user, a.len() as int);
        let b = a + claim.user + " (shared, "@;
        lemma_there(line, left, b.len() as int);
        lemma_comment_there(line, b + left + " left)"@, claim.comment);
        assert(is_told_in(report.out, claim, now));
    }
}

proof fn lemma_there(line: Seq<char>, part: Seq<char>, start: int)
    requires
        0 <= start <= start + part.len() <= line.len(),
        forall|i: int| 0 <= i < part.len() ==> line[start + i] == #[trigger] part[i],
    ensures
        has_passage(line, part),
{
    assert(line.subrange(start, start + part.len()) =~= part);
}

proof fn lemma_comment_there(line: Seq<char>, before: Seq<char>, comment: Seq<char>)
    requires
        line == before + crate::claims::comment_phrase(comment),
    ensures
        has_passage(line, comment),
{
    if comment.len() == 0 {
        lemma_there(line, comment, 0);
    } else {
        let start = before.len() + ": "@.len();
        lemma_there(line, comment, start as int);
    }
}

/// What is found has a line for every board and every cable.
pub proof fn law_everything_found_has_a_line(
    discovered: Seq<DiscoveredModel>,
    cables: Seq<CableModel>,
)
    ensures
        forall|b: int|
            0 <= b < discovered.len() ==> found_report(discovered, cables).contains(
                board_columns(
                    (#[trigger] discovered[b]).bdf,
                    discovered[b].pci_id,
                    text_or(discovered[b].driver, "-"@),
                    text_or(discovered[b].numa_node, "?"@),
                ),
            ),
        forall|k: int|
            0 <= k < cables.len() ==> found_report(discovered, cables).contains(
                cable_columns((#[trigger] cables[k]).serial, cables[k].product, cables[k].jtag),
            ),
{
    let all = found_report(discovered, cables);
    let head = discovered.len() + 2;
    assert forall|b: int| 0 <= b < discovered.len() implies all.contains(
        board_columns(
            (#[trigger] discovered[b]).bdf,
            discovered[b].pci_id,
            text_or(discovered[b].driver, "-"@),
            text_or(discovered[b].numa_node, "?"@),
        ),
    ) by {
        assert(all[b + 1] == to_found_line()(discovered[b]));
    }
    assert forall|k: int| 0 <= k < cables.len() implies all.contains(
        cable_columns((#[trigger] cables[k]).serial, cables[k].product, cables[k].jtag),
    ) by {
        assert(all[head + 1 + k] == to_found_cable_line()(cables[k]));
    }
}

/// Every pair whose board exists is told as assigned.
pub proof fn law_every_assignment_is_told(
    fpgas: Seq<FpgaSpecModel>,
    pairs: Seq<(Seq<char>, Seq<char>)>,
    n: nat,
    p: int,
    b: int,
)
    requires
        0 <= p < n <= pairs.len(),
        0 <= b < fpgas.len(),
        fpgas[b].alias == pairs[p].0,
    ensures
        assignment_lines(fpgas, pairs, n).contains(
            pairs[p].0 + ": cable "@ + pairs[p].1 + " assigned"@,
        ),
    decreases n,
{
    let m = (n - 1) as nat;
    let earlier = assignment_lines(fpgas, pairs, m);
    let all = assignment_lines(fpgas, pairs, n);
    let line = pairs[p].0 + ": cable "@ + pairs[p].1 + " assigned"@;
    if p < m {
        law_every_assignment_is_told(fpgas, pairs, m, p, b);
        let k = choose|k: int| 0 <= k < earlier.len() && earlier[k] == line;
        assert(all[k] == line);
    } else {
        let now = with_cables(fpgas, pairs, m);
        lemma_aliases_stay(fpgas, pairs, m);
        let pred = crate::diskstate::with_alias(pairs[p].0);
        lemma_first_where(now, pred);
        assert(pred(now[b]));
        assert(all[earlier.len() as int] == line);
    }
}

proof fn lemma_aliases_stay(
    fpgas: Seq<FpgaSpecModel>,
    pairs: Seq<(Seq<char>, Seq<char>)>,
    n: nat,
)
    ensures
        with_cables(fpgas, pairs, n).len() == fpgas.len(),
        forall|b: int|
            0 <= b < fpgas.len() ==> (#[trigger] with_cables(fpgas, pairs, n)[b]).alias
                == fpgas[b].alias,
    decreases n,
{
    if n > 0 {
        lemma_aliases_stay(fpgas, pairs, (n - 1) as nat);
        let before = with_cables(fpgas, pairs, (n - 1) as nat);
        lemma_first_where(before, crate::diskstate::with_alias(pairs[n - 1].0));
    }
}

/// A change of what a known board reports is noted: another card at its address, files that are
/// replaced, and files that are gone.
pub proof fn law_every_change_of_a_board_is_noted(
    spec: FpgaSpecModel,
    found: DiscoveredModel,
    guessed: Seq<Seq<char>>,
    existing: Seq<Seq<char>>,
)
    ensures
        ({
            let notes = merge_notes(spec, found, guessed, existing);
            let present = count_present(spec.devices, existing);
            &&& spec.pci_id != found.pci_id ==> notes.contains(
                "NOTE: "@ + spec.alias + " now reports "@ + found.pci_id + " (was "@ + spec.pci_id
                    + "). Check that this is the same card."@,
            )
            &&& spec.devices.len() > 0 && present == 0 && guessed.len() > 0 && spec.devices
                != guessed ==> notes.contains(
                "NOTE: none of "@ + spec.alias
                    + "'s configured device nodes exist any more. Replacing "@
                    + crate::inventory::quoted_list(spec.devices) + " with "@
                    + crate::inventory::quoted_list(guessed) + "."@,
            )
            &&& 0 < present < spec.devices.len() ==> notes.contains(
                "NOTE: "@ + spec.alias + " has "@ + decimal((spec.devices.len() - present) as nat)
                    + " configured device node(s) that do not exist."@,
            )
            &&& spec.pci_id == found.pci_id && present == spec.devices.len() && present > 0
                ==> notes.len() == 0
        }),
{
    let notes = merge_notes(spec, found, guessed, existing);
    if spec.pci_id != found.pci_id {
        assert(notes[0] == changed_card_note(spec.alias, found.pci_id, spec.pci_id));
    }
    let at: int = if spec.pci_id != found.pci_id {
        1
    } else {
        0
    };
    if gives_way(spec.devices, guessed, existing) {
        if spec.devices.len() > 0 {
            assert(notes[at] == replaced_note(
                spec.alias,
                crate::inventory::quoted_list(spec.devices),
                crate::inventory::quoted_list(guessed),
            ));
        }
    } else if count_present(spec.devices, existing) < spec.devices.len() {
        assert(notes[at] == stale_note(
            spec.alias,
            (spec.devices.len() - count_present(spec.devices, existing)) as nat,
        ));
    }
}

/// A serial that more than one device has is warned about, whether a claim wants the cable or a
/// lock is on it.
pub proof fn law_every_shared_serial_is_warned_about(
    state: DiskStateModel,
    accounts: Seq<AccountModel>,
    now: Moment,
    usb: Seq<UsbEntryModel>,
    dev: Seq<char>,
    serial: Seq<char>,
    why: Seq<char>,
)
    requires
        cable_found(usb, dev, serial) == Err::<Option<CableModel>, Seq<char>>(why),
        (exists|w: int|
            0 <= w < cables_wanted(state, accounts, now).len() && (#[trigger] cables_wanted(
                state,
                accounts,
                now,
            )[w]).serial == serial) || (exists|l: int|
            0 <= l < state.cable_locks.len() && (#[trigger] state.cable_locks[l]).serial == serial),
    ensures
        sync_warnings(state, accounts, now, usb, dev).contains("WARN: "@ + why),
{
    let wanted = cables_wanted(state, accounts, now);
    let a = wanted.map_values(to_wanted_serial());
    let b = state.cable_locks.map_values(to_lock_serial());
    let both = a + b;
    assert(both.contains(serial)) by {
        if exists|w: int| 0 <= w < wanted.len() && (#[trigger] wanted[w]).serial == serial {
            let w = choose|w: int|
                0 <= w < wanted.len() && (#[trigger] wanted[w]).serial == serial;
            assert(both[w] == serial);
        } else {
            let l = choose|l: int|
                0 <= l < state.cable_locks.len() && (#[trigger] state.cable_locks[l]).serial
                    == serial;
            assert(both[a.len() + l] == serial);
        }
    }
    lemma_distinct(both);
    lemma_sorted_members(distinct(both), crate::text::text_order());
    let sought = serials_sought(wanted, state.cable_locks);
    assert(distinct(both).contains(serial));
    assert(sought.contains(serial));
    let s = choose|s: int| 0 <= s < sought.len() && sought[s] == serial;
    let mapped = sought.map_values(to_find_warning(usb, dev));
    let line = "WARN: "@ + why;
    assert(mapped[s] == Some(line));
    assert(mapped.contains(Some(line)));
    lemma_somes_members(mapped);
    let told = somes(mapped);
    assert(told.contains(line));
    let t = choose|t: int| 0 <= t < told.len() && told[t] == line;
    let skipped = somes(verdicts(state, accounts, now).map_values(to_warning()));
    let all = sync_warnings(state, accounts, now, usb, dev);
    assert(all[skipped.len() + t] == line);
}

/// A user id means the first account that has it.
pub proof fn law_a_user_is_named_by_the_account(accounts: Seq<AccountModel>, uid: u32, a: int)
    ensures
        (forall|i: int| 0 <= i < accounts.len() ==> (#[trigger] accounts[i]).uid != uid)
            ==> username_of(accounts, uid) == "<unknown>"@,
        0 <= a < accounts.len() && accounts[a].uid == uid && (forall|i: int|
            0 <= i < a ==> (#[trigger] accounts[i]).uid != uid) ==> username_of(accounts, uid)
            == accounts[a].name,
{
    let pred = account_with(uid);
    let at = first_where(accounts, pred);
    lemma_first_where(accounts, pred);
    assert forall|i: int| 0 <= i < accounts.len() implies pred(#[trigger] accounts[i]) == (
    accounts[i].uid == uid) by {}
    if at < accounts.len() {
        assert(pred(accounts[at]));
    }
}

/// The user of a process is the first number on the first line that begins with `Uid:`.
pub proof fn law_the_user_of_a_process_is_read_off_its_line(status: Seq<char>, l: int, uid: u32)
    requires
        0 <= l < lines(status).len(),
        starts_with(lines(status)[l], "Uid:"@),
        forall|j: int|
            0 <= j < l ==> !starts_with(#[trigger] lines(status)[j], "Uid:"@),
    ensures
        status_uid(status) == Some(uid) <==> words(lines(status)[l].skip(4)).len() > 0
            && parsed_number(words(lines(status)[l].skip(4))[0]) == Some(uid as nat),
{
    let pred = is_uid_line();
    assert forall|j: int| 0 <= j < l implies !pred(#[trigger] lines(status)[j]) by {}
    crate::seqs::lemma_first_where_is(lines(status), pred, l);
}

/// A process is described by its user's name and its command line.
pub proof fn law_every_holder_is_described(
    devices: Seq<Seq<char>>,
    processes: Seq<ProcessModel>,
    accounts: Seq<AccountModel>,
    holder: HolderModel,
)
    requires
        holders_of(devices, processes, accounts).contains(holder),
    ensures
        holder.user == username_of(accounts, holder.uid),
        exists|p: int|
            {
                &&& 0 <= p < processes.len()
                &&& Some(holder.pid as nat) == parsed_number((#[trigger] processes[p]).name)
                &&& holder.uid == runs_for(processes[p])
                &&& holder.cmdline == command_line(processes[p].cmdline, holder.pid)
            },
{
    let f = to_holder(devices, accounts);
    let mapped = processes.map_values(f);
    lemma_somes_members(mapped);
    lemma_sorted_members(somes(mapped), crate::fpga::by_pid());
    assert(mapped.contains(Some(holder)));
    let p = choose|p: int| 0 <= p < mapped.len() && mapped[p] == Some(holder);
    assert(f(processes[p]) == Some(holder));
    assert(Some(holder.pid as nat) == parsed_number(processes[p].name));
}

/// The next claim gets the number after the highest that was ever given: nothing is skipped.
pub proof fn law_no_number_is_skipped(state: DiskStateModel)
    ensures
        state.highest_id() == state.last_claim_id || (state.hogger matches Some(hogger)
            && state.highest_id() == hogger.id) || exists|i: int|
            0 <= i < state.claims.len() && (#[trigger] state.claims[i]).id == state.highest_id(),
{
    lemma_highest(state.claims);
}

proof fn lemma_highest(claims: Seq<ClaimModel>)
    ensures
        highest_id(claims) == 0 || exists|i: int|
            0 <= i < claims.len() && (#[trigger] claims[i]).id == highest_id(claims),
    decreases claims.len(),
{
    if claims.len() > 0 {
        let rest = claims.drop_last();
        lemma_highest(rest);
        if claims.last().id > highest_id(rest) {
            assert(claims[claims.len() - 1].id == highest_id(claims));
        } else if highest_id(rest) != 0 {
            let i = choose|i: int|
                0 <= i < rest.len() && (#[trigger] rest[i]).id == highest_id(rest);
            assert(claims[i].id == highest_id(claims));
        }
    }
}

/// A file is given back exactly if no live exclusive claim is on its board.
pub proof fn law_only_unclaimed_files_are_given_back(
    state: DiskStateModel,
    now: Moment,
    lock: DeviceLockModel,
)
    ensures
        is_given_back(live_owners(state.claims, now))(lock) <==> forall|c: int|
            0 <= c < state.claims.len() ==> !holds_board(#[trigger] state.claims[c], lock.alias, now),
{
    let owned = live_owners(state.claims, now);
    law_every_held_board_is_owned(state.claims, now, lock.alias, Seq::empty());
    let pred = keyed::<Seq<char>, Seq<char>>(lock.alias);
    lemma_first_where(owned, pred);
    let at = first_where(owned, pred);
    if at < owned.len() {
        assert(pred(owned[at]));
        assert(some_item(owned, pred));
    } else if some_item(owned, pred) {
        let i = choose|i: int| 0 <= i < owned.len() && pred(#[trigger] owned[i]);
        assert(pred(owned[i]));
    }
}

/// The locks are looked at again five minutes later.
pub proof fn law_the_next_look_is_five_minutes_away(state: DiskStateModel, now: Moment)
    requires
        now.wf(),
        now.nanos < 1_000_000_000,
        now.secs + 300 <= crate::clock::LAST_SECOND,
    ensures
        recheck_due(state, now) matches Some(at) ==> at.secs == now.secs + 300 && at.nanos
            == now.nanos,
{
}

/// A path that leads through a build directory is recognised, wherever in it the directory is.
pub proof fn law_a_build_directory_is_recognised(
    before: Seq<char>,
    kind: Seq<char>,
    after: Seq<char>,
)
    requires
        kind == "release"@ || kind == "debug"@,
    ensures
        passes_build_output(
            before.push('/') + "target"@.push('/') + kind.push('/') + after,
        ),
{
    let path = before.push('/') + "target"@.push('/') + kind.push('/') + after;
    let cut = Cut::At('/');
    let first = pieces(before, cut);
    let last = pieces(after, cut);
    let two = seq!["target"@, kind];
    let pred = is_step();
    lemma_build_steps(before, kind, after);
    lemma_build_names(kind);
    Seq::filter_distributes_over_add(first + two, last, pred);
    Seq::filter_distributes_over_add(first, two, pred);
    crate::seqs::lemma_filter_all(two, pred);
    let steps = path_steps(path);
    let n = first.filter(pred).len() as int;
    assert(steps == first.filter(pred) + two + last.filter(pred));
    assert(steps[n] == "target"@);
    assert(steps[n + 1] == kind);
}

proof fn lemma_build_names(kind: Seq<char>)
    requires
        kind == "release"@ || kind == "debug"@,
    ensures
        crate::seqs::every_item(seq!["target"@, kind], is_step()),
        crate::laws_of_text::is_whole("target"@, Cut::At('/')),
        crate::laws_of_text::is_whole(kind, Cut::At('/')),
{
    reveal_strlit("target");
    reveal_strlit("release");
    reveal_strlit("debug");
    reveal_strlit(".");
    assert("target"@.len() == 6 && "."@.len() == 1);
    assert(kind.len() == 7 || kind.len() == 5);
    let two = seq!["target"@, kind];
    assert(is_step()(two[0]) && is_step()(two[1]));
}

proof fn lemma_build_steps(before: Seq<char>, kind: Seq<char>, after: Seq<char>)
    requires
        kind == "release"@ || kind == "debug"@,
    ensures
        pieces(
            before.push('/') + "target"@.push('/') + kind.push('/') + after,
            Cut::At('/'),
        ) == pieces(before, Cut::At('/')) + seq!["target"@, kind] + pieces(after, Cut::At('/')),
{
    lemma_build_names(kind);
    let cut = Cut::At('/');
    let path = before.push('/') + "target"@.push('/') + kind.push('/') + after;
    let tail = kind.push('/') + after;
    let middle = "target"@.push('/') + tail;
    assert(path =~= before.push('/') + middle);
    law_text_is_cut_at_every_separator(before, '/', middle, cut);
    law_text_is_cut_at_every_separator("target"@, '/', tail, cut);
    law_text_is_cut_at_every_separator(kind, '/', after, cut);
    assert(pieces(tail, cut) == seq![kind] + pieces(after, cut));
    assert(pieces(middle, cut) == seq!["target"@] + pieces(tail, cut));
    assert(pieces(before, cut) + seq!["target"@, kind] + pieces(after, cut) =~= pieces(before, cut)
        + (seq!["target"@] + (seq![kind] + pieces(after, cut))));
}

/// The columns of what is found are all there.
pub proof fn law_no_column_is_left_out(a: Seq<char>, b: Seq<char>, c: Seq<char>, d: Seq<char>)
    ensures
        has_passage(board_columns(a, b, c, d), a),
        has_passage(board_columns(a, b, c, d), b),
        has_passage(board_columns(a, b, c, d), c),
        has_passage(board_columns(a, b, c, d), d),
        has_passage(cable_columns(a, b, c), a),
        has_passage(cable_columns(a, b, c), b),
        has_passage(cable_columns(a, b, c), c),
{
    let line = board_columns(a, b, c, d);
    lemma_there(line, a, 0);
    let one = padded(a, 15) + " "@;
    lemma_there(line, b, one.len() as int);
    let two = one + padded(b, 12) + " "@;
    lemma_there(line, c, two.len() as int);
    let three = two + padded(c, 16) + " "@;
    lemma_there(line, d, three.len() as int);
    let short = cable_columns(a, b, c);
    lemma_there(short, a, 0);
    lemma_there(short, b, one.len() as int);
    let next = one + padded(b, 16) + " "@;
    lemma_there(short, c, next.len() as int);
}

/// A change of hands is told exactly if the board's claimant is not the one the file is locked for.
pub proof fn law_every_change_of_hands_is_told(
    state: DiskStateModel,
    accounts: Seq<AccountModel>,
    now: Moment,
    lock: DeviceLockModel,
    user: Seq<char>,
)
    ensures
        live_owners(state.claims, now).contains((lock.alias, user)) ==> (handover_told(
            lock,
            live_owners(state.claims, now),
            accounts,
        ) is Some <==> uid_of(accounts, user) != Some(lock.claimant_uid)),
        (forall|c: int|
            0 <= c < state.claims.len() ==> !holds_board(#[trigger] state.claims[c], lock.alias, now))
            ==> handover_told(lock, live_owners(state.claims, now), accounts) is None,
{
    let owned = live_owners(state.claims, now);
    law_only_unclaimed_files_are_given_back(state, now, lock);
    law_each_board_has_one_owner(state.claims.filter(crate::diskstate::live_at(now)));
    if owned.contains((lock.alias, user)) {
        let i = choose|i: int| 0 <= i < owned.len() && owned[i] == (lock.alias, user);
        let pred = keyed::<Seq<char>, Seq<char>>(lock.alias);
        lemma_first_where(owned, pred);
        assert(pred(owned[i]));
        let at = first_where(owned, pred);
        assert(pred(owned[at]));
        if at < i {
            assert(owned[at].0 != owned[i].0);
        }
        assert(owner_of(owned, lock.alias) == Some(user));
    }
}

/// What is said of an action names the cable and the board; a new lock is not worth a line.
pub proof fn law_every_action_names_its_cable(
    wanted: WantedModel,
    lock: CableLockModel,
    why: Seq<char>,
)
    ensures
        action_told(ActionModel::Record(wanted), None) is None,
        action_told(ActionModel::Repoint(wanted), None) matches Some(line) && has_passage(
            line,
            wanted.serial,
        ) && has_passage(line, wanted.alias) && has_passage(line, wanted.user),
        action_told(ActionModel::Drop(lock), None) matches Some(line) && has_passage(
            line,
            lock.serial,
        ) && has_passage(line, lock.alias),
        action_told(ActionModel::Restore(lock), None) matches Some(line) && has_passage(
            line,
            lock.serial,
        ) && has_passage(line, lock.alias),
        action_told(ActionModel::Restore(lock), Some(why)) matches Some(line) && has_passage(
            line,
            lock.serial,
        ) && has_passage(line, why) && has_passage(line, "WARN: could not restore cable "@),
{
    let repoint = action_told(ActionModel::Repoint(wanted), None)->0;
    lemma_there(repoint, wanted.alias, 0);
    let a = wanted.alias + " changed hands: cable "@;
    lemma_there(repoint, wanted.serial, a.len() as int);
    let b = a + wanted.serial + " now belongs to "@;
    lemma_there(repoint, wanted.user, b.len() as int);
    let c = "released cable "@;
    let d = c + lock.serial + " ("@;
    let gone = action_told(ActionModel::Drop(lock), None)->0;
    lemma_there(gone, lock.serial, c.len() as int);
    lemma_there(gone, lock.alias, d.len() as int);
    let back = action_told(ActionModel::Restore(lock), None)->0;
    lemma_there(back, lock.serial, c.len() as int);
    lemma_there(back, lock.alias, d.len() as int);
    let e = "WARN: could not restore cable "@;
    let failed = action_told(ActionModel::Restore(lock), Some(why))->0;
    lemma_there(failed, e, 0);
    lemma_there(failed, lock.serial, e.len() as int);
    let f = e + lock.serial + ": "@;
    lemma_there(failed, why, f.len() as int);
}

/// What is said of a file that is given back, or handed over, names the file, and the reason if it
/// could not be done.
pub proof fn law_every_file_is_named(
    locks: Seq<DeviceLockModel>,
    lock: DeviceLockModel,
    hand: TakeoverModel,
    again: bool,
    why: Seq<char>,
)
    ensures
        has_passage(given_back_told(lock, None), lock.path),
        has_passage(given_back_told(lock, None), lock.alias),
        has_passage(given_back_told(lock, Some(why)), lock.path),
        has_passage(given_back_told(lock, Some(why)), why),
        has_passage(handed_told(locks, hand, again, None), hand.path),
        has_passage(handed_told(locks, hand, again, Some(why)), hand.path),
        has_passage(handed_told(locks, hand, again, Some(why)), why),
{
    let a = "released "@;
    lemma_there(given_back_told(lock, None), lock.path, a.len() as int);
    let b = a + lock.path + " ("@;
    lemma_there(given_back_told(lock, None), lock.alias, b.len() as int);
    let c = "WARN: could not restore "@;
    lemma_there(given_back_told(lock, Some(why)), lock.path, c.len() as int);
    let d = c + lock.path + ": "@;
    lemma_there(given_back_told(lock, Some(why)), why, d.len() as int);
    if again {
        let e = "re-asserted lock on "@;
        lemma_there(handed_told(locks, hand, again, None), hand.path, e.len() as int);
        let f = "WARN: could not re-assert "@;
        lemma_there(handed_told(locks, hand, again, Some(why)), hand.path, f.len() as int);
        let g = f + hand.path + ": "@;
        lemma_there(handed_told(locks, hand, again, Some(why)), why, g.len() as int);
    } else {
        let e = "locked "@;
        lemma_there(handed_told(locks, hand, again, None), hand.path, e.len() as int);
        let f = "WARN: enforcement failed for "@ + crate::fpga::alias_on(locks, hand.path) + ": "@;
        lemma_there(handed_told(locks, hand, again, Some(why)), hand.path, f.len() as int);
        let g = f + hand.path + ": "@;
        lemma_there(handed_told(locks, hand, again, Some(why)), why, g.len() as int);
    }
}

/// A claim that was made is told with what it covers, until when, and why.
pub proof fn law_a_claim_that_was_made_is_told(claim: ClaimModel, until: Seq<char>)
    ensures
        has_passage(claimed_message(claim, until), resource_names(claim.resources)),
        has_passage(claimed_message(claim, until), until),
        has_passage(claimed_message(claim, until), claim.comment),
        claim.exclusive ==> has_passage(claimed_message(claim, until), " (exclusive)"@),
        !claim.exclusive ==> has_passage(claimed_message(claim, until), " (shared)"@),
{
    let line = claimed_message(claim, until);
    let what = resource_names(claim.resources);
    let a = "Claimed "@;
    lemma_there(line, what, a.len() as int);
    let b = a + what + " until "@;
    lemma_there(line, until, b.len() as int);
    let kind = kind_phrase(claim.exclusive);
    let c = b + until + " ("@ + kind + ")"@;
    lemma_comment_there(line, c, claim.comment);
    let from = (b + until).len() as int;
    reveal_strlit(" (exclusive)");
    reveal_strlit(" (shared)");
    reveal_strlit("exclusive");
    reveal_strlit("shared");
    reveal_strlit(" (");
    reveal_strlit(")");
    if claim.exclusive {
        assert(" (exclusive)"@ =~= " ("@ + kind + ")"@);
        lemma_there(line, " ("@ + kind + ")"@, from);
    } else {
        assert(" (shared)"@ =~= " ("@ + kind + ")"@);
        lemma_there(line, " ("@ + kind + ")"@, from);
    }
}

/// Every item of a list that is shown is in it, in quotes.
pub proof fn law_every_item_of_a_list_is_shown(items: Seq<Seq<char>>, k: int)
    requires
        0 <= k < items.len(),
    ensures
        has_passage(crate::inventory::quoted_list(items), crate::text::quoted(items[k])),
{
    let parts = items.map_values(crate::inventory::to_quoted());
    crate::laws_of_hogs::law_joined_parts_are_all_there(parts, ", "@);
    assert(parts[k] == crate::text::quoted(items[k]));
    let inner = crate::text::join(parts, ", "@);
    let line = crate::inventory::quoted_list(items);
    lemma_there(line, inner, "["@.len() as int);
    crate::laws_of_reports::lemma_passage_within(line, inner, parts[k]);
}

/// Everybody who is cut off from a cable is named.
pub proof fn law_everybody_who_is_cut_off_is_named(held: HeldCableModel, h: int)
    requires
        0 <= h < held.holders.len(),
    ensures
        held.holders.map_values(to_cut_line(held)).contains(
            "cutting "@ + ("pid "@ + decimal(held.holders[h].pid as nat) + " ("@
                + held.holders[h].cmdline + ", "@ + held.holders[h].user + ")"@) + " off "@
                + held.alias + "'s cable"@,
        ),
{
    let lines = held.holders.map_values(to_cut_line(held));
    assert(lines[h] == to_cut_line(held)(held.holders[h]));
}

/// A cable is gone only if no device has its serial.
pub proof fn law_a_cable_is_gone_only_if_nothing_has_its_serial(
    usb: Seq<UsbEntryModel>,
    dev: Seq<char>,
    serial: Seq<char>,
)
    ensures
        has_gone(usb, dev, serial) <==> forall|e: int| #[trigger]
            is_readable_device(usb, e) ==> trim(usb[e].serial->0) != serial,
{
    law_a_serial_means_the_only_cable_that_has_it(usb, dev, serial);
    let all = all_cables(usb, dev);
    if has_gone(usb, dev, serial) {
        assert forall|e: int| #[trigger] is_readable_device(usb, e) implies trim(
            usb[e].serial->0,
        ) != serial by {
            law_every_readable_device_is_a_cable(usb, dev, e);
            let cable = choose|cable: CableModel| #[trigger]
                all.contains(cable) && is_read_from(cable, usb, dev, e);
            let i = choose|i: int| 0 <= i < all.len() && all[i] == cable;
            assert(all[i].serial != serial);
        }
    } else {
        let i = choose|i: int| 0 <= i < all.len() && (#[trigger] all[i]).serial == serial;
        assert(all.contains(all[i]));
        law_every_cable_is_a_readable_device(usb, dev, all[i]);
        let e = choose|e: int| #[trigger] is_read_from(all[i], usb, dev, e);
        assert(is_readable_device(usb, e));
    }
}

/// Whoever is locked out is told by whom, why and for how long.
pub proof fn law_a_hog_says_who_and_why(claim: ClaimModel, now: Moment)
    ensures
        has_passage(hogged_message(claim, now), claim.user),
        has_passage(hogged_message(claim, now), claim.comment),
        has_passage(hogged_message(claim, now), time_left(claim.timeout, now)),
{
    let line = hogged_message(claim, now);
    let a = "This system has been hogged by "@;
    lemma_there(line, claim.user, a.len() as int);
    let b = a + claim.user + ".\nComment: "@;
    lemma_there(line, claim.comment, b.len() as int);
    let c = b + claim.comment + "\nThis claim will time out in "@;
    lemma_there(line, time_left(claim.timeout, now), c.len() as int);
}

/// A release says everything that was released, and says so if that is nothing.
pub proof fn law_everything_released_is_told(released: Seq<Seq<char>>, k: int)
    ensures
        released.len() == 0 ==> release_message(released)
            == "Nothing to release (you hold no matching claims)."@,
        0 <= k < released.len() ==> has_passage(release_message(released), released[k]),
{
    if 0 <= k < released.len() {
        crate::laws_of_hogs::law_joined_parts_are_all_there(released, ", "@);
        let list = crate::text::join(released, ", "@);
        let line = release_message(released);
        lemma_there(line, list, "Released: "@.len() as int);
        assert(has_passage(list, released[k]));
        crate::laws_of_reports::lemma_passage_within(line, list, released[k]);
    }
}

/// Which claims of others are on a resource: all of them, and nothing else.
pub proof fn law_no_foreign_claim_is_missed(
    state: DiskStateModel,
    resource: ResourceModel,
    me: Seq<char>,
    claim: ClaimModel,
)
    ensures
        state.foreign_claims_on(resource, me).contains(claim) <==> state.claims.contains(claim)
            && claim.user != me && claim.resources.contains(resource),
{
    lemma_filter_members(state.claims, crate::diskstate::foreign_on(resource, me));
}

/// A lock stands if the file is the claimant's alone, does not if it is not, and nothing is known of
/// it if the file is not there.
pub proof fn law_a_lock_stands_if_the_file_is_the_claimants_alone(
    lock: DeviceLockModel,
    files: Seq<FileInfoModel>,
)
    ensures
        intact(lock, files) is None <==> file_found(files, lock.path) is Err,
        intact(lock, files) == Some(true) <==> (file_found(files, lock.path) matches Ok(meta)
            && meta.uid == lock.claimant_uid && meta.mode == 0o600),
{
}

/// What force overrides is noted: that nothing protects a board, and that somebody uses one.
pub proof fn law_what_force_overrides_is_noted(
    specs: Seq<FpgaSpecModel>,
    host: HostModel,
    my_uid: Option<u32>,
    prog: Seq<char>,
    b: int,
)
    requires
        0 <= b < specs.len(),
    ensures
        specs[b].devices.len() == 0 && specs[b].cables.len() == 0 ==> enforceability(
            specs,
            true,
            prog,
        ).out.contains("--force given: recording an advisory claim that blocks nobody."@),
        foreign_users(specs[b], host, my_uid).len() > 0 ==> availability(
            specs,
            host,
            my_uid,
            true,
        ).out.contains(
            "--force given: claiming anyway. Cables they hold open are re-plugged; open device files keep working until closed."@,
        ),
{
    if specs[b].devices.len() == 0 && specs[b].cables.len() == 0 {
        let bad = specs.filter(is_unenforceable());
        lemma_filter_members(specs, is_unenforceable());
        assert(specs.contains(specs[b]));
        assert(bad.contains(specs[b]));
        let out = enforceability(specs, true, prog).out;
        assert(out[0] == "--force given: recording an advisory claim that blocks nobody."@);
    }
    if foreign_users(specs[b], host, my_uid).len() > 0 {
        let pred = is_used_by_others(host, my_uid);
        assert(pred(specs[b]));
        assert(some_item(specs, pred));
        let out = availability(specs, host, my_uid, true).out;
        assert(out[0]
            == "--force given: claiming anyway. Cables they hold open are re-plugged; open device files keep working until closed."@);
    }
}

/// A word that cannot be understood is repeated in the answer.
pub proof fn law_a_word_that_is_refused_is_repeated(
    args: Seq<Seq<char>>,
    known: Seq<Seq<char>>,
    is_timeout: spec_fn(Seq<char>) -> bool,
)
    requires
        args.len() > 0,
        !lists_a_timeout(args[0], is_timeout),
    ensures
        split(args, known, is_timeout) matches Err(why) ==> has_passage(why, args[0]),
{
    let named = resource_list(args[0]);
    let pred = is_ambiguous(is_timeout);
    lemma_first_where(named, pred);
    let at = first_where(named, pred);
    if at < named.len() {
        assert(pred(named[at]));
        assert(named[at] is Fpga);
    }
    if let Err(why) = split(args, known, is_timeout) {
        if names_known_resources(args[0], known) {
            lemma_there(why, args[0], "missing timeout after `"@.len() as int);
        } else {
            lemma_there(why, args[0], "unknown resource `"@.len() as int);
        }
    }
}

/// A path is not taken for a build output unless one of its steps is called `target` and the next one
/// `release` or `debug`.
pub proof fn law_other_paths_are_no_build_outputs(path: Seq<char>)
    requires
        !pieces(path, Cut::At('/')).contains("target"@) || (!pieces(path, Cut::At('/')).contains(
            "release"@,
        ) && !pieces(path, Cut::At('/')).contains("debug"@)),
    ensures
        !passes_build_output(path),
{
    let steps = path_steps(path);
    lemma_filter_members(pieces(path, Cut::At('/')), is_step());
    if passes_build_output(path) {
        let i = choose|i: int|
            0 <= i < steps.len() - 1 && #[trigger] steps[i] == "target"@ && (steps[i + 1]
                == "release"@ || steps[i + 1] == "debug"@);
        assert(steps.contains(steps[i]));
        assert(steps.contains(steps[i + 1]));
    }
}

/// A maintenance pass says how many claims ran out, and whether a hog ended with them.
pub proof fn law_a_maintenance_pass_counts(expired: nat)
    ensures
        maintenance_message(expired, true) == "Maintenance: "@ + decimal(expired)
            + " claims expired, "@ + decimal(1) + " hogs released"@,
        maintenance_message(expired, false) == "Maintenance: "@ + decimal(expired)
            + " claims expired, "@ + decimal(0) + " hogs released"@,
{
}

} // verus!
