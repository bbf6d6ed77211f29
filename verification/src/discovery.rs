//! Looking for boards and cables, and registering what was found.
use vstd::prelude::*;
use crate::cable::{
    all_serials, assign, assignments, lowered_aliases, lowered_products, serials_of, Cable,
    CableModel,
};
use crate::diskstate::{
    with_alias, DiskState, DiskStateModel, FpgaSpec, FpgaSpecModel, SettingsModel,
};
use crate::inventory::{merge_into_settings, merged, DiscoveredFpga, DiscoveredModel, MergeModel};
use crate::laws_of_cables::{is_first_of_its_alias, law_every_assigned_cable_is_listed};
use crate::seqs::{
    first_where, lemma_filter_next, lemma_first_where_is, lemma_map_next, lemma_take_all,
    lemma_views_add, lemma_views_push, views,
};
use crate::text::{
    decimal, decimal_text, is_among, padded, padded_text, same_text, text_or, text_or_else,
};

verus! {

/// Three padded columns and one that is not.
pub open spec fn board_columns(a: Seq<char>, b: Seq<char>, c: Seq<char>, d: Seq<char>) -> Seq<char> {
    padded(a, 15) + " "@ + padded(b, 12) + " "@ + padded(c, 16) + " "@ + d
}

pub open spec fn cable_columns(a: Seq<char>, b: Seq<char>, c: Seq<char>) -> Seq<char> {
    padded(a, 15) + " "@ + padded(b, 16) + " "@ + c
}

pub open spec fn to_found_line() -> spec_fn(DiscoveredModel) -> Seq<char> {
    |board: DiscoveredModel|
        board_columns(
            board.bdf,
            board.pci_id,
            text_or(board.driver, "-"@),
            text_or(board.numa_node, "?"@),
        )
}

pub open spec fn to_found_cable_line() -> spec_fn(CableModel) -> Seq<char> {
    |cable: CableModel| cable_columns(cable.serial, cable.product, cable.jtag)
}

/// What was found, as two tables.
pub open spec fn found_report(discovered: Seq<DiscoveredModel>, cables: Seq<CableModel>) -> Seq<
    Seq<char>,
> {
    let boards = (seq![board_columns("PCI address"@, "PCI id"@, "Driver"@, "NUMA"@)]
        + discovered.map_values(to_found_line())).push(Seq::empty());
    if cables.len() == 0 {
        boards
    } else {
        boards + (seq![cable_columns("Cable serial"@, "Product"@, "JTAG node"@)]
            + cables.map_values(to_found_cable_line())).push(Seq::empty())
    }
}

/// The boards after one cable was assigned.
pub open spec fn with_cable(fpgas: Seq<FpgaSpecModel>, pair: (Seq<char>, Seq<char>)) -> Seq<
    FpgaSpecModel,
> {
    let at = first_where(fpgas, with_alias(pair.0));
    if at < fpgas.len() {
        fpgas.update(
            at,
            FpgaSpecModel { cables: fpgas[at].cables.push(pair.1), ..fpgas[at] },
        )
    } else {
        fpgas
    }
}

/// The boards after the first `n` cables were assigned.
pub open spec fn with_cables(
    fpgas: Seq<FpgaSpecModel>,
    pairs: Seq<(Seq<char>, Seq<char>)>,
    n: nat,
) -> Seq<FpgaSpecModel>
    decreases n,
{
    if n == 0 {
        fpgas
    } else {
        with_cable(with_cables(fpgas, pairs, (n - 1) as nat), pairs[n - 1])
    }
}

/// What is said of the first `n` assignments.
pub open spec fn assignment_lines(
    fpgas: Seq<FpgaSpecModel>,
    pairs: Seq<(Seq<char>, Seq<char>)>,
    n: nat,
) -> Seq<Seq<char>>
    decreases n,
{
    if n == 0 {
        Seq::empty()
    } else {
        let earlier = assignment_lines(fpgas, pairs, (n - 1) as nat);
        let now = with_cables(fpgas, pairs, (n - 1) as nat);
        let pair = pairs[n - 1];
        if first_where(now, with_alias(pair.0)) < now.len() {
            earlier.push(pair.0 + ": cable "@ + pair.1 + " assigned"@)
        } else {
            earlier
        }
    }
}

pub open spec fn is_unassigned(serials: Seq<Seq<char>>) -> spec_fn(CableModel) -> bool {
    |cable: CableModel| !serials.contains(cable.serial)
}

pub open spec fn to_unassigned_line() -> spec_fn(CableModel) -> Seq<char> {
    |cable: CableModel|
        "NOTE: cable "@ + cable.serial + " ("@ + cable.product
            + ") is not assigned to a board; add its serial to settings.fpgas[].cables"@
}

pub open spec fn has_no_devices() -> spec_fn(FpgaSpecModel) -> bool {
    |spec: FpgaSpecModel| spec.devices.len() == 0
}

pub open spec fn to_no_devices_line() -> spec_fn(FpgaSpecModel) -> Seq<char> {
    |spec: FpgaSpecModel|
        "NOTE: "@ + spec.alias + " ("@ + spec.bdf
            + ") has no device nodes, so exclusive claims on it cannot be enforced."@
}

pub open spec fn placeholder_note() -> Seq<char> {
    "Registered under placeholder names (fpga0, fpga1, ...). Edit settings.fpgas in\nthe statefile to give them real names, and check that each `devices` list holds\nthe right character devices before relying on enforcement."@
}

pub open spec fn merge_message(merge: MergeModel) -> Seq<char> {
    decimal(merge.added) + " board(s) added, "@ + decimal(merge.updated) + " updated."@
}

/// What registering says: what was merged, which cables were assigned and which were not, and which
/// boards cannot be enforced.
pub open spec fn written_report(
    merge: MergeModel,
    pairs: Seq<(Seq<char>, Seq<char>)>,
    cables: Seq<CableModel>,
) -> Seq<Seq<char>> {
    let fpgas = with_cables(merge.fpgas, pairs, pairs.len());
    merge.notes.push(merge_message(merge)) + assignment_lines(merge.fpgas, pairs, pairs.len())
        + cables.filter(is_unassigned(all_serials(fpgas))).map_values(to_unassigned_line()) + (
    if merge.added > 0 {
        seq![placeholder_note()]
    } else {
        Seq::empty()
    }) + fpgas.filter(has_no_devices()).map_values(to_no_devices_line())
}

/// The cables that are assigned to boards once the boards are merged.
pub open spec fn pairs_found(merge: MergeModel, cables: Seq<CableModel>) -> Seq<
    (Seq<char>, Seq<char>),
> {
    assignments(
        merge.fpgas,
        cables,
        lowered_aliases(merge.fpgas),
        lowered_products(cables),
    )
}

fn four_columns(a: &str, b: &str, c: &str, d: &str) -> (line: String)
    ensures
        line@ == board_columns(a@, b@, c@, d@),
{
    let mut line = padded_text(a, 15);
    line.append(" ");
    line.append(padded_text(b, 12).as_str());
    line.append(" ");
    line.append(padded_text(c, 16).as_str());
    line.append(" ");
    line.append(d);
    line
}

fn three_columns(a: &str, b: &str, c: &str) -> (line: String)
    ensures
        line@ == cable_columns(a@, b@, c@),
{
    let mut line = padded_text(a, 15);
    line.append(" ");
    line.append(padded_text(b, 16).as_str());
    line.append(" ");
    line.append(c);
    line
}

fn show_boards(discovered: &[DiscoveredFpga]) -> (lines: Vec<String>)
    ensures
        views(lines@) == (seq![board_columns("PCI address"@, "PCI id"@, "Driver"@, "NUMA"@)]
            + views(discovered@).map_values(to_found_line())).push(Seq::empty()),
{
    let mut lines: Vec<String> = Vec::new();
    lines.push(four_columns("PCI address", "PCI id", "Driver", "NUMA"));
    let ghost first = views(lines@);
    let ghost all = views(discovered@);
    let ghost f = to_found_line();
    proof {
        assert(first =~= seq![board_columns("PCI address"@, "PCI id"@, "Driver"@, "NUMA"@)]);
        assert(first =~= first + all.take(0).map_values(f));
    }
    for i in 0..discovered.len()
        invariant
            all == views(discovered@),
            f == to_found_line(),
            views(lines@) == first + all.take(i as int).map_values(f),
    {
        let board = &discovered[i];
        let line = four_columns(
            board.bdf.as_str(),
            board.pci_id.as_str(),
            text_or_else(&board.driver, "-").as_str(),
            text_or_else(&board.numa_node, "?").as_str(),
        );
        proof {
            lemma_map_next(all, i as int, f);
            lemma_views_push(lines@, line);
            let before = all.take(i as int).map_values(f);
            assert((first + before).push(line@) =~= first + before.push(line@));
        }
        lines.push(line);
    }
    let blank = String::new();
    proof {
        lemma_take_all(all);
        lemma_views_push(lines@, blank);
        assert(blank@ =~= Seq::empty());
    }
    lines.push(blank);
    lines
}

fn show_found_cables(cables: &[Cable]) -> (lines: Vec<String>)
    ensures
        views(lines@) == (seq![cable_columns("Cable serial"@, "Product"@, "JTAG node"@)] + views(
            cables@,
        ).map_values(to_found_cable_line())).push(Seq::empty()),
{
    let mut lines: Vec<String> = Vec::new();
    lines.push(three_columns("Cable serial", "Product", "JTAG node"));
    let ghost first = views(lines@);
    let ghost all = views(cables@);
    let ghost f = to_found_cable_line();
    proof {
        assert(first =~= seq![cable_columns("Cable serial"@, "Product"@, "JTAG node"@)]);
        assert(first =~= first + all.take(0).map_values(f));
    }
    for i in 0..cables.len()
        invariant
            all == views(cables@),
            f == to_found_cable_line(),
            views(lines@) == first + all.take(i as int).map_values(f),
    {
        let line = three_columns(
            cables[i].serial.as_str(),
            cables[i].product.as_str(),
            cables[i].jtag.as_str(),
        );
        proof {
            lemma_map_next(all, i as int, f);
            lemma_views_push(lines@, line);
            let before = all.take(i as int).map_values(f);
            assert((first + before).push(line@) =~= first + before.push(line@));
        }
        lines.push(line);
    }
    let blank = String::new();
    proof {
        lemma_take_all(all);
        lemma_views_push(lines@, blank);
        assert(blank@ =~= Seq::empty());
    }
    lines.push(blank);
    lines
}

fn show_found(discovered: &[DiscoveredFpga], cables: &[Cable]) -> (lines: Vec<String>)
    ensures
        views(lines@) == found_report(views(discovered@), views(cables@)),
{
    let mut lines = show_boards(discovered);
    assert(views(cables@).len() == cables@.len());
    if cables.len() > 0 {
        let mut more = show_found_cables(cables);
        proof {
            lemma_views_add(lines@, more@);
        }
        lines.append(&mut more);
    }
    lines
}

fn position_of(fpgas: &[FpgaSpec], alias: &str) -> (at: usize)
    ensures
        at == first_where(views(fpgas@), with_alias(alias@)),
        at <= fpgas@.len(),
{
    let ghost pred = with_alias(alias@);
    for i in 0..fpgas.len()
        invariant
            pred == with_alias(alias@),
            forall|j: int| 0 <= j < i ==> !pred(#[trigger] views(fpgas@)[j]),
    {
        if same_text(fpgas[i].alias.as_str(), alias) {
            proof {
                lemma_first_where_is(views(fpgas@), pred, i as int);
            }
            return i;
        }
    }
    proof {
        lemma_first_where_is(views(fpgas@), pred, fpgas@.len() as int);
    }
    fpgas.len()
}

/// Give each board the cable that was assigned to it.
pub fn assign_cables(state: &mut DiskState, pairs: &[(String, String)]) -> (lines: Vec<String>)
    ensures
        final(state)@ == (DiskStateModel {
            settings: SettingsModel {
                fpgas: with_cables(old(state)@.settings.fpgas, views(pairs@), pairs@.len()),
                ..old(state)@.settings
            },
            ..old(state)@
        }),
        views(lines@) == assignment_lines(
            old(state)@.settings.fpgas,
            views(pairs@),
            pairs@.len(),
        ),
        forall|b: int, p: int|
            0 <= p < pairs@.len() && #[trigger] is_first_of_its_alias(
                old(state)@.settings.fpgas,
                b,
            ) && old(state)@.settings.fpgas[b].alias == (#[trigger] views(pairs@)[p]).0
                ==> final(state)@.settings.fpgas[b].cables.contains(views(pairs@)[p].1),
        forall|b: int|
            0 <= b < old(state)@.settings.fpgas.len() && !#[trigger] is_first_of_its_alias(
                old(state)@.settings.fpgas,
                b,
            ) ==> final(state)@.settings.fpgas[b] == old(state)@.settings.fpgas[b],
{
    let ghost before = state@;
    let ghost start = before.settings.fpgas;
    let ghost all = views(pairs@);
    let mut lines: Vec<String> = Vec::new();
    assert(views(lines@) =~= Seq::empty());
    for i in 0..pairs.len()
        invariant
            all == views(pairs@),
            state@ == (DiskStateModel {
                settings: SettingsModel {
                    fpgas: with_cables(start, all, i as nat),
                    ..before.settings
                },
                ..before
            }),
            views(lines@) == assignment_lines(start, all, i as nat),
    {
        let alias = pairs[i].0.as_str();
        let at: usize = position_of(&state.settings.fpgas, alias);
        let ghost specs = state.settings.fpgas@;
        let ghost fpgas = state@.settings.fpgas;
        assert(all[i as int] == (pairs@[i as int].0@, pairs@[i as int].1@));
        if at < state.settings.fpgas.len() {
            let mut spec = state.settings.fpgas[at].clone();
            let serial = pairs[i].1.clone();
            proof {
                lemma_views_push(spec.cables@, serial);
            }
            spec.cables.push(serial);
            proof {
                assert(views(specs.update(at as int, spec)) =~= fpgas.update(at as int, spec@));
            }
            state.settings.fpgas.set(at, spec);
            let mut line = alias.to_string();
            line.append(": cable ");
            line.append(pairs[i].1.as_str());
            line.append(" assigned");
            proof {
                lemma_views_push(lines@, line);
            }
            lines.push(line);
        }
    }
    proof {
        law_every_assigned_cable_is_listed(start, all);
        let after = state@.settings.fpgas;
        assert forall|b: int|
            0 <= b < start.len() && !#[trigger] is_first_of_its_alias(
                start,
                b,
            ) implies after[b] == start[b] by {
            assert(after[b].alias == start[b].alias);
        }
    }
    lines
}

fn show_unassigned(cables: &[Cable], serials: &[String]) -> (lines: Vec<String>)
    ensures
        views(lines@) == views(cables@).filter(is_unassigned(views(serials@))).map_values(
            to_unassigned_line(),
        ),
{
    let ghost pred = is_unassigned(views(serials@));
    let ghost f = to_unassigned_line();
    let ghost all = views(cables@);
    let mut lines: Vec<String> = Vec::new();
    proof {
        reveal(Seq::filter);
        assert(views(lines@) =~= all.take(0).filter(pred).map_values(f));
    }
    for i in 0..cables.len()
        invariant
            pred == is_unassigned(views(serials@)),
            f == to_unassigned_line(),
            all == views(cables@),
            views(lines@) == all.take(i as int).filter(pred).map_values(f),
    {
        let cable = &cables[i];
        proof {
            lemma_filter_next(all, i as int, pred);
        }
        if !is_among(cable.serial.as_str(), serials) {
            let mut line = "NOTE: cable ".to_string();
            line.append(cable.serial.as_str());
            line.append(" (");
            line.append(cable.product.as_str());
            line.append(
                ") is not assigned to a board; add its serial to settings.fpgas[].cables",
            );
            proof {
                let kept = all.take(i as int).filter(pred);
                assert(kept.push(cable@).map_values(f) =~= kept.map_values(f).push(line@));
                lemma_views_push(lines@, line);
            }
            lines.push(line);
        }
    }
    proof {
        lemma_take_all(all);
    }
    lines
}

fn show_without_devices(fpgas: &[FpgaSpec]) -> (lines: Vec<String>)
    ensures
        views(lines@) == views(fpgas@).filter(has_no_devices()).map_values(to_no_devices_line()),
{
    let ghost pred = has_no_devices();
    let ghost f = to_no_devices_line();
    let ghost all = views(fpgas@);
    let mut lines: Vec<String> = Vec::new();
    proof {
        reveal(Seq::filter);
        assert(views(lines@) =~= all.take(0).filter(pred).map_values(f));
    }
    for i in 0..fpgas.len()
        invariant
            pred == has_no_devices(),
            f == to_no_devices_line(),
            all == views(fpgas@),
            views(lines@) == all.take(i as int).filter(pred).map_values(f),
    {
        let spec = &fpgas[i];
        proof {
            lemma_filter_next(all, i as int, pred);
            assert(spec@.devices.len() == spec.devices@.len());
        }
        if spec.devices.len() == 0 {
            let mut line = "NOTE: ".to_string();
            line.append(spec.alias.as_str());
            line.append(" (");
            line.append(spec.bdf.as_str());
            line.append(") has no device nodes, so exclusive claims on it cannot be enforced.");
            proof {
                let kept = all.take(i as int).filter(pred);
                assert(kept.push(spec@).map_values(f) =~= kept.map_values(f).push(line@));
                lemma_views_push(lines@, line);
            }
            lines.push(line);
        }
    }
    proof {
        lemma_take_all(all);
    }
    lines
}

/// Merge the boards that were found into the settings, assign cables to boards, and say what was
/// done; see [`written_report`].
pub fn register(
    state: &mut DiskState,
    discovered: &[DiscoveredFpga],
    cables: &[Cable],
    dev: &[String],
    existing: &[String],
) -> (lines: Vec<String>)
    requires
        2 * discovered@.len() <= usize::MAX,
    ensures
        ({
            let merge = merged(
                old(state)@.settings.fpgas,
                views(discovered@),
                discovered@.len(),
                views(dev@),
                views(existing@),
            );
            let pairs = pairs_found(merge, views(cables@));
            &&& final(state)@ == DiskStateModel {
                settings: SettingsModel {
                    fpgas: with_cables(merge.fpgas, pairs, pairs.len()),
                    ..old(state)@.settings
                },
                ..old(state)@
            }
            &&& views(lines@) == written_report(merge, pairs, views(cables@))
        }),
{
    let ghost before = state@;
    let ghost merge = merged(
        before.settings.fpgas,
        views(discovered@),
        discovered@.len(),
        views(dev@),
        views(existing@),
    );
    let report = merge_into_settings(state, discovered, dev, existing);
    let mut lines = report.notes;
    let mut message = decimal_text(report.added as u64);
    message.append(" board(s) added, ");
    message.append(decimal_text(report.updated as u64).as_str());
    message.append(" updated.");
    proof {
        lemma_views_push(lines@, message);
    }
    lines.push(message);
    let pairs = assign(&state.settings.fpgas, cables);
    assert(views(pairs@).len() == pairs@.len());
    let mut assigned = assign_cables(state, &pairs);
    proof {
        lemma_views_add(lines@, assigned@);
    }
    lines.append(&mut assigned);
    let serials = serials_of(&state.settings.fpgas);
    let mut unassigned = show_unassigned(cables, &serials);
    proof {
        lemma_views_add(lines@, unassigned@);
    }
    lines.append(&mut unassigned);
    let mut placeholders: Vec<String> = Vec::new();
    if report.added > 0 {
        placeholders.push(
            "Registered under placeholder names (fpga0, fpga1, ...). Edit settings.fpgas in\nthe statefile to give them real names, and check that each `devices` list holds\nthe right character devices before relying on enforcement.".to_string(),
        );
        assert(views(placeholders@) =~= seq![placeholder_note()]);
    } else {
        assert(views(placeholders@) =~= Seq::empty());
    }
    proof {
        lemma_views_add(lines@, placeholders@);
    }
    lines.append(&mut placeholders);
    let mut bare = show_without_devices(&state.settings.fpgas);
    proof {
        lemma_views_add(lines@, bare@);
    }
    lines.append(&mut bare);
    lines
}

/// Show what was found, and register it if it is to be written. `dev` holds the names in the
/// directory of device files, and `existing` those of the configured device files that exist.
pub fn do_discover(
    write: bool,
    state: &mut DiskState,
    discovered: &[DiscoveredFpga],
    cables: &[Cable],
    dev: &[String],
    existing: &[String],
) -> (lines: Vec<String>)
    requires
        2 * discovered@.len() <= usize::MAX,
    ensures
        ({
            let merge = merged(
                old(state)@.settings.fpgas,
                views(discovered@),
                discovered@.len(),
                views(dev@),
                views(existing@),
            );
            let pairs = pairs_found(merge, views(cables@));
            let found = found_report(views(discovered@), views(cables@));
            if discovered@.len() == 0 {
                &&& final(state)@ == old(state)@
                &&& views(lines@) == seq!["No FPGA-like PCI devices found."@]
            } else if !write {
                &&& final(state)@ == old(state)@
                &&& views(lines@) == found.push(
                    "Nothing written. Re-run with --write to register these boards."@,
                )
            } else {
                &&& final(state)@ == DiskStateModel {
                    settings: SettingsModel {
                        fpgas: with_cables(merge.fpgas, pairs, pairs.len()),
                        ..old(state)@.settings
                    },
                    ..old(state)@
                }
                &&& views(lines@) == found + written_report(merge, pairs, views(cables@))
            }
        }),
{
    if discovered.len() == 0 {
        let mut lines: Vec<String> = Vec::new();
        lines.push("No FPGA-like PCI devices found.".to_string());
        assert(views(lines@) =~= seq!["No FPGA-like PCI devices found."@]);
        return lines;
    }
    let mut lines = show_found(discovered, cables);
    if !write {
        let hint = "Nothing written. Re-run with --write to register these boards.".to_string();
        proof {
            lemma_views_push(lines@, hint);
        }
        lines.push(hint);
        return lines;
    }
    let mut more = register(state, discovered, cables, dev, existing);
    proof {
        lemma_views_add(lines@, more@);
    }
    lines.append(&mut more);
    lines
}

} // verus!
