//! What holds of discovery: which boards and files are found, and how they get into the settings.
use vstd::prelude::*;
use crate::cable::{all_serials, CableModel};
use crate::discovery::{
    assignment_lines, has_no_devices, is_unassigned, pairs_found, to_no_devices_line,
    to_unassigned_line, with_cables, written_report,
};
use crate::diskstate::FpgaSpecModel;
use crate::inventory::{
    at_bdf, boards_found, by_bdf, count_present, device_prefix_of, guessed_devices, in_dev,
    merge_one, merged, on_driver, prefixed_devices, refresh_count, refreshed, that_exists, to_board,
    with_prefix, DiscoveredModel, MergeModel, PciEntryModel,
};
use crate::laws_of_boards::lemma_sorted_members;
use crate::laws_of_cables::{
    belong_together, is_first_of_its_alias, law_every_assigned_cable_is_listed,
    law_every_cable_that_belongs_to_a_board_is_assigned, lemma_two_before_filtering,
    lemma_two_of_filtered, mentions,
};
use crate::seqs::{
    first_where, in_order, lemma_filter_members, lemma_first_where, lemma_somes_members,
    lemma_sorted, somes,
};
use crate::text::{law_texts_are_totally_ordered, starts_with, text_order, trim, without_prefixes};

verus! {

/// PCI device `e` comes from a maker of FPGAs, and this is what it says of the board.
pub open spec fn is_board_of(pci: Seq<PciEntryModel>, e: int, board: DiscoveredModel) -> bool {
    &&& 0 <= e < pci.len()
    &&& pci[e].vendor matches Some(vendor)
    &&& trim(vendor) == "0x10ee"@ || trim(vendor) == "0x1172"@
    &&& board.bdf == pci[e].name
    &&& board.pci_id == without_prefixes(trim(vendor), "0x"@) + ":"@ + without_prefixes(
        match pci[e].device {
            Some(device) => trim(device),
            None => Seq::empty(),
        },
        "0x"@,
    )
    &&& board.driver == pci[e].driver
    &&& board.numa_node == match pci[e].numa_node {
        Some(node) => Some(trim(node)),
        None => None,
    }
}

/// Every PCI device of a maker of FPGAs is found, and nothing else.
pub proof fn law_every_board_is_found(pci: Seq<PciEntryModel>, board: DiscoveredModel)
    ensures
        boards_found(pci).contains(board) <==> exists|e: int| #[trigger] is_board_of(pci, e, board),
{
    let mapped = pci.map_values(to_board());
    lemma_somes_members(mapped);
    lemma_sorted_members(somes(mapped), by_bdf());
    if boards_found(pci).contains(board) {
        assert(mapped.contains(Some(board)));
        let e = choose|e: int| 0 <= e < mapped.len() && mapped[e] == Some(board);
        assert(to_board()(pci[e]) == Some(board));
        assert(is_board_of(pci, e, board));
    }
    if exists|e: int| #[trigger] is_board_of(pci, e, board) {
        let e = choose|e: int| #[trigger] is_board_of(pci, e, board);
        assert(mapped[e] == Some(board));
        assert(mapped.contains(Some(board)));
    }
}

/// The files of a board are guessed from its driver: all of those in `/dev` whose names begin as the
/// driver names its files, and none as soon as a second board has the same driver.
pub proof fn law_every_file_of_the_driver_is_guessed(
    all: Seq<DiscoveredModel>,
    b: int,
    dev: Seq<Seq<char>>,
    path: Seq<char>,
)
    requires
        0 <= b < all.len(),
    ensures
        guessed_devices(all[b], all, dev).contains(path) <==> {
            &&& all[b].driver matches Some(driver)
            &&& forall|j: int|
                0 <= j < all.len() && (#[trigger] all[j]).driver == Some(driver) ==> j == b
            &&& device_prefix_of(driver) matches Some(prefix)
            &&& exists|d: int|
                0 <= d < dev.len() && starts_with(#[trigger] dev[d], prefix) && path == "/dev/"@
                    + dev[d]
        },
{
    if let Some(driver) = all[b].driver {
        let pred = on_driver(driver);
        let same = all.filter(pred);
        lemma_filter_members(all, pred);
        assert(pred(all[b]));
        assert(all.contains(all[b]));
        assert(same.contains(all[b]));
        if same.len() == 1 {
            assert forall|j: int| 0 <= j < all.len() && (#[trigger] all[j]).driver == Some(
                driver,
            ) implies j == b by {
                if j < b {
                    lemma_two_of_filtered(all, pred, j, b);
                } else if b < j {
                    lemma_two_of_filtered(all, pred, b, j);
                }
            }
        } else {
            let at = lemma_two_before_filtering(all, pred);
            assert(all[at.0].driver == Some(driver) && all[at.1].driver == Some(driver));
        }
        if let Some(prefix) = device_prefix_of(driver) {
            let kept = dev.filter(with_prefix(prefix));
            let named = kept.map_values(in_dev());
            lemma_filter_members(dev, with_prefix(prefix));
            lemma_sorted_members(named, text_order());
            if prefixed_devices(dev, prefix).contains(path) {
                let k = choose|k: int| 0 <= k < named.len() && named[k] == path;
                assert(kept.contains(kept[k]));
                let d = choose|d: int| 0 <= d < dev.len() && dev[d] == kept[k];
                assert(starts_with(dev[d], prefix));
            }
            if exists|d: int|
                0 <= d < dev.len() && starts_with(#[trigger] dev[d], prefix) && path == "/dev/"@
                    + dev[d] {
                let d = choose|d: int|
                    0 <= d < dev.len() && starts_with(#[trigger] dev[d], prefix) && path
                        == "/dev/"@ + dev[d];
                assert(dev.contains(dev[d]));
                assert(kept.contains(dev[d]));
                let k = choose|k: int| 0 <= k < kept.len() && kept[k] == dev[d];
                assert(named[k] == path);
            }
        }
    }
}

/// Board `i` is the first at its address.
pub open spec fn is_first_at(fpgas: Seq<FpgaSpecModel>, i: int, bdf: Seq<char>) -> bool {
    &&& 0 <= i < fpgas.len()
    &&& fpgas[i].bdf == bdf
    &&& forall|j: int| 0 <= j < i ==> (#[trigger] fpgas[j]).bdf != bdf
}

/// One of the files exists.
pub open spec fn one_exists(devices: Seq<Seq<char>>, existing: Seq<Seq<char>>) -> bool {
    exists|d: int| 0 <= d < devices.len() && existing.contains(#[trigger] devices[d])
}

/// What becomes of board `i` that was found: it gets the id that the card reports. A board that was
/// known keeps its name, its cables and, unless none of them exists and others were found, its
/// files. A new one has the files that were found and no cables.
pub open spec fn is_registered(
    fpgas: Seq<FpgaSpecModel>,
    i: int,
    after: FpgaSpecModel,
    found: DiscoveredModel,
    guessed: Seq<Seq<char>>,
    existing: Seq<Seq<char>>,
) -> bool {
    &&& after.bdf == found.bdf
    &&& after.pci_id == found.pci_id
    &&& i < fpgas.len() ==> {
        &&& after.alias == fpgas[i].alias
        &&& after.cables == fpgas[i].cables
        &&& one_exists(fpgas[i].devices, existing) || guessed.len() == 0 ==> after.devices
            == fpgas[i].devices
        &&& !one_exists(fpgas[i].devices, existing) && guessed.len() > 0 ==> after.devices
            == guessed
    }
    &&& i >= fpgas.len() ==> after.devices == guessed && after.cables.len() == 0
}

/// No two boards were found at one address.
pub open spec fn addresses_differ(discovered: Seq<DiscoveredModel>) -> bool {
    forall|i: int, j: int|
        0 <= i < j < discovered.len() ==> (#[trigger] discovered[i]).bdf != (
        #[trigger] discovered[j]).bdf
}

proof fn lemma_one_exists(devices: Seq<Seq<char>>, existing: Seq<Seq<char>>)
    ensures
        count_present(devices, existing) == 0 <==> !one_exists(devices, existing),
{
    let pred = that_exists(existing);
    let kept = devices.filter(pred);
    lemma_filter_members(devices, pred);
    if kept.len() > 0 {
        assert(kept.contains(kept[0]));
        let d = choose|d: int| 0 <= d < devices.len() && devices[d] == kept[0];
        assert(existing.contains(devices[d]));
    }
    if one_exists(devices, existing) {
        let d = choose|d: int| 0 <= d < devices.len() && existing.contains(#[trigger] devices[d]);
        assert(devices.contains(devices[d]));
        assert(kept.contains(devices[d]));
    }
}

/// Board `i` is none of the first `n` that were found.
spec fn is_untouched(
    after: Seq<FpgaSpecModel>,
    discovered: Seq<DiscoveredModel>,
    n: int,
    i: int,
) -> bool {
    forall|k: int| 0 <= k < n ==> !is_first_at(after, i, (#[trigger] discovered[k]).bdf)
}

proof fn lemma_merged(
    fpgas: Seq<FpgaSpecModel>,
    discovered: Seq<DiscoveredModel>,
    n: nat,
    dev: Seq<Seq<char>>,
    existing: Seq<Seq<char>>,
)
    requires
        addresses_differ(discovered),
        n <= discovered.len(),
    ensures
        ({
            let merge = merged(fpgas, discovered, n, dev, existing);
            let after = merge.fpgas;
            &&& after.len() == fpgas.len() + merge.added
            &&& forall|i: int| 0 <= i < fpgas.len() ==> (#[trigger] after[i]).bdf == fpgas[i].bdf
            &&& forall|k: int|
                0 <= k < n ==> is_found_in(
                    fpgas,
                    after,
                    #[trigger] discovered[k],
                    guessed_devices(discovered[k], discovered, dev),
                    existing,
                )
            &&& forall|i: int|
                0 <= i < after.len() && #[trigger] is_untouched(after, discovered, n as int, i)
                    ==> i < fpgas.len() && after[i] == fpgas[i]
        }),
    decreases n,
{
    if n > 0 {
        let m = (n - 1) as nat;
        lemma_merged(fpgas, discovered, m, dev, existing);
        let before = merged(fpgas, discovered, m, dev, existing);
        let was = before.fpgas;
        let found = discovered[m as int];
        let guessed = guessed_devices(found, discovered, dev);
        let merge = merge_one(before, found, guessed, existing);
        let after = merge.fpgas;
        assert(merged(fpgas, discovered, n, dev, existing) == merge);
        let pred = at_bdf(found.bdf);
        let at = first_where(was, pred);
        lemma_first_where(was, pred);
        assert forall|j: int| 0 <= j < at implies (#[trigger] was[j]).bdf != found.bdf by {
            assert(!pred(was[j]));
        }
        assert forall|j: int| 0 <= j < was.len() implies (#[trigger] was[j]).bdf
            == after[j].bdf by {}
        if at < was.len() {
            assert(pred(was[at]));
            assert(is_untouched(was, discovered, m as int, at)) by {
                assert forall|k: int| 0 <= k < m implies !is_first_at(
                    was,
                    at,
                    (#[trigger] discovered[k]).bdf,
                ) by {
                    assert(discovered[k].bdf != discovered[m as int].bdf);
                }
            }
            lemma_one_exists(fpgas[at].devices, existing);
            assert(after[at] == refreshed(fpgas[at], found, guessed, existing));
            assert(is_first_at(after, at, found.bdf)) by {
                assert forall|j: int| 0 <= j < at implies (#[trigger] after[j]).bdf
                    != found.bdf by {
                    assert(was[j].bdf != found.bdf);
                }
            }
        } else {
            assert(after[at].bdf == found.bdf);
            assert(is_first_at(after, at, found.bdf)) by {
                assert forall|j: int| 0 <= j < at implies (#[trigger] after[j]).bdf
                    != found.bdf by {
                    assert(was[j].bdf != found.bdf);
                }
            }
        }
        assert(is_registered(fpgas, at, after[at], found, guessed, existing));
        assert(is_first_at(after, at, discovered[m as int].bdf));
        assert forall|i: int, bdf: Seq<char>|
            0 <= i < was.len() implies is_first_at(was, i, bdf) == #[trigger] is_first_at(
            after,
            i,
            bdf,
        ) by {
            assert(was[i].bdf == after[i].bdf);
            if is_first_at(was, i, bdf) {
                assert forall|j: int| 0 <= j < i implies (#[trigger] after[j]).bdf != bdf by {
                    assert(was[j].bdf != bdf);
                }
            }
            if is_first_at(after, i, bdf) {
                assert forall|j: int| 0 <= j < i implies (#[trigger] was[j]).bdf != bdf by {
                    assert(after[j].bdf != bdf);
                }
            }
        }
        assert forall|k: int| 0 <= k < n implies is_found_in(
            fpgas,
            after,
            #[trigger] discovered[k],
            guessed_devices(discovered[k], discovered, dev),
            existing,
        ) by {
            let guess = guessed_devices(discovered[k], discovered, dev);
            if k < m {
                assert(is_found_in(fpgas, was, discovered[k], guess, existing));
                let i = choose|i: int| #[trigger]
                    is_first_at(was, i, discovered[k].bdf) && is_registered(
                        fpgas,
                        i,
                        was[i],
                        discovered[k],
                        guess,
                        existing,
                    );
                assert(discovered[k].bdf != discovered[m as int].bdf);
                assert(i != at);
                assert(after[i] == was[i]);
                assert(is_first_at(after, i, discovered[k].bdf));
            } else {
                assert(is_first_at(after, at, discovered[k].bdf));
            }
        }
        assert forall|i: int|
            0 <= i < after.len() && #[trigger] is_untouched(
                after,
                discovered,
                n as int,
                i,
            ) implies i < fpgas.len() && after[i] == fpgas[i] by {
            assert(!is_first_at(after, i, discovered[m as int].bdf));
            assert(i != at);
            assert(is_untouched(was, discovered, m as int, i)) by {
                assert forall|k: int| 0 <= k < m implies !is_first_at(
                    was,
                    i,
                    (#[trigger] discovered[k]).bdf,
                ) by {
                    assert(!is_first_at(after, i, discovered[k].bdf));
                }
            }
            assert(after[i] == was[i]);
        }
    }
}

/// The board that was found stands at its address as it should.
pub open spec fn is_found_in(
    fpgas: Seq<FpgaSpecModel>,
    after: Seq<FpgaSpecModel>,
    found: DiscoveredModel,
    guessed: Seq<Seq<char>>,
    existing: Seq<Seq<char>>,
) -> bool {
    exists|i: int| #[trigger]
        is_first_at(after, i, found.bdf) && is_registered(
            fpgas,
            i,
            after[i],
            found,
            guessed,
            existing,
        )
}

/// Every board that was found is in the settings afterwards, as it was found; every other board is
/// as it was; and the number of added boards is told.
pub proof fn law_every_found_board_is_registered(
    fpgas: Seq<FpgaSpecModel>,
    discovered: Seq<DiscoveredModel>,
    dev: Seq<Seq<char>>,
    existing: Seq<Seq<char>>,
)
    requires
        addresses_differ(discovered),
    ensures
        ({
            let merge = merged(fpgas, discovered, discovered.len(), dev, existing);
            &&& merge.fpgas.len() == fpgas.len() + merge.added
            &&& forall|k: int|
                0 <= k < discovered.len() ==> is_found_in(
                    fpgas,
                    merge.fpgas,
                    #[trigger] discovered[k],
                    guessed_devices(discovered[k], discovered, dev),
                    existing,
                )
            &&& forall|i: int|
                0 <= i < fpgas.len() && is_absent(discovered, (#[trigger] fpgas[i]).bdf)
                    ==> merge.fpgas[i] == fpgas[i]
        }),
{
    let n = discovered.len();
    lemma_merged(fpgas, discovered, n, dev, existing);
    let after = merged(fpgas, discovered, n, dev, existing).fpgas;
    assert forall|i: int|
        0 <= i < fpgas.len() && is_absent(discovered, (#[trigger] fpgas[i]).bdf) implies after[i]
        == fpgas[i] by {
        assert(after[i].bdf == fpgas[i].bdf);
        assert(is_untouched(after, discovered, n as int, i)) by {
            assert forall|k: int| 0 <= k < n implies !is_first_at(
                after,
                i,
                (#[trigger] discovered[k]).bdf,
            ) by {
                assert(discovered[k].bdf != fpgas[i].bdf);
            }
        }
    }
}

/// Nothing was found at the address.
pub open spec fn is_absent(discovered: Seq<DiscoveredModel>, bdf: Seq<char>) -> bool {
    forall|k: int| 0 <= k < discovered.len() ==> (#[trigger] discovered[k]).bdf != bdf
}

/// Whatever is left to do by hand is said: every cable without a board, and every board without
/// files.
pub proof fn law_what_is_left_to_do_is_said(
    merge: MergeModel,
    pairs: Seq<(Seq<char>, Seq<char>)>,
    cables: Seq<CableModel>,
)
    ensures
        ({
            let fpgas = with_cables(merge.fpgas, pairs, pairs.len());
            let lines = written_report(merge, pairs, cables);
            &&& forall|k: int|
                0 <= k < cables.len() && !all_serials(fpgas).contains((#[trigger] cables[k]).serial)
                    ==> lines.contains(
                    "NOTE: cable "@ + cables[k].serial + " ("@ + cables[k].product
                        + ") is not assigned to a board; add its serial to settings.fpgas[].cables"@,
                )
            &&& forall|b: int|
                0 <= b < fpgas.len() && (#[trigger] fpgas[b]).devices.len() == 0 ==> lines.contains(
                    "NOTE: "@ + fpgas[b].alias + " ("@ + fpgas[b].bdf
                        + ") has no device nodes, so exclusive claims on it cannot be enforced."@,
                )
            &&& forall|i: int|
                0 <= i < merge.notes.len() ==> lines.contains(#[trigger] merge.notes[i])
        }),
{
    let fpgas = with_cables(merge.fpgas, pairs, pairs.len());
    let lines = written_report(merge, pairs, cables);
    let a = merge.notes.push(crate::discovery::merge_message(merge));
    let b = assignment_lines(merge.fpgas, pairs, pairs.len());
    let lone = cables.filter(is_unassigned(all_serials(fpgas)));
    let c = lone.map_values(to_unassigned_line());
    let d = if merge.added > 0 {
        seq![crate::discovery::placeholder_note()]
    } else {
        Seq::empty()
    };
    let bare = fpgas.filter(has_no_devices());
    let e = bare.map_values(to_no_devices_line());
    assert(lines == a + b + c + d + e);
    lemma_filter_members(cables, is_unassigned(all_serials(fpgas)));
    lemma_filter_members(fpgas, has_no_devices());
    assert forall|k: int|
        0 <= k < cables.len() && !all_serials(fpgas).contains(
            (#[trigger] cables[k]).serial,
        ) implies lines.contains(
        "NOTE: cable "@ + cables[k].serial + " ("@ + cables[k].product
            + ") is not assigned to a board; add its serial to settings.fpgas[].cables"@,
    ) by {
        assert(cables.contains(cables[k]));
        assert(lone.contains(cables[k]));
        let i = choose|i: int| 0 <= i < lone.len() && lone[i] == cables[k];
        assert(c[i] == to_unassigned_line()(cables[k]));
        assert(lines[a.len() + b.len() + i] == c[i]);
    }
    assert forall|k: int| 0 <= k < fpgas.len() && (#[trigger] fpgas[k]).devices.len()
        == 0 implies lines.contains(
        "NOTE: "@ + fpgas[k].alias + " ("@ + fpgas[k].bdf
            + ") has no device nodes, so exclusive claims on it cannot be enforced."@,
    ) by {
        assert(fpgas.contains(fpgas[k]));
        assert(bare.contains(fpgas[k]));
        let i = choose|i: int| 0 <= i < bare.len() && bare[i] == fpgas[k];
        assert(e[i] == to_no_devices_line()(fpgas[k]));
        assert(lines[a.len() + b.len() + c.len() + d.len() + i] == e[i]);
    }
    assert forall|i: int| 0 <= i < merge.notes.len() implies lines.contains(
        #[trigger] merge.notes[i],
    ) by {
        assert(lines[i] == merge.notes[i]);
    }
}

/// How drivers name their files: `coyote_driver` and its kin after themselves, a few others by
/// their own name, and no other driver is known.
pub proof fn law_known_drivers_name_their_files(driver: Seq<char>, kin: Seq<char>)
    ensures
        device_prefix_of("coyote_driver_"@ + kin) == Some("coyote_"@ + kin + "_fpga_"@),
        driver == "xdma"@ || driver == "ami"@ || driver == "xocl"@ || driver == "xclmgmt"@
            ==> device_prefix_of(driver) == Some(driver),
        device_prefix_of("coyote_driver"@) == Some("coyote_fpga_"@),
        device_prefix_of(driver) is Some ==> starts_with(driver, "coyote_driver_"@) || driver
            == "coyote_driver"@ || driver == "xdma"@ || driver == "ami"@ || driver == "xocl"@
            || driver == "xclmgmt"@,
{
    reveal_strlit("coyote_driver_");
    reveal_strlit("coyote_driver");
    reveal_strlit("xdma");
    reveal_strlit("ami");
    reveal_strlit("xocl");
    reveal_strlit("xclmgmt");
    let head = "coyote_driver_"@;
    let long = head + kin;
    assert(long.take(head.len() as int) =~= head);
    assert(long.skip(head.len() as int) =~= kin);
    assert("xdma"@.len() == 4 && "ami"@.len() == 3 && "xocl"@.len() == 4 && "xclmgmt"@.len() == 7);
    assert("coyote_driver"@.len() == 13 && head.len() == 14);
    assert("xdma"@[1] == 'd' && "xocl"@[1] == 'o');
}

proof fn lemma_no_change(
    fpgas: Seq<FpgaSpecModel>,
    discovered: Seq<DiscoveredModel>,
    n: nat,
    dev: Seq<Seq<char>>,
    existing: Seq<Seq<char>>,
)
    ensures
        ({
            let merge = merged(fpgas, discovered, n, dev, existing);
            merge.added == 0 && merge.updated == 0 ==> merge.fpgas == fpgas
        }),
    decreases n,
{
    if n > 0 {
        lemma_no_change(fpgas, discovered, (n - 1) as nat, dev, existing);
        let before = merged(fpgas, discovered, (n - 1) as nat, dev, existing);
        let merge = merged(fpgas, discovered, n, dev, existing);
        let found = discovered[n - 1];
        let guessed = guessed_devices(found, discovered, dev);
        let at = first_where(before.fpgas, at_bdf(found.bdf));
        lemma_first_where(before.fpgas, at_bdf(found.bdf));
        if merge.added == 0 && merge.updated == 0 {
            assert(at < before.fpgas.len());
            let spec = before.fpgas[at];
            assert(refreshed(spec, found, guessed, existing) == spec);
            assert(before.fpgas.update(at, spec) =~= before.fpgas);
        }
    }
}

/// What is counted as nothing added and nothing updated has changed nothing.
pub proof fn law_every_change_is_counted(
    fpgas: Seq<FpgaSpecModel>,
    discovered: Seq<DiscoveredModel>,
    dev: Seq<Seq<char>>,
    existing: Seq<Seq<char>>,
)
    ensures
        ({
            let merge = merged(fpgas, discovered, discovered.len(), dev, existing);
            merge.added == 0 && merge.updated == 0 ==> merge.fpgas == fpgas
        }),
{
    lemma_no_change(fpgas, discovered, discovered.len(), dev, existing);
}

/// Every card that reports another id, and every list of files that gives way, counts once.
pub proof fn law_each_change_of_a_board_counts_once(
    spec: FpgaSpecModel,
    found: DiscoveredModel,
    guessed: Seq<Seq<char>>,
    existing: Seq<Seq<char>>,
)
    ensures
        ({
            let after = refreshed(spec, found, guessed, existing);
            let count = refresh_count(spec, found, guessed, existing);
            &&& count == 0 <==> after == spec
            &&& count == 2 <==> after.pci_id != spec.pci_id && after.devices != spec.devices
            &&& count <= 2
        }),
{
}

/// Registering gives every board the cable that belongs to it, on top of what the merge left.
pub proof fn law_registering_gives_every_board_its_cable(
    merge: MergeModel,
    cables: Seq<CableModel>,
    b: int,
    k: int,
)
    requires
        belong_together(merge.fpgas, cables, b, k),
    ensures
        ({
            let pairs = pairs_found(merge, cables);
            with_cables(merge.fpgas, pairs, pairs.len())[b].cables.contains(cables[k].serial)
        }),
{
    let fpgas = merge.fpgas;
    let pairs = pairs_found(merge, cables);
    law_every_cable_that_belongs_to_a_board_is_assigned(fpgas, cables);
    law_every_assigned_cable_is_listed(fpgas, pairs);
    assert(pairs.contains((fpgas[b].alias, cables[k].serial)));
    let p = choose|p: int|
        0 <= p < pairs.len() && pairs[p] == (fpgas[b].alias, cables[k].serial);
    assert(is_first_of_its_alias(fpgas, b)) by {
        assert forall|j: int| 0 <= j < b implies (#[trigger] fpgas[j]).alias != fpgas[b].alias by {
            if fpgas[j].alias == fpgas[b].alias {
                assert(mentions(cables[k], fpgas[j]));
            }
        }
    }
    assert(pairs[p].0 == fpgas[b].alias);
}

/// Registering lists no cable under a board that it does not belong to.
pub proof fn law_registering_makes_up_no_cable(
    merge: MergeModel,
    cables: Seq<CableModel>,
    b: int,
    serial: Seq<char>,
)
    requires
        0 <= b < merge.fpgas.len(),
        ({
            let pairs = pairs_found(merge, cables);
            with_cables(merge.fpgas, pairs, pairs.len())[b].cables.contains(serial)
        }),
        !merge.fpgas[b].cables.contains(serial),
    ensures
        exists|k: int| #[trigger]
            belong_together(merge.fpgas, cables, b, k) && cables[k].serial == serial,
{
    let fpgas = merge.fpgas;
    let pairs = pairs_found(merge, cables);
    law_every_cable_that_belongs_to_a_board_is_assigned(fpgas, cables);
    law_every_assigned_cable_is_listed(fpgas, pairs);
    assert(pairs.contains((fpgas[b].alias, serial)));
    let (c, k) = choose|c: int, k: int|
        #[trigger] belong_together(fpgas, cables, c, k) && (fpgas[b].alias, serial) == (
            fpgas[c].alias,
            cables[k].serial,
        );
    assert(mentions(cables[k], fpgas[b]));
    assert(c == b);
}

/// The files that are guessed come in the order of their names.
pub proof fn law_guessed_files_come_in_order(dev: Seq<Seq<char>>, prefix: Seq<char>)
    ensures
        in_order(prefixed_devices(dev, prefix), text_order()),
{
    law_texts_are_totally_ordered();
    lemma_sorted(dev.filter(with_prefix(prefix)).map_values(in_dev()), text_order());
}

} // verus!
