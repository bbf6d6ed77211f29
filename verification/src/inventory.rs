//! The boards of this host: finding them on the PCI bus and keeping the list of them.
use vstd::prelude::*;
use crate::diskstate::{DiskState, DiskStateModel, FpgaSpec, FpgaSpecModel, SettingsModel};
use crate::seqs::{
    first_where, in_order, lemma_filter_members, lemma_filter_next, lemma_first_where,
    lemma_first_where_is, lemma_insert_at, lemma_map_next, lemma_somes_next, lemma_sorted,
    lemma_take_all, lemma_take_next, lemma_views_push, opt_view, some_item, somes, sorted, views,
};
use crate::text::{
    after_prefix, begins_with, copied, decimal, decimal_text, is_among, join, joined,
    law_texts_are_totally_ordered, lemma_decimal_injective, not_after, prefixes_removed, quoted,
    quoted_text, same_text, same_texts, sorted_texts, starts_with, text_le, text_order, trim,
    trimmed, without_prefixes,
};

verus! {

/// One name in the directory of PCI devices. The texts are as they were read; the driver is the
/// name of the one that is bound.
#[derive(Debug, PartialEq, Eq)]
pub struct PciEntry {
    pub name: String,
    pub vendor: Option<String>,
    pub device: Option<String>,
    pub driver: Option<String>,
    pub numa_node: Option<String>,
}

#[verifier::ext_equal]
pub struct PciEntryModel {
    pub name: Seq<char>,
    pub vendor: Option<Seq<char>>,
    pub device: Option<Seq<char>>,
    pub driver: Option<Seq<char>>,
    pub numa_node: Option<Seq<char>>,
}

impl View for PciEntry {
    type V = PciEntryModel;

    open spec fn view(&self) -> PciEntryModel {
        PciEntryModel {
            name: self.name@,
            vendor: opt_view(self.vendor),
            device: opt_view(self.device),
            driver: opt_view(self.driver),
            numa_node: opt_view(self.numa_node),
        }
    }
}

#[derive(Debug, PartialEq, Eq)]
pub struct DiscoveredFpga {
    pub bdf: String,
    pub pci_id: String,
    pub driver: Option<String>,
    pub numa_node: Option<String>,
}

#[verifier::ext_equal]
pub struct DiscoveredModel {
    pub bdf: Seq<char>,
    pub pci_id: Seq<char>,
    pub driver: Option<Seq<char>>,
    pub numa_node: Option<Seq<char>>,
}

impl View for DiscoveredFpga {
    type V = DiscoveredModel;

    open spec fn view(&self) -> DiscoveredModel {
        DiscoveredModel {
            bdf: self.bdf@,
            pci_id: self.pci_id@,
            driver: opt_view(self.driver),
            numa_node: opt_view(self.numa_node),
        }
    }
}

/// A copy of what an option holds.
pub fn copied_option(text: &Option<String>) -> (copy: Option<String>)
    ensures
        opt_view(copy) == opt_view(*text),
{
    match text {
        Some(text) => Some(text.clone()),
        None => None,
    }
}

impl Clone for DiscoveredFpga {
    fn clone(&self) -> (res: Self)
        ensures
            res@ == self@,
    {
        DiscoveredFpga {
            bdf: self.bdf.clone(),
            pci_id: self.pci_id.clone(),
            driver: copied_option(&self.driver),
            numa_node: copied_option(&self.numa_node),
        }
    }
}

/// PCI vendors whose cards are offered: AMD / Xilinx and Intel / Altera.
pub open spec fn is_fpga_vendor(vendor: Seq<char>) -> bool {
    vendor == "0x10ee"@ || vendor == "0x1172"@
}

pub open spec fn without_0x(value: Seq<char>) -> Seq<char> {
    without_prefixes(value, "0x"@)
}

pub open spec fn trimmed_or_empty(text: Option<Seq<char>>) -> Seq<char> {
    match text {
        Some(text) => trim(text),
        None => Seq::empty(),
    }
}

/// The entry as a board, if its vendor makes FPGAs.
pub open spec fn to_board() -> spec_fn(PciEntryModel) -> Option<DiscoveredModel> {
    |entry: PciEntryModel|
        match entry.vendor {
            Some(vendor) => if is_fpga_vendor(trim(vendor)) {
                Some(
                    DiscoveredModel {
                        bdf: entry.name,
                        pci_id: without_0x(trim(vendor)) + ":"@ + without_0x(
                            trimmed_or_empty(entry.device),
                        ),
                        driver: entry.driver,
                        numa_node: match entry.numa_node {
                            Some(node) => Some(trim(node)),
                            None => None,
                        },
                    },
                )
            } else {
                None
            },
            None => None,
        }
}

pub open spec fn by_bdf() -> spec_fn(DiscoveredModel, DiscoveredModel) -> bool {
    |a: DiscoveredModel, b: DiscoveredModel| text_le(a.bdf, b.bdf)
}

/// Every FPGA-like PCI function, ordered by PCI address.
pub open spec fn boards_found(pci: Seq<PciEntryModel>) -> Seq<DiscoveredModel> {
    sorted(somes(pci.map_values(to_board())), by_bdf())
}

/// Boards are listed by their PCI address, and each that was seen is listed once.
pub proof fn law_boards_are_listed_by_address(pci: Seq<PciEntryModel>)
    ensures
        in_order(boards_found(pci), by_bdf()),
        boards_found(pci).to_multiset() == somes(pci.map_values(to_board())).to_multiset(),
{
    law_texts_are_totally_ordered();
    assert forall|a: DiscoveredModel, b: DiscoveredModel| #[trigger]
        by_bdf()(a, b) || by_bdf()(b, a) by {
        assert(text_order()(a.bdf, b.bdf) || text_order()(b.bdf, a.bdf));
    }
    assert forall|a: DiscoveredModel, b: DiscoveredModel, c: DiscoveredModel| #[trigger]
        by_bdf()(a, b) && #[trigger] by_bdf()(b, c) implies by_bdf()(a, c) by {
        assert(text_order()(a.bdf, b.bdf) && text_order()(b.bdf, c.bdf));
    }
    lemma_sorted(somes(pci.map_values(to_board())), by_bdf());
}

fn strip_0x(value: &str) -> (out: String)
    ensures
        out@ == without_0x(value@),
{
    prefixes_removed(value, "0x")
}

fn as_board(entry: &PciEntry) -> (board: Option<DiscoveredFpga>)
    ensures
        opt_view(board) == to_board()(entry@),
{
    let vendor = match &entry.vendor {
        Some(vendor) => trimmed(vendor.as_str()),
        None => return None,
    };
    if !(same_text(vendor.as_str(), "0x10ee") || same_text(vendor.as_str(), "0x1172")) {
        return None;
    }
    let device = match &entry.device {
        Some(device) => trimmed(device.as_str()),
        None => String::new(),
    };
    let numa_node = match &entry.numa_node {
        Some(node) => Some(trimmed(node.as_str())),
        None => None,
    };
    let mut pci_id = strip_0x(vendor.as_str());
    pci_id.append(":");
    pci_id.append(strip_0x(device.as_str()).as_str());
    Some(
        DiscoveredFpga {
            bdf: entry.name.clone(),
            pci_id,
            driver: copied_option(&entry.driver),
            numa_node,
        },
    )
}

fn sorted_by_bdf(items: Vec<DiscoveredFpga>) -> (out: Vec<DiscoveredFpga>)
    ensures
        views(out@) == sorted(views(items@), by_bdf()),
{
    let ghost le = by_bdf();
    let mut out: Vec<DiscoveredFpga> = Vec::new();
    assert(views(out@) =~= Seq::<DiscoveredModel>::empty());
    for i in 0..items.len()
        invariant
            le == by_bdf(),
            views(out@) == sorted(views(items@).take(i as int), le),
    {
        let item = items[i].clone();
        let mut at: usize = out.len();
        while at > 0 && !not_after(out[at - 1].bdf.as_str(), item.bdf.as_str())
            invariant
                at <= out@.len(),
                forall|k: int|
                    at <= k < out@.len() ==> !text_le((#[trigger] out@[k]).bdf@, item.bdf@),
            decreases at,
        {
            at = at - 1;
        }
        proof {
            let seen = views(out@);
            assert forall|k: int| at <= k < seen.len() implies !le(#[trigger] seen[k], item@) by {
                assert(!text_le(out@[k].bdf@, item.bdf@));
            }
            lemma_insert_at(seen, item@, le, at as int);
            lemma_take_next(views(items@), i as int);
            assert(views(out@.insert(at as int, item)) =~= seen.insert(at as int, item@));
        }
        out.insert(at, item);
    }
    proof {
        lemma_take_all(views(items@));
    }
    out
}

/// Every FPGA-like PCI function on this host; see [`boards_found`].
pub fn discover(pci: &[PciEntry]) -> (found: Vec<DiscoveredFpga>)
    ensures
        views(found@) == boards_found(views(pci@)),
{
    let ghost f = to_board();
    let mut found: Vec<DiscoveredFpga> = Vec::new();
    assert(views(found@) =~= somes(views(pci@).take(0).map_values(f)));
    for i in 0..pci.len()
        invariant
            f == to_board(),
            views(found@) == somes(views(pci@).take(i as int).map_values(f)),
    {
        proof {
            lemma_somes_next(views(pci@), i as int, f);
        }
        if let Some(board) = as_board(&pci[i]) {
            proof {
                lemma_views_push(found@, board);
            }
            found.push(board);
        }
    }
    proof {
        lemma_take_all(views(pci@));
    }
    sorted_by_bdf(found)
}

pub open spec fn in_dev() -> spec_fn(Seq<char>) -> Seq<char> {
    |name: Seq<char>| "/dev/"@ + name
}

pub open spec fn with_prefix(prefix: Seq<char>) -> spec_fn(Seq<char>) -> bool {
    |name: Seq<char>| starts_with(name, prefix)
}

/// The device files whose name starts with `prefix`, sorted.
pub open spec fn prefixed_devices(dev: Seq<Seq<char>>, prefix: Seq<char>) -> Seq<Seq<char>> {
    sorted(dev.filter(with_prefix(prefix)).map_values(in_dev()), text_order())
}

fn devices_with_prefix(dev: &[String], prefix: &str) -> (out: Vec<String>)
    ensures
        views(out@) == prefixed_devices(views(dev@), prefix@),
{
    let ghost all = views(dev@);
    let ghost pred = with_prefix(prefix@);
    let mut paths: Vec<String> = Vec::new();
    proof {
        reveal(Seq::filter);
        assert(views(paths@) =~= all.take(0).filter(pred).map_values(in_dev()));
    }
    for i in 0..dev.len()
        invariant
            all == views(dev@),
            pred == with_prefix(prefix@),
            views(paths@) == all.take(i as int).filter(pred).map_values(in_dev()),
    {
        proof {
            lemma_filter_next(all, i as int, pred);
        }
        if begins_with(dev[i].as_str(), prefix) {
            let mut path = "/dev/".to_string();
            path.append(dev[i].as_str());
            proof {
                let kept = all.take(i as int).filter(pred);
                assert(kept.push(all[i as int]).map_values(in_dev()) =~= kept.map_values(
                    in_dev(),
                ).push(path@));
                lemma_views_push(paths@, path);
            }
            paths.push(path);
        }
    }
    proof {
        lemma_take_all(all);
    }
    sorted_texts(&paths)
}

/// What the names of a driver's device files start with. Coyote names them after the platform
/// that its driver serves, so that family is derived; the others are listed.
pub open spec fn device_prefix_of(driver: Seq<char>) -> Option<Seq<char>> {
    if starts_with(driver, "coyote_driver_"@) {
        Some("coyote_"@ + driver.skip("coyote_driver_"@.len() as int) + "_fpga_"@)
    } else if driver == "coyote_driver"@ {
        Some("coyote_fpga_"@)
    } else if driver == "xdma"@ {
        Some("xdma"@)
    } else if driver == "ami"@ {
        Some("ami"@)
    } else if driver == "xocl"@ {
        Some("xocl"@)
    } else if driver == "xclmgmt"@ {
        Some("xclmgmt"@)
    } else {
        None
    }
}

/// What the names of a driver's device files start with, if that is known.
pub fn device_prefix(driver: &str) -> (prefix: Option<String>)
    ensures
        opt_view(prefix) == device_prefix_of(driver@),
{
    if let Some(platform) = after_prefix(driver, "coyote_driver_") {
        let mut out = "coyote_".to_string();
        out.append(platform.as_str());
        out.append("_fpga_");
        return Some(out);
    }
    if same_text(driver, "coyote_driver") {
        return Some("coyote_fpga_".to_string());
    }
    if same_text(driver, "xdma") {
        return Some("xdma".to_string());
    }
    if same_text(driver, "ami") {
        return Some("ami".to_string());
    }
    if same_text(driver, "xocl") {
        return Some("xocl".to_string());
    }
    if same_text(driver, "xclmgmt") {
        return Some("xclmgmt".to_string());
    }
    None
}

pub open spec fn on_driver(driver: Seq<char>) -> spec_fn(DiscoveredModel) -> bool {
    |board: DiscoveredModel| board.driver == Some(driver)
}

/// The device files of one board, as far as they can be told. Where two boards use the same
/// driver, the number in a file's name does not say which board it belongs to.
pub open spec fn guessed_devices(
    target: DiscoveredModel,
    all: Seq<DiscoveredModel>,
    dev: Seq<Seq<char>>,
) -> Seq<Seq<char>> {
    match target.driver {
        Some(driver) => match device_prefix_of(driver) {
            Some(prefix) => if all.filter(on_driver(driver)).len() == 1 {
                prefixed_devices(dev, prefix)
            } else {
                Seq::empty()
            },
            None => Seq::empty(),
        },
        None => Seq::empty(),
    }
}

fn count_on_driver(all: &[DiscoveredFpga], driver: &str) -> (count: usize)
    ensures
        count == views(all@).filter(on_driver(driver@)).len(),
{
    let ghost pred = on_driver(driver@);
    let ghost boards = views(all@);
    let mut count: usize = 0;
    proof {
        reveal(Seq::filter);
        assert(boards.take(0).filter(pred) =~= Seq::empty());
    }
    for i in 0..all.len()
        invariant
            pred == on_driver(driver@),
            boards == views(all@),
            count <= i,
            count == boards.take(i as int).filter(pred).len(),
    {
        proof {
            lemma_filter_next(boards, i as int, pred);
        }
        if let Some(other) = &all[i].driver {
            if same_text(other.as_str(), driver) {
                count = count + 1;
            }
        }
    }
    proof {
        lemma_take_all(boards);
    }
    count
}

/// Best-effort guess of the device files of one board; see [`guessed_devices`]. `dev` holds the
/// names in the directory of device files.
pub fn guess_devices(target: &DiscoveredFpga, all: &[DiscoveredFpga], dev: &[String]) -> (out: Vec<
    String,
>)
    ensures
        views(out@) == guessed_devices(target@, views(all@), views(dev@)),
{
    let none: Vec<String> = Vec::new();
    assert(views(none@) =~= Seq::<Seq<char>>::empty());
    let driver = match &target.driver {
        Some(driver) => driver,
        None => return none,
    };
    let prefix = match device_prefix(driver.as_str()) {
        Some(prefix) => prefix,
        None => return none,
    };
    if count_on_driver(all, driver.as_str()) != 1 {
        return none;
    }
    devices_with_prefix(dev, prefix.as_str())
}

/// The placeholder name with the number `n`.
pub open spec fn placeholder(n: nat) -> Seq<char> {
    "fpga"@ + decimal(n)
}

/// `n` is the first number whose placeholder is not in `taken`.
pub open spec fn is_first_free(taken: Seq<Seq<char>>, n: nat) -> bool {
    &&& !taken.contains(placeholder(n))
    &&& forall|m: nat| m < n ==> taken.contains(#[trigger] placeholder(m))
}

/// The placeholder with the lowest number that is not in `taken`.
pub open spec fn free_alias(taken: Seq<Seq<char>>) -> Seq<char> {
    placeholder(choose|n: nat| is_first_free(taken, n))
}

proof fn lemma_placeholder_injective(a: nat, b: nat)
    requires
        placeholder(a) == placeholder(b),
    ensures
        a == b,
{
    let n = "fpga"@.len() as int;
    assert(placeholder(a).skip(n) =~= decimal(a));
    assert(placeholder(b).skip(n) =~= decimal(b));
    lemma_decimal_injective(a, b);
}

/// There are no more placeholders in a row among `taken` than it has items.
proof fn lemma_few_are_taken(taken: Seq<Seq<char>>, n: nat)
    requires
        forall|m: nat| m < n ==> taken.contains(#[trigger] placeholder(m)),
    ensures
        n <= taken.len(),
    decreases n,
{
    if n > 0 {
        let last = (n - 1) as nat;
        assert(taken.contains(placeholder(last)));
        let k = choose|k: int| 0 <= k < taken.len() && taken[k] == placeholder(last);
        let rest = taken.remove(k);
        assert forall|m: nat| m < last implies rest.contains(#[trigger] placeholder(m)) by {
            assert(taken.contains(placeholder(m)));
            let j = choose|j: int| 0 <= j < taken.len() && taken[j] == placeholder(m);
            if j == k {
                lemma_placeholder_injective(m, last);
            }
            if j < k {
                assert(rest[j] == placeholder(m));
            } else {
                assert(rest[j - 1] == placeholder(m));
            }
        }
        lemma_few_are_taken(rest, last);
    }
}

proof fn lemma_first_free(taken: Seq<Seq<char>>, n: nat)
    requires
        is_first_free(taken, n),
    ensures
        free_alias(taken) == placeholder(n),
{
    let other = choose|n: nat| is_first_free(taken, n);
    if other < n {
        assert(taken.contains(placeholder(other)));
    } else if n < other {
        assert(taken.contains(placeholder(n)));
    }
}

/// A placeholder name that no board uses yet.
pub fn next_free_alias(taken: &[String]) -> (alias: String)
    ensures
        alias@ == free_alias(views(taken@)),
        !views(taken@).contains(alias@),
{
    let total: usize = taken.len();
    let mut index: u64 = 0;
    loop
        invariant
            total == taken@.len(),
            forall|m: nat| m < index ==> views(taken@).contains(#[trigger] placeholder(m)),
        decreases taken@.len() - index,
    {
        let mut candidate = "fpga".to_string();
        candidate.append(decimal_text(index).as_str());
        assert(candidate@ == placeholder(index as nat));
        if !is_among(candidate.as_str(), taken) {
            proof {
                lemma_first_free(views(taken@), index as nat);
            }
            return candidate;
        }
        proof {
            assert forall|m: nat| m < index + 1 implies views(taken@).contains(
                #[trigger] placeholder(m),
            ) by {}
            lemma_few_are_taken(views(taken@), (index + 1) as nat);
            assert(index + 1 <= total);
        }
        index = index + 1;
    }
}

/// The list of boards while discovered ones are merged into it.
#[verifier::ext_equal]
pub struct MergeModel {
    pub fpgas: Seq<FpgaSpecModel>,
    pub added: nat,
    pub updated: nat,
    pub notes: Seq<Seq<char>>,
}

pub open spec fn at_bdf(bdf: Seq<char>) -> spec_fn(FpgaSpecModel) -> bool {
    |spec: FpgaSpecModel| spec.bdf == bdf
}

pub open spec fn that_exists(existing: Seq<Seq<char>>) -> spec_fn(Seq<char>) -> bool {
    |path: Seq<char>| existing.contains(path)
}

/// How many of `devices` exist.
pub open spec fn count_present(devices: Seq<Seq<char>>, existing: Seq<Seq<char>>) -> nat {
    devices.filter(that_exists(existing)).len()
}

pub open spec fn to_quoted() -> spec_fn(Seq<char>) -> Seq<char> {
    |text: Seq<char>| quoted(text)
}

/// The parts with commas between them, in brackets.
pub open spec fn in_brackets(parts: Seq<Seq<char>>) -> Seq<char> {
    "["@ + join(parts, ", "@) + "]"@
}

/// A list of texts in brackets, each in quotes.
pub open spec fn quoted_list(items: Seq<Seq<char>>) -> Seq<char> {
    in_brackets(items.map_values(to_quoted()))
}

pub open spec fn changed_card_note(alias: Seq<char>, now: Seq<char>, was: Seq<char>) -> Seq<char> {
    "NOTE: "@ + alias + " now reports "@ + now + " (was "@ + was
        + "). Check that this is the same card."@
}

/// What is said when a list of device files gives way to another; both are shown as
/// [`quoted_list`] has them.
pub open spec fn replaced_note(alias: Seq<char>, was: Seq<char>, now: Seq<char>) -> Seq<char> {
    "NOTE: none of "@ + alias + "'s configured device nodes exist any more. Replacing "@ + was
        + " with "@ + now + "."@
}

pub open spec fn stale_note(alias: Seq<char>, missing: nat) -> Seq<char> {
    "NOTE: "@ + alias + " has "@ + decimal(missing)
        + " configured device node(s) that do not exist."@
}

/// Whether a list of device files gives way to what was guessed: only if none of it exists any
/// more. A list that is partly valid was probably edited by hand.
pub open spec fn gives_way(
    devices: Seq<Seq<char>>,
    guessed: Seq<Seq<char>>,
    existing: Seq<Seq<char>>,
) -> bool {
    count_present(devices, existing) == 0 && guessed.len() > 0 && devices != guessed
}

pub open spec fn merge_notes(
    spec: FpgaSpecModel,
    found: DiscoveredModel,
    guessed: Seq<Seq<char>>,
    existing: Seq<Seq<char>>,
) -> Seq<Seq<char>> {
    let card = if spec.pci_id != found.pci_id {
        seq![changed_card_note(spec.alias, found.pci_id, spec.pci_id)]
    } else {
        Seq::empty()
    };
    let present = count_present(spec.devices, existing);
    let devices = if gives_way(spec.devices, guessed, existing) {
        if spec.devices.len() > 0 {
            seq![replaced_note(spec.alias, quoted_list(spec.devices), quoted_list(guessed))]
        } else {
            Seq::empty()
        }
    } else if present < spec.devices.len() {
        seq![stale_note(spec.alias, (spec.devices.len() - present) as nat)]
    } else {
        Seq::empty()
    };
    card + devices
}

/// A configured board after it was found again.
pub open spec fn refreshed(
    spec: FpgaSpecModel,
    found: DiscoveredModel,
    guessed: Seq<Seq<char>>,
    existing: Seq<Seq<char>>,
) -> FpgaSpecModel {
    FpgaSpecModel {
        pci_id: found.pci_id,
        devices: if gives_way(spec.devices, guessed, existing) {
            guessed
        } else {
            spec.devices
        },
        ..spec
    }
}

/// How many things about a configured board were changed.
pub open spec fn refresh_count(
    spec: FpgaSpecModel,
    found: DiscoveredModel,
    guessed: Seq<Seq<char>>,
    existing: Seq<Seq<char>>,
) -> nat {
    let card: nat = if spec.pci_id != found.pci_id {
        1
    } else {
        0
    };
    let devices: nat = if gives_way(spec.devices, guessed, existing) {
        1
    } else {
        0
    };
    card + devices
}

pub open spec fn to_alias_of(fpgas: Seq<FpgaSpecModel>) -> Seq<Seq<char>> {
    fpgas.map_values(crate::diskstate::to_alias())
}

/// One more discovered board merged in: a board at a known address is refreshed, another one is
/// added under a placeholder name.
pub open spec fn merge_one(
    sofar: MergeModel,
    found: DiscoveredModel,
    guessed: Seq<Seq<char>>,
    existing: Seq<Seq<char>>,
) -> MergeModel {
    let at = first_where(sofar.fpgas, at_bdf(found.bdf));
    if at < sofar.fpgas.len() {
        let spec = sofar.fpgas[at];
        MergeModel {
            fpgas: sofar.fpgas.update(at, refreshed(spec, found, guessed, existing)),
            added: sofar.added,
            updated: sofar.updated + refresh_count(spec, found, guessed, existing),
            notes: sofar.notes + merge_notes(spec, found, guessed, existing),
        }
    } else {
        MergeModel {
            fpgas: sofar.fpgas.push(
                FpgaSpecModel {
                    alias: free_alias(to_alias_of(sofar.fpgas)),
                    bdf: found.bdf,
                    pci_id: found.pci_id,
                    devices: guessed,
                    cables: Seq::empty(),
                },
            ),
            added: sofar.added + 1,
            ..sofar
        }
    }
}

/// The first `n` of the discovered boards merged into `fpgas`.
pub open spec fn merged(
    fpgas: Seq<FpgaSpecModel>,
    discovered: Seq<DiscoveredModel>,
    n: nat,
    dev: Seq<Seq<char>>,
    existing: Seq<Seq<char>>,
) -> MergeModel
    decreases n,
{
    if n == 0 {
        MergeModel { fpgas, added: 0, updated: 0, notes: Seq::empty() }
    } else {
        let found = discovered[n - 1];
        merge_one(
            merged(fpgas, discovered, (n - 1) as nat, dev, existing),
            found,
            guessed_devices(found, discovered, dev),
            existing,
        )
    }
}

/// The parts with commas between them, in brackets.
pub fn bracketed(parts: &[String]) -> (out: String)
    ensures
        out@ == in_brackets(views(parts@)),
{
    let mut out = "[".to_string();
    out.append(joined(parts, ", ").as_str());
    out.append("]");
    out
}

/// What to say when the device files of `alias`, shown as `was`, give way to others, shown as `now`.
pub fn replacement_line(alias: &str, was: &str, now: &str) -> (note: String)
    ensures
        note@ == replaced_note(alias@, was@, now@),
{
    let mut note = "NOTE: none of ".to_string();
    note.append(alias);
    note.append("'s configured device nodes exist any more. Replacing ");
    note.append(was);
    note.append(" with ");
    note.append(now);
    note.append(".");
    note
}

fn quoted_texts(items: &[String]) -> (out: String)
    ensures
        out@ == quoted_list(views(items@)),
{
    let mut parts: Vec<String> = Vec::new();
    assert(views(parts@) =~= views(items@).take(0).map_values(to_quoted()));
    for i in 0..items.len()
        invariant
            views(parts@) == views(items@).take(i as int).map_values(to_quoted()),
    {
        let part = quoted_text(items[i].as_str());
        proof {
            lemma_map_next(views(items@), i as int, to_quoted());
            lemma_views_push(parts@, part);
        }
        parts.push(part);
    }
    proof {
        lemma_take_all(views(items@));
    }
    bracketed(&parts)
}

fn count_existing(devices: &[String], existing: &[String]) -> (count: usize)
    ensures
        count == count_present(views(devices@), views(existing@)),
        count <= devices@.len(),
{
    let ghost pred = that_exists(views(existing@));
    let ghost all = views(devices@);
    let mut count: usize = 0;
    proof {
        reveal(Seq::filter);
        assert(all.take(0).filter(pred) =~= Seq::empty());
    }
    for i in 0..devices.len()
        invariant
            pred == that_exists(views(existing@)),
            all == views(devices@),
            count <= i,
            count == all.take(i as int).filter(pred).len(),
    {
        proof {
            lemma_filter_next(all, i as int, pred);
        }
        if is_among(devices[i].as_str(), existing) {
            count = count + 1;
        }
    }
    proof {
        lemma_take_all(all);
    }
    count
}

fn position_at(fpgas: &[FpgaSpec], bdf: &str) -> (at: usize)
    ensures
        at == first_where(views(fpgas@), at_bdf(bdf@)),
        at <= fpgas@.len(),
{
    let ghost pred = at_bdf(bdf@);
    for i in 0..fpgas.len()
        invariant
            pred == at_bdf(bdf@),
            forall|j: int| 0 <= j < i ==> !pred(#[trigger] views(fpgas@)[j]),
    {
        if same_text(fpgas[i].bdf.as_str(), bdf) {
            proof {
                lemma_first_where_is(views(fpgas@), pred, i as int);
            }
            return i;
        }
    }
    proof {
        lemma_first_where_is(views(fpgas@), pred, fpgas@.len() as int);
    }
    fpgas.len()
}

/// A configured board that was found again: what it becomes, how much changed, and what to say.
struct Refresh {
    spec: FpgaSpec,
    changes: usize,
    notes: Vec<String>,
}

fn refresh(spec: &FpgaSpec, found: &DiscoveredFpga, guessed: &[String], existing: &[String]) -> (out:
    Refresh)
    ensures
        out.spec@ == refreshed(spec@, found@, views(guessed@), views(existing@)),
        out.changes == refresh_count(spec@, found@, views(guessed@), views(existing@)),
        out.changes <= 2,
        views(out.notes@) == merge_notes(spec@, found@, views(guessed@), views(existing@)),
{
    let mut after = spec.clone();
    let mut changes: usize = 0;
    let mut notes: Vec<String> = Vec::new();
    if !same_text(spec.pci_id.as_str(), found.pci_id.as_str()) {
        let mut note = "NOTE: ".to_string();
        note.append(spec.alias.as_str());
        note.append(" now reports ");
        note.append(found.pci_id.as_str());
        note.append(" (was ");
        note.append(spec.pci_id.as_str());
        note.append("). Check that this is the same card.");
        assert(note@ =~= changed_card_note(spec@.alias, found@.pci_id, spec@.pci_id));
        notes.push(note);
        after.pci_id = found.pci_id.clone();
        changes = changes + 1;
    }
    let ghost card = views(notes@);
    assert(views(guessed@).len() == guessed@.len());
    assert(views(spec.devices@).len() == spec.devices@.len());
    let present: usize = count_existing(&spec.devices, existing);
    if present == 0 && guessed.len() > 0 && !same_texts(&spec.devices, guessed) {
        if spec.devices.len() > 0 {
            let was = quoted_texts(&spec.devices);
            let now = quoted_texts(guessed);
            let note = replacement_line(spec.alias.as_str(), was.as_str(), now.as_str());
            proof {
                lemma_views_push(notes@, note);
            }
            notes.push(note);
        }
        after.devices = copied(guessed);
        changes = changes + 1;
    } else if present < spec.devices.len() {
        let mut note = "NOTE: ".to_string();
        note.append(spec.alias.as_str());
        note.append(" has ");
        note.append(decimal_text((spec.devices.len() - present) as u64).as_str());
        note.append(" configured device node(s) that do not exist.");
        proof {
            assert(note@ =~= stale_note(spec@.alias, (spec@.devices.len() - present) as nat));
            lemma_views_push(notes@, note);
        }
        notes.push(note);
    }
    proof {
        assert(views(notes@) =~= merge_notes(spec@, found@, views(guessed@), views(existing@)));
    }
    Refresh { spec: after, changes, notes }
}

/// What merging discovered boards did.
#[derive(Debug, PartialEq, Eq)]
pub struct MergeReport {
    pub added: usize,
    pub updated: usize,
    pub notes: Vec<String>,
}

/// Merge discovered boards into the list of boards, keeping any alias and device list that an
/// admin has set. `dev` holds the names in the directory of device files, and `existing` those of
/// the configured device files that exist.
pub fn merge_into_settings(
    state: &mut DiskState,
    discovered: &[DiscoveredFpga],
    dev: &[String],
    existing: &[String],
) -> (report: MergeReport)
    requires
        2 * discovered@.len() <= usize::MAX,
    ensures
        ({
            let out = merged(
                old(state)@.settings.fpgas,
                views(discovered@),
                discovered@.len(),
                views(dev@),
                views(existing@),
            );
            &&& final(state)@ == DiskStateModel {
                settings: SettingsModel { fpgas: out.fpgas, ..old(state)@.settings },
                ..old(state)@
            }
            &&& report.added == out.added
            &&& report.updated == out.updated
            &&& views(report.notes@) == out.notes
        }),
{
    let ghost before = state@;
    let ghost start = before.settings.fpgas;
    let ghost all = views(discovered@);
    let mut added: usize = 0;
    let mut updated: usize = 0;
    let mut notes: Vec<String> = Vec::new();
    assert(views(notes@) =~= Seq::empty());
    for i in 0..discovered.len()
        invariant
            all == views(discovered@),
            2 * discovered@.len() <= usize::MAX,
            state@ == (DiskStateModel {
                settings: SettingsModel {
                    fpgas: merged(start, all, i as nat, views(dev@), views(existing@)).fpgas,
                    ..before.settings
                },
                ..before
            }),
            added == merged(start, all, i as nat, views(dev@), views(existing@)).added,
            updated == merged(start, all, i as nat, views(dev@), views(existing@)).updated,
            views(notes@) == merged(start, all, i as nat, views(dev@), views(existing@)).notes,
            added <= i,
            updated <= 2 * i,
    {
        let found = &discovered[i];
        let guessed = guess_devices(found, discovered, dev);
        let at: usize = position_at(&state.settings.fpgas, found.bdf.as_str());
        let ghost specs = state.settings.fpgas@;
        let ghost fpgas = state@.settings.fpgas;
        if at < state.settings.fpgas.len() {
            let mut out = refresh(&state.settings.fpgas[at], found, &guessed, existing);
            proof {
                crate::seqs::lemma_views_add(notes@, out.notes@);
                assert(views(specs.update(at as int, out.spec)) =~= fpgas.update(
                    at as int,
                    out.spec@,
                ));
            }
            state.settings.fpgas.set(at, out.spec);
            updated = updated + out.changes;
            notes.append(&mut out.notes);
        } else {
            let aliases = state.settings.aliases();
            let spec = FpgaSpec {
                alias: next_free_alias(&aliases),
                bdf: found.bdf.clone(),
                pci_id: found.pci_id.clone(),
                devices: guessed,
                cables: Vec::new(),
            };
            proof {
                lemma_views_push(specs, spec);
                assert(spec@.cables =~= Seq::empty());
            }
            state.settings.fpgas.push(spec);
            added = added + 1;
        }
    }
    MergeReport { added, updated, notes }
}

proof fn lemma_merged(
    fpgas: Seq<FpgaSpecModel>,
    discovered: Seq<DiscoveredModel>,
    n: nat,
    dev: Seq<Seq<char>>,
    existing: Seq<Seq<char>>,
)
    requires
        n <= discovered.len(),
    ensures
        ({
            let after = merged(fpgas, discovered, n, dev, existing).fpgas;
            &&& fpgas.len() <= after.len()
            &&& forall|i: int|
                0 <= i < fpgas.len() ==> {
                    &&& (#[trigger] after[i]).alias == fpgas[i].alias
                    &&& after[i].bdf == fpgas[i].bdf
                    &&& after[i].cables == fpgas[i].cables
                    &&& count_present(fpgas[i].devices, existing) > 0 ==> after[i].devices
                        == fpgas[i].devices
                }
            &&& to_alias_of(fpgas).no_duplicates() ==> to_alias_of(after).no_duplicates()
            &&& forall|k: int|
                0 <= k < n ==> some_item(after, at_bdf((#[trigger] discovered[k]).bdf))
        }),
    decreases n,
{
    if n > 0 {
        let m = (n - 1) as nat;
        lemma_merged(fpgas, discovered, m, dev, existing);
        let before = merged(fpgas, discovered, m, dev, existing).fpgas;
        let after = merged(fpgas, discovered, n, dev, existing).fpgas;
        let found = discovered[m as int];
        let pred = at_bdf(found.bdf);
        let at = first_where(before, pred);
        lemma_first_where(before, pred);
        if at < before.len() {
            assert(to_alias_of(after) =~= to_alias_of(before));
            assert(pred(after[at]));
        } else {
            let aliases = to_alias_of(before);
            let alias = free_alias(aliases);
            lemma_free_alias(aliases);
            assert(to_alias_of(after) =~= aliases.push(alias));
            assert(pred(after[after.len() - 1]));
        }
        assert forall|k: int| 0 <= k < n implies some_item(
            after,
            at_bdf((#[trigger] discovered[k]).bdf),
        ) by {
            if k < m {
                let p = at_bdf(discovered[k].bdf);
                let j = choose|j: int| 0 <= j < before.len() && p(#[trigger] before[j]);
                assert(p(after[j]));
            }
        }
    }
}

/// There is always a free placeholder, and it is free.
proof fn lemma_free_alias(taken: Seq<Seq<char>>)
    ensures
        !taken.contains(free_alias(taken)),
{
    lemma_some_free(taken, 0);
    let n = choose|n: nat| is_first_free(taken, n);
    assert(is_first_free(taken, n));
}

proof fn lemma_some_free(taken: Seq<Seq<char>>, n: nat)
    requires
        forall|m: nat| m < n ==> taken.contains(#[trigger] placeholder(m)),
    ensures
        exists|k: nat| is_first_free(taken, k),
    decreases taken.len() + 1 - n,
{
    lemma_few_are_taken(taken, n);
    if taken.contains(placeholder(n)) {
        assert forall|m: nat| m < n + 1 implies taken.contains(#[trigger] placeholder(m)) by {}
        lemma_some_free(taken, n + 1);
    } else {
        assert(is_first_free(taken, n));
    }
}

/// A new board is named `fpga` and the lowest number that is not in use.
pub proof fn law_a_new_board_gets_the_lowest_free_number(taken: Seq<Seq<char>>)
    ensures
        !taken.contains(free_alias(taken)),
        exists|n: nat|
            free_alias(taken) == "fpga"@ + #[trigger] decimal(n) && forall|m: nat|
                m < n ==> taken.contains("fpga"@ + #[trigger] decimal(m)),
{
    lemma_some_free(taken, 0);
    let n = choose|n: nat| is_first_free(taken, n);
    assert(is_first_free(taken, n));
    assert(free_alias(taken) == "fpga"@ + decimal(n));
    assert forall|m: nat| m < n implies taken.contains("fpga"@ + #[trigger] decimal(m)) by {
        assert(taken.contains(placeholder(m)));
    }
}

/// Merging keeps the place, alias, address and cables of every configured board, and its device
/// list where any of it exists. Names stay unique, and every discovered board is in the list.
pub proof fn law_merging_keeps_what_is_configured(
    fpgas: Seq<FpgaSpecModel>,
    discovered: Seq<DiscoveredModel>,
    dev: Seq<Seq<char>>,
    existing: Seq<Seq<char>>,
)
    ensures
        ({
            let after = merged(fpgas, discovered, discovered.len(), dev, existing).fpgas;
            &&& fpgas.len() <= after.len()
            &&& forall|i: int|
                0 <= i < fpgas.len() ==> {
                    &&& (#[trigger] after[i]).alias == fpgas[i].alias
                    &&& after[i].bdf == fpgas[i].bdf
                    &&& after[i].cables == fpgas[i].cables
                    &&& count_present(fpgas[i].devices, existing) > 0 ==> after[i].devices
                        == fpgas[i].devices
                }
            &&& to_alias_of(fpgas).no_duplicates() ==> to_alias_of(after).no_duplicates()
            &&& forall|k: int|
                0 <= k < discovered.len() ==> some_item(
                    after,
                    at_bdf((#[trigger] discovered[k]).bdf),
                )
        }),
{
    lemma_merged(fpgas, discovered, discovered.len(), dev, existing);
}

/// The board that was found is configured as it was found, so that merging it changes nothing.
pub open spec fn is_settled(
    fpgas: Seq<FpgaSpecModel>,
    found: DiscoveredModel,
    guessed: Seq<Seq<char>>,
    existing: Seq<Seq<char>>,
) -> bool {
    let at = first_where(fpgas, at_bdf(found.bdf));
    &&& at < fpgas.len()
    &&& fpgas[at].pci_id == found.pci_id
    &&& !gives_way(fpgas[at].devices, guessed, existing)
}

proof fn lemma_still_gives_no_way(
    devices: Seq<Seq<char>>,
    guessed: Seq<Seq<char>>,
    existing: Seq<Seq<char>>,
    later: Seq<Seq<char>>,
)
    requires
        !gives_way(devices, guessed, existing),
        forall|path: Seq<char>| #[trigger] existing.contains(path) ==> later.contains(path),
    ensures
        !gives_way(devices, guessed, later),
{
    let now = devices.filter(that_exists(existing));
    if count_present(devices, existing) > 0 {
        lemma_filter_members(devices, that_exists(existing));
        lemma_filter_members(devices, that_exists(later));
        assert(now.contains(now[0]));
        assert(devices.filter(that_exists(later)).contains(now[0]));
    }
}

proof fn lemma_settled_after(
    fpgas: Seq<FpgaSpecModel>,
    discovered: Seq<DiscoveredModel>,
    n: nat,
    dev: Seq<Seq<char>>,
    existing: Seq<Seq<char>>,
    later: Seq<Seq<char>>,
)
    requires
        n <= discovered.len(),
        forall|i: int, j: int|
            0 <= i < j < discovered.len() ==> (#[trigger] discovered[i]).bdf != (
            #[trigger] discovered[j]).bdf,
        forall|path: Seq<char>| #[trigger] existing.contains(path) ==> later.contains(path),
    ensures
        forall|k: int|
            0 <= k < n ==> is_settled(
                merged(fpgas, discovered, n, dev, existing).fpgas,
                #[trigger] discovered[k],
                guessed_devices(discovered[k], discovered, dev),
                later,
            ),
    decreases n,
{
    if n > 0 {
        let m = (n - 1) as nat;
        let before = merged(fpgas, discovered, m, dev, existing).fpgas;
        let after = merged(fpgas, discovered, n, dev, existing).fpgas;
        let found = discovered[n - 1];
        let guessed = guessed_devices(found, discovered, dev);
        let at = first_where(before, at_bdf(found.bdf));
        lemma_settled_after(fpgas, discovered, m, dev, existing, later);
        lemma_first_where(before, at_bdf(found.bdf));
        assert forall|k: int| 0 <= k < n implies is_settled(
            after,
            #[trigger] discovered[k],
            guessed_devices(discovered[k], discovered, dev),
            later,
        ) by {
            let pred = at_bdf(discovered[k].bdf);
            if k < m {
                let place = first_where(before, pred);
                lemma_first_where(before, pred);
                assert(is_settled(
                    before,
                    discovered[k],
                    guessed_devices(discovered[k], discovered, dev),
                    later,
                ));
                assert(discovered[k].bdf != found.bdf);
                assert(pred(before[place]));
                assert(after[place] == before[place]);
                assert forall|j: int| 0 <= j < place implies !pred(#[trigger] after[j]) by {
                    assert(!pred(before[j]));
                }
                lemma_first_where_is(after, pred, place);
            } else {
                assert forall|j: int| 0 <= j < at implies !pred(#[trigger] after[j]) by {
                    assert(!pred(before[j]));
                }
                assert(pred(after[at]));
                lemma_first_where_is(after, pred, at);
                if at < before.len() && !gives_way(before[at].devices, guessed, existing) {
                    lemma_still_gives_no_way(before[at].devices, guessed, existing, later);
                }
            }
        }
    }
}

proof fn lemma_nothing_to_merge(
    fpgas: Seq<FpgaSpecModel>,
    discovered: Seq<DiscoveredModel>,
    n: nat,
    dev: Seq<Seq<char>>,
    existing: Seq<Seq<char>>,
)
    requires
        n <= discovered.len(),
        forall|k: int|
            0 <= k < discovered.len() ==> is_settled(
                fpgas,
                #[trigger] discovered[k],
                guessed_devices(discovered[k], discovered, dev),
                existing,
            ),
    ensures
        ({
            let out = merged(fpgas, discovered, n, dev, existing);
            out.fpgas == fpgas && out.added == 0 && out.updated == 0
        }),
    decreases n,
{
    if n > 0 {
        lemma_nothing_to_merge(fpgas, discovered, (n - 1) as nat, dev, existing);
        let found = discovered[n - 1];
        let guessed = guessed_devices(found, discovered, dev);
        let at = first_where(fpgas, at_bdf(found.bdf));
        lemma_first_where(fpgas, at_bdf(found.bdf));
        assert(is_settled(fpgas, found, guessed, existing));
        assert(refreshed(fpgas[at], found, guessed, existing) =~= fpgas[at]);
        assert(fpgas.update(at, fpgas[at]) =~= fpgas);
    }
}

/// Merging the same boards once more changes nothing, where each has its own address and no device
/// file that existed is gone by then.
pub proof fn law_merging_twice_changes_nothing(
    fpgas: Seq<FpgaSpecModel>,
    discovered: Seq<DiscoveredModel>,
    dev: Seq<Seq<char>>,
    existing: Seq<Seq<char>>,
    later: Seq<Seq<char>>,
)
    requires
        forall|i: int, j: int|
            0 <= i < j < discovered.len() ==> (#[trigger] discovered[i]).bdf != (
            #[trigger] discovered[j]).bdf,
        forall|path: Seq<char>| #[trigger] existing.contains(path) ==> later.contains(path),
    ensures
        ({
            let once = merged(fpgas, discovered, discovered.len(), dev, existing);
            let twice = merged(once.fpgas, discovered, discovered.len(), dev, later);
            &&& twice.fpgas == once.fpgas
            &&& twice.added == 0
            &&& twice.updated == 0
        }),
{
    let once = merged(fpgas, discovered, discovered.len(), dev, existing);
    lemma_settled_after(fpgas, discovered, discovered.len(), dev, existing, later);
    lemma_nothing_to_merge(once.fpgas, discovered, discovered.len(), dev, later);
}

} // verus!
