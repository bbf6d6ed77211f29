//! USB JTAG cables: finding a board's cable by serial, locking its JTAG node and serial consoles,
//! and cutting off handles that were opened before a claim.
use vstd::prelude::*;
use crate::diskstate::{FpgaSpec, FpgaSpecModel};
use crate::fpga::{
    foreign_holders, holders, holders_of, is_foreign, Account, AccountModel, Holder, HolderModel,
    Process, ProcessModel,
};
use crate::seqs::{
    concat_all, find_first, lemma_concat_next, lemma_filter_members, lemma_filter_next,
    lemma_first_where_is, lemma_map_next, lemma_somes_members, lemma_somes_next, lemma_take_all,
    lemma_take_next, lemma_views_add, lemma_views_push, opt_view, repeats, somes, sorted, views,
};
use crate::text::{
    begins_with, chars_of, contains_text, copied, decimal, decimal_text, has_part, is_among,
    is_ascii_alphanumeric, joined_path, lowercase, lowercase_text, parse_u32, parsed_number,
    path_join, same_text, sorted_texts, starts_with, text_order, trim, trimmed, zero_padded,
    zero_padded_text,
};

verus! {

pub const SYSFS: &'static str = "/sys";

pub const DEV: &'static str = "/dev";

pub const RULES_FILE: &'static str = "/run/udev/rules.d/99-fpgahog.rules";

/// How long a re-plugged cable may take to come back, in seconds.
pub const REPLUG_WAIT: u64 = 10;

/// What lies under one name in the directory of USB devices: a device, or an interface of one,
/// whose name has a colon. The texts are as they were read.
#[derive(Debug, PartialEq, Eq)]
pub struct UsbEntry {
    pub name: String,
    pub vendor: Option<String>,
    pub serial: Option<String>,
    pub product: Option<String>,
    pub busnum: Option<String>,
    pub devnum: Option<String>,
    /// The object of the hub port that the device hangs on; it outlives the device.
    pub port: String,
    pub children: Vec<String>,
}

#[verifier::ext_equal]
pub struct UsbEntryModel {
    pub name: Seq<char>,
    pub vendor: Option<Seq<char>>,
    pub serial: Option<Seq<char>>,
    pub product: Option<Seq<char>>,
    pub busnum: Option<Seq<char>>,
    pub devnum: Option<Seq<char>>,
    pub port: Seq<char>,
    pub children: Seq<Seq<char>>,
}

impl View for UsbEntry {
    type V = UsbEntryModel;

    open spec fn view(&self) -> UsbEntryModel {
        UsbEntryModel {
            name: self.name@,
            vendor: opt_view(self.vendor),
            serial: opt_view(self.serial),
            product: opt_view(self.product),
            busnum: opt_view(self.busnum),
            devnum: opt_view(self.devnum),
            port: self.port@,
            children: views(self.children@),
        }
    }
}

#[derive(Debug, PartialEq, Eq)]
pub struct Cable {
    pub serial: String,
    pub product: String,
    /// The node that JTAG tools open.
    pub jtag: String,
    /// The serial consoles of the cable's interfaces, sorted.
    pub consoles: Vec<String>,
    /// Writing 1 and then 0 here disconnects and reconnects the cable.
    pub port_disable: String,
}

#[verifier::ext_equal]
pub struct CableModel {
    pub serial: Seq<char>,
    pub product: Seq<char>,
    pub jtag: Seq<char>,
    pub consoles: Seq<Seq<char>>,
    pub port_disable: Seq<char>,
}

impl View for Cable {
    type V = CableModel;

    open spec fn view(&self) -> CableModel {
        CableModel {
            serial: self.serial@,
            product: self.product@,
            jtag: self.jtag@,
            consoles: views(self.consoles@),
            port_disable: self.port_disable@,
        }
    }
}

impl Clone for Cable {
    fn clone(&self) -> (res: Self)
        ensures
            res@ == self@,
    {
        Cable {
            serial: self.serial.clone(),
            product: self.product.clone(),
            jtag: self.jtag.clone(),
            consoles: copied(&self.consoles),
            port_disable: self.port_disable.clone(),
        }
    }
}

pub open spec fn is_plain(c: char) -> bool {
    is_ascii_alphanumeric(c) || c == '.' || c == '_' || c == '-'
}

/// Serials and user names go into a udev rule, so only a plain character set is accepted.
pub open spec fn is_valid_serial(serial: Seq<char>) -> bool {
    serial.len() > 0 && forall|i: int| 0 <= i < serial.len() ==> is_plain(#[trigger] serial[i])
}

/// Whether a serial, or a user name, can go into a udev rule: only a plain character set is accepted.
pub fn valid_serial(serial: &str) -> (valid: bool)
    ensures
        valid == is_valid_serial(serial@),
{
    let chars = chars_of(serial);
    if chars.len() == 0 {
        return false;
    }
    for i in 0..chars.len()
        invariant
            chars@ == serial@,
            forall|j: int| 0 <= j < i ==> is_plain(#[trigger] chars@[j]),
    {
        let c = chars[i];
        let letter = ('a' <= c && c <= 'z') || ('A' <= c && c <= 'Z') || ('0' <= c && c <= '9');
        if !(letter || c == '.' || c == '_' || c == '-') {
            assert(!is_plain(serial@[i as int]));
            return false;
        }
    }
    true
}

/// What an attribute reads as, without the white space around it.
pub open spec fn attribute(text: Option<Seq<char>>) -> Option<Seq<char>> {
    match text {
        Some(text) => Some(trim(text)),
        None => None,
    }
}

/// The number that an attribute holds, if it holds one.
pub open spec fn numeric(text: Option<Seq<char>>) -> Option<nat> {
    match text {
        Some(text) => match parsed_number(trim(text)) {
            Some(n) => if n <= u32::MAX {
                Some(n)
            } else {
                None
            },
            None => None,
        },
        None => None,
    }
}

pub open spec fn named(name: Seq<char>) -> spec_fn(UsbEntryModel) -> bool {
    |entry: UsbEntryModel| entry.name == name
}

pub open spec fn is_tty() -> spec_fn(Seq<char>) -> bool {
    |child: Seq<char>| starts_with(child, "ttyUSB"@)
}

pub open spec fn to_path(dir: Seq<char>) -> spec_fn(Seq<char>) -> Seq<char> {
    |name: Seq<char>| path_join(dir, name)
}

/// The consoles below one entry, if it is an interface of the device `name`.
pub open spec fn consoles_below(name: Seq<char>, dev: Seq<char>) -> spec_fn(UsbEntryModel) -> Seq<
    Seq<char>,
> {
    |entry: UsbEntryModel|
        if starts_with(entry.name, name + ":"@) {
            entry.children.filter(is_tty()).map_values(to_path(dev))
        } else {
            Seq::empty()
        }
}

/// The consoles of the device `name`, sorted.
pub open spec fn consoles_of(usb: Seq<UsbEntryModel>, dev: Seq<char>, name: Seq<char>) -> Seq<
    Seq<char>,
> {
    sorted(concat_all(usb.map_values(consoles_below(name, dev))), text_order())
}

pub open spec fn jtag_node(dev: Seq<char>, bus: nat, device: nat) -> Seq<char> {
    path_join(dev, "bus/usb/"@ + zero_padded(bus, 3) + "/"@ + zero_padded(device, 3))
}

/// The cable at the USB device `name`.
pub open spec fn cable_at(usb: Seq<UsbEntryModel>, dev: Seq<char>, name: Seq<char>) -> Option<
    CableModel,
> {
    match find_first(usb, named(name)) {
        Some(entry) => match (attribute(entry.serial), numeric(entry.busnum), numeric(entry.devnum)) {
            (Some(serial), Some(bus), Some(device)) => Some(
                CableModel {
                    serial,
                    product: match attribute(entry.product) {
                        Some(product) => product,
                        None => Seq::empty(),
                    },
                    jtag: jtag_node(dev, bus, device),
                    consoles: consoles_of(usb, dev, name),
                    port_disable: path_join(entry.port, "disable"@),
                },
            ),
            _ => None,
        },
        None => None,
    }
}

pub open spec fn to_cable(usb: Seq<UsbEntryModel>, dev: Seq<char>) -> spec_fn(Seq<char>) -> Option<
    CableModel,
> {
    |name: Seq<char>| cable_at(usb, dev, name)
}

pub open spec fn to_device_name() -> spec_fn(UsbEntryModel) -> Option<Seq<char>> {
    |entry: UsbEntryModel|
        if entry.name.contains(':') {
            None
        } else {
            Some(entry.name)
        }
}

/// The names of the USB devices, not of their interfaces, sorted.
pub open spec fn device_names(usb: Seq<UsbEntryModel>) -> Seq<Seq<char>> {
    sorted(somes(usb.map_values(to_device_name())), text_order())
}

/// Every USB device that reads as a cable.
pub open spec fn all_cables(usb: Seq<UsbEntryModel>, dev: Seq<char>) -> Seq<CableModel> {
    somes(device_names(usb).map_values(to_cable(usb, dev)))
}

pub open spec fn with_serial(serial: Seq<char>) -> spec_fn(CableModel) -> bool {
    |cable: CableModel| cable.serial == serial
}

pub open spec fn shared_serial_message(count: nat, serial: Seq<char>) -> Seq<char> {
    decimal(count) + " USB devices share serial "@ + serial + "; not locking any of them"@
}

/// The cable with this serial: none, the only one, or an error where several have it.
pub open spec fn cable_found(usb: Seq<UsbEntryModel>, dev: Seq<char>, serial: Seq<char>) -> Result<
    Option<CableModel>,
    Seq<char>,
> {
    let matching = all_cables(usb, dev).filter(with_serial(serial));
    if matching.len() == 0 {
        Ok(None)
    } else if matching.len() == 1 {
        Ok(Some(matching[0]))
    } else {
        Err(shared_serial_message(matching.len(), serial))
    }
}

/// USB vendors whose devices are offered as FPGA cables: FTDI and Xilinx.
pub open spec fn is_cable_vendor(vendor: Option<Seq<char>>) -> bool {
    attribute(vendor) == Some("0403"@) || attribute(vendor) == Some("03fd"@)
}

pub open spec fn of_cable_vendor(usb: Seq<UsbEntryModel>) -> spec_fn(Seq<char>) -> bool {
    |name: Seq<char>|
        match find_first(usb, named(name)) {
            Some(entry) => is_cable_vendor(entry.vendor),
            None => false,
        }
}

pub open spec fn discovered_cables(usb: Seq<UsbEntryModel>, dev: Seq<char>) -> Seq<CableModel> {
    somes(device_names(usb).filter(of_cable_vendor(usb)).map_values(to_cable(usb, dev)))
}

fn entry_named<'a>(usb: &'a [UsbEntry], name: &str) -> (entry: Option<&'a UsbEntry>)
    ensures
        opt_view(entry) == find_first(views(usb@), named(name@)),
{
    let ghost pred = named(name@);
    for i in 0..usb.len()
        invariant
            pred == named(name@),
            forall|j: int| 0 <= j < i ==> !pred(#[trigger] views(usb@)[j]),
    {
        if same_text(usb[i].name.as_str(), name) {
            proof {
                lemma_first_where_is(views(usb@), pred, i as int);
            }
            return Some(&usb[i]);
        }
    }
    proof {
        lemma_first_where_is(views(usb@), pred, usb@.len() as int);
    }
    None
}

fn has_colon(text: &str) -> (yes: bool)
    ensures
        yes == text@.contains(':'),
{
    let chars = chars_of(text);
    for i in 0..chars.len()
        invariant
            chars@ == text@,
            forall|j: int| 0 <= j < i ==> chars@[j] != ':',
    {
        if chars[i] == ':' {
            return true;
        }
    }
    false
}

fn usb_device_names(usb: &[UsbEntry]) -> (names: Vec<String>)
    ensures
        views(names@) == device_names(views(usb@)),
{
    let ghost f = to_device_name();
    let mut names: Vec<String> = Vec::new();
    assert(views(names@) =~= somes(views(usb@).take(0).map_values(f)));
    for i in 0..usb.len()
        invariant
            f == to_device_name(),
            views(names@) == somes(views(usb@).take(i as int).map_values(f)),
    {
        proof {
            lemma_somes_next(views(usb@), i as int, f);
        }
        if !has_colon(usb[i].name.as_str()) {
            let name = usb[i].name.clone();
            proof {
                lemma_views_push(names@, name);
            }
            names.push(name);
        }
    }
    proof {
        lemma_take_all(views(usb@));
    }
    sorted_texts(&names)
}

fn read_attribute(text: &Option<String>) -> (value: Option<String>)
    ensures
        opt_view(value) == attribute(opt_view(*text)),
{
    match text {
        Some(text) => Some(trimmed(text.as_str())),
        None => None,
    }
}

fn read_number(text: &Option<String>) -> (value: Option<u32>)
    ensures
        match value {
            Some(n) => numeric(opt_view(*text)) == Some(n as nat),
            None => numeric(opt_view(*text)) is None,
        },
{
    match text {
        Some(text) => parse_u32(trimmed(text.as_str()).as_str()),
        None => None,
    }
}

/// The paths in `dev` of the consoles among `children`.
fn console_paths(children: &[String], dev: &str) -> (paths: Vec<String>)
    ensures
        views(paths@) == views(children@).filter(is_tty()).map_values(to_path(dev@)),
{
    let ghost all = views(children@);
    let mut paths: Vec<String> = Vec::new();
    proof {
        reveal(Seq::filter);
        assert(views(paths@) =~= all.take(0).filter(is_tty()).map_values(to_path(dev@)));
    }
    for i in 0..children.len()
        invariant
            all == views(children@),
            views(paths@) == all.take(i as int).filter(is_tty()).map_values(to_path(dev@)),
    {
        proof {
            lemma_filter_next(all, i as int, is_tty());
        }
        if begins_with(children[i].as_str(), "ttyUSB") {
            let path = joined_path(dev, children[i].as_str());
            proof {
                let kept = all.take(i as int).filter(is_tty());
                assert(kept.push(all[i as int]).map_values(to_path(dev@)) =~= kept.map_values(
                    to_path(dev@),
                ).push(path@));
                lemma_views_push(paths@, path);
            }
            paths.push(path);
        }
    }
    proof {
        lemma_take_all(all);
    }
    paths
}

fn read_consoles(usb: &[UsbEntry], dev: &str, name: &str) -> (consoles: Vec<String>)
    ensures
        views(consoles@) == consoles_of(views(usb@), dev@, name@),
{
    let mut prefix = name.to_string();
    prefix.append(":");
    let ghost f = consoles_below(name@, dev@);
    let mut consoles: Vec<String> = Vec::new();
    proof {
        assert(views(usb@).take(0).map_values(f) =~= Seq::empty());
        assert(views(consoles@) =~= Seq::empty());
    }
    for i in 0..usb.len()
        invariant
            prefix@ == name@ + ":"@,
            f == consoles_below(name@, dev@),
            views(consoles@) == concat_all(views(usb@).take(i as int).map_values(f)),
    {
        proof {
            lemma_concat_next(views(usb@), i as int, f);
        }
        if begins_with(usb[i].name.as_str(), prefix.as_str()) {
            let mut below = console_paths(&usb[i].children, dev);
            proof {
                lemma_views_add(consoles@, below@);
            }
            consoles.append(&mut below);
        } else {
            assert(views(consoles@) + Seq::<Seq<char>>::empty() =~= views(consoles@));
        }
    }
    proof {
        lemma_take_all(views(usb@));
    }
    sorted_texts(&consoles)
}

/// The cable at the USB device `name`; see [`cable_at`].
fn read_cable(usb: &[UsbEntry], dev: &str, name: &str) -> (cable: Option<Cable>)
    ensures
        opt_view(cable) == cable_at(views(usb@), dev@, name@),
{
    let entry = match entry_named(usb, name) {
        Some(entry) => entry,
        None => return None,
    };
    let serial = match read_attribute(&entry.serial) {
        Some(serial) => serial,
        None => return None,
    };
    let busnum: u32 = match read_number(&entry.busnum) {
        Some(busnum) => busnum,
        None => return None,
    };
    let devnum: u32 = match read_number(&entry.devnum) {
        Some(devnum) => devnum,
        None => return None,
    };
    let product = match read_attribute(&entry.product) {
        Some(product) => product,
        None => String::new(),
    };
    let mut node = "bus/usb/".to_string();
    node.append(zero_padded_text(busnum as u64, 3).as_str());
    node.append("/");
    node.append(zero_padded_text(devnum as u64, 3).as_str());
    Some(
        Cable {
            serial,
            product,
            jtag: joined_path(dev, node.as_str()),
            consoles: read_consoles(usb, dev, name),
            port_disable: joined_path(entry.port.as_str(), "disable"),
        },
    )
}

/// The cable with this serial right now; see [`cable_found`]. Device numbers and console names
/// change whenever a cable is plugged in, so nothing is remembered.
pub fn find(usb: &[UsbEntry], dev: &str, serial: &str) -> (cable: Result<Option<Cable>, String>)
    ensures
        match cable {
            Ok(cable) => cable_found(views(usb@), dev@, serial@) == Ok::<
                Option<CableModel>,
                Seq<char>,
            >(opt_view(cable)),
            Err(why) => cable_found(views(usb@), dev@, serial@) == Err::<
                Option<CableModel>,
                Seq<char>,
            >(why@),
        },
{
    let names = usb_device_names(usb);
    let ghost f = to_cable(views(usb@), dev@);
    let ghost pred = with_serial(serial@);
    let ghost all = views(names@);
    let mut matching: Vec<Cable> = Vec::new();
    proof {
        reveal(Seq::filter);
        assert(views(matching@) =~= somes(all.take(0).map_values(f)).filter(pred));
    }
    for i in 0..names.len()
        invariant
            f == to_cable(views(usb@), dev@),
            pred == with_serial(serial@),
            all == views(names@),
            views(matching@) == somes(all.take(i as int).map_values(f)).filter(pred),
    {
        proof {
            lemma_somes_next(all, i as int, f);
        }
        let ghost before = somes(all.take(i as int).map_values(f));
        if let Some(cable) = read_cable(usb, dev, names[i].as_str()) {
            proof {
                before.lemma_filter_push(cable@, pred);
                lemma_views_push(matching@, cable);
            }
            if same_text(cable.serial.as_str(), serial) {
                matching.push(cable);
            }
        }
    }
    proof {
        lemma_take_all(all);
    }
    assert(views(matching@).len() == matching@.len());
    if matching.len() == 0 {
        return Ok(None);
    }
    if matching.len() == 1 {
        let cable = matching[0].clone();
        assert(cable@ == views(matching@)[0]);
        return Ok(Some(cable));
    }
    let mut why = decimal_text(matching.len() as u64);
    why.append(" USB devices share serial ");
    why.append(serial);
    why.append("; not locking any of them");
    Err(why)
}

fn offers_cable(usb: &[UsbEntry], name: &str) -> (yes: bool)
    ensures
        yes == of_cable_vendor(views(usb@))(name@),
{
    match entry_named(usb, name) {
        Some(entry) => match read_attribute(&entry.vendor) {
            Some(vendor) => same_text(vendor.as_str(), "0403") || same_text(
                vendor.as_str(),
                "03fd",
            ),
            None => false,
        },
        None => false,
    }
}

/// FTDI and Xilinx USB devices: the cables that FPGA boards are programmed through.
pub fn discover(usb: &[UsbEntry], dev: &str) -> (cables: Vec<Cable>)
    ensures
        views(cables@) == discovered_cables(views(usb@), dev@),
{
    let names = usb_device_names(usb);
    let ghost f = to_cable(views(usb@), dev@);
    let ghost pred = of_cable_vendor(views(usb@));
    let ghost all = views(names@);
    let mut cables: Vec<Cable> = Vec::new();
    proof {
        reveal(Seq::filter);
        assert(views(cables@) =~= somes(all.take(0).filter(pred).map_values(f)));
    }
    for i in 0..names.len()
        invariant
            f == to_cable(views(usb@), dev@),
            pred == of_cable_vendor(views(usb@)),
            all == views(names@),
            views(cables@) == somes(all.take(i as int).filter(pred).map_values(f)),
    {
        proof {
            lemma_filter_next(all, i as int, pred);
        }
        if offers_cable(usb, names[i].as_str()) {
            let ghost kept = all.take(i as int).filter(pred);
            proof {
                let next = kept.push(all[i as int]);
                lemma_somes_next(next, kept.len() as int, f);
                lemma_take_all(next);
                assert(next.take(kept.len() as int) =~= kept);
            }
            if let Some(cable) = read_cable(usb, dev, names[i].as_str()) {
                proof {
                    lemma_views_push(cables@, cable);
                }
                cables.push(cable);
            }
        }
    }
    proof {
        lemma_take_all(all);
    }
    cables
}

pub open spec fn rules_header() -> Seq<char> {
    "# Written by fpgahog: cables held by exclusive claims. Rewritten on every change.\n"@
}

/// The rule for the JTAG node of a cable.
pub open spec fn usb_rule(serial: Seq<char>, user: Seq<char>) -> Seq<char> {
    "SUBSYSTEM==\"usb\", ENV{DEVTYPE}==\"usb_device\", ATTR{serial}==\""@ + serial
        + "\", OWNER=\""@ + user + "\", MODE=\"0600\"\n"@
}

/// The rule for the consoles of a cable.
pub open spec fn tty_rule(serial: Seq<char>, user: Seq<char>) -> Seq<char> {
    "SUBSYSTEM==\"tty\", ATTRS{serial}==\""@ + serial + "\", OWNER=\""@ + user
        + "\", MODE=\"0600\"\n"@
}

pub open spec fn to_rules() -> spec_fn((Seq<char>, Seq<char>)) -> Seq<char> {
    |entry: (Seq<char>, Seq<char>)| usb_rule(entry.0, entry.1) + tty_rule(entry.0, entry.1)
}

pub open spec fn rules_text(entries: Seq<(Seq<char>, Seq<char>)>) -> Seq<char> {
    rules_header() + concat_all(entries.map_values(to_rules()))
}

fn usb_rule_text(serial: &str, user: &str) -> (rule: String)
    ensures
        rule@ == usb_rule(serial@, user@),
{
    let mut rule =
        "SUBSYSTEM==\"usb\", ENV{DEVTYPE}==\"usb_device\", ATTR{serial}==\"".to_string();
    rule.append(serial);
    rule.append("\", OWNER=\"");
    rule.append(user);
    rule.append("\", MODE=\"0600\"\n");
    rule
}

fn tty_rule_text(serial: &str, user: &str) -> (rule: String)
    ensures
        rule@ == tty_rule(serial@, user@),
{
    let mut rule = "SUBSYSTEM==\"tty\", ATTRS{serial}==\"".to_string();
    rule.append(serial);
    rule.append("\", OWNER=\"");
    rule.append(user);
    rule.append("\", MODE=\"0600\"\n");
    rule
}

proof fn lemma_rules_next(entries: Seq<(Seq<char>, Seq<char>)>, i: int)
    requires
        0 <= i < entries.len(),
    ensures
        rules_text(entries.take(i + 1)) == rules_text(entries.take(i)) + usb_rule(
            entries[i].0,
            entries[i].1,
        ) + tty_rule(entries[i].0, entries[i].1),
{
    lemma_concat_next(entries, i, to_rules());
    let before = concat_all(entries.take(i).map_values(to_rules()));
    let usb = usb_rule(entries[i].0, entries[i].1);
    let tty = tty_rule(entries[i].0, entries[i].1);
    assert(rules_header() + (before + (usb + tty)) =~= (rules_header() + before) + usb + tty);
}

/// udev rules handing each cable to its claimant whenever its files are created. Entries are
/// (serial, user).
pub fn render_rules(entries: &[(String, String)]) -> (text: String)
    ensures
        text@ == rules_text(views(entries@)),
{
    let ghost all = views(entries@);
    let mut text =
        "# Written by fpgahog: cables held by exclusive claims. Rewritten on every change.\n".to_string();
    proof {
        assert(all.take(0).map_values(to_rules()) =~= Seq::empty());
        assert(text@ =~= rules_text(all.take(0)));
    }
    for i in 0..entries.len()
        invariant
            all == views(entries@),
            text@ == rules_text(all.take(i as int)),
    {
        let serial = entries[i].0.as_str();
        let user = entries[i].1.as_str();
        proof {
            lemma_rules_next(all, i as int);
            assert(all[i as int] == (serial@, user@));
        }
        let usb = usb_rule_text(serial, user);
        let tty = tty_rule_text(serial, user);
        text.append(usb.as_str());
        text.append(tty.as_str());
    }
    proof {
        lemma_take_all(all);
    }
    text
}

/// A valid serial, or user name, cannot end the quotes or the line that a rule puts it in.
pub proof fn law_valid_serials_stay_inside_their_quotes(serial: Seq<char>)
    requires
        is_valid_serial(serial),
    ensures
        !serial.contains('"'),
        !serial.contains('\n'),
        !serial.contains('\\'),
{
    assert forall|i: int| 0 <= i < serial.len() implies serial[i] != '"' && serial[i] != '\n'
        && serial[i] != '\\' by {
        assert(is_plain(serial[i]));
    }
}

impl CableModel {
    /// The JTAG node and the consoles.
    pub open spec fn paths(self) -> Seq<Seq<char>> {
        seq![self.jtag] + self.consoles
    }
}

/// The cable's JTAG node and consoles.
pub fn paths(cable: &Cable) -> (paths: Vec<String>)
    ensures
        views(paths@) == cable@.paths(),
{
    let mut paths: Vec<String> = Vec::new();
    paths.push(cable.jtag.clone());
    let ghost first = paths@;
    let mut consoles = copied(&cable.consoles);
    proof {
        lemma_views_add(first, consoles@);
        assert(views(first) =~= seq![cable@.jtag]);
    }
    paths.append(&mut consoles);
    paths
}

/// What can be said of one configured cable.
#[derive(Debug, Clone, Copy, PartialEq, Eq, Structural)]
pub enum CableView {
    Invalid,
    /// Gone because its port was disabled and never enabled again, not because it was unplugged.
    PortDisabled,
    Absent,
    Present { locked: bool },
}

/// One phrase for a board's cables, or None if it has none.
pub open spec fn cable_phrase(claimed: bool, views: Seq<CableView>) -> Option<Seq<char>> {
    if views.len() == 0 {
        None
    } else if views.contains(CableView::Invalid) {
        Some("cable serial invalid"@)
    } else if views.contains(CableView::PortDisabled) {
        Some("cable port disabled"@)
    } else if views.contains(CableView::Absent) {
        Some("cable absent"@)
    } else if !claimed {
        Some("cable unlocked"@)
    } else if forall|i: int|
        0 <= i < views.len() ==> #[trigger] views[i] == (CableView::Present { locked: true }) {
        Some("cable locked"@)
    } else {
        Some("cable NOT locked"@)
    }
}

fn has_view(views: &[CableView], wanted: CableView) -> (yes: bool)
    ensures
        yes == views@.contains(wanted),
{
    for i in 0..views.len()
        invariant
            forall|j: int| 0 <= j < i ==> views@[j] != wanted,
    {
        if views[i] == wanted {
            return true;
        }
    }
    false
}

/// One phrase for a board's cables; see [`cable_phrase`].
pub fn describe(claimed: bool, views: &[CableView]) -> (phrase: Option<String>)
    ensures
        opt_view(phrase) == cable_phrase(claimed, views@),
{
    if views.len() == 0 {
        return None;
    }
    if has_view(views, CableView::Invalid) {
        return Some("cable serial invalid".to_string());
    }
    if has_view(views, CableView::PortDisabled) {
        return Some("cable port disabled".to_string());
    }
    if has_view(views, CableView::Absent) {
        return Some("cable absent".to_string());
    }
    if !claimed {
        return Some("cable unlocked".to_string());
    }
    if has_view(views, CableView::Present { locked: false }) {
        return Some("cable NOT locked".to_string());
    }
    assert forall|i: int| 0 <= i < views@.len() implies #[trigger] views@[i]
        == (CableView::Present { locked: true }) by {
        let seen = views@[i];
        assert(views@.contains(seen));
    }
    Some("cable locked".to_string())
}

pub open spec fn to_cables() -> spec_fn(FpgaSpecModel) -> Seq<Seq<char>> {
    |spec: FpgaSpecModel| spec.cables
}

/// The serials of all boards.
pub open spec fn all_serials(specs: Seq<FpgaSpecModel>) -> Seq<Seq<char>> {
    concat_all(specs.map_values(to_cables()))
}

/// The serials of all boards.
pub fn serials_of(specs: &[FpgaSpec]) -> (serials: Vec<String>)
    ensures
        views(serials@) == all_serials(views(specs@)),
{
    let ghost f = to_cables();
    let ghost all = views(specs@);
    let mut serials: Vec<String> = Vec::new();
    proof {
        assert(all.take(0).map_values(f) =~= Seq::empty());
        assert(views(serials@) =~= Seq::empty());
    }
    for i in 0..specs.len()
        invariant
            f == to_cables(),
            all == views(specs@),
            views(serials@) == concat_all(all.take(i as int).map_values(f)),
    {
        let mut more = copied(&specs[i].cables);
        proof {
            lemma_concat_next(all, i as int, f);
            lemma_views_add(serials@, more@);
        }
        serials.append(&mut more);
    }
    proof {
        lemma_take_all(all);
    }
    serials
}

/// Serials listed by more than one board, or twice by one board. Such a cable would go to two
/// claimants in turn, so it is locked for none.
pub fn duplicate_serials(specs: &[FpgaSpec]) -> (duplicates: Vec<String>)
    ensures
        views(duplicates@) == repeats(all_serials(views(specs@))),
{
    let serials = serials_of(specs);
    let ghost all = views(serials@);
    let mut seen: Vec<String> = Vec::new();
    let mut duplicates: Vec<String> = Vec::new();
    proof {
        assert(all.take(0) =~= Seq::empty());
        assert(views(seen@) =~= all.take(0));
        assert(views(duplicates@) =~= repeats(all.take(0)));
    }
    for i in 0..serials.len()
        invariant
            all == views(serials@),
            views(seen@) == all.take(i as int),
            views(duplicates@) == repeats(all.take(i as int)),
    {
        let serial = serials[i].as_str();
        proof {
            lemma_take_next(all, i as int);
        }
        if is_among(serial, &seen) && !is_among(serial, &duplicates) {
            let copy = serials[i].clone();
            proof {
                lemma_views_push(duplicates@, copy);
            }
            duplicates.push(copy);
        }
        let copy = serials[i].clone();
        proof {
            lemma_views_push(seen@, copy);
        }
        seen.push(copy);
    }
    proof {
        lemma_take_all(all);
    }
    duplicates
}

/// The numbers of the texts that contain `part`.
pub open spec fn hits(texts: Seq<Seq<char>>, part: Seq<char>) -> Seq<int> {
    Seq::new(texts.len(), |i: int| i).filter(|i: int| contains_text(texts[i], part))
}

/// The numbers of the texts that occur in `whole`.
pub open spec fn parts_of(texts: Seq<Seq<char>>, whole: Seq<char>) -> Seq<int> {
    Seq::new(texts.len(), |i: int| i).filter(|i: int| contains_text(whole, texts[i]))
}

/// The cable for the board with the number `i`, if the board has none: the only one whose product
/// contains the board's alias, if that product contains no other alias, its serial is valid and no
/// board lists it. `aliases` and `products` are the names that are compared.
pub open spec fn assignment(
    specs: Seq<FpgaSpecModel>,
    cables: Seq<CableModel>,
    aliases: Seq<Seq<char>>,
    products: Seq<Seq<char>>,
    i: int,
) -> Option<(Seq<char>, Seq<char>)> {
    let found = hits(products, aliases[i]);
    if specs[i].cables.len() == 0 && found.len() == 1 && is_valid_serial(cables[found[0]].serial)
        && !all_serials(specs).contains(cables[found[0]].serial) && parts_of(
        aliases,
        products[found[0]],
    ).len() == 1 {
        Some((specs[i].alias, cables[found[0]].serial))
    } else {
        None
    }
}

/// (alias, serial) of each board that gets a cable.
pub open spec fn assignments(
    specs: Seq<FpgaSpecModel>,
    cables: Seq<CableModel>,
    aliases: Seq<Seq<char>>,
    products: Seq<Seq<char>>,
) -> Seq<(Seq<char>, Seq<char>)> {
    somes(Seq::new(specs.len(), |i: int| assignment(specs, cables, aliases, products, i)))
}

fn hit_numbers(texts: &[String], part: &str) -> (numbers: Vec<usize>)
    ensures
        numbers@.map_values(|n: usize| n as int) == hits(views(texts@), part@),
        forall|k: int| 0 <= k < numbers@.len() ==> #[trigger] numbers@[k] < texts@.len(),
{
    let ghost pred = |i: int| contains_text(views(texts@)[i], part@);
    let ghost range = Seq::new(views(texts@).len(), |i: int| i);
    let ghost f = |n: usize| n as int;
    let mut numbers: Vec<usize> = Vec::new();
    proof {
        reveal(Seq::filter);
        assert(numbers@.map_values(f) =~= range.take(0).filter(pred));
    }
    for i in 0..texts.len()
        invariant
            pred == (|i: int| contains_text(views(texts@)[i], part@)),
            range == Seq::new(views(texts@).len(), |i: int| i),
            f == (|n: usize| n as int),
            numbers@.map_values(f) == range.take(i as int).filter(pred),
            forall|k: int| 0 <= k < numbers@.len() ==> #[trigger] numbers@[k] < texts@.len(),
    {
        proof {
            lemma_filter_next(range, i as int, pred);
        }
        if has_part(texts[i].as_str(), part) {
            assert(numbers@.push(i).map_values(f) =~= numbers@.map_values(f).push(i as int));
            numbers.push(i);
        }
    }
    proof {
        lemma_take_all(range);
    }
    numbers
}

fn part_count(texts: &[String], whole: &str) -> (count: usize)
    ensures
        count == parts_of(views(texts@), whole@).len(),
{
    let ghost pred = |i: int| contains_text(whole@, views(texts@)[i]);
    let ghost range = Seq::new(views(texts@).len(), |i: int| i);
    let mut count: usize = 0;
    proof {
        reveal(Seq::filter);
        assert(range.take(0).filter(pred) =~= Seq::empty());
    }
    for i in 0..texts.len()
        invariant
            pred == (|i: int| contains_text(whole@, views(texts@)[i])),
            range == Seq::new(views(texts@).len(), |i: int| i),
            count <= i,
            count == range.take(i as int).filter(pred).len(),
    {
        proof {
            lemma_filter_next(range, i as int, pred);
        }
        if has_part(whole, texts[i].as_str()) {
            count = count + 1;
        }
    }
    proof {
        lemma_take_all(range);
    }
    count
}

/// Pair boards without cables with cables, going by the given names of the boards and products;
/// see [`assignment`].
pub fn assign_by(specs: &[FpgaSpec], cables: &[Cable], aliases: &[String], products: &[String]) -> (
    pairs: Vec<(String, String)>)
    requires
        aliases@.len() == specs@.len(),
        products@.len() == cables@.len(),
    ensures
        views(pairs@) == assignments(
            views(specs@),
            views(cables@),
            views(aliases@),
            views(products@),
        ),
{
    let taken = serials_of(specs);
    let ghost mapped = Seq::new(
        views(specs@).len(),
        |i: int|
            assignment(views(specs@), views(cables@), views(aliases@), views(products@), i),
    );
    let mut pairs: Vec<(String, String)> = Vec::new();
    assert(views(pairs@) =~= somes(mapped.take(0)));
    for i in 0..specs.len()
        invariant
            aliases@.len() == specs@.len(),
            products@.len() == cables@.len(),
            views(taken@) == all_serials(views(specs@)),
            mapped == Seq::new(
                views(specs@).len(),
                |i: int|
                    assignment(
                        views(specs@),
                        views(cables@),
                        views(aliases@),
                        views(products@),
                        i,
                    ),
            ),
            views(pairs@) == somes(mapped.take(i as int)),
    {
        proof {
            lemma_take_next(mapped, i as int);
        }
        if specs[i].cables.len() == 0 {
            let found = hit_numbers(products, aliases[i].as_str());
            assert(hits(views(products@), aliases@[i as int]@).len() == found@.len());
            if found.len() == 1 {
                let only: usize = found[0];
                assert(hits(views(products@), aliases@[i as int]@)[0] == only);
                let serial = cables[only].serial.as_str();
                if valid_serial(serial) && !is_among(serial, &taken) && part_count(
                    aliases,
                    products[only].as_str(),
                ) == 1 {
                    let pair = (specs[i].alias.clone(), cables[only].serial.clone());
                    proof {
                        lemma_views_push(pairs@, pair);
                    }
                    pairs.push(pair);
                }
            }
        }
    }
    proof {
        lemma_take_all(mapped);
    }
    pairs
}

pub open spec fn lowered_aliases(specs: Seq<FpgaSpecModel>) -> Seq<Seq<char>> {
    specs.map_values(|spec: FpgaSpecModel| lowercase(spec.alias))
}

pub open spec fn lowered_products(cables: Seq<CableModel>) -> Seq<Seq<char>> {
    cables.map_values(|cable: CableModel| lowercase(cable.product))
}

/// Pair boards without cables with the one cable whose product name contains the board's alias, in
/// any case of the letters. A board that matches two cables, or a cable that matches two boards,
/// is left for a human. Returns (alias, serial).
pub fn assign(specs: &[FpgaSpec], cables: &[Cable]) -> (pairs: Vec<(String, String)>)
    ensures
        views(pairs@) == assignments(
            views(specs@),
            views(cables@),
            lowered_aliases(views(specs@)),
            lowered_products(views(cables@)),
        ),
{
    let mut aliases: Vec<String> = Vec::new();
    for i in 0..specs.len()
        invariant
            views(aliases@) == lowered_aliases(views(specs@)).take(i as int),
    {
        let name = lowercase_text(specs[i].alias.as_str());
        proof {
            lemma_take_next(lowered_aliases(views(specs@)), i as int);
            lemma_views_push(aliases@, name);
        }
        aliases.push(name);
    }
    let mut products: Vec<String> = Vec::new();
    for i in 0..cables.len()
        invariant
            views(products@) == lowered_products(views(cables@)).take(i as int),
    {
        let name = lowercase_text(cables[i].product.as_str());
        proof {
            lemma_take_next(lowered_products(views(cables@)), i as int);
            lemma_views_push(products@, name);
        }
        products.push(name);
    }
    proof {
        lemma_take_all(lowered_aliases(views(specs@)));
        lemma_take_all(lowered_products(views(cables@)));
        assert(views(aliases@).len() == aliases@.len());
        assert(views(products@).len() == products@.len());
    }
    assign_by(specs, cables, &aliases, &products)
}

/// Only a board without cables gets one, and only a cable with a valid serial that no board lists.
pub proof fn law_assignments_touch_no_configured_cable(
    specs: Seq<FpgaSpecModel>,
    cables: Seq<CableModel>,
    aliases: Seq<Seq<char>>,
    products: Seq<Seq<char>>,
    k: int,
)
    requires
        aliases.len() == specs.len(),
        products.len() == cables.len(),
        0 <= k < assignments(specs, cables, aliases, products).len(),
    ensures
        ({
            let pair = assignments(specs, cables, aliases, products)[k];
            &&& is_valid_serial(pair.1)
            &&& !all_serials(specs).contains(pair.1)
            &&& exists|i: int|
                0 <= i < specs.len() && (#[trigger] specs[i]).alias == pair.0
                    && specs[i].cables.len() == 0
        }),
{
    let mapped = Seq::new(
        specs.len(),
        |i: int| assignment(specs, cables, aliases, products, i),
    );
    let out = assignments(specs, cables, aliases, products);
    lemma_somes_members(mapped);
    assert(out.contains(out[k]));
    let i = choose|i: int| 0 <= i < mapped.len() && mapped[i] == Some(out[k]);
    assert(specs[i].alias == out[k].0);
}

proof fn lemma_two_in_filter(range: Seq<int>, pred: spec_fn(int) -> bool, a: int, b: int)
    requires
        range.contains(a),
        range.contains(b),
        a != b,
        pred(a),
        pred(b),
    ensures
        range.filter(pred).len() != 1,
{
    lemma_filter_members(range, pred);
    let out = range.filter(pred);
    assert(out.contains(a));
    assert(out.contains(b));
    let i = choose|i: int| 0 <= i < out.len() && out[i] == a;
    let j = choose|j: int| 0 <= j < out.len() && out[j] == b;
    assert(i != j);
}

/// Two boards that each get a cable get different ones.
pub proof fn law_no_cable_is_assigned_twice(
    specs: Seq<FpgaSpecModel>,
    cables: Seq<CableModel>,
    aliases: Seq<Seq<char>>,
    products: Seq<Seq<char>>,
    i: int,
    j: int,
)
    requires
        aliases.len() == specs.len(),
        products.len() == cables.len(),
        0 <= i < j < specs.len(),
        assignment(specs, cables, aliases, products, i) is Some,
        assignment(specs, cables, aliases, products, j) is Some,
    ensures
        hits(products, aliases[i])[0] != hits(products, aliases[j])[0],
{
    let a = hits(products, aliases[i])[0];
    if a == hits(products, aliases[j])[0] {
        let range = Seq::new(products.len(), |n: int| n);
        let names = Seq::new(aliases.len(), |n: int| n);
        lemma_filter_members(range, |n: int| contains_text(products[n], aliases[i]));
        lemma_filter_members(range, |n: int| contains_text(products[n], aliases[j]));
        assert(hits(products, aliases[i]).contains(a));
        assert(hits(products, aliases[j]).contains(a));
        assert(names[i] == i && names[j] == j);
        lemma_two_in_filter(names, |n: int| contains_text(products[a], aliases[n]), i, j);
    }
}

/// Where a cable is, for who asks by serial: nowhere, if several USB devices share the serial.
pub open spec fn looked_up(usb: Seq<UsbEntryModel>, dev: Seq<char>, serial: Seq<char>) -> Option<
    CableModel,
> {
    match cable_found(usb, dev, serial) {
        Ok(cable) => cable,
        Err(_) => None,
    }
}

/// The cable with this serial, if exactly one is plugged in.
pub fn look_up(usb: &[UsbEntry], dev: &str, serial: &str) -> (cable: Option<Cable>)
    ensures
        opt_view(cable) == looked_up(views(usb@), dev@, serial@),
{
    match find(usb, dev, serial) {
        Ok(cable) => cable,
        Err(_) => None,
    }
}

/// The files of the cable with this serial, if the serial is valid and the cable is there.
pub open spec fn to_cable_paths(usb: Seq<UsbEntryModel>, dev: Seq<char>) -> spec_fn(
    Seq<char>,
) -> Seq<Seq<char>> {
    |serial: Seq<char>|
        if is_valid_serial(serial) {
            match looked_up(usb, dev, serial) {
                Some(cable) => cable.paths(),
                None => Seq::empty(),
            }
        } else {
            Seq::empty()
        }
}

/// The JTAG nodes and consoles of a board's cables.
pub open spec fn board_files(
    spec: FpgaSpecModel,
    usb: Seq<UsbEntryModel>,
    dev: Seq<char>,
) -> Seq<Seq<char>> {
    concat_all(spec.cables.map_values(to_cable_paths(usb, dev)))
}

/// The current JTAG nodes and consoles of a board's cables.
pub fn board_paths(spec: &FpgaSpec, usb: &[UsbEntry], dev: &str) -> (out: Vec<String>)
    ensures
        views(out@) == board_files(spec@, views(usb@), dev@),
{
    let ghost f = to_cable_paths(views(usb@), dev@);
    let ghost all = spec@.cables;
    let mut out: Vec<String> = Vec::new();
    proof {
        assert(all.take(0).map_values(f) =~= Seq::empty());
        assert(views(out@) =~= Seq::empty());
    }
    for i in 0..spec.cables.len()
        invariant
            f == to_cable_paths(views(usb@), dev@),
            all == spec@.cables,
            views(out@) == concat_all(all.take(i as int).map_values(f)),
    {
        let ghost sofar = views(out@);
        proof {
            lemma_concat_next(all, i as int, f);
            assert(sofar + Seq::<Seq<char>>::empty() =~= sofar);
        }
        if valid_serial(spec.cables[i].as_str()) {
            if let Some(cable) = look_up(usb, dev, spec.cables[i].as_str()) {
                let mut more = paths(&cable);
                proof {
                    lemma_views_add(out@, more@);
                }
                out.append(&mut more);
            }
        }
    }
    proof {
        lemma_take_all(all);
    }
    out
}

/// A cable that somebody else has open.
#[derive(Debug, PartialEq, Eq)]
pub struct HeldCable {
    pub cable: Cable,
    pub alias: String,
    pub holders: Vec<Holder>,
}

#[verifier::ext_equal]
pub struct HeldCableModel {
    pub cable: CableModel,
    pub alias: Seq<char>,
    pub holders: Seq<HolderModel>,
}

impl View for HeldCable {
    type V = HeldCableModel;

    open spec fn view(&self) -> HeldCableModel {
        HeldCableModel {
            cable: self.cable@,
            alias: self.alias@,
            holders: views(self.holders@),
        }
    }
}

/// What was seen of the host: its USB devices, its processes and its accounts.
#[verifier::ext_equal]
pub struct HostModel {
    pub usb: Seq<UsbEntryModel>,
    pub dev: Seq<char>,
    pub processes: Seq<ProcessModel>,
    pub accounts: Seq<AccountModel>,
}

/// What was seen of the host: its USB devices, the directory of device files, its processes and
/// its accounts.
#[derive(Debug, PartialEq, Eq)]
pub struct Host {
    pub usb: Vec<UsbEntry>,
    pub dev: String,
    pub processes: Vec<Process>,
    pub accounts: Vec<Account>,
}

impl View for Host {
    type V = HostModel;

    open spec fn view(&self) -> HostModel {
        HostModel {
            usb: views(self.usb@),
            dev: self.dev@,
            processes: views(self.processes@),
            accounts: views(self.accounts@),
        }
    }
}

/// The cable with this serial, if somebody else than `my_uid` has one of its files open.
pub open spec fn to_held(host: HostModel, alias: Seq<char>, my_uid: Option<u32>) -> spec_fn(
    Seq<char>,
) -> Option<HeldCableModel> {
    |serial: Seq<char>|
        if is_valid_serial(serial) {
            match looked_up(host.usb, host.dev, serial) {
                Some(cable) => {
                    let holders = holders_of(cable.paths(), host.processes, host.accounts).filter(
                        is_foreign(my_uid),
                    );
                    if holders.len() > 0 {
                        Some(HeldCableModel { cable, alias, holders })
                    } else {
                        None
                    }
                },
                None => None,
            }
        } else {
            None
        }
}

pub open spec fn to_held_cables(host: HostModel, my_uid: Option<u32>) -> spec_fn(
    FpgaSpecModel,
) -> Seq<HeldCableModel> {
    |spec: FpgaSpecModel| somes(spec.cables.map_values(to_held(host, spec.alias, my_uid)))
}

/// The cables of `specs` that somebody else has open.
pub open spec fn held_cables(
    specs: Seq<FpgaSpecModel>,
    host: HostModel,
    my_uid: Option<u32>,
) -> Seq<HeldCableModel> {
    concat_all(specs.map_values(to_held_cables(host, my_uid)))
}

fn as_held(host: &Host, alias: &str, my_uid: Option<u32>, serial: &str) -> (held: Option<HeldCable>)
    ensures
        opt_view(held) == to_held(host@, alias@, my_uid)(serial@),
{
    if !valid_serial(serial) {
        return None;
    }
    let cable = match look_up(&host.usb, host.dev.as_str(), serial) {
        Some(cable) => cable,
        None => return None,
    };
    let all = holders(&paths(&cable), &host.processes, &host.accounts);
    let foreign = foreign_holders(&all, my_uid);
    assert(views(foreign@).len() == foreign@.len());
    if foreign.len() == 0 {
        return None;
    }
    Some(HeldCable { cable, alias: alias.to_string(), holders: foreign })
}

/// Cables of `specs` that somebody else has open, with who has; see [`held_cables`].
pub fn foreign_cable_holders(specs: &[FpgaSpec], host: &Host, my_uid: Option<u32>) -> (held: Vec<
    HeldCable,
>)
    ensures
        views(held@) == held_cables(views(specs@), host@, my_uid),
{
    let ghost f = to_held_cables(host@, my_uid);
    let ghost all = views(specs@);
    let mut held: Vec<HeldCable> = Vec::new();
    proof {
        assert(all.take(0).map_values(f) =~= Seq::empty());
        assert(views(held@) =~= Seq::empty());
    }
    for i in 0..specs.len()
        invariant
            f == to_held_cables(host@, my_uid),
            all == views(specs@),
            views(held@) == concat_all(all.take(i as int).map_values(f)),
    {
        let spec = &specs[i];
        let ghost g = to_held(host@, spec@.alias, my_uid);
        let ghost sofar = views(held@);
        let ghost serials = spec@.cables;
        proof {
            lemma_concat_next(all, i as int, f);
            assert(serials.take(0).map_values(g) =~= Seq::empty());
            assert(sofar + somes(serials.take(0).map_values(g)) =~= sofar);
        }
        for k in 0..spec.cables.len()
            invariant
                g == to_held(host@, spec@.alias, my_uid),
                serials == spec@.cables,
                views(held@) == sofar + somes(serials.take(k as int).map_values(g)),
        {
            proof {
                lemma_somes_next(serials, k as int, g);
            }
            if let Some(one) = as_held(host, spec.alias.as_str(), my_uid, spec.cables[k].as_str()) {
                proof {
                    lemma_views_push(held@, one);
                    let before = somes(serials.take(k as int).map_values(g));
                    assert((sofar + before).push(one@) =~= sofar + before.push(one@));
                }
                held.push(one);
            }
        }
        proof {
            lemma_take_all(serials);
        }
    }
    proof {
        lemma_take_all(all);
    }
    held
}

/// What is said of one process that has a board's cable open.
pub open spec fn holder_phrase(holder: HolderModel) -> Seq<char> {
    "pid "@ + decimal(holder.pid as nat) + " ("@ + holder.cmdline + ", "@ + holder.user + ")"@
}

pub open spec fn to_hold_line(held: HeldCableModel) -> spec_fn(HolderModel) -> Seq<char> {
    |holder: HolderModel|
        holder_phrase(holder) + " holds "@ + held.alias + "'s cable "@ + held.cable.serial
}

pub open spec fn to_hold_lines() -> spec_fn(HeldCableModel) -> Seq<Seq<char>> {
    |held: HeldCableModel| held.holders.map_values(to_hold_line(held))
}

pub open spec fn to_cut_line(held: HeldCableModel) -> spec_fn(HolderModel) -> Seq<char> {
    |holder: HolderModel| "cutting "@ + holder_phrase(holder) + " off "@ + held.alias + "'s cable"@
}

fn holder_text(holder: &Holder) -> (out: String)
    ensures
        out@ == holder_phrase(holder@),
{
    let mut out = "pid ".to_string();
    out.append(decimal_text(holder.pid as u64).as_str());
    out.append(" (");
    out.append(holder.cmdline.as_str());
    out.append(", ");
    out.append(holder.user.as_str());
    out.append(")");
    out
}

/// Who would lose a cable: one line for each process.
pub fn report_foreign_holders(held: &[HeldCable]) -> (out: Vec<String>)
    ensures
        views(out@) == concat_all(views(held@).map_values(to_hold_lines())),
{
    let ghost f = to_hold_lines();
    let ghost all = views(held@);
    let mut out: Vec<String> = Vec::new();
    proof {
        assert(all.take(0).map_values(f) =~= Seq::empty());
        assert(views(out@) =~= Seq::empty());
    }
    for i in 0..held.len()
        invariant
            f == to_hold_lines(),
            all == views(held@),
            views(out@) == concat_all(all.take(i as int).map_values(f)),
    {
        let one = &held[i];
        let ghost g = to_hold_line(one@);
        let ghost sofar = views(out@);
        let ghost holders = one@.holders;
        proof {
            lemma_concat_next(all, i as int, f);
            assert(sofar + holders.take(0).map_values(g) =~= sofar);
        }
        for k in 0..one.holders.len()
            invariant
                g == to_hold_line(one@),
                holders == one@.holders,
                views(out@) == sofar + holders.take(k as int).map_values(g),
        {
            let mut line = holder_text(&one.holders[k]);
            line.append(" holds ");
            line.append(one.alias.as_str());
            line.append("'s cable ");
            line.append(one.cable.serial.as_str());
            proof {
                lemma_map_next(holders, k as int, g);
                lemma_views_push(out@, line);
                let before = holders.take(k as int).map_values(g);
                assert((sofar + before).push(line@) =~= sofar + before.push(line@));
            }
            out.push(line);
        }
        proof {
            lemma_take_all(holders);
        }
    }
    proof {
        lemma_take_all(all);
    }
    out
}

/// Who is about to be cut off a cable: one line for each process.
pub fn eviction_lines(held: &HeldCable) -> (out: Vec<String>)
    ensures
        views(out@) == held@.holders.map_values(to_cut_line(held@)),
{
    let ghost g = to_cut_line(held@);
    let ghost holders = held@.holders;
    let mut out: Vec<String> = Vec::new();
    assert(views(out@) =~= holders.take(0).map_values(g));
    for k in 0..held.holders.len()
        invariant
            g == to_cut_line(held@),
            holders == held@.holders,
            views(out@) == holders.take(k as int).map_values(g),
    {
        let mut line = "cutting ".to_string();
        line.append(holder_text(&held.holders[k]).as_str());
        line.append(" off ");
        line.append(held.alias.as_str());
        line.append("'s cable");
        proof {
            lemma_map_next(holders, k as int, g);
            lemma_views_push(out@, line);
        }
        out.push(line);
    }
    proof {
        lemma_take_all(holders);
    }
    out
}

} // verus!
