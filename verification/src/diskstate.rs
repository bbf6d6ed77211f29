//! What is remembered between runs: claims, boards, locks and hogs.
use vstd::prelude::*;
use crate::clock::{clock_time, is_clock_time, Moment};
use crate::hog::{User, UserModel};
use crate::seqs::{
    concat_all, distinct, find_first, lemma_concat_next, lemma_distinct, lemma_distinct_push,
    lemma_filter_all, lemma_filter_members, lemma_filter_next, lemma_first_where_is, lemma_map_next,
    lemma_take_all, lemma_take_next, lemma_views_push, opt_view, some_item, views,
};
use crate::text::{
    ascii_lowered, copied, cut_text, decimal, decimal_text, join, joined, not_blank, pieces,
    replace_first, replaced_first, same_ignoring_ascii_case, same_text, trim, trimmed, Cut,
};
use crate::util::STATE_PATH;

verus! {

pub const HOST_RESOURCE: &'static str = "host";

/// The file that holds the state, below [`STATE_PATH`].
pub const STATE_FILE_NAME: &'static str = "/fpgahog.json";

/// The version that is written, and the only one that is accepted once loaded.
pub const DEFAULT_STATE_VERSION: u32 = 3;

/// How long a command waits for another one to finish before giving up, in seconds.
pub const LOCK_WAIT: u64 = 30;

/// The versions that are read and upgraded: claims covered the whole host then, and there was no
/// notion of an FPGA.
pub open spec fn is_migratable(version: u32) -> bool {
    version == 1 || version == 2
}

/// Something that can be claimed. `host` is the whole machine; every other id names an FPGA by
/// its alias.
#[derive(Debug, PartialEq, Eq)]
pub enum ResourceId {
    Host,
    Fpga(String),
}

#[verifier::ext_equal]
pub enum ResourceModel {
    Host,
    Fpga(Seq<char>),
}

impl View for ResourceId {
    type V = ResourceModel;

    open spec fn view(&self) -> ResourceModel {
        match self {
            ResourceId::Host => ResourceModel::Host,
            ResourceId::Fpga(alias) => ResourceModel::Fpga(alias@),
        }
    }
}

/// The resource that a text names: the host, in any case of its letters, or else an FPGA.
pub open spec fn resource_of(text: Seq<char>) -> ResourceModel {
    if ascii_lowered(text) == ascii_lowered(HOST_RESOURCE@) {
        ResourceModel::Host
    } else {
        ResourceModel::Fpga(text)
    }
}

pub open spec fn name_of(resource: ResourceModel) -> Seq<char> {
    match resource {
        ResourceModel::Host => HOST_RESOURCE@,
        ResourceModel::Fpga(alias) => alias,
    }
}

pub open spec fn alias_of(resource: ResourceModel) -> Option<Seq<char>> {
    match resource {
        ResourceModel::Host => None,
        ResourceModel::Fpga(alias) => Some(alias),
    }
}

pub open spec fn to_resource() -> spec_fn(Seq<char>) -> ResourceModel {
    |text: Seq<char>| resource_of(text)
}

pub open spec fn to_name() -> spec_fn(ResourceModel) -> Seq<char> {
    |resource: ResourceModel| name_of(resource)
}

pub open spec fn to_trimmed() -> spec_fn(Seq<char>) -> Seq<char> {
    |text: Seq<char>| trim(text)
}

/// The resources that `parts` name, blank parts left out.
pub open spec fn resources_in(parts: Seq<Seq<char>>) -> Seq<ResourceModel> {
    parts.map_values(to_trimmed()).filter(not_blank()).map_values(to_resource())
}

/// The resources of a comma separated list, without blanks and repetitions.
pub open spec fn resource_list(text: Seq<char>) -> Seq<ResourceModel> {
    distinct(resources_in(pieces(text, Cut::At(','))))
}

/// The names of `resources`, comma separated.
pub open spec fn resource_names(resources: Seq<ResourceModel>) -> Seq<char> {
    join(resources.map_values(to_name()), ","@)
}

/// A name that is read back gives the resource that a text was read as.
pub proof fn law_resource_names_round_trip(text: Seq<char>)
    ensures
        resource_of(name_of(resource_of(text))) == resource_of(text),
        resource_of(text) matches ResourceModel::Fpga(alias) ==> alias == text,
{
}

/// A list names no resource twice, and exactly those that its parts name.
pub proof fn law_resource_lists_are_distinct(text: Seq<char>)
    ensures
        resource_list(text).no_duplicates(),
        forall|r: ResourceModel| #[trigger]
            resource_list(text).contains(r) <==> resources_in(
                pieces(text, Cut::At(',')),
            ).contains(r),
{
    lemma_distinct(resources_in(pieces(text, Cut::At(','))));
}

proof fn lemma_resources_in_next(parts: Seq<Seq<char>>, n: int)
    requires
        0 <= n < parts.len(),
    ensures
        resources_in(parts.take(n + 1)) == if trim(parts[n]).len() > 0 {
            resources_in(parts.take(n)).push(resource_of(trim(parts[n])))
        } else {
            resources_in(parts.take(n))
        },
{
    lemma_map_next(parts, n, to_trimmed());
    let before = parts.take(n).map_values(to_trimmed());
    before.lemma_filter_push(trim(parts[n]), not_blank());
    let kept = before.filter(not_blank());
    assert(kept.push(trim(parts[n])).map_values(to_resource()) =~= kept.map_values(
        to_resource(),
    ).push(resource_of(trim(parts[n]))));
}

impl Clone for ResourceId {
    fn clone(&self) -> (res: Self)
        ensures
            res@ == self@,
    {
        match self {
            ResourceId::Host => ResourceId::Host,
            ResourceId::Fpga(alias) => ResourceId::Fpga(alias.clone()),
        }
    }
}

impl ResourceId {
    /// The resource that `text` names: `host`, however it is capitalised, or a board.
    pub fn parse(text: &str) -> (resource: ResourceId)
        ensures
            resource@ == resource_of(text@),
    {
        if same_ignoring_ascii_case(text, HOST_RESOURCE) {
            ResourceId::Host
        } else {
            ResourceId::Fpga(text.to_string())
        }
    }

    /// Parse a comma separated resource list, dropping blanks and repetitions.
    pub fn parse_list(text: &str) -> (resources: Vec<ResourceId>)
        ensures
            views(resources@) == resource_list(text@),
    {
        let parts = cut_text(text, Cut::At(','));
        let mut out: Vec<ResourceId> = Vec::new();
        proof {
            reveal(Seq::filter);
            assert(views(out@) =~= distinct(resources_in(views(parts@).take(0))));
        }
        for i in 0..parts.len()
            invariant
                views(out@) == distinct(resources_in(views(parts@).take(i as int))),
        {
            let part = trimmed(parts[i].as_str());
            proof {
                lemma_resources_in_next(views(parts@), i as int);
                lemma_distinct_push(
                    resources_in(views(parts@).take(i as int)),
                    resource_of(part@),
                );
            }
            if !part.as_str().is_empty() {
                let id = ResourceId::parse(part.as_str());
                if !names_resource(&out, &id) {
                    proof {
                        lemma_views_push(out@, id);
                    }
                    out.push(id);
                }
            }
        }
        proof {
            lemma_take_all(views(parts@));
        }
        out
    }

    /// The FPGA alias, or None for the host.
    pub fn alias(&self) -> (alias: Option<&str>)
        ensures
            opt_view(alias) == alias_of(self@),
    {
        match self {
            ResourceId::Fpga(alias) => Some(alias.as_str()),
            ResourceId::Host => None,
        }
    }

    /// The name that [`ResourceId::parse`] reads back.
    pub fn to_string(&self) -> (name: String)
        ensures
            name@ == name_of(self@),
    {
        match self {
            ResourceId::Host => HOST_RESOURCE.to_string(),
            ResourceId::Fpga(alias) => alias.clone(),
        }
    }

    /// Read a name that was stored. An empty one is refused.
    pub fn from_stored(text: &str) -> (resource: Result<ResourceId, String>)
        ensures
            match resource {
                Ok(resource) => text@.len() > 0 && resource@ == resource_of(text@),
                Err(why) => text@.len() == 0 && why@ == "empty resource id"@,
            },
    {
        if text.is_empty() {
            return Err("empty resource id".to_string());
        }
        Ok(ResourceId::parse(text))
    }

    pub fn same(&self, other: &ResourceId) -> (same: bool)
        ensures
            same == (self@ == other@),
    {
        match (self, other) {
            (ResourceId::Host, ResourceId::Host) => true,
            (ResourceId::Fpga(a), ResourceId::Fpga(b)) => same_text(a.as_str(), b.as_str()),
            (ResourceId::Host, ResourceId::Fpga(_)) => false,
            (ResourceId::Fpga(_), ResourceId::Host) => false,
        }
    }
}

/// Whether `resource` is one of `resources`.
pub fn names_resource(resources: &[ResourceId], resource: &ResourceId) -> (yes: bool)
    ensures
        yes == views(resources@).contains(resource@),
{
    for i in 0..resources.len()
        invariant
            forall|j: int| 0 <= j < i ==> resources@[j]@ != resource@,
    {
        if resources[i].same(resource) {
            assert(views(resources@)[i as int] == resource@);
            return true;
        }
    }
    assert forall|j: int| 0 <= j < views(resources@).len() implies views(resources@)[j]
        != resource@ by {
        assert(resources@[j]@ != resource@);
    }
    false
}

/// The names of `resources`, each as it is written on the command line.
pub fn names_of(resources: &[ResourceId]) -> (names: Vec<String>)
    ensures
        views(names@) == views(resources@).map_values(to_name()),
{
    let mut names: Vec<String> = Vec::new();
    assert(views(names@) =~= views(resources@).take(0).map_values(to_name()));
    for i in 0..resources.len()
        invariant
            views(names@) == views(resources@).take(i as int).map_values(to_name()),
    {
        let name = resources[i].to_string();
        proof {
            lemma_map_next(views(resources@), i as int, to_name());
            lemma_views_push(names@, name);
        }
        names.push(name);
    }
    proof {
        lemma_take_all(views(resources@));
    }
    names
}

/// A copy of every resource.
pub fn copied_resources(resources: &[ResourceId]) -> (out: Vec<ResourceId>)
    ensures
        views(out@) == views(resources@),
{
    let mut out: Vec<ResourceId> = Vec::new();
    for i in 0..resources.len()
        invariant
            views(out@) == views(resources@).take(i as int),
    {
        let copy = resources[i].clone();
        proof {
            lemma_views_push(out@, copy);
            lemma_take_next(views(resources@), i as int);
        }
        out.push(copy);
    }
    proof {
        lemma_take_all(views(resources@));
    }
    out
}

#[derive(Debug, PartialEq, Eq)]
pub struct Claim {
    /// Stable identity, given on creation and never reused. The hogger is remembered as a copy of
    /// a claim, and `release` edits claims, so nothing else tells that the two belong together.
    pub id: u64,
    pub timeout: Moment,
    pub soft_timeout: Option<Moment>,
    pub exclusive: bool,
    pub user: String,
    pub comment: String,
    pub resources: Vec<ResourceId>,
}

#[verifier::ext_equal]
pub struct ClaimModel {
    pub id: u64,
    pub timeout: Moment,
    pub soft_timeout: Option<Moment>,
    pub exclusive: bool,
    pub user: Seq<char>,
    pub comment: Seq<char>,
    pub resources: Seq<ResourceModel>,
}

impl View for Claim {
    type V = ClaimModel;

    open spec fn view(&self) -> ClaimModel {
        ClaimModel {
            id: self.id,
            timeout: self.timeout,
            soft_timeout: self.soft_timeout,
            exclusive: self.exclusive,
            user: self.user@,
            comment: self.comment@,
            resources: views(self.resources@),
        }
    }
}

impl ClaimModel {
    pub open spec fn covers(self, resource: ResourceModel) -> bool {
        self.resources.contains(resource)
    }

    pub open spec fn covers_alias(self, alias: Seq<char>) -> bool {
        self.covers(ResourceModel::Fpga(alias))
    }

    /// Every moment of the claim is one that the calendar has.
    pub open spec fn wf(self) -> bool {
        &&& self.timeout.wf()
        &&& self.soft_timeout matches Some(soft) ==> soft.wf()
    }
}

impl Clone for Claim {
    fn clone(&self) -> (res: Self)
        ensures
            res@ == self@,
    {
        let res = Claim {
            id: self.id,
            timeout: self.timeout,
            soft_timeout: self.soft_timeout,
            exclusive: self.exclusive,
            user: self.user.clone(),
            comment: self.comment.clone(),
            resources: copied_resources(&self.resources),
        };
        res
    }
}

impl Claim {
    /// Whether the claim is on this resource.
    pub fn covers(&self, resource: &ResourceId) -> (yes: bool)
        ensures
            yes == self@.covers(resource@),
    {
        names_resource(&self.resources, resource)
    }

    /// Whether the claim is on the board `alias`.
    pub fn covers_alias(&self, alias: &str) -> (yes: bool)
        ensures
            yes == self@.covers_alias(alias@),
    {
        self.covers(&ResourceId::Fpga(alias.to_string()))
    }

    /// The names of what the claim covers, comma separated.
    pub fn resources_str(&self) -> (names: String)
        ensures
            names@ == resource_names(self@.resources),
    {
        joined(&names_of(&self.resources), ",")
    }
}

/// An FPGA that this host offers. `discover` writes these down and an admin edits them: only a
/// human can reliably say which character device belongs to which card.
#[derive(Debug, PartialEq, Eq)]
pub struct FpgaSpec {
    /// Short name used on the command line.
    pub alias: String,
    /// PCI address, the stable identity of the board.
    pub bdf: String,
    /// "vendor:device" as it was seen, kept to tell when the card in a slot changed.
    pub pci_id: String,
    /// Character devices that hand out access to this board. With none, and no cable either, a
    /// claim can be recorded but not enforced.
    pub devices: Vec<String>,
    /// USB serials of the board's JTAG cables.
    pub cables: Vec<String>,
}

#[verifier::ext_equal]
pub struct FpgaSpecModel {
    pub alias: Seq<char>,
    pub bdf: Seq<char>,
    pub pci_id: Seq<char>,
    pub devices: Seq<Seq<char>>,
    pub cables: Seq<Seq<char>>,
}

impl View for FpgaSpec {
    type V = FpgaSpecModel;

    open spec fn view(&self) -> FpgaSpecModel {
        FpgaSpecModel {
            alias: self.alias@,
            bdf: self.bdf@,
            pci_id: self.pci_id@,
            devices: views(self.devices@),
            cables: views(self.cables@),
        }
    }
}

impl Clone for FpgaSpec {
    fn clone(&self) -> (res: Self)
        ensures
            res@ == self@,
    {
        FpgaSpec {
            alias: self.alias.clone(),
            bdf: self.bdf.clone(),
            pci_id: self.pci_id.clone(),
            devices: copied(&self.devices),
            cables: copied(&self.cables),
        }
    }
}

/// Owner, group and mode of a device file before it was taken over, so that release restores
/// exactly what was there.
#[derive(Debug, PartialEq, Eq)]
pub struct DeviceLock {
    pub path: String,
    pub alias: String,
    pub orig_uid: u32,
    pub orig_gid: u32,
    pub orig_mode: u32,
    pub claimant_uid: u32,
}

#[verifier::ext_equal]
pub struct DeviceLockModel {
    pub path: Seq<char>,
    pub alias: Seq<char>,
    pub orig_uid: u32,
    pub orig_gid: u32,
    pub orig_mode: u32,
    pub claimant_uid: u32,
}

impl View for DeviceLock {
    type V = DeviceLockModel;

    open spec fn view(&self) -> DeviceLockModel {
        DeviceLockModel {
            path: self.path@,
            alias: self.alias@,
            orig_uid: self.orig_uid,
            orig_gid: self.orig_gid,
            orig_mode: self.orig_mode,
            claimant_uid: self.claimant_uid,
        }
    }
}

impl Clone for DeviceLock {
    fn clone(&self) -> (res: Self)
        ensures
            res@ == self@,
    {
        DeviceLock {
            path: self.path.clone(),
            alias: self.alias.clone(),
            orig_uid: self.orig_uid,
            orig_gid: self.orig_gid,
            orig_mode: self.orig_mode,
            claimant_uid: self.claimant_uid,
        }
    }
}

/// Owner, group and permission bits of a file.
#[derive(Debug, Clone, Copy, PartialEq, Eq)]
pub struct Ownership {
    pub uid: u32,
    pub gid: u32,
    pub mode: u32,
}

impl View for Ownership {
    type V = Ownership;

    open spec fn view(&self) -> Ownership {
        *self
    }
}

/// A cable handed to a claimant. The original ownership is kept per cable, not per file: the
/// files get new names whenever the cable is plugged in, and one that appears already locked
/// says nothing about what it was.
#[derive(Debug, PartialEq, Eq)]
pub struct CableLock {
    pub serial: String,
    pub alias: String,
    /// User name, as the udev rule names its owner.
    pub claimant: String,
    pub claimant_uid: u32,
    pub jtag_orig: Ownership,
    /// None if the cable had no consoles when it was locked.
    pub console_orig: Option<Ownership>,
    /// The hub port that re-plugs this cable, written down because it cannot be looked up once
    /// the cable is gone.
    pub port_disable: String,
}

#[verifier::ext_equal]
pub struct CableLockModel {
    pub serial: Seq<char>,
    pub alias: Seq<char>,
    pub claimant: Seq<char>,
    pub claimant_uid: u32,
    pub jtag_orig: Ownership,
    pub console_orig: Option<Ownership>,
    pub port_disable: Seq<char>,
}

impl View for CableLock {
    type V = CableLockModel;

    open spec fn view(&self) -> CableLockModel {
        CableLockModel {
            serial: self.serial@,
            alias: self.alias@,
            claimant: self.claimant@,
            claimant_uid: self.claimant_uid,
            jtag_orig: self.jtag_orig,
            console_orig: self.console_orig,
            port_disable: self.port_disable@,
        }
    }
}

impl Clone for CableLock {
    fn clone(&self) -> (res: Self)
        ensures
            res@ == self@,
    {
        CableLock {
            serial: self.serial.clone(),
            alias: self.alias.clone(),
            claimant: self.claimant.clone(),
            claimant_uid: self.claimant_uid,
            jtag_orig: self.jtag_orig,
            console_orig: self.console_orig,
            port_disable: self.port_disable.clone(),
        }
    }
}

#[derive(Debug, PartialEq, Eq)]
pub struct Settings {
    /// The same as AuthorizedKeysFile in sshd's configuration.
    pub authorized_keys_file: Vec<String>,
    /// The FPGAs of this host.
    pub fpgas: Vec<FpgaSpec>,
}

#[verifier::ext_equal]
pub struct SettingsModel {
    pub authorized_keys_file: Seq<Seq<char>>,
    pub fpgas: Seq<FpgaSpecModel>,
}

impl View for Settings {
    type V = SettingsModel;

    open spec fn view(&self) -> SettingsModel {
        SettingsModel {
            authorized_keys_file: views(self.authorized_keys_file@),
            fpgas: views(self.fpgas@),
        }
    }
}

pub open spec fn with_alias(alias: Seq<char>) -> spec_fn(FpgaSpecModel) -> bool {
    |spec: FpgaSpecModel| spec.alias == alias
}

pub open spec fn to_alias() -> spec_fn(FpgaSpecModel) -> Seq<char> {
    |spec: FpgaSpecModel| spec.alias
}

impl SettingsModel {
    /// The first board with this alias.
    pub open spec fn fpga(self, alias: Seq<char>) -> Option<FpgaSpecModel> {
        find_first(self.fpgas, with_alias(alias))
    }

    pub open spec fn aliases(self) -> Seq<Seq<char>> {
        self.fpgas.map_values(to_alias())
    }
}

impl Settings {
    /// The first board that goes by this alias.
    pub fn fpga(&self, alias: &str) -> (spec: Option<&FpgaSpec>)
        ensures
            opt_view(spec) == self@.fpga(alias@),
    {
        for i in 0..self.fpgas.len()
            invariant
                forall|j: int| 0 <= j < i ==> self.fpgas@[j].alias@ != alias@,
        {
            if same_text(self.fpgas[i].alias.as_str(), alias) {
                proof {
                    lemma_first_where_is(self@.fpgas, with_alias(alias@), i as int);
                }
                return Some(&self.fpgas[i]);
            }
        }
        proof {
            lemma_first_where_is(self@.fpgas, with_alias(alias@), self.fpgas@.len() as int);
        }
        None
    }

    /// The aliases of the boards, in their order.
    pub fn aliases(&self) -> (aliases: Vec<String>)
        ensures
            views(aliases@) == self@.aliases(),
    {
        let mut aliases: Vec<String> = Vec::new();
        assert(views(aliases@) =~= self@.fpgas.take(0).map_values(to_alias()));
        for i in 0..self.fpgas.len()
            invariant
                views(aliases@) == self@.fpgas.take(i as int).map_values(to_alias()),
        {
            let alias = self.fpgas[i].alias.clone();
            proof {
                lemma_map_next(self@.fpgas, i as int, to_alias());
                lemma_views_push(aliases@, alias);
            }
            aliases.push(alias);
        }
        proof {
            lemma_take_all(self@.fpgas);
        }
        aliases
    }
}

#[derive(Debug, PartialEq, Eq)]
pub struct DiskState {
    /// The claim under which the host is hogged.
    pub hogger: Option<Claim>,
    /// The files that are mounted over. Where unmounting failed this can hold files although the
    /// host is not hogged.
    pub overmounts: Vec<String>,
    pub claims: Vec<Claim>,
    pub settings: Settings,
    pub disabled_systemd_units: Vec<String>,
    pub device_locks: Vec<DeviceLock>,
    pub cable_locks: Vec<CableLock>,
    /// Hub ports that an eviction disabled and has not enabled again. Written before the port is
    /// disabled, so that the next run finishes what a killed eviction left.
    pub pending_replug: Vec<String>,
    /// When the queued job that re-applies board locks is due.
    pub recheck_at: Option<Moment>,
    /// The highest id that a claim was ever given. Claims end, but their ids are not given again.
    pub last_claim_id: u64,
    pub state_version: u32,
}

#[verifier::ext_equal]
pub struct DiskStateModel {
    pub hogger: Option<ClaimModel>,
    pub overmounts: Seq<Seq<char>>,
    pub claims: Seq<ClaimModel>,
    pub settings: SettingsModel,
    pub disabled_systemd_units: Seq<Seq<char>>,
    pub device_locks: Seq<DeviceLockModel>,
    pub cable_locks: Seq<CableLockModel>,
    pub pending_replug: Seq<Seq<char>>,
    pub recheck_at: Option<Moment>,
    pub last_claim_id: u64,
    pub state_version: u32,
}

impl View for DiskState {
    type V = DiskStateModel;

    open spec fn view(&self) -> DiskStateModel {
        DiskStateModel {
            hogger: opt_view(self.hogger),
            overmounts: views(self.overmounts@),
            claims: views(self.claims@),
            settings: self.settings@,
            disabled_systemd_units: views(self.disabled_systemd_units@),
            device_locks: views(self.device_locks@),
            cable_locks: views(self.cable_locks@),
            pending_replug: views(self.pending_replug@),
            recheck_at: self.recheck_at,
            last_claim_id: self.last_claim_id,
            state_version: self.state_version,
        }
    }
}

/// The highest id among `claims`, 0 if there are none.
pub open spec fn highest_id(claims: Seq<ClaimModel>) -> u64
    decreases claims.len(),
{
    if claims.len() == 0 {
        0
    } else {
        let before = highest_id(claims.drop_last());
        if claims.last().id > before {
            claims.last().id
        } else {
            before
        }
    }
}

pub open spec fn foreign_on(resource: ResourceModel, me: Seq<char>) -> spec_fn(ClaimModel) -> bool {
    |claim: ClaimModel| claim.user != me && claim.covers(resource)
}

impl DiskStateModel {
    /// The highest id known here: of a claim, of the hogger, or the last that was given.
    pub open spec fn highest_id(self) -> u64 {
        let held = highest_id(self.claims);
        let highest = if self.last_claim_id > held {
            self.last_claim_id
        } else {
            held
        };
        match self.hogger {
            Some(hogger) => if hogger.id > highest {
                hogger.id
            } else {
                highest
            },
            None => highest,
        }
    }

    pub open spec fn foreign_claims_on(self, resource: ResourceModel, me: Seq<char>) -> Seq<
        ClaimModel,
    > {
        self.claims.filter(foreign_on(resource, me))
    }

    /// Every moment of the state is one that the calendar has.
    pub open spec fn wf(self) -> bool {
        &&& forall|i: int| 0 <= i < self.claims.len() ==> (#[trigger] self.claims[i]).wf()
        &&& self.hogger matches Some(hogger) ==> hogger.wf()
        &&& self.recheck_at matches Some(at) ==> at.wf()
    }
}

pub proof fn lemma_highest_id(claims: Seq<ClaimModel>)
    ensures
        forall|i: int| 0 <= i < claims.len() ==> (#[trigger] claims[i]).id <= highest_id(claims),
        highest_id(claims) != 0 ==> exists|i: int|
            0 <= i < claims.len() && (#[trigger] claims[i]).id == highest_id(claims),
    decreases claims.len(),
{
    if claims.len() > 0 {
        let rest = claims.drop_last();
        lemma_highest_id(rest);
        assert forall|i: int| 0 <= i < claims.len() implies (#[trigger] claims[i]).id
            <= highest_id(claims) by {
            if i < rest.len() {
                assert(rest[i] == claims[i]);
            }
        }
        if highest_id(claims) != 0 {
            if claims.last().id == highest_id(claims) {
                assert(claims[claims.len() - 1].id == highest_id(claims));
            } else {
                let i = choose|i: int|
                    0 <= i < rest.len() && (#[trigger] rest[i]).id == highest_id(rest);
                assert(claims[i].id == highest_id(claims));
            }
        }
    }
}

/// The state with its highest id kept as the last that was given.
pub open spec fn remembered(state: DiskStateModel) -> DiskStateModel {
    DiskStateModel { last_claim_id: state.highest_id(), ..state }
}

/// The state once the next claim id is given.
pub open spec fn id_given(state: DiskStateModel) -> DiskStateModel {
    DiskStateModel { last_claim_id: (state.highest_id() + 1) as u64, ..state }
}

/// The id that the next claim gets is used by no claim, and not by the hogger either, and no claim
/// was ever given it.
pub proof fn law_next_claim_id_is_fresh(state: DiskStateModel)
    ensures
        forall|i: int|
            0 <= i < state.claims.len() ==> (#[trigger] state.claims[i]).id < state.highest_id() + 1,
        state.hogger matches Some(hogger) ==> hogger.id < state.highest_id() + 1,
        state.last_claim_id < state.highest_id() + 1,
{
    lemma_highest_id(state.claims);
}

/// Claim ids are never reused: once `state` has given an id, every id that a later state gives is
/// higher, whatever became of its claims and of the hogger in between.
pub proof fn law_claim_ids_are_never_reused(state: DiskStateModel, later: DiskStateModel)
    requires
        state.highest_id() < u64::MAX,
        later.last_claim_id >= id_given(state).last_claim_id,
    ensures
        later.highest_id() + 1 > state.highest_id() + 1,
        id_given(state).last_claim_id == state.highest_id() + 1,
{
}

impl DiskState {
    /// An id that no claim here has or ever had: one more than the highest.
    pub fn next_claim_id(&mut self) -> (id: u64)
        requires
            old(self)@.highest_id() < u64::MAX,
        ensures
            id == old(self)@.highest_id() + 1,
            final(self)@ == id_given(old(self)@),
    {
        let id: u64 = self.highest_claim_id() + 1;
        self.last_claim_id = id;
        id
    }

    /// Keep the highest id known here as the last that was given.
    pub fn remember_claim_ids(&mut self)
        ensures
            final(self)@ == remembered(old(self)@),
    {
        self.last_claim_id = self.highest_claim_id();
    }

    /// The highest id known here.
    pub fn highest_claim_id(&self) -> (id: u64)
        ensures
            id == self@.highest_id(),
    {
        let mut highest: u64 = 0;
        for i in 0..self.claims.len()
            invariant
                highest == highest_id(self@.claims.take(i as int)),
        {
            proof {
                lemma_take_next(self@.claims, i as int);
            }
            if self.claims[i].id > highest {
                highest = self.claims[i].id;
            }
        }
        proof {
            lemma_take_all(self@.claims);
        }
        if self.last_claim_id > highest {
            highest = self.last_claim_id;
        }
        match &self.hogger {
            Some(hogger) => if hogger.id > highest {
                hogger.id
            } else {
                highest
            },
            None => highest,
        }
    }

    /// Claims by someone other than `me` that cover `resource`.
    pub fn foreign_claims_on<'a>(&'a self, resource: &ResourceId, me: &str) -> (claims: Vec<
        &'a Claim,
    >)
        ensures
            views(claims@) == self@.foreign_claims_on(resource@, me@),
    {
        let mut out: Vec<&'a Claim> = Vec::new();
        let ghost pred = foreign_on(resource@, me@);
        proof {
            reveal(Seq::filter);
            assert(views(out@) =~= self@.claims.take(0).filter(pred));
        }
        for i in 0..self.claims.len()
            invariant
                pred == foreign_on(resource@, me@),
                views(out@) == self@.claims.take(i as int).filter(pred),
        {
            let claim = &self.claims[i];
            proof {
                lemma_filter_next(self@.claims, i as int, pred);
                lemma_views_push(out@, claim);
            }
            if !same_text(claim.user.as_str(), me) && claim.covers(resource) {
                out.push(claim);
            }
        }
        proof {
            lemma_take_all(self@.claims);
        }
        out
    }
}

/// The file that holds the state.
pub open spec fn state_file_path() -> Seq<char> {
    STATE_PATH@ + STATE_FILE_NAME@
}

/// The file that holds the state.
pub fn state_file() -> (path: String)
    ensures
        path@ == state_file_path(),
{
    let mut path = STATE_PATH.to_string();
    path.append(STATE_FILE_NAME);
    path
}

/// What is said of a state whose version is not supported.
pub open spec fn version_refusal(version: u32) -> Seq<char> {
    "Statefile is of version "@ + decimal(version as nat) + ". Supported versions: ["@ + decimal(
        DEFAULT_STATE_VERSION as nat,
    ) + "]. ("@ + state_file_path() + ")"@
}

/// Whether the state is of the version that this library works on.
pub fn check_version(state: &DiskState) -> (checked: Result<(), String>)
    ensures
        match checked {
            Ok(_) => state@.state_version == DEFAULT_STATE_VERSION,
            Err(why) => state@.state_version != DEFAULT_STATE_VERSION && why@ == version_refusal(
                state@.state_version,
            ),
        },
{
    if state.state_version == DEFAULT_STATE_VERSION {
        return Ok(());
    }
    let mut out = String::new();
    out.append("Statefile is of version ");
    out.append(decimal_text(state.state_version as u64).as_str());
    out.append(". Supported versions: [");
    out.append(decimal_text(DEFAULT_STATE_VERSION as u64).as_str());
    out.append("]. (");
    out.append(state_file().as_str());
    out.append(")");
    assert(out@ =~= version_refusal(state@.state_version));
    Err(out)
}

/// The state after an upgrade: only the version moves. An older file has no list of boards and no
/// list of resources in a claim, and is read as one without boards whose claims cover the host.
pub open spec fn migrated(state: DiskStateModel) -> DiskStateModel {
    if is_migratable(state.state_version) {
        DiskStateModel { state_version: DEFAULT_STATE_VERSION, ..state }
    } else {
        state
    }
}

/// Upgrade an older state in place. Refusing it would strand claims that are live right now.
pub fn migrate(state: &mut DiskState)
    ensures
        final(state)@ == migrated(old(state)@),
{
    if state.state_version == 1 || state.state_version == 2 {
        state.state_version = DEFAULT_STATE_VERSION;
    }
}

/// What an upgrade from version `from` says.
pub open spec fn migration_message(from: u32, claims: nat) -> Seq<char> {
    "Migrated statefile from version "@ + decimal(from as nat) + " to "@ + decimal(
        DEFAULT_STATE_VERSION as nat,
    ) + " ("@ + decimal(claims) + " claims are now `"@ + HOST_RESOURCE@ + "` claims)."@
}

/// The line to print when loading `state` upgrades it.
pub fn migration_line(state: &DiskState) -> (line: Option<String>)
    ensures
        match line {
            Some(line) => is_migratable(state@.state_version) && line@ == migration_message(
                state@.state_version,
                state@.claims.len(),
            ),
            None => !is_migratable(state@.state_version),
        },
{
    if state.state_version == 1 || state.state_version == 2 {
        let mut out = String::new();
        out.append("Migrated statefile from version ");
        out.append(decimal_text(state.state_version as u64).as_str());
        out.append(" to ");
        out.append(decimal_text(DEFAULT_STATE_VERSION as u64).as_str());
        out.append(" (");
        out.append(decimal_text(state.claims.len() as u64).as_str());
        out.append(" claims are now `");
        out.append(HOST_RESOURCE);
        out.append("` claims).");
        assert(out@ =~= migration_message(state@.state_version, state@.claims.len()));
        Some(out)
    } else {
        None
    }
}

/// Upgrading an upgraded state changes nothing.
pub proof fn law_migration_is_idempotent(state: DiskStateModel)
    ensures
        migrated(migrated(state)) == migrated(state),
{
}

/// An upgrade counts as a change, so it gets written back; and what it gives is accepted.
pub proof fn law_a_migration_is_a_change(state: DiskStateModel)
    requires
        is_migratable(state.state_version),
    ensures
        migrated(state) != state,
        loaded(state) != state,
        loaded(state).state_version == DEFAULT_STATE_VERSION,
{
    assert(migrated(state).state_version != state.state_version);
    assert(loaded(state).state_version != state.state_version);
}

pub open spec fn without_id() -> spec_fn(ClaimModel) -> bool {
    |claim: ClaimModel| claim.id == 0
}

/// How many of `claims` have no id.
pub open spec fn unnumbered(claims: Seq<ClaimModel>) -> nat {
    claims.filter(without_id()).len()
}

/// `claims`, with ids from `next` on given to those that have none, in order.
pub open spec fn with_ids(claims: Seq<ClaimModel>, next: int) -> Seq<ClaimModel> {
    Seq::new(
        claims.len(),
        |i: int|
            if claims[i].id == 0 {
                ClaimModel { id: (next + unnumbered(claims.take(i))) as u64, ..claims[i] }
            } else {
                claims[i]
            },
    )
}

/// The claim that a hogger without an id belongs to, going by user and timeout.
pub open spec fn same_claim(hogger: ClaimModel) -> spec_fn(ClaimModel) -> bool {
    |claim: ClaimModel| claim.user == hogger.user && claim.timeout == hogger.timeout
}

pub open spec fn hogger_with_id(
    hogger: Option<ClaimModel>,
    claims: Seq<ClaimModel>,
    next: int,
) -> Option<ClaimModel> {
    match hogger {
        Some(hogger) => if hogger.id == 0 {
            match find_first(claims, same_claim(hogger)) {
                Some(claim) => Some(ClaimModel { id: claim.id, ..hogger }),
                None => Some(ClaimModel { id: next as u64, ..hogger }),
            }
        } else {
            Some(hogger)
        },
        None => None,
    }
}

/// The state with an id for every claim and for the hogger, and the highest of them remembered.
pub open spec fn identified(state: DiskStateModel) -> DiskStateModel {
    let next = state.highest_id() + 1;
    let claims = with_ids(state.claims, next);
    remembered(
        DiskStateModel {
            claims,
            hogger: hogger_with_id(state.hogger, claims, next + unnumbered(state.claims)),
            ..state
        },
    )
}

/// The state that a stored one is loaded as.
pub open spec fn loaded(stored: DiskStateModel) -> DiskStateModel {
    identified(migrated(stored))
}

proof fn lemma_unnumbered_grows(claims: Seq<ClaimModel>, m: int, n: int)
    requires
        0 <= m <= n <= claims.len(),
    ensures
        unnumbered(claims.take(m)) <= unnumbered(claims.take(n)) <= unnumbered(claims),
        m < n && claims[m].id == 0 ==> unnumbered(claims.take(m)) < unnumbered(claims.take(n)),
    decreases claims.len() - m,
{
    if m < claims.len() {
        lemma_filter_next(claims, m, without_id());
        if m < n {
            lemma_unnumbered_grows(claims, m + 1, n);
        } else {
            lemma_unnumbered_grows(claims, m + 1, m + 1);
        }
    } else {
        lemma_take_all(claims);
    }
}

/// Once loaded, every claim has an id. Claims that had different ids keep them, and those that
/// had none get ids that nothing else uses.
pub proof fn law_loaded_claims_have_unique_ids(state: DiskStateModel)
    requires
        state.highest_id() + 1 + unnumbered(state.claims) <= u64::MAX,
        forall|i: int, j: int|
            0 <= i < j < state.claims.len() && state.claims[i].id != 0 ==> (
            #[trigger] state.claims[i]).id != (#[trigger] state.claims[j]).id,
    ensures
        forall|i: int|
            0 <= i < state.claims.len() ==> (#[trigger] identified(state).claims[i]).id != 0,
        forall|i: int, j: int|
            0 <= i < j < state.claims.len() ==> (#[trigger] identified(state).claims[i]).id != (
            #[trigger] identified(state).claims[j]).id,
{
    let out = identified(state).claims;
    let next = state.highest_id() + 1;
    lemma_highest_id(state.claims);
    assert forall|i: int| 0 <= i < state.claims.len() implies (#[trigger] out[i]).id != 0 by {
        lemma_unnumbered_grows(state.claims, i, i);
    }
    assert forall|i: int, j: int| 0 <= i < j < state.claims.len() implies (#[trigger] out[i]).id
        != (#[trigger] out[j]).id by {
        lemma_unnumbered_grows(state.claims, i, j);
        lemma_unnumbered_grows(state.claims, j, j);
        assert(state.claims[i].id <= state.highest_id());
        assert(state.claims[j].id <= state.highest_id());
    }
}

/// Loading remembers every id: the last that was given is at least as high as that of any claim and
/// of the hogger, and no lower than it was stored.
pub proof fn law_loaded_ids_are_remembered(stored: DiskStateModel)
    ensures
        ({
            let state = loaded(stored);
            &&& state.last_claim_id == state.highest_id()
            &&& state.last_claim_id >= stored.last_claim_id
            &&& forall|i: int|
                0 <= i < state.claims.len() ==> (#[trigger] state.claims[i]).id
                    <= state.last_claim_id
            &&& state.hogger matches Some(hogger) ==> hogger.id <= state.last_claim_id
        }),
{
    lemma_highest_id(loaded(stored).claims);
}

/// Give an id to any claim that lacks one, and to the hogger.
pub fn ensure_claim_ids(state: &mut DiskState)
    requires
        old(state)@.highest_id() + 1 + unnumbered(old(state)@.claims) <= u64::MAX,
    ensures
        final(state)@ == identified(old(state)@),
{
    let ghost before = state@;
    let first: u64 = state.highest_claim_id() + 1;
    let mut next: u64 = first;
    let total: usize = state.claims.len();
    let mut claims: Vec<Claim> = Vec::new();
    proof {
        reveal(Seq::filter);
        assert(before.claims.take(0).filter(without_id()) =~= Seq::empty());
    }
    for i in 0..total
        invariant
            total == state.claims@.len(),
            state@ == before,
            first == before.highest_id() + 1,
            first + unnumbered(before.claims) <= u64::MAX,
            next == first + unnumbered(before.claims.take(i as int)),
            views(claims@) == with_ids(before.claims, first as int).take(i as int),
    {
        let mut claim = state.claims[i].clone();
        proof {
            lemma_filter_next(before.claims, i as int, without_id());
            lemma_unnumbered_grows(before.claims, i as int, i as int);
            lemma_unnumbered_grows(before.claims, i + 1, i + 1);
            lemma_take_next(with_ids(before.claims, first as int), i as int);
        }
        if claim.id == 0 {
            claim.id = next;
            next = next + 1;
        }
        proof {
            assert(claim@ =~= with_ids(before.claims, first as int)[i as int]);
            lemma_views_push(claims@, claim);
        }
        claims.push(claim);
    }
    proof {
        lemma_take_all(before.claims);
        lemma_take_all(with_ids(before.claims, first as int));
    }
    state.claims = claims;
    let hogger_id: Option<u64> = match &state.hogger {
        Some(hogger) => if hogger.id == 0 {
            Some(id_of_same_claim(&state.claims, hogger, next))
        } else {
            None
        },
        None => None,
    };
    if let Some(id) = hogger_id {
        let mut hogger: Option<Claim> = state.hogger.clone();
        if let Some(hogger) = &mut hogger {
            hogger.id = id;
        }
        state.hogger = hogger;
    }
    let ghost numbered = state@;
    state.remember_claim_ids();
    proof {
        let claims = with_ids(before.claims, first as int);
        assert(numbered =~= (DiskStateModel {
            claims,
            hogger: hogger_with_id(
                before.hogger,
                claims,
                first + unnumbered(before.claims),
            ),
            ..before
        }));
        assert(state@ =~= identified(before));
    }
}

/// The id of the claim that `hogger` belongs to, or `other` if there is none.
fn id_of_same_claim(claims: &[Claim], hogger: &Claim, other: u64) -> (id: u64)
    ensures
        id == match find_first(views(claims@), same_claim(hogger@)) {
            Some(claim) => claim.id,
            None => other,
        },
{
    let ghost pred = same_claim(hogger@);
    for i in 0..claims.len()
        invariant
            pred == same_claim(hogger@),
            forall|j: int| 0 <= j < i ==> !pred(#[trigger] views(claims@)[j]),
    {
        if same_text(claims[i].user.as_str(), hogger.user.as_str()) && claims[i].timeout.is(
            &hogger.timeout,
        ) {
            proof {
                lemma_first_where_is(views(claims@), pred, i as int);
            }
            return claims[i].id;
        }
    }
    proof {
        lemma_first_where_is(views(claims@), pred, claims@.len() as int);
    }
    other
}

/// The state to work on, from the one that was stored: upgraded, and with an id for every claim.
pub fn load(stored: DiskState) -> (state: DiskState)
    requires
        stored@.highest_id() + 1 + unnumbered(stored@.claims) <= u64::MAX,
    ensures
        state@ == loaded(stored@),
{
    let mut state = stored;
    migrate(&mut state);
    ensure_claim_ids(&mut state);
    state
}

/// The state of a host on which nothing has been recorded.
pub open spec fn default_state() -> DiskStateModel {
    DiskStateModel {
        hogger: None,
        overmounts: Seq::empty(),
        claims: Seq::empty(),
        settings: SettingsModel {
            authorized_keys_file: seq![
                "%h/.ssh/authorized_keys"@,
                "/etc/ssh/authorized_keys.d/%u"@,
            ],
            fpgas: Seq::empty(),
        },
        disabled_systemd_units: Seq::empty(),
        device_locks: Seq::empty(),
        cable_locks: Seq::empty(),
        pending_replug: Seq::empty(),
        recheck_at: None,
        last_claim_id: 0,
        state_version: DEFAULT_STATE_VERSION,
    }
}

/// The state of a host on which nothing has been recorded yet.
pub fn load_default() -> (state: DiskState)
    ensures
        state@ == default_state(),
{
    let state = DiskState {
        hogger: None,
        overmounts: Vec::new(),
        claims: Vec::new(),
        settings: Settings {
            authorized_keys_file: vec![
                "%h/.ssh/authorized_keys".to_string(),
                "/etc/ssh/authorized_keys.d/%u".to_string(),
            ],
            fpgas: Vec::new(),
        },
        disabled_systemd_units: Vec::new(),
        device_locks: Vec::new(),
        cable_locks: Vec::new(),
        pending_replug: Vec::new(),
        recheck_at: None,
        last_claim_id: 0,
        state_version: DEFAULT_STATE_VERSION,
    };
    assert(state@.settings.authorized_keys_file =~= default_state().settings.authorized_keys_file);
    assert(state@ =~= default_state());
    state
}

/// The key file that `pattern` stands for: the first %h is the home directory, and then the first
/// %u the user's name.
pub open spec fn key_file(pattern: Seq<char>, user: UserModel) -> Seq<char> {
    replace_first(replace_first(pattern, "%h"@, user.home), "%u"@, user.name)
}

pub open spec fn to_key_file(user: UserModel) -> spec_fn(Seq<char>) -> Seq<char> {
    |pattern: Seq<char>| key_file(pattern, user)
}

pub open spec fn to_key_files(patterns: Seq<Seq<char>>) -> spec_fn(UserModel) -> Seq<Seq<char>> {
    |user: UserModel| patterns.map_values(to_key_file(user))
}

/// The key files of every user.
pub open spec fn key_files(patterns: Seq<Seq<char>>, users: Seq<UserModel>) -> Seq<Seq<char>> {
    concat_all(users.map_values(to_key_files(patterns)))
}

/// The key files of the users: each pattern with the first `%h` and `%u` replaced.
pub fn expand_authorized_keys_file(settings: &Settings, users: Vec<User>) -> (files: Vec<String>)
    ensures
        views(files@) == key_files(settings@.authorized_keys_file, views(users@)),
{
    let ghost patterns = settings@.authorized_keys_file;
    let ghost f = to_key_files(patterns);
    let mut files: Vec<String> = Vec::new();
    proof {
        assert(views(users@).take(0).map_values(f) =~= Seq::empty());
        assert(views(files@) =~= Seq::empty());
    }
    for i in 0..users.len()
        invariant
            patterns == settings@.authorized_keys_file,
            f == to_key_files(patterns),
            views(files@) == concat_all(views(users@).take(i as int).map_values(f)),
    {
        let user = &users[i];
        let ghost before = views(files@);
        let ghost g = to_key_file(user@);
        proof {
            lemma_concat_next(views(users@), i as int, f);
            assert(before =~= before + patterns.take(0).map_values(g));
        }
        for k in 0..settings.authorized_keys_file.len()
            invariant
                patterns == settings@.authorized_keys_file,
                g == to_key_file(user@),
                views(files@) == before + patterns.take(k as int).map_values(g),
        {
            let homed = replaced_first(
                settings.authorized_keys_file[k].as_str(),
                "%h",
                user.home.as_str(),
            );
            let file = replaced_first(homed.as_str(), "%u", user.name.as_str());
            proof {
                lemma_map_next(patterns, k as int, g);
                lemma_views_push(files@, file);
                assert(before + patterns.take(k + 1).map_values(g) =~= (before + patterns.take(
                    k as int,
                ).map_values(g)).push(file@));
            }
            files.push(file);
        }
        proof {
            lemma_take_all(patterns);
        }
    }
    proof {
        lemma_take_all(views(users@));
    }
    files
}

pub open spec fn live_at(now: Moment) -> spec_fn(ClaimModel) -> bool {
    |claim: ClaimModel| claim.timeout.after(now)
}

pub open spec fn expired_at(now: Moment) -> spec_fn(ClaimModel) -> bool {
    |claim: ClaimModel| !claim.timeout.after(now)
}

pub open spec fn with_id(id: u64) -> spec_fn(ClaimModel) -> bool {
    |claim: ClaimModel| claim.id == id
}

/// Whether the claim behind the current hog is among `claims`.
pub open spec fn holds_the_hog(state: DiskStateModel, claims: Seq<ClaimModel>) -> bool {
    state.hogger matches Some(hogger) && some_item(claims, with_id(hogger.id))
}

/// The state without the claims that have timed out.
pub open spec fn maintained(state: DiskStateModel, now: Moment) -> DiskStateModel {
    DiskStateModel { claims: state.claims.filter(live_at(now)), ..state }
}

/// What a maintenance pass at `now` leaves, drops and finds out.
pub open spec fn maintenance_result(
    before: DiskStateModel,
    needed: bool,
    now: Moment,
    after: DiskStateModel,
    needs: bool,
    dropped: Seq<ClaimModel>,
) -> bool {
    &&& after == maintained(before, now)
    &&& dropped == before.claims.filter(expired_at(now))
    &&& needs == (needed || holds_the_hog(before, dropped))
}

/// Whether some claim has this id.
pub fn has_claim_with_id(claims: &[Claim], id: u64) -> (yes: bool)
    ensures
        yes == some_item(views(claims@), with_id(id)),
{
    let ghost pred = with_id(id);
    for i in 0..claims.len()
        invariant
            pred == with_id(id),
            forall|j: int| 0 <= j < i ==> !pred(#[trigger] views(claims@)[j]),
    {
        if claims[i].id == id {
            assert(pred(views(claims@)[i as int]));
            return true;
        }
    }
    false
}

/// Remove all claims that have timed out at `now`. Returns the claims that were dropped, and sets
/// `needs_release` if the one behind the current hog is among them.
pub fn maintenance_at(state: &mut DiskState, needs_release: &mut bool, now: Moment) -> (dropped:
    Vec<Claim>)
    ensures
        maintenance_result(
            old(state)@,
            *old(needs_release),
            now,
            final(state)@,
            *final(needs_release),
            views(dropped@),
        ),
{
    let ghost before = state@;
    let mut kept: Vec<Claim> = Vec::new();
    let mut dropped: Vec<Claim> = Vec::new();
    let total: usize = state.claims.len();
    proof {
        reveal(Seq::filter);
        assert(views(kept@) =~= before.claims.take(0).filter(live_at(now)));
        assert(views(dropped@) =~= before.claims.take(0).filter(expired_at(now)));
    }
    for i in 0..total
        invariant
            total == state.claims@.len(),
            state@ == before,
            views(kept@) == before.claims.take(i as int).filter(live_at(now)),
            views(dropped@) == before.claims.take(i as int).filter(expired_at(now)),
    {
        let claim = state.claims[i].clone();
        proof {
            lemma_filter_next(before.claims, i as int, live_at(now));
            lemma_filter_next(before.claims, i as int, expired_at(now));
            lemma_views_push(kept@, claim);
            lemma_views_push(dropped@, claim);
        }
        if claim.timeout.is_after(&now) {
            kept.push(claim);
        } else {
            dropped.push(claim);
        }
    }
    proof {
        lemma_take_all(before.claims);
    }
    if let Some(hogger) = &state.hogger {
        if has_claim_with_id(&dropped, hogger.id) {
            *needs_release = true;
        }
    }
    state.claims = kept;
    assert(state@ =~= maintained(before, now));
    dropped
}

/// Remove all claims that have timed out by now; see [`maintenance_at`].
pub fn maintenance(state: &mut DiskState, needs_release: &mut bool) -> (dropped: Vec<Claim>)
    ensures
        exists|now: Moment|
            now.wf() && is_clock_time(now) && #[trigger] maintenance_result(
                old(state)@,
                *old(needs_release),
                now,
                final(state)@,
                *final(needs_release),
                views(dropped@),
            ),
{
    let now = clock_time();
    maintenance_at(state, needs_release, now)
}

/// What a maintenance pass says of itself.
pub open spec fn maintenance_message(expired: nat, released: bool) -> Seq<char> {
    "Maintenance: "@ + decimal(expired) + " claims expired, "@ + decimal(
        if released {
            1
        } else {
            0
        },
    ) + " hogs released"@
}

/// What is said of a maintenance pass.
pub fn maintenance_line(dropped: &[Claim], needs_release: bool) -> (line: String)
    ensures
        line@ == maintenance_message(dropped@.len(), needs_release),
{
    let mut out = String::new();
    out.append("Maintenance: ");
    out.append(decimal_text(dropped.len() as u64).as_str());
    out.append(" claims expired, ");
    let hogs: u64 = if needs_release {
        1
    } else {
        0
    };
    out.append(decimal_text(hogs).as_str());
    out.append(" hogs released");
    assert(out@ =~= maintenance_message(dropped@.len(), needs_release));
    out
}

/// Maintenance drops the claims that have timed out and no others: what stays is exactly what was
/// there and still runs.
pub proof fn law_maintenance_drops_exactly_the_expired(state: DiskStateModel, now: Moment)
    ensures
        forall|claim: ClaimModel| #[trigger]
            maintained(state, now).claims.contains(claim) <==> state.claims.contains(claim)
                && claim.timeout.after(now),
        maintained(maintained(state, now), now) == maintained(state, now),
{
    lemma_filter_members(state.claims, live_at(now));
    let kept = state.claims.filter(live_at(now));
    assert forall|i: int| 0 <= i < kept.len() implies live_at(now)(#[trigger] kept[i]) by {
        assert(kept.contains(kept[i]));
    }
    lemma_filter_all(kept, live_at(now));
}

/// A hog ends with its claim, whatever the claim has been trimmed to since: the two are matched
/// by their id alone.
pub proof fn law_an_expired_hog_is_recognised(state: DiskStateModel, now: Moment, at: int)
    requires
        0 <= at < state.claims.len(),
        !state.claims[at].timeout.after(now),
        state.hogger matches Some(hogger) && hogger.id == state.claims[at].id,
    ensures
        holds_the_hog(state, state.claims.filter(expired_at(now))),
{
    let dropped = state.claims.filter(expired_at(now));
    lemma_filter_members(state.claims, expired_at(now));
    assert(state.claims.contains(state.claims[at]));
    assert(dropped.contains(state.claims[at]));
    let k = choose|k: int| 0 <= k < dropped.len() && dropped[k] == state.claims[at];
    assert(with_id(state.claims[at].id)(dropped[k]));
}

/// What came of one attempt to take the lock that serialises commands.
#[derive(Debug, PartialEq, Eq)]
pub enum LockAttempt {
    Acquired,
    /// Another command has it.
    WouldBlock,
    Failed(String),
}

/// Where a command stands that waits for the lock.
#[derive(Debug, PartialEq, Eq)]
pub enum LockProgress {
    Held,
    Waiting,
    GaveUp(String),
}

pub open spec fn lock_failure(path: Seq<char>, why: Seq<char>) -> Seq<char> {
    "cannot lock "@ + path + ": "@ + why
}

/// What is said when the wait is over; `holder` is what the lock file holds, the process that has
/// the lock.
pub open spec fn lock_timeout(path: Seq<char>, holder: Option<Seq<char>>, seconds: u64) -> Seq<char> {
    let who = match holder {
        Some(pid) => " (pid "@ + trim(pid) + ")"@,
        None => Seq::empty(),
    };
    "another fpgahog is still running"@ + who + "; gave up after "@ + decimal(seconds as nat)
        + "s waiting for "@ + path
}

/// What follows from an attempt to take the lock: a command that finds it taken waits, until the
/// wait is over.
pub fn lock_progress(
    attempt: LockAttempt,
    is_over: bool,
    path: &str,
    holder: Option<&str>,
    seconds: u64,
) -> (progress: LockProgress)
    ensures
        match progress {
            LockProgress::Held => attempt is Acquired,
            LockProgress::Waiting => attempt is WouldBlock && !is_over,
            LockProgress::GaveUp(message) => match attempt {
                LockAttempt::Acquired => false,
                LockAttempt::WouldBlock => is_over && message@ == lock_timeout(
                    path@,
                    opt_view(holder),
                    seconds,
                ),
                LockAttempt::Failed(why) => message@ == lock_failure(path@, why@),
            },
        },
{
    match attempt {
        LockAttempt::Acquired => LockProgress::Held,
        LockAttempt::Failed(why) => {
            let mut message = "cannot lock ".to_string();
            message.append(path);
            message.append(": ");
            message.append(why.as_str());
            LockProgress::GaveUp(message)
        },
        LockAttempt::WouldBlock => {
            if !is_over {
                return LockProgress::Waiting;
            }
            let mut message = "another fpgahog is still running".to_string();
            if let Some(pid) = holder {
                message.append(" (pid ");
                message.append(trimmed(pid).as_str());
                message.append(")");
            }
            message.append("; gave up after ");
            message.append(decimal_text(seconds).as_str());
            message.append("s waiting for ");
            message.append(path);
            assert(message@ =~= lock_timeout(path@, opt_view(holder), seconds));
            LockProgress::GaveUp(message)
        },
    }
}

} // verus!
