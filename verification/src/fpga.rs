//! FPGA boards: which ones there are, who should hold them, and who does.
//!
//! A board is enforced by owning its device files. Nothing makes that stick: drivers create
//! their files world-writable, so a reload silently undoes it. [`sync_device_locks`] converges on
//! what the claims say, and is run on every pass.
use vstd::prelude::*;
use crate::clock::Moment;
use crate::diskstate::{
    alias_of, live_at, ClaimModel, DeviceLock, DeviceLockModel, DiskState, DiskStateModel, FpgaSpec,
    FpgaSpecModel, Ownership, ResourceId, ResourceModel, SettingsModel, HOST_RESOURCE,
};
use crate::seqs::{
    concat_all, find_first, first_of_each, first_where, in_order, keyed, lemma_concat_members,
    lemma_concat_next, lemma_filter_members, lemma_filter_next, lemma_first_of_each,
    lemma_first_where, lemma_first_where_is, lemma_insert_at, lemma_map_next, lemma_somes_members,
    lemma_somes_next, lemma_sorted, lemma_take_all, lemma_take_next, lemma_views_add,
    lemma_views_push, opt_view, some_item, somes, sorted, views,
};
use crate::text::{
    after_prefix, decimal, decimal_text, is_among, join, joined, lines, lines_of, parse_u32,
    parsed_number, same_text, starts_with, words, words_of,
};

verus! {

/// Mode of a locked file: only its owner, the claimant, may use it.
pub const LOCKED_MODE: u32 = 0o600;

/// The permission bits of a file's mode.
pub const MODE_BITS: u32 = 0o7777;

/// An account of this host.
#[derive(Debug, PartialEq, Eq)]
pub struct Account {
    pub name: String,
    pub uid: u32,
}

#[verifier::ext_equal]
pub struct AccountModel {
    pub name: Seq<char>,
    pub uid: u32,
}

impl View for Account {
    type V = AccountModel;

    open spec fn view(&self) -> AccountModel {
        AccountModel { name: self.name@, uid: self.uid }
    }
}

pub open spec fn account_named(name: Seq<char>) -> spec_fn(AccountModel) -> bool {
    |account: AccountModel| account.name == name
}

pub open spec fn account_with(uid: u32) -> spec_fn(AccountModel) -> bool {
    |account: AccountModel| account.uid == uid
}

pub open spec fn uid_of(accounts: Seq<AccountModel>, name: Seq<char>) -> Option<u32> {
    match find_first(accounts, account_named(name)) {
        Some(account) => Some(account.uid),
        None => None,
    }
}

pub open spec fn username_of(accounts: Seq<AccountModel>, uid: u32) -> Seq<char> {
    match find_first(accounts, account_with(uid)) {
        Some(account) => account.name,
        None => "<unknown>"@,
    }
}

/// The user id of `name`, if there is such an account.
pub fn find_uid(accounts: &[Account], name: &str) -> (uid: Option<u32>)
    ensures
        uid == uid_of(views(accounts@), name@),
{
    let ghost pred = account_named(name@);
    for i in 0..accounts.len()
        invariant
            pred == account_named(name@),
            forall|j: int| 0 <= j < i ==> !pred(#[trigger] views(accounts@)[j]),
    {
        if same_text(accounts[i].name.as_str(), name) {
            proof {
                lemma_first_where_is(views(accounts@), pred, i as int);
            }
            return Some(accounts[i].uid);
        }
    }
    proof {
        lemma_first_where_is(views(accounts@), pred, accounts@.len() as int);
    }
    None
}

/// The name of the user `uid`.
pub fn find_username(accounts: &[Account], uid: u32) -> (name: String)
    ensures
        name@ == username_of(views(accounts@), uid),
{
    let ghost pred = account_with(uid);
    for i in 0..accounts.len()
        invariant
            pred == account_with(uid),
            forall|j: int| 0 <= j < i ==> !pred(#[trigger] views(accounts@)[j]),
    {
        if accounts[i].uid == uid {
            proof {
                lemma_first_where_is(views(accounts@), pred, i as int);
            }
            return accounts[i].name.clone();
        }
    }
    proof {
        lemma_first_where_is(views(accounts@), pred, accounts@.len() as int);
    }
    "<unknown>".to_string()
}

/// A file as it was looked at: its owner, group and mode, or why they could not be read.
#[derive(Debug, PartialEq, Eq)]
pub struct FileInfo {
    pub path: String,
    pub found: Result<Ownership, String>,
}

#[verifier::ext_equal]
pub struct FileInfoModel {
    pub path: Seq<char>,
    pub found: Result<Ownership, Seq<char>>,
}

impl View for FileInfo {
    type V = FileInfoModel;

    open spec fn view(&self) -> FileInfoModel {
        FileInfoModel {
            path: self.path@,
            found: match self.found {
                Ok(meta) => Ok(meta),
                Err(why) => Err(why@),
            },
        }
    }
}

pub open spec fn file_at(path: Seq<char>) -> spec_fn(FileInfoModel) -> bool {
    |file: FileInfoModel| file.path == path
}

/// Owner, group and permission bits of the file at `path`, or why they are not known. A file that
/// nobody looked at is not known for no stated reason.
pub open spec fn file_found(files: Seq<FileInfoModel>, path: Seq<char>) -> Result<
    Ownership,
    Seq<char>,
> {
    match find_first(files, file_at(path)) {
        Some(file) => match file.found {
            Ok(meta) => Ok(Ownership { mode: meta.mode & MODE_BITS, ..meta }),
            Err(why) => Err(why),
        },
        None => Err(Seq::empty()),
    }
}

/// What is known of the file at `path`; see [`file_found`].
pub fn look_up_file(files: &[FileInfo], path: &str) -> (found: Result<Ownership, String>)
    ensures
        crate::clock::told(found) == file_found(views(files@), path@),
{
    let ghost pred = file_at(path@);
    for i in 0..files.len()
        invariant
            pred == file_at(path@),
            forall|j: int| 0 <= j < i ==> !pred(#[trigger] views(files@)[j]),
    {
        if same_text(files[i].path.as_str(), path) {
            proof {
                lemma_first_where_is(views(files@), pred, i as int);
            }
            return match &files[i].found {
                Ok(meta) => Ok(
                    Ownership { uid: meta.uid, gid: meta.gid, mode: meta.mode & MODE_BITS },
                ),
                Err(why) => Err(why.clone()),
            };
        }
    }
    proof {
        lemma_first_where_is(views(files@), pred, files@.len() as int);
    }
    Err(String::new())
}

pub open spec fn to_owner(user: Seq<char>) -> spec_fn(ResourceModel) -> Option<
    (Seq<char>, Seq<char>),
> {
    |resource: ResourceModel|
        match alias_of(resource) {
            Some(alias) => Some((alias, user)),
            None => None,
        }
}

/// The boards of a claim, each with the claimant, if the claim is exclusive.
pub open spec fn to_owners() -> spec_fn(ClaimModel) -> Seq<(Seq<char>, Seq<char>)> {
    |claim: ClaimModel|
        if claim.exclusive {
            somes(claim.resources.map_values(to_owner(claim.user)))
        } else {
            Seq::empty()
        }
}

/// Which user each board should belong to: the one with the first exclusive claim on it.
pub open spec fn owners(claims: Seq<ClaimModel>) -> Seq<(Seq<char>, Seq<char>)> {
    first_of_each(concat_all(claims.map_values(to_owners())))
}

pub open spec fn is_exclusive_claim() -> spec_fn(ClaimModel) -> bool {
    |claim: ClaimModel| claim.exclusive
}

proof fn lemma_shared_claims_name_nobody(claims: Seq<ClaimModel>)
    ensures
        concat_all(claims.map_values(to_owners())) == concat_all(
            claims.filter(is_exclusive_claim()).map_values(to_owners()),
        ),
    decreases claims.len(),
{
    reveal(Seq::filter);
    if claims.len() > 0 {
        let n = claims.len() - 1;
        lemma_shared_claims_name_nobody(claims.drop_last());
        lemma_concat_next(claims, n, to_owners());
        assert(claims.take(n) =~= claims.drop_last());
        assert(claims.take(n + 1) =~= claims);
        lemma_filter_next(claims, n, is_exclusive_claim());
        if claims[n].exclusive {
            let kept = claims.drop_last().filter(is_exclusive_claim());
            let more = kept.push(claims[n]);
            lemma_concat_next(more, kept.len() as int, to_owners());
            assert(more.take(kept.len() as int) =~= kept);
            assert(more.take(more.len() as int) =~= more);
        } else {
            assert(concat_all(claims.take(n).map_values(to_owners())) + Seq::<
                (Seq<char>, Seq<char>),
            >::empty() =~= concat_all(claims.take(n).map_values(to_owners())));
        }
    } else {
        assert(claims.filter(is_exclusive_claim()) =~= claims);
    }
}

/// A shared claim only announces: who should have which board depends on the exclusive claims
/// alone.
pub proof fn law_shared_claims_enforce_nothing(claims: Seq<ClaimModel>)
    ensures
        owners(claims) == owners(claims.filter(is_exclusive_claim())),
{
    lemma_shared_claims_name_nobody(claims);
}

/// Which user each board should belong to at `now`: a claim that has timed out names nobody.
pub open spec fn live_owners(claims: Seq<ClaimModel>, now: Moment) -> Seq<(Seq<char>, Seq<char>)> {
    owners(claims.filter(live_at(now)))
}

/// The user who should have the board `alias`.
pub open spec fn owner_of(intended: Seq<(Seq<char>, Seq<char>)>, alias: Seq<char>) -> Option<
    Seq<char>,
> {
    match find_first(intended, keyed(alias)) {
        Some(pair) => Some(pair.1),
        None => None,
    }
}

fn owners_in(claim: &crate::diskstate::Claim) -> (pairs: Vec<(String, String)>)
    ensures
        views(pairs@) == somes(claim@.resources.map_values(to_owner(claim@.user))),
{
    let ghost f = to_owner(claim@.user);
    let ghost all = claim@.resources;
    let mut pairs: Vec<(String, String)> = Vec::new();
    assert(views(pairs@) =~= somes(all.take(0).map_values(f)));
    for i in 0..claim.resources.len()
        invariant
            f == to_owner(claim@.user),
            all == claim@.resources,
            views(pairs@) == somes(all.take(i as int).map_values(f)),
    {
        proof {
            lemma_somes_next(all, i as int, f);
        }
        if let Some(alias) = claim.resources[i].alias() {
            let pair = (alias.to_string(), claim.user.clone());
            proof {
                lemma_views_push(pairs@, pair);
            }
            pairs.push(pair);
        }
    }
    proof {
        lemma_take_all(all);
    }
    pairs
}

fn has_owner(pairs: &[(String, String)], alias: &str) -> (yes: bool)
    ensures
        yes == some_item(views(pairs@), keyed(alias@)),
{
    let ghost pred = keyed::<Seq<char>, Seq<char>>(alias@);
    for i in 0..pairs.len()
        invariant
            pred == keyed::<Seq<char>, Seq<char>>(alias@),
            forall|j: int| 0 <= j < i ==> !pred(#[trigger] views(pairs@)[j]),
    {
        if same_text(pairs[i].0.as_str(), alias) {
            assert(pred(views(pairs@)[i as int]));
            return true;
        }
    }
    false
}

/// The user who should have the board `alias`; see [`owner_of`].
fn find_owner<'a>(pairs: &'a [(String, String)], alias: &str) -> (owner: Option<&'a str>)
    ensures
        opt_view(owner) == owner_of(views(pairs@), alias@),
{
    let ghost pred = keyed::<Seq<char>, Seq<char>>(alias@);
    for i in 0..pairs.len()
        invariant
            pred == keyed::<Seq<char>, Seq<char>>(alias@),
            forall|j: int| 0 <= j < i ==> !pred(#[trigger] views(pairs@)[j]),
    {
        if same_text(pairs[i].0.as_str(), alias) {
            proof {
                lemma_first_where_is(views(pairs@), pred, i as int);
            }
            return Some(pairs[i].1.as_str());
        }
    }
    proof {
        lemma_first_where_is(views(pairs@), pred, pairs@.len() as int);
    }
    None
}

/// Which user each board should belong to at `now`, according to the live exclusive claims. Shared
/// claims enforce nothing, and `host` owns no device files, so neither appears here.
pub fn intended_owners(state: &DiskState, now: Moment) -> (pairs: Vec<(String, String)>)
    ensures
        views(pairs@) == live_owners(state@.claims, now),
{
    let ghost f = to_owners();
    let ghost live = live_at(now);
    let ghost claims = state@.claims;
    let mut all: Vec<(String, String)> = Vec::new();
    proof {
        reveal(Seq::filter);
        assert(claims.take(0).filter(live).map_values(f) =~= Seq::empty());
        assert(views(all@) =~= Seq::empty());
    }
    for i in 0..state.claims.len()
        invariant
            f == to_owners(),
            live == live_at(now),
            claims == state@.claims,
            views(all@) == concat_all(claims.take(i as int).filter(live).map_values(f)),
    {
        proof {
            lemma_filter_next(claims, i as int, live);
        }
        if state.claims[i].timeout.is_after(&now) {
            proof {
                let kept = claims.take(i as int).filter(live);
                let more = kept.push(claims[i as int]);
                lemma_concat_next(more, kept.len() as int, f);
                lemma_take_all(more);
                assert(more.take(kept.len() as int) =~= kept);
            }
            if state.claims[i].exclusive {
                let mut more = owners_in(&state.claims[i]);
                proof {
                    lemma_views_add(all@, more@);
                }
                all.append(&mut more);
            } else {
                assert(views(all@) + Seq::<(Seq<char>, Seq<char>)>::empty() =~= views(all@));
            }
        }
    }
    proof {
        lemma_take_all(claims);
    }
    let mut out: Vec<(String, String)> = Vec::new();
    assert(views(out@) =~= first_of_each(views(all@).take(0)));
    for i in 0..all.len()
        invariant
            views(out@) == first_of_each(views(all@).take(i as int)),
    {
        proof {
            lemma_take_next(views(all@), i as int);
        }
        if !has_owner(&out, all[i].0.as_str()) {
            let pair = (all[i].0.clone(), all[i].1.clone());
            proof {
                lemma_views_push(out@, pair);
            }
            out.push(pair);
        }
    }
    proof {
        lemma_take_all(views(all@));
    }
    out
}

proof fn lemma_owner_pairs(claims: Seq<ClaimModel>)
    ensures
        forall|pair: (Seq<char>, Seq<char>)| #[trigger]
            concat_all(claims.map_values(to_owners())).contains(pair) <==> exists|i: int|
                0 <= i < claims.len() && (#[trigger] claims[i]).exclusive && claims[i].user
                    == pair.1 && claims[i].covers_alias(pair.0),
{
    let lists = claims.map_values(to_owners());
    lemma_concat_members(lists);
    assert forall|pair: (Seq<char>, Seq<char>)| #[trigger]
        concat_all(lists).contains(pair) <==> exists|i: int|
            0 <= i < claims.len() && (#[trigger] claims[i]).exclusive && claims[i].user == pair.1
                && claims[i].covers_alias(pair.0) by {
        assert forall|i: int| 0 <= i < claims.len() implies (#[trigger] lists[i]).contains(pair)
            == (claims[i].exclusive && claims[i].user == pair.1 && claims[i].covers_alias(
            pair.0,
        )) by {
            let claim = claims[i];
            let f = to_owner(claim.user);
            let mapped = claim.resources.map_values(f);
            lemma_somes_members(mapped);
            if claim.exclusive {
                assert(lists[i] == somes(mapped));
                if mapped.contains(Some(pair)) {
                    let k = choose|k: int| 0 <= k < mapped.len() && mapped[k] == Some(pair);
                    assert(claim.resources[k] == ResourceModel::Fpga(pair.0));
                }
                if claim.user == pair.1 && claim.covers_alias(pair.0) {
                    let k = choose|k: int|
                        0 <= k < claim.resources.len() && claim.resources[k]
                            == ResourceModel::Fpga(pair.0);
                    assert(mapped[k] == Some(pair));
                }
            }
        }
        if exists|i: int| 0 <= i < lists.len() && (#[trigger] lists[i]).contains(pair) {
            let i = choose|i: int| 0 <= i < lists.len() && (#[trigger] lists[i]).contains(pair);
            assert(claims[i].exclusive);
        }
        if exists|i: int|
            0 <= i < claims.len() && (#[trigger] claims[i]).exclusive && claims[i].user == pair.1
                && claims[i].covers_alias(pair.0) {
            let i = choose|i: int|
                0 <= i < claims.len() && (#[trigger] claims[i]).exclusive && claims[i].user
                    == pair.1 && claims[i].covers_alias(pair.0);
            assert(lists[i].contains(pair));
        }
    }
}

/// Each board has at most one intended owner, who holds an exclusive claim on it; and every board
/// under an exclusive claim has one.
pub proof fn law_each_board_has_one_owner(claims: Seq<ClaimModel>)
    ensures
        forall|i: int, j: int|
            0 <= i < j < owners(claims).len() ==> (#[trigger] owners(claims)[i]).0 != (
            #[trigger] owners(claims)[j]).0,
        forall|alias: Seq<char>| #[trigger]
            owner_of(owners(claims), alias) matches Some(user) ==> exists|i: int|
                0 <= i < claims.len() && (#[trigger] claims[i]).exclusive && claims[i].user == user
                    && claims[i].covers_alias(alias),
        forall|alias: Seq<char>| #[trigger]
            owner_of(owners(claims), alias) is None ==> forall|i: int|
                0 <= i < claims.len() && (#[trigger] claims[i]).exclusive
                    ==> !claims[i].covers_alias(alias),
{
    let all = concat_all(claims.map_values(to_owners()));
    let out = owners(claims);
    lemma_owner_pairs(claims);
    lemma_first_of_each(all);
    assert forall|alias: Seq<char>| #[trigger]
        owner_of(out, alias) is Some implies exists|i: int|
            0 <= i < claims.len() && (#[trigger] claims[i]).exclusive && claims[i].user == owner_of(
                out,
                alias,
            )->0 && claims[i].covers_alias(alias) by {
        let pred = keyed::<Seq<char>, Seq<char>>(alias);
        lemma_first_where(out, pred);
        let pair = out[first_where(out, pred)];
        assert(all.contains(pair));
        assert(pair.0 == alias);
    }
    assert forall|alias: Seq<char>| #[trigger]
        owner_of(out, alias) is None implies forall|i: int|
            0 <= i < claims.len() && (#[trigger] claims[i]).exclusive ==> !claims[i].covers_alias(
                alias,
            ) by {
        let pred = keyed::<Seq<char>, Seq<char>>(alias);
        lemma_first_where(out, pred);
        assert forall|i: int|
            0 <= i < claims.len() && (#[trigger] claims[i]).exclusive implies !claims[i].covers_alias(
            alias,
        ) by {
            if claims[i].covers_alias(alias) {
                let pair = (alias, claims[i].user);
                assert(all.contains(pair));
                let k = choose|k: int| 0 <= k < all.len() && all[k] == pair;
                assert(some_item(out, keyed(all[k].0)));
            }
        }
    }
}

/// A claim that has timed out owns nothing: whoever should have a board holds a live exclusive
/// claim on it, and every board under one has an owner.
pub proof fn law_only_live_claims_own_boards(claims: Seq<ClaimModel>, now: Moment, alias: Seq<char>)
    ensures
        owner_of(live_owners(claims, now), alias) matches Some(user) ==> exists|i: int|
            0 <= i < claims.len() && (#[trigger] claims[i]).exclusive && claims[i].timeout.after(now)
                && claims[i].user == user && claims[i].covers_alias(alias),
        owner_of(live_owners(claims, now), alias) is None ==> forall|i: int|
            0 <= i < claims.len() && (#[trigger] claims[i]).exclusive && claims[i].timeout.after(now)
                ==> !claims[i].covers_alias(alias),
{
    let live = claims.filter(live_at(now));
    law_each_board_has_one_owner(live);
    lemma_filter_members(claims, live_at(now));
    if owner_of(live_owners(claims, now), alias) is Some {
        let user = owner_of(live_owners(claims, now), alias)->0;
        let k = choose|k: int|
            0 <= k < live.len() && (#[trigger] live[k]).exclusive && live[k].user == user
                && live[k].covers_alias(alias);
        assert(live.contains(live[k]));
        let i = choose|i: int| 0 <= i < claims.len() && claims[i] == live[k];
        assert(claims[i].covers_alias(alias));
    } else {
        assert forall|i: int|
            0 <= i < claims.len() && (#[trigger] claims[i]).exclusive && claims[i].timeout.after(
                now,
            ) implies !claims[i].covers_alias(alias) by {
            assert(claims.contains(claims[i]));
            assert(live.contains(claims[i]));
            let k = choose|k: int| 0 <= k < live.len() && live[k] == claims[i];
            assert(live[k].exclusive);
        }
    }
}

/// A file that was handed to a claimant: its new owner, and the group it keeps.
#[derive(Debug, PartialEq, Eq)]
pub struct Takeover {
    pub path: String,
    pub uid: u32,
    pub gid: u32,
}

#[verifier::ext_equal]
pub struct TakeoverModel {
    pub path: Seq<char>,
    pub uid: u32,
    pub gid: u32,
}

impl View for Takeover {
    type V = TakeoverModel;

    open spec fn view(&self) -> TakeoverModel {
        TakeoverModel { path: self.path@, uid: self.uid, gid: self.gid }
    }
}

impl Takeover {
    /// Owner, group and mode that the file is given: only the claimant may use it.
    pub fn ownership(&self) -> (out: Ownership)
        ensures
            out == (Ownership { uid: self@.uid, gid: self@.gid, mode: LOCKED_MODE }),
    {
        Ownership { uid: self.uid, gid: self.gid, mode: LOCKED_MODE }
    }
}

/// The locks on device files, while files are being taken over.
#[verifier::ext_equal]
pub struct LockingModel {
    pub locks: Seq<DeviceLockModel>,
    /// Files to be given to their claimant with mode [`LOCKED_MODE`].
    pub taken: Seq<TakeoverModel>,
    pub failures: Seq<Seq<char>>,
}

pub open spec fn lock_on(path: Seq<char>) -> spec_fn(DeviceLockModel) -> bool {
    |lock: DeviceLockModel| lock.path == path
}

pub open spec fn takes(path: Seq<char>) -> spec_fn(TakeoverModel) -> bool {
    |hand: TakeoverModel| hand.path == path
}

/// The file is owned by `uid` and nobody else can use it.
pub open spec fn is_locked_for(uid: u32, meta: Ownership) -> bool {
    meta.uid == uid && meta.mode == LOCKED_MODE
}

/// What is said of a file that is locked for somebody else.
pub open spec fn held_message(path: Seq<char>, uid: u32) -> Seq<char> {
    path + ": already locked for uid "@ + decimal(uid as nat)
}

/// One more file of the board `alias` taken over for `uid`. If no lock is on it there is one
/// afterwards, which remembers what the file was like. A file that is locked but is not the way it
/// was left is taken over once more, with its original group. It is a failure if nothing is known
/// of the file, or if the lock is held for somebody else.
pub open spec fn locking_one(
    sofar: LockingModel,
    path: Seq<char>,
    alias: Seq<char>,
    uid: u32,
    files: Seq<FileInfoModel>,
) -> LockingModel {
    match (find_first(sofar.locks, lock_on(path)), file_found(files, path)) {
        (Some(lock), found) => if lock.claimant_uid != uid {
            LockingModel {
                failures: sofar.failures.push(held_message(path, lock.claimant_uid)),
                ..sofar
            }
        } else {
            match found {
                Ok(meta) => if is_locked_for(uid, meta) || some_item(sofar.taken, takes(path)) {
                    sofar
                } else {
                    LockingModel {
                        taken: sofar.taken.push(TakeoverModel { path, uid, gid: lock.orig_gid }),
                        ..sofar
                    }
                },
                Err(why) => LockingModel {
                    failures: sofar.failures.push(path + ": "@ + why),
                    ..sofar
                },
            }
        },
        (None, Ok(meta)) => LockingModel {
            locks: sofar.locks.push(
                DeviceLockModel {
                    path,
                    alias,
                    orig_uid: meta.uid,
                    orig_gid: meta.gid,
                    orig_mode: meta.mode,
                    claimant_uid: uid,
                },
            ),
            taken: sofar.taken.push(TakeoverModel { path, uid, gid: meta.gid }),
            ..sofar
        },
        (None, Err(why)) => LockingModel {
            failures: sofar.failures.push(path + ": "@ + why),
            ..sofar
        },
    }
}

/// All of `devices` taken over, one after the other.
pub open spec fn locking_all(
    locks: Seq<DeviceLockModel>,
    devices: Seq<Seq<char>>,
    alias: Seq<char>,
    uid: u32,
    files: Seq<FileInfoModel>,
) -> LockingModel
    decreases devices.len(),
{
    if devices.len() == 0 {
        LockingModel { locks, taken: Seq::empty(), failures: Seq::empty() }
    } else {
        locking_one(
            locking_all(locks, devices.drop_last(), alias, uid, files),
            devices.last(),
            alias,
            uid,
            files,
        )
    }
}

/// What is to be done about a board's device files.
#[derive(Debug, PartialEq, Eq)]
pub struct DeviceStep {
    /// Files to be given to their claimant with mode [`LOCKED_MODE`].
    pub taken: Vec<Takeover>,
    /// What went wrong; if nothing did, every file of the board is locked.
    pub failures: Vec<String>,
}

fn find_lock_on<'a>(locks: &'a [DeviceLock], path: &str) -> (lock: Option<&'a DeviceLock>)
    ensures
        opt_view(lock) == find_first(views(locks@), lock_on(path@)),
{
    let ghost pred = lock_on(path@);
    for i in 0..locks.len()
        invariant
            pred == lock_on(path@),
            forall|j: int| 0 <= j < i ==> !pred(#[trigger] views(locks@)[j]),
    {
        if same_text(locks[i].path.as_str(), path) {
            proof {
                lemma_first_where_is(views(locks@), pred, i as int);
            }
            return Some(&locks[i]);
        }
    }
    proof {
        lemma_first_where_is(views(locks@), pred, locks@.len() as int);
    }
    None
}

fn is_taken(taken: &[Takeover], path: &str) -> (yes: bool)
    ensures
        yes == some_item(views(taken@), takes(path@)),
{
    let ghost pred = takes(path@);
    for i in 0..taken.len()
        invariant
            pred == takes(path@),
            forall|j: int| 0 <= j < i ==> !pred(#[trigger] views(taken@)[j]),
    {
        if same_text(taken[i].path.as_str(), path) {
            assert(pred(views(taken@)[i as int]));
            return true;
        }
    }
    false
}

fn file_failure(path: &str, why: &str) -> (line: String)
    ensures
        line@ == path@ + ": "@ + why@,
{
    let mut line = path.to_string();
    line.append(": ");
    line.append(why);
    line
}

fn held_line(path: &str, uid: u32) -> (line: String)
    ensures
        line@ == held_message(path@, uid),
{
    let number = decimal_text(uid as u64);
    let mut line = path.to_string();
    line.append(": already locked for uid ");
    line.append(number.as_str());
    line
}

/// A lock on the file at `path` is held for `uid`, and the file is locked already or about to be.
pub open spec fn is_in_hand(
    path: Seq<char>,
    uid: u32,
    locked: LockingModel,
    files: Seq<FileInfoModel>,
) -> bool {
    &&& exists|i: int|
        0 <= i < locked.locks.len() && (#[trigger] locked.locks[i]).path == path
            && locked.locks[i].claimant_uid == uid
    &&& (file_found(files, path) matches Ok(meta) && is_locked_for(uid, meta)) || exists|i: int|
        0 <= i < locked.taken.len() && (#[trigger] locked.taken[i]).path == path
            && locked.taken[i].uid == uid
}

proof fn lemma_taken_for(
    locks: Seq<DeviceLockModel>,
    devices: Seq<Seq<char>>,
    alias: Seq<char>,
    uid: u32,
    files: Seq<FileInfoModel>,
)
    ensures
        forall|k: int|
            0 <= k < locking_all(locks, devices, alias, uid, files).taken.len() ==> (
            #[trigger] locking_all(locks, devices, alias, uid, files).taken[k]).uid == uid,
    decreases devices.len(),
{
    if devices.len() > 0 {
        let before = locking_all(locks, devices.drop_last(), alias, uid, files).taken;
        let after = locking_all(locks, devices, alias, uid, files).taken;
        lemma_taken_for(locks, devices.drop_last(), alias, uid, files);
        assert forall|k: int| 0 <= k < after.len() implies (#[trigger] after[k]).uid == uid by {
            if k < before.len() {
                assert(after[k] == before[k]);
            }
        }
    }
}

/// If nothing went wrong while the files of a board were taken over, every one of them is locked
/// for the claimant, or is about to be.
pub proof fn law_no_failure_means_locked(
    locks: Seq<DeviceLockModel>,
    devices: Seq<Seq<char>>,
    alias: Seq<char>,
    uid: u32,
    files: Seq<FileInfoModel>,
)
    requires
        locking_all(locks, devices, alias, uid, files).failures.len() == 0,
    ensures
        forall|d: int|
            0 <= d < devices.len() ==> is_in_hand(
                #[trigger] devices[d],
                uid,
                locking_all(locks, devices, alias, uid, files),
                files,
            ),
    decreases devices.len(),
{
    if devices.len() > 0 {
        let rest = devices.drop_last();
        let path = devices.last();
        let before = locking_all(locks, rest, alias, uid, files);
        let after = locking_all(locks, devices, alias, uid, files);
        assert(before.failures.len() <= after.failures.len());
        law_no_failure_means_locked(locks, rest, alias, uid, files);
        lemma_taken_for(locks, rest, alias, uid, files);
        assert(is_in_hand(path, uid, after, files)) by {
            lemma_first_where(before.locks, lock_on(path));
            let at = first_where(before.locks, lock_on(path));
            if at < before.locks.len() {
                assert(after.locks[at].path == path && after.locks[at].claimant_uid == uid);
                if some_item(before.taken, takes(path)) {
                    let k = choose|k: int|
                        0 <= k < before.taken.len() && takes(path)(#[trigger] before.taken[k]);
                    assert(after.taken[k].path == path && after.taken[k].uid == uid);
                } else if !(file_found(files, path) matches Ok(meta) && is_locked_for(uid, meta)) {
                    assert(after.taken[after.taken.len() - 1].path == path);
                }
            } else {
                assert(after.locks[after.locks.len() - 1].path == path);
                assert(after.taken[after.taken.len() - 1].path == path);
            }
        }
        assert forall|d: int| 0 <= d < devices.len() implies is_in_hand(
            #[trigger] devices[d],
            uid,
            after,
            files,
        ) by {
            if d < rest.len() {
                let one = rest[d];
                assert(is_in_hand(one, uid, before, files));
                let i = choose|i: int|
                    0 <= i < before.locks.len() && (#[trigger] before.locks[i]).path == one
                        && before.locks[i].claimant_uid == uid;
                assert(after.locks[i] == before.locks[i]);
                if !(file_found(files, one) matches Ok(meta) && is_locked_for(uid, meta)) {
                    let k = choose|k: int|
                        0 <= k < before.taken.len() && (#[trigger] before.taken[k]).path == one
                            && before.taken[k].uid == uid;
                    assert(after.taken[k] == before.taken[k]);
                }
            }
        }
    }
}

/// Hand the board's device files to `claimant_uid`. What a file was like is written down before
/// anything is changed, because changing it can fail half way. If there is no failure, every file
/// of the board is locked once the files to be taken over have been.
pub fn lock_devices(
    spec: &FpgaSpec,
    claimant_uid: u32,
    state: &mut DiskState,
    files: &[FileInfo],
) -> (step: DeviceStep)
    ensures
        ({
            let locked = locking_all(
                old(state)@.device_locks,
                spec@.devices,
                spec@.alias,
                claimant_uid,
                views(files@),
            );
            &&& final(state)@ == DiskStateModel { device_locks: locked.locks, ..old(state)@ }
            &&& views(step.taken@) == locked.taken
            &&& views(step.failures@) == locked.failures
            &&& step.failures@.len() == 0 ==> forall|d: int|
                0 <= d < spec@.devices.len() ==> is_in_hand(
                    #[trigger] spec@.devices[d],
                    claimant_uid,
                    locked,
                    views(files@),
                )
        }),
{
    let ghost before = state@;
    let ghost devices = spec@.devices;
    let ghost alias = spec@.alias;
    let mut taken: Vec<Takeover> = Vec::new();
    let mut failures: Vec<String> = Vec::new();
    proof {
        assert(devices.take(0) =~= Seq::empty());
        assert(views(taken@) =~= Seq::empty());
        assert(views(failures@) =~= Seq::empty());
    }
    for i in 0..spec.devices.len()
        invariant
            devices == spec@.devices,
            alias == spec@.alias,
            state@ == (DiskStateModel {
                device_locks: locking_all(
                    before.device_locks,
                    devices.take(i as int),
                    alias,
                    claimant_uid,
                    views(files@),
                ).locks,
                ..before
            }),
            views(taken@) == locking_all(
                before.device_locks,
                devices.take(i as int),
                alias,
                claimant_uid,
                views(files@),
            ).taken,
            views(failures@) == locking_all(
                before.device_locks,
                devices.take(i as int),
                alias,
                claimant_uid,
                views(files@),
            ).failures,
    {
        let path = &spec.devices[i];
        let ghost at = state@;
        proof {
            lemma_take_next(devices, i as int);
        }
        let found = look_up_file(files, path.as_str());
        match (find_lock_on(&state.device_locks, path.as_str()), found) {
            (Some(lock), found) => {
                if lock.claimant_uid != claimant_uid {
                    let failure = held_line(path.as_str(), lock.claimant_uid);
                    proof {
                        lemma_views_push(failures@, failure);
                    }
                    failures.push(failure);
                } else {
                    match found {
                        Ok(meta) => {
                            let locked = meta.uid == claimant_uid && meta.mode == LOCKED_MODE;
                            if !locked && !is_taken(&taken, path.as_str()) {
                                let hand = Takeover {
                                    path: path.clone(),
                                    uid: claimant_uid,
                                    gid: lock.orig_gid,
                                };
                                proof {
                                    lemma_views_push(taken@, hand);
                                }
                                taken.push(hand);
                            }
                        },
                        Err(why) => {
                            let failure = file_failure(path.as_str(), why.as_str());
                            proof {
                                lemma_views_push(failures@, failure);
                            }
                            failures.push(failure);
                        },
                    }
                }
            },
            (None, Ok(meta)) => {
                let lock = DeviceLock {
                    path: path.clone(),
                    alias: spec.alias.clone(),
                    orig_uid: meta.uid,
                    orig_gid: meta.gid,
                    orig_mode: meta.mode,
                    claimant_uid,
                };
                let hand = Takeover { path: path.clone(), uid: claimant_uid, gid: meta.gid };
                proof {
                    lemma_views_push(state.device_locks@, lock);
                    lemma_views_push(taken@, hand);
                }
                state.device_locks.push(lock);
                taken.push(hand);
            },
            (None, Err(why)) => {
                let failure = file_failure(path.as_str(), why.as_str());
                proof {
                    lemma_views_push(failures@, failure);
                }
                failures.push(failure);
            },
        }
    }
    proof {
        lemma_take_all(devices);
        if failures@.len() == 0 {
            law_no_failure_means_locked(
                before.device_locks,
                devices,
                alias,
                claimant_uid,
                views(files@),
            );
        }
    }
    DeviceStep { taken, failures }
}

/// Whether the file is still owned and moded as the lock has it, if that is known.
pub open spec fn intact(lock: DeviceLockModel, files: Seq<FileInfoModel>) -> Option<bool> {
    match file_found(files, lock.path) {
        Ok(meta) => Some(meta.uid == lock.claimant_uid && meta.mode == LOCKED_MODE),
        Err(_) => None,
    }
}

/// Whether the file is still the way it was left; None if it cannot be looked at.
pub fn lock_is_intact(lock: &DeviceLock, files: &[FileInfo]) -> (yes: Option<bool>)
    ensures
        yes == intact(lock@, views(files@)),
{
    match look_up_file(files, lock.path.as_str()) {
        Ok(meta) => Some(meta.uid == lock.claimant_uid && meta.mode == LOCKED_MODE),
        Err(_) => None,
    }
}

pub open spec fn lock_of(alias: Seq<char>) -> spec_fn(DeviceLockModel) -> bool {
    |lock: DeviceLockModel| lock.alias == alias
}

/// Locks that are held for one alias.
pub fn locks_for<'a>(state: &'a DiskState, alias: &str) -> (locks: Vec<&'a DeviceLock>)
    ensures
        views(locks@) == state@.device_locks.filter(lock_of(alias@)),
{
    let ghost pred = lock_of(alias@);
    let ghost all = state@.device_locks;
    let mut out: Vec<&'a DeviceLock> = Vec::new();
    proof {
        reveal(Seq::filter);
        assert(views(out@) =~= all.take(0).filter(pred));
    }
    for i in 0..state.device_locks.len()
        invariant
            pred == lock_of(alias@),
            all == state@.device_locks,
            views(out@) == all.take(i as int).filter(pred),
    {
        let lock = &state.device_locks[i];
        proof {
            lemma_filter_next(all, i as int, pred);
            lemma_views_push(out@, lock);
        }
        if same_text(lock.alias.as_str(), alias) {
            out.push(lock);
        }
    }
    proof {
        lemma_take_all(all);
    }
    out
}

/// Whether no exclusive claim covers the lock's board any more, so that its file goes back to what
/// it was.
pub open spec fn is_given_back(intended: Seq<(Seq<char>, Seq<char>)>) -> spec_fn(
    DeviceLockModel,
) -> bool {
    |lock: DeviceLockModel| owner_of(intended, lock.alias) is None
}

/// For each lock, whether its file is to be restored to its original ownership.
pub fn devices_to_restore(state: &DiskState, now: Moment) -> (restore: Vec<bool>)
    ensures
        restore@ == state@.device_locks.map_values(is_given_back(live_owners(state@.claims, now))),
{
    let intended = intended_owners(state, now);
    let ghost f = is_given_back(live_owners(state@.claims, now));
    let ghost all = state@.device_locks;
    let mut restore: Vec<bool> = Vec::new();
    assert(restore@ =~= all.take(0).map_values(f));
    for i in 0..state.device_locks.len()
        invariant
            views(intended@) == live_owners(state@.claims, now),
            f == is_given_back(live_owners(state@.claims, now)),
            all == state@.device_locks,
            restore@ == all.take(i as int).map_values(f),
    {
        proof {
            lemma_map_next(all, i as int, f);
        }
        restore.push(find_owner(&intended, state.device_locks[i].alias.as_str()).is_none());
    }
    proof {
        lemma_take_all(all);
    }
    restore
}

/// Owner, group and mode of the file before it was locked.
pub open spec fn original_of(lock: DeviceLockModel) -> Ownership {
    Ownership { uid: lock.orig_uid, gid: lock.orig_gid, mode: lock.orig_mode }
}

/// The file that giving a lock back restores, and what it is restored to.
pub fn given_back(lock: &DeviceLock) -> (out: (String, Ownership))
    ensures
        out.0@ == lock@.path,
        out.1 == (Ownership { uid: lock@.orig_uid, gid: lock@.orig_gid, mode: lock@.orig_mode }),
        out.1 == original_of(lock@),
{
    let original = Ownership { uid: lock.orig_uid, gid: lock.orig_gid, mode: lock.orig_mode };
    (lock.path.clone(), original)
}

/// What is said once a file was to be given back, with the reason why that `failed` if it did.
pub open spec fn given_back_told(lock: DeviceLockModel, failed: Option<Seq<char>>) -> Seq<char> {
    match failed {
        None => "released "@ + lock.path + " ("@ + lock.alias + ")"@,
        Some(why) => "WARN: could not restore "@ + lock.path + ": "@ + why + ". Will retry."@,
    }
}

/// What to say once a file was to be given back.
pub fn given_back_line(lock: &DeviceLock, failed: Option<&str>) -> (line: String)
    ensures
        line@ == given_back_told(lock@, opt_view(failed)),
{
    match failed {
        None => {
            let mut line = "released ".to_string();
            line.append(lock.path.as_str());
            line.append(" (");
            line.append(lock.alias.as_str());
            line.append(")");
            line
        },
        Some(why) => {
            let mut line = "WARN: could not restore ".to_string();
            line.append(lock.path.as_str());
            line.append(": ");
            line.append(why);
            line.append(". Will retry.");
            line
        },
    }
}

/// What becomes of a lock: it goes with the claim on its board, if its file could be `restored`,
/// and otherwise names whoever holds the board now. A holder who has no account changes nothing.
pub open spec fn lock_kept(
    lock: DeviceLockModel,
    restored: bool,
    intended: Seq<(Seq<char>, Seq<char>)>,
    accounts: Seq<AccountModel>,
) -> Option<DeviceLockModel> {
    match owner_of(intended, lock.alias) {
        Some(user) => match uid_of(accounts, user) {
            Some(uid) => Some(DeviceLockModel { claimant_uid: uid, ..lock }),
            None => Some(lock),
        },
        None => if restored {
            None
        } else {
            Some(lock)
        },
    }
}

pub open spec fn to_kept(
    restored: Seq<bool>,
    intended: Seq<(Seq<char>, Seq<char>)>,
    accounts: Seq<AccountModel>,
) -> spec_fn(int, DeviceLockModel) -> Option<DeviceLockModel> {
    |i: int, lock: DeviceLockModel| lock_kept(lock, restored[i], intended, accounts)
}

pub open spec fn locks_kept(
    locks: Seq<DeviceLockModel>,
    restored: Seq<bool>,
    intended: Seq<(Seq<char>, Seq<char>)>,
    accounts: Seq<AccountModel>,
) -> Seq<DeviceLockModel> {
    somes(locks.map(to_kept(restored, intended, accounts)))
}

/// What is said of a lock whose board is claimed, before anything is done about it: who holds the
/// board now, if that changed, or that the holder has no account.
pub open spec fn handover_told(
    lock: DeviceLockModel,
    intended: Seq<(Seq<char>, Seq<char>)>,
    accounts: Seq<AccountModel>,
) -> Option<Seq<char>> {
    match owner_of(intended, lock.alias) {
        Some(user) => match uid_of(accounts, user) {
            Some(uid) => if lock.claimant_uid != uid {
                Some(
                    lock.alias + " changed hands: re-pointing "@ + lock.path + " at uid "@
                        + decimal(uid as nat),
                )
            } else {
                None
            },
            None => Some(
                "WARN: "@ + lock.alias + " is claimed by unknown user "@ + user + ". Leaving "@
                    + lock.path + " untouched."@,
            ),
        },
        None => None,
    }
}

/// What to say of `lock` when the device locks are converged: that its board changed hands, or
/// that whoever claims the board is unknown.
pub fn handover_line(
    state: &DiskState,
    accounts: &[Account],
    now: Moment,
    lock: &DeviceLock,
) -> (line: Option<String>)
    ensures
        opt_view(line) == handover_told(lock@, live_owners(state@.claims, now), views(accounts@)),
{
    let intended = intended_owners(state, now);
    let user = match find_owner(&intended, lock.alias.as_str()) {
        Some(user) => user,
        None => return None,
    };
    match find_uid(accounts, user) {
        Some(uid) => {
            if lock.claimant_uid == uid {
                return None;
            }
            let number = decimal_text(uid as u64);
            let mut line = lock.alias.clone();
            line.append(" changed hands: re-pointing ");
            line.append(lock.path.as_str());
            line.append(" at uid ");
            line.append(number.as_str());
            Some(line)
        },
        None => {
            let mut line = "WARN: ".to_string();
            line.append(lock.alias.as_str());
            line.append(" is claimed by unknown user ");
            line.append(user);
            line.append(". Leaving ");
            line.append(lock.path.as_str());
            line.append(" untouched.");
            Some(line)
        },
    }
}

/// What is said when the files of `alias` could not be taken over.
pub open spec fn enforcement_failure(alias: Seq<char>) -> spec_fn(Seq<char>) -> Seq<char> {
    |failure: Seq<char>| "WARN: enforcement failed for "@ + alias + ": "@ + failure
}

/// The files of one more board taken over for its owner. Boards that are not configured, and
/// owners without an account, are passed over.
pub open spec fn taking_board(
    sofar: LockingModel,
    pair: (Seq<char>, Seq<char>),
    settings: SettingsModel,
    accounts: Seq<AccountModel>,
    files: Seq<FileInfoModel>,
) -> LockingModel {
    match (uid_of(accounts, pair.1), settings.fpga(pair.0)) {
        (Some(uid), Some(spec)) => {
            let locked = locking_all(sofar.locks, spec.devices, spec.alias, uid, files);
            LockingModel {
                locks: locked.locks,
                taken: sofar.taken + locked.taken,
                failures: sofar.failures + locked.failures.map_values(enforcement_failure(pair.0)),
            }
        },
        _ => sofar,
    }
}

pub open spec fn taking_boards(
    locks: Seq<DeviceLockModel>,
    intended: Seq<(Seq<char>, Seq<char>)>,
    settings: SettingsModel,
    accounts: Seq<AccountModel>,
    files: Seq<FileInfoModel>,
) -> LockingModel
    decreases intended.len(),
{
    if intended.len() == 0 {
        LockingModel { locks, taken: Seq::empty(), failures: Seq::empty() }
    } else {
        taking_board(
            taking_boards(locks, intended.drop_last(), settings, accounts, files),
            intended.last(),
            settings,
            accounts,
            files,
        )
    }
}

/// The device locks as the claims have it: first boards are given back or handed on, then what a
/// claim covers and is not locked yet is taken over.
pub open spec fn devices_synced(
    state: DiskStateModel,
    accounts: Seq<AccountModel>,
    now: Moment,
    restored: Seq<bool>,
    files: Seq<FileInfoModel>,
) -> LockingModel {
    let intended = live_owners(state.claims, now);
    taking_boards(
        locks_kept(state.device_locks, restored, intended, accounts),
        intended,
        state.settings,
        accounts,
        files,
    )
}

fn kept_locks(
    locks: &[DeviceLock],
    intended: &[(String, String)],
    accounts: &[Account],
    restored: &[bool],
) -> (kept: Vec<DeviceLock>)
    requires
        restored@.len() == locks@.len(),
    ensures
        views(kept@) == locks_kept(views(locks@), restored@, views(intended@), views(accounts@)),
{
    let ghost f = to_kept(restored@, views(intended@), views(accounts@));
    let ghost mapped = views(locks@).map(f);
    let mut kept: Vec<DeviceLock> = Vec::new();
    assert(views(kept@) =~= somes(mapped.take(0)));
    for i in 0..locks.len()
        invariant
            restored@.len() == locks@.len(),
            f == to_kept(restored@, views(intended@), views(accounts@)),
            mapped == views(locks@).map(f),
            views(kept@) == somes(mapped.take(i as int)),
    {
        let mut lock = locks[i].clone();
        proof {
            lemma_take_next(mapped, i as int);
            assert(mapped[i as int] == lock_kept(
                locks@[i as int]@,
                restored@[i as int],
                views(intended@),
                views(accounts@),
            ));
        }
        match find_owner(intended, lock.alias.as_str()) {
            Some(user) => {
                if let Some(uid) = find_uid(accounts, user) {
                    lock.claimant_uid = uid;
                }
                proof {
                    lemma_views_push(kept@, lock);
                }
                kept.push(lock);
            },
            None => {
                if !restored[i] {
                    proof {
                        lemma_views_push(kept@, lock);
                    }
                    kept.push(lock);
                }
            },
        }
    }
    proof {
        lemma_take_all(mapped);
    }
    kept
}

fn failure_lines(alias: &str, failures: &[String]) -> (out: Vec<String>)
    ensures
        views(out@) == views(failures@).map_values(enforcement_failure(alias@)),
{
    let ghost f = enforcement_failure(alias@);
    let mut out: Vec<String> = Vec::new();
    assert(views(out@) =~= views(failures@).take(0).map_values(f));
    for i in 0..failures.len()
        invariant
            f == enforcement_failure(alias@),
            views(out@) == views(failures@).take(i as int).map_values(f),
    {
        let mut line = String::new();
        line.append("WARN: enforcement failed for ");
        line.append(alias);
        line.append(": ");
        line.append(failures[i].as_str());
        proof {
            lemma_map_next(views(failures@), i as int, f);
            assert(line@ =~= f(failures@[i as int]@));
            lemma_views_push(out@, line);
        }
        out.push(line);
    }
    proof {
        lemma_take_all(views(failures@));
    }
    out
}

/// Converge the device locks onto what the claims say. `restored` says for each lock whether its
/// file was put back to what it was; only the locks that [`devices_to_restore`] names are asked
/// for. `files` is what the boards' files are like after that. Returns the files to hand over.
pub fn sync_device_locks(
    state: &mut DiskState,
    accounts: &[Account],
    now: Moment,
    restored: &[bool],
    files: &[FileInfo],
) -> (step: DeviceStep)
    requires
        restored@.len() == old(state)@.device_locks.len(),
    ensures
        ({
            let synced = devices_synced(
                old(state)@,
                views(accounts@),
                now,
                restored@,
                views(files@),
            );
            &&& final(state)@ == DiskStateModel { device_locks: synced.locks, ..old(state)@ }
            &&& views(step.taken@) == synced.taken
            &&& views(step.failures@) == synced.failures
        }),
{
    let ghost before = state@;
    let intended = intended_owners(state, now);
    let kept = kept_locks(&state.device_locks, &intended, accounts, restored);
    state.device_locks = kept;
    let ghost start = views(kept@);
    let mut taken: Vec<Takeover> = Vec::new();
    let mut failures: Vec<String> = Vec::new();
    proof {
        assert(views(intended@).take(0) =~= Seq::empty());
        assert(views(taken@) =~= Seq::empty());
        assert(views(failures@) =~= Seq::empty());
    }
    for i in 0..intended.len()
        invariant
            views(intended@) == live_owners(before.claims, now),
            state@ == (DiskStateModel {
                device_locks: taking_boards(
                    start,
                    views(intended@).take(i as int),
                    before.settings,
                    views(accounts@),
                    views(files@),
                ).locks,
                ..before
            }),
            views(taken@) == taking_boards(
                start,
                views(intended@).take(i as int),
                before.settings,
                views(accounts@),
                views(files@),
            ).taken,
            views(failures@) == taking_boards(
                start,
                views(intended@).take(i as int),
                before.settings,
                views(accounts@),
                views(files@),
            ).failures,
    {
        proof {
            lemma_take_next(views(intended@), i as int);
        }
        let alias = intended[i].0.as_str();
        let uid = find_uid(accounts, intended[i].1.as_str());
        let spec: Option<FpgaSpec> = match state.settings.fpga(alias) {
            Some(spec) => Some(spec.clone()),
            None => None,
        };
        if let (Some(uid), Some(spec)) = (uid, spec) {
            let mut step = lock_devices(&spec, uid, state, files);
            let mut lines = failure_lines(alias, &step.failures);
            proof {
                lemma_views_add(taken@, step.taken@);
                lemma_views_add(failures@, lines@);
            }
            taken.append(&mut step.taken);
            failures.append(&mut lines);
        }
    }
    proof {
        lemma_take_all(views(intended@));
    }
    DeviceStep { taken, failures }
}

pub open spec fn is_drifted(files: Seq<FileInfoModel>) -> spec_fn(DeviceLockModel) -> bool {
    |lock: DeviceLockModel| intact(lock, files) == Some(false)
}

/// Locks whose file is not the way it was left: a driver made it anew, or the lock names someone
/// else now. They are to be given to their claimant again, with their original group.
pub fn drifted_locks(state: &DiskState, files: &[FileInfo]) -> (drifted: Vec<DeviceLock>)
    ensures
        views(drifted@) == state@.device_locks.filter(is_drifted(views(files@))),
{
    let ghost pred = is_drifted(views(files@));
    let ghost all = state@.device_locks;
    let mut out: Vec<DeviceLock> = Vec::new();
    proof {
        reveal(Seq::filter);
        assert(views(out@) =~= all.take(0).filter(pred));
    }
    for i in 0..state.device_locks.len()
        invariant
            pred == is_drifted(views(files@)),
            all == state@.device_locks,
            views(out@) == all.take(i as int).filter(pred),
    {
        let lock = state.device_locks[i].clone();
        proof {
            lemma_filter_next(all, i as int, pred);
            lemma_views_push(out@, lock);
        }
        if let Some(false) = lock_is_intact(&lock, files) {
            out.push(lock);
        }
    }
    proof {
        lemma_take_all(all);
    }
    out
}

/// The file of a lock that is to be given to its claimant once more.
pub fn retaken(lock: &DeviceLock) -> (hand: Takeover)
    ensures
        hand@ == (TakeoverModel {
            path: lock@.path,
            uid: lock@.claimant_uid,
            gid: lock@.orig_gid,
        }),
{
    Takeover { path: lock.path.clone(), uid: lock.claimant_uid, gid: lock.orig_gid }
}

/// The alias of the lock on `path`, empty if there is none.
pub open spec fn alias_on(locks: Seq<DeviceLockModel>, path: Seq<char>) -> Seq<char> {
    match find_first(locks, lock_on(path)) {
        Some(lock) => lock.alias,
        None => Seq::empty(),
    }
}

/// What is said once a file was to be handed over, with the reason why that `failed` if it did.
/// `again` tells that a lock was on the file before.
pub open spec fn handed_told(
    locks: Seq<DeviceLockModel>,
    hand: TakeoverModel,
    again: bool,
    failed: Option<Seq<char>>,
) -> Seq<char> {
    match (again, failed) {
        (true, None) => "re-asserted lock on "@ + hand.path + " ("@ + alias_on(locks, hand.path)
            + ")"@,
        (true, Some(why)) => "WARN: could not re-assert "@ + hand.path + ": "@ + why,
        (false, None) => "locked "@ + hand.path + " for uid "@ + decimal(hand.uid as nat),
        (false, Some(why)) => enforcement_failure(alias_on(locks, hand.path))(
            hand.path + ": "@ + why,
        ),
    }
}

/// What to say once a file was to be handed over; see [`handed_told`].
pub fn handed_line(state: &DiskState, hand: &Takeover, again: bool, failed: Option<&str>) -> (line:
    String)
    ensures
        line@ == handed_told(state@.device_locks, hand@, again, opt_view(failed)),
{
    let alias: String = match find_lock_on(&state.device_locks, hand.path.as_str()) {
        Some(lock) => lock.alias.clone(),
        None => String::new(),
    };
    assert(alias@ == alias_on(state@.device_locks, hand@.path));
    let mut line = String::new();
    match (again, failed) {
        (true, None) => {
            line.append("re-asserted lock on ");
            line.append(hand.path.as_str());
            line.append(" (");
            line.append(alias.as_str());
            line.append(")");
        },
        (true, Some(why)) => {
            line.append("WARN: could not re-assert ");
            line.append(hand.path.as_str());
            line.append(": ");
            line.append(why);
        },
        (false, None) => {
            let number = decimal_text(hand.uid as u64);
            line.append("locked ");
            line.append(hand.path.as_str());
            line.append(" for uid ");
            line.append(number.as_str());
        },
        (false, Some(why)) => {
            line.append("WARN: enforcement failed for ");
            line.append(alias.as_str());
            line.append(": ");
            line.append(file_failure(hand.path.as_str(), why).as_str());
        },
    }
    assert(line@ =~= handed_told(state@.device_locks, hand@, again, opt_view(failed)));
    line
}

/// No file has two locks.
pub open spec fn one_lock_per_file(locks: Seq<DeviceLockModel>) -> bool {
    forall|i: int, j: int|
        0 <= i < j < locks.len() ==> (#[trigger] locks[i]).path != (#[trigger] locks[j]).path
}

/// The file at `path` is locked, or nothing can be learned of it.
pub open spec fn is_locked_if_known(
    path: Seq<char>,
    locks: Seq<DeviceLockModel>,
    files: Seq<FileInfoModel>,
) -> bool {
    some_item(locks, lock_on(path)) || file_found(files, path) is Err
}

proof fn lemma_locked_stays(
    path: Seq<char>,
    before: Seq<DeviceLockModel>,
    after: Seq<DeviceLockModel>,
)
    requires
        before.len() <= after.len(),
        after.take(before.len() as int) == before,
        some_item(before, lock_on(path)),
    ensures
        some_item(after, lock_on(path)),
{
    let i = choose|i: int| 0 <= i < before.len() && lock_on(path)(#[trigger] before[i]);
    assert(after.take(before.len() as int)[i] == after[i]);
    assert(lock_on(path)(after[i]));
}

proof fn lemma_locking_all(
    locks: Seq<DeviceLockModel>,
    devices: Seq<Seq<char>>,
    alias: Seq<char>,
    uid: u32,
    files: Seq<FileInfoModel>,
)
    ensures
        ({
            let after = locking_all(locks, devices, alias, uid, files).locks;
            &&& locks.len() <= after.len()
            &&& after.take(locks.len() as int) == locks
            &&& forall|k: int|
                locks.len() <= k < after.len() ==> (#[trigger] after[k]).alias == alias
                    && after[k].claimant_uid == uid
            &&& one_lock_per_file(locks) ==> one_lock_per_file(after)
            &&& forall|d: int|
                0 <= d < devices.len() ==> is_locked_if_known(#[trigger] devices[d], after, files)
        }),
    decreases devices.len(),
{
    if devices.len() == 0 {
        assert(locks.take(locks.len() as int) =~= locks);
    } else {
        let rest = devices.drop_last();
        lemma_locking_all(locks, rest, alias, uid, files);
        let before = locking_all(locks, rest, alias, uid, files).locks;
        let after = locking_all(locks, devices, alias, uid, files).locks;
        let path = devices.last();
        lemma_first_where(before, lock_on(path));
        assert(after.take(before.len() as int) =~= before);
        assert(after.take(locks.len() as int) =~= before.take(locks.len() as int));
        assert(is_locked_if_known(path, after, files)) by {
            if !some_item(before, lock_on(path)) && file_found(files, path) is Ok {
                assert(lock_on(path)(after[after.len() - 1]));
            }
        }
        if one_lock_per_file(locks) {
            assert forall|i: int, j: int| 0 <= i < j < after.len() implies (
            #[trigger] after[i]).path != (#[trigger] after[j]).path by {
                assert(after[i] == before[i]);
                if j < before.len() {
                    assert(before[i].path != before[j].path);
                } else {
                    assert(!lock_on(path)(before[i]));
                }
            }
        }
        assert forall|d: int| 0 <= d < devices.len() implies is_locked_if_known(
            #[trigger] devices[d],
            after,
            files,
        ) by {
            if d < rest.len() {
                assert(is_locked_if_known(rest[d], before, files));
                if some_item(before, lock_on(rest[d])) {
                    lemma_locked_stays(rest[d], before, after);
                }
            }
        }
        assert forall|k: int| locks.len() <= k < after.len() implies (#[trigger] after[k]).alias
            == alias && after[k].claimant_uid == uid by {
            if k < before.len() {
                assert(after[k] == before[k]);
            }
        }
    }
}

/// Every device file of the board that `pair` names is locked, or nothing can be learned of it.
pub open spec fn board_is_taken(
    pair: (Seq<char>, Seq<char>),
    settings: SettingsModel,
    accounts: Seq<AccountModel>,
    locks: Seq<DeviceLockModel>,
    files: Seq<FileInfoModel>,
) -> bool {
    match (uid_of(accounts, pair.1), settings.fpga(pair.0)) {
        (Some(_), Some(spec)) => forall|d: int|
            0 <= d < spec.devices.len() ==> is_locked_if_known(
                #[trigger] spec.devices[d],
                locks,
                files,
            ),
        _ => true,
    }
}

/// The lock names a board that `intended` gives to someone whose id it has.
pub open spec fn lock_follows(
    lock: DeviceLockModel,
    intended: Seq<(Seq<char>, Seq<char>)>,
    accounts: Seq<AccountModel>,
) -> bool {
    exists|i: int|
        0 <= i < intended.len() && (#[trigger] intended[i]).0 == lock.alias && uid_of(
            accounts,
            intended[i].1,
        ) == Some(lock.claimant_uid)
}

proof fn lemma_taking_boards(
    locks: Seq<DeviceLockModel>,
    intended: Seq<(Seq<char>, Seq<char>)>,
    settings: SettingsModel,
    accounts: Seq<AccountModel>,
    files: Seq<FileInfoModel>,
)
    ensures
        ({
            let after = taking_boards(locks, intended, settings, accounts, files).locks;
            &&& locks.len() <= after.len()
            &&& after.take(locks.len() as int) == locks
            &&& forall|k: int|
                locks.len() <= k < after.len() ==> lock_follows(
                    #[trigger] after[k],
                    intended,
                    accounts,
                )
            &&& one_lock_per_file(locks) ==> one_lock_per_file(after)
            &&& forall|i: int|
                0 <= i < intended.len() ==> board_is_taken(
                    #[trigger] intended[i],
                    settings,
                    accounts,
                    after,
                    files,
                )
        }),
    decreases intended.len(),
{
    if intended.len() == 0 {
        assert(locks.take(locks.len() as int) =~= locks);
    } else {
        let rest = intended.drop_last();
        let pair = intended.last();
        lemma_taking_boards(locks, rest, settings, accounts, files);
        let before = taking_boards(locks, rest, settings, accounts, files).locks;
        let after = taking_boards(locks, intended, settings, accounts, files).locks;
        assert(before.take(before.len() as int) =~= before);
        lemma_first_where(settings.fpgas, crate::diskstate::with_alias(pair.0));
        match (uid_of(accounts, pair.1), settings.fpga(pair.0)) {
            (Some(uid), Some(spec)) => {
                lemma_locking_all(before, spec.devices, spec.alias, uid, files);
                assert(spec.alias == pair.0);
            },
            _ => {},
        }
        assert(after.take(locks.len() as int) =~= before.take(locks.len() as int)) by {
            assert forall|k: int| 0 <= k < locks.len() implies after[k] == before[k] by {
                assert(after.take(before.len() as int)[k] == before[k]);
            }
        }
        assert forall|k: int| locks.len() <= k < after.len() implies lock_follows(
            #[trigger] after[k],
            intended,
            accounts,
        ) by {
            if k < before.len() {
                assert(after.take(before.len() as int)[k] == before[k]);
                assert(lock_follows(before[k], rest, accounts));
                let i = choose|i: int|
                    0 <= i < rest.len() && (#[trigger] rest[i]).0 == before[k].alias && uid_of(
                        accounts,
                        rest[i].1,
                    ) == Some(before[k].claimant_uid);
                assert(intended[i] == rest[i]);
            } else {
                assert(intended[intended.len() - 1].0 == after[k].alias);
            }
        }
        assert forall|i: int| 0 <= i < intended.len() implies board_is_taken(
            #[trigger] intended[i],
            settings,
            accounts,
            after,
            files,
        ) by {
            if i < rest.len() {
                assert(board_is_taken(rest[i], settings, accounts, before, files));
                match (uid_of(accounts, rest[i].1), settings.fpga(rest[i].0)) {
                    (Some(_), Some(spec)) => {
                        assert forall|d: int| 0 <= d < spec.devices.len() implies is_locked_if_known(
                            #[trigger] spec.devices[d],
                            after,
                            files,
                        ) by {
                            assert(is_locked_if_known(spec.devices[d], before, files));
                            if some_item(before, lock_on(spec.devices[d])) {
                                lemma_locked_stays(spec.devices[d], before, after);
                            }
                        }
                    },
                    _ => {},
                }
            }
        }
    }
}

/// Where every file that is given back could be restored, each lock that is left belongs to a board
/// under an exclusive claim and names its holder, unless the holder has no account. Every known
/// file of a claimed board is locked.
pub proof fn law_synced_devices_follow_the_claims(
    state: DiskStateModel,
    accounts: Seq<AccountModel>,
    now: Moment,
    restored: Seq<bool>,
    files: Seq<FileInfoModel>,
)
    requires
        restored.len() == state.device_locks.len(),
        forall|i: int| 0 <= i < restored.len() ==> #[trigger] restored[i],
    ensures
        ({
            let intended = live_owners(state.claims, now);
            let after = devices_synced(state, accounts, now, restored, files).locks;
            &&& forall|k: int|
                0 <= k < after.len() ==> match owner_of(intended, (#[trigger] after[k]).alias) {
                    Some(user) => match uid_of(accounts, user) {
                        Some(uid) => after[k].claimant_uid == uid,
                        None => state.device_locks.contains(after[k]),
                    },
                    None => false,
                }
            &&& forall|i: int|
                0 <= i < intended.len() ==> board_is_taken(
                    #[trigger] intended[i],
                    state.settings,
                    accounts,
                    after,
                    files,
                )
        }),
{
    let intended = live_owners(state.claims, now);
    let kept = locks_kept(state.device_locks, restored, intended, accounts);
    let after = devices_synced(state, accounts, now, restored, files).locks;
    let mapped = state.device_locks.map(to_kept(restored, intended, accounts));
    lemma_somes_members(mapped);
    lemma_taking_boards(kept, intended, state.settings, accounts, files);
    law_each_board_has_one_owner(state.claims.filter(live_at(now)));
    assert forall|k: int| 0 <= k < after.len() implies match owner_of(
        intended,
        (#[trigger] after[k]).alias,
    ) {
        Some(user) => match uid_of(accounts, user) {
            Some(uid) => after[k].claimant_uid == uid,
            None => state.device_locks.contains(after[k]),
        },
        None => false,
    } by {
        let lock = after[k];
        if k < kept.len() {
            assert(after.take(kept.len() as int)[k] == kept[k]);
            assert(kept.contains(kept[k]));
            let i = choose|i: int| 0 <= i < mapped.len() && mapped[i] == Some(kept[k]);
            assert(restored[i]);
            assert(state.device_locks.contains(state.device_locks[i]));
        } else {
            assert(lock_follows(lock, intended, accounts));
            let i = choose|i: int|
                0 <= i < intended.len() && (#[trigger] intended[i]).0 == lock.alias && uid_of(
                    accounts,
                    intended[i].1,
                ) == Some(lock.claimant_uid);
            let pred = keyed::<Seq<char>, Seq<char>>(lock.alias);
            assert forall|j: int| 0 <= j < i implies !pred(#[trigger] intended[j]) by {
                assert(intended[j].0 != intended[i].0);
            }
            lemma_first_where_is(intended, pred, i);
        }
    }
}

/// The recorded original ownership of a file survives for as long as its lock does, whoever comes
/// to hold the board, and no file ever gets a second lock. A lock goes only if its file was given
/// back.
pub proof fn law_originals_survive_a_sync(
    state: DiskStateModel,
    accounts: Seq<AccountModel>,
    now: Moment,
    restored: Seq<bool>,
    files: Seq<FileInfoModel>,
)
    requires
        restored.len() == state.device_locks.len(),
        one_lock_per_file(state.device_locks),
    ensures
        ({
            let after = devices_synced(state, accounts, now, restored, files).locks;
            &&& one_lock_per_file(after)
            &&& forall|i: int|
                0 <= i < state.device_locks.len() && !(restored[i] && is_given_back(
                    live_owners(state.claims, now),
                )(#[trigger] state.device_locks[i])) ==> some_item(
                    after,
                    lock_on(state.device_locks[i].path),
                )
            &&& forall|i: int, k: int|
                0 <= i < state.device_locks.len() && 0 <= k < after.len() && (
                #[trigger] state.device_locks[i]).path == (#[trigger] after[k]).path && lock_kept(
                    state.device_locks[i],
                    restored[i],
                    live_owners(state.claims, now),
                    accounts,
                ) is Some ==> {
                    &&& after[k].orig_uid == state.device_locks[i].orig_uid
                    &&& after[k].orig_gid == state.device_locks[i].orig_gid
                    &&& after[k].orig_mode == state.device_locks[i].orig_mode
                }
        }),
{
    let intended = live_owners(state.claims, now);
    let locks = state.device_locks;
    let f = to_kept(restored, intended, accounts);
    let mapped = locks.map(f);
    let kept = somes(mapped);
    lemma_kept_paths(locks, restored, intended, accounts);
    lemma_taking_boards(kept, intended, state.settings, accounts, files);
    lemma_somes_members(mapped);
    let after = devices_synced(state, accounts, now, restored, files).locks;
    assert forall|i: int|
        0 <= i < locks.len() && !(restored[i] && is_given_back(intended)(
            #[trigger] locks[i],
        )) implies some_item(after, lock_on(locks[i].path)) by {
        let lock = lock_kept(locks[i], restored[i], intended, accounts)->0;
        assert(mapped[i] == Some(lock));
        assert(mapped.contains(Some(lock)));
        assert(kept.contains(lock));
        let m = choose|m: int| 0 <= m < kept.len() && kept[m] == lock;
        assert(after.take(kept.len() as int)[m] == after[m]);
        assert(lock_on(locks[i].path)(after[m]));
    }
    assert forall|i: int, k: int|
        0 <= i < locks.len() && 0 <= k < after.len() && (#[trigger] locks[i]).path == (
        #[trigger] after[k]).path && lock_kept(locks[i], restored[i], intended, accounts) is Some implies {
        &&& after[k].orig_uid == locks[i].orig_uid
        &&& after[k].orig_gid == locks[i].orig_gid
        &&& after[k].orig_mode == locks[i].orig_mode
    } by {
        let lock = lock_kept(locks[i], restored[i], intended, accounts)->0;
        assert(mapped[i] == Some(lock));
        assert(mapped.contains(Some(lock)));
        assert(kept.contains(lock));
        let m = choose|m: int| 0 <= m < kept.len() && kept[m] == lock;
        assert(after.take(kept.len() as int)[m] == after[m]);
        if m < k {
            assert(after[m].path != after[k].path);
        } else if k < m {
            assert(after[k].path != after[m].path);
        }
    }
}

proof fn lemma_kept_paths(
    locks: Seq<DeviceLockModel>,
    restored: Seq<bool>,
    intended: Seq<(Seq<char>, Seq<char>)>,
    accounts: Seq<AccountModel>,
)
    requires
        one_lock_per_file(locks),
        restored.len() == locks.len(),
    ensures
        one_lock_per_file(locks_kept(locks, restored, intended, accounts)),
    decreases locks.len(),
{
    if locks.len() > 0 {
        let rest = locks.drop_last();
        let fewer = restored.drop_last();
        let f = to_kept(restored, intended, accounts);
        let g = to_kept(fewer, intended, accounts);
        assert forall|i: int, j: int| 0 <= i < j < rest.len() implies (#[trigger] rest[i]).path != (
        #[trigger] rest[j]).path by {
            assert(locks[i].path != locks[j].path);
        }
        lemma_kept_paths(rest, fewer, intended, accounts);
        assert(locks.map(f).drop_last() =~= rest.map(g));
        let before = somes(rest.map(g));
        let after = somes(locks.map(f));
        lemma_somes_members(rest.map(g));
        assert forall|i: int, j: int| 0 <= i < j < after.len() implies (#[trigger] after[i]).path
            != (#[trigger] after[j]).path by {
            assert(after[i] == before[i]);
            if j < before.len() {
                assert(before[i].path != before[j].path);
            } else {
                assert(before.contains(before[i]));
                let k = choose|k: int| 0 <= k < rest.len() && rest.map(g)[k] == Some(before[i]);
                assert(rest[k] == locks[k]);
                assert(locks[k].path != locks[locks.len() - 1].path);
            }
        }
    }
}

/// A board that `settings` has under `alias` lists the file at `path`.
pub open spec fn lists_file(settings: SettingsModel, alias: Seq<char>, path: Seq<char>) -> bool {
    settings.fpga(alias) matches Some(spec) && spec.devices.contains(path)
}

/// `lock` is on the file at `path`, for a board that lists it, and remembers that the file was
/// like `meta`.
pub open spec fn remembers(
    lock: DeviceLockModel,
    path: Seq<char>,
    meta: Ownership,
    settings: SettingsModel,
) -> bool {
    lock.path == path && original_of(lock) == meta && lists_file(settings, lock.alias, path)
}

/// What hands the file of a fresh lock to its claimant.
pub open spec fn hand_of(lock: DeviceLockModel) -> TakeoverModel {
    TakeoverModel { path: lock.path, uid: lock.claimant_uid, gid: lock.orig_gid }
}

/// A lock remembers what the file at `path` was like, and the file is handed over.
pub open spec fn is_remembered(
    locked: LockingModel,
    path: Seq<char>,
    meta: Ownership,
    settings: SettingsModel,
) -> bool {
    exists|k: int|
        0 <= k < locked.locks.len() && remembers(#[trigger] locked.locks[k], path, meta, settings)
            && locked.taken.contains(hand_of(locked.locks[k]))
}

proof fn lemma_remembered_stays(
    before: LockingModel,
    after: LockingModel,
    path: Seq<char>,
    meta: Ownership,
    settings: SettingsModel,
)
    requires
        is_remembered(before, path, meta, settings),
        before.locks.len() <= after.locks.len(),
        after.locks.take(before.locks.len() as int) == before.locks,
        before.taken.len() <= after.taken.len(),
        after.taken.take(before.taken.len() as int) == before.taken,
    ensures
        is_remembered(after, path, meta, settings),
{
    let k = choose|k: int|
        0 <= k < before.locks.len() && remembers(#[trigger] before.locks[k], path, meta, settings)
            && before.taken.contains(hand_of(before.locks[k]));
    let hand = hand_of(before.locks[k]);
    let t = choose|t: int| 0 <= t < before.taken.len() && before.taken[t] == hand;
    assert(after.locks.take(before.locks.len() as int)[k] == after.locks[k]);
    assert(after.taken.take(before.taken.len() as int)[t] == after.taken[t]);
    assert(after.taken.contains(hand));
}

/// A file that no lock is on gets one where it is among the files that are taken over, and only
/// there.
proof fn lemma_locking_remembers(
    locks: Seq<DeviceLockModel>,
    devices: Seq<Seq<char>>,
    alias: Seq<char>,
    uid: u32,
    files: Seq<FileInfoModel>,
    path: Seq<char>,
    settings: SettingsModel,
)
    requires
        !some_item(locks, lock_on(path)),
        devices.contains(path) ==> lists_file(settings, alias, path),
    ensures
        ({
            let locked = locking_all(locks, devices, alias, uid, files);
            &&& !devices.contains(path) ==> !some_item(locked.locks, lock_on(path))
            &&& devices.contains(path) ==> (file_found(files, path) matches Ok(meta)
                ==> is_remembered(locked, path, meta, settings))
        }),
    decreases devices.len(),
{
    if devices.len() > 0 {
        let rest = devices.drop_last();
        let last = devices.last();
        let before = locking_all(locks, rest, alias, uid, files);
        let after = locking_all(locks, devices, alias, uid, files);
        assert(devices[devices.len() - 1] == last);
        if rest.contains(path) {
            let d = choose|d: int| 0 <= d < rest.len() && rest[d] == path;
            assert(devices[d] == path);
        }
        lemma_locking_remembers(locks, rest, alias, uid, files, path, settings);
        lemma_first_where(before.locks, lock_on(last));
        assert(after.locks.take(before.locks.len() as int) =~= before.locks);
        assert(after.taken.take(before.taken.len() as int) =~= before.taken);
        if devices.contains(path) {
            if let Ok(meta) = file_found(files, path) {
                if rest.contains(path) {
                    lemma_remembered_stays(before, after, path, meta, settings);
                } else {
                    let d = choose|d: int| 0 <= d < devices.len() && devices[d] == path;
                    if d < rest.len() {
                        assert(rest[d] == path);
                    }
                    assert(last == path);
                    let k = after.locks.len() - 1;
                    assert(remembers(after.locks[k], path, meta, settings));
                    assert(after.taken[after.taken.len() - 1] == hand_of(after.locks[k]));
                }
            }
        } else {
            assert forall|i: int| 0 <= i < after.locks.len() implies !lock_on(path)(
                #[trigger] after.locks[i],
            ) by {
                if i < before.locks.len() {
                    assert(after.locks[i] == before.locks[i]);
                    assert(!lock_on(path)(before.locks[i]));
                }
            }
        }
    }
}

/// A file that no lock is on gets one where it belongs to a board that is taken over, and none
/// where it belongs to no such board.
proof fn lemma_taking_remembers(
    locks: Seq<DeviceLockModel>,
    intended: Seq<(Seq<char>, Seq<char>)>,
    settings: SettingsModel,
    accounts: Seq<AccountModel>,
    files: Seq<FileInfoModel>,
    path: Seq<char>,
)
    requires
        !some_item(locks, lock_on(path)),
    ensures
        ({
            let locked = taking_boards(locks, intended, settings, accounts, files);
            &&& (forall|i: int|
                0 <= i < intended.len() ==> !lists_file(settings, (#[trigger] intended[i]).0, path))
                ==> !some_item(locked.locks, lock_on(path))
            &&& file_found(files, path) matches Ok(meta) ==> {
                &&& !some_item(locked.locks, lock_on(path)) || is_remembered(
                    locked,
                    path,
                    meta,
                    settings,
                )
                &&& forall|i: int|
                    0 <= i < intended.len() && lists_file(
                        settings,
                        (#[trigger] intended[i]).0,
                        path,
                    ) && uid_of(accounts, intended[i].1) is Some ==> is_remembered(
                        locked,
                        path,
                        meta,
                        settings,
                    )
            }
        }),
    decreases intended.len(),
{
    if intended.len() > 0 {
        let rest = intended.drop_last();
        let pair = intended.last();
        let before = taking_boards(locks, rest, settings, accounts, files);
        let after = taking_boards(locks, intended, settings, accounts, files);
        assert(intended[intended.len() - 1] == pair);
        assert forall|i: int| 0 <= i < rest.len() implies #[trigger] rest[i] == intended[i] by {}
        lemma_taking_remembers(locks, rest, settings, accounts, files, path);
        lemma_first_where(settings.fpgas, crate::diskstate::with_alias(pair.0));
        if let (Some(uid), Some(spec)) = (uid_of(accounts, pair.1), settings.fpga(pair.0)) {
            let step = locking_all(before.locks, spec.devices, spec.alias, uid, files);
            assert(spec.alias == pair.0);
            lemma_locking_all(before.locks, spec.devices, spec.alias, uid, files);
            if !some_item(before.locks, lock_on(path)) {
                lemma_locking_remembers(
                    before.locks,
                    spec.devices,
                    spec.alias,
                    uid,
                    files,
                    path,
                    settings,
                );
                if let Ok(meta) = file_found(files, path) {
                    if spec.devices.contains(path) {
                        let k = choose|k: int|
                            0 <= k < step.locks.len() && remembers(
                                #[trigger] step.locks[k],
                                path,
                                meta,
                                settings,
                            ) && step.taken.contains(hand_of(step.locks[k]));
                        let hand = hand_of(step.locks[k]);
                        let t = choose|t: int| 0 <= t < step.taken.len() && step.taken[t] == hand;
                        assert(after.taken[before.taken.len() + t] == hand);
                        assert(remembers(after.locks[k], path, meta, settings));
                        assert(is_remembered(after, path, meta, settings));
                    }
                }
            } else if let Ok(meta) = file_found(files, path) {
                assert(after.taken.take(before.taken.len() as int) =~= before.taken);
                lemma_remembered_stays(before, after, path, meta, settings);
            }
        }
        if forall|i: int|
            0 <= i < intended.len() ==> !lists_file(settings, (#[trigger] intended[i]).0, path) {
            assert forall|i: int| 0 <= i < rest.len() implies !lists_file(
                settings,
                (#[trigger] rest[i]).0,
                path,
            ) by {
                assert(!lists_file(settings, intended[i].0, path));
            }
            assert(!lists_file(settings, pair.0, path));
            assert(!some_item(after.locks, lock_on(path)));
        }
        if let Ok(meta) = file_found(files, path) {
            assert forall|i: int|
                0 <= i < intended.len() && lists_file(settings, (#[trigger] intended[i]).0, path)
                    && uid_of(accounts, intended[i].1) is Some implies is_remembered(
                after,
                path,
                meta,
                settings,
            ) by {
                if i < rest.len() {
                    assert(lists_file(settings, rest[i].0, path));
                    assert(is_remembered(before, path, meta, settings));
                    let k = choose|k: int|
                        0 <= k < before.locks.len() && remembers(
                            #[trigger] before.locks[k],
                            path,
                            meta,
                            settings,
                        ) && before.taken.contains(hand_of(before.locks[k]));
                    assert(lock_on(path)(before.locks[k]));
                }
            }
        }
    }
}

/// Where no board that lists a file is claimed, nor the one that its lock names, the file is to be
/// given back, and if it could be, no lock is left on it.
pub proof fn law_an_unclaimed_file_is_given_back(
    state: DiskStateModel,
    accounts: Seq<AccountModel>,
    now: Moment,
    restored: Seq<bool>,
    files: Seq<FileInfoModel>,
    k: int,
)
    requires
        restored.len() == state.device_locks.len(),
        one_lock_per_file(state.device_locks),
        0 <= k < state.device_locks.len(),
        forall|i: int|
            0 <= i < live_owners(state.claims, now).len() ==> {
                &&& (#[trigger] live_owners(state.claims, now)[i]).0
                    != state.device_locks[k].alias
                &&& !lists_file(
                    state.settings,
                    live_owners(state.claims, now)[i].0,
                    state.device_locks[k].path,
                )
            },
    ensures
        is_given_back(live_owners(state.claims, now))(state.device_locks[k]),
        restored[k] ==> !some_item(
            devices_synced(state, accounts, now, restored, files).locks,
            lock_on(state.device_locks[k].path),
        ),
{
    let owners = live_owners(state.claims, now);
    let locks = state.device_locks;
    let path = locks[k].path;
    lemma_first_where(owners, keyed::<Seq<char>, Seq<char>>(locks[k].alias));
    if restored[k] {
        let left = locks_kept(locks, restored, owners, accounts);
        let mapped = locks.map(to_kept(restored, owners, accounts));
        lemma_somes_members(mapped);
        assert forall|i: int| 0 <= i < left.len() implies !lock_on(path)(#[trigger] left[i]) by {
            assert(left.contains(left[i]));
            let j = choose|j: int| 0 <= j < mapped.len() && mapped[j] == Some(left[i]);
            if j < k {
                assert(locks[j].path != locks[k].path);
            } else if k < j {
                assert(locks[k].path != locks[j].path);
            }
        }
        lemma_taking_remembers(left, owners, state.settings, accounts, files, path);
    }
}

/// A file that one pass locks is handed to the claimant of its board, with the group it has. Once no
/// board that lists it is claimed any more it is to be given back, as exactly what it was before;
/// and if it could be, no lock is left on it.
pub proof fn law_a_released_file_is_as_it_was(
    state: DiskStateModel,
    accounts: Seq<AccountModel>,
    now: Moment,
    restored: Seq<bool>,
    files: Seq<FileInfoModel>,
    pair: (Seq<char>, Seq<char>),
    path: Seq<char>,
    claims: Seq<ClaimModel>,
    then: Moment,
    given: Seq<bool>,
    later: Seq<FileInfoModel>,
)
    requires
        restored.len() == state.device_locks.len(),
        one_lock_per_file(state.device_locks),
        !some_item(state.device_locks, lock_on(path)),
        live_owners(state.claims, now).contains(pair),
        uid_of(accounts, pair.1) is Some,
        lists_file(state.settings, pair.0, path),
        file_found(files, path) is Ok,
        forall|i: int|
            0 <= i < live_owners(claims, then).len() ==> !lists_file(
                state.settings,
                (#[trigger] live_owners(claims, then)[i]).0,
                path,
            ),
        given.len() == devices_synced(state, accounts, now, restored, files).locks.len(),
        forall|i: int| 0 <= i < given.len() ==> #[trigger] given[i],
    ensures
        ({
            let synced = devices_synced(state, accounts, now, restored, files);
            let released = DiskStateModel { device_locks: synced.locks, claims, ..state };
            let meta = file_found(files, path)->Ok_0;
            &&& exists|k: int|
                {
                    &&& 0 <= k < synced.locks.len()
                    &&& (#[trigger] synced.locks[k]).path == path
                    &&& original_of(synced.locks[k]) == meta
                    &&& synced.taken.contains(
                        TakeoverModel {
                            path,
                            uid: synced.locks[k].claimant_uid,
                            gid: meta.gid,
                        },
                    )
                    &&& is_given_back(live_owners(claims, then))(synced.locks[k])
                }
            &&& !some_item(
                devices_synced(released, accounts, then, given, later).locks,
                lock_on(path),
            )
        }),
{
    let intended = live_owners(state.claims, now);
    let meta = file_found(files, path)->Ok_0;
    let kept = locks_kept(state.device_locks, restored, intended, accounts);
    let synced = devices_synced(state, accounts, now, restored, files);
    // the first pass locks the file
    lemma_kept_paths(state.device_locks, restored, intended, accounts);
    lemma_no_lock_kept(state.device_locks, restored, intended, accounts, path);
    lemma_taking_boards(kept, intended, state.settings, accounts, files);
    lemma_taking_remembers(kept, intended, state.settings, accounts, files, path);
    let p = choose|p: int| 0 <= p < intended.len() && intended[p] == pair;
    assert(is_remembered(synced, path, meta, state.settings));
    let k = choose|k: int|
        0 <= k < synced.locks.len() && remembers(
            #[trigger] synced.locks[k],
            path,
            meta,
            state.settings,
        ) && synced.taken.contains(hand_of(synced.locks[k]));
    let lock = synced.locks[k];
    assert(hand_of(lock) == (TakeoverModel { path, uid: lock.claimant_uid, gid: meta.gid }));
    // and the second gives it back
    let released = DiskStateModel { device_locks: synced.locks, claims, ..state };
    law_an_unclaimed_file_is_given_back(released, accounts, then, given, later, k);
}

proof fn lemma_no_lock_kept(
    locks: Seq<DeviceLockModel>,
    restored: Seq<bool>,
    intended: Seq<(Seq<char>, Seq<char>)>,
    accounts: Seq<AccountModel>,
    path: Seq<char>,
)
    requires
        !some_item(locks, lock_on(path)),
    ensures
        !some_item(locks_kept(locks, restored, intended, accounts), lock_on(path)),
{
    let mapped = locks.map(to_kept(restored, intended, accounts));
    let kept = somes(mapped);
    lemma_somes_members(mapped);
    assert forall|i: int| 0 <= i < kept.len() implies !lock_on(path)(#[trigger] kept[i]) by {
        assert(kept.contains(kept[i]));
        let j = choose|j: int| 0 <= j < mapped.len() && mapped[j] == Some(kept[i]);
        assert(!lock_on(path)(locks[j]));
    }
}

/// The names that can be claimed here.
pub open spec fn known_resources(settings: SettingsModel) -> Seq<Seq<char>> {
    seq![HOST_RESOURCE@] + settings.aliases()
}

/// The names that can be claimed here: the host, and the alias of every board.
pub fn known_names(state: &DiskState) -> (known: Vec<String>)
    ensures
        views(known@) == known_resources(state@.settings),
{
    let mut known: Vec<String> = Vec::new();
    known.push(HOST_RESOURCE.to_string());
    let ghost first = known@;
    let mut aliases = state.settings.aliases();
    proof {
        lemma_views_add(first, aliases@);
        assert(views(first) =~= seq![HOST_RESOURCE@]);
    }
    known.append(&mut aliases);
    known
}

pub open spec fn unknown_resource_message(
    alias: Seq<char>,
    settings: SettingsModel,
    prog: Seq<char>,
) -> Seq<char> {
    "unknown resource `"@ + alias + "`. Known resources: "@ + join(
        known_resources(settings),
        ", "@,
    ) + ".\nRun `"@ + prog + " discover --write` to register this host's FPGAs."@
}

pub open spec fn to_spec(settings: SettingsModel) -> spec_fn(ResourceModel) -> Option<FpgaSpecModel> {
    |resource: ResourceModel|
        match alias_of(resource) {
            Some(alias) => settings.fpga(alias),
            None => None,
        }
}

/// A board that is not configured on this host.
pub open spec fn is_unknown(settings: SettingsModel) -> spec_fn(ResourceModel) -> bool {
    |resource: ResourceModel|
        alias_of(resource) matches Some(alias) && settings.fpga(alias) is None
}

/// The boards that `resources` names, or a message about the first one that is not configured.
pub open spec fn resolved(
    settings: SettingsModel,
    resources: Seq<ResourceModel>,
    prog: Seq<char>,
) -> Result<Seq<FpgaSpecModel>, Seq<char>> {
    match find_first(resources, is_unknown(settings)) {
        Some(resource) => Err(
            unknown_resource_message(alias_of(resource)->0, settings, prog),
        ),
        None => Ok(somes(resources.map_values(to_spec(settings)))),
    }
}

/// Resolve a resource list to the boards that it names; see [`resolved`]. `prog` is what this
/// program is called.
pub fn resolve<'a>(state: &'a DiskState, resources: &[ResourceId], prog: &str) -> (specs: Result<
    Vec<&'a FpgaSpec>,
    String,
>)
    ensures
        match specs {
            Ok(specs) => resolved(state@.settings, views(resources@), prog@) == Ok::<
                Seq<FpgaSpecModel>,
                Seq<char>,
            >(views(specs@)),
            Err(why) => resolved(state@.settings, views(resources@), prog@) == Err::<
                Seq<FpgaSpecModel>,
                Seq<char>,
            >(why@),
        },
{
    let ghost all = views(resources@);
    let ghost settings = state@.settings;
    let ghost f = to_spec(settings);
    let ghost pred = is_unknown(settings);
    let mut specs: Vec<&'a FpgaSpec> = Vec::new();
    assert(views(specs@) =~= somes(all.take(0).map_values(f)));
    for i in 0..resources.len()
        invariant
            all == views(resources@),
            settings == state@.settings,
            f == to_spec(settings),
            pred == is_unknown(settings),
            views(specs@) == somes(all.take(i as int).map_values(f)),
            forall|j: int| 0 <= j < i ==> !pred(#[trigger] all[j]),
    {
        proof {
            lemma_somes_next(all, i as int, f);
        }
        if let Some(alias) = resources[i].alias() {
            match state.settings.fpga(alias) {
                Some(spec) => {
                    proof {
                        lemma_views_push(specs@, spec);
                    }
                    specs.push(spec);
                },
                None => {
                    proof {
                        lemma_first_where_is(all, pred, i as int);
                    }
                    let mut why = String::new();
                    why.append("unknown resource `");
                    why.append(alias);
                    why.append("`. Known resources: ");
                    why.append(joined(&known_names(state), ", ").as_str());
                    why.append(".\nRun `");
                    why.append(prog);
                    why.append(" discover --write` to register this host's FPGAs.");
                    assert(why@ =~= unknown_resource_message(alias@, settings, prog@));
                    return Err(why);
                },
            }
        }
    }
    proof {
        lemma_take_all(all);
        lemma_first_where_is(all, pred, all.len() as int);
    }
    Ok(specs)
}

/// A process that has a file open.
#[derive(Debug, PartialEq, Eq)]
pub struct Holder {
    pub pid: u32,
    pub uid: u32,
    pub user: String,
    pub cmdline: String,
    pub device: String,
}

#[verifier::ext_equal]
pub struct HolderModel {
    pub pid: u32,
    pub uid: u32,
    pub user: Seq<char>,
    pub cmdline: Seq<char>,
    pub device: Seq<char>,
}

impl View for Holder {
    type V = HolderModel;

    open spec fn view(&self) -> HolderModel {
        HolderModel {
            pid: self.pid,
            uid: self.uid,
            user: self.user@,
            cmdline: self.cmdline@,
            device: self.device@,
        }
    }
}

impl Clone for Holder {
    fn clone(&self) -> (res: Self)
        ensures
            res@ == self@,
    {
        Holder {
            pid: self.pid,
            uid: self.uid,
            user: self.user.clone(),
            cmdline: self.cmdline.clone(),
            device: self.device.clone(),
        }
    }
}

/// One name in the directory of processes, with what lies under it, as far as it could be read.
#[derive(Debug, PartialEq, Eq)]
pub struct Process {
    pub name: String,
    /// What its open files are; None if that is not ours to see.
    pub open_files: Option<Vec<String>>,
    pub status: Option<String>,
    pub cmdline: Option<String>,
}

#[verifier::ext_equal]
pub struct ProcessModel {
    pub name: Seq<char>,
    pub open_files: Option<Seq<Seq<char>>>,
    pub status: Option<Seq<char>>,
    pub cmdline: Option<Seq<char>>,
}

impl View for Process {
    type V = ProcessModel;

    open spec fn view(&self) -> ProcessModel {
        ProcessModel {
            name: self.name@,
            open_files: match self.open_files {
                Some(files) => Some(views(files@)),
                None => None,
            },
            status: opt_view(self.status),
            cmdline: opt_view(self.cmdline),
        }
    }
}

pub open spec fn fitting(n: Option<nat>) -> Option<u32> {
    match n {
        Some(n) => if n <= u32::MAX {
            Some(n as u32)
        } else {
            None
        },
        None => None,
    }
}

pub open spec fn is_uid_line() -> spec_fn(Seq<char>) -> bool {
    |line: Seq<char>| starts_with(line, "Uid:"@)
}

/// The user that a process runs as: the first word behind "Uid:" in its status.
pub open spec fn status_uid(status: Seq<char>) -> Option<u32> {
    match find_first(lines(status), is_uid_line()) {
        Some(line) => {
            let rest = words(line.skip(4));
            if rest.len() > 0 {
                fitting(parsed_number(rest[0]))
            } else {
                None
            }
        },
        None => None,
    }
}

/// A process whose command line says nothing.
pub open spec fn pid_phrase(pid: u32) -> Seq<char> {
    "<pid "@ + decimal(pid as nat) + ">"@
}

/// How a process was called: its arguments, which end in zero characters, with spaces between.
pub open spec fn command_line(raw: Option<Seq<char>>, pid: u32) -> Seq<char> {
    match raw {
        Some(raw) => {
            let text = crate::text::recoded(
                crate::text::without_trailing(raw, '\0'),
                '\0',
                ' ',
            );
            if text.len() == 0 {
                pid_phrase(pid)
            } else {
                text
            }
        },
        None => pid_phrase(pid),
    }
}

pub open spec fn is_one_of(items: Seq<Seq<char>>) -> spec_fn(Seq<char>) -> bool {
    |item: Seq<char>| items.contains(item)
}

/// The process as a holder of one of `devices`: the first of them that it has open counts.
pub open spec fn to_holder(devices: Seq<Seq<char>>, accounts: Seq<AccountModel>) -> spec_fn(
    ProcessModel,
) -> Option<HolderModel> {
    |process: ProcessModel|
        match (fitting(parsed_number(process.name)), process.open_files) {
            (Some(pid), Some(open)) => match find_first(open, is_one_of(devices)) {
                Some(device) => {
                    let uid = match process.status {
                        Some(status) => match status_uid(status) {
                            Some(uid) => uid,
                            None => 0,
                        },
                        None => 0,
                    };
                    Some(
                        HolderModel {
                            pid,
                            uid,
                            user: username_of(accounts, uid),
                            cmdline: command_line(process.cmdline, pid),
                            device,
                        },
                    )
                },
                None => None,
            },
            _ => None,
        }
}

pub open spec fn by_pid() -> spec_fn(HolderModel, HolderModel) -> bool {
    |a: HolderModel, b: HolderModel| a.pid <= b.pid
}

/// The processes that have one of `devices` open, ordered by process id.
pub open spec fn holders_of(
    devices: Seq<Seq<char>>,
    processes: Seq<ProcessModel>,
    accounts: Seq<AccountModel>,
) -> Seq<HolderModel> {
    sorted(somes(processes.map_values(to_holder(devices, accounts))), by_pid())
}

/// Holders are listed by their process id, and each that was seen is listed once.
pub proof fn law_holders_are_listed_by_process(
    devices: Seq<Seq<char>>,
    processes: Seq<ProcessModel>,
    accounts: Seq<AccountModel>,
)
    ensures
        in_order(holders_of(devices, processes, accounts), by_pid()),
        holders_of(devices, processes, accounts).to_multiset() == somes(
            processes.map_values(to_holder(devices, accounts)),
        ).to_multiset(),
{
    lemma_sorted(somes(processes.map_values(to_holder(devices, accounts))), by_pid());
}

/// Whose a process is, from its status file.
pub fn proc_uid(status: &str) -> (uid: Option<u32>)
    ensures
        uid == status_uid(status@),
{
    let all = lines_of(status);
    let ghost pred = is_uid_line();
    for i in 0..all.len()
        invariant
            views(all@) == lines(status@),
            pred == is_uid_line(),
            forall|j: int| 0 <= j < i ==> !pred(#[trigger] views(all@)[j]),
    {
        proof {
            reveal_strlit("Uid:");
        }
        if let Some(rest) = after_prefix(all[i].as_str(), "Uid:") {
            proof {
                lemma_first_where_is(views(all@), pred, i as int);
            }
            let found = words_of(rest.as_str());
            if found.len() == 0 {
                assert(views(found@).len() == 0);
                return None;
            }
            assert(views(found@)[0] == found@[0]@);
            return parse_u32(found[0].as_str());
        }
    }
    proof {
        lemma_first_where_is(views(all@), pred, all@.len() as int);
    }
    None
}

fn proc_cmdline(raw: &Option<String>, pid: u32) -> (out: String)
    ensures
        out@ == command_line(opt_view(*raw), pid),
{
    if let Some(raw) = raw {
        let text = crate::text::recoded_text(raw.as_str(), '\0', ' ');
        if !text.as_str().is_empty() {
            return text;
        }
    }
    let mut out = "<pid ".to_string();
    out.append(decimal_text(pid as u64).as_str());
    out.append(">");
    out
}

fn first_open<'a>(open: &'a [String], devices: &[String]) -> (device: Option<&'a str>)
    ensures
        opt_view(device) == find_first(views(open@), is_one_of(views(devices@))),
{
    let ghost pred = is_one_of(views(devices@));
    for i in 0..open.len()
        invariant
            pred == is_one_of(views(devices@)),
            forall|j: int| 0 <= j < i ==> !pred(#[trigger] views(open@)[j]),
    {
        if is_among(open[i].as_str(), devices) {
            proof {
                lemma_first_where_is(views(open@), pred, i as int);
            }
            return Some(open[i].as_str());
        }
    }
    proof {
        lemma_first_where_is(views(open@), pred, open@.len() as int);
    }
    None
}

fn as_holder(process: &Process, devices: &[String], accounts: &[Account]) -> (holder: Option<
    Holder,
>)
    ensures
        opt_view(holder) == to_holder(views(devices@), views(accounts@))(process@),
{
    let pid: u32 = match parse_u32(process.name.as_str()) {
        Some(pid) => pid,
        None => return None,
    };
    let open = match &process.open_files {
        Some(open) => open,
        None => return None,
    };
    let device = match first_open(open, devices) {
        Some(device) => device.to_string(),
        None => return None,
    };
    let uid: u32 = match &process.status {
        Some(status) => match proc_uid(status.as_str()) {
            Some(uid) => uid,
            None => 0,
        },
        None => 0,
    };
    Some(
        Holder {
            pid,
            uid,
            user: find_username(accounts, uid),
            cmdline: proc_cmdline(&process.cmdline, pid),
            device,
        },
    )
}

fn sorted_by_pid(items: Vec<Holder>) -> (out: Vec<Holder>)
    ensures
        views(out@) == sorted(views(items@), by_pid()),
{
    let ghost le = by_pid();
    let mut out: Vec<Holder> = Vec::new();
    assert(views(out@) =~= Seq::<HolderModel>::empty());
    for i in 0..items.len()
        invariant
            le == by_pid(),
            views(out@) == sorted(views(items@).take(i as int), le),
    {
        let item = items[i].clone();
        let mut at: usize = out.len();
        while at > 0 && out[at - 1].pid > item.pid
            invariant
                at <= out@.len(),
                forall|k: int| at <= k < out@.len() ==> (#[trigger] out@[k]).pid > item.pid,
            decreases at,
        {
            at = at - 1;
        }
        proof {
            let seen = views(out@);
            assert forall|k: int| at <= k < seen.len() implies !le(#[trigger] seen[k], item@) by {
                assert(out@[k].pid > item.pid);
            }
            lemma_insert_at(seen, item@, le, at as int);
            lemma_take_next(views(items@), i as int);
            assert(views(out@.insert(at as int, item)) =~= seen.insert(at as int, item@));
        }
        out.insert(at, item);
    }
    proof {
        lemma_take_all(views(items@));
    }
    out
}

/// Processes that have any of `devices` open; see [`holders_of`].
pub fn holders(devices: &[String], processes: &[Process], accounts: &[Account]) -> (out: Vec<Holder>)
    ensures
        views(out@) == holders_of(views(devices@), views(processes@), views(accounts@)),
{
    let ghost f = to_holder(views(devices@), views(accounts@));
    let mut found: Vec<Holder> = Vec::new();
    assert(views(found@) =~= somes(views(processes@).take(0).map_values(f)));
    for i in 0..processes.len()
        invariant
            f == to_holder(views(devices@), views(accounts@)),
            views(found@) == somes(views(processes@).take(i as int).map_values(f)),
    {
        proof {
            lemma_somes_next(views(processes@), i as int, f);
        }
        if let Some(holder) = as_holder(&processes[i], devices, accounts) {
            proof {
                lemma_views_push(found@, holder);
            }
            found.push(holder);
        }
    }
    proof {
        lemma_take_all(views(processes@));
    }
    sorted_by_pid(found)
}

pub open spec fn is_foreign(my_uid: Option<u32>) -> spec_fn(HolderModel) -> bool {
    |holder: HolderModel| my_uid != Some(holder.uid)
}

/// The holders that run as somebody else. Without an own user id, that is all of them.
pub fn foreign_holders(holders: &[Holder], my_uid: Option<u32>) -> (foreign: Vec<Holder>)
    ensures
        views(foreign@) == views(holders@).filter(is_foreign(my_uid)),
{
    let ghost pred = is_foreign(my_uid);
    let ghost all = views(holders@);
    let mut out: Vec<Holder> = Vec::new();
    proof {
        reveal(Seq::filter);
        assert(views(out@) =~= all.take(0).filter(pred));
    }
    for i in 0..holders.len()
        invariant
            pred == is_foreign(my_uid),
            all == views(holders@),
            views(out@) == all.take(i as int).filter(pred),
    {
        proof {
            lemma_filter_next(all, i as int, pred);
        }
        let mine = match my_uid {
            Some(uid) => uid == holders[i].uid,
            None => false,
        };
        if !mine {
            let holder = holders[i].clone();
            proof {
                lemma_views_push(out@, holder);
            }
            out.push(holder);
        }
    }
    proof {
        lemma_take_all(all);
    }
    out
}

} // verus!
