//! What holds of boards and their files: who owns a board, who uses it, and what is locked.
use vstd::prelude::*;
use crate::cable::{board_files, is_valid_serial, looked_up, to_cable_paths, HostModel};
use crate::claiming::{foreign_users, watched_files};
use crate::clock::Moment;
use crate::diskstate::{
    live_at, with_alias, ClaimModel, DeviceLockModel, DiskStateModel, FpgaSpecModel, Ownership,
    ResourceModel, SettingsModel,
};
use crate::fpga::{
    account_named, devices_synced, file_at, file_found, holders_of, is_drifted, is_foreign,
    is_in_hand, is_one_of, live_owners, locking_all, locks_kept, status_uid, takes, taking_boards,
    to_holder, to_owner, to_owners, uid_of, AccountModel, FileInfoModel, HolderModel, LockingModel,
    ProcessModel,
};
use crate::laws_of_claims::has_board;
use crate::seqs::{
    concat_all, first_of_each, first_where, insert_in_order, keyed, lemma_concat_members,
    lemma_filter_members, lemma_first_of_each, lemma_first_where, lemma_somes_members, some_item,
    somes, sorted,
};
use crate::text::parsed_number;

verus! {

/// Putting items in order neither loses nor adds one.
pub proof fn lemma_sorted_members<A>(items: Seq<A>, le: spec_fn(A, A) -> bool)
    ensures
        sorted(items, le).len() == items.len(),
        forall|x: A| #[trigger] sorted(items, le).contains(x) <==> items.contains(x),
    decreases items.len(),
{
    if items.len() > 0 {
        let rest = items.drop_last();
        let last = items.last();
        lemma_sorted_members(rest, le);
        lemma_inserted_members(sorted(rest, le), last, le);
        assert forall|x: A| #[trigger] sorted(items, le).contains(x) <==> items.contains(x) by {
            if items.contains(x) {
                let i = choose|i: int| 0 <= i < items.len() && items[i] == x;
                if i < rest.len() {
                    assert(rest[i] == x);
                    assert(rest.contains(x));
                }
                assert(sorted(rest, le).contains(x) || x == last);
            }
            if sorted(items, le).contains(x) && x != last {
                assert(rest.contains(x));
                let i = choose|i: int| 0 <= i < rest.len() && rest[i] == x;
                assert(items[i] == x);
            }
            if x == last {
                assert(items[items.len() - 1] == x);
            }
        }
    }
}

pub proof fn lemma_inserted_members<A>(items: Seq<A>, x: A, le: spec_fn(A, A) -> bool)
    ensures
        insert_in_order(items, x, le).len() == items.len() + 1,
        forall|y: A| #[trigger]
            insert_in_order(items, x, le).contains(y) <==> items.contains(y) || y == x,
    decreases items.len(),
{
    let out = insert_in_order(items, x, le);
    if items.len() == 0 {
        assert(out =~= seq![x]);
        assert(out[0] == x);
    } else if le(items.last(), x) {
        assert forall|y: A| #[trigger] out.contains(y) <==> items.contains(y) || y == x by {
            if items.contains(y) {
                let i = choose|i: int| 0 <= i < items.len() && items[i] == y;
                assert(out[i] == y);
            }
            assert(out[items.len() as int] == x);
            if out.contains(y) && y != x {
                let i = choose|i: int| 0 <= i < out.len() && out[i] == y;
                assert(items[i] == y);
            }
        }
    } else {
        let rest = items.drop_last();
        let before = insert_in_order(rest, x, le);
        lemma_inserted_members(rest, x, le);
        assert forall|y: A| #[trigger] out.contains(y) <==> items.contains(y) || y == x by {
            if items.contains(y) || y == x {
                if y == items.last() {
                    assert(out[out.len() - 1] == y);
                } else {
                    if y != x {
                        let i = choose|i: int| 0 <= i < items.len() && items[i] == y;
                        assert(rest[i] == y);
                        assert(rest.contains(y));
                    }
                    assert(before.contains(y));
                    let i = choose|i: int| 0 <= i < before.len() && before[i] == y;
                    assert(out[i] == y);
                }
            }
            if out.contains(y) {
                let i = choose|i: int| 0 <= i < out.len() && out[i] == y;
                if i < before.len() {
                    assert(before[i] == y);
                    assert(before.contains(y));
                    if rest.contains(y) {
                        let j = choose|j: int| 0 <= j < rest.len() && rest[j] == y;
                        assert(items[j] == y);
                    }
                } else {
                    assert(items[items.len() - 1] == y);
                }
            }
        }
    }
}

/// An alias means the first board that goes by it, and there is such a board whenever any board
/// goes by it.
pub proof fn law_an_alias_means_its_first_board(settings: SettingsModel, alias: Seq<char>)
    ensures
        settings.fpga(alias) is Some <==> has_board(settings, alias),
        settings.fpga(alias) matches Some(spec) ==> spec.alias == alias && exists|i: int|
            0 <= i < settings.fpgas.len() && #[trigger] settings.fpgas[i] == spec && forall|j: int|
                0 <= j < i ==> (#[trigger] settings.fpgas[j]).alias != alias,
{
    let pred = with_alias(alias);
    let at = first_where(settings.fpgas, pred);
    lemma_first_where(settings.fpgas, pred);
    if has_board(settings, alias) {
        let i = choose|i: int|
            0 <= i < settings.fpgas.len() && (#[trigger] settings.fpgas[i]).alias == alias;
        assert(pred(settings.fpgas[i]));
    }
    if at < settings.fpgas.len() {
        assert(settings.fpgas[at].alias == alias);
        assert forall|j: int| 0 <= j < at implies (#[trigger] settings.fpgas[j]).alias != alias by {
            assert(!pred(settings.fpgas[j]));
        }
    }
}

/// A user has the id of the first account of that name, and none if there is no such account.
pub proof fn law_a_name_means_its_account(accounts: Seq<AccountModel>, name: Seq<char>)
    ensures
        uid_of(accounts, name) is None <==> forall|i: int|
            0 <= i < accounts.len() ==> (#[trigger] accounts[i]).name != name,
        uid_of(accounts, name) matches Some(uid) ==> exists|i: int|
            0 <= i < accounts.len() && (#[trigger] accounts[i]).name == name && accounts[i].uid
                == uid && forall|j: int| 0 <= j < i ==> (#[trigger] accounts[j]).name != name,
{
    let pred = account_named(name);
    let at = first_where(accounts, pred);
    lemma_first_where(accounts, pred);
    assert forall|i: int| 0 <= i < accounts.len() implies pred(#[trigger] accounts[i]) == (
    accounts[i].name == name) by {}
    if at < accounts.len() {
        assert(accounts[at].name == name);
        assert forall|j: int| 0 <= j < at implies (#[trigger] accounts[j]).name != name by {
            assert(!pred(accounts[j]));
        }
    }
}

/// What is known of a file is what was seen of it: its owner, its group and its permission bits.
pub proof fn law_a_file_is_known_as_it_was_seen(files: Seq<FileInfoModel>, i: int)
    requires
        0 <= i < files.len(),
        forall|j: int| 0 <= j < i ==> (#[trigger] files[j]).path != files[i].path,
    ensures
        match files[i].found {
            Ok(seen) => {
                &&& file_found(files, files[i].path) matches Ok(meta)
                &&& meta.uid == seen.uid
                &&& meta.gid == seen.gid
                &&& meta.mode == seen.mode % 4096
            },
            Err(why) => file_found(files, files[i].path) == Err::<Ownership, Seq<char>>(why),
        },
{
    let pred = file_at(files[i].path);
    assert forall|j: int| 0 <= j < i implies !pred(#[trigger] files[j]) by {}
    crate::seqs::lemma_first_where_is(files, pred, i);
    if let Ok(seen) = files[i].found {
        let mode = seen.mode;
        assert(mode & 0o7777u32 == mode % 4096) by (bit_vector);
    }
}

proof fn lemma_first_of_each_added<K, V>(a: Seq<(K, V)>, b: Seq<(K, V)>)
    ensures
        forall|p: (K, V)| #[trigger]
            first_of_each(a + b).contains(p) <==> first_of_each(a).contains(p) || (!some_item(
                a,
                keyed(p.0),
            ) && first_of_each(b).contains(p)),
    decreases b.len(),
{
    if b.len() == 0 {
        assert(a + b =~= a);
    } else {
        let rest = b.drop_last();
        let last = b.last();
        lemma_first_of_each_added(a, rest);
        assert((a + b).drop_last() =~= a + rest);
        let before = first_of_each(a + rest);
        let after = first_of_each(a + b);
        lemma_first_of_each(a);
        lemma_first_of_each(rest);
        lemma_first_of_each(a + rest);
        let key = keyed::<K, V>(last.0);
        // the key is new to the whole exactly if it is new to both parts
        assert(some_item(before, key) == (some_item(a, key) || some_item(first_of_each(rest), key)))
            by {
            if some_item(before, key) {
                let i = choose|i: int| 0 <= i < before.len() && key(#[trigger] before[i]);
                assert((a + rest).contains(before[i]));
                let j = choose|j: int| 0 <= j < (a + rest).len() && (a + rest)[j] == before[i];
                if j < a.len() {
                    assert(key(a[j]));
                } else {
                    assert(rest[j - a.len()].0 == last.0);
                    assert(some_item(first_of_each(rest), keyed(rest[j - a.len()].0)));
                }
            }
            if some_item(a, key) {
                let i = choose|i: int| 0 <= i < a.len() && key(#[trigger] a[i]);
                assert((a + rest)[i] == a[i]);
                assert(some_item(before, keyed((a + rest)[i].0)));
            }
            if some_item(first_of_each(rest), key) {
                let i = choose|i: int|
                    0 <= i < first_of_each(rest).len() && key(#[trigger] first_of_each(rest)[i]);
                assert(rest.contains(first_of_each(rest)[i]));
                let j = choose|j: int| 0 <= j < rest.len() && rest[j] == first_of_each(rest)[i];
                assert((a + rest)[a.len() + j] == rest[j]);
                assert(some_item(before, keyed((a + rest)[a.len() + j].0)));
            }
        }
        assert forall|p: (K, V)| #[trigger] after.contains(p) <==> first_of_each(a).contains(p) || (
        !some_item(a, keyed(p.0)) && first_of_each(b).contains(p)) by {
            let mid = first_of_each(rest);
            let full = first_of_each(b);
            if some_item(before, key) {
                assert(after == before);
                if some_item(mid, key) {
                    assert(full == mid);
                } else {
                    assert(full == mid.push(last));
                    if full.contains(p) && !mid.contains(p) {
                        let i = choose|i: int| 0 <= i < full.len() && full[i] == p;
                        if i < mid.len() {
                            assert(mid[i] == p);
                        }
                        assert(p == last);
                    }
                    if mid.contains(p) {
                        let i = choose|i: int| 0 <= i < mid.len() && mid[i] == p;
                        assert(full[i] == p);
                    }
                }
            } else {
                assert(after == before.push(last));
                assert(full == mid.push(last));
                assert(after[before.len() as int] == last);
                assert(full[mid.len() as int] == last);
                if before.contains(p) {
                    let i = choose|i: int| 0 <= i < before.len() && before[i] == p;
                    assert(after[i] == p);
                }
                if after.contains(p) && p != last {
                    let i = choose|i: int| 0 <= i < after.len() && after[i] == p;
                    assert(before[i] == p);
                    assert(before.contains(p));
                }
                if mid.contains(p) {
                    let i = choose|i: int| 0 <= i < mid.len() && mid[i] == p;
                    assert(full[i] == p);
                }
                if full.contains(p) && p != last {
                    let i = choose|i: int| 0 <= i < full.len() && full[i] == p;
                    assert(mid[i] == p);
                    assert(mid.contains(p));
                }
                if first_of_each(a).contains(last) {
                    let i = choose|i: int|
                        0 <= i < first_of_each(a).len() && first_of_each(a)[i] == last;
                    assert(a.contains(first_of_each(a)[i]));
                    let j = choose|j: int| 0 <= j < a.len() && a[j] == last;
                    assert(key(a[j]));
                }
            }
        }
    }
}

/// An exclusive claim on the board that has not run out.
pub open spec fn holds_board(claim: ClaimModel, alias: Seq<char>, now: Moment) -> bool {
    claim.exclusive && claim.timeout.after(now) && claim.resources.contains(
        ResourceModel::Fpga(alias),
    )
}

/// The claim `c` is the first that holds the board.
pub open spec fn is_first_to_hold(
    claims: Seq<ClaimModel>,
    c: int,
    alias: Seq<char>,
    now: Moment,
) -> bool {
    &&& 0 <= c < claims.len()
    &&& holds_board(claims[c], alias, now)
    &&& forall|d: int| 0 <= d < c ==> !holds_board(#[trigger] claims[d], alias, now)
}

proof fn lemma_owned_by(claim: ClaimModel, pair: (Seq<char>, Seq<char>))
    ensures
        to_owners()(claim).contains(pair) <==> claim.exclusive && pair.1 == claim.user
            && claim.resources.contains(ResourceModel::Fpga(pair.0)),
        first_of_each(to_owners()(claim)).contains(pair) <==> to_owners()(claim).contains(pair),
{
    let mapped = claim.resources.map_values(to_owner(claim.user));
    let pairs = to_owners()(claim);
    lemma_somes_members(mapped);
    assert(pairs.contains(pair) <==> claim.exclusive && pair.1 == claim.user
        && claim.resources.contains(ResourceModel::Fpga(pair.0))) by {
        if claim.exclusive {
            if mapped.contains(Some(pair)) {
                let i = choose|i: int| 0 <= i < mapped.len() && mapped[i] == Some(pair);
                assert(claim.resources[i] == ResourceModel::Fpga(pair.0));
            }
            if pair.1 == claim.user && claim.resources.contains(ResourceModel::Fpga(pair.0)) {
                let i = choose|i: int|
                    0 <= i < claim.resources.len() && claim.resources[i] == ResourceModel::Fpga(
                        pair.0,
                    );
                assert(mapped[i] == Some(pair));
            }
        }
    }
    let first = first_of_each(pairs);
    lemma_first_of_each(pairs);
    if first.contains(pair) {
        let i = choose|i: int| 0 <= i < first.len() && first[i] == pair;
        assert(pairs.contains(first[i]));
    }
    if pairs.contains(pair) {
        let i = choose|i: int| 0 <= i < pairs.len() && pairs[i] == pair;
        assert(some_item(first, keyed(pairs[i].0)));
        let k = choose|k: int|
            0 <= k < first.len() && keyed::<Seq<char>, Seq<char>>(pair.0)(#[trigger] first[k]);
        assert(pairs.contains(first[k]));
        // every pair of one claim names the same user
        assert(mapped.contains(Some(first[k])));
        let j = choose|j: int| 0 <= j < mapped.len() && mapped[j] == Some(first[k]);
        assert(first[k].1 == claim.user);
        assert(first[k] == pair);
    }
}

/// Each board belongs to the first claim that holds it: the boards of every live exclusive claim are
/// owned, by its user unless somebody came first, and nobody else owns a board.
pub proof fn law_every_held_board_is_owned(
    claims: Seq<ClaimModel>,
    now: Moment,
    alias: Seq<char>,
    user: Seq<char>,
)
    ensures
        live_owners(claims, now).contains((alias, user)) <==> exists|c: int|
            #[trigger] is_first_to_hold(claims, c, alias, now) && claims[c].user == user,
        some_item(live_owners(claims, now), keyed(alias)) <==> exists|c: int|
            0 <= c < claims.len() && holds_board(#[trigger] claims[c], alias, now),
    decreases claims.len(),
{
    let pair = (alias, user);
    reveal(Seq::filter);
    if claims.len() == 0 {
        assert(claims.filter(live_at(now)) =~= Seq::empty());
        assert(live_owners(claims, now) =~= Seq::empty());
    } else {
        let rest = claims.drop_last();
        let last = claims.last();
        law_every_held_board_is_owned(rest, now, alias, user);
        lemma_owned_by(last, pair);
        let live = rest.filter(live_at(now));
        let a = concat_all(live.map_values(to_owners()));
        let b = to_owners()(last);
        let key = keyed::<Seq<char>, Seq<char>>(alias);
        lemma_first_of_each(a);
        lemma_first_of_each(b);
        assert(some_item(a, key) == some_item(first_of_each(a), key)) by {
            if some_item(a, key) {
                let i = choose|i: int| 0 <= i < a.len() && key(#[trigger] a[i]);
                assert(some_item(first_of_each(a), keyed(a[i].0)));
            }
            if some_item(first_of_each(a), key) {
                let i = choose|i: int|
                    0 <= i < first_of_each(a).len() && key(#[trigger] first_of_each(a)[i]);
                assert(a.contains(first_of_each(a)[i]));
                let j = choose|j: int| 0 <= j < a.len() && a[j] == first_of_each(a)[i];
                assert(key(a[j]));
            }
        }
        let after = live_owners(claims, now);
        if last.timeout.after(now) {
            assert(claims.filter(live_at(now)) =~= live.push(last));
            assert(live.push(last).map_values(to_owners()) =~= live.map_values(to_owners()).push(b));
            assert(live.map_values(to_owners()).push(b).drop_last() =~= live.map_values(to_owners()));
            assert(after == first_of_each(a + b));
            lemma_first_of_each_added(a, b);
        } else {
            assert(claims.filter(live_at(now)) =~= live);
            assert(after == first_of_each(a));
        }
        let held = exists|c: int| 0 <= c < rest.len() && holds_board(#[trigger] rest[c], alias, now);
        assert(some_item(a, key) == held);
        let owned = exists|c: int|
            #[trigger] is_first_to_hold(claims, c, alias, now) && claims[c].user == user;
        let owned_before = exists|c: int|
            #[trigger] is_first_to_hold(rest, c, alias, now) && rest[c].user == user;
        assert(owned == (owned_before || (!held && holds_board(last, alias, now) && last.user
            == user))) by {
            assert forall|c: int| 0 <= c < rest.len() implies #[trigger] is_first_to_hold(
                claims,
                c,
                alias,
                now,
            ) == is_first_to_hold(rest, c, alias, now) by {
                assert(claims[c] == rest[c]);
                assert forall|d: int| 0 <= d < c implies claims[d] == rest[d] by {}
                if is_first_to_hold(claims, c, alias, now) {
                    assert forall|d: int| 0 <= d < c implies !holds_board(
                        #[trigger] rest[d],
                        alias,
                        now,
                    ) by {
                        assert(!holds_board(claims[d], alias, now));
                    }
                }
                if is_first_to_hold(rest, c, alias, now) {
                    assert forall|d: int| 0 <= d < c implies !holds_board(
                        #[trigger] claims[d],
                        alias,
                        now,
                    ) by {
                        assert(!holds_board(rest[d], alias, now));
                    }
                }
            }
            if owned {
                let c = choose|c: int|
                    #[trigger] is_first_to_hold(claims, c, alias, now) && claims[c].user == user;
                if c < rest.len() {
                    assert(is_first_to_hold(rest, c, alias, now));
                } else if held {
                    let d = choose|d: int|
                        0 <= d < rest.len() && holds_board(#[trigger] rest[d], alias, now);
                    assert(!holds_board(claims[d], alias, now));
                }
            }
            if owned_before {
                let c = choose|c: int|
                    #[trigger] is_first_to_hold(rest, c, alias, now) && rest[c].user == user;
                assert(is_first_to_hold(claims, c, alias, now));
            }
            if !held && holds_board(last, alias, now) && last.user == user {
                let c = claims.len() - 1;
                assert forall|d: int| 0 <= d < c implies !holds_board(
                    #[trigger] claims[d],
                    alias,
                    now,
                ) by {
                    assert(!holds_board(rest[d], alias, now));
                }
                assert(is_first_to_hold(claims, c, alias, now));
            }
        }
        // whoever holds it, the board is among the owned ones
        let holds_now = exists|c: int|
            0 <= c < claims.len() && holds_board(#[trigger] claims[c], alias, now);
        assert(holds_now == (held || holds_board(last, alias, now))) by {
            if held {
                let c = choose|c: int|
                    0 <= c < rest.len() && holds_board(#[trigger] rest[c], alias, now);
                assert(holds_board(claims[c], alias, now));
            }
            if holds_board(last, alias, now) {
                assert(holds_board(claims[claims.len() - 1], alias, now));
            }
            if holds_now {
                let c = choose|c: int|
                    0 <= c < claims.len() && holds_board(#[trigger] claims[c], alias, now);
                if c < rest.len() {
                    assert(holds_board(rest[c], alias, now));
                }
            }
        }
        assert(some_item(after, key) == holds_now) by {
            if held {
                assert(some_item(first_of_each(a), key));
                let i = choose|i: int|
                    0 <= i < first_of_each(a).len() && key(#[trigger] first_of_each(a)[i]);
                let p = first_of_each(a)[i];
                assert(first_of_each(a).contains(p));
                assert(after.contains(p));
                let k = choose|k: int| 0 <= k < after.len() && after[k] == p;
                assert(key(after[k]));
            } else if holds_board(last, alias, now) {
                let p = (alias, last.user);
                lemma_owned_by(last, p);
                assert(first_of_each(b).contains(p));
                assert(after.contains(p));
                let k = choose|k: int| 0 <= k < after.len() && after[k] == p;
                assert(key(after[k]));
            }
            if some_item(after, key) {
                let k = choose|k: int| 0 <= k < after.len() && key(#[trigger] after[k]);
                let p = after[k];
                assert(after.contains(p));
                if first_of_each(a).contains(p) {
                    let i = choose|i: int|
                        0 <= i < first_of_each(a).len() && first_of_each(a)[i] == p;
                    assert(key(first_of_each(a)[i]));
                } else {
                    lemma_owned_by(last, p);
                    assert(first_of_each(b).contains(p));
                }
            }
        }
    }
}

/// Nothing that was locked, taken or reported is lost on the way from `a` to `b`.
pub open spec fn goes_on(a: LockingModel, b: LockingModel) -> bool {
    &&& a.locks.is_prefix_of(b.locks)
    &&& a.taken.is_prefix_of(b.taken)
    &&& a.failures.is_prefix_of(b.failures)
}

/// The file is not there, or is locked for somebody else.
pub open spec fn is_out_of_reach(
    path: Seq<char>,
    uid: u32,
    locked: LockingModel,
    files: Seq<FileInfoModel>,
) -> bool {
    file_found(files, path) is Err || exists|i: int|
        0 <= i < locked.locks.len() && (#[trigger] locked.locks[i]).path == path
            && locked.locks[i].claimant_uid != uid
}

/// The file is in hand; or it is out of reach, and what is reported says so.
pub open spec fn is_answered_for(
    path: Seq<char>,
    uid: u32,
    before: Seq<char>,
    locked: LockingModel,
    files: Seq<FileInfoModel>,
) -> bool {
    is_in_hand(path, uid, locked, files) || (is_out_of_reach(path, uid, locked, files) && exists|
        why: Seq<char>,
    | #[trigger]
        locked.failures.contains(before + (path + why)))
}

proof fn lemma_answer_stays(
    path: Seq<char>,
    uid: u32,
    before: Seq<char>,
    a: LockingModel,
    b: LockingModel,
    files: Seq<FileInfoModel>,
)
    requires
        is_answered_for(path, uid, before, a, files),
        goes_on(a, b),
    ensures
        is_answered_for(path, uid, before, b, files),
{
    if is_in_hand(path, uid, a, files) {
        let i = choose|i: int|
            0 <= i < a.locks.len() && (#[trigger] a.locks[i]).path == path
                && a.locks[i].claimant_uid == uid;
        assert(b.locks[i] == a.locks[i]);
        if !(file_found(files, path) matches Ok(meta) && crate::fpga::is_locked_for(uid, meta)) {
            let j = choose|j: int|
                0 <= j < a.taken.len() && (#[trigger] a.taken[j]).path == path && a.taken[j].uid
                    == uid;
            assert(b.taken[j] == a.taken[j]);
        }
        assert(is_in_hand(path, uid, b, files));
    } else {
        let why = choose|why: Seq<char>| #[trigger] a.failures.contains(before + (path + why));
        let i = choose|i: int|
            0 <= i < a.failures.len() && a.failures[i] == before + (path + why);
        assert(b.failures[i] == a.failures[i]);
        assert(b.failures.contains(before + (path + why)));
        if file_found(files, path) is Ok {
            let l = choose|l: int|
                0 <= l < a.locks.len() && (#[trigger] a.locks[l]).path == path
                    && a.locks[l].claimant_uid != uid;
            assert(b.locks[l] == a.locks[l]);
        }
        assert(is_out_of_reach(path, uid, b, files));
    }
}

proof fn lemma_every_file_answered(
    locks: Seq<DeviceLockModel>,
    devices: Seq<Seq<char>>,
    alias: Seq<char>,
    uid: u32,
    files: Seq<FileInfoModel>,
)
    ensures
        ({
            let locked = locking_all(locks, devices, alias, uid, files);
            &&& locks.is_prefix_of(locked.locks)
            &&& forall|d: int|
                0 <= d < devices.len() ==> is_answered_for(
                    #[trigger] devices[d],
                    uid,
                    Seq::empty(),
                    locked,
                    files,
                )
            &&& forall|t: int|
                0 <= t < locked.taken.len() ==> (#[trigger] locked.taken[t]).uid == uid
                    && devices.contains(locked.taken[t].path)
        }),
    decreases devices.len(),
{
    let locked = locking_all(locks, devices, alias, uid, files);
    if devices.len() > 0 {
        let rest = devices.drop_last();
        let path = devices.last();
        let sofar = locking_all(locks, rest, alias, uid, files);
        lemma_every_file_answered(locks, rest, alias, uid, files);
        assert(goes_on(sofar, locked));
        let held = crate::fpga::lock_on(path);
        lemma_first_where(sofar.locks, held);
        assert(is_answered_for(path, uid, Seq::empty(), locked, files)) by {
            let none = Seq::<char>::empty();
            let at = first_where(sofar.locks, held);
            let n = sofar.failures.len() as int;
            if at < sofar.locks.len() {
                let lock = sofar.locks[at];
                assert(held(lock));
                assert(locked.locks[at] == lock);
                if lock.claimant_uid != uid {
                    let why = ": already locked for uid "@ + crate::text::decimal(
                        lock.claimant_uid as nat,
                    );
                    assert(locked.failures[n] =~= none + (path + why));
                    assert(locked.failures.contains(none + (path + why)));
                    assert(locked.locks[at].path == path && locked.locks[at].claimant_uid != uid);
                    assert(is_out_of_reach(path, uid, locked, files));
                } else {
                    match file_found(files, path) {
                        Ok(meta) => {
                            if crate::fpga::is_locked_for(uid, meta) {
                            } else if some_item(sofar.taken, takes(path)) {
                                let t = choose|t: int|
                                    0 <= t < sofar.taken.len() && takes(path)(
                                        #[trigger] sofar.taken[t],
                                    );
                                assert(locked.taken[t].path == path && locked.taken[t].uid == uid);
                            } else {
                                let t = sofar.taken.len() as int;
                                assert(locked.taken[t].path == path && locked.taken[t].uid == uid);
                            }
                            assert(is_in_hand(path, uid, locked, files));
                        },
                        Err(why) => {
                            assert(locked.failures[n] =~= none + (path + (": "@ + why)));
                            assert(locked.failures.contains(none + (path + (": "@ + why))));
                        },
                    }
                }
            } else {
                match file_found(files, path) {
                    Ok(meta) => {
                        let l = sofar.locks.len() as int;
                        let t = sofar.taken.len() as int;
                        assert(locked.locks[l].path == path && locked.locks[l].claimant_uid == uid);
                        assert(locked.taken[t].path == path && locked.taken[t].uid == uid);
                        assert(is_in_hand(path, uid, locked, files));
                    },
                    Err(why) => {
                        assert(locked.failures[n] =~= none + (path + (": "@ + why)));
                        assert(locked.failures.contains(none + (path + (": "@ + why))));
                    },
                }
            }
        }
        assert forall|d: int| 0 <= d < devices.len() implies is_answered_for(
            #[trigger] devices[d],
            uid,
            Seq::empty(),
            locked,
            files,
        ) by {
            if d < rest.len() {
                assert(rest[d] == devices[d]);
                lemma_answer_stays(devices[d], uid, Seq::empty(), sofar, locked, files);
            }
        }
        assert forall|t: int| 0 <= t < locked.taken.len() implies (#[trigger] locked.taken[t]).uid
            == uid && devices.contains(locked.taken[t].path) by {
            if t < sofar.taken.len() {
                assert(locked.taken[t] == sofar.taken[t]);
                let d = choose|d: int| 0 <= d < rest.len() && rest[d] == sofar.taken[t].path;
                assert(devices[d] == sofar.taken[t].path);
            } else {
                assert(devices[devices.len() - 1] == path);
            }
        }
    }
}

/// What is reported of a board begins with this.
pub open spec fn board_warning(alias: Seq<char>) -> Seq<char> {
    "WARN: enforcement failed for "@ + alias + ": "@
}

/// The board of the pair lists the file, and its user has this id.
pub open spec fn is_due(
    pair: (Seq<char>, Seq<char>),
    path: Seq<char>,
    uid: u32,
    settings: SettingsModel,
    accounts: Seq<AccountModel>,
) -> bool {
    &&& uid_of(accounts, pair.1) == Some(uid)
    &&& settings.fpga(pair.0) matches Some(spec)
    &&& spec.devices.contains(path)
}

proof fn lemma_every_board_answered(
    locks: Seq<DeviceLockModel>,
    intended: Seq<(Seq<char>, Seq<char>)>,
    settings: SettingsModel,
    accounts: Seq<AccountModel>,
    files: Seq<FileInfoModel>,
)
    ensures
        ({
            let locked = taking_boards(locks, intended, settings, accounts, files);
            &&& forall|i: int, path: Seq<char>, uid: u32|
                0 <= i < intended.len() && #[trigger] is_due(
                    intended[i],
                    path,
                    uid,
                    settings,
                    accounts,
                ) ==> is_answered_for(path, uid, board_warning(intended[i].0), locked, files)
            &&& forall|t: int|
                0 <= t < locked.taken.len() ==> exists|i: int|
                    0 <= i < intended.len() && is_due(
                        #[trigger] intended[i],
                        (#[trigger] locked.taken[t]).path,
                        locked.taken[t].uid,
                        settings,
                        accounts,
                    )
        }),
    decreases intended.len(),
{
    let locked = taking_boards(locks, intended, settings, accounts, files);
    if intended.len() > 0 {
        let rest = intended.drop_last();
        let pair = intended.last();
        let sofar = taking_boards(locks, rest, settings, accounts, files);
        lemma_every_board_answered(locks, rest, settings, accounts, files);
        let warning = board_warning(pair.0);
        match (uid_of(accounts, pair.1), settings.fpga(pair.0)) {
            (Some(uid), Some(spec)) => {
                let here = locking_all(sofar.locks, spec.devices, spec.alias, uid, files);
                lemma_every_file_answered(sofar.locks, spec.devices, spec.alias, uid, files);
                assert(goes_on(sofar, locked));
                let told = here.failures.map_values(crate::fpga::enforcement_failure(pair.0));
                assert(locked.failures == sofar.failures + told);
                assert forall|path: Seq<char>| #[trigger]
                    spec.devices.contains(path) implies is_answered_for(
                    path,
                    uid,
                    warning,
                    locked,
                    files,
                ) by {
                    let d = choose|d: int| 0 <= d < spec.devices.len() && spec.devices[d] == path;
                    assert(is_answered_for(spec.devices[d], uid, Seq::empty(), here, files));
                    if is_in_hand(path, uid, here, files) {
                        if !(file_found(files, path) matches Ok(meta)
                            && crate::fpga::is_locked_for(uid, meta)) {
                            let j = choose|j: int|
                                0 <= j < here.taken.len() && (#[trigger] here.taken[j]).path == path
                                    && here.taken[j].uid == uid;
                            assert(locked.taken[sofar.taken.len() + j] == here.taken[j]);
                        }
                        assert(is_in_hand(path, uid, locked, files));
                    } else {
                        let none = Seq::<char>::empty();
                        let why = choose|why: Seq<char>| #[trigger]
                            here.failures.contains(none + (path + why));
                        let f = choose|f: int|
                            0 <= f < here.failures.len() && here.failures[f] == none + (path + why);
                        assert(told[f] =~= warning + (path + why));
                        assert(locked.failures[sofar.failures.len() + f] == told[f]);
                        assert(locked.failures.contains(warning + (path + why)));
                        assert(is_out_of_reach(path, uid, locked, files)) by {
                            if file_found(files, path) is Ok {
                                let l = choose|l: int|
                                    0 <= l < here.locks.len() && (#[trigger] here.locks[l]).path
                                        == path && here.locks[l].claimant_uid != uid;
                                assert(locked.locks[l] == here.locks[l]);
                            }
                        }
                    }
                }
            },
            _ => {
                assert(locked == sofar);
            },
        }
        assert forall|i: int, path: Seq<char>, uid: u32|
            0 <= i < intended.len() && #[trigger] is_due(
                intended[i],
                path,
                uid,
                settings,
                accounts,
            ) implies is_answered_for(path, uid, board_warning(intended[i].0), locked, files) by {
            if i < rest.len() {
                assert(rest[i] == intended[i]);
                assert(is_due(rest[i], path, uid, settings, accounts));
                lemma_answer_stays(path, uid, board_warning(rest[i].0), sofar, locked, files);
            }
        }
        assert forall|t: int| 0 <= t < locked.taken.len() implies exists|i: int|
            0 <= i < intended.len() && is_due(
                #[trigger] intended[i],
                (#[trigger] locked.taken[t]).path,
                locked.taken[t].uid,
                settings,
                accounts,
            ) by {
            let hand = locked.taken[t];
            if t < sofar.taken.len() {
                assert(hand == sofar.taken[t]);
                let i = choose|i: int|
                    0 <= i < rest.len() && is_due(
                        #[trigger] rest[i],
                        (#[trigger] sofar.taken[t]).path,
                        sofar.taken[t].uid,
                        settings,
                        accounts,
                    );
                assert(is_due(intended[i], hand.path, hand.uid, settings, accounts));
            } else {
                let i = intended.len() - 1;
                assert(is_due(intended[i], hand.path, hand.uid, settings, accounts));
            }
        }
    }
}

/// Every file of every claimed board is locked for the claimant, or the report says which file of
/// which board is not. And no file is handed to anybody but the claimant of a board that lists it.
pub proof fn law_every_file_of_a_claimed_board_is_answered_for(
    state: DiskStateModel,
    accounts: Seq<AccountModel>,
    now: Moment,
    restored: Seq<bool>,
    files: Seq<FileInfoModel>,
)
    ensures
        ({
            let synced = devices_synced(state, accounts, now, restored, files);
            let owned = live_owners(state.claims, now);
            &&& forall|i: int, path: Seq<char>, uid: u32|
                0 <= i < owned.len() && #[trigger] is_due(
                    owned[i],
                    path,
                    uid,
                    state.settings,
                    accounts,
                ) ==> is_answered_for(path, uid, board_warning(owned[i].0), synced, files)
            &&& synced.failures.len() == 0 ==> forall|i: int, path: Seq<char>, uid: u32|
                0 <= i < owned.len() && #[trigger] is_due(
                    owned[i],
                    path,
                    uid,
                    state.settings,
                    accounts,
                ) ==> is_in_hand(path, uid, synced, files)
            &&& forall|t: int|
                0 <= t < synced.taken.len() ==> exists|i: int|
                    0 <= i < owned.len() && is_due(
                        #[trigger] owned[i],
                        (#[trigger] synced.taken[t]).path,
                        synced.taken[t].uid,
                        state.settings,
                        accounts,
                    )
        }),
{
    let owned = live_owners(state.claims, now);
    let synced = devices_synced(state, accounts, now, restored, files);
    lemma_every_board_answered(
        locks_kept(state.device_locks, restored, owned, accounts),
        owned,
        state.settings,
        accounts,
        files,
    );
    if synced.failures.len() == 0 {
        assert forall|i: int, path: Seq<char>, uid: u32|
            0 <= i < owned.len() && #[trigger] is_due(
                owned[i],
                path,
                uid,
                state.settings,
                accounts,
            ) implies is_in_hand(path, uid, synced, files) by {
            assert(is_answered_for(path, uid, board_warning(owned[i].0), synced, files));
        }
    }
}

/// A lock has drifted exactly if the file is there and does not belong to the claimant alone.
pub proof fn law_every_drifted_lock_is_found(
    locks: Seq<DeviceLockModel>,
    files: Seq<FileInfoModel>,
    lock: DeviceLockModel,
)
    ensures
        locks.filter(is_drifted(files)).contains(lock) <==> {
            &&& locks.contains(lock)
            &&& file_found(files, lock.path) matches Ok(meta)
            &&& meta.uid != lock.claimant_uid || meta.mode != 0o600
        },
{
    lemma_filter_members(locks, is_drifted(files));
}

/// The process has one of the files open.
pub open spec fn uses_one_of(process: ProcessModel, devices: Seq<Seq<char>>) -> bool {
    &&& process.open_files matches Some(open)
    &&& exists|k: int| 0 <= k < open.len() && devices.contains(#[trigger] open[k])
}

/// The user that a process runs for; root where that cannot be read.
pub open spec fn runs_for(process: ProcessModel) -> u32 {
    match process.status {
        Some(status) => match status_uid(status) {
            Some(uid) => uid,
            None => 0,
        },
        None => 0,
    }
}

/// Every process that has one of the files open is found, with its user and a file of those that it
/// really has open; and nothing else is reported.
pub proof fn law_every_process_that_uses_a_file_is_found(
    devices: Seq<Seq<char>>,
    processes: Seq<ProcessModel>,
    accounts: Seq<AccountModel>,
)
    ensures
        forall|p: int|
            0 <= p < processes.len() && uses_one_of(#[trigger] processes[p], devices) && (
            parsed_number(processes[p].name) matches Some(pid) && pid <= u32::MAX)
                ==> exists|holder: HolderModel|
                {
                    &&& #[trigger] holders_of(devices, processes, accounts).contains(holder)
                    &&& Some(holder.pid as nat) == parsed_number(processes[p].name)
                    &&& holder.uid == runs_for(processes[p])
                    &&& devices.contains(holder.device)
                    &&& processes[p].open_files->0.contains(holder.device)
                },
        forall|holder: HolderModel| #[trigger]
            holders_of(devices, processes, accounts).contains(holder) ==> exists|p: int|
                {
                    &&& 0 <= p < processes.len()
                    &&& Some(holder.pid as nat) == parsed_number((#[trigger] processes[p]).name)
                    &&& holder.uid == runs_for(processes[p])
                    &&& devices.contains(holder.device)
                    &&& processes[p].open_files matches Some(open)
                    &&& open.contains(holder.device)
                },
{
    let f = to_holder(devices, accounts);
    let mapped = processes.map_values(f);
    let all = holders_of(devices, processes, accounts);
    lemma_somes_members(mapped);
    lemma_sorted_members(somes(mapped), crate::fpga::by_pid());
    assert forall|p: int|
        0 <= p < processes.len() && uses_one_of(#[trigger] processes[p], devices) && (parsed_number(
            processes[p].name,
        ) matches Some(pid) && pid <= u32::MAX) implies exists|holder: HolderModel|
        {
            &&& #[trigger] all.contains(holder)
            &&& Some(holder.pid as nat) == parsed_number(processes[p].name)
            &&& holder.uid == runs_for(processes[p])
            &&& devices.contains(holder.device)
            &&& processes[p].open_files->0.contains(holder.device)
        } by {
        let open = processes[p].open_files->0;
        let pred = is_one_of(devices);
        lemma_first_where(open, pred);
        let k = choose|k: int| 0 <= k < open.len() && devices.contains(#[trigger] open[k]);
        assert(pred(open[k]));
        let at = first_where(open, pred);
        assert(pred(open[at]));
        let holder = f(processes[p])->0;
        assert(mapped[p] == Some(holder));
        assert(mapped.contains(Some(holder)));
        assert(all.contains(holder));
        assert(open.contains(holder.device));
    }
    assert forall|holder: HolderModel| #[trigger] all.contains(holder) implies exists|p: int|
        {
            &&& 0 <= p < processes.len()
            &&& Some(holder.pid as nat) == parsed_number((#[trigger] processes[p]).name)
            &&& holder.uid == runs_for(processes[p])
            &&& devices.contains(holder.device)
            &&& processes[p].open_files matches Some(open)
            &&& open.contains(holder.device)
        } by {
        assert(mapped.contains(Some(holder)));
        let p = choose|p: int| 0 <= p < mapped.len() && mapped[p] == Some(holder);
        assert(f(processes[p]) == Some(holder));
        let open = processes[p].open_files->0;
        let pred = is_one_of(devices);
        lemma_first_where(open, pred);
        let at = first_where(open, pred);
        assert(pred(open[at]));
        assert(open.contains(open[at]));
        assert(Some(holder.pid as nat) == parsed_number(processes[p].name));
    }
}

/// The files of a board are its device files and, for every usable cable it lists that is plugged
/// in, the cable's own node and its consoles.
pub proof fn law_every_file_of_a_board_is_watched(
    spec: FpgaSpecModel,
    host: HostModel,
    path: Seq<char>,
)
    ensures
        watched_files(spec, host).contains(path) <==> spec.devices.contains(path) || exists|k: int|
            {
                &&& 0 <= k < spec.cables.len()
                &&& is_valid_serial(#[trigger] spec.cables[k])
                &&& looked_up(host.usb, host.dev, spec.cables[k]) matches Some(cable)
                &&& path == cable.jtag || cable.consoles.contains(path)
            },
{
    let f = to_cable_paths(host.usb, host.dev);
    let lists = spec.cables.map_values(f);
    let files = board_files(spec, host.usb, host.dev);
    let all = watched_files(spec, host);
    lemma_concat_members(lists);
    if spec.devices.contains(path) {
        let d = choose|d: int| 0 <= d < spec.devices.len() && spec.devices[d] == path;
        assert(all[d] == path);
    }
    if exists|k: int|
        {
            &&& 0 <= k < spec.cables.len()
            &&& is_valid_serial(#[trigger] spec.cables[k])
            &&& looked_up(host.usb, host.dev, spec.cables[k]) matches Some(cable)
            &&& path == cable.jtag || cable.consoles.contains(path)
        } {
        let k = choose|k: int|
            {
                &&& 0 <= k < spec.cables.len()
                &&& is_valid_serial(#[trigger] spec.cables[k])
                &&& looked_up(host.usb, host.dev, spec.cables[k]) matches Some(cable)
                &&& path == cable.jtag || cable.consoles.contains(path)
            };
        let cable = looked_up(host.usb, host.dev, spec.cables[k])->0;
        assert(lists[k] == cable.paths());
        if path == cable.jtag {
            assert(lists[k][0] == path);
        } else {
            let c = choose|c: int| 0 <= c < cable.consoles.len() && cable.consoles[c] == path;
            assert(lists[k][c + 1] == path);
        }
        assert(lists[k].contains(path));
        assert(files.contains(path));
        let d = choose|d: int| 0 <= d < files.len() && files[d] == path;
        assert(all[spec.devices.len() + d] == path);
    }
    if all.contains(path) && !spec.devices.contains(path) {
        let d = choose|d: int| 0 <= d < all.len() && all[d] == path;
        if d < spec.devices.len() {
            assert(spec.devices[d] == path);
        }
        assert(files[d - spec.devices.len()] == path);
        assert(files.contains(path));
        let k = choose|k: int| 0 <= k < lists.len() && (#[trigger] lists[k]).contains(path);
        assert(lists[k] == f(spec.cables[k]));
        let cable = looked_up(host.usb, host.dev, spec.cables[k])->0;
        let c = choose|c: int| 0 <= c < lists[k].len() && lists[k][c] == path;
        if c > 0 {
            assert(cable.consoles[c - 1] == path);
        }
        assert(is_valid_serial(spec.cables[k]));
    }
}

/// Every process of somebody else that has one of a board's files open counts as using the board.
pub proof fn law_no_other_user_of_a_board_is_missed(
    spec: FpgaSpecModel,
    host: HostModel,
    my_uid: Option<u32>,
    p: int,
)
    requires
        0 <= p < host.processes.len(),
        uses_one_of(host.processes[p], watched_files(spec, host)),
        parsed_number(host.processes[p].name) matches Some(pid) && pid <= u32::MAX,
        my_uid != Some(runs_for(host.processes[p])),
    ensures
        exists|holder: HolderModel|
            #[trigger] foreign_users(spec, host, my_uid).contains(holder) && Some(holder.pid as nat)
                == parsed_number(host.processes[p].name),
        foreign_users(spec, host, my_uid).len() > 0,
{
    let devices = watched_files(spec, host);
    law_every_process_that_uses_a_file_is_found(devices, host.processes, host.accounts);
    let all = holders_of(devices, host.processes, host.accounts);
    let found = foreign_users(spec, host, my_uid);
    assert(uses_one_of(host.processes[p], devices));
    let holder = choose|holder: HolderModel|
        {
            &&& #[trigger] all.contains(holder)
            &&& Some(holder.pid as nat) == parsed_number(host.processes[p].name)
            &&& holder.uid == runs_for(host.processes[p])
            &&& devices.contains(holder.device)
            &&& host.processes[p].open_files->0.contains(holder.device)
        };
    lemma_filter_members(all, is_foreign(my_uid));
    assert(found.contains(holder));
}

/// Whoever is reported to use a board is somebody else and has one of its files open.
pub proof fn law_only_other_users_of_a_board_are_reported(
    spec: FpgaSpecModel,
    host: HostModel,
    my_uid: Option<u32>,
    holder: HolderModel,
)
    requires
        foreign_users(spec, host, my_uid).contains(holder),
    ensures
        my_uid != Some(holder.uid),
        watched_files(spec, host).contains(holder.device),
        exists|p: int|
            {
                &&& 0 <= p < host.processes.len()
                &&& Some(holder.pid as nat) == parsed_number((#[trigger] host.processes[p]).name)
                &&& holder.uid == runs_for(host.processes[p])
                &&& host.processes[p].open_files matches Some(open)
                &&& open.contains(holder.device)
            },
{
    let devices = watched_files(spec, host);
    law_every_process_that_uses_a_file_is_found(devices, host.processes, host.accounts);
    lemma_filter_members(
        holders_of(devices, host.processes, host.accounts),
        is_foreign(my_uid),
    );
}

} // verus!
