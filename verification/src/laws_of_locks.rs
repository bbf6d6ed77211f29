//! What holds of cable locks: how they follow the claims, and what they remember.
use vstd::prelude::*;
use crate::cable::{
    cable_phrase, held_cables, is_valid_serial, looked_up, rules_text, to_held, to_held_cables,
    to_rules, tty_rule, usb_rule, CableModel, CableView, HeldCableModel, HostModel,
};
use crate::cable_locks::{
    all_applied, all_locked, applied, cable_view, cables_synced, cables_wanted, is_disabled,
    is_done, is_other_cable, is_other_port, law_a_sync_converges, law_wanted_cables_are_sound,
    left_disabled, lock_action, lock_actions, locks_serial, not_locked_in, one_lock_per_cable,
    pending_after, planned, port_at, presence, reassertions, recorded, repointed, restoration,
    still_disabled, sync_actions, sync_warnings, to_reassertion, to_reassertions, to_record,
    to_rule_entry, to_verdict, to_verdicts, to_warning, verdicts, wanted_once, wants,
    with_lock_ports, ActionModel, PortInfoModel, SceneModel, VerdictModel, WantedModel,
};
use crate::clock::Moment;
use crate::diskstate::{CableLockModel, DiskStateModel, FpgaSpecModel, Ownership};
use crate::fpga::{
    file_found, holders_of, is_foreign, live_owners, AccountModel, FileInfoModel, HolderModel,
    TakeoverModel,
};
use crate::laws_of_boards::{
    law_every_process_that_uses_a_file_is_found, runs_for, uses_one_of,
};
use crate::seqs::{
    concat_all, first_where, lemma_concat_members, lemma_filter_members, lemma_first_where,
    lemma_somes_members, repeats, somes,
};
use crate::text::{parsed_number, trim};

verus! {

/// Nobody wants the cable.
pub open spec fn is_unwanted(wanted: Seq<WantedModel>, serial: Seq<char>) -> bool {
    forall|w: int| 0 <= w < wanted.len() ==> (#[trigger] wanted[w]).serial != serial
}

/// No lock is on the cable.
pub open spec fn is_unlocked(locks: Seq<CableLockModel>, serial: Seq<char>) -> bool {
    forall|i: int| 0 <= i < locks.len() ==> (#[trigger] locks[i]).serial != serial
}

/// The first entry that wants the cable.
pub open spec fn is_first_to_want(wanted: Seq<WantedModel>, w: int) -> bool {
    &&& 0 <= w < wanted.len()
    &&& forall|v: int| 0 <= v < w ==> (#[trigger] wanted[v]).serial != wanted[w].serial
}

/// What is to be done: every wanted cable without a lock gets one; every lock that nobody wants any
/// more is given back, or dropped if the cable is not there; and every lock that somebody else
/// wants now changes hands. Nothing else is done.
pub proof fn law_every_lock_gets_its_action(
    wanted: Seq<WantedModel>,
    locks: Seq<CableLockModel>,
    present: Seq<bool>,
)
    requires
        present.len() == locks.len(),
    ensures
        forall|w: WantedModel| #[trigger]
            planned(wanted, locks, present).contains(ActionModel::Record(w)) <==> wanted.contains(w)
                && is_unlocked(locks, w.serial),
        forall|lock: CableLockModel| #[trigger]
            planned(wanted, locks, present).contains(ActionModel::Restore(lock)) <==> is_unwanted(
                wanted,
                lock.serial,
            ) && exists|i: int| 0 <= i < locks.len() && #[trigger] locks[i] == lock && present[i],
        forall|lock: CableLockModel| #[trigger]
            planned(wanted, locks, present).contains(ActionModel::Drop(lock)) <==> is_unwanted(
                wanted,
                lock.serial,
            ) && exists|i: int| 0 <= i < locks.len() && #[trigger] locks[i] == lock && !present[i],
        forall|w: WantedModel| #[trigger]
            planned(wanted, locks, present).contains(ActionModel::Repoint(w)) <==> changes_hands(
                wanted,
                locks,
                w,
            ),
{
    let f = |i: int, lock: CableLockModel| lock_action(wanted, lock, present[i]);
    let mapped = locks.map(f);
    let acts = lock_actions(wanted, locks, present);
    let fresh = wanted.filter(not_locked_in(locks));
    let recs = fresh.map_values(to_record());
    let all = planned(wanted, locks, present);
    assert(acts == somes(mapped));
    lemma_somes_members(mapped);
    lemma_filter_members(wanted, not_locked_in(locks));
    assert forall|a: ActionModel| #[trigger] all.contains(a) <==> acts.contains(a) || recs.contains(
        a,
    ) by {
        if acts.contains(a) {
            let i = choose|i: int| 0 <= i < acts.len() && acts[i] == a;
            assert(all[i] == a);
        }
        if recs.contains(a) {
            let i = choose|i: int| 0 <= i < recs.len() && recs[i] == a;
            assert(all[acts.len() + i] == a);
        }
        if all.contains(a) {
            let i = choose|i: int| 0 <= i < all.len() && all[i] == a;
            if i < acts.len() {
                assert(acts[i] == a);
            } else {
                assert(recs[i - acts.len()] == a);
            }
        }
    }
    assert forall|i: int| 0 <= i < locks.len() implies is_lock_action(
        wanted,
        #[trigger] locks[i],
        present[i],
        mapped[i],
    ) by {
        lemma_lock_action(wanted, locks[i], present[i]);
    }
    assert forall|a: ActionModel| #[trigger] acts.contains(a) <==> exists|i: int|
        0 <= i < locks.len() && #[trigger] mapped[i] == Some(a) by {
        if acts.contains(a) {
            assert(mapped.contains(Some(a)));
            let i = choose|i: int| 0 <= i < mapped.len() && mapped[i] == Some(a);
            assert(mapped[i] == Some(a));
        }
        if exists|i: int| 0 <= i < locks.len() && #[trigger] mapped[i] == Some(a) {
            let i = choose|i: int| 0 <= i < locks.len() && #[trigger] mapped[i] == Some(a);
            assert(mapped.contains(Some(a)));
        }
    }
    assert forall|w: WantedModel| #[trigger] all.contains(ActionModel::Record(w))
        <==> wanted.contains(w) && is_unlocked(locks, w.serial) by {
        let a = ActionModel::Record(w);
        if acts.contains(a) {
            let i = choose|i: int| 0 <= i < locks.len() && #[trigger] mapped[i] == Some(a);
            assert(is_lock_action(wanted, locks[i], present[i], mapped[i]));
        }
        if recs.contains(a) {
            let i = choose|i: int| 0 <= i < recs.len() && recs[i] == a;
            assert(fresh[i] == w);
            assert(fresh.contains(w));
            assert forall|j: int| 0 <= j < locks.len() implies (#[trigger] locks[j]).serial
                != w.serial by {
                assert(!locks_serial(w.serial)(locks[j]));
            }
        }
        if wanted.contains(w) && is_unlocked(locks, w.serial) {
            assert(fresh.contains(w));
            let i = choose|i: int| 0 <= i < fresh.len() && fresh[i] == w;
            assert(recs[i] == a);
        }
    }
    assert forall|a: ActionModel| !(a is Record) implies !#[trigger] recs.contains(a) by {
        if recs.contains(a) {
            let i = choose|i: int| 0 <= i < recs.len() && recs[i] == a;
            assert(recs[i] is Record);
        }
    }
    assert forall|lock: CableLockModel| #[trigger] all.contains(ActionModel::Restore(lock))
        <==> is_unwanted(wanted, lock.serial) && exists|i: int|
        0 <= i < locks.len() && #[trigger] locks[i] == lock && present[i] by {
        let a = ActionModel::Restore(lock);
        if acts.contains(a) {
            let i = choose|i: int| 0 <= i < locks.len() && #[trigger] mapped[i] == Some(a);
            assert(is_lock_action(wanted, locks[i], present[i], mapped[i]));
            assert(locks[i] == lock && present[i]);
        }
        if is_unwanted(wanted, lock.serial) && exists|i: int|
            0 <= i < locks.len() && #[trigger] locks[i] == lock && present[i] {
            let i = choose|i: int|
                0 <= i < locks.len() && #[trigger] locks[i] == lock && present[i];
            assert(is_lock_action(wanted, locks[i], present[i], mapped[i]));
            assert(mapped[i] == Some(a));
            assert(acts.contains(a));
        }
    }
    assert forall|lock: CableLockModel| #[trigger] all.contains(ActionModel::Drop(lock))
        <==> is_unwanted(wanted, lock.serial) && exists|i: int|
        0 <= i < locks.len() && #[trigger] locks[i] == lock && !present[i] by {
        let a = ActionModel::Drop(lock);
        if acts.contains(a) {
            let i = choose|i: int| 0 <= i < locks.len() && #[trigger] mapped[i] == Some(a);
            assert(is_lock_action(wanted, locks[i], present[i], mapped[i]));
            assert(locks[i] == lock && !present[i]);
        }
        if is_unwanted(wanted, lock.serial) && exists|i: int|
            0 <= i < locks.len() && #[trigger] locks[i] == lock && !present[i] {
            let i = choose|i: int|
                0 <= i < locks.len() && #[trigger] locks[i] == lock && !present[i];
            assert(is_lock_action(wanted, locks[i], present[i], mapped[i]));
            assert(mapped[i] == Some(a));
            assert(acts.contains(a));
        }
    }
    assert forall|w: WantedModel| #[trigger] all.contains(ActionModel::Repoint(w))
        <==> changes_hands(wanted, locks, w) by {
        let a = ActionModel::Repoint(w);
        if acts.contains(a) {
            let i = choose|i: int| 0 <= i < locks.len() && #[trigger] mapped[i] == Some(a);
            assert(is_lock_action(wanted, locks[i], present[i], mapped[i]));
            let v = choose|v: int|
                #[trigger] is_first_to_want(wanted, v) && wanted[v].serial == locks[i].serial;
            assert(is_handed_over(wanted, locks, v, i));
        }
        if changes_hands(wanted, locks, w) {
            let (v, i) = choose|v: int, i: int|
                #[trigger] is_handed_over(wanted, locks, v, i) && wanted[v] == w;
            assert(is_lock_action(wanted, locks[i], present[i], mapped[i]));
            assert(mapped[i] == Some(a));
            assert(acts.contains(a));
        }
    }
}

/// Lock `i` is on the cable that entry `v` wants, for another user.
pub open spec fn is_handed_over(
    wanted: Seq<WantedModel>,
    locks: Seq<CableLockModel>,
    v: int,
    i: int,
) -> bool {
    &&& is_first_to_want(wanted, v)
    &&& 0 <= i < locks.len()
    &&& locks[i].serial == wanted[v].serial
    &&& locks[i].claimant_uid != wanted[v].uid || locks[i].claimant != wanted[v].user
}

pub open spec fn changes_hands(
    wanted: Seq<WantedModel>,
    locks: Seq<CableLockModel>,
    w: WantedModel,
) -> bool {
    exists|v: int, i: int| #[trigger] is_handed_over(wanted, locks, v, i) && wanted[v] == w
}

spec fn is_lock_action(
    wanted: Seq<WantedModel>,
    lock: CableLockModel,
    present: bool,
    action: Option<ActionModel>,
) -> bool {
    &&& is_unwanted(wanted, lock.serial) ==> action == Some(
        if present {
            ActionModel::Restore(lock)
        } else {
            ActionModel::Drop(lock)
        },
    )
    &&& forall|v: int|
        #[trigger] is_first_to_want(wanted, v) && wanted[v].serial == lock.serial ==> action == if (
        wanted[v].uid != lock.claimant_uid || wanted[v].user != lock.claimant) {
            Some(ActionModel::Repoint(wanted[v]))
        } else {
            None
        }
    &&& is_unwanted(wanted, lock.serial) || exists|v: int| #[trigger]
        is_first_to_want(wanted, v) && wanted[v].serial == lock.serial
}

proof fn lemma_lock_action(wanted: Seq<WantedModel>, lock: CableLockModel, present: bool)
    ensures
        is_lock_action(wanted, lock, present, lock_action(wanted, lock, present)),
{
    let pred = wants(lock.serial);
    let at = first_where(wanted, pred);
    lemma_first_where(wanted, pred);
    if at < wanted.len() {
        assert(pred(wanted[at]));
        assert forall|v: int| 0 <= v < at implies (#[trigger] wanted[v]).serial
            != wanted[at].serial by {
            assert(!pred(wanted[v]));
        }
        assert(is_first_to_want(wanted, at));
        assert forall|v: int| #[trigger]
            is_first_to_want(wanted, v) && wanted[v].serial == lock.serial implies v == at by {
            assert(pred(wanted[v]));
        }
        assert(!is_unwanted(wanted, lock.serial));
    } else {
        assert forall|w: int| 0 <= w < wanted.len() implies (#[trigger] wanted[w]).serial
            != lock.serial by {
            assert(!pred(wanted[w]));
        }
    }
}

/// A lock on the cable for the user that wants it.
pub open spec fn is_locked_as_wanted(locks: Seq<CableLockModel>, w: WantedModel) -> bool {
    exists|i: int|
        {
            &&& 0 <= i < locks.len()
            &&& (#[trigger] locks[i]).serial == w.serial
            &&& locks[i].claimant == w.user
            &&& locks[i].claimant_uid == w.uid
        }
}

spec fn keeps_wanted(wanted: Seq<WantedModel>, action: ActionModel) -> bool {
    match action {
        ActionModel::Record(_) => true,
        ActionModel::Repoint(w) => wanted.contains(w),
        ActionModel::Restore(lock) => is_unwanted(wanted, lock.serial),
        ActionModel::Drop(lock) => is_unwanted(wanted, lock.serial),
    }
}

proof fn lemma_wanted_stays(
    locks: Seq<CableLockModel>,
    action: ActionModel,
    done: bool,
    scene: SceneModel,
    wanted: Seq<WantedModel>,
    w: WantedModel,
)
    requires
        wanted_once(wanted),
        wanted.contains(w),
        keeps_wanted(wanted, action),
    ensures
        !is_unlocked(locks, w.serial) ==> !is_unlocked(applied(locks, action, done, scene), w.serial),
        is_locked_as_wanted(locks, w) ==> is_locked_as_wanted(
            applied(locks, action, done, scene),
            w,
        ),
        action == ActionModel::Record(w) ==> is_locked_as_wanted(
            applied(locks, action, done, scene),
            w,
        ),
        action == ActionModel::Repoint(w) && !is_unlocked(locks, w.serial) ==> is_locked_as_wanted(
            applied(locks, action, done, scene),
            w,
        ),
{
    let after = applied(locks, action, done, scene);
    let k = choose|k: int| 0 <= k < wanted.len() && wanted[k] == w;
    match action {
        ActionModel::Record(v) => {
            assert forall|i: int| 0 <= i < locks.len() implies after[i] == #[trigger] locks[i] by {}
            if !is_unlocked(locks, w.serial) {
                let i = choose|i: int|
                    0 <= i < locks.len() && (#[trigger] locks[i]).serial == w.serial;
                assert(after[i].serial == w.serial);
            }
            if is_locked_as_wanted(locks, w) {
                let i = choose|i: int|
                    {
                        &&& 0 <= i < locks.len()
                        &&& (#[trigger] locks[i]).serial == w.serial
                        &&& locks[i].claimant == w.user
                        &&& locks[i].claimant_uid == w.uid
                    };
                assert(after[i] == locks[i]);
            }
            if v == w {
                let last = locks.len() as int;
                assert(after[last] == recorded(w, scene));
                assert(after[last].serial == w.serial);
            }
        },
        ActionModel::Repoint(v) => {
            let pred = locks_serial(v.serial);
            let at = first_where(locks, pred);
            lemma_first_where(locks, pred);
            if at < locks.len() {
                assert(pred(locks[at]));
                assert(after[at] == repointed(locks[at], v));
                if !is_unlocked(locks, w.serial) {
                    let i = choose|i: int|
                        0 <= i < locks.len() && (#[trigger] locks[i]).serial == w.serial;
                    assert(after[i].serial == w.serial);
                }
                if v.serial == w.serial {
                    let m = choose|m: int| 0 <= m < wanted.len() && wanted[m] == v;
                    assert(wanted[m].serial == wanted[k].serial);
                    assert(v == w);
                    assert(after[at].serial == w.serial);
                } else if is_locked_as_wanted(locks, w) {
                    let i = choose|i: int|
                        {
                            &&& 0 <= i < locks.len()
                            &&& (#[trigger] locks[i]).serial == w.serial
                            &&& locks[i].claimant == w.user
                            &&& locks[i].claimant_uid == w.uid
                        };
                    assert(after[i] == locks[i]);
                }
            } else {
                if v == w && !is_unlocked(locks, w.serial) {
                    let i = choose|i: int|
                        0 <= i < locks.len() && (#[trigger] locks[i]).serial == w.serial;
                    assert(pred(locks[i]));
                }
            }
        },
        ActionModel::Restore(lock) => {
            lemma_others_stay(locks, lock.serial, wanted, w);
        },
        ActionModel::Drop(lock) => {
            lemma_others_stay(locks, lock.serial, wanted, w);
        },
    }
}

proof fn lemma_others_stay(
    locks: Seq<CableLockModel>,
    serial: Seq<char>,
    wanted: Seq<WantedModel>,
    w: WantedModel,
)
    requires
        wanted.contains(w),
        is_unwanted(wanted, serial),
    ensures
        !is_unlocked(locks, w.serial) ==> !is_unlocked(
            locks.filter(is_other_cable(serial)),
            w.serial,
        ),
        is_locked_as_wanted(locks, w) ==> is_locked_as_wanted(
            locks.filter(is_other_cable(serial)),
            w,
        ),
{
    let pred = is_other_cable(serial);
    let after = locks.filter(pred);
    let k = choose|k: int| 0 <= k < wanted.len() && wanted[k] == w;
    assert(wanted[k].serial != serial);
    lemma_filter_members(locks, pred);
    if !is_unlocked(locks, w.serial) {
        let i = choose|i: int| 0 <= i < locks.len() && (#[trigger] locks[i]).serial == w.serial;
        assert(locks.contains(locks[i]));
        assert(after.contains(locks[i]));
        let j = choose|j: int| 0 <= j < after.len() && after[j] == locks[i];
        assert(after[j].serial == w.serial);
    }
    if is_locked_as_wanted(locks, w) {
        let i = choose|i: int|
            {
                &&& 0 <= i < locks.len()
                &&& (#[trigger] locks[i]).serial == w.serial
                &&& locks[i].claimant == w.user
                &&& locks[i].claimant_uid == w.uid
            };
        assert(locks.contains(locks[i]));
        assert(after.contains(locks[i]));
        let j = choose|j: int| 0 <= j < after.len() && after[j] == locks[i];
        assert(after[j].serial == w.serial);
    }
}

proof fn lemma_all_applied_keeps(
    locks: Seq<CableLockModel>,
    actions: Seq<ActionModel>,
    done: Seq<bool>,
    scene: SceneModel,
    wanted: Seq<WantedModel>,
    w: WantedModel,
)
    requires
        wanted_once(wanted),
        wanted.contains(w),
        forall|k: int| 0 <= k < actions.len() ==> keeps_wanted(wanted, #[trigger] actions[k]),
    ensures
        ({
            let after = all_applied(locks, actions, done, scene);
            &&& !is_unlocked(locks, w.serial) ==> !is_unlocked(after, w.serial)
            &&& is_locked_as_wanted(locks, w) ==> is_locked_as_wanted(after, w)
            &&& actions.contains(ActionModel::Record(w)) ==> is_locked_as_wanted(after, w)
            &&& actions.contains(ActionModel::Repoint(w)) && !is_unlocked(locks, w.serial)
                ==> is_locked_as_wanted(after, w)
        }),
    decreases actions.len(),
{
    if actions.len() > 0 {
        let rest = actions.drop_last();
        let last = actions.last();
        assert forall|k: int| 0 <= k < rest.len() implies keeps_wanted(
            wanted,
            #[trigger] rest[k],
        ) by {
            assert(rest[k] == actions[k]);
        }
        lemma_all_applied_keeps(locks, rest, done, scene, wanted, w);
        assert(keeps_wanted(wanted, actions[actions.len() - 1]));
        lemma_wanted_stays(
            all_applied(locks, rest, done, scene),
            last,
            is_done(done, actions.len() - 1),
            scene,
            wanted,
            w,
        );
        assert forall|a: ActionModel| #[trigger] actions.contains(a) implies rest.contains(a) || a
            == last by {
            let k = choose|k: int| 0 <= k < actions.len() && actions[k] == a;
            if k < rest.len() {
                assert(rest[k] == a);
            }
        }
    }
}

/// After a sync every wanted cable is locked for the user that claimed its board, whether or not
/// other cables could be given back.
pub proof fn law_every_wanted_cable_is_locked_after_a_sync(
    state: DiskStateModel,
    accounts: Seq<AccountModel>,
    now: Moment,
    done: Seq<bool>,
    scene: SceneModel,
    w: WantedModel,
)
    requires
        cables_wanted(state, accounts, now).contains(w),
    ensures
        is_locked_as_wanted(cables_synced(state, accounts, now, done, scene), w),
{
    let wanted = cables_wanted(state, accounts, now);
    let locks = state.cable_locks;
    let present = presence(
        locks,
        crate::cable_locks::is_plugged_in(scene.usb, scene.dev),
    );
    let actions = sync_actions(state, accounts, now, scene.usb, scene.dev);
    law_wanted_cables_are_sound(state, accounts, now);
    law_every_lock_gets_its_action(wanted, locks, present);
    assert forall|k: int| 0 <= k < actions.len() implies keeps_wanted(
        wanted,
        #[trigger] actions[k],
    ) by {
        assert(actions.contains(actions[k]));
        match actions[k] {
            ActionModel::Record(_) => {},
            ActionModel::Repoint(v) => {
                assert(changes_hands(wanted, locks, v));
                let (m, i) = choose|m: int, i: int|
                    #[trigger] is_handed_over(wanted, locks, m, i) && wanted[m] == v;
                assert(wanted[m] == v);
            },
            ActionModel::Restore(lock) => {
                assert(is_unwanted(wanted, lock.serial));
            },
            ActionModel::Drop(lock) => {
                assert(is_unwanted(wanted, lock.serial));
            },
        }
    }
    lemma_all_applied_keeps(locks, actions, done, scene, wanted, w);
    if is_unlocked(locks, w.serial) {
        assert(actions.contains(ActionModel::Record(w)));
    } else if !is_locked_as_wanted(locks, w) {
        let i = choose|i: int| 0 <= i < locks.len() && (#[trigger] locks[i]).serial == w.serial;
        let v = choose|v: int| 0 <= v < wanted.len() && wanted[v] == w;
        assert forall|u: int| 0 <= u < v implies (#[trigger] wanted[u]).serial
            != wanted[v].serial by {}
        assert(is_handed_over(wanted, locks, v, i));
        assert(changes_hands(wanted, locks, w));
        assert(actions.contains(ActionModel::Repoint(w)));
    }
}

/// Once everything that is due was done, every lock is on a cable that somebody has claimed, for
/// that user.
pub proof fn law_only_wanted_cables_are_locked_after_a_sync(
    state: DiskStateModel,
    accounts: Seq<AccountModel>,
    now: Moment,
    done: Seq<bool>,
    scene: SceneModel,
    k: int,
)
    requires
        one_lock_per_cable(state.cable_locks),
        forall|i: int|
            0 <= i < sync_actions(state, accounts, now, scene.usb, scene.dev).len()
                ==> #[trigger] is_done(done, i),
        0 <= k < cables_synced(state, accounts, now, done, scene).len(),
    ensures
        ({
            let lock = cables_synced(state, accounts, now, done, scene)[k];
            exists|w: WantedModel|
                {
                    &&& #[trigger] cables_wanted(state, accounts, now).contains(w)
                    &&& w.serial == lock.serial
                    &&& w.user == lock.claimant
                    &&& w.uid == lock.claimant_uid
                }
        }),
{
    let locks = cables_synced(state, accounts, now, done, scene);
    let after = DiskStateModel { cable_locks: locks, ..state };
    let wanted = cables_wanted(state, accounts, now);
    let present = presence(locks, crate::cable_locks::is_plugged_in(scene.usb, scene.dev));
    law_a_sync_converges(state, accounts, now, done, scene, scene.usb, scene.dev);
    assert(cables_wanted(after, accounts, now) == wanted);
    let all = planned(wanted, locks, present);
    assert(all.len() == 0);
    law_every_lock_gets_its_action(wanted, locks, present);
    let lock = locks[k];
    if is_unwanted(wanted, lock.serial) {
        if present[k] {
            assert(all.contains(ActionModel::Restore(lock)));
        } else {
            assert(all.contains(ActionModel::Drop(lock)));
        }
    }
    lemma_lock_action(wanted, lock, present[k]);
    let v = choose|v: int| #[trigger]
        is_first_to_want(wanted, v) && wanted[v].serial == lock.serial;
    let w = wanted[v];
    assert(wanted.contains(w));
    if w.uid != lock.claimant_uid || w.user != lock.claimant {
        assert(is_handed_over(wanted, locks, v, k));
        assert(changes_hands(wanted, locks, w));
        assert(all.contains(ActionModel::Repoint(w)));
    }
}

/// The file belongs to a locked cable that is plugged in, and is not yet the claimant's alone.
pub open spec fn is_to_be_taken(
    locks: Seq<CableLockModel>,
    scene: SceneModel,
    i: int,
    hand: TakeoverModel,
) -> bool {
    &&& 0 <= i < locks.len()
    &&& looked_up(scene.usb, scene.dev, locks[i].serial) matches Some(cable)
    &&& hand.path == cable.jtag || cable.consoles.contains(hand.path)
    &&& file_found(scene.files, hand.path) matches Ok(meta)
    &&& meta.uid != locks[i].claimant_uid || meta.mode != 0o600
    &&& hand.uid == locks[i].claimant_uid
    &&& hand.gid == meta.gid
}

/// Every file of every locked cable that is not the claimant's alone is taken, and no other.
pub proof fn law_every_open_file_of_a_locked_cable_is_taken(
    locks: Seq<CableLockModel>,
    scene: SceneModel,
    hand: TakeoverModel,
)
    ensures
        reassertions(locks, scene).contains(hand) <==> exists|i: int| #[trigger]
            is_to_be_taken(locks, scene, i, hand),
{
    let f = to_reassertions(scene);
    let lists = locks.map_values(f);
    lemma_concat_members(lists);
    assert forall|i: int| 0 <= i < locks.len() implies (lists[i].contains(hand)
        <==> #[trigger] is_to_be_taken(locks, scene, i, hand)) by {
        let lock = locks[i];
        if let Some(cable) = scene.cable(lock.serial) {
            let g = to_reassertion(scene.files, lock.claimant_uid);
            let paths = cable.paths();
            let mapped = paths.map_values(g);
            lemma_somes_members(mapped);
            assert(lists[i] == somes(mapped));
            if lists[i].contains(hand) {
                assert(mapped.contains(Some(hand)));
                let p = choose|p: int| 0 <= p < mapped.len() && mapped[p] == Some(hand);
                assert(g(paths[p]) == Some(hand));
                if p > 0 {
                    assert(cable.consoles[p - 1] == hand.path);
                }
            }
            if is_to_be_taken(locks, scene, i, hand) {
                let p: int = if hand.path == cable.jtag {
                    0
                } else {
                    1 + choose|c: int| 0 <= c < cable.consoles.len() && cable.consoles[c] == hand.path
                };
                assert(paths[p] == hand.path);
                assert(mapped[p] == Some(hand));
                assert(mapped.contains(Some(hand)));
            }
        }
    }
    if reassertions(locks, scene).contains(hand) {
        let i = choose|i: int| 0 <= i < lists.len() && (#[trigger] lists[i]).contains(hand);
        assert(is_to_be_taken(locks, scene, i, hand));
    }
    if exists|i: int| #[trigger] is_to_be_taken(locks, scene, i, hand) {
        let i = choose|i: int| #[trigger] is_to_be_taken(locks, scene, i, hand);
        assert(lists[i].contains(hand));
    }
}

/// What a lock remembers of a file is what was seen of it, unless it was nothing, or was the lock
/// itself; then it is what the system gives such a file.
pub proof fn law_a_lock_remembers_what_was_there(wanted: WantedModel, scene: SceneModel)
    ensures
        ({
            let lock = recorded(wanted, scene);
            &&& lock.serial == wanted.serial
            &&& lock.alias == wanted.alias
            &&& lock.claimant == wanted.user
            &&& lock.claimant_uid == wanted.uid
            &&& match looked_up(scene.usb, scene.dev, wanted.serial) {
                Some(cable) => {
                    &&& lock.port_disable == cable.port_disable
                    &&& is_remembered(
                        scene.files,
                        cable.jtag,
                        wanted.uid,
                        lock.jtag_orig,
                        (Ownership { uid: 0, gid: 0, mode: 0o666 }),
                    )
                    &&& lock.console_orig is Some <==> cable.consoles.len() > 0
                    &&& lock.console_orig matches Some(original) ==> is_remembered(
                        scene.files,
                        cable.consoles[0],
                        wanted.uid,
                        original,
                        (Ownership { uid: 0, gid: scene.dialout_gid, mode: 0o660 }),
                    )
                },
                None => {
                    &&& lock.port_disable.len() == 0
                    &&& lock.jtag_orig == (Ownership { uid: 0, gid: 0, mode: 0o666 })
                    &&& lock.console_orig == Some(
                        Ownership { uid: 0, gid: scene.dialout_gid, mode: 0o660 },
                    )
                },
            }
        }),
{
}

pub open spec fn is_remembered(
    files: Seq<FileInfoModel>,
    path: Seq<char>,
    uid: u32,
    original: Ownership,
    usual: Ownership,
) -> bool {
    match file_found(files, path) {
        Ok(meta) => {
            &&& meta.uid != uid || meta.mode != 0o600 ==> original == meta
            &&& meta.uid == uid && meta.mode == 0o600 ==> original == usual
        },
        Err(_) => original == usual,
    }
}

/// Giving a cable back restores its node and, if a console was seen when it was locked, every
/// console it has, each to what the lock remembers; and nothing else.
pub proof fn law_every_file_of_a_cable_is_given_back(
    cable: CableModel,
    lock: CableLockModel,
    step: (Seq<char>, Ownership),
)
    ensures
        restoration(cable, lock).contains(step) <==> (step == (cable.jtag, lock.jtag_orig) || (
        lock.console_orig == Some(step.1) && cable.consoles.contains(step.0))),
{
    let all = restoration(cable, lock);
    if let Some(original) = lock.console_orig {
        let f = |path: Seq<char>| (path, original);
        assert(all =~= seq![(cable.jtag, lock.jtag_orig)] + cable.consoles.map_values(f));
        if step.1 == original && cable.consoles.contains(step.0) {
            let c = choose|c: int| 0 <= c < cable.consoles.len() && cable.consoles[c] == step.0;
            assert(all[c + 1] == step);
        }
        if all.contains(step) {
            let i = choose|i: int| 0 <= i < all.len() && all[i] == step;
            if i > 0 {
                assert(cable.consoles[i - 1] == step.0);
            }
        }
    } else {
        assert(all =~= seq![(cable.jtag, lock.jtag_orig)]);
    }
    assert(all[0] == (cable.jtag, lock.jtag_orig));
}

/// The text stands in the file.
pub open spec fn has_passage(text: Seq<char>, part: Seq<char>) -> bool {
    exists|start: int|
        0 <= start <= start + part.len() <= text.len() && #[trigger] text.subrange(
            start,
            start + part.len(),
        ) == part
}

proof fn lemma_passage_of_list<A>(lists: Seq<Seq<A>>, k: int) -> (start: int)
    requires
        0 <= k < lists.len(),
    ensures
        0 <= start <= start + lists[k].len() <= concat_all(lists).len(),
        concat_all(lists).subrange(start, start + lists[k].len()) == lists[k],
    decreases lists.len(),
{
    let rest = lists.drop_last();
    let before = concat_all(rest);
    let all = concat_all(lists);
    if k < rest.len() {
        let start = lemma_passage_of_list(rest, k);
        assert(all.subrange(start, start + lists[k].len()) =~= before.subrange(
            start,
            start + lists[k].len(),
        ));
        start
    } else {
        let start = before.len() as int;
        assert(all.subrange(start, start + lists[k].len()) =~= lists[k]);
        start
    }
}

/// The rules name every cable with its user, both for the cable's own node and for its consoles.
pub proof fn law_every_cable_has_its_rules(entries: Seq<(Seq<char>, Seq<char>)>, k: int)
    requires
        0 <= k < entries.len(),
    ensures
        has_passage(
            rules_text(entries),
            "SUBSYSTEM==\"usb\", ENV{DEVTYPE}==\"usb_device\", ATTR{serial}==\""@ + entries[k].0
                + "\", OWNER=\""@ + entries[k].1 + "\", MODE=\"0600\"\n"@,
        ),
        has_passage(
            rules_text(entries),
            "SUBSYSTEM==\"tty\", ATTRS{serial}==\""@ + entries[k].0 + "\", OWNER=\""@ + entries[k].1
                + "\", MODE=\"0600\"\n"@,
        ),
{
    let lists = entries.map_values(to_rules());
    let body = concat_all(lists);
    let header = crate::cable::rules_header();
    let text = rules_text(entries);
    let start = lemma_passage_of_list(lists, k);
    let usb = usb_rule(entries[k].0, entries[k].1);
    let tty = tty_rule(entries[k].0, entries[k].1);
    assert(lists[k] == usb + tty);
    let at = header.len() + start;
    let block = body.subrange(start, start + lists[k].len());
    assert(text.subrange(at, at + usb.len()) =~= usb) by {
        assert forall|i: int| 0 <= i < usb.len() implies text[at + i] == usb[i] by {
            assert(text[at + i] == body[start + i]);
            assert(block[i] == body[start + i]);
        }
    }
    let next = at + usb.len();
    assert(text.subrange(next, next + tty.len()) =~= tty) by {
        assert forall|i: int| 0 <= i < tty.len() implies text[next + i] == tty[i] by {
            assert(text[next + i] == body[start + usb.len() + i]);
            assert(block[usb.len() + i] == body[start + usb.len() + i]);
        }
    }
}

/// Every cable that is not locked although its board is claimed is warned about.
pub proof fn law_every_skipped_cable_is_warned_about(
    state: DiskStateModel,
    accounts: Seq<AccountModel>,
    now: Moment,
    usb: Seq<crate::cable::UsbEntryModel>,
    dev: Seq<char>,
    pair: (Seq<char>, Seq<char>),
    serial: Seq<char>,
)
    requires
        live_owners(state.claims, now).contains(pair),
        crate::cable_locks::lists_cable(state.settings, pair.0, serial),
    ensures
        ({
            let warnings = somes(verdicts(state, accounts, now).map_values(to_warning()));
            let twice = repeats(crate::cable::all_serials(state.settings.fpgas)).contains(serial);
            &&& forall|line: Seq<char>| #[trigger]
                warnings.contains(line) ==> sync_warnings(state, accounts, now, usb, dev).contains(line)
            &&& !is_valid_serial(serial) ==> warnings.contains(
                "WARN: "@ + pair.0 + " lists an invalid cable serial "@ + crate::text::quoted(serial)
                    + "; skipping it"@,
            )
            &&& is_valid_serial(serial) && twice ==> warnings.contains(
                "WARN: cable "@ + serial
                    + " is listed by more than one board; locking it for none of them"@,
            )
            &&& is_valid_serial(serial) && !twice && !is_valid_serial(pair.1) ==> warnings.contains(
                "WARN: user name "@ + crate::text::quoted(pair.1)
                    + " cannot go into a udev rule; not locking cable "@ + serial,
            )
            &&& is_valid_serial(serial) && !twice && is_valid_serial(pair.1) && crate::fpga::uid_of(
                accounts,
                pair.1,
            ) is None ==> warnings.contains(
                "WARN: "@ + pair.0 + " is claimed by unknown user "@ + pair.1 + "; leaving cable "@
                    + serial + " alone"@,
            )
        }),
{
    let owners = live_owners(state.claims, now);
    let lists = owners.map_values(to_verdicts(state.settings, accounts));
    let all = verdicts(state, accounts, now);
    let spec = state.settings.fpga(pair.0)->0;
    let duplicates = repeats(crate::cable::all_serials(state.settings.fpgas));
    let i = choose|i: int| 0 <= i < owners.len() && owners[i] == pair;
    let k = choose|k: int| 0 <= k < spec.cables.len() && spec.cables[k] == serial;
    let verdict = to_verdict(pair, duplicates, accounts)(serial);
    assert(lists[i] == spec.cables.map_values(to_verdict(pair, duplicates, accounts)));
    assert(lists[i][k] == verdict);
    assert(lists[i].contains(verdict));
    lemma_concat_members(lists);
    assert(all.contains(verdict));
    let j = choose|j: int| 0 <= j < all.len() && all[j] == verdict;
    let mapped = all.map_values(to_warning());
    if let VerdictModel::Skip(why) = verdict {
        assert(mapped[j] == Some(why));
        assert(mapped.contains(Some(why)));
        lemma_somes_members(mapped);
    }
    let told = somes(mapped);
    let warnings = sync_warnings(state, accounts, now, usb, dev);
    assert forall|line: Seq<char>| #[trigger] told.contains(line) implies warnings.contains(line) by {
        let t = choose|t: int| 0 <= t < told.len() && told[t] == line;
        assert(warnings[t] == line);
    }
}

/// A port is left to be switched on again exactly if it is off and either an eviction has not
/// finished with it or a lock remembers it.
pub proof fn law_exactly_the_disabled_ports_are_switched_on(
    state: DiskStateModel,
    ports: Seq<PortInfoModel>,
    port: Seq<char>,
)
    ensures
        left_disabled(state, ports).contains(port) <==> is_switched_off(ports, port) && (
        state.pending_replug.contains(port) || (port.len() > 0 && exists|i: int|
            0 <= i < state.cable_locks.len() && (#[trigger] state.cable_locks[i]).port_disable
                == port)),
{
    lemma_lock_ports(state.pending_replug, state.cable_locks);
    lemma_filter_members(
        with_lock_ports(state.pending_replug, state.cable_locks),
        is_disabled(ports),
    );
    lemma_switched_off(ports, port);
}

proof fn lemma_switched_off(ports: Seq<PortInfoModel>, port: Seq<char>)
    ensures
        is_disabled(ports)(port) <==> is_switched_off(ports, port),
{
    let pred = port_at(port);
    lemma_first_where(ports, pred);
    let at = first_where(ports, pred);
    if at < ports.len() {
        assert(pred(ports[at]));
        assert forall|j: int| 0 <= j < at implies (#[trigger] ports[j]).path != port by {
            assert(!pred(ports[j]));
        }
        if is_disabled(ports)(port) {
            assert(reads_off(ports, at, port));
        }
        if is_switched_off(ports, port) {
            let p = choose|p: int| #[trigger] reads_off(ports, p, port);
            assert(pred(ports[p]));
            assert(p == at);
        }
    } else {
        if is_switched_off(ports, port) {
            let p = choose|p: int| #[trigger] reads_off(ports, p, port);
            assert(pred(ports[p]));
        }
    }
}

/// Entry `p` is the one for the port, and says that it is off.
pub open spec fn reads_off(ports: Seq<PortInfoModel>, p: int, port: Seq<char>) -> bool {
    &&& 0 <= p < ports.len()
    &&& ports[p].path == port
    &&& forall|j: int| 0 <= j < p ==> (#[trigger] ports[j]).path != port
    &&& ports[p].value matches Some(value)
    &&& trim(value) == "1"@
}

pub open spec fn is_switched_off(ports: Seq<PortInfoModel>, port: Seq<char>) -> bool {
    exists|p: int| #[trigger] reads_off(ports, p, port)
}

proof fn lemma_lock_ports(pending: Seq<Seq<char>>, locks: Seq<CableLockModel>)
    ensures
        forall|port: Seq<char>| #[trigger]
            with_lock_ports(pending, locks).contains(port) <==> pending.contains(port) || (
            port.len() > 0 && exists|i: int|
                0 <= i < locks.len() && (#[trigger] locks[i]).port_disable == port),
    decreases locks.len(),
{
    if locks.len() > 0 {
        let rest = locks.drop_last();
        let last = locks.last().port_disable;
        lemma_lock_ports(pending, rest);
        let earlier = with_lock_ports(pending, rest);
        let all = with_lock_ports(pending, locks);
        assert forall|port: Seq<char>| #[trigger] all.contains(port) <==> pending.contains(port) || (
        port.len() > 0 && exists|i: int|
            0 <= i < locks.len() && (#[trigger] locks[i]).port_disable == port) by {
            if earlier.contains(port) {
                let k = choose|k: int| 0 <= k < earlier.len() && earlier[k] == port;
                assert(all[k] == port);
                if !pending.contains(port) {
                    let i = choose|i: int|
                        0 <= i < rest.len() && (#[trigger] rest[i]).port_disable == port;
                    assert(locks[i].port_disable == port);
                }
            }
            if port == last && port.len() > 0 {
                if !earlier.contains(port) {
                    assert(all[earlier.len() as int] == port);
                }
                assert(locks[locks.len() - 1].port_disable == port);
            }
            if all.contains(port) && !earlier.contains(port) {
                let k = choose|k: int| 0 <= k < all.len() && all[k] == port;
                if k < earlier.len() {
                    assert(earlier[k] == port);
                }
            }
            if port.len() > 0 && exists|i: int|
                0 <= i < locks.len() && (#[trigger] locks[i]).port_disable == port {
                let i = choose|i: int|
                    0 <= i < locks.len() && (#[trigger] locks[i]).port_disable == port;
                if i < rest.len() {
                    assert(rest[i].port_disable == port);
                    assert(earlier.contains(port));
                }
            }
        }
    }
}

/// A port stays on the list exactly as long as it could not be switched on.
pub proof fn law_a_port_is_forgotten_once_it_is_on(
    enable: Seq<Seq<char>>,
    done: Seq<bool>,
    port: Seq<char>,
)
    requires
        done.len() == enable.len(),
    ensures
        still_disabled(enable, done).contains(port) <==> exists|i: int|
            0 <= i < enable.len() && #[trigger] enable[i] == port && !done[i],
{
    lemma_still_disabled(enable, done, port);
}

proof fn lemma_still_disabled(enable: Seq<Seq<char>>, done: Seq<bool>, port: Seq<char>)
    requires
        done.len() >= enable.len(),
    ensures
        still_disabled(enable, done).contains(port) <==> exists|i: int|
            0 <= i < enable.len() && #[trigger] enable[i] == port && !done[i],
    decreases enable.len(),
{
    if enable.len() > 0 {
        let rest = enable.drop_last();
        lemma_still_disabled(rest, done, port);
        let earlier = still_disabled(rest, done);
        let all = still_disabled(enable, done);
        let n = enable.len() - 1;
        if earlier.contains(port) {
            let k = choose|k: int| 0 <= k < earlier.len() && earlier[k] == port;
            assert(all[k] == port);
            let i = choose|i: int| 0 <= i < rest.len() && #[trigger] rest[i] == port && !done[i];
            assert(enable[i] == port);
        }
        if all.contains(port) && !earlier.contains(port) {
            let k = choose|k: int| 0 <= k < all.len() && all[k] == port;
            if k < earlier.len() {
                assert(earlier[k] == port);
            }
            assert(enable[n] == port);
        }
        if exists|i: int| 0 <= i < enable.len() && #[trigger] enable[i] == port && !done[i] {
            let i = choose|i: int|
                0 <= i < enable.len() && #[trigger] enable[i] == port && !done[i];
            if i < n {
                assert(rest[i] == port);
            } else {
                assert(all[earlier.len() as int] == port);
            }
        }
    }
}

/// An eviction that went well takes its port off the list and leaves every other port there.
pub proof fn law_an_eviction_forgets_only_its_own_port(
    pending: Seq<Seq<char>>,
    port: Seq<char>,
    is_left_disabled: bool,
    other: Seq<char>,
)
    ensures
        pending_after(pending, port, is_left_disabled).contains(other) <==> pending.contains(other)
            && (other != port || is_left_disabled),
{
    lemma_filter_members(pending, is_other_port(port));
}

/// How a cable is shown: as invalid if its serial is; as locked exactly if it is plugged in and
/// every one of its files is the claimant's alone.
pub proof fn law_a_cable_is_shown_as_it_is(
    locks: Seq<CableLockModel>,
    serial: Seq<char>,
    scene: SceneModel,
    ports: Seq<PortInfoModel>,
)
    ensures
        ({
            let shown = cable_view(locks, serial, scene, ports);
            let cable = looked_up(scene.usb, scene.dev, serial);
            &&& shown == CableView::Invalid <==> !is_valid_serial(serial)
            &&& shown is Present <==> is_valid_serial(serial) && cable is Some
            &&& shown == (CableView::Present { locked: true }) <==> is_valid_serial(serial)
                && cable is Some && exists|i: int| #[trigger] locks_all_files(locks, i, serial, scene)
            &&& shown == CableView::PortDisabled <==> is_valid_serial(serial) && cable is None
                && exists|i: int| #[trigger] remembers_a_port_that_is_off(locks, i, serial, ports)
            &&& is_valid_serial(serial) && cable is None && is_unlocked(locks, serial) ==> shown
                == CableView::Absent
        }),
{
    let pred = locks_serial(serial);
    let at = first_where(locks, pred);
    lemma_first_where(locks, pred);
    if at < locks.len() {
        assert(pred(locks[at]));
        assert forall|j: int| 0 <= j < at implies (#[trigger] locks[j]).serial != serial by {
            assert(!pred(locks[j]));
        }
    }
    if is_valid_serial(serial) {
        if let Some(cable) = scene.cable(serial) {
            if at < locks.len() && all_locked(cable.paths(), scene.files, locks[at].claimant_uid) {
                let paths = cable.paths();
                assert(paths[0] == cable.jtag);
                assert forall|path: Seq<char>|
                    path == cable.jtag || #[trigger] cable.consoles.contains(
                        path,
                    ) implies is_alone_with(scene.files, path, locks[at].claimant_uid) by {
                    if path != cable.jtag {
                        let c = choose|c: int|
                            0 <= c < cable.consoles.len() && cable.consoles[c] == path;
                        assert(paths[c + 1] == path);
                    }
                }
                assert(is_alone_with(scene.files, cable.jtag, locks[at].claimant_uid));
                assert(locks_all_files(locks, at, serial, scene));
            }
            if exists|i: int| #[trigger] locks_all_files(locks, i, serial, scene) {
                let i = choose|i: int| #[trigger] locks_all_files(locks, i, serial, scene);
                assert(pred(locks[i]));
                assert(i == at);
                let paths = cable.paths();
                assert forall|p: int| 0 <= p < paths.len() implies is_alone_with(
                    scene.files,
                    #[trigger] paths[p],
                    locks[at].claimant_uid,
                ) by {
                    if p > 0 {
                        assert(cable.consoles[p - 1] == paths[p]);
                        assert(cable.consoles.contains(paths[p]));
                    }
                }
                assert(all_locked(paths, scene.files, locks[at].claimant_uid));
            }
        }
    }
    if is_unlocked(locks, serial) && at < locks.len() {
        assert(locks[at].serial == serial);
    }
    if at < locks.len() {
        lemma_switched_off(ports, locks[at].port_disable);
        if locks[at].port_disable.len() > 0 && is_disabled(ports)(locks[at].port_disable) {
            assert(remembers_a_port_that_is_off(locks, at, serial, ports));
        }
    }
    if exists|i: int| #[trigger] remembers_a_port_that_is_off(locks, i, serial, ports) {
        let i = choose|i: int| #[trigger] remembers_a_port_that_is_off(locks, i, serial, ports);
        assert(pred(locks[i]));
        assert(i == at);
    }
}

/// Lock `i` is the one on the cable, and the port that it remembers is off.
pub open spec fn remembers_a_port_that_is_off(
    locks: Seq<CableLockModel>,
    i: int,
    serial: Seq<char>,
    ports: Seq<PortInfoModel>,
) -> bool {
    &&& 0 <= i < locks.len()
    &&& locks[i].serial == serial
    &&& forall|j: int| 0 <= j < i ==> (#[trigger] locks[j]).serial != serial
    &&& locks[i].port_disable.len() > 0
    &&& is_switched_off(ports, locks[i].port_disable)
}

pub open spec fn is_alone_with(files: Seq<FileInfoModel>, path: Seq<char>, uid: u32) -> bool {
    file_found(files, path) matches Ok(meta) && meta.uid == uid && meta.mode == 0o600
}

/// Lock `i` is the one on the cable, and every file of the cable is its claimant's alone.
pub open spec fn locks_all_files(
    locks: Seq<CableLockModel>,
    i: int,
    serial: Seq<char>,
    scene: SceneModel,
) -> bool {
    &&& 0 <= i < locks.len()
    &&& locks[i].serial == serial
    &&& forall|j: int| 0 <= j < i ==> (#[trigger] locks[j]).serial != serial
    &&& looked_up(scene.usb, scene.dev, serial) matches Some(cable)
    &&& is_alone_with(scene.files, cable.jtag, locks[i].claimant_uid)
    &&& forall|path: Seq<char>| #[trigger]
        cable.consoles.contains(path) ==> is_alone_with(scene.files, path, locks[i].claimant_uid)
}

/// A board's cables are called locked only if the board is claimed and every cable is there and
/// locked; a single cable that is not is enough to say otherwise.
pub proof fn law_one_open_cable_is_enough_to_say_so(claimed: bool, views: Seq<CableView>)
    ensures
        cable_phrase(claimed, views) is None <==> views.len() == 0,
        views.len() > 0 && claimed && (forall|i: int|
            0 <= i < views.len() ==> #[trigger] views[i] == (CableView::Present { locked: true }))
            ==> cable_phrase(claimed, views) == Some("cable locked"@),
        claimed && views.contains(CableView::Present { locked: false }) && (forall|i: int|
            0 <= i < views.len() ==> #[trigger] views[i] is Present) ==> cable_phrase(claimed, views)
            == Some("cable NOT locked"@),
        views.contains(CableView::Invalid) ==> cable_phrase(claimed, views) == Some(
            "cable serial invalid"@,
        ),
        views.contains(CableView::PortDisabled) && !views.contains(CableView::Invalid)
            ==> cable_phrase(claimed, views) == Some("cable port disabled"@),
        views.contains(CableView::Absent) && !views.contains(CableView::Invalid) && !views.contains(
            CableView::PortDisabled,
        ) ==> cable_phrase(claimed, views) == Some("cable absent"@),
{
    assert forall|v: CableView| #[trigger] views.contains(v) implies exists|i: int|
        0 <= i < views.len() && #[trigger] views[i] == v by {
        let i = choose|i: int| 0 <= i < views.len() && views[i] == v;
        assert(views[i] == v);
    }
}

/// A process of somebody else holds cable `k` of board `b` open.
pub open spec fn is_held_open(
    specs: Seq<FpgaSpecModel>,
    host: HostModel,
    my_uid: Option<u32>,
    b: int,
    k: int,
    p: int,
) -> bool {
    &&& 0 <= b < specs.len()
    &&& 0 <= k < specs[b].cables.len()
    &&& 0 <= p < host.processes.len()
    &&& is_valid_serial(specs[b].cables[k])
    &&& looked_up(host.usb, host.dev, specs[b].cables[k]) matches Some(cable)
    &&& uses_one_of(host.processes[p], cable.paths())
    &&& parsed_number(host.processes[p].name) matches Some(pid)
    &&& pid <= u32::MAX
    &&& my_uid != Some(runs_for(host.processes[p]))
}

/// Every cable of every board that somebody else holds open is found, with everybody who holds it.
pub proof fn law_every_held_cable_is_found(
    specs: Seq<FpgaSpecModel>,
    host: HostModel,
    my_uid: Option<u32>,
    b: int,
    k: int,
    p: int,
)
    requires
        is_held_open(specs, host, my_uid, b, k, p),
    ensures
        exists|held: HeldCableModel|
            {
                &&& #[trigger] held_cables(specs, host, my_uid).contains(held)
                &&& Some(held.cable) == looked_up(host.usb, host.dev, specs[b].cables[k])
                &&& held.alias == specs[b].alias
                &&& exists|h: int|
                    0 <= h < held.holders.len() && Some((#[trigger] held.holders[h]).pid as nat)
                        == parsed_number(host.processes[p].name) && held.holders[h].uid == runs_for(
                        host.processes[p],
                    )
            },
{
    let serial = specs[b].cables[k];
    let cable = looked_up(host.usb, host.dev, serial)->0;
    let everybody = holders_of(cable.paths(), host.processes, host.accounts);
    let others = everybody.filter(is_foreign(my_uid));
    law_every_process_that_uses_a_file_is_found(cable.paths(), host.processes, host.accounts);
    assert(uses_one_of(host.processes[p], cable.paths()));
    let holder = choose|holder: HolderModel|
        {
            &&& #[trigger] everybody.contains(holder)
            &&& Some(holder.pid as nat) == parsed_number(host.processes[p].name)
            &&& holder.uid == runs_for(host.processes[p])
            &&& cable.paths().contains(holder.device)
            &&& host.processes[p].open_files->0.contains(holder.device)
        };
    lemma_filter_members(everybody, is_foreign(my_uid));
    assert(others.contains(holder));
    let h = choose|h: int| 0 <= h < others.len() && others[h] == holder;
    let held = HeldCableModel { cable, alias: specs[b].alias, holders: others };
    let f = to_held(host, specs[b].alias, my_uid);
    assert(f(serial) == Some(held));
    let mapped = specs[b].cables.map_values(f);
    assert(mapped[k] == Some(held));
    assert(mapped.contains(Some(held)));
    lemma_somes_members(mapped);
    let lists = specs.map_values(to_held_cables(host, my_uid));
    assert(lists[b] == somes(mapped));
    assert(lists[b].contains(held));
    lemma_concat_members(lists);
    assert(held_cables(specs, host, my_uid).contains(held));
    assert(held.holders[h] == holder);
}

/// Whatever is reported as held is a cable of one of the boards, held by somebody else.
pub proof fn law_only_held_cables_are_found(
    specs: Seq<FpgaSpecModel>,
    host: HostModel,
    my_uid: Option<u32>,
    held: HeldCableModel,
)
    requires
        held_cables(specs, host, my_uid).contains(held),
    ensures
        held.holders.len() > 0,
        forall|h: int|
            0 <= h < held.holders.len() ==> my_uid != Some((#[trigger] held.holders[h]).uid),
        exists|b: int, k: int|
            {
                &&& 0 <= b < specs.len()
                &&& 0 <= k < specs[b].cables.len()
                &&& held.alias == specs[b].alias
                &&& is_valid_serial(#[trigger] specs[b].cables[k])
                &&& looked_up(host.usb, host.dev, specs[b].cables[k]) == Some(held.cable)
            },
{
    let lists = specs.map_values(to_held_cables(host, my_uid));
    lemma_concat_members(lists);
    let b = choose|b: int| 0 <= b < lists.len() && (#[trigger] lists[b]).contains(held);
    let f = to_held(host, specs[b].alias, my_uid);
    let mapped = specs[b].cables.map_values(f);
    lemma_somes_members(mapped);
    assert(lists[b] == somes(mapped));
    assert(mapped.contains(Some(held)));
    let k = choose|k: int| 0 <= k < mapped.len() && mapped[k] == Some(held);
    let serial = specs[b].cables[k];
    assert(f(serial) == Some(held));
    let cable = looked_up(host.usb, host.dev, serial)->0;
    let everybody = holders_of(cable.paths(), host.processes, host.accounts);
    lemma_filter_members(everybody, is_foreign(my_uid));
    assert forall|h: int| 0 <= h < held.holders.len() implies my_uid != Some(
        (#[trigger] held.holders[h]).uid,
    ) by {
        assert(held.holders.contains(held.holders[h]));
    }
    assert(is_valid_serial(specs[b].cables[k]));
}

/// A lock that nobody wants is given back if its cable is plugged in, and dropped if it is not.
pub proof fn law_a_sync_restores_what_is_plugged_in(
    state: DiskStateModel,
    accounts: Seq<AccountModel>,
    now: Moment,
    usb: Seq<crate::cable::UsbEntryModel>,
    dev: Seq<char>,
    k: int,
)
    requires
        0 <= k < state.cable_locks.len(),
        is_unwanted(cables_wanted(state, accounts, now), state.cable_locks[k].serial),
    ensures
        ({
            let lock = state.cable_locks[k];
            let actions = sync_actions(state, accounts, now, usb, dev);
            &&& looked_up(usb, dev, lock.serial) is Some ==> actions.contains(
                ActionModel::Restore(lock),
            )
            &&& looked_up(usb, dev, lock.serial) is None ==> actions.contains(
                ActionModel::Drop(lock),
            )
        }),
{
    let present = presence(
        state.cable_locks,
        crate::cable_locks::is_plugged_in(usb, dev),
    );
    let lock = state.cable_locks[k];
    law_every_lock_gets_its_action(
        cables_wanted(state, accounts, now),
        state.cable_locks,
        present,
    );
    assert(present[k] == looked_up(usb, dev, lock.serial) is Some);
    let actions = sync_actions(state, accounts, now, usb, dev);
    if present[k] {
        assert(actions.contains(ActionModel::Restore(lock)));
    } else {
        assert(actions.contains(ActionModel::Drop(lock)));
    }
}

/// The rules that a sync writes name every wanted cable with its user.
pub proof fn law_the_rules_name_every_wanted_cable(
    state: DiskStateModel,
    accounts: Seq<AccountModel>,
    now: Moment,
    w: WantedModel,
)
    requires
        cables_wanted(state, accounts, now).contains(w),
    ensures
        ({
            let text = rules_text(cables_wanted(state, accounts, now).map_values(to_rule_entry()));
            &&& has_passage(
                text,
                "SUBSYSTEM==\"usb\", ENV{DEVTYPE}==\"usb_device\", ATTR{serial}==\""@ + w.serial
                    + "\", OWNER=\""@ + w.user + "\", MODE=\"0600\"\n"@,
            )
            &&& has_passage(
                text,
                "SUBSYSTEM==\"tty\", ATTRS{serial}==\""@ + w.serial + "\", OWNER=\""@ + w.user
                    + "\", MODE=\"0600\"\n"@,
            )
        }),
{
    let wanted = cables_wanted(state, accounts, now);
    let entries = wanted.map_values(to_rule_entry());
    let k = choose|k: int| 0 <= k < wanted.len() && wanted[k] == w;
    assert(entries[k] == (w.serial, w.user));
    law_every_cable_has_its_rules(entries, k);
}

/// Cables of a board that nobody has claimed are called unlocked, if they are all there.
pub proof fn law_cables_of_free_boards_are_unlocked(views: Seq<CableView>)
    requires
        views.len() > 0,
        forall|i: int| 0 <= i < views.len() ==> #[trigger] views[i] is Present,
    ensures
        cable_phrase(false, views) == Some("cable unlocked"@),
{
    assert forall|v: CableView| #[trigger] views.contains(v) implies v is Present by {
        let i = choose|i: int| 0 <= i < views.len() && views[i] == v;
        assert(views[i] is Present);
    }
}

spec fn spares(action: ActionModel, done: bool, lock: CableLockModel) -> bool {
    match action {
        ActionModel::Record(_) => true,
        ActionModel::Repoint(v) => v.serial != lock.serial,
        ActionModel::Drop(other) => other.serial != lock.serial,
        ActionModel::Restore(other) => other.serial != lock.serial || !done,
    }
}

proof fn lemma_spared(
    locks: Seq<CableLockModel>,
    actions: Seq<ActionModel>,
    done: Seq<bool>,
    scene: SceneModel,
    lock: CableLockModel,
)
    requires
        locks.contains(lock),
        forall|i: int|
            0 <= i < actions.len() ==> spares(#[trigger] actions[i], is_done(done, i), lock),
    ensures
        all_applied(locks, actions, done, scene).contains(lock),
    decreases actions.len(),
{
    if actions.len() > 0 {
        let rest = actions.drop_last();
        let n = actions.len() - 1;
        assert forall|i: int| 0 <= i < rest.len() implies spares(
            #[trigger] rest[i],
            is_done(done, i),
            lock,
        ) by {
            assert(rest[i] == actions[i]);
        }
        lemma_spared(locks, rest, done, scene, lock);
        let before = all_applied(locks, rest, done, scene);
        let after = all_applied(locks, actions, done, scene);
        let k = choose|k: int| 0 <= k < before.len() && before[k] == lock;
        assert(spares(actions[n], is_done(done, n), lock));
        match actions[n] {
            ActionModel::Record(_) => {
                assert(after[k] == lock);
            },
            ActionModel::Repoint(v) => {
                let pred = locks_serial(v.serial);
                lemma_first_where(before, pred);
                let at = first_where(before, pred);
                if at < before.len() {
                    assert(pred(before[at]));
                }
                assert(after[k] == lock);
            },
            ActionModel::Drop(other) => {
                lemma_filter_members(before, is_other_cable(other.serial));
            },
            ActionModel::Restore(other) => {
                lemma_filter_members(before, is_other_cable(other.serial));
            },
        }
    }
}

/// A cable that could not be given back stays locked as it was, so that it is tried again.
pub proof fn law_what_could_not_be_given_back_is_kept(
    state: DiskStateModel,
    accounts: Seq<AccountModel>,
    now: Moment,
    done: Seq<bool>,
    scene: SceneModel,
    k: int,
)
    requires
        one_lock_per_cable(state.cable_locks),
        0 <= k < state.cable_locks.len(),
        is_unwanted(cables_wanted(state, accounts, now), state.cable_locks[k].serial),
        looked_up(scene.usb, scene.dev, state.cable_locks[k].serial) is Some,
        forall|i: int|
            0 <= i < sync_actions(state, accounts, now, scene.usb, scene.dev).len()
                && #[trigger] sync_actions(state, accounts, now, scene.usb, scene.dev)[i]
                == ActionModel::Restore(state.cable_locks[k]) ==> !is_done(done, i),
    ensures
        cables_synced(state, accounts, now, done, scene).contains(state.cable_locks[k]),
{
    let locks = state.cable_locks;
    let lock = locks[k];
    let wanted = cables_wanted(state, accounts, now);
    let present = presence(locks, crate::cable_locks::is_plugged_in(scene.usb, scene.dev));
    let actions = sync_actions(state, accounts, now, scene.usb, scene.dev);
    law_every_lock_gets_its_action(wanted, locks, present);
    assert(locks.contains(lock));
    assert forall|i: int| 0 <= i < actions.len() implies spares(
        #[trigger] actions[i],
        is_done(done, i),
        lock,
    ) by {
        assert(actions.contains(actions[i]));
        match actions[i] {
            ActionModel::Record(_) => {},
            ActionModel::Repoint(v) => {
                assert(changes_hands(wanted, locks, v));
                let (m, j) = choose|m: int, j: int|
                    #[trigger] is_handed_over(wanted, locks, m, j) && wanted[m] == v;
                assert(wanted[m].serial != lock.serial);
            },
            ActionModel::Drop(other) => {
                let j = choose|j: int|
                    0 <= j < locks.len() && #[trigger] locks[j] == other && !present[j];
                if other.serial == lock.serial {
                    assert(j == k);
                    assert(present[k]);
                }
            },
            ActionModel::Restore(other) => {
                let j = choose|j: int|
                    0 <= j < locks.len() && #[trigger] locks[j] == other && present[j];
                if other.serial == lock.serial {
                    assert(j == k);
                    assert(actions[i] == ActionModel::Restore(lock));
                }
            },
        }
    }
    lemma_spared(locks, actions, done, scene, lock);
}

/// A lock that changes hands is the new claimant's in every respect and remembers what it did.
pub proof fn law_a_lock_changes_hands_whole(lock: CableLockModel, w: WantedModel)
    ensures
        repointed(lock, w).alias == w.alias,
        repointed(lock, w).claimant == w.user,
        repointed(lock, w).claimant_uid == w.uid,
        repointed(lock, w).serial == lock.serial,
        repointed(lock, w).jtag_orig == lock.jtag_orig,
        repointed(lock, w).console_orig == lock.console_orig,
        repointed(lock, w).port_disable == lock.port_disable,
{
}

/// Each cable adds its two rules to the file, and nothing else is in it but the header.
pub proof fn law_the_rules_are_those_of_the_cables(
    entries: Seq<(Seq<char>, Seq<char>)>,
    entry: (Seq<char>, Seq<char>),
)
    ensures
        rules_text(Seq::empty()) == crate::cable::rules_header(),
        rules_text(entries.push(entry)) == rules_text(entries)
            + "SUBSYSTEM==\"usb\", ENV{DEVTYPE}==\"usb_device\", ATTR{serial}==\""@ + entry.0
            + "\", OWNER=\""@ + entry.1 + "\", MODE=\"0600\"\n"@
            + "SUBSYSTEM==\"tty\", ATTRS{serial}==\""@ + entry.0 + "\", OWNER=\""@ + entry.1
            + "\", MODE=\"0600\"\n"@,
{
    let none = Seq::<(Seq<char>, Seq<char>)>::empty();
    assert(none.map_values(to_rules()) =~= Seq::empty());
    assert(rules_text(none) =~= crate::cable::rules_header());
    let lists = entries.push(entry).map_values(to_rules());
    assert(lists.drop_last() =~= entries.map_values(to_rules()));
    assert(lists.last() == usb_rule(entry.0, entry.1) + tty_rule(entry.0, entry.1));
    assert(rules_text(entries.push(entry)) =~= rules_text(entries)
        + "SUBSYSTEM==\"usb\", ENV{DEVTYPE}==\"usb_device\", ATTR{serial}==\""@ + entry.0
        + "\", OWNER=\""@ + entry.1 + "\", MODE=\"0600\"\n"@
        + "SUBSYSTEM==\"tty\", ATTRS{serial}==\""@ + entry.0 + "\", OWNER=\""@ + entry.1
        + "\", MODE=\"0600\"\n"@);
}

} // verus!
