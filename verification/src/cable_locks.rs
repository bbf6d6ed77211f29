//! Keeping cables locked for their claimants, and giving them back.
use vstd::prelude::*;
use crate::cable::{
    all_serials, duplicate_serials, find, is_valid_serial, look_up, looked_up, paths, valid_serial,
    Cable, CableModel, CableView, UsbEntry, UsbEntryModel,
};
use crate::clock::Moment;
use crate::diskstate::{
    live_at, CableLock, CableLockModel, DiskState, DiskStateModel, FpgaSpecModel, Ownership,
    SettingsModel,
};
use crate::fpga::{
    file_found, find_uid, intended_owners, is_locked_for, live_owners, look_up_file, uid_of,
    Account, AccountModel, FileInfo, FileInfoModel, Takeover, TakeoverModel, LOCKED_MODE,
};
use crate::laws_of_cables::{
    cable_of_claim, claims_cable, law_every_cable_of_a_claimed_board_is_wanted,
};
use crate::seqs::{
    concat_all, distinct, find_first, first_where, lemma_concat_next, lemma_distinct_next,
    lemma_filter_members, lemma_filter_next, lemma_first_where, lemma_first_where_is,
    lemma_map_next, lemma_somes_members, lemma_somes_next, lemma_take_all, lemma_take_next,
    lemma_views_push, opt_view, repeats, some_item, somes, sorted, views,
};
use crate::text::{
    can_answer, copied, describes, is_among, quoted, quoted_text, same_text, sorted_texts,
    text_order, trim, trimmed,
};

verus! {

/// A cable that an exclusive claim should hold.
#[derive(Debug, PartialEq, Eq)]
pub struct Wanted {
    pub serial: String,
    pub alias: String,
    pub user: String,
    pub uid: u32,
}

#[verifier::ext_equal]
pub struct WantedModel {
    pub serial: Seq<char>,
    pub alias: Seq<char>,
    pub user: Seq<char>,
    pub uid: u32,
}

impl View for Wanted {
    type V = WantedModel;

    open spec fn view(&self) -> WantedModel {
        WantedModel {
            serial: self.serial@,
            alias: self.alias@,
            user: self.user@,
            uid: self.uid,
        }
    }
}

impl Clone for Wanted {
    fn clone(&self) -> (res: Self)
        ensures
            res@ == self@,
    {
        Wanted {
            serial: self.serial.clone(),
            alias: self.alias.clone(),
            user: self.user.clone(),
            uid: self.uid,
        }
    }
}

#[derive(Debug, PartialEq, Eq)]
pub enum Action {
    /// Claimed but not locked yet: record a lock.
    Record(Wanted),
    /// No longer claimed and plugged in: put the original ownership back, then drop the lock.
    Restore(CableLock),
    /// No longer claimed and unplugged: drop the lock; it comes back with the usual ownership.
    Drop(CableLock),
    /// The board changed hands: keep the original ownership, change who holds the cable.
    Repoint(Wanted),
}

#[verifier::ext_equal]
pub enum ActionModel {
    Record(WantedModel),
    Restore(CableLockModel),
    Drop(CableLockModel),
    Repoint(WantedModel),
}

impl View for Action {
    type V = ActionModel;

    open spec fn view(&self) -> ActionModel {
        match self {
            Action::Record(wanted) => ActionModel::Record(wanted@),
            Action::Restore(lock) => ActionModel::Restore(lock@),
            Action::Drop(lock) => ActionModel::Drop(lock@),
            Action::Repoint(wanted) => ActionModel::Repoint(wanted@),
        }
    }
}

pub open spec fn wants(serial: Seq<char>) -> spec_fn(WantedModel) -> bool {
    |wanted: WantedModel| wanted.serial == serial
}

pub open spec fn locks_serial(serial: Seq<char>) -> spec_fn(CableLockModel) -> bool {
    |lock: CableLockModel| lock.serial == serial
}

pub open spec fn not_locked_in(locks: Seq<CableLockModel>) -> spec_fn(WantedModel) -> bool {
    |wanted: WantedModel| !some_item(locks, locks_serial(wanted.serial))
}

pub open spec fn to_record() -> spec_fn(WantedModel) -> ActionModel {
    |wanted: WantedModel| ActionModel::Record(wanted)
}

/// What becomes of one lock, given whether its cable is plugged in.
pub open spec fn lock_action(
    wanted: Seq<WantedModel>,
    lock: CableLockModel,
    present: bool,
) -> Option<ActionModel> {
    match find_first(wanted, wants(lock.serial)) {
        Some(w) => if w.uid != lock.claimant_uid || w.user != lock.claimant {
            Some(ActionModel::Repoint(w))
        } else {
            None
        },
        None => if present {
            Some(ActionModel::Restore(lock))
        } else {
            Some(ActionModel::Drop(lock))
        },
    }
}

/// What becomes of the locks, given for each whether its cable is plugged in.
pub open spec fn lock_actions(
    wanted: Seq<WantedModel>,
    locks: Seq<CableLockModel>,
    present: Seq<bool>,
) -> Seq<ActionModel> {
    somes(locks.map(|i: int, lock: CableLockModel| lock_action(wanted, lock, present[i])))
}

/// What to do to bring the locks in line with the claims: first what becomes of each lock, then a
/// new lock for what has none.
pub open spec fn planned(
    wanted: Seq<WantedModel>,
    locks: Seq<CableLockModel>,
    present: Seq<bool>,
) -> Seq<ActionModel> {
    lock_actions(wanted, locks, present) + wanted.filter(not_locked_in(locks)).map_values(
        to_record(),
    )
}

/// For each lock, whether its cable is plugged in, according to `present`.
pub open spec fn presence(locks: Seq<CableLockModel>, present: spec_fn(Seq<char>) -> bool) -> Seq<
    bool,
> {
    locks.map_values(|lock: CableLockModel| present(lock.serial))
}

fn find_wanted<'a>(wanted: &'a [Wanted], serial: &str) -> (found: Option<&'a Wanted>)
    ensures
        opt_view(found) == find_first(views(wanted@), wants(serial@)),
{
    let ghost pred = wants(serial@);
    for i in 0..wanted.len()
        invariant
            pred == wants(serial@),
            forall|j: int| 0 <= j < i ==> !pred(#[trigger] views(wanted@)[j]),
    {
        if same_text(wanted[i].serial.as_str(), serial) {
            proof {
                lemma_first_where_is(views(wanted@), pred, i as int);
            }
            return Some(&wanted[i]);
        }
    }
    proof {
        lemma_first_where_is(views(wanted@), pred, wanted@.len() as int);
    }
    None
}

fn lock_position(locks: &[CableLock], serial: &str) -> (at: usize)
    ensures
        at == first_where(views(locks@), locks_serial(serial@)),
        at <= locks@.len(),
{
    let ghost pred = locks_serial(serial@);
    for i in 0..locks.len()
        invariant
            pred == locks_serial(serial@),
            forall|j: int| 0 <= j < i ==> !pred(#[trigger] views(locks@)[j]),
    {
        if same_text(locks[i].serial.as_str(), serial) {
            proof {
                lemma_first_where_is(views(locks@), pred, i as int);
            }
            return i;
        }
    }
    proof {
        lemma_first_where_is(views(locks@), pred, locks@.len() as int);
    }
    locks.len()
}

/// What to do to bring the cable locks in line with the claims; see [`planned`]. `present` is
/// asked about the serials of locks that nobody wants any more.
pub fn plan(wanted: &[Wanted], locks: &[CableLock], present: impl Fn(&str) -> bool) -> (actions: Vec<
    Action,
>)
    requires
        forall|text: &str| #[trigger] call_requires(present, (text,)),
    ensures
        forall|f: spec_fn(Seq<char>) -> bool| #[trigger]
            describes(present, f) ==> views(actions@) == planned(
                views(wanted@),
                views(locks@),
                presence(views(locks@), f),
            ),
        exists|answers: Seq<bool>|
            {
                &&& answers.len() == locks@.len()
                &&& views(actions@) == #[trigger] planned(views(wanted@), views(locks@), answers)
                &&& forall|i: int|
                    0 <= i < locks@.len() && !some_item(
                        views(wanted@),
                        wants((#[trigger] locks@[i])@.serial),
                    ) ==> can_answer(present, locks@[i]@.serial, answers[i])
            },
{
    let ghost all = views(locks@);
    let ghost w = views(wanted@);
    let mut actions: Vec<Action> = Vec::new();
    let ghost mut answers: Seq<bool> = Seq::empty();
    assert(views(actions@) =~= lock_actions(w, all.take(0), answers));
    for i in 0..locks.len()
        invariant
            all == views(locks@),
            w == views(wanted@),
            forall|text: &str| #[trigger] call_requires(present, (text,)),
            answers.len() == i,
            views(actions@) == lock_actions(w, all.take(i as int), answers),
            forall|k: int|
                0 <= k < i && !some_item(w, wants((#[trigger] locks@[k])@.serial)) ==> can_answer(
                    present,
                    locks@[k]@.serial,
                    answers[k],
                ),
    {
        let lock = &locks[i];
        let ghost before = answers;
        proof {
            lemma_first_where(w, wants(lock@.serial));
        }
        let here: bool;
        let action: Option<Action>;
        match find_wanted(wanted, lock.serial.as_str()) {
            Some(found) => {
                here = false;
                if found.uid != lock.claimant_uid || !same_text(
                    found.user.as_str(),
                    lock.claimant.as_str(),
                ) {
                    action = Some(Action::Repoint(found.clone()));
                } else {
                    action = None;
                }
            },
            None => {
                here = present(lock.serial.as_str());
                assert(can_answer(present, lock@.serial, here));
                if here {
                    action = Some(Action::Restore(lock.clone()));
                } else {
                    action = Some(Action::Drop(lock.clone()));
                }
            },
        }
        proof {
            answers = before.push(here);
            assert(opt_view(action) == lock_action(w, lock@, here));
            lemma_lock_actions_next(w, all, answers, i as int);
            assert(answers.take(i as int) =~= before);
            assert(answers.take(i + 1) =~= answers);
        }
        if let Some(action) = action {
            proof {
                lemma_views_push(actions@, action);
            }
            actions.push(action);
        }
    }
    let ghost first = views(actions@);
    let ghost pred = not_locked_in(all);
    proof {
        lemma_take_all(all);
        reveal(Seq::filter);
        assert(first =~= first + w.take(0).filter(pred).map_values(to_record()));
    }
    for i in 0..wanted.len()
        invariant
            all == views(locks@),
            w == views(wanted@),
            pred == not_locked_in(all),
            views(actions@) == first + w.take(i as int).filter(pred).map_values(to_record()),
    {
        proof {
            lemma_filter_next(w, i as int, pred);
            lemma_first_where(all, locks_serial(wanted@[i as int]@.serial));
        }
        if lock_position(locks, wanted[i].serial.as_str()) == locks.len() {
            let action = Action::Record(wanted[i].clone());
            proof {
                let kept = w.take(i as int).filter(pred);
                assert(kept.push(w[i as int]).map_values(to_record()) =~= kept.map_values(
                    to_record(),
                ).push(action@));
                lemma_views_push(actions@, action);
                assert((first + kept.map_values(to_record())).push(action@) =~= first
                    + kept.map_values(to_record()).push(action@));
            }
            actions.push(action);
        }
    }
    proof {
        lemma_take_all(w);
        assert(views(actions@) == planned(w, all, answers));
        assert forall|f: spec_fn(Seq<char>) -> bool| #[trigger] describes(present, f) implies views(
            actions@,
        ) == planned(w, all, presence(all, f)) by {
            lemma_plan_of_answers(w, all, answers, presence(all, f));
        }
    }
    actions
}

proof fn lemma_lock_actions_next(
    wanted: Seq<WantedModel>,
    locks: Seq<CableLockModel>,
    present: Seq<bool>,
    n: int,
)
    requires
        0 <= n < locks.len(),
        n < present.len(),
    ensures
        lock_actions(wanted, locks.take(n + 1), present.take(n + 1)) == match lock_action(
            wanted,
            locks[n],
            present[n],
        ) {
            Some(action) => lock_actions(wanted, locks.take(n), present.take(n)).push(action),
            None => lock_actions(wanted, locks.take(n), present.take(n)),
        },
{
    let all = locks.take(n + 1).map(
        |i: int, lock: CableLockModel| lock_action(wanted, lock, present.take(n + 1)[i]),
    );
    let fewer = locks.take(n).map(
        |i: int, lock: CableLockModel| lock_action(wanted, lock, present.take(n)[i]),
    );
    assert(all.drop_last() =~= fewer);
    assert(all.last() == lock_action(wanted, locks[n], present[n]));
}

/// Only the answers about locks that nobody wants matter.
proof fn lemma_plan_of_answers(
    wanted: Seq<WantedModel>,
    locks: Seq<CableLockModel>,
    a: Seq<bool>,
    b: Seq<bool>,
)
    requires
        a.len() == locks.len(),
        b.len() == locks.len(),
        forall|i: int|
            0 <= i < locks.len() && !some_item(wanted, wants((#[trigger] locks[i]).serial))
                ==> a[i] == b[i],
    ensures
        planned(wanted, locks, a) == planned(wanted, locks, b),
{
    let left = locks.map(|i: int, lock: CableLockModel| lock_action(wanted, lock, a[i]));
    let right = locks.map(|i: int, lock: CableLockModel| lock_action(wanted, lock, b[i]));
    assert forall|i: int| 0 <= i < locks.len() implies left[i] == right[i] by {
        lemma_first_where(wanted, wants(locks[i].serial));
    }
    assert(left =~= right);
}

/// What the files of a cable are like when nobody has claimed it.
pub open spec fn default_jtag() -> Ownership {
    Ownership { uid: 0, gid: 0, mode: 0o666 }
}

pub open spec fn default_console(dialout_gid: u32) -> Ownership {
    Ownership { uid: 0, gid: dialout_gid, mode: 0o660 }
}

/// What the file at `path` is like, unless it cannot be looked at or is locked for the claimant
/// already: then `otherwise`.
pub open spec fn genuine(
    files: Seq<FileInfoModel>,
    path: Seq<char>,
    claimant_uid: u32,
    otherwise: Ownership,
) -> Ownership {
    match file_found(files, path) {
        Ok(meta) => if meta.uid == claimant_uid && meta.mode == 0o600 {
            otherwise
        } else {
            meta
        },
        Err(_) => otherwise,
    }
}

/// The ownership to restore on release, of the JTAG node and of the consoles.
pub open spec fn originals(
    cable: Option<CableModel>,
    files: Seq<FileInfoModel>,
    claimant_uid: u32,
    dialout_gid: u32,
) -> (Ownership, Option<Ownership>) {
    match cable {
        Some(cable) => (
            genuine(files, cable.jtag, claimant_uid, default_jtag()),
            if cable.consoles.len() > 0 {
                Some(
                    genuine(files, cable.consoles[0], claimant_uid, default_console(dialout_gid)),
                )
            } else {
                None
            },
        ),
        None => (default_jtag(), Some(default_console(dialout_gid))),
    }
}

fn genuine_ownership(files: &[FileInfo], path: &str, claimant_uid: u32, otherwise: Ownership) -> (out:
    Ownership)
    ensures
        out == genuine(views(files@), path@, claimant_uid, otherwise),
{
    match look_up_file(files, path) {
        Ok(meta) => if meta.uid == claimant_uid && meta.mode == 0o600 {
            otherwise
        } else {
            meta
        },
        Err(_) => otherwise,
    }
}

/// The ownership to restore on release. It is read from the cable's files unless they cannot tell:
/// the cable is absent, or the files are already the claimant's. Then the usual one is taken.
pub fn original_ownership(
    cable: Option<&Cable>,
    files: &[FileInfo],
    claimant_uid: u32,
    dialout_gid: u32,
) -> (out: (Ownership, Option<Ownership>))
    ensures
        out == originals(opt_view(cable), views(files@), claimant_uid, dialout_gid),
{
    let jtag = Ownership { uid: 0, gid: 0, mode: 0o666 };
    let console = Ownership { uid: 0, gid: dialout_gid, mode: 0o660 };
    match cable {
        Some(cable) => {
            let jtag = genuine_ownership(files, cable.jtag.as_str(), claimant_uid, jtag);
            let console = if cable.consoles.len() > 0 {
                Some(genuine_ownership(files, cable.consoles[0].as_str(), claimant_uid, console))
            } else {
                None
            };
            (jtag, console)
        },
        None => (jtag, Some(console)),
    }
}

/// Files that are already locked for the claimant are never remembered as the original: what is
/// restored on release is not the lock.
pub proof fn law_a_lock_is_never_the_original(
    cable: Option<CableModel>,
    files: Seq<FileInfoModel>,
    claimant_uid: u32,
    dialout_gid: u32,
)
    ensures
        ({
            let out = originals(cable, files, claimant_uid, dialout_gid);
            &&& !(out.0.uid == claimant_uid && out.0.mode == LOCKED_MODE)
            &&& out.1 matches Some(console) ==> !(console.uid == claimant_uid && console.mode
                == LOCKED_MODE)
        }),
{
}

/// What is decided about one cable of a claimed board: to lock it, or why not.
#[derive(Debug, PartialEq, Eq)]
pub enum Verdict {
    Lock(Wanted),
    Skip(String),
}

#[verifier::ext_equal]
pub enum VerdictModel {
    Lock(WantedModel),
    Skip(Seq<char>),
}

impl View for Verdict {
    type V = VerdictModel;

    open spec fn view(&self) -> VerdictModel {
        match self {
            Verdict::Lock(wanted) => VerdictModel::Lock(wanted@),
            Verdict::Skip(why) => VerdictModel::Skip(why@),
        }
    }
}

/// What is said of a serial that is not valid; `shown` is the serial in quotes.
pub open spec fn invalid_serial_warning(alias: Seq<char>, shown: Seq<char>) -> Seq<char> {
    "WARN: "@ + alias + " lists an invalid cable serial "@ + shown + "; skipping it"@
}

/// What is said of a user name that cannot go into a rule; `shown` is the name in quotes.
pub open spec fn unusable_name_warning(shown: Seq<char>, serial: Seq<char>) -> Seq<char> {
    "WARN: user name "@ + shown + " cannot go into a udev rule; not locking cable "@ + serial
}

/// A cable is locked if its serial is valid and listed only once, and its claimant has an account
/// with a name that can go into a rule.
pub open spec fn to_verdict(
    pair: (Seq<char>, Seq<char>),
    duplicates: Seq<Seq<char>>,
    accounts: Seq<AccountModel>,
) -> spec_fn(Seq<char>) -> VerdictModel {
    |serial: Seq<char>|
        if !is_valid_serial(serial) {
            VerdictModel::Skip(invalid_serial_warning(pair.0, quoted(serial)))
        } else if duplicates.contains(serial) {
            VerdictModel::Skip(
                "WARN: cable "@ + serial
                    + " is listed by more than one board; locking it for none of them"@,
            )
        } else if !is_valid_serial(pair.1) {
            VerdictModel::Skip(unusable_name_warning(quoted(pair.1), serial))
        } else {
            match uid_of(accounts, pair.1) {
                Some(uid) => VerdictModel::Lock(
                    WantedModel { serial, alias: pair.0, user: pair.1, uid },
                ),
                None => VerdictModel::Skip(
                    "WARN: "@ + pair.0 + " is claimed by unknown user "@ + pair.1
                        + "; leaving cable "@ + serial + " alone"@,
                ),
            }
        }
}

pub open spec fn to_verdicts(settings: SettingsModel, accounts: Seq<AccountModel>) -> spec_fn(
    (Seq<char>, Seq<char>),
) -> Seq<VerdictModel> {
    |pair: (Seq<char>, Seq<char>)|
        match settings.fpga(pair.0) {
            Some(spec) => spec.cables.map_values(
                to_verdict(pair, repeats(all_serials(settings.fpgas)), accounts),
            ),
            None => Seq::empty(),
        }
}

/// What is decided about each cable of each claimed board.
pub open spec fn verdicts(
    state: DiskStateModel,
    accounts: Seq<AccountModel>,
    now: Moment,
) -> Seq<VerdictModel> {
    concat_all(live_owners(state.claims, now).map_values(to_verdicts(state.settings, accounts)))
}

pub open spec fn to_wanted() -> spec_fn(VerdictModel) -> Option<WantedModel> {
    |verdict: VerdictModel|
        match verdict {
            VerdictModel::Lock(wanted) => Some(wanted),
            VerdictModel::Skip(_) => None,
        }
}

pub open spec fn to_warning() -> spec_fn(VerdictModel) -> Option<Seq<char>> {
    |verdict: VerdictModel|
        match verdict {
            VerdictModel::Lock(_) => None,
            VerdictModel::Skip(why) => Some(why),
        }
}

/// The cables that the exclusive claims should hold.
pub open spec fn cables_wanted(
    state: DiskStateModel,
    accounts: Seq<AccountModel>,
    now: Moment,
) -> Seq<WantedModel> {
    somes(verdicts(state, accounts, now).map_values(to_wanted()))
}

/// What to say of an invalid serial of the board `alias`, which is `shown` in quotes.
pub fn invalid_serial_line(alias: &str, shown: &str) -> (line: String)
    ensures
        line@ == invalid_serial_warning(alias@, shown@),
{
    let mut line = "WARN: ".to_string();
    line.append(alias);
    line.append(" lists an invalid cable serial ");
    line.append(shown);
    line.append("; skipping it");
    line
}

/// What to say of a user name that cannot go into a rule for `serial`; it is `shown` in quotes.
pub fn unusable_name_line(shown: &str, serial: &str) -> (line: String)
    ensures
        line@ == unusable_name_warning(shown@, serial@),
{
    let mut line = "WARN: user name ".to_string();
    line.append(shown);
    line.append(" cannot go into a udev rule; not locking cable ");
    line.append(serial);
    line
}

fn judge(pair: &(String, String), serial: &str, duplicates: &[String], accounts: &[Account]) -> (out:
    Verdict)
    ensures
        out@ == to_verdict(pair@, views(duplicates@), views(accounts@))(serial@),
{
    let alias = pair.0.as_str();
    let user = pair.1.as_str();
    if !valid_serial(serial) {
        let shown = quoted_text(serial);
        return Verdict::Skip(invalid_serial_line(alias, shown.as_str()));
    }
    if is_among(serial, duplicates) {
        let mut why = "WARN: cable ".to_string();
        why.append(serial);
        why.append(" is listed by more than one board; locking it for none of them");
        return Verdict::Skip(why);
    }
    if !valid_serial(user) {
        let shown = quoted_text(user);
        return Verdict::Skip(unusable_name_line(shown.as_str(), serial));
    }
    match find_uid(accounts, user) {
        Some(uid) => Verdict::Lock(
            Wanted {
                serial: serial.to_string(),
                alias: alias.to_string(),
                user: user.to_string(),
                uid,
            },
        ),
        None => {
            let mut why = "WARN: ".to_string();
            why.append(alias);
            why.append(" is claimed by unknown user ");
            why.append(user);
            why.append("; leaving cable ");
            why.append(serial);
            why.append(" alone");
            Verdict::Skip(why)
        },
    }
}

fn judge_all(state: &DiskState, accounts: &[Account], now: Moment) -> (out: Vec<Verdict>)
    ensures
        views(out@) == verdicts(state@, views(accounts@), now),
{
    let intended = intended_owners(state, now);
    let duplicates = duplicate_serials(&state.settings.fpgas);
    let ghost f = to_verdicts(state@.settings, views(accounts@));
    let ghost pairs = views(intended@);
    let mut out: Vec<Verdict> = Vec::new();
    proof {
        assert(pairs.take(0).map_values(f) =~= Seq::empty());
        assert(views(out@) =~= Seq::empty());
    }
    for i in 0..intended.len()
        invariant
            pairs == views(intended@),
            views(duplicates@) == repeats(all_serials(state@.settings.fpgas)),
            f == to_verdicts(state@.settings, views(accounts@)),
            views(out@) == concat_all(pairs.take(i as int).map_values(f)),
    {
        let pair = &intended[i];
        let ghost sofar = views(out@);
        proof {
            lemma_concat_next(pairs, i as int, f);
            assert(sofar + Seq::<VerdictModel>::empty() =~= sofar);
        }
        if let Some(spec) = state.settings.fpga(pair.0.as_str()) {
            let ghost g = to_verdict(pair@, views(duplicates@), views(accounts@));
            let ghost serials = spec@.cables;
            assert(sofar + serials.take(0).map_values(g) =~= sofar);
            for k in 0..spec.cables.len()
                invariant
                    g == to_verdict(pair@, views(duplicates@), views(accounts@)),
                    serials == spec@.cables,
                    views(out@) == sofar + serials.take(k as int).map_values(g),
            {
                let verdict = judge(pair, spec.cables[k].as_str(), &duplicates, accounts);
                proof {
                    lemma_map_next(serials, k as int, g);
                    lemma_views_push(out@, verdict);
                    let before = serials.take(k as int).map_values(g);
                    assert((sofar + before).push(verdict@) =~= sofar + before.push(verdict@));
                }
                out.push(verdict);
            }
            proof {
                lemma_take_all(serials);
            }
        }
    }
    proof {
        lemma_take_all(pairs);
    }
    out
}

/// Cables that the exclusive claims should hold. Those that cannot be locked are left out; see
/// [`wanted_warnings`].
pub fn wanted(state: &DiskState, accounts: &[Account], now: Moment) -> (out: Vec<Wanted>)
    ensures
        views(out@) == cables_wanted(state@, views(accounts@), now),
        forall|c: int, b: int, k: int, a: int| #[trigger]
            claims_cable(state@, views(accounts@), now, c, b, k, a) ==> views(out@).contains(
                cable_of_claim(state@, views(accounts@), b, k, a),
            ),
{
    let all = judge_all(state, accounts, now);
    let ghost f = to_wanted();
    let mut out: Vec<Wanted> = Vec::new();
    assert(views(out@) =~= somes(views(all@).take(0).map_values(f)));
    for i in 0..all.len()
        invariant
            f == to_wanted(),
            views(out@) == somes(views(all@).take(i as int).map_values(f)),
    {
        proof {
            lemma_somes_next(views(all@), i as int, f);
        }
        if let Verdict::Lock(one) = &all[i] {
            let one = one.clone();
            proof {
                lemma_views_push(out@, one);
            }
            out.push(one);
        }
    }
    proof {
        lemma_take_all(views(all@));
        assert forall|c: int, b: int, k: int, a: int| #[trigger]
            claims_cable(state@, views(accounts@), now, c, b, k, a) implies views(out@).contains(
            cable_of_claim(state@, views(accounts@), b, k, a),
        ) by {
            law_every_cable_of_a_claimed_board_is_wanted(
                state@,
                views(accounts@),
                now,
                c,
                b,
                k,
                a,
            );
        }
    }
    out
}

/// A warning for each cable of a claimed board that cannot be locked.
pub fn wanted_warnings(state: &DiskState, accounts: &[Account], now: Moment) -> (out: Vec<String>)
    ensures
        views(out@) == somes(verdicts(state@, views(accounts@), now).map_values(to_warning())),
{
    let all = judge_all(state, accounts, now);
    let ghost f = to_warning();
    let mut out: Vec<String> = Vec::new();
    assert(views(out@) =~= somes(views(all@).take(0).map_values(f)));
    for i in 0..all.len()
        invariant
            f == to_warning(),
            views(out@) == somes(views(all@).take(i as int).map_values(f)),
    {
        proof {
            lemma_somes_next(views(all@), i as int, f);
        }
        if let Verdict::Skip(why) = &all[i] {
            let why = why.clone();
            proof {
                lemma_views_push(out@, why);
            }
            out.push(why);
        }
    }
    proof {
        lemma_take_all(views(all@));
    }
    out
}

/// What was seen of the cables: the USB devices, what the cables' files are like, and the group
/// that consoles usually have.
#[derive(Debug, PartialEq, Eq)]
pub struct Scene {
    pub usb: Vec<UsbEntry>,
    pub dev: String,
    pub files: Vec<FileInfo>,
    pub dialout_gid: u32,
}

#[verifier::ext_equal]
pub struct SceneModel {
    pub usb: Seq<UsbEntryModel>,
    pub dev: Seq<char>,
    pub files: Seq<FileInfoModel>,
    pub dialout_gid: u32,
}

impl View for Scene {
    type V = SceneModel;

    open spec fn view(&self) -> SceneModel {
        SceneModel {
            usb: views(self.usb@),
            dev: self.dev@,
            files: views(self.files@),
            dialout_gid: self.dialout_gid,
        }
    }
}

impl SceneModel {
    pub open spec fn cable(self, serial: Seq<char>) -> Option<CableModel> {
        looked_up(self.usb, self.dev, serial)
    }
}

pub open spec fn is_plugged_in(usb: Seq<UsbEntryModel>, dev: Seq<char>) -> spec_fn(
    Seq<char>,
) -> bool {
    |serial: Seq<char>| looked_up(usb, dev, serial) is Some
}

/// The lock on a cable that is claimed now.
pub open spec fn recorded(wanted: WantedModel, scene: SceneModel) -> CableLockModel {
    let cable = scene.cable(wanted.serial);
    let orig = originals(cable, scene.files, wanted.uid, scene.dialout_gid);
    CableLockModel {
        serial: wanted.serial,
        alias: wanted.alias,
        claimant: wanted.user,
        claimant_uid: wanted.uid,
        jtag_orig: orig.0,
        console_orig: orig.1,
        port_disable: match cable {
            Some(cable) => cable.port_disable,
            None => Seq::empty(),
        },
    }
}

pub open spec fn repointed(lock: CableLockModel, wanted: WantedModel) -> CableLockModel {
    CableLockModel {
        alias: wanted.alias,
        claimant: wanted.user,
        claimant_uid: wanted.uid,
        ..lock
    }
}

pub open spec fn is_other_cable(serial: Seq<char>) -> spec_fn(CableLockModel) -> bool {
    |lock: CableLockModel| lock.serial != serial
}

/// The locks after one action. `done` says whether the files of a cable that is given back could
/// be restored; if not, its lock stays and the next pass tries again.
pub open spec fn applied(
    locks: Seq<CableLockModel>,
    action: ActionModel,
    done: bool,
    scene: SceneModel,
) -> Seq<CableLockModel> {
    match action {
        ActionModel::Record(wanted) => locks.push(recorded(wanted, scene)),
        ActionModel::Repoint(wanted) => {
            let at = first_where(locks, locks_serial(wanted.serial));
            if at < locks.len() {
                locks.update(at, repointed(locks[at], wanted))
            } else {
                locks
            }
        },
        ActionModel::Drop(lock) => locks.filter(is_other_cable(lock.serial)),
        ActionModel::Restore(lock) => if done {
            locks.filter(is_other_cable(lock.serial))
        } else {
            locks
        },
    }
}

/// Whether the action with the number `i` was carried out; one that `done` says nothing of was not.
pub open spec fn is_done(done: Seq<bool>, i: int) -> bool {
    0 <= i < done.len() && done[i]
}

/// The locks after all the actions, one after the other.
pub open spec fn all_applied(
    locks: Seq<CableLockModel>,
    actions: Seq<ActionModel>,
    done: Seq<bool>,
    scene: SceneModel,
) -> Seq<CableLockModel>
    decreases actions.len(),
{
    if actions.len() == 0 {
        locks
    } else {
        applied(
            all_applied(locks, actions.drop_last(), done, scene),
            actions.last(),
            is_done(done, actions.len() - 1),
            scene,
        )
    }
}

/// The file at `path`, if it is there and not the claimant's, as it is to be handed over: it keeps
/// its group.
pub open spec fn to_reassertion(files: Seq<FileInfoModel>, uid: u32) -> spec_fn(
    Seq<char>,
) -> Option<TakeoverModel> {
    |path: Seq<char>|
        match file_found(files, path) {
            Ok(meta) => if meta.uid == uid && meta.mode == LOCKED_MODE {
                None
            } else {
                Some(TakeoverModel { path, uid, gid: meta.gid })
            },
            Err(_) => None,
        }
}

pub open spec fn to_reassertions(scene: SceneModel) -> spec_fn(CableLockModel) -> Seq<
    TakeoverModel,
> {
    |lock: CableLockModel|
        match scene.cable(lock.serial) {
            Some(cable) => somes(
                cable.paths().map_values(to_reassertion(scene.files, lock.claimant_uid)),
            ),
            None => Seq::empty(),
        }
}

/// The files of locked cables that are not their claimant's yet.
pub open spec fn reassertions(locks: Seq<CableLockModel>, scene: SceneModel) -> Seq<TakeoverModel> {
    concat_all(locks.map_values(to_reassertions(scene)))
}

/// What a pass over the cables is going to do.
#[derive(Debug, PartialEq, Eq)]
pub struct SyncPlan {
    /// (serial, user) of each cable that a rule is written for.
    pub rules: Vec<(String, String)>,
    pub actions: Vec<Action>,
    pub warnings: Vec<String>,
}

pub open spec fn to_rule_entry() -> spec_fn(WantedModel) -> (Seq<char>, Seq<char>) {
    |wanted: WantedModel| (wanted.serial, wanted.user)
}

pub open spec fn to_wanted_serial() -> spec_fn(WantedModel) -> Seq<char> {
    |wanted: WantedModel| wanted.serial
}

pub open spec fn to_lock_serial() -> spec_fn(CableLockModel) -> Seq<char> {
    |lock: CableLockModel| lock.serial
}

/// The serials that a pass looks for, each once and sorted.
pub open spec fn serials_sought(wanted: Seq<WantedModel>, locks: Seq<CableLockModel>) -> Seq<
    Seq<char>,
> {
    sorted(
        distinct(wanted.map_values(to_wanted_serial()) + locks.map_values(to_lock_serial())),
        text_order(),
    )
}

pub open spec fn to_find_warning(usb: Seq<UsbEntryModel>, dev: Seq<char>) -> spec_fn(
    Seq<char>,
) -> Option<Seq<char>> {
    |serial: Seq<char>|
        match crate::cable::cable_found(usb, dev, serial) {
            Ok(_) => None,
            Err(why) => Some("WARN: "@ + why),
        }
}

/// What a pass over the cables does, from the claims and from what is plugged in.
pub open spec fn sync_actions(
    state: DiskStateModel,
    accounts: Seq<AccountModel>,
    now: Moment,
    usb: Seq<UsbEntryModel>,
    dev: Seq<char>,
) -> Seq<ActionModel> {
    planned(
        cables_wanted(state, accounts, now),
        state.cable_locks,
        presence(state.cable_locks, is_plugged_in(usb, dev)),
    )
}

pub open spec fn sync_warnings(
    state: DiskStateModel,
    accounts: Seq<AccountModel>,
    now: Moment,
    usb: Seq<UsbEntryModel>,
    dev: Seq<char>,
) -> Seq<Seq<char>> {
    somes(verdicts(state, accounts, now).map_values(to_warning())) + somes(
        serials_sought(cables_wanted(state, accounts, now), state.cable_locks).map_values(
            to_find_warning(usb, dev),
        ),
    )
}

fn plan_actions(wanted: &[Wanted], locks: &[CableLock], usb: &[UsbEntry], dev: &str) -> (actions: Vec<
    Action,
>)
    ensures
        views(actions@) == planned(
            views(wanted@),
            views(locks@),
            presence(views(locks@), is_plugged_in(views(usb@), dev@)),
        ),
{
    let here = |serial: &str| -> (yes: bool)
        ensures
            yes == is_plugged_in(views(usb@), dev@)(serial@),
        { look_up(usb, dev, serial).is_some() };
    assert(describes(here, is_plugged_in(views(usb@), dev@)));
    plan(wanted, locks, here)
}

fn sought(wanted: &[Wanted], locks: &[CableLock]) -> (out: Vec<String>)
    ensures
        views(out@) == serials_sought(views(wanted@), views(locks@)),
{
    let ghost w = views(wanted@);
    let ghost l = views(locks@);
    let mut all: Vec<String> = Vec::new();
    assert(views(all@) =~= w.take(0).map_values(to_wanted_serial()));
    for i in 0..wanted.len()
        invariant
            w == views(wanted@),
            views(all@) == w.take(i as int).map_values(to_wanted_serial()),
    {
        let serial = wanted[i].serial.clone();
        proof {
            lemma_map_next(w, i as int, to_wanted_serial());
            lemma_views_push(all@, serial);
        }
        all.push(serial);
    }
    let ghost first = views(all@);
    proof {
        lemma_take_all(w);
        assert(first =~= first + l.take(0).map_values(to_lock_serial()));
    }
    for i in 0..locks.len()
        invariant
            l == views(locks@),
            views(all@) == first + l.take(i as int).map_values(to_lock_serial()),
    {
        let serial = locks[i].serial.clone();
        proof {
            lemma_map_next(l, i as int, to_lock_serial());
            lemma_views_push(all@, serial);
            let before = l.take(i as int).map_values(to_lock_serial());
            assert((first + before).push(serial@) =~= first + before.push(serial@));
        }
        all.push(serial);
    }
    proof {
        lemma_take_all(l);
    }
    let mut once: Vec<String> = Vec::new();
    assert(views(once@) =~= distinct(views(all@).take(0)));
    for i in 0..all.len()
        invariant
            views(once@) == distinct(views(all@).take(i as int)),
    {
        proof {
            lemma_distinct_next(views(all@), i as int);
        }
        if !is_among(all[i].as_str(), &once) {
            let serial = all[i].clone();
            proof {
                lemma_views_push(once@, serial);
            }
            once.push(serial);
        }
    }
    proof {
        lemma_take_all(views(all@));
    }
    sorted_texts(&once)
}

/// What a pass over the cables is going to do. The rules are to be written first, so that a cable
/// that comes back in the middle of the pass comes back locked.
pub fn plan_sync(
    state: &DiskState,
    accounts: &[Account],
    now: Moment,
    usb: &[UsbEntry],
    dev: &str,
) -> (out: SyncPlan)
    ensures
        views(out.rules@) == cables_wanted(state@, views(accounts@), now).map_values(to_rule_entry()),
        views(out.actions@) == sync_actions(state@, views(accounts@), now, views(usb@), dev@),
        views(out.warnings@) == sync_warnings(state@, views(accounts@), now, views(usb@), dev@),
{
    let wanted = wanted(state, accounts, now);
    let ghost w = views(wanted@);
    let mut rules: Vec<(String, String)> = Vec::new();
    assert(views(rules@) =~= w.take(0).map_values(to_rule_entry()));
    for i in 0..wanted.len()
        invariant
            w == views(wanted@),
            views(rules@) == w.take(i as int).map_values(to_rule_entry()),
    {
        let entry = (wanted[i].serial.clone(), wanted[i].user.clone());
        proof {
            lemma_map_next(w, i as int, to_rule_entry());
            lemma_views_push(rules@, entry);
        }
        rules.push(entry);
    }
    proof {
        lemma_take_all(w);
    }
    let mut warnings = wanted_warnings(state, accounts, now);
    let serials = sought(&wanted, &state.cable_locks);
    let ghost f = to_find_warning(views(usb@), dev@);
    let ghost first = views(warnings@);
    assert(first =~= first + somes(views(serials@).take(0).map_values(f)));
    for i in 0..serials.len()
        invariant
            f == to_find_warning(views(usb@), dev@),
            views(warnings@) == first + somes(views(serials@).take(i as int).map_values(f)),
    {
        proof {
            lemma_somes_next(views(serials@), i as int, f);
        }
        if let Err(why) = find(usb, dev, serials[i].as_str()) {
            let mut line = "WARN: ".to_string();
            line.append(why.as_str());
            proof {
                lemma_views_push(warnings@, line);
                let before = somes(views(serials@).take(i as int).map_values(f));
                assert((first + before).push(line@) =~= first + before.push(line@));
            }
            warnings.push(line);
        }
    }
    proof {
        lemma_take_all(views(serials@));
    }
    let actions = plan_actions(&wanted, &state.cable_locks, usb, dev);
    SyncPlan { rules, actions, warnings }
}

/// The files that giving a cable back restores, in order, each with its original ownership.
pub open spec fn restoration(cable: CableModel, lock: CableLockModel) -> Seq<
    (Seq<char>, Ownership),
> {
    seq![(cable.jtag, lock.jtag_orig)] + match lock.console_orig {
        Some(original) => cable.consoles.map_values(|path: Seq<char>| (path, original)),
        None => Seq::empty(),
    }
}

/// The files that giving `cable` back restores, each with its original ownership. A cable that had
/// no consoles when it was locked says nothing about those it has now.
pub fn restore(cable: &Cable, lock: &CableLock) -> (out: Vec<(String, Ownership)>)
    ensures
        views(out@) == restoration(cable@, lock@),
{
    let mut out: Vec<(String, Ownership)> = Vec::new();
    out.push((cable.jtag.clone(), lock.jtag_orig));
    let ghost first = views(out@);
    assert(first =~= seq![(cable@.jtag, lock@.jtag_orig)]);
    if let Some(original) = lock.console_orig {
        let ghost f = |path: Seq<char>| (path, original);
        let ghost all = cable@.consoles;
        assert(first =~= first + all.take(0).map_values(f));
        for i in 0..cable.consoles.len()
            invariant
                all == cable@.consoles,
                f == (|path: Seq<char>| (path, original)),
                views(out@) == first + all.take(i as int).map_values(f),
        {
            let step = (cable.consoles[i].clone(), original);
            proof {
                lemma_map_next(all, i as int, f);
                lemma_views_push(out@, step);
                let before = all.take(i as int).map_values(f);
                assert((first + before).push(step@) =~= first + before.push(step@));
            }
            out.push(step);
        }
        proof {
            lemma_take_all(all);
        }
    } else {
        assert(first =~= first + Seq::<(Seq<char>, Ownership)>::empty());
    }
    out
}

fn record(wanted: &Wanted, scene: &Scene) -> (lock: CableLock)
    ensures
        lock@ == recorded(wanted@, scene@),
{
    let cable = look_up(&scene.usb, scene.dev.as_str(), wanted.serial.as_str());
    let orig = original_ownership(cable.as_ref(), &scene.files, wanted.uid, scene.dialout_gid);
    let port_disable = match &cable {
        Some(cable) => cable.port_disable.clone(),
        None => String::new(),
    };
    CableLock {
        serial: wanted.serial.clone(),
        alias: wanted.alias.clone(),
        claimant: wanted.user.clone(),
        claimant_uid: wanted.uid,
        jtag_orig: orig.0,
        console_orig: orig.1,
        port_disable,
    }
}

fn without_cable(locks: &[CableLock], serial: &str) -> (out: Vec<CableLock>)
    ensures
        views(out@) == views(locks@).filter(is_other_cable(serial@)),
{
    let ghost pred = is_other_cable(serial@);
    let ghost all = views(locks@);
    let mut out: Vec<CableLock> = Vec::new();
    proof {
        reveal(Seq::filter);
        assert(views(out@) =~= all.take(0).filter(pred));
    }
    for i in 0..locks.len()
        invariant
            pred == is_other_cable(serial@),
            all == views(locks@),
            views(out@) == all.take(i as int).filter(pred),
    {
        proof {
            lemma_filter_next(all, i as int, pred);
        }
        if !same_text(locks[i].serial.as_str(), serial) {
            let lock = locks[i].clone();
            proof {
                lemma_views_push(out@, lock);
            }
            out.push(lock);
        }
    }
    proof {
        lemma_take_all(all);
    }
    out
}

fn apply(locks: Vec<CableLock>, action: &Action, done: bool, scene: &Scene) -> (out: Vec<CableLock>)
    ensures
        views(out@) == applied(views(locks@), action@, done, scene@),
{
    let mut locks = locks;
    let ghost before = locks@;
    match action {
        Action::Record(wanted) => {
            let lock = record(wanted, scene);
            proof {
                lemma_views_push(locks@, lock);
            }
            locks.push(lock);
        },
        Action::Repoint(wanted) => {
            let at: usize = lock_position(&locks, wanted.serial.as_str());
            if at < locks.len() {
                let mut lock = locks[at].clone();
                lock.alias = wanted.alias.clone();
                lock.claimant = wanted.user.clone();
                lock.claimant_uid = wanted.uid;
                assert(views(before.update(at as int, lock)) =~= views(before).update(
                    at as int,
                    lock@,
                ));
                locks.set(at, lock);
            }
        },
        Action::Drop(lock) => {
            locks = without_cable(&locks, lock.serial.as_str());
        },
        Action::Restore(lock) => {
            if done {
                locks = without_cable(&locks, lock.serial.as_str());
            }
        },
    }
    locks
}

fn reassert_all(locks: &[CableLock], scene: &Scene) -> (out: Vec<Takeover>)
    ensures
        views(out@) == reassertions(views(locks@), scene@),
{
    let ghost f = to_reassertions(scene@);
    let ghost all = views(locks@);
    let mut out: Vec<Takeover> = Vec::new();
    proof {
        assert(all.take(0).map_values(f) =~= Seq::empty());
        assert(views(out@) =~= Seq::empty());
    }
    for i in 0..locks.len()
        invariant
            f == to_reassertions(scene@),
            all == views(locks@),
            views(out@) == concat_all(all.take(i as int).map_values(f)),
    {
        let uid: u32 = locks[i].claimant_uid;
        let ghost sofar = views(out@);
        proof {
            lemma_concat_next(all, i as int, f);
            assert(sofar + Seq::<TakeoverModel>::empty() =~= sofar);
        }
        if let Some(cable) = look_up(&scene.usb, scene.dev.as_str(), locks[i].serial.as_str()) {
            let files = paths(&cable);
            let ghost g = to_reassertion(scene@.files, uid);
            let ghost names = views(files@);
            assert(sofar + somes(names.take(0).map_values(g)) =~= sofar);
            for k in 0..files.len()
                invariant
                    g == to_reassertion(scene@.files, uid),
                    names == views(files@),
                    views(out@) == sofar + somes(names.take(k as int).map_values(g)),
            {
                proof {
                    lemma_somes_next(names, k as int, g);
                }
                if let Ok(meta) = look_up_file(&scene.files, files[k].as_str()) {
                    if !(meta.uid == uid && meta.mode == LOCKED_MODE) {
                        let hand = Takeover { path: files[k].clone(), uid, gid: meta.gid };
                        proof {
                            lemma_views_push(out@, hand);
                            let before = somes(names.take(k as int).map_values(g));
                            assert((sofar + before).push(hand@) =~= sofar + before.push(hand@));
                        }
                        out.push(hand);
                    }
                }
            }
            proof {
                lemma_take_all(names);
            }
        }
    }
    proof {
        lemma_take_all(all);
    }
    out
}

/// Converge the cable locks onto the claims. `done` says for each action of [`plan_sync`] whether
/// it was carried out; only the restorations are asked for. `scene` is what there is to see after
/// that. Returns the files to hand over.
pub fn sync(
    state: &mut DiskState,
    accounts: &[Account],
    now: Moment,
    done: &[bool],
    scene: &Scene,
) -> (taken: Vec<Takeover>)
    ensures
        ({
            let actions = sync_actions(old(state)@, views(accounts@), now, scene@.usb, scene@.dev);
            let locks = all_applied(old(state)@.cable_locks, actions, done@, scene@);
            &&& final(state)@ == DiskStateModel { cable_locks: locks, ..old(state)@ }
            &&& views(taken@) == reassertions(locks, scene@)
        }),
{
    let ghost before = state@;
    let plan = plan_sync(state, accounts, now, &scene.usb, scene.dev.as_str());
    let ghost actions = views(plan.actions@);
    let mut locks: Vec<CableLock> = state.cable_locks.clone();
    proof {
        assert(views(locks@) =~= before.cable_locks);
        assert(actions.take(0) =~= Seq::empty());
    }
    for i in 0..plan.actions.len()
        invariant
            actions == views(plan.actions@),
            views(locks@) == all_applied(
                before.cable_locks,
                actions.take(i as int),
                done@,
                scene@,
            ),
    {
        proof {
            lemma_take_next(actions, i as int);
        }
        let carried_out = i < done.len() && done[i];
        locks = apply(locks, &plan.actions[i], carried_out, scene);
    }
    proof {
        lemma_take_all(actions);
    }
    let taken = reassert_all(&locks, scene);
    state.cable_locks = locks;
    taken
}

/// What is said of an action once it was tried, with the reason why it `failed` if it did. Only a
/// restoration can fail.
pub open spec fn action_told(action: ActionModel, failed: Option<Seq<char>>) -> Option<Seq<char>> {
    match action {
        ActionModel::Record(_) => None,
        ActionModel::Repoint(wanted) => Some(
            wanted.alias + " changed hands: cable "@ + wanted.serial + " now belongs to "@
                + wanted.user,
        ),
        ActionModel::Drop(lock) => Some(
            "released cable "@ + lock.serial + " ("@ + lock.alias
                + "); it is unplugged, udev restores it on return"@,
        ),
        ActionModel::Restore(lock) => Some(
            match failed {
                None => "released cable "@ + lock.serial + " ("@ + lock.alias + ")"@,
                Some(why) => "WARN: could not restore cable "@ + lock.serial + ": "@ + why
                    + ". Will retry."@,
            },
        ),
    }
}

/// What to say of an action once it was tried, if anything.
pub fn action_line(action: &Action, failed: Option<&str>) -> (line: Option<String>)
    ensures
        opt_view(line) == action_told(action@, opt_view(failed)),
{
    match action {
        Action::Record(_) => None,
        Action::Repoint(wanted) => {
            let mut line = wanted.alias.clone();
            line.append(" changed hands: cable ");
            line.append(wanted.serial.as_str());
            line.append(" now belongs to ");
            line.append(wanted.user.as_str());
            Some(line)
        },
        Action::Drop(lock) => {
            let mut line = "released cable ".to_string();
            line.append(lock.serial.as_str());
            line.append(" (");
            line.append(lock.alias.as_str());
            line.append("); it is unplugged, udev restores it on return");
            Some(line)
        },
        Action::Restore(lock) => match failed {
            None => {
                let mut line = "released cable ".to_string();
                line.append(lock.serial.as_str());
                line.append(" (");
                line.append(lock.alias.as_str());
                line.append(")");
                Some(line)
            },
            Some(why) => {
                let mut line = "WARN: could not restore cable ".to_string();
                line.append(lock.serial.as_str());
                line.append(": ");
                line.append(why);
                line.append(". Will retry.");
                Some(line)
            },
        },
    }
}

/// No cable has two locks.
pub open spec fn one_lock_per_cable(locks: Seq<CableLockModel>) -> bool {
    forall|i: int, j: int|
        0 <= i < j < locks.len() ==> (#[trigger] locks[i]).serial != (#[trigger] locks[j]).serial
}

/// No cable is wanted twice.
pub open spec fn wanted_once(wanted: Seq<WantedModel>) -> bool {
    forall|i: int, j: int|
        0 <= i < j < wanted.len() ==> (#[trigger] wanted[i]).serial != (#[trigger] wanted[j]).serial
}

proof fn lemma_concat_position<A>(lists: Seq<Seq<A>>, i: int, k: int) -> (at: int)
    requires
        0 <= i < lists.len(),
        0 <= k < lists[i].len(),
    ensures
        0 <= at < concat_all(lists).len(),
        concat_all(lists)[at] == lists[i][k],
        at == concat_all(lists.take(i)).len() + k,
    decreases lists.len(),
{
    let rest = lists.drop_last();
    if i == rest.len() {
        assert(lists.take(i) =~= rest);
        concat_all(rest).len() + k
    } else {
        let at = lemma_concat_position(rest, i, k);
        assert(rest.take(i) =~= lists.take(i));
        assert(concat_all(lists)[at] == concat_all(rest)[at]);
        at
    }
}

proof fn lemma_concat_len_grows<A>(lists: Seq<Seq<A>>, i: int, j: int)
    requires
        0 <= i < j <= lists.len(),
    ensures
        concat_all(lists.take(i)).len() + lists[i].len() <= concat_all(lists.take(j)).len(),
    decreases j - i,
{
    lemma_take_next(lists, j - 1);
    if i < j - 1 {
        lemma_concat_len_grows(lists, i, j - 1);
    }
}

/// A serial that two boards list, or one board twice, is a duplicate.
proof fn lemma_listed_twice(fpgas: Seq<FpgaSpecModel>, i: int, k: int, j: int, m: int)
    requires
        0 <= i <= j < fpgas.len(),
        0 <= k < fpgas[i].cables.len(),
        0 <= m < fpgas[j].cables.len(),
        i < j || k < m,
        fpgas[i].cables[k] == fpgas[j].cables[m],
    ensures
        repeats(all_serials(fpgas)).contains(fpgas[i].cables[k]),
{
    let lists = fpgas.map_values(crate::cable::to_cables());
    let all = all_serials(fpgas);
    let a = lemma_concat_position(lists, i, k);
    let b = lemma_concat_position(lists, j, m);
    if i < j {
        lemma_concat_len_grows(lists, i, j);
    }
    crate::seqs::lemma_repeats(all);
    assert(all[a] == all[b]);
}

/// What the verdicts on one board's cables lead to.
proof fn lemma_wanted_of_board(
    pair: (Seq<char>, Seq<char>),
    serials: Seq<Seq<char>>,
    duplicates: Seq<Seq<char>>,
    accounts: Seq<AccountModel>,
)
    requires
        forall|k: int, m: int|
            0 <= k < m < serials.len() && #[trigger] serials[k] == #[trigger] serials[m]
                ==> duplicates.contains(serials[k]),
    ensures
        ({
            let out = somes(
                serials.map_values(to_verdict(pair, duplicates, accounts)).map_values(to_wanted()),
            );
            &&& wanted_once(out)
            &&& forall|i: int|
                0 <= i < out.len() ==> {
                    &&& serials.contains((#[trigger] out[i]).serial)
                    &&& !duplicates.contains(out[i].serial)
                    &&& is_valid_serial(out[i].serial)
                    &&& is_valid_serial(out[i].user)
                    &&& out[i].alias == pair.0
                    &&& out[i].user == pair.1
                    &&& uid_of(accounts, pair.1) == Some(out[i].uid)
                }
        }),
    decreases serials.len(),
{
    let f = to_verdict(pair, duplicates, accounts);
    let mapped = serials.map_values(f).map_values(to_wanted());
    let out = somes(mapped);
    if serials.len() > 0 {
        let rest = serials.drop_last();
        assert forall|k: int, m: int|
            0 <= k < m < rest.len() && #[trigger] rest[k] == #[trigger] rest[m] implies duplicates.contains(
            rest[k],
        ) by {
            assert(serials[k] == serials[m]);
        }
        lemma_wanted_of_board(pair, rest, duplicates, accounts);
        let fewer = rest.map_values(f).map_values(to_wanted());
        assert(mapped.drop_last() =~= fewer);
        let before = somes(fewer);
        assert(mapped.last() == to_wanted()(f(serials.last())));
        assert forall|i: int| 0 <= i < out.len() implies {
            &&& serials.contains((#[trigger] out[i]).serial)
            &&& !duplicates.contains(out[i].serial)
            &&& is_valid_serial(out[i].serial)
            &&& is_valid_serial(out[i].user)
            &&& out[i].alias == pair.0
            &&& out[i].user == pair.1
            &&& uid_of(accounts, pair.1) == Some(out[i].uid)
        } by {
            if i < before.len() {
                assert(out[i] == before[i]);
                assert(rest.contains(before[i].serial));
                let k = choose|k: int| 0 <= k < rest.len() && rest[k] == before[i].serial;
                assert(serials[k] == out[i].serial);
            } else {
                assert(serials[serials.len() - 1] == out[i].serial);
            }
        }
        assert forall|i: int, j: int| 0 <= i < j < out.len() implies (#[trigger] out[i]).serial != (
        #[trigger] out[j]).serial by {
            assert(out[i] == before[i]);
            if j < before.len() {
                assert(before[i].serial != before[j].serial);
            } else {
                assert(rest.contains(before[i].serial));
                let k = choose|k: int| 0 <= k < rest.len() && rest[k] == before[i].serial;
                if out[i].serial == out[j].serial {
                    assert(serials[k] == serials[serials.len() - 1]);
                }
            }
        }
    }
}

proof fn lemma_somes_add<A>(a: Seq<Option<A>>, b: Seq<Option<A>>)
    ensures
        somes(a + b) == somes(a) + somes(b),
    decreases b.len(),
{
    if b.len() == 0 {
        assert(a + b =~= a);
        assert(somes(a) + somes(b) =~= somes(a));
    } else {
        lemma_somes_add(a, b.drop_last());
        assert((a + b).drop_last() =~= a + b.drop_last());
        assert(somes(a + b) =~= somes(a) + somes(b));
    }
}

/// The serial is in the list of the board that `pair` names.
pub open spec fn lists_cable(settings: SettingsModel, alias: Seq<char>, serial: Seq<char>) -> bool {
    settings.fpga(alias) matches Some(spec) && spec.cables.contains(serial)
}

proof fn lemma_wanted(
    settings: SettingsModel,
    accounts: Seq<AccountModel>,
    pairs: Seq<(Seq<char>, Seq<char>)>,
)
    requires
        forall|i: int, j: int|
            0 <= i < j < pairs.len() ==> (#[trigger] pairs[i]).0 != (#[trigger] pairs[j]).0,
    ensures
        ({
            let all = concat_all(pairs.map_values(to_verdicts(settings, accounts)));
            let out = somes(all.map_values(to_wanted()));
            &&& wanted_once(out)
            &&& forall|i: int|
                0 <= i < out.len() ==> {
                    &&& is_valid_serial((#[trigger] out[i]).serial)
                    &&& is_valid_serial(out[i].user)
                    &&& !repeats(all_serials(settings.fpgas)).contains(out[i].serial)
                    &&& pairs.contains((out[i].alias, out[i].user))
                    &&& lists_cable(settings, out[i].alias, out[i].serial)
                    &&& uid_of(accounts, out[i].user) == Some(out[i].uid)
                }
        }),
    decreases pairs.len(),
{
    let f = to_verdicts(settings, accounts);
    let duplicates = repeats(all_serials(settings.fpgas));
    let all = concat_all(pairs.map_values(f));
    let out = somes(all.map_values(to_wanted()));
    if pairs.len() == 0 {
        assert(all.map_values(to_wanted()) =~= Seq::empty());
    } else {
        let rest = pairs.drop_last();
        let pair = pairs.last();
        assert forall|i: int, j: int| 0 <= i < j < rest.len() implies (#[trigger] rest[i]).0 != (
        #[trigger] rest[j]).0 by {
            assert(pairs[i].0 != pairs[j].0);
        }
        lemma_wanted(settings, accounts, rest);
        assert(pairs.map_values(f).drop_last() =~= rest.map_values(f));
        let earlier = concat_all(rest.map_values(f));
        let before = somes(earlier.map_values(to_wanted()));
        let added = somes(f(pair).map_values(to_wanted()));
        assert(all == earlier + f(pair));
        assert(all.map_values(to_wanted()) =~= earlier.map_values(to_wanted()) + f(pair).map_values(
            to_wanted(),
        ));
        lemma_somes_add(earlier.map_values(to_wanted()), f(pair).map_values(to_wanted()));
        assert(out == before + added);
        let pred = crate::diskstate::with_alias(pair.0);
        let at = first_where(settings.fpgas, pred);
        lemma_first_where(settings.fpgas, pred);
        match settings.fpga(pair.0) {
            Some(spec) => {
                assert(spec == settings.fpgas[at]);
                assert forall|k: int, m: int|
                    0 <= k < m < spec.cables.len() && #[trigger] spec.cables[k]
                        == #[trigger] spec.cables[m] implies duplicates.contains(spec.cables[k]) by {
                    lemma_listed_twice(settings.fpgas, at, k, at, m);
                }
                lemma_wanted_of_board(pair, spec.cables, duplicates, accounts);
            },
            None => {
                assert(f(pair).map_values(to_wanted()) =~= Seq::empty());
            },
        }
        assert forall|i: int| 0 <= i < out.len() implies {
            &&& is_valid_serial((#[trigger] out[i]).serial)
            &&& is_valid_serial(out[i].user)
            &&& !duplicates.contains(out[i].serial)
            &&& pairs.contains((out[i].alias, out[i].user))
            &&& lists_cable(settings, out[i].alias, out[i].serial)
            &&& uid_of(accounts, out[i].user) == Some(out[i].uid)
        } by {
            if i < before.len() {
                assert(out[i] == before[i]);
                let k = choose|k: int|
                    0 <= k < rest.len() && rest[k] == (before[i].alias, before[i].user);
                assert(pairs[k] == rest[k]);
            } else {
                assert(out[i] == added[i - before.len()]);
                assert(pairs[pairs.len() - 1] == pair);
            }
        }
        assert forall|i: int, j: int| 0 <= i < j < out.len() implies (#[trigger] out[i]).serial != (
        #[trigger] out[j]).serial by {
            if j < before.len() {
                assert(out[i] == before[i] && out[j] == before[j]);
            } else if i >= before.len() {
                assert(out[i] == added[i - before.len()] && out[j] == added[j - before.len()]);
            } else {
                assert(out[i] == before[i] && out[j] == added[j - before.len()]);
                if out[i].serial == out[j].serial {
                    let alias = before[i].alias;
                    let k = choose|k: int|
                        0 <= k < rest.len() && rest[k] == (before[i].alias, before[i].user);
                    assert(pairs[k] == rest[k]);
                    assert(pairs[k].0 != pairs[pairs.len() - 1].0);
                    let other = first_where(settings.fpgas, crate::diskstate::with_alias(alias));
                    lemma_first_where(settings.fpgas, crate::diskstate::with_alias(alias));
                    let spec = settings.fpgas[other];
                    let mine = settings.fpgas[at];
                    assert(other != at);
                    let a = choose|a: int|
                        0 <= a < spec.cables.len() && spec.cables[a] == out[i].serial;
                    let b = choose|b: int|
                        0 <= b < mine.cables.len() && mine.cables[b] == out[j].serial;
                    if other < at {
                        lemma_listed_twice(settings.fpgas, other, a, at, b);
                    } else {
                        lemma_listed_twice(settings.fpgas, at, b, other, a);
                    }
                }
            }
        }
    }
}

/// No cable is wanted twice. A cable that is wanted is listed once, by the board whose exclusive
/// claim it is wanted for, and its serial and its claimant's name can go into a rule. So a cable
/// that two boards list is locked for neither, and no rule names it.
pub proof fn law_wanted_cables_are_sound(
    state: DiskStateModel,
    accounts: Seq<AccountModel>,
    now: Moment,
)
    ensures
        wanted_once(cables_wanted(state, accounts, now)),
        forall|i: int|
            0 <= i < cables_wanted(state, accounts, now).len() ==> {
                let wanted = #[trigger] cables_wanted(state, accounts, now)[i];
                &&& is_valid_serial(wanted.serial)
                &&& is_valid_serial(wanted.user)
                &&& !repeats(all_serials(state.settings.fpgas)).contains(wanted.serial)
                &&& live_owners(state.claims, now).contains((wanted.alias, wanted.user))
                &&& lists_cable(state.settings, wanted.alias, wanted.serial)
                &&& uid_of(accounts, wanted.user) == Some(wanted.uid)
            },
{
    crate::fpga::law_each_board_has_one_owner(state.claims.filter(live_at(now)));
    lemma_wanted(state.settings, accounts, live_owners(state.claims, now));
}

/// The two locks are on the same cable and remember the same of it.
pub open spec fn same_origin(a: CableLockModel, b: CableLockModel) -> bool {
    &&& a.serial == b.serial
    &&& a.jtag_orig == b.jtag_orig
    &&& a.console_orig == b.console_orig
    &&& a.port_disable == b.port_disable
}

/// One of `before` is on the same cable and remembers the same of it.
pub open spec fn has_origin(lock: CableLockModel, before: Seq<CableLockModel>) -> bool {
    exists|j: int| 0 <= j < before.len() && same_origin(lock, #[trigger] before[j])
}

/// Every lock of `after` stems from one of `before`.
pub open spec fn stems_from(after: Seq<CableLockModel>, before: Seq<CableLockModel>) -> bool {
    forall|i: int| 0 <= i < after.len() ==> has_origin(#[trigger] after[i], before)
}

pub open spec fn is_record(action: ActionModel) -> bool {
    action is Record
}

proof fn lemma_filter_keeps_serials(locks: Seq<CableLockModel>, pred: spec_fn(CableLockModel) -> bool)
    requires
        one_lock_per_cable(locks),
    ensures
        one_lock_per_cable(locks.filter(pred)),
        stems_from(locks.filter(pred), locks),
    decreases locks.len(),
{
    reveal(Seq::filter);
    if locks.len() > 0 {
        let rest = locks.drop_last();
        let before = rest.filter(pred);
        let after = locks.filter(pred);
        assert forall|i: int, j: int| 0 <= i < j < rest.len() implies (#[trigger] rest[i]).serial
            != (#[trigger] rest[j]).serial by {
            assert(locks[i].serial != locks[j].serial);
        }
        lemma_filter_keeps_serials(rest, pred);
        assert forall|i: int| 0 <= i < after.len() implies has_origin(#[trigger] after[i], locks) by {
            if i < before.len() {
                assert(has_origin(before[i], rest));
                let j = choose|j: int| 0 <= j < rest.len() && same_origin(before[i], #[trigger] rest[j]);
                assert(same_origin(after[i], locks[j]));
            } else {
                assert(same_origin(after[i], locks[locks.len() - 1]));
            }
        }
        assert forall|i: int, j: int| 0 <= i < j < after.len() implies (#[trigger] after[i]).serial
            != (#[trigger] after[j]).serial by {
            if j < before.len() {
                assert(before[i].serial != before[j].serial);
            } else {
                assert(has_origin(before[i], rest));
                let k = choose|k: int| 0 <= k < rest.len() && same_origin(before[i], #[trigger] rest[k]);
                assert(locks[k].serial != locks[locks.len() - 1].serial);
            }
        }
    }
}

proof fn lemma_stems_from_trans(
    c: Seq<CableLockModel>,
    b: Seq<CableLockModel>,
    a: Seq<CableLockModel>,
)
    requires
        stems_from(c, b),
        stems_from(b, a),
    ensures
        stems_from(c, a),
{
    assert forall|i: int| 0 <= i < c.len() implies has_origin(#[trigger] c[i], a) by {
        assert(has_origin(c[i], b));
        let k = choose|k: int| 0 <= k < b.len() && same_origin(c[i], #[trigger] b[k]);
        assert(has_origin(b[k], a));
        let j = choose|j: int| 0 <= j < a.len() && same_origin(b[k], #[trigger] a[j]);
        assert(same_origin(c[i], a[j]));
    }
}

/// Actions other than recording add no lock and change nothing of what a lock remembers.
proof fn lemma_without_records(
    locks: Seq<CableLockModel>,
    actions: Seq<ActionModel>,
    done: Seq<bool>,
    scene: SceneModel,
)
    requires
        one_lock_per_cable(locks),
        forall|i: int| 0 <= i < actions.len() ==> !is_record(#[trigger] actions[i]),
    ensures
        one_lock_per_cable(all_applied(locks, actions, done, scene)),
        stems_from(all_applied(locks, actions, done, scene), locks),
    decreases actions.len(),
{
    if actions.len() == 0 {
        assert forall|i: int| 0 <= i < locks.len() implies has_origin(
            #[trigger] locks[i],
            locks,
        ) by {
            assert(same_origin(locks[i], locks[i]));
        }
    } else {
        let rest = actions.drop_last();
        assert forall|i: int| 0 <= i < rest.len() implies !is_record(#[trigger] rest[i]) by {
            assert(!is_record(actions[i]));
        }
        lemma_without_records(locks, rest, done, scene);
        let before = all_applied(locks, rest, done, scene);
        let after = applied(before, actions.last(), is_done(done, actions.len() - 1), scene);
        assert(after == all_applied(locks, actions, done, scene));
        assert(!is_record(actions[actions.len() - 1]));
        match actions.last() {
            ActionModel::Repoint(wanted) => {
                lemma_first_where(before, locks_serial(wanted.serial));
                assert forall|i: int| 0 <= i < after.len() implies has_origin(
                    #[trigger] after[i],
                    before,
                ) by {
                    assert(same_origin(after[i], before[i]));
                }
                assert forall|i: int, j: int| 0 <= i < j < after.len() implies (
                #[trigger] after[i]).serial != (#[trigger] after[j]).serial by {
                    assert(before[i].serial != before[j].serial);
                }
                lemma_stems_from_trans(after, before, locks);
            },
            ActionModel::Drop(lock) => {
                lemma_filter_keeps_serials(before, is_other_cable(lock.serial));
                lemma_stems_from_trans(after, before, locks);
            },
            ActionModel::Restore(lock) => {
                if is_done(done, actions.len() - 1) {
                    lemma_filter_keeps_serials(before, is_other_cable(lock.serial));
                    lemma_stems_from_trans(after, before, locks);
                }
            },
            ActionModel::Record(_) => {},
        }
    }
}

pub open spec fn to_recorded(scene: SceneModel) -> spec_fn(WantedModel) -> CableLockModel {
    |wanted: WantedModel| recorded(wanted, scene)
}

/// Recording comes last, and adds its locks at the end.
proof fn lemma_records(
    locks: Seq<CableLockModel>,
    first: Seq<ActionModel>,
    fresh: Seq<WantedModel>,
    done: Seq<bool>,
    scene: SceneModel,
)
    ensures
        all_applied(locks, first + fresh.map_values(to_record()), done, scene) == all_applied(
            locks,
            first,
            done,
            scene,
        ) + fresh.map_values(to_recorded(scene)),
    decreases fresh.len(),
{
    let actions = first + fresh.map_values(to_record());
    let base = all_applied(locks, first, done, scene);
    if fresh.len() == 0 {
        assert(actions =~= first);
        assert(base + fresh.map_values(to_recorded(scene)) =~= base);
    } else {
        let rest = fresh.drop_last();
        lemma_records(locks, first, rest, done, scene);
        assert(actions.drop_last() =~= first + rest.map_values(to_record()));
        assert(actions.last() == ActionModel::Record(fresh.last()));
        assert(base + fresh.map_values(to_recorded(scene)) =~= (base + rest.map_values(
            to_recorded(scene),
        )).push(recorded(fresh.last(), scene)));
    }
}

proof fn lemma_lock_actions_record_nothing(
    wanted: Seq<WantedModel>,
    locks: Seq<CableLockModel>,
    present: Seq<bool>,
)
    ensures
        forall|i: int|
            0 <= i < lock_actions(wanted, locks, present).len() ==> !is_record(
                #[trigger] lock_actions(wanted, locks, present)[i],
            ),
{
    let mapped = locks.map(
        |i: int, lock: CableLockModel| lock_action(wanted, lock, present[i]),
    );
    let out = somes(mapped);
    lemma_somes_members(mapped);
    assert forall|i: int| 0 <= i < out.len() implies !is_record(#[trigger] out[i]) by {
        assert(out.contains(out[i]));
        let k = choose|k: int| 0 <= k < mapped.len() && mapped[k] == Some(out[i]);
        assert(mapped[k] == lock_action(wanted, locks[k], present[k]));
    }
}

/// The locks after a pass over the cables.
pub open spec fn cables_synced(
    state: DiskStateModel,
    accounts: Seq<AccountModel>,
    now: Moment,
    done: Seq<bool>,
    scene: SceneModel,
) -> Seq<CableLockModel> {
    all_applied(
        state.cable_locks,
        sync_actions(state, accounts, now, scene.usb, scene.dev),
        done,
        scene,
    )
}

/// A pass over the cables never locks one twice, whatever could be restored. What was recorded
/// about a cable when it was locked, its original ownership and its port, stays for as long as
/// the lock does, however often the cable is plugged in anew or changes hands.
pub proof fn law_a_sync_keeps_what_was_recorded(
    state: DiskStateModel,
    accounts: Seq<AccountModel>,
    now: Moment,
    done: Seq<bool>,
    scene: SceneModel,
)
    requires
        one_lock_per_cable(state.cable_locks),
    ensures
        one_lock_per_cable(cables_synced(state, accounts, now, done, scene)),
        forall|i: int, j: int|
            0 <= i < state.cable_locks.len() && 0 <= j < cables_synced(
                state,
                accounts,
                now,
                done,
                scene,
            ).len() && (#[trigger] state.cable_locks[i]).serial == (#[trigger] cables_synced(
                state,
                accounts,
                now,
                done,
                scene,
            )[j]).serial ==> same_origin(
                cables_synced(state, accounts, now, done, scene)[j],
                state.cable_locks[i],
            ),
{
    let locks = state.cable_locks;
    let wanted = cables_wanted(state, accounts, now);
    let present = presence(locks, is_plugged_in(scene.usb, scene.dev));
    let first = lock_actions(wanted, locks, present);
    let fresh = wanted.filter(not_locked_in(locks));
    let base = all_applied(locks, first, done, scene);
    let out = cables_synced(state, accounts, now, done, scene);
    law_wanted_cables_are_sound(state, accounts, now);
    lemma_lock_actions_record_nothing(wanted, locks, present);
    lemma_without_records(locks, first, done, scene);
    lemma_records(locks, first, fresh, done, scene);
    lemma_filter_wanted(wanted, not_locked_in(locks));
    assert forall|i: int, j: int| 0 <= i < j < out.len() implies (#[trigger] out[i]).serial != (
    #[trigger] out[j]).serial by {
        if j < base.len() {
            assert(base[i].serial != base[j].serial);
        } else {
            let w = fresh[j - base.len()];
            assert(out[j].serial == w.serial);
            if i < base.len() {
                assert(has_origin(base[i], locks));
                let k = choose|k: int| 0 <= k < locks.len() && same_origin(base[i], #[trigger] locks[k]);
                assert(not_locked_in(locks)(w));
                assert(!locks_serial(w.serial)(locks[k]));
            } else {
                assert(out[i].serial == fresh[i - base.len()].serial);
            }
        }
    }
    assert forall|i: int, j: int|
        0 <= i < locks.len() && 0 <= j < out.len() && (#[trigger] locks[i]).serial == (
        #[trigger] out[j]).serial implies same_origin(out[j], locks[i]) by {
        if j < base.len() {
            assert(has_origin(base[j], locks));
            let k = choose|k: int| 0 <= k < locks.len() && same_origin(base[j], #[trigger] locks[k]);
            if k < i {
                assert(locks[k].serial != locks[i].serial);
            } else if i < k {
                assert(locks[i].serial != locks[k].serial);
            }
        } else {
            let w = fresh[j - base.len()];
            assert(not_locked_in(locks)(w));
            assert(!locks_serial(w.serial)(locks[i]));
        }
    }
}

proof fn lemma_filter_wanted(wanted: Seq<WantedModel>, pred: spec_fn(WantedModel) -> bool)
    requires
        wanted_once(wanted),
    ensures
        wanted_once(wanted.filter(pred)),
        forall|i: int|
            0 <= i < wanted.filter(pred).len() ==> pred(#[trigger] wanted.filter(pred)[i])
                && wanted.contains(wanted.filter(pred)[i]),
    decreases wanted.len(),
{
    reveal(Seq::filter);
    if wanted.len() > 0 {
        let rest = wanted.drop_last();
        let before = rest.filter(pred);
        let after = wanted.filter(pred);
        assert forall|i: int, j: int| 0 <= i < j < rest.len() implies (#[trigger] rest[i]).serial
            != (#[trigger] rest[j]).serial by {
            assert(wanted[i].serial != wanted[j].serial);
        }
        lemma_filter_wanted(rest, pred);
        assert forall|i: int| 0 <= i < after.len() implies pred(#[trigger] after[i])
            && wanted.contains(after[i]) by {
            if i < before.len() {
                assert(rest.contains(before[i]));
                let k = choose|k: int| 0 <= k < rest.len() && rest[k] == before[i];
                assert(wanted[k] == after[i]);
            } else {
                assert(wanted[wanted.len() - 1] == after[i]);
            }
        }
        assert forall|i: int, j: int| 0 <= i < j < after.len() implies (#[trigger] after[i]).serial
            != (#[trigger] after[j]).serial by {
            if j < before.len() {
                assert(before[i].serial != before[j].serial);
            } else {
                assert(rest.contains(before[i]));
                let k = choose|k: int| 0 <= k < rest.len() && rest[k] == before[i];
                assert(wanted[k].serial != wanted[wanted.len() - 1].serial);
            }
        }
    }
}

/// What a lock becomes when everything can be carried out.
pub open spec fn to_lock_after(wanted: Seq<WantedModel>) -> spec_fn(CableLockModel) -> Option<
    CableLockModel,
> {
    |lock: CableLockModel|
        match find_first(wanted, wants(lock.serial)) {
            Some(w) => if w.uid != lock.claimant_uid || w.user != lock.claimant {
                Some(repointed(lock, w))
            } else {
                Some(lock)
            },
            None => None,
        }
}

/// Every lock of `locks` is on another cable.
pub open spec fn none_on(locks: Seq<CableLockModel>, serial: Seq<char>) -> bool {
    forall|i: int| 0 <= i < locks.len() ==> (#[trigger] locks[i]).serial != serial
}

proof fn lemma_filter_one_out(a: Seq<CableLockModel>, x: CableLockModel, b: Seq<CableLockModel>)
    requires
        none_on(a, x.serial),
        none_on(b, x.serial),
    ensures
        (a.push(x) + b).filter(is_other_cable(x.serial)) == a + b,
{
    let pred = is_other_cable(x.serial);
    assert(crate::seqs::every_item(a, pred));
    assert(crate::seqs::every_item(b, pred));
    crate::seqs::lemma_filter_all(a, pred);
    crate::seqs::lemma_filter_all(b, pred);
    assert(!pred(x));
    a.lemma_filter_push(x, pred);
    Seq::filter_distributes_over_add(a.push(x), b, pred);
}

proof fn lemma_locks_after(
    wanted: Seq<WantedModel>,
    locks: Seq<CableLockModel>,
    present: Seq<bool>,
    done: Seq<bool>,
    scene: SceneModel,
    n: int,
)
    requires
        one_lock_per_cable(locks),
        present.len() == locks.len(),
        0 <= n <= locks.len(),
        forall|i: int|
            0 <= i < lock_actions(wanted, locks.take(n), present.take(n)).len()
                ==> #[trigger] is_done(done, i),
    ensures
        all_applied(
            locks,
            lock_actions(wanted, locks.take(n), present.take(n)),
            done,
            scene,
        ) == somes(locks.take(n).map_values(to_lock_after(wanted))) + locks.skip(n),
        forall|i: int|
            0 <= i < somes(locks.take(n).map_values(to_lock_after(wanted))).len() ==> exists|j: int|
                0 <= j < n && (#[trigger] somes(
                    locks.take(n).map_values(to_lock_after(wanted)),
                )[i]).serial == (#[trigger] locks[j]).serial,
    decreases n,
{
    let f = to_lock_after(wanted);
    let out = somes(locks.take(n).map_values(f));
    if n == 0 {
        assert(out + locks.skip(0) =~= locks);
        assert(lock_actions(wanted, locks.take(0), present.take(0)) =~= Seq::empty());
    } else {
        let m = n - 1;
        let lock = locks[m];
        let before = somes(locks.take(m).map_values(f));
        let actions = lock_actions(wanted, locks.take(n), present.take(n));
        let earlier = lock_actions(wanted, locks.take(m), present.take(m));
        lemma_lock_actions_next(wanted, locks, present, m);
        lemma_somes_next(locks, m, f);
        assert(earlier.len() <= actions.len());
        lemma_locks_after(wanted, locks, present, done, scene, m);
        let tail = locks.skip(n);
        let now = before + locks.skip(m);
        assert(now =~= before.push(lock) + tail);
        assert(none_on(before, lock.serial)) by {
            assert forall|i: int| 0 <= i < before.len() implies (#[trigger] before[i]).serial
                != lock.serial by {
                let j = choose|j: int| 0 <= j < m && before[i].serial == (#[trigger] locks[j]).serial;
                assert(locks[j].serial != locks[m].serial);
            }
        }
        assert(none_on(tail, lock.serial)) by {
            assert forall|i: int| 0 <= i < tail.len() implies (#[trigger] tail[i]).serial
                != lock.serial by {
                assert(locks[m].serial != locks[n + i].serial);
            }
        }
        match lock_action(wanted, lock, present[m]) {
            Some(action) => {
                assert(actions.drop_last() =~= earlier);
                assert(is_done(done, actions.len() - 1));
                match action {
                    ActionModel::Repoint(w) => {
                        lemma_first_where(wanted, wants(lock.serial));
                        let pred = locks_serial(w.serial);
                        assert forall|i: int| 0 <= i < before.len() implies !pred(
                            #[trigger] now[i],
                        ) by {
                            assert(now[i] == before[i]);
                        }
                        assert(now[before.len() as int] == lock);
                        lemma_first_where_is(now, pred, before.len() as int);
                        assert(now.update(before.len() as int, repointed(lock, w)) =~= before.push(
                            repointed(lock, w),
                        ) + tail);
                    },
                    _ => {
                        lemma_filter_one_out(before, lock, tail);
                    },
                }
            },
            None => {},
        }
        assert forall|i: int| 0 <= i < out.len() implies exists|j: int|
            0 <= j < n && (#[trigger] out[i]).serial == (#[trigger] locks[j]).serial by {
            if i < before.len() {
                assert(out[i] == before[i]);
                let j = choose|j: int| 0 <= j < m && before[i].serial == (#[trigger] locks[j]).serial;
                assert(out[i].serial == locks[j].serial);
            } else {
                assert(out[i].serial == locks[m].serial);
            }
        }
    }
}

/// Once everything could be carried out, the cable locks are what the claims say, and another pass
/// has nothing left to do, whatever is plugged in then.
pub proof fn law_a_sync_converges(
    state: DiskStateModel,
    accounts: Seq<AccountModel>,
    now: Moment,
    done: Seq<bool>,
    scene: SceneModel,
    usb: Seq<UsbEntryModel>,
    dev: Seq<char>,
)
    requires
        one_lock_per_cable(state.cable_locks),
        forall|i: int|
            0 <= i < sync_actions(state, accounts, now, scene.usb, scene.dev).len()
                ==> #[trigger] is_done(done, i),
    ensures
        sync_actions(
            DiskStateModel { cable_locks: cables_synced(state, accounts, now, done, scene), ..state },
            accounts,
            now,
            usb,
            dev,
        ) == Seq::<ActionModel>::empty(),
{
    let locks = state.cable_locks;
    let wanted = cables_wanted(state, accounts, now);
    let present = presence(locks, is_plugged_in(scene.usb, scene.dev));
    let first = lock_actions(wanted, locks, present);
    let fresh = wanted.filter(not_locked_in(locks));
    let f = to_lock_after(wanted);
    let base = somes(locks.map_values(f));
    let after = cables_synced(state, accounts, now, done, scene);
    law_wanted_cables_are_sound(state, accounts, now);
    lemma_take_all(locks);
    lemma_take_all(present);
    assert forall|i: int| 0 <= i < first.len() implies #[trigger] is_done(done, i) by {
        assert(i < sync_actions(state, accounts, now, scene.usb, scene.dev).len());
    }
    lemma_locks_after(wanted, locks, present, done, scene, locks.len() as int);
    assert(base + locks.skip(locks.len() as int) =~= base);
    lemma_records(locks, first, fresh, done, scene);
    assert(after == base + fresh.map_values(to_recorded(scene)));
    lemma_filter_wanted(wanted, not_locked_in(locks));
    lemma_somes_members(locks.map_values(f));
    let next = DiskStateModel { cable_locks: after, ..state };
    let answers = presence(after, is_plugged_in(usb, dev));
    assert(cables_wanted(next, accounts, now) == wanted);
    // every lock is as wanted
    let mapped = after.map(
        |i: int, lock: CableLockModel| lock_action(wanted, lock, answers[i]),
    );
    assert forall|i: int| 0 <= i < mapped.len() implies (#[trigger] mapped[i]) is None by {
        let lock = after[i];
        lemma_first_where(wanted, wants(lock.serial));
        if i < base.len() {
            assert(lock == base[i]);
            assert(base.contains(lock));
            let k = choose|k: int|
                0 <= k < locks.map_values(f).len() && locks.map_values(f)[k] == Some(lock);
            assert(f(locks[k]) == Some(lock));
        } else {
            let w = fresh[i - base.len()];
            assert(lock == recorded(w, scene));
            let k = choose|k: int| 0 <= k < wanted.len() && wanted[k] == w;
            let pred = wants(lock.serial);
            assert forall|j: int| 0 <= j < k implies !pred(#[trigger] wanted[j]) by {
                assert(wanted[j].serial != wanted[k].serial);
            }
            lemma_first_where_is(wanted, pred, k);
        }
    }
    lemma_no_somes(mapped);
    // everything wanted is locked
    let pred = not_locked_in(after);
    assert forall|i: int| 0 <= i < wanted.len() implies !pred(#[trigger] wanted[i]) by {
        let w = wanted[i];
        let on = locks_serial(w.serial);
        if some_item(locks, on) {
            let k = choose|k: int| 0 <= k < locks.len() && on(#[trigger] locks[k]);
            assert(wants(locks[k].serial)(wanted[i]));
            lemma_first_where(wanted, wants(locks[k].serial));
            let kept = f(locks[k])->0;
            assert(locks.map_values(f)[k] == Some(kept));
            assert(locks.map_values(f).contains(Some(kept)));
            assert(base.contains(kept));
            let m = choose|m: int| 0 <= m < base.len() && base[m] == kept;
            assert(on(after[m]));
        } else {
            lemma_filter_members(wanted, not_locked_in(locks));
            assert(wanted.contains(w));
            assert(fresh.contains(w));
            let m = choose|m: int| 0 <= m < fresh.len() && fresh[m] == w;
            assert(after[base.len() + m] == recorded(w, scene));
            assert(on(after[base.len() + m]));
        }
    }
    crate::seqs::lemma_filter_none(wanted, pred);
    assert(planned(wanted, after, answers) =~= Seq::<ActionModel>::empty());
}

proof fn lemma_no_somes<A>(items: Seq<Option<A>>)
    requires
        forall|i: int| 0 <= i < items.len() ==> (#[trigger] items[i]) is None,
    ensures
        somes(items) == Seq::<A>::empty(),
    decreases items.len(),
{
    if items.len() > 0 {
        let rest = items.drop_last();
        assert forall|i: int| 0 <= i < rest.len() implies (#[trigger] rest[i]) is None by {
            assert(items[i] is None);
        }
        lemma_no_somes(rest);
        assert(items[items.len() - 1] is None);
    }
}

/// Nothing is wanted where there are no claims.
proof fn lemma_nothing_wanted(state: DiskStateModel, accounts: Seq<AccountModel>, now: Moment)
    requires
        state.claims.len() == 0,
    ensures
        cables_wanted(state, accounts, now) == Seq::<WantedModel>::empty(),
{
    reveal(Seq::filter);
    let live = state.claims.filter(live_at(now));
    assert(live.len() == 0);
    assert(live.map_values(crate::fpga::to_owners()) =~= Seq::empty());
    let pairs = live_owners(state.claims, now);
    assert(pairs.len() == 0);
    assert(pairs.map_values(to_verdicts(state.settings, accounts)) =~= Seq::empty());
    assert(verdicts(state, accounts, now) =~= Seq::empty());
    assert(verdicts(state, accounts, now).map_values(to_wanted()) =~= Seq::empty());
}

/// What is known of the file, and that it is not locked for `uid` yet.
pub open spec fn is_open_to_others(files: Seq<FileInfoModel>, path: Seq<char>, uid: u32) -> bool {
    file_found(files, path) matches Ok(meta) && !is_locked_for(uid, meta)
}

/// A cable that one pass locks is handed to its claimant, and the pass after the claims are gone
/// restores every one of its files to the ownership that it had before; then no rule and no lock is
/// left. The consoles of a cable are taken to be alike, as one of them stands for all.
pub proof fn law_a_released_cable_is_as_it_was(
    state: DiskStateModel,
    accounts: Seq<AccountModel>,
    now: Moment,
    done: Seq<bool>,
    scene: SceneModel,
    wanted: WantedModel,
    then: Moment,
    restored: Seq<bool>,
    later: SceneModel,
)
    requires
        one_lock_per_cable(state.cable_locks),
        cables_wanted(state, accounts, now).contains(wanted),
        !some_item(state.cable_locks, locks_serial(wanted.serial)),
        scene.cable(wanted.serial) is Some,
        later.cable(wanted.serial) == scene.cable(wanted.serial),
        forall|i: int|
            0 <= i < scene.cable(wanted.serial)->0.paths().len() ==> is_open_to_others(
                scene.files,
                #[trigger] scene.cable(wanted.serial)->0.paths()[i],
                wanted.uid,
            ),
        forall|i: int, j: int|
            0 <= i < j < scene.cable(wanted.serial)->0.consoles.len() ==> file_found(
                scene.files,
                #[trigger] scene.cable(wanted.serial)->0.consoles[i],
            ) == file_found(scene.files, #[trigger] scene.cable(wanted.serial)->0.consoles[j]),
        forall|i: int|
            0 <= i < sync_actions(
                DiskStateModel {
                    cable_locks: cables_synced(state, accounts, now, done, scene),
                    claims: Seq::empty(),
                    ..state
                },
                accounts,
                then,
                later.usb,
                later.dev,
            ).len() ==> #[trigger] is_done(restored, i),
    ensures
        ({
            let cable = scene.cable(wanted.serial)->0;
            let lock = recorded(wanted, scene);
            let locks = cables_synced(state, accounts, now, done, scene);
            let released = DiskStateModel { cable_locks: locks, claims: Seq::empty(), ..state };
            &&& locks.contains(lock)
            &&& forall|i: int|
                0 <= i < cable.paths().len() ==> reassertions(locks, scene).contains(
                    TakeoverModel {
                        path: #[trigger] cable.paths()[i],
                        uid: wanted.uid,
                        gid: file_found(scene.files, cable.paths()[i])->Ok_0.gid,
                    },
                )
            &&& sync_actions(released, accounts, then, later.usb, later.dev).contains(
                ActionModel::Restore(lock),
            )
            &&& restoration(cable, lock).len() == cable.paths().len()
            &&& forall|i: int|
                0 <= i < cable.paths().len() ==> #[trigger] restoration(cable, lock)[i] == (
                    cable.paths()[i],
                    file_found(scene.files, cable.paths()[i])->Ok_0,
                )
            &&& cables_wanted(released, accounts, then) == Seq::<WantedModel>::empty()
            &&& cables_synced(released, accounts, then, restored, later) == Seq::<
                CableLockModel,
            >::empty()
        }),
{
    let cable = scene.cable(wanted.serial)->0;
    let lock = recorded(wanted, scene);
    let locks = cables_synced(state, accounts, now, done, scene);
    let released = DiskStateModel { cable_locks: locks, claims: Seq::empty(), ..state };
    let paths = cable.paths();
    // the first pass records the lock
    let all = cables_wanted(state, accounts, now);
    let first = lock_actions(
        all,
        state.cable_locks,
        presence(state.cable_locks, is_plugged_in(scene.usb, scene.dev)),
    );
    let fresh = all.filter(not_locked_in(state.cable_locks));
    let base = all_applied(state.cable_locks, first, done, scene);
    lemma_records(state.cable_locks, first, fresh, done, scene);
    lemma_filter_members(all, not_locked_in(state.cable_locks));
    assert(fresh.contains(wanted));
    let m = choose|m: int| 0 <= m < fresh.len() && fresh[m] == wanted;
    assert(locks == base + fresh.map_values(to_recorded(scene)));
    let at = base.len() + m;
    assert(locks[at] == lock);
    law_a_sync_keeps_what_was_recorded(state, accounts, now, done, scene);
    // and hands the files over
    let lists = locks.map_values(to_reassertions(scene));
    let mapped = paths.map_values(to_reassertion(scene.files, wanted.uid));
    crate::seqs::lemma_concat_members(lists);
    lemma_somes_members(mapped);
    assert forall|i: int| 0 <= i < paths.len() implies reassertions(locks, scene).contains(
        TakeoverModel {
            path: #[trigger] paths[i],
            uid: wanted.uid,
            gid: file_found(scene.files, paths[i])->Ok_0.gid,
        },
    ) by {
        let hand = TakeoverModel {
            path: paths[i],
            uid: wanted.uid,
            gid: file_found(scene.files, paths[i])->Ok_0.gid,
        };
        assert(is_open_to_others(scene.files, paths[i], wanted.uid));
        assert(mapped[i] == Some(hand));
        assert(mapped.contains(Some(hand)));
        assert(lists[at].contains(hand));
    }
    // the second pass restores them
    lemma_nothing_wanted(released, accounts, then);
    let none = Seq::<WantedModel>::empty();
    let present = presence(locks, is_plugged_in(later.usb, later.dev));
    let actions = lock_actions(none, locks, present);
    reveal(Seq::filter);
    assert(none.filter(not_locked_in(locks)).map_values(to_record()) =~= Seq::empty());
    assert(sync_actions(released, accounts, then, later.usb, later.dev) =~= actions);
    let planned_for = locks.map(
        |i: int, one: CableLockModel| lock_action(none, one, present[i]),
    );
    lemma_somes_members(planned_for);
    lemma_first_where(none, wants(lock.serial));
    assert(planned_for[at] == Some(ActionModel::Restore(lock)));
    assert(planned_for.contains(Some(ActionModel::Restore(lock))));
    assert forall|i: int| 0 <= i < paths.len() implies #[trigger] restoration(cable, lock)[i] == (
        paths[i],
        file_found(scene.files, paths[i])->Ok_0,
    ) by {
        assert(is_open_to_others(scene.files, paths[i], wanted.uid));
        assert(is_open_to_others(scene.files, paths[0], wanted.uid));
        if i > 0 {
            assert(paths[i] == cable.consoles[i - 1]);
            assert(paths[1] == cable.consoles[0]);
            assert(is_open_to_others(scene.files, paths[1], wanted.uid));
            if i > 1 {
                assert(file_found(scene.files, cable.consoles[0]) == file_found(
                    scene.files,
                    cable.consoles[i - 1],
                ));
            }
        }
    }
    // after which nothing is left
    lemma_take_all(locks);
    lemma_take_all(present);
    lemma_locks_after(none, locks, present, restored, later, locks.len() as int);
    let left = locks.map_values(to_lock_after(none));
    assert forall|i: int| 0 <= i < left.len() implies (#[trigger] left[i]) is None by {
        lemma_first_where(none, wants(locks[i].serial));
    }
    lemma_no_somes(left);
    assert(Seq::<CableLockModel>::empty() + locks.skip(locks.len() as int) =~= Seq::empty());
}

/// What the switch of a hub port reads, if it can be read.
#[derive(Debug, PartialEq, Eq)]
pub struct PortInfo {
    pub path: String,
    pub value: Option<String>,
}

#[verifier::ext_equal]
pub struct PortInfoModel {
    pub path: Seq<char>,
    pub value: Option<Seq<char>>,
}

impl View for PortInfo {
    type V = PortInfoModel;

    open spec fn view(&self) -> PortInfoModel {
        PortInfoModel { path: self.path@, value: opt_view(self.value) }
    }
}

pub open spec fn port_at(path: Seq<char>) -> spec_fn(PortInfoModel) -> bool {
    |port: PortInfoModel| port.path == path
}

/// Whether the switch at `path` is known to be thrown.
pub open spec fn is_disabled(ports: Seq<PortInfoModel>) -> spec_fn(Seq<char>) -> bool {
    |path: Seq<char>|
        match find_first(ports, port_at(path)) {
            Some(port) => port.value matches Some(value) && trim(value) == "1"@,
            None => false,
        }
}

fn reads_disabled(ports: &[PortInfo], path: &str) -> (yes: bool)
    ensures
        yes == is_disabled(views(ports@))(path@),
{
    let ghost pred = port_at(path@);
    for i in 0..ports.len()
        invariant
            pred == port_at(path@),
            forall|j: int| 0 <= j < i ==> !pred(#[trigger] views(ports@)[j]),
    {
        if same_text(ports[i].path.as_str(), path) {
            proof {
                lemma_first_where_is(views(ports@), pred, i as int);
            }
            return match &ports[i].value {
                Some(value) => same_text(trimmed(value.as_str()).as_str(), "1"),
                None => false,
            };
        }
    }
    proof {
        lemma_first_where_is(views(ports@), pred, ports@.len() as int);
    }
    false
}

/// `ports`, and the ports of `locks` that are not among them yet.
pub open spec fn with_lock_ports(ports: Seq<Seq<char>>, locks: Seq<CableLockModel>) -> Seq<Seq<char>>
    decreases locks.len(),
{
    if locks.len() == 0 {
        ports
    } else {
        let earlier = with_lock_ports(ports, locks.drop_last());
        let port = locks.last().port_disable;
        if port.len() > 0 && !earlier.contains(port) {
            earlier.push(port)
        } else {
            earlier
        }
    }
}

/// The ports that an eviction may have left disabled: those it wrote down, and those of the cables
/// that are held.
pub fn ports_to_check(state: &DiskState) -> (ports: Vec<String>)
    ensures
        views(ports@) == with_lock_ports(state@.pending_replug, state@.cable_locks),
{
    let mut ports = copied(&state.pending_replug);
    let ghost start = state@.pending_replug;
    let ghost locks = state@.cable_locks;
    assert(locks.take(0) =~= Seq::empty());
    for i in 0..state.cable_locks.len()
        invariant
            start == state@.pending_replug,
            locks == state@.cable_locks,
            views(ports@) == with_lock_ports(start, locks.take(i as int)),
    {
        let port = state.cable_locks[i].port_disable.as_str();
        proof {
            lemma_take_next(locks, i as int);
        }
        if !port.is_empty() && !is_among(port, &ports) {
            let copy = state.cable_locks[i].port_disable.clone();
            proof {
                lemma_views_push(ports@, copy);
            }
            ports.push(copy);
        }
    }
    proof {
        lemma_take_all(locks);
    }
    ports
}

/// The ports that are to be enabled: those that an eviction may have left disabled and that read as
/// disabled.
pub open spec fn left_disabled(state: DiskStateModel, ports: Seq<PortInfoModel>) -> Seq<Seq<char>> {
    with_lock_ports(state.pending_replug, state.cable_locks).filter(is_disabled(ports))
}

/// The ports that are to be enabled because an eviction did not finish. Nothing else ever enables
/// a port.
pub fn ports_to_enable(state: &DiskState, ports: &[PortInfo]) -> (enable: Vec<String>)
    ensures
        views(enable@) == left_disabled(state@, views(ports@)),
{
    let all = ports_to_check(state);
    let ghost pred = is_disabled(views(ports@));
    let ghost names = views(all@);
    let mut enable: Vec<String> = Vec::new();
    proof {
        reveal(Seq::filter);
        assert(views(enable@) =~= names.take(0).filter(pred));
    }
    for i in 0..all.len()
        invariant
            pred == is_disabled(views(ports@)),
            names == views(all@),
            views(enable@) == names.take(i as int).filter(pred),
    {
        proof {
            lemma_filter_next(names, i as int, pred);
        }
        if reads_disabled(ports, all[i].as_str()) {
            let port = all[i].clone();
            proof {
                lemma_views_push(enable@, port);
            }
            enable.push(port);
        }
    }
    proof {
        lemma_take_all(names);
    }
    enable
}

/// Those of `enable` that could not be enabled.
pub open spec fn still_disabled(enable: Seq<Seq<char>>, done: Seq<bool>) -> Seq<Seq<char>>
    decreases enable.len(),
{
    if enable.len() == 0 {
        Seq::empty()
    } else {
        let earlier = still_disabled(enable.drop_last(), done);
        if is_done(done, enable.len() - 1) {
            earlier
        } else {
            earlier.push(enable.last())
        }
    }
}

/// Finish what an interrupted eviction left, once the [`ports_to_enable`] were tried; `done` tells
/// which of them could be enabled. Only the others are still pending.
pub fn reenable_disabled_ports(state: &mut DiskState, ports: &[PortInfo], done: &[bool])
    ensures
        final(state)@ == (DiskStateModel {
            pending_replug: still_disabled(left_disabled(old(state)@, views(ports@)), done@),
            ..old(state)@
        }),
{
    let enable = ports_to_enable(state, ports);
    let ghost names = views(enable@);
    let mut pending: Vec<String> = Vec::new();
    assert(views(pending@) =~= still_disabled(names.take(0), done@));
    for i in 0..enable.len()
        invariant
            names == views(enable@),
            views(pending@) == still_disabled(names.take(i as int), done@),
    {
        proof {
            lemma_take_next(names, i as int);
        }
        if !(i < done.len() && done[i]) {
            let port = enable[i].clone();
            proof {
                lemma_views_push(pending@, port);
            }
            pending.push(port);
        }
    }
    proof {
        lemma_take_all(names);
    }
    state.pending_replug = pending;
}

/// A port that an eviction wrote down and that reads as disabled is to be enabled by the next pass,
/// and so is the port of a cable that is held. If it cannot be enabled it is still written down
/// afterwards, and if every one can nothing is.
pub proof fn law_no_disabled_port_is_forgotten(
    state: DiskStateModel,
    ports: Seq<PortInfoModel>,
    done: Seq<bool>,
    port: Seq<char>,
)
    requires
        port.len() > 0,
        state.pending_replug.contains(port) || exists|i: int|
            0 <= i < state.cable_locks.len() && (#[trigger] state.cable_locks[i]).port_disable
                == port,
        is_disabled(ports)(port),
    ensures
        ({
            let enable = left_disabled(state, ports);
            &&& exists|i: int| 0 <= i < enable.len() && #[trigger] enable[i] == port
            &&& forall|i: int|
                0 <= i < enable.len() && #[trigger] enable[i] == port && !is_done(done, i)
                    ==> still_disabled(enable, done).contains(port)
            &&& (forall|i: int| 0 <= i < enable.len() ==> #[trigger] is_done(done, i))
                ==> still_disabled(enable, done).len() == 0
        }),
{
    let enable = left_disabled(state, ports);
    lemma_lock_ports(state.pending_replug, state.cable_locks, port);
    lemma_filter_members(
        with_lock_ports(state.pending_replug, state.cable_locks),
        is_disabled(ports),
    );
    assert(enable.contains(port));
    assert forall|i: int|
        0 <= i < enable.len() && #[trigger] enable[i] == port && !is_done(
            done,
            i,
        ) implies still_disabled(enable, done).contains(port) by {
        lemma_still_disabled(enable, done, i);
    }
    if forall|i: int| 0 <= i < enable.len() ==> #[trigger] is_done(done, i) {
        lemma_none_disabled(enable, done);
    }
}

proof fn lemma_still_disabled(enable: Seq<Seq<char>>, done: Seq<bool>, i: int)
    requires
        0 <= i < enable.len(),
        !is_done(done, i),
    ensures
        still_disabled(enable, done).contains(enable[i]),
    decreases enable.len(),
{
    let rest = enable.drop_last();
    let earlier = still_disabled(rest, done);
    let all = still_disabled(enable, done);
    if i == enable.len() - 1 {
        assert(all[all.len() - 1] == enable[i]);
    } else {
        lemma_still_disabled(rest, done, i);
        let k = choose|k: int| 0 <= k < earlier.len() && earlier[k] == enable[i];
        assert(all[k] == enable[i]);
    }
}

proof fn lemma_none_disabled(enable: Seq<Seq<char>>, done: Seq<bool>)
    requires
        forall|i: int| 0 <= i < enable.len() ==> #[trigger] is_done(done, i),
    ensures
        still_disabled(enable, done).len() == 0,
    decreases enable.len(),
{
    if enable.len() > 0 {
        lemma_none_disabled(enable.drop_last(), done);
    }
}

proof fn lemma_lock_ports(pending: Seq<Seq<char>>, locks: Seq<CableLockModel>, port: Seq<char>)
    requires
        port.len() > 0,
        pending.contains(port) || exists|i: int|
            0 <= i < locks.len() && (#[trigger] locks[i]).port_disable == port,
    ensures
        with_lock_ports(pending, locks).contains(port),
    decreases locks.len(),
{
    if locks.len() > 0 {
        let rest = locks.drop_last();
        let before = with_lock_ports(pending, rest);
        let after = with_lock_ports(pending, locks);
        if locks.last().port_disable == port && !before.contains(port) {
            assert(after[after.len() - 1] == port);
        } else {
            if locks.last().port_disable != port && !pending.contains(port) {
                let i = choose|i: int|
                    0 <= i < locks.len() && (#[trigger] locks[i]).port_disable == port;
                assert(rest[i].port_disable == port);
            }
            if locks.last().port_disable != port {
                lemma_lock_ports(pending, rest, port);
            }
            let k = choose|k: int| 0 <= k < before.len() && before[k] == port;
            assert(after[k] == port);
        }
    }
}

/// Write down the port of a cable that is about to be re-plugged. This is stored before the port
/// is disabled, so that a killed eviction is finished by the next run.
pub fn begin_eviction(state: &mut DiskState, cable: &Cable)
    ensures
        final(state)@ == (DiskStateModel {
            pending_replug: old(state)@.pending_replug.push(cable@.port_disable),
            ..old(state)@
        }),
{
    let port = cable.port_disable.clone();
    proof {
        lemma_views_push(state.pending_replug@, port);
    }
    state.pending_replug.push(port);
}

pub open spec fn is_other_port(port: Seq<char>) -> spec_fn(Seq<char>) -> bool {
    |pending: Seq<char>| pending != port
}

/// What is pending once an eviction at `port` is over: the port no longer is, unless it was left
/// disabled.
pub open spec fn pending_after(
    pending: Seq<Seq<char>>,
    port: Seq<char>,
    is_left_disabled: bool,
) -> Seq<Seq<char>> {
    if is_left_disabled {
        pending
    } else {
        pending.filter(is_other_port(port))
    }
}

/// The eviction is over; see [`pending_after`].
pub fn end_eviction(state: &mut DiskState, cable: &Cable, is_left_disabled: bool)
    ensures
        final(state)@ == (DiskStateModel {
            pending_replug: pending_after(
                old(state)@.pending_replug,
                cable@.port_disable,
                is_left_disabled,
            ),
            ..old(state)@
        }),
{
    if is_left_disabled {
        return;
    }
    let ghost pred = is_other_port(cable@.port_disable);
    let ghost all = state@.pending_replug;
    let total: usize = state.pending_replug.len();
    let mut out: Vec<String> = Vec::new();
    proof {
        reveal(Seq::filter);
        assert(views(out@) =~= all.take(0).filter(pred));
    }
    for i in 0..total
        invariant
            pred == is_other_port(cable@.port_disable),
            all == views(state.pending_replug@),
            total == state.pending_replug@.len(),
            views(out@) == all.take(i as int).filter(pred),
    {
        proof {
            lemma_filter_next(all, i as int, pred);
        }
        if !same_text(state.pending_replug[i].as_str(), cable.port_disable.as_str()) {
            let port = state.pending_replug[i].clone();
            proof {
                lemma_views_push(out@, port);
            }
            out.push(port);
        }
    }
    proof {
        lemma_take_all(all);
    }
    state.pending_replug = out;
}

/// An eviction that ends leaves pending what was pending before it began. One that leaves its port
/// disabled leaves the port pending.
pub proof fn law_a_finished_eviction_leaves_no_trace(pending: Seq<Seq<char>>, port: Seq<char>)
    requires
        !pending.contains(port),
    ensures
        pending_after(pending.push(port), port, false) == pending,
        pending_after(pending.push(port), port, true).contains(port),
{
    assert(pending.push(port)[pending.len() as int] == port);
    let pred = is_other_port(port);
    pending.lemma_filter_push(port, pred);
    assert forall|i: int| 0 <= i < pending.len() implies pred(#[trigger] pending[i]) by {
        assert(pending.contains(pending[i]));
    }
    crate::seqs::lemma_filter_all(pending, pred);
}

/// Where an eviction stands that waits for its cable to come back.
#[derive(Debug, PartialEq, Eq)]
pub enum Progress {
    Back,
    Waiting,
    GaveUp(String),
}

pub open spec fn gave_up_message(serial: Seq<char>, seconds: u64) -> Seq<char> {
    "cable "@ + serial + " did not come back within "@ + crate::text::decimal(seconds as nat)
        + "s"@
}

/// No USB device has this serial.
pub open spec fn has_gone(usb: Seq<UsbEntryModel>, dev: Seq<char>, serial: Seq<char>) -> bool {
    crate::cable::cable_found(usb, dev, serial) == Ok::<Option<CableModel>, Seq<char>>(None)
}

/// Whether a cable has gone after its port was disabled.
pub fn is_gone(usb: &[UsbEntry], dev: &str, serial: &str) -> (gone: bool)
    ensures
        gone == has_gone(views(usb@), dev@, serial@),
{
    match find(usb, dev, serial) {
        Ok(None) => true,
        Ok(Some(_)) => false,
        Err(_) => false,
    }
}

/// How often it is looked whether a cable has gone before its port is enabled again regardless.
pub const DEPARTURE_TRIES: u32 = 80;

/// Whether the wait for a cable to go is over, after `tries` that found it still there: it has
/// gone, or there were enough of them.
pub fn departure_is_over(usb: &[UsbEntry], dev: &str, serial: &str, tries: u32) -> (yes: bool)
    ensures
        yes == (has_gone(views(usb@), dev@, serial@) || tries >= DEPARTURE_TRIES),
{
    tries >= DEPARTURE_TRIES || is_gone(usb, dev, serial)
}

/// Whether a re-plugged cable is back: it is found, and its JTAG node exists. Once the wait is over
/// it is given up.
pub fn eviction_progress(
    usb: &[UsbEntry],
    dev: &str,
    serial: &str,
    existing: &[String],
    is_over: bool,
    seconds: u64,
) -> (progress: Progress)
    ensures
        ({
            let back = looked_up(views(usb@), dev@, serial@) matches Some(cable) && views(
                existing@,
            ).contains(cable.jtag);
            match progress {
                Progress::Back => back,
                Progress::Waiting => !back && !is_over,
                Progress::GaveUp(why) => !back && is_over && why@ == gave_up_message(
                    serial@,
                    seconds,
                ),
            }
        }),
{
    if let Some(cable) = look_up(usb, dev, serial) {
        if is_among(cable.jtag.as_str(), existing) {
            return Progress::Back;
        }
    }
    if !is_over {
        return Progress::Waiting;
    }
    let mut why = "cable ".to_string();
    why.append(serial);
    why.append(" did not come back within ");
    why.append(crate::text::decimal_text(seconds).as_str());
    why.append("s");
    Progress::GaveUp(why)
}

/// Whether every one of `paths` is the claimant's and locked.
pub open spec fn all_locked(paths: Seq<Seq<char>>, files: Seq<FileInfoModel>, uid: u32) -> bool {
    forall|i: int|
        0 <= i < paths.len() ==> match file_found(files, #[trigger] paths[i]) {
            Ok(meta) => meta.uid == uid && meta.mode == LOCKED_MODE,
            Err(_) => false,
        }
}

/// A configured cable as it is: `locked` means that a lock is recorded and every file really is
/// the claimant's.
pub open spec fn cable_view(
    locks: Seq<CableLockModel>,
    serial: Seq<char>,
    scene: SceneModel,
    ports: Seq<PortInfoModel>,
) -> CableView {
    let lock = find_first(locks, locks_serial(serial));
    if !is_valid_serial(serial) {
        CableView::Invalid
    } else {
        match scene.cable(serial) {
            Some(cable) => CableView::Present {
                locked: lock matches Some(lock) && all_locked(
                    cable.paths(),
                    scene.files,
                    lock.claimant_uid,
                ),
            },
            None => if lock matches Some(lock) && lock.port_disable.len() > 0 && is_disabled(ports)(
                lock.port_disable,
            ) {
                CableView::PortDisabled
            } else {
                CableView::Absent
            },
        }
    }
}

fn files_are_locked(paths: &[String], files: &[FileInfo], uid: u32) -> (yes: bool)
    ensures
        yes == all_locked(views(paths@), views(files@), uid),
{
    for i in 0..paths.len()
        invariant
            forall|j: int|
                0 <= j < i ==> match file_found(views(files@), #[trigger] views(paths@)[j]) {
                    Ok(meta) => meta.uid == uid && meta.mode == LOCKED_MODE,
                    Err(_) => false,
                },
    {
        let ghost path = views(paths@)[i as int];
        match look_up_file(files, paths[i].as_str()) {
            Ok(meta) => {
                if !(meta.uid == uid && meta.mode == LOCKED_MODE) {
                    assert(path == paths@[i as int]@);
                    return false;
                }
            },
            Err(_) => {
                assert(path == paths@[i as int]@);
                return false;
            },
        }
    }
    true
}

/// A configured cable as it is; see [`cable_view`].
pub fn view(state: &DiskState, serial: &str, scene: &Scene, ports: &[PortInfo]) -> (out: CableView)
    ensures
        out == cable_view(state@.cable_locks, serial@, scene@, views(ports@)),
{
    if !valid_serial(serial) {
        return CableView::Invalid;
    }
    let at: usize = lock_position(&state.cable_locks, serial);
    assert(state@.cable_locks.len() == state.cable_locks@.len());
    match look_up(&scene.usb, scene.dev.as_str(), serial) {
        Some(cable) => {
            let locked = at < state.cable_locks.len() && files_are_locked(
                &paths(&cable),
                &scene.files,
                state.cable_locks[at].claimant_uid,
            );
            CableView::Present { locked }
        },
        None => {
            if at < state.cable_locks.len() && !state.cable_locks[at].port_disable.as_str().is_empty()
                && reads_disabled(ports, state.cable_locks[at].port_disable.as_str()) {
                CableView::PortDisabled
            } else {
                CableView::Absent
            }
        },
    }
}

} // verus!
