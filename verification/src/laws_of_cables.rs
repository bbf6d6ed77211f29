//! What holds of cables: whose claim locks which cable, and which board a cable is listed under.
use vstd::prelude::*;
use crate::cable::{
    all_cables, all_serials, assignment, assignments, cable_at, cable_found, consoles_below,
    consoles_of, device_names, discovered_cables, hits, is_cable_vendor, is_tty, is_valid_serial,
    looked_up, lowered_aliases, lowered_products, named, numeric, of_cable_vendor, parts_of,
    to_cable, to_cables, to_device_name, with_serial, CableModel, UsbEntryModel,
};
use crate::cable_locks::{
    cables_wanted, law_wanted_cables_are_sound, lists_cable, to_verdict, to_verdicts, to_wanted,
    verdicts, VerdictModel, WantedModel,
};
use crate::clock::Moment;
use crate::discovery::{with_cable, with_cables};
use crate::diskstate::{with_alias, DiskStateModel, FpgaSpecModel};
use crate::fpga::{live_owners, uid_of, AccountModel};
use crate::laws_of_boards::{
    is_first_to_hold, law_a_name_means_its_account, law_an_alias_means_its_first_board,
    law_every_held_board_is_owned, lemma_inserted_members, lemma_sorted_members,
};
use crate::seqs::{
    concat_all, first_where, in_order, insert_in_order, lemma_concat_members, lemma_filter_members,
    lemma_first_where, lemma_repeats, lemma_somes_members, lemma_sorted, repeats, somes, sorted,
};
use crate::text::{
    contains_text, law_texts_are_totally_ordered, lowercase, path_join, starts_with, text_order,
    trim, zero_padded,
};

verus! {

/// Where item `m` of list `i` ends up when the lists are joined.
pub open spec fn place<A>(lists: Seq<Seq<A>>, i: int, m: int) -> int {
    concat_all(lists.take(i)).len() + m
}

proof fn lemma_place<A>(lists: Seq<Seq<A>>, i: int, m: int)
    requires
        0 <= i < lists.len(),
        0 <= m < lists[i].len(),
    ensures
        0 <= place(lists, i, m) < concat_all(lists).len(),
        concat_all(lists)[place(lists, i, m)] == lists[i][m],
    decreases lists.len(),
{
    let rest = lists.drop_last();
    if i == lists.len() - 1 {
        assert(lists.take(i) =~= rest);
    } else {
        lemma_place(rest, i, m);
        assert(lists.take(i) =~= rest.take(i));
        assert(rest[i] == lists[i]);
    }
}

proof fn lemma_place_of<A>(lists: Seq<Seq<A>>, p: int) -> (at: (int, int))
    requires
        0 <= p < concat_all(lists).len(),
    ensures
        0 <= at.0 < lists.len(),
        0 <= at.1 < lists[at.0].len(),
        place(lists, at.0, at.1) == p,
        lists[at.0][at.1] == concat_all(lists)[p],
    decreases lists.len(),
{
    let rest = lists.drop_last();
    let before = concat_all(rest);
    if p < before.len() {
        let at = lemma_place_of(rest, p);
        assert(lists.take(at.0) =~= rest.take(at.0));
        assert(rest[at.0] == lists[at.0]);
        at
    } else {
        assert(lists.take(lists.len() - 1) =~= rest);
        (lists.len() - 1, p - before.len())
    }
}

proof fn lemma_places_grow<A>(lists: Seq<Seq<A>>, i: int, j: int)
    requires
        0 <= i <= j <= lists.len(),
    ensures
        concat_all(lists.take(i)).len() <= concat_all(lists.take(j)).len(),
    decreases j - i,
{
    if i < j {
        lemma_places_grow(lists, i, j - 1);
        assert(lists.take(j).drop_last() =~= lists.take(j - 1));
    }
}

proof fn lemma_places_differ<A>(lists: Seq<Seq<A>>, i: int, m: int, j: int, n: int)
    requires
        0 <= i < lists.len(),
        0 <= m < lists[i].len(),
        0 <= j < lists.len(),
        0 <= n < lists[j].len(),
        (i, m) != (j, n),
    ensures
        place(lists, i, m) != place(lists, j, n),
{
    if i < j {
        lemma_places_grow(lists, i + 1, j);
        assert(lists.take(i + 1).drop_last() =~= lists.take(i));
    } else if j < i {
        lemma_places_grow(lists, j + 1, i);
        assert(lists.take(j + 1).drop_last() =~= lists.take(j));
    }
}

/// The boards name the serial at this place of their cable lists and at no other.
pub open spec fn is_sole_listing(fpgas: Seq<FpgaSpecModel>, b: int, k: int) -> bool {
    &&& 0 <= b < fpgas.len()
    &&& 0 <= k < fpgas[b].cables.len()
    &&& forall|i: int, m: int|
        0 <= i < fpgas.len() && 0 <= m < fpgas[i].cables.len() && #[trigger] fpgas[i].cables[m]
            == fpgas[b].cables[k] ==> i == b && m == k
}

/// A serial counts as listed twice exactly if it stands at more than one place of the boards'
/// cable lists.
pub proof fn law_a_serial_listed_at_one_place_is_no_duplicate(
    fpgas: Seq<FpgaSpecModel>,
    b: int,
    k: int,
)
    requires
        0 <= b < fpgas.len(),
        0 <= k < fpgas[b].cables.len(),
    ensures
        repeats(all_serials(fpgas)).contains(fpgas[b].cables[k]) <==> !is_sole_listing(fpgas, b, k),
{
    let lists = fpgas.map_values(to_cables());
    let all = all_serials(fpgas);
    let serial = fpgas[b].cables[k];
    lemma_repeats(all);
    lemma_place(lists, b, k);
    if repeats(all).contains(serial) {
        let (p, q) = choose|p: int, q: int|
            0 <= p < q < all.len() && #[trigger] all[p] == serial && #[trigger] all[q] == serial;
        let a = lemma_place_of(lists, p);
        let c = lemma_place_of(lists, q);
        assert(a != c);
        assert(fpgas[a.0].cables[a.1] == serial);
        assert(fpgas[c.0].cables[c.1] == serial);
    }
    if !is_sole_listing(fpgas, b, k) {
        let (i, m) = choose|i: int, m: int|
            0 <= i < fpgas.len() && 0 <= m < fpgas[i].cables.len() && #[trigger] fpgas[i].cables[m]
                == serial && !(i == b && m == k);
        lemma_place(lists, i, m);
        lemma_places_differ(lists, b, k, i, m);
        let p = place(lists, b, k);
        let q = place(lists, i, m);
        assert(all[p] == serial);
        assert(all[q] == serial);
        assert(p < q || q < p);
    }
}

/// Text that may stand in a udev rule: letters, digits, dots, underscores and dashes.
pub open spec fn is_safe_in_a_rule(text: Seq<char>) -> bool {
    &&& text.len() > 0
    &&& forall|i: int|
        0 <= i < text.len() ==> {
            let c = #[trigger] text[i];
            ('a' <= c && c <= 'z') || ('A' <= c && c <= 'Z') || ('0' <= c && c <= '9') || c == '.'
                || c == '_' || c == '-'
        }
}

pub proof fn law_a_valid_serial_is_safe_in_a_rule(text: Seq<char>)
    ensures
        is_valid_serial(text) <==> is_safe_in_a_rule(text),
{
    if is_valid_serial(text) {
        assert forall|i: int| 0 <= i < text.len() implies {
            let c = #[trigger] text[i];
            ('a' <= c && c <= 'z') || ('A' <= c && c <= 'Z') || ('0' <= c && c <= '9') || c == '.'
                || c == '_' || c == '-'
        } by {
            assert(crate::cable::is_plain(text[i]));
        }
    }
    if is_safe_in_a_rule(text) {
        assert forall|i: int| 0 <= i < text.len() implies crate::cable::is_plain(
            #[trigger] text[i],
        ) by {}
    }
}

/// Board `b` is the one that its alias means.
pub open spec fn is_first_of_its_alias(fpgas: Seq<FpgaSpecModel>, b: int) -> bool {
    &&& 0 <= b < fpgas.len()
    &&& forall|j: int| 0 <= j < b ==> (#[trigger] fpgas[j]).alias != fpgas[b].alias
}

/// Account `a` is the one that its name means.
pub open spec fn is_first_of_its_name(accounts: Seq<AccountModel>, a: int) -> bool {
    &&& 0 <= a < accounts.len()
    &&& forall|j: int| 0 <= j < a ==> (#[trigger] accounts[j]).name != accounts[a].name
}

/// Claim `c` locks cable `k` of board `b` for account `a`.
pub open spec fn claims_cable(
    state: DiskStateModel,
    accounts: Seq<AccountModel>,
    now: Moment,
    c: int,
    b: int,
    k: int,
    a: int,
) -> bool {
    let fpgas = state.settings.fpgas;
    &&& is_first_of_its_alias(fpgas, b)
    &&& is_first_to_hold(state.claims, c, fpgas[b].alias, now)
    &&& is_sole_listing(fpgas, b, k)
    &&& is_safe_in_a_rule(fpgas[b].cables[k])
    &&& is_safe_in_a_rule(state.claims[c].user)
    &&& is_first_of_its_name(accounts, a)
    &&& accounts[a].name == state.claims[c].user
}

/// The lock that follows from such a claim.
pub open spec fn cable_of_claim(
    state: DiskStateModel,
    accounts: Seq<AccountModel>,
    b: int,
    k: int,
    a: int,
) -> WantedModel {
    WantedModel {
        serial: state.settings.fpgas[b].cables[k],
        alias: state.settings.fpgas[b].alias,
        user: accounts[a].name,
        uid: accounts[a].uid,
    }
}

proof fn lemma_lock_wanted(
    state: DiskStateModel,
    accounts: Seq<AccountModel>,
    now: Moment,
    pair: (Seq<char>, Seq<char>),
    serial: Seq<char>,
    uid: u32,
)
    requires
        live_owners(state.claims, now).contains(pair),
        lists_cable(state.settings, pair.0, serial),
        is_valid_serial(serial),
        is_valid_serial(pair.1),
        !repeats(all_serials(state.settings.fpgas)).contains(serial),
        uid_of(accounts, pair.1) == Some(uid),
    ensures
        cables_wanted(state, accounts, now).contains(
            WantedModel { serial, alias: pair.0, user: pair.1, uid },
        ),
{
    let wanted = WantedModel { serial, alias: pair.0, user: pair.1, uid };
    let owners = live_owners(state.claims, now);
    let lists = owners.map_values(to_verdicts(state.settings, accounts));
    let all = verdicts(state, accounts, now);
    let spec = state.settings.fpga(pair.0)->0;
    let duplicates = repeats(all_serials(state.settings.fpgas));
    let i = choose|i: int| 0 <= i < owners.len() && owners[i] == pair;
    let k = choose|k: int| 0 <= k < spec.cables.len() && spec.cables[k] == serial;
    assert(lists[i] == spec.cables.map_values(to_verdict(pair, duplicates, accounts)));
    assert(lists[i][k] == VerdictModel::Lock(wanted));
    assert(lists[i].contains(VerdictModel::Lock(wanted)));
    lemma_concat_members(lists);
    assert(all.contains(VerdictModel::Lock(wanted)));
    let j = choose|j: int| 0 <= j < all.len() && all[j] == VerdictModel::Lock(wanted);
    let mapped = all.map_values(to_wanted());
    assert(mapped[j] == Some(wanted));
    assert(mapped.contains(Some(wanted)));
    lemma_somes_members(mapped);
}

/// Every cable of every claimed board is locked for the claimant: no board, no cable of a board and
/// no claim is passed over, as long as the serial and the name may stand in a rule, the serial is
/// listed once and the claimant has an account.
pub proof fn law_every_cable_of_a_claimed_board_is_wanted(
    state: DiskStateModel,
    accounts: Seq<AccountModel>,
    now: Moment,
    c: int,
    b: int,
    k: int,
    a: int,
)
    requires
        claims_cable(state, accounts, now, c, b, k, a),
    ensures
        cables_wanted(state, accounts, now).contains(cable_of_claim(state, accounts, b, k, a)),
{
    let fpgas = state.settings.fpgas;
    let alias = fpgas[b].alias;
    let user = state.claims[c].user;
    let serial = fpgas[b].cables[k];
    law_every_held_board_is_owned(state.claims, now, alias, user);
    law_an_alias_means_its_first_board(state.settings, alias);
    law_a_name_means_its_account(accounts, user);
    law_a_serial_listed_at_one_place_is_no_duplicate(fpgas, b, k);
    law_a_valid_serial_is_safe_in_a_rule(serial);
    law_a_valid_serial_is_safe_in_a_rule(user);
    assert(state.settings.fpga(alias) == Some(fpgas[b])) by {
        assert(fpgas[b].alias == alias);
        assert(crate::laws_of_claims::has_board(state.settings, alias));
        let spec = state.settings.fpga(alias)->0;
        let i = choose|i: int|
            0 <= i < fpgas.len() && #[trigger] fpgas[i] == spec && forall|j: int|
                0 <= j < i ==> (#[trigger] fpgas[j]).alias != alias;
        assert(i == b);
    }
    assert(uid_of(accounts, user) == Some(accounts[a].uid)) by {
        assert(accounts[a].name == user);
        let uid = uid_of(accounts, user)->0;
        let i = choose|i: int|
            0 <= i < accounts.len() && (#[trigger] accounts[i]).name == user && accounts[i].uid
                == uid && forall|j: int| 0 <= j < i ==> (#[trigger] accounts[j]).name != user;
        assert(i == a);
    }
    lemma_lock_wanted(state, accounts, now, (alias, user), serial, accounts[a].uid);
}

/// The same of what is known to be claimed: whoever owns a board has every usable cable of it.
pub proof fn law_an_owner_has_every_cable_of_the_board(
    state: DiskStateModel,
    accounts: Seq<AccountModel>,
    now: Moment,
    pair: (Seq<char>, Seq<char>),
    b: int,
    k: int,
)
    requires
        live_owners(state.claims, now).contains(pair),
        is_first_of_its_alias(state.settings.fpgas, b),
        state.settings.fpgas[b].alias == pair.0,
        is_sole_listing(state.settings.fpgas, b, k),
        is_safe_in_a_rule(state.settings.fpgas[b].cables[k]),
        is_safe_in_a_rule(pair.1),
        uid_of(accounts, pair.1) is Some,
    ensures
        cables_wanted(state, accounts, now).contains(
            WantedModel {
                serial: state.settings.fpgas[b].cables[k],
                alias: pair.0,
                user: pair.1,
                uid: uid_of(accounts, pair.1)->0,
            },
        ),
{
    law_every_held_board_is_owned(state.claims, now, pair.0, pair.1);
    let c = choose|c: int|
        #[trigger] is_first_to_hold(state.claims, c, pair.0, now) && state.claims[c].user == pair.1;
    law_a_name_means_its_account(accounts, pair.1);
    let uid = uid_of(accounts, pair.1)->0;
    let a = choose|a: int|
        0 <= a < accounts.len() && (#[trigger] accounts[a]).name == pair.1 && accounts[a].uid == uid
            && forall|j: int| 0 <= j < a ==> (#[trigger] accounts[j]).name != pair.1;
    law_every_cable_of_a_claimed_board_is_wanted(state, accounts, now, c, b, k, a);
}

/// No cable is locked without such a claim.
pub proof fn law_only_cables_of_claimed_boards_are_wanted(
    state: DiskStateModel,
    accounts: Seq<AccountModel>,
    now: Moment,
    wanted: WantedModel,
)
    requires
        cables_wanted(state, accounts, now).contains(wanted),
    ensures
        exists|c: int, b: int, k: int, a: int|
            #[trigger] claims_cable(state, accounts, now, c, b, k, a) && wanted == cable_of_claim(
                state,
                accounts,
                b,
                k,
                a,
            ),
{
    let fpgas = state.settings.fpgas;
    let all = cables_wanted(state, accounts, now);
    law_wanted_cables_are_sound(state, accounts, now);
    let w = choose|w: int| 0 <= w < all.len() && all[w] == wanted;
    assert(all[w] == wanted);
    law_every_held_board_is_owned(state.claims, now, wanted.alias, wanted.user);
    let c = choose|c: int|
        #[trigger] is_first_to_hold(state.claims, c, wanted.alias, now) && state.claims[c].user
            == wanted.user;
    law_an_alias_means_its_first_board(state.settings, wanted.alias);
    let spec = state.settings.fpga(wanted.alias)->0;
    let b = choose|b: int|
        0 <= b < fpgas.len() && #[trigger] fpgas[b] == spec && forall|j: int|
            0 <= j < b ==> (#[trigger] fpgas[j]).alias != wanted.alias;
    let k = choose|k: int| 0 <= k < spec.cables.len() && spec.cables[k] == wanted.serial;
    law_a_name_means_its_account(accounts, wanted.user);
    let a = choose|a: int|
        0 <= a < accounts.len() && (#[trigger] accounts[a]).name == wanted.user && accounts[a].uid
            == wanted.uid && forall|j: int|
            0 <= j < a ==> (#[trigger] accounts[j]).name != wanted.user;
    law_a_serial_listed_at_one_place_is_no_duplicate(fpgas, b, k);
    law_a_valid_serial_is_safe_in_a_rule(wanted.serial);
    law_a_valid_serial_is_safe_in_a_rule(wanted.user);
    assert(claims_cable(state, accounts, now, c, b, k, a));
}

pub open spec fn goes_to(alias: Seq<char>) -> spec_fn((Seq<char>, Seq<char>)) -> bool {
    |pair: (Seq<char>, Seq<char>)| pair.0 == alias
}

pub open spec fn to_its_serial() -> spec_fn((Seq<char>, Seq<char>)) -> Seq<char> {
    |pair: (Seq<char>, Seq<char>)| pair.1
}

/// The serials that the pairs give to the alias, in their order.
pub open spec fn serials_for(pairs: Seq<(Seq<char>, Seq<char>)>, alias: Seq<char>) -> Seq<Seq<char>> {
    pairs.filter(goes_to(alias)).map_values(to_its_serial())
}

proof fn lemma_serials_for(pairs: Seq<(Seq<char>, Seq<char>)>, alias: Seq<char>, n: int)
    requires
        0 <= n < pairs.len(),
    ensures
        serials_for(pairs.take(n + 1), alias) == if pairs[n].0 == alias {
            serials_for(pairs.take(n), alias).push(pairs[n].1)
        } else {
            serials_for(pairs.take(n), alias)
        },
{
    let pred = goes_to(alias);
    crate::seqs::lemma_filter_next(pairs, n, pred);
    assert(serials_for(pairs.take(n + 1), alias) =~= if pairs[n].0 == alias {
        serials_for(pairs.take(n), alias).push(pairs[n].1)
    } else {
        serials_for(pairs.take(n), alias)
    });
}

proof fn lemma_cables_added(
    fpgas: Seq<FpgaSpecModel>,
    pairs: Seq<(Seq<char>, Seq<char>)>,
    n: nat,
)
    requires
        n <= pairs.len(),
    ensures
        with_cables(fpgas, pairs, n).len() == fpgas.len(),
        forall|b: int|
            0 <= b < fpgas.len() ==> #[trigger] with_cables(fpgas, pairs, n)[b] == (FpgaSpecModel {
                cables: if is_first_of_its_alias(fpgas, b) {
                    fpgas[b].cables + serials_for(pairs.take(n as int), fpgas[b].alias)
                } else {
                    fpgas[b].cables
                },
                ..fpgas[b]
            }),
    decreases n,
{
    if n == 0 {
        reveal(Seq::filter);
        assert forall|b: int| 0 <= b < fpgas.len() implies #[trigger] with_cables(fpgas, pairs, n)[b]
            == (FpgaSpecModel {
            cables: if is_first_of_its_alias(fpgas, b) {
                fpgas[b].cables + serials_for(pairs.take(n as int), fpgas[b].alias)
            } else {
                fpgas[b].cables
            },
            ..fpgas[b]
        }) by {
            assert(serials_for(pairs.take(0), fpgas[b].alias) =~= Seq::empty());
            assert(fpgas[b].cables + serials_for(pairs.take(0), fpgas[b].alias) =~= fpgas[b].cables);
        }
    } else {
        let m = (n - 1) as nat;
        lemma_cables_added(fpgas, pairs, m);
        let before = with_cables(fpgas, pairs, m);
        let after = with_cables(fpgas, pairs, n);
        let pair = pairs[m as int];
        let pred = with_alias(pair.0);
        let at = first_where(before, pred);
        lemma_first_where(before, pred);
        assert(after == with_cable(before, pair));
        assert forall|b: int| 0 <= b < fpgas.len() implies #[trigger] after[b] == (FpgaSpecModel {
            cables: if is_first_of_its_alias(fpgas, b) {
                fpgas[b].cables + serials_for(pairs.take(n as int), fpgas[b].alias)
            } else {
                fpgas[b].cables
            },
            ..fpgas[b]
        }) by {
            lemma_serials_for(pairs, fpgas[b].alias, m as int);
            assert(before[b].alias == fpgas[b].alias);
            if b == at {
                assert(pred(before[at]));
                assert(fpgas[b].alias == pair.0);
                assert forall|j: int| 0 <= j < b implies (#[trigger] fpgas[j]).alias
                    != fpgas[b].alias by {
                    assert(!pred(before[j]));
                    assert(before[j].alias == fpgas[j].alias);
                }
                assert(is_first_of_its_alias(fpgas, b));
                let earlier = serials_for(pairs.take(m as int), fpgas[b].alias);
                assert((fpgas[b].cables + earlier).push(pair.1) =~= fpgas[b].cables + earlier.push(
                    pair.1,
                ));
            } else {
                assert(after[b] == before[b]);
                if fpgas[b].alias == pair.0 {
                    assert(pred(before[b]));
                    assert(at < b);
                    assert(before[at].alias == fpgas[at].alias);
                    assert(pred(before[at]));
                    assert(fpgas[at].alias == fpgas[b].alias);
                    assert(!is_first_of_its_alias(fpgas, b));
                }
            }
        }
    }
}

/// Registering cables changes cable lists and nothing else. The board that an alias means gets the
/// serial of every pair with that alias, behind the serials it had and in the order of the pairs;
/// every other board keeps its list.
pub proof fn law_every_assigned_cable_is_listed(
    fpgas: Seq<FpgaSpecModel>,
    pairs: Seq<(Seq<char>, Seq<char>)>,
)
    ensures
        with_cables(fpgas, pairs, pairs.len()).len() == fpgas.len(),
        forall|b: int|
            0 <= b < fpgas.len() ==> {
                let before = #[trigger] fpgas[b];
                let after = with_cables(fpgas, pairs, pairs.len())[b];
                &&& after.alias == before.alias
                &&& after.bdf == before.bdf
                &&& after.pci_id == before.pci_id
                &&& after.devices == before.devices
                &&& is_first_of_its_alias(fpgas, b) ==> after.cables == before.cables + serials_for(
                    pairs,
                    before.alias,
                )
                &&& !is_first_of_its_alias(fpgas, b) ==> after.cables == before.cables
            },
        forall|b: int, p: int|
            0 <= p < pairs.len() && #[trigger] is_first_of_its_alias(fpgas, b) && fpgas[b].alias == (
            #[trigger] pairs[p]).0 ==> with_cables(fpgas, pairs, pairs.len())[b].cables.contains(
                pairs[p].1,
            ),
        forall|b: int, serial: Seq<char>|
            0 <= b < fpgas.len() && #[trigger] with_cables(
                fpgas,
                pairs,
                pairs.len(),
            )[b].cables.contains(serial) ==> fpgas[b].cables.contains(serial) || pairs.contains(
                (fpgas[b].alias, serial),
            ),
{
    let n = pairs.len();
    let after = with_cables(fpgas, pairs, n);
    lemma_cables_added(fpgas, pairs, n);
    assert(pairs.take(n as int) =~= pairs);
    assert forall|b: int| 0 <= b < fpgas.len() implies {
        let before = #[trigger] fpgas[b];
        let now = after[b];
        &&& now.alias == before.alias
        &&& now.bdf == before.bdf
        &&& now.pci_id == before.pci_id
        &&& now.devices == before.devices
        &&& is_first_of_its_alias(fpgas, b) ==> now.cables == before.cables + serials_for(
            pairs,
            before.alias,
        )
        &&& !is_first_of_its_alias(fpgas, b) ==> now.cables == before.cables
    } by {
        assert(after[b].alias == fpgas[b].alias);
    }
    assert forall|b: int, p: int|
        0 <= p < pairs.len() && #[trigger] is_first_of_its_alias(fpgas, b) && fpgas[b].alias == (
        #[trigger] pairs[p]).0 implies after[b].cables.contains(pairs[p].1) by {
        let pred = goes_to(fpgas[b].alias);
        let kept = pairs.filter(pred);
        lemma_filter_members(pairs, pred);
        assert(pairs.contains(pairs[p]));
        assert(kept.contains(pairs[p]));
        let q = choose|q: int| 0 <= q < kept.len() && kept[q] == pairs[p];
        assert(serials_for(pairs, fpgas[b].alias)[q] == pairs[p].1);
        assert(after[b].cables[fpgas[b].cables.len() + q] == pairs[p].1);
    }
    assert forall|b: int, serial: Seq<char>|
        0 <= b < fpgas.len() && #[trigger] after[b].cables.contains(serial)
            implies fpgas[b].cables.contains(serial) || pairs.contains(
        (fpgas[b].alias, serial),
    ) by {
        let m = choose|m: int| 0 <= m < after[b].cables.len() && after[b].cables[m] == serial;
        let had = fpgas[b].cables;
        if m < had.len() {
            assert(had[m] == serial);
        } else {
            let pred = goes_to(fpgas[b].alias);
            let kept = pairs.filter(pred);
            lemma_filter_members(pairs, pred);
            assert(serials_for(pairs, fpgas[b].alias)[m - had.len()] == serial);
            let pair = kept[m - had.len()];
            assert(kept.contains(pair));
            assert(pair == (fpgas[b].alias, serial));
        }
    }
}

/// Two items that are there stay two when the absent ones are left out.
pub proof fn lemma_two_of_somes<A>(items: Seq<Option<A>>, i: int, j: int) -> (at: (int, int))
    requires
        0 <= i < j < items.len(),
        items[i] is Some,
        items[j] is Some,
    ensures
        0 <= at.0 < at.1 < somes(items).len(),
        somes(items)[at.0] == items[i]->0,
        somes(items)[at.1] == items[j]->0,
    decreases items.len(),
{
    let rest = items.drop_last();
    if j < rest.len() {
        assert(rest[i] == items[i] && rest[j] == items[j]);
        lemma_two_of_somes(rest, i, j)
    } else {
        lemma_somes_members(rest);
        assert(rest[i] == Some(items[i]->0));
        assert(rest.contains(Some(items[i]->0)));
        let before = somes(rest);
        assert(before.contains(items[i]->0));
        let p = choose|p: int| 0 <= p < before.len() && before[p] == items[i]->0;
        (p, before.len() as int)
    }
}

/// Two accepted items stay two.
pub proof fn lemma_two_of_filtered<A>(items: Seq<A>, pred: spec_fn(A) -> bool, i: int, j: int)
    requires
        0 <= i < j < items.len(),
        pred(items[i]),
        pred(items[j]),
    ensures
        items.filter(pred).len() >= 2,
    decreases items.len(),
{
    reveal(Seq::filter);
    let rest = items.drop_last();
    if j < rest.len() {
        assert(rest[i] == items[i] && rest[j] == items[j]);
        lemma_two_of_filtered(rest, pred, i, j);
    } else {
        lemma_filter_members(rest, pred);
        assert(rest[i] == items[i]);
        assert(rest.contains(items[i]));
        assert(rest.filter(pred).contains(items[i]));
    }
}

/// A second accepted item shows in the whole sequence too.
pub proof fn lemma_two_before_filtering<A>(items: Seq<A>, pred: spec_fn(A) -> bool) -> (at: (int, int))
    requires
        items.filter(pred).len() >= 2,
    ensures
        0 <= at.0 < at.1 < items.len(),
        pred(items[at.0]),
        pred(items[at.1]),
    decreases items.len(),
{
    reveal(Seq::filter);
    let rest = items.drop_last();
    if rest.filter(pred).len() >= 2 {
        let at = lemma_two_before_filtering(rest, pred);
        assert(rest[at.0] == items[at.0] && rest[at.1] == items[at.1]);
        at
    } else {
        let kept = rest.filter(pred);
        lemma_filter_members(rest, pred);
        assert(kept.contains(kept[0]));
        let i = choose|i: int| 0 <= i < rest.len() && rest[i] == kept[0];
        assert(items[i] == rest[i]);
        (i, items.len() - 1)
    }
}

/// A serial is looked up among all cables: nothing is found if no cable has it, the cable if one
/// has it, and nothing again, with a message, if more than one has it.
pub proof fn law_a_serial_means_the_only_cable_that_has_it(
    usb: Seq<UsbEntryModel>,
    dev: Seq<char>,
    serial: Seq<char>,
)
    ensures
        cable_found(usb, dev, serial) == Ok::<Option<CableModel>, Seq<char>>(None) <==> forall|i: int|
            0 <= i < all_cables(usb, dev).len() ==> (#[trigger] all_cables(usb, dev)[i]).serial
                != serial,
        cable_found(usb, dev, serial) is Err <==> exists|i: int, j: int|
            0 <= i < j < all_cables(usb, dev).len() && (#[trigger] all_cables(usb, dev)[i]).serial
                == serial && (#[trigger] all_cables(usb, dev)[j]).serial == serial,
        looked_up(usb, dev, serial) matches Some(cable) ==> cable.serial == serial && all_cables(
            usb,
            dev,
        ).contains(cable),
        looked_up(usb, dev, serial) is Some <==> (cable_found(usb, dev, serial) matches Ok(found)
            && found is Some),
{
    let all = all_cables(usb, dev);
    let pred = with_serial(serial);
    let kept = all.filter(pred);
    lemma_filter_members(all, pred);
    if kept.len() > 0 {
        assert(kept.contains(kept[0]));
        let i = choose|i: int| 0 <= i < all.len() && all[i] == kept[0];
        assert(all[i].serial == serial);
    }
    if kept.len() == 0 {
        assert forall|i: int| 0 <= i < all.len() implies (#[trigger] all[i]).serial != serial by {
            if all[i].serial == serial {
                assert(all.contains(all[i]));
                assert(kept.contains(all[i]));
            }
        }
    }
    if kept.len() >= 2 {
        let at = lemma_two_before_filtering(all, pred);
        assert(all[at.0].serial == serial && all[at.1].serial == serial);
    }
    if exists|i: int, j: int|
        0 <= i < j < all.len() && (#[trigger] all[i]).serial == serial && (#[trigger] all[j]).serial
            == serial {
        let (i, j) = choose|i: int, j: int|
            0 <= i < j < all.len() && (#[trigger] all[i]).serial == serial && (
            #[trigger] all[j]).serial == serial;
        lemma_two_of_filtered(all, pred, i, j);
    }
}

/// Entry `e` describes a USB device, is the one that its name means, and can be read.
pub open spec fn is_readable_device(usb: Seq<UsbEntryModel>, e: int) -> bool {
    &&& 0 <= e < usb.len()
    &&& !usb[e].name.contains(':')
    &&& forall|j: int| 0 <= j < e ==> (#[trigger] usb[j]).name != usb[e].name
    &&& usb[e].serial is Some
    &&& numeric(usb[e].busnum) is Some
    &&& numeric(usb[e].devnum) is Some
}

/// What entry `e` says of the cable.
pub open spec fn is_read_from(
    cable: CableModel,
    usb: Seq<UsbEntryModel>,
    dev: Seq<char>,
    e: int,
) -> bool {
    &&& is_readable_device(usb, e)
    &&& cable.serial == trim(usb[e].serial->0)
    &&& cable.jtag == path_join(
        dev,
        "bus/usb/"@ + zero_padded(numeric(usb[e].busnum)->0, 3) + "/"@ + zero_padded(
            numeric(usb[e].devnum)->0,
            3,
        ),
    )
    &&& cable.port_disable == path_join(usb[e].port, "disable"@)
    &&& usb[e].product matches Some(product) ==> cable.product == trim(product)
    &&& forall|path: Seq<char>| #[trigger]
        cable.consoles.contains(path) <==> is_console_of(usb, dev, usb[e].name, path)
}

/// A serial line of an interface of the device.
pub open spec fn is_console_of(
    usb: Seq<UsbEntryModel>,
    dev: Seq<char>,
    name: Seq<char>,
    path: Seq<char>,
) -> bool {
    exists|i: int, c: int|
        {
            &&& 0 <= i < usb.len()
            &&& 0 <= c < usb[i].children.len()
            &&& starts_with(usb[i].name, name + ":"@)
            &&& starts_with(#[trigger] usb[i].children[c], "ttyUSB"@)
            &&& path == path_join(dev, usb[i].children[c])
        }
}

/// Every serial line of every interface of a device belongs to its cable, and no other.
pub proof fn law_no_console_is_missed(usb: Seq<UsbEntryModel>, dev: Seq<char>, name: Seq<char>)
    ensures
        forall|path: Seq<char>| #[trigger]
            consoles_of(usb, dev, name).contains(path) <==> is_console_of(usb, dev, name, path),
{
    let f = consoles_below(name, dev);
    let lists = usb.map_values(f);
    let all = concat_all(lists);
    lemma_sorted_members(all, text_order());
    lemma_concat_members(lists);
    assert forall|path: Seq<char>| #[trigger]
        consoles_of(usb, dev, name).contains(path) <==> is_console_of(usb, dev, name, path) by {
        if is_console_of(usb, dev, name, path) {
            let (i, c) = choose|i: int, c: int|
                {
                    &&& 0 <= i < usb.len()
                    &&& 0 <= c < usb[i].children.len()
                    &&& starts_with(usb[i].name, name + ":"@)
                    &&& starts_with(#[trigger] usb[i].children[c], "ttyUSB"@)
                    &&& path == path_join(dev, usb[i].children[c])
                };
            let kept = usb[i].children.filter(is_tty());
            lemma_filter_members(usb[i].children, is_tty());
            assert(usb[i].children.contains(usb[i].children[c]));
            assert(kept.contains(usb[i].children[c]));
            let k = choose|k: int| 0 <= k < kept.len() && kept[k] == usb[i].children[c];
            assert(lists[i][k] == path);
            assert(lists[i].contains(path));
        }
        if all.contains(path) {
            let i = choose|i: int| 0 <= i < lists.len() && (#[trigger] lists[i]).contains(path);
            let kept = usb[i].children.filter(is_tty());
            let k = choose|k: int| 0 <= k < lists[i].len() && lists[i][k] == path;
            lemma_filter_members(usb[i].children, is_tty());
            assert(kept.contains(kept[k]));
            let c = choose|c: int| 0 <= c < usb[i].children.len() && usb[i].children[c] == kept[k];
            assert(starts_with(usb[i].children[c], "ttyUSB"@));
        }
    }
}

proof fn lemma_device_name(usb: Seq<UsbEntryModel>, e: int) -> (n: int)
    requires
        is_readable_device(usb, e),
    ensures
        0 <= n < device_names(usb).len(),
        device_names(usb)[n] == usb[e].name,
{
    let mapped = usb.map_values(to_device_name());
    lemma_somes_members(mapped);
    lemma_sorted_members(somes(mapped), text_order());
    assert(mapped[e] == Some(usb[e].name));
    assert(mapped.contains(Some(usb[e].name)));
    let names = device_names(usb);
    assert(names.contains(usb[e].name));
    choose|n: int| 0 <= n < names.len() && names[n] == usb[e].name
}

proof fn lemma_cable_read(usb: Seq<UsbEntryModel>, dev: Seq<char>, e: int)
    requires
        is_readable_device(usb, e),
    ensures
        cable_at(usb, dev, usb[e].name) matches Some(cable) && is_read_from(cable, usb, dev, e),
{
    let pred = named(usb[e].name);
    assert forall|j: int| 0 <= j < e implies !pred(#[trigger] usb[j]) by {}
    crate::seqs::lemma_first_where_is(usb, pred, e);
    law_no_console_is_missed(usb, dev, usb[e].name);
}

/// Every USB device that can be read is among the cables, with what its entry says.
pub proof fn law_every_readable_device_is_a_cable(
    usb: Seq<UsbEntryModel>,
    dev: Seq<char>,
    e: int,
)
    requires
        is_readable_device(usb, e),
    ensures
        exists|cable: CableModel| #[trigger]
            all_cables(usb, dev).contains(cable) && is_read_from(cable, usb, dev, e),
        is_cable_vendor(usb[e].vendor) ==> exists|cable: CableModel| #[trigger]
            discovered_cables(usb, dev).contains(cable) && is_read_from(cable, usb, dev, e),
        is_cable_vendor(usb[e].vendor) <==> (usb[e].vendor matches Some(vendor) && (trim(vendor)
            == "0403"@ || trim(vendor) == "03fd"@)),
{
    let n = lemma_device_name(usb, e);
    lemma_cable_read(usb, dev, e);
    let cable = cable_at(usb, dev, usb[e].name)->0;
    let names = device_names(usb);
    let mapped = names.map_values(to_cable(usb, dev));
    assert(mapped[n] == Some(cable));
    assert(mapped.contains(Some(cable)));
    lemma_somes_members(mapped);
    assert(all_cables(usb, dev).contains(cable));
    if is_cable_vendor(usb[e].vendor) {
        let pred = of_cable_vendor(usb);
        let kept = names.filter(pred);
        let by_name = named(usb[e].name);
        assert forall|j: int| 0 <= j < e implies !by_name(#[trigger] usb[j]) by {}
        crate::seqs::lemma_first_where_is(usb, by_name, e);
        lemma_filter_members(names, pred);
        assert(names.contains(names[n]));
        assert(kept.contains(usb[e].name));
        let k = choose|k: int| 0 <= k < kept.len() && kept[k] == usb[e].name;
        let made = kept.map_values(to_cable(usb, dev));
        assert(made[k] == Some(cable));
        assert(made.contains(Some(cable)));
        lemma_somes_members(made);
        assert(discovered_cables(usb, dev).contains(cable));
    }
}

/// Every cable comes from a USB device that can be read.
pub proof fn law_every_cable_is_a_readable_device(
    usb: Seq<UsbEntryModel>,
    dev: Seq<char>,
    cable: CableModel,
)
    requires
        all_cables(usb, dev).contains(cable),
    ensures
        exists|e: int| #[trigger] is_read_from(cable, usb, dev, e),
{
    let names = device_names(usb);
    let mapped = names.map_values(to_cable(usb, dev));
    lemma_somes_members(mapped);
    assert(mapped.contains(Some(cable)));
    let n = choose|n: int| 0 <= n < mapped.len() && mapped[n] == Some(cable);
    lemma_cable_at(usb, dev, names[n], n);
}

proof fn lemma_cable_at(usb: Seq<UsbEntryModel>, dev: Seq<char>, name: Seq<char>, n: int)
    requires
        0 <= n < device_names(usb).len(),
        device_names(usb)[n] == name,
        cable_at(usb, dev, name) is Some,
    ensures
        exists|e: int| #[trigger] is_read_from(cable_at(usb, dev, name)->0, usb, dev, e),
{
    let names = device_names(usb);
    let mapped = usb.map_values(to_device_name());
    lemma_somes_members(mapped);
    lemma_sorted_members(somes(mapped), text_order());
    assert(names.contains(names[n]));
    assert(mapped.contains(Some(name)));
    let m = choose|m: int| 0 <= m < mapped.len() && mapped[m] == Some(name);
    assert(usb[m].name == name && !name.contains(':'));
    let pred = named(name);
    lemma_first_where(usb, pred);
    assert(pred(usb[m]));
    let e = first_where(usb, pred);
    assert(pred(usb[e]));
    assert(is_readable_device(usb, e)) by {
        assert forall|j: int| 0 <= j < e implies (#[trigger] usb[j]).name != usb[e].name by {
            assert(!pred(usb[j]));
        }
    }
    lemma_cable_read(usb, dev, e);
    assert(is_read_from(cable_at(usb, dev, name)->0, usb, dev, e));
}

/// Two devices with one serial: neither is taken for the cable.
pub proof fn law_a_shared_serial_is_never_used(
    usb: Seq<UsbEntryModel>,
    dev: Seq<char>,
    e: int,
    g: int,
)
    requires
        is_readable_device(usb, e),
        is_readable_device(usb, g),
        e != g,
        trim(usb[e].serial->0) == trim(usb[g].serial->0),
    ensures
        cable_found(usb, dev, trim(usb[e].serial->0)) is Err,
        looked_up(usb, dev, trim(usb[e].serial->0)) is None,
{
    let serial = trim(usb[e].serial->0);
    let n = lemma_device_name(usb, e);
    let m = lemma_device_name(usb, g);
    lemma_cable_read(usb, dev, e);
    lemma_cable_read(usb, dev, g);
    assert(usb[e].name != usb[g].name) by {
        if e < g {
            assert(usb[e].name != usb[g].name);
        } else {
            assert(usb[g].name != usb[e].name);
        }
    }
    let mapped = device_names(usb).map_values(to_cable(usb, dev));
    let (a, b) = if n < m {
        (n, m)
    } else {
        (m, n)
    };
    assert(mapped[a] is Some && mapped[b] is Some);
    let at = lemma_two_of_somes(mapped, a, b);
    let all = all_cables(usb, dev);
    assert(all[at.0].serial == serial && all[at.1].serial == serial);
    law_a_serial_means_the_only_cable_that_has_it(usb, dev, serial);
}

/// Board `b` and cable `k` belong together: the board has no cable yet, the cable's product is the
/// only one that mentions the board's alias, it mentions no other board, and its serial may stand
/// in a rule and is listed nowhere.
pub open spec fn belong_together(
    fpgas: Seq<FpgaSpecModel>,
    cables: Seq<CableModel>,
    b: int,
    k: int,
) -> bool {
    &&& 0 <= b < fpgas.len()
    &&& 0 <= k < cables.len()
    &&& fpgas[b].cables.len() == 0
    &&& mentions(cables[k], fpgas[b])
    &&& forall|j: int|
        0 <= j < cables.len() && mentions(#[trigger] cables[j], fpgas[b]) ==> j == k
    &&& forall|i: int| 0 <= i < fpgas.len() && mentions(cables[k], #[trigger] fpgas[i]) ==> i == b
    &&& is_safe_in_a_rule(cables[k].serial)
    &&& forall|i: int|
        0 <= i < fpgas.len() ==> !(#[trigger] fpgas[i]).cables.contains(cables[k].serial)
}

/// The product name holds the alias, whatever the case of the letters.
pub open spec fn mentions(cable: CableModel, spec: FpgaSpecModel) -> bool {
    contains_text(lowercase(cable.product), lowercase(spec.alias))
}

proof fn lemma_sole_hit(n: nat, pred: spec_fn(int) -> bool)
    ensures
        ({
            let kept = Seq::new(n, |i: int| i).filter(pred);
            &&& kept.len() == 1 ==> 0 <= kept[0] < n && pred(kept[0]) && forall|j: int|
                0 <= j < n && #[trigger] pred(j) ==> j == kept[0]
            &&& forall|k: int|
                0 <= k < n && #[trigger] pred(k) && (forall|j: int|
                    0 <= j < n && #[trigger] pred(j) ==> j == k) ==> kept.len() == 1 && kept[0] == k
        }),
{
    let range = Seq::new(n, |i: int| i);
    let kept = range.filter(pred);
    lemma_filter_members(range, pred);
    if kept.len() == 1 {
        assert(kept.contains(kept[0]));
        assert forall|j: int| 0 <= j < n && #[trigger] pred(j) implies j == kept[0] by {
            assert(range[j] == j);
            assert(range.contains(j));
            assert(kept.contains(j));
        }
    }
    assert forall|k: int|
        0 <= k < n && #[trigger] pred(k) && (forall|j: int|
            0 <= j < n && #[trigger] pred(j) ==> j == k) implies kept.len() == 1 && kept[0] == k by {
        assert(range[k] == k);
        assert(range.contains(k));
        assert(kept.contains(k));
        if kept.len() >= 2 {
            let at = lemma_two_before_filtering(range, pred);
            assert(pred(at.0) && pred(at.1));
        }
        assert(kept.contains(kept[0]));
    }
}

/// A cable is assigned to a board exactly if the two belong together: no such pair is passed over,
/// and no other is made up.
pub proof fn law_every_cable_that_belongs_to_a_board_is_assigned(
    fpgas: Seq<FpgaSpecModel>,
    cables: Seq<CableModel>,
)
    ensures
        ({
            let pairs = assignments(
                fpgas,
                cables,
                lowered_aliases(fpgas),
                lowered_products(cables),
            );
            &&& forall|b: int, k: int|
                #[trigger] belong_together(fpgas, cables, b, k) ==> pairs.contains(
                    (fpgas[b].alias, cables[k].serial),
                )
            &&& forall|pair: (Seq<char>, Seq<char>)| #[trigger]
                pairs.contains(pair) ==> exists|b: int, k: int|
                    #[trigger] belong_together(fpgas, cables, b, k) && pair == (
                        fpgas[b].alias,
                        cables[k].serial,
                    )
        }),
{
    let aliases = lowered_aliases(fpgas);
    let products = lowered_products(cables);
    let pairs = assignments(fpgas, cables, aliases, products);
    let made = Seq::new(fpgas.len(), |i: int| assignment(fpgas, cables, aliases, products, i));
    lemma_somes_members(made);
    assert forall|b: int, k: int| #[trigger] belong_together(fpgas, cables, b, k) implies made[b]
        == Some((fpgas[b].alias, cables[k].serial)) by {
        lemma_assigned(fpgas, cables, b, k);
    }
    assert forall|b: int, k: int| #[trigger]
        belong_together(fpgas, cables, b, k) implies pairs.contains(
        (fpgas[b].alias, cables[k].serial),
    ) by {
        assert(made[b] == Some((fpgas[b].alias, cables[k].serial)));
        assert(made.contains(Some((fpgas[b].alias, cables[k].serial))));
    }
    assert forall|pair: (Seq<char>, Seq<char>)| #[trigger]
        pairs.contains(pair) implies exists|b: int, k: int|
        #[trigger] belong_together(fpgas, cables, b, k) && pair == (
            fpgas[b].alias,
            cables[k].serial,
        ) by {
        assert(made.contains(Some(pair)));
        let b = choose|b: int| 0 <= b < made.len() && made[b] == Some(pair);
        lemma_belongs(fpgas, cables, b);
        let k = hits(products, aliases[b])[0];
        assert(belong_together(fpgas, cables, b, k));
    }
}

proof fn lemma_listed_nowhere(fpgas: Seq<FpgaSpecModel>, serial: Seq<char>)
    ensures
        !all_serials(fpgas).contains(serial) <==> forall|i: int|
            0 <= i < fpgas.len() ==> !(#[trigger] fpgas[i]).cables.contains(serial),
{
    let lists = fpgas.map_values(to_cables());
    lemma_concat_members(lists);
    if all_serials(fpgas).contains(serial) {
        let i = choose|i: int| 0 <= i < lists.len() && (#[trigger] lists[i]).contains(serial);
        assert(fpgas[i].cables.contains(serial));
    } else {
        assert forall|i: int| 0 <= i < fpgas.len() implies !(
        #[trigger] fpgas[i]).cables.contains(serial) by {
            assert(lists[i] == fpgas[i].cables);
        }
    }
}

proof fn lemma_assigned(fpgas: Seq<FpgaSpecModel>, cables: Seq<CableModel>, b: int, k: int)
    requires
        belong_together(fpgas, cables, b, k),
    ensures
        assignment(fpgas, cables, lowered_aliases(fpgas), lowered_products(cables), b) == Some(
            (fpgas[b].alias, cables[k].serial),
        ),
{
    let aliases = lowered_aliases(fpgas);
    let products = lowered_products(cables);
    let hit = |i: int| contains_text(products[i], aliases[b]);
    let part = |i: int| contains_text(products[k], aliases[i]);
    lemma_sole_hit(products.len(), hit);
    lemma_sole_hit(aliases.len(), part);
    assert(hit(k)) by {
        assert(mentions(cables[k], fpgas[b]));
    }
    assert forall|j: int| 0 <= j < products.len() && #[trigger] hit(j) implies j == k by {
        assert(mentions(cables[j], fpgas[b]));
    }
    assert(part(b));
    assert forall|j: int| 0 <= j < aliases.len() && #[trigger] part(j) implies j == b by {
        assert(mentions(cables[k], fpgas[j]));
    }
    assert(hits(products, aliases[b]) =~= Seq::new(products.len(), |i: int| i).filter(hit));
    assert(parts_of(aliases, products[k]) =~= Seq::new(aliases.len(), |i: int| i).filter(part));
    law_a_valid_serial_is_safe_in_a_rule(cables[k].serial);
    lemma_listed_nowhere(fpgas, cables[k].serial);
}

proof fn lemma_belongs(fpgas: Seq<FpgaSpecModel>, cables: Seq<CableModel>, b: int)
    requires
        0 <= b < fpgas.len(),
        assignment(fpgas, cables, lowered_aliases(fpgas), lowered_products(cables), b) is Some,
    ensures
        ({
            let k = hits(lowered_products(cables), lowered_aliases(fpgas)[b])[0];
            belong_together(fpgas, cables, b, k)
        }),
{
    let aliases = lowered_aliases(fpgas);
    let products = lowered_products(cables);
    let k = hits(products, aliases[b])[0];
    let hit = |i: int| contains_text(products[i], aliases[b]);
    let part = |i: int| contains_text(products[k], aliases[i]);
    assert(hits(products, aliases[b]) =~= Seq::new(products.len(), |i: int| i).filter(hit));
    assert(parts_of(aliases, products[k]) =~= Seq::new(aliases.len(), |i: int| i).filter(part));
    lemma_sole_hit(products.len(), hit);
    lemma_sole_hit(aliases.len(), part);
    law_a_valid_serial_is_safe_in_a_rule(cables[k].serial);
    lemma_listed_nowhere(fpgas, cables[k].serial);
    assert(mentions(cables[k], fpgas[b]));
    assert forall|j: int| 0 <= j < cables.len() && mentions(
        #[trigger] cables[j],
        fpgas[b],
    ) implies j == k by {
        assert(hit(j));
    }
    assert(part(b));
    assert forall|i: int| 0 <= i < fpgas.len() && mentions(
        cables[k],
        #[trigger] fpgas[i],
    ) implies i == b by {
        assert(part(i));
    }
}

/// The consoles of a device come in the order of their names.
pub proof fn law_consoles_come_in_order(usb: Seq<UsbEntryModel>, dev: Seq<char>, name: Seq<char>)
    ensures
        in_order(consoles_of(usb, dev, name), text_order()),
{
    law_texts_are_totally_ordered();
    lemma_sorted(concat_all(usb.map_values(consoles_below(name, dev))), text_order());
}

proof fn lemma_two_before_somes<A>(items: Seq<Option<A>>, p: int, q: int) -> (at: (int, int))
    requires
        0 <= p < q < somes(items).len(),
    ensures
        0 <= at.0 < at.1 < items.len(),
        items[at.0] == Some(somes(items)[p]),
        items[at.1] == Some(somes(items)[q]),
    decreases items.len(),
{
    let rest = items.drop_last();
    let before = somes(rest);
    if q < before.len() {
        let at = lemma_two_before_somes(rest, p, q);
        assert(rest[at.0] == items[at.0] && rest[at.1] == items[at.1]);
        at
    } else {
        lemma_somes_members(rest);
        assert(before.contains(before[p]));
        assert(rest.contains(Some(before[p])));
        let i = choose|i: int| 0 <= i < rest.len() && rest[i] == Some(before[p]);
        assert(items[i] == rest[i]);
        (i, items.len() - 1)
    }
}

proof fn lemma_inserted_apart<A>(items: Seq<A>, x: A, le: spec_fn(A, A) -> bool)
    requires
        items.no_duplicates(),
        !items.contains(x),
    ensures
        insert_in_order(items, x, le).no_duplicates(),
    decreases items.len(),
{
    let out = insert_in_order(items, x, le);
    if items.len() > 0 {
        if le(items.last(), x) {
            assert forall|i: int, j: int|
                0 <= i < out.len() && 0 <= j < out.len() && i != j implies out[i] != out[j] by {
                if i < items.len() && j < items.len() {
                    assert(items[i] != items[j]);
                } else if i < items.len() {
                    assert(items.contains(items[i]));
                } else {
                    assert(items.contains(items[j]));
                }
            }
        } else {
            let rest = items.drop_last();
            assert forall|i: int, j: int|
                0 <= i < rest.len() && 0 <= j < rest.len() && i != j implies rest[i] != rest[j] by {
                assert(items[i] != items[j]);
            }
            assert(!rest.contains(x)) by {
                if rest.contains(x) {
                    let i = choose|i: int| 0 <= i < rest.len() && rest[i] == x;
                    assert(items[i] == x);
                }
            }
            lemma_inserted_apart(rest, x, le);
            lemma_inserted_members(rest, x, le);
            let before = insert_in_order(rest, x, le);
            let last = items.last();
            assert(!before.contains(last)) by {
                if before.contains(last) {
                    if last == x {
                        assert(items[items.len() - 1] == x);
                    } else {
                        assert(rest.contains(last));
                        let i = choose|i: int| 0 <= i < rest.len() && rest[i] == last;
                        assert(items[i] != items[items.len() - 1]);
                    }
                }
            }
            assert forall|i: int, j: int|
                0 <= i < out.len() && 0 <= j < out.len() && i != j implies out[i] != out[j] by {
                if i < before.len() && j < before.len() {
                    assert(before[i] != before[j]);
                } else if i < before.len() {
                    assert(before.contains(before[i]));
                } else {
                    assert(before.contains(before[j]));
                }
            }
        }
    }
}

proof fn lemma_sorted_apart<A>(items: Seq<A>, le: spec_fn(A, A) -> bool)
    requires
        items.no_duplicates(),
    ensures
        sorted(items, le).no_duplicates(),
    decreases items.len(),
{
    if items.len() > 0 {
        let rest = items.drop_last();
        assert forall|i: int, j: int|
            0 <= i < rest.len() && 0 <= j < rest.len() && i != j implies rest[i] != rest[j] by {
            assert(items[i] != items[j]);
        }
        lemma_sorted_apart(rest, le);
        lemma_sorted_members(rest, le);
        assert(!sorted(rest, le).contains(items.last())) by {
            if rest.contains(items.last()) {
                let i = choose|i: int| 0 <= i < rest.len() && rest[i] == items.last();
                assert(items[i] != items[items.len() - 1]);
            }
        }
        lemma_inserted_apart(sorted(rest, le), items.last(), le);
    }
}

/// No two entries have one name.
pub open spec fn names_differ(usb: Seq<UsbEntryModel>) -> bool {
    forall|i: int, j: int|
        0 <= i < j < usb.len() ==> (#[trigger] usb[i]).name != (#[trigger] usb[j]).name
}

proof fn lemma_device_names_apart(usb: Seq<UsbEntryModel>)
    requires
        names_differ(usb),
    ensures
        device_names(usb).no_duplicates(),
{
    let mapped = usb.map_values(to_device_name());
    let names = somes(mapped);
    assert forall|p: int, q: int|
        0 <= p < names.len() && 0 <= q < names.len() && p != q implies names[p] != names[q] by {
        let (a, b) = if p < q {
            (p, q)
        } else {
            (q, p)
        };
        let at = lemma_two_before_somes(mapped, a, b);
        assert(usb[at.0].name != usb[at.1].name);
    }
    lemma_sorted_apart(names, text_order());
}

/// A serial that one device has, and no other, finds that device.
pub proof fn law_the_only_device_with_a_serial_is_found(
    usb: Seq<UsbEntryModel>,
    dev: Seq<char>,
    e: int,
)
    requires
        names_differ(usb),
        is_readable_device(usb, e),
        forall|g: int| #[trigger]
            is_readable_device(usb, g) && g != e ==> trim(usb[g].serial->0) != trim(
                usb[e].serial->0,
            ),
    ensures
        looked_up(usb, dev, trim(usb[e].serial->0)) matches Some(cable) && is_read_from(
            cable,
            usb,
            dev,
            e,
        ),
{
    let serial = trim(usb[e].serial->0);
    let all = all_cables(usb, dev);
    let names = device_names(usb);
    let mapped = names.map_values(to_cable(usb, dev));
    law_a_serial_means_the_only_cable_that_has_it(usb, dev, serial);
    law_every_readable_device_is_a_cable(usb, dev, e);
    let cable = choose|cable: CableModel| #[trigger]
        all.contains(cable) && is_read_from(cable, usb, dev, e);
    let c = choose|c: int| 0 <= c < all.len() && all[c] == cable;
    assert(all[c].serial == serial);
    lemma_device_names_apart(usb);
    if cable_found(usb, dev, serial) is Err {
        let (i, j) = choose|i: int, j: int|
            0 <= i < j < all.len() && (#[trigger] all[i]).serial == serial && (
            #[trigger] all[j]).serial == serial;
        let at = lemma_two_before_somes(mapped, i, j);
        lemma_only_name(usb, dev, e, at.0);
        lemma_only_name(usb, dev, e, at.1);
        assert(names[at.0] != names[at.1]);
    }
    let found = looked_up(usb, dev, serial)->0;
    assert(all.contains(found));
    law_every_cable_is_a_readable_device(usb, dev, found);
    let g = choose|g: int| #[trigger] is_read_from(found, usb, dev, g);
    assert(is_readable_device(usb, g));
    assert(g == e);
}

proof fn lemma_only_name(usb: Seq<UsbEntryModel>, dev: Seq<char>, e: int, n: int)
    requires
        is_readable_device(usb, e),
        forall|g: int| #[trigger]
            is_readable_device(usb, g) && g != e ==> trim(usb[g].serial->0) != trim(
                usb[e].serial->0,
            ),
        0 <= n < device_names(usb).len(),
        cable_at(usb, dev, device_names(usb)[n]) matches Some(cable) && cable.serial == trim(
            usb[e].serial->0,
        ),
    ensures
        device_names(usb)[n] == usb[e].name,
{
    let name = device_names(usb)[n];
    let names = device_names(usb);
    let mapped = usb.map_values(to_device_name());
    lemma_somes_members(mapped);
    lemma_sorted_members(somes(mapped), text_order());
    assert(names.contains(names[n]));
    assert(mapped.contains(Some(name)));
    let m = choose|m: int| 0 <= m < mapped.len() && mapped[m] == Some(name);
    assert(usb[m].name == name && !name.contains(':'));
    let pred = named(name);
    lemma_first_where(usb, pred);
    assert(pred(usb[m]));
    let g = first_where(usb, pred);
    assert(pred(usb[g]));
    assert(is_readable_device(usb, g)) by {
        assert forall|j: int| 0 <= j < g implies (#[trigger] usb[j]).name != usb[g].name by {
            assert(!pred(usb[j]));
        }
    }
    assert(trim(usb[g].serial->0) == trim(usb[e].serial->0));
    assert(g == e);
}

} // verus!
