//! What holds of claims, whatever is claimed: who is in whose way, what a check answers, what a
//! release gives back and what it leaves.
use vstd::prelude::*;
use crate::claims::{
    check_report, collides, conflicts, guards, has_something_to_guard, is_guarding, is_live_foreign,
    recheck_due, recheck_kept, to_conflict, to_conflicts, ConflictModel,
};
use crate::cable::HostModel;
use crate::claiming::{
    claim_outcome, foreign_users, is_ambiguous, is_exclusive, is_named_in, is_unenforceable,
    is_used_by_others, names_known_resources, request_decision, split, with_outcome, AskerModel,
    ClaimArgsModel, DecisionModel,
};
use crate::clock::{Moment, LAST_SECOND};
use crate::command::ClaimCommandModel;
use crate::diskstate::{
    alias_of, foreign_on, name_of, resource_list, to_name, with_alias, with_id, ClaimModel,
    DiskStateModel, FpgaSpecModel, ResourceModel, SettingsModel,
};
use crate::fpga::{is_unknown, resolved, to_spec};
use crate::hog::{
    claims_released, covers_something, holds, is_held_by, is_kept_resource, is_mine_exclusively,
    names_released, selection, to_claim_names, to_resources, to_trimmed_claim, undoes_the_hog,
};
use crate::seqs::{
    concat_all, first_where, lemma_concat_members, lemma_distinct, lemma_filter_members,
    lemma_first_where, lemma_somes_members, some_item,
};
use crate::text::join;

verus! {

/// Some board of the host goes by this alias.
pub open spec fn has_board(settings: SettingsModel, alias: Seq<char>) -> bool {
    exists|i: int| 0 <= i < settings.fpgas.len() && (#[trigger] settings.fpgas[i]).alias == alias
}

/// A claim covers one of the resources.
pub open spec fn covers_one_of(claim: ClaimModel, resources: Seq<ResourceModel>) -> bool {
    exists|k: int|
        0 <= k < resources.len() && claim.resources.contains(#[trigger] resources[k])
}

/// A claim of somebody else that has not run out, on one of the resources.
pub open spec fn is_in_the_way(
    claim: ClaimModel,
    me: Seq<char>,
    requested: Seq<ResourceModel>,
    now: Moment,
) -> bool {
    &&& claim.user != me
    &&& claim.timeout.secs > now.secs || (claim.timeout.secs == now.secs && claim.timeout.nanos
        > now.nanos)
    &&& covers_one_of(claim, requested)
}

/// A check finds exactly the claims of others that have not run out and that cover any of the
/// requested resources, whichever of them it is: the exclusive ones block, and the shared ones are
/// mentioned.
pub proof fn law_a_check_misses_no_claim(
    claims: Seq<ClaimModel>,
    me: Seq<char>,
    requested: Seq<ResourceModel>,
    now: Moment,
)
    ensures
        forall|claim: ClaimModel| #[trigger]
            claims.filter(is_live_foreign(me, requested, now, true)).contains(claim)
                <==> claims.contains(claim) && claim.exclusive && is_in_the_way(
                claim,
                me,
                requested,
                now,
            ),
        forall|claim: ClaimModel| #[trigger]
            claims.filter(is_live_foreign(me, requested, now, false)).contains(claim)
                <==> claims.contains(claim) && !claim.exclusive && is_in_the_way(
                claim,
                me,
                requested,
                now,
            ),
{
    lemma_filter_members(claims, is_live_foreign(me, requested, now, true));
    lemma_filter_members(claims, is_live_foreign(me, requested, now, false));
    assert forall|claim: ClaimModel, exclusive: bool| #[trigger]
        is_live_foreign(me, requested, now, exclusive)(claim) <==> claim.exclusive == exclusive
            && is_in_the_way(claim, me, requested, now) by {
        let pred = |resource: ResourceModel| claim.covers(resource);
        if some_item(requested, pred) {
            let k = choose|k: int| 0 <= k < requested.len() && pred(#[trigger] requested[k]);
            assert(claim.resources.contains(requested[k]));
        }
        if covers_one_of(claim, requested) {
            let k = choose|k: int|
                0 <= k < requested.len() && claim.resources.contains(#[trigger] requested[k]);
            assert(pred(requested[k]));
        }
    }
}

/// Which boards a list of resources names: all of them are there, in order, or the list is refused
/// because one of them is on no board of the host.
pub proof fn law_every_named_board_is_resolved(
    settings: SettingsModel,
    resources: Seq<ResourceModel>,
    prog: Seq<char>,
)
    ensures
        resolved(settings, resources, prog) is Ok <==> forall|k: int|
            0 <= k < resources.len() ==> match #[trigger] resources[k] {
                ResourceModel::Fpga(alias) => has_board(settings, alias),
                ResourceModel::Host => true,
            },
        resolved(settings, resources, prog) matches Ok(specs) ==> {
            &&& forall|k: int|
                0 <= k < resources.len() ==> (#[trigger] resources[k] matches ResourceModel::Fpga(
                    alias,
                ) ==> exists|s: int|
                    0 <= s < specs.len() && (#[trigger] specs[s]).alias == alias
                        && settings.fpgas.contains(specs[s]))
            &&& forall|s: int|
                0 <= s < specs.len() ==> resources.contains(
                    ResourceModel::Fpga((#[trigger] specs[s]).alias),
                ) && settings.fpgas.contains(specs[s])
        },
{
    let unknown = is_unknown(settings);
    lemma_first_where(resources, unknown);
    assert forall|alias: Seq<char>| has_board(settings, alias) == (#[trigger] settings.fpga(
        alias,
    ) is Some) by {
        lemma_first_where(settings.fpgas, with_alias(alias));
        if has_board(settings, alias) {
            let i = choose|i: int|
                0 <= i < settings.fpgas.len() && (#[trigger] settings.fpgas[i]).alias == alias;
            assert(with_alias(alias)(settings.fpgas[i]));
        }
        if settings.fpga(alias) is Some {
            let at = first_where(settings.fpgas, with_alias(alias));
            assert(settings.fpgas[at].alias == alias);
        }
    }
    assert forall|k: int| 0 <= k < resources.len() implies unknown(#[trigger] resources[k]) == (
    resources[k] matches ResourceModel::Fpga(alias) && !has_board(settings, alias)) by {
        if let ResourceModel::Fpga(alias) = resources[k] {
            assert(has_board(settings, alias) == (settings.fpga(alias) is Some));
        }
    }
    if let Ok(specs) = resolved(settings, resources, prog) {
        let mapped = resources.map_values(to_spec(settings));
        lemma_somes_members(mapped);
        assert forall|k: int|
            0 <= k < resources.len() implies (#[trigger] resources[k] matches ResourceModel::Fpga(
            alias,
        ) ==> exists|s: int|
            0 <= s < specs.len() && (#[trigger] specs[s]).alias == alias
                && settings.fpgas.contains(specs[s])) by {
            if let ResourceModel::Fpga(alias) = resources[k] {
                assert(!unknown(resources[k]));
                lemma_first_where(settings.fpgas, with_alias(alias));
                let spec = settings.fpga(alias)->0;
                assert(mapped[k] == Some(spec));
                assert(mapped.contains(Some(spec)));
                assert(specs.contains(spec));
                let s = choose|s: int| 0 <= s < specs.len() && specs[s] == spec;
                assert(specs[s].alias == alias);
                assert(settings.fpgas.contains(specs[s]));
            }
        }
        assert forall|s: int| 0 <= s < specs.len() implies resources.contains(
            ResourceModel::Fpga((#[trigger] specs[s]).alias),
        ) && settings.fpgas.contains(specs[s]) by {
            assert(specs.contains(specs[s]));
            let k = choose|k: int| 0 <= k < mapped.len() && mapped[k] == Some(specs[s]);
            let alias = alias_of(resources[k])->0;
            lemma_first_where(settings.fpgas, with_alias(alias));
            assert(specs[s].alias == alias);
            assert(resources[k] == ResourceModel::Fpga(alias));
        }
    }
}

/// What a check answers: 2 if nothing is asked for or a board is unknown, 1 if somebody else holds
/// one of the resources exclusively, and 0 otherwise. It says something about each claim that is
/// in the way.
pub proof fn law_a_check_answers_for_every_resource(
    text: Seq<char>,
    state: DiskStateModel,
    me: Seq<char>,
    now: Moment,
    prog: Seq<char>,
)
    ensures
        ({
            let requested = resource_list(text);
            let report = check_report(text, state, me, now, prog);
            let wrong = requested.len() == 0 || exists|k: int|
                0 <= k < requested.len() && (#[trigger] requested[k] matches ResourceModel::Fpga(
                    alias,
                ) && !has_board(state.settings, alias));
            let blocked = exists|c: int|
                0 <= c < state.claims.len() && (#[trigger] state.claims[c]).exclusive
                    && is_in_the_way(state.claims[c], me, requested, now);
            let shared = exists|c: int|
                0 <= c < state.claims.len() && !(#[trigger] state.claims[c]).exclusive
                    && is_in_the_way(state.claims[c], me, requested, now);
            &&& report.code == 2 <==> wrong
            &&& report.code == 1 <==> !wrong && blocked
            &&& report.code == 0 <==> !wrong && !blocked
            &&& report.code != 0 <==> report.err.len() > 0
            &&& report.out.len() > 0 <==> !wrong && shared
        }),
{
    let requested = resource_list(text);
    law_every_named_board_is_resolved(state.settings, requested, prog);
    law_a_check_misses_no_claim(state.claims, me, requested, now);
    let blocking = state.claims.filter(is_live_foreign(me, requested, now, true));
    let sharing = state.claims.filter(is_live_foreign(me, requested, now, false));
    if blocking.len() > 0 {
        assert(blocking.contains(blocking[0]));
        let c = choose|c: int| 0 <= c < state.claims.len() && state.claims[c] == blocking[0];
        assert(state.claims[c].exclusive);
    }
    if sharing.len() > 0 {
        assert(sharing.contains(sharing[0]));
        let c = choose|c: int| 0 <= c < state.claims.len() && state.claims[c] == sharing[0];
        assert(!state.claims[c].exclusive);
    }
    assert forall|c: int|
        0 <= c < state.claims.len() && is_in_the_way(
            #[trigger] state.claims[c],
            me,
            requested,
            now,
        ) implies (if state.claims[c].exclusive {
        blocking.len() > 0
    } else {
        sharing.len() > 0
    }) by {
        assert(state.claims.contains(state.claims[c]));
        if state.claims[c].exclusive {
            assert(blocking.contains(state.claims[c]));
        } else {
            assert(sharing.contains(state.claims[c]));
        }
    }
}

/// Everything that stands in the way of a claim is reported, with who holds it, and nothing else: a
/// claim of somebody else on a requested resource, where either side wants it exclusively.
pub proof fn law_every_conflict_is_reported(
    state: DiskStateModel,
    me: Seq<char>,
    requested: Seq<ResourceModel>,
    exclusive: bool,
    conflict: ConflictModel,
)
    ensures
        conflicts(state, me, requested, exclusive).contains(conflict) <==> requested.contains(
            conflict.resource,
        ) && exists|c: int|
            {
                &&& 0 <= c < state.claims.len()
                &&& (#[trigger] state.claims[c]).user != me
                &&& state.claims[c].resources.contains(conflict.resource)
                &&& exclusive || state.claims[c].exclusive
                &&& conflict.user == state.claims[c].user
                &&& conflict.until == state.claims[c].timeout
                &&& conflict.exclusive == state.claims[c].exclusive
            },
{
    let lists = requested.map_values(to_conflicts(state, me, exclusive));
    let all = concat_all(lists);
    let r = conflict.resource;
    lemma_concat_members(lists);
    if all.contains(conflict) {
        let k = choose|k: int| 0 <= k < lists.len() && (#[trigger] lists[k]).contains(conflict);
        let foreign = state.foreign_claims_on(requested[k], me);
        let kept = foreign.filter(collides(exclusive));
        let m = choose|m: int| 0 <= m < lists[k].len() && lists[k][m] == conflict;
        lemma_filter_members(foreign, collides(exclusive));
        lemma_filter_members(state.claims, foreign_on(requested[k], me));
        assert(kept.contains(kept[m]));
        assert(to_conflict(requested[k])(kept[m]) == conflict);
        let c = choose|c: int| 0 <= c < state.claims.len() && state.claims[c] == kept[m];
        assert(state.claims[c].user != me);
    }
    if requested.contains(r) && exists|c: int|
        {
            &&& 0 <= c < state.claims.len()
            &&& (#[trigger] state.claims[c]).user != me
            &&& state.claims[c].resources.contains(r)
            &&& exclusive || state.claims[c].exclusive
            &&& conflict.user == state.claims[c].user
            &&& conflict.until == state.claims[c].timeout
            &&& conflict.exclusive == state.claims[c].exclusive
        } {
        let c = choose|c: int|
            {
                &&& 0 <= c < state.claims.len()
                &&& (#[trigger] state.claims[c]).user != me
                &&& state.claims[c].resources.contains(r)
                &&& exclusive || state.claims[c].exclusive
                &&& conflict.user == state.claims[c].user
                &&& conflict.until == state.claims[c].timeout
                &&& conflict.exclusive == state.claims[c].exclusive
            };
        let k = choose|k: int| 0 <= k < requested.len() && requested[k] == r;
        let foreign = state.foreign_claims_on(r, me);
        let kept = foreign.filter(collides(exclusive));
        lemma_filter_members(state.claims, foreign_on(r, me));
        lemma_filter_members(foreign, collides(exclusive));
        assert(state.claims.contains(state.claims[c]));
        assert(foreign.contains(state.claims[c]));
        assert(kept.contains(state.claims[c]));
        let m = choose|m: int| 0 <= m < kept.len() && kept[m] == state.claims[c];
        assert(lists[k][m] == conflict);
        assert(lists[k].contains(conflict));
    }
}

/// Two claims agree on everything but what they cover.
pub open spec fn is_same_claim(a: ClaimModel, b: ClaimModel) -> bool {
    &&& a.id == b.id
    &&& a.user == b.user
    &&& a.timeout == b.timeout
    &&& a.soft_timeout == b.soft_timeout
    &&& a.exclusive == b.exclusive
    &&& a.comment == b.comment
}

/// `after` is the claim `before` without those of its resources that `me` gives back.
pub open spec fn is_left_of(
    after: ClaimModel,
    before: ClaimModel,
    me: Seq<char>,
    selected: Seq<ResourceModel>,
) -> bool {
    is_same_claim(before, after) && forall|r: ResourceModel| #[trigger]
        after.resources.contains(r) <==> before.resources.contains(r) && !(before.user == me
            && selected.contains(r))
}

/// The claim is what a release leaves of one that was there.
pub open spec fn stems_from_one_of(
    after: ClaimModel,
    claims: Seq<ClaimModel>,
    me: Seq<char>,
    selected: Seq<ResourceModel>,
) -> bool {
    exists|c: int| 0 <= c < claims.len() && is_left_of(after, #[trigger] claims[c], me, selected)
}

/// The claim is still there, for this resource.
pub open spec fn still_covers(
    claims: Seq<ClaimModel>,
    claim: ClaimModel,
    resource: ResourceModel,
) -> bool {
    exists|k: int|
        0 <= k < claims.len() && is_same_claim(#[trigger] claims[k], claim)
            && claims[k].resources.contains(resource)
}

/// A release of named resources gives back these and no others: what else a claim covers it still
/// covers afterwards, under the same id, until the same time and as exclusively as before.
pub proof fn law_only_named_resources_are_given_back(
    claims: Seq<ClaimModel>,
    me: Seq<char>,
    selected: Seq<ResourceModel>,
)
    requires
        selected.len() > 0,
    ensures
        forall|c: int, r: ResourceModel|
            0 <= c < claims.len() && #[trigger] claims[c].resources.contains(r) && !(claims[c].user
                == me && selected.contains(r)) ==> still_covers(
                claims_released(claims, me, selected),
                claims[c],
                r,
            ),
        forall|k: int|
            0 <= k < claims_released(claims, me, selected).len() ==> stems_from_one_of(
                #[trigger] claims_released(claims, me, selected)[k],
                claims,
                me,
                selected,
            ),
        forall|k: int|
            0 <= k < claims_released(claims, me, selected).len() ==> (#[trigger] claims_released(
                claims,
                me,
                selected,
            )[k]).resources.len() > 0,
{
    let f = to_trimmed_claim(me, selected);
    let trimmed = claims.map_values(f);
    let after = claims_released(claims, me, selected);
    lemma_filter_members(trimmed, covers_something());
    assert forall|c: int, r: ResourceModel|
        0 <= c < claims.len() && #[trigger] claims[c].resources.contains(r) && !(claims[c].user
            == me && selected.contains(r)) implies still_covers(after, claims[c], r) by {
        lemma_filter_members(claims[c].resources, is_kept_resource(selected));
        let left = trimmed[c];
        assert(left.resources.contains(r));
        let i = choose|i: int| 0 <= i < left.resources.len() && left.resources[i] == r;
        assert(left.resources.len() > 0);
        assert(trimmed.contains(left));
        assert(after.contains(left));
        let k = choose|k: int| 0 <= k < after.len() && after[k] == left;
        assert(is_same_claim(after[k], claims[c]));
    }
    assert forall|k: int| 0 <= k < after.len() implies stems_from_one_of(
        #[trigger] after[k],
        claims,
        me,
        selected,
    ) by {
        assert(after.contains(after[k]));
        let c = choose|c: int| 0 <= c < trimmed.len() && trimmed[c] == after[k];
        lemma_filter_members(claims[c].resources, is_kept_resource(selected));
        assert(is_left_of(after[k], claims[c], me, selected));
    }
    assert forall|k: int| 0 <= k < after.len() implies (#[trigger] after[k]).resources.len() > 0 by {
        assert(after.contains(after[k]));
    }
}

/// What a release says it gave back. With nothing named, it is each resource of the exclusive claims
/// that go. Naming resources is told exactly if one of them was held, and a single one by its name.
pub proof fn law_a_release_names_what_was_held(
    claims: Seq<ClaimModel>,
    me: Seq<char>,
    selected: Seq<ResourceModel>,
)
    ensures
        selected.len() == 0 ==> forall|name: Seq<char>| #[trigger]
            names_released(claims, me, selected).contains(name) <==> exists|c: int, r: int|
                #![trigger claims[c].resources[r]]
                0 <= c < claims.len() && claims[c].user == me && claims[c].exclusive && 0 <= r
                    < claims[c].resources.len() && name_of(claims[c].resources[r]) == name,
        selected.len() > 0 ==> (names_released(claims, me, selected).len() > 0 <==> exists|
            c: int,
            r: int,
        |
            #![trigger claims[c], selected[r]]
            0 <= c < claims.len() && claims[c].user == me && 0 <= r < selected.len()
                && claims[c].resources.contains(selected[r])),
        selected.len() == 1 && (exists|c: int|
            0 <= c < claims.len() && (#[trigger] claims[c]).user == me
                && claims[c].resources.contains(selected[0])) ==> names_released(
            claims,
            me,
            selected,
        ) == seq![name_of(selected[0])],
{
    let told = names_released(claims, me, selected);
    if selected.len() == 0 {
        let mine = claims.filter(is_mine_exclusively(me));
        let lists = mine.map_values(to_claim_names());
        lemma_distinct(concat_all(lists));
        lemma_concat_members(lists);
        lemma_filter_members(claims, is_mine_exclusively(me));
        assert forall|name: Seq<char>| #[trigger] told.contains(name) <==> exists|c: int, r: int|
            #![trigger claims[c].resources[r]]
            0 <= c < claims.len() && claims[c].user == me && claims[c].exclusive && 0 <= r
                < claims[c].resources.len() && name_of(claims[c].resources[r]) == name by {
            if told.contains(name) {
                assert(concat_all(lists).contains(name));
                let i = choose|i: int| 0 <= i < lists.len() && (#[trigger] lists[i]).contains(name);
                let r = choose|r: int| 0 <= r < lists[i].len() && lists[i][r] == name;
                assert(mine.contains(mine[i]));
                let c = choose|c: int| 0 <= c < claims.len() && claims[c] == mine[i];
                assert(name_of(claims[c].resources[r]) == name);
            }
            if exists|c: int, r: int|
                #![trigger claims[c].resources[r]]
                0 <= c < claims.len() && claims[c].user == me && claims[c].exclusive && 0 <= r
                    < claims[c].resources.len() && name_of(claims[c].resources[r]) == name {
                let (c, r) = choose|c: int, r: int|
                    #![trigger claims[c].resources[r]]
                    0 <= c < claims.len() && claims[c].user == me && claims[c].exclusive && 0 <= r
                        < claims[c].resources.len() && name_of(claims[c].resources[r]) == name;
                assert(claims.contains(claims[c]));
                assert(mine.contains(claims[c]));
                let i = choose|i: int| 0 <= i < mine.len() && mine[i] == claims[c];
                assert(lists[i][r] == name);
                assert(lists[i].contains(name));
                assert(concat_all(lists).contains(name));
            }
        }
    } else {
        let pred = is_held_by(claims, me);
        let held = selected.filter(pred);
        lemma_filter_members(selected, pred);
        if held.len() > 0 {
            assert(held.contains(held[0]));
            let r = choose|r: int| 0 <= r < selected.len() && selected[r] == held[0];
            let c = choose|c: int|
                0 <= c < claims.len() && holds(me, held[0])(#[trigger] claims[c]);
            assert(claims[c].resources.contains(selected[r]));
        }
        assert forall|c: int, r: int|
            #![trigger claims[c], selected[r]]
            0 <= c < claims.len() && claims[c].user == me && 0 <= r < selected.len()
                && claims[c].resources.contains(selected[r]) implies held.contains(selected[r]) by {
            assert(holds(me, selected[r])(claims[c]));
            assert(pred(selected[r]));
            assert(selected.contains(selected[r]));
        }
        if selected.len() == 1 && held.len() > 0 {
            reveal(Seq::filter);
            assert(selected =~= seq![selected[0]]);
            assert(selected.drop_last() =~= Seq::empty());
            assert(selected.drop_last().filter(pred) =~= Seq::empty());
            assert(held =~= seq![selected[0]]);
            assert(held.map_values(to_name()) =~= seq![name_of(selected[0])]);
        }
    }
}

/// The host is given back by a bare release and by naming it, and by nothing else; and then only
/// if no claim with the hog's id is left.
pub proof fn law_naming_boards_never_undoes_a_hog(
    hogger: Option<ClaimModel>,
    claims: Seq<ClaimModel>,
    selected: Seq<ResourceModel>,
)
    ensures
        undoes_the_hog(hogger, claims, selected) <==> (selected.len() == 0 || exists|k: int|
            0 <= k < selected.len() && #[trigger] selected[k] == ResourceModel::Host) && (
        hogger matches Some(hogger) ==> forall|c: int|
            0 <= c < claims.len() ==> (#[trigger] claims[c]).id != hogger.id),
{
    if let Some(hogger) = hogger {
        assert forall|c: int| 0 <= c < claims.len() implies with_id(hogger.id)(
            #[trigger] claims[c],
        ) == (claims[c].id == hogger.id) by {}
    }
}

/// The arguments of a release name every resource that one of them lists.
pub proof fn law_every_argument_of_a_release_counts(
    texts: Seq<Seq<char>>,
    r: ResourceModel,
)
    ensures
        selection(texts).contains(r) <==> exists|i: int|
            0 <= i < texts.len() && resource_list(#[trigger] texts[i]).contains(r),
{
    let lists = texts.map_values(to_resources());
    lemma_concat_members(lists);
    assert forall|i: int| 0 <= i < texts.len() implies lists[i] == resource_list(
        #[trigger] texts[i],
    ) by {}
    if exists|i: int| 0 <= i < texts.len() && resource_list(#[trigger] texts[i]).contains(r) {
        let i = choose|i: int| 0 <= i < texts.len() && resource_list(#[trigger] texts[i]).contains(r);
        assert(lists[i].contains(r));
    }
    if selection(texts).contains(r) {
        let i = choose|i: int| 0 <= i < lists.len() && (#[trigger] lists[i]).contains(r);
        assert(resource_list(texts[i]).contains(r));
    }
}

/// A live exclusive claim on a board that has device files or cables keeps the re-checks going, and
/// nothing else does.
pub proof fn law_rechecks_go_on_while_a_board_is_guarded(state: DiskStateModel, now: Moment)
    ensures
        guards(state, now) <==> exists|c: int, r: int|
            #![trigger state.claims[c].resources[r]]
            {
                &&& 0 <= c < state.claims.len()
                &&& state.claims[c].exclusive
                &&& state.claims[c].timeout.after(now)
                &&& 0 <= r < state.claims[c].resources.len()
                &&& state.claims[c].resources[r] matches ResourceModel::Fpga(alias)
                &&& state.settings.fpga(alias) matches Some(spec)
                &&& spec.devices.len() > 0 || spec.cables.len() > 0
            },
        !guards(state, now) ==> recheck_due(state, now) is None && recheck_kept(state, now) is None,
        guards(state, now) && now.wf() && now.nanos < 1_000_000_000 && now.secs + 300 < LAST_SECOND
            ==> (recheck_due(state, now) matches Some(at) ==> at.secs == now.secs + 300 && at.nanos
            == now.nanos && recheck_kept(state, now) == Some(at)),
        guards(state, now) ==> (recheck_due(state, now) is None <==> (state.recheck_at matches Some(
            at,
        ) && at.after(now))),
        guards(state, now) && recheck_due(state, now) is None ==> recheck_kept(state, now)
            == state.recheck_at,
{
    let pred = is_guarding(state.settings, now);
    let worth = has_something_to_guard(state.settings);
    if guards(state, now) {
        let c = choose|c: int| 0 <= c < state.claims.len() && pred(#[trigger] state.claims[c]);
        let r = choose|r: int|
            0 <= r < state.claims[c].resources.len() && worth(
                #[trigger] state.claims[c].resources[r],
            );
        assert(worth(state.claims[c].resources[r]));
        assert(state.claims[c].resources[r] is Fpga);
    }
    if exists|c: int, r: int|
        #![trigger state.claims[c].resources[r]]
        {
            &&& 0 <= c < state.claims.len()
            &&& state.claims[c].exclusive
            &&& state.claims[c].timeout.after(now)
            &&& 0 <= r < state.claims[c].resources.len()
            &&& state.claims[c].resources[r] matches ResourceModel::Fpga(alias)
            &&& state.settings.fpga(alias) matches Some(spec)
            &&& spec.devices.len() > 0 || spec.cables.len() > 0
        } {
        let (c, r) = choose|c: int, r: int|
            #![trigger state.claims[c].resources[r]]
            {
                &&& 0 <= c < state.claims.len()
                &&& state.claims[c].exclusive
                &&& state.claims[c].timeout.after(now)
                &&& 0 <= r < state.claims[c].resources.len()
                &&& state.claims[c].resources[r] matches ResourceModel::Fpga(alias)
                &&& state.settings.fpga(alias) matches Some(spec)
                &&& spec.devices.len() > 0 || spec.cables.len() > 0
            };
        assert(worth(state.claims[c].resources[r]));
        assert(pred(state.claims[c]));
    }
}

/// A word that lists resources, every one of which goes by a known name.
pub open spec fn lists_known_names(word: Seq<char>, known: Seq<Seq<char>>) -> bool {
    resource_list(word).len() > 0 && forall|k: int|
        0 <= k < resource_list(word).len() ==> known.contains(
            name_of(#[trigger] resource_list(word)[k]),
        )
}

/// Some board that the word lists goes by a name that also reads as a timeout.
pub open spec fn lists_a_timeout(
    word: Seq<char>,
    is_timeout: spec_fn(Seq<char>) -> bool,
) -> bool {
    exists|k: int|
        0 <= k < resource_list(word).len() && (#[trigger] resource_list(
            word,
        )[k] matches ResourceModel::Fpga(alias) && is_timeout(alias))
}

/// What the words of a claim are for. If the first lists known resources, none of which reads as a
/// timeout, it says what is claimed, the second until when, and the rest is the comment. If it does
/// not, but reads as a timeout itself, the host is claimed until then and the rest is the comment.
/// Anything else is refused.
pub proof fn law_every_word_of_a_claim_has_its_role(
    args: Seq<Seq<char>>,
    known: Seq<Seq<char>>,
    is_timeout: spec_fn(Seq<char>) -> bool,
)
    ensures
        split(args, known, is_timeout) is Ok <==> args.len() > 0 && if lists_known_names(
            args[0],
            known,
        ) {
            args.len() > 1 && !lists_a_timeout(args[0], is_timeout)
        } else {
            is_timeout(args[0])
        },
        split(args, known, is_timeout) matches Ok(roles) ==> {
            &&& lists_known_names(args[0], known) ==> roles.resources == args[0] && roles.timeout
                == args[1] && roles.comment == args.skip(2)
            &&& !lists_known_names(args[0], known) ==> roles.resources == "host"@ && roles.timeout
                == args[0] && roles.comment == args.skip(1)
        },
{
    if args.len() > 0 {
        let named = resource_list(args[0]);
        let pred = is_ambiguous(is_timeout);
        let known_name = is_named_in(known);
        lemma_first_where(named, pred);
        assert(names_known_resources(args[0], known) == lists_known_names(args[0], known)) by {
            assert forall|k: int| 0 <= k < named.len() implies known_name(#[trigger] named[k])
                == known.contains(name_of(named[k])) by {}
        }
        if lists_a_timeout(args[0], is_timeout) {
            let k = choose|k: int|
                0 <= k < named.len() && (#[trigger] named[k] matches ResourceModel::Fpga(alias)
                    && is_timeout(alias));
            assert(pred(named[k]));
        }
        let at = first_where(named, pred);
        if at < named.len() {
            assert(pred(named[at]));
            assert(named[at] is Fpga);
        }
    }
}

/// One of the requested resources is a board.
pub open spec fn asks_for_a_board(requested: Seq<ResourceModel>) -> bool {
    exists|k: int| 0 <= k < requested.len() && #[trigger] requested[k] is Fpga
}

/// A claim of somebody else covers one of the requested resources, and one of the two is exclusive.
pub open spec fn is_taken(
    claims: Seq<ClaimModel>,
    me: Seq<char>,
    requested: Seq<ResourceModel>,
    exclusive: bool,
) -> bool {
    exists|c: int|
        0 <= c < claims.len() && (#[trigger] claims[c]).user != me && (exclusive
            || claims[c].exclusive) && covers_one_of(claims[c], requested)
}

/// Every board among the requested resources is one of this host.
pub open spec fn boards_are_known(settings: SettingsModel, requested: Seq<ResourceModel>) -> bool {
    forall|k: int|
        0 <= k < requested.len() ==> match #[trigger] requested[k] {
            ResourceModel::Fpga(alias) => has_board(settings, alias),
            ResourceModel::Host => true,
        }
}

/// The board has device files or cables to protect it by, and nobody else uses it.
pub open spec fn is_free(spec: FpgaSpecModel, host: HostModel, uid: Option<u32>) -> bool {
    (spec.devices.len() > 0 || spec.cables.len() > 0) && foreign_users(spec, host, uid).len() == 0
}

/// Every board among the requested resources can be protected, and nobody else uses it.
pub open spec fn boards_are_free(
    settings: SettingsModel,
    requested: Seq<ResourceModel>,
    host: HostModel,
    uid: Option<u32>,
) -> bool {
    forall|k: int|
        0 <= k < requested.len() ==> match #[trigger] requested[k] {
            ResourceModel::Fpga(alias) => settings.fpga(alias) matches Some(spec) && is_free(
                spec,
                host,
                uid,
            ),
            ResourceModel::Host => true,
        }
}

proof fn lemma_taken(
    state: DiskStateModel,
    me: Seq<char>,
    requested: Seq<ResourceModel>,
    exclusive: bool,
)
    ensures
        conflicts(state, me, requested, exclusive).len() > 0 <==> is_taken(
            state.claims,
            me,
            requested,
            exclusive,
        ),
{
    let found = conflicts(state, me, requested, exclusive);
    if found.len() > 0 {
        assert(found.contains(found[0]));
        law_every_conflict_is_reported(state, me, requested, exclusive, found[0]);
        let r = found[0].resource;
        let k = choose|k: int| 0 <= k < requested.len() && requested[k] == r;
        let c = choose|c: int|
            {
                &&& 0 <= c < state.claims.len()
                &&& (#[trigger] state.claims[c]).user != me
                &&& state.claims[c].resources.contains(r)
                &&& exclusive || state.claims[c].exclusive
                &&& found[0].user == state.claims[c].user
                &&& found[0].until == state.claims[c].timeout
                &&& found[0].exclusive == state.claims[c].exclusive
            };
        assert(state.claims[c].resources.contains(requested[k]));
        assert(covers_one_of(state.claims[c], requested));
    }
    if is_taken(state.claims, me, requested, exclusive) {
        let c = choose|c: int|
            0 <= c < state.claims.len() && (#[trigger] state.claims[c]).user != me && (exclusive
                || state.claims[c].exclusive) && covers_one_of(state.claims[c], requested);
        let k = choose|k: int|
            0 <= k < requested.len() && state.claims[c].resources.contains(
                #[trigger] requested[k],
            );
        let conflict = to_conflict(requested[k])(state.claims[c]);
        assert(requested.contains(conflict.resource));
        law_every_conflict_is_reported(state, me, requested, exclusive, conflict);
        assert(found.contains(conflict));
    }
}

proof fn lemma_resolved_board(
    settings: SettingsModel,
    requested: Seq<ResourceModel>,
    prog: Seq<char>,
    spec: FpgaSpecModel,
)
    requires
        resolved(settings, requested, prog) is Ok,
    ensures
        resolved(settings, requested, prog)->Ok_0.contains(spec) <==> exists|k: int|
            0 <= k < requested.len() && (#[trigger] requested[k] matches ResourceModel::Fpga(alias)
                && settings.fpga(alias) == Some(spec)),
{
    let specs = resolved(settings, requested, prog)->Ok_0;
    let mapped = requested.map_values(to_spec(settings));
    lemma_somes_members(mapped);
    if specs.contains(spec) {
        assert(mapped.contains(Some(spec)));
        let k = choose|k: int| 0 <= k < mapped.len() && mapped[k] == Some(spec);
        assert(requested[k] is Fpga);
    }
    if exists|k: int|
        0 <= k < requested.len() && (#[trigger] requested[k] matches ResourceModel::Fpga(alias)
            && settings.fpga(alias) == Some(spec)) {
        let k = choose|k: int|
            0 <= k < requested.len() && (#[trigger] requested[k] matches ResourceModel::Fpga(alias)
                && settings.fpga(alias) == Some(spec));
        assert(mapped[k] == Some(spec));
        assert(mapped.contains(Some(spec)));
    }
}

proof fn lemma_boards_free(
    settings: SettingsModel,
    requested: Seq<ResourceModel>,
    prog: Seq<char>,
    host: HostModel,
    uid: Option<u32>,
)
    requires
        resolved(settings, requested, prog) is Ok,
    ensures
        ({
            let specs = resolved(settings, requested, prog)->Ok_0;
            boards_are_free(settings, requested, host, uid) <==> specs.filter(
                is_unenforceable(),
            ).len() == 0 && !some_item(specs, is_used_by_others(host, uid))
        }),
{
    let specs = resolved(settings, requested, prog)->Ok_0;
    let bad = specs.filter(is_unenforceable());
    let used = is_used_by_others(host, uid);
    lemma_filter_members(specs, is_unenforceable());
    if boards_are_free(settings, requested, host, uid) {
        assert forall|spec: FpgaSpecModel| #[trigger] specs.contains(spec) implies is_free(
            spec,
            host,
            uid,
        ) by {
            lemma_resolved_board(settings, requested, prog, spec);
            let k = choose|k: int|
                0 <= k < requested.len() && (#[trigger] requested[k] matches ResourceModel::Fpga(
                    alias,
                ) && settings.fpga(alias) == Some(spec));
            assert(requested[k] is Fpga);
        }
        if bad.len() > 0 {
            assert(bad.contains(bad[0]));
        }
        if some_item(specs, used) {
            let s = choose|s: int| 0 <= s < specs.len() && used(#[trigger] specs[s]);
            assert(specs.contains(specs[s]));
        }
    }
    if bad.len() == 0 && !some_item(specs, used) {
        lemma_first_where(requested, is_unknown(settings));
        assert forall|k: int| 0 <= k < requested.len() implies match #[trigger] requested[k] {
            ResourceModel::Fpga(alias) => settings.fpga(alias) matches Some(spec) && is_free(
                spec,
                host,
                uid,
            ),
            ResourceModel::Host => true,
        } by {
            if let ResourceModel::Fpga(alias) = requested[k] {
                assert(!is_unknown(settings)(requested[k]));
                let spec = settings.fpga(alias)->0;
                lemma_resolved_board(settings, requested, prog, spec);
                assert(specs.contains(spec));
                let s = choose|s: int| 0 <= s < specs.len() && specs[s] == spec;
                assert(!used(specs[s]));
                if is_unenforceable()(spec) {
                    assert(bad.contains(spec));
                }
            }
        }
    }
}

proof fn lemma_asks_for_a_board(
    settings: SettingsModel,
    requested: Seq<ResourceModel>,
    prog: Seq<char>,
)
    requires
        resolved(settings, requested, prog) is Ok,
    ensures
        resolved(settings, requested, prog)->Ok_0.len() > 0 <==> asks_for_a_board(requested),
{
    law_every_named_board_is_resolved(settings, requested, prog);
    let specs = resolved(settings, requested, prog)->Ok_0;
    if specs.len() > 0 {
        let r = ResourceModel::Fpga(specs[0].alias);
        let k = choose|k: int| 0 <= k < requested.len() && requested[k] == r;
        assert(requested[k] is Fpga);
    }
    if asks_for_a_board(requested) {
        let k = choose|k: int| 0 <= k < requested.len() && #[trigger] requested[k] is Fpga;
        let s = choose|s: int|
            0 <= s < specs.len() && (#[trigger] specs[s]).alias == requested[k]->Fpga_0
                && settings.fpgas.contains(specs[s]);
        assert(specs.len() > s);
    }
}

/// A claim is accepted exactly if its boards are known, it is not asked to be shared and exclusive
/// at once, nobody else holds any of it, and, where it is exclusive and not forced, every board can
/// be protected and is used by nobody else. What is accepted is what was asked for: all of the
/// resources, until the time that was written, exclusively for a board unless it is to be shared.
pub proof fn law_a_claim_is_refused_only_for_a_reason(
    cmd: ClaimCommandModel,
    args: ClaimArgsModel,
    state: DiskStateModel,
    asker: AskerModel,
    host: HostModel,
)
    ensures
        ({
            let requested = resource_list(args.resources);
            let decision = request_decision(cmd, args, state, asker, host);
            let exclusive = cmd.exclusive || (!cmd.shared && asks_for_a_board(requested));
            &&& decision.accepted is Some <==> boards_are_known(state.settings, requested) && !(
            cmd.exclusive && cmd.shared) && !is_taken(
                state.claims,
                asker.name,
                requested,
                exclusive,
            ) && (exclusive && !cmd.force ==> boards_are_free(
                state.settings,
                requested,
                host,
                asker.uid,
            ))
            &&& decision.accepted matches Some(accepted) ==> {
                &&& accepted.resources == requested
                &&& accepted.exclusive == exclusive
                &&& accepted.timeout == args.timeout
                &&& accepted.comment == join(args.comment, " "@)
                &&& forall|spec: FpgaSpecModel| #[trigger]
                    accepted.specs.contains(spec) <==> exists|k: int|
                        0 <= k < requested.len() && (#[trigger] requested[k] matches ResourceModel::Fpga(
                            alias,
                        ) && state.settings.fpga(alias) == Some(spec))
            }
            &&& decision.accepted is None ==> decision.err.len() > 0
        }),
{
    let requested = resource_list(args.resources);
    law_every_named_board_is_resolved(state.settings, requested, asker.prog);
    if let Ok(specs) = resolved(state.settings, requested, asker.prog) {
        let exclusive = is_exclusive(cmd, specs);
        lemma_asks_for_a_board(state.settings, requested, asker.prog);
        lemma_taken(state, asker.name, requested, exclusive);
        lemma_boards_free(state.settings, requested, asker.prog, host, asker.uid);
        assert forall|spec: FpgaSpecModel| #[trigger] specs.contains(spec) <==> exists|k: int|
            0 <= k < requested.len() && (#[trigger] requested[k] matches ResourceModel::Fpga(alias)
                && state.settings.fpga(alias) == Some(spec)) by {
            lemma_resolved_board(state.settings, requested, asker.prog, spec);
        }
    }
}

/// A claim is recorded exactly if it is accepted and its timeouts can be read. It is then the claim
/// that was accepted, of the one who asked, until the time that was read, and the claims that were
/// there before stay as they are.
pub proof fn law_the_claim_that_was_accepted_is_recorded(
    decision: DecisionModel,
    state: DiskStateModel,
    me: Seq<char>,
    force: bool,
    timeout: Result<Moment, Seq<char>>,
    soft: Option<Result<Moment, Seq<char>>>,
)
    requires
        state.highest_id() < u64::MAX,
    ensures
        ({
            let outcome = claim_outcome(decision, state, me, force, timeout, soft);
            let after = with_outcome(state, outcome);
            &&& outcome.claim is Some <==> decision.accepted is Some && timeout is Ok && !(
            soft matches Some(Err(_)))
            &&& outcome.claim is None ==> after == state
            &&& outcome.out == decision.out
            &&& decision.err.is_prefix_of(outcome.err)
            &&& decision.accepted is Some ==> {
                &&& timeout matches Err(why) ==> outcome.err.contains(why)
                &&& timeout is Ok ==> (soft matches Some(Err(why)) ==> outcome.err.contains(why))
                &&& outcome.claim is Some ==> outcome.err == decision.err
            }
            &&& outcome.claim matches Some(claim) ==> {
                &&& claim.user == me
                &&& timeout == Ok::<Moment, Seq<char>>(claim.timeout)
                &&& match claim.soft_timeout {
                    Some(moment) => soft == Some(Ok::<Moment, Seq<char>>(moment)),
                    None => soft is None,
                }
                &&& claim.resources == decision.accepted->0.resources
                &&& claim.exclusive == decision.accepted->0.exclusive
                &&& claim.comment == decision.accepted->0.comment
                &&& forall|i: int|
                    0 <= i < state.claims.len() ==> (#[trigger] state.claims[i]).id < claim.id
                &&& after.claims.len() == state.claims.len() + 1
                &&& after.claims.last() == claim
                &&& forall|i: int|
                    0 <= i < state.claims.len() ==> #[trigger] after.claims[i] == state.claims[i]
                &&& after.hogger == state.hogger
                &&& after.settings == state.settings
                &&& after.device_locks == state.device_locks
                &&& after.cable_locks == state.cable_locks
                &&& after.overmounts == state.overmounts
                &&& after.disabled_systemd_units == state.disabled_systemd_units
                &&& after.pending_replug == state.pending_replug
                &&& after.recheck_at == state.recheck_at
                &&& after.last_claim_id == claim.id
                &&& after.state_version == state.state_version
                &&& outcome.evict == if claim.exclusive && force {
                    decision.accepted->0.specs
                } else {
                    Seq::empty()
                }
            }
        }),
{
    crate::diskstate::law_next_claim_id_is_fresh(state);
    let outcome = claim_outcome(decision, state, me, force, timeout, soft);
    if decision.accepted is Some && outcome.claim is None {
        let n = decision.err.len() as int;
        assert(outcome.err[n] == outcome.err.last());
    }
}

} // verus!
