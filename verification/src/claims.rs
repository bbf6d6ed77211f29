//! Claiming resources, and finding out whether they may be used.
use vstd::prelude::*;
use crate::clock::{seconds_after, seconds_later, Moment, LAST_SECOND};
use crate::diskstate::{
    alias_of, foreign_on, name_of, resource_list, resource_names, Claim, ClaimModel, DiskState,
    DiskStateModel, ResourceId, ResourceModel, SettingsModel,
};
use crate::fpga::{resolve, resolved};
use crate::laws_of_claims::{is_in_the_way, law_a_check_misses_no_claim};
use crate::seqs::{
    concat_all, lemma_concat_members, lemma_concat_next, lemma_filter_members, lemma_filter_next,
    lemma_map_next, lemma_take_all, lemma_views_push, some_item, views,
};
use crate::text::{one_line, padded, padded_text, same_text};
use crate::util::{format_timeout_at, time_left};

verus! {

/// Claims of other users that stand in the way of one.
#[derive(Debug, PartialEq, Eq)]
pub struct Conflict {
    pub resource: ResourceId,
    pub user: String,
    pub until: Moment,
    pub exclusive: bool,
}

#[verifier::ext_equal]
pub struct ConflictModel {
    pub resource: ResourceModel,
    pub user: Seq<char>,
    pub until: Moment,
    pub exclusive: bool,
}

impl View for Conflict {
    type V = ConflictModel;

    open spec fn view(&self) -> ConflictModel {
        ConflictModel {
            resource: self.resource@,
            user: self.user@,
            until: self.until,
            exclusive: self.exclusive,
        }
    }
}

/// Two shared claims on one resource get along; anything that involves an exclusive one does not.
pub open spec fn collides(exclusive: bool) -> spec_fn(ClaimModel) -> bool {
    |claim: ClaimModel| exclusive || claim.exclusive
}

pub open spec fn to_conflict(resource: ResourceModel) -> spec_fn(ClaimModel) -> ConflictModel {
    |claim: ClaimModel|
        ConflictModel {
            resource,
            user: claim.user,
            until: claim.timeout,
            exclusive: claim.exclusive,
        }
}

pub open spec fn to_conflicts(state: DiskStateModel, me: Seq<char>, exclusive: bool) -> spec_fn(
    ResourceModel,
) -> Seq<ConflictModel> {
    |resource: ResourceModel|
        state.foreign_claims_on(resource, me).filter(collides(exclusive)).map_values(
            to_conflict(resource),
        )
}

/// What stands in the way of `me` claiming `requested`: for each resource, the claims of others on
/// it that collide.
pub open spec fn conflicts(
    state: DiskStateModel,
    me: Seq<char>,
    requested: Seq<ResourceModel>,
    exclusive: bool,
) -> Seq<ConflictModel> {
    concat_all(requested.map_values(to_conflicts(state, me, exclusive)))
}

/// Claims by other users that stand in the way; see [`conflicts`]. Resources that are not asked
/// for never collide.
pub fn find_conflicts(state: &DiskState, me: &str, requested: &[ResourceId], exclusive: bool) -> (out:
    Vec<Conflict>)
    ensures
        views(out@) == conflicts(state@, me@, views(requested@), exclusive),
{
    let ghost f = to_conflicts(state@, me@, exclusive);
    let ghost all = views(requested@);
    let ghost pred = collides(exclusive);
    let mut out: Vec<Conflict> = Vec::new();
    proof {
        assert(all.take(0).map_values(f) =~= Seq::empty());
        assert(views(out@) =~= Seq::empty());
    }
    for i in 0..requested.len()
        invariant
            f == to_conflicts(state@, me@, exclusive),
            all == views(requested@),
            pred == collides(exclusive),
            views(out@) == concat_all(all.take(i as int).map_values(f)),
    {
        let resource = &requested[i];
        let foreign = state.foreign_claims_on(resource, me);
        let ghost claims = views(foreign@);
        let ghost g = to_conflict(resource@);
        let ghost sofar = views(out@);
        proof {
            lemma_concat_next(all, i as int, f);
            reveal(Seq::filter);
            assert(sofar + claims.take(0).filter(pred).map_values(g) =~= sofar);
        }
        for k in 0..foreign.len()
            invariant
                claims == views(foreign@),
                g == to_conflict(resource@),
                pred == collides(exclusive),
                views(out@) == sofar + claims.take(k as int).filter(pred).map_values(g),
        {
            let claim = foreign[k];
            proof {
                lemma_filter_next(claims, k as int, pred);
            }
            if exclusive || claim.exclusive {
                let conflict = Conflict {
                    resource: resource.clone(),
                    user: claim.user.clone(),
                    until: claim.timeout,
                    exclusive: claim.exclusive,
                };
                proof {
                    let kept = claims.take(k as int).filter(pred);
                    assert(kept.push(claim@).map_values(g) =~= kept.map_values(g).push(conflict@));
                    lemma_views_push(out@, conflict);
                    assert((sofar + kept.map_values(g)).push(conflict@) =~= sofar + kept.map_values(
                        g,
                    ).push(conflict@));
                }
                out.push(conflict);
            }
        }
        proof {
            lemma_take_all(claims);
        }
    }
    proof {
        lemma_take_all(all);
    }
    out
}

/// The claims of two users do not collide: where they cover the same resource, neither is
/// exclusive.
pub open spec fn get_along(a: ClaimModel, b: ClaimModel) -> bool {
    a.user == b.user || (!a.exclusive && !b.exclusive) || forall|r: ResourceModel|
        !(#[trigger] a.resources.contains(r) && b.resources.contains(r))
}

/// No two claims collide.
pub open spec fn all_get_along(claims: Seq<ClaimModel>) -> bool {
    forall|i: int, j: int|
        0 <= i < j < claims.len() ==> get_along(#[trigger] claims[i], #[trigger] claims[j])
}

/// No conflict is reported exactly if the claims of the others and the requested one get along.
pub proof fn law_conflicts_are_exactly_collisions(
    state: DiskStateModel,
    claim: ClaimModel,
)
    ensures
        conflicts(state, claim.user, claim.resources, claim.exclusive).len() == 0 <==> forall|i: int|
            0 <= i < state.claims.len() ==> get_along(#[trigger] state.claims[i], claim),
{
    let f = to_conflicts(state, claim.user, claim.exclusive);
    let lists = claim.resources.map_values(f);
    let all = concat_all(lists);
    let pred = collides(claim.exclusive);
    lemma_concat_members(lists);
    if all.len() == 0 {
        assert forall|i: int| 0 <= i < state.claims.len() implies get_along(
            #[trigger] state.claims[i],
            claim,
        ) by {
            let other = state.claims[i];
            if !get_along(other, claim) {
                let r = choose|r: ResourceModel|
                    #[trigger] other.resources.contains(r) && claim.resources.contains(r);
                let k = choose|k: int| 0 <= k < claim.resources.len() && claim.resources[k] == r;
                let foreign = state.foreign_claims_on(r, claim.user);
                lemma_filter_members(state.claims, foreign_on(r, claim.user));
                assert(state.claims.contains(other));
                assert(foreign.contains(other));
                lemma_filter_members(foreign, pred);
                let kept = foreign.filter(pred);
                assert(kept.contains(other));
                let m = choose|m: int| 0 <= m < kept.len() && kept[m] == other;
                assert(lists[k][m] == to_conflict(r)(other));
                assert(lists[k].contains(to_conflict(r)(other)));
                assert(all.contains(to_conflict(r)(other)));
            }
        }
    } else {
        let x = all[0];
        assert(all.contains(x));
        let k = choose|k: int| 0 <= k < lists.len() && (#[trigger] lists[k]).contains(x);
        let r = claim.resources[k];
        let foreign = state.foreign_claims_on(r, claim.user);
        let kept = foreign.filter(pred);
        assert(lists[k] == kept.map_values(to_conflict(r)));
        let m = choose|m: int| 0 <= m < lists[k].len() && lists[k][m] == x;
        let other = kept[m];
        lemma_filter_members(foreign, pred);
        lemma_filter_members(state.claims, foreign_on(r, claim.user));
        assert(kept.contains(other));
        assert(foreign.contains(other));
        let i = choose|i: int| 0 <= i < state.claims.len() && state.claims[i] == other;
        assert(other.resources.contains(r) && claim.resources.contains(r));
        assert(!get_along(state.claims[i], claim));
    }
}

/// Claims on different resources never collide, whoever makes them and however exclusive.
pub proof fn law_different_boards_never_collide(
    state: DiskStateModel,
    me: Seq<char>,
    requested: Seq<ResourceModel>,
    exclusive: bool,
)
    requires
        forall|i: int, r: ResourceModel|
            0 <= i < state.claims.len() && #[trigger] requested.contains(r) ==> !(
            #[trigger] state.claims[i]).covers(r),
    ensures
        conflicts(state, me, requested, exclusive).len() == 0,
{
    let claim = ClaimModel {
        id: 0,
        timeout: Moment { secs: 0, nanos: 0 },
        soft_timeout: None,
        exclusive,
        user: me,
        comment: Seq::empty(),
        resources: requested,
    };
    assert forall|i: int| 0 <= i < state.claims.len() implies get_along(
        #[trigger] state.claims[i],
        claim,
    ) by {
        assert forall|r: ResourceModel|
            !(#[trigger] state.claims[i].resources.contains(r) && claim.resources.contains(r)) by {
            if requested.contains(r) {
                assert(!state.claims[i].covers(r));
            }
        }
    }
    law_conflicts_are_exactly_collisions(state, claim);
}

/// Nobody's own claims stand in their way.
pub proof fn law_own_claims_never_block(
    state: DiskStateModel,
    me: Seq<char>,
    requested: Seq<ResourceModel>,
    exclusive: bool,
)
    requires
        forall|i: int| 0 <= i < state.claims.len() ==> (#[trigger] state.claims[i]).user == me,
    ensures
        conflicts(state, me, requested, exclusive).len() == 0,
{
    let claim = ClaimModel {
        id: 0,
        timeout: Moment { secs: 0, nanos: 0 },
        soft_timeout: None,
        exclusive,
        user: me,
        comment: Seq::empty(),
        resources: requested,
    };
    law_conflicts_are_exactly_collisions(state, claim);
}

/// Any number of shared claims can be on one resource.
pub proof fn law_shared_claims_coexist(
    state: DiskStateModel,
    me: Seq<char>,
    requested: Seq<ResourceModel>,
)
    requires
        forall|i: int| 0 <= i < state.claims.len() ==> !(#[trigger] state.claims[i]).exclusive,
    ensures
        conflicts(state, me, requested, false).len() == 0,
{
    let claim = ClaimModel {
        id: 0,
        timeout: Moment { secs: 0, nanos: 0 },
        soft_timeout: None,
        exclusive: false,
        user: me,
        comment: Seq::empty(),
        resources: requested,
    };
    law_conflicts_are_exactly_collisions(state, claim);
}

pub open spec fn kind_phrase(exclusive: bool) -> Seq<char> {
    if exclusive {
        "exclusive"@
    } else {
        "shared"@
    }
}

/// The word for a claim that is exclusive, or shared.
pub fn kind_text(exclusive: bool) -> (out: String)
    ensures
        out@ == kind_phrase(exclusive),
{
    if exclusive {
        "exclusive".to_string()
    } else {
        "shared".to_string()
    }
}

pub open spec fn to_conflict_line(now: Moment) -> spec_fn(ConflictModel) -> Seq<char> {
    |conflict: ConflictModel|
        "  "@ + padded(name_of(conflict.resource), 10) + " "@ + conflict.user + " ("@ + kind_phrase(
            conflict.exclusive,
        ) + ") for another "@ + time_left(conflict.until, now)
}

pub open spec fn conflict_report(conflicts: Seq<ConflictModel>, now: Moment) -> Seq<Seq<char>> {
    seq!["Claim refused. Already claimed by someone else:"@] + conflicts.map_values(
        to_conflict_line(now),
    )
}

/// Every moment that is to be shown is one that the calendar has.
pub open spec fn shown_moments_exist(conflicts: Seq<ConflictModel>) -> bool {
    forall|i: int| 0 <= i < conflicts.len() ==> (#[trigger] conflicts[i]).until.wf()
}

/// What is said of the conflicts when a claim is refused.
pub fn report_conflicts(conflicts: &[Conflict], now: Moment) -> (out: Vec<String>)
    requires
        now.wf(),
        shown_moments_exist(views(conflicts@)),
    ensures
        views(out@) == conflict_report(views(conflicts@), now),
{
    let ghost f = to_conflict_line(now);
    let ghost all = views(conflicts@);
    let mut out: Vec<String> = Vec::new();
    out.push("Claim refused. Already claimed by someone else:".to_string());
    let ghost first = views(out@);
    proof {
        assert(first =~= seq!["Claim refused. Already claimed by someone else:"@]);
        assert(first =~= first + all.take(0).map_values(f));
    }
    for i in 0..conflicts.len()
        invariant
            now.wf(),
            f == to_conflict_line(now),
            all == views(conflicts@),
            shown_moments_exist(all),
            views(out@) == first + all.take(i as int).map_values(f),
    {
        let conflict = &conflicts[i];
        assert(all[i as int].until.wf());
        let mut line = "  ".to_string();
        line.append(padded_text(conflict.resource.to_string().as_str(), 10).as_str());
        line.append(" ");
        line.append(conflict.user.as_str());
        line.append(" (");
        line.append(kind_text(conflict.exclusive).as_str());
        line.append(") for another ");
        line.append(format_timeout_at(conflict.until, now).as_str());
        proof {
            lemma_map_next(all, i as int, f);
            lemma_views_push(out@, line);
            let before = all.take(i as int).map_values(f);
            assert((first + before).push(line@) =~= first + before.push(line@));
        }
        out.push(line);
    }
    proof {
        lemma_take_all(all);
    }
    out
}

/// What is reported of a state's claims can be shown if the state is well-formed.
pub proof fn lemma_conflicts_can_be_shown(
    state: DiskStateModel,
    me: Seq<char>,
    requested: Seq<ResourceModel>,
    exclusive: bool,
)
    requires
        state.wf(),
    ensures
        shown_moments_exist(conflicts(state, me, requested, exclusive)),
{
    let f = to_conflicts(state, me, exclusive);
    let lists = requested.map_values(f);
    let all = concat_all(lists);
    let pred = collides(exclusive);
    lemma_concat_members(lists);
    assert forall|i: int| 0 <= i < all.len() implies (#[trigger] all[i]).until.wf() by {
        let x = all[i];
        assert(all.contains(x));
        let k = choose|k: int| 0 <= k < lists.len() && (#[trigger] lists[k]).contains(x);
        let r = requested[k];
        let foreign = state.foreign_claims_on(r, me);
        let kept = foreign.filter(pred);
        assert(lists[k] == kept.map_values(to_conflict(r)));
        let m = choose|m: int| 0 <= m < lists[k].len() && lists[k][m] == x;
        lemma_filter_members(foreign, pred);
        lemma_filter_members(state.claims, foreign_on(r, me));
        assert(kept.contains(kept[m]));
        assert(foreign.contains(kept[m]));
        let j = choose|j: int| 0 <= j < state.claims.len() && state.claims[j] == kept[m];
        assert(state.claims[j].wf());
    }
}

/// How often a live exclusive claim on a board re-applies its locks, in minutes.
pub const RECHECK_MINUTES: u32 = 5;

/// A board with device files or a cable to protect.
pub open spec fn has_something_to_guard(settings: SettingsModel) -> spec_fn(ResourceModel) -> bool {
    |resource: ResourceModel|
        match alias_of(resource) {
            Some(alias) => settings.fpga(alias) matches Some(spec) && (spec.devices.len() > 0
                || spec.cables.len() > 0),
            None => false,
        }
}

/// A live exclusive claim on a board with something to guard.
pub open spec fn is_guarding(settings: SettingsModel, now: Moment) -> spec_fn(ClaimModel) -> bool {
    |claim: ClaimModel|
        claim.exclusive && claim.timeout.after(now) && some_item(
            claim.resources,
            has_something_to_guard(settings),
        )
}

/// Whether a board needs its locks re-applied from time to time.
pub open spec fn guards(state: DiskStateModel, now: Moment) -> bool {
    some_item(state.claims, is_guarding(state.settings, now))
}

/// When to queue the next re-check, if one is needed and none is pending.
pub open spec fn recheck_due(state: DiskStateModel, now: Moment) -> Option<Moment> {
    if !guards(state, now) {
        None
    } else if state.recheck_at matches Some(pending) && pending.after(now) {
        None
    } else {
        Some(seconds_after(now, RECHECK_MINUTES * 60))
    }
}

fn claim_guards(state: &DiskState, claim: &Claim, now: Moment) -> (yes: bool)
    ensures
        yes == is_guarding(state@.settings, now)(claim@),
{
    if !(claim.exclusive && claim.timeout.is_after(&now)) {
        return false;
    }
    let ghost pred = has_something_to_guard(state@.settings);
    for i in 0..claim.resources.len()
        invariant
            claim.exclusive && claim.timeout.after(now),
            pred == has_something_to_guard(state@.settings),
            forall|j: int| 0 <= j < i ==> !pred(#[trigger] claim@.resources[j]),
    {
        if let Some(alias) = claim.resources[i].alias() {
            if let Some(spec) = state.settings.fpga(alias) {
                assert(spec@.devices.len() == spec.devices@.len());
                assert(spec@.cables.len() == spec.cables@.len());
                if spec.devices.len() > 0 || spec.cables.len() > 0 {
                    assert(pred(claim@.resources[i as int]));
                    return true;
                }
            }
        }
    }
    false
}

/// Whether a live exclusive claim covers a board with device files or a cable to protect.
pub fn guards_a_board(state: &DiskState, now: Moment) -> (yes: bool)
    ensures
        yes == guards(state@, now),
{
    let ghost pred = is_guarding(state@.settings, now);
    for i in 0..state.claims.len()
        invariant
            pred == is_guarding(state@.settings, now),
            forall|j: int| 0 <= j < i ==> !pred(#[trigger] state@.claims[j]),
    {
        if claim_guards(state, &state.claims[i], now) {
            assert(pred(state@.claims[i as int]));
            return true;
        }
    }
    false
}

/// When to queue the next lock re-check, or None if nothing needs queueing now. A driver reload
/// makes device files anew, open to everyone, and nothing else would notice.
pub fn next_recheck(state: &DiskState, now: Moment) -> (at: Option<Moment>)
    requires
        now.wf(),
        now.secs + RECHECK_MINUTES * 60 <= LAST_SECOND,
    ensures
        at == recheck_due(state@, now),
{
    if !guards_a_board(state, now) {
        return None;
    }
    if let Some(pending) = state.recheck_at {
        if pending.is_after(&now) {
            return None;
        }
    }
    Some(seconds_later(now, RECHECK_MINUTES * 60))
}

/// When the pending re-check is due after [`keep_locks_asserted`].
pub open spec fn recheck_kept(state: DiskStateModel, now: Moment) -> Option<Moment> {
    if !guards(state, now) {
        None
    } else if recheck_due(state, now) is Some {
        recheck_due(state, now)
    } else {
        state.recheck_at
    }
}

/// Note the next re-check when one is due, and forget it once no board needs one. What is returned
/// is to be queued.
pub fn keep_locks_asserted(state: &mut DiskState, now: Moment) -> (queue: Option<Moment>)
    requires
        now.wf(),
        now.secs + RECHECK_MINUTES * 60 <= LAST_SECOND,
    ensures
        final(state)@ == (DiskStateModel {
            recheck_at: recheck_kept(old(state)@, now),
            ..old(state)@
        }),
        queue == recheck_due(old(state)@, now),
{
    if !guards_a_board(state, now) {
        state.recheck_at = None;
        return None;
    }
    let next = next_recheck(state, now);
    if let Some(at) = next {
        state.recheck_at = Some(at);
    }
    next
}

/// While a board needs re-checks one is always pending, and a pending one is not queued twice.
pub proof fn law_one_recheck_is_pending(state: DiskStateModel, now: Moment)
    requires
        now.wf(),
        now.secs + RECHECK_MINUTES * 60 <= LAST_SECOND,
        guards(state, now),
    ensures
        recheck_kept(state, now) matches Some(at) && at.after(now),
        recheck_due(DiskStateModel { recheck_at: recheck_kept(state, now), ..state }, now) is None,
{
    let after = DiskStateModel { recheck_at: recheck_kept(state, now), ..state };
    assert(guards(after, now));
    assert(seconds_after(now, RECHECK_MINUTES * 60).after(now));
}

/// What stands between someone and a set of resources.
#[derive(Debug, PartialEq, Eq)]
pub struct CheckOutcome {
    /// Exclusive claims of other people.
    pub blocking: Vec<Claim>,
    /// Shared claims of other people.
    pub sharing: Vec<Claim>,
}

pub open spec fn is_live_foreign(
    me: Seq<char>,
    requested: Seq<ResourceModel>,
    now: Moment,
    exclusive: bool,
) -> spec_fn(ClaimModel) -> bool {
    |claim: ClaimModel|
        claim.user != me && claim.timeout.after(now) && claim.exclusive == exclusive && some_item(
            requested,
            |resource: ResourceModel| claim.covers(resource),
        )
}

fn covers_any(claim: &Claim, requested: &[ResourceId]) -> (yes: bool)
    ensures
        yes == some_item(views(requested@), |resource: ResourceModel| claim@.covers(resource)),
{
    let ghost pred = |resource: ResourceModel| claim@.covers(resource);
    for i in 0..requested.len()
        invariant
            pred == (|resource: ResourceModel| claim@.covers(resource)),
            forall|j: int| 0 <= j < i ==> !pred(#[trigger] views(requested@)[j]),
    {
        if claim.covers(&requested[i]) {
            assert(pred(views(requested@)[i as int]));
            return true;
        }
    }
    false
}

/// The live claims of others on what is requested, apart by whether they block.
pub fn check_access(state: &DiskState, me: &str, requested: &[ResourceId], now: Moment) -> (outcome:
    CheckOutcome)
    ensures
        views(outcome.blocking@) == state@.claims.filter(
            is_live_foreign(me@, views(requested@), now, true),
        ),
        views(outcome.sharing@) == state@.claims.filter(
            is_live_foreign(me@, views(requested@), now, false),
        ),
        forall|claim: ClaimModel| #[trigger]
            views(outcome.blocking@).contains(claim) <==> state@.claims.contains(claim)
                && claim.exclusive && is_in_the_way(claim, me@, views(requested@), now),
        forall|claim: ClaimModel| #[trigger]
            views(outcome.sharing@).contains(claim) <==> state@.claims.contains(claim)
                && !claim.exclusive && is_in_the_way(claim, me@, views(requested@), now),
{
    let ghost hard = is_live_foreign(me@, views(requested@), now, true);
    let ghost soft = is_live_foreign(me@, views(requested@), now, false);
    let ghost all = state@.claims;
    let mut blocking: Vec<Claim> = Vec::new();
    let mut sharing: Vec<Claim> = Vec::new();
    proof {
        reveal(Seq::filter);
        assert(views(blocking@) =~= all.take(0).filter(hard));
        assert(views(sharing@) =~= all.take(0).filter(soft));
    }
    for i in 0..state.claims.len()
        invariant
            hard == is_live_foreign(me@, views(requested@), now, true),
            soft == is_live_foreign(me@, views(requested@), now, false),
            all == state@.claims,
            views(blocking@) == all.take(i as int).filter(hard),
            views(sharing@) == all.take(i as int).filter(soft),
    {
        let claim = &state.claims[i];
        proof {
            lemma_filter_next(all, i as int, hard);
            lemma_filter_next(all, i as int, soft);
        }
        if !same_text(claim.user.as_str(), me) && claim.timeout.is_after(&now) && covers_any(
            claim,
            requested,
        ) {
            let copy = claim.clone();
            proof {
                lemma_views_push(blocking@, copy);
                lemma_views_push(sharing@, copy);
            }
            if claim.exclusive {
                blocking.push(copy);
            } else {
                sharing.push(copy);
            }
        }
    }
    proof {
        lemma_take_all(all);
        law_a_check_misses_no_claim(all, me@, views(requested@), now);
    }
    CheckOutcome { blocking, sharing }
}

/// The comment of a claim, as it is put behind a line about it.
pub open spec fn comment_phrase(comment: Seq<char>) -> Seq<char> {
    if comment.len() == 0 {
        Seq::empty()
    } else {
        ": "@ + comment
    }
}

/// The comment of a claim, as it is put behind a line about it.
pub fn describe(claim: &Claim) -> (out: String)
    ensures
        out@ == comment_phrase(claim@.comment),
{
    if claim.comment.as_str().is_empty() {
        String::new()
    } else {
        let mut out = ": ".to_string();
        out.append(claim.comment.as_str());
        out
    }
}

pub open spec fn to_sharing_line(now: Moment) -> spec_fn(ClaimModel) -> Seq<char> {
    |claim: ClaimModel|
        "note: "@ + resource_names(claim.resources) + " is also in use by "@ + claim.user
            + " (shared, "@ + time_left(claim.timeout, now) + " left)"@ + comment_phrase(
            claim.comment,
        )
}

pub open spec fn to_blocking_line(now: Moment) -> spec_fn(ClaimModel) -> Seq<char> {
    |claim: ClaimModel|
        resource_names(claim.resources) + " is claimed exclusively by "@ + claim.user
            + " for another "@ + time_left(claim.timeout, now) + comment_phrase(claim.comment)
}

/// What a command has to say: its exit code, and the lines for the two outputs.
#[derive(Debug, PartialEq, Eq)]
pub struct Report {
    pub code: i32,
    pub out: Vec<String>,
    pub err: Vec<String>,
}

#[verifier::ext_equal]
pub struct ReportModel {
    pub code: i32,
    pub out: Seq<Seq<char>>,
    pub err: Seq<Seq<char>>,
}

impl View for Report {
    type V = ReportModel;

    open spec fn view(&self) -> ReportModel {
        ReportModel { code: self.code, out: views(self.out@), err: views(self.err@) }
    }
}

/// What `check` says: 0 if `me` may use the resources now, 1 if someone else holds one of them
/// exclusively, 2 if the request itself is wrong.
pub open spec fn check_report(
    text: Seq<char>,
    state: DiskStateModel,
    me: Seq<char>,
    now: Moment,
    prog: Seq<char>,
) -> ReportModel {
    let requested = resource_list(text);
    if requested.len() == 0 {
        ReportModel {
            code: 2,
            out: Seq::empty(),
            err: seq!["No resource given. Try `"@ + prog + " list`."@],
        }
    } else {
        match resolved(state.settings, requested, prog) {
            Err(why) => ReportModel { code: 2, out: Seq::empty(), err: seq![why] },
            Ok(_) => {
                let blocking = state.claims.filter(is_live_foreign(me, requested, now, true));
                let sharing = state.claims.filter(is_live_foreign(me, requested, now, false));
                ReportModel {
                    code: if blocking.len() == 0 {
                        0
                    } else {
                        1
                    },
                    out: sharing.map_values(to_sharing_line(now)),
                    err: blocking.map_values(to_blocking_line(now)),
                }
            },
        }
    }
}

/// Every claim's moments are ones that the calendar has.
pub open spec fn claims_wf(claims: Seq<ClaimModel>) -> bool {
    forall|i: int| 0 <= i < claims.len() ==> (#[trigger] claims[i]).wf()
}

pub proof fn lemma_filter_wf(claims: Seq<ClaimModel>, pred: spec_fn(ClaimModel) -> bool)
    requires
        claims_wf(claims),
    ensures
        claims_wf(claims.filter(pred)),
{
    let out = claims.filter(pred);
    lemma_filter_members(claims, pred);
    assert forall|i: int| 0 <= i < out.len() implies (#[trigger] out[i]).wf() by {
        assert(out.contains(out[i]));
        let k = choose|k: int| 0 <= k < claims.len() && claims[k] == out[i];
        assert(claims[k].wf());
    }
}

fn sharing_lines(claims: &[Claim], now: Moment) -> (out: Vec<String>)
    requires
        now.wf(),
        claims_wf(views(claims@)),
    ensures
        views(out@) == views(claims@).map_values(to_sharing_line(now)),
{
    let ghost f = to_sharing_line(now);
    let ghost all = views(claims@);
    let mut out: Vec<String> = Vec::new();
    assert(views(out@) =~= all.take(0).map_values(f));
    for i in 0..claims.len()
        invariant
            now.wf(),
            f == to_sharing_line(now),
            all == views(claims@),
            claims_wf(all),
            views(out@) == all.take(i as int).map_values(f),
    {
        let claim = &claims[i];
        assert(all[i as int].wf());
        let mut line = "note: ".to_string();
        line.append(claim.resources_str().as_str());
        line.append(" is also in use by ");
        line.append(claim.user.as_str());
        line.append(" (shared, ");
        line.append(format_timeout_at(claim.timeout, now).as_str());
        line.append(" left)");
        line.append(describe(claim).as_str());
        proof {
            lemma_map_next(all, i as int, f);
            lemma_views_push(out@, line);
        }
        out.push(line);
    }
    proof {
        lemma_take_all(all);
    }
    out
}

fn blocking_lines(claims: &[Claim], now: Moment) -> (out: Vec<String>)
    requires
        now.wf(),
        claims_wf(views(claims@)),
    ensures
        views(out@) == views(claims@).map_values(to_blocking_line(now)),
{
    let ghost f = to_blocking_line(now);
    let ghost all = views(claims@);
    let mut out: Vec<String> = Vec::new();
    assert(views(out@) =~= all.take(0).map_values(f));
    for i in 0..claims.len()
        invariant
            now.wf(),
            f == to_blocking_line(now),
            all == views(claims@),
            claims_wf(all),
            views(out@) == all.take(i as int).map_values(f),
    {
        let claim = &claims[i];
        assert(all[i as int].wf());
        let mut line = claim.resources_str();
        line.append(" is claimed exclusively by ");
        line.append(claim.user.as_str());
        line.append(" for another ");
        line.append(format_timeout_at(claim.timeout, now).as_str());
        line.append(describe(claim).as_str());
        proof {
            lemma_map_next(all, i as int, f);
            lemma_views_push(out@, line);
        }
        out.push(line);
    }
    proof {
        lemma_take_all(all);
    }
    out
}

/// Whether `me` may use the resources that `text` lists; see [`check_report`]. It changes nothing,
/// so scripts need no root. Without a name, every claim counts as someone else's.
pub fn do_check(text: &str, state: &DiskState, me: &str, now: Moment, prog: &str) -> (report: Report)
    requires
        now.wf(),
        state@.wf(),
    ensures
        report@ == check_report(text@, state@, me@, now, prog@),
{
    let requested = ResourceId::parse_list(text);
    assert(views(requested@).len() == requested@.len());
    if requested.len() == 0 {
        let mut line = "No resource given. Try `".to_string();
        line.append(prog);
        line.append(" list`.");
        let report = Report { code: 2, out: Vec::new(), err: one_line(line) };
        assert(report@ =~= check_report(text@, state@, me@, now, prog@));
        return report;
    }
    if let Err(why) = resolve(state, &requested, prog) {
        let report = Report { code: 2, out: Vec::new(), err: one_line(why) };
        assert(report@ =~= check_report(text@, state@, me@, now, prog@));
        return report;
    }
    let outcome = check_access(state, me, &requested, now);
    proof {
        lemma_filter_wf(state@.claims, is_live_foreign(me@, views(requested@), now, true));
        lemma_filter_wf(state@.claims, is_live_foreign(me@, views(requested@), now, false));
        assert(views(outcome.blocking@).len() == outcome.blocking@.len());
    }
    let code: i32 = if outcome.blocking.len() == 0 {
        0
    } else {
        1
    };
    Report {
        code,
        out: sharing_lines(&outcome.sharing, now),
        err: blocking_lines(&outcome.blocking, now),
    }
}

proof fn lemma_filter_get_along(claims: Seq<ClaimModel>, pred: spec_fn(ClaimModel) -> bool)
    requires
        all_get_along(claims),
    ensures
        all_get_along(claims.filter(pred)),
    decreases claims.len(),
{
    reveal(Seq::filter);
    if claims.len() > 0 {
        let rest = claims.drop_last();
        assert forall|i: int, j: int| 0 <= i < j < rest.len() implies get_along(
            #[trigger] rest[i],
            #[trigger] rest[j],
        ) by {
            assert(get_along(claims[i], claims[j]));
        }
        lemma_filter_get_along(rest, pred);
        lemma_filter_members(rest, pred);
        let before = rest.filter(pred);
        let after = claims.filter(pred);
        assert forall|i: int, j: int| 0 <= i < j < after.len() implies get_along(
            #[trigger] after[i],
            #[trigger] after[j],
        ) by {
            if j < before.len() {
                assert(get_along(before[i], before[j]));
            } else {
                assert(before.contains(before[i]));
                let k = choose|k: int| 0 <= k < rest.len() && rest[k] == before[i];
                assert(get_along(claims[k], claims[claims.len() - 1]));
            }
        }
    }
}

/// Dropping claims, as maintenance and release do, makes no two claims collide.
pub proof fn law_dropping_claims_keeps_the_peace(
    claims: Seq<ClaimModel>,
    pred: spec_fn(ClaimModel) -> bool,
)
    requires
        all_get_along(claims),
    ensures
        all_get_along(claims.filter(pred)),
{
    lemma_filter_get_along(claims, pred);
}

/// A claim that meets no conflict can be added without making any two claims collide.
pub proof fn law_a_claim_without_conflicts_keeps_the_peace(state: DiskStateModel, claim: ClaimModel)
    requires
        all_get_along(state.claims),
        conflicts(state, claim.user, claim.resources, claim.exclusive).len() == 0,
    ensures
        all_get_along(state.claims.push(claim)),
{
    law_conflicts_are_exactly_collisions(state, claim);
    let after = state.claims.push(claim);
    assert forall|i: int, j: int| 0 <= i < j < after.len() implies get_along(
        #[trigger] after[i],
        #[trigger] after[j],
    ) by {
        if j < state.claims.len() {
            assert(get_along(state.claims[i], state.claims[j]));
        } else {
            assert(get_along(state.claims[i], claim));
        }
    }
}

} // verus!
