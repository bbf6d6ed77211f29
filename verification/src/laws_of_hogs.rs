//! What holds of hogs: when one is allowed, whom it locks out, and what undoes it.
use vstd::prelude::*;
use crate::claims::{conflicts, get_along, law_conflicts_are_exactly_collisions};
use crate::clock::Moment;
use crate::diskstate::{
    default_state, expired_at, key_files, loaded, maintained, maintenance_result, migrated,
    to_key_file, to_key_files, with_id, with_ids, ClaimModel, DiskStateModel, ResourceModel,
    SettingsModel,
};
use crate::hog::{
    all_boards, allows_hogging, candidate_files, escaped, hog_decision, hogging_claim,
    is_locked_out, is_mount_point, is_to_be_mounted, mounts_on, restricted_keys, spared, ssh_report,
    still_mounted, tally, tally_message, to_escaped, to_key_patterns, to_restricted,
    to_uncovered_line, uncovered, undoes_the_hog, unescaped, unhogged, Overmounted, TallyModel,
    Unmounted, UserModel,
};
use crate::laws_of_locks::has_passage;
use crate::laws_of_text::{
    is_not_before, law_replacing_touches_only_what_it_replaces,
    law_replacing_what_is_not_there_changes_nothing,
};
use crate::seqs::{
    concat_all, first_where, lemma_concat_members, lemma_filter_members, lemma_first_where,
    lemma_somes_members, lemma_with_new, some_item, somes,
};
use crate::systemd_units::{
    done_units, failed_units, to_done, to_failed, to_failure_line, units_result, UnitErrorModel,
    UnitResultModel,
};
use crate::text::{
    ascii_lowered, decimal, join, lines, replace_all, replace_first, starts_with, words,
};

verus! {

/// The claim lets its user hog the host.
pub open spec fn may_hog(claim: ClaimModel, me: Seq<char>) -> bool {
    claim.user == me && claim.exclusive && claim.resources.contains(ResourceModel::Host)
}

/// Somebody else claims board `b`.
pub open spec fn is_claimed_by_others(
    state: DiskStateModel,
    me: Seq<char>,
    b: int,
    c: int,
) -> bool {
    &&& 0 <= b < state.settings.fpgas.len()
    &&& 0 <= c < state.claims.len()
    &&& state.claims[c].user != me
    &&& state.claims[c].resources.contains(ResourceModel::Fpga(state.settings.fpgas[b].alias))
}

/// Who may hog: whoever has an exclusive claim on the host, as long as nobody else hogs it already
/// and nobody else claims any of the boards. The first such claim becomes the hog.
pub proof fn law_a_hog_is_refused_only_for_a_reason(
    state: DiskStateModel,
    me: Seq<char>,
    now: Moment,
    prog: Seq<char>,
)
    ensures
        hog_decision(state, me, now, prog) is Ok <==> {
            &&& exists|i: int| 0 <= i < state.claims.len() && may_hog(#[trigger] state.claims[i], me)
            &&& state.hogger matches Some(hogger) ==> hogger.user == me
            &&& forall|b: int, c: int| !#[trigger] is_claimed_by_others(state, me, b, c)
        },
        hog_decision(state, me, now, prog) matches Ok(at) ==> 0 <= at < state.claims.len()
            && may_hog(state.claims[at], me) && forall|i: int|
            0 <= i < at ==> !may_hog(#[trigger] state.claims[i], me),
{
    let pred = allows_hogging(me);
    let at = first_where(state.claims, pred);
    lemma_first_where(state.claims, pred);
    assert forall|i: int| 0 <= i < state.claims.len() implies pred(#[trigger] state.claims[i])
        == may_hog(state.claims[i], me) by {}
    let boards = all_boards(state.settings);
    let found = conflicts(state, me, boards, true);
    let claim = ClaimModel {
        id: 0,
        timeout: now,
        soft_timeout: None,
        exclusive: true,
        user: me,
        comment: Seq::empty(),
        resources: boards,
    };
    law_conflicts_are_exactly_collisions(state, claim);
    if found.len() == 0 {
        assert forall|b: int, c: int| !#[trigger] is_claimed_by_others(state, me, b, c) by {
            if is_claimed_by_others(state, me, b, c) {
                let r = ResourceModel::Fpga(state.settings.fpgas[b].alias);
                assert(boards[b] == r);
                assert(boards.contains(r));
                assert(get_along(state.claims[c], claim));
                assert(state.claims[c].resources.contains(r));
            }
        }
    } else {
        let c = choose|c: int|
            0 <= c < state.claims.len() && !get_along(#[trigger] state.claims[c], claim);
        let r = choose|r: ResourceModel|
            #[trigger] state.claims[c].resources.contains(r) && boards.contains(r);
        let b = choose|b: int| 0 <= b < boards.len() && boards[b] == r;
        assert(is_claimed_by_others(state, me, b, c));
    }
    if at < state.claims.len() {
        assert(may_hog(state.claims[at], me));
    }
}

/// Hogging adds every board to the claim and changes nothing else of it.
pub proof fn law_a_hog_takes_every_board(claim: ClaimModel, settings: SettingsModel)
    ensures
        ({
            let hogging = hogging_claim(claim, settings);
            &&& hogging.id == claim.id
            &&& hogging.user == claim.user
            &&& hogging.timeout == claim.timeout
            &&& hogging.soft_timeout == claim.soft_timeout
            &&& hogging.exclusive == claim.exclusive
            &&& hogging.comment == claim.comment
            &&& forall|r: ResourceModel| #[trigger]
                hogging.resources.contains(r) <==> claim.resources.contains(r) || exists|b: int|
                    0 <= b < settings.fpgas.len() && r == ResourceModel::Fpga(
                        (#[trigger] settings.fpgas[b]).alias,
                    )
        }),
{
    let boards = all_boards(settings);
    let hogging = hogging_claim(claim, settings);
    lemma_with_new(claim.resources, boards);
    assert forall|r: ResourceModel| #[trigger]
        hogging.resources.contains(r) <==> claim.resources.contains(r) || exists|b: int|
            0 <= b < settings.fpgas.len() && r == ResourceModel::Fpga(
                (#[trigger] settings.fpgas[b]).alias,
            ) by {
        if boards.contains(r) {
            let b = choose|b: int| 0 <= b < boards.len() && boards[b] == r;
            assert(r == ResourceModel::Fpga(settings.fpgas[b].alias));
        }
        if exists|b: int|
            0 <= b < settings.fpgas.len() && r == ResourceModel::Fpga(
                (#[trigger] settings.fpgas[b]).alias,
            ) {
            let b = choose|b: int|
                0 <= b < settings.fpgas.len() && r == ResourceModel::Fpga(
                    (#[trigger] settings.fpgas[b]).alias,
                );
            assert(boards[b] == r);
            assert(boards.contains(r));
        }
    }
}

/// Ending a hog changes claims and the record of the hog, and nothing else.
pub proof fn law_ending_a_hog_leaves_the_rest_alone(state: DiskStateModel)
    ensures
        ({
            let after = unhogged(state);
            &&& after.overmounts == state.overmounts
            &&& after.settings == state.settings
            &&& after.disabled_systemd_units == state.disabled_systemd_units
            &&& after.device_locks == state.device_locks
            &&& after.cable_locks == state.cable_locks
            &&& after.pending_replug == state.pending_replug
            &&& after.recheck_at == state.recheck_at
            &&& after.last_claim_id == state.last_claim_id
            &&& after.state_version == state.state_version
        }),
{
}

/// Whoever is named is spared; if nobody is, root and the hogger are.
pub proof fn law_the_hogger_is_not_locked_out(users: Seq<Seq<char>>, me: Seq<char>, name: Seq<char>)
    ensures
        users.len() == 0 ==> (spared(users, me).contains(name) <==> name == me || name == "root"@),
        users.len() > 0 ==> (spared(users, me).contains(name) <==> users.contains(name)),
{
    if users.len() == 0 {
        let out = spared(users, me);
        assert(out[0] == "root"@);
        assert(out[1] == me);
    }
}

/// Every key file of everybody who is not spared is a candidate, and no other file is.
pub proof fn law_every_key_file_of_the_others_is_a_candidate(
    settings: SettingsModel,
    users: Seq<UserModel>,
    spared: Seq<Seq<char>>,
    file: Seq<char>,
)
    ensures
        candidate_files(settings, users, spared).contains(file) <==> exists|u: int, p: int|
            #[trigger] is_key_file_of(settings, users, spared, file, u, p),
{
    let patterns = settings.authorized_keys_file;
    let out = users.filter(is_locked_out(spared));
    let lists = out.map_values(to_key_files(patterns));
    lemma_concat_members(lists);
    lemma_filter_members(users, is_locked_out(spared));
    if candidate_files(settings, users, spared).contains(file) {
        let k = choose|k: int| 0 <= k < lists.len() && (#[trigger] lists[k]).contains(file);
        let user = out[k];
        assert(out.contains(user));
        let u = choose|u: int| 0 <= u < users.len() && users[u] == user;
        assert(lists[k] == patterns.map_values(to_key_file(user)));
        let p = choose|p: int| 0 <= p < lists[k].len() && lists[k][p] == file;
        assert(is_key_file_of(settings, users, spared, file, u, p));
    }
    if exists|u: int, p: int| #[trigger] is_key_file_of(settings, users, spared, file, u, p) {
        let (u, p) = choose|u: int, p: int|
            #[trigger] is_key_file_of(settings, users, spared, file, u, p);
        assert(users.contains(users[u]));
        assert(out.contains(users[u]));
        let k = choose|k: int| 0 <= k < out.len() && out[k] == users[u];
        assert(lists[k] == patterns.map_values(to_key_file(users[u])));
        assert(lists[k][p] == file);
        assert(lists[k].contains(file));
    }
}

/// The file is what pattern `p` means for user `u`, who is not spared.
pub open spec fn is_key_file_of(
    settings: SettingsModel,
    users: Seq<UserModel>,
    spared: Seq<Seq<char>>,
    file: Seq<char>,
    u: int,
    p: int,
) -> bool {
    &&& 0 <= u < users.len()
    &&& 0 <= p < settings.authorized_keys_file.len()
    &&& !spared.contains(users[u].name)
    &&& file == replace_first(
        replace_first(settings.authorized_keys_file[p], "%h"@, users[u].home),
        "%u"@,
        users[u].name,
    )
}

/// A candidate is locked unless it is recorded as locked or something is mounted on it.
pub proof fn law_every_open_key_file_is_locked(
    candidates: Seq<Seq<char>>,
    overmounts: Seq<Seq<char>>,
    mounts: Seq<char>,
    file: Seq<char>,
)
    ensures
        candidates.filter(is_to_be_mounted(overmounts, mounts)).contains(file)
            <==> candidates.contains(file) && !overmounts.contains(file) && !exists|l: int|
            #[trigger] is_mounted_by(mounts, l, file),
{
    lemma_filter_members(candidates, is_to_be_mounted(overmounts, mounts));
    law_a_mount_point_is_read_off_its_line(mounts, file);
}

/// Line `l` of the mount table is about the file.
pub open spec fn is_mounted_by(mounts: Seq<char>, l: int, file: Seq<char>) -> bool {
    &&& 0 <= l < lines(mounts).len()
    &&& words(lines(mounts)[l]).len() > 1
    &&& unescaped(words(lines(mounts)[l])[1]) == file
}

pub proof fn law_a_mount_point_is_read_off_its_line(mounts: Seq<char>, file: Seq<char>)
    ensures
        is_mount_point(mounts, file) <==> exists|l: int| #[trigger] is_mounted_by(mounts, l, file),
{
    let all = lines(mounts);
    let pred = mounts_on(file);
    if is_mount_point(mounts, file) {
        let l = choose|l: int| 0 <= l < all.len() && pred(#[trigger] all[l]);
        assert(is_mounted_by(mounts, l, file));
    }
    if exists|l: int| #[trigger] is_mounted_by(mounts, l, file) {
        let l = choose|l: int| #[trigger] is_mounted_by(mounts, l, file);
        assert(pred(all[l]));
    }
}

/// Every file is counted once, and exactly those that were locked are recorded.
pub proof fn law_every_outcome_is_counted(
    files: Seq<Seq<char>>,
    outcomes: Seq<Overmounted>,
    file: Seq<char>,
)
    requires
        outcomes.len() >= files.len(),
    ensures
        ({
            let out = tally(files, outcomes);
            &&& out.locked.len() + out.absent + out.warnings.len() == files.len()
            &&& out.locked.contains(file) <==> exists|i: int|
                0 <= i < files.len() && #[trigger] files[i] == file && outcomes[i]
                    == Overmounted::Locked
            &&& forall|i: int|
                0 <= i < files.len() ==> (#[trigger] outcomes[i] matches Overmounted::Failed(why)
                    ==> out.warnings.contains("WARN: "@ + why@))
        }),
    decreases files.len(),
{
    if files.len() > 0 {
        let rest = files.drop_last();
        let n = files.len() - 1;
        law_every_outcome_is_counted(rest, outcomes, file);
        let before = tally(rest, outcomes);
        let out = tally(files, outcomes);
        if before.locked.contains(file) {
            let k = choose|k: int| 0 <= k < before.locked.len() && before.locked[k] == file;
            assert(out.locked[k] == file);
            let i = choose|i: int|
                0 <= i < rest.len() && #[trigger] rest[i] == file && outcomes[i]
                    == Overmounted::Locked;
            assert(files[i] == file);
        }
        if out.locked.contains(file) && !before.locked.contains(file) {
            let k = choose|k: int| 0 <= k < out.locked.len() && out.locked[k] == file;
            if k < before.locked.len() {
                assert(before.locked[k] == file);
            }
            assert(files[n] == file && outcomes[n] == Overmounted::Locked);
        }
        if exists|i: int|
            0 <= i < files.len() && #[trigger] files[i] == file && outcomes[i]
                == Overmounted::Locked {
            let i = choose|i: int|
                0 <= i < files.len() && #[trigger] files[i] == file && outcomes[i]
                    == Overmounted::Locked;
            if i < n {
                assert(rest[i] == file);
            } else {
                assert(out.locked[before.locked.len() as int] == file);
            }
        }
        assert forall|i: int| 0 <= i < files.len() implies (
        #[trigger] outcomes[i] matches Overmounted::Failed(why) ==> out.warnings.contains(
            "WARN: "@ + why@,
        )) by {
            if let Overmounted::Failed(why) = outcomes[i] {
                let line = "WARN: "@ + why@;
                if i < n {
                    assert(before.warnings.contains(line));
                    let k = choose|k: int|
                        0 <= k < before.warnings.len() && before.warnings[k] == line;
                    assert(out.warnings[k] == line);
                } else {
                    assert(out.warnings[before.warnings.len() as int] == line);
                }
            }
        }
    }
}

/// A file stays recorded exactly if it could not be unmounted.
pub proof fn law_a_file_is_forgotten_once_it_is_unmounted(
    files: Seq<Seq<char>>,
    outcomes: Seq<Unmounted>,
    file: Seq<char>,
)
    requires
        outcomes.len() >= files.len(),
    ensures
        still_mounted(files, outcomes).contains(file) <==> exists|i: int|
            0 <= i < files.len() && #[trigger] files[i] == file && outcomes[i] == Unmounted::Failed,
    decreases files.len(),
{
    if files.len() > 0 {
        let rest = files.drop_last();
        let n = files.len() - 1;
        law_a_file_is_forgotten_once_it_is_unmounted(rest, outcomes, file);
        let before = still_mounted(rest, outcomes);
        let out = still_mounted(files, outcomes);
        if before.contains(file) {
            let k = choose|k: int| 0 <= k < before.len() && before[k] == file;
            assert(out[k] == file);
            let i = choose|i: int|
                0 <= i < rest.len() && #[trigger] rest[i] == file && outcomes[i]
                    == Unmounted::Failed;
            assert(files[i] == file);
        }
        if out.contains(file) && !before.contains(file) {
            let k = choose|k: int| 0 <= k < out.len() && out[k] == file;
            if k < before.len() {
                assert(before[k] == file);
            }
            assert(files[n] == file);
        }
        if exists|i: int|
            0 <= i < files.len() && #[trigger] files[i] == file && outcomes[i]
                == Unmounted::Failed {
            let i = choose|i: int|
                0 <= i < files.len() && #[trigger] files[i] == file && outcomes[i]
                    == Unmounted::Failed;
            if i < n {
                assert(rest[i] == file);
            } else {
                assert(out[before.len() as int] == file);
            }
        }
    }
}

proof fn lemma_passage_of_join(parts: Seq<Seq<char>>, sep: Seq<char>, k: int) -> (start: int)
    requires
        0 <= k < parts.len(),
    ensures
        0 <= start <= start + parts[k].len() <= join(parts, sep).len(),
        join(parts, sep).subrange(start, start + parts[k].len()) == parts[k],
    decreases parts.len(),
{
    let all = join(parts, sep);
    if parts.len() == 1 {
        assert(all.subrange(0, parts[0].len() as int) =~= parts[0]);
        0
    } else {
        let rest = parts.drop_last();
        let before = join(rest, sep);
        if k < rest.len() {
            let start = lemma_passage_of_join(rest, sep, k);
            assert(all.subrange(start, start + parts[k].len()) =~= before.subrange(
                start,
                start + parts[k].len(),
            ));
            start
        } else {
            let start: int = (before.len() + sep.len()) as int;
            assert(all.subrange(start, start + parts[k].len()) =~= parts[k]);
            start
        }
    }
}

/// Whatever is joined can be found in the result.
pub proof fn law_joined_parts_are_all_there(parts: Seq<Seq<char>>, sep: Seq<char>)
    ensures
        forall|k: int| 0 <= k < parts.len() ==> has_passage(join(parts, sep), #[trigger] parts[k]),
{
    assert forall|k: int| 0 <= k < parts.len() implies has_passage(
        join(parts, sep),
        #[trigger] parts[k],
    ) by {
        let start = lemma_passage_of_join(parts, sep, k);
        assert(join(parts, sep).subrange(start, start + parts[k].len()) == parts[k]);
    }
}

/// Every key in the file is confined to the command that tells about the hog.
pub proof fn law_every_key_is_confined(keys: Seq<char>, command: Seq<char>, l: int)
    requires
        0 <= l < lines(keys).len(),
        lines(keys)[l].len() > 0,
    ensures
        has_passage(
            restricted_keys(keys, command),
            "restrict,command=\""@ + command + "\" "@ + lines(keys)[l],
        ),
{
    let parts = lines(keys).map_values(to_restricted(command));
    law_joined_parts_are_all_there(parts, "\n"@);
    assert(parts[l] == "restrict,command=\""@ + command + "\" "@ + lines(keys)[l]);
}

/// Word `w` of line `l` makes sshd read keys from the pattern.
pub open spec fn is_read_by_sshd(config: Seq<char>, l: int, w: int, pattern: Seq<char>) -> bool {
    let found = words(lines(config)[l]);
    &&& 0 <= l < lines(config).len()
    &&& 1 <= w < found.len()
    &&& ascii_lowered(found[0]) == ascii_lowered("authorizedkeysfile"@)
    &&& found[w] != "none"@
    &&& pattern == if starts_with(found[w], "/"@) || starts_with(found[w], "%"@) {
        found[w]
    } else {
        "%h/"@ + found[w]
    }
}

/// Every pattern that sshd reads keys from and the settings do not name is reported, whatever line
/// and whatever word of it says so; and nothing else is.
pub proof fn law_every_way_in_that_is_left_is_reported(
    config: Seq<char>,
    configured: Seq<Seq<char>>,
    pattern: Seq<char>,
)
    ensures
        uncovered(config, configured).contains(pattern) <==> !configured.contains(pattern)
            && exists|l: int, w: int| #[trigger] is_read_by_sshd(config, l, w, pattern),
{
    crate::hog::law_every_uncovered_pattern_is_reported(config, configured, pattern);
    let all = lines(config);
    let lists = all.map_values(to_key_patterns());
    lemma_concat_members(lists);
    if concat_all(lists).contains(pattern) {
        let l = choose|l: int| 0 <= l < lists.len() && (#[trigger] lists[l]).contains(pattern);
        let found = words(all[l]);
        let rest = found.skip(1);
        let kept = rest.filter(crate::hog::is_a_file());
        lemma_filter_members(rest, crate::hog::is_a_file());
        let k = choose|k: int| 0 <= k < lists[l].len() && lists[l][k] == pattern;
        assert(lists[l] == kept.map_values(crate::hog::to_normalized()));
        assert(kept.contains(kept[k]));
        let v = choose|v: int| 0 <= v < rest.len() && rest[v] == kept[k];
        assert(found[v + 1] == kept[k]);
        assert(is_read_by_sshd(config, l, v + 1, pattern));
    }
    if exists|l: int, w: int| #[trigger] is_read_by_sshd(config, l, w, pattern) {
        let (l, w) = choose|l: int, w: int| #[trigger] is_read_by_sshd(config, l, w, pattern);
        let found = words(all[l]);
        let rest = found.skip(1);
        let kept = rest.filter(crate::hog::is_a_file());
        lemma_filter_members(rest, crate::hog::is_a_file());
        assert(rest[w - 1] == found[w]);
        assert(rest.contains(found[w]));
        assert(kept.contains(found[w]));
        let k = choose|k: int| 0 <= k < kept.len() && kept[k] == found[w];
        assert(lists[l] == kept.map_values(crate::hog::to_normalized()));
        assert(lists[l][k] == pattern);
        assert(lists[l].contains(pattern));
    }
}

/// The name of an overlay holds no slash, so that all overlays lie in one directory; and it is
/// empty only for an empty path.
pub proof fn law_overlays_lie_in_one_directory(path: Seq<char>)
    ensures
        !escaped(path).contains('/'),
        escaped(path).len() >= path.len(),
        !path.contains('/') && !path.contains('_') ==> escaped(path) == path,
    decreases path.len(),
{
    reveal_strlit("_");
    reveal_strlit("__");
    let lists = path.map_values(to_escaped());
    if path.len() > 0 {
        let rest = path.drop_last();
        law_overlays_lie_in_one_directory(rest);
        assert(lists.drop_last() =~= rest.map_values(to_escaped()));
        let before = escaped(rest);
        let last = to_escaped()(path.last());
        assert(escaped(path) == before + last);
        if escaped(path).contains('/') {
            let i = choose|i: int| 0 <= i < escaped(path).len() && escaped(path)[i] == '/';
            if i < before.len() {
                assert(before[i] == '/');
                assert(before.contains('/'));
            } else {
                assert(last[i - before.len()] == '/');
            }
        }
        if !path.contains('/') && !path.contains('_') {
            assert(path[path.len() - 1] != '/' && path[path.len() - 1] != '_');
            assert(!rest.contains('/') && !rest.contains('_')) by {
                if rest.contains('/') {
                    let i = choose|i: int| 0 <= i < rest.len() && rest[i] == '/';
                    assert(path[i] == '/');
                }
                if rest.contains('_') {
                    let i = choose|i: int| 0 <= i < rest.len() && rest[i] == '_';
                    assert(path[i] == '_');
                }
            }
            assert(escaped(path) =~= path);
        }
    }
}

/// A unit counts as done exactly if it did not fail, and all is well exactly if none failed.
pub proof fn law_no_failed_unit_is_passed_over(
    verb: Seq<char>,
    results: Seq<UnitResultModel>,
    name: Seq<char>,
)
    ensures
        done_units(results).contains(name) <==> exists|i: int|
            0 <= i < results.len() && (#[trigger] results[i]).name == name && results[i].failure
                is None,
        failed_units(results).contains(name) <==> exists|i: int|
            0 <= i < results.len() && (#[trigger] results[i]).name == name && results[i].failure
                is Some,
        units_result(verb, results) is Ok <==> forall|i: int|
            0 <= i < results.len() ==> (#[trigger] results[i]).failure is None,
        failed_units(results).contains(name) ==> (units_result(verb, results) matches Err(why)
            && has_passage(why, name)),
{
    let done = results.map_values(to_done());
    let bad = results.map_values(to_failed());
    lemma_somes_members(done);
    lemma_somes_members(bad);
    let failed = failed_units(results);
    if done_units(results).contains(name) {
        assert(done.contains(Some(name)));
        let i = choose|i: int| 0 <= i < done.len() && done[i] == Some(name);
        assert(results[i].name == name);
    }
    if exists|i: int|
        0 <= i < results.len() && (#[trigger] results[i]).name == name && results[i].failure
            is None {
        let i = choose|i: int|
            0 <= i < results.len() && (#[trigger] results[i]).name == name && results[i].failure
                is None;
        assert(done[i] == Some(name));
        assert(done.contains(Some(name)));
    }
    if failed.contains(name) {
        assert(bad.contains(Some(name)));
        let i = choose|i: int| 0 <= i < bad.len() && bad[i] == Some(name);
        assert(results[i].name == name);
        let k = choose|k: int| 0 <= k < failed.len() && failed[k] == name;
        let list = join(failed, ", "@);
        let start = lemma_passage_of_join(failed, ", "@, k);
        let head = "could not "@ + verb + " "@;
        let why = units_result(verb, results)->Err_0;
        assert(why == head + list);
        assert(why.subrange(head.len() + start, head.len() + start + name.len()) =~= list.subrange(
            start,
            start + name.len(),
        ));
    }
    if exists|i: int|
        0 <= i < results.len() && (#[trigger] results[i]).name == name && results[i].failure
            is Some {
        let i = choose|i: int|
            0 <= i < results.len() && (#[trigger] results[i]).name == name && results[i].failure
                is Some;
        assert(bad[i] == Some(name));
        assert(bad.contains(Some(name)));
    }
    if failed.len() > 0 {
        assert(failed.contains(failed[0]));
        assert(bad.contains(Some(failed[0])));
        let i = choose|i: int| 0 <= i < bad.len() && bad[i] == Some(failed[0]);
        assert(results[i].failure is Some);
    } else {
        assert forall|i: int| 0 <= i < results.len() implies (#[trigger] results[i]).failure
            is None by {
            if results[i].failure is Some {
                assert(bad[i] == Some(results[i].name));
                assert(bad.contains(Some(results[i].name)));
                assert(failed.contains(results[i].name));
            }
        }
    }
}

/// Reading the state back gives what was stored: only missing ids, the highest id and an old
/// version number are filled in.
pub proof fn law_loading_changes_nothing_but_ids(stored: DiskStateModel)
    ensures
        ({
            let state = loaded(stored);
            &&& state.overmounts == stored.overmounts
            &&& state.settings == stored.settings
            &&& state.disabled_systemd_units == stored.disabled_systemd_units
            &&& state.device_locks == stored.device_locks
            &&& state.cable_locks == stored.cable_locks
            &&& state.pending_replug == stored.pending_replug
            &&& state.recheck_at == stored.recheck_at
            &&& stored.state_version != 1 && stored.state_version != 2 ==> state.state_version
                == stored.state_version
            &&& state.claims.len() == stored.claims.len()
            &&& forall|i: int|
                0 <= i < stored.claims.len() ==> {
                    let before = #[trigger] stored.claims[i];
                    let after = state.claims[i];
                    &&& after.user == before.user
                    &&& after.timeout == before.timeout
                    &&& after.soft_timeout == before.soft_timeout
                    &&& after.exclusive == before.exclusive
                    &&& after.comment == before.comment
                    &&& after.resources == before.resources
                    &&& before.id != 0 ==> after.id == before.id
                }
            &&& state.hogger is Some <==> stored.hogger is Some
            &&& stored.hogger matches Some(hogger) ==> {
                &&& state.hogger matches Some(after)
                &&& after.user == hogger.user
                &&& after.timeout == hogger.timeout
                &&& after.soft_timeout == hogger.soft_timeout
                &&& after.exclusive == hogger.exclusive
                &&& after.comment == hogger.comment
                &&& after.resources == hogger.resources
                &&& hogger.id != 0 ==> after.id == hogger.id
            }
        }),
{
}

/// Maintenance takes the claims that have run out off the list and leaves everything else alone;
/// what it reports as dropped is exactly what it took off.
pub proof fn law_maintenance_leaves_the_rest_alone(
    state: DiskStateModel,
    now: Moment,
    claim: ClaimModel,
)
    ensures
        ({
            let after = maintained(state, now);
            let dropped = state.claims.filter(expired_at(now));
            &&& after.hogger == state.hogger
            &&& after.overmounts == state.overmounts
            &&& after.settings == state.settings
            &&& after.disabled_systemd_units == state.disabled_systemd_units
            &&& after.device_locks == state.device_locks
            &&& after.cable_locks == state.cable_locks
            &&& after.pending_replug == state.pending_replug
            &&& after.recheck_at == state.recheck_at
            &&& after.last_claim_id == state.last_claim_id
            &&& after.state_version == state.state_version
            &&& dropped.contains(claim) <==> state.claims.contains(claim) && !claim.timeout.after(
                now,
            )
            &&& state.claims.contains(claim) <==> after.claims.contains(claim) || dropped.contains(
                claim,
            )
            &&& after.claims.len() + dropped.len() == state.claims.len()
        }),
{
    lemma_filter_members(state.claims, expired_at(now));
    lemma_filter_members(state.claims, crate::diskstate::live_at(now));
    lemma_parted(state.claims, now);
}

proof fn lemma_parted(claims: Seq<ClaimModel>, now: Moment)
    ensures
        claims.filter(crate::diskstate::live_at(now)).len() + claims.filter(expired_at(now)).len()
            == claims.len(),
    decreases claims.len(),
{
    reveal(Seq::filter);
    if claims.len() > 0 {
        lemma_parted(claims.drop_last(), now);
    }
}

/// Paths are escaped character by character: a slash becomes an underscore, an underscore two.
pub proof fn law_paths_are_escaped_piece_by_piece(a: Seq<char>, c: char)
    ensures
        escaped(a.push('/')) == escaped(a).push('_'),
        escaped(a.push('_')) == escaped(a).push('_').push('_'),
        c != '/' && c != '_' ==> escaped(a.push(c)) == escaped(a).push(c),
{
    reveal_strlit("_");
    reveal_strlit("__");
    assert forall|d: char| escaped(#[trigger] a.push(d)) == escaped(a) + to_escaped()(d) by {
        let lists = a.push(d).map_values(to_escaped());
        assert(lists.drop_last() =~= a.map_values(to_escaped()));
        assert(lists.last() == to_escaped()(d));
    }
    assert(escaped(a.push('/')) =~= escaped(a).push('_'));
    assert(escaped(a.push('_')) =~= escaped(a).push('_').push('_'));
    if c != '/' && c != '_' {
        assert(escaped(a.push(c)) =~= escaped(a).push(c));
    }
}

spec fn is_free_of_escapes(text: Seq<char>) -> bool {
    forall|i: int| 0 <= i < text.len() ==> #[trigger] text[i] != '\\'
}

proof fn lemma_not_there(text: Seq<char>, from: Seq<char>, end: int)
    requires
        0 <= end <= text.len(),
        from.len() > 0,
        forall|i: int|
            0 <= i < end ==> #[trigger] text[i] != from[0] || (from.len() == 4 && i + 2 < text.len()
                && (text[i + 2] != from[2] || (i + 3 < text.len() && text[i + 3] != from[3]))),
    ensures
        is_not_before(text, from, end),
{
    assert forall|i: int| 0 <= i < end implies !#[trigger] starts_with(text.skip(i), from) by {
        let rest = text.skip(i);
        assert(rest[0] == text[i]);
        if starts_with(rest, from) {
            assert(rest.take(from.len() as int) == from);
            assert(rest.take(from.len() as int)[0] == rest[0]);
            if from.len() == 4 {
                assert(rest.take(4)[2] == text[i + 2]);
                assert(rest.take(4)[3] == text[i + 3]);
            }
        }
    }
}

/// The mount table writes spaces, tabs, line ends and backslashes as numbers; each is read back,
/// and everything else is as it stands.
pub proof fn law_escapes_in_the_mount_table_are_read_back(a: Seq<char>, b: Seq<char>)
    requires
        forall|i: int| 0 <= i < a.len() ==> #[trigger] a[i] != '\\',
        forall|i: int| 0 <= i < b.len() ==> #[trigger] b[i] != '\\',
    ensures
        unescaped(a) == a,
        unescaped(a + "\\040"@ + b) == a + " "@ + b,
        unescaped(a + "\\011"@ + b) == a + "\t"@ + b,
        unescaped(a + "\\012"@ + b) == a + "\n"@ + b,
        unescaped(a + "\\134"@ + b) == a + "\\"@ + b,
{
    reveal_strlit("\\040");
    reveal_strlit("\\011");
    reveal_strlit("\\012");
    reveal_strlit("\\134");
    reveal_strlit(" ");
    reveal_strlit("\t");
    reveal_strlit("\n");
    lemma_unescaped_alone(a);
    lemma_unescaped_alone(b);
    lemma_unescaped_alone(a + " "@ + b);
    lemma_unescaped_alone(a + "\t"@ + b);
    lemma_unescaped_alone(a + "\n"@ + b);
    lemma_one_escape(a, "\\040"@, b, "\\040"@, " "@);
    lemma_one_escape(a, "\\011"@, b, "\\040"@, " "@);
    lemma_one_escape(a, "\\011"@, b, "\\011"@, "\t"@);
    lemma_one_escape(a, "\\012"@, b, "\\040"@, " "@);
    lemma_one_escape(a, "\\012"@, b, "\\011"@, "\t"@);
    lemma_one_escape(a, "\\012"@, b, "\\012"@, "\n"@);
    lemma_one_escape(a, "\\134"@, b, "\\040"@, " "@);
    lemma_one_escape(a, "\\134"@, b, "\\011"@, "\t"@);
    lemma_one_escape(a, "\\134"@, b, "\\012"@, "\n"@);
    lemma_one_escape(a, "\\134"@, b, "\\134"@, "\\"@);
    let text = a + "\\134"@ + b;
    assert("\\134"@[2] == '3' && "\\040"@[2] == '4' && "\\011"@[2] == '1' && "\\012"@[2] == '1');
    assert(replace_all(text, "\\040"@, " "@) == text);
    assert(replace_all(text, "\\011"@, "\t"@) == text);
    assert(replace_all(text, "\\012"@, "\n"@) == text);
    assert(replace_all(text, "\\134"@, "\\"@) == a + "\\"@ + b);
}

proof fn lemma_unescaped_alone(text: Seq<char>)
    requires
        is_free_of_escapes(text),
    ensures
        unescaped(text) == text,
        replace_all(text, "\\040"@, " "@) == text,
        replace_all(text, "\\011"@, "\t"@) == text,
        replace_all(text, "\\012"@, "\n"@) == text,
        replace_all(text, "\\134"@, "\\"@) == text,
{
    reveal_strlit("\\040");
    reveal_strlit("\\011");
    reveal_strlit("\\012");
    reveal_strlit("\\134");
    lemma_not_there(text, "\\040"@, text.len() as int);
    lemma_not_there(text, "\\011"@, text.len() as int);
    lemma_not_there(text, "\\012"@, text.len() as int);
    lemma_not_there(text, "\\134"@, text.len() as int);
    law_replacing_what_is_not_there_changes_nothing(text, "\\040"@, " "@);
    law_replacing_what_is_not_there_changes_nothing(text, "\\011"@, "\t"@);
    law_replacing_what_is_not_there_changes_nothing(text, "\\012"@, "\n"@);
    law_replacing_what_is_not_there_changes_nothing(text, "\\134"@, "\\"@);
}

proof fn lemma_one_escape(a: Seq<char>, escape: Seq<char>, b: Seq<char>, from: Seq<char>, to: Seq<char>)
    requires
        is_free_of_escapes(a),
        is_free_of_escapes(b),
        escape.len() == 4,
        from.len() == 4,
        escape[0] == '\\',
        from[0] == '\\',
        escape[1] != '\\',
        escape[2] != '\\',
        escape[3] != '\\',
        escape == from || escape[2] != from[2] || escape[3] != from[3],
    ensures
        escape == from ==> replace_all(a + escape + b, from, to) == a + to + replace_all(
            b,
            from,
            to,
        ),
        escape != from ==> replace_all(a + escape + b, from, to) == a + escape + b,
{
    let text = a + escape + b;
    if escape == from {
        lemma_not_there(text, from, a.len() as int);
        law_replacing_touches_only_what_it_replaces(a, b, from, to);
    } else {
        assert forall|i: int| 0 <= i < text.len() implies #[trigger] text[i] != from[0] || (
        from.len() == 4 && i + 2 < text.len() && (text[i + 2] != from[2] || (i + 3 < text.len()
            && text[i + 3] != from[3]))) by {
            if i == a.len() {
                assert(text[i + 2] == escape[2]);
                assert(text[i + 3] == escape[3]);
            } else if i < a.len() {
                assert(text[i] == a[i]);
            } else if i < a.len() + 4 {
                assert(text[i] == escape[i - a.len()]);
            } else {
                assert(text[i] == b[i - a.len() - 4]);
            }
        }
        lemma_not_there(text, from, text.len() as int);
        law_replacing_what_is_not_there_changes_nothing(text, from, to);
    }
}

/// What is said of a hog: every failure, the counts, every way in that is left, and that nobody was
/// locked out if that is so.
pub proof fn law_what_a_hog_leaves_open_is_said(
    out: TallyModel,
    already: nat,
    overmounts: Seq<Seq<char>>,
    settings: SettingsModel,
    config: Seq<char>,
)
    ensures
        ({
            let said = ssh_report(out, already, overmounts, settings, Some(config));
            &&& forall|i: int|
                0 <= i < out.warnings.len() ==> said.contains(#[trigger] out.warnings[i])
            &&& said.contains(
                decimal(out.locked.len()) + " authorized_keys files locked ("@ + decimal(already)
                    + " already locked, "@ + decimal(out.absent) + " do not exist, "@ + decimal(
                    out.warnings.len(),
                ) + " failed)"@,
            )
            &&& forall|pattern: Seq<char>| #[trigger]
                uncovered(config, settings.authorized_keys_file).contains(pattern) ==> said.contains(
                    "WARN: sshd reads keys from "@ + pattern
                        + " but settings.authorized_keys_file does not cover it, so logins that way still work."@,
                )
            &&& overmounts.len() == 0 ==> said.contains(
                "WARN: no key file is locked, so nobody has been locked out of ssh."@,
            )
        }),
{
    let said = ssh_report(out, already, overmounts, settings, Some(config));
    let found = uncovered(config, settings.authorized_keys_file);
    let first = out.warnings.push(tally_message(out, already));
    let sshd = found.map_values(to_uncovered_line());
    assert forall|i: int| 0 <= i < out.warnings.len() implies said.contains(
        #[trigger] out.warnings[i],
    ) by {
        assert(said[i] == out.warnings[i]);
    }
    assert(said[out.warnings.len() as int] == tally_message(out, already));
    assert forall|pattern: Seq<char>| #[trigger] found.contains(pattern) implies said.contains(
        "WARN: sshd reads keys from "@ + pattern
            + " but settings.authorized_keys_file does not cover it, so logins that way still work."@,
    ) by {
        let k = choose|k: int| 0 <= k < found.len() && found[k] == pattern;
        assert(sshd[k] == to_uncovered_line()(pattern));
        assert(said[first.len() + k] == sshd[k]);
    }
    if overmounts.len() == 0 {
        assert(said[(first.len() + sshd.len()) as int]
            == "WARN: no key file is locked, so nobody has been locked out of ssh."@);
    }
}

/// A release undoes the hog exactly if it is bare or names the host, and no claim has the hog's
/// number any more.
pub proof fn law_when_a_hog_is_undone(
    hogger: Option<ClaimModel>,
    claims: Seq<ClaimModel>,
    selected: Seq<ResourceModel>,
)
    ensures
        undoes_the_hog(hogger, claims, selected) <==> (selected.len() == 0 || selected.contains(
            ResourceModel::Host,
        )) && (hogger matches Some(hogger) ==> forall|i: int|
            0 <= i < claims.len() ==> (#[trigger] claims[i]).id != hogger.id),
{
    if let Some(hogger) = hogger {
        let pred = with_id(hogger.id);
        if some_item(claims, pred) {
            let i = choose|i: int| 0 <= i < claims.len() && pred(#[trigger] claims[i]);
            assert(claims[i].id == hogger.id);
        } else {
            assert forall|i: int| 0 <= i < claims.len() implies (#[trigger] claims[i]).id
                != hogger.id by {
                assert(!pred(claims[i]));
            }
        }
    }
}

/// Maintenance ends the hog exactly if the claim of the hog has run out, or it was to be ended
/// anyway.
pub proof fn law_maintenance_ends_exactly_the_expired_hog(
    before: DiskStateModel,
    needed: bool,
    now: Moment,
    after: DiskStateModel,
    needs: bool,
    dropped: Seq<ClaimModel>,
)
    requires
        maintenance_result(before, needed, now, after, needs, dropped),
    ensures
        needs <==> needed || exists|c: int|
            {
                &&& 0 <= c < before.claims.len()
                &&& !(#[trigger] before.claims[c]).timeout.after(now)
                &&& before.hogger matches Some(hogger)
                &&& hogger.id == before.claims[c].id
            },
        forall|claim: ClaimModel| #[trigger]
            after.claims.contains(claim) <==> before.claims.contains(claim) && claim.timeout.after(
                now,
            ),
        forall|claim: ClaimModel| #[trigger]
            dropped.contains(claim) <==> before.claims.contains(claim) && !claim.timeout.after(now),
{
    lemma_filter_members(before.claims, expired_at(now));
    lemma_filter_members(before.claims, crate::diskstate::live_at(now));
    if let Some(hogger) = before.hogger {
        let pred = with_id(hogger.id);
        if some_item(dropped, pred) {
            let d = choose|d: int| 0 <= d < dropped.len() && pred(#[trigger] dropped[d]);
            assert(dropped.contains(dropped[d]));
            let c = choose|c: int| 0 <= c < before.claims.len() && before.claims[c] == dropped[d];
            assert(!before.claims[c].timeout.after(now));
        }
        if exists|c: int|
            {
                &&& 0 <= c < before.claims.len()
                &&& !(#[trigger] before.claims[c]).timeout.after(now)
                &&& before.hogger matches Some(hogger)
                &&& hogger.id == before.claims[c].id
            } {
            let c = choose|c: int|
                {
                    &&& 0 <= c < before.claims.len()
                    &&& !(#[trigger] before.claims[c]).timeout.after(now)
                    &&& before.hogger matches Some(hogger)
                    &&& hogger.id == before.claims[c].id
                };
            assert(before.claims.contains(before.claims[c]));
            assert(dropped.contains(before.claims[c]));
            let d = choose|d: int| 0 <= d < dropped.len() && dropped[d] == before.claims[c];
            assert(pred(dropped[d]));
        }
    }
}

/// A hog that was stored without a number gets that of the first claim of its user that ends when it
/// does; and states of the first two versions are read as the third.
pub proof fn law_an_old_hog_is_tied_to_its_claim(stored: DiskStateModel, c: int)
    ensures
        stored.state_version == 1 || stored.state_version == 2 ==> loaded(stored).state_version == 3,
        (stored.hogger matches Some(hogger) && hogger.id == 0 && 0 <= c < stored.claims.len()
            && stored.claims[c].user == hogger.user && stored.claims[c].timeout == hogger.timeout
            && forall|j: int|
            0 <= j < c ==> !((#[trigger] stored.claims[j]).user == hogger.user
                && stored.claims[j].timeout == hogger.timeout)) ==> (loaded(
            stored,
        ).hogger matches Some(after) && after.id == loaded(stored).claims[c].id),
{
    let state = migrated(stored);
    if let Some(hogger) = stored.hogger {
        let claims = with_ids(state.claims, state.highest_id() + 1);
        let pred = crate::diskstate::same_claim(hogger);
        if 0 <= c < stored.claims.len() && stored.claims[c].user == hogger.user
            && stored.claims[c].timeout == hogger.timeout && (forall|j: int|
            0 <= j < c ==> !((#[trigger] stored.claims[j]).user == hogger.user
                && stored.claims[j].timeout == hogger.timeout)) {
            assert(pred(claims[c]));
            assert forall|j: int| 0 <= j < c implies !pred(#[trigger] claims[j]) by {
                assert(claims[j].user == stored.claims[j].user);
            }
            crate::seqs::lemma_first_where_is(claims, pred, c);
        }
    }
}

/// Every pattern gives a key file for every user, and there are no others.
pub proof fn law_every_user_has_every_key_file(
    settings: SettingsModel,
    users: Seq<UserModel>,
    file: Seq<char>,
)
    ensures
        key_files(settings.authorized_keys_file, users).contains(file) <==> exists|u: int, p: int|
            #[trigger] is_key_file_of(settings, users, Seq::empty(), file, u, p),
{
    let none = Seq::<Seq<char>>::empty();
    assert(crate::seqs::every_item(users, is_locked_out(none)));
    crate::seqs::lemma_filter_all(users, is_locked_out(none));
    law_every_key_file_of_the_others_is_a_candidate(settings, users, none, file);
}

/// A host that nothing is known of has no claims, no hog, no boards and no locks.
pub proof fn law_a_new_host_is_free()
    ensures
        default_state().claims.len() == 0,
        default_state().hogger is None,
        default_state().settings.fpgas.len() == 0,
        default_state().device_locks.len() == 0,
        default_state().cable_locks.len() == 0,
        default_state().overmounts.len() == 0,
        default_state().disabled_systemd_units.len() == 0,
        default_state().pending_replug.len() == 0,
        default_state().state_version == 3,
        default_state().settings.authorized_keys_file.contains("%h/.ssh/authorized_keys"@),
        default_state().settings.authorized_keys_file.contains("/etc/ssh/authorized_keys.d/%u"@),
{
    let files = default_state().settings.authorized_keys_file;
    assert(files[0] == "%h/.ssh/authorized_keys"@);
    assert(files[1] == "/etc/ssh/authorized_keys.d/%u"@);
}

/// Every unit that failed has a line with its name.
pub proof fn law_every_failed_unit_has_a_line(
    verb: Seq<char>,
    results: Seq<UnitResultModel>,
    i: int,
)
    requires
        0 <= i < results.len(),
    ensures
        results[i].failure matches Some(UnitErrorModel::AccessDenied) ==> somes(
            results.map_values(to_failure_line(verb)),
        ).contains(
            "WARN: insufficient permissions to "@ + verb + " "@ + results[i].name + "; run as root"@,
        ),
        results[i].failure matches Some(UnitErrorModel::Other(why)) ==> somes(
            results.map_values(to_failure_line(verb)),
        ).contains("WARN: cannot "@ + verb + " "@ + results[i].name + ": "@ + why),
{
    let mapped = results.map_values(to_failure_line(verb));
    lemma_somes_members(mapped);
    if let Some(failure) = results[i].failure {
        let line = crate::systemd_units::failure_phrase(verb, results[i].name, failure);
        assert(mapped[i] == Some(line));
        assert(mapped.contains(Some(line)));
    }
}

} // verus!
