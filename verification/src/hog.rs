//! Taking the whole host, and giving it back.
use vstd::prelude::*;
use crate::claims::{
    all_get_along, conflicts, find_conflicts, get_along, lemma_conflicts_can_be_shown,
    shown_moments_exist, Conflict, ConflictModel,
};
use crate::clock::{clock_time, is_clock_time, Moment};
use crate::diskstate::{
    has_claim_with_id, key_files, live_at, name_of, names_of, names_resource, resource_list,
    to_name, with_id, Claim, ClaimModel, DiskState, DiskStateModel, ResourceId, ResourceModel,
    Settings, SettingsModel,
};
use crate::fpga::{law_each_board_has_one_owner, live_owners, owner_of, owners};
use crate::laws_of_claims::{law_only_named_resources_are_given_back, still_covers};
use crate::seqs::{
    concat_all, distinct, first_where, lemma_concat_next, lemma_distinct_next, lemma_filter_members,
    lemma_filter_next, lemma_first_where, lemma_first_where_is, lemma_map_next, lemma_take_all,
    lemma_take_next, lemma_views_add, lemma_views_push, lemma_with_new, opt_view, some_item, views,
    with_new,
};
use crate::text::{
    ascii_lowered, begins_with, chars_of, copied, decimal, decimal_text, is_among, join, joined,
    lines, lines_of, one_line, padded, padded_text, replace_all, replaced_all,
    same_ignoring_ascii_case, same_text, starts_with, words, words_of,
};
use crate::util::{format_timeout_at, time_left, STATE_PATH};

verus! {

/// An account that logs in with keys.
#[derive(Debug, PartialEq, Eq)]
pub struct User {
    pub name: String,
    pub home: String,
}

#[verifier::ext_equal]
pub struct UserModel {
    pub name: Seq<char>,
    pub home: Seq<char>,
}

impl View for User {
    type V = UserModel;

    open spec fn view(&self) -> UserModel {
        UserModel { name: self.name@, home: self.home@ }
    }
}

/// Where the restricted copies of key files lie, below [`STATE_PATH`].
pub const OVERLAY_NAME: &'static str = "/overlay";

/// What a locked-out user is told about the hog.
pub open spec fn hogged_message(claim: ClaimModel, now: Moment) -> Seq<char> {
    "This system has been hogged by "@ + claim.user + ".\nComment: "@ + claim.comment
        + "\nThis claim will time out in "@ + time_left(claim.timeout, now) + "."@
}

/// What a locked-out user is told about the hog at `now`.
pub fn ssh_hogged_message_at(claim: &Claim, now: Moment) -> (out: String)
    requires
        claim@.wf(),
        now.wf(),
    ensures
        out@ == hogged_message(claim@, now),
{
    let mut out = "This system has been hogged by ".to_string();
    out.append(claim.user.as_str());
    out.append(".\nComment: ");
    out.append(claim.comment.as_str());
    out.append("\nThis claim will time out in ");
    out.append(format_timeout_at(claim.timeout, now).as_str());
    out.append(".");
    out
}

/// What a locked-out user is told about the hog, by the clock.
pub fn ssh_hogged_message(claim: &Claim) -> (out: String)
    requires
        claim@.wf(),
    ensures
        exists|now: Moment|
            now.wf() && is_clock_time(now) && out@ == #[trigger] hogged_message(claim@, now),
{
    let now = clock_time();
    ssh_hogged_message_at(claim, now)
}

/// What runs when a locked-out user logs in.
pub fn ssh_hogged_command(prog_for_later: &str) -> (out: String)
    ensures
        out@ == "sudo "@ + prog_for_later@ + " status"@,
{
    let mut out = "sudo ".to_string();
    out.append(prog_for_later);
    out.append(" status");
    out
}

pub open spec fn to_escaped() -> spec_fn(char) -> Seq<char> {
    |c: char|
        if c == '/' {
            "_"@
        } else if c == '_' {
            "__"@
        } else {
            seq![c]
        }
}

/// A path as the name of a single file.
pub open spec fn escaped(path: Seq<char>) -> Seq<char> {
    concat_all(path.map_values(to_escaped()))
}

/// A path as a single file name.
pub fn escape(input: &str) -> (out: String)
    ensures
        out@ == escaped(input@),
{
    let chars = chars_of(input);
    let ghost f = to_escaped();
    let mut out = String::new();
    proof {
        assert(input@.take(0).map_values(f) =~= Seq::empty());
        assert(out@ =~= Seq::empty());
    }
    for i in 0..chars.len()
        invariant
            chars@ == input@,
            f == to_escaped(),
            out@ == concat_all(input@.take(i as int).map_values(f)),
    {
        let ghost before = out@;
        proof {
            lemma_concat_next(input@, i as int, f);
        }
        if chars[i] == '/' {
            out.append("_");
        } else if chars[i] == '_' {
            out.append("__");
        } else {
            out.push(chars[i]);
            assert(out@ =~= before + seq![chars@[i as int]]);
        }
    }
    proof {
        lemma_take_all(input@);
    }
    out
}

/// The file that is mounted over the key file `file`.
pub open spec fn overlay_path(file: Seq<char>) -> Seq<char> {
    STATE_PATH@ + OVERLAY_NAME@ + "/"@ + escaped(file)
}

/// The directory of the files that are mounted over key files.
pub fn overlay_dir() -> (path: String)
    ensures
        path@ == STATE_PATH@ + OVERLAY_NAME@,
{
    let mut path = STATE_PATH.to_string();
    path.append(OVERLAY_NAME);
    path
}

/// Where the restricted copy of a key file lies.
pub fn overlay_file(file: &str) -> (path: String)
    ensures
        path@ == overlay_path(file@),
{
    let mut path = overlay_dir();
    path.append("/");
    path.append(escape(file).as_str());
    path
}

/// A key, restricted to running `command`. Empty lines stay empty.
pub open spec fn to_restricted(command: Seq<char>) -> spec_fn(Seq<char>) -> Seq<char> {
    |line: Seq<char>|
        if line.len() > 0 {
            "restrict,command=\""@ + command + "\" "@ + line
        } else {
            line
        }
}

/// The keys of a file, each restricted to running `command`.
pub open spec fn restricted_keys(keys: Seq<char>, command: Seq<char>) -> Seq<char> {
    join(lines(keys).map_values(to_restricted(command)), "\n"@)
}

/// What is mounted over a file with these keys.
pub fn overlay_keys(keys: &str, command: &str) -> (out: String)
    ensures
        out@ == restricted_keys(keys@, command@),
{
    let all = lines_of(keys);
    let ghost f = to_restricted(command@);
    let mut restricted: Vec<String> = Vec::new();
    assert(views(restricted@) =~= views(all@).take(0).map_values(f));
    for i in 0..all.len()
        invariant
            f == to_restricted(command@),
            views(restricted@) == views(all@).take(i as int).map_values(f),
    {
        let line = if all[i].as_str().is_empty() {
            all[i].clone()
        } else {
            let mut line = "restrict,command=\"".to_string();
            line.append(command);
            line.append("\" ");
            line.append(all[i].as_str());
            line
        };
        proof {
            lemma_map_next(views(all@), i as int, f);
            lemma_views_push(restricted@, line);
        }
        restricted.push(line);
    }
    proof {
        lemma_take_all(views(all@));
    }
    joined(&restricted, "\n")
}

/// A mount point, as it is read from the list of mounts: white space and backslashes are octal
/// escapes there.
pub open spec fn unescaped(field: Seq<char>) -> Seq<char> {
    replace_all(
        replace_all(
            replace_all(replace_all(field, "\\040"@, " "@), "\\011"@, "\t"@),
            "\\012"@,
            "\n"@,
        ),
        "\\134"@,
        "\\"@,
    )
}

/// A path as /proc/mounts writes it, without the escapes for white space and backslashes.
pub fn unescape_mount_path(field: &str) -> (out: String)
    ensures
        out@ == unescaped(field@),
{
    let spaced = replaced_all(field, "\\040", " ");
    let tabbed = replaced_all(spaced.as_str(), "\\011", "\t");
    let lined = replaced_all(tabbed.as_str(), "\\012", "\n");
    replaced_all(lined.as_str(), "\\134", "\\")
}

/// The line is about a mount on `file`: its second word is compared exactly, because a name may be
/// the start of another.
pub open spec fn mounts_on(file: Seq<char>) -> spec_fn(Seq<char>) -> bool {
    |line: Seq<char>| words(line).len() > 1 && unescaped(words(line)[1]) == file
}

/// Whether `file` is a mount point, according to the list of mounts.
pub open spec fn is_mount_point(mounts: Seq<char>, file: Seq<char>) -> bool {
    some_item(lines(mounts), mounts_on(file))
}

/// Whether `file` is a mount point, compared exactly.
pub fn mount_points_contain(mounts: &str, file: &str) -> (yes: bool)
    ensures
        yes == is_mount_point(mounts@, file@),
{
    let all = lines_of(mounts);
    let ghost pred = mounts_on(file@);
    for i in 0..all.len()
        invariant
            views(all@) == lines(mounts@),
            pred == mounts_on(file@),
            forall|j: int| 0 <= j < i ==> !pred(#[trigger] views(all@)[j]),
    {
        let found = words_of(all[i].as_str());
        assert(views(found@).len() == found@.len());
        if found.len() > 1 {
            assert(views(found@)[1] == found@[1]@);
            let point = unescape_mount_path(found[1].as_str());
            if same_text(point.as_str(), file) {
                assert(pred(views(all@)[i as int]));
                return true;
            }
        }
    }
    false
}

/// Whether `file` is mounted over, according to the list of mounts.
pub fn is_overmounted(mounts: &str, file: &str) -> (yes: bool)
    ensures
        yes == is_mount_point(mounts@, file@),
{
    mount_points_contain(mounts, file)
}

/// A pattern as sshd takes it: a relative path is relative to the user's home.
pub open spec fn normalized(pattern: Seq<char>) -> Seq<char> {
    if starts_with(pattern, "/"@) || starts_with(pattern, "%"@) {
        pattern
    } else {
        "%h/"@ + pattern
    }
}

pub open spec fn is_a_file() -> spec_fn(Seq<char>) -> bool {
    |pattern: Seq<char>| pattern != "none"@
}

pub open spec fn to_normalized() -> spec_fn(Seq<char>) -> Seq<char> {
    |pattern: Seq<char>| normalized(pattern)
}

/// The key files that one line of sshd's configuration names.
pub open spec fn to_key_patterns() -> spec_fn(Seq<char>) -> Seq<Seq<char>> {
    |line: Seq<char>|
        {
            let found = words(line);
            if found.len() > 0 && ascii_lowered(found[0]) == ascii_lowered("authorizedkeysfile"@) {
                found.skip(1).filter(is_a_file()).map_values(to_normalized())
            } else {
                Seq::empty()
            }
        }
}

pub open spec fn is_not_in(configured: Seq<Seq<char>>) -> spec_fn(Seq<char>) -> bool {
    |pattern: Seq<char>| !configured.contains(pattern)
}

/// The key files that sshd reads and `configured` does not cover, each once.
pub open spec fn uncovered(config: Seq<char>, configured: Seq<Seq<char>>) -> Seq<Seq<char>> {
    distinct(
        concat_all(lines(config).map_values(to_key_patterns())).filter(is_not_in(configured)),
    )
}

fn key_patterns(line: &str) -> (out: Vec<String>)
    ensures
        views(out@) == to_key_patterns()(line@),
{
    let found = words_of(line);
    let ghost all = views(found@);
    let mut out: Vec<String> = Vec::new();
    assert(all.len() == found@.len());
    if found.len() == 0 {
        assert(views(out@) =~= Seq::empty());
        return out;
    }
    assert(all[0] == found@[0]@);
    if !same_ignoring_ascii_case(found[0].as_str(), "authorizedkeysfile") {
        assert(views(out@) =~= Seq::empty());
        return out;
    }
    let ghost rest = all.skip(1);
    proof {
        reveal(Seq::filter);
        assert(views(out@) =~= rest.take(0).filter(is_a_file()).map_values(to_normalized()));
    }
    for i in 1..found.len()
        invariant
            all == views(found@),
            rest == all.skip(1),
            1 <= found@.len(),
            views(out@) == rest.take(i - 1).filter(is_a_file()).map_values(to_normalized()),
    {
        let word = found[i].as_str();
        proof {
            assert(rest[i - 1] == word@);
            lemma_filter_next(rest, i - 1, is_a_file());
        }
        if !same_text(word, "none") {
            let pattern = if begins_with(word, "/") || begins_with(word, "%") {
                found[i].clone()
            } else {
                let mut pattern = "%h/".to_string();
                pattern.append(word);
                pattern
            };
            proof {
                let kept = rest.take(i - 1).filter(is_a_file());
                assert(kept.push(word@).map_values(to_normalized()) =~= kept.map_values(
                    to_normalized(),
                ).push(pattern@));
                lemma_views_push(out@, pattern);
            }
            out.push(pattern);
        }
    }
    proof {
        lemma_take_all(rest);
    }
    out
}

/// The key files that sshd reads and `configured` does not cover; see [`uncovered`]. `sshd_config`
/// is what sshd prints of its configuration; the case of its keywords varies between versions.
pub fn uncovered_key_patterns(sshd_config: &str, configured: &[String]) -> (out: Vec<String>)
    ensures
        views(out@) == uncovered(sshd_config@, views(configured@)),
{
    let all = lines_of(sshd_config);
    let ghost f = to_key_patterns();
    let ghost pred = is_not_in(views(configured@));
    let mut patterns: Vec<String> = Vec::new();
    proof {
        assert(views(all@).take(0).map_values(f) =~= Seq::empty());
        assert(views(patterns@) =~= Seq::empty());
    }
    for i in 0..all.len()
        invariant
            f == to_key_patterns(),
            views(patterns@) == concat_all(views(all@).take(i as int).map_values(f)),
    {
        let mut more = key_patterns(all[i].as_str());
        proof {
            lemma_concat_next(views(all@), i as int, f);
            lemma_views_add(patterns@, more@);
        }
        patterns.append(&mut more);
    }
    proof {
        lemma_take_all(views(all@));
    }
    let ghost seen = views(patterns@);
    let mut out: Vec<String> = Vec::new();
    proof {
        reveal(Seq::filter);
        assert(views(out@) =~= distinct(seen.take(0).filter(pred)));
    }
    for i in 0..patterns.len()
        invariant
            pred == is_not_in(views(configured@)),
            seen == views(patterns@),
            views(out@) == distinct(seen.take(i as int).filter(pred)),
    {
        proof {
            lemma_filter_next(seen, i as int, pred);
            crate::seqs::lemma_distinct_push(seen.take(i as int).filter(pred), seen[i as int]);
        }
        if !is_among(patterns[i].as_str(), configured) && !is_among(patterns[i].as_str(), &out) {
            let pattern = patterns[i].clone();
            proof {
                lemma_views_push(out@, pattern);
            }
            out.push(pattern);
        }
    }
    proof {
        lemma_take_all(seen);
    }
    out
}

/// A hog misses no key file that sshd reads and that can be named: what is reported is what sshd
/// reads, without what is configured.
pub proof fn law_every_uncovered_pattern_is_reported(
    config: Seq<char>,
    configured: Seq<Seq<char>>,
    pattern: Seq<char>,
)
    ensures
        uncovered(config, configured).contains(pattern) <==> concat_all(
            lines(config).map_values(to_key_patterns()),
        ).contains(pattern) && !configured.contains(pattern),
{
    let all = concat_all(lines(config).map_values(to_key_patterns()));
    let pred = is_not_in(configured);
    lemma_filter_members(all, pred);
    crate::seqs::lemma_distinct(all.filter(pred));
    assert(uncovered(config, configured).contains(pattern) <==> all.filter(pred).contains(pattern));
}

pub open spec fn is_mine_exclusively(me: Seq<char>) -> spec_fn(ClaimModel) -> bool {
    |claim: ClaimModel| claim.user == me && claim.exclusive
}

pub open spec fn is_left_by_bare_release(me: Seq<char>) -> spec_fn(ClaimModel) -> bool {
    |claim: ClaimModel| !(claim.user == me && claim.exclusive)
}

pub open spec fn is_kept_resource(selected: Seq<ResourceModel>) -> spec_fn(ResourceModel) -> bool {
    |resource: ResourceModel| !selected.contains(resource)
}

/// The claim without the selected resources, if it is `me`'s.
pub open spec fn to_trimmed_claim(me: Seq<char>, selected: Seq<ResourceModel>) -> spec_fn(
    ClaimModel,
) -> ClaimModel {
    |claim: ClaimModel|
        if claim.user == me {
            ClaimModel {
                resources: claim.resources.filter(is_kept_resource(selected)),
                ..claim
            }
        } else {
            claim
        }
}

pub open spec fn covers_something() -> spec_fn(ClaimModel) -> bool {
    |claim: ClaimModel| claim.resources.len() > 0
}

/// A claim of `me` on this resource.
pub open spec fn holds(me: Seq<char>, resource: ResourceModel) -> spec_fn(ClaimModel) -> bool {
    |claim: ClaimModel| claim.user == me && claim.covers(resource)
}

pub open spec fn is_held_by(claims: Seq<ClaimModel>, me: Seq<char>) -> spec_fn(
    ResourceModel,
) -> bool {
    |resource: ResourceModel| some_item(claims, holds(me, resource))
}

pub open spec fn to_claim_names() -> spec_fn(ClaimModel) -> Seq<Seq<char>> {
    |claim: ClaimModel| claim.resources.map_values(to_name())
}

/// The claims after a release. With nothing selected, the exclusive claims of `me` go and plain
/// announcements stay. Naming resources gives them back whatever kind of claim holds them; a claim
/// that covers nothing any more is none.
pub open spec fn claims_released(
    claims: Seq<ClaimModel>,
    me: Seq<char>,
    selected: Seq<ResourceModel>,
) -> Seq<ClaimModel> {
    if selected.len() == 0 {
        claims.filter(is_left_by_bare_release(me))
    } else {
        claims.map_values(to_trimmed_claim(me, selected)).filter(covers_something())
    }
}

/// What is said to have been released: only what was held, in one text where it was named.
pub open spec fn names_released(
    claims: Seq<ClaimModel>,
    me: Seq<char>,
    selected: Seq<ResourceModel>,
) -> Seq<Seq<char>> {
    if selected.len() == 0 {
        distinct(concat_all(claims.filter(is_mine_exclusively(me)).map_values(to_claim_names())))
    } else {
        let held = selected.filter(is_held_by(claims, me));
        if held.len() > 0 {
            seq![join(held.map_values(to_name()), ","@)]
        } else {
            Seq::empty()
        }
    }
}

fn held_resources(claims: &[Claim], me: &str, selected: &[ResourceId]) -> (held: Vec<ResourceId>)
    ensures
        views(held@) == views(selected@).filter(is_held_by(views(claims@), me@)),
{
    let ghost pred = is_held_by(views(claims@), me@);
    let ghost all = views(selected@);
    let mut held: Vec<ResourceId> = Vec::new();
    proof {
        reveal(Seq::filter);
        assert(views(held@) =~= all.take(0).filter(pred));
    }
    for i in 0..selected.len()
        invariant
            pred == is_held_by(views(claims@), me@),
            all == views(selected@),
            views(held@) == all.take(i as int).filter(pred),
    {
        proof {
            lemma_filter_next(all, i as int, pred);
        }
        if holds_resource(claims, me, &selected[i]) {
            let resource = selected[i].clone();
            proof {
                lemma_views_push(held@, resource);
            }
            held.push(resource);
        }
    }
    proof {
        lemma_take_all(all);
    }
    held
}

fn holds_resource(claims: &[Claim], me: &str, resource: &ResourceId) -> (yes: bool)
    ensures
        yes == is_held_by(views(claims@), me@)(resource@),
{
    let ghost pred = holds(me@, resource@);
    for i in 0..claims.len()
        invariant
            pred == holds(me@, resource@),
            forall|j: int| 0 <= j < i ==> !pred(#[trigger] views(claims@)[j]),
    {
        if same_text(claims[i].user.as_str(), me) && claims[i].covers(resource) {
            assert(pred(views(claims@)[i as int]));
            return true;
        }
    }
    false
}

fn kept_resources(resources: &[ResourceId], selected: &[ResourceId]) -> (out: Vec<ResourceId>)
    ensures
        views(out@) == views(resources@).filter(is_kept_resource(views(selected@))),
{
    let ghost pred = is_kept_resource(views(selected@));
    let ghost all = views(resources@);
    let mut out: Vec<ResourceId> = Vec::new();
    proof {
        reveal(Seq::filter);
        assert(views(out@) =~= all.take(0).filter(pred));
    }
    for i in 0..resources.len()
        invariant
            pred == is_kept_resource(views(selected@)),
            all == views(resources@),
            views(out@) == all.take(i as int).filter(pred),
    {
        proof {
            lemma_filter_next(all, i as int, pred);
        }
        if !names_resource(selected, &resources[i]) {
            let resource = resources[i].clone();
            proof {
                lemma_views_push(out@, resource);
            }
            out.push(resource);
        }
    }
    proof {
        lemma_take_all(all);
    }
    out
}

fn release_exclusive(claims: &mut Vec<Claim>, me: &str) -> (released: Vec<String>)
    ensures
        views(final(claims)@) == claims_released(views(old(claims)@), me@, Seq::empty()),
        views(released@) == names_released(views(old(claims)@), me@, Seq::empty()),
{
    let ghost all = views(claims@);
    let ghost mine = is_mine_exclusively(me@);
    let ghost left = is_left_by_bare_release(me@);
    let ghost f = to_claim_names();
    let total: usize = claims.len();
    let mut kept: Vec<Claim> = Vec::new();
    let mut names: Vec<String> = Vec::new();
    proof {
        reveal(Seq::filter);
        assert(views(kept@) =~= all.take(0).filter(left));
        assert(all.take(0).filter(mine).map_values(f) =~= Seq::empty());
        assert(views(names@) =~= Seq::empty());
    }
    for i in 0..total
        invariant
            all == views(claims@),
            total == claims@.len(),
            mine == is_mine_exclusively(me@),
            left == is_left_by_bare_release(me@),
            f == to_claim_names(),
            views(kept@) == all.take(i as int).filter(left),
            views(names@) == concat_all(all.take(i as int).filter(mine).map_values(f)),
    {
        proof {
            lemma_filter_next(all, i as int, left);
            lemma_filter_next(all, i as int, mine);
        }
        let claim = &claims[i];
        if same_text(claim.user.as_str(), me) && claim.exclusive {
            let mut more = names_of(&claim.resources);
            proof {
                let before = all.take(i as int).filter(mine);
                let next = before.push(claim@);
                assert(next.map_values(f).drop_last() =~= before.map_values(f));
                lemma_views_add(names@, more@);
            }
            names.append(&mut more);
        } else {
            let copy = claim.clone();
            proof {
                lemma_views_push(kept@, copy);
            }
            kept.push(copy);
        }
    }
    proof {
        lemma_take_all(all);
    }
    let mut released: Vec<String> = Vec::new();
    assert(views(released@) =~= distinct(views(names@).take(0)));
    for i in 0..names.len()
        invariant
            views(released@) == distinct(views(names@).take(i as int)),
    {
        proof {
            lemma_distinct_next(views(names@), i as int);
        }
        if !is_among(names[i].as_str(), &released) {
            let name = names[i].clone();
            proof {
                lemma_views_push(released@, name);
            }
            released.push(name);
        }
    }
    proof {
        lemma_take_all(views(names@));
    }
    *claims = kept;
    released
}

fn release_selected(claims: &mut Vec<Claim>, me: &str, selected: &[ResourceId]) -> (released: Vec<
    String,
>)
    requires
        selected@.len() > 0,
    ensures
        views(final(claims)@) == claims_released(views(old(claims)@), me@, views(selected@)),
        views(released@) == names_released(views(old(claims)@), me@, views(selected@)),
{
    let ghost all = views(claims@);
    let ghost f = to_trimmed_claim(me@, views(selected@));
    let ghost pred = covers_something();
    let held = held_resources(claims, me, selected);
    let total: usize = claims.len();
    let mut kept: Vec<Claim> = Vec::new();
    proof {
        reveal(Seq::filter);
        assert(views(kept@) =~= all.take(0).map_values(f).filter(pred));
        assert(views(selected@).len() == selected@.len());
    }
    for i in 0..total
        invariant
            all == views(claims@),
            total == claims@.len(),
            f == to_trimmed_claim(me@, views(selected@)),
            pred == covers_something(),
            views(kept@) == all.take(i as int).map_values(f).filter(pred),
    {
        let mut claim = claims[i].clone();
        proof {
            lemma_map_next(all, i as int, f);
            all.take(i as int).map_values(f).lemma_filter_push(f(all[i as int]), pred);
        }
        if same_text(claim.user.as_str(), me) {
            claim.resources = kept_resources(&claim.resources, selected);
        }
        proof {
            assert(claim@ == f(all[i as int]));
            assert(claim@.resources.len() == claim.resources@.len());
            lemma_views_push(kept@, claim);
        }
        if claim.resources.len() > 0 {
            kept.push(claim);
        }
    }
    proof {
        lemma_take_all(all);
    }
    *claims = kept;
    let mut released: Vec<String> = Vec::new();
    assert(views(held@).len() == held@.len());
    if held.len() > 0 {
        let line = joined(&names_of(&held), ",");
        proof {
            lemma_views_push(released@, line);
        }
        released.push(line);
        assert(views(released@) =~= seq![line@]);
    } else {
        assert(views(released@) =~= Seq::empty());
    }
    released
}

/// Drop or trim the claims of `me`; see [`claims_released`]. Returns what was given back.
pub fn release_claims(claims: &mut Vec<Claim>, me: &str, selected: &[ResourceId]) -> (released: Vec<
    String,
>)
    ensures
        views(final(claims)@) == claims_released(views(old(claims)@), me@, views(selected@)),
        views(released@) == names_released(views(old(claims)@), me@, views(selected@)),
        selected@.len() > 0 ==> forall|c: int, r: ResourceModel|
            0 <= c < old(claims)@.len() && #[trigger] views(
                old(claims)@,
            )[c].resources.contains(r) && !(views(old(claims)@)[c].user == me@ && views(
                selected@,
            ).contains(r)) ==> still_covers(
                views(final(claims)@),
                views(old(claims)@)[c],
                r,
            ),
{
    proof {
        if selected@.len() > 0 {
            law_only_named_resources_are_given_back(views(claims@), me@, views(selected@));
        }
    }
    if selected.len() == 0 {
        assert(views(selected@) =~= Seq::empty());
        release_exclusive(claims, me)
    } else {
        release_selected(claims, me, selected)
    }
}

proof fn lemma_trim_keeps_peace(
    claims: Seq<ClaimModel>,
    me: Seq<char>,
    selected: Seq<ResourceModel>,
)
    requires
        all_get_along(claims),
    ensures
        all_get_along(claims.map_values(to_trimmed_claim(me, selected))),
{
    let f = to_trimmed_claim(me, selected);
    let after = claims.map_values(f);
    assert forall|i: int, j: int| 0 <= i < j < after.len() implies get_along(
        #[trigger] after[i],
        #[trigger] after[j],
    ) by {
        let a = claims[i];
        let b = claims[j];
        assert(get_along(a, b));
        lemma_filter_members(a.resources, is_kept_resource(selected));
        lemma_filter_members(b.resources, is_kept_resource(selected));
        assert forall|r: ResourceModel| #[trigger] after[i].resources.contains(r) implies
            a.resources.contains(r) by {}
        assert forall|r: ResourceModel| after[j].resources.contains(r) implies
            b.resources.contains(r) by {}
    }
}

/// A release makes no two claims collide.
pub proof fn law_a_release_keeps_the_peace(
    claims: Seq<ClaimModel>,
    me: Seq<char>,
    selected: Seq<ResourceModel>,
)
    requires
        all_get_along(claims),
    ensures
        all_get_along(claims_released(claims, me, selected)),
{
    if selected.len() == 0 {
        crate::claims::law_dropping_claims_keeps_the_peace(claims, is_left_by_bare_release(me));
    } else {
        lemma_trim_keeps_peace(claims, me, selected);
        crate::claims::law_dropping_claims_keeps_the_peace(
            claims.map_values(to_trimmed_claim(me, selected)),
            covers_something(),
        );
    }
}

/// A bare release gives up exactly the exclusive claims of `me`: shared ones and those of others
/// stay as they are.
pub proof fn law_a_bare_release_keeps_shared_claims(claims: Seq<ClaimModel>, me: Seq<char>)
    ensures
        forall|claim: ClaimModel| #[trigger]
            claims_released(claims, me, Seq::empty()).contains(claim) <==> claims.contains(claim)
                && !(claim.user == me && claim.exclusive),
{
    lemma_filter_members(claims, is_left_by_bare_release(me));
}

/// After naming resources, no claim of `me` covers one of them. The claims of others stay as they
/// are.
pub proof fn law_named_resources_are_given_back(
    claims: Seq<ClaimModel>,
    me: Seq<char>,
    selected: Seq<ResourceModel>,
)
    requires
        selected.len() > 0,
    ensures
        forall|i: int, r: ResourceModel|
            0 <= i < claims_released(claims, me, selected).len() && (#[trigger] claims_released(
                claims,
                me,
                selected,
            )[i]).user == me && #[trigger] selected.contains(r) ==> !claims_released(
                claims,
                me,
                selected,
            )[i].covers(r),
        forall|claim: ClaimModel|
            #![trigger claims.contains(claim)]
            claim.user != me && claim.resources.len() > 0 ==> (claims_released(
                claims,
                me,
                selected,
            ).contains(claim) <==> claims.contains(claim)),
{
    let f = to_trimmed_claim(me, selected);
    let trimmed = claims.map_values(f);
    let after = claims_released(claims, me, selected);
    lemma_filter_members(trimmed, covers_something());
    assert forall|i: int, r: ResourceModel|
        0 <= i < after.len() && (#[trigger] after[i]).user == me && #[trigger] selected.contains(
            r,
        ) implies !after[i].covers(r) by {
        assert(after.contains(after[i]));
        let k = choose|k: int| 0 <= k < trimmed.len() && trimmed[k] == after[i];
        lemma_filter_members(claims[k].resources, is_kept_resource(selected));
    }
    assert forall|claim: ClaimModel|
        #![trigger claims.contains(claim)]
        claim.user != me && claim.resources.len() > 0 implies (after.contains(claim)
        <==> claims.contains(claim)) by {
        if claims.contains(claim) {
            let k = choose|k: int| 0 <= k < claims.len() && claims[k] == claim;
            assert(trimmed[k] == claim);
            assert(trimmed.contains(claim));
        }
        if after.contains(claim) {
            assert(trimmed.contains(claim));
            let k = choose|k: int| 0 <= k < trimmed.len() && trimmed[k] == claim;
            assert(f(claims[k]) == claim);
            assert(claims[k].user == claim.user);
            assert(claims[k] == claim);
        }
    }
}

pub open spec fn to_resources() -> spec_fn(Seq<char>) -> Seq<ResourceModel> {
    |text: Seq<char>| resource_list(text)
}

/// The resources that the arguments of `release` list.
pub open spec fn selection(texts: Seq<Seq<char>>) -> Seq<ResourceModel> {
    concat_all(texts.map_values(to_resources()))
}

/// Whether the claim behind the current hog is gone, or there is no hog.
pub open spec fn hog_is_over(hogger: Option<ClaimModel>, claims: Seq<ClaimModel>) -> bool {
    match hogger {
        Some(hogger) => !some_item(claims, with_id(hogger.id)),
        None => true,
    }
}

/// Whether a release undoes the hog: only if the host is released and the claim behind the hog is
/// gone. A claim that was only trimmed is still the same claim.
pub open spec fn undoes_the_hog(
    hogger: Option<ClaimModel>,
    claims: Seq<ClaimModel>,
    selected: Seq<ResourceModel>,
) -> bool {
    (selected.len() == 0 || selected.contains(ResourceModel::Host)) && hog_is_over(hogger, claims)
}

/// What a release did, and what is left to do.
#[derive(Debug, PartialEq, Eq)]
pub struct ReleaseStep {
    pub released: Vec<String>,
    /// The host-wide part of a hog is to be undone.
    pub release_host: bool,
}

fn selected_resources(texts: &[String]) -> (out: Vec<ResourceId>)
    ensures
        views(out@) == selection(views(texts@)),
{
    let ghost all = views(texts@);
    let ghost f = to_resources();
    let mut out: Vec<ResourceId> = Vec::new();
    proof {
        assert(all.take(0).map_values(f) =~= Seq::empty());
        assert(views(out@) =~= Seq::empty());
    }
    for i in 0..texts.len()
        invariant
            all == views(texts@),
            f == to_resources(),
            views(out@) == concat_all(all.take(i as int).map_values(f)),
    {
        let mut more = ResourceId::parse_list(texts[i].as_str());
        proof {
            lemma_concat_next(all, i as int, f);
            lemma_views_add(out@, more@);
        }
        out.append(&mut more);
    }
    proof {
        lemma_take_all(all);
    }
    out
}

/// Give back resources. With no selection, every exclusive claim of `me`.
pub fn do_release(selected: &[String], state: &mut DiskState, me: &str) -> (step: ReleaseStep)
    ensures
        ({
            let resources = selection(views(selected@));
            let claims = claims_released(old(state)@.claims, me@, resources);
            &&& final(state)@ == DiskStateModel { claims, ..old(state)@ }
            &&& views(step.released@) == names_released(old(state)@.claims, me@, resources)
            &&& step.release_host == undoes_the_hog(old(state)@.hogger, claims, resources)
        }),
{
    let resources = selected_resources(selected);
    assert(views(resources@).len() == resources@.len());
    let releasing_host = resources.len() == 0 || names_resource(&resources, &ResourceId::Host);
    let mut claims: Vec<Claim> = Vec::new();
    std::mem::swap(&mut claims, &mut state.claims);
    let released = release_claims(&mut claims, me, &resources);
    state.claims = claims;
    let over = match &state.hogger {
        Some(hogger) => !has_claim_with_id(&state.claims, hogger.id),
        None => true,
    };
    ReleaseStep { released, release_host: releasing_host && over }
}

pub open spec fn release_message(released: Seq<Seq<char>>) -> Seq<char> {
    if released.len() == 0 {
        "Nothing to release (you hold no matching claims)."@
    } else {
        "Released: "@ + join(released, ", "@)
    }
}

/// What is said of a release.
pub fn release_line(released: &[String]) -> (line: String)
    ensures
        line@ == release_message(views(released@)),
{
    assert(views(released@).len() == released@.len());
    if released.len() == 0 {
        return "Nothing to release (you hold no matching claims).".to_string();
    }
    let mut line = "Released: ".to_string();
    line.append(joined(released, ", ").as_str());
    line
}

/// What came of unmounting a file: it was not mounted over any more, it was released, or it could
/// not be.
#[derive(Debug, Clone, Copy, PartialEq, Eq, Structural)]
pub enum Unmounted {
    NotMounted,
    Released,
    Failed,
}

/// The files that could not be unmounted.
pub open spec fn still_mounted(files: Seq<Seq<char>>, outcomes: Seq<Unmounted>) -> Seq<Seq<char>>
    decreases files.len(),
{
    if files.len() == 0 {
        Seq::empty()
    } else {
        let earlier = still_mounted(files.drop_last(), outcomes);
        if outcomes[files.len() - 1] == Unmounted::Failed {
            earlier.push(files.last())
        } else {
            earlier
        }
    }
}

/// Forget the files that are not mounted over any more. `outcomes` says what came of unmounting
/// each of them.
pub fn release_ssh(state: &mut DiskState, outcomes: &[Unmounted])
    requires
        outcomes@.len() == old(state)@.overmounts.len(),
    ensures
        final(state)@ == (DiskStateModel {
            overmounts: still_mounted(old(state)@.overmounts, outcomes@),
            ..old(state)@
        }),
{
    let ghost all = state@.overmounts;
    let total: usize = state.overmounts.len();
    let mut left: Vec<String> = Vec::new();
    proof {
        assert(all.take(0) =~= Seq::empty());
        assert(views(left@) =~= still_mounted(all.take(0), outcomes@));
    }
    for i in 0..total
        invariant
            all == views(state.overmounts@),
            total == state.overmounts@.len(),
            outcomes@.len() == total,
            views(left@) == still_mounted(all.take(i as int), outcomes@),
    {
        proof {
            lemma_take_next(all, i as int);
        }
        if outcomes[i] == Unmounted::Failed {
            let file = state.overmounts[i].clone();
            proof {
                lemma_views_push(left@, file);
            }
            left.push(file);
        }
    }
    proof {
        lemma_take_all(all);
    }
    state.overmounts = left;
}

pub open spec fn is_not_the_hog(id: u64) -> spec_fn(ClaimModel) -> bool {
    |claim: ClaimModel| claim.id != id
}

/// The state without a hog and without the claim behind it.
pub open spec fn unhogged(state: DiskStateModel) -> DiskStateModel {
    match state.hogger {
        Some(hogger) => DiskStateModel {
            claims: state.claims.filter(is_not_the_hog(hogger.id)),
            hogger: None,
            ..state
        },
        None => state,
    }
}

/// Undo the host-wide part of a hog: the key files, and the claim behind it. It is safe on a host
/// that is not hogged. The units are started after this; see
/// [`crate::systemd_units::enable_resource`].
pub fn release_host(state: &mut DiskState, outcomes: &[Unmounted])
    requires
        outcomes@.len() == old(state)@.overmounts.len(),
    ensures
        final(state)@ == unhogged(
            DiskStateModel {
                overmounts: still_mounted(old(state)@.overmounts, outcomes@),
                ..old(state)@
            },
        ),
{
    release_ssh(state, outcomes);
    let ghost before = state@;
    let id: Option<u64> = match &state.hogger {
        Some(hogger) => Some(hogger.id),
        None => None,
    };
    if let Some(id) = id {
        let ghost all = before.claims;
        let ghost pred = is_not_the_hog(id);
        let total: usize = state.claims.len();
        let mut left: Vec<Claim> = Vec::new();
        proof {
            reveal(Seq::filter);
            assert(views(left@) =~= all.take(0).filter(pred));
        }
        for i in 0..total
            invariant
                pred == is_not_the_hog(id),
                all == views(state.claims@),
                total == state.claims@.len(),
                views(left@) == all.take(i as int).filter(pred),
        {
            let claim = state.claims[i].clone();
            proof {
                lemma_filter_next(all, i as int, pred);
                lemma_views_push(left@, claim);
            }
            if claim.id != id {
                left.push(claim);
            }
        }
        proof {
            lemma_take_all(all);
        }
        state.claims = left;
        state.hogger = None;
    }
}

/// Once the host is released it is not hogged, the claim behind the hog is gone, and doing it again
/// changes nothing. No other claim is touched.
pub proof fn law_releasing_the_host_is_idempotent(state: DiskStateModel)
    ensures
        unhogged(state).hogger is None,
        unhogged(unhogged(state)) == unhogged(state),
        hog_is_over(state.hogger, unhogged(state).claims),
        forall|claim: ClaimModel| #[trigger]
            unhogged(state).claims.contains(claim) <==> state.claims.contains(claim) && (
            state.hogger matches Some(hogger) ==> claim.id != hogger.id),
{
    if let Some(hogger) = state.hogger {
        let pred = is_not_the_hog(hogger.id);
        lemma_filter_members(state.claims, pred);
        let left = state.claims.filter(pred);
        assert forall|i: int| 0 <= i < left.len() implies !with_id(hogger.id)(
            #[trigger] left[i],
        ) by {
            assert(left.contains(left[i]));
        }
    }
}

/// A bare release undoes the hog of whoever makes it.
pub proof fn law_a_bare_release_undoes_your_hog(state: DiskStateModel, me: Seq<char>)
    requires
        state.hogger is Some,
        forall|i: int|
            0 <= i < state.claims.len() && (#[trigger] state.claims[i]).id == state.hogger->0.id
                ==> state.claims[i].user == me && state.claims[i].exclusive,
    ensures
        undoes_the_hog(
            state.hogger,
            claims_released(state.claims, me, Seq::empty()),
            Seq::empty(),
        ),
{
    let after = claims_released(state.claims, me, Seq::empty());
    law_a_bare_release_keeps_shared_claims(state.claims, me);
    assert forall|i: int| 0 <= i < after.len() implies !with_id(state.hogger->0.id)(
        #[trigger] after[i],
    ) by {
        assert(after.contains(after[i]));
        assert(state.claims.contains(after[i]));
        let k = choose|k: int| 0 <= k < state.claims.len() && state.claims[k] == after[i];
        assert(state.claims[k].id != state.hogger->0.id || (after[i].user == me
            && after[i].exclusive));
    }
}

/// After a bare release no board is to belong to whoever made it.
pub proof fn law_a_bare_release_gives_every_board_back(
    claims: Seq<ClaimModel>,
    me: Seq<char>,
    now: Moment,
    alias: Seq<char>,
)
    ensures
        owner_of(live_owners(claims_released(claims, me, Seq::empty()), now), alias) != Some(me),
{
    let after = claims_released(claims, me, Seq::empty());
    let live = after.filter(live_at(now));
    law_a_bare_release_keeps_shared_claims(claims, me);
    law_each_board_has_one_owner(live);
    lemma_filter_members(after, live_at(now));
    if owner_of(owners(live), alias) == Some(me) {
        let i = choose|i: int|
            0 <= i < live.len() && (#[trigger] live[i]).exclusive && live[i].user == me
                && live[i].covers_alias(alias);
        assert(live.contains(live[i]));
    }
}

/// A release undoes a hog only if the claim behind it is gone; in particular, somebody else's
/// release never does while that claim stands.
pub proof fn law_only_a_finished_hog_is_undone(
    state: DiskStateModel,
    me: Seq<char>,
    selected: Seq<ResourceModel>,
    at: int,
)
    requires
        0 <= at < state.claims.len(),
        state.hogger matches Some(hogger) && hogger.id == state.claims[at].id,
        state.claims[at].user != me,
        state.claims[at].resources.len() > 0,
    ensures
        !undoes_the_hog(state.hogger, claims_released(state.claims, me, selected), selected),
{
    let claim = state.claims[at];
    let after = claims_released(state.claims, me, selected);
    assert(state.claims.contains(claim));
    if selected.len() == 0 {
        lemma_filter_members(state.claims, is_left_by_bare_release(me));
    } else {
        law_named_resources_are_given_back(state.claims, me, selected);
    }
    assert(after.contains(claim));
    let k = choose|k: int| 0 <= k < after.len() && after[k] == claim;
    assert(with_id(claim.id)(after[k]));
}

/// An exclusive claim of `me` on the host.
pub open spec fn allows_hogging(me: Seq<char>) -> spec_fn(ClaimModel) -> bool {
    |claim: ClaimModel| claim.user == me && claim.exclusive && claim.covers(ResourceModel::Host)
}

pub open spec fn to_board_resource() -> spec_fn(Seq<char>) -> ResourceModel {
    |alias: Seq<char>| ResourceModel::Fpga(alias)
}

/// Every board of the host.
pub open spec fn all_boards(settings: SettingsModel) -> Seq<ResourceModel> {
    settings.aliases().map_values(to_board_resource())
}

pub open spec fn no_claim_message(prog: Seq<char>) -> Seq<char> {
    "Hogging not allowed. Claim exclusive access first: "@ + prog
        + " claim host <timeout> --exclusive"@
}

pub open spec fn already_hogged_message(user: Seq<char>) -> Seq<char> {
    "Hogging not allowed. The host is already hogged by "@ + user + "."@
}

pub open spec fn to_board_conflict_line(now: Moment) -> spec_fn(ConflictModel) -> Seq<char> {
    |conflict: ConflictModel|
        "  "@ + padded(name_of(conflict.resource), 10) + " "@ + conflict.user + " for another "@
            + time_left(conflict.until, now)
}

pub open spec fn board_conflict_report(found: Seq<ConflictModel>, now: Moment) -> Seq<Seq<char>> {
    (seq!["Cannot hog: these FPGAs are claimed by someone else:"@] + found.map_values(
        to_board_conflict_line(now),
    )).push("Wait for them to expire, or ask. Nothing was changed."@)
}

/// The claim behind a hog: with every board of the host pulled into it.
pub open spec fn hogging_claim(claim: ClaimModel, settings: SettingsModel) -> ClaimModel {
    ClaimModel { resources: with_new(claim.resources, all_boards(settings)), ..claim }
}

/// The number of the claim that a hog is made under, or why there is to be no hog: it takes an
/// exclusive claim on the host, nobody else may have hogged the host, and nobody else may have
/// claimed one of its boards.
pub open spec fn hog_decision(
    state: DiskStateModel,
    me: Seq<char>,
    now: Moment,
    prog: Seq<char>,
) -> Result<int, Seq<Seq<char>>> {
    let at = first_where(state.claims, allows_hogging(me));
    let found = conflicts(state, me, all_boards(state.settings), true);
    if at == state.claims.len() {
        Err(seq![no_claim_message(prog)])
    } else if state.hogger matches Some(hogger) && hogger.user != me {
        Err(seq![already_hogged_message(state.hogger->0.user)])
    } else if found.len() > 0 {
        Err(board_conflict_report(found, now))
    } else {
        Ok(at)
    }
}

fn board_resources(settings: &Settings) -> (out: Vec<ResourceId>)
    ensures
        views(out@) == all_boards(settings@),
{
    let aliases = settings.aliases();
    let ghost all = views(aliases@);
    let mut out: Vec<ResourceId> = Vec::new();
    assert(views(out@) =~= all.take(0).map_values(to_board_resource()));
    for i in 0..aliases.len()
        invariant
            all == views(aliases@),
            views(out@) == all.take(i as int).map_values(to_board_resource()),
    {
        let resource = ResourceId::Fpga(aliases[i].clone());
        proof {
            lemma_map_next(all, i as int, to_board_resource());
            lemma_views_push(out@, resource);
        }
        out.push(resource);
    }
    proof {
        lemma_take_all(all);
    }
    out
}

fn hogging_position(claims: &[Claim], me: &str) -> (at: usize)
    ensures
        at == first_where(views(claims@), allows_hogging(me@)),
        at <= claims@.len(),
{
    let ghost pred = allows_hogging(me@);
    for i in 0..claims.len()
        invariant
            pred == allows_hogging(me@),
            forall|j: int| 0 <= j < i ==> !pred(#[trigger] views(claims@)[j]),
    {
        if same_text(claims[i].user.as_str(), me) && claims[i].exclusive && claims[i].covers(
            &ResourceId::Host,
        ) {
            proof {
                lemma_first_where_is(views(claims@), pred, i as int);
            }
            return i;
        }
    }
    proof {
        lemma_first_where_is(views(claims@), pred, claims@.len() as int);
    }
    claims.len()
}

fn report_board_conflicts(found: &[Conflict], now: Moment) -> (out: Vec<String>)
    requires
        now.wf(),
        shown_moments_exist(views(found@)),
    ensures
        views(out@) == board_conflict_report(views(found@), now),
{
    let ghost f = to_board_conflict_line(now);
    let ghost all = views(found@);
    let mut out: Vec<String> = Vec::new();
    out.push("Cannot hog: these FPGAs are claimed by someone else:".to_string());
    let ghost first = views(out@);
    proof {
        assert(first =~= seq!["Cannot hog: these FPGAs are claimed by someone else:"@]);
        assert(first =~= first + all.take(0).map_values(f));
    }
    for i in 0..found.len()
        invariant
            now.wf(),
            f == to_board_conflict_line(now),
            all == views(found@),
            shown_moments_exist(all),
            views(out@) == first + all.take(i as int).map_values(f),
    {
        let conflict = &found[i];
        assert(all[i as int].until.wf());
        let mut line = "  ".to_string();
        line.append(padded_text(conflict.resource.to_string().as_str(), 10).as_str());
        line.append(" ");
        line.append(conflict.user.as_str());
        line.append(" for another ");
        line.append(format_timeout_at(conflict.until, now).as_str());
        proof {
            lemma_map_next(all, i as int, f);
            lemma_views_push(out@, line);
            let before = all.take(i as int).map_values(f);
            assert((first + before).push(line@) =~= first + before.push(line@));
        }
        out.push(line);
    }
    let last = "Wait for them to expire, or ask. Nothing was changed.".to_string();
    proof {
        lemma_take_all(all);
        lemma_views_push(out@, last);
    }
    out.push(last);
    out
}

/// Decide about a hog and pull every board into the claim that it is made under; see
/// [`hog_decision`]. Where there is to be no hog, nothing is changed.
pub fn prepare_hog(state: &mut DiskState, me: &str, now: Moment, prog: &str) -> (claim: Result<
    Claim,
    Vec<String>,
>)
    requires
        now.wf(),
        old(state)@.wf(),
    ensures
        match hog_decision(old(state)@, me@, now, prog@) {
            Ok(at) => {
                let hogging = hogging_claim(old(state)@.claims[at], old(state)@.settings);
                &&& claim matches Ok(claim) && claim@ == hogging
                &&& final(state)@ == DiskStateModel {
                    claims: old(state)@.claims.update(at, hogging),
                    ..old(state)@
                }
            },
            Err(why) => {
                &&& claim matches Err(lines) && views(lines@) == why
                &&& final(state)@ == old(state)@
            },
        },
{
    let ghost before = state@;
    let at: usize = hogging_position(&state.claims, me);
    assert(before.claims.len() == state.claims@.len());
    if at == state.claims.len() {
        let mut line = "Hogging not allowed. Claim exclusive access first: ".to_string();
        line.append(prog);
        line.append(" claim host <timeout> --exclusive");
        return Err(one_line(line));
    }
    if let Some(hogger) = &state.hogger {
        if !same_text(hogger.user.as_str(), me) {
            let mut line = "Hogging not allowed. The host is already hogged by ".to_string();
            line.append(hogger.user.as_str());
            line.append(".");
            return Err(one_line(line));
        }
    }
    let wanted = board_resources(&state.settings);
    let found = find_conflicts(state, me, &wanted, true);
    assert(views(found@).len() == found@.len());
    if found.len() > 0 {
        proof {
            lemma_conflicts_can_be_shown(before, me@, views(wanted@), true);
        }
        return Err(report_board_conflicts(&found, now));
    }
    let mut claim = state.claims[at].clone();
    let ghost base = claim@;
    let ghost boards = views(wanted@);
    assert(boards.take(0) =~= Seq::empty());
    for i in 0..wanted.len()
        invariant
            boards == views(wanted@),
            claim@ == (ClaimModel {
                resources: with_new(base.resources, boards.take(i as int)),
                ..base
            }),
    {
        proof {
            lemma_take_next(boards, i as int);
        }
        if !names_resource(&claim.resources, &wanted[i]) {
            let resource = wanted[i].clone();
            proof {
                lemma_views_push(claim.resources@, resource);
            }
            claim.resources.push(resource);
        }
    }
    proof {
        lemma_take_all(boards);
    }
    let copy = claim.clone();
    let ghost claims = state.claims@;
    proof {
        assert(views(claims.update(at as int, copy)) =~= before.claims.update(
            at as int,
            copy@,
        ));
    }
    state.claims.set(at, copy);
    Ok(claim)
}

/// A hog pulls every board into its claim without making any two claims collide.
pub proof fn law_a_hog_keeps_the_peace(
    state: DiskStateModel,
    me: Seq<char>,
    now: Moment,
    prog: Seq<char>,
)
    requires
        all_get_along(state.claims),
        hog_decision(state, me, now, prog) is Ok,
    ensures
        ({
            let at = hog_decision(state, me, now, prog)->Ok_0;
            let hogging = hogging_claim(state.claims[at], state.settings);
            &&& 0 <= at < state.claims.len()
            &&& all_get_along(state.claims.update(at, hogging))
            &&& forall|i: int|
                0 <= i < state.settings.fpgas.len() ==> hogging.covers_alias(
                    (#[trigger] state.settings.fpgas[i]).alias,
                )
        }),
{
    let at = hog_decision(state, me, now, prog)->Ok_0;
    lemma_first_where(state.claims, allows_hogging(me));
    let claim = state.claims[at];
    let boards = all_boards(state.settings);
    let hogging = hogging_claim(claim, state.settings);
    let after = state.claims.update(at, hogging);
    lemma_with_new(claim.resources, boards);
    let asked = ClaimModel { resources: boards, ..claim };
    crate::claims::law_conflicts_are_exactly_collisions(state, asked);
    assert forall|i: int| 0 <= i < state.claims.len() && i != at implies get_along(
        #[trigger] state.claims[i],
        hogging,
    ) && get_along(hogging, state.claims[i]) by {
        let other = state.claims[i];
        assert(get_along(other, asked));
        if i < at {
            assert(get_along(state.claims[i], state.claims[at]));
        } else {
            assert(get_along(state.claims[at], state.claims[i]));
        }
        if other.user != me {
            assert forall|r: ResourceModel| #[trigger] other.resources.contains(r) implies
                !hogging.resources.contains(r) by {
                assert(!boards.contains(r));
                assert(!claim.resources.contains(r));
            }
        }
    }
    assert forall|i: int, j: int| 0 <= i < j < after.len() implies get_along(
        #[trigger] after[i],
        #[trigger] after[j],
    ) by {
        if i != at && j != at {
            assert(get_along(state.claims[i], state.claims[j]));
        } else if i == at {
            assert(get_along(hogging, state.claims[j]));
        } else {
            assert(get_along(state.claims[i], hogging));
        }
    }
    assert forall|i: int| 0 <= i < state.settings.fpgas.len() implies hogging.covers_alias(
        (#[trigger] state.settings.fpgas[i]).alias,
    ) by {
        let alias = state.settings.fpgas[i].alias;
        assert(boards[i] == ResourceModel::Fpga(alias));
        assert(boards.contains(ResourceModel::Fpga(alias)));
    }
}

/// Who is not locked out: those who are named, or root and whoever hogs.
pub open spec fn spared(users: Seq<Seq<char>>, me: Seq<char>) -> Seq<Seq<char>> {
    if users.len() == 0 {
        seq!["root"@, me]
    } else {
        users
    }
}

/// Who keeps access during a hog: the given users, or else root and `me`.
pub fn spared_users(users: &[String], me: &str) -> (out: Vec<String>)
    ensures
        views(out@) == spared(views(users@), me@),
{
    assert(views(users@).len() == users@.len());
    if users.len() == 0 {
        let mut out: Vec<String> = Vec::new();
        out.push("root".to_string());
        out.push(me.to_string());
        assert(views(out@) =~= spared(views(users@), me@));
        out
    } else {
        copied(users)
    }
}

pub open spec fn is_locked_out(spared: Seq<Seq<char>>) -> spec_fn(UserModel) -> bool {
    |user: UserModel| !spared.contains(user.name)
}

pub open spec fn is_to_be_mounted(overmounts: Seq<Seq<char>>, mounts: Seq<char>) -> spec_fn(
    Seq<char>,
) -> bool {
    |file: Seq<char>| !overmounts.contains(file) && !is_mount_point(mounts, file)
}

/// The key files of everyone who is locked out.
pub open spec fn candidate_files(
    settings: SettingsModel,
    users: Seq<UserModel>,
    spared: Seq<Seq<char>>,
) -> Seq<Seq<char>> {
    key_files(settings.authorized_keys_file, users.filter(is_locked_out(spared)))
}

/// What a hog does to the key files.
#[derive(Debug, PartialEq, Eq)]
pub struct KeyFiles {
    /// Files to be mounted over.
    pub targets: Vec<String>,
    /// How many of the files are mounted over already.
    pub already: usize,
}

/// The key files that a hog is to mount over: those of everyone who is locked out, except for those
/// that are mounted over already, by a recorded hog or otherwise.
pub fn hog_targets(state: &DiskState, users: Vec<User>, spared: &[String], mounts: &str) -> (files:
    KeyFiles)
    ensures
        ({
            let all = candidate_files(state@.settings, views(users@), views(spared@));
            let targets = all.filter(is_to_be_mounted(state@.overmounts, mounts@));
            &&& views(files.targets@) == targets
            &&& files.already == all.len() - targets.len()
        }),
{
    let ghost everyone = views(users@);
    let ghost out = is_locked_out(views(spared@));
    let mut locked_out: Vec<User> = Vec::new();
    proof {
        reveal(Seq::filter);
        assert(views(locked_out@) =~= everyone.take(0).filter(out));
    }
    for i in 0..users.len()
        invariant
            everyone == views(users@),
            out == is_locked_out(views(spared@)),
            views(locked_out@) == everyone.take(i as int).filter(out),
    {
        proof {
            lemma_filter_next(everyone, i as int, out);
        }
        if !is_among(users[i].name.as_str(), spared) {
            let user = User { name: users[i].name.clone(), home: users[i].home.clone() };
            proof {
                lemma_views_push(locked_out@, user);
            }
            locked_out.push(user);
        }
    }
    proof {
        lemma_take_all(everyone);
    }
    let files = crate::diskstate::expand_authorized_keys_file(&state.settings, locked_out);
    let ghost all = views(files@);
    let ghost pred = is_to_be_mounted(state@.overmounts, mounts@);
    let mut targets: Vec<String> = Vec::new();
    proof {
        assert(views(targets@) =~= all.take(0).filter(pred));
    }
    for i in 0..files.len()
        invariant
            all == views(files@),
            pred == is_to_be_mounted(state@.overmounts, mounts@),
            views(targets@) == all.take(i as int).filter(pred),
            targets@.len() <= i,
    {
        proof {
            lemma_filter_next(all, i as int, pred);
        }
        if !is_among(files[i].as_str(), &state.overmounts) && !is_overmounted(
            mounts,
            files[i].as_str(),
        ) {
            let file = files[i].clone();
            proof {
                lemma_views_push(targets@, file);
            }
            targets.push(file);
        }
    }
    proof {
        lemma_take_all(all);
        assert(views(targets@).len() == targets@.len());
    }
    let already: usize = files.len() - targets.len();
    KeyFiles { targets, already }
}

/// What came of mounting over a file.
#[derive(Debug, PartialEq, Eq)]
pub enum Overmounted {
    Locked,
    /// There is no such file.
    Absent,
    Failed(String),
}

/// How mounting over key files went.
#[verifier::ext_equal]
pub struct TallyModel {
    pub locked: Seq<Seq<char>>,
    pub absent: nat,
    pub warnings: Seq<Seq<char>>,
}

pub open spec fn tally(files: Seq<Seq<char>>, outcomes: Seq<Overmounted>) -> TallyModel
    decreases files.len(),
{
    if files.len() == 0 {
        TallyModel { locked: Seq::empty(), absent: 0, warnings: Seq::empty() }
    } else {
        let earlier = tally(files.drop_last(), outcomes);
        match outcomes[files.len() - 1] {
            Overmounted::Locked => TallyModel {
                locked: earlier.locked.push(files.last()),
                ..earlier
            },
            Overmounted::Absent => TallyModel { absent: earlier.absent + 1, ..earlier },
            Overmounted::Failed(why) => TallyModel {
                warnings: earlier.warnings.push("WARN: "@ + why@),
                ..earlier
            },
        }
    }
}

/// What actually happened to the key files.
pub open spec fn tally_message(tally: TallyModel, already: nat) -> Seq<char> {
    decimal(tally.locked.len()) + " authorized_keys files locked ("@ + decimal(already)
        + " already locked, "@ + decimal(tally.absent) + " do not exist, "@ + decimal(
        tally.warnings.len(),
    ) + " failed)"@
}

pub open spec fn to_uncovered_line() -> spec_fn(Seq<char>) -> Seq<char> {
    |pattern: Seq<char>|
        "WARN: sshd reads keys from "@ + pattern
            + " but settings.authorized_keys_file does not cover it, so logins that way still work."@
}

/// What a hog says of the key files; `sshd_config` is what sshd prints of its configuration, if it
/// could be asked.
pub open spec fn ssh_report(
    tally: TallyModel,
    already: nat,
    overmounts: Seq<Seq<char>>,
    settings: SettingsModel,
    sshd_config: Option<Seq<char>>,
) -> Seq<Seq<char>> {
    let sshd = match sshd_config {
        Some(config) => uncovered(config, settings.authorized_keys_file).map_values(
            to_uncovered_line(),
        ),
        None => Seq::empty(),
    };
    let nobody = if overmounts.len() == 0 {
        seq!["WARN: no key file is locked, so nobody has been locked out of ssh."@]
    } else {
        Seq::empty()
    };
    tally.warnings.push(tally_message(tally, already)) + sshd + nobody
}

/// The lines about key files that sshd reads and the settings do not cover.
pub fn sshd_warnings(settings: &Settings, sshd_config: &str) -> (out: Vec<String>)
    ensures
        views(out@) == uncovered(sshd_config@, settings@.authorized_keys_file).map_values(
            to_uncovered_line(),
        ),
{
    let patterns = uncovered_key_patterns(sshd_config, &settings.authorized_keys_file);
    let ghost all = views(patterns@);
    let ghost f = to_uncovered_line();
    let mut out: Vec<String> = Vec::new();
    assert(views(out@) =~= all.take(0).map_values(f));
    for i in 0..patterns.len()
        invariant
            all == views(patterns@),
            f == to_uncovered_line(),
            views(out@) == all.take(i as int).map_values(f),
    {
        let mut line = "WARN: sshd reads keys from ".to_string();
        line.append(patterns[i].as_str());
        line.append(
            " but settings.authorized_keys_file does not cover it, so logins that way still work.",
        );
        proof {
            lemma_map_next(all, i as int, f);
            lemma_views_push(out@, line);
        }
        out.push(line);
    }
    proof {
        lemma_take_all(all);
    }
    out
}

/// Write down which key files were mounted over, and say what happened. `outcomes` says what came
/// of each of the targets.
pub fn hog_ssh(
    state: &mut DiskState,
    files: &KeyFiles,
    outcomes: &[Overmounted],
    sshd_config: Option<&str>,
) -> (report: Vec<String>)
    requires
        outcomes@.len() == files.targets@.len(),
    ensures
        ({
            let tally = tally(views(files.targets@), outcomes@);
            let overmounts = old(state)@.overmounts + tally.locked;
            &&& final(state)@ == DiskStateModel { overmounts, ..old(state)@ }
            &&& views(report@) == ssh_report(
                tally,
                files.already as nat,
                overmounts,
                old(state)@.settings,
                opt_view(sshd_config),
            )
        }),
{
    let ghost before = state@;
    let ghost all = views(files.targets@);
    let mut locked: u64 = 0;
    let mut absent: u64 = 0;
    let mut report: Vec<String> = Vec::new();
    proof {
        assert(all.take(0) =~= Seq::empty());
        assert(views(report@) =~= Seq::empty());
        assert(before.overmounts + Seq::<Seq<char>>::empty() =~= before.overmounts);
    }
    for i in 0..files.targets.len()
        invariant
            all == views(files.targets@),
            outcomes@.len() == files.targets@.len(),
            state@ == (DiskStateModel {
                overmounts: before.overmounts + tally(all.take(i as int), outcomes@).locked,
                ..before
            }),
            locked == tally(all.take(i as int), outcomes@).locked.len(),
            absent == tally(all.take(i as int), outcomes@).absent,
            views(report@) == tally(all.take(i as int), outcomes@).warnings,
            locked + absent <= i,
    {
        proof {
            lemma_take_next(all, i as int);
        }
        match &outcomes[i] {
            Overmounted::Locked => {
                let file = files.targets[i].clone();
                proof {
                    lemma_views_push(state.overmounts@, file);
                    let done = tally(all.take(i as int), outcomes@).locked;
                    assert((before.overmounts + done).push(file@) =~= before.overmounts + done.push(
                        file@,
                    ));
                }
                state.overmounts.push(file);
                locked = locked + 1;
            },
            Overmounted::Absent => {
                absent = absent + 1;
            },
            Overmounted::Failed(why) => {
                let mut line = "WARN: ".to_string();
                line.append(why.as_str());
                proof {
                    lemma_views_push(report@, line);
                }
                report.push(line);
            },
        }
    }
    proof {
        lemma_take_all(all);
        assert(views(report@).len() == report@.len());
    }
    let ghost done = tally(all, outcomes@);
    let mut line = decimal_text(locked);
    line.append(" authorized_keys files locked (");
    line.append(decimal_text(files.already as u64).as_str());
    line.append(" already locked, ");
    line.append(decimal_text(absent).as_str());
    line.append(" do not exist, ");
    line.append(decimal_text(report.len() as u64).as_str());
    line.append(" failed)");
    proof {
        assert(line@ =~= tally_message(done, files.already as nat));
        lemma_views_push(report@, line);
    }
    report.push(line);
    let ghost first = views(report@);
    let mut sshd: Vec<String> = Vec::new();
    if let Some(config) = sshd_config {
        sshd = sshd_warnings(&state.settings, config);
    } else {
        assert(views(sshd@) =~= Seq::empty());
    }
    proof {
        lemma_views_add(report@, sshd@);
    }
    let ghost second = views(sshd@);
    report.append(&mut sshd);
    assert(state@.overmounts.len() == state.overmounts@.len());
    if state.overmounts.len() == 0 {
        let nobody = "WARN: no key file is locked, so nobody has been locked out of ssh.".to_string();
        proof {
            lemma_views_push(report@, nobody);
        }
        report.push(nobody);
    }
    assert(views(report@) =~= ssh_report(
        done,
        files.already as nat,
        state@.overmounts,
        before.settings,
        opt_view(sshd_config),
    ));
    report
}

/// What is said if the units could not be stopped.
pub open spec fn unit_warning(result: Result<(), String>) -> Option<Seq<char>> {
    match result {
        Ok(_) => None,
        Err(why) => Some(
            "WARN: "@ + why@ + ". ssh is hogged regardless, and `release` undoes it."@,
        ),
    }
}

/// The steps of a hog, in the order that they must happen, each working on what the one before it
/// left. The lockout is written down and stored before anything that can fail: mounts that nobody
/// recorded cannot be released. Returns a warning if the units could not be stopped.
pub fn apply_hog(
    state: &mut DiskState,
    claim: Claim,
    lock_ssh: impl FnOnce(&mut DiskState),
    persist: impl FnOnce(&DiskState),
    stop_units: impl FnOnce(&mut DiskState) -> Result<(), String>,
    lock_boards: impl FnOnce(&mut DiskState),
) -> (warning: Option<String>)
    requires
        forall|s: &mut DiskState| #[trigger] call_requires(lock_ssh, (s,)),
        forall|s: &DiskState| #[trigger] call_requires(persist, (s,)),
        forall|s: &mut DiskState| #[trigger] call_requires(stop_units, (s,)),
        forall|s: &mut DiskState| #[trigger] call_requires(lock_boards, (s,)),
    ensures
        exists|
            first: &mut DiskState,
            stored: DiskState,
            second: &mut DiskState,
            result: Result<(), String>,
            third: &mut DiskState,
        |
            {
                &&& *first == *old(state)
                &&& #[trigger] call_ensures(lock_ssh, (first,), ())
                &&& stored@ == (DiskStateModel { hogger: Some(claim@), ..(*final(first))@ })
                &&& #[trigger] call_ensures(persist, (&stored,), ())
                &&& *second == stored
                &&& #[trigger] call_ensures(stop_units, (second,), result)
                &&& *third == *final(second)
                &&& #[trigger] call_ensures(lock_boards, (third,), ())
                &&& *final(state) == *final(third)
                &&& opt_view(warning) == unit_warning(result)
            },
{
    lock_ssh(state);
    state.hogger = Some(claim);
    persist(state);
    let result = stop_units(state);
    let warning = match &result {
        Ok(_) => None,
        Err(why) => {
            let mut line = "WARN: ".to_string();
            line.append(why.as_str());
            line.append(". ssh is hogged regardless, and `release` undoes it.");
            Some(line)
        },
    };
    lock_boards(state);
    warning
}

/// Hog the host: everything on it is taken, FPGAs included. Where it is refused, nothing is changed
/// and the reasons are returned; otherwise the steps are carried out, and a warning may be.
pub fn do_hog(
    state: &mut DiskState,
    me: &str,
    now: Moment,
    prog: &str,
    lock_ssh: impl FnOnce(&mut DiskState),
    persist: impl FnOnce(&DiskState),
    stop_units: impl FnOnce(&mut DiskState) -> Result<(), String>,
    lock_boards: impl FnOnce(&mut DiskState),
) -> (outcome: Result<Option<String>, Vec<String>>)
    requires
        now.wf(),
        old(state)@.wf(),
        forall|s: &mut DiskState| #[trigger] call_requires(lock_ssh, (s,)),
        forall|s: &DiskState| #[trigger] call_requires(persist, (s,)),
        forall|s: &mut DiskState| #[trigger] call_requires(stop_units, (s,)),
        forall|s: &mut DiskState| #[trigger] call_requires(lock_boards, (s,)),
    ensures
        match hog_decision(old(state)@, me@, now, prog@) {
            Ok(at) => {
                let hogging = hogging_claim(old(state)@.claims[at], old(state)@.settings);
                &&& outcome is Ok
                &&& exists|
                    first: &mut DiskState,
                    stored: DiskState,
                    second: &mut DiskState,
                    result: Result<(), String>,
                    third: &mut DiskState,
                |
                    {
                        &&& (*first)@ == (DiskStateModel {
                            claims: old(state)@.claims.update(at, hogging),
                            ..old(state)@
                        })
                        &&& #[trigger] call_ensures(lock_ssh, (first,), ())
                        &&& stored@ == (DiskStateModel {
                            hogger: Some(hogging),
                            ..(*final(first))@
                        })
                        &&& #[trigger] call_ensures(persist, (&stored,), ())
                        &&& *second == stored
                        &&& #[trigger] call_ensures(stop_units, (second,), result)
                        &&& *third == *final(second)
                        &&& #[trigger] call_ensures(lock_boards, (third,), ())
                        &&& *final(state) == *final(third)
                        &&& opt_view(outcome->Ok_0) == unit_warning(result)
                    }
            },
            Err(why) => {
                &&& outcome matches Err(lines) && views(lines@) == why
                &&& final(state)@ == old(state)@
            },
        },
{
    let claim = match prepare_hog(state, me, now, prog) {
        Ok(claim) => claim,
        Err(lines) => return Err(lines),
    };
    Ok(apply_hog(state, claim, lock_ssh, persist, stop_units, lock_boards))
}

/// Whether there are files mounted over although the host is not hogged.
pub fn has_stray_overmounts(state: &DiskState) -> (yes: bool)
    ensures
        yes == (state@.hogger is None && state@.overmounts.len() > 0),
{
    assert(state@.overmounts.len() == state.overmounts@.len());
    state.hogger.is_none() && state.overmounts.len() > 0
}

} // verus!
