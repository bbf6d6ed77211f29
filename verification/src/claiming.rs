//! Making a claim: reading the arguments, refusing what cannot be had, and recording the rest.
use vstd::prelude::*;
use crate::cable::{board_files, board_paths, Host, HostModel};
use crate::claims::{
    all_get_along, conflict_report, conflicts, find_conflicts, lemma_conflicts_can_be_shown,
    report_conflicts,
};
use crate::clock::{
    duration_of, has_day_offset, is_date_read, is_timeout_of, offset_is_possible, seconds_after,
    seconds_later, timeout_at, told, try_parse_timeout, Moment, LAST_SECOND,
    LONGEST_WRITTEN_SECONDS,
};
use crate::command::{ClaimCommand, ClaimCommandModel};
use crate::diskstate::{
    alias_of, law_resource_lists_are_distinct, name_of, resource_list, resource_names, Claim,
    ClaimModel, DiskState, DiskStateModel, FpgaSpec, FpgaSpecModel, ResourceId, ResourceModel,
    HOST_RESOURCE,
};
use crate::fpga::{
    foreign_holders, holders, holders_of, is_foreign, known_names, known_resources, resolve,
    resolved, Holder, HolderModel,
};
use crate::seqs::{
    concat_all, every_item, find_first, first_where, lemma_concat_next, lemma_filter_members,
    lemma_filter_next, lemma_first_where_is, lemma_take_all, lemma_take_next, lemma_views_add,
    lemma_views_push, opt_view, some_item, views,
};
use crate::text::{
    begins_with, can_answer, copied, decimal, decimal_text, describes, is_among, join, joined,
    one_line, padded, padded_text, same_text, starts_with,
};
use crate::util::{is_build_output, passes_build_output};

verus! {

/// A claim's positional arguments, sorted into their roles.
#[derive(Debug, PartialEq, Eq)]
pub struct ClaimArgs {
    pub resources: String,
    pub timeout: String,
    pub comment: Vec<String>,
}

#[verifier::ext_equal]
pub struct ClaimArgsModel {
    pub resources: Seq<char>,
    pub timeout: Seq<char>,
    pub comment: Seq<Seq<char>>,
}

impl View for ClaimArgs {
    type V = ClaimArgsModel;

    open spec fn view(&self) -> ClaimArgsModel {
        ClaimArgsModel {
            resources: self.resources@,
            timeout: self.timeout@,
            comment: views(self.comment@),
        }
    }
}

pub open spec fn is_named_in(known: Seq<Seq<char>>) -> spec_fn(ResourceModel) -> bool {
    |resource: ResourceModel| known.contains(name_of(resource))
}

/// Whether `word` lists resources, all of them known.
pub open spec fn names_known_resources(word: Seq<char>, known: Seq<Seq<char>>) -> bool {
    resource_list(word).len() > 0 && every_item(resource_list(word), is_named_in(known))
}

pub open spec fn is_ambiguous(is_timeout: spec_fn(Seq<char>) -> bool) -> spec_fn(
    ResourceModel,
) -> bool {
    |resource: ResourceModel| alias_of(resource) matches Some(alias) && is_timeout(alias)
}

pub open spec fn ambiguous_message(alias: Seq<char>) -> Seq<char> {
    "FPGA alias `"@ + alias + "` also reads as a timeout, so `claim "@ + alias
        + " ...` is ambiguous. Rename it in settings.fpgas."@
}

pub open spec fn missing_timeout_message(first: Seq<char>) -> Seq<char> {
    "missing timeout after `"@ + first + "`"@
}

pub open spec fn unknown_word_message(first: Seq<char>, known: Seq<Seq<char>>) -> Seq<char> {
    "unknown resource `"@ + first + "`. Known resources: "@ + join(known, ", "@) + "."@
}

/// The roles of a claim's arguments. Only the first word decides: if it lists known resources, the
/// timeout comes next; if it reads as a timeout instead, the host is claimed. An alias that also
/// reads as a timeout is refused, because the two forms would disagree about it.
pub open spec fn split(
    args: Seq<Seq<char>>,
    known: Seq<Seq<char>>,
    is_timeout: spec_fn(Seq<char>) -> bool,
) -> Result<ClaimArgsModel, Seq<char>> {
    if args.len() == 0 {
        Err("missing timeout"@)
    } else if names_known_resources(args[0], known) {
        match find_first(resource_list(args[0]), is_ambiguous(is_timeout)) {
            Some(resource) => Err(ambiguous_message(alias_of(resource)->0)),
            None => if args.len() > 1 {
                Ok(
                    ClaimArgsModel {
                        resources: args[0],
                        timeout: args[1],
                        comment: args.skip(2),
                    },
                )
            } else {
                Err(missing_timeout_message(args[0]))
            },
        }
    } else if is_timeout(args[0]) {
        Ok(
            ClaimArgsModel {
                resources: HOST_RESOURCE@,
                timeout: args[0],
                comment: args.skip(1),
            },
        )
    } else {
        Err(unknown_word_message(args[0], known))
    }
}

/// What may be asked for whether it reads as a timeout: the aliases in the first word, if it lists
/// known resources, and otherwise that word.
pub open spec fn may_be_asked(
    args: Seq<Seq<char>>,
    known: Seq<Seq<char>>,
    text: Seq<char>,
) -> bool {
    args.len() > 0 && if names_known_resources(args[0], known) {
        resource_list(args[0]).contains(ResourceModel::Fpga(text))
    } else {
        text == args[0]
    }
}

/// What is asked for whether it reads as a timeout, where `is_timeout` are the answers: the aliases
/// up to the first that does, or else the first word.
pub open spec fn is_asked(
    args: Seq<Seq<char>>,
    known: Seq<Seq<char>>,
    is_timeout: spec_fn(Seq<char>) -> bool,
    text: Seq<char>,
) -> bool {
    if args.len() == 0 {
        false
    } else if names_known_resources(args[0], known) {
        let named = resource_list(args[0]);
        exists|k: int|
            0 <= k < named.len() && k <= first_where(named, is_ambiguous(is_timeout)) && alias_of(
                #[trigger] named[k],
            ) == Some(text)
    } else {
        text == args[0]
    }
}

fn all_known(named: &[ResourceId], known: &[String]) -> (yes: bool)
    ensures
        yes == every_item(views(named@), is_named_in(views(known@))),
{
    let ghost pred = is_named_in(views(known@));
    for i in 0..named.len()
        invariant
            pred == is_named_in(views(known@)),
            forall|j: int| 0 <= j < i ==> pred(#[trigger] views(named@)[j]),
    {
        if !is_among(named[i].to_string().as_str(), known) {
            assert(!pred(views(named@)[i as int]));
            return false;
        }
    }
    true
}

fn rest_from(args: &[String], from: usize) -> (rest: Vec<String>)
    requires
        from <= args@.len(),
    ensures
        views(rest@) == views(args@).skip(from as int),
{
    let mut rest: Vec<String> = Vec::new();
    assert(views(rest@) =~= views(args@).subrange(from as int, from as int));
    for i in from..args.len()
        invariant
            from <= args@.len(),
            views(rest@) == views(args@).subrange(from as int, i as int),
    {
        let word = args[i].clone();
        proof {
            lemma_views_push(rest@, word);
            assert(views(args@).subrange(from as int, i + 1) =~= views(args@).subrange(
                from as int,
                i as int,
            ).push(word@));
        }
        rest.push(word);
    }
    assert(views(args@).subrange(from as int, args@.len() as int) =~= views(args@).skip(
        from as int,
    ));
    rest
}

/// Sort the positional arguments of a claim into their roles; see [`split`]. Two forms are
/// accepted:
///
///   `<resource[,resource...]> <timeout> [comment...]`
///   `<timeout> [comment...]`, which claims the host
pub fn split_claim_args(
    args: &[String],
    known: &[String],
    is_timeout: impl Fn(&str) -> bool,
) -> (out: Result<ClaimArgs, String>)
    requires
        forall|text: &str|
            may_be_asked(views(args@), views(known@), text@) ==> #[trigger] call_requires(
                is_timeout,
                (text,),
            ),
    ensures
        forall|f: spec_fn(Seq<char>) -> bool| #[trigger]
            describes(is_timeout, f) ==> split_result(out) == split(
                views(args@),
                views(known@),
                f,
            ),
        exists|f: spec_fn(Seq<char>) -> bool|
            {
                &&& split_result(out) == #[trigger] split(views(args@), views(known@), f)
                &&& forall|text: Seq<char>| #[trigger]
                    is_asked(views(args@), views(known@), f, text) ==> can_answer(
                        is_timeout,
                        text,
                        f(text),
                    )
            },
{
    let ghost a = views(args@);
    let ghost k = views(known@);
    let ghost no: spec_fn(Seq<char>) -> bool = |text: Seq<char>| false;
    assert(a.len() == args@.len());
    if args.len() == 0 {
        let out = Err("missing timeout".to_string());
        assert(split_result(out) == split(a, k, no));
        return out;
    }
    let first = args[0].as_str();
    let named = ResourceId::parse_list(first);
    let ghost list = views(named@);
    assert(list.len() == named@.len());
    if named.len() > 0 && all_known(&named, known) {
        assert(names_known_resources(a[0], k));
        for i in 0..named.len()
            invariant
                a == views(args@),
                k == views(known@),
                a.len() > 0,
                list == views(named@),
                list == resource_list(a[0]),
                names_known_resources(a[0], k),
                forall|text: &str|
                    may_be_asked(a, k, text@) ==> #[trigger] call_requires(is_timeout, (text,)),
                forall|j: int|
                    0 <= j < i ==> (alias_of(#[trigger] list[j]) matches Some(alias) ==> can_answer(
                        is_timeout,
                        alias,
                        false,
                    )),
        {
            if let Some(alias) = named[i].alias() {
                assert(list[i as int] == ResourceModel::Fpga(alias@));
                assert(list.contains(list[i as int]));
                let answer = is_timeout(alias);
                assert(can_answer(is_timeout, alias@, answer));
                if answer {
                    let mut why = "FPGA alias `".to_string();
                    why.append(alias);
                    why.append("` also reads as a timeout, so `claim ");
                    why.append(alias);
                    why.append(" ...` is ambiguous. Rename it in settings.fpgas.");
                    let out: Result<ClaimArgs, String> = Err(why);
                    proof {
                        assert(why@ =~= ambiguous_message(alias@));
                        assert forall|f: spec_fn(Seq<char>) -> bool| #[trigger]
                            describes(is_timeout, f) implies split_result(out) == split(a, k, f) by {
                            let pred = is_ambiguous(f);
                            assert forall|j: int| 0 <= j < i implies !pred(#[trigger] list[j]) by {}
                            assert(pred(list[i as int]));
                            lemma_first_where_is(list, pred, i as int);
                        }
                        let f = |text: Seq<char>| text == alias@;
                        let pred = is_ambiguous(f);
                        law_resource_lists_are_distinct(a[0]);
                        assert forall|j: int| 0 <= j < i implies !pred(#[trigger] list[j]) by {
                            assert(list[j] != list[i as int]);
                        }
                        assert(pred(list[i as int]));
                        lemma_first_where_is(list, pred, i as int);
                        assert(split_result(out) == split(a, k, f));
                        assert forall|text: Seq<char>| #[trigger]
                            is_asked(a, k, f, text) implies can_answer(
                            is_timeout,
                            text,
                            f(text),
                        ) by {
                            let m = choose|m: int|
                                0 <= m < list.len() && m <= first_where(list, pred) && alias_of(
                                    #[trigger] list[m],
                                ) == Some(text);
                            if m < i {
                                assert(!pred(list[m]));
                            }
                        }
                    }
                    return out;
                }
            }
        }
        let out: Result<ClaimArgs, String> = if args.len() > 1 {
            Ok(
                ClaimArgs {
                    resources: args[0].clone(),
                    timeout: args[1].clone(),
                    comment: rest_from(args, 2),
                },
            )
        } else {
            let mut why = "missing timeout after `".to_string();
            why.append(first);
            why.append("`");
            Err(why)
        };
        proof {
            assert forall|f: spec_fn(Seq<char>) -> bool| #[trigger]
                describes(is_timeout, f) implies split_result(out) == split(a, k, f) by {
                let pred = is_ambiguous(f);
                assert forall|j: int| 0 <= j < list.len() implies !pred(#[trigger] list[j]) by {}
                lemma_first_where_is(list, pred, list.len() as int);
            }
            let pred = is_ambiguous(no);
            lemma_first_where_is(list, pred, list.len() as int);
            assert(split_result(out) == split(a, k, no));
            assert forall|text: Seq<char>| #[trigger] is_asked(a, k, no, text) implies can_answer(
                is_timeout,
                text,
                no(text),
            ) by {
                let m = choose|m: int|
                    0 <= m < list.len() && m <= first_where(list, pred) && alias_of(
                        #[trigger] list[m],
                    ) == Some(text);
                assert(alias_of(list[m]) == Some(text));
            }
        }
        return out;
    }
    assert(!names_known_resources(a[0], k));
    let answer = is_timeout(first);
    assert(can_answer(is_timeout, a[0], answer));
    let ghost told: spec_fn(Seq<char>) -> bool = |text: Seq<char>| answer;
    if answer {
        let out: Result<ClaimArgs, String> = Ok(
            ClaimArgs {
                resources: HOST_RESOURCE.to_string(),
                timeout: args[0].clone(),
                comment: rest_from(args, 1),
            },
        );
        assert(split_result(out) == split(a, k, told));
        return out;
    }
    let mut why = "unknown resource `".to_string();
    why.append(first);
    why.append("`. Known resources: ");
    why.append(joined(known, ", ").as_str());
    why.append(".");
    let out: Result<ClaimArgs, String> = Err(why);
    assert(split_result(out) == split(a, k, told));
    out
}

/// The view of what [`split_claim_args`] returns.
pub open spec fn split_result(out: Result<ClaimArgs, String>) -> Result<
    ClaimArgsModel,
    Seq<char>,
> {
    match out {
        Ok(args) => Ok(args@),
        Err(why) => Err(why@),
    }
}

/// A board with nothing to protect it by.
pub open spec fn is_unenforceable() -> spec_fn(FpgaSpecModel) -> bool {
    |spec: FpgaSpecModel| spec.devices.len() == 0 && spec.cables.len() == 0
}

pub open spec fn to_unenforceable_line() -> spec_fn(FpgaSpecModel) -> Seq<char> {
    |spec: FpgaSpecModel|
        spec.alias + " ("@ + spec.bdf
            + ") has no device nodes or cables configured, so an exclusive claim cannot be enforced."@
}

/// What checks have to say, and whether they let the claim pass.
#[derive(Debug, PartialEq, Eq)]
pub struct Clearance {
    pub passed: bool,
    pub out: Vec<String>,
    pub err: Vec<String>,
}

#[verifier::ext_equal]
pub struct ClearanceModel {
    pub passed: bool,
    pub out: Seq<Seq<char>>,
    pub err: Seq<Seq<char>>,
}

impl View for Clearance {
    type V = ClearanceModel;

    open spec fn view(&self) -> ClearanceModel {
        ClearanceModel { passed: self.passed, out: views(self.out@), err: views(self.err@) }
    }
}

pub open spec fn advisory_note() -> Seq<char> {
    "--force given: recording an advisory claim that blocks nobody."@
}

pub open spec fn unenforceable_hint(prog: Seq<char>) -> Seq<char> {
    "Load the board's driver and re-run `"@ + prog
        + " discover --write`, add device nodes or cable\nserials to settings.fpgas[] by hand, or pass --force to take an advisory claim."@
}

/// Whether an exclusive claim on the boards can be enforced, and what is said if not: recording a
/// claim that silently enforces nothing is worse than saying so.
pub open spec fn enforceability(specs: Seq<FpgaSpecModel>, force: bool, prog: Seq<char>) -> ClearanceModel {
    let bad = specs.filter(is_unenforceable());
    if bad.len() == 0 {
        ClearanceModel { passed: true, out: Seq::empty(), err: Seq::empty() }
    } else if force {
        ClearanceModel {
            passed: true,
            out: seq![advisory_note()],
            err: bad.map_values(to_unenforceable_line()),
        }
    } else {
        ClearanceModel {
            passed: false,
            out: Seq::empty(),
            err: bad.map_values(to_unenforceable_line()).push(unenforceable_hint(prog)),
        }
    }
}

/// Whether an exclusive claim on the boards can be enforced, or is made by force.
pub fn check_enforceable(specs: &[FpgaSpec], force: bool) -> (passed: bool)
    ensures
        passed == (force || views(specs@).filter(is_unenforceable()).len() == 0),
{
    clear_enforceable(specs, force, "").passed
}

/// Whether an exclusive claim on the boards can be enforced; see [`enforceability`].
pub fn clear_enforceable(specs: &[FpgaSpec], force: bool, prog: &str) -> (clearance: Clearance)
    ensures
        clearance@ == enforceability(views(specs@), force, prog@),
{
    let ghost pred = is_unenforceable();
    let ghost f = to_unenforceable_line();
    let ghost all = views(specs@);
    let mut out: Vec<String> = Vec::new();
    let mut err: Vec<String> = Vec::new();
    proof {
        reveal(Seq::filter);
        assert(views(out@) =~= Seq::empty());
        assert(views(err@) =~= all.take(0).filter(pred).map_values(f));
    }
    for i in 0..specs.len()
        invariant
            pred == is_unenforceable(),
            f == to_unenforceable_line(),
            all == views(specs@),
            views(err@) == all.take(i as int).filter(pred).map_values(f),
    {
        proof {
            lemma_filter_next(all, i as int, pred);
            assert(specs@[i as int]@.devices.len() == specs@[i as int].devices@.len());
            assert(specs@[i as int]@.cables.len() == specs@[i as int].cables@.len());
        }
        if specs[i].devices.len() == 0 && specs[i].cables.len() == 0 {
            let mut line = specs[i].alias.clone();
            line.append(" (");
            line.append(specs[i].bdf.as_str());
            line.append(
                ") has no device nodes or cables configured, so an exclusive claim cannot be enforced.",
            );
            proof {
                let kept = all.take(i as int).filter(pred);
                assert(kept.push(all[i as int]).map_values(f) =~= kept.map_values(f).push(line@));
                lemma_views_push(err@, line);
            }
            err.push(line);
        }
    }
    proof {
        lemma_take_all(all);
        assert(views(err@).len() == err@.len());
    }
    if err.len() == 0 {
        let clearance = Clearance { passed: true, out, err };
        assert(clearance@ =~= enforceability(all, force, prog@));
        return clearance;
    }
    if force {
        out.push("--force given: recording an advisory claim that blocks nobody.".to_string());
        let clearance = Clearance { passed: true, out, err };
        assert(clearance@ =~= enforceability(all, force, prog@));
        return clearance;
    }
    let mut hint = "Load the board's driver and re-run `".to_string();
    hint.append(prog);
    hint.append(
        " discover --write`, add device nodes or cable\nserials to settings.fpgas[] by hand, or pass --force to take an advisory claim.",
    );
    proof {
        lemma_views_push(err@, hint);
    }
    err.push(hint);
    let clearance = Clearance { passed: false, out, err };
    assert(clearance@ =~= enforceability(all, force, prog@));
    clearance
}

/// The files through which a board is used: its device files, and those of its cables.
pub open spec fn watched_files(spec: FpgaSpecModel, host: HostModel) -> Seq<Seq<char>> {
    spec.devices + board_files(spec, host.usb, host.dev)
}

/// The processes of others that use the board.
pub open spec fn foreign_users(spec: FpgaSpecModel, host: HostModel, my_uid: Option<u32>) -> Seq<
    HolderModel,
> {
    holders_of(watched_files(spec, host), host.processes, host.accounts).filter(is_foreign(my_uid))
}

/// The two lines about one process that uses a board.
pub open spec fn to_user_lines() -> spec_fn(HolderModel) -> Seq<Seq<char>> {
    |holder: HolderModel|
        seq![
            "  pid "@ + padded(decimal(holder.pid as nat), 8) + " "@ + holder.cmdline + " ("@
                + holder.user + ")"@,
            "  "@ + padded(Seq::empty(), 12) + " holding "@ + holder.device,
        ]
}

/// The lines about one board that others use.
pub open spec fn to_use_lines(host: HostModel, my_uid: Option<u32>) -> spec_fn(FpgaSpecModel) -> Seq<
    Seq<char>,
> {
    |spec: FpgaSpecModel|
        {
            let users = foreign_users(spec, host, my_uid);
            if users.len() == 0 {
                Seq::empty()
            } else {
                seq![spec.alias + " is in use by:"@] + concat_all(users.map_values(to_user_lines()))
            }
        }
}

pub open spec fn forced_note() -> Seq<char> {
    "--force given: claiming anyway. Cables they hold open are re-plugged; open device files keep working until closed."@
}

pub open spec fn in_use_hint() -> Seq<char> {
    "\nClaim refused. Re-run with --force to claim anyway\n(their cables are re-plugged, which cuts them off; open device files keep working until closed)."@
}

pub open spec fn is_used_by_others(host: HostModel, my_uid: Option<u32>) -> spec_fn(
    FpgaSpecModel,
) -> bool {
    |spec: FpgaSpecModel| foreign_users(spec, host, my_uid).len() > 0
}

/// Whether the boards are free of other people's processes, and what is said if not: a board is
/// not taken from under a running job, unless by force.
pub open spec fn availability(
    specs: Seq<FpgaSpecModel>,
    host: HostModel,
    my_uid: Option<u32>,
    force: bool,
) -> ClearanceModel {
    let lines = concat_all(specs.map_values(to_use_lines(host, my_uid)));
    if !some_item(specs, is_used_by_others(host, my_uid)) {
        ClearanceModel { passed: true, out: Seq::empty(), err: lines }
    } else if force {
        ClearanceModel { passed: true, out: seq![forced_note()], err: lines }
    } else {
        ClearanceModel { passed: false, out: Seq::empty(), err: lines.push(in_use_hint()) }
    }
}

fn users_of_board(spec: &FpgaSpec, host: &Host, my_uid: Option<u32>) -> (users: Vec<Holder>)
    ensures
        views(users@) == foreign_users(spec@, host@, my_uid),
{
    let mut watched = copied(&spec.devices);
    let mut more = board_paths(spec, &host.usb, host.dev.as_str());
    proof {
        lemma_views_add(watched@, more@);
    }
    watched.append(&mut more);
    let all = holders(&watched, &host.processes, &host.accounts);
    foreign_holders(&all, my_uid)
}

fn push_user_lines(err: &mut Vec<String>, users: &[Holder])
    ensures
        views(final(err)@) == views(old(err)@) + concat_all(
            views(users@).map_values(to_user_lines()),
        ),
{
    let ghost start = views(err@);
    let ghost all = views(users@);
    let ghost f = to_user_lines();
    proof {
        assert(all.take(0).map_values(f) =~= Seq::empty());
        assert(start + concat_all(all.take(0).map_values(f)) =~= start);
    }
    for i in 0..users.len()
        invariant
            all == views(users@),
            f == to_user_lines(),
            views(err@) == start + concat_all(all.take(i as int).map_values(f)),
    {
        let holder = &users[i];
        let mut line = "  pid ".to_string();
        line.append(padded_text(decimal_text(holder.pid as u64).as_str(), 8).as_str());
        line.append(" ");
        line.append(holder.cmdline.as_str());
        line.append(" (");
        line.append(holder.user.as_str());
        line.append(")");
        let mut held = "  ".to_string();
        held.append(padded_text("", 12).as_str());
        held.append(" holding ");
        held.append(holder.device.as_str());
        proof {
            reveal_strlit("");
            assert(""@ =~= Seq::<char>::empty());
            lemma_concat_next(all, i as int, f);
            lemma_views_push(err@, line);
            lemma_views_push(err@.push(line), held);
            let before = concat_all(all.take(i as int).map_values(f));
            assert(f(all[i as int]) =~= seq![line@, held@]);
            assert((start + before).push(line@).push(held@) =~= start + (before + f(
                all[i as int],
            )));
        }
        err.push(line);
        err.push(held);
    }
    proof {
        lemma_take_all(all);
    }
}

/// Whether the boards are free of other people's processes; see [`availability`].
pub fn clear_free(specs: &[FpgaSpec], host: &Host, my_uid: Option<u32>, force: bool) -> (clearance:
    Clearance)
    ensures
        clearance@ == availability(views(specs@), host@, my_uid, force),
{
    let ghost f = to_use_lines(host@, my_uid);
    let ghost pred = is_used_by_others(host@, my_uid);
    let ghost all = views(specs@);
    let mut out: Vec<String> = Vec::new();
    let mut err: Vec<String> = Vec::new();
    let mut blocked = false;
    proof {
        assert(all.take(0).map_values(f) =~= Seq::empty());
        assert(views(out@) =~= Seq::empty());
        assert(views(err@) =~= Seq::empty());
    }
    for i in 0..specs.len()
        invariant
            f == to_use_lines(host@, my_uid),
            pred == is_used_by_others(host@, my_uid),
            all == views(specs@),
            views(err@) == concat_all(all.take(i as int).map_values(f)),
            blocked ==> some_item(all, pred),
            !blocked ==> forall|j: int| 0 <= j < i ==> !pred(#[trigger] all[j]),
    {
        let users = users_of_board(&specs[i], host, my_uid);
        let ghost sofar = views(err@);
        proof {
            lemma_concat_next(all, i as int, f);
            assert(views(users@).len() == users@.len());
            assert(sofar + Seq::<Seq<char>>::empty() =~= sofar);
        }
        if users.len() > 0 {
            assert(pred(all[i as int]));
            blocked = true;
            let mut line = specs[i].alias.clone();
            line.append(" is in use by:");
            proof {
                lemma_views_push(err@, line);
            }
            err.push(line);
            push_user_lines(&mut err, &users);
            proof {
                let more = concat_all(views(users@).map_values(to_user_lines()));
                assert(sofar.push(line@) + more =~= sofar + (seq![line@] + more));
            }
        }
    }
    proof {
        lemma_take_all(all);
    }
    let mut passed = true;
    if blocked {
        if force {
            let note =
                "--force given: claiming anyway. Cables they hold open are re-plugged; open device files keep working until closed.".to_string();
            proof {
                lemma_views_push(out@, note);
            }
            out.push(note);
        } else {
            let hint =
                "\nClaim refused. Re-run with --force to claim anyway\n(their cables are re-plugged, which cuts them off; open device files keep working until closed).".to_string();
            proof {
                lemma_views_push(err@, hint);
            }
            err.push(hint);
            passed = false;
        }
    }
    let clearance = Clearance { passed, out, err };
    assert(clearance@ =~= availability(all, host@, my_uid, force));
    clearance
}

/// Whether the boards may be taken: nobody else uses them, or they are taken by force.
pub fn check_free(specs: &[FpgaSpec], host: &Host, my_uid: Option<u32>, force: bool) -> (passed: bool)
    ensures
        passed == (force || !some_item(views(specs@), is_used_by_others(host@, my_uid))),
{
    clear_free(specs, host, my_uid, force).passed
}

/// A claim that nothing stands in the way of.
#[derive(Debug, PartialEq, Eq)]
pub struct AcceptedClaim {
    pub resources: Vec<ResourceId>,
    pub specs: Vec<FpgaSpec>,
    pub exclusive: bool,
    /// The timeout as it was written.
    pub timeout: String,
    pub comment: String,
}

#[verifier::ext_equal]
pub struct AcceptedModel {
    pub resources: Seq<ResourceModel>,
    pub specs: Seq<FpgaSpecModel>,
    pub exclusive: bool,
    pub timeout: Seq<char>,
    pub comment: Seq<char>,
}

impl View for AcceptedClaim {
    type V = AcceptedModel;

    open spec fn view(&self) -> AcceptedModel {
        AcceptedModel {
            resources: views(self.resources@),
            specs: views(self.specs@),
            exclusive: self.exclusive,
            timeout: self.timeout@,
            comment: self.comment@,
        }
    }
}

/// What is decided about a claim, and what is said.
#[derive(Debug, PartialEq, Eq)]
pub struct Decision {
    pub accepted: Option<AcceptedClaim>,
    pub out: Vec<String>,
    pub err: Vec<String>,
}

#[verifier::ext_equal]
pub struct DecisionModel {
    pub accepted: Option<AcceptedModel>,
    pub out: Seq<Seq<char>>,
    pub err: Seq<Seq<char>>,
}

impl View for Decision {
    type V = DecisionModel;

    open spec fn view(&self) -> DecisionModel {
        DecisionModel {
            accepted: opt_view(self.accepted),
            out: views(self.out@),
            err: views(self.err@),
        }
    }
}

pub open spec fn refusal(err: Seq<Seq<char>>) -> DecisionModel {
    DecisionModel { accepted: None, out: Seq::empty(), err }
}

/// An FPGA is claimed exclusively and the host is shared, unless the command says otherwise.
pub open spec fn is_exclusive(cmd: ClaimCommandModel, specs: Seq<FpgaSpecModel>) -> bool {
    cmd.exclusive || (!cmd.shared && specs.len() > 0)
}

pub open spec fn register_hint(prog: Seq<char>) -> Seq<char> {
    "Run `"@ + prog + " discover --write` to register this host's FPGAs."@
}

/// What is said of arguments that cannot be read.
pub open spec fn argument_refusal(why: Seq<char>, prog: Seq<char>) -> Seq<Seq<char>> {
    if starts_with(why, "unknown resource"@) {
        seq![why, register_hint(prog)]
    } else {
        seq![why]
    }
}

/// Who asks, and when.
#[derive(Debug, PartialEq, Eq)]
pub struct Asker {
    pub name: String,
    pub uid: Option<u32>,
    pub now: Moment,
    /// What this program is called.
    pub prog: String,
}

#[verifier::ext_equal]
pub struct AskerModel {
    pub name: Seq<char>,
    pub uid: Option<u32>,
    pub now: Moment,
    pub prog: Seq<char>,
}

impl View for Asker {
    type V = AskerModel;

    open spec fn view(&self) -> AskerModel {
        AskerModel { name: self.name@, uid: self.uid, now: self.now, prog: self.prog@ }
    }
}

/// What is decided about a claim on resources whose arguments could be read: whether the boards
/// exist, whether somebody else has claimed them, and, for an exclusive claim, whether they can be
/// protected and whether somebody else uses them.
pub open spec fn request_decision(
    cmd: ClaimCommandModel,
    args: ClaimArgsModel,
    state: DiskStateModel,
    asker: AskerModel,
    host: HostModel,
) -> DecisionModel {
    let requested = resource_list(args.resources);
    match resolved(state.settings, requested, asker.prog) {
        Err(why) => refusal(seq![why]),
        Ok(specs) => {
            let exclusive = is_exclusive(cmd, specs);
            let found = conflicts(state, asker.name, requested, exclusive);
            let enforce = enforceability(specs, cmd.force, asker.prog);
            let free = availability(specs, host, asker.uid, cmd.force);
            let accepted = AcceptedModel {
                resources: requested,
                specs,
                exclusive,
                timeout: args.timeout,
                comment: join(args.comment, " "@),
            };
            if cmd.exclusive && cmd.shared {
                refusal(seq!["--exclusive and --shared contradict each other."@])
            } else if found.len() > 0 {
                refusal(conflict_report(found, asker.now))
            } else if !exclusive {
                DecisionModel {
                    accepted: Some(accepted),
                    out: Seq::empty(),
                    err: Seq::empty(),
                }
            } else if !enforce.passed {
                DecisionModel { accepted: None, out: enforce.out, err: enforce.err }
            } else {
                DecisionModel {
                    accepted: if free.passed {
                        Some(accepted)
                    } else {
                        None
                    },
                    out: enforce.out + free.out,
                    err: enforce.err + free.err,
                }
            }
        },
    }
}

/// What is decided about a claim, where `is_timeout` tells which words read as a timeout.
pub open spec fn claim_decision(
    cmd: ClaimCommandModel,
    state: DiskStateModel,
    asker: AskerModel,
    host: HostModel,
    is_timeout: spec_fn(Seq<char>) -> bool,
) -> DecisionModel {
    match split(cmd.args, known_resources(state.settings), is_timeout) {
        Err(why) => refusal(argument_refusal(why, asker.prog)),
        Ok(args) => request_decision(cmd, args, state, asker, host),
    }
}

fn refuse(err: Vec<String>) -> (decision: Decision)
    ensures
        decision@ == refusal(views(err@)),
{
    let decision = Decision { accepted: None, out: Vec::new(), err };
    assert(decision@ =~= refusal(views(err@)));
    decision
}

fn copied_specs(specs: &[&FpgaSpec]) -> (out: Vec<FpgaSpec>)
    ensures
        views(out@) == views(specs@),
{
    let mut out: Vec<FpgaSpec> = Vec::new();
    for i in 0..specs.len()
        invariant
            views(out@) == views(specs@).take(i as int),
    {
        let spec: FpgaSpec = (*specs[i]).clone();
        proof {
            lemma_views_push(out@, spec);
            lemma_take_next(views(specs@), i as int);
        }
        out.push(spec);
    }
    proof {
        lemma_take_all(views(specs@));
    }
    out
}

fn decide_request(
    cmd: &ClaimCommand,
    args: &ClaimArgs,
    state: &DiskState,
    asker: &Asker,
    host: &Host,
) -> (decision: Decision)
    requires
        asker.now.wf(),
        state@.wf(),
    ensures
        decision@ == request_decision(cmd@, args@, state@, asker@, host@),
{
    let requested = ResourceId::parse_list(args.resources.as_str());
    let specs = match resolve(state, &requested, asker.prog.as_str()) {
        Ok(specs) => copied_specs(&specs),
        Err(why) => return refuse(one_line(why)),
    };
    let ghost boards = views(specs@);
    assert(boards.len() == specs@.len());
    let exclusive = cmd.exclusive || (!cmd.shared && specs.len() > 0);
    if cmd.exclusive && cmd.shared {
        return refuse(one_line("--exclusive and --shared contradict each other.".to_string()));
    }
    let found = find_conflicts(state, asker.name.as_str(), &requested, exclusive);
    assert(views(found@).len() == found@.len());
    if found.len() > 0 {
        proof {
            lemma_conflicts_can_be_shown(state@, asker@.name, views(requested@), exclusive);
        }
        return refuse(report_conflicts(&found, asker.now));
    }
    let mut out: Vec<String> = Vec::new();
    let mut err: Vec<String> = Vec::new();
    proof {
        assert(views(out@) =~= Seq::empty());
        assert(views(err@) =~= Seq::empty());
    }
    if exclusive {
        let enforce = clear_enforceable(&specs, cmd.force, asker.prog.as_str());
        if !enforce.passed {
            return Decision { accepted: None, out: enforce.out, err: enforce.err };
        }
        let mut free = clear_free(&specs, host, asker.uid, cmd.force);
        out = enforce.out;
        err = enforce.err;
        proof {
            lemma_views_add(out@, free.out@);
            lemma_views_add(err@, free.err@);
        }
        out.append(&mut free.out);
        err.append(&mut free.err);
        if !free.passed {
            return Decision { accepted: None, out, err };
        }
    }
    let accepted = AcceptedClaim {
        resources: requested,
        specs,
        exclusive,
        timeout: args.timeout.clone(),
        comment: joined(&args.comment, " "),
    };
    Decision { accepted: Some(accepted), out, err }
}

fn decide_split(
    split: Result<ClaimArgs, String>,
    cmd: &ClaimCommand,
    state: &DiskState,
    asker: &Asker,
    host: &Host,
) -> (decision: Decision)
    requires
        asker.now.wf(),
        state@.wf(),
    ensures
        decision@ == match split_result(split) {
            Err(why) => refusal(argument_refusal(why, asker@.prog)),
            Ok(args) => request_decision(cmd@, args, state@, asker@, host@),
        },
{
    match split {
        Ok(args) => decide_request(cmd, &args, state, asker, host),
        Err(why) => {
            let unknown = begins_with(why.as_str(), "unknown resource");
            let mut err: Vec<String> = Vec::new();
            err.push(why);
            if unknown {
                let mut hint = "Run `".to_string();
                hint.append(asker.prog.as_str());
                hint.append(" discover --write` to register this host's FPGAs.");
                assert(hint@ == register_hint(asker@.prog));
                err.push(hint);
            }
            assert(views(err@) =~= argument_refusal(why@, asker@.prog));
            refuse(err)
        },
    }
}

/// Decide about a claim; see [`claim_decision`]. Nothing is changed yet. `is_timeout` is asked
/// which words read as a timeout.
pub fn decide_claim(
    cmd: &ClaimCommand,
    state: &DiskState,
    asker: &Asker,
    host: &Host,
    is_timeout: impl Fn(&str) -> bool,
) -> (decision: Decision)
    requires
        asker.now.wf(),
        state@.wf(),
        forall|text: &str|
            may_be_asked(cmd@.args, known_resources(state@.settings), text@) ==> #[trigger]
            call_requires(is_timeout, (text,)),
    ensures
        forall|f: spec_fn(Seq<char>) -> bool| #[trigger]
            describes(is_timeout, f) ==> decision@ == claim_decision(
                cmd@,
                state@,
                asker@,
                host@,
                f,
            ),
        exists|f: spec_fn(Seq<char>) -> bool|
            {
                &&& decision@ == #[trigger] claim_decision(cmd@, state@, asker@, host@, f)
                &&& forall|text: Seq<char>| #[trigger]
                    is_asked(cmd@.args, known_resources(state@.settings), f, text) ==> can_answer(
                        is_timeout,
                        text,
                        f(text),
                    )
            },
{
    let known = known_names(state);
    let ghost ask = is_timeout;
    let args = split_claim_args(&cmd.args, &known, is_timeout);
    let ghost result = split_result(args);
    let decision = decide_split(args, cmd, state, asker, host);
    proof {
        let f = choose|f: spec_fn(Seq<char>) -> bool|
            {
                &&& result == #[trigger] split(cmd@.args, views(known@), f)
                &&& forall|text: Seq<char>| #[trigger]
                    is_asked(cmd@.args, views(known@), f, text) ==> can_answer(ask, text, f(text))
            };
        assert(decision@ == claim_decision(cmd@, state@, asker@, host@, f));
    }
    decision
}

/// The claim that is recorded.
pub open spec fn new_claim(
    state: DiskStateModel,
    accepted: AcceptedModel,
    me: Seq<char>,
    timeout: Moment,
    soft_timeout: Option<Moment>,
) -> ClaimModel {
    ClaimModel {
        id: (state.highest_id() + 1) as u64,
        timeout,
        soft_timeout,
        exclusive: accepted.exclusive,
        user: me,
        comment: accepted.comment,
        resources: accepted.resources,
    }
}

/// The state with `claim`, whose id is then the last that was given.
pub open spec fn with_claim(state: DiskStateModel, claim: ClaimModel) -> DiskStateModel {
    DiskStateModel { claims: state.claims.push(claim), last_claim_id: claim.id, ..state }
}

/// Record an accepted claim under an id of its own.
pub fn record_claim(
    state: &mut DiskState,
    accepted: &AcceptedClaim,
    me: &str,
    timeout: Moment,
    soft_timeout: Option<Moment>,
) -> (claim: Claim)
    requires
        old(state)@.highest_id() < u64::MAX,
    ensures
        claim@ == new_claim(old(state)@, accepted@, me@, timeout, soft_timeout),
        final(state)@ == with_claim(old(state)@, claim@),
{
    let id: u64 = state.next_claim_id();
    let claim = Claim {
        id,
        timeout,
        soft_timeout,
        exclusive: accepted.exclusive,
        user: me.to_string(),
        comment: accepted.comment.clone(),
        resources: crate::diskstate::copied_resources(&accepted.resources),
    };
    let copy = claim.clone();
    proof {
        lemma_views_push(state.claims@, copy);
    }
    state.claims.push(copy);
    claim
}

/// An accepted claim is recorded without making any two claims collide, and under an id that
/// nothing else has.
pub proof fn law_accepted_claims_keep_the_peace(
    cmd: ClaimCommandModel,
    state: DiskStateModel,
    asker: AskerModel,
    host: HostModel,
    is_timeout: spec_fn(Seq<char>) -> bool,
    timeout: Moment,
    soft_timeout: Option<Moment>,
)
    requires
        all_get_along(state.claims),
        state.highest_id() < u64::MAX,
        claim_decision(cmd, state, asker, host, is_timeout).accepted is Some,
    ensures
        ({
            let accepted = claim_decision(cmd, state, asker, host, is_timeout).accepted->0;
            let claim = new_claim(state, accepted, asker.name, timeout, soft_timeout);
            &&& all_get_along(state.claims.push(claim))
            &&& forall|i: int|
                0 <= i < state.claims.len() ==> (#[trigger] state.claims[i]).id != claim.id
            &&& state.hogger matches Some(hogger) ==> hogger.id != claim.id
            &&& state.last_claim_id < claim.id
        }),
{
    let accepted = claim_decision(cmd, state, asker, host, is_timeout).accepted->0;
    let claim = new_claim(state, accepted, asker.name, timeout, soft_timeout);
    crate::claims::law_a_claim_without_conflicts_keeps_the_peace(state, claim);
    crate::diskstate::law_next_claim_id_is_fresh(state);
}

/// The id of a claim is not given again once the claim has ended: whatever claims and hogger are
/// left, the next claim gets a higher one.
pub proof fn law_ended_claims_keep_their_ids(
    state: DiskStateModel,
    claim: ClaimModel,
    accepted: AcceptedModel,
    me: Seq<char>,
    timeout: Moment,
    soft_timeout: Option<Moment>,
    left: Seq<ClaimModel>,
    hogger: Option<ClaimModel>,
)
    requires
        ({
            let later = DiskStateModel { claims: left, hogger, ..with_claim(state, claim) };
            later.highest_id() < u64::MAX
        }),
    ensures
        ({
            let later = DiskStateModel { claims: left, hogger, ..with_claim(state, claim) };
            new_claim(later, accepted, me, timeout, soft_timeout).id > claim.id
        }),
{
}

/// A claim on boards is exclusive unless it is asked to be shared, and a claim on the host alone is
/// shared unless it is asked to be exclusive.
pub proof fn law_boards_are_claimed_exclusively_by_default(
    cmd: ClaimCommandModel,
    state: DiskStateModel,
    asker: AskerModel,
    host: HostModel,
    is_timeout: spec_fn(Seq<char>) -> bool,
)
    requires
        claim_decision(cmd, state, asker, host, is_timeout).accepted is Some,
    ensures
        ({
            let accepted = claim_decision(cmd, state, asker, host, is_timeout).accepted->0;
            &&& cmd.exclusive ==> accepted.exclusive && !cmd.shared
            &&& cmd.shared ==> !accepted.exclusive
            &&& !cmd.exclusive && !cmd.shared ==> accepted.exclusive == (accepted.specs.len() > 0)
        }),
{
}

/// Without force, an exclusive claim is accepted only on boards that can be protected and that
/// nobody else uses.
pub proof fn law_exclusive_boards_are_guarded_and_free(
    cmd: ClaimCommandModel,
    state: DiskStateModel,
    asker: AskerModel,
    host: HostModel,
    is_timeout: spec_fn(Seq<char>) -> bool,
    spec: FpgaSpecModel,
)
    requires
        claim_decision(cmd, state, asker, host, is_timeout).accepted matches Some(accepted)
            && accepted.exclusive && accepted.specs.contains(spec),
        !cmd.force,
    ensures
        spec.devices.len() > 0 || spec.cables.len() > 0,
        foreign_users(spec, host, asker.uid).len() == 0,
{
    let specs = claim_decision(cmd, state, asker, host, is_timeout).accepted->0.specs;
    let at = choose|i: int| 0 <= i < specs.len() && specs[i] == spec;
    assert(!is_used_by_others(host, asker.uid)(specs[at]));
    lemma_filter_members(specs, is_unenforceable());
    if is_unenforceable()(spec) {
        let bad = specs.filter(is_unenforceable());
        assert(bad.contains(spec));
        let k = choose|k: int| 0 <= k < bad.len() && bad[k] == spec;
        assert(bad.len() > k);
    }
}

/// What came of a claim: the claim if it was recorded, the boards whose cables others are to be cut
/// off from, and what is said.
#[derive(Debug, PartialEq, Eq)]
pub struct ClaimOutcome {
    pub claim: Option<Claim>,
    pub evict: Vec<FpgaSpec>,
    pub out: Vec<String>,
    pub err: Vec<String>,
}

#[verifier::ext_equal]
pub struct ClaimOutcomeModel {
    pub claim: Option<ClaimModel>,
    pub evict: Seq<FpgaSpecModel>,
    pub out: Seq<Seq<char>>,
    pub err: Seq<Seq<char>>,
}

impl View for ClaimOutcome {
    type V = ClaimOutcomeModel;

    open spec fn view(&self) -> ClaimOutcomeModel {
        ClaimOutcomeModel {
            claim: opt_view(self.claim),
            evict: views(self.evict@),
            out: views(self.out@),
            err: views(self.err@),
        }
    }
}

/// What comes of a decision once the timeouts are read, `soft` being None where none was given. A
/// timeout that cannot be read refuses the claim.
pub open spec fn claim_outcome(
    decision: DecisionModel,
    state: DiskStateModel,
    me: Seq<char>,
    force: bool,
    timeout: Result<Moment, Seq<char>>,
    soft: Option<Result<Moment, Seq<char>>>,
) -> ClaimOutcomeModel {
    let refused = ClaimOutcomeModel {
        claim: None,
        evict: Seq::empty(),
        out: decision.out,
        err: decision.err,
    };
    match decision.accepted {
        None => refused,
        Some(accepted) => match timeout {
            Err(why) => ClaimOutcomeModel { err: decision.err.push(why), ..refused },
            Ok(timeout) => match soft {
                Some(Err(why)) => ClaimOutcomeModel { err: decision.err.push(why), ..refused },
                Some(Ok(soft)) => ClaimOutcomeModel {
                    claim: Some(new_claim(state, accepted, me, timeout, Some(soft))),
                    evict: to_evict(accepted, force),
                    ..refused
                },
                None => ClaimOutcomeModel {
                    claim: Some(new_claim(state, accepted, me, timeout, None)),
                    evict: to_evict(accepted, force),
                    ..refused
                },
            },
        },
    }
}

/// Others are cut off the cables of boards that are claimed exclusively by force.
pub open spec fn to_evict(accepted: AcceptedModel, force: bool) -> Seq<FpgaSpecModel> {
    if accepted.exclusive && force {
        accepted.specs
    } else {
        Seq::empty()
    }
}

/// The state with the claim that came of it, if one did.
pub open spec fn with_outcome(state: DiskStateModel, outcome: ClaimOutcomeModel) -> DiskStateModel {
    match outcome.claim {
        Some(claim) => with_claim(state, claim),
        None => state,
    }
}

pub open spec fn opt_told(soft: Option<Result<Moment, String>>) -> Option<
    Result<Moment, Seq<char>>,
> {
    match soft {
        Some(soft) => Some(told(soft)),
        None => None,
    }
}

/// Record a claim that was decided on, from what its timeouts were read as; see [`claim_outcome`].
pub fn finish_claim(
    state: &mut DiskState,
    decision: Decision,
    me: &str,
    force: bool,
    timeout: Result<Moment, String>,
    soft: Option<Result<Moment, String>>,
) -> (outcome: ClaimOutcome)
    requires
        old(state)@.highest_id() < u64::MAX,
    ensures
        outcome@ == claim_outcome(
            decision@,
            old(state)@,
            me@,
            force,
            told(timeout),
            opt_told(soft),
        ),
        final(state)@ == with_outcome(old(state)@, outcome@),
{
    let none: Vec<FpgaSpec> = Vec::new();
    assert(views(none@) =~= Seq::empty());
    let out = decision.out;
    let mut err = decision.err;
    let accepted = match decision.accepted {
        Some(accepted) => accepted,
        None => return ClaimOutcome { claim: None, evict: none, out, err },
    };
    let timeout = match timeout {
        Ok(timeout) => timeout,
        Err(why) => {
            proof {
                lemma_views_push(err@, why);
            }
            err.push(why);
            return ClaimOutcome { claim: None, evict: none, out, err };
        },
    };
    let soft = match soft {
        Some(Ok(soft)) => Some(soft),
        Some(Err(why)) => {
            proof {
                lemma_views_push(err@, why);
            }
            err.push(why);
            return ClaimOutcome { claim: None, evict: none, out, err };
        },
        None => None,
    };
    let claim = record_claim(state, &accepted, me, timeout, soft);
    let evict = if accepted.exclusive && force {
        accepted.specs
    } else {
        none
    };
    ClaimOutcome { claim: Some(claim), evict, out, err }
}

/// `text` reads as a timeout, or does not, as `answer` says, going by the date that is read in it
/// where it is no duration.
pub open spec fn may_read_as(text: Seq<char>, now: Moment, answer: bool) -> bool {
    exists|date: Result<Moment, Seq<char>>|
        {
            &&& answer == (#[trigger] timeout_at(text, now, duration_of(text), date) is Ok)
            &&& duration_of(text) is Err ==> is_date_read(text, date)
        }
}

/// `is_timeout` answers as reading can, for every text that is asked about and that can be read;
/// see [`has_day_offset`].
pub open spec fn can_be_told(
    args: Seq<Seq<char>>,
    known: Seq<Seq<char>>,
    now: Moment,
    is_timeout: spec_fn(Seq<char>) -> bool,
) -> bool {
    forall|text: Seq<char>|
        #[trigger] is_asked(args, known, is_timeout, text) && !has_day_offset(text)
            ==> may_read_as(text, now, is_timeout(text))
}

/// A text that cannot be read is asked about.
pub open spec fn asks_unreadable(
    args: Seq<Seq<char>>,
    known: Seq<Seq<char>>,
    is_timeout: spec_fn(Seq<char>) -> bool,
) -> bool {
    exists|text: Seq<char>| #[trigger] is_asked(args, known, is_timeout, text) && has_day_offset(text)
}

/// A timeout of an accepted claim cannot be read. The soft one is read once the other is.
pub open spec fn has_unreadable_timeout(
    accepted: AcceptedModel,
    soft: Option<Seq<char>>,
    now: Moment,
    date: Result<Moment, Seq<char>>,
) -> bool {
    ||| has_day_offset(accepted.timeout)
    ||| {
        &&& timeout_at(accepted.timeout, now, duration_of(accepted.timeout), date) is Ok
        &&& soft matches Some(soft)
        &&& has_day_offset(soft)
    }
}

/// What comes of a claim where `is_timeout` tells which words read as a timeout and `date` and
/// `soft_date` are the dates that the timeouts name. None if a text has to be read that cannot be;
/// see [`has_day_offset`].
pub open spec fn claim_made(
    cmd: ClaimCommandModel,
    state: DiskStateModel,
    asker: AskerModel,
    host: HostModel,
    is_timeout: spec_fn(Seq<char>) -> bool,
    date: Result<Moment, Seq<char>>,
    soft_date: Result<Moment, Seq<char>>,
) -> Option<ClaimOutcomeModel> {
    let decision = claim_decision(cmd, state, asker, host, is_timeout);
    let timeout = match decision.accepted {
        Some(accepted) => timeout_at(
            accepted.timeout,
            asker.now,
            duration_of(accepted.timeout),
            date,
        ),
        None => Err(Seq::empty()),
    };
    let soft = match cmd.soft_timeout {
        Some(text) => Some(timeout_at(text, asker.now, duration_of(text), soft_date)),
        None => None,
    };
    if asks_unreadable(cmd.args, known_resources(state.settings), is_timeout) {
        None
    } else if decision.accepted matches Some(accepted) && has_unreadable_timeout(
        accepted,
        cmd.soft_timeout,
        asker.now,
        date,
    ) {
        None
    } else {
        Some(claim_outcome(decision, state, asker.name, cmd.force, timeout, soft))
    }
}

/// A command is answered if every text that may have to be read can be.
pub proof fn law_readable_commands_are_answered(
    cmd: ClaimCommandModel,
    state: DiskStateModel,
    asker: AskerModel,
    host: HostModel,
    is_timeout: spec_fn(Seq<char>) -> bool,
    date: Result<Moment, Seq<char>>,
    soft_date: Result<Moment, Seq<char>>,
)
    requires
        forall|text: Seq<char>| #[trigger]
            may_be_asked(cmd.args, known_resources(state.settings), text) ==> !has_day_offset(text),
        cmd.args.len() > 1 ==> !has_day_offset(cmd.args[1]),
        cmd.soft_timeout matches Some(soft) ==> !has_day_offset(soft),
    ensures
        claim_made(cmd, state, asker, host, is_timeout, date, soft_date) is Some,
{
    let known = known_resources(state.settings);
    assert forall|text: Seq<char>| #[trigger]
        is_asked(cmd.args, known, is_timeout, text) implies !has_day_offset(text) by {
        lemma_asked_may_be_asked(cmd.args, known, is_timeout, text);
    }
    if cmd.args.len() > 0 && !names_known_resources(cmd.args[0], known) {
        assert(may_be_asked(cmd.args, known, cmd.args[0]));
    }
}

/// A command that is refused for its first word, its boards or the claims of others is answered
/// whatever its timeouts are, if only its first word can be read.
pub proof fn law_refusals_need_no_timeout(
    cmd: ClaimCommandModel,
    state: DiskStateModel,
    asker: AskerModel,
    host: HostModel,
    is_timeout: spec_fn(Seq<char>) -> bool,
    date: Result<Moment, Seq<char>>,
    soft_date: Result<Moment, Seq<char>>,
)
    requires
        forall|text: Seq<char>| #[trigger]
            may_be_asked(cmd.args, known_resources(state.settings), text) ==> !has_day_offset(text),
        claim_decision(cmd, state, asker, host, is_timeout).accepted is None,
    ensures
        claim_made(cmd, state, asker, host, is_timeout, date, soft_date) matches Some(outcome)
            && outcome.claim is None && with_outcome(state, outcome) == state,
{
    let known = known_resources(state.settings);
    assert forall|text: Seq<char>| #[trigger]
        is_asked(cmd.args, known, is_timeout, text) implies !has_day_offset(text) by {
        lemma_asked_may_be_asked(cmd.args, known, is_timeout, text);
    }
}

proof fn lemma_asked_may_be_asked(
    args: Seq<Seq<char>>,
    known: Seq<Seq<char>>,
    is_timeout: spec_fn(Seq<char>) -> bool,
    text: Seq<char>,
)
    requires
        is_asked(args, known, is_timeout, text),
    ensures
        may_be_asked(args, known, text),
{
    if names_known_resources(args[0], known) {
        let named = resource_list(args[0]);
        let k = choose|k: int|
            0 <= k < named.len() && k <= first_where(named, is_ambiguous(is_timeout)) && alias_of(
                #[trigger] named[k],
            ) == Some(text);
        assert(named[k] == ResourceModel::Fpga(text));
    }
}

/// Only `hit` reads as a timeout.
spec fn reads_only(hit: Option<Seq<char>>) -> spec_fn(Seq<char>) -> bool {
    |text: Seq<char>| hit == Some(text)
}

/// `text` is the one that reads as a timeout.
spec fn reads_as_hit(hit: &Option<String>, text: Seq<char>) -> bool {
    reads_only(opt_view(*hit))(text)
}

fn is_hit(hit: &Option<String>, text: &str) -> (yes: bool)
    ensures
        yes == reads_as_hit(hit, text@),
{
    match hit {
        Some(hit) => same_text(hit.as_str(), text),
        None => false,
    }
}

/// Of the texts that are asked about, the one that reads as a timeout, if one does. None if one of
/// them cannot be read.
fn find_timeout(args: &[String], known: &[String], now: Moment) -> (found: Option<Option<String>>)
    requires
        now.wf(),
        now.secs < LAST_SECOND - LONGEST_WRITTEN_SECONDS,
    ensures
        match found {
            Some(hit) => {
                let f = reads_only(opt_view(hit));
                can_be_told(views(args@), views(known@), now, f) && !asks_unreadable(
                    views(args@),
                    views(known@),
                    f,
                )
            },
            None => exists|f: spec_fn(Seq<char>) -> bool|
                #[trigger] can_be_told(views(args@), views(known@), now, f) && asks_unreadable(
                    views(args@),
                    views(known@),
                    f,
                ),
        },
{
    let ghost a = views(args@);
    let ghost k = views(known@);
    assert(a.len() == args@.len());
    if args.len() == 0 {
        return Some(None);
    }
    let first = args[0].as_str();
    let named = ResourceId::parse_list(first);
    let ghost list = views(named@);
    assert(list.len() == named@.len());
    if named.len() > 0 && all_known(&named, known) {
        assert(names_known_resources(a[0], k));
        for i in 0..named.len()
            invariant
                a == views(args@),
                k == views(known@),
                a.len() > 0,
                list == views(named@),
                list == resource_list(a[0]),
                names_known_resources(a[0], k),
                now.wf(),
                now.secs < LAST_SECOND - LONGEST_WRITTEN_SECONDS,
                forall|j: int|
                    0 <= j < i ==> (alias_of(#[trigger] list[j]) matches Some(alias) ==> may_read_as(
                        alias,
                        now,
                        false,
                    ) && !has_day_offset(alias)),
        {
            if let Some(alias) = named[i].alias() {
                assert(list[i as int] == ResourceModel::Fpga(alias@));
                let ghost f = reads_only(Some(alias@));
                proof {
                    law_resource_lists_are_distinct(a[0]);
                    let pred = is_ambiguous(f);
                    assert forall|j: int| 0 <= j < i implies !pred(#[trigger] list[j]) by {
                        assert(list[j] != list[i as int]);
                    }
                    assert(pred(list[i as int]));
                    lemma_first_where_is(list, pred, i as int);
                    assert forall|text: Seq<char>| #[trigger]
                        is_asked(a, k, f, text) implies text == alias@ || (!f(text) && may_read_as(
                        text,
                        now,
                        false,
                    ) && !has_day_offset(text)) by {
                        let m = choose|m: int|
                            0 <= m < list.len() && m <= first_where(list, pred) && alias_of(
                                #[trigger] list[m],
                            ) == Some(text);
                        if m < i {
                            assert(!pred(list[m]));
                        }
                    }
                    assert(is_asked(a, k, f, alias@)) by {
                        assert(alias_of(list[i as int]) == Some(alias@));
                    }
                }
                if !offset_is_possible(alias) {
                    assert(can_be_told(a, k, now, f));
                    assert(asks_unreadable(a, k, f));
                    return None;
                }
                if try_parse_timeout(alias, now).is_ok() {
                    assert(can_be_told(a, k, now, f));
                    return Some(Some(alias.to_string()));
                }
            }
        }
        proof {
            let f = reads_only(None);
            let pred = is_ambiguous(f);
            lemma_first_where_is(list, pred, list.len() as int);
            assert forall|text: Seq<char>| #[trigger] is_asked(a, k, f, text) implies may_read_as(
                text,
                now,
                f(text),
            ) && !has_day_offset(text) by {
                let m = choose|m: int|
                    0 <= m < list.len() && m <= first_where(list, pred) && alias_of(
                        #[trigger] list[m],
                    ) == Some(text);
                assert(alias_of(list[m]) == Some(text));
            }
        }
        return Some(None);
    }
    assert(!names_known_resources(a[0], k));
    if !offset_is_possible(first) {
        proof {
            let f = reads_only(Some(a[0]));
            assert(is_asked(a, k, f, a[0]));
            assert(can_be_told(a, k, now, f));
        }
        return None;
    }
    let answer = try_parse_timeout(first, now).is_ok();
    assert(may_read_as(a[0], now, answer));
    if answer {
        Some(Some(args[0].clone()))
    } else {
        Some(None)
    }
}

/// Claim resources: decide, read the timeouts, and record the claim. Which dates the timeouts name
/// depends on the clock and the time zone; whatever they are, this is what comes of it. None, with
/// nothing changed, if a text has to be read that cannot be; see [`has_day_offset`].
pub fn do_claim(cmd: &ClaimCommand, state: &mut DiskState, asker: &Asker, host: &Host) -> (outcome:
    Option<ClaimOutcome>)
    requires
        old(state)@.highest_id() < u64::MAX,
        old(state)@.wf(),
        asker.now.wf(),
        asker.now.secs < LAST_SECOND - LONGEST_WRITTEN_SECONDS,
    ensures
        final(state)@ == match outcome {
            Some(outcome) => with_outcome(old(state)@, outcome@),
            None => old(state)@,
        },
        final(state)@.wf(),
        exists|
            f: spec_fn(Seq<char>) -> bool,
            date: Result<Moment, Seq<char>>,
            soft_date: Result<Moment, Seq<char>>,
        |
            {
                &&& opt_view(outcome) == #[trigger] claim_made(
                    cmd@,
                    old(state)@,
                    asker@,
                    host@,
                    f,
                    date,
                    soft_date,
                )
                &&& can_be_told(cmd@.args, known_resources(old(state)@.settings), asker@.now, f)
            },
        outcome matches Some(outcome) ==> (outcome@.claim matches Some(claim) ==> {
            let first = names_known_resources(
                cmd@.args[0],
                known_resources(old(state)@.settings),
            );
            &&& is_timeout_of(cmd@.args[if first { 1 } else { 0 }], asker@.now, claim.timeout)
            &&& match cmd@.soft_timeout {
                Some(text) => claim.soft_timeout matches Some(soft) && is_timeout_of(
                    text,
                    asker@.now,
                    soft,
                ),
                None => claim.soft_timeout is None,
            }
        }),
{
    let ghost before = state@;
    let now = asker.now;
    let ghost known_all = known_resources(before.settings);
    let ghost unread: Result<Moment, Seq<char>> = Err(Seq::empty());
    let known = known_names(state);
    let hit = match find_timeout(&cmd.args, &known, now) {
        Some(hit) => hit,
        None => {
            proof {
                let f = choose|f: spec_fn(Seq<char>) -> bool|
                    #[trigger] can_be_told(cmd@.args, known_all, now, f) && asks_unreadable(
                        cmd@.args,
                        known_all,
                        f,
                    );
                assert(claim_made(cmd@, before, asker@, host@, f, unread, unread) is None);
            }
            return None;
        },
    };
    let ghost f = reads_only(opt_view(hit));
    let only = &hit;
    let ask = |text: &str| -> (answer: bool)
        ensures
            answer == reads_as_hit(only, text@),
        { is_hit(only, text) };
    assert(describes(ask, f));
    let decision = decide_claim(cmd, state, asker, host, ask);
    assert(decision@ == claim_decision(cmd@, before, asker@, host@, f));
    let ghost mut date = unread;
    let ghost mut soft_date = unread;
    let mut timeout: Result<Moment, String> = Err(String::new());
    let mut soft: Option<Result<Moment, String>> = None;
    assert(told(timeout) == Err::<Moment, Seq<char>>(Seq::empty()));
    if let Some(accepted) = &decision.accepted {
        if !offset_is_possible(accepted.timeout.as_str()) {
            assert(claim_made(cmd@, before, asker@, host@, f, unread, unread) is None);
            return None;
        }
        timeout = try_parse_timeout(accepted.timeout.as_str(), now);
        proof {
            let text = accepted@.timeout;
            date = choose|date: Result<Moment, Seq<char>>| #[trigger]
                timeout_at(text, now, duration_of(text), date) == told(timeout);
        }
        if timeout.is_ok() {
            if let Some(text) = &cmd.soft_timeout {
                if !offset_is_possible(text.as_str()) {
                    assert(claim_made(cmd@, before, asker@, host@, f, date, unread) is None);
                    return None;
                }
                let read = try_parse_timeout(text.as_str(), now);
                proof {
                    soft_date = choose|date: Result<Moment, Seq<char>>| #[trigger]
                        timeout_at(text@, now, duration_of(text@), date) == told(read);
                }
                soft = Some(read);
            }
        }
    }
    let outcome = finish_claim(state, decision, asker.name.as_str(), cmd.force, timeout, soft);
    assert(Some(outcome@) == claim_made(cmd@, before, asker@, host@, f, date, soft_date));
    Some(outcome)
}

/// A moment later by a minute and a second. Jobs are queued for whole minutes, so one that is due
/// in this very minute has to be put into the next.
pub fn next_minute(timeout: Moment) -> (later: Moment)
    requires
        timeout.wf(),
        timeout.secs + 61 <= LAST_SECOND,
    ensures
        later == seconds_after(timeout, 61),
        later.wf(),
{
    seconds_later(timeout, 61)
}

/// A job that is to be queued.
#[derive(Debug, PartialEq, Eq)]
pub struct Job {
    pub at: Moment,
    pub command: String,
    pub warning: Option<String>,
}

pub open spec fn maintenance_command(binary: Seq<char>) -> Seq<char> {
    binary + " maintenance 2>&1 | logger -t fpgahog"@
}

pub open spec fn build_output_warning(binary: Seq<char>) -> Seq<char> {
    "WARN: the job below runs "@ + binary
        + ", a build output. If it is gone by then, the claim is not ended on time. Install with `just install`."@
}

/// The job that runs maintenance once `timeout` has passed. Its output goes to the journal.
pub fn schedule_maintenance(timeout: Moment, binary: &str) -> (job: Job)
    requires
        timeout.wf(),
        timeout.secs + 61 <= LAST_SECOND,
    ensures
        job.at == seconds_after(timeout, 61),
        job.command@ == maintenance_command(binary@),
        opt_view(job.warning) == if passes_build_output(binary@) {
            Some(build_output_warning(binary@))
        } else {
            None
        },
{
    let mut command = binary.to_string();
    command.append(" maintenance 2>&1 | logger -t fpgahog");
    let warning = if is_build_output(binary) {
        let mut warning = "WARN: the job below runs ".to_string();
        warning.append(binary);
        warning.append(
            ", a build output. If it is gone by then, the claim is not ended on time. Install with `just install`.",
        );
        Some(warning)
    } else {
        None
    };
    Job { at: next_minute(timeout), command, warning }
}

/// What is said of a claim that was recorded; `until` is its timeout as it is shown.
pub open spec fn claimed_message(claim: ClaimModel, until: Seq<char>) -> Seq<char> {
    "Claimed "@ + resource_names(claim.resources) + " until "@ + until + " ("@
        + crate::claims::kind_phrase(claim.exclusive) + ")"@ + crate::claims::comment_phrase(
        claim.comment,
    )
}

/// What is said of a new claim that lasts `until`.
pub fn claimed_line(claim: &Claim, until: &str) -> (line: String)
    ensures
        line@ == claimed_message(claim@, until@),
{
    let mut line = "Claimed ".to_string();
    line.append(claim.resources_str().as_str());
    line.append(" until ");
    line.append(until);
    line.append(" (");
    line.append(crate::claims::kind_text(claim.exclusive).as_str());
    line.append(")");
    line.append(crate::claims::describe(claim).as_str());
    line
}

} // verus!
