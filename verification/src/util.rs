//! Paths and small texts that several parts share.
use vstd::prelude::*;
use crate::clock::{
    clock_time, is_clock_time, nanos_between, num_days, num_hours, num_minutes, num_weeks,
    span_between, toward_zero, Moment, Span,
};
use crate::seqs::{lemma_filter_next, lemma_take_all, lemma_views_push, views};
use crate::text::{cut_text, pieces, same_text, signed_decimal, signed_decimal_text, Cut};

verus! {

/// The directory that holds the state.
pub const STATE_PATH: &'static str = "/var/lib/fpgahog";

/// Where an installed program lies, below [`STATE_PATH`].
pub const INSTALLED_NAME: &'static str = "/pkg/bin/fpgahog";

pub open spec fn magnitude(n: int) -> int {
    if n < 0 {
        -n
    } else {
        n
    }
}

/// A number of seconds in one unit. The unit goes by the magnitude and the sign is kept, so that
/// a claim past its timeout reads as "-2h".
pub open spec fn duration_phrase(secs: int) -> Seq<char> {
    let size = magnitude(secs);
    if size < 60 {
        signed_decimal(secs) + "s"@
    } else if size < 60 * 60 {
        signed_decimal(toward_zero(secs, 60)) + "m"@
    } else if size < 24 * 60 * 60 {
        signed_decimal(toward_zero(secs, 3600)) + "h"@
    } else if size < 7 * 24 * 60 * 60 {
        signed_decimal(toward_zero(secs, 86_400)) + "d"@
    } else if size < 365 * 24 * 60 * 60 {
        signed_decimal(toward_zero(secs, 604_800)) + "w"@
    } else {
        signed_decimal(toward_zero(toward_zero(secs, 86_400), 365)) + "y"@
    }
}

/// What is left until `timeout` at `now`.
pub open spec fn time_left(timeout: Moment, now: Moment) -> Seq<char> {
    duration_phrase(toward_zero(nanos_between(timeout, now), 1_000_000_000))
}

fn with_unit(n: i64, unit: &str) -> (out: String)
    ensures
        out@ == signed_decimal(n as int) + unit@,
{
    let mut out = signed_decimal_text(n);
    out.append(unit);
    out
}

/// A length of time in its largest whole unit, with its sign.
pub fn format_timeout(duration: Span) -> (out: String)
    requires
        duration.wf(),
    ensures
        out@ == duration_phrase(duration.secs as int),
{
    let seconds: i64 = if duration.secs < 0 {
        -duration.secs
    } else {
        duration.secs
    };
    if seconds < 60 {
        return with_unit(duration.secs, "s");
    }
    if seconds < 60 * 60 {
        return with_unit(num_minutes(duration), "m");
    }
    if seconds < 24 * 60 * 60 {
        return with_unit(num_hours(duration), "h");
    }
    if seconds < 7 * 24 * 60 * 60 {
        return with_unit(num_days(duration), "d");
    }
    if seconds < 365 * 24 * 60 * 60 {
        return with_unit(num_weeks(duration), "w");
    }
    let days: i64 = num_days(duration);
    let years: i64 = if days < 0 {
        -((-days) / 365)
    } else {
        days / 365
    };
    with_unit(years, "y")
}

/// What is left until `timeout` at `now`; see [`time_left`].
pub fn format_timeout_at(timeout: Moment, now: Moment) -> (out: String)
    requires
        timeout.wf(),
        now.wf(),
    ensures
        out@ == time_left(timeout, now),
{
    let span = span_between(timeout, now);
    assert(span.secs == toward_zero(nanos_between(timeout, now), 1_000_000_000));
    format_timeout(span)
}

/// What is left until `timeout` by the clock.
pub fn format_timeout_abs(timeout: Moment) -> (out: String)
    requires
        timeout.wf(),
    ensures
        exists|now: Moment|
            now.wf() && is_clock_time(now) && out@ == #[trigger] time_left(timeout, now),
{
    let now = clock_time();
    format_timeout_at(timeout, now)
}

/// Where an installed program lies: it stays there when the running one is rebuilt.
pub open spec fn installed_path() -> Seq<char> {
    STATE_PATH@ + INSTALLED_NAME@
}

/// Where an installed copy of the program lies.
pub fn installed_binary() -> (path: String)
    ensures
        path@ == installed_path(),
{
    let mut path = STATE_PATH.to_string();
    path.append(INSTALLED_NAME);
    path
}

/// The program that runs later, from a queued job or at a locked-out user's login. The running
/// one may be gone by then, so an installed one wins whenever there is one.
pub fn command_for_later(installed: &str, is_installed: bool, running: &str) -> (path: String)
    ensures
        path@ == if is_installed {
            installed@
        } else {
            running@
        },
{
    if is_installed {
        installed.to_string()
    } else {
        running.to_string()
    }
}

/// The program that runs later, given whether there is one at [`installed_binary`].
pub fn prog_for_later(is_installed: bool, running: &str) -> (path: String)
    ensures
        path@ == if is_installed {
            installed_path()
        } else {
            running@
        },
{
    command_for_later(installed_binary().as_str(), is_installed, running)
}

pub open spec fn is_step() -> spec_fn(Seq<char>) -> bool {
    |part: Seq<char>| part.len() > 0 && part != "."@
}

/// The names along `path`: neither doubled slashes nor single dots count.
pub open spec fn path_steps(path: Seq<char>) -> Seq<Seq<char>> {
    pieces(path, Cut::At('/')).filter(is_step())
}

/// Whether `path` passes through a cargo build directory.
pub open spec fn passes_build_output(path: Seq<char>) -> bool {
    let steps = path_steps(path);
    exists|i: int|
        0 <= i < steps.len() - 1 && #[trigger] steps[i] == "target"@ && (steps[i + 1]
            == "release"@ || steps[i + 1] == "debug"@)
}

fn steps_of(path: &str) -> (steps: Vec<String>)
    ensures
        views(steps@) == path_steps(path@),
{
    let parts = cut_text(path, Cut::At('/'));
    let mut steps: Vec<String> = Vec::new();
    proof {
        reveal(Seq::filter);
        assert(views(steps@) =~= views(parts@).take(0).filter(is_step()));
    }
    for i in 0..parts.len()
        invariant
            views(steps@) == views(parts@).take(i as int).filter(is_step()),
    {
        proof {
            lemma_filter_next(views(parts@), i as int, is_step());
        }
        if !parts[i].as_str().is_empty() && !same_text(parts[i].as_str(), ".") {
            let part = parts[i].clone();
            proof {
                lemma_views_push(steps@, part);
            }
            steps.push(part);
        }
    }
    proof {
        lemma_take_all(views(parts@));
    }
    steps
}

/// Whether `path` sits in a cargo build directory.
pub fn is_build_output(path: &str) -> (yes: bool)
    ensures
        yes == passes_build_output(path@),
{
    let steps = steps_of(path);
    let ghost model = path_steps(path@);
    let total: usize = steps.len();
    let mut i: usize = 1;
    while i < total
        invariant
            total == steps@.len(),
            1 <= i,
            views(steps@) == model,
            model == path_steps(path@),
            forall|j: int|
                0 <= j < i - 1 && j < total - 1 ==> !(#[trigger] model[j] == "target"@ && (model[j
                    + 1] == "release"@ || model[j + 1] == "debug"@)),
        decreases total - i,
    {
        assert(model[i - 1] == steps@[i - 1]@ && model[i as int] == steps@[i as int]@);
        if same_text(steps[i - 1].as_str(), "target") && (same_text(steps[i].as_str(), "release")
            || same_text(steps[i].as_str(), "debug")) {
            return true;
        }
        i = i + 1;
    }
    false
}

} // verus!
