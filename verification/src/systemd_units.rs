//! The systemd units that a hog stops and a release starts again.
use vstd::prelude::*;
use crate::diskstate::{DiskState, DiskStateModel};
use crate::seqs::{
    lemma_filter_members, lemma_filter_next, lemma_take_all, lemma_take_next, lemma_views_push,
    lemma_with_new, somes, views, with_new,
};
use crate::text::{is_among, join, joined};

verus! {

/// The unit that a hog stops besides all timers.
pub const DISABLED_SERVICE: &'static str = "xrdp.service";

/// What the timers are asked for by.
pub const TIMER_PATTERN: &'static str = "*.timer";

/// Why a unit could not be stopped or started.
#[derive(Debug, PartialEq, Eq)]
pub enum UnitError {
    AccessDenied,
    Other(String),
}

#[verifier::ext_equal]
pub enum UnitErrorModel {
    AccessDenied,
    Other(Seq<char>),
}

impl View for UnitError {
    type V = UnitErrorModel;

    open spec fn view(&self) -> UnitErrorModel {
        match self {
            UnitError::AccessDenied => UnitErrorModel::AccessDenied,
            UnitError::Other(why) => UnitErrorModel::Other(why@),
        }
    }
}

/// What came of asking systemd to stop or start a unit.
#[derive(Debug, PartialEq, Eq)]
pub struct UnitResult {
    pub name: String,
    pub failure: Option<UnitError>,
}

#[verifier::ext_equal]
pub struct UnitResultModel {
    pub name: Seq<char>,
    pub failure: Option<UnitErrorModel>,
}

impl View for UnitResult {
    type V = UnitResultModel;

    open spec fn view(&self) -> UnitResultModel {
        UnitResultModel {
            name: self.name@,
            failure: match self.failure {
                Some(failure) => Some(failure@),
                None => None,
            },
        }
    }
}

/// What is said of a unit that did not do as it was asked; `verb` is what it was asked.
pub open spec fn failure_phrase(verb: Seq<char>, name: Seq<char>, failure: UnitErrorModel) -> Seq<
    char,
> {
    match failure {
        UnitErrorModel::AccessDenied => "WARN: insufficient permissions to "@ + verb + " "@ + name
            + "; run as root"@,
        UnitErrorModel::Other(why) => "WARN: cannot "@ + verb + " "@ + name + ": "@ + why,
    }
}

pub open spec fn to_done() -> spec_fn(UnitResultModel) -> Option<Seq<char>> {
    |result: UnitResultModel|
        if result.failure is None {
            Some(result.name)
        } else {
            None
        }
}

pub open spec fn to_failed() -> spec_fn(UnitResultModel) -> Option<Seq<char>> {
    |result: UnitResultModel|
        if result.failure is Some {
            Some(result.name)
        } else {
            None
        }
}

pub open spec fn to_failure_line(verb: Seq<char>) -> spec_fn(UnitResultModel) -> Option<Seq<char>> {
    |result: UnitResultModel|
        match result.failure {
            Some(failure) => Some(failure_phrase(verb, result.name, failure)),
            None => None,
        }
}

/// The units that did as they were asked.
pub open spec fn done_units(results: Seq<UnitResultModel>) -> Seq<Seq<char>> {
    somes(results.map_values(to_done()))
}

/// The units that did not.
pub open spec fn failed_units(results: Seq<UnitResultModel>) -> Seq<Seq<char>> {
    somes(results.map_values(to_failed()))
}

/// What is said if some units did not do as they were asked.
pub open spec fn units_result(verb: Seq<char>, results: Seq<UnitResultModel>) -> Result<
    (),
    Seq<char>,
> {
    let failed = failed_units(results);
    if failed.len() == 0 {
        Ok(())
    } else {
        Err("could not "@ + verb + " "@ + join(failed, ", "@))
    }
}

/// The units that are left to be started.
pub open spec fn is_not_started(started: Seq<Seq<char>>) -> spec_fn(Seq<char>) -> bool {
    |unit: Seq<char>| !started.contains(unit)
}

fn done_names(results: &[UnitResult]) -> (out: Vec<String>)
    ensures
        views(out@) == done_units(views(results@)),
{
    let ghost all = views(results@);
    let mut out: Vec<String> = Vec::new();
    assert(views(out@) =~= somes(all.take(0).map_values(to_done())));
    for i in 0..results.len()
        invariant
            all == views(results@),
            views(out@) == somes(all.take(i as int).map_values(to_done())),
    {
        proof {
            crate::seqs::lemma_somes_next(all, i as int, to_done());
        }
        if results[i].failure.is_none() {
            let name = results[i].name.clone();
            proof {
                lemma_views_push(out@, name);
            }
            out.push(name);
        }
    }
    proof {
        lemma_take_all(all);
    }
    out
}

fn failed_names(results: &[UnitResult]) -> (out: Vec<String>)
    ensures
        views(out@) == failed_units(views(results@)),
{
    let ghost all = views(results@);
    let mut out: Vec<String> = Vec::new();
    assert(views(out@) =~= somes(all.take(0).map_values(to_failed())));
    for i in 0..results.len()
        invariant
            all == views(results@),
            views(out@) == somes(all.take(i as int).map_values(to_failed())),
    {
        proof {
            crate::seqs::lemma_somes_next(all, i as int, to_failed());
        }
        if results[i].failure.is_some() {
            let name = results[i].name.clone();
            proof {
                lemma_views_push(out@, name);
            }
            out.push(name);
        }
    }
    proof {
        lemma_take_all(all);
    }
    out
}

/// One warning for each unit that did not do as it was asked.
pub fn failure_lines(verb: &str, results: &[UnitResult]) -> (out: Vec<String>)
    ensures
        views(out@) == somes(views(results@).map_values(to_failure_line(verb@))),
{
    let ghost all = views(results@);
    let ghost f = to_failure_line(verb@);
    let mut out: Vec<String> = Vec::new();
    assert(views(out@) =~= somes(all.take(0).map_values(f)));
    for i in 0..results.len()
        invariant
            all == views(results@),
            f == to_failure_line(verb@),
            views(out@) == somes(all.take(i as int).map_values(f)),
    {
        proof {
            crate::seqs::lemma_somes_next(all, i as int, f);
        }
        if let Some(failure) = &results[i].failure {
            let name = results[i].name.as_str();
            let line = match failure {
                UnitError::AccessDenied => {
                    let mut line = "WARN: insufficient permissions to ".to_string();
                    line.append(verb);
                    line.append(" ");
                    line.append(name);
                    line.append("; run as root");
                    line
                },
                UnitError::Other(why) => {
                    let mut line = "WARN: cannot ".to_string();
                    line.append(verb);
                    line.append(" ");
                    line.append(name);
                    line.append(": ");
                    line.append(why.as_str());
                    line
                },
            };
            proof {
                lemma_views_push(out@, line);
            }
            out.push(line);
        }
    }
    proof {
        lemma_take_all(all);
    }
    out
}

fn overall(verb: &str, results: &[UnitResult]) -> (out: Result<(), String>)
    ensures
        crate::clock::told(out) == units_result(verb@, views(results@)),
{
    let failed = failed_names(results);
    assert(views(failed@).len() == failed@.len());
    if failed.len() == 0 {
        return Ok(());
    }
    let mut why = "could not ".to_string();
    why.append(verb);
    why.append(" ");
    why.append(joined(&failed, ", ").as_str());
    Err(why)
}

/// Write down which units a hog stopped, so that a release starts them again. Failures are told,
/// never fatal: the host is hogged already.
pub fn disable_resource(state: &mut DiskState, results: &[UnitResult]) -> (out: Result<(), String>)
    ensures
        final(state)@ == (DiskStateModel {
            disabled_systemd_units: with_new(
                old(state)@.disabled_systemd_units,
                done_units(views(results@)),
            ),
            ..old(state)@
        }),
        crate::clock::told(out) == units_result("stop"@, views(results@)),
{
    let stopped = done_names(results);
    let ghost before = state@;
    let ghost names = views(stopped@);
    assert(names.take(0) =~= Seq::empty());
    for i in 0..stopped.len()
        invariant
            names == views(stopped@),
            state@ == (DiskStateModel {
                disabled_systemd_units: with_new(
                    before.disabled_systemd_units,
                    names.take(i as int),
                ),
                ..before
            }),
    {
        proof {
            lemma_take_next(names, i as int);
        }
        if !is_among(stopped[i].as_str(), &state.disabled_systemd_units) {
            let name = stopped[i].clone();
            proof {
                lemma_views_push(state.disabled_systemd_units@, name);
            }
            state.disabled_systemd_units.push(name);
        }
    }
    proof {
        lemma_take_all(names);
    }
    overall("stop", results)
}

/// Forget the units that were started again. Those that failed stay recorded, so that a later
/// release retries them.
pub fn enable_resource(state: &mut DiskState, results: &[UnitResult]) -> (out: Result<(), String>)
    ensures
        final(state)@ == (DiskStateModel {
            disabled_systemd_units: old(state)@.disabled_systemd_units.filter(
                is_not_started(done_units(views(results@))),
            ),
            ..old(state)@
        }),
        crate::clock::told(out) == units_result("start"@, views(results@)),
{
    let started = done_names(results);
    let ghost pred = is_not_started(views(started@));
    let ghost all = state@.disabled_systemd_units;
    let total: usize = state.disabled_systemd_units.len();
    let mut left: Vec<String> = Vec::new();
    proof {
        reveal(Seq::filter);
        assert(views(left@) =~= all.take(0).filter(pred));
    }
    for i in 0..total
        invariant
            pred == is_not_started(views(started@)),
            all == views(state.disabled_systemd_units@),
            total == state.disabled_systemd_units@.len(),
            views(left@) == all.take(i as int).filter(pred),
    {
        proof {
            lemma_filter_next(all, i as int, pred);
        }
        if !is_among(state.disabled_systemd_units[i].as_str(), &started) {
            let name = state.disabled_systemd_units[i].clone();
            proof {
                lemma_views_push(left@, name);
            }
            left.push(name);
        }
    }
    proof {
        lemma_take_all(all);
    }
    state.disabled_systemd_units = left;
    overall("start", results)
}

/// Every unit that was stopped is recorded, and stays so until it has been started: a unit that is
/// still recorded after a release is exactly one that was recorded before and not started.
pub proof fn law_stopped_units_stay_recorded_until_started(
    units: Seq<Seq<char>>,
    stopped: Seq<Seq<char>>,
    started: Seq<Seq<char>>,
    unit: Seq<char>,
)
    ensures
        stopped.contains(unit) ==> with_new(units, stopped).contains(unit),
        units.contains(unit) ==> with_new(units, stopped).contains(unit),
        units.filter(is_not_started(started)).contains(unit) <==> units.contains(unit)
            && !started.contains(unit),
{
    lemma_with_new(units, stopped);
    lemma_filter_members(units, is_not_started(started));
}

} // verus!
