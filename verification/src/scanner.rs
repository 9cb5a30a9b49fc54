//! The course of a scan: its phases, the events that move it on, what is
//! to be done at each step, and the status it ends with.

use vstd::prelude::*;
use vstd::string::StringExecFns;
use crate::text::{chars_to_string, string_chars};
use crate::types::string_views;

verus! {

/// Where a scan stands.
#[derive(Debug, Clone, Copy, PartialEq, Eq, Structural)]
pub enum ScanPhase {
    /// No scan is under way.
    Idle,
    /// The cache and the pattern lists are loaded, the root is checked.
    Loading,
    /// The directory walk runs.
    Enumerating,
    /// The walk was cancelled; the cache is cleaned up against what it found.
    CleaningUp,
    /// The per-file stage runs.
    Computing,
    /// The cleanup and the changed entries are stored in one transaction.
    Committing,
    /// The scan ended with a tree.
    Completed,
    /// The scan ended because it was cancelled.
    Cancelled,
    /// The scan ended with an error.
    Failed,
}

/// What happened since the last step.
#[derive(Debug, Clone, Copy, PartialEq, Eq, Structural)]
pub enum ScanEvent {
    /// A scan is asked for.
    Start,
    /// The inputs are loaded; `root_is_dir` says whether the root is a directory.
    InputsReady { root_is_dir: bool },
    /// The store could not be read.
    StoreFailed,
    /// The walk returned; `cancelled` is the cancellation signal at that moment.
    EnumerationFinished { cancelled: bool },
    /// The per-file stage returned; `cancelled` says whether it saw the signal.
    StatsFinished { cancelled: bool },
    /// The transaction was committed.
    CommitSucceeded,
    /// The transaction failed and was rolled back.
    CommitFailed,
    /// The outcome was taken note of.
    Acknowledged,
}

/// What is to be done next.
#[derive(Debug, Clone, Copy, PartialEq, Eq, Structural)]
pub enum ScanAction {
    /// Nothing: the event does not belong to the phase.
    Nothing,
    /// Clear the cancellation signal, load the cache and the pattern lists, check the root.
    LoadInputs,
    /// Compile the patterns and walk the tree.
    Traverse,
    /// Store a cleanup of the cache against the candidates found so far, nothing else.
    PersistCleanupOnly,
    /// Run the per-file stage.
    ComputeStats,
    /// Store the cleanup and the changed entries in one transaction.
    PersistAll,
    /// Build the tree and report the status `done`.
    ReportDone,
    /// Report the status `cancelled`.
    ReportCancelled,
    /// Report the status `failed`, with the message.
    ReportFailed,
}

/// The phase that follows a phase on an event, and what is to be done.
pub open spec fn transition(phase: ScanPhase, event: ScanEvent) -> (ScanPhase, ScanAction) {
    match (phase, event) {
        (ScanPhase::Idle, ScanEvent::Start) => (ScanPhase::Loading, ScanAction::LoadInputs),
        (ScanPhase::Loading, ScanEvent::InputsReady { root_is_dir }) => if root_is_dir {
            (ScanPhase::Enumerating, ScanAction::Traverse)
        } else {
            (ScanPhase::Failed, ScanAction::ReportFailed)
        },
        (ScanPhase::Loading, ScanEvent::StoreFailed) => (ScanPhase::Failed, ScanAction::ReportFailed),
        (ScanPhase::Enumerating, ScanEvent::EnumerationFinished { cancelled }) => if cancelled {
            (ScanPhase::CleaningUp, ScanAction::PersistCleanupOnly)
        } else {
            (ScanPhase::Computing, ScanAction::ComputeStats)
        },
        (ScanPhase::CleaningUp, ScanEvent::CommitSucceeded) => (
            ScanPhase::Cancelled,
            ScanAction::ReportCancelled,
        ),
        (ScanPhase::CleaningUp, ScanEvent::CommitFailed) => (ScanPhase::Failed, ScanAction::ReportFailed),
        (ScanPhase::Computing, ScanEvent::StatsFinished { cancelled }) => if cancelled {
            (ScanPhase::Cancelled, ScanAction::ReportCancelled)
        } else {
            (ScanPhase::Committing, ScanAction::PersistAll)
        },
        (ScanPhase::Committing, ScanEvent::CommitSucceeded) => (
            ScanPhase::Completed,
            ScanAction::ReportDone,
        ),
        (ScanPhase::Committing, ScanEvent::CommitFailed) => (ScanPhase::Failed, ScanAction::ReportFailed),
        (ScanPhase::Completed, ScanEvent::Acknowledged) => (ScanPhase::Idle, ScanAction::Nothing),
        (ScanPhase::Cancelled, ScanEvent::Acknowledged) => (ScanPhase::Idle, ScanAction::Nothing),
        (ScanPhase::Failed, ScanEvent::Acknowledged) => (ScanPhase::Idle, ScanAction::Nothing),
        _ => (phase, ScanAction::Nothing),
    }
}

/// Moves a scan on by one event.
pub fn advance(phase: ScanPhase, event: ScanEvent) -> (next: (ScanPhase, ScanAction))
    ensures
        next == transition(phase, event),
{
    match (phase, event) {
        (ScanPhase::Idle, ScanEvent::Start) => (ScanPhase::Loading, ScanAction::LoadInputs),
        (ScanPhase::Loading, ScanEvent::InputsReady { root_is_dir }) => {
            if root_is_dir {
                (ScanPhase::Enumerating, ScanAction::Traverse)
            } else {
                (ScanPhase::Failed, ScanAction::ReportFailed)
            }
        },
        (ScanPhase::Loading, ScanEvent::StoreFailed) => (ScanPhase::Failed, ScanAction::ReportFailed),
        (ScanPhase::Enumerating, ScanEvent::EnumerationFinished { cancelled }) => {
            if cancelled {
                (ScanPhase::CleaningUp, ScanAction::PersistCleanupOnly)
            } else {
                (ScanPhase::Computing, ScanAction::ComputeStats)
            }
        },
        (ScanPhase::CleaningUp, ScanEvent::CommitSucceeded) => (
            ScanPhase::Cancelled,
            ScanAction::ReportCancelled,
        ),
        (ScanPhase::CleaningUp, ScanEvent::CommitFailed) => (ScanPhase::Failed, ScanAction::ReportFailed),
        (ScanPhase::Computing, ScanEvent::StatsFinished { cancelled }) => {
            if cancelled {
                (ScanPhase::Cancelled, ScanAction::ReportCancelled)
            } else {
                (ScanPhase::Committing, ScanAction::PersistAll)
            }
        },
        (ScanPhase::Committing, ScanEvent::CommitSucceeded) => (
            ScanPhase::Completed,
            ScanAction::ReportDone,
        ),
        (ScanPhase::Committing, ScanEvent::CommitFailed) => (ScanPhase::Failed, ScanAction::ReportFailed),
        (ScanPhase::Completed, ScanEvent::Acknowledged) => (ScanPhase::Idle, ScanAction::Nothing),
        (ScanPhase::Cancelled, ScanEvent::Acknowledged) => (ScanPhase::Idle, ScanAction::Nothing),
        (ScanPhase::Failed, ScanEvent::Acknowledged) => (ScanPhase::Idle, ScanAction::Nothing),
        _ => (phase, ScanAction::Nothing),
    }
}

/// Whether the action reports the status a scan ends with.
pub open spec fn is_report(action: ScanAction) -> bool {
    action == ScanAction::ReportDone || action == ScanAction::ReportCancelled || action
        == ScanAction::ReportFailed
}

/// Whether a scan is under way in the phase: started and not yet ended.
pub open spec fn in_flight(phase: ScanPhase) -> bool {
    phase == ScanPhase::Loading || phase == ScanPhase::Enumerating || phase
        == ScanPhase::CleaningUp || phase == ScanPhase::Computing || phase == ScanPhase::Committing
}

/// The phase after a sequence of events.
pub open spec fn phase_after(phase: ScanPhase, events: Seq<ScanEvent>) -> ScanPhase
    decreases events.len(),
{
    if events.len() == 0 {
        phase
    } else {
        transition(phase_after(phase, events.drop_last()), events.last()).0
    }
}

/// The statuses reported in the course of a sequence of events, in order.
pub open spec fn reports_during(phase: ScanPhase, events: Seq<ScanEvent>) -> Seq<ScanAction>
    decreases events.len(),
{
    if events.len() == 0 {
        Seq::empty()
    } else {
        let before = reports_during(phase, events.drop_last());
        let action = transition(phase_after(phase, events.drop_last()), events.last()).1;
        if is_report(action) {
            before.push(action)
        } else {
            before
        }
    }
}

/// The number of scans begun in the course of a sequence of events.
pub open spec fn scans_begun(phase: ScanPhase, events: Seq<ScanEvent>) -> nat
    decreases events.len(),
{
    if events.len() == 0 {
        0
    } else {
        let before = scans_begun(phase, events.drop_last());
        if transition(phase_after(phase, events.drop_last()), events.last()).1
            == ScanAction::LoadInputs {
            before + 1
        } else {
            before
        }
    }
}

/// Whatever events come in, every scan that was begun and has ended has
/// reported exactly one status: the statuses reported are as many as the
/// scans begun, less the one that is still under way.
pub proof fn lemma_one_status_per_scan(events: Seq<ScanEvent>)
    ensures
        reports_during(ScanPhase::Idle, events).len() + if in_flight(
            phase_after(ScanPhase::Idle, events),
        ) {
            1nat
        } else {
            0nat
        } == scans_begun(ScanPhase::Idle, events),
    decreases events.len(),
{
    if events.len() > 0 {
        lemma_one_status_per_scan(events.drop_last());
    }
}

/// No event is a request for a new scan.
pub open spec fn no_start(events: Seq<ScanEvent>) -> bool {
    forall|i: int| 0 <= i < events.len() ==> #[trigger] events[i] != ScanEvent::Start
}

proof fn lemma_quiet_after_end(phase: ScanPhase, events: Seq<ScanEvent>)
    requires
        !in_flight(phase),
        no_start(events),
    ensures
        !in_flight(phase_after(phase, events)),
        reports_during(phase, events) == Seq::<ScanAction>::empty(),
    decreases events.len(),
{
    if events.len() > 0 {
        let init = events.drop_last();
        assert(no_start(init)) by {
            assert forall|i: int| 0 <= i < init.len() implies #[trigger] init[i]
                != ScanEvent::Start by {
                assert(init[i] == events[i]);
            }
        }
        lemma_quiet_after_end(phase, init);
        assert(events.last() == events[events.len() - 1]);
    }
}

proof fn lemma_run_split(phase: ScanPhase, first: Seq<ScanEvent>, rest: Seq<ScanEvent>)
    ensures
        phase_after(phase, first + rest) == phase_after(phase_after(phase, first), rest),
        reports_during(phase, first + rest) == reports_during(phase, first) + reports_during(
            phase_after(phase, first),
            rest,
        ),
    decreases rest.len(),
{
    if rest.len() == 0 {
        assert(first + rest =~= first);
        assert(reports_during(phase, first) + Seq::<ScanAction>::empty() =~= reports_during(
            phase,
            first,
        ));
    } else {
        let all = first + rest;
        assert(all.drop_last() =~= first + rest.drop_last());
        assert(all.last() == rest.last());
        lemma_run_split(phase, first, rest.drop_last());
        let mid = phase_after(phase, first);
        let action = transition(phase_after(mid, rest.drop_last()), rest.last()).1;
        if is_report(action) {
            assert(reports_during(phase, all) =~= reports_during(phase, first) + reports_during(
                mid,
                rest,
            ));
        }
    }
}

proof fn lemma_single_event(phase: ScanPhase, event: ScanEvent)
    ensures
        phase_after(phase, seq![event]) == transition(phase, event).0,
        reports_during(phase, seq![event]) == if is_report(transition(phase, event).1) {
            seq![transition(phase, event).1]
        } else {
            Seq::<ScanAction>::empty()
        },
{
    let one = seq![event];
    let none = one.drop_last();
    assert(none =~= Seq::<ScanEvent>::empty());
    assert(one.last() == event);
    assert(phase_after(phase, none) == phase);
    assert(reports_during(phase, none) =~= Seq::<ScanAction>::empty());
    reveal_with_fuel(phase_after, 2);
    reveal_with_fuel(reports_during, 2);
    if is_report(transition(phase, event).1) {
        assert(reports_during(phase, one) =~= seq![transition(phase, event).1]);
    } else {
        assert(reports_during(phase, one) =~= Seq::<ScanAction>::empty());
    }
}

/// A scan whose walk ends with the cancellation signal set, and whose
/// cleanup is stored, reports the status `cancelled`, once, and no other
/// status, whatever follows short of a new scan.
pub proof fn lemma_cancelled_after_enumeration(rest: Seq<ScanEvent>)
    requires
        no_start(rest),
    ensures
        reports_during(
            ScanPhase::Enumerating,
            seq![ScanEvent::EnumerationFinished { cancelled: true }, ScanEvent::CommitSucceeded]
                + rest,
        ) == seq![ScanAction::ReportCancelled],
{
    let one = seq![ScanEvent::EnumerationFinished { cancelled: true }];
    let two = seq![ScanEvent::CommitSucceeded];
    let first = seq![ScanEvent::EnumerationFinished { cancelled: true }, ScanEvent::CommitSucceeded];
    assert(first =~= one + two);
    lemma_single_event(ScanPhase::Enumerating, ScanEvent::EnumerationFinished { cancelled: true });
    lemma_single_event(ScanPhase::CleaningUp, ScanEvent::CommitSucceeded);
    lemma_run_split(ScanPhase::Enumerating, one, two);
    assert(Seq::<ScanAction>::empty() + seq![ScanAction::ReportCancelled] =~= seq![
        ScanAction::ReportCancelled,
    ]);
    lemma_run_split(ScanPhase::Enumerating, first, rest);
    lemma_quiet_after_end(ScanPhase::Cancelled, rest);
    assert(seq![ScanAction::ReportCancelled] + Seq::<ScanAction>::empty() =~= seq![
        ScanAction::ReportCancelled,
    ]);
}

/// A scan whose per-file stage sees the cancellation signal reports the
/// status `cancelled`, once, without storing anything, and no other status,
/// whatever follows short of a new scan.
pub proof fn lemma_cancelled_during_stats(rest: Seq<ScanEvent>)
    requires
        no_start(rest),
    ensures
        transition(ScanPhase::Computing, ScanEvent::StatsFinished { cancelled: true }) == (
            ScanPhase::Cancelled,
            ScanAction::ReportCancelled,
        ),
        reports_during(
            ScanPhase::Computing,
            seq![ScanEvent::StatsFinished { cancelled: true }] + rest,
        ) == seq![ScanAction::ReportCancelled],
{
    let first = seq![ScanEvent::StatsFinished { cancelled: true }];
    lemma_single_event(ScanPhase::Computing, ScanEvent::StatsFinished { cancelled: true });
    lemma_run_split(ScanPhase::Computing, first, rest);
    lemma_quiet_after_end(ScanPhase::Cancelled, rest);
    assert(seq![ScanAction::ReportCancelled] + Seq::<ScanAction>::empty() =~= seq![
        ScanAction::ReportCancelled,
    ]);
}

/// How a scan ended.
#[derive(Debug, Clone, Copy, PartialEq, Eq, Structural)]
pub enum ScanOutcome {
    Done,
    Cancelled,
    Failed,
}

/// How a scan ended, by the action that reports its status; nothing for
/// an action that reports none.
pub open spec fn outcome_reported(action: ScanAction) -> Option<ScanOutcome> {
    match action {
        ScanAction::ReportDone => Some(ScanOutcome::Done),
        ScanAction::ReportCancelled => Some(ScanOutcome::Cancelled),
        ScanAction::ReportFailed => Some(ScanOutcome::Failed),
        _ => None,
    }
}

/// Says how a scan ended, by the action that reports its status.
pub fn reported_outcome(action: ScanAction) -> (outcome: Option<ScanOutcome>)
    ensures
        outcome == outcome_reported(action),
        outcome is Some <==> is_report(action),
{
    match action {
        ScanAction::ReportDone => Some(ScanOutcome::Done),
        ScanAction::ReportCancelled => Some(ScanOutcome::Cancelled),
        ScanAction::ReportFailed => Some(ScanOutcome::Failed),
        _ => None,
    }
}

/// The longest message that a `failed` status carries, in characters.
pub const MAX_STATUS_MESSAGE: usize = 150;

/// The first [`MAX_STATUS_MESSAGE`] characters of a message.
pub open spec fn short_message(message: Seq<char>) -> Seq<char> {
    if message.len() <= MAX_STATUS_MESSAGE {
        message
    } else {
        message.take(MAX_STATUS_MESSAGE as int)
    }
}

/// The status that is reported at the end of a scan.
pub open spec fn status_text(outcome: ScanOutcome, message: Seq<char>) -> Seq<char> {
    match outcome {
        ScanOutcome::Done => "done"@,
        ScanOutcome::Cancelled => "cancelled"@,
        ScanOutcome::Failed => "failed: "@ + short_message(message),
    }
}

/// The status that is reported at the end of a scan: `done`, `cancelled`,
/// or `failed: ` with the beginning of the message.
pub fn terminal_status(outcome: ScanOutcome, message: &str) -> (status: String)
    ensures
        status@ == status_text(outcome, message@),
{
    match outcome {
        ScanOutcome::Done => "done".to_owned(),
        ScanOutcome::Cancelled => "cancelled".to_owned(),
        ScanOutcome::Failed => {
            let chars = string_chars(message);
            let n = if chars.len() <= MAX_STATUS_MESSAGE {
                chars.len()
            } else {
                MAX_STATUS_MESSAGE
            };
            let short = chars_to_string(&chars, 0, n);
            proof {
                assert(chars@.subrange(0, n as int) =~= short_message(message@));
            }
            let mut status = "failed: ".to_owned();
            status.append(short.as_str());
            status
        },
    }
}

/// The pattern list of a scan: the global patterns first, then those of
/// the project, so that the project can override the global ones.
pub fn merge_patterns(global: Vec<String>, project: &Vec<String>) -> (merged: Vec<String>)
    ensures
        string_views(merged@) == string_views(global@) + string_views(project@),
{
    let ghost base = string_views(global@);
    let mut merged = global;
    let mut i: usize = 0;
    while i < project.len()
        invariant
            i <= project.len(),
            string_views(merged@) == base + string_views(project@).take(i as int),
        decreases project.len() - i,
    {
        let ghost before = string_views(merged@);
        merged.push(project[i].clone());
        proof {
            let views = string_views(project@);
            assert(string_views(merged@) =~= before.push(views[i as int]));
            assert(views.take(i + 1) =~= views.take(i as int).push(views[i as int]));
            assert(base + views.take(i + 1) =~= (base + views.take(i as int)).push(
                views[i as int],
            ));
        }
        i += 1;
    }
    proof {
        assert(string_views(project@).take(project.len() as int) =~= string_views(project@));
    }
    merged
}

/// The list of strings that a JSON text holds, or nothing where the text
/// is not a JSON array of strings.
pub uninterp spec fn json_string_list(json: Seq<char>) -> Option<Seq<Seq<char>>>;

/// `serde_json::from_str` for a list of strings: the list that the text
/// holds, or nothing where it is not a JSON array of strings; the outcome
/// depends on the text alone.
#[verifier::external_body]
fn parse_string_list(json: &str) -> (list: Option<Vec<String>>)
    ensures
        match list {
            Some(v) => json_string_list(json@) == Some(string_views(v@)),
            None => json_string_list(json@) is None,
        },
{
    serde_json::from_str::<Vec<String>>(json).ok()
}

/// The global patterns that a stored setting stands for: none where the
/// setting is missing, empty, or not a JSON array of strings.
pub open spec fn global_patterns_of(setting: Option<Seq<char>>) -> Seq<Seq<char>> {
    match setting {
        None => Seq::empty(),
        Some(json) => if json.len() == 0 {
            Seq::empty()
        } else {
            match json_string_list(json) {
                Some(list) => list,
                None => Seq::empty(),
            }
        },
    }
}

/// The global patterns, given the setting and what parsing it gave.
pub fn patterns_from_parse(parsed: Option<Vec<String>>) -> (patterns: Vec<String>)
    ensures
        string_views(patterns@) == match parsed {
            Some(list) => string_views(list@),
            None => Seq::empty(),
        },
{
    match parsed {
        Some(list) => list,
        None => {
            let empty: Vec<String> = Vec::new();
            proof {
                assert(string_views(empty@) =~= Seq::<Seq<char>>::empty());
            }
            empty
        },
    }
}

/// Reads the global patterns from the stored setting.
pub fn resolve_global_patterns(setting: Option<&str>) -> (patterns: Vec<String>)
    ensures
        string_views(patterns@) == global_patterns_of(
            match setting {
                Some(json) => Some(json@),
                None => None,
            },
        ),
{
    match setting {
        None => patterns_from_parse(None),
        Some(json) => {
            if json.is_empty() {
                patterns_from_parse(None)
            } else {
                patterns_from_parse(parse_string_list(json))
            }
        },
    }
}

} // verus!
