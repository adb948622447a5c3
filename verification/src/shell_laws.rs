//! Which selection each outcome of a shell command belongs to.

use core::ops::Range;

use vstd::prelude::*;

use crate::shell;
use crate::shell::Anchor;
use crate::shell::EditModel;
use crate::shell::ResultModel;
use crate::shell::ShellEvent;
use crate::shell::ShellJob;
use crate::shell::ShellMode;
use crate::shell::ShellOutcome;
use crate::shell::ShellResult;
use crate::shell::ShellSelection;
use crate::shell::ShellTarget;
use crate::shell::TargetModel;
use crate::text;

verus! {

/// Whether a command ended with the code zero.
pub open spec fn exit_zero(result: ResultModel) -> bool {
    result matches ResultModel::Exited { exit_code, .. } && exit_code == 0
}

/// Whether numbers are, in ascending order and each once, those of the targets with a result
/// whose own command ended with the code zero.
pub open spec fn names_successes(
    from: Seq<nat>,
    targets: Seq<TargetModel>,
    results: Seq<ResultModel>,
) -> bool {
    &&& forall|a: int, b: int| 0 <= a < b < from.len() ==> #[trigger] from[a] < #[trigger] from[b]
    &&& forall|e: int|
        0 <= e < from.len() ==> (#[trigger] from[e]) < targets.len() && from[e] < results.len()
            && exit_zero(results[from[e] as int])
    &&& forall|k: int|
        0 <= k < targets.len() && k < results.len() && exit_zero(#[trigger] results[k])
            ==> from.contains(k as nat)
}

/// Whether an edit puts what the command of a target wrote where the mode says: in place of
/// the target, at its start or at its end.
pub open spec fn is_edit_for(
    mode: ShellMode,
    target: TargetModel,
    result: ResultModel,
    edit: EditModel,
) -> bool {
    &&& result matches ResultModel::Exited { stdout, .. } && edit.1 == shell::stripped(stdout)
    &&& edit.0.start == (if mode == ShellMode::AppendAfter {
        target.range.end
    } else {
        target.range.start
    })
    &&& edit.0.end == (if mode == ShellMode::InsertBefore {
        target.range.start
    } else {
        target.range.end
    })
}

/// Whether edits belong to the targets with the given numbers, one to each, in order.
pub open spec fn edits_belong(
    mode: ShellMode,
    targets: Seq<TargetModel>,
    results: Seq<ResultModel>,
    edits: Seq<EditModel>,
    from: Seq<nat>,
) -> bool {
    &&& names_successes(from, targets, results)
    &&& edits.len() == from.len()
    &&& forall|e: int|
        0 <= e < edits.len() ==> is_edit_for(
            mode,
            targets[from[e] as int],
            results[from[e] as int],
            #[trigger] edits[e],
        )
}

/// Whether ranges are those of the targets with the given numbers, in order.
pub open spec fn ranges_belong(
    targets: Seq<TargetModel>,
    ranges: Seq<Range<Anchor>>,
    from: Seq<nat>,
) -> bool {
    &&& ranges.len() == from.len()
    &&& forall|e: int|
        0 <= e < ranges.len() ==> #[trigger] ranges[e] == targets[from[e] as int].range
}

/// The numbers below `n` of the commands that ended with the code zero.
spec fn successes(results: Seq<ResultModel>, n: nat) -> Seq<nat>
    decreases n,
{
    if n == 0 {
        Seq::empty()
    } else if exit_zero(results[n - 1]) {
        successes(results, (n - 1) as nat).push((n - 1) as nat)
    } else {
        successes(results, (n - 1) as nat)
    }
}

proof fn lemma_successes(results: Seq<ResultModel>, n: nat)
    requires
        n <= results.len(),
    ensures
        forall|a: int, b: int|
            0 <= a < b < successes(results, n).len() ==> #[trigger] successes(results, n)[a]
                < #[trigger] successes(results, n)[b],
        forall|e: int|
            0 <= e < successes(results, n).len() ==> (#[trigger] successes(results, n)[e]) < n
                && exit_zero(results[successes(results, n)[e] as int]),
        forall|k: int|
            0 <= k < n && exit_zero(#[trigger] results[k]) ==> successes(results, n).contains(
                k as nat,
            ),
    decreases n,
{
    if n > 0 {
        lemma_successes(results, (n - 1) as nat);
        let before = successes(results, (n - 1) as nat);
        let all = successes(results, n);
        assert forall|k: int| 0 <= k < n && exit_zero(#[trigger] results[k]) implies all.contains(
            k as nat,
        ) by {
            if k < n - 1 {
                let e = before.index_of(k as nat);
                assert(all[e] == k);
            } else {
                assert(all[all.len() - 1] == k);
            }
        }
    }
}

proof fn lemma_edits(
    mode: ShellMode,
    targets: Seq<TargetModel>,
    results: Seq<ResultModel>,
    n: nat,
)
    requires
        mode == ShellMode::PipeReplace || mode == ShellMode::InsertBefore || mode
            == ShellMode::AppendAfter,
        n <= results.len(),
    ensures
        ({
            let edits = shell::edits_of(mode, targets, results, n);
            let from = successes(results, n);
            &&& edits.len() == from.len()
            &&& forall|e: int|
                0 <= e < edits.len() ==> is_edit_for(
                    mode,
                    targets[from[e] as int],
                    results[from[e] as int],
                    #[trigger] edits[e],
                )
        }),
    decreases n,
{
    if n > 0 {
        lemma_edits(mode, targets, results, (n - 1) as nat);
        let before = shell::edits_of(mode, targets, results, (n - 1) as nat);
        let earlier = successes(results, (n - 1) as nat);
        let edits = shell::edits_of(mode, targets, results, n);
        let from = successes(results, n);
        assert forall|e: int| 0 <= e < edits.len() implies is_edit_for(
            mode,
            targets[from[e] as int],
            results[from[e] as int],
            #[trigger] edits[e],
        ) by {
            if e < before.len() {
                assert(edits[e] == before[e]);
                assert(from[e] == earlier[e]);
            }
        }
    }
}

/// In the modes that change the text, the edits go one to one, in order, to the targets whose
/// own command succeeded: each is made where its target is, with what that command wrote.
pub proof fn law_edits_belong_to_their_targets(
    mode: ShellMode,
    targets: Seq<TargetModel>,
    results: Seq<ResultModel>,
)
    requires
        mode == ShellMode::PipeReplace || mode == ShellMode::InsertBefore || mode
            == ShellMode::AppendAfter,
    ensures
        exists|from: Seq<nat>| #[trigger]
            edits_belong(
                mode,
                targets,
                results,
                shell::edits_of(
                    mode,
                    targets,
                    results,
                    shell::pairs(targets.len(), results.len()),
                ),
                from,
            ),
{
    let n = shell::pairs(targets.len(), results.len());
    lemma_successes(results, n);
    lemma_edits(mode, targets, results, n);
    let from = successes(results, n);
    let edits = shell::edits_of(mode, targets, results, n);
    assert(edits_belong(mode, targets, results, edits, from));
}

/// Two lists that name the successes are one, so that which edit goes to which target is not
/// left open.
pub proof fn law_successes_have_one_order(
    a: Seq<nat>,
    b: Seq<nat>,
    targets: Seq<TargetModel>,
    results: Seq<ResultModel>,
)
    requires
        names_successes(a, targets, results),
        names_successes(b, targets, results),
    ensures
        a == b,
{
    assert forall|k: nat| a.contains(k) <==> b.contains(k) by {
        if a.contains(k) {
            let e = a.index_of(k);
            assert(a[e] == k);
            assert(exit_zero(results[k as int]));
        }
        if b.contains(k) {
            let e = b.index_of(k);
            assert(b[e] == k);
            assert(exit_zero(results[k as int]));
        }
    }
    lemma_ascending_lists(a, b);
}

proof fn lemma_ascending_lists(a: Seq<nat>, b: Seq<nat>)
    requires
        forall|i: int, j: int| 0 <= i < j < a.len() ==> #[trigger] a[i] < #[trigger] a[j],
        forall|i: int, j: int| 0 <= i < j < b.len() ==> #[trigger] b[i] < #[trigger] b[j],
        forall|k: nat| a.contains(k) <==> b.contains(k),
    ensures
        a == b,
    decreases a.len(),
{
    if a.len() == 0 {
        if b.len() > 0 {
            assert(b.contains(b[0]));
        }
        assert(a =~= b);
    } else {
        assert(a.contains(a.last()));
        let at = b.index_of(a.last());
        assert(b.contains(b.last()));
        let other = a.index_of(b.last());
        assert(a.last() == b.last());
        let c = a.drop_last();
        let d = b.drop_last();
        assert forall|k: nat| c.contains(k) <==> d.contains(k) by {
            if c.contains(k) {
                let e = c.index_of(k);
                assert(a[e] == k);
                assert(a.contains(k));
                let f = b.index_of(k);
                assert(a[e] < a[a.len() - 1]);
                assert(d[f] == k);
            }
            if d.contains(k) {
                let e = d.index_of(k);
                assert(b[e] == k);
                assert(b.contains(k));
                let f = a.index_of(k);
                assert(b[e] < b[b.len() - 1]);
                assert(c[f] == k);
            }
        }
        lemma_ascending_lists(c, d);
        assert(a =~= c.push(a.last()));
        assert(b =~= d.push(b.last()));
    }
}

proof fn lemma_kept(targets: Seq<TargetModel>, results: Seq<ResultModel>, n: nat)
    requires
        n <= results.len(),
    ensures
        ranges_belong(targets, shell::kept_of(targets, results, n), successes(results, n)),
    decreases n,
{
    if n > 0 {
        lemma_kept(targets, results, (n - 1) as nat);
        let before = shell::kept_of(targets, results, (n - 1) as nat);
        let earlier = successes(results, (n - 1) as nat);
        let kept = shell::kept_of(targets, results, n);
        let from = successes(results, n);
        assert forall|e: int| 0 <= e < kept.len() implies #[trigger] kept[e]
            == targets[from[e] as int].range by {
            if e < before.len() {
                assert(kept[e] == before[e]);
                assert(from[e] == earlier[e]);
            }
        }
    }
}

/// The selections that stay are those of the targets whose own command succeeded, in order;
/// where there is none, the primary selection alone.
pub proof fn law_kept_selections_belong_to_their_targets(
    targets: Seq<TargetModel>,
    primary: int,
    results: Seq<ResultModel>,
)
    ensures
        exists|from: Seq<nat>|
            {
                &&& #[trigger] names_successes(from, targets, results)
                &&& ranges_belong(
                    targets,
                    shell::kept_of(
                        targets,
                        results,
                        shell::pairs(targets.len(), results.len()),
                    ),
                    from,
                )
                &&& from.len() > 0 ==> ranges_belong(
                    targets,
                    shell::stays_selected(targets, primary, results),
                    from,
                )
                &&& from.len() == 0 ==> shell::stays_selected(targets, primary, results) == seq![
                    targets[primary].range,
                ]
            },
{
    let n = shell::pairs(targets.len(), results.len());
    lemma_successes(results, n);
    lemma_kept(targets, results, n);
    assert(names_successes(successes(results, n), targets, results));
}

/// Each selection becomes a target with its own range; the command reads its text where the
/// mode pipes, and nothing where it only inserts or appends.
pub proof fn law_each_selection_is_a_target(
    mode: ShellMode,
    selections: Seq<ShellSelection>,
    k: int,
)
    requires
        0 <= k < selections.len(),
    ensures
        shell::targets_of(mode, selections).len() == selections.len(),
        shell::targets_of(mode, selections)[k].range == selections[k].range,
        mode == ShellMode::PipeReplace || mode == ShellMode::PipeDiscard || mode
            == ShellMode::KeepIfZero ==> shell::targets_of(mode, selections)[k].stdin
            == selections[k].text@,
        mode == ShellMode::InsertBefore || mode == ShellMode::AppendAfter ==> shell::targets_of(
            mode,
            selections,
        )[k].stdin.len() == 0,
{
}

/// Eight commands run at a time, or as many as are left, from the first that has not run on.
pub proof fn law_eight_run_at_a_time(done: nat, total: nat)
    ensures
        shell::batch(done, total) is None <==> done >= total,
        shell::batch(done, total) matches Some((start, end)) ==> {
            &&& start == done
            &&& start < end <= total
            &&& end - start <= 8
            &&& end - start < 8 ==> end == total
        },
        shell::DEFAULT_TIMEOUT_MILLIS == 5000,
{
}

/// A command that ended counts with its own code, or as failed where a signal ended it; what
/// it wrote to each stream is kept apart. One that did not run to its end never succeeds.
pub proof fn law_outcome_of_a_command(event: ShellEvent)
    ensures
        event matches ShellEvent::Ended { code, stdout, stderr } ==> {
            &&& shell::outcome(event) matches ResultModel::Exited {
                exit_code,
                stdout: put_out,
                stderr: complained,
            } && put_out == shell::lossy_text(stdout@) && complained == shell::lossy_text(stderr@)
                && (code matches Some(code) ==> exit_code == code)
            &&& exit_zero(shell::outcome(event)) <==> code == Some(0i32)
        },
        !(event is Ended) ==> !exit_zero(shell::outcome(event)),
        event is TimedOut <==> shell::outcome(event) is Timeout,
        event matches ShellEvent::NoCommand(reason) ==> shell::outcome(event)
            == ResultModel::SpawnError(reason@),
        event matches ShellEvent::NotStarted(reason) ==> shell::outcome(event)
            == ResultModel::SpawnError(reason@),
        event matches ShellEvent::NotRead(reason) ==> shell::outcome(event)
            == ResultModel::SpawnError(reason@),
{
}

/// Each of the first `n` commands either failed or ended with the code zero.
proof fn lemma_failures(results: Seq<ResultModel>, n: nat)
    requires
        n <= results.len(),
    ensures
        shell::failures(results, n) + successes(results, n).len() == n,
    decreases n,
{
    if n > 0 {
        lemma_failures(results, (n - 1) as nat);
    }
}

/// Whether a result tells what went wrong: the command failed and complained, or did not run
/// to its end.
pub open spec fn has_something_to_say(result: ResultModel) -> bool {
    match result {
        ResultModel::Exited { exit_code, stderr, .. } => exit_code != 0 && stderr.len() > 0,
        _ => true,
    }
}

/// What a result tells, in words.
pub open spec fn says(result: ResultModel) -> Seq<char> {
    match result {
        ResultModel::Exited { stderr, .. } => stderr,
        ResultModel::SpawnError(reason) => reason,
        ResultModel::Timeout => "timed out"@,
    }
}

proof fn lemma_first_complaint(results: Seq<ResultModel>, i: nat, at: nat)
    requires
        i <= at <= results.len(),
        forall|j: int| i <= j < at ==> !has_something_to_say(#[trigger] results[j]),
    ensures
        at < results.len() && has_something_to_say(results[at as int]) ==> shell::first_complaint(
            results,
            i,
        ) == Some(says(results[at as int])),
        at == results.len() ==> shell::first_complaint(results, i) is None,
    decreases at - i,
{
    if i < at {
        assert(!has_something_to_say(results[i as int]));
        lemma_first_complaint(results, i + 1, at);
    }
}

/// Where the text changes or what is put out is dropped, the user is told exactly if a
/// command did not succeed.
pub proof fn law_failures_are_told(
    mode: ShellMode,
    targets: Seq<TargetModel>,
    results: Seq<ResultModel>,
)
    requires
        mode != ShellMode::KeepIfZero,
    ensures
        shell::tells(mode, targets, results) <==> exists|i: int|
            0 <= i < results.len() && !exit_zero(#[trigger] results[i]),
{
    lemma_some_failure(results, results.len());
}

proof fn lemma_some_failure(results: Seq<ResultModel>, n: nat)
    requires
        n <= results.len(),
    ensures
        shell::failures(results, n) > 0 <==> exists|i: int|
            0 <= i < n && !exit_zero(#[trigger] results[i]),
    decreases n,
{
    if n > 0 {
        lemma_some_failure(results, (n - 1) as nat);
        if !exit_zero(results[n - 1]) {
            assert(!exit_zero(results[n - 1]));
        }
        if exists|i: int| 0 <= i < n && !exit_zero(#[trigger] results[i]) {
            let i = choose|i: int| 0 <= i < n && !exit_zero(#[trigger] results[i]);
            if i < n - 1 {
                assert(!exit_zero(results[i]));
            }
        }
    }
}

/// Where selections are kept, the user is told exactly if a command did not run to its end or
/// none succeeded.
pub proof fn law_lost_selections_are_told(targets: Seq<TargetModel>, results: Seq<ResultModel>)
    requires
        targets.len() == results.len(),
    ensures
        shell::tells(ShellMode::KeepIfZero, targets, results) <==> {
            ||| exists|i: int| 0 <= i < results.len() && !((#[trigger] results[i]) is Exited)
            ||| forall|i: int| 0 <= i < results.len() ==> !exit_zero(#[trigger] results[i])
        },
{
    lemma_successes(results, results.len());
    lemma_kept(targets, results, results.len());
    let from = successes(results, results.len());
    if from.len() > 0 {
        assert(exit_zero(results[from[0] as int]));
    }
    assert(forall|i: int|
        0 <= i < results.len() ==> shell::broke_off(#[trigger] results[i]) == !(
        results[i] is Exited));
}

/// What the user is told: how many of the selections failed, and what the first command that
/// has something to say says, cut after 120 characters; or that none matched, where selections
/// are kept and none is left.
pub proof fn law_message_to_the_user(
    mode: ShellMode,
    targets: Seq<TargetModel>,
    results: Seq<ResultModel>,
    from: Seq<nat>,
    at: nat,
)
    requires
        targets.len() == results.len(),
        names_successes(from, targets, results),
        at <= results.len(),
        at < results.len() ==> has_something_to_say(results[at as int]),
        forall|j: int| 0 <= j < at ==> !has_something_to_say(#[trigger] results[j]),
    ensures
        ({
            let counts = "shell: "@ + text::decimal((results.len() - from.len()) as nat) + " of "@
                + text::decimal(targets.len()) + " selections failed"@;
            let told = shell::message_of(mode, targets, results);
            &&& mode == ShellMode::KeepIfZero && from.len() == 0 ==> told
                == "$: no selections matched; primary preserved"@
            &&& (mode != ShellMode::KeepIfZero || from.len() > 0) && at == results.len() ==> told
                == counts
            &&& (mode != ShellMode::KeepIfZero || from.len() > 0) && at < results.len() ==> told
                == counts + ": "@ + text::clipped(says(results[at as int]), 120)
        }),
{
    let n = results.len();
    lemma_successes(results, n);
    lemma_kept(targets, results, n);
    lemma_failures(results, n);
    assert(names_successes(successes(results, n), targets, results));
    law_successes_have_one_order(from, successes(results, n), targets, results);
    lemma_first_complaint(results, 0, at);
}

/// What the targets, the results and the edits hold is what each of them holds, in order.
pub proof fn law_models_keep_the_order(
    targets: Seq<ShellTarget>,
    results: Seq<ShellResult>,
    edits: Seq<(Range<Anchor>, String)>,
    k: int,
)
    ensures
        shell::target_models(targets).len() == targets.len(),
        0 <= k < targets.len() ==> shell::target_models(targets)[k].range == targets[k].range
            && shell::target_models(targets)[k].stdin == targets[k].stdin@,
        shell::result_models(results).len() == results.len(),
        0 <= k < results.len() ==> shell::result_models(results)[k] == results[k]@,
        shell::edit_models(edits).len() == edits.len(),
        0 <= k < edits.len() ==> shell::edit_models(edits)[k].0 == edits[k].0
            && shell::edit_models(edits)[k].1 == edits[k].1@,
{
}

/// A result holds its code and both streams, each in its own place.
pub proof fn law_model_of_a_result(result: ShellResult)
    ensures
        result matches ShellResult::Exited { exit_code, stdout, stderr } ==> result@ == (
        ResultModel::Exited { exit_code, stdout: stdout@, stderr: stderr@ }),
        result matches ShellResult::SpawnError(reason) ==> result@ == ResultModel::SpawnError(
            reason@,
        ),
        result is Timeout ==> result@ == ResultModel::Timeout,
{
}

/// A run that was started has nothing run yet, a target for each selection, and the primary
/// selection that was given.
pub proof fn law_started_run(
    job: ShellJob,
    mode: ShellMode,
    selections: Seq<ShellSelection>,
    primary: usize,
    k: int,
)
    requires
        shell::started(job, mode, selections, primary),
    ensures
        job.mode == mode,
        job.results@.len() == 0,
        job.primary == primary,
        job.targets@.len() == selections.len(),
        0 <= k < selections.len() ==> job.targets@[k].range == selections[k].range,
        0 <= k < selections.len() && (mode == ShellMode::PipeReplace || mode
            == ShellMode::PipeDiscard || mode == ShellMode::KeepIfZero) ==> job.targets@[k].stdin@
            == selections[k].text@,
        0 <= k < selections.len() && (mode == ShellMode::InsertBefore || mode
            == ShellMode::AppendAfter) ==> job.targets@[k].stdin@.len() == 0,
{
    assert(shell::target_models(job.targets@).len() == job.targets@.len());
    if 0 <= k < selections.len() {
        law_each_selection_is_a_target(mode, selections, k);
        assert(shell::target_models(job.targets@)[k] == job.targets@[k]@);
    }
}

/// What becomes of a run: in the modes that change the text, one edit for each target whose
/// own command succeeded, made there with what that command wrote; in the others none. Where
/// selections are kept, those of these targets stay, or else the primary one. The user is told
/// something exactly if there is something to tell.
pub proof fn law_settled_run(
    mode: ShellMode,
    targets: Seq<TargetModel>,
    primary: int,
    results: Seq<ResultModel>,
    outcome: ShellOutcome,
)
    requires
        shell::settled(mode, targets, primary, results, outcome),
    ensures
        exists|from: Seq<nat>|
            {
                &&& #[trigger] names_successes(from, targets, results)
                &&& mode == ShellMode::PipeReplace || mode == ShellMode::InsertBefore || mode
                    == ShellMode::AppendAfter ==> edits_belong(
                    mode,
                    targets,
                    results,
                    shell::edit_models(outcome.edits@),
                    from,
                )
                &&& mode == ShellMode::PipeDiscard || mode == ShellMode::KeepIfZero
                    ==> outcome.edits@.len() == 0
                &&& outcome.selections is Some <==> mode == ShellMode::KeepIfZero
                &&& outcome.selections matches Some(ranges) ==> {
                    &&& from.len() > 0 ==> ranges_belong(targets, ranges@, from)
                    &&& from.len() == 0 ==> ranges@ == seq![targets[primary].range]
                }
            },
        outcome.toast is Some <==> shell::tells(mode, targets, results),
        outcome.toast matches Some(told) ==> told@ == shell::message_of(mode, targets, results),
{
    let n = shell::pairs(targets.len(), results.len());
    let from = successes(results, n);
    lemma_successes(results, n);
    lemma_kept(targets, results, n);
    assert(shell::edit_models(outcome.edits@).len() == outcome.edits@.len());
    if mode == ShellMode::PipeDiscard || mode == ShellMode::KeepIfZero {
        shell::law_some_modes_make_no_edit(mode, targets, results, n);
    } else {
        lemma_edits(mode, targets, results, n);
    }
    assert(names_successes(from, targets, results));
}

} // verus!
