//! Shell verbs: each selection of an editor is run through a shell command, and what comes
//! out replaces it, is put before or after it, is dropped, or decides whether it stays
//! selected.

use core::ops::Range;

use vstd::prelude::*;
use vstd::string::*;
use vstd::utf8::*;

use crate::text;

verus! {

/// How what a command puts out is applied.
#[derive(Clone, Copy, PartialEq, Eq, Debug, Structural)]
pub enum ShellMode {
    /// The command reads the selection; what it puts out replaces the selection.
    PipeReplace,
    /// The command reads the selection; what it puts out is dropped.
    PipeDiscard,
    /// The command reads nothing; what it puts out goes before the selection.
    InsertBefore,
    /// The command reads nothing; what it puts out goes after the selection.
    AppendAfter,
    /// The command reads the selection, which stays selected if the command succeeds; where
    /// none does, the primary selection stays. The text does not change.
    KeepIfZero,
}

impl Default for ShellMode {
    fn default() -> (res: ShellMode)
        ensures
            res == ShellMode::PipeReplace,
    {
        ShellMode::PipeReplace
    }
}

/// A command to run on every selection.
#[derive(Clone, PartialEq, Debug)]
pub struct ShellRun {
    pub mode: ShellMode,
    pub cmd: String,
}

impl Default for ShellRun {
    fn default() -> (res: ShellRun)
        ensures
            res.mode == ShellMode::PipeReplace,
            res.cmd@ == Seq::<char>::empty(),
    {
        ShellRun { mode: ShellMode::default(), cmd: String::new() }
    }
}

/// A key that asks for a shell command.
#[derive(Clone, Copy, PartialEq, Eq, Debug, Structural)]
pub enum ShellPrompt {
    /// Replaces each selection.
    PipeSelection,
    /// Drops what is put out.
    PipeTo,
    /// Inserts before each selection.
    InsertOutput,
    /// Appends after each selection.
    AppendOutput,
    /// Keeps the selections on which the command succeeds.
    KeepPipe,
}

/// How long a command may run, in milliseconds, before it counts as timed out.
pub const DEFAULT_TIMEOUT_MILLIS: u64 = 5000;

/// How many commands run at a time.
pub const MAX_CONCURRENCY: usize = 8;

/// How many characters of an error message are shown.
pub const MAX_ERROR_CHARS: usize = 120;

/// A place in a buffer: its start, its end, or an anchor in it by number.
#[derive(Clone, Copy, PartialEq, Eq, Debug, Structural)]
pub enum Anchor {
    Min,
    At(u64),
    Max,
}

/// A selection, as it is when the command is given.
#[derive(Debug)]
pub struct ShellSelection {
    pub range: Range<Anchor>,
    pub text: String,
}

/// What a command runs on: the range to which what it puts out applies, and what it reads.
#[derive(Debug)]
pub struct ShellTarget {
    pub range: Range<Anchor>,
    pub stdin: String,
}

/// How a command ended.
#[derive(Clone, Debug)]
pub enum ShellResult {
    Exited { exit_code: i32, stdout: String, stderr: String },
    SpawnError(String),
    Timeout,
}

/// What a [`ShellTarget`] holds.
#[verifier::ext_equal]
pub struct TargetModel {
    pub range: Range<Anchor>,
    pub stdin: Seq<char>,
}

/// What a [`ShellResult`] holds.
#[verifier::ext_equal]
pub enum ResultModel {
    Exited { exit_code: i32, stdout: Seq<char>, stderr: Seq<char> },
    SpawnError(Seq<char>),
    Timeout,
}

/// What an edit holds: the range that goes and the text that comes.
pub type EditModel = (Range<Anchor>, Seq<char>);

impl View for ShellTarget {
    type V = TargetModel;

    open spec fn view(&self) -> TargetModel {
        TargetModel { range: self.range, stdin: self.stdin@ }
    }
}

impl View for ShellResult {
    type V = ResultModel;

    open spec fn view(&self) -> ResultModel {
        match *self {
            ShellResult::Exited { exit_code, stdout, stderr } => ResultModel::Exited {
                exit_code,
                stdout: stdout@,
                stderr: stderr@,
            },
            ShellResult::SpawnError(message) => ResultModel::SpawnError(message@),
            ShellResult::Timeout => ResultModel::Timeout,
        }
    }
}

/// What targets hold.
pub open spec fn target_models(targets: Seq<ShellTarget>) -> Seq<TargetModel> {
    targets.map_values(|target: ShellTarget| target@)
}

/// What results hold.
pub open spec fn result_models(results: Seq<ShellResult>) -> Seq<ResultModel> {
    results.map_values(|result: ShellResult| result@)
}

/// What edits hold.
pub open spec fn edit_models(edits: Seq<(Range<Anchor>, String)>) -> Seq<EditModel> {
    edits.map_values(|edit: (Range<Anchor>, String)| (edit.0, edit.1@))
}

/// What the palette is opened with for a key.
pub open spec fn prefill_of(prompt: ShellPrompt) -> Seq<char> {
    match prompt {
        ShellPrompt::PipeSelection => ":pipe "@,
        ShellPrompt::PipeTo => ":pipe-to "@,
        ShellPrompt::InsertOutput => ":insert-output "@,
        ShellPrompt::AppendOutput => ":append-output "@,
        ShellPrompt::KeepPipe => ":keep-pipe "@,
    }
}

/// Returns what the palette is opened with for a key: the verb, after a colon.
pub fn palette_prefill(prompt: ShellPrompt) -> (res: String)
    ensures
        res@ == prefill_of(prompt),
{
    match prompt {
        ShellPrompt::PipeSelection => ":pipe ".to_owned(),
        ShellPrompt::PipeTo => ":pipe-to ".to_owned(),
        ShellPrompt::InsertOutput => ":insert-output ".to_owned(),
        ShellPrompt::AppendOutput => ":append-output ".to_owned(),
        ShellPrompt::KeepPipe => ":keep-pipe ".to_owned(),
    }
}

impl ShellMode {
    /// Whether the command reads the selection.
    pub open spec fn reads(self) -> bool {
        self == ShellMode::PipeReplace || self == ShellMode::PipeDiscard || self
            == ShellMode::KeepIfZero
    }

    /// Returns whether the command reads the selection; else it reads nothing.
    pub fn needs_stdin(self) -> (res: bool)
        ensures
            res == self.reads(),
    {
        match self {
            ShellMode::PipeReplace | ShellMode::PipeDiscard | ShellMode::KeepIfZero => true,
            ShellMode::InsertBefore | ShellMode::AppendAfter => false,
        }
    }
}

/// What the command runs on, for each selection in order.
pub open spec fn targets_of(mode: ShellMode, selections: Seq<ShellSelection>) -> Seq<TargetModel> {
    selections.map_values(
        |selection: ShellSelection|
            TargetModel {
                range: selection.range,
                stdin: if mode.reads() {
                    selection.text@
                } else {
                    Seq::empty()
                },
            },
    )
}

/// A run of a command on every target: the results so far are those of the first targets.
#[derive(Debug)]
pub struct ShellJob {
    pub mode: ShellMode,
    pub targets: Vec<ShellTarget>,
    /// Which of the targets is the primary selection.
    pub primary: usize,
    pub results: Vec<ShellResult>,
}

impl ShellJob {
    /// Which targets run together next; `None` where every target has its result.
    pub fn next_batch(&self) -> (res: Option<(usize, usize)>)
        ensures
            match res {
                Some((start, end)) => batch(self.results@.len(), self.targets@.len()) == Some(
                    (start as nat, end as nat),
                ),
                None => batch(self.results@.len(), self.targets@.len()) is None,
            },
    {
        next_batch(self.results.len(), self.targets.len())
    }

    /// Takes the results of the targets that ran together, in the order of the targets.
    pub fn deliver(&mut self, results: Vec<ShellResult>)
        requires
            batch(old(self).results@.len(), old(self).targets@.len()) matches Some((start, end))
                && results@.len() == end - start,
        ensures
            final(self).mode == old(self).mode,
            final(self).targets == old(self).targets,
            final(self).primary == old(self).primary,
            final(self).results@ == old(self).results@ + results@,
            final(self).results@.len() <= final(self).targets@.len(),
    {
        let mut results = results;
        self.results.append(&mut results);
    }

    /// Returns what becomes of the run, once every target has its result.
    pub fn finish(&self) -> (res: ShellOutcome)
        requires
            self.results@.len() == self.targets@.len(),
            self.primary < self.targets@.len(),
        ensures
            settled(
                self.mode,
                target_models(self.targets@),
                self.primary as int,
                result_models(self.results@),
                res,
            ),
    {
        settle(self.mode, &self.targets, self.primary, &self.results)
    }
}

/// Starts a run of a command on every selection, of which the one at `primary` is the
/// primary one. Nothing is run where the command is blank, there is no workspace, or nothing
/// is selected.
pub fn run_shell(
    mode: ShellMode,
    cmd: &str,
    has_workspace: bool,
    selections: &Vec<ShellSelection>,
    primary: usize,
) -> (res: Option<ShellJob>)
    requires
        selections@.len() > 0 ==> primary < selections@.len(),
    ensures
        res is Some <==> !text::blank(cmd@) && has_workspace && selections@.len() > 0,
        res matches Some(job) ==> started(job, mode, selections@, primary),
{
    start_run(mode, text::is_blank(cmd), has_workspace, selections, primary)
}

/// Whether a run is to be made on the given selections, and nothing of it has been run.
pub open spec fn started(
    job: ShellJob,
    mode: ShellMode,
    selections: Seq<ShellSelection>,
    primary: usize,
) -> bool {
    &&& job.mode == mode
    &&& job.results@.len() == 0
    &&& target_models(job.targets@) == targets_of(mode, selections)
    &&& job.primary == primary
    &&& job.primary < job.targets@.len()
}

/// Starts a run of a command on every selection, where `blank` tells whether there is
/// nothing but whitespace in the command. Nothing is run where that is so, there is no
/// workspace, or nothing is selected.
pub fn start_run(
    mode: ShellMode,
    blank: bool,
    has_workspace: bool,
    selections: &Vec<ShellSelection>,
    primary: usize,
) -> (res: Option<ShellJob>)
    requires
        selections@.len() > 0 ==> primary < selections@.len(),
    ensures
        res is Some <==> !blank && has_workspace && selections@.len() > 0,
        res matches Some(job) ==> started(job, mode, selections@, primary),
{
    if blank || !has_workspace || selections.len() == 0 {
        return None;
    }
    let needs_stdin = mode.needs_stdin();
    let ghost all = targets_of(mode, selections@);
    let mut targets: Vec<ShellTarget> = Vec::new();
    let mut i: usize = 0;
    while i < selections.len()
        invariant
            i <= selections@.len(),
            needs_stdin == mode.reads(),
            all == targets_of(mode, selections@),
            target_models(targets@) == all.take(i as int),
        decreases selections@.len() - i,
    {
        let ghost before = target_models(targets@);
        let selection = &selections[i];
        let stdin = if needs_stdin {
            selection.text.clone()
        } else {
            String::new()
        };
        targets.push(ShellTarget { range: selection.range.start..selection.range.end, stdin });
        proof {
            assert(targets@.last()@ == all[i as int]);
            assert(target_models(targets@) =~= before.push(all[i as int]));
            assert(target_models(targets@) =~= all.take(i + 1));
        }
        i += 1;
    }
    assert(target_models(targets@) =~= all);
    assert(target_models(targets@).len() == targets@.len());
    Some(ShellJob { mode, targets, primary, results: Vec::new() })
}

/// Which targets run together, once those before `done` have: as many as may run at a
/// time, or what is left; `None` where nothing is.
pub open spec fn batch(done: nat, total: nat) -> Option<(nat, nat)> {
    if done >= total {
        None
    } else if total - done <= MAX_CONCURRENCY {
        Some((done, total))
    } else {
        Some((done, done + MAX_CONCURRENCY as nat))
    }
}

/// Returns which targets run together, once those before `done` have.
pub fn next_batch(done: usize, total: usize) -> (res: Option<(usize, usize)>)
    ensures
        match res {
            Some((start, end)) => batch(done as nat, total as nat) == Some(
                (start as nat, end as nat),
            ),
            None => batch(done as nat, total as nat) is None,
        },
{
    if done >= total {
        None
    } else if total - done <= MAX_CONCURRENCY {
        Some((done, total))
    } else {
        Some((done, done + MAX_CONCURRENCY))
    }
}

/// The batches in which the targets from `done` on run, one after the other.
pub open spec fn batches(done: nat, total: nat) -> Seq<(nat, nat)>
    decreases total - done,
{
    match batch(done, total) {
        None => Seq::empty(),
        Some((start, end)) => seq![(start, end)] + batches(end, total),
    }
}

/// Every target runs in exactly one batch, in order; no batch is empty or larger than what
/// may run at a time, and only the last one is smaller.
pub proof fn law_batches_cover_the_targets(done: nat, total: nat, i: nat)
    requires
        done <= i < total,
    ensures
        ({
            let all = batches(done, total);
            let k = ((i - done) / MAX_CONCURRENCY as int) as int;
            &&& 0 <= k < all.len()
            &&& all[k].0 <= i < all[k].1
            &&& all[k].0 == done + k * MAX_CONCURRENCY
            &&& all[k].1 <= total
            &&& 0 < all[k].1 - all[k].0 <= MAX_CONCURRENCY
            &&& all[k].1 - all[k].0 == MAX_CONCURRENCY || all[k].1 == total
        }),
    decreases total - done,
{
    let all = batches(done, total);
    let (start, end) = batch(done, total)->0;
    let rest = batches(end, total);
    assert(all == seq![(start, end)] + rest);
    let k = (i - done) / MAX_CONCURRENCY as int;
    if i < end {
        assert(k == 0);
    } else {
        law_batches_cover_the_targets(end, total, i);
        let inner = (i - end) / MAX_CONCURRENCY as int;
        assert(end == done + MAX_CONCURRENCY);
        assert(k == inner + 1);
        assert(all[k] == rest[inner]);
    }
}

/// The text that bytes stand for, with what is no text replaced.
pub uninterp spec fn lossy_text(bytes: Seq<u8>) -> Seq<char>;

/// Calls [`String::from_utf8_lossy`], which replaces what is no text by a replacement
/// character and hands text back as it is: the answer depends on the bytes alone.
#[verifier::external_body]
fn text_of_bytes(bytes: &Vec<u8>) -> (res: String)
    ensures
        res@ == lossy_text(bytes@),
        valid_utf8(bytes@) ==> res@ == decode_utf8(bytes@),
{
    String::from_utf8_lossy(bytes).into_owned()
}

/// How far a command came.
#[derive(Debug)]
pub enum ShellEvent {
    /// There is no command to run, for the given reason.
    NoCommand(String),
    /// The command could not be started, for the given reason.
    NotStarted(String),
    /// The command ended: with a code, unless a signal ended it, and with what it put out.
    Ended { code: Option<i32>, stdout: Vec<u8>, stderr: Vec<u8> },
    /// What the command put out could not be read, for the given reason.
    NotRead(String),
    /// The command did not end in time.
    TimedOut,
}

/// The code that a command counts as having ended with.
pub open spec fn code_of(code: Option<i32>) -> i32 {
    match code {
        Some(code) => code,
        None => (-1) as i32,
    }
}

/// How a command ended.
pub open spec fn outcome(event: ShellEvent) -> ResultModel {
    match event {
        ShellEvent::NoCommand(reason) | ShellEvent::NotStarted(reason) | ShellEvent::NotRead(
            reason,
        ) => ResultModel::SpawnError(reason@),
        ShellEvent::Ended { code, stdout, stderr } => ResultModel::Exited {
            exit_code: code_of(code),
            stdout: lossy_text(stdout@),
            stderr: lossy_text(stderr@),
        },
        ShellEvent::TimedOut => ResultModel::Timeout,
    }
}

/// Returns how a command ended, once it is clear how far it came.
pub fn result_of(event: ShellEvent) -> (res: ShellResult)
    ensures
        res@ == outcome(event),
{
    match event {
        ShellEvent::NoCommand(reason) => ShellResult::SpawnError(reason),
        ShellEvent::NotStarted(reason) => ShellResult::SpawnError(reason),
        ShellEvent::NotRead(reason) => ShellResult::SpawnError(reason),
        ShellEvent::Ended { code, stdout, stderr } => {
            ended(code, text_of_bytes(&stdout), text_of_bytes(&stderr))
        },
        ShellEvent::TimedOut => ShellResult::Timeout,
    }
}

/// How a command ended that put out the given texts; without a code it counts as failed.
pub fn ended(code: Option<i32>, stdout: String, stderr: String) -> (res: ShellResult)
    ensures
        res@ == (ResultModel::Exited {
            exit_code: code_of(code),
            stdout: stdout@,
            stderr: stderr@,
        }),
{
    let exit_code: i32 = match code {
        Some(code) => code,
        None => -1,
    };
    ShellResult::Exited { exit_code, stdout, stderr }
}

/// A text without the line break at its end, if it has one.
pub open spec fn stripped(text: Seq<char>) -> Seq<char> {
    let n = text.len() as int;
    if n >= 2 && text[n - 2] == '\r' && text[n - 1] == '\n' {
        text.take(n - 2)
    } else if n >= 1 && text[n - 1] == '\n' {
        text.take(n - 1)
    } else {
        text
    }
}

/// Returns a text without the line break at its end, if it has one; one only is taken off.
pub fn strip_one_trailing_newline(text: &str) -> (res: String)
    ensures
        res@ == stripped(text@),
{
    let n = text.unicode_len();
    if n >= 1 && text.get_char(n - 1) == '\n' {
        if n >= 2 && text.get_char(n - 2) == '\r' {
            text.substring_char(0, n - 2).to_owned()
        } else {
            text.substring_char(0, n - 1).to_owned()
        }
    } else {
        text.to_owned()
    }
}

/// A text without a line break at its end stays as it is; with one put behind it, it comes
/// back.
pub proof fn law_strip_takes_one_line_break(text: Seq<char>)
    ensures
        text.len() > 0 && text.last() != '\n' ==> stripped(text) == text,
        text.len() == 0 ==> stripped(text) == text,
        text.len() == 0 || text.last() != '\r' ==> stripped(text.push('\n')) == text,
        stripped(text.push('\r').push('\n')) == text,
{
    assert(text.push('\n').take(text.len() as int) =~= text);
    assert(text.push('\r').push('\n').take(text.len() as int) =~= text);
}

/// The edit that a result makes, if it makes one: only a command that succeeded does, and
/// only where the mode changes the text.
pub open spec fn edit_of(mode: ShellMode, target: TargetModel, result: ResultModel) -> Option<
    EditModel,
> {
    match result {
        ResultModel::Exited { exit_code: 0, stdout, .. } => match mode {
            ShellMode::PipeReplace => Some((target.range, stripped(stdout))),
            ShellMode::InsertBefore => Some(
                ((target.range.start..target.range.start), stripped(stdout)),
            ),
            ShellMode::AppendAfter => Some(((target.range.end..target.range.end), stripped(stdout))),
            ShellMode::PipeDiscard | ShellMode::KeepIfZero => None,
        },
        _ => None,
    }
}

/// The edits that the first `n` results make, in order.
pub open spec fn edits_of(
    mode: ShellMode,
    targets: Seq<TargetModel>,
    results: Seq<ResultModel>,
    n: nat,
) -> Seq<EditModel>
    decreases n,
{
    if n == 0 {
        Seq::empty()
    } else {
        let before = edits_of(mode, targets, results, (n - 1) as nat);
        match edit_of(mode, targets[n - 1], results[n - 1]) {
            Some(edit) => before.push(edit),
            None => before,
        }
    }
}

/// How many targets have a result.
pub open spec fn pairs(targets: nat, results: nat) -> nat {
    if targets < results {
        targets
    } else {
        results
    }
}

/// Modes that do not change the text make no edit.
pub proof fn law_some_modes_make_no_edit(
    mode: ShellMode,
    targets: Seq<TargetModel>,
    results: Seq<ResultModel>,
    n: nat,
)
    requires
        mode == ShellMode::PipeDiscard || mode == ShellMode::KeepIfZero,
    ensures
        edits_of(mode, targets, results, n) == Seq::<EditModel>::empty(),
    decreases n,
{
    if n > 0 {
        law_some_modes_make_no_edit(mode, targets, results, (n - 1) as nat);
    }
}

/// Whether a command succeeded.
pub open spec fn succeeded(result: ResultModel) -> bool {
    result matches ResultModel::Exited { exit_code: 0, .. }
}

/// Every edit comes from a command that succeeded, and every such command makes one, in
/// the modes that change the text.
pub proof fn law_one_edit_for_each_success(
    mode: ShellMode,
    targets: Seq<TargetModel>,
    results: Seq<ResultModel>,
    n: nat,
)
    requires
        mode != ShellMode::PipeDiscard,
        mode != ShellMode::KeepIfZero,
    ensures
        edits_of(mode, targets, results, n).len() + failures(results, n) == n,
    decreases n,
{
    if n > 0 {
        law_one_edit_for_each_success(mode, targets, results, (n - 1) as nat);
    }
}

/// Whether a command succeeded.
fn is_success(result: &ShellResult) -> (res: bool)
    ensures
        res == succeeded(result@),
{
    match result {
        ShellResult::Exited { exit_code, .. } => *exit_code == 0,
        _ => false,
    }
}

/// Returns the edits that the results make, in order.
pub fn build_edits(mode: ShellMode, targets: &Vec<ShellTarget>, results: &Vec<ShellResult>) -> (res:
    Vec<(Range<Anchor>, String)>)
    ensures
        edit_models(res@) == edits_of(
            mode,
            target_models(targets@),
            result_models(results@),
            pairs(targets@.len(), results@.len()),
        ),
{
    let ghost before_all = target_models(targets@);
    let ghost results_all = result_models(results@);
    let mut edits: Vec<(Range<Anchor>, String)> = Vec::new();
    assert(edit_models(edits@) =~= Seq::empty());
    let mut i: usize = 0;
    while i < targets.len() && i < results.len()
        invariant
            i <= targets@.len(),
            i <= results@.len(),
            before_all == target_models(targets@),
            results_all == result_models(results@),
            edit_models(edits@) == edits_of(mode, before_all, results_all, i as nat),
        decreases targets@.len() - i,
    {
        let ghost before = edit_models(edits@);
        assert(before_all[i as int] == targets@[i as int]@);
        assert(results_all[i as int] == results@[i as int]@);
        if let ShellResult::Exited { exit_code, stdout, .. } = &results[i] {
            if *exit_code == 0 {
                let start = targets[i].range.start;
                let end = targets[i].range.end;
                let range = match mode {
                    ShellMode::PipeReplace => Some(start..end),
                    ShellMode::InsertBefore => Some(start..start),
                    ShellMode::AppendAfter => Some(end..end),
                    ShellMode::PipeDiscard | ShellMode::KeepIfZero => None,
                };
                if let Some(range) = range {
                    let payload = strip_one_trailing_newline(stdout.as_str());
                    let ghost edit = (range, payload@);
                    edits.push((range, payload));
                    assert(edit_models(edits@) =~= before.push(edit));
                }
            }
        }
        i += 1;
    }
    edits
}

/// The ranges of the first `n` targets whose command succeeded, in order.
pub open spec fn kept_of(targets: Seq<TargetModel>, results: Seq<ResultModel>, n: nat) -> Seq<
    Range<Anchor>,
>
    decreases n,
{
    if n == 0 {
        Seq::empty()
    } else {
        let before = kept_of(targets, results, (n - 1) as nat);
        if succeeded(results[n - 1]) {
            before.push(targets[n - 1].range)
        } else {
            before
        }
    }
}

/// Returns the ranges of the targets whose command succeeded, in order.
pub fn kept_selection_ranges(targets: &Vec<ShellTarget>, results: &Vec<ShellResult>) -> (res: Vec<
    Range<Anchor>,
>)
    ensures
        res@ == kept_of(
            target_models(targets@),
            result_models(results@),
            pairs(targets@.len(), results@.len()),
        ),
{
    let mut res: Vec<Range<Anchor>> = Vec::new();
    let mut i: usize = 0;
    while i < targets.len() && i < results.len()
        invariant
            i <= targets@.len(),
            i <= results@.len(),
            res@ == kept_of(target_models(targets@), result_models(results@), i as nat),
        decreases targets@.len() - i,
    {
        assert(target_models(targets@)[i as int] == targets@[i as int]@);
        assert(result_models(results@)[i as int] == results@[i as int]@);
        if is_success(&results[i]) {
            res.push(targets[i].range.start..targets[i].range.end);
        }
        i += 1;
    }
    res
}

/// How many of the first `n` commands did not succeed.
pub open spec fn failures(results: Seq<ResultModel>, n: nat) -> nat
    decreases n,
{
    if n == 0 {
        0
    } else if succeeded(results[n - 1]) {
        failures(results, (n - 1) as nat)
    } else {
        failures(results, (n - 1) as nat) + 1
    }
}

/// Where every command has a result, each either keeps its selection or counts as failed.
pub proof fn law_kept_and_failed(targets: Seq<TargetModel>, results: Seq<ResultModel>, n: nat)
    ensures
        kept_of(targets, results, n).len() + failures(results, n) == n,
    decreases n,
{
    if n > 0 {
        law_kept_and_failed(targets, results, (n - 1) as nat);
    }
}

/// Returns how many commands did not succeed.
fn count_failures(results: &Vec<ShellResult>) -> (res: usize)
    ensures
        res == failures(result_models(results@), results@.len()),
{
    let mut count: usize = 0;
    let mut i: usize = 0;
    while i < results.len()
        invariant
            i <= results@.len(),
            count <= i,
            count == failures(result_models(results@), i as nat),
        decreases results@.len() - i,
    {
        assert(result_models(results@)[i as int] == results@[i as int]@);
        if !is_success(&results[i]) {
            count += 1;
        }
        i += 1;
    }
    count
}

/// What a result says went wrong, if it says anything.
pub open spec fn complaint(result: ResultModel) -> Option<Seq<char>> {
    match result {
        ResultModel::Exited { exit_code, stderr, .. } => if exit_code != 0 && stderr.len() > 0 {
            Some(stderr)
        } else {
            None
        },
        ResultModel::SpawnError(message) => Some(message),
        ResultModel::Timeout => Some("timed out"@),
    }
}

/// The first thing that the results from `i` on say went wrong.
pub open spec fn first_complaint(results: Seq<ResultModel>, i: nat) -> Option<Seq<char>>
    decreases results.len() - i,
{
    if i >= results.len() {
        None
    } else {
        match complaint(results[i as int]) {
            Some(message) => Some(message),
            None => first_complaint(results, i + 1),
        }
    }
}

/// Returns the first thing that the results say went wrong.
fn first_stderr(results: &Vec<ShellResult>) -> (res: Option<String>)
    ensures
        text::text_model(res) == first_complaint(result_models(results@), 0),
{
    let ghost all = result_models(results@);
    let mut i: usize = 0;
    while i < results.len()
        invariant
            i <= results@.len(),
            all == result_models(results@),
            first_complaint(all, 0) == first_complaint(all, i as nat),
        decreases results@.len() - i,
    {
        assert(all[i as int] == results@[i as int]@);
        match &results[i] {
            ShellResult::Exited { exit_code, stderr, .. } => {
                if *exit_code != 0 && !stderr.as_str().is_empty() {
                    return Some(stderr.clone());
                }
            },
            ShellResult::SpawnError(message) => {
                return Some(message.clone());
            },
            ShellResult::Timeout => {
                return Some("timed out".to_owned());
            },
        }
        i += 1;
    }
    None
}

/// Whether a command did not run to its end.
pub open spec fn broke_off(result: ResultModel) -> bool {
    result is SpawnError || result is Timeout
}

/// Whether one of the results is that a command did not run to its end.
fn any_broke_off(results: &Vec<ShellResult>) -> (res: bool)
    ensures
        res == exists|i: int|
            0 <= i < results@.len() && broke_off((#[trigger] result_models(results@)[i])),
{
    let ghost all = result_models(results@);
    let mut i: usize = 0;
    while i < results.len()
        invariant
            i <= results@.len(),
            all == result_models(results@),
            forall|j: int| 0 <= j < i ==> !broke_off(#[trigger] all[j]),
        decreases results@.len() - i,
    {
        assert(all[i as int] == results@[i as int]@);
        match &results[i] {
            ShellResult::Exited { .. } => {},
            _ => {
                assert(broke_off(all[i as int]));
                return true;
            },
        }
        i += 1;
    }
    false
}

/// Whether the user is told how it went. That selections are dropped is expected where
/// selections are kept, so there only commands that did not run to their end count, and
/// that no selection is left.
pub open spec fn tells(mode: ShellMode, targets: Seq<TargetModel>, results: Seq<ResultModel>) -> bool {
    if mode == ShellMode::KeepIfZero {
        ||| exists|i: int| 0 <= i < results.len() && broke_off(#[trigger] results[i])
        ||| kept_of(targets, results, pairs(targets.len(), results.len())).len() == 0
    } else {
        failures(results, results.len()) > 0
    }
}

/// What the user is told.
pub open spec fn message_of(
    mode: ShellMode,
    targets: Seq<TargetModel>,
    results: Seq<ResultModel>,
) -> Seq<char> {
    let counts = "shell: "@ + text::decimal(failures(results, results.len())) + " of "@
        + text::decimal(targets.len()) + " selections failed"@;
    if mode == ShellMode::KeepIfZero && kept_of(
        targets,
        results,
        pairs(targets.len(), results.len()),
    ).len() == 0 {
        "$: no selections matched; primary preserved"@
    } else {
        match first_complaint(results, 0) {
            Some(message) => counts + ": "@ + text::clipped(message, MAX_ERROR_CHARS as nat),
            None => counts,
        }
    }
}

/// Returns how many selections failed, and what went wrong first, in words.
fn failure_message(failure_count: usize, total: usize, complaint: &Option<String>) -> (res: String)
    ensures
        ({
            let counts = "shell: "@ + text::decimal(failure_count as nat) + " of "@
                + text::decimal(total as nat) + " selections failed"@;
            res@ == match text::text_model(*complaint) {
                Some(message) => counts + ": "@ + text::clipped(message, MAX_ERROR_CHARS as nat),
                None => counts,
            }
        }),
{
    let mut res = "shell: ".to_owned();
    text::push_decimal(&mut res, failure_count);
    res.append(" of ");
    text::push_decimal(&mut res, total);
    res.append(" selections failed");
    if let Some(message) = complaint {
        res.append(": ");
        let clipped = text::clip(message.as_str(), MAX_ERROR_CHARS);
        res.append(clipped.as_str());
    }
    res
}

/// What becomes of a run once every command has ended.
#[derive(Debug)]
pub struct ShellOutcome {
    /// The edits to make, all at once.
    pub edits: Vec<(Range<Anchor>, String)>,
    /// The selections to make, where the mode keeps some.
    pub selections: Option<Vec<Range<Anchor>>>,
    /// What the user is told, if anything.
    pub toast: Option<String>,
}

/// The selections that stay: those on which the command succeeded or, where there is none,
/// the primary one.
pub open spec fn stays_selected(
    targets: Seq<TargetModel>,
    primary: int,
    results: Seq<ResultModel>,
) -> Seq<Range<Anchor>> {
    let kept = kept_of(targets, results, pairs(targets.len(), results.len()));
    if kept.len() > 0 {
        kept
    } else {
        seq![targets[primary].range]
    }
}

/// Something always stays selected, and each selection that stays was one before.
pub proof fn law_something_stays_selected(
    targets: Seq<TargetModel>,
    primary: int,
    results: Seq<ResultModel>,
)
    requires
        0 <= primary < targets.len(),
    ensures
        stays_selected(targets, primary, results).len() > 0,
        forall|i: int|
            0 <= i < stays_selected(targets, primary, results).len() ==> is_range_of(
                targets,
                #[trigger] stays_selected(targets, primary, results)[i],
            ),
{
    let n = pairs(targets.len(), results.len());
    let kept = kept_of(targets, results, n);
    let stays = stays_selected(targets, primary, results);
    lemma_kept_was_selected(targets, results, n);
    assert forall|i: int| 0 <= i < stays.len() implies is_range_of(
        targets,
        #[trigger] stays[i],
    ) by {
        if kept.len() > 0 {
            assert(is_range_of(targets, kept[i]));
        } else {
            assert(targets[primary].range == stays[i]);
        }
    }
}

/// Whether a range is that of one of the targets.
pub open spec fn is_range_of(targets: Seq<TargetModel>, range: Range<Anchor>) -> bool {
    exists|k: int| 0 <= k < targets.len() && (#[trigger] targets[k]).range == range
}

proof fn lemma_kept_was_selected(targets: Seq<TargetModel>, results: Seq<ResultModel>, n: nat)
    requires
        n <= targets.len(),
    ensures
        forall|i: int|
            0 <= i < kept_of(targets, results, n).len() ==> is_range_of(
                targets,
                #[trigger] kept_of(targets, results, n)[i],
            ),
    decreases n,
{
    if n > 0 {
        let before = kept_of(targets, results, (n - 1) as nat);
        let all = kept_of(targets, results, n);
        lemma_kept_was_selected(targets, results, (n - 1) as nat);
        assert forall|i: int| 0 <= i < all.len() implies is_range_of(targets, #[trigger] all[i]) by {
            if i < before.len() {
                assert(all[i] == before[i]);
            } else {
                assert(targets[n - 1].range == all[i]);
            }
        }
    }
}

/// Whether an outcome is what becomes of a run with the given results, where the target at
/// `primary` is the primary selection.
pub open spec fn settled(
    mode: ShellMode,
    targets: Seq<TargetModel>,
    primary: int,
    results: Seq<ResultModel>,
    outcome: ShellOutcome,
) -> bool {
    let n = pairs(targets.len(), results.len());
    &&& edit_models(outcome.edits@) == edits_of(mode, targets, results, n)
    &&& outcome.selections is Some <==> mode == ShellMode::KeepIfZero
    &&& outcome.selections matches Some(ranges) ==> ranges@ == stays_selected(
        targets,
        primary,
        results,
    )
    &&& text::text_model(outcome.toast) == if tells(mode, targets, results) {
        Some(message_of(mode, targets, results))
    } else {
        None
    }
}

/// Returns what becomes of a run once every command has ended: the edits that the results
/// make, the selections that stay where the mode keeps some, and what the user is told. The
/// target at `primary` is the primary selection: it stays where no command succeeded.
pub fn settle(
    mode: ShellMode,
    targets: &Vec<ShellTarget>,
    primary: usize,
    results: &Vec<ShellResult>,
) -> (res: ShellOutcome)
    requires
        primary < targets@.len(),
    ensures
        settled(mode, target_models(targets@), primary as int, result_models(results@), res),
{
    let edits = build_edits(mode, targets, results);
    let failure_count = count_failures(results);
    let complaint = first_stderr(results);
    if mode == ShellMode::KeepIfZero {
        let kept = kept_selection_ranges(targets, results);
        if kept.len() == 0 {
            let toast = "$: no selections matched; primary preserved".to_owned();
            let range = targets[primary].range.start..targets[primary].range.end;
            let mut only: Vec<Range<Anchor>> = Vec::new();
            only.push(range);
            proof {
                assert(target_models(targets@)[primary as int] == targets@[primary as int]@);
                assert(only@ =~= seq![targets@[primary as int].range]);
            }
            return ShellOutcome { edits, selections: Some(only), toast: Some(toast) };
        }
        let toast = if any_broke_off(results) {
            Some(failure_message(failure_count, targets.len(), &complaint))
        } else {
            None
        };
        ShellOutcome { edits, selections: Some(kept), toast }
    } else {
        let toast = if failure_count > 0 {
            Some(failure_message(failure_count, targets.len(), &complaint))
        } else {
            None
        };
        ShellOutcome { edits, selections: None, toast }
    }
}

} // verus!
