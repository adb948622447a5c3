use codon_core::shell::{
    build_edits, ended, kept_selection_ranges, next_batch, palette_prefill, result_of, run_shell,
    settle, start_run, strip_one_trailing_newline, Anchor, ShellEvent, ShellMode, ShellPrompt, ShellResult,
    ShellRun, ShellSelection, ShellTarget,
};

fn target(start: u64, end: u64, stdin: &str) -> ShellTarget {
    ShellTarget {
        range: Anchor::At(start)..Anchor::At(end),
        stdin: stdin.to_string(),
    }
}

fn exited(exit_code: i32, stdout: &str, stderr: &str) -> ShellResult {
    ShellResult::Exited {
        exit_code,
        stdout: stdout.to_string(),
        stderr: stderr.to_string(),
    }
}

#[test]
fn strip_one_trailing_newline_unix() {
    assert_eq!(strip_one_trailing_newline("hello\n"), "hello");
    assert_eq!(strip_one_trailing_newline("hello\n\n"), "hello\n");
    assert_eq!(strip_one_trailing_newline("hello"), "hello");
}

#[test]
fn strip_one_trailing_newline_windows() {
    assert_eq!(strip_one_trailing_newline("hello\r\n"), "hello");
}

#[test]
fn strip_one_trailing_newline_keeps_what_is_no_line_break() {
    assert_eq!(strip_one_trailing_newline(""), "");
    assert_eq!(strip_one_trailing_newline("\n"), "");
    assert_eq!(strip_one_trailing_newline("\r"), "\r");
    assert_eq!(strip_one_trailing_newline("ü\r\n\n"), "ü\r\n");
}

#[test]
fn build_edits_skips_failed_results() {
    // PipeReplace with one OK and one non-zero result yields one
    // edit (the OK selection) only.
    let targets = vec![
        ShellTarget { range: Anchor::Min..Anchor::Min, stdin: "a".to_string() },
        ShellTarget { range: Anchor::Min..Anchor::Min, stdin: "b".to_string() },
    ];
    let results = vec![
        ShellResult::Exited {
            exit_code: 0,
            stdout: "ok\n".to_string(),
            stderr: String::new(),
        },
        ShellResult::Exited {
            exit_code: 1,
            stdout: String::new(),
            stderr: "boom".to_string(),
        },
    ];
    let edits = build_edits(ShellMode::PipeReplace, &targets, &results);
    assert_eq!(edits.len(), 1);
    assert_eq!(edits[0].1, "ok");
}

#[test]
fn build_edits_pipe_discard_and_keep_if_zero_return_no_edits() {
    let targets = vec![ShellTarget {
        range: Anchor::Min..Anchor::Min,
        stdin: String::new(),
    }];
    let results = vec![ShellResult::Exited {
        exit_code: 0,
        stdout: "ok\n".to_string(),
        stderr: String::new(),
    }];
    assert!(build_edits(ShellMode::PipeDiscard, &targets, &results).is_empty());
    assert!(build_edits(ShellMode::KeepIfZero, &targets, &results).is_empty());
}

#[test]
fn kept_ranges_drop_non_zero_exits() {
    let targets = vec![
        ShellTarget { range: Anchor::Min..Anchor::Min, stdin: String::new() },
        ShellTarget { range: Anchor::Min..Anchor::Min, stdin: String::new() },
    ];
    let results = vec![
        ShellResult::Exited { exit_code: 0, stdout: String::new(), stderr: String::new() },
        ShellResult::Exited { exit_code: 1, stdout: String::new(), stderr: String::new() },
    ];
    assert_eq!(kept_selection_ranges(&targets, &results).len(), 1);
}

#[test]
fn edits_go_where_the_mode_says() {
    let targets = vec![target(3, 7, "")];
    let results = vec![exited(0, "out\n", "")];
    let replace = build_edits(ShellMode::PipeReplace, &targets, &results);
    assert_eq!(replace, vec![(Anchor::At(3)..Anchor::At(7), "out".to_string())]);
    let insert = build_edits(ShellMode::InsertBefore, &targets, &results);
    assert_eq!(insert, vec![(Anchor::At(3)..Anchor::At(3), "out".to_string())]);
    let append = build_edits(ShellMode::AppendAfter, &targets, &results);
    assert_eq!(append, vec![(Anchor::At(7)..Anchor::At(7), "out".to_string())]);
    let failed = vec![ShellResult::Timeout];
    assert!(build_edits(ShellMode::AppendAfter, &targets, &failed).is_empty());
}

#[test]
fn a_run_reads_the_selections_where_the_mode_does() {
    let selections = vec![
        ShellSelection { range: Anchor::At(0)..Anchor::At(2), text: "ab".to_string() },
        ShellSelection { range: Anchor::At(4)..Anchor::At(4), text: String::new() },
    ];
    let job = run_shell(ShellMode::PipeReplace, "sort", true, &selections, 0).unwrap();
    assert_eq!(job.targets.len(), 2);
    assert_eq!(job.targets[0].stdin, "ab");
    assert_eq!(job.targets[1].range, Anchor::At(4)..Anchor::At(4));
    let job = run_shell(ShellMode::InsertBefore, "date", true, &selections, 0).unwrap();
    assert_eq!(job.targets[0].stdin, "");
    assert!(run_shell(ShellMode::PipeReplace, " \t\n\u{a0}", true, &selections, 0).is_none());
    assert!(run_shell(ShellMode::PipeReplace, "", true, &selections, 0).is_none());
    assert!(run_shell(ShellMode::PipeReplace, "sort", false, &selections, 0).is_none());
    assert!(run_shell(ShellMode::PipeReplace, "sort", true, &vec![], 0).is_none());
    assert!(ShellMode::KeepIfZero.needs_stdin());
    assert!(!ShellMode::AppendAfter.needs_stdin());
}

#[test]
fn a_run_goes_in_batches() {
    assert_eq!(next_batch(0, 20), Some((0, 8)));
    assert_eq!(next_batch(8, 20), Some((8, 16)));
    assert_eq!(next_batch(16, 20), Some((16, 20)));
    assert_eq!(next_batch(20, 20), None);
    assert_eq!(next_batch(0, 8), Some((0, 8)));
    let selections: Vec<ShellSelection> = (0..11)
        .map(|n| ShellSelection {
            range: Anchor::At(n)..Anchor::At(n + 1),
            text: format!("{}", n),
        })
        .collect();
    let mut job = run_shell(ShellMode::PipeReplace, "cat", true, &selections, 0).unwrap();
    let mut sizes = vec![];
    while let Some((start, end)) = job.next_batch() {
        sizes.push(end - start);
        let results = job.targets[start..end]
            .iter()
            .map(|target| exited(0, &target.stdin, ""))
            .collect();
        job.deliver(results);
    }
    assert_eq!(sizes, vec![8, 3]);
    let outcome = job.finish();
    assert_eq!(outcome.edits.len(), 11);
    assert_eq!(outcome.edits[10].1, "10");
    assert!(outcome.selections.is_none());
    assert!(outcome.toast.is_none());
}

#[test]
fn a_command_ends_in_one_of_several_ways() {
    let ended_well = result_of(ShellEvent::Ended {
        code: Some(0),
        stdout: "grüße\n".as_bytes().to_vec(),
        stderr: vec![b'a', 0xff, b'b'],
    });
    match ended_well {
        ShellResult::Exited { exit_code, stdout, stderr } => {
            assert_eq!(exit_code, 0);
            assert_eq!(stdout, "grüße\n");
            assert_eq!(stderr, "a\u{fffd}b");
        }
        _ => panic!("the command ended"),
    }
    match ended(None, String::new(), String::new()) {
        ShellResult::Exited { exit_code, .. } => assert_eq!(exit_code, -1),
        _ => panic!("the command ended"),
    }
    let reason = || "no such shell".to_string();
    for event in [
        ShellEvent::NoCommand(reason()),
        ShellEvent::NotStarted(reason()),
        ShellEvent::NotRead(reason()),
    ] {
        assert!(matches!(result_of(event), ShellResult::SpawnError(message) if message == reason()));
    }
    assert!(matches!(result_of(ShellEvent::TimedOut), ShellResult::Timeout));
}

#[test]
fn failures_are_told() {
    let targets: Vec<ShellTarget> = (0..12).map(|n| target(n, n, "")).collect();
    let mut results: Vec<ShellResult> = (0..12).map(|_| exited(0, "", "")).collect();
    results[3] = exited(2, "", "");
    results[5] = exited(1, "", "boom");
    results[7] = ShellResult::Timeout;
    let outcome = settle(ShellMode::PipeReplace, &targets, 0, &results);
    assert_eq!(
        outcome.toast.as_deref(),
        Some("shell: 3 of 12 selections failed: boom")
    );
    assert_eq!(outcome.edits.len(), 9);
    let quiet = settle(ShellMode::PipeDiscard, &vec![target(0, 1, "")], 0, &vec![exited(1, "x", "")]);
    assert_eq!(quiet.toast.as_deref(), Some("shell: 1 of 1 selections failed"));
    let late = settle(ShellMode::InsertBefore, &vec![target(0, 1, "")], 0, &vec![ShellResult::Timeout]);
    assert_eq!(
        late.toast.as_deref(),
        Some("shell: 1 of 1 selections failed: timed out")
    );
    let long = "é".repeat(200);
    let spawn = settle(
        ShellMode::AppendAfter,
        &vec![target(0, 1, "")],
        0,
        &vec![ShellResult::SpawnError(long)],
    );
    let expected = format!("shell: 1 of 1 selections failed: {}", "é".repeat(120));
    assert_eq!(spawn.toast, Some(expected));
}

#[test]
fn dropped_selections_are_expected_when_keeping() {
    let targets = vec![target(0, 1, "a"), target(2, 3, "b")];
    let some = settle(
        ShellMode::KeepIfZero,
        &targets,
        1,
        &vec![exited(0, "", ""), exited(1, "", "no")],
    );
    assert_eq!(some.selections, Some(vec![Anchor::At(0)..Anchor::At(1)]));
    assert!(some.toast.is_none());
    assert!(some.edits.is_empty());
    let none = settle(
        ShellMode::KeepIfZero,
        &targets,
        1,
        &vec![exited(1, "", ""), exited(1, "", "no")],
    );
    assert_eq!(none.selections, Some(vec![Anchor::At(2)..Anchor::At(3)]));
    assert!(none.edits.is_empty());
    assert_eq!(
        none.toast.as_deref(),
        Some("$: no selections matched; primary preserved")
    );
    let first = settle(ShellMode::KeepIfZero, &targets, 0, &vec![]);
    assert_eq!(first.selections, Some(vec![Anchor::At(0)..Anchor::At(1)]));
    let broken = settle(
        ShellMode::KeepIfZero,
        &targets,
        1,
        &vec![exited(0, "", ""), ShellResult::SpawnError("gone".to_string())],
    );
    assert_eq!(
        broken.toast.as_deref(),
        Some("shell: 1 of 2 selections failed: gone")
    );
}

#[test]
fn prompts_prefill_their_verb() {
    assert_eq!(palette_prefill(ShellPrompt::PipeSelection), ":pipe ");
    assert_eq!(palette_prefill(ShellPrompt::PipeTo), ":pipe-to ");
    assert_eq!(palette_prefill(ShellPrompt::InsertOutput), ":insert-output ");
    assert_eq!(palette_prefill(ShellPrompt::AppendOutput), ":append-output ");
    assert_eq!(palette_prefill(ShellPrompt::KeepPipe), ":keep-pipe ");
}

#[test]
fn a_run_pipes_by_default() {
    let run = ShellRun::default();
    assert_eq!(run.mode, ShellMode::PipeReplace);
    assert_eq!(run.cmd, "");
    assert_eq!(ShellMode::default(), ShellMode::PipeReplace);
}

#[test]
fn a_run_starts_unless_there_is_nothing_to_run() {
    let selections = vec![ShellSelection {
        range: Anchor::At(3)..Anchor::At(5),
        text: "ab".to_string(),
    }];
    let job = start_run(ShellMode::KeepIfZero, false, true, &selections, 0).unwrap();
    assert_eq!(job.mode, ShellMode::KeepIfZero);
    assert_eq!(job.targets[0].range, Anchor::At(3)..Anchor::At(5));
    assert_eq!(job.targets[0].stdin, "ab");
    assert!(job.results.is_empty());
    let job = start_run(ShellMode::AppendAfter, false, true, &selections, 0).unwrap();
    assert_eq!(job.targets[0].stdin, "");
    assert!(start_run(ShellMode::PipeReplace, true, true, &selections, 0).is_none());
    assert!(start_run(ShellMode::PipeReplace, false, false, &selections, 0).is_none());
    assert!(start_run(ShellMode::PipeReplace, false, true, &vec![], 0).is_none());
}

#[test]
fn the_primary_selection_stays_where_no_command_succeeds() {
    let selections: Vec<ShellSelection> = (0..3)
        .map(|n| ShellSelection {
            range: Anchor::At(n)..Anchor::At(n + 1),
            text: "x".to_string(),
        })
        .collect();
    let mut job = run_shell(ShellMode::KeepIfZero, "false", true, &selections, 2).unwrap();
    assert_eq!(job.next_batch(), Some((0, 3)));
    job.deliver((0..3).map(|_| exited(1, "", "")).collect());
    assert_eq!(job.primary, 2);
    let outcome = job.finish();
    assert_eq!(outcome.selections, Some(vec![Anchor::At(2)..Anchor::At(3)]));
    assert!(outcome.edits.is_empty());
    assert_eq!(
        outcome.toast.as_deref(),
        Some("$: no selections matched; primary preserved")
    );
}
