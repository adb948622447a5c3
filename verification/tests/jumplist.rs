use codon_core::jumplist::{
    codon_jumplist_entries, for_weak_workspace, for_workspace, workspace_jumplist_entries,
    BufferPoint, JumpStep, JumplistEntry, PathStep, ProjectPath, WorkspaceHistory,
};

fn name(text: &str) -> PathStep {
    PathStep::Name(text.as_bytes().to_vec())
}

fn entry(path: &str, row: Option<u32>, timestamp: usize) -> JumplistEntry {
    let mut steps = vec![PathStep::Root];
    steps.extend(path.split('/').map(name));
    JumplistEntry {
        project_path: ProjectPath { worktree_id: 1, path: path.to_string() },
        abs_path: Some(steps),
        row,
        timestamp,
    }
}

fn labels(entries: &[JumplistEntry]) -> Vec<String> {
    entries
        .iter()
        .map(|entry| format!("{}:{}", entry.project_path.path, entry.row.unwrap_or(0)))
        .collect()
}

#[test]
fn the_most_recent_place_comes_first() {
    let list = codon_jumplist_entries(Some(vec![
        entry("a", Some(1), 3),
        entry("b", Some(2), 9),
        entry("c", Some(3), 5),
    ]));
    assert_eq!(labels(&list), vec!["b:2", "c:3", "a:1"]);
    assert!(codon_jumplist_entries(None).is_empty());
    assert!(codon_jumplist_entries(Some(vec![])).is_empty());
}

#[test]
fn ties_go_by_path() {
    let mut unknown = entry("z", Some(1), 4);
    unknown.abs_path = None;
    let mut above = entry("up", Some(1), 4);
    above.abs_path = Some(vec![PathStep::Root, PathStep::Parent, name("x")]);
    let mut here = entry("here", Some(1), 4);
    here.abs_path = Some(vec![PathStep::Root, PathStep::Current]);
    let list = codon_jumplist_entries(Some(vec![
        entry("b", Some(1), 4),
        entry("a/c", Some(1), 4),
        entry("ab", Some(1), 4),
        entry("a", Some(1), 4),
        above,
        here,
        unknown,
    ]));
    assert_eq!(
        labels(&list),
        vec!["z:1", "here:1", "up:1", "a:1", "a/c:1", "ab:1", "b:1"]
    );
}

#[test]
fn entries_of_the_same_rank_stay_in_order() {
    let list = codon_jumplist_entries(Some(vec![
        entry("a", Some(3), 4),
        entry("a", Some(1), 4),
        entry("a", Some(2), 4),
    ]));
    assert_eq!(labels(&list), vec!["a:3", "a:1", "a:2"]);
}

#[test]
fn a_place_is_not_listed_twice_in_a_row() {
    let list = codon_jumplist_entries(Some(vec![
        entry("a", Some(1), 1),
        entry("a", Some(1), 5),
        entry("a", Some(1), 4),
        entry("b", Some(1), 3),
        entry("a", None, 2),
    ]));
    assert_eq!(labels(&list), vec!["a:1", "b:1", "a:0", "a:1"]);
    assert_eq!(list[0].timestamp, 5);
    let mut other = entry("a", Some(1), 2);
    other.project_path.worktree_id = 2;
    let list = codon_jumplist_entries(Some(vec![entry("a", Some(1), 1), other]));
    assert_eq!(list.len(), 2);
}

#[test]
fn a_workspace_lists_all_panes() {
    let panes = || {
        vec![
            vec![entry("a", Some(1), 1), entry("b", Some(2), 4)],
            vec![],
            vec![entry("c", Some(3), 2)],
        ]
    };
    assert_eq!(labels(&workspace_jumplist_entries(panes())), vec!["b:2", "c:3", "a:1"]);
    let unfocused = WorkspaceHistory { panes: panes(), focused_editor: None };
    assert_eq!(labels(&for_workspace(unfocused)), vec!["b:2", "c:3", "a:1"]);
    let focused = WorkspaceHistory { panes: panes(), focused_editor: Some(0) };
    assert_eq!(labels(&for_weak_workspace(Some(focused))), vec!["b:2", "a:1"]);
    assert!(for_weak_workspace(None).is_empty());
}

#[test]
fn a_jump_goes_to_the_row_if_an_editor_opens() {
    let there = entry("a", Some(7), 1);
    let target = BufferPoint { row: 6, column: 0 };
    assert_eq!(there.jump_to_entry(Some(true)), JumpStep::Settle(Some(target)));
    assert_eq!(there.jump_to_entry(Some(false)), JumpStep::Stop);
    assert_eq!(there.jump_to_entry(None), JumpStep::Stop);
    let top = entry("a", Some(0), 1);
    let start = BufferPoint { row: 0, column: 0 };
    assert_eq!(top.jump_to_entry(Some(true)), JumpStep::Settle(Some(start)));
    assert_eq!(entry("a", None, 1).jump_to_entry(Some(true)), JumpStep::Settle(None));
}

#[test]
fn the_entry_before_stands_for_one_that_is_left_out() {
    let list = codon_jumplist_entries(Some(vec![
        entry("a", Some(1), 2),
        entry("a", Some(1), 8),
        entry("b", Some(1), 1),
    ]));
    assert_eq!(labels(&list), vec!["a:1", "b:1"]);
    assert_eq!(list[0].timestamp, 8);
}
