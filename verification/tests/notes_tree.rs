use flashpad::db::{folder_insert_order, FolderRow};
use flashpad::notes::{
    apply_note_update, cycle_check_next, cycle_check_start, duplicate_values, new_note_values,
    reorder_siblings, CycleStep, Note, NoteInput, NoteUpdate, TreeKind,
};

fn note(title: &str, content: &str, locked: bool) -> Note {
    Note {
        id: 5,
        title: title.to_string(),
        content: content.to_string(),
        parent_id: Some(2),
        created_at: "2026-01-01T00:00:00".to_string(),
        updated_at: "2026-01-01T00:00:00".to_string(),
        is_markdown: true,
        is_locked: locked,
        sort_order: 3,
    }
}

fn update(title: Option<&str>, content: Option<&str>, locked: Option<bool>) -> NoteUpdate {
    NoteUpdate {
        id: 5,
        title: title.map(|s| s.to_string()),
        content: content.map(|s| s.to_string()),
        is_markdown: None,
        is_locked: locked,
    }
}

#[test]
fn new_notes_default_to_untitled_plain_unlocked() {
    let n = new_note_values(NoteInput {
        title: None,
        content: None,
        parent_id: Some(4),
        is_markdown: None,
        is_locked: None,
    });
    assert_eq!(n.title, "Untitled");
    assert_eq!(n.content, "");
    assert_eq!(n.parent_id, Some(4));
    assert!(!n.is_markdown && !n.is_locked);
    let n = new_note_values(NoteInput {
        title: Some("Hi".to_string()),
        content: Some("x".to_string()),
        parent_id: None,
        is_markdown: Some(true),
        is_locked: Some(true),
    });
    assert_eq!((n.title.as_str(), n.content.as_str()), ("Hi", "x"));
    assert!(n.is_markdown && n.is_locked);
}

#[test]
fn locked_notes_refuse_text_edits_unless_unlocked() {
    let locked = note("T", "C", true);
    assert_eq!(
        apply_note_update(&locked, update(Some("T2"), None, None)).unwrap_err(),
        "Note is locked"
    );
    assert!(apply_note_update(&locked, update(None, Some("C2"), Some(true))).is_err());
    let same = apply_note_update(&locked, update(Some("T"), Some("C"), None)).unwrap();
    assert_eq!((same.title.as_str(), same.content.as_str()), ("T", "C"));
    let unlocked = apply_note_update(&locked, update(Some("T2"), None, Some(false))).unwrap();
    assert_eq!(unlocked.title, "T2");
    assert!(!unlocked.is_locked);
    let open = apply_note_update(&note("T", "C", false), update(None, Some("new"), None)).unwrap();
    assert_eq!(open.content, "new");
    assert_eq!(open.title, "T");
    assert!(open.is_markdown);
}

#[test]
fn duplicates_are_unlocked_copies() {
    let d = duplicate_values(&note("Plan", "body", true));
    assert_eq!(d.title, "Plan (copy)");
    assert_eq!(d.content, "body");
    assert_eq!(d.parent_id, Some(2));
    assert!(d.is_markdown);
    assert!(!d.is_locked);
}

#[test]
fn reorder_places_note_before_target_or_at_end() {
    assert_eq!(reorder_siblings(vec![1, 2, 3], 9, Some(2)), vec![1, 9, 2, 3]);
    assert_eq!(reorder_siblings(vec![1, 2, 3], 9, Some(1)), vec![9, 1, 2, 3]);
    assert_eq!(reorder_siblings(vec![1, 2, 3], 9, None), vec![1, 2, 3, 9]);
    assert_eq!(reorder_siblings(vec![1, 2, 3], 9, Some(77)), vec![1, 2, 3, 9]);
    assert_eq!(reorder_siblings(vec![], 9, Some(1)), vec![9]);
}

fn run(kind: TreeKind, id: i64, target: Option<i64>, parents: &[(i64, Option<i64>)]) -> Result<(), String> {
    let mut step = cycle_check_start(kind, id, target);
    loop {
        match step {
            CycleStep::Accept => return Ok(()),
            CycleStep::Reject(m) => return Err(m),
            CycleStep::LookUpParentOf(n) => {
                let p = parents.iter().find(|(i, _)| *i == n).map(|(_, p)| *p).unwrap();
                step = cycle_check_next(kind, id, p);
            }
        }
    }
}

#[test]
fn moves_into_self_or_descendants_are_refused() {
    // 1 -> 2 -> 3 (3 is a child of 2, which is a child of 1), 4 is a root
    let tree = [(1, None), (2, Some(1)), (3, Some(2)), (4, None)];
    assert_eq!(run(TreeKind::Notes, 2, Some(2), &tree), Err("A note cannot be moved into itself".to_string()));
    assert_eq!(
        run(TreeKind::Notes, 1, Some(3), &tree),
        Err("Cannot move a note into one of its own subnotes".to_string())
    );
    assert_eq!(run(TreeKind::Notes, 3, Some(4), &tree), Ok(()));
    assert_eq!(run(TreeKind::Notes, 3, Some(1), &tree), Ok(()));
    assert_eq!(run(TreeKind::Notes, 3, None, &tree), Ok(()));
    assert_eq!(
        run(TreeKind::Folders, 1, Some(2), &tree),
        Err("Cannot move a folder into one of its own subfolders".to_string())
    );
    assert_eq!(run(TreeKind::Folders, 4, Some(4), &tree), Err("A folder cannot be moved into itself".to_string()));
}

fn row(id: i64, parent: Option<i64>) -> FolderRow {
    FolderRow { id, name: format!("f{id}"), parent_id: parent }
}

#[test]
fn folders_migrate_parents_before_children() {
    // children listed before their parents
    let rows = vec![row(3, Some(2)), row(2, Some(1)), row(1, None), row(4, None)];
    assert_eq!(folder_insert_order(&rows), vec![2, 3, 1, 0]);
    // a dangling parent and a cycle are left out
    let rows = vec![row(1, None), row(2, Some(99)), row(5, Some(6)), row(6, Some(5)), row(7, Some(1))];
    assert_eq!(folder_insert_order(&rows), vec![0, 4]);
    assert!(folder_insert_order(&vec![]).is_empty());
}
