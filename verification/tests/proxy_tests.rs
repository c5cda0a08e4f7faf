use review_todo::commit_proxy_model::CommitProxyModel;
use review_todo::files_proxy_model::FilesProxyModel;
use review_todo::git_utils::{ChangeType, Commit};
use review_todo::notes::Notes;
use review_todo::notes_proxy_models::{NoteSortCriteria, NotesProxyModels};
use review_todo::repository::DiffFileItem;
use review_todo::sorting::SortOrder;

fn commit(hash: &str, message: &str, seconds: i64) -> Commit {
    Commit {
        hash: hash.to_string(),
        message: message.to_string(),
        author: "someone".to_string(),
        date: "unused".to_string(),
        date_seconds: seconds,
    }
}

#[test]
fn commit_history_defaults_to_most_recent_first() {
    let mut view = CommitProxyModel::new();
    view.set_commits(vec![
        commit("a1", "first", 100),
        commit("b2", "second", 300),
        commit("c3", "third", 200),
    ]);
    let sorted = view.sort_model();
    let hashes: Vec<String> = sorted.iter().map(|c| c.hash.clone()).collect();
    assert_eq!(hashes, vec!["b2".to_string(), "c3".to_string(), "a1".to_string()]);
}

#[test]
fn commit_filter_matches_message_case_insensitively() {
    let mut view = CommitProxyModel::new();
    view.set_commits(vec![commit("a1", "Fix the parser", 1), commit("b2", "docs", 2)]);
    view.set_filter_text("FIX".to_string());
    let sorted = view.sort_model();
    assert_eq!(sorted.len(), 1);
    assert_eq!(sorted[0].hash, "a1");
}

#[test]
fn notes_view_filters_both_fields_and_sorts() {
    let mut notes = Notes::default();
    notes.add_note("alpha topic".to_string(), "src/a.rs".to_string());
    notes.add_note("Beta topic".to_string(), "src/b.rs".to_string());
    notes.add_note("other".to_string(), "docs/x.md".to_string());

    let mut view = NotesProxyModels::new();
    view.set_text_filter("topic".to_string());
    view.set_context_filter("src".to_string());
    let rows = view.model(&notes.notes_model());
    assert_eq!(rows.len(), 2);
    assert_eq!(rows[0].text, "alpha topic");
    assert_eq!(rows[1].text, "Beta topic");

    view.set_sorting(NoteSortCriteria::NoteText, SortOrder::Descending);
    let rows = view.model(&notes.notes_model());
    assert_eq!(rows[0].text, "Beta topic");
}

#[test]
fn files_view_lists_matching_names_sorted() {
    let rows = vec![
        DiffFileItem {
            id: 1,
            text: "Zed.rs".to_string(),
            is_reviewed: false,
            added_lines: 0,
            removed_lines: 0,
            change_type: ChangeType::Added,
        },
        DiffFileItem {
            id: 2,
            text: "api.rs".to_string(),
            is_reviewed: false,
            added_lines: 0,
            removed_lines: 0,
            change_type: ChangeType::Added,
        },
        DiffFileItem {
            id: 3,
            text: "notes.md".to_string(),
            is_reviewed: false,
            added_lines: 0,
            removed_lines: 0,
            change_type: ChangeType::Added,
        },
    ];
    let mut view = FilesProxyModel::new();
    view.set_filter_text(".rs".to_string());
    let names = view.files_sort_model(&rows);
    assert_eq!(names, vec!["api.rs".to_string(), "Zed.rs".to_string()]);
}
