use review_todo::git_utils::{ChangeType, DiffStatus};
use review_todo::id_model::IdModel;
use review_todo::repository::Repository;

#[test]
fn create_query_remove() {
    let mut model: IdModel<String> = IdModel::new();
    let foo_id = 1;
    let bar_id = 2;
    model.add(foo_id, "foo".to_string());
    model.add(bar_id, "bar".to_string());
    model.remove(foo_id);
    assert_eq!(model.row_count(), 1);
    assert_eq!(model.row_data(0), Some(&"bar".to_string()));
    let baz_id = 3;
    model.add(baz_id, "baz".to_string());
    assert_eq!(model.get(baz_id), Some(&"baz".to_string()));
}

fn entry(path: &str, added: u32, removed: u32, ct: ChangeType) -> (String, DiffStatus) {
    (path.to_string(), DiffStatus { added_lines: added, removed_lines: removed, change_type: ct })
}

// The scenario: a repository with two unreviewed rows; the new diff keeps
// one path unchanged, drops the other, and brings one new path.
#[test]
fn reconcile_partial_overlap_scenario() {
    let mut repo = Repository::default();
    let initial = vec![
        entry("a.rs", 5, 0, ChangeType::Modified),
        entry("b.rs", 0, 3, ChangeType::Modified),
    ];
    repo.merge_file_diff_map(initial);
    let rows = repo.rows_vec();
    assert_eq!(rows.len(), 2);
    let a_id = rows[0].id;
    assert_eq!(rows[0].text, "a.rs");
    assert_eq!(rows[1].text, "b.rs");
    assert!(!rows[0].is_reviewed);
    assert!(!rows[1].is_reviewed);

    let fresh = vec![
        entry("a.rs", 5, 0, ChangeType::Modified),
        entry("c.rs", 2, 0, ChangeType::Added),
    ];
    repo.merge_file_diff_map(fresh);
    let rows = repo.rows_vec();
    assert_eq!(rows.len(), 2);
    // the surviving row keeps its identity and flag
    assert_eq!(rows[0].text, "a.rs");
    assert_eq!(rows[0].id, a_id);
    assert!(!rows[0].is_reviewed);
    assert_eq!(rows[0].added_lines, 5);
    assert_eq!(rows[0].removed_lines, 0);
    // the vanished row is gone, the new row is fresh and unreviewed
    assert_eq!(rows[1].text, "c.rs");
    assert!(rows[1].is_reviewed == false);
    assert!(rows[1].id != a_id);
    // totals
    assert_eq!(repo.statistics().added_lines, 7);
    assert_eq!(repo.statistics().removed_lines, 0);
}

#[test]
fn reconcile_same_paths_keeps_identities() {
    let mut repo = Repository::default();
    repo.merge_file_diff_map(vec![
        entry("x.c", 1, 1, ChangeType::Modified),
        entry("y.c", 2, 2, ChangeType::Modified),
    ]);
    let before = repo.rows_vec();
    repo.toggle_file_is_reviewed(before[0].id);
    let changed = repo.merge_file_diff_map(vec![
        entry("x.c", 9, 1, ChangeType::Modified),
        entry("y.c", 2, 2, ChangeType::Modified),
    ]);
    assert!(changed.is_some());
    let after = repo.rows_vec();
    assert_eq!(after.len(), 2);
    assert_eq!(after[0].id, before[0].id);
    assert_eq!(after[1].id, before[1].id);
    assert!(after[0].is_reviewed);
    assert_eq!(after[0].added_lines, 9);
    assert_eq!(after[1].added_lines, 2);
}

// A classification change alone, with the line counts tying, still
// refreshes the row and reports a change.
#[test]
fn reconcile_refreshes_classification_only_changes() {
    let mut repo = Repository::default();
    repo.merge_file_diff_map(vec![entry("x.c", 1, 1, ChangeType::Modified)]);
    let before = repo.rows_vec();
    let report = repo.merge_file_diff_map(vec![entry("x.c", 1, 1, ChangeType::Renamed)]);
    assert!(report.is_some());
    let after = repo.rows_vec();
    assert_eq!(after[0].id, before[0].id);
    assert_eq!(after[0].change_type, ChangeType::Renamed);
    assert_eq!(repo.statistics().statistics_model[0].change_type, ChangeType::Renamed);
    assert_eq!(repo.statistics().statistics_model[0].count, 1);
}

#[test]
fn reconcile_identical_stats_reports_nothing() {
    let mut repo = Repository::default();
    repo.merge_file_diff_map(vec![entry("x.c", 1, 1, ChangeType::Modified)]);
    let report = repo.merge_file_diff_map(vec![entry("x.c", 1, 1, ChangeType::Modified)]);
    assert!(report.is_none());
}

#[test]
fn reconcile_disjoint_replaces_everything() {
    let mut repo = Repository::default();
    repo.merge_file_diff_map(vec![entry("old.rs", 1, 0, ChangeType::Added)]);
    let old_id = repo.rows_vec()[0].id;
    repo.toggle_file_is_reviewed(old_id);
    repo.merge_file_diff_map(vec![
        entry("new1.rs", 4, 0, ChangeType::Added),
        entry("new2.rs", 0, 4, ChangeType::Deleted),
    ]);
    let rows = repo.rows_vec();
    assert_eq!(rows.len(), 2);
    assert_eq!(rows[0].text, "new1.rs");
    assert_eq!(rows[1].text, "new2.rs");
    assert!(!rows[0].is_reviewed);
    assert!(!rows[1].is_reviewed);
    assert!(rows[0].id != old_id);
    assert!(rows[1].id != old_id);
}

#[test]
fn statistics_breakdown_counts_by_tag() {
    let mut repo = Repository::default();
    repo.merge_file_diff_map(vec![
        entry("a", 1, 0, ChangeType::Added),
        entry("b", 2, 0, ChangeType::Added),
        entry("c", 0, 5, ChangeType::Deleted),
    ]);
    let stats = repo.statistics();
    assert_eq!(stats.added_lines, 3);
    assert_eq!(stats.removed_lines, 5);
    assert_eq!(stats.statistics_model.len(), 2);
    assert_eq!(stats.statistics_model[0].change_type, ChangeType::Added);
    assert_eq!(stats.statistics_model[0].count, 2);
    assert_eq!(stats.statistics_model[1].change_type, ChangeType::Deleted);
    assert_eq!(stats.statistics_model[1].count, 1);
}
