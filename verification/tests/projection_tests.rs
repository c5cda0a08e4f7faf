use review_todo::file_diff_proxy_models::{FileDiffProxyModels, FilterReviewState, SortCriteria};
use review_todo::git_utils::ChangeType;
use review_todo::repository::DiffFileItem;
use review_todo::sorting::SortOrder;

fn row(id: usize, text: &str, reviewed: bool) -> DiffFileItem {
    DiffFileItem {
        id,
        text: text.to_string(),
        is_reviewed: reviewed,
        added_lines: 0,
        removed_lines: 0,
        change_type: ChangeType::Modified,
    }
}

fn names(rows: &Vec<DiffFileItem>) -> Vec<String> {
    rows.iter().map(|r| r.text.clone()).collect()
}

// Applying the same non-empty filter twice yields what applying it once
// yields; clearing the filter yields the unfiltered source order.
#[test]
fn filter_idempotent_and_empty_filter_is_identity() {
    let rows = vec![row(1, "src/main.rs", false), row(2, "README", true), row(3, "src/lib.rs", false)];
    let mut view = FileDiffProxyModels::new();
    view.set_filter_text("SRC".to_string());
    let once = view.sort_model(&rows);
    let twice = view.sort_model(&once);
    assert_eq!(names(&once), names(&twice));
    assert_eq!(names(&once), vec!["src/lib.rs".to_string(), "src/main.rs".to_string()]);

    view.set_filter_text(String::new());
    let cleared = view.sort_model(&rows);
    assert_eq!(
        names(&cleared),
        vec!["README".to_string(), "src/lib.rs".to_string(), "src/main.rs".to_string()]
    );
}

// Sorting by extension, a file without one sorts after the others, in both
// directions.
#[test]
fn extension_sort_puts_plain_names_last() {
    let rows = vec![row(1, "a.txt", false), row(2, "b.txt", false), row(3, "README", false)];
    let mut view = FileDiffProxyModels::new();
    view.sort_by(SortCriteria::Extension, SortOrder::Ascending);
    let ascending = view.sort_model(&rows);
    assert_eq!(
        names(&ascending),
        vec!["a.txt".to_string(), "b.txt".to_string(), "README".to_string()]
    );
    view.sort_by(SortCriteria::Extension, SortOrder::Descending);
    let descending = view.sort_model(&rows);
    assert_eq!(names(&descending)[2], "README".to_string());
}

#[test]
fn name_sort_is_case_insensitive() {
    let rows = vec![row(1, "Zeta.rs", false), row(2, "alpha.rs", false), row(3, "Beta.rs", false)];
    let view = FileDiffProxyModels::new();
    let sorted = view.sort_model(&rows);
    assert_eq!(
        names(&sorted),
        vec!["alpha.rs".to_string(), "Beta.rs".to_string(), "Zeta.rs".to_string()]
    );
}

#[test]
fn review_state_filter_selects_rows() {
    let rows = vec![row(1, "done.rs", true), row(2, "open.rs", false)];
    let mut view = FileDiffProxyModels::new();
    view.set_filter_review_state(FilterReviewState::Done);
    assert_eq!(names(&view.sort_model(&rows)), vec!["done.rs".to_string()]);
    view.set_filter_review_state(FilterReviewState::Open);
    assert_eq!(names(&view.sort_model(&rows)), vec!["open.rs".to_string()]);
}

#[test]
fn is_done_sort_groups_reviewed_first() {
    let rows = vec![row(1, "b.rs", false), row(2, "a.rs", true)];
    let mut view = FileDiffProxyModels::new();
    view.sort_by(SortCriteria::IsDone, SortOrder::Ascending);
    let sorted = view.sort_model(&rows);
    assert_eq!(names(&sorted), vec!["a.rs".to_string(), "b.rs".to_string()]);
}
