use mockcmd::{mock, was_command_executed};

use review_todo::git_utils::{
    diff_git_repo, first_commit, query_commits, query_diff_tools, repo_contains_commit,
    ChangeType, DiffStatus,
};

fn repo_dir() -> String {
    "/repo".to_string()
}

fn stat_of(map: &Vec<(String, DiffStatus)>, file: &str) -> Option<DiffStatus> {
    for (f, st) in map.iter() {
        if f == file {
            return Some(*st);
        }
    }
    None
}

#[test]
fn test_first_commit() {
    let path = repo_dir();

    let args = ["-C", &path, "rev-list", "--max-parents=0", "HEAD"];

    mock("git")
        .with_args(&args)
        .with_stdout("9f89049b7f99682c48474d421ac126316adaed15")
        .register();

    let result = first_commit(&path);

    let expected_cmd = [&["git"], &args[..]].concat();
    assert!(was_command_executed(&expected_cmd));

    assert!(result.is_some());
    assert_eq!(result.unwrap(), "9f89049b7f99682c48474d421ac126316adaed15".to_string());
}

#[test]
fn test_repo_contains_commit() {
    let path = repo_dir();
    let commit = "9f89049b7f99682c48474d421ac126316adaed15";
    let args = ["-C", &path, "cat-file", "-t", commit];

    mock("git").with_args(&args).with_stdout("commit").register();

    let expected_cmd = [&["git"], &args[..]].concat();

    let result = repo_contains_commit(&path, commit);

    assert!(was_command_executed(&expected_cmd));

    assert!(result.is_some());
    assert!(result.unwrap());
}

#[test]
fn test_diff_git_repo() {
    let path = repo_dir();

    let start_commit = "70989e0fbda7919d357c0183e62294423f3d9425";
    let end_commit = "68c5f4631d6e6b040d7887f7445cf1ad4006e1a5";
    let git_status_args = ["-C", &path, "diff", "--name-status", start_commit, end_commit];

    mock("git")
        .with_args(&git_status_args)
        .with_stdout("A       rustfmt.toml\nA       src/lib.rs\nM       src/main.rs\n")
        .register();

    let git_file_status_args = ["-C", &path, "diff", "-z", "--numstat", start_commit, end_commit];

    mock("git")
        .with_args(&git_file_status_args)
        .with_stdout("6       0       rustfmt.toml\0137       0       src/lib.rs\022  94      src/main.rs\0")
        .register();

    let result = diff_git_repo(&path, start_commit, end_commit);

    let expected_git_status_cmd = [&["git"], &git_status_args[..]].concat();
    assert!(was_command_executed(&expected_git_status_cmd));

    let expected_git_file_status_cmd = [&["git"], &git_file_status_args[..]].concat();
    assert!(was_command_executed(&expected_git_file_status_cmd));

    assert!(result.is_some());
    let stats = result.unwrap();
    assert_eq!(stats.len(), 3);
    assert_eq!(
        stat_of(&stats, "src/lib.rs"),
        Some(DiffStatus { added_lines: 137, removed_lines: 0, change_type: ChangeType::Added })
    );
    assert_eq!(
        stat_of(&stats, "src/main.rs"),
        Some(DiffStatus { added_lines: 22, removed_lines: 94, change_type: ChangeType::Modified })
    );
    assert_eq!(
        stat_of(&stats, "rustfmt.toml"),
        Some(DiffStatus { added_lines: 6, removed_lines: 0, change_type: ChangeType::Added })
    );
}

#[test]
fn test_query_commits() {
    let path = repo_dir();

    let args = ["-C", &path, "--no-pager", "log", "--first-parent", "--pretty=format:\"%h¦%an¦%aI¦%s\""];
    let output = "70989e0¦Christian von Wascinski¦2023-10-16T22:34:17+02:00¦feature: add open comments.\n\
                                    dd02a7c¦Christian von Wascinski¦2023-10-15T16:25:02+02:00¦feature: Add saving notes as todo.txt\n\
                                    9f89049¦Christian von Wascinski¦2023-10-14T10:05:19+02:00¦Initial commit\n";

    mock("git").with_args(&args).with_stdout(output).register();

    let commits = query_commits(&path);

    let expected_git_cmd = [&["git"], &args[..]].concat();
    assert!(was_command_executed(&expected_git_cmd));

    assert!(commits.is_some());
    let commits = commits.unwrap();

    assert_eq!(commits.len(), 3);
    let first_commit = commits.last().unwrap();

    assert_eq!(first_commit.hash, "9f89049");
    assert_eq!(first_commit.message, "Initial commit");
    assert_eq!(first_commit.author, "Christian von Wascinski");
    assert_eq!(first_commit.date, "2023-10-14 10:05:19 +02:00");
}

#[test]
fn test_query_diff_tools() {
    let home = dirs::home_dir()
        .and_then(|p| p.to_str().map(|s| s.to_string()))
        .unwrap_or_default();
    let args = [
        "-C",
        &home,
        "config",
        "get",
        "--all",
        "--show-names",
        "--regexp",
        "difftool\\..*\\.(cmd|path)",
    ];

    mock("git")
        .with_args(&args)
        .with_stdout("difftool.vscode.cmd code --new-window --wait --diff $LOCAL $REMOTE")
        .register();

    let diff_tools_result = query_diff_tools();

    let expected_git_cmd = [&["git"], &args[..]].concat();
    assert!(was_command_executed(&expected_git_cmd));

    assert!(diff_tools_result.is_some());

    let diff_tools = diff_tools_result.unwrap();
    assert!(diff_tools.len() > 0);

    assert!(diff_tools.contains(&"vscode".to_string()));
}

#[test]
fn parse_name_status_rejects_malformed_line() {
    assert!(review_todo::git_utils::parse_name_status("A\n").is_none());
    assert!(review_todo::git_utils::parse_name_status("R100    old.rs\n").is_none());
}

#[test]
fn parse_name_status_reads_rename_target() {
    let entries = review_todo::git_utils::parse_name_status("R100  old.rs  new.rs\n").unwrap();
    assert_eq!(entries.len(), 1);
    assert_eq!(entries[0].0, "new.rs");
    assert_eq!(entries[0].1, ChangeType::Renamed);
}

#[test]
fn parse_count_reads_numbers_and_binary_dash() {
    assert_eq!(review_todo::git_utils::parse_count("137"), Some(137));
    assert_eq!(review_todo::git_utils::parse_count("-"), Some(0));
    assert_eq!(review_todo::git_utils::parse_count(""), None);
    assert_eq!(review_todo::git_utils::parse_count("12a"), None);
    assert_eq!(review_todo::git_utils::parse_count("99999999999"), None);
}

#[test]
fn change_type_letters_classify() {
    assert_eq!(ChangeType::from_str("A"), ChangeType::Added);
    assert_eq!(ChangeType::from_str("M"), ChangeType::Modified);
    assert_eq!(ChangeType::from_str("D"), ChangeType::Deleted);
    assert_eq!(ChangeType::from_str("Z"), ChangeType::Invalid);
}
