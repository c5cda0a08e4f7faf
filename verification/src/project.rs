use vstd::prelude::*;

use crate::config::{Config, DiffFile};
use crate::git_utils;
use crate::notes::Notes;
use crate::repository::Repository;

verus! {

/// A review session: the project file's path, the repository under review
/// and the notes taken, plus whether anything is unsaved.
pub struct Project {
    pub path: String,
    pub repository: Repository,
    pub notes: Notes,
    pub has_modifications: bool,
}

impl Project {
    /// A fresh project at the given project-file path.
    pub fn new(path: String) -> (r: Project)
        ensures
            r.path == path,
            r.repository.wf(),
            r.repository.rows() == Seq::<crate::repository::DiffFileItem>::empty(),
            r.notes.wf(),
            r.notes.rows() == Seq::<crate::notes::NoteItem>::empty(),
            r.has_modifications == false,
    {
        Project {
            path,
            repository: Repository::default(),
            notes: Notes::default(),
            has_modifications: false,
        }
    }

    /// A project assembled from loaded parts.
    pub fn from_parts(path: String, repository: Repository, notes: Notes) -> (r: Project)
        ensures
            r.path == path,
            r.repository == repository,
            r.notes == notes,
            r.has_modifications == false,
    {
        Project { path, repository, notes, has_modifications: false }
    }

    /// The project file to persist: the commit range, the repository path
    /// with its root commit for the validity check, and one entry per row.
    /// Nothing if the backend could not name the root commit.
    pub fn save_config(&self) -> (r: Option<Config>)
        requires
            self.repository.wf(),
        ensures
            (self.repository.path is None) ==> r is Some,
            (r is Some) ==> ({
                let c = r.unwrap();
                c.version == 1 && c.start_diff@ == self.repository.current_diff.start_commit@
                    && c.end_diff@ == self.repository.current_diff.end_commit@
                    && c.diff_files@.len() == self.repository.rows().len() && (forall|i: int|
                    0 <= i < self.repository.rows().len()
                        ==> (#[trigger] c.diff_files@[i]).file_name
                        == self.repository.rows()[i].text && c.diff_files@[i].is_reviewed
                        == self.repository.rows()[i].is_reviewed) && (match self.repository.path {
                    Some(p) => c.repo_path@ == p@ && crate::strutil::trimmed(c.first_commit@)
                        == c.first_commit@,
                    None => c.repo_path@ == Seq::<char>::empty() && c.first_commit@ == Seq::<
                        char,
                    >::empty(),
                })
            }),
    {
        let mut config = Config::new();
        match &self.repository.path {
            Some(repo_path) => {
                match git_utils::first_commit(repo_path.as_str()) {
                    Some(fc) => {
                        config.repo_path = repo_path.clone();
                        config.first_commit = fc;
                    },
                    None => {
                        return None;
                    },
                }
            },
            None => {},
        }
        let (start, end) = self.repository.diff_range();
        config.start_diff = start.to_owned();
        config.end_diff = end.to_owned();
        let rows = self.repository.rows_vec();
        let n = rows.len();
        let mut i: usize = 0;
        while i < n
            invariant
                i <= n,
                n == rows@.len(),
                rows@ == self.repository.rows(),
                config.diff_files@.len() == i,
                forall|j: int|
                    0 <= j < i ==> (#[trigger] config.diff_files@[j]).file_name == rows@[j].text
                        && config.diff_files@[j].is_reviewed == rows@[j].is_reviewed,
                config.version == 1,
                config.start_diff@ == self.repository.current_diff.start_commit@,
                config.end_diff@ == self.repository.current_diff.end_commit@,
                (match self.repository.path {
                    Some(p) => config.repo_path@ == p@ && crate::strutil::trimmed(
                        config.first_commit@,
                    ) == config.first_commit@,
                    None => config.repo_path@ == Seq::<char>::empty() && config.first_commit@
                        == Seq::<char>::empty(),
                }),
            decreases n - i,
        {
            let row = &rows[i];
            config.diff_files.push(DiffFile::new(row.is_reviewed, row.text.clone()));
            i = i + 1;
        }
        Some(config)
    }
}

} // verus!
