use vstd::prelude::*;

verus! {

/// One saved row: a file and whether it was already reviewed.
pub struct DiffFile {
    pub is_reviewed: bool,
    pub file_name: String,
}

impl DiffFile {
    pub fn new(is_reviewed: bool, file: String) -> (r: DiffFile)
        ensures
            r.is_reviewed == is_reviewed,
            r.file_name == file,
    {
        DiffFile { is_reviewed, file_name: file }
    }
}

/// The persisted project file: the format version, the commit range, the
/// root commit for the validity check, the repository path and the saved
/// rows.
pub struct Config {
    pub version: u32,
    pub start_diff: String,
    pub end_diff: String,
    pub first_commit: String,
    pub repo_path: String,
    pub diff_files: Vec<DiffFile>,
}

impl Config {
    pub fn new() -> (r: Config)
        ensures
            r.version == 1,
            r.start_diff@ == Seq::<char>::empty(),
            r.end_diff@ == Seq::<char>::empty(),
            r.first_commit@ == Seq::<char>::empty(),
            r.repo_path@ == Seq::<char>::empty(),
            r.diff_files@ == Seq::<DiffFile>::empty(),
    {
        Config {
            version: 1,
            start_diff: String::new(),
            end_diff: String::new(),
            first_commit: String::new(),
            repo_path: String::new(),
            diff_files: Vec::new(),
        }
    }

    /// A format-version mismatch is a hard load failure.
    pub fn version_ok(&self) -> (r: bool)
        ensures
            r == (self.version == 1),
    {
        self.version == 1
    }

    /// Forgets a stale repository path, as the load-time safety check asks.
    pub fn clear_repo_path(&mut self)
        ensures
            final(self).repo_path@ == Seq::<char>::empty(),
            final(self).version == old(self).version,
            final(self).start_diff == old(self).start_diff,
            final(self).end_diff == old(self).end_diff,
            final(self).first_commit == old(self).first_commit,
            final(self).diff_files == old(self).diff_files,
    {
        self.repo_path = String::new();
    }
}

} // verus!
