use vstd::prelude::*;

verus! {

/// Relies on mockcmd::Command, a drop-in for std::process::Command: runs
/// the program with the arguments and hands back its standard output as
/// text, or nothing when the program could not be run or wrote no valid
/// text. Nothing can be promised of an external process.
#[verifier::external_body]
pub fn command_output(program: &str, args: &Vec<String>) -> (r: Option<String>)
{
    let output = mockcmd::Command::new(program).args(args.iter()).output().ok()?;
    String::from_utf8(output.stdout).ok()
}

/// Relies on std::path::Path::is_dir: whether the path names a directory
/// on disk; the answer depends on the machine's state.
#[verifier::external_body]
pub fn path_is_dir(path: &str) -> (r: bool) {
    std::path::Path::new(path).is_dir()
}

/// Relies on which::which: whether a tool of that name is on the search
/// path; the answer depends on the environment.
#[verifier::external_body]
pub fn tool_on_path(tool: &str) -> (r: bool) {
    which::which(tool).is_ok()
}

/// Relies on dirs::home_dir: the user's home directory, when the platform
/// reports one that is valid text.
#[verifier::external_body]
pub fn home_dir() -> (r: Option<String>) {
    Some(dirs::home_dir()?.to_str()?.to_owned())
}

/// What chrono reads from an RFC 3339 date: the instant as seconds since
/// the epoch, and the date's display form; a function of the characters
/// alone.
pub uninterp spec fn rfc3339_date(s: Seq<char>) -> Option<(int, Seq<char>)>;

/// Relies on chrono::DateTime::parse_from_rfc3339, DateTime::timestamp and
/// DateTime's display form: reads a timestamp, as an instant in seconds
/// plus its display form.
#[verifier::external_body]
pub fn parse_rfc3339(s: &str) -> (r: Option<(i64, String)>)
    ensures
        (r is Some) == (rfc3339_date(s@) is Some),
        (r is Some) ==> (r.unwrap().0 as int, r.unwrap().1@) == rfc3339_date(s@).unwrap(),
{
    let dt = chrono::DateTime::parse_from_rfc3339(s).ok()?;
    Some((dt.timestamp(), dt.to_string()))
}

} // verus!
