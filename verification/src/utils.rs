//! Decisions about files that the caller has looked up.
use vstd::prelude::*;
use crate::text::push_char;

verus! {

/// What the file system reports of a path: whether it is a regular file,
/// and its permission bits.
#[derive(Clone, Copy, PartialEq, Eq, Structural, Debug)]
pub struct FileMeta {
    pub is_file: bool,
    pub mode: u32,
}

/// A path is executable when it is a regular file that someone may
/// execute; a path whose metadata cannot be read (`None`) is not.
pub fn is_executable(meta: Option<FileMeta>) -> (res: bool)
    ensures
        res == match meta {
            Some(m) => m.is_file && (m.mode & 0o111) != 0,
            None => false,
        },
{
    match meta {
        Some(m) => m.is_file && (m.mode & 0o111) != 0,
        None => false,
    }
}

/// How a directory listing shows an entry: directories with a trailing `/`.
pub fn listing_entry(name: String, is_dir: bool) -> (res: String)
    ensures
        res@ == if is_dir {
            name@.push('/')
        } else {
            name@
        },
{
    let mut name = name;
    if is_dir {
        push_char(&mut name, '/');
    }
    name
}

/// The commands that Tab offers for a first word: the programs found on
/// the search path, then the builtins `exit` and `echo`.
pub fn command_candidates(programs: Vec<String>) -> (res: Vec<String>)
    ensures
        res.deep_view() == programs.deep_view() + seq!["exit"@, "echo"@],
{
    let ghost pv = programs.deep_view();
    let mut res = programs;
    res.push("exit".to_owned());
    res.push("echo".to_owned());
    assert(res.deep_view() =~= pv + seq!["exit"@, "echo"@]);
    res
}

} // verus!
