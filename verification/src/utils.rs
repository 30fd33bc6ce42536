//! Helpers around the scan: a string without its first character, an option with a
//! fallback, and the rules by which command-line arguments are accepted.

use std::path::PathBuf;
use vstd::pervasive::cloned;
use vstd::prelude::*;
use vstd::string::StrSliceExecFns;
use crate::text::tail;

verus! {

/// `std::path::PathBuf`: an owned path, carried through without a look inside.
#[verifier::external_type_specification]
#[verifier::external_body]
pub struct ExPathBuf(std::path::PathBuf);

/// `PathBuf::clone` gives a path equal to the one it was called on.
pub assume_specification[ <PathBuf as Clone>::clone ](path: &PathBuf) -> (copy: PathBuf)
    ensures
        copy == *path,
;

/// The arguments as they were given.
pub struct Args {
    /// The bibliography file.
    pub bib: PathBuf,
    /// The file with the citation style.
    pub csl: PathBuf,
    /// The file to write; the text file itself if none is named.
    pub output: Option<PathBuf>,
    /// Whether nothing is written and each step is reported.
    pub dryrun: bool,
    /// Whether a key without a bibliography entry is an error.
    pub strict: bool,
    /// Whether the bibliography goes to the terminal.
    pub term: bool,
    /// Whether references are plain numbers, without a link.
    pub nohtml: bool,
    /// The text file.
    pub markdown: PathBuf,
}

/// The arguments after they were accepted: every file is there, and the file to
/// write is named.
pub struct CheckedArgs {
    pub bib: PathBuf,
    pub csl: PathBuf,
    pub output: PathBuf,
    pub dryrun: bool,
    pub strict: bool,
    pub nohtml: bool,
    pub term: bool,
    pub markdown: PathBuf,
}

/// What was found on disk under a path.
#[derive(Clone, Copy, Debug, PartialEq, Eq, Structural)]
pub struct FileStatus {
    /// Something is there.
    pub exists: bool,
    /// It is a regular file.
    pub is_file: bool,
}

/// Why arguments were not accepted.
pub enum ArgsError {
    /// Nothing is there under the path.
    Missing(PathBuf),
    /// What is there under the path is not a file.
    NotAFile(PathBuf),
}

/// The reason for which `file` is not accepted, if there is one.
pub open spec fn file_error(file: PathBuf, status: FileStatus) -> Option<ArgsError> {
    if !status.exists {
        Some(ArgsError::Missing(file))
    } else if !status.is_file {
        Some(ArgsError::NotAFile(file))
    } else {
        None
    }
}

/// The reason for which the arguments are not accepted, if there is one: that of the
/// text file first, then that of the style file, then that of the bibliography.
pub open spec fn args_error(
    args: Args,
    markdown: FileStatus,
    csl: FileStatus,
    bib: FileStatus,
) -> Option<ArgsError> {
    if file_error(args.markdown, markdown) is Some {
        file_error(args.markdown, markdown)
    } else if file_error(args.csl, csl) is Some {
        file_error(args.csl, csl)
    } else {
        file_error(args.bib, bib)
    }
}

/// The accepted form of `args`: the same values, and the text file as the file to
/// write if none was named.
pub open spec fn accepted(args: Args) -> CheckedArgs {
    CheckedArgs {
        bib: args.bib,
        csl: args.csl,
        output: match args.output {
            Some(output) => output,
            None => args.markdown,
        },
        dryrun: args.dryrun,
        strict: args.strict,
        nohtml: args.nohtml,
        term: args.term,
        markdown: args.markdown,
    }
}

/// Accepts `file` if something is there under its path and that is a file.
pub fn check_file(file: &PathBuf, status: FileStatus) -> (checked: Result<(), ArgsError>)
    ensures
        match checked {
            Ok(_) => file_error(*file, status) is None,
            Err(e) => file_error(*file, status) == Some(e),
        },
{
    if !status.exists {
        return Err(ArgsError::Missing(file.clone()));
    }
    if !status.is_file {
        return Err(ArgsError::NotAFile(file.clone()));
    }
    Ok(())
}

/// Accepts the arguments if the text file, the style file and the bibliography are
/// files, and names the file to write.
pub fn check_args(args: Args, markdown: FileStatus, csl: FileStatus, bib: FileStatus) -> (checked:
    Result<CheckedArgs, ArgsError>)
    ensures
        match checked {
            Ok(c) => args_error(args, markdown, csl, bib) is None && c == accepted(args),
            Err(e) => args_error(args, markdown, csl, bib) == Some(e),
        },
{
    match check_file(&args.markdown, markdown) {
        Ok(_) => {},
        Err(e) => {
            return Err(e);
        },
    }
    let output_file = args.output.move_out(&args.markdown);
    match check_file(&args.csl, csl) {
        Ok(_) => {},
        Err(e) => {
            return Err(e);
        },
    }
    match check_file(&args.bib, bib) {
        Ok(_) => {},
        Err(e) => {
            return Err(e);
        },
    }
    Ok(
        CheckedArgs {
            bib: args.bib,
            csl: args.csl,
            output: output_file,
            dryrun: args.dryrun,
            strict: args.strict,
            nohtml: args.nohtml,
            term: args.term,
            markdown: args.markdown,
        },
    )
}

/// `string` without its first character; empty if `string` is empty.
pub fn without_first(string: &str) -> (rest: &str)
    ensures
        rest@ == tail(string@),
{
    let n = string.unicode_len();
    if n == 0 {
        string
    } else {
        string.substring_char(1, n)
    }
}

/// A value that may be missing, taken out with a fallback.
pub trait MoveOption<T> where T: Clone {
    /// The value, if there is one.
    spec fn held(&self) -> Option<T>;

    /// The value if there is one, and a clone of `inplace` otherwise.
    fn move_out(self, inplace: &T) -> (value: T)
        ensures
            match self.held() {
                Some(v) => value == v,
                None => cloned(*inplace, value),
            },
    ;
}

impl<T> MoveOption<T> for Option<T> where T: Clone {
    open spec fn held(&self) -> Option<T> {
        *self
    }

    fn move_out(self, inplace: &T) -> (value: T) {
        if let Some(value) = self {
            value
        } else {
            inplace.clone()
        }
    }
}

} // verus!
