//! What a run is asked to do, what kind of path it starts from, and the
//! errors that end it.

use vstd::prelude::*;
use vstd::string::*;

verus! {

/// The settings of one run.
#[derive(Clone, Debug, PartialEq, Eq)]
pub struct Config {
    /// The text to look for.
    pub pattern: String,
    /// The file or directory to search.
    pub path: String,
    /// The pattern has to stand as a word of its own.
    pub exact_match: bool,
    /// Upper and lower case are not told apart.
    pub case_insensitive: bool,
    /// Lines are shown without their numbers.
    pub hide_line_numbers: bool,
    /// The pattern is not emphasised in the lines shown.
    pub no_pattern_highlight: bool,
    /// Directories inside the directory are searched as well.
    pub recursive: bool,
    /// Groups are shown without the path of their file.
    pub hide_filepath: bool,
    /// Matches are counted and not shown.
    pub quiet: bool,
}

/// The kind of the path that a run starts from.
#[derive(Clone, Copy, Debug, PartialEq, Eq, Structural)]
pub enum Mode {
    File,
    Directory,
}

/// What the file system says of a path.
#[derive(Clone, Copy, Debug, PartialEq, Eq, Structural)]
pub enum PathProbe {
    /// Nothing is there.
    Missing,
    /// Something is there and cannot be looked at.
    Unreadable,
    /// Something is there.
    Found { is_file: bool, is_dir: bool },
}

/// Why a path cannot be searched.
#[derive(Clone, Copy, Debug, PartialEq, Eq, Structural)]
pub enum PathError {
    NotFound,
    Unreadable,
    AmbiguousType,
}

/// Why a run ended without doing its work.
#[derive(Clone, Copy, Debug, PartialEq, Eq, Structural)]
pub enum SearchError {
    /// Directories were to be searched recursively, and the path is a file.
    Config,
    /// The path that the run starts from cannot be searched.
    Path(PathError),
    /// A search could not hand its events on.
    Channel,
}

/// The mode that `probe` stands for, or the reason why it stands for none.
pub open spec fn mode_of(probe: PathProbe) -> Result<Mode, PathError> {
    match probe {
        PathProbe::Missing => Err(PathError::NotFound),
        PathProbe::Unreadable => Err(PathError::Unreadable),
        PathProbe::Found { is_file, is_dir } => if is_file && !is_dir {
            Ok(Mode::File)
        } else if is_dir && !is_file {
            Ok(Mode::Directory)
        } else {
            Err(PathError::AmbiguousType)
        },
    }
}

/// Tells a regular file from a directory. A path that is missing, that
/// cannot be looked at, or that is neither of the two is an error.
pub fn get_mode(probe: PathProbe) -> (mode: Result<Mode, PathError>)
    ensures
        mode == mode_of(probe),
{
    match probe {
        PathProbe::Missing => Err(PathError::NotFound),
        PathProbe::Unreadable => Err(PathError::Unreadable),
        PathProbe::Found { is_file, is_dir } => {
            if is_file && !is_dir {
                Ok(Mode::File)
            } else if is_dir && !is_file {
                Ok(Mode::Directory)
            } else {
                Err(PathError::AmbiguousType)
            }
        },
    }
}

/// Refuses a recursive search of a single file; accepts everything else.
pub fn check_mode(recursive: bool, mode: Mode) -> (checked: Result<(), SearchError>)
    ensures
        checked == if recursive && mode == Mode::File {
            Err::<(), SearchError>(SearchError::Config)
        } else {
            Ok(())
        },
{
    match mode {
        Mode::File => {
            if recursive {
                Err(SearchError::Config)
            } else {
                Ok(())
            }
        },
        Mode::Directory => Ok(()),
    }
}

/// The words that go with each error.
pub open spec fn message_of(error: SearchError) -> Seq<char> {
    match error {
        SearchError::Config => "Recursive flag is set but path points to a file"@,
        SearchError::Path(PathError::NotFound) => "Passed path does not exist"@,
        SearchError::Path(PathError::Unreadable) => "Could not read metadata for passed path"@,
        SearchError::Path(PathError::AmbiguousType) => "Passed path is neither file nor directory"@,
        SearchError::Channel => "Could not deliver a search result"@,
    }
}

impl SearchError {
    /// The error in words.
    pub fn message(&self) -> (words: String)
        ensures
            words@ == message_of(*self),
    {
        match self {
            SearchError::Config => String::from_str(
                "Recursive flag is set but path points to a file",
            ),
            SearchError::Path(PathError::NotFound) => String::from_str("Passed path does not exist"),
            SearchError::Path(PathError::Unreadable) => String::from_str(
                "Could not read metadata for passed path",
            ),
            SearchError::Path(PathError::AmbiguousType) => String::from_str(
                "Passed path is neither file nor directory",
            ),
            SearchError::Channel => String::from_str("Could not deliver a search result"),
        }
    }
}

} // verus!
