//! Exit codes and the failures behind them.
use vstd::prelude::*;

verus! {

/// The run went well.
pub const SUCCESS: u8 = 0;

/// The command line was not understood.
pub const BAD_COMMAND_LINE_ERROR: u8 = 1;

/// A source could not be opened.
pub const FAILED_TO_OPEN_FILE: u8 = 2;

/// The script of the play could not be parsed.
pub const SCRIPT_PARSING_ERROR: u8 = 3;

/// The configuration of a scene could not be parsed.
pub const CONFIG_PARSING_ERROR: u8 = 4;

/// A source failed while it was read.
pub const FAILED_TO_READ_LINE_FROM_FILE: u8 = 5;

/// Why a script could not be made ready.
#[derive(Clone, Copy, Debug, PartialEq, Eq, Structural)]
pub enum ErrorKind {
    /// A source could not be opened, or its address is malformed.
    Open,
    /// A source failed while it was read.
    Read,
    /// The play's script names no usable scene.
    ScriptParsing,
    /// A scene's configuration holds no line.
    ConfigParsing,
}

impl ErrorKind {
    /// The exit code that stands for this kind of failure.
    pub open spec fn spec_code(self) -> u8 {
        match self {
            ErrorKind::Open => FAILED_TO_OPEN_FILE,
            ErrorKind::Read => FAILED_TO_READ_LINE_FROM_FILE,
            ErrorKind::ScriptParsing => SCRIPT_PARSING_ERROR,
            ErrorKind::ConfigParsing => CONFIG_PARSING_ERROR,
        }
    }

    /// The exit code that stands for this kind of failure.
    #[verifier::when_used_as_spec(spec_code)]
    pub fn code(self) -> (c: u8)
        ensures
            c == self.spec_code(),
    {
        match self {
            ErrorKind::Open => FAILED_TO_OPEN_FILE,
            ErrorKind::Read => FAILED_TO_READ_LINE_FROM_FILE,
            ErrorKind::ScriptParsing => SCRIPT_PARSING_ERROR,
            ErrorKind::ConfigParsing => CONFIG_PARSING_ERROR,
        }
    }
}

/// A failure together with the source it was met at.
#[derive(Clone, Debug, PartialEq, Eq)]
pub struct LoadError {
    pub kind: ErrorKind,
    pub path: String,
}

/// A `LoadError` with its path as text.
pub struct LoadErrorView {
    pub kind: ErrorKind,
    pub path: Seq<char>,
}

impl View for LoadError {
    type V = LoadErrorView;

    open spec fn view(&self) -> LoadErrorView {
        LoadErrorView { kind: self.kind, path: self.path@ }
    }
}

impl LoadError {
    /// A failure of kind `kind` at the source `path`.
    pub fn new(kind: ErrorKind, path: &String) -> (e: LoadError)
        ensures
            e@ == (LoadErrorView { kind, path: path@ }),
    {
        LoadError { kind, path: path.clone() }
    }

    /// The exit code of the failure.
    pub fn code(&self) -> (c: u8)
        ensures
            c == self.kind.spec_code(),
    {
        self.kind.code()
    }
}

/// Whether `loaded[i]` is the first failure in `loaded`.
pub open spec fn first_failure<T>(loaded: Seq<Result<T, LoadError>>, i: int) -> bool {
    &&& 0 <= i < loaded.len()
    &&& loaded[i] is Err
    &&& forall|j: int| 0 <= j < i ==> (#[trigger] loaded[j]) is Ok
}

/// Whether `loaded` holds no failure.
pub open spec fn all_loaded<T>(loaded: Seq<Result<T, LoadError>>) -> bool {
    forall|j: int| 0 <= j < loaded.len() ==> (#[trigger] loaded[j]) is Ok
}

} // verus!
