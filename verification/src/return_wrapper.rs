//! How a run ends: an exit code, and a word on standard error where it failed.
use vstd::prelude::*;
use vstd::string::StringExecFns;
use crate::declarations::SUCCESS;
use crate::text::{decimal, decimal_string};

verus! {

/// The exit code of a run.
pub struct ReturnWrapper {
    code: u8,
}

impl View for ReturnWrapper {
    type V = u8;

    closed spec fn view(&self) -> u8 {
        self.code
    }
}

/// What is printed for the exit code `code`: nothing for success.
pub open spec fn report_of(code: u8) -> Option<Seq<char>> {
    if code != SUCCESS {
        Some("Error: "@ + decimal(code as nat))
    } else {
        None
    }
}

impl ReturnWrapper {
    /// Wraps the exit code `code`.
    pub fn new(code: u8) -> (wrapper: ReturnWrapper)
        ensures
            wrapper@ == code,
    {
        ReturnWrapper { code }
    }

    /// The exit code.
    pub fn code(&self) -> (code: u8)
        ensures
            code == self@,
    {
        self.code
    }

    /// The exit code, and the line to print on standard error with it, if any.
    pub fn report(self) -> (r: (u8, Option<String>))
        ensures
            r.0 == self@,
            match r.1 {
                Some(line) => report_of(self@) == Some(line@),
                None => report_of(self@) is None,
            },
    {
        if self.code != SUCCESS {
            let line = String::from_str("Error: ").concat(
                decimal_string(self.code as usize).as_str(),
            );
            (self.code, Some(line))
        } else {
            (self.code, None)
        }
    }
}

} // verus!
