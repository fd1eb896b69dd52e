use vstd::prelude::*;

verus! {

pub const ERROR_MESSAGE_NONE: i32 = 0;

pub const ERROR_PARSE: i32 = 1;

pub const ERROR_MESSAGE_SIZE_TOO_LARGE: i32 = 2;

pub const ERROR_INVALID_SUBJECT: i32 = 3;

pub const ERROR_SUBSCRIBTION_NOT_FOUND: i32 = 4;

pub const ERROR_CONNECTION_CLOSED: i32 = 5;

pub const ERROR_REGISTRY_FULL: i32 = 6;

/// The error of this library: a numeric code, one of the `ERROR_*` constants.
#[derive(Debug, PartialEq, Eq, Structural)]
pub struct NError {
    pub err_code: i32,
}

impl NError {
    pub fn new(err_code: i32) -> (r: Self)
        ensures
            r.err_code == err_code,
    {
        NError { err_code }
    }

    /// A short description of the error's kind.
    pub fn desc_error_message(&self) -> (r: &'static str)
        ensures
            self.err_code == ERROR_PARSE ==> r@ == "Parse error"@,
            self.err_code != ERROR_PARSE ==> r@ == "other error"@,
    {
        if self.err_code == ERROR_PARSE {
            proof { reveal_strlit("Parse error"); }
            "Parse error"
        } else {
            proof { reveal_strlit("other error"); }
            "other error"
        }
    }
}

} // verus!
