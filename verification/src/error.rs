//! The engine's error type.

use vstd::prelude::*;

verus! {

/// `std::io::Error`, carried as an opaque value.
#[verifier::external_type_specification]
#[verifier::external_body]
pub struct ExIoError(std::io::Error);

/// The text that `std::io::Error`'s `Display` writes. For an error made from
/// a message it is that message; for an error of the operating system it
/// depends on the machine, so nothing is stated of it.
#[verifier::external_body]
pub(crate) fn io_error_text(e: &std::io::Error) -> String {
    format!("{}", e)
}

/// Why an engine operation failed.
#[derive(Debug)]
pub enum Error {
    Graphics(String),
    Physics(String),
    Ecs(String),
    Asset(String),
    Input(String),
    Init(String),
    Io(std::io::Error),
    Other(String),
}

/// The result of an engine operation.
pub type Result<T> = core::result::Result<T, Error>;

/// The message of each kind of error, before its detail.
pub open spec fn error_prefix(e: Error) -> Seq<char> {
    match e {
        Error::Graphics(_) => "Graphics error: "@,
        Error::Physics(_) => "Physics error: "@,
        Error::Ecs(_) => "ECS error: "@,
        Error::Asset(_) => "Asset loading error: "@,
        Error::Input(_) => "Input error: "@,
        Error::Init(_) => "Initialization error: "@,
        Error::Io(_) => "IO error: "@,
        Error::Other(_) => "Other error: "@,
    }
}

impl Error {
    /// The error's message: its kind, a colon, and its detail.
    pub fn to_string(&self) -> (s: String)
        ensures
            s@.len() >= error_prefix(*self).len(),
            s@.subrange(0, error_prefix(*self).len() as int) == error_prefix(*self),
            match *self {
                Error::Graphics(m) => s@ == error_prefix(*self) + m@,
                Error::Physics(m) => s@ == error_prefix(*self) + m@,
                Error::Ecs(m) => s@ == error_prefix(*self) + m@,
                Error::Asset(m) => s@ == error_prefix(*self) + m@,
                Error::Input(m) => s@ == error_prefix(*self) + m@,
                Error::Init(m) => s@ == error_prefix(*self) + m@,
                Error::Io(_) => true,
                Error::Other(m) => s@ == error_prefix(*self) + m@,
            },
    {
        let (mut s, detail) = match self {
            Error::Graphics(m) => (String::from_str("Graphics error: "), m.clone()),
            Error::Physics(m) => (String::from_str("Physics error: "), m.clone()),
            Error::Ecs(m) => (String::from_str("ECS error: "), m.clone()),
            Error::Asset(m) => (String::from_str("Asset loading error: "), m.clone()),
            Error::Input(m) => (String::from_str("Input error: "), m.clone()),
            Error::Init(m) => (String::from_str("Initialization error: "), m.clone()),
            Error::Io(e) => (String::from_str("IO error: "), io_error_text(e)),
            Error::Other(m) => (String::from_str("Other error: "), m.clone()),
        };
        proof {
            reveal_strlit("Graphics error: ");
            reveal_strlit("Physics error: ");
            reveal_strlit("ECS error: ");
            reveal_strlit("Asset loading error: ");
            reveal_strlit("Input error: ");
            reveal_strlit("Initialization error: ");
            reveal_strlit("IO error: ");
            reveal_strlit("Other error: ");
        }
        let ghost before = s@;
        s.append(detail.as_str());
        proof {
            assert(s@.subrange(0, before.len() as int) =~= before);
        }
        s
    }
}

impl From<std::io::Error> for Error {
    fn from(e: std::io::Error) -> (r: Self) {
        Error::Io(e)
    }
}

impl vstd::std_specs::convert::FromSpecImpl<std::io::Error> for Error {
    open spec fn obeys_from_spec() -> bool {
        true
    }

    open spec fn from_spec(e: std::io::Error) -> Error {
        Error::Io(e)
    }
}

} // verus!
