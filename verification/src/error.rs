//! The failures that reading, validating and running a program can end in.

use crate::semantics::Fault;
use crate::text::{decimal, push_decimal, push_signed, signed_decimal};
use vstd::prelude::*;
use vstd::std_specs::convert::FromSpecImpl;
use vstd::string::*;

verus! {

/// The error type of `std::io`, carried through as an opaque value.
#[verifier::external_type_specification]
#[verifier::external_body]
pub struct ExIoError(std::io::Error);

/// Why a program could not be run to a result.
#[derive(Debug)]
pub enum Error {
    /// The program source could not be read.
    IO(std::io::Error),
    /// The program as a whole cannot be run: no entry block, or two blocks
    /// with one address.
    Usage(String),
    /// The source text is not a program.
    Parse(String),
    /// The program failed while it ran.
    Runtime(String),
}

impl From<std::io::Error> for Error {
    fn from(error: std::io::Error) -> (e: Error) {
        Error::IO(error)
    }
}

impl FromSpecImpl<std::io::Error> for Error {
    open spec fn obeys_from_spec() -> bool {
        true
    }

    open spec fn from_spec(error: std::io::Error) -> Error {
        Error::IO(error)
    }
}

/// What `std::io::Error` shows of itself through `Display`. The text comes
/// from the operating system and nothing is claimed of it.
#[verifier::external_body]
fn io_message(error: &std::io::Error) -> (message: String) {
    error.to_string()
}

impl Fault {
    /// The message that tells of the fault: the kind of instruction and the
    /// operand that made it fail.
    pub open spec fn text(self) -> Seq<char> {
        match self {
            Fault::InvalidLoad { reg, addr } => "load to r"@ + decimal(reg as nat)
                + ": invalid address "@ + signed_decimal(addr as int),
            Fault::InvalidStore { reg, addr } => "store through r"@ + decimal(reg as nat)
                + ": invalid address "@ + signed_decimal(addr as int),
            Fault::InvalidJump { target } => "goto("@ + signed_decimal(target as int)
                + ") invalid code address"@,
            Fault::DivisionByZero => "division by zero"@,
            Fault::OutOfMemory => "malloc OOM"@,
            Fault::InvalidFree { addr } => "free bad ptr "@ + signed_decimal(addr as int),
            Fault::Abort => "called abort"@,
            Fault::InvalidRegister { reg } => "invalid register r"@ + decimal(reg as nat),
            Fault::InvalidPrint { addr, count } => "print: invalid heap range "@ + signed_decimal(
                addr as int,
            ) + " + "@ + signed_decimal(count as int),
        }
    }

    /// The message that tells of the fault.
    pub fn message(&self) -> (message: String)
        ensures
            message@ == self.text(),
    {
        match self {
            Fault::InvalidLoad { reg, addr } => {
                let mut s = String::from_str("load to r");
                push_decimal(&mut s, *reg as u64);
                s.append(": invalid address ");
                push_signed(&mut s, *addr);
                s
            },
            Fault::InvalidStore { reg, addr } => {
                let mut s = String::from_str("store through r");
                push_decimal(&mut s, *reg as u64);
                s.append(": invalid address ");
                push_signed(&mut s, *addr);
                s
            },
            Fault::InvalidJump { target } => {
                let mut s = String::from_str("goto(");
                push_signed(&mut s, *target);
                s.append(") invalid code address");
                s
            },
            Fault::DivisionByZero => String::from_str("division by zero"),
            Fault::OutOfMemory => String::from_str("malloc OOM"),
            Fault::InvalidFree { addr } => {
                let mut s = String::from_str("free bad ptr ");
                push_signed(&mut s, *addr);
                s
            },
            Fault::Abort => String::from_str("called abort"),
            Fault::InvalidRegister { reg } => {
                let mut s = String::from_str("invalid register r");
                push_decimal(&mut s, *reg as u64);
                s
            },
            Fault::InvalidPrint { addr, count } => {
                let mut s = String::from_str("print: invalid heap range ");
                push_signed(&mut s, *addr);
                s.append(" + ");
                push_signed(&mut s, *count);
                s
            },
        }
    }
}

impl Error {
    /// The message that describes the error: for a usage, parse or run-time
    /// error the text it carries, for an I/O error what the system says.
    pub fn description(&self) -> (message: String)
        ensures
            match self {
                Error::IO(_) => true,
                Error::Usage(s) => message@ == s@,
                Error::Parse(s) => message@ == s@,
                Error::Runtime(s) => message@ == s@,
            },
    {
        match self {
            Error::IO(e) => io_message(e),
            Error::Usage(s) => s.clone(),
            Error::Parse(s) => s.clone(),
            Error::Runtime(s) => s.clone(),
        }
    }
}

} // verus!
