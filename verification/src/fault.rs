//! Why a lookup produced no definition.
use vstd::prelude::*;

use crate::text::{decimal, push_decimal};

verus! {

#[derive(Debug)]
pub enum FetchError {
    /// Worth retrying, and worth not caching: a stall, a 429, a 5xx.
    Transient(String),
    /// Upstream answered definitively.
    Upstream(u16),
    /// The coordinate is not one the service forwards.
    Rejected(&'static str),
}

/// What a [`FetchError`] says.
pub enum Fault {
    Transient(Seq<char>),
    Upstream(u16),
    Rejected(Seq<char>),
}

impl View for FetchError {
    type V = Fault;

    open spec fn view(&self) -> Fault {
        match self {
            FetchError::Transient(m) => Fault::Transient(m@),
            FetchError::Upstream(c) => Fault::Upstream(*c),
            FetchError::Rejected(m) => Fault::Rejected(m@),
        }
    }
}

impl Fault {
    /// The error in words.
    pub open spec fn words(self) -> Seq<char> {
        match self {
            Fault::Transient(m) => "transient upstream failure: "@ + m,
            Fault::Upstream(c) => "upstream returned "@ + decimal(c as nat),
            Fault::Rejected(m) => m,
        }
    }
}

impl FetchError {
    /// The error in words.
    pub fn to_string(&self) -> (r: String)
        ensures
            r@ == self@.words(),
    {
        match self {
            FetchError::Transient(m) => {
                let mut out = "transient upstream failure: ".to_owned();
                out.append(m.as_str());
                out
            },
            FetchError::Upstream(c) => upstream_returned(*c),
            FetchError::Rejected(m) => (*m).to_owned(),
        }
    }
}

/// What is said of a status that upstream answered with.
pub fn upstream_returned(code: u16) -> (r: String)
    ensures
        r@ == "upstream returned "@ + decimal(code as nat),
{
    let mut out = "upstream returned ".to_owned();
    push_decimal(&mut out, code as u64);
    out
}

/// An error says what kind it is and then what it was told; a refusal says only
/// the latter.
pub proof fn law_an_error_says_what_happened(e: &FetchError, r: String)
    requires
        call_ensures(FetchError::to_string, (e,), r),
    ensures
        match *e {
            FetchError::Transient(m) => r@ == "transient upstream failure: "@ + m@,
            FetchError::Upstream(code) => r@ == "upstream returned "@ + decimal(code as nat),
            FetchError::Rejected(m) => r@ == m@,
        },
{
}

} // verus!
