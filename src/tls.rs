use vstd::prelude::*;

verus! {

/// How an HTTP endpoint of the process treats TLS.
#[derive(PartialEq, Eq, Structural, Clone, Copy, Debug)]
pub enum TlsMode {
    /// Every connection must use TLS.
    Require,
    /// Every connection must use TLS, and the user is the common name of the
    /// client certificate.
    AssumeUser,
}

} // verus!
