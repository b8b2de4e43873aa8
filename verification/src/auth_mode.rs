//! How a request is paid for.

use vstd::prelude::*;

verus! {

/// How a request is paid for.
#[derive(Debug, Clone, Copy, PartialEq, Eq, Structural)]
pub enum AuthMode {
    /// By use, with a key.
    Payg,
    /// Through a grant to an application.
    OAuth,
    /// By subscription.
    Subscription,
}

} // verus!
