//! Basic authentication read from an htpasswd file.

use vstd::prelude::*;
use crate::strings::copy_str;

verus! {

/// The htpasswd file used by tests: three users, with passwords
/// `password123`, `mypassword` and `abc123`.
pub const HTPASSWD_TEST: &'static str = "
testuser1:$apr1$e3dp9qh2$fFIfHU9bilvVZBl8TxKzL/
testuser2:$2y$10$wJ/mZDURcAOBIrswCAKFsO0Nk7BpHmWl/XuhF7lNm3gBAFH3ofsuu
testuser3:{SHA}Y2fEjdGT1W6nsLqtJbGUVeUp9e4=
";

/// Basic authentication: the content of an htpasswd file.
#[derive(Clone, Debug, PartialEq, Eq)]
pub struct BasicRuntime {
    pub htpasswd: String,
}

impl BasicRuntime {
    /// Basic authentication with the test htpasswd file.
    pub fn test_value() -> (r: BasicRuntime)
        ensures
            r.htpasswd@ == HTPASSWD_TEST@,
    {
        BasicRuntime { htpasswd: copy_str(HTPASSWD_TEST) }
    }
}

} // verus!
