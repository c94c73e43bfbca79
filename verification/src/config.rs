//! Connection settings for the remote session.

use vstd::prelude::*;

verus! {

/// Credentials and endpoint of the remote server. The driver loads these
/// from a configuration document and opens the session with them; the
/// planning core itself never reads them.
pub struct Settings {
    pub host: String,
    pub port: u16,
    pub user: String,
    pub password: String,
}

impl Settings {
    /// A usable endpoint: the port is in the registered range, never zero.
    pub open spec fn valid(&self) -> bool {
        self.port >= 1
    }

    /// Checks that the settings can be used to open a session.
    pub fn is_valid(&self) -> (r: bool)
        ensures
            r == self.valid(),
    {
        self.port >= 1
    }
}

} // verus!
