//! Messages that change the configuration: the client to imitate and the
//! upload speeds.
use vstd::prelude::*;

verus! {

/// Selects the client to imitate.
#[derive(Debug)]
pub struct ConfigurationClient {
    pub client: String,
}

/// Sets the minimum upload speed.
#[derive(Debug)]
pub struct ConfigurationMinUploadSpeed {
    pub min_upload_speed: u16,
}

/// Sets the maximum upload speed.
#[derive(Debug)]
pub struct ConfigurationMaxUploadSpeed {
    pub max_upload_speed: u16,
}

} // verus!
