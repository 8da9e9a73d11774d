use vstd::prelude::*;

verus! {

/// The settings of the voice client.
#[derive(Clone, Debug)]
pub struct Config {
    pub aws: Aws,
}

/// The credentials of the speech service account.
#[derive(Clone, Debug)]
pub struct Aws {
    pub access_key_id: String,
    pub secret_access_key: String,
}

} // verus!
