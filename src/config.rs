//! Settings of the command-line tool.
use vstd::prelude::*;

verus! {

/// Credentials and identity for the metadata service.
#[derive(Debug)]
#[non_exhaustive]
pub struct Config {
    pub tmdb_api_key: String,
    pub user_agent: String,
}

impl Config {
    pub fn new(tmdb_api_key: String, user_agent: String) -> (r: Config)
        ensures
            r.tmdb_api_key@ == tmdb_api_key@,
            r.user_agent@ == user_agent@,
    {
        Config { tmdb_api_key, user_agent }
    }
}

} // verus!
