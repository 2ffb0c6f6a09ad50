//! Where the services behind the engine are found.
use vstd::prelude::*;

verus! {

/// Connection settings of the vector store and of the fingerprint cache.
#[derive(Debug, PartialEq, Eq)]
pub struct Config {
    pub qdrant_url: String,
    pub qdrant_api_key: Option<String>,
    pub redis_url: Option<String>,
}

impl Config {
    /// Makes the configuration from the values of the variables `QDRANT_URL`,
    /// `QDRANT_API_KEY` and `REDIS_URL`, each `None` where the variable is not
    /// set. The address of the vector store must be set; the other two may be
    /// missing.
    pub fn from_env(
        qdrant_url: Option<String>,
        qdrant_api_key: Option<String>,
        redis_url: Option<String>,
    ) -> (config: Config)
        requires
            qdrant_url.is_some(),
        ensures
            qdrant_url == Some(config.qdrant_url),
            config.qdrant_api_key == qdrant_api_key,
            config.redis_url == redis_url,
    {
        Config { qdrant_url: qdrant_url.unwrap(), qdrant_api_key, redis_url }
    }
}

} // verus!
