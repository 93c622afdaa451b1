//! The process configuration surface, validated once at startup.

use vstd::prelude::*;

verus! {

/// A required setting is missing. Fatal: no cycle may start.
#[derive(Clone, Copy, PartialEq, Eq, Structural, Debug)]
pub enum ConfigError {
    MissingWebhookUrl,
    MissingUpstreamUrl,
    MissingCredential,
}

/// The validated settings a running engine is given.
#[derive(Debug)]
pub struct Config {
    /// Where notifications are sent. Required.
    pub webhook_url: String,
    /// Base URL of the scoring platform. Required.
    pub upstream_url: String,
    /// Credential for the scoring platform. Required.
    pub api_key: String,
    /// Announce only the earliest solver of each challenge.
    pub announce_first_blood_only: bool,
    /// Treat the solves existing at startup as already announced.
    pub skip_existing_solves_on_startup: bool,
    /// Fixed delay between reconciliation cycles.
    pub refresh_interval_seconds: u64,
    /// How many leaderboard entries are watched.
    pub top_n: u64,
}

impl Config {
    /// Validate the settings. Each required string must be present
    /// (non-empty); the first missing one names the error.
    pub fn new(
        webhook_url: String,
        upstream_url: String,
        api_key: String,
        announce_first_blood_only: bool,
        skip_existing_solves_on_startup: bool,
        refresh_interval_seconds: u64,
        top_n: u64,
    ) -> (r: Result<Config, ConfigError>)
        ensures
            r is Ok <==> (webhook_url@.len() > 0 && upstream_url@.len() > 0 && api_key@.len() > 0),
            r matches Ok(c) ==> c.webhook_url == webhook_url && c.upstream_url == upstream_url
                && c.api_key == api_key && c.announce_first_blood_only == announce_first_blood_only
                && c.skip_existing_solves_on_startup == skip_existing_solves_on_startup
                && c.refresh_interval_seconds == refresh_interval_seconds && c.top_n == top_n,
            webhook_url@.len() == 0 ==> r == Result::<Config, ConfigError>::Err(
                ConfigError::MissingWebhookUrl,
            ),
            webhook_url@.len() > 0 && upstream_url@.len() == 0 ==> r == Result::<
                Config,
                ConfigError,
            >::Err(ConfigError::MissingUpstreamUrl),
            webhook_url@.len() > 0 && upstream_url@.len() > 0 && api_key@.len() == 0 ==> r
                == Result::<Config, ConfigError>::Err(ConfigError::MissingCredential),
    {
        if webhook_url.as_str().is_empty() {
            Result::Err(ConfigError::MissingWebhookUrl)
        } else if upstream_url.as_str().is_empty() {
            Result::Err(ConfigError::MissingUpstreamUrl)
        } else if api_key.as_str().is_empty() {
            Result::Err(ConfigError::MissingCredential)
        } else {
            Result::Ok(
                Config {
                    webhook_url,
                    upstream_url,
                    api_key,
                    announce_first_blood_only,
                    skip_existing_solves_on_startup,
                    refresh_interval_seconds,
                    top_n,
                },
            )
        }
    }
}

} // verus!
