//! The consumer's configuration: where the broker is, which topic and
//! group to consume, and where to deliver reassembled messages.

use vstd::prelude::*;

verus! {

/// Consumer settings. The boundary parses the command line and hands
/// the values in; this type only carries them.
pub struct Config {
    pub brokers: String,
    pub group_id: String,
    pub topic: String,
    pub receive_url: String,
}

impl Config {
    /// Builds the configuration from already-parsed command-line
    /// values.
    pub fn from_cmd(brokers: String, group_id: String, topic: String, receive_url: String) -> (r:
        Config)
        ensures
            r.brokers == brokers,
            r.group_id == group_id,
            r.topic == topic,
            r.receive_url == receive_url,
    {
        Config { brokers, group_id, topic, receive_url }
    }
}

} // verus!
