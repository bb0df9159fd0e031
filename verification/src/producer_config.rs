//! The producer's configuration: the listen address and the broker and
//! topic that incoming segments are forwarded to.

use vstd::prelude::*;
use vstd::string::StringExecFns;

verus! {

/// Producer settings. The boundary parses the command line and reads
/// the environment; this type carries the values and their defaults.
pub struct Config {
    pub listen: String,
    pub brokers: String,
    pub topic: String,
}

impl Config {
    /// The default configuration: the default listen address and empty
    /// broker and topic names.
    pub fn build() -> (r: Config)
        ensures
            r.listen@ == "0.0.0.0:8002"@,
            r.brokers@ == Seq::<char>::empty(),
            r.topic@ == Seq::<char>::empty(),
    {
        Config {
            listen: String::from_str("0.0.0.0:8002"),
            brokers: String::new(),
            topic: String::new(),
        }
    }

    /// Applies already-parsed command-line values.
    pub fn cmd_parse(self, brokers: String, topic: String) -> (r: Config)
        ensures
            r.listen == self.listen,
            r.brokers == brokers,
            r.topic == topic,
    {
        Config { listen: self.listen, brokers, topic }
    }

    /// Applies the listen address from the environment, if one was
    /// set; otherwise the default stands.
    pub fn get_env(self, listen: Option<String>) -> (r: Config)
        ensures
            match listen {
                Some(l) => r.listen == l,
                None => r.listen@ == "0.0.0.0:8002"@,
            },
            r.brokers == self.brokers,
            r.topic == self.topic,
    {
        match listen {
            Some(l) => Config { listen: l, brokers: self.brokers, topic: self.topic },
            None => Config {
                listen: String::from_str("0.0.0.0:8002"),
                brokers: self.brokers,
                topic: self.topic,
            },
        }
    }
}

} // verus!
