//! The splitter's configuration: the listen address, the service that
//! receives the segments, and the chunk size to split payloads by.

use vstd::prelude::*;
use vstd::string::StringExecFns;

verus! {

/// Splitter settings. The boundary parses the command line and reads
/// the environment; this type carries the values and their defaults.
pub struct Config {
    pub listen: String,
    pub code_service_url: String,
    pub chunk_byte_size: usize,
}

impl Config {
    /// The default configuration.
    pub fn build() -> (r: Config)
        ensures
            r.listen@ == "0.0.0.0:8000"@,
            r.code_service_url@ == "http://localhost:8080/code"@,
            r.chunk_byte_size == 2usize,
    {
        Config {
            listen: String::from_str("0.0.0.0:8000"),
            code_service_url: String::from_str("http://localhost:8080/code"),
            chunk_byte_size: 2,
        }
    }

    /// Applies already-parsed command-line values.
    pub fn cmd_parse(self, code_service_url: String, chunk_byte_size: usize) -> (r: Config)
        ensures
            r.listen == self.listen,
            r.code_service_url == code_service_url,
            r.chunk_byte_size == chunk_byte_size,
    {
        Config { listen: self.listen, code_service_url, chunk_byte_size }
    }

    /// Applies the listen address from the environment, if one was
    /// set; otherwise the default stands.
    pub fn get_env(self, listen: Option<String>) -> (r: Config)
        ensures
            match listen {
                Some(l) => r.listen == l,
                None => r.listen@ == "0.0.0.0:8000"@,
            },
            r.code_service_url == self.code_service_url,
            r.chunk_byte_size == self.chunk_byte_size,
    {
        match listen {
            Some(l) => Config {
                listen: l,
                code_service_url: self.code_service_url,
                chunk_byte_size: self.chunk_byte_size,
            },
            None => Config {
                listen: String::from_str("0.0.0.0:8000"),
                code_service_url: self.code_service_url,
                chunk_byte_size: self.chunk_byte_size,
            },
        }
    }
}

} // verus!
