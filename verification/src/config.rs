use vstd::prelude::*;

verus! {

/// Settings of the connecting side: where to reach the listener, where to
/// log, and which configuration file lists the workspace descriptors.
pub struct ClientConfig {
    pub host: String,
    pub port: usize,
    pub log_level: String,
    pub log_path: String,
    pub projects: String,
}

impl ClientConfig {
    pub fn new(host: String, port: usize, log_level: String, log_path: String, projects: String)
        -> (r: ClientConfig)
        ensures
            r.host == host,
            r.port == port,
            r.log_level == log_level,
            r.log_path == log_path,
            r.projects == projects,
    {
        ClientConfig { host, port, log_level, log_path, projects }
    }
}

/// Settings of the listening side: the address to accept connections on.
pub struct ServerConfig {
    pub host: String,
    pub port: usize,
    pub log_level: String,
}

impl ServerConfig {
    pub fn new(host: String, port: usize, log_level: String) -> (r: ServerConfig)
        ensures
            r.host == host,
            r.port == port,
            r.log_level == log_level,
    {
        ServerConfig { host, port, log_level }
    }
}

} // verus!
