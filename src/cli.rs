//! Node configuration: where to listen, whom to join, where to keep state.

use vstd::prelude::*;

verus! {

#[derive(Debug, PartialEq, Eq, Structural)]
pub enum CliError {
    FailedToLoadConfig,
}

/// Whether a node only joins the network or also serves the interactive client.
#[derive(Clone, Copy, Debug, PartialEq, Eq, Structural)]
pub enum NodeType {
    Join,
    Client,
}

impl NodeType {
    /// The name used on the command line and in configuration files.
    pub fn to_string(&self) -> (r: String)
        ensures
            *self == NodeType::Join ==> r@ == "join"@,
            *self == NodeType::Client ==> r@ == "client"@,
    {
        match self {
            NodeType::Join => "join".to_owned(),
            NodeType::Client => "client".to_owned(),
        }
    }
}

/// What the command line gave; each absent field falls back to the configuration file.
#[derive(Debug)]
pub struct Arguments {
    pub node_type: Option<NodeType>,
    pub host: Option<String>,
    pub port: Option<usize>,
    pub bootstrap: Option<Vec<String>>,
    pub out: Option<String>,
    pub config: Option<String>,
}

/// The settings a node runs with; `bootstrap` holds `host:port` endpoints.
#[derive(Debug)]
pub struct Config {
    pub node_type: NodeType,
    pub host: String,
    pub port: usize,
    pub bootstrap: Vec<String>,
    pub out: String,
}

impl Config {
    /// The configuration used when no file is given: a joining node on 127.0.0.1:6657 with no
    /// bootstraps, keeping its state in `out.bin`.
    pub fn default_config() -> (r: Config)
        ensures
            r.node_type == NodeType::Join,
            r.host@ == "127.0.0.1"@,
            r.port == 6657,
            r.bootstrap@.len() == 0,
            r.out@ == "out.bin"@,
    {
        Config {
            node_type: NodeType::Join,
            host: "127.0.0.1".to_owned(),
            port: 6657,
            bootstrap: Vec::new(),
            out: "out.bin".to_owned(),
        }
    }
}

impl Arguments {
    /// The settings that result from these arguments over `file_config`: every argument given
    /// wins over the file.
    pub fn with_config(self, file_config: Config) -> (r: Config)
        ensures
            r.node_type == (match self.node_type { Some(t) => t, None => file_config.node_type }),
            r.host == (match self.host { Some(h) => h, None => file_config.host }),
            r.port == (match self.port { Some(p) => p, None => file_config.port }),
            r.bootstrap == (match self.bootstrap { Some(b) => b, None => file_config.bootstrap }),
            r.out == (match self.out { Some(o) => o, None => file_config.out }),
    {
        Config {
            node_type: match self.node_type { Some(t) => t, None => file_config.node_type },
            host: match self.host { Some(h) => h, None => file_config.host },
            port: match self.port { Some(p) => p, None => file_config.port },
            bootstrap: match self.bootstrap { Some(b) => b, None => file_config.bootstrap },
            out: match self.out { Some(o) => o, None => file_config.out },
        }
    }
}

/// Where a node's state is kept between runs.
#[derive(Debug)]
pub struct InFileStorage {
    pub storage_location: String,
}

impl InFileStorage {
    pub fn new(path: String) -> (r: InFileStorage)
        ensures
            r.storage_location == path,
    {
        InFileStorage { storage_location: path }
    }
}

/// Failures of saving or restoring a node.
#[derive(Debug, PartialEq, Eq, Structural)]
pub enum StoreNodeError {
    PersistError,
}

/// Failures of reaching a peer.
#[derive(Debug, PartialEq, Eq, Structural)]
pub enum NetWorkError {
    FailedToFetchIp,
    FailToEstablishConnection,
}

} // verus!
