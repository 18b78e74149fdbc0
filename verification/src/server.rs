//! The MCP server: the graph it was configured for, and its errors.
use vstd::prelude::*;

use crate::config::{BackendConfig, ServerConfig, TransportConfig};
use crate::text::{push_str, string_from_str};

verus! {

/// An error of the server outside a tool's or resource's own result.
#[derive(Debug)]
pub enum Error {
    InvalidConfig(String),
    Core(crate::backend::Error),
}

pub open spec fn server_error_message(e: Error) -> Seq<char> {
    match e {
        Error::InvalidConfig(m) => "invalid server config: "@ + m@,
        Error::Core(c) => "core graph error: "@ + crate::backend::backend_error_message(c),
    }
}

impl Error {
    /// The display text of the error.
    pub fn message(&self) -> (r: String)
        ensures
            r@ == server_error_message(*self),
    {
        match self {
            Error::InvalidConfig(m) => {
                let mut s = string_from_str("invalid server config: ");
                push_str(&mut s, m.as_str());
                s
            },
            Error::Core(c) => {
                let mut s = string_from_str("core graph error: ");
                let m = c.message();
                push_str(&mut s, m.as_str());
                s
            },
        }
    }
}

impl From<crate::backend::Error> for Error {
    fn from(error: crate::backend::Error) -> (r: Self) {
        Error::Core(error)
    }
}

impl vstd::std_specs::convert::FromSpecImpl<crate::backend::Error> for Error {
    open spec fn obeys_from_spec() -> bool {
        true
    }

    open spec fn from_spec(v: crate::backend::Error) -> Self {
        Error::Core(v)
    }
}

/// The graph a running server opens for each request.
#[derive(Debug, Clone)]
pub enum RuntimeBackend {
    Fs { root: String },
    Sqlite { database_path: String, graph_name: String },
}

pub open spec fn runtime_of(b: BackendConfig) -> RuntimeBackend {
    match b {
        BackendConfig::Fs { root, mode } => RuntimeBackend::Fs { root },
        BackendConfig::Sqlite { database_path, graph_name, mode } => RuntimeBackend::Sqlite { database_path, graph_name },
    }
}

#[derive(Debug, Clone)]
pub struct FocalMcpServer {
    backend: RuntimeBackend,
}

impl FocalMcpServer {
    pub closed spec fn runtime(&self) -> RuntimeBackend {
        self.backend
    }

    /// The server for `config`. `opened` is how opening the configured
    /// graph in its configured mode went (the server checks the graph can
    /// be opened before it serves it).
    pub fn from_config(config: ServerConfig, opened: Result<(), crate::backend::Error>) -> (r: Result<Self, Error>)
        ensures
            match opened {
                Ok(()) => r matches Ok(s) && s.runtime() == runtime_of(config.backend),
                Err(e) => r matches Err(Error::Core(x)) && x == e,
            },
    {
        match config.transport {
            TransportConfig::Stdio => {},
        }
        match opened {
            Ok(()) => {},
            Err(e) => {
                return Err(Error::Core(e));
            },
        }
        let backend = match config.backend {
            BackendConfig::Fs { root, mode } => RuntimeBackend::Fs { root },
            BackendConfig::Sqlite { database_path, graph_name, mode } => RuntimeBackend::Sqlite {
                database_path,
                graph_name,
            },
        };
        Ok(FocalMcpServer { backend })
    }

    /// The graph the server opens for each request.
    pub fn runtime_backend(&self) -> (r: &RuntimeBackend)
        ensures
            *r == self.runtime(),
    {
        &self.backend
    }
}

} // verus!
