//! The MCP server's configuration: which graph it serves and how it talks.
use vstd::prelude::*;

use crate::text::{chars_of, push_chars, string_from_str, string_of};

verus! {

/// Where the configuration lives, relative to the home directory.
pub const DEFAULT_CONFIG_RELATIVE_PATH: &'static str = ".config/focal/config.yaml";

/// Whether the graph is created (if missing) or must exist.
#[derive(Debug, Clone, Copy, PartialEq, Eq)]
pub enum OpenMode {
    Init,
    Open,
}

/// The graph the server serves.
#[derive(Debug, Clone, PartialEq, Eq)]
pub enum BackendConfig {
    Fs { root: String, mode: OpenMode },
    Sqlite { database_path: String, graph_name: String, mode: OpenMode },
}

/// How the server talks to its client.
#[derive(Debug, Clone, Copy, PartialEq, Eq)]
pub enum TransportConfig {
    Stdio,
}

#[derive(Debug, Clone, PartialEq, Eq)]
pub struct ServerConfig {
    pub backend: BackendConfig,
    pub transport: TransportConfig,
}

/// `PathBuf::from(base).join(rel)` on `/`-separated paths: an absolute `rel`
/// replaces `base`; otherwise a separator goes between them unless `base` is
/// empty or already ends in one.
pub open spec fn join_path(base: Seq<char>, rel: Seq<char>) -> Seq<char> {
    if rel.len() > 0 && rel[0] == '/' {
        rel
    } else if base.len() == 0 {
        rel
    } else if base.last() == '/' {
        base + rel
    } else {
        base + "/"@ + rel
    }
}

/// Joins two paths as `PathBuf::join` does.
pub fn join(base: &str, rel: &str) -> (r: String)
    ensures
        r@ == join_path(base@, rel@),
{
    let b = chars_of(base);
    let t = chars_of(rel);
    if t.len() > 0 && t[0] == '/' {
        return string_of(t.as_slice());
    }
    let mut s = string_of(b.as_slice());
    if b.len() > 0 && b[b.len() - 1] != '/' {
        push_chars(&mut s, &['/']);
        proof {
            reveal_strlit("/");
            assert(seq!['/'] =~= "/"@);
        }
    }
    push_chars(&mut s, t.as_slice());
    s
}

pub open spec fn default_relative_path() -> Seq<char> {
    ".config/focal/config.yaml"@
}

/// The configuration file under the home directory `home`.
pub fn config_path_for_home(home: &str) -> (r: String)
    ensures
        r@ == join_path(home@, default_relative_path()),
{
    join(home, ".config/focal/config.yaml")
}

pub open spec fn home_unset_message() -> Seq<char> {
    "HOME is not set; pass --config or set HOME to use the default config path"@
}

pub open spec fn home_empty_message() -> Seq<char> {
    "HOME is empty; pass --config or set HOME to use the default config path"@
}

/// The default configuration path, from the value of `HOME` (if set).
pub fn default_config_path(home: Option<String>) -> (r: Result<String, crate::server::Error>)
    ensures
        match home {
            None => r matches Err(crate::server::Error::InvalidConfig(m)) && m@ == home_unset_message(),
            Some(h) => if h@.len() == 0 {
                r matches Err(crate::server::Error::InvalidConfig(m)) && m@ == home_empty_message()
            } else {
                r matches Ok(p) && p@ == join_path(h@, default_relative_path())
            },
        },
{
    match home {
        None => Err(
            crate::server::Error::InvalidConfig(
                string_from_str("HOME is not set; pass --config or set HOME to use the default config path"),
            ),
        ),
        Some(h) => {
            if chars_of(h.as_str()).len() == 0 {
                return Err(
                    crate::server::Error::InvalidConfig(
                        string_from_str("HOME is empty; pass --config or set HOME to use the default config path"),
                    ),
                );
            }
            Ok(config_path_for_home(h.as_str()))
        },
    }
}

} // verus!
