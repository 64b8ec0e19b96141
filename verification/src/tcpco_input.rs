//! The TCP input: the listen address and per-connection settings,
//! resolved and validated once at construction. The accept loop itself
//! — socket binding, cooperative scheduling of connection tasks,
//! blocking reads — is I/O and belongs to the program around the
//! library; everything that loop decides from configuration is fixed
//! here, so a bad configuration fails at startup and never later.

use vstd::prelude::*;
use crate::config::{Config, ConfigError, ConfigValue, spec_lookup};
use crate::splitter::Framing;

verus! {

/// Per-listener TCP settings.
#[derive(Clone)]
pub struct TcpConfig {
    /// The framing scheme every connection of this listener uses.
    pub framing: Framing,
    /// The size of the worker pool that schedules connection tasks.
    pub threads: usize,
    /// The optional per-connection idle timeout, in seconds.
    pub timeout: Option<u64>,
}

/// A TCP input, ready to accept connections.
pub struct TcpCoInput {
    /// The `host:port` text to bind the listening socket to.
    pub listen: String,
    /// The settings each accepted connection runs with.
    pub tcp_config: TcpConfig,
}

/// The configured listen address, or `None` when the entry is present
/// but not a string. A missing entry means the default address.
pub open spec fn listen_conf(e: Seq<(String, ConfigValue)>) -> Option<Seq<char>> {
    match spec_lookup(e, "input.listen"@) {
        None => Some("0.0.0.0:514"@),
        Some(v) => match v {
            ConfigValue::Str(s) => Some(s@),
            _ => None,
        },
    }
}

/// The framing scheme a name denotes.
pub open spec fn spec_framing_of(name: Seq<char>) -> Option<Framing> {
    if name == "line"@ {
        Some(Framing::Line)
    } else if name == "nul"@ {
        Some(Framing::Nul)
    } else if name == "syslen"@ {
        Some(Framing::Syslen)
    } else if name == "capnp"@ {
        Some(Framing::Capnp)
    } else {
        None
    }
}

/// The configured framing scheme, or `None` when the entry is present
/// but not the name of a supported scheme. Missing means line framing.
pub open spec fn framing_conf(e: Seq<(String, ConfigValue)>) -> Option<Framing> {
    match spec_lookup(e, "input.framing"@) {
        None => Some(Framing::Line),
        Some(v) => match v {
            ConfigValue::Str(s) => spec_framing_of(s@),
            _ => None,
        },
    }
}

/// The configured worker count, or `None` when the entry is present but
/// not a positive integer that fits the machine. Missing means one.
pub open spec fn threads_conf(e: Seq<(String, ConfigValue)>) -> Option<int> {
    match spec_lookup(e, "input.threads"@) {
        None => Some(1),
        Some(v) => match v {
            ConfigValue::Int(i) => if 1 <= i as int && i as int <= usize::MAX as int {
                Some(i as int)
            } else {
                None
            },
            _ => None,
        },
    }
}

/// The configured idle timeout, or `None` when the entry is present but
/// not a non-negative integer. Missing means no timeout.
pub open spec fn timeout_conf(e: Seq<(String, ConfigValue)>) -> Option<Option<u64>> {
    match spec_lookup(e, "input.timeout"@) {
        None => Some(None),
        Some(v) => match v {
            ConfigValue::Int(i) => if i >= 0 {
                Some(Some(i as u64))
            } else {
                None
            },
            _ => None,
        },
    }
}

impl TcpCoInput {
    /// Build a TCP input from the configuration. Every entry is checked
    /// here: a bad listen address, framing name, thread count or timeout
    /// is a construction-time error, reported in that order.
    pub fn new(config: &Config) -> (r: Result<TcpCoInput, ConfigError>)
        ensures
            r is Ok <==> listen_conf(config.entries@) is Some && framing_conf(config.entries@)
                is Some && threads_conf(config.entries@) is Some && timeout_conf(config.entries@)
                is Some,
            r is Ok ==> {
                &&& r->Ok_0.listen@ == listen_conf(config.entries@)->0
                &&& r->Ok_0.tcp_config.framing == framing_conf(config.entries@)->0
                &&& r->Ok_0.tcp_config.threads as int == threads_conf(config.entries@)->0
                &&& r->Ok_0.tcp_config.timeout == timeout_conf(config.entries@)->0
            },
            r is Err ==> r->Err_0 == (if listen_conf(config.entries@) is None {
                ConfigError::ListenNotString
            } else if framing_conf(config.entries@) is None {
                ConfigError::UnsupportedFraming
            } else if threads_conf(config.entries@) is None {
                ConfigError::ThreadsNotPositive
            } else {
                ConfigError::TimeoutNotInteger
            }),
    {
        let listen: String = match config.lookup("input.listen") {
            None => String::from_str("0.0.0.0:514"),
            Some(v) => match v {
                ConfigValue::Str(s) => s.clone(),
                _ => {
                    return Err(ConfigError::ListenNotString);
                },
            },
        };
        let framing: Framing = match config.lookup("input.framing") {
            None => Framing::Line,
            Some(v) => match v {
                ConfigValue::Str(s) => match Framing::from_name(s.as_str()) {
                    Some(f) => f,
                    None => {
                        return Err(ConfigError::UnsupportedFraming);
                    },
                },
                _ => {
                    return Err(ConfigError::UnsupportedFraming);
                },
            },
        };
        let threads: usize = match config.lookup("input.threads") {
            None => 1,
            Some(v) => match v {
                ConfigValue::Int(i) => {
                    if *i >= 1 && (*i as u128) <= (usize::MAX as u128) {
                        *i as usize
                    } else {
                        return Err(ConfigError::ThreadsNotPositive);
                    }
                },
                _ => {
                    return Err(ConfigError::ThreadsNotPositive);
                },
            },
        };
        let timeout: Option<u64> = match config.lookup("input.timeout") {
            None => None,
            Some(v) => match v {
                ConfigValue::Int(i) => {
                    if *i >= 0 {
                        Some(*i as u64)
                    } else {
                        return Err(ConfigError::TimeoutNotInteger);
                    }
                },
                _ => {
                    return Err(ConfigError::TimeoutNotInteger);
                },
            },
        };
        Ok(TcpCoInput { listen, tcp_config: TcpConfig { framing, threads, timeout } })
    }
}

} // verus!
