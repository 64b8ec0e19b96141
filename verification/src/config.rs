//! Configuration values handed to the pipeline at construction time: a
//! small value union mirroring the shapes a configuration file can hold,
//! keyed by dotted path, with explicit construction-time validation
//! errors instead of late failures.

use vstd::prelude::*;

verus! {

/// One configuration value: a string, an integer, a boolean, a list, or
/// a table of named values.
pub enum ConfigValue {
    Str(String),
    Int(i64),
    Bool(bool),
    List(Vec<ConfigValue>),
    Table(Vec<(String, ConfigValue)>),
}

/// A loaded configuration: an ordered list of entries, each a dotted
/// path (such as `output.ltsv_extra`) and its value.
pub struct Config {
    pub entries: Vec<(String, ConfigValue)>,
}

/// What can be wrong with the configuration, reported at construction
/// and never at encode or accept time.
#[derive(Clone, Copy, PartialEq, Eq, Structural, Debug)]
pub enum ConfigError {
    /// The extra-fields entry is present but is not a table.
    ExtraFieldsNotTable,
    /// A value inside the extra-fields table is not a string.
    ExtraFieldValueNotString,
    /// The listen address entry is present but is not a string.
    ListenNotString,
    /// The framing entry is present but is not a string naming a
    /// supported framing scheme.
    UnsupportedFraming,
    /// The worker-thread count is present but is not a positive integer.
    ThreadsNotPositive,
    /// The timeout entry is present but is not a non-negative integer.
    TimeoutNotInteger,
}

/// The value bound to `key`: the first entry whose path equals it.
pub open spec fn spec_lookup(entries: Seq<(String, ConfigValue)>, key: Seq<char>) -> Option<
    ConfigValue,
>
    decreases entries.len(),
{
    if entries.len() == 0 {
        None
    } else if entries[0].0@ == key {
        Some(entries[0].1)
    } else {
        spec_lookup(entries.drop_first(), key)
    }
}

impl Config {
    /// Look a value up by its dotted path.
    pub fn lookup(&self, key: &str) -> (r: Option<&ConfigValue>)
        ensures
            match r {
                Some(v) => spec_lookup(self.entries@, key@) == Some(*v),
                None => spec_lookup(self.entries@, key@) is None,
            },
    {
        let n = self.entries.len();
        let mut i: usize = 0;
        proof {
            assert(self.entries@.skip(0) =~= self.entries@);
        }
        while i < n
            invariant
                n == self.entries@.len(),
                i <= n,
                spec_lookup(self.entries@, key@) == spec_lookup(
                    self.entries@.skip(i as int),
                    key@,
                ),
            decreases n - i,
        {
            if crate::text::str_eq(self.entries[i].0.as_str(), key) {
                proof {
                    assert(self.entries@.skip(i as int)[0] == self.entries@[i as int]);
                }
                return Some(&self.entries[i].1);
            }
            proof {
                assert(self.entries@.skip(i as int)[0] == self.entries@[i as int]);
                assert(self.entries@.skip(i as int).drop_first() =~= self.entries@.skip(
                    i + 1 as int,
                ));
            }
            i = i + 1;
        }
        proof {
            assert(self.entries@.skip(n as int).len() == 0);
        }
        None
    }
}

} // verus!
