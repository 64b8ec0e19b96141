//! The normalized, format-agnostic representation of one log event, and
//! the tagged union carried by its structured-data pairs.

use vstd::prelude::*;
use crate::text::{dec_chars, int_chars, u64_to_string, i64_to_string};

verus! {

/// One structured-data payload value. Numeric and boolean values keep
/// their type so their natural textual form can be emitted.
///
/// A 64-bit float is carried as its decimal rendering: the encoder only
/// ever reads that text, and it is a plain value the contracts can speak
/// of.
pub enum SDValue {
    String(String),
    Bool(bool),
    F64(String),
    I64(i64),
    U64(u64),
    Null,
}

/// Structured data attached to a record: an optional identifier and an
/// ordered list of `(name, value)` pairs; names need not be unique here.
pub struct StructuredData {
    pub sd_id: Option<String>,
    pub pairs: Vec<(String, SDValue)>,
}

/// One log event.
///
/// The timestamp is carried as its literal decimal text, seconds since
/// the epoch with the fractional part preserved; the encoder emits it
/// verbatim.
pub struct Record {
    pub ts: String,
    pub hostname: String,
    pub facility: Option<u8>,
    pub severity: Option<u8>,
    pub appname: Option<String>,
    pub procid: Option<String>,
    pub msgid: Option<String>,
    pub msg: Option<String>,
    pub full_msg: Option<String>,
    pub sd: Option<StructuredData>,
}

/// The natural textual form of a structured-data value, before escaping:
/// strings and float renderings verbatim, booleans as `true`/`false`,
/// integers in decimal, null as the empty string.
pub open spec fn sd_value_chars(v: SDValue) -> Seq<char> {
    match v {
        SDValue::String(s) => s@,
        SDValue::Bool(b) => if b {
            seq!['t', 'r', 'u', 'e']
        } else {
            seq!['f', 'a', 'l', 's', 'e']
        },
        SDValue::F64(s) => s@,
        SDValue::I64(i) => int_chars(i as int),
        SDValue::U64(u) => dec_chars(u as nat),
        SDValue::Null => Seq::empty(),
    }
}

/// Render a structured-data value in its natural textual form.
pub fn sd_value_string(v: &SDValue) -> (s: String)
    ensures
        s@ == sd_value_chars(*v),
{
    match v {
        SDValue::String(s) => s.clone(),
        SDValue::Bool(b) => {
            if *b {
                let s = String::from_str("true");
                proof {
                    reveal_strlit("true");
                    assert(s@ =~= seq!['t', 'r', 'u', 'e']);
                }
                s
            } else {
                let s = String::from_str("false");
                proof {
                    reveal_strlit("false");
                    assert(s@ =~= seq!['f', 'a', 'l', 's', 'e']);
                }
                s
            }
        },
        SDValue::F64(s) => s.clone(),
        SDValue::I64(i) => i64_to_string(*i),
        SDValue::U64(u) => u64_to_string(*u),
        SDValue::Null => {
            let s = String::new();
            proof {
                assert(s@ =~= Seq::<char>::empty());
            }
            s
        },
    }
}

} // verus!
