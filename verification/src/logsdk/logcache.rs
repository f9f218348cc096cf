//! Keys under which a thread caches the receivers of log events.
use vstd::prelude::*;
use crate::logsdk::loglevel::{LogLevel, level_number};

verus! {

/// Which modules and log types a policy applies to.
pub struct LogPolicy {
    pub module_ids: Vec<i32>,
    pub log_types: Vec<i64>,
}

/// The cache key of events of the module with index `module_id` (`0` for
/// none), level `l` and log type `log_type`: the module index, plus the
/// level's number shifted up 16 bits, plus the type shifted up 32 bits (its
/// upper 32 bits shifted out).
pub open spec fn cache_key(module_id: int, l: LogLevel, log_type: i64) -> int {
    module_id + level_number(l) * 0x1_0000 + (log_type as i32) * 0x1_0000_0000
}

/// The cache key of events of module `module` (its index, `0` for none),
/// level `l` and log type `log_type`.
pub fn make_key(module: Option<u16>, l: LogLevel, log_type: i64) -> (r: i64)
    ensures
        r == cache_key(match module { Some(i) => i as int, None => 0 }, l, log_type),
{
    let module_id: i64 = match module {
        None => 0,
        Some(v) => v as i64,
    };
    let v = l.get_value() as i64;
    let shifted: i64 = (#[verifier::truncate] (log_type as i32)) as i64 * 0x1_0000_0000;
    module_id + v * 0x1_0000 + shifted
}

} // verus!
