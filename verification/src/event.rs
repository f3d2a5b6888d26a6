//! The telemetry record pushed by agents.

use vstd::prelude::*;

verus! {

/// One telemetry record. Fields are producer-supplied and carried verbatim:
/// the core never validates or normalizes them. `time` is a producer
/// timestamp string that is never parsed or compared; ordering inside the
/// store is always positional (append order). `data` is an opaque structured
/// payload carried through as its serialized text, never inspected.
pub struct Event {
    pub schema_version: u32,
    pub category: String,
    pub event_type: String,
    pub time: String,
    pub host: String,
    pub host_ipv4: String,
    pub os: String,
    pub source: String,
    pub severity: String,
    pub message: String,
    pub data: String,
}

impl Clone for Event {
    fn clone(&self) -> (r: Self)
        ensures
            r == *self,
    {
        Event {
            schema_version: self.schema_version,
            category: self.category.clone(),
            event_type: self.event_type.clone(),
            time: self.time.clone(),
            host: self.host.clone(),
            host_ipv4: self.host_ipv4.clone(),
            os: self.os.clone(),
            source: self.source.clone(),
            severity: self.severity.clone(),
            message: self.message.clone(),
            data: self.data.clone(),
        }
    }
}

} // verus!
